//! Spans of a source text, and the text that a span covers.
use vstd::prelude::*;
use vstd::string::*;
use vstd::utf8::*;

verus! {

broadcast use {is_char_boundary_start_end_of_seq, encode_utf8_valid_utf8};

/// A span `[beginning, end)` of byte offsets into a source text.
#[derive(Debug, Clone, Copy, PartialEq, Eq, Structural)]
pub struct Slice {
    pub beginning: usize,
    pub end: usize,
}

impl Slice {
    /// The span from `beginning` to `end`.
    pub fn from(beginning: usize, end: usize) -> (r: Slice)
        ensures
            r.beginning == beginning,
            r.end == end,
    {
        Slice { beginning, end }
    }

    /// The span of a whole text.
    pub fn from_str(source: &str) -> (r: Slice)
        ensures
            r.beginning == 0,
            r.end == source.spec_bytes().len(),
    {
        Slice { beginning: 0, end: source.as_bytes().len() }
    }

    /// The span that covers nothing.
    pub fn empty() -> (r: Slice)
        ensures
            r.beginning == 0,
            r.end == 0,
    {
        Slice { beginning: 0, end: 0 }
    }
}

/// A position at which a text can be cut without splitting a character: its
/// end, one that holds an ASCII byte, or one right after an ASCII byte.
pub open spec fn ascii_cut(b: Seq<u8>, p: int) -> bool {
    ||| p == b.len()
    ||| (0 <= p < b.len() && b[p] < 0x80)
    ||| (0 < p <= b.len() && b[p - 1] < 0x80)
}

proof fn lemma_boundary_after_ascii(b: Seq<u8>, p: int)
    requires
        valid_utf8(b),
        0 < p <= b.len(),
        b[p - 1] < 0x80,
    ensures
        is_char_boundary(b, p),
    decreases b.len(),
{
    let l = length_of_first_scalar(b);
    if p - 1 >= l {
        let rest = pop_first_scalar(b);
        assert(rest[p - l - 1] == b[p - 1]);
        lemma_boundary_after_ascii(rest, p - l);
    } else {
        assert(is_char_boundary(pop_first_scalar(b), 0));
    }
}

/// A cut at an ASCII byte, or right after one, splits no character.
pub proof fn lemma_ascii_cut(b: Seq<u8>, p: int)
    requires
        valid_utf8(b),
        ascii_cut(b, p),
    ensures
        is_char_boundary(b, p),
{
    if p == b.len() {
    } else if 0 <= p < b.len() && b[p] < 0x80 {
        is_char_boundary_iff_is_leading_byte(b, p);
    } else {
        lemma_boundary_after_ascii(b, p);
    }
}

/// The part of `source` between the byte offsets `beginning` and `end`.
pub fn sub_text<'a>(source: &'a str, beginning: usize, end: usize) -> (r: &'a str)
    requires
        beginning <= end <= source.spec_bytes().len(),
        ascii_cut(source.spec_bytes(), beginning as int),
        ascii_cut(source.spec_bytes(), end as int),
    ensures
        r.spec_bytes() == source.spec_bytes().subrange(beginning as int, end as int),
{
    let ghost b = source.spec_bytes();
    proof {
        lemma_ascii_cut(b, end as int);
    }
    let (head, _) = source.split_at(end);
    let ghost h = head.spec_bytes();
    proof {
        valid_utf8_split(b, end as int);
        if beginning < end {
            assert(h[beginning as int] == b[beginning as int]);
            if beginning > 0 {
                assert(h[beginning - 1] == b[beginning - 1]);
            }
            lemma_ascii_cut(h, beginning as int);
        }
    }
    let (_, mid) = head.split_at(beginning);
    proof {
        assert(mid.spec_bytes() =~= b.subrange(beginning as int, end as int));
    }
    mid
}

/// The part of `source` between the byte offsets `beginning` and `end`, if
/// both fall on character boundaries.
pub fn checked_sub_text<'a>(source: &'a str, beginning: usize, end: usize) -> (r: Option<&'a str>)
    requires
        beginning <= end <= source.spec_bytes().len(),
    ensures
        r.is_some() == (is_char_boundary(source.spec_bytes(), beginning as int) && is_char_boundary(
            source.spec_bytes(),
            end as int,
        )),
        r matches Some(t) ==> t.spec_bytes() == source.spec_bytes().subrange(
            beginning as int,
            end as int,
        ),
{
    if !source.is_char_boundary(beginning) || !source.is_char_boundary(end) {
        return None;
    }
    let ghost b = source.spec_bytes();
    let (head, _) = source.split_at(end);
    let ghost h = head.spec_bytes();
    proof {
        valid_utf8_split(b, end as int);
        if 0 < beginning < end {
            is_char_boundary_iff_not_is_continuation_byte(b, beginning as int);
            is_char_boundary_iff_not_is_continuation_byte(h, beginning as int);
        }
    }
    let (_, mid) = head.split_at(beginning);
    proof {
        assert(mid.spec_bytes() =~= b.subrange(beginning as int, end as int));
    }
    Some(mid)
}

} // verus!
