//! Errors of parsing.
use vstd::prelude::*;
use vstd::string::*;
use vstd::utf8::*;

use crate::slice::checked_sub_text;

verus! {

/// How many bytes on each side of the offset of an error its extract takes.
pub const EXTRACT_PADDING: usize = 8;

/// The first offset of the extract around `index`.
pub open spec fn extract_start(index: int) -> int {
    if index >= EXTRACT_PADDING {
        index - EXTRACT_PADDING
    } else {
        0
    }
}

/// The offset after the extract around `index` in a text of `len` bytes.
pub open spec fn extract_end(len: int, index: int) -> int {
    if index + EXTRACT_PADDING <= len {
        index + EXTRACT_PADDING
    } else {
        len
    }
}

/// Whether `e` reports an error at `at` in the text with bytes `b`: that
/// offset, and the bytes around it when the cut falls on character boundaries.
pub open spec fn reports(e: JsonError, b: Seq<u8>, at: int) -> bool {
    let s = extract_start(at);
    let t = extract_end(b.len() as int, at);
    &&& e.index() == at
    &&& e.extract().is_some() == (is_char_boundary(b, s) && is_char_boundary(b, t))
    &&& e.extract() matches Some(x) ==> encode_utf8(x@) == b.subrange(s, t)
}

/// The character of the decimal digit `d`.
pub open spec fn digit_char(d: nat) -> char {
    if d == 0 {
        '0'
    } else if d == 1 {
        '1'
    } else if d == 2 {
        '2'
    } else if d == 3 {
        '3'
    } else if d == 4 {
        '4'
    } else if d == 5 {
        '5'
    } else if d == 6 {
        '6'
    } else if d == 7 {
        '7'
    } else if d == 8 {
        '8'
    } else {
        '9'
    }
}

/// `n` written in decimal.
pub open spec fn decimal(n: nat) -> Seq<char>
    decreases n,
{
    if n < 10 {
        seq![digit_char(n)]
    } else {
        decimal(n / 10) + seq![digit_char(n % 10)]
    }
}

/// The message of an error at `index` with the extract `extract`.
pub open spec fn error_message(index: usize, extract: Option<String>) -> Seq<char> {
    match extract {
        Some(x) => "JSON error near '"@ + x@ + "': index "@ + decimal(index as nat) + " in data"@,
        None => "JSON error at index "@ + decimal(index as nat) + " in data"@,
    }
}

/// The text of the decimal digit `d`.
fn digit_text(d: usize) -> (r: &'static str)
    requires
        d < 10,
    ensures
        r@ == seq![digit_char(d as nat)],
{
    proof {
        reveal_strlit("0");
        reveal_strlit("1");
        reveal_strlit("2");
        reveal_strlit("3");
        reveal_strlit("4");
        reveal_strlit("5");
        reveal_strlit("6");
        reveal_strlit("7");
        reveal_strlit("8");
        reveal_strlit("9");
    }
    let r = if d == 0 {
        "0"
    } else if d == 1 {
        "1"
    } else if d == 2 {
        "2"
    } else if d == 3 {
        "3"
    } else if d == 4 {
        "4"
    } else if d == 5 {
        "5"
    } else if d == 6 {
        "6"
    } else if d == 7 {
        "7"
    } else if d == 8 {
        "8"
    } else {
        "9"
    };
    assert(r@ =~= seq![digit_char(d as nat)]);
    r
}

/// `n` written in decimal.
fn decimal_text(n: usize) -> (r: String)
    ensures
        r@ == decimal(n as nat),
    decreases n,
{
    if n < 10 {
        String::from_str(digit_text(n))
    } else {
        let mut s = decimal_text(n / 10);
        s.append(digit_text(n % 10));
        s
    }
}

/// A parsing error: the byte offset at which the text was found malformed,
/// and the text around it when that part can be cut from the source without
/// splitting a character.
#[derive(Debug)]
pub struct JsonError {
    index: usize,
    extract: Option<String>,
}

impl JsonError {
    /// The error at `index` in `source`.
    pub fn new(source: &str, index: usize) -> (r: JsonError)
        requires
            index <= source.spec_bytes().len(),
        ensures
            reports(r, source.spec_bytes(), index as int),
    {
        let len = source.as_bytes().len();
        let start = if index >= EXTRACT_PADDING {
            index - EXTRACT_PADDING
        } else {
            0
        };
        let end = if len >= EXTRACT_PADDING && index <= len - EXTRACT_PADDING {
            index + EXTRACT_PADDING
        } else {
            len
        };
        let extract = match checked_sub_text(source, start, end) {
            Some(t) => Some(t.to_owned()),
            None => None,
        };
        JsonError { index, extract }
    }

    pub closed spec fn index(&self) -> usize {
        self.index
    }

    pub closed spec fn extract(&self) -> Option<String> {
        self.extract
    }

    /// A message for people: `JSON error near '<extract>': index <N> in
    /// data`, or `JSON error at index <N> in data` when there is no extract.
    pub fn message(&self) -> (r: String)
        ensures
            r@ == error_message(self.index(), self.extract()),
    {
        let number = decimal_text(self.index);
        match &self.extract {
            Some(x) => {
                let mut s = String::from_str("JSON error near '");
                s.append(x.as_str());
                s.append("': index ");
                s.append(number.as_str());
                s.append(" in data");
                s
            },
            None => {
                let mut s = String::from_str("JSON error at index ");
                s.append(number.as_str());
                s.append(" in data");
                s
            },
        }
    }

    /// The byte offset of the error in the source.
    pub fn get_index(&self) -> (r: usize)
        ensures
            r == self.index(),
    {
        self.index
    }

    /// The text around the error, if it could be cut out.
    pub fn get_extract(&self) -> (r: &Option<String>)
        ensures
            *r == self.extract(),
    {
        &self.extract
    }
}

} // verus!
