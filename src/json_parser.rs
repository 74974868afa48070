//! The parsing engine: a cursor over the bytes of a source text that reads
//! one JSON document by recursive descent.
use vstd::prelude::*;
use vstd::string::*;

use crate::json_error::{reports, JsonError};
use crate::json_item::{entry_keys, entry_nodes, item_nodes, JsonItem};
use crate::json_type::JsonType;
use crate::key::Key;
use crate::model::{
    array_at, array_items, digits_end, document_at, false_word, first_key_at, is_digit, is_sign,
    is_ws, key_slot, lemma_colon_after_ws, lemma_value_after_ws, literal_at, null_word, number_at,
    object_at, object_members, put, skip_ws, string_at, string_close, true_word, value_at, Outcome,
    BACKSLASH, CARRIAGE_RETURN, CLOSE_BRACE, CLOSE_BRACKET, COLON, COMMA, DIGIT_NINE, DIGIT_ZERO,
    DOT, LINE_FEED, LOWER_A, LOWER_E, LOWER_F, LOWER_L, LOWER_N, LOWER_R, LOWER_S, LOWER_T, LOWER_U,
    MAX_DEPTH, MINUS, OPEN_BRACE, OPEN_BRACKET, PLUS, QUOTE, SPACE, TAB, UPPER_E,
};
use crate::slice::{sub_text, Slice};

verus! {

/// Whether `r` is what reading `o` in the bytes `b` gives, `next` being where
/// the cursor stands after a value.
pub open spec fn delivers<'a>(
    r: Result<JsonItem<'a>, JsonError>,
    o: Outcome,
    b: Seq<u8>,
    next: int,
) -> bool {
    match o {
        Outcome::Parsed { node, next: n } => r matches Ok(item) && item@ == node && next == n,
        Outcome::Failed { at } => r matches Err(e) && reports(e, b, at),
    }
}

/// A cursor over the bytes of a source text.
pub struct JsonParser<'a> {
    source: &'a str,
    bytes: &'a [u8],
    index: usize,
    length: usize,
}

impl<'a> JsonParser<'a> {
    /// The bytes of the source.
    pub closed spec fn data(&self) -> Seq<u8> {
        self.bytes@
    }

    /// The offset of the cursor.
    pub closed spec fn position(&self) -> int {
        self.index as int
    }

    /// The cursor reads the bytes of its source and stands within them.
    pub closed spec fn wf(&self) -> bool {
        &&& self.bytes@ == self.source.spec_bytes()
        &&& self.index <= self.bytes@.len()
        &&& self.length == self.bytes@.len()
    }

    /// `self` reads the same text as `other`.
    spec fn same_text(&self, other: &JsonParser<'a>) -> bool {
        &&& self.source == other.source
        &&& self.bytes@ == other.bytes@
        &&& self.wf()
    }

    /// A cursor at the start of `text`.
    pub fn new(text: &'a str) -> (r: JsonParser<'a>)
        ensures
            r.wf(),
            r.data() == text.spec_bytes(),
            r.position() == 0,
    {
        let bytes = text.as_bytes();
        JsonParser { source: text, bytes, index: 0, length: bytes.len() }
    }

    /// The byte `offset` places after the cursor.
    fn read_offset_byte(&self, offset: usize) -> (r: u8)
        requires
            self.wf(),
            self.index + offset < self.bytes@.len(),
        ensures
            r == self.bytes@[self.index + offset],
    {
        self.bytes[self.index + offset]
    }

    /// The byte under the cursor.
    fn next_byte(&self) -> (r: u8)
        requires
            self.wf(),
            self.index < self.bytes@.len(),
        ensures
            r == self.bytes@[self.index as int],
    {
        self.bytes[self.index]
    }

    /// Whether the cursor is on the byte `c`.
    fn at_byte(&self, c: u8) -> (r: bool)
        requires
            self.wf(),
        ensures
            r == (self.index < self.bytes@.len() && self.bytes@[self.index as int] == c),
    {
        self.index < self.length && self.bytes[self.index] == c
    }

    /// Moves the cursor one byte on.
    fn increment_index(&mut self)
        requires
            old(self).wf(),
            old(self).index < old(self).bytes@.len(),
        ensures
            final(self).same_text(old(self)),
            final(self).index == old(self).index + 1,
    {
        self.index = self.index + 1;
    }

    /// The error at `at`.
    fn error_at(&self, at: usize) -> (r: JsonError)
        requires
            self.wf(),
            at <= self.bytes@.len(),
        ensures
            reports(r, self.bytes@, at as int),
    {
        JsonError::new(self.source, at)
    }

    /// Moves the cursor past whitespace.
    fn skip_whitespace(&mut self)
        requires
            old(self).wf(),
        ensures
            final(self).same_text(old(self)),
            final(self).index == skip_ws(old(self).bytes@, old(self).index as int),
            final(self).index >= old(self).index,
            final(self).index < old(self).bytes@.len() ==> !is_ws(
                old(self).bytes@[final(self).index as int],
            ),
    {
        let ghost b = self.bytes@;
        let ghost start = self.index as int;
        while self.index < self.length
            invariant
                self.wf(),
                self.source == old(self).source,
                self.bytes@ == b,
                b == old(self).bytes@,
                start == old(self).index,
                start <= self.index,
                skip_ws(b, self.index as int) == skip_ws(b, start),
            decreases b.len() - self.index,
        {
            let c = self.next_byte();
            if c != SPACE && c != TAB && c != LINE_FEED && c != CARRIAGE_RETURN {
                return;
            }
            self.increment_index();
        }
    }

    /// Moves the cursor past decimal digits.
    fn scan_digits(&mut self)
        requires
            old(self).wf(),
        ensures
            final(self).same_text(old(self)),
            final(self).index == digits_end(old(self).bytes@, old(self).index as int),
            final(self).index >= old(self).index,
            final(self).index > old(self).index ==> is_digit(
                old(self).bytes@[final(self).index - 1],
            ),
    {
        let ghost b = self.bytes@;
        let ghost start = self.index as int;
        while self.index < self.length
            invariant
                self.wf(),
                self.source == old(self).source,
                self.bytes@ == b,
                b == old(self).bytes@,
                start == old(self).index,
                start <= self.index,
                self.index > start ==> is_digit(b[self.index - 1]),
                digits_end(b, self.index as int) == digits_end(b, start),
            decreases b.len() - self.index,
        {
            let c = self.next_byte();
            if c < DIGIT_ZERO || c > DIGIT_NINE {
                return;
            }
            self.increment_index();
        }
    }

    /// Reads `null`; the cursor is on its first byte.
    fn parse_null(&mut self) -> (r: Result<JsonItem<'a>, JsonError>)
        requires
            old(self).wf(),
            old(self).index < old(self).bytes@.len(),
            old(self).bytes@[old(self).index as int] == LOWER_N,
        ensures
            final(self).same_text(old(self)),
            delivers(
                r,
                literal_at(
                    old(self).bytes@,
                    old(self).index as int,
                    null_word(),
                    JsonType::JsonNull,
                ),
                old(self).bytes@,
                final(self).index as int,
            ),
    {
        let ghost b = self.bytes@;
        let mark = self.index;
        if self.length - self.index > 3 && self.read_offset_byte(1) == LOWER_U
            && self.read_offset_byte(2) == LOWER_L && self.read_offset_byte(3) == LOWER_L {
            assert(b.subrange(mark as int, mark + 4) =~= null_word());
            self.index = mark + 4;
            let text = sub_text(self.source, mark, mark + 4);
            Ok(JsonItem::new(Slice::from(mark, mark + 4), text, JsonType::JsonNull))
        } else {
            Err(self.error_at(mark))
        }
    }

    /// Reads `true`; the cursor is on its first byte.
    fn parse_true(&mut self) -> (r: Result<JsonItem<'a>, JsonError>)
        requires
            old(self).wf(),
            old(self).index < old(self).bytes@.len(),
            old(self).bytes@[old(self).index as int] == LOWER_T,
        ensures
            final(self).same_text(old(self)),
            delivers(
                r,
                literal_at(
                    old(self).bytes@,
                    old(self).index as int,
                    true_word(),
                    JsonType::JsonTrue,
                ),
                old(self).bytes@,
                final(self).index as int,
            ),
    {
        let ghost b = self.bytes@;
        let mark = self.index;
        if self.length - self.index > 3 && self.read_offset_byte(1) == LOWER_R
            && self.read_offset_byte(2) == LOWER_U && self.read_offset_byte(3) == LOWER_E {
            assert(b.subrange(mark as int, mark + 4) =~= true_word());
            self.index = mark + 4;
            let text = sub_text(self.source, mark, mark + 4);
            Ok(JsonItem::new(Slice::from(mark, mark + 4), text, JsonType::JsonTrue))
        } else {
            Err(self.error_at(mark))
        }
    }

    /// Reads `false`; the cursor is on its first byte.
    fn parse_false(&mut self) -> (r: Result<JsonItem<'a>, JsonError>)
        requires
            old(self).wf(),
            old(self).index < old(self).bytes@.len(),
            old(self).bytes@[old(self).index as int] == LOWER_F,
        ensures
            final(self).same_text(old(self)),
            delivers(
                r,
                literal_at(
                    old(self).bytes@,
                    old(self).index as int,
                    false_word(),
                    JsonType::JsonFalse,
                ),
                old(self).bytes@,
                final(self).index as int,
            ),
    {
        let ghost b = self.bytes@;
        let mark = self.index;
        if self.length - self.index > 4 && self.read_offset_byte(1) == LOWER_A
            && self.read_offset_byte(2) == LOWER_L && self.read_offset_byte(3) == LOWER_S
            && self.read_offset_byte(4) == LOWER_E {
            assert(b.subrange(mark as int, mark + 5) =~= false_word());
            self.index = mark + 5;
            let text = sub_text(self.source, mark, mark + 5);
            Ok(JsonItem::new(Slice::from(mark, mark + 5), text, JsonType::JsonFalse))
        } else {
            Err(self.error_at(mark))
        }
    }

    /// Reads a number; the cursor is on its sign or its first digit.
    fn parse_number(&mut self) -> (r: Result<JsonItem<'a>, JsonError>)
        requires
            old(self).wf(),
        ensures
            final(self).same_text(old(self)),
            delivers(
                r,
                number_at(old(self).bytes@, old(self).index as int),
                old(self).bytes@,
                final(self).index as int,
            ),
            r is Ok ==> final(self).index > old(self).index,
    {
        let ghost b = self.bytes@;
        let mark = self.index;
        if self.at_byte(PLUS) || self.at_byte(MINUS) {
            self.increment_index();
        }
        let start = self.index;
        self.scan_digits();
        if self.index == start {
            return Err(self.error_at(self.index));
        }
        if self.at_byte(DOT) {
            self.increment_index();
            let start = self.index;
            self.scan_digits();
            if self.index == start {
                return Err(self.error_at(self.index));
            }
        }
        if self.at_byte(LOWER_E) || self.at_byte(UPPER_E) {
            self.increment_index();
            if self.at_byte(PLUS) || self.at_byte(MINUS) {
                self.increment_index();
            }
            let start = self.index;
            self.scan_digits();
            if self.index == start {
                return Err(self.error_at(self.index));
            }
        }
        let end = self.index;
        proof {
            assert(b[mark as int] < 0x80) by {
                if !is_sign(b[mark as int]) {
                    assert(is_digit(b[mark as int]));
                }
            }
        }
        let text = sub_text(self.source, mark, end);
        Ok(JsonItem::new(Slice::from(mark, end), text, JsonType::JsonNumber))
    }

    /// Moves the cursor past a string whose opening quote it is on, and gives
    /// the offset of the closing quote.
    fn scan_string(&mut self) -> (r: Result<usize, JsonError>)
        requires
            old(self).wf(),
            old(self).index < old(self).bytes@.len(),
        ensures
            final(self).same_text(old(self)),
            ({
                let q = string_close(old(self).bytes@, old(self).index + 1, false);
                if q < old(self).bytes@.len() {
                    r == Ok::<usize, JsonError>(q as usize) && final(self).index == q + 1
                        && q >= old(self).index + 1 && old(self).bytes@[q] == QUOTE
                } else {
                    r matches Err(e) && reports(e, old(self).bytes@, old(self).bytes@.len() as int)
                }
            }),
    {
        let ghost b = self.bytes@;
        let ghost start = self.index + 1;
        self.increment_index();
        let mut escaped = false;
        while self.index < self.length
            invariant
                self.wf(),
                self.source == old(self).source,
                self.bytes@ == b,
                b == old(self).bytes@,
                start == old(self).index + 1,
                start <= self.index,
                string_close(b, self.index as int, escaped) == string_close(b, start, false),
            decreases b.len() - self.index,
        {
            let c = self.next_byte();
            if escaped {
                escaped = false;
            } else if c == BACKSLASH {
                escaped = true;
            } else if c == QUOTE {
                let q = self.index;
                self.increment_index();
                return Ok(q);
            }
            self.increment_index();
        }
        Err(self.error_at(self.index))
    }

    /// Reads a string; the cursor is on its opening quote.
    fn parse_string(&mut self) -> (r: Result<JsonItem<'a>, JsonError>)
        requires
            old(self).wf(),
            old(self).index < old(self).bytes@.len(),
            old(self).bytes@[old(self).index as int] == QUOTE,
        ensures
            final(self).same_text(old(self)),
            delivers(
                r,
                string_at(old(self).bytes@, old(self).index as int),
                old(self).bytes@,
                final(self).index as int,
            ),
            r is Ok ==> final(self).index > old(self).index,
    {
        let mark = self.index;
        let q = self.scan_string()?;
        let text = sub_text(self.source, mark + 1, q);
        Ok(JsonItem::new(Slice::from(mark + 1, q), text, JsonType::JsonString))
    }

    /// Reads the value that starts under the cursor, at nesting depth `depth`.
    fn parse_value(&mut self, depth: usize) -> (r: Result<JsonItem<'a>, JsonError>)
        requires
            old(self).wf(),
            depth <= MAX_DEPTH,
        ensures
            final(self).same_text(old(self)),
            delivers(
                r,
                value_at(old(self).bytes@, old(self).index as int, depth as nat),
                old(self).bytes@,
                final(self).index as int,
            ),
            r is Ok ==> final(self).index > old(self).index,
        decreases old(self).bytes@.len() - old(self).index, 2nat,
    {
        if self.index >= self.length {
            return Err(self.error_at(self.index));
        }
        let c = self.next_byte();
        if c == LOWER_N {
            self.parse_null()
        } else if c == LOWER_T {
            self.parse_true()
        } else if c == LOWER_F {
            self.parse_false()
        } else if c == PLUS || c == MINUS || (DIGIT_ZERO <= c && c <= DIGIT_NINE) {
            self.parse_number()
        } else if c == QUOTE {
            self.parse_string()
        } else if c == OPEN_BRACKET {
            self.parse_array(depth)
        } else if c == OPEN_BRACE {
            self.parse_object(depth)
        } else {
            Err(self.error_at(self.index))
        }
    }

    /// Reads an array; the cursor is on its `[`.
    fn parse_array(&mut self, depth: usize) -> (r: Result<JsonItem<'a>, JsonError>)
        requires
            old(self).wf(),
            old(self).index < old(self).bytes@.len(),
            old(self).bytes@[old(self).index as int] == OPEN_BRACKET,
            depth <= MAX_DEPTH,
        ensures
            final(self).same_text(old(self)),
            delivers(
                r,
                array_at(old(self).bytes@, old(self).index as int, depth as nat),
                old(self).bytes@,
                final(self).index as int,
            ),
            r is Ok ==> final(self).index > old(self).index,
        decreases old(self).bytes@.len() - old(self).index, 1nat,
    {
        let ghost b = self.bytes@;
        let mark = self.index;
        if depth >= MAX_DEPTH {
            return Err(self.error_at(mark));
        }
        self.increment_index();
        let mut array: Vec<JsonItem<'a>> = Vec::new();
        assert(item_nodes(array@) =~= seq![]);
        while self.index < self.length
            invariant
                self.wf(),
                self.source == old(self).source,
                self.bytes@ == b,
                b == old(self).bytes@,
                mark == old(self).index,
                mark < self.index,
                b[mark as int] == OPEN_BRACKET,
                depth < MAX_DEPTH,
                array_items(b, mark as int, self.index as int, depth as nat, item_nodes(array@))
                    == array_at(b, mark as int, depth as nat),
            decreases b.len() - self.index,
        {
            let c = self.next_byte();
            if c == SPACE || c == TAB || c == LINE_FEED || c == CARRIAGE_RETURN || c == COMMA {
                self.increment_index();
            } else if c == CLOSE_BRACKET {
                self.increment_index();
                let end = self.index;
                let text = sub_text(self.source, mark, end);
                return Ok(JsonItem::new_array(Slice::from(mark, end), text, array));
            } else {
                let ghost before = item_nodes(array@);
                let item = self.parse_value(depth + 1)?;
                array.push(item);
                assert(item_nodes(array@) =~= before.push(item@));
            }
        }
        Err(self.error_at(self.index))
    }

    /// Reads an object; the cursor is on its `{`.
    fn parse_object(&mut self, depth: usize) -> (r: Result<JsonItem<'a>, JsonError>)
        requires
            old(self).wf(),
            old(self).index < old(self).bytes@.len(),
            old(self).bytes@[old(self).index as int] == OPEN_BRACE,
            depth <= MAX_DEPTH,
        ensures
            final(self).same_text(old(self)),
            delivers(
                r,
                object_at(old(self).bytes@, old(self).index as int, depth as nat),
                old(self).bytes@,
                final(self).index as int,
            ),
            r is Ok ==> final(self).index > old(self).index,
        decreases old(self).bytes@.len() - old(self).index, 1nat,
    {
        let ghost b = self.bytes@;
        let mark = self.index;
        if depth >= MAX_DEPTH {
            return Err(self.error_at(mark));
        }
        self.increment_index();
        let mut members: Vec<(Key<'a>, JsonItem<'a>)> = Vec::new();
        assert(entry_keys(members@) =~= seq![]);
        assert(entry_nodes(members@) =~= seq![]);
        while self.index < self.length
            invariant
                self.wf(),
                self.source == old(self).source,
                self.bytes@ == b,
                b == old(self).bytes@,
                mark == old(self).index,
                mark < self.index,
                b[mark as int] == OPEN_BRACE,
                depth < MAX_DEPTH,
                object_members(
                    b,
                    mark as int,
                    self.index as int,
                    depth as nat,
                    entry_keys(members@),
                    entry_nodes(members@),
                ) == object_at(b, mark as int, depth as nat),
            decreases b.len() - self.index,
        {
            let c = self.next_byte();
            if c == SPACE || c == TAB || c == LINE_FEED || c == CARRIAGE_RETURN || c == COMMA {
                self.increment_index();
            } else if c == CLOSE_BRACE {
                self.increment_index();
                let end = self.index;
                let text = sub_text(self.source, mark, end);
                return Ok(JsonItem::new_map(Slice::from(mark, end), text, members));
            } else if c == QUOTE {
                let ghost keys = entry_keys(members@);
                let ghost vals = entry_nodes(members@);
                let open = self.index;
                let close = self.scan_string()?;
                let key = Key::from_str(sub_text(self.source, open + 1, close));
                proof {
                    lemma_colon_after_ws(b, mark as int, close + 1, depth as nat, keys, vals, key@);
                }
                self.skip_whitespace();
                if self.index >= self.length {
                    return Err(self.error_at(self.index));
                }
                if self.next_byte() != COLON {
                    return Err(self.error_at(self.index));
                }
                self.increment_index();
                proof {
                    lemma_value_after_ws(
                        b,
                        mark as int,
                        self.index as int,
                        depth as nat,
                        keys,
                        vals,
                        key@,
                    );
                }
                self.skip_whitespace();
                if self.index >= self.length {
                    return Err(self.error_at(self.index));
                }
                let value = self.parse_value(depth + 1)?;
                push_to_map(&mut members, key, value);
            } else {
                return Err(self.error_at(self.index));
            }
        }
        Err(self.error_at(self.index))
    }

    /// Reads the document that starts under the cursor, after whitespace:
    /// an object or an array.
    pub fn parse(&mut self) -> (r: Result<JsonItem<'a>, JsonError>)
        requires
            old(self).wf(),
        ensures
            final(self).wf(),
            final(self).data() == old(self).data(),
            delivers(
                r,
                document_at(old(self).data(), old(self).position()),
                old(self).data(),
                final(self).position(),
            ),
    {
        self.skip_whitespace();
        if self.index >= self.length {
            return Err(self.error_at(self.index));
        }
        let c = self.next_byte();
        if c == OPEN_BRACE {
            self.parse_object(0)
        } else if c == OPEN_BRACKET {
            self.parse_array(0)
        } else {
            Err(self.error_at(self.index))
        }
    }
}

/// Adds the member `(key, item)` to `map`: a key already there keeps its
/// place and takes the new value, a new key goes last.
fn push_to_map<'a>(map: &mut Vec<(Key<'a>, JsonItem<'a>)>, key: Key<'a>, item: JsonItem<'a>)
    ensures
        (entry_keys(final(map)@), entry_nodes(final(map)@)) == put(
            entry_keys(old(map)@),
            entry_nodes(old(map)@),
            key@,
            item@,
        ),
{
    let ghost keys = entry_keys(map@);
    let ghost vals = entry_nodes(map@);
    let mut i: usize = 0;
    while i < map.len()
        invariant
            i <= map@.len(),
            map@ == old(map)@,
            keys == entry_keys(map@),
            vals == entry_nodes(map@),
            forall|j: int| 0 <= j < i ==> keys[j] != key@,
        decreases map@.len() - i,
    {
        if map[i].0.eq(&key) {
            proof {
                assert(first_key_at(keys, key@, i as int));
                let s = key_slot(keys, key@);
                assert(first_key_at(keys, key@, s));
                assert(s == i) by {
                    if s < i {
                        assert(keys[s] != key@);
                    }
                    if s > i {
                        assert(keys[i as int] != key@);
                    }
                }
            }
            let ghost item_node = item@;
            map.set(i, (key, item));
            assert(entry_keys(map@) =~= keys);
            assert(entry_nodes(map@) =~= vals.update(i as int, item_node));
            return;
        }
        i = i + 1;
    }
    proof {
        assert(!exists|j: int| first_key_at(keys, key@, j));
    }
    let ghost item_node = item@;
    let ghost key_bytes = key@;
    map.push((key, item));
    assert(entry_keys(map@) =~= keys.push(key_bytes));
    assert(entry_nodes(map@) =~= vals.push(item_node));
}

} // verus!
