//! The meaning of a JSON text, as mathematical functions over its bytes.
//!
//! A document is read left to right by recursive descent. Each function below
//! takes the bytes `b`, a position `i` and the nesting depth `d`, and says
//! either which value starts at `i` and where reading goes on, or at which
//! offset the text is found malformed.
use vstd::prelude::*;

use crate::json_type::JsonType;

verus! {

/// The deepest nesting of arrays and objects that a document may have.
pub const MAX_DEPTH: usize = 128;

pub const SPACE: u8 = 0x20;
pub const TAB: u8 = 0x09;
pub const LINE_FEED: u8 = 0x0a;
pub const CARRIAGE_RETURN: u8 = 0x0d;
pub const DIGIT_ZERO: u8 = 0x30;
pub const DIGIT_NINE: u8 = 0x39;
pub const PLUS: u8 = 0x2b;
pub const MINUS: u8 = 0x2d;
pub const DOT: u8 = 0x2e;
pub const LOWER_E: u8 = 0x65;
pub const UPPER_E: u8 = 0x45;
pub const BACKSLASH: u8 = 0x5c;
pub const QUOTE: u8 = 0x22;
pub const LOWER_N: u8 = 0x6e;
pub const LOWER_U: u8 = 0x75;
pub const LOWER_L: u8 = 0x6c;
pub const LOWER_T: u8 = 0x74;
pub const LOWER_R: u8 = 0x72;
pub const LOWER_F: u8 = 0x66;
pub const LOWER_A: u8 = 0x61;
pub const LOWER_S: u8 = 0x73;
pub const OPEN_BRACKET: u8 = 0x5b;
pub const OPEN_BRACE: u8 = 0x7b;
pub const COMMA: u8 = 0x2c;
pub const CLOSE_BRACKET: u8 = 0x5d;
pub const CLOSE_BRACE: u8 = 0x7d;
pub const COLON: u8 = 0x3a;

/// A parsed JSON value: its kind, the span `[beginning, end)` of its text in
/// the source, the bytes of that span, and for a composite its children. An
/// array has `elements` and no keys; an object has its values in `elements`
/// and the key of each at the same position in `keys`.
pub struct Node {
    pub kind: JsonType,
    pub beginning: int,
    pub end: int,
    pub text: Seq<u8>,
    pub elements: Seq<Node>,
    pub keys: Seq<Seq<u8>>,
}

/// What reading from a position gives: a value and the position after it,
/// or the offset of the first malformation.
pub enum Outcome {
    Parsed { node: Node, next: int },
    Failed { at: int },
}

/// The sentinel for a value that is not there.
pub open spec fn empty_node() -> Node {
    Node {
        kind: JsonType::Empty,
        beginning: 0,
        end: 0,
        text: Seq::empty(),
        elements: Seq::empty(),
        keys: Seq::empty(),
    }
}

pub open spec fn is_ws(c: u8) -> bool {
    c == SPACE || c == TAB || c == LINE_FEED || c == CARRIAGE_RETURN
}

pub open spec fn is_digit(c: u8) -> bool {
    DIGIT_ZERO <= c <= DIGIT_NINE
}

pub open spec fn is_sign(c: u8) -> bool {
    c == PLUS || c == MINUS
}

/// A scalar value with no children, spanning `[s, e)`.
pub open spec fn leaf(b: Seq<u8>, kind: JsonType, s: int, e: int) -> Node {
    Node { kind, beginning: s, end: e, text: b.subrange(s, e), elements: seq![], keys: seq![] }
}

/// The first position at or after `i` that holds no whitespace.
pub open spec fn skip_ws(b: Seq<u8>, i: int) -> int
    decreases b.len() - i,
{
    if 0 <= i < b.len() && is_ws(b[i]) {
        skip_ws(b, i + 1)
    } else {
        i
    }
}

/// The first position at or after `i` that holds no decimal digit.
pub open spec fn digits_end(b: Seq<u8>, i: int) -> int
    decreases b.len() - i,
{
    if 0 <= i < b.len() && is_digit(b[i]) {
        digits_end(b, i + 1)
    } else {
        i
    }
}

/// An optional fraction at `k`: `.` and at least one digit.
/// Gives whether it is well formed, and where it ends or fails.
pub open spec fn fraction_end(b: Seq<u8>, k: int) -> (bool, int) {
    if 0 <= k < b.len() && b[k] == DOT {
        let m = digits_end(b, k + 1);
        (m > k + 1, m)
    } else {
        (true, k)
    }
}

/// An optional exponent at `k`: `e` or `E`, an optional sign, at least one digit.
pub open spec fn exponent_end(b: Seq<u8>, k: int) -> (bool, int) {
    if 0 <= k < b.len() && (b[k] == LOWER_E || b[k] == UPPER_E) {
        let s = if k + 1 < b.len() && is_sign(b[k + 1]) {
            k + 2
        } else {
            k + 1
        };
        let m = digits_end(b, s);
        (m > s, m)
    } else {
        (true, k)
    }
}

/// A number at `i`: an optional sign, at least one digit, an optional
/// fraction and an optional exponent. It ends at the first byte that cannot
/// extend it.
pub open spec fn number_end(b: Seq<u8>, i: int) -> (bool, int) {
    let j = if 0 <= i < b.len() && is_sign(b[i]) {
        i + 1
    } else {
        i
    };
    let k = digits_end(b, j);
    if k == j {
        (false, k)
    } else {
        let f = fraction_end(b, k);
        if !f.0 {
            f
        } else {
            exponent_end(b, f.1)
        }
    }
}

/// The position of the quote that closes a string whose payload is read from
/// `i` (`escaped`: the byte before `i` was an unescaped backslash), or the
/// length of the input if there is none.
pub open spec fn string_close(b: Seq<u8>, i: int, escaped: bool) -> int
    decreases b.len() - i,
{
    if i < 0 || i >= b.len() {
        b.len() as int
    } else if escaped {
        string_close(b, i + 1, false)
    } else if b[i] == BACKSLASH {
        string_close(b, i + 1, true)
    } else if b[i] == QUOTE {
        i
    } else {
        string_close(b, i + 1, false)
    }
}

pub open spec fn null_word() -> Seq<u8> {
    seq![LOWER_N, LOWER_U, LOWER_L, LOWER_L]
}

pub open spec fn true_word() -> Seq<u8> {
    seq![LOWER_T, LOWER_R, LOWER_U, LOWER_E]
}

pub open spec fn false_word() -> Seq<u8> {
    seq![LOWER_F, LOWER_A, LOWER_L, LOWER_S, LOWER_E]
}

/// The literal `w` of kind `kind` at `i`; a truncated or misspelled one fails at `i`.
pub open spec fn literal_at(b: Seq<u8>, i: int, w: Seq<u8>, kind: JsonType) -> Outcome {
    if 0 <= i && i + w.len() <= b.len() && b.subrange(i, i + w.len()) == w {
        Outcome::Parsed { node: leaf(b, kind, i, i + w.len()), next: i + w.len() }
    } else {
        Outcome::Failed { at: i }
    }
}

/// The number at `i`.
pub open spec fn number_at(b: Seq<u8>, i: int) -> Outcome {
    let (ok, e) = number_end(b, i);
    if ok {
        Outcome::Parsed { node: leaf(b, JsonType::JsonNumber, i, e), next: e }
    } else {
        Outcome::Failed { at: e }
    }
}

/// The string whose opening quote is at `i`. Its span is the payload between
/// the quotes, escapes left as they are.
pub open spec fn string_at(b: Seq<u8>, i: int) -> Outcome {
    let q = string_close(b, i + 1, false);
    if q < b.len() {
        Outcome::Parsed { node: leaf(b, JsonType::JsonString, i + 1, q), next: q + 1 }
    } else {
        Outcome::Failed { at: b.len() as int }
    }
}

/// The position of the first entry of `keys` equal to `k`, or -1.
pub open spec fn key_slot(keys: Seq<Seq<u8>>, k: Seq<u8>) -> int {
    if exists|j: int| first_key_at(keys, k, j) {
        choose|j: int| first_key_at(keys, k, j)
    } else {
        -1
    }
}

pub open spec fn first_key_at(keys: Seq<Seq<u8>>, k: Seq<u8>, j: int) -> bool {
    &&& 0 <= j < keys.len()
    &&& keys[j] == k
    &&& forall|m: int| 0 <= m < j ==> keys[m] != k
}

/// An object's members after `(k, v)` is read: a key seen before keeps its
/// place and takes the new value, a new key goes last.
pub open spec fn put(keys: Seq<Seq<u8>>, vals: Seq<Node>, k: Seq<u8>, v: Node) -> (
    Seq<Seq<u8>>,
    Seq<Node>,
) {
    let s = key_slot(keys, k);
    if s >= 0 {
        (keys, vals.update(s, v))
    } else {
        (keys.push(k), vals.push(v))
    }
}

/// The value at `i`, at nesting depth `d`, chosen by its first byte.
pub open spec fn value_at(b: Seq<u8>, i: int, d: nat) -> Outcome
    decreases b.len() - i, 2nat,
{
    if i < 0 || i >= b.len() {
        Outcome::Failed { at: b.len() as int }
    } else {
        let c = b[i];
        if c == LOWER_N {
            literal_at(b, i, null_word(), JsonType::JsonNull)
        } else if c == LOWER_T {
            literal_at(b, i, true_word(), JsonType::JsonTrue)
        } else if c == LOWER_F {
            literal_at(b, i, false_word(), JsonType::JsonFalse)
        } else if is_sign(c) || is_digit(c) {
            number_at(b, i)
        } else if c == QUOTE {
            string_at(b, i)
        } else if c == OPEN_BRACKET {
            array_at(b, i, d)
        } else if c == OPEN_BRACE {
            object_at(b, i, d)
        } else {
            Outcome::Failed { at: i }
        }
    }
}

/// The array whose `[` is at `i`, at depth `d`.
pub open spec fn array_at(b: Seq<u8>, i: int, d: nat) -> Outcome
    decreases b.len() - i, 1nat,
{
    if i < 0 || i >= b.len() {
        Outcome::Failed { at: b.len() as int }
    } else if d >= MAX_DEPTH {
        Outcome::Failed { at: i }
    } else {
        array_items(b, i, i + 1, d, seq![])
    }
}

/// The rest of the array opened at `mark`, read from `i`, with `acc` read so far.
/// Whitespace and commas between elements are skipped.
pub open spec fn array_items(b: Seq<u8>, mark: int, i: int, d: nat, acc: Seq<Node>) -> Outcome
    decreases b.len() - i, 3nat,
{
    if i < 0 || i >= b.len() {
        Outcome::Failed { at: b.len() as int }
    } else if is_ws(b[i]) || b[i] == COMMA {
        array_items(b, mark, i + 1, d, acc)
    } else if b[i] == CLOSE_BRACKET {
        Outcome::Parsed {
            node: Node {
                kind: JsonType::JsonArray,
                beginning: mark,
                end: i + 1,
                text: b.subrange(mark, i + 1),
                elements: acc,
                keys: seq![],
            },
            next: i + 1,
        }
    } else {
        match value_at(b, i, d + 1) {
            Outcome::Parsed { node, next } => if i < next <= b.len() {
                array_items(b, mark, next, d, acc.push(node))
            } else {
                Outcome::Failed { at: i }
            },
            Outcome::Failed { at } => Outcome::Failed { at },
        }
    }
}

/// The object whose `{` is at `i`, at depth `d`.
pub open spec fn object_at(b: Seq<u8>, i: int, d: nat) -> Outcome
    decreases b.len() - i, 1nat,
{
    if i < 0 || i >= b.len() {
        Outcome::Failed { at: b.len() as int }
    } else if d >= MAX_DEPTH {
        Outcome::Failed { at: i }
    } else {
        object_members(b, i, i + 1, d, seq![], seq![])
    }
}

/// The rest of the object opened at `mark`, read from `i` where a key or the
/// closing brace is expected. Whitespace and commas between members are skipped.
pub open spec fn object_members(
    b: Seq<u8>,
    mark: int,
    i: int,
    d: nat,
    keys: Seq<Seq<u8>>,
    vals: Seq<Node>,
) -> Outcome
    decreases b.len() - i, 3nat,
{
    if i < 0 || i >= b.len() {
        Outcome::Failed { at: b.len() as int }
    } else if is_ws(b[i]) || b[i] == COMMA {
        object_members(b, mark, i + 1, d, keys, vals)
    } else if b[i] == CLOSE_BRACE {
        Outcome::Parsed {
            node: Node {
                kind: JsonType::JsonMap,
                beginning: mark,
                end: i + 1,
                text: b.subrange(mark, i + 1),
                elements: vals,
                keys,
            },
            next: i + 1,
        }
    } else if b[i] == QUOTE {
        let q = string_close(b, i + 1, false);
        if q >= b.len() {
            Outcome::Failed { at: b.len() as int }
        } else if q < i {
            Outcome::Failed { at: i }
        } else {
            member_colon(b, mark, q + 1, d, keys, vals, b.subrange(i + 1, q))
        }
    } else {
        Outcome::Failed { at: i }
    }
}

/// After the key `k`: whitespace, then the colon.
pub open spec fn member_colon(
    b: Seq<u8>,
    mark: int,
    i: int,
    d: nat,
    keys: Seq<Seq<u8>>,
    vals: Seq<Node>,
    k: Seq<u8>,
) -> Outcome
    decreases b.len() - i, 3nat,
{
    if i < 0 || i >= b.len() {
        Outcome::Failed { at: b.len() as int }
    } else if is_ws(b[i]) {
        member_colon(b, mark, i + 1, d, keys, vals, k)
    } else if b[i] == COLON {
        member_value(b, mark, i + 1, d, keys, vals, k)
    } else {
        Outcome::Failed { at: i }
    }
}

/// After the colon: whitespace, then the value of `k`.
pub open spec fn member_value(
    b: Seq<u8>,
    mark: int,
    i: int,
    d: nat,
    keys: Seq<Seq<u8>>,
    vals: Seq<Node>,
    k: Seq<u8>,
) -> Outcome
    decreases b.len() - i, 3nat,
{
    if i < 0 || i >= b.len() {
        Outcome::Failed { at: b.len() as int }
    } else if is_ws(b[i]) {
        member_value(b, mark, i + 1, d, keys, vals, k)
    } else {
        match value_at(b, i, d + 1) {
            Outcome::Parsed { node, next } => if i < next <= b.len() {
                let (keys2, vals2) = put(keys, vals, k, node);
                object_members(b, mark, next, d, keys2, vals2)
            } else {
                Outcome::Failed { at: i }
            },
            Outcome::Failed { at } => Outcome::Failed { at },
        }
    }
}

/// A document read from `i`: whitespace, then an object or an array. What
/// follows the root value is not read.
pub open spec fn document_at(b: Seq<u8>, i: int) -> Outcome {
    let p = skip_ws(b, i);
    if p >= b.len() {
        Outcome::Failed { at: b.len() as int }
    } else if b[p] == OPEN_BRACE {
        object_at(b, p, 0)
    } else if b[p] == OPEN_BRACKET {
        array_at(b, p, 0)
    } else {
        Outcome::Failed { at: p }
    }
}

/// A whole document.
pub open spec fn document(b: Seq<u8>) -> Outcome {
    document_at(b, 0)
}

/// After the key of a member, whitespace before the colon does not matter.
pub proof fn lemma_colon_after_ws(
    b: Seq<u8>,
    mark: int,
    i: int,
    d: nat,
    keys: Seq<Seq<u8>>,
    vals: Seq<Node>,
    k: Seq<u8>,
)
    requires
        0 <= i,
    ensures
        member_colon(b, mark, i, d, keys, vals, k) == member_colon(
            b,
            mark,
            skip_ws(b, i),
            d,
            keys,
            vals,
            k,
        ),
    decreases b.len() - i,
{
    if 0 <= i < b.len() && is_ws(b[i]) {
        lemma_colon_after_ws(b, mark, i + 1, d, keys, vals, k);
    }
}

/// After the colon of a member, whitespace before the value does not matter.
pub proof fn lemma_value_after_ws(
    b: Seq<u8>,
    mark: int,
    i: int,
    d: nat,
    keys: Seq<Seq<u8>>,
    vals: Seq<Node>,
    k: Seq<u8>,
)
    requires
        0 <= i,
    ensures
        member_value(b, mark, i, d, keys, vals, k) == member_value(
            b,
            mark,
            skip_ws(b, i),
            d,
            keys,
            vals,
            k,
        ),
    decreases b.len() - i,
{
    if 0 <= i < b.len() && is_ws(b[i]) {
        lemma_value_after_ws(b, mark, i + 1, d, keys, vals, k);
    }
}

} // verus!
