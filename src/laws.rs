//! Laws that hold of every document.
use vstd::prelude::*;

use crate::json_item::member;
use crate::json_type::JsonType;
use crate::model::{
    array_at, array_items, digits_end, document, empty_node, exponent_end, false_word, first_key_at,
    fraction_end, is_digit, is_sign, is_ws, key_slot, literal_at, member_colon, member_value,
    null_word, number_at, object_at, object_members, put, skip_ws, string_at, string_close,
    true_word, value_at, Node, Outcome, BACKSLASH, CLOSE_BRACE, CLOSE_BRACKET, COLON, COMMA, DOT,
    LOWER_E, LOWER_F, LOWER_N, LOWER_T, MAX_DEPTH, OPEN_BRACE, OPEN_BRACKET, QUOTE, UPPER_E,
};

verus! {

proof fn lemma_skip_ws_bounds(b: Seq<u8>, i: int)
    requires
        0 <= i <= b.len(),
    ensures
        i <= skip_ws(b, i) <= b.len(),
    decreases b.len() - i,
{
    if i < b.len() && is_ws(b[i]) {
        lemma_skip_ws_bounds(b, i + 1);
    }
}

/// A text whose first byte after whitespace is neither `{` nor `[`, or that
/// has only whitespace, is no document: it fails at the offset of that byte,
/// or at its end.
pub proof fn lemma_root_must_be_container(b: Seq<u8>)
    requires
        skip_ws(b, 0) < b.len() ==> b[skip_ws(b, 0)] != OPEN_BRACE && b[skip_ws(b, 0)]
            != OPEN_BRACKET,
    ensures
        document(b) == (Outcome::Failed { at: skip_ws(b, 0) }),
{
    lemma_skip_ws_bounds(b, 0);
}

/// When an object gets a member whose key it already has, looking the key up
/// gives the value read last.
pub proof fn lemma_last_write_wins(
    keys: Seq<Seq<u8>>,
    vals: Seq<Node>,
    k: Seq<u8>,
    v: Node,
    beginning: int,
    end: int,
    text: Seq<u8>,
)
    requires
        keys.len() == vals.len(),
    ensures
        ({
            let (keys2, vals2) = put(keys, vals, k, v);
            member(
                Node {
                    kind: JsonType::JsonMap,
                    beginning,
                    end,
                    text,
                    elements: vals2,
                    keys: keys2,
                },
                k,
            ) == v
        }),
{
    let (keys2, vals2) = put(keys, vals, k, v);
    let s = key_slot(keys, k);
    if s >= 0 {
        assert(exists|j: int| first_key_at(keys, k, j));
        assert(first_key_at(keys, k, s));
    } else {
        let n = keys.len() as int;
        assert(!exists|j: int| first_key_at(keys, k, j));
        assert(first_key_at(keys2, k, n)) by {
            assert forall|m: int| 0 <= m < n implies keys2[m] != k by {
                assert(keys2[m] == keys[m]);
                if keys[m] == k {
                    lemma_first_match_exists(keys, k, m);
                }
            }
        }
        let s2 = key_slot(keys2, k);
        assert(first_key_at(keys2, k, s2));
        assert(s2 == n) by {
            if s2 < n {
                assert(keys2[s2] == keys[s2]);
                lemma_first_match_exists(keys, k, s2);
            }
        }
    }
}

proof fn lemma_first_match_exists(keys: Seq<Seq<u8>>, k: Seq<u8>, m: int)
    requires
        0 <= m < keys.len(),
        keys[m] == k,
    ensures
        exists|j: int| first_key_at(keys, k, j),
    decreases m,
{
    if exists|j: int| 0 <= j < m && keys[j] == k {
        let j = choose|j: int| 0 <= j < m && keys[j] == k;
        lemma_first_match_exists(keys, k, j);
    } else {
        assert(first_key_at(keys, k, m));
    }
}

/// A node with every span moved `s` bytes toward the start of the text.
pub open spec fn shifted(n: Node, s: int) -> Node
    decreases n,
{
    Node {
        beginning: n.beginning - s,
        end: n.end - s,
        elements: Seq::new(
            n.elements.len(),
            |i: int|
                if 0 <= i < n.elements.len() {
                    shifted(n.elements[i], s)
                } else {
                    empty_node()
                },
        ),
        ..n
    }
}

/// Every node of `v` moved by `s`.
pub open spec fn shifted_all(v: Seq<Node>, s: int) -> Seq<Node> {
    Seq::new(v.len(), |i: int| shifted(v[i], s))
}

/// An outcome with its positions moved by `s`.
pub open spec fn moved(o: Outcome, s: int) -> Outcome {
    match o {
        Outcome::Parsed { node, next } => Outcome::Parsed {
            node: shifted(node, s),
            next: next - s,
        },
        Outcome::Failed { at } => Outcome::Failed { at: at - s },
    }
}

/// `o` is a value read from `i` whose reading stopped before `t`.
pub open spec fn read_before(o: Outcome, i: int, t: int) -> bool {
    o matches Outcome::Parsed { next, .. } && next <= t
}

/// `o` is a composite read from `mark` whose node spans exactly what was read.
pub open spec fn spans_read(o: Outcome, b: Seq<u8>, mark: int) -> bool {
    o matches Outcome::Parsed { node, next } && node.beginning == mark && node.end == next
        && node.text == b.subrange(mark, next)
}

proof fn lemma_skip_local(b: Seq<u8>, s: int, t: int, i: int)
    requires
        0 <= s <= i,
        t <= b.len(),
        skip_ws(b, i) < t,
    ensures
        skip_ws(b.subrange(s, t), i - s) == skip_ws(b, i) - s,
        skip_ws(b, i) >= i,
    decreases b.len() - i,
{
    if 0 <= i < b.len() && is_ws(b[i]) {
        lemma_skip_local(b, s, t, i + 1);
    }
}

proof fn lemma_digits_local(b: Seq<u8>, s: int, t: int, i: int)
    requires
        0 <= s <= i,
        t <= b.len(),
        digits_end(b, i) < t,
    ensures
        digits_end(b.subrange(s, t), i - s) == digits_end(b, i) - s,
        digits_end(b, i) >= i,
    decreases b.len() - i,
{
    if 0 <= i < b.len() && is_digit(b[i]) {
        lemma_digits_local(b, s, t, i + 1);
    }
}

proof fn lemma_digits_ge(b: Seq<u8>, i: int)
    ensures
        digits_end(b, i) >= i,
    decreases b.len() - i,
{
    if 0 <= i < b.len() && is_digit(b[i]) {
        lemma_digits_ge(b, i + 1);
    }
}

proof fn lemma_string_local(b: Seq<u8>, s: int, t: int, i: int, escaped: bool)
    requires
        0 <= s <= i,
        t <= b.len(),
        string_close(b, i, escaped) < t,
    ensures
        string_close(b.subrange(s, t), i - s, escaped) == string_close(b, i, escaped) - s,
        string_close(b, i, escaped) >= i,
    decreases b.len() - i,
{
    if 0 <= i < b.len() {
        if escaped || b[i] != QUOTE {
            lemma_string_local(b, s, t, i + 1, !escaped && b[i] == BACKSLASH);
        }
    }
}

proof fn lemma_number_local(b: Seq<u8>, s: int, t: int, i: int)
    requires
        0 <= s <= i,
        t <= b.len(),
        number_at(b, i) matches Outcome::Parsed { next, .. } && next < t,
    ensures
        number_at(b.subrange(s, t), i - s) == moved(number_at(b, i), s),
        number_at(b, i)->next > i,
{
    let c = b.subrange(s, t);
    let j = if 0 <= i < b.len() && is_sign(b[i]) {
        i + 1
    } else {
        i
    };
    let k = digits_end(b, j);
    lemma_digits_ge(b, j);
    let f = fraction_end(b, k);
    if 0 <= k < b.len() && b[k] == DOT {
        lemma_digits_ge(b, k + 1);
    }
    let x = exponent_end(b, f.1);
    if 0 <= f.1 < b.len() && (b[f.1] == LOWER_E || b[f.1] == UPPER_E) {
        let e0 = if f.1 + 1 < b.len() && is_sign(b[f.1 + 1]) {
            f.1 + 2
        } else {
            f.1 + 1
        };
        lemma_digits_ge(b, e0);
        lemma_digits_local(b, s, t, e0);
    }
    if 0 <= k < b.len() && b[k] == DOT {
        lemma_digits_local(b, s, t, k + 1);
    }
    lemma_digits_local(b, s, t, j);
    let node = number_at(b, i)->node;
    assert(c.subrange(i - s, x.1 - s) =~= b.subrange(i, x.1));
    assert(shifted(node, s).elements =~= node.elements);
}

proof fn lemma_literal_local(b: Seq<u8>, s: int, t: int, i: int, w: Seq<u8>, kind: JsonType)
    requires
        0 <= s <= i,
        t <= b.len(),
        w.len() > 0,
        literal_at(b, i, w, kind) matches Outcome::Parsed { next, .. } && next <= t,
    ensures
        literal_at(b.subrange(s, t), i - s, w, kind) == moved(literal_at(b, i, w, kind), s),
        literal_at(b, i, w, kind)->next > i,
{
    let c = b.subrange(s, t);
    assert(c.subrange(i - s, i - s + w.len()) =~= b.subrange(i, i + w.len()));
    let node = literal_at(b, i, w, kind)->node;
    assert(shifted(node, s).elements =~= node.elements);
}

proof fn lemma_shift_push(v: Seq<Node>, n: Node, s: int)
    ensures
        shifted_all(v.push(n), s) == shifted_all(v, s).push(shifted(n, s)),
{
    assert(shifted_all(v.push(n), s) =~= shifted_all(v, s).push(shifted(n, s)));
}

proof fn lemma_shift_put(keys: Seq<Seq<u8>>, vals: Seq<Node>, k: Seq<u8>, v: Node, s: int)
    requires
        keys.len() == vals.len(),
    ensures
        ({
            let (keys2, vals2) = put(keys, vals, k, v);
            put(keys, shifted_all(vals, s), k, shifted(v, s)) == (keys2, shifted_all(vals2, s))
                && keys2.len() == vals2.len()
        }),
{
    let slot = key_slot(keys, k);
    if slot >= 0 {
        assert(first_key_at(keys, k, slot));
        assert(shifted_all(vals, s).update(slot, shifted(v, s)) =~= shifted_all(
            vals.update(slot, v),
            s,
        ));
    } else {
        lemma_shift_push(vals, v, s);
    }
}

proof fn lemma_node_elements(node: Node, acc: Seq<Node>, s: int)
    requires
        node.elements == acc,
    ensures
        shifted(node, s).elements == shifted_all(acc, s),
{
    assert(shifted(node, s).elements =~= shifted_all(acc, s));
}

proof fn lemma_value_local(b: Seq<u8>, s: int, t: int, i: int, d: nat)
    requires
        0 <= s <= i,
        t <= b.len(),
        value_at(b, i, d) matches Outcome::Parsed { next, .. } && next < t,
    ensures
        value_at(b.subrange(s, t), i - s, d) == moved(value_at(b, i, d), s),
        value_at(b, i, d)->next > i,
    decreases b.len() - i, 2nat,
{
    let c = b.subrange(s, t);
    let x = b[i];
    if x == LOWER_N {
        lemma_literal_local(b, s, t, i, null_word(), JsonType::JsonNull);
    } else if x == LOWER_T {
        lemma_literal_local(b, s, t, i, true_word(), JsonType::JsonTrue);
    } else if x == LOWER_F {
        lemma_literal_local(b, s, t, i, false_word(), JsonType::JsonFalse);
    } else if is_sign(x) || is_digit(x) {
        lemma_number_local(b, s, t, i);
    } else if x == QUOTE {
        lemma_string_local(b, s, t, i + 1, false);
        let q = string_close(b, i + 1, false);
        let node = string_at(b, i)->node;
        assert(c.subrange(i + 1 - s, q - s) =~= b.subrange(i + 1, q));
        assert(shifted(node, s).elements =~= node.elements);
    } else if x == OPEN_BRACKET {
        lemma_array_local(b, s, t, i, d);
    } else {
        lemma_object_local(b, s, t, i, d);
    }
}

proof fn lemma_array_local(b: Seq<u8>, s: int, t: int, i: int, d: nat)
    requires
        0 <= s <= i,
        t <= b.len(),
        read_before(array_at(b, i, d), i, t),
    ensures
        array_at(b.subrange(s, t), i - s, d) == moved(array_at(b, i, d), s),
        array_at(b, i, d)->next > i,
        spans_read(array_at(b, i, d), b, i),
    decreases b.len() - i, 1nat,
{
    lemma_items_local(b, s, t, i, i + 1, d, seq![]);
    assert(shifted_all(seq![], s) =~= seq![]);
}

proof fn lemma_items_local(b: Seq<u8>, s: int, t: int, mark: int, i: int, d: nat, acc: Seq<Node>)
    requires
        0 <= s <= mark < i,
        t <= b.len(),
        read_before(array_items(b, mark, i, d, acc), i, t),
    ensures
        array_items(b.subrange(s, t), mark - s, i - s, d, shifted_all(acc, s)) == moved(
            array_items(b, mark, i, d, acc),
            s,
        ),
        array_items(b, mark, i, d, acc)->next > i,
        spans_read(array_items(b, mark, i, d, acc), b, mark),
    decreases b.len() - i, 3nat,
{
    let c = b.subrange(s, t);
    if is_ws(b[i]) || b[i] == COMMA {
        lemma_items_local(b, s, t, mark, i + 1, d, acc);
    } else if b[i] == CLOSE_BRACKET {
        let node = array_items(b, mark, i, d, acc)->node;
        assert(c.subrange(mark - s, i + 1 - s) =~= b.subrange(mark, i + 1));
        lemma_node_elements(node, acc, s);
    } else {
        let v = value_at(b, i, d + 1);
        let n = v->next;
        lemma_items_local(b, s, t, mark, n, d, acc.push(v->node));
        lemma_value_local(b, s, t, i, d + 1);
        lemma_shift_push(acc, v->node, s);
    }
}

proof fn lemma_object_local(b: Seq<u8>, s: int, t: int, i: int, d: nat)
    requires
        0 <= s <= i,
        t <= b.len(),
        read_before(object_at(b, i, d), i, t),
    ensures
        object_at(b.subrange(s, t), i - s, d) == moved(object_at(b, i, d), s),
        object_at(b, i, d)->next > i,
        spans_read(object_at(b, i, d), b, i),
    decreases b.len() - i, 1nat,
{
    lemma_members_local(b, s, t, i, i + 1, d, seq![], seq![]);
    assert(shifted_all(seq![], s) =~= seq![]);
}

proof fn lemma_members_local(
    b: Seq<u8>,
    s: int,
    t: int,
    mark: int,
    i: int,
    d: nat,
    keys: Seq<Seq<u8>>,
    vals: Seq<Node>,
)
    requires
        0 <= s <= mark < i,
        t <= b.len(),
        keys.len() == vals.len(),
        read_before(object_members(b, mark, i, d, keys, vals), i, t),
    ensures
        object_members(b.subrange(s, t), mark - s, i - s, d, keys, shifted_all(vals, s)) == moved(
            object_members(b, mark, i, d, keys, vals),
            s,
        ),
        object_members(b, mark, i, d, keys, vals)->next > i,
        spans_read(object_members(b, mark, i, d, keys, vals), b, mark),
    decreases b.len() - i, 3nat,
{
    let c = b.subrange(s, t);
    if is_ws(b[i]) || b[i] == COMMA {
        lemma_members_local(b, s, t, mark, i + 1, d, keys, vals);
    } else if b[i] == CLOSE_BRACE {
        let node = object_members(b, mark, i, d, keys, vals)->node;
        assert(c.subrange(mark - s, i + 1 - s) =~= b.subrange(mark, i + 1));
        lemma_node_elements(node, vals, s);
    } else {
        let q = string_close(b, i + 1, false);
        let k = b.subrange(i + 1, q);
        lemma_colon_local(b, s, t, mark, q + 1, d, keys, vals, k);
        lemma_string_local(b, s, t, i + 1, false);
        assert(c.subrange(i + 1 - s, q - s) =~= k);
    }
}

proof fn lemma_colon_local(
    b: Seq<u8>,
    s: int,
    t: int,
    mark: int,
    i: int,
    d: nat,
    keys: Seq<Seq<u8>>,
    vals: Seq<Node>,
    k: Seq<u8>,
)
    requires
        0 <= s <= mark < i,
        t <= b.len(),
        keys.len() == vals.len(),
        read_before(member_colon(b, mark, i, d, keys, vals, k), i, t),
    ensures
        member_colon(b.subrange(s, t), mark - s, i - s, d, keys, shifted_all(vals, s), k) == moved(
            member_colon(b, mark, i, d, keys, vals, k),
            s,
        ),
        member_colon(b, mark, i, d, keys, vals, k)->next > i,
        spans_read(member_colon(b, mark, i, d, keys, vals, k), b, mark),
    decreases b.len() - i, 3nat,
{
    if is_ws(b[i]) {
        lemma_colon_local(b, s, t, mark, i + 1, d, keys, vals, k);
    } else {
        lemma_member_value_local(b, s, t, mark, i + 1, d, keys, vals, k);
    }
}

proof fn lemma_member_value_local(
    b: Seq<u8>,
    s: int,
    t: int,
    mark: int,
    i: int,
    d: nat,
    keys: Seq<Seq<u8>>,
    vals: Seq<Node>,
    k: Seq<u8>,
)
    requires
        0 <= s <= mark < i,
        t <= b.len(),
        keys.len() == vals.len(),
        read_before(member_value(b, mark, i, d, keys, vals, k), i, t),
    ensures
        member_value(b.subrange(s, t), mark - s, i - s, d, keys, shifted_all(vals, s), k) == moved(
            member_value(b, mark, i, d, keys, vals, k),
            s,
        ),
        member_value(b, mark, i, d, keys, vals, k)->next > i,
        spans_read(member_value(b, mark, i, d, keys, vals, k), b, mark),
    decreases b.len() - i, 3nat,
{
    if is_ws(b[i]) {
        lemma_member_value_local(b, s, t, mark, i + 1, d, keys, vals, k);
    } else {
        let v = value_at(b, i, d + 1);
        let n = v->next;
        let (keys2, vals2) = put(keys, vals, k, v->node);
        lemma_shift_put(keys, vals, k, v->node, s);
        lemma_members_local(b, s, t, mark, n, d, keys2, vals2);
        lemma_value_local(b, s, t, i, d + 1);
    }
}

/// `o` ends within the input `b`.
pub open spec fn bounded(o: Outcome, b: Seq<u8>) -> bool {
    o matches Outcome::Parsed { next, .. } ==> next <= b.len()
}

proof fn lemma_value_bound(b: Seq<u8>, i: int, d: nat)
    ensures
        bounded(value_at(b, i, d), b),
    decreases b.len() - i, 2nat,
{
    if 0 <= i < b.len() {
        if b[i] == OPEN_BRACKET {
            lemma_array_bound(b, i, d);
        } else if b[i] == OPEN_BRACE {
            lemma_object_bound(b, i, d);
        } else if is_sign(b[i]) || is_digit(b[i]) {
            let j = if is_sign(b[i]) {
                i + 1
            } else {
                i
            };
            lemma_digits_le(b, j);
            let k = digits_end(b, j);
            if 0 <= k < b.len() && b[k] == DOT {
                lemma_digits_le(b, k + 1);
            }
            let f = fraction_end(b, k);
            if 0 <= f.1 < b.len() && (b[f.1] == LOWER_E || b[f.1] == UPPER_E) {
                lemma_digits_le(b, f.1 + 1);
                lemma_digits_le(b, f.1 + 2);
            }
        }
    }
}

proof fn lemma_digits_le(b: Seq<u8>, i: int)
    ensures
        i <= b.len() ==> digits_end(b, i) <= b.len(),
    decreases b.len() - i,
{
    if 0 <= i < b.len() && is_digit(b[i]) {
        lemma_digits_le(b, i + 1);
    }
}

proof fn lemma_array_bound(b: Seq<u8>, i: int, d: nat)
    ensures
        bounded(array_at(b, i, d), b),
    decreases b.len() - i, 1nat,
{
    if 0 <= i < b.len() && d < MAX_DEPTH {
        lemma_items_bound(b, i, i + 1, d, seq![]);
    }
}

proof fn lemma_items_bound(b: Seq<u8>, mark: int, i: int, d: nat, acc: Seq<Node>)
    ensures
        bounded(array_items(b, mark, i, d, acc), b),
    decreases b.len() - i, 3nat,
{
    if 0 <= i < b.len() {
        if is_ws(b[i]) || b[i] == COMMA {
            lemma_items_bound(b, mark, i + 1, d, acc);
        } else if b[i] != CLOSE_BRACKET {
            let v = value_at(b, i, d + 1);
            if let Outcome::Parsed { node, next } = v {
                if i < next <= b.len() {
                    lemma_items_bound(b, mark, next, d, acc.push(node));
                }
            }
        }
    }
}

proof fn lemma_object_bound(b: Seq<u8>, i: int, d: nat)
    ensures
        bounded(object_at(b, i, d), b),
    decreases b.len() - i, 1nat,
{
    if 0 <= i < b.len() && d < MAX_DEPTH {
        lemma_members_bound(b, i, i + 1, d, seq![], seq![]);
    }
}

proof fn lemma_members_bound(
    b: Seq<u8>,
    mark: int,
    i: int,
    d: nat,
    keys: Seq<Seq<u8>>,
    vals: Seq<Node>,
)
    ensures
        bounded(object_members(b, mark, i, d, keys, vals), b),
    decreases b.len() - i, 3nat,
{
    if 0 <= i < b.len() {
        if is_ws(b[i]) || b[i] == COMMA {
            lemma_members_bound(b, mark, i + 1, d, keys, vals);
        } else if b[i] == QUOTE {
            let q = string_close(b, i + 1, false);
            if i <= q < b.len() {
                lemma_colon_bound(b, mark, q + 1, d, keys, vals, b.subrange(i + 1, q));
            }
        }
    }
}

proof fn lemma_colon_bound(
    b: Seq<u8>,
    mark: int,
    i: int,
    d: nat,
    keys: Seq<Seq<u8>>,
    vals: Seq<Node>,
    k: Seq<u8>,
)
    ensures
        bounded(member_colon(b, mark, i, d, keys, vals, k), b),
    decreases b.len() - i, 3nat,
{
    if 0 <= i < b.len() {
        if is_ws(b[i]) {
            lemma_colon_bound(b, mark, i + 1, d, keys, vals, k);
        } else if b[i] == COLON {
            lemma_member_value_bound(b, mark, i + 1, d, keys, vals, k);
        }
    }
}

proof fn lemma_member_value_bound(
    b: Seq<u8>,
    mark: int,
    i: int,
    d: nat,
    keys: Seq<Seq<u8>>,
    vals: Seq<Node>,
    k: Seq<u8>,
)
    ensures
        bounded(member_value(b, mark, i, d, keys, vals, k), b),
    decreases b.len() - i, 3nat,
{
    if 0 <= i < b.len() {
        if is_ws(b[i]) {
            lemma_member_value_bound(b, mark, i + 1, d, keys, vals, k);
        } else {
            let v = value_at(b, i, d + 1);
            if let Outcome::Parsed { node, next } = v {
                if i < next <= b.len() {
                    let (keys2, vals2) = put(keys, vals, k, node);
                    lemma_members_bound(b, mark, next, d, keys2, vals2);
                }
            }
        }
    }
}

/// Reading the text of a document's root as a document of its own gives the
/// same tree: the same kinds, texts, keys and elements, every span moved by
/// the offset at which the root started in the first text.
pub proof fn lemma_spans_round_trip(b: Seq<u8>)
    requires
        document(b) is Parsed,
    ensures
        ({
            let root = document(b)->node;
            &&& root.text == b.subrange(root.beginning, root.end)
            &&& document(root.text) == (Outcome::Parsed {
                node: shifted(root, root.beginning),
                next: root.text.len() as int,
            })
        }),
{
    let p = skip_ws(b, 0);
    lemma_skip_ws_bounds(b, 0);
    let next = document(b)->next;
    if b[p] == OPEN_BRACE {
        lemma_object_bound(b, p, 0);
    } else {
        lemma_array_bound(b, p, 0);
    }
    if b[p] == OPEN_BRACE {
        lemma_object_local(b, p, next, p, 0);
    } else {
        lemma_array_local(b, p, next, p, 0);
    }
    let c = b.subrange(p, next);
    assert(skip_ws(c, 0) == 0);
}

/// Every object in the tree of `n` has each key once.
pub open spec fn keys_unique(n: Node) -> bool
    decreases n,
{
    &&& n.keys.no_duplicates()
    &&& forall|i: int| 0 <= i < n.elements.len() ==> keys_unique(#[trigger] n.elements[i])
}

pub open spec fn all_unique(v: Seq<Node>) -> bool {
    forall|i: int| 0 <= i < v.len() ==> keys_unique(#[trigger] v[i])
}

proof fn lemma_put_unique(keys: Seq<Seq<u8>>, vals: Seq<Node>, k: Seq<u8>, v: Node)
    requires
        keys.len() == vals.len(),
        keys.no_duplicates(),
        all_unique(vals),
        keys_unique(v),
    ensures
        ({
            let (keys2, vals2) = put(keys, vals, k, v);
            keys2.len() == vals2.len() && keys2.no_duplicates() && all_unique(vals2)
        }),
{
    let slot = key_slot(keys, k);
    if slot >= 0 {
        assert(first_key_at(keys, k, slot));
    } else {
        let keys2 = keys.push(k);
        assert(!exists|j: int| first_key_at(keys, k, j));
        assert forall|i: int, j: int| 0 <= i < keys2.len() && 0 <= j < keys2.len() && i != j
            implies keys2[i] != keys2[j] by {
            if i == keys.len() && keys[j] == k {
                lemma_first_match_exists(keys, k, j);
            }
            if j == keys.len() && keys[i] == k {
                lemma_first_match_exists(keys, k, i);
            }
        }
    }
}

proof fn lemma_value_unique(b: Seq<u8>, i: int, d: nat)
    requires
        value_at(b, i, d) is Parsed,
    ensures
        keys_unique(value_at(b, i, d)->node),
    decreases b.len() - i, 2nat,
{
    let x = b[i];
    if x == OPEN_BRACKET {
        lemma_array_unique(b, i, d);
    } else if x == OPEN_BRACE {
        lemma_object_unique(b, i, d);
    }
}

proof fn lemma_array_unique(b: Seq<u8>, i: int, d: nat)
    requires
        array_at(b, i, d) is Parsed,
    ensures
        keys_unique(array_at(b, i, d)->node),
    decreases b.len() - i, 1nat,
{
    lemma_items_unique(b, i, i + 1, d, seq![]);
}

proof fn lemma_items_unique(b: Seq<u8>, mark: int, i: int, d: nat, acc: Seq<Node>)
    requires
        array_items(b, mark, i, d, acc) is Parsed,
        all_unique(acc),
    ensures
        keys_unique(array_items(b, mark, i, d, acc)->node),
    decreases b.len() - i, 3nat,
{
    if is_ws(b[i]) || b[i] == COMMA {
        lemma_items_unique(b, mark, i + 1, d, acc);
    } else if b[i] == CLOSE_BRACKET {
        let node = array_items(b, mark, i, d, acc)->node;
        assert(node.keys.no_duplicates());
    } else {
        let v = value_at(b, i, d + 1);
        lemma_value_unique(b, i, d + 1);
        let acc2 = acc.push(v->node);
        assert(all_unique(acc2)) by {
            assert forall|j: int| 0 <= j < acc2.len() implies keys_unique(#[trigger] acc2[j]) by {
                if j < acc.len() {
                    assert(acc2[j] == acc[j]);
                }
            }
        }
        lemma_items_unique(b, mark, v->next, d, acc2);
    }
}

proof fn lemma_object_unique(b: Seq<u8>, i: int, d: nat)
    requires
        object_at(b, i, d) is Parsed,
    ensures
        keys_unique(object_at(b, i, d)->node),
    decreases b.len() - i, 1nat,
{
    assert(Seq::<Seq<u8>>::empty().no_duplicates());
    lemma_members_unique(b, i, i + 1, d, seq![], seq![]);
}

proof fn lemma_members_unique(
    b: Seq<u8>,
    mark: int,
    i: int,
    d: nat,
    keys: Seq<Seq<u8>>,
    vals: Seq<Node>,
)
    requires
        object_members(b, mark, i, d, keys, vals) is Parsed,
        keys.len() == vals.len(),
        keys.no_duplicates(),
        all_unique(vals),
    ensures
        keys_unique(object_members(b, mark, i, d, keys, vals)->node),
    decreases b.len() - i, 3nat,
{
    if is_ws(b[i]) || b[i] == COMMA {
        lemma_members_unique(b, mark, i + 1, d, keys, vals);
    } else if b[i] == QUOTE {
        let q = string_close(b, i + 1, false);
        lemma_colon_unique(b, mark, q + 1, d, keys, vals, b.subrange(i + 1, q));
    }
}

proof fn lemma_colon_unique(
    b: Seq<u8>,
    mark: int,
    i: int,
    d: nat,
    keys: Seq<Seq<u8>>,
    vals: Seq<Node>,
    k: Seq<u8>,
)
    requires
        member_colon(b, mark, i, d, keys, vals, k) is Parsed,
        keys.len() == vals.len(),
        keys.no_duplicates(),
        all_unique(vals),
    ensures
        keys_unique(member_colon(b, mark, i, d, keys, vals, k)->node),
    decreases b.len() - i, 3nat,
{
    if is_ws(b[i]) {
        lemma_colon_unique(b, mark, i + 1, d, keys, vals, k);
    } else {
        lemma_member_value_unique(b, mark, i + 1, d, keys, vals, k);
    }
}

proof fn lemma_member_value_unique(
    b: Seq<u8>,
    mark: int,
    i: int,
    d: nat,
    keys: Seq<Seq<u8>>,
    vals: Seq<Node>,
    k: Seq<u8>,
)
    requires
        member_value(b, mark, i, d, keys, vals, k) is Parsed,
        keys.len() == vals.len(),
        keys.no_duplicates(),
        all_unique(vals),
    ensures
        keys_unique(member_value(b, mark, i, d, keys, vals, k)->node),
    decreases b.len() - i, 3nat,
{
    if is_ws(b[i]) {
        lemma_member_value_unique(b, mark, i + 1, d, keys, vals, k);
    } else {
        let v = value_at(b, i, d + 1);
        lemma_value_unique(b, i, d + 1);
        let (keys2, vals2) = put(keys, vals, k, v->node);
        lemma_put_unique(keys, vals, k, v->node);
        lemma_members_unique(b, mark, v->next, d, keys2, vals2);
    }
}

/// In every parsed document, each object, however deep, has each key once:
/// a key met again replaces the value of the earlier member.
pub proof fn lemma_keys_unique(b: Seq<u8>)
    requires
        document(b) is Parsed,
    ensures
        keys_unique(document(b)->node),
{
    let p = skip_ws(b, 0);
    if b[p] == OPEN_BRACE {
        lemma_object_unique(b, p, 0);
    } else {
        lemma_array_unique(b, p, 0);
    }
}

proof fn lemma_too_deep_from(b: Seq<u8>, j: int)
    requires
        0 <= j <= MAX_DEPTH < b.len(),
        forall|m: int| 0 <= m <= MAX_DEPTH ==> b[m] == OPEN_BRACKET,
    ensures
        array_at(b, j, j as nat) == (Outcome::Failed { at: MAX_DEPTH as int }),
    decreases MAX_DEPTH - j,
{
    if j < MAX_DEPTH {
        lemma_too_deep_from(b, j + 1);
        assert(b[j + 1] == OPEN_BRACKET);
        assert(value_at(b, j + 1, (j + 1) as nat) == array_at(b, j + 1, (j + 1) as nat));
    }
}

/// A text that opens more arrays than the nesting limit allows fails at the
/// bracket that would open one level too many.
pub proof fn lemma_nesting_limit(b: Seq<u8>)
    requires
        MAX_DEPTH < b.len(),
        forall|m: int| 0 <= m <= MAX_DEPTH ==> b[m] == OPEN_BRACKET,
    ensures
        document(b) == (Outcome::Failed { at: MAX_DEPTH as int }),
{
    lemma_too_deep_from(b, 0);
    assert(skip_ws(b, 0) == 0);
}

/// `n` opening brackets followed by `n` closing ones.
pub open spec fn nested_arrays(n: nat) -> Seq<u8> {
    Seq::new(2 * n, |i: int| if i < n { OPEN_BRACKET } else { CLOSE_BRACKET })
}

proof fn lemma_nested_from(n: nat, j: int)
    requires
        0 <= j < n <= MAX_DEPTH,
    ensures
        array_at(nested_arrays(n), j, j as nat) matches Outcome::Parsed { node, next }
            && next == 2 * n - j && node.kind == JsonType::JsonArray,
    decreases n - j,
{
    let b = nested_arrays(n);
    assert(b[j] == OPEN_BRACKET);
    if j + 1 < n {
        lemma_nested_from(n, j + 1);
        assert(b[j + 1] == OPEN_BRACKET);
        assert(value_at(b, j + 1, (j + 1) as nat) == array_at(b, j + 1, (j + 1) as nat));
        let v = array_at(b, j + 1, (j + 1) as nat)->node;
        assert(b[2 * n - j - 1] == CLOSE_BRACKET);
        assert(array_items(b, j, 2 * n - j - 1, j as nat, seq![v]) is Parsed);
    } else {
        assert(b[j + 1] == CLOSE_BRACKET);
    }
}

/// Arrays nested as deep as the limit allows, and no deeper, are read whole.
pub proof fn lemma_nesting_within_limit(n: nat)
    requires
        1 <= n <= MAX_DEPTH,
    ensures
        document(nested_arrays(n)) matches Outcome::Parsed { node, next } && next == 2 * n
            && node.kind == JsonType::JsonArray,
{
    let b = nested_arrays(n);
    lemma_nested_from(n, 0);
    assert(b[0] == OPEN_BRACKET);
    assert(skip_ws(b, 0) == 0);
}

} // verus!
