//! The tree of parsed values and the ways to read it.
use vstd::prelude::*;
use vstd::string::*;

use crate::json_type::JsonType;
use crate::key::Key;
use crate::model::{
    empty_node, first_key_at, is_digit, is_sign, key_slot, Node, DIGIT_NINE, DIGIT_ZERO, MINUS,
    PLUS,
};
use crate::slice::Slice;

verus! {

/// The children of a composite item.
#[derive(Debug)]
pub enum Container<'a> {
    Elements(Vec<JsonItem<'a>>),
    Members(Vec<(Key<'a>, JsonItem<'a>)>),
}

/// A JSON value: null, a boolean, a string, a number, an object or an array,
/// or the `Empty` sentinel that lookups give for what is not there. It keeps
/// the span of its text in the source and that text, borrowed; an array keeps
/// its elements in source order, an object its members in the order in which
/// their keys first appeared.
#[derive(Debug)]
pub struct JsonItem<'a> {
    slice: Slice,
    text: &'a str,
    json_type: JsonType,
    container: Option<Container<'a>>,
}

/// The nodes of a sequence of items.
pub open spec fn item_nodes<'a>(v: Seq<JsonItem<'a>>) -> Seq<Node> {
    Seq::new(v.len(), |i: int| v[i]@)
}

/// The keys of a sequence of object members.
pub open spec fn entry_keys<'a>(v: Seq<(Key<'a>, JsonItem<'a>)>) -> Seq<Seq<u8>> {
    Seq::new(v.len(), |i: int| v[i].0@)
}

/// The values of a sequence of object members.
pub open spec fn entry_nodes<'a>(v: Seq<(Key<'a>, JsonItem<'a>)>) -> Seq<Node> {
    Seq::new(v.len(), |i: int| v[i].1@)
}

/// The item found under the key `k`: the value of the first member with that
/// key in an object, the sentinel otherwise.
pub open spec fn member(n: Node, k: Seq<u8>) -> Node {
    let s = key_slot(n.keys, k);
    if n.kind == JsonType::JsonMap && 0 <= s < n.elements.len() {
        n.elements[s]
    } else {
        empty_node()
    }
}

/// The item found at position `i`: an element of an array, the sentinel otherwise.
pub open spec fn element(n: Node, i: int) -> Node {
    if n.kind == JsonType::JsonArray && 0 <= i < n.elements.len() {
        n.elements[i]
    } else {
        empty_node()
    }
}

/// The value of a run of decimal digits.
pub open spec fn digits_value(s: Seq<u8>) -> int
    decreases s.len(),
{
    if s.len() == 0 {
        0
    } else {
        digits_value(s.drop_last()) * 10 + (s.last() - DIGIT_ZERO)
    }
}

pub open spec fn all_digits(s: Seq<u8>) -> bool {
    forall|i: int| 0 <= i < s.len() ==> is_digit(#[trigger] s[i])
}

/// The integer that a text writes in decimal: an optional sign and at least
/// one digit, nothing else.
pub open spec fn integer_value(t: Seq<u8>) -> Option<int> {
    if t.len() > 0 && is_sign(t[0]) {
        let d = t.drop_first();
        if d.len() > 0 && all_digits(d) {
            Some(
                if t[0] == MINUS {
                    -digits_value(d)
                } else {
                    digits_value(d)
                },
            )
        } else {
            None
        }
    } else if t.len() > 0 && all_digits(t) {
        Some(digits_value(t))
    } else {
        None
    }
}

/// What `as_i128` gives for a node.
pub open spec fn node_i128(n: Node) -> Option<i128> {
    if n.kind == JsonType::JsonNumber {
        match integer_value(n.text) {
            Some(v) => if i128::MIN <= v <= i128::MAX {
                Some(v as i128)
            } else {
                None
            },
            None => None,
        }
    } else {
        None
    }
}

proof fn lemma_digits_prefix(s: Seq<u8>, j: int)
    requires
        0 <= j <= s.len(),
        all_digits(s),
    ensures
        0 <= digits_value(s.subrange(0, j)) <= digits_value(s),
    decreases s.len() - j,
{
    if j < s.len() {
        lemma_digits_prefix(s, j + 1);
        assert(s.subrange(0, j + 1).drop_last() =~= s.subrange(0, j));
        assert(is_digit(s[j]));
    } else {
        assert(s.subrange(0, j) =~= s);
        lemma_digits_nonneg(s);
    }
}

proof fn lemma_digits_nonneg(s: Seq<u8>)
    requires
        all_digits(s),
    ensures
        digits_value(s) >= 0,
    decreases s.len(),
{
    if s.len() > 0 {
        assert(all_digits(s.drop_last()));
        assert(is_digit(s[s.len() - 1]));
        lemma_digits_nonneg(s.drop_last());
    }
}

/// Reads the decimal integer written in `t`, if it fits in an `i128`.
fn parse_i128(t: &[u8]) -> (r: Option<i128>)
    ensures
        r == (match integer_value(t@) {
            Some(v) => if i128::MIN <= v <= i128::MAX {
                Some(v as i128)
            } else {
                None
            },
            None => None,
        }),
{
    let n = t.len();
    if n == 0 {
        return None;
    }
    let negative = t[0] == MINUS;
    let start: usize = if t[0] == PLUS || t[0] == MINUS {
        1
    } else {
        0
    };
    if start == n {
        return None;
    }
    let ghost d = t@.subrange(start as int, n as int);
    proof {
        if start == 1 {
            assert(d =~= t@.drop_first());
        } else {
            assert(d =~= t@);
        }
    }
    let mut acc: i128 = 0;
    let mut i: usize = start;
    while i < n
        invariant
            start <= i <= n,
            n == t@.len(),
            d == t@.subrange(start as int, n as int),
            start == 1 ==> d == t@.drop_first(),
            start == 0 ==> d == t@,
            (start == 1) == is_sign(t@[0]),
            start == 0 || start == 1,
            negative == (t@[0] == MINUS),
            forall|j: int| start <= j < i ==> is_digit(#[trigger] t@[j]),
            acc == (if negative {
                -digits_value(d.subrange(0, i - start))
            } else {
                digits_value(d.subrange(0, i - start))
            }),
        decreases n - i,
    {
        let c = t[i];
        if c < DIGIT_ZERO || c > DIGIT_NINE {
            proof {
                assert(d[i - start] == c);
                assert(!all_digits(d));
            }
            return None;
        }
        let ghost pre = d.subrange(0, i - start);
        let ghost next = d.subrange(0, i + 1 - start);
        proof {
            assert(next.drop_last() =~= pre);
        }
        let digit = (c - DIGIT_ZERO) as i128;
        let step = if negative {
            match acc.checked_mul(10) {
                Some(m) => m.checked_sub(digit),
                None => None,
            }
        } else {
            match acc.checked_mul(10) {
                Some(m) => m.checked_add(digit),
                None => None,
            }
        };
        match step {
            Some(v) => {
                acc = v;
            },
            None => {
                proof {
                    assert forall|j: int| 0 <= j < next.len() implies is_digit(
                        #[trigger] next[j],
                    ) by {
                        assert(next[j] == t@[start + j]);
                    }
                    lemma_digits_nonneg(pre);
                    if all_digits(d) {
                        assert(next =~= d.subrange(0, i + 1 - start));
                        lemma_digits_prefix(d, i + 1 - start);
                    }
                }
                return None;
            },
        }
        i = i + 1;
    }
    proof {
        assert(d.subrange(0, n - start) =~= d);
        assert(all_digits(d)) by {
            assert forall|j: int| 0 <= j < d.len() implies is_digit(#[trigger] d[j]) by {
                assert(d[j] == t@[start + j]);
            }
        }
    }
    Some(acc)
}

impl<'a> JsonItem<'a> {
    /// An array holds elements, an object members, any other item no children.
    #[verifier::type_invariant]
    spec fn shaped(self) -> bool {
        &&& match self.container {
            Some(Container::Elements(_)) => self.json_type == JsonType::JsonArray,
            Some(Container::Members(_)) => self.json_type == JsonType::JsonMap,
            None => self.json_type != JsonType::JsonArray && self.json_type != JsonType::JsonMap,
        }
        &&& self.json_type == JsonType::Empty ==> self.slice.beginning == 0 && self.slice.end == 0
    }

    /// The node that this item stands for.
    pub closed spec fn node(&self) -> Node
        decreases self,
    {
        if self.json_type == JsonType::Empty {
            empty_node()
        } else {
            let base = Node {
                kind: self.json_type,
                beginning: self.slice.beginning as int,
                end: self.slice.end as int,
                text: self.text.spec_bytes(),
                elements: seq![],
                keys: seq![],
            };
            match &self.container {
                Some(Container::Elements(v)) => Node {
                    elements: Seq::new(
                        v@.len(),
                        |i: int|
                            if 0 <= i < v@.len() {
                                v@[i].node()
                            } else {
                                empty_node()
                            },
                    ),
                    ..base
                },
                Some(Container::Members(v)) => Node {
                    elements: Seq::new(
                        v@.len(),
                        |i: int|
                            if 0 <= i < v@.len() {
                                v@[i].1.node()
                            } else {
                                empty_node()
                            },
                    ),
                    keys: Seq::new(v@.len(), |i: int| v@[i].0@),
                    ..base
                },
                None => base,
            }
        }
    }

    /// An item without children: a literal, a number or a string.
    pub(crate) fn new(slice: Slice, text: &'a str, json_type: JsonType) -> (r: JsonItem<'a>)
        requires
            json_type != JsonType::Empty,
            json_type != JsonType::JsonArray,
            json_type != JsonType::JsonMap,
        ensures
            r@ == (Node {
                kind: json_type,
                beginning: slice.beginning as int,
                end: slice.end as int,
                text: text.spec_bytes(),
                elements: seq![],
                keys: seq![],
            }),
    {
        JsonItem { slice, text, json_type, container: None }
    }

    /// An array with the elements `array`.
    pub(crate) fn new_array(slice: Slice, text: &'a str, array: Vec<JsonItem<'a>>) -> (r:
        JsonItem<'a>)
        ensures
            r@ == (Node {
                kind: JsonType::JsonArray,
                beginning: slice.beginning as int,
                end: slice.end as int,
                text: text.spec_bytes(),
                elements: item_nodes(array@),
                keys: seq![],
            }),
    {
        let r = JsonItem {
            slice,
            text,
            json_type: JsonType::JsonArray,
            container: Some(Container::Elements(array)),
        };
        assert(r@.elements =~= item_nodes(array@));
        r
    }

    /// An object with the members `map`.
    pub(crate) fn new_map(slice: Slice, text: &'a str, map: Vec<(Key<'a>, JsonItem<'a>)>) -> (r:
        JsonItem<'a>)
        ensures
            r@ == (Node {
                kind: JsonType::JsonMap,
                beginning: slice.beginning as int,
                end: slice.end as int,
                text: text.spec_bytes(),
                elements: entry_nodes(map@),
                keys: entry_keys(map@),
            }),
    {
        let r = JsonItem {
            slice,
            text,
            json_type: JsonType::JsonMap,
            container: Some(Container::Members(map)),
        };
        assert(r@.elements =~= entry_nodes(map@));
        assert(r@.keys =~= entry_keys(map@));
        r
    }

    /// The text of a string item, without its quotes and with its escapes as
    /// written. `None` for an item of any other kind.
    pub fn as_str(&self) -> (r: Option<&'a str>)
        ensures
            r.is_some() == (self@.kind == JsonType::JsonString),
            r matches Some(s) ==> s.spec_bytes() == self@.text,
    {
        proof {
            use_type_invariant(self);
        }
        if self.json_type == JsonType::JsonString {
            Some(self.text)
        } else {
            None
        }
    }

    /// The text of the item as it stands in the source. `None` only for the
    /// `Empty` sentinel.
    pub fn raw_text(&self) -> (r: Option<&'a str>)
        ensures
            r.is_some() == (self@.kind != JsonType::Empty),
            r matches Some(s) ==> s.spec_bytes() == self@.text,
    {
        proof {
            use_type_invariant(self);
        }
        if self.json_type == JsonType::Empty {
            None
        } else {
            Some(self.text)
        }
    }

    /// The integer that a number item writes, if it is written without a
    /// fraction or an exponent and fits in an `i128`.
    pub fn as_i128(&self) -> (r: Option<i128>)
        ensures
            r == node_i128(self@),
    {
        proof {
            use_type_invariant(self);
        }
        if self.json_type != JsonType::JsonNumber {
            None
        } else {
            parse_i128(self.text.as_bytes())
        }
    }

    /// The value of a `true` or `false` item.
    pub fn as_bool(&self) -> (r: Option<bool>)
        ensures
            r == (if self@.kind == JsonType::JsonTrue {
                Some(true)
            } else if self@.kind == JsonType::JsonFalse {
                Some(false)
            } else {
                None
            }),
    {
        proof {
            use_type_invariant(self);
        }
        match self.json_type {
            JsonType::JsonTrue => Some(true),
            JsonType::JsonFalse => Some(false),
            _ => None,
        }
    }

    /// Whether the item is a JSON `null`.
    pub fn is_null(&self) -> (r: bool)
        ensures
            r == (self@.kind == JsonType::JsonNull),
    {
        proof {
            use_type_invariant(self);
        }
        self.json_type == JsonType::JsonNull
    }

    /// Whether the item exists: false only for the `Empty` sentinel.
    pub fn is_present(&self) -> (r: bool)
        ensures
            r == (self@.kind != JsonType::Empty),
    {
        proof {
            use_type_invariant(self);
        }
        self.json_type != JsonType::Empty
    }

    /// The kind of the item.
    pub fn get_type(&self) -> (r: &JsonType)
        ensures
            *r == self@.kind,
    {
        proof {
            use_type_invariant(self);
        }
        &self.json_type
    }

    /// The span of the item's text in the source.
    pub fn get_slice(&self) -> (r: &Slice)
        ensures
            r.beginning == self@.beginning,
            r.end == self@.end,
    {
        proof {
            use_type_invariant(self);
        }
        &self.slice
    }

    /// The elements of an array, in source order; `None` for an item of
    /// another kind.
    pub fn elements<'t>(&'t self) -> (r: Option<ArrayIterator<'t, 'a>>)
        ensures
            r.is_some() == (self@.kind == JsonType::JsonArray),
            r matches Some(it) ==> it@ == self@.elements,
    {
        proof {
            use_type_invariant(self);
        }
        match &self.container {
            Some(Container::Elements(array)) => {
                let it = ArrayIterator { items: array.as_slice(), position: 0 };
                assert(it@ =~= self@.elements);
                Some(it)
            },
            _ => None,
        }
    }

    /// The members of an object, in the order in which their keys first
    /// appeared; `None` for an item of another kind.
    pub fn entries<'t>(&'t self) -> (r: Option<MapIterator<'t, 'a>>)
        ensures
            r.is_some() == (self@.kind == JsonType::JsonMap),
            r matches Some(it) ==> it@ == (self@.keys, self@.elements),
    {
        proof {
            use_type_invariant(self);
        }
        match &self.container {
            Some(Container::Members(map)) => {
                let it = MapIterator { entries: map.as_slice(), position: 0 };
                assert(it@.0 =~= self@.keys);
                assert(it@.1 =~= self@.elements);
                Some(it)
            },
            _ => None,
        }
    }
}

impl<'a> View for JsonItem<'a> {
    type V = Node;

    open spec fn view(&self) -> Node {
        self.node()
    }
}

impl<'a> std::ops::Index<usize> for JsonItem<'a> {
    type Output = JsonItem<'a>;

    /// The element at `index` of an array; the `Empty` sentinel when the item
    /// is no array or the index is out of range.
    fn index(&self, index: usize) -> (r: &JsonItem<'a>)
        ensures
            r@ == element(self@, index as int),
    {
        proof {
            use_type_invariant(self);
        }
        if let Some(Container::Elements(array)) = &self.container {
            if index < array.len() {
                return &array[index];
            }
        }
        &JsonItem {
            slice: Slice { beginning: 0, end: 0 },
            text: "",
            json_type: JsonType::Empty,
            container: None,
        }
    }
}

impl<'a> vstd::std_specs::core::IndexSpecImpl<usize> for JsonItem<'a> {
    /// Every position may be asked for: one out of range gives the sentinel.
    open spec fn index_req(&self, index: &usize) -> bool {
        true
    }
}

impl<'a, 'k> std::ops::Index<&'k str> for JsonItem<'a> {
    type Output = JsonItem<'a>;

    /// The value of the member with the key `key` of an object; the `Empty`
    /// sentinel when the item is no object or has no such member.
    fn index(&self, key: &'k str) -> (r: &JsonItem<'a>)
        ensures
            r@ == member(self@, key.spec_bytes()),
    {
        proof {
            use_type_invariant(self);
        }
        let wanted = Key::from_str(key);
        if let Some(Container::Members(map)) = &self.container {
            let mut i: usize = 0;
            while i < map.len()
                invariant
                    i <= map@.len(),
                    self@.keys == entry_keys(map@),
                    self@.elements == entry_nodes(map@),
                    self@.kind == JsonType::JsonMap,
                    wanted@ == key.spec_bytes(),
                    forall|j: int| 0 <= j < i ==> map@[j].0@ != wanted@,
                decreases map@.len() - i,
            {
                if map[i].0.eq(&wanted) {
                    proof {
                        assert(first_key_at(self@.keys, wanted@, i as int));
                        let s = key_slot(self@.keys, wanted@);
                        assert(first_key_at(self@.keys, wanted@, s));
                        assert(s == i) by {
                            if s < i {
                                assert(self@.keys[s] != wanted@);
                            }
                            if s > i {
                                assert(self@.keys[i as int] != wanted@);
                            }
                        }
                    }
                    return &map[i].1;
                }
                i = i + 1;
            }
            proof {
                assert(!exists|j: int| first_key_at(self@.keys, wanted@, j));
            }
        }
        &JsonItem {
            slice: Slice { beginning: 0, end: 0 },
            text: "",
            json_type: JsonType::Empty,
            container: None,
        }
    }
}

impl<'a, 'k> vstd::std_specs::core::IndexSpecImpl<&'k str> for JsonItem<'a> {
    /// Every key may be asked for: a missing one gives the sentinel.
    open spec fn index_req(&self, key: &&'k str) -> bool {
        true
    }
}

/// The elements of an array, handed out one by one in source order.
pub struct ArrayIterator<'t, 'a> {
    items: &'t [JsonItem<'a>],
    position: usize,
}

impl<'t, 'a> View for ArrayIterator<'t, 'a> {
    type V = Seq<Node>;

    /// The nodes of the elements not handed out yet.
    closed spec fn view(&self) -> Seq<Node> {
        item_nodes(self.items@).subrange(self.position as int, self.items@.len() as int)
    }
}

impl<'t, 'a> ArrayIterator<'t, 'a> {
    #[verifier::type_invariant]
    spec fn in_range(self) -> bool {
        self.position <= self.items@.len()
    }

    /// The next element, or `None` when all have been handed out.
    pub fn next(&mut self) -> (r: Option<&'t JsonItem<'a>>)
        ensures
            old(self)@.len() == 0 ==> r.is_none() && final(self)@ == old(self)@,
            old(self)@.len() > 0 ==> (r matches Some(x) && x@ == old(self)@[0] && final(self)@
                == old(self)@.drop_first()),
    {
        proof {
            use_type_invariant(&*self);
        }
        if self.position < self.items.len() {
            let x = &self.items[self.position];
            self.position = self.position + 1;
            assert(final(self)@ =~= old(self)@.drop_first());
            Some(x)
        } else {
            None
        }
    }
}

/// The members of an object, handed out one by one as pairs of key and value.
pub struct MapIterator<'t, 'a> {
    entries: &'t [(Key<'a>, JsonItem<'a>)],
    position: usize,
}

impl<'t, 'a> View for MapIterator<'t, 'a> {
    type V = (Seq<Seq<u8>>, Seq<Node>);

    /// The keys and the values of the members not handed out yet.
    closed spec fn view(&self) -> (Seq<Seq<u8>>, Seq<Node>) {
        (
            entry_keys(self.entries@).subrange(self.position as int, self.entries@.len() as int),
            entry_nodes(self.entries@).subrange(self.position as int, self.entries@.len() as int),
        )
    }
}

impl<'t, 'a> MapIterator<'t, 'a> {
    #[verifier::type_invariant]
    spec fn in_range(self) -> bool {
        self.position <= self.entries@.len()
    }

    /// The next member, or `None` when all have been handed out.
    pub fn next(&mut self) -> (r: Option<(&'t str, &'t JsonItem<'a>)>)
        ensures
            old(self)@.0.len() == old(self)@.1.len(),
            final(self)@.0.len() == final(self)@.1.len(),
            old(self)@.0.len() == 0 ==> r.is_none() && final(self)@ == old(self)@,
            old(self)@.0.len() > 0 ==> (r matches Some((k, v)) && k.spec_bytes() == old(self)@.0[0]
                && v@ == old(self)@.1[0] && final(self)@.0 == old(self)@.0.drop_first()
                && final(self)@.1 == old(self)@.1.drop_first()),
    {
        proof {
            use_type_invariant(&*self);
        }
        if self.position < self.entries.len() {
            let entry = &self.entries[self.position];
            self.position = self.position + 1;
            assert(final(self)@.0 =~= old(self)@.0.drop_first());
            assert(final(self)@.1 =~= old(self)@.1.drop_first());
            Some((entry.0.as_str(), &entry.1))
        } else {
            None
        }
    }
}

} // verus!
