use vstd::prelude::*;

verus! {

/// The kind of a JSON value held by a [`crate::json_item::JsonItem`].
///
/// * `JsonNull` for `null`
/// * `JsonTrue`, `JsonFalse` for `true`, `false`
/// * `JsonString` for a string
/// * `JsonNumber` for an integer or a float
/// * `JsonMap` for an object
/// * `JsonArray` for an array
/// * `Empty` for an element that was not found: the result of a lookup by a
///   missing key, by an index out of range, or on an item of another kind.
#[derive(PartialEq, Eq, Structural, Debug, Clone, Copy)]
pub enum JsonType {
    JsonNull,
    JsonTrue,
    JsonFalse,
    JsonString,
    JsonNumber,
    JsonMap,
    JsonArray,
    Empty,
}

} // verus!
