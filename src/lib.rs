//! A JSON parser that reads a document in one pass and keeps, for each value,
//! the span of its text in the source instead of a copy: strings are handed
//! out as they are written, numbers are converted only when asked for.
use vstd::prelude::*;
use vstd::string::StringSliceAdditionalSpecFns;

pub mod json_error;
pub mod json_item;
pub mod json_parser;
pub mod json_type;
pub mod key;
pub mod laws;
pub mod model;
pub mod slice;

use crate::json_error::{reports, JsonError};
use crate::json_item::JsonItem;
use crate::json_parser::JsonParser;
use crate::model::{document, Outcome};

verus! {

/// Parses the JSON document `source`, whose root must be an object or an
/// array. On success the items borrow their text from `source`; on failure
/// the error gives the byte offset at which the text was found malformed.
pub fn parse<'a>(source: &'a str) -> (r: Result<JsonItem<'a>, JsonError>)
    ensures
        match document(source.spec_bytes()) {
            Outcome::Parsed { node, .. } => r matches Ok(item) && item@ == node,
            Outcome::Failed { at } => r matches Err(e) && reports(e, source.spec_bytes(), at),
        },
{
    let mut parser = JsonParser::new(source);
    parser.parse()
}

} // verus!
