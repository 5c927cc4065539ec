//! The parser: the grammar it accepts, the cursor it reads with, and the
//! productions that build values.
use vstd::prelude::*;
use crate::error::Result;
use crate::json_parser::grammar::{lemma_value_after_ws, parse_text};
use crate::json_parser::messages::{lemma_value_error_after_ws, text_error};
use crate::json_parser::state::ParserState;
use crate::values::JsonValue;

pub mod grammar;
pub mod literals;
pub mod messages;
pub mod parsers;
pub mod state;

verus! {

/// What [`parse`] gives for the text `s`: the value that the grammar reads,
/// or, when it reads none, an error with the message for the text.
pub open spec fn parse_outcome(s: Seq<char>, r: Result<JsonValue>) -> bool {
    match parse_text(s) {
        Some(v) => r matches Ok(x) && x@ == v,
        None => r matches Err(e) && e.0@ == text_error(s),
    }
}

/// Parses a whole text: the value that follows any leading whitespace, or
/// [`JsonValue::Null`] when the text holds nothing but whitespace.
///
/// Whatever follows the first complete value is not read.
pub fn parse(json_str: &str) -> (r: Result<JsonValue>)
    requires
        json_str@.len() < usize::MAX,
    ensures
        parse_outcome(json_str@, r),
{
    let mut state = ParserState::new(json_str);
    state.consume_whitespace();
    proof {
        lemma_value_after_ws(json_str@, 0);
        lemma_value_error_after_ws(json_str@, 0);
    }
    match state.peek() {
        Some(_) => parsers::main_parse(&mut state),
        None => Ok(JsonValue::Null),
    }
}

} // verus!
