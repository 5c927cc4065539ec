//! A small JSON parser: a cursor over the input characters, a recursive-descent
//! grammar proved against a mathematical description of the accepted language,
//! and two renderers (compact and readable) for the resulting values.
pub mod error;
pub mod json_parser;
pub mod laws;
pub mod text;
pub mod values;

pub use json_parser::parse as json_parse;
