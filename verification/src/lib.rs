//! Query-string parameter parsing.
//!
//! The input is the portion of a URL that follows `?`: zero or more
//! `key=value` pairs joined by `&`. [`parser::parse_params`] turns such a
//! string into a key/value mapping in which the last occurrence of a
//! repeated key wins and a dangling key with no `=` ends extraction
//! gracefully.

pub mod laws;
pub mod params;
pub mod parser;

pub use params::ParamMap;
pub use parser::{
    is_not_amp, is_not_equals, parse_key, parse_one, parse_params, parse_parameters, parse_value,
    ParseError,
};
