//! A codec for content lines, the line format of iCalendar (RFC 5545) and
//! vCard (RFC 6350), with the parameter value escapes of RFC 6868.
//!
//! Decoding turns bytes into a tree of components, properties and
//! parameters; encoding writes such a tree back, folded at 75 octets.
use vstd::prelude::*;

pub mod encoder;
pub mod errors;
pub mod line_lexer;
pub mod model;
pub mod parser;
pub mod rfc6868;
pub mod text;

pub use crate::encoder::{ComponentEncode, Encoder};
pub use crate::errors::Error;
pub use crate::line_lexer::{Item, ItemType, LineLexer};
pub use crate::model::{
    is_valid_name, Component, InvalidNameError, NameType, Parameters, Property,
};
pub use crate::parser::Parser;

verus! {

} // verus!
