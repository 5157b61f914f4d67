//! Parser for the Clausewitz key/value save-file format.
//!
//! The parser works on bytes. A parsed tree refers to the input by byte offsets
//! ([`val::Span`]), so the input must be kept alongside it.

pub mod classify;
pub mod val;
pub mod scalar;
pub mod grammar;
pub mod parser;
pub mod path;
pub mod blocks;
pub mod skim;

pub use blocks::cheat_root;
pub use grammar::{ErrorKind, ParseError};
pub use parser::{key_value, root, Parsed};
pub use path::{IndexError, IndexErrorKind};
pub use skim::{search_document, ConfigError, InputSearchPair};
pub use val::{Date, Span, Val};
