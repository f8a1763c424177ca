//! Markup scanner, document tree and serializer.
//!
//! - [`tree`]: the document tree and its model.
//! - [`flags`]: the scanner's flag register.
//! - [`scan`]: the scanner as a state machine over bytes, and what holds
//!   of each of its states.
//! - [`document`]: the document that a scan yields.
//! - [`chars`]: the same scan over characters in place of bytes, and
//!   the proof that it yields the same document.
//! - [`parse`]: the scanner itself.
//! - [`render`]: the serializer and its model.
//! - [`slices`], [`encoding`]: facts about UTF-8 that the scanner and
//!   the laws rest on.
//! - [`runs`], [`laws`], [`round_trip`], [`simple`]: what holds of every
//!   scan, of rendering a scanned document, and of simple markup.

pub mod chars;
pub mod document;
pub mod encoding;
pub mod flags;
pub mod laws;
pub mod parse;
pub mod render;
pub mod round_trip;
pub mod runs;
pub mod scan;
pub mod simple;
pub mod slices;
pub mod tree;

pub use flags::HtmlFlags;
pub use parse::parse_html;
pub use tree::{Attribute, HtmlDoc, HtmlTree};
