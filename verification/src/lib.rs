//! A single-pass, byte-oriented markup scanner with a verified model.
//!
//! [`html::parse_html`] reads a text once, byte by byte, and returns a
//! flat document tree whose nodes borrow from the text;
//! [`html::HtmlDoc::fixed_format`] renders a tree back to markup.  Both
//! are specified over mathematical models (a state machine over the
//! bytes for the scan, a recursive function over the tree for the
//! rendering) and proved against them, and the modules under [`html`]
//! state and prove what follows from the models: the shape of every
//! scanned document, what becomes of the text at the end of the input,
//! and what scanning and rendering give back of simple markup.

pub mod html;
