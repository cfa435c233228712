//! Locating maintenance annotations in source text, grouping them under a
//! canonical key, and cross-referencing the hyperlinks and tracker issue
//! numbers found in their free text.
//!
//! All offsets are byte offsets into the UTF-8 encoding of the text at hand.

pub mod ascii;
pub mod emphasis;
pub mod extractor;
pub mod issues;
pub mod line_index;
pub mod links;
pub mod locator;
pub mod markers;
pub mod normalizer;
pub mod resolver;
pub mod store;
