//! Recognition of TeX math in Markdown source and a small Unicode renderer for it.

pub mod chars;
pub mod tables;
pub mod width;
pub mod render;
pub mod scan;
pub mod bytes;
pub mod math;
pub mod cmark;
pub mod laws;

