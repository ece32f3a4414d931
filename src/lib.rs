//! Analysis layer of a CSS language service: document positions, a per-document
//! cache, color extraction and presentations, and folding ranges.
pub mod colors;
pub mod folding;
pub mod line_index;
pub mod presentation;
pub mod service;
pub mod store;
pub mod syntax;
