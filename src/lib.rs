//! Parses the raw text of an HTTP request into a structured request: method,
//! path, query parameters, a case-insensitive header map and an optional body.
pub mod parser;
pub mod text;
pub mod text_map;
