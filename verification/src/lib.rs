//! A small C front end: comment cleaning and diagnostics, two lexers, two
//! recursive-descent parsers, and a semantic analyzer that emits triads.
pub mod text;
pub mod pattern;
pub mod cleaning;
pub mod cleaner;
pub mod lexer;
pub mod pointer;
pub mod syntax;
pub mod compiler;
