//! The full pipeline: cleaning, regex-driven tokens, a typed syntax tree,
//! semantic checks and triads.
pub mod tokens;
pub mod ast;
pub mod parser;
pub mod semantic;
pub mod render;

use vstd::prelude::*;
use crate::cleaning::{clean_text, cleaned};

verus! {

/// The source without comments and preprocessor lines: each line trimmed,
/// empty lines and lines starting with `#` dropped, the rest joined by `'\n'`.
pub fn clean_source(input: &str) -> (s: String)
    ensures
        s@ == cleaned(input@, true),
{
    clean_text(input, true)
}

} // verus!
