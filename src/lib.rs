use vstd::prelude::*;

/// The ordered map of labelled facts.
pub mod facts;
/// Parsers that turn each platform command's output into one fact.
pub mod probes;
/// The display: facts beside the logo.
pub mod render;
/// Lines, fields, words, trimming and decimal text, over characters.
pub mod text;
/// Color placeholders and command-line helpers.
pub mod util;

verus! {

} // verus!
