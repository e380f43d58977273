//! What parsing a sentence gives back.
use vstd::prelude::*;

verus! {

/// Dependency analysis of a sentence: for every word, the position of its head
/// (0 for the root, words counted from 1) and the label of the relation.
#[derive(Debug, Clone)]
pub struct DepResult {
    pub head: Vec<usize>,
    pub label: Vec<String>,
}

/// Analysis of raw text: its words, their part-of-speech tags and their
/// dependencies.
#[derive(Debug, Clone)]
pub struct ParseResult {
    pub words: Vec<String>,
    pub pos: Vec<String>,
    pub dep: DepResult,
}

/// Analysis of text that came already split into words: part-of-speech tags
/// and dependencies.
#[derive(Debug, Clone)]
pub struct CwsParseResult {
    pub pos: Vec<String>,
    pub dep: DepResult,
}

} // verus!
