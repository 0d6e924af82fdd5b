//! Plain data types shared by the extractor, the outline builder and the
//! symbol index. Text, names, paths and document identities are carried as
//! UTF-8 byte vectors; positions are line/column pairs as the editor
//! protocol counts them.
use vstd::prelude::*;

verus! {

/// A symbol's classification: module, function-like (including macro
/// definitions), struct-like, abstract type, type alias, or constant.
#[derive(Clone, Copy, PartialEq, Eq, Structural, Debug)]
pub enum SymKind {
    Module,
    Function,
    Struct,
    Class,
    TypeParameter,
    Constant,
}

/// A zero-based line / character position.
#[derive(Clone, Copy, PartialEq, Eq, Structural, Debug)]
pub struct Position {
    pub line: u32,
    pub character: u32,
}

/// A half-open region of a document, by start and end position.
#[derive(Clone, Copy, PartialEq, Eq, Structural, Debug)]
pub struct TextRange {
    pub start: Position,
    pub end: Position,
}

/// One flat symbol, as the workspace symbol list reports it.
#[derive(PartialEq, Eq, Debug)]
pub struct SymbolInfo {
    pub name: Vec<u8>,
    pub kind: SymKind,
    pub uri: Vec<u8>,
    pub range: TextRange,
}

/// One node of a document outline: a named symbol, the byte range and
/// position range it covers, the smaller range of its name token, and the
/// symbols nested inside it.
#[derive(PartialEq, Eq, Debug)]
pub struct OutlineNode {
    pub name: Vec<u8>,
    pub kind: SymKind,
    /// Byte offset where the symbol's source region begins.
    pub start: usize,
    /// Byte offset one past the symbol's source region.
    pub end: usize,
    pub range: TextRange,
    pub selection_range: TextRange,
    pub children: Vec<OutlineNode>,
}

/// One record of the fuzzy-search index: a symbol with its lowercased
/// search key and the document it came from.
#[derive(PartialEq, Eq, Debug)]
pub struct SymbolEntry {
    pub name: Vec<u8>,
    pub name_lowercase: Vec<u8>,
    pub uri: Vec<u8>,
    pub path: Vec<u8>,
    pub range: TextRange,
    pub kind: SymKind,
}

} // verus!
