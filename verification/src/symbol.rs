//! Symbol types shared across the symbol engine.

use vstd::prelude::*;
use std::ops::Range;

verus! {

/// The kind of a code symbol.
#[derive(Debug, Clone, Copy, PartialEq, Eq, Structural)]
pub enum SymbolKind {
    Class,
    Struct,
    Enum,
    Interface,
    Function,
    Method,
    Module,
    Const,
    Variable,
    Trait,
    Type,
    Heading,
    Rule,
    Element,
}

/// A single symbol located in a source file.
///
/// `byte_range` refers to offsets into the original source text, so a
/// consumer can slice the raw bytes back out, comments and formatting kept.
#[derive(Debug)]
pub struct Symbol {
    pub name: String,
    pub kind: SymbolKind,
    /// 1-based start line.
    pub start_line: usize,
    /// 1-based end line (inclusive).
    pub end_line: usize,
    /// Byte range into the original source.
    pub byte_range: Range<usize>,
    /// First line of the symbol (typically the signature).
    pub signature: String,
    /// Doc comment immediately above the symbol, if any.
    pub doc_comment: Option<String>,
}

/// Bytes in `start..end` (none when the range is empty or reversed).
pub open spec fn range_len(start: usize, end: usize) -> nat {
    if start < end {
        (end - start) as nat
    } else {
        0
    }
}

impl Clone for Symbol {
    fn clone(&self) -> (r: Self)
        ensures
            r.name@ == self.name@,
            r.kind == self.kind,
            r.start_line == self.start_line,
            r.end_line == self.end_line,
            r.byte_range.start == self.byte_range.start,
            r.byte_range.end == self.byte_range.end,
            r.signature@ == self.signature@,
            r.doc_comment == self.doc_comment,
    {
        Symbol {
            name: self.name.clone(),
            kind: self.kind,
            start_line: self.start_line,
            end_line: self.end_line,
            byte_range: self.byte_range.start..self.byte_range.end,
            signature: self.signature.clone(),
            doc_comment: self.doc_comment.clone(),
        }
    }
}

impl Symbol {
    /// Token approximation of this symbol's cost: a quarter of its bytes,
    /// rounded down.
    pub fn estimated_tokens(&self) -> (r: usize)
        ensures
            r == range_len(self.byte_range.start, self.byte_range.end) / 4,
    {
        let len = if self.byte_range.start < self.byte_range.end {
            self.byte_range.end - self.byte_range.start
        } else {
            0
        };
        len / 4
    }
}

} // verus!
