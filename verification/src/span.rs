//! Spans of symbols in sources.

use vstd::prelude::*;
use crate::package::PackageName;
use crate::src::ModId;

pub use crate::module::ModPath;

verus! {

/// The span of any symbol: a token, an AST node or a node of a later
/// representation. `begin` and `end` are UTF-8 byte offsets, so the text
/// is `&src[begin..end]`.
#[derive(Clone, Copy, Debug, PartialEq, Eq, Structural)]
pub struct Span {
    pub file: ModId,
    pub begin: usize,
    pub end: usize,
}

/// A "semi span": symbols of other packages carry no position, only the
/// package and module they live in.
#[derive(Debug, Clone, PartialEq, Eq)]
pub enum SSpan {
    Span { span: Span },
    External { pkg: PackageName, modu: ModPath },
}

impl Span {
    pub fn new(file: ModId, begin: usize, end: usize) -> (r: Self)
        ensures
            r == (Span { file, begin, end }),
    {
        Span { file, begin, end }
    }

    /// The span from the start of `begin` to the end of `end`, in the file
    /// of `begin`.
    pub fn merge(begin: &Self, end: &Self) -> (r: Self)
        ensures
            r == (Span { file: begin.file, begin: begin.begin, end: end.end }),
    {
        Span { file: begin.file, begin: begin.begin, end: end.end }
    }

    pub fn module(&self) -> (r: ModId)
        ensures
            r == self.file,
    {
        self.file
    }

    pub fn begin(&self) -> (r: usize)
        ensures
            r == self.begin,
    {
        self.begin
    }

    pub fn end(&self) -> (r: usize)
        ensures
            r == self.end,
    {
        self.end
    }

    /// The span as a semi span.
    pub fn into_sspan(self) -> (r: SSpan)
        ensures
            r == (SSpan::Span { span: self }),
    {
        SSpan::Span { span: self }
    }
}

} // verus!
