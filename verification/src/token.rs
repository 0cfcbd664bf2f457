//! The lexical vocabulary: tokens carry no source position, and the textual
//! ones borrow their payload from the source buffer, which must outlive the
//! whole assembly pass.

use vstd::prelude::*;

verus! {

/// One lexical unit of the source language.
///
/// `Equal` is produced for a bare `=` but is consumed only inside the
/// `$ = N` construct; anywhere else the assembler rejects it.
#[derive(Debug, Clone, Copy, PartialEq, Eq)]
pub enum TokenKind<'d> {
    /// A directive name: the run following a `.`.
    DotWord(&'d str),
    /// A bare identifier, case preserved.
    Word(&'d str),
    /// An integer literal, at most 16 bits.
    Integer(u16),
    OpenSquare,
    CloseSquare,
    /// The `$` marker with no digits attached: the current instruction pointer.
    CurrentInst,
    /// A `:`, ending a label definition.
    DoubleDot,
    Equal,
}

/// The mathematical shape of a token: textual payloads as character
/// sequences. Contracts speak of tokens through this view.
pub enum TokView {
    DotWord(Seq<char>),
    Word(Seq<char>),
    Integer(u16),
    OpenSquare,
    CloseSquare,
    CurrentInst,
    DoubleDot,
    Equal,
}

impl<'d> View for TokenKind<'d> {
    type V = TokView;

    open spec fn view(&self) -> TokView {
        match *self {
            TokenKind::DotWord(s) => TokView::DotWord(s@),
            TokenKind::Word(s) => TokView::Word(s@),
            TokenKind::Integer(v) => TokView::Integer(v),
            TokenKind::OpenSquare => TokView::OpenSquare,
            TokenKind::CloseSquare => TokView::CloseSquare,
            TokenKind::CurrentInst => TokView::CurrentInst,
            TokenKind::DoubleDot => TokView::DoubleDot,
            TokenKind::Equal => TokView::Equal,
        }
    }
}

/// A token of the source stream.
#[derive(Debug, Clone, Copy, PartialEq, Eq)]
pub struct Token<'d> {
    pub kind: TokenKind<'d>,
}

impl<'d> View for Token<'d> {
    type V = TokView;

    open spec fn view(&self) -> TokView {
        self.kind@
    }
}

/// A borrowed token held for diagnostic output; how it is rendered is left
/// to the caller outside the library.
pub struct TDisplay<'a, 'd>(pub &'a Token<'d>);

} // verus!
