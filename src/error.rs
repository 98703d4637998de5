use vstd::prelude::*;

use crate::tokens::{Token, TokenView};

verus! {

/// A lexing or parsing failure.  It always travels inside a `Spanned` that locates it.
#[derive(Debug)]
pub struct JsonError<'a> {
    pub reason: ErrReason<'a>,
}

/// What went wrong.
#[derive(Debug)]
pub enum ErrReason<'a> {
    /// The input ended inside a string.
    UnclosedString,
    /// A run of letters that is not `true`, `false` or `null`.
    UnknownKeyword(&'a str),
    /// A character that starts no token.
    UnexpectedChar(char),
    /// A token after the complete top-level value.
    UnexpectedTok(Token<'a>),
    /// The named construct was required at this place.
    Expected(&'static str),
}

/// The model of an error reason.
pub enum ErrorView {
    UnclosedString,
    UnknownKeyword(Seq<char>),
    UnexpectedChar(char),
    UnexpectedTok(TokenView),
    Expected(Seq<char>),
}

impl<'a> View for ErrReason<'a> {
    type V = ErrorView;

    open spec fn view(&self) -> ErrorView {
        match self {
            ErrReason::UnclosedString => ErrorView::UnclosedString,
            ErrReason::UnknownKeyword(s) => ErrorView::UnknownKeyword(s@),
            ErrReason::UnexpectedChar(c) => ErrorView::UnexpectedChar(*c),
            ErrReason::UnexpectedTok(t) => ErrorView::UnexpectedTok(t@),
            ErrReason::Expected(s) => ErrorView::Expected(s@),
        }
    }
}

impl<'a> View for JsonError<'a> {
    type V = ErrorView;

    open spec fn view(&self) -> ErrorView {
        self.reason@
    }
}

} // verus!
