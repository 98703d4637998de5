use vstd::prelude::*;

verus! {

/// A value paired with the half-open byte range `[start, end)` of the source it came from.
#[derive(Debug)]
pub struct Spanned<T> {
    pub elem: T,
    pub span: std::ops::Range<usize>,
}

impl<T: Clone> Clone for Spanned<T> {
    fn clone(&self) -> (r: Self)
        ensures
            r.span == self.span,
    {
        Spanned { elem: self.elem.clone(), span: span_of(self.span.start, self.span.end) }
    }
}

/// The mathematical model of a `Spanned` value: its element's view and its bounds.
pub struct SpannedView<V> {
    pub elem: V,
    pub start: int,
    pub end: int,
}

impl<T: View> View for Spanned<T> {
    type V = SpannedView<T::V>;

    open spec fn view(&self) -> SpannedView<T::V> {
        SpannedView { elem: self.elem@, start: self.span.start as int, end: self.span.end as int }
    }
}

/// A lexical unit of JSON text.  String tokens borrow their text from the source.
#[derive(Debug, Clone, Copy)]
pub enum Token<'a> {
    LBrace,
    RBrace,
    LBracket,
    RBracket,
    Comma,
    Colon,
    Str(&'a str),
    Num(isize),
    Bool(bool),
    Null,
    EOF,
}

/// The model of a token: string text as a sequence of characters, numbers as integers.
pub enum TokenView {
    LBrace,
    RBrace,
    LBracket,
    RBracket,
    Comma,
    Colon,
    Str(Seq<char>),
    Num(int),
    Bool(bool),
    Null,
    EOF,
}

impl<'a> View for Token<'a> {
    type V = TokenView;

    open spec fn view(&self) -> TokenView {
        match self {
            Token::LBrace => TokenView::LBrace,
            Token::RBrace => TokenView::RBrace,
            Token::LBracket => TokenView::LBracket,
            Token::RBracket => TokenView::RBracket,
            Token::Comma => TokenView::Comma,
            Token::Colon => TokenView::Colon,
            Token::Str(s) => TokenView::Str(s@),
            Token::Num(n) => TokenView::Num(*n as int),
            Token::Bool(b) => TokenView::Bool(*b),
            Token::Null => TokenView::Null,
            Token::EOF => TokenView::EOF,
        }
    }
}

/// A span with the given bounds.
pub fn span_of(start: usize, end: usize) -> (r: std::ops::Range<usize>)
    ensures
        r.start == start,
        r.end == end,
{
    std::ops::Range { start, end }
}

} // verus!
