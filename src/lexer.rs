use vstd::prelude::*;
use vstd::string::StrSliceExecFns;
use vstd::utf8::{encode_utf8, char_is_scalar};

use crate::error::{ErrReason, ErrorView, JsonError};
use crate::tokens::{span_of, Spanned, SpannedView, Token, TokenView};

verus! {

broadcast use {vstd::seq_lib::group_seq_properties, vstd::string::group_string_axioms};

// ---------------------------------------------------------------------------
// Characters and byte offsets
// ---------------------------------------------------------------------------

/// The number of bytes in the UTF-8 encoding of `c`.
pub open spec fn char_width(c: char) -> int {
    if (c as u32) < 0x80 {
        1
    } else if (c as u32) < 0x800 {
        2
    } else if (c as u32) < 0x10000 {
        3
    } else {
        4
    }
}

/// The number of bytes in the UTF-8 encoding of `cs`.
pub open spec fn width_sum(cs: Seq<char>) -> int
    decreases cs.len(),
{
    if cs.len() == 0 {
        0
    } else {
        char_width(cs[0]) + width_sum(cs.drop_first())
    }
}

/// The byte offset at which the character with index `i` starts.
pub open spec fn offset(cs: Seq<char>, i: int) -> int {
    width_sum(cs.take(i))
}

pub open spec fn is_alpha(c: char) -> bool {
    ('a' <= c && c <= 'z') || ('A' <= c && c <= 'Z')
}

pub open spec fn is_digit(c: char) -> bool {
    '0' <= c && c <= '9'
}

pub open spec fn is_space(c: char) -> bool {
    c == ' ' || c == '\t' || c == '\n' || c == '\r' || c == '\x0C'
}

/// The three kinds of character runs that the lexer scans.
pub enum RunKind {
    Letters,
    Digits,
    NotQuote,
}

pub open spec fn in_run(k: RunKind, c: char) -> bool {
    match k {
        RunKind::Letters => is_alpha(c),
        RunKind::Digits => is_digit(c),
        RunKind::NotQuote => c != '"',
    }
}

/// The index just past the longest run of `k` characters that starts at `i`.
pub open spec fn run_end(cs: Seq<char>, i: int, k: RunKind) -> int
    decreases cs.len() - i,
{
    if 0 <= i < cs.len() && in_run(k, cs[i]) {
        run_end(cs, i + 1, k)
    } else {
        i
    }
}

/// The value of a string of decimal digits.
pub open spec fn digits_value(s: Seq<char>) -> int
    decreases s.len(),
{
    if s.len() == 0 {
        0
    } else {
        digits_value(s.drop_last()) * 10 + (s.last() as int - '0' as int)
    }
}

// ---------------------------------------------------------------------------
// The lexer's model
// ---------------------------------------------------------------------------

/// The outcome of scanning: the tokens found, and the error that stopped the scan, if any.
pub struct LexRun {
    pub toks: Seq<SpannedView<TokenView>>,
    pub err: Option<SpannedView<ErrorView>>,
}

pub open spec fn tok(t: TokenView, start: int, end: int) -> SpannedView<TokenView> {
    SpannedView { elem: t, start, end }
}

pub open spec fn lex_fail(e: ErrorView, start: int, end: int) -> LexRun {
    LexRun { toks: Seq::empty(), err: Some(SpannedView { elem: e, start, end }) }
}

pub open spec fn cons(t: SpannedView<TokenView>, rest: LexRun) -> LexRun {
    LexRun { toks: seq![t] + rest.toks, err: rest.err }
}

pub open spec fn structural(c: char) -> Option<TokenView> {
    if c == '[' {
        Some(TokenView::LBracket)
    } else if c == ']' {
        Some(TokenView::RBracket)
    } else if c == '{' {
        Some(TokenView::LBrace)
    } else if c == '}' {
        Some(TokenView::RBrace)
    } else if c == ':' {
        Some(TokenView::Colon)
    } else if c == ',' {
        Some(TokenView::Comma)
    } else {
        None
    }
}

pub open spec fn keyword(w: Seq<char>) -> Option<TokenView> {
    if w == seq!['t', 'r', 'u', 'e'] {
        Some(TokenView::Bool(true))
    } else if w == seq!['f', 'a', 'l', 's', 'e'] {
        Some(TokenView::Bool(false))
    } else if w == seq!['n', 'u', 'l', 'l'] {
        Some(TokenView::Null)
    } else {
        None
    }
}

/// Scans `cs` from the character with index `i` to the end or to the first error.
#[verifier::opaque]
pub open spec fn lex_from(cs: Seq<char>, i: int) -> LexRun
    decreases cs.len() - i via lex_from_decreases
{
    if i < 0 || i >= cs.len() {
        LexRun { toks: Seq::empty(), err: None }
    } else {
        let c = cs[i];
        let off = offset(cs, i);
        if c == '"' {
            let j = run_end(cs, i + 1, RunKind::NotQuote);
            if j >= cs.len() {
                lex_fail(ErrorView::UnclosedString, off, width_sum(cs))
            } else {
                cons(
                    tok(TokenView::Str(cs.subrange(i + 1, j)), off, offset(cs, j + 1)),
                    lex_from(cs, j + 1),
                )
            }
        } else if is_alpha(c) {
            let j = run_end(cs, i + 1, RunKind::Letters);
            let w = cs.subrange(i, j);
            if let Some(t) = keyword(w) {
                cons(tok(t, off, offset(cs, j)), lex_from(cs, j))
            } else {
                lex_fail(ErrorView::UnknownKeyword(w), off, offset(cs, j))
            }
        } else if is_digit(c) {
            let j = run_end(cs, i + 1, RunKind::Digits);
            cons(
                tok(TokenView::Num(digits_value(cs.subrange(i, j))), off, offset(cs, j)),
                lex_from(cs, j),
            )
        } else if is_space(c) {
            lex_from(cs, i + 1)
        } else if let Some(t) = structural(c) {
            cons(tok(t, off, offset(cs, i + 1)), lex_from(cs, i + 1))
        } else {
            lex_fail(ErrorView::UnexpectedChar(c), off, offset(cs, i + 1))
        }
    }
}

#[via_fn]
proof fn lex_from_decreases(cs: Seq<char>, i: int) {
    if 0 <= i < cs.len() {
        lemma_run_end(cs, i + 1, RunKind::NotQuote);
        lemma_run_end(cs, i + 1, RunKind::Letters);
        lemma_run_end(cs, i + 1, RunKind::Digits);
    }
}

/// The span end of the last token, or 0 when there is none.
pub open spec fn last_end(toks: Seq<SpannedView<TokenView>>) -> int {
    if toks.len() == 0 {
        0
    } else {
        toks.last().end
    }
}

/// The tokens of a scan that ended without error, followed by the end-of-input sentinel.
pub open spec fn with_eof(toks: Seq<SpannedView<TokenView>>) -> Seq<SpannedView<TokenView>> {
    toks.push(tok(TokenView::EOF, last_end(toks), last_end(toks)))
}

/// The scan of a whole text.
pub open spec fn lex(cs: Seq<char>) -> LexRun {
    lex_from(cs, 0)
}

/// Every number token that a scan of `cs` meets fits in an `isize`.
pub open spec fn numbers_fit(cs: Seq<char>) -> bool {
    forall|k: int|
        0 <= k < lex(cs).toks.len() ==> match #[trigger] lex(cs).toks[k].elem {
            TokenView::Num(n) => n <= isize::MAX,
            _ => true,
        }
}

pub open spec fn token_views(v: Seq<Spanned<Token>>) -> Seq<SpannedView<TokenView>> {
    v.map_values(|t: Spanned<Token>| t@)
}

// ---------------------------------------------------------------------------
// Lemmas
// ---------------------------------------------------------------------------

proof fn lemma_width_sum_concat(a: Seq<char>, b: Seq<char>)
    ensures
        width_sum(a + b) == width_sum(a) + width_sum(b),
        width_sum(a) >= 0,
    decreases a.len(),
{
    if a.len() > 0 {
        lemma_width_sum_concat(a.drop_first(), b);
        assert((a + b).drop_first() =~= a.drop_first() + b);
    } else {
        assert(a + b =~= b);
    }
}

proof fn lemma_offset_step(cs: Seq<char>, i: int)
    requires
        0 <= i < cs.len(),
    ensures
        offset(cs, i + 1) == offset(cs, i) + char_width(cs[i]),
        offset(cs, i) >= 0,
{
    assert(cs.take(i + 1) =~= cs.take(i) + seq![cs[i]]);
    lemma_width_sum_concat(cs.take(i), seq![cs[i]]);
    assert(seq![cs[i]].drop_first() =~= Seq::<char>::empty());
    assert(width_sum(Seq::<char>::empty()) == 0);
    assert(seq![cs[i]][0] == cs[i]);
}

proof fn lemma_offset_bound(cs: Seq<char>, i: int)
    requires
        0 <= i <= cs.len(),
    ensures
        0 <= offset(cs, i) <= width_sum(cs),
{
    assert(cs =~= cs.take(i) + cs.skip(i));
    lemma_width_sum_concat(cs.take(i), cs.skip(i));
    lemma_width_sum_concat(cs.skip(i), Seq::empty());
    assert(cs.skip(i) + Seq::<char>::empty() =~= cs.skip(i));
}

proof fn lemma_width_sum_bytes(cs: Seq<char>)
    ensures
        width_sum(cs) == encode_utf8(cs).len(),
    decreases cs.len(),
{
    if cs.len() > 0 {
        lemma_width_sum_bytes(cs.drop_first());
        char_is_scalar(cs[0]);
    }
}

proof fn lemma_run_end(cs: Seq<char>, i: int, k: RunKind)
    requires
        0 <= i <= cs.len(),
    ensures
        i <= run_end(cs, i, k) <= cs.len(),
        forall|m: int| i <= m < run_end(cs, i, k) ==> in_run(k, #[trigger] cs[m]),
        run_end(cs, i, k) < cs.len() ==> !in_run(k, cs[run_end(cs, i, k)]),
    decreases cs.len() - i,
{
    if i < cs.len() && in_run(k, cs[i]) {
        lemma_run_end(cs, i + 1, k);
    }
}

proof fn lemma_digits_prefix(s: Seq<char>, k: int)
    requires
        0 <= k <= s.len(),
        forall|m: int| 0 <= m < s.len() ==> is_digit(#[trigger] s[m]),
    ensures
        0 <= digits_value(s.take(k)) <= digits_value(s),
    decreases s.len(),
{
    if k < s.len() {
        lemma_digits_prefix(s.drop_last(), k);
        assert(s.drop_last().take(k) =~= s.take(k));
        lemma_digits_prefix(s.drop_last(), s.len() - 1);
        assert(s.drop_last().take(s.len() - 1) =~= s.drop_last());
    } else {
        assert(s.take(k) =~= s);
        if s.len() > 0 {
            lemma_digits_prefix(s.drop_last(), s.len() - 1);
            assert(s.drop_last().take(s.len() - 1) =~= s.drop_last());
        }
    }
}

// ---------------------------------------------------------------------------
// Character classes
// ---------------------------------------------------------------------------

fn width_of(c: char) -> (r: usize)
    ensures
        r as int == char_width(c),
{
    if (c as u32) < 0x80 {
        1
    } else if (c as u32) < 0x800 {
        2
    } else if (c as u32) < 0x10000 {
        3
    } else {
        4
    }
}

fn alpha(c: char) -> (r: bool)
    ensures
        r == is_alpha(c),
{
    ('a' <= c && c <= 'z') || ('A' <= c && c <= 'Z')
}

fn digit(c: char) -> (r: bool)
    ensures
        r == is_digit(c),
{
    '0' <= c && c <= '9'
}

fn space(c: char) -> (r: bool)
    ensures
        r == is_space(c),
{
    c == ' ' || c == '\t' || c == '\n' || c == '\r' || c == '\x0C'
}

fn run_member(k: &RunKind, c: char) -> (r: bool)
    ensures
        r == in_run(*k, c),
{
    match k {
        RunKind::Letters => alpha(c),
        RunKind::Digits => digit(c),
        RunKind::NotQuote => c != '"',
    }
}

// ---------------------------------------------------------------------------
// The lexer
// ---------------------------------------------------------------------------

/// Turns source text into tokens, each with its byte span.
pub struct Lexer<'a> {
    source: &'a str,
    chars: Vec<char>,
    pos: usize,
    offset: usize,
}

impl<'a> Lexer<'a> {
    /// The text being scanned.
    pub closed spec fn text(&self) -> Seq<char> {
        self.source@
    }

    /// The characters are those of the source, and `offset` is the byte offset of `pos`.
    pub closed spec fn wf(&self) -> bool {
        &&& self.chars@ == self.source@
        &&& self.pos <= self.chars.len()
        &&& self.offset == offset(self.chars@, self.pos as int)
        &&& width_sum(self.chars@) <= usize::MAX
    }

    /// Nothing has been scanned yet.
    pub closed spec fn at_start(&self) -> bool {
        self.pos == 0
    }

    spec fn same_text(&self, other: &Self) -> bool {
        self.source == other.source && self.chars@ == other.chars@
    }

    pub fn new(source: &'a str) -> (r: Self)
        ensures
            r.wf(),
            r.at_start(),
            r.text() == source@,
    {
        let mut chars: Vec<char> = Vec::new();
        for c in it: source.chars()
            invariant
                chars@ == it.seq().take(it.index() as int),
        {
            chars.push(c);
            proof {
                assert(chars@ =~= it.seq().take(it.index() + 1));
            }
        }
        // the source's length in bytes fits in a usize, hence so does every offset into it
        let byte_len: usize = source.as_bytes().len();
        proof {
            assert(chars@ =~= source@);
            lemma_width_sum_bytes(source@);
        }
        Lexer { source, chars, pos: 0, offset: 0 }
    }

    /// Scans the whole text.  On success the tokens are those of the scan followed by
    /// the end-of-input sentinel; otherwise the error is the one that stopped the scan.
    pub fn tokenize(self) -> (r: Result<Vec<Spanned<Token<'a>>>, Spanned<JsonError<'a>>>)
        requires
            self.wf(),
            self.at_start(),
            numbers_fit(self.text()),
        ensures
            match r {
                Ok(v) => lex(self.text()).err is None && token_views(v@) == with_eof(
                    lex(self.text()).toks,
                ),
                Err(e) => lex(self.text()).err == Some(e@),
            },
    {
        let mut lexer = self;
        lexer.scan()
    }

    fn scan(&mut self) -> (r: Result<Vec<Spanned<Token<'a>>>, Spanned<JsonError<'a>>>)
        requires
            old(self).wf(),
            old(self).at_start(),
            numbers_fit(old(self).text()),
        ensures
            match r {
                Ok(v) => lex(old(self).text()).err is None && token_views(v@) == with_eof(
                    lex(old(self).text()).toks,
                ),
                Err(e) => lex(old(self).text()).err == Some(e@),
            },
    {
        let ghost cs = self.chars@;
        let mut tokens: Vec<Spanned<Token<'a>>> = Vec::new();
        proof {
            assert(token_views(tokens@) =~= Seq::empty());
            assert(lex(cs).toks =~= token_views(tokens@) + lex_from(cs, 0).toks);
        }
        while self.pos < self.chars.len()
            invariant
                self.wf(),
                self.same_text(old(self)),
                cs == self.chars@,
                cs == old(self).text(),
                numbers_fit(cs),
                lex(cs).toks == token_views(tokens@) + lex_from(cs, self.pos as int).toks,
                lex(cs).err == lex_from(cs, self.pos as int).err,
            decreases cs.len() - self.pos,
        {
            let i = self.pos;
            let off = self.offset;
            let c = self.chars[i];
            self.next();
            let token = if c == '"' {
                match self.str(off) {
                    Ok(t) => t,
                    Err(e) => {
                        return Err(e);
                    },
                }
            } else if alpha(c) {
                match self.keyword(off) {
                    Ok(t) => t,
                    Err(e) => {
                        return Err(e);
                    },
                }
            } else if digit(c) {
                proof {
                    lemma_run_end(cs, i + 1, RunKind::Digits);
                    let j = run_end(cs, i + 1, RunKind::Digits);
                    reveal(lex_from);
                    assert(lex_from(cs, i as int).toks[0].elem == TokenView::Num(
                        digits_value(cs.subrange(i as int, j)),
                    ));
                    assert(lex(cs).toks[token_views(tokens@).len() as int] == lex_from(
                        cs,
                        i as int,
                    ).toks[0]);
                }
                self.num(off)
            } else if space(c) {
                assert(lex_from(cs, i as int) == lex_from(cs, i + 1)) by {
                    reveal(lex_from);
                }
                continue;
            } else {
                let elem = if c == '[' {
                    Token::LBracket
                } else if c == ']' {
                    Token::RBracket
                } else if c == '{' {
                    Token::LBrace
                } else if c == '}' {
                    Token::RBrace
                } else if c == ':' {
                    Token::Colon
                } else if c == ',' {
                    Token::Comma
                } else {
                    assert(lex_from(cs, i as int).err == Some(
                        SpannedView { elem: ErrorView::UnexpectedChar(c), start: off as int, end: self.offset as int },
                    )) by {
                        reveal(lex_from);
                    }
                    return Err(
                        Spanned {
                            elem: JsonError { reason: ErrReason::UnexpectedChar(c) },
                            span: span_of(off, self.offset),
                        },
                    );
                };
                let t = Spanned { elem, span: span_of(off, self.offset) };
                assert(lex_from(cs, i as int) == cons(t@, lex_from(cs, i + 1))) by {
                    reveal(lex_from);
                }
                t
            };
            proof {
                assert(token_views(tokens@.push(token)) =~= token_views(tokens@).push(token@));
            }
            tokens.push(token);
            proof {
                assert(lex(cs).toks =~= token_views(tokens@) + lex_from(cs, self.pos as int).toks);
            }
        }
        let end: usize = if tokens.len() == 0 {
            0
        } else {
            tokens[tokens.len() - 1].span.end
        };
        let eof = Spanned { elem: Token::EOF, span: span_of(end, end) };
        proof {
            assert(token_views(tokens@.push(eof)) =~= token_views(tokens@).push(eof@));
            reveal(lex_from);
            assert(lex(cs).toks =~= token_views(tokens@));
        }
        tokens.push(eof);
        Ok(tokens)
    }

    fn next(&mut self) -> (r: Option<char>)
        requires
            old(self).wf(),
        ensures
            final(self).wf(),
            final(self).same_text(old(self)),
            old(self).pos < old(self).chars.len() ==> r == Some(old(self).chars@[old(self).pos as int])
                && final(self).pos == old(self).pos + 1,
            old(self).pos >= old(self).chars.len() ==> r is None && final(self).pos == old(self).pos,
    {
        if self.pos < self.chars.len() {
            let c = self.chars[self.pos];
            proof {
                lemma_offset_step(self.chars@, self.pos as int);
                lemma_offset_bound(self.chars@, self.pos + 1);
            }
            self.offset = self.offset + width_of(c);
            self.pos = self.pos + 1;
            Some(c)
        } else {
            None
        }
    }

    /// Moves past the longest run of `k` characters at the current position.
    fn skip_run(&mut self, k: RunKind)
        requires
            old(self).wf(),
        ensures
            final(self).wf(),
            final(self).same_text(old(self)),
            final(self).pos == run_end(old(self).chars@, old(self).pos as int, k),
    {
        let ghost cs = self.chars@;
        let ghost p0 = self.pos as int;
        proof {
            lemma_run_end(cs, p0, k);
        }
        while self.pos < self.chars.len() && run_member(&k, self.chars[self.pos])
            invariant
                self.wf(),
                self.same_text(old(self)),
                cs == self.chars@,
                0 <= p0 <= self.pos <= run_end(cs, p0, k),
                run_end(cs, self.pos as int, k) == run_end(cs, p0, k),
            decreases cs.len() - self.pos,
        {
            proof {
                lemma_run_end(cs, self.pos + 1, k);
            }
            self.next();
        }
    }

    /// Scans a string whose opening quote, at byte `start`, was just consumed.
    #[verifier::rlimit(40)]
    fn str(&mut self, start: usize) -> (r: Result<Spanned<Token<'a>>, Spanned<JsonError<'a>>>)
        requires
            old(self).wf(),
            1 <= old(self).pos,
            old(self).chars@[old(self).pos - 1] == '"',
            start == offset(old(self).chars@, old(self).pos - 1),
        ensures
            final(self).wf(),
            final(self).same_text(old(self)),
            final(self).pos >= old(self).pos,
            match r {
                Ok(t) => lex_from(old(self).chars@, old(self).pos - 1) == cons(
                    t@,
                    lex_from(old(self).chars@, final(self).pos as int),
                ),
                Err(e) => lex_from(old(self).chars@, old(self).pos - 1).err == Some(e@),
            },
    {
        let ghost cs = self.chars@;
        let from = self.pos;
        let ghost i = from - 1;
        let ghost j = run_end(cs, from as int, RunKind::NotQuote);
        self.skip_run(RunKind::NotQuote);
        proof {
            lemma_run_end(cs, from as int, RunKind::NotQuote);
        }
        match self.next() {
            Some(_) => {
                let text = self.source.substring_char(from, self.pos - 1);
                let t = Spanned { elem: Token::Str(text), span: span_of(start, self.offset) };
                assert(t@ == tok(TokenView::Str(cs.subrange(i + 1, j)), start as int, offset(cs, j + 1)));
                assert(lex_from(cs, i) == cons(t@, lex_from(cs, j + 1))) by {
                    reveal(lex_from);
                }
                Ok(t)
            },
            None => {
                let e = Spanned {
                    elem: JsonError { reason: ErrReason::UnclosedString },
                    span: span_of(start, self.offset),
                };
                proof {
                    assert(cs.take(cs.len() as int) =~= cs);
                    assert(lex_from(cs, i) == lex_fail(ErrorView::UnclosedString, start as int, width_sum(cs))) by {
                        reveal(lex_from);
                    }
                }
                Err(e)
            },
        }
    }

    /// Scans a number whose first digit, at byte `start`, was just consumed.
    fn num(&mut self, start: usize) -> (r: Spanned<Token<'a>>)
        requires
            old(self).wf(),
            1 <= old(self).pos,
            is_digit(old(self).chars@[old(self).pos - 1]),
            start == offset(old(self).chars@, old(self).pos - 1),
            digits_value(
                old(self).chars@.subrange(
                    old(self).pos - 1,
                    run_end(old(self).chars@, old(self).pos as int, RunKind::Digits),
                ),
            ) <= isize::MAX,
        ensures
            final(self).wf(),
            final(self).same_text(old(self)),
            final(self).pos >= old(self).pos,
            lex_from(old(self).chars@, old(self).pos - 1) == cons(
                r@,
                lex_from(old(self).chars@, final(self).pos as int),
            ),
    {
        proof {
            reveal(lex_from);
        }
        let ghost cs = self.chars@;
        let ghost first = self.pos - 1;
        let ghost j = run_end(cs, self.pos as int, RunKind::Digits);
        proof {
            lemma_run_end(cs, self.pos as int, RunKind::Digits);
            assert(cs.subrange(first, first + 1).drop_last() =~= Seq::<char>::empty());
            assert(digits_value(Seq::<char>::empty()) == 0);
        }
        let mut n: isize = (self.chars[self.pos - 1] as u32 - '0' as u32) as isize;
        while self.pos < self.chars.len() && digit(self.chars[self.pos])
            invariant
                self.wf(),
                self.same_text(old(self)),
                cs == self.chars@,
                0 <= first,
                first + 1 <= self.pos <= j,
                j == run_end(cs, old(self).pos as int, RunKind::Digits),
                j == run_end(cs, self.pos as int, RunKind::Digits),
                j <= cs.len(),
                forall|m: int| first <= m < j ==> is_digit(#[trigger] cs[m]),
                n as int == digits_value(cs.subrange(first, self.pos as int)),
                digits_value(cs.subrange(first, j)) <= isize::MAX,
            decreases cs.len() - self.pos,
        {
            let d = (self.chars[self.pos] as u32 - '0' as u32) as isize;
            proof {
                lemma_run_end(cs, self.pos + 1, RunKind::Digits);
                let s = cs.subrange(first, j);
                assert(s.take(self.pos - first + 1) =~= cs.subrange(first, self.pos + 1));
                lemma_digits_prefix(s, self.pos - first + 1);
                assert(cs.subrange(first, self.pos + 1).drop_last() =~= cs.subrange(first, self.pos as int));
            }
            n = n * 10 + d;
            self.next();
        }
        Spanned { elem: Token::Num(n), span: span_of(start, self.offset) }
    }

    /// Scans a keyword whose first letter, at byte `start`, was just consumed.
    fn keyword(&mut self, start: usize) -> (r: Result<Spanned<Token<'a>>, Spanned<JsonError<'a>>>)
        requires
            old(self).wf(),
            1 <= old(self).pos,
            is_alpha(old(self).chars@[old(self).pos - 1]),
            start == offset(old(self).chars@, old(self).pos - 1),
        ensures
            final(self).wf(),
            final(self).same_text(old(self)),
            final(self).pos >= old(self).pos,
            match r {
                Ok(t) => lex_from(old(self).chars@, old(self).pos - 1) == cons(
                    t@,
                    lex_from(old(self).chars@, final(self).pos as int),
                ),
                Err(e) => lex_from(old(self).chars@, old(self).pos - 1).err == Some(e@),
            },
    {
        proof {
            reveal(lex_from);
        }
        let ghost cs = self.chars@;
        let from = self.pos - 1;
        self.skip_run(RunKind::Letters);
        let to = self.pos;
        proof {
            lemma_run_end(cs, from + 1, RunKind::Letters);
        }
        let span = span_of(start, self.offset);
        match self.keyword_token(from, to) {
            Some(elem) => Ok(Spanned { elem, span }),
            None => {
                let word = self.source.substring_char(from, to);
                Err(Spanned { elem: JsonError { reason: ErrReason::UnknownKeyword(word) }, span })
            },
        }
    }

    /// The token that the letters in `[from, to)` spell, if they spell a keyword.
    fn keyword_token(&self, from: usize, to: usize) -> (r: Option<Token<'a>>)
        requires
            self.wf(),
            from <= to <= self.chars.len(),
        ensures
            match r {
                Some(t) => keyword(self.chars@.subrange(from as int, to as int)) == Some(t@),
                None => keyword(self.chars@.subrange(from as int, to as int)) is None,
            },
    {
        let ghost w = self.chars@.subrange(from as int, to as int);
        let n = to - from;
        let ghost t = seq!['t', 'r', 'u', 'e'];
        let ghost f = seq!['f', 'a', 'l', 's', 'e'];
        let ghost u = seq!['n', 'u', 'l', 'l'];
        assert(t.len() == 4 && t[0] == 't' && t[1] == 'r' && t[2] == 'u' && t[3] == 'e');
        assert(f.len() == 5 && f[0] == 'f' && f[1] == 'a' && f[2] == 'l' && f[3] == 's' && f[4] == 'e');
        assert(u.len() == 4 && u[0] == 'n' && u[1] == 'u' && u[2] == 'l' && u[3] == 'l');
        if n == 4 && self.chars[from] == 't' && self.chars[from + 1] == 'r'
            && self.chars[from + 2] == 'u' && self.chars[from + 3] == 'e' {
            proof {
                assert(w =~= seq!['t', 'r', 'u', 'e']);
            }
            Some(Token::Bool(true))
        } else if n == 5 && self.chars[from] == 'f' && self.chars[from + 1] == 'a'
            && self.chars[from + 2] == 'l' && self.chars[from + 3] == 's'
            && self.chars[from + 4] == 'e' {
            proof {
                assert(w =~= seq!['f', 'a', 'l', 's', 'e']);
            }
            Some(Token::Bool(false))
        } else if n == 4 && self.chars[from] == 'n' && self.chars[from + 1] == 'u'
            && self.chars[from + 2] == 'l' && self.chars[from + 3] == 'l' {
            proof {
                assert(w =~= seq!['n', 'u', 'l', 'l']);
            }
            Some(Token::Null)
        } else {
            proof {
                if w == seq!['t', 'r', 'u', 'e'] {
                    assert(w[0] == 't' && w[1] == 'r' && w[2] == 'u' && w[3] == 'e');
                }
                if w == seq!['f', 'a', 'l', 's', 'e'] {
                    assert(w[0] == 'f' && w[1] == 'a' && w[2] == 'l' && w[3] == 's' && w[4] == 'e');
                }
                if w == seq!['n', 'u', 'l', 'l'] {
                    assert(w[0] == 'n' && w[1] == 'u' && w[2] == 'l' && w[3] == 'l');
                }
            }
            None
        }
    }
}

} // verus!
