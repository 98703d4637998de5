use vstd::prelude::*;

use crate::ast::{
    lemma_array_view, lemma_members_insert, lemma_object_view, members_view, spanned_value_view,
    unique_keys, value_view, JsonValue, JsonValueView,
};
use crate::error::{ErrReason, ErrorView, JsonError};
use crate::lexer::token_views;
use crate::tokens::{span_of, Spanned, SpannedView, Token, TokenView};

verus! {

broadcast use vstd::std_specs::vec::group_vec_axioms;

// ---------------------------------------------------------------------------
// The parser's model
// ---------------------------------------------------------------------------

/// What an attempt to parse a construct at some token comes to.
pub enum Parsed {
    /// The construct was found; parsing goes on at the given token index.
    Value(SpannedView<JsonValueView>, int),
    /// The token does not begin the construct; nothing was consumed.
    NotApplicable,
    /// The construct began but is malformed.
    Fail(SpannedView<ErrorView>),
}

pub open spec fn expected_at(t: Seq<SpannedView<TokenView>>, i: int, name: &'static str) -> SpannedView<ErrorView> {
    SpannedView { elem: ErrorView::Expected(name@), start: t[i].start, end: t[i].end }
}

pub open spec fn leaf(v: JsonValueView, tk: SpannedView<TokenView>) -> SpannedView<JsonValueView> {
    SpannedView { elem: v, start: tk.start, end: tk.end }
}

/// `value := array | object | null | bool | string | number`, at token `i`.
pub open spec fn parse_value(t: Seq<SpannedView<TokenView>>, i: int) -> Parsed
    decreases t.len() - i, 1nat,
{
    if i < 0 || i >= t.len() {
        Parsed::NotApplicable
    } else {
        match t[i].elem {
            TokenView::LBracket => parse_elems(t, i + 1, Seq::empty(), t[i].start),
            TokenView::LBrace => parse_members(t, i + 1, Map::empty(), t[i].start),
            TokenView::Null => Parsed::Value(leaf(JsonValueView::Null, t[i]), i + 1),
            TokenView::Bool(b) => Parsed::Value(leaf(JsonValueView::Bool(b), t[i]), i + 1),
            TokenView::Str(s) => Parsed::Value(leaf(JsonValueView::Str(s), t[i]), i + 1),
            TokenView::Num(n) => Parsed::Value(leaf(JsonValueView::Num(n), t[i]), i + 1),
            _ => Parsed::NotApplicable,
        }
    }
}

/// Closes an array whose elements `acc` end before token `k`.
pub open spec fn close_array(
    t: Seq<SpannedView<TokenView>>,
    k: int,
    acc: Seq<SpannedView<JsonValueView>>,
    start: int,
) -> Parsed {
    if t[k].elem is RBracket {
        Parsed::Value(SpannedView { elem: JsonValueView::Array(acc), start, end: t[k].end }, k + 1)
    } else {
        Parsed::Fail(expected_at(t, k, "right bracket"))
    }
}

/// The elements of an array from token `j` on, after those in `acc`.  A missing comma
/// ends the list; a comma right before `]` is allowed.
pub open spec fn parse_elems(
    t: Seq<SpannedView<TokenView>>,
    j: int,
    acc: Seq<SpannedView<JsonValueView>>,
    start: int,
) -> Parsed
    decreases t.len() - j, 2nat,
{
    if j < 0 || j >= t.len() {
        Parsed::NotApplicable
    } else {
        match parse_value(t, j) {
            Parsed::NotApplicable => close_array(t, j, acc, start),
            Parsed::Fail(e) => Parsed::Fail(e),
            Parsed::Value(v, k) => {
                // a value always consumes a token; this keeps the recursion visibly finite
                if k <= j || k >= t.len() {
                    Parsed::NotApplicable
                } else if t[k].elem is Comma {
                    parse_elems(t, k + 1, acc.push(v), start)
                } else {
                    close_array(t, k, acc.push(v), start)
                }
            },
        }
    }
}

/// Closes an object whose members `m` end before token `k`.
pub open spec fn close_object(
    t: Seq<SpannedView<TokenView>>,
    k: int,
    m: Map<Seq<char>, SpannedView<JsonValueView>>,
    start: int,
) -> Parsed {
    if t[k].elem is RBrace {
        Parsed::Value(SpannedView { elem: JsonValueView::Object(m), start, end: t[k].end }, k + 1)
    } else {
        Parsed::Fail(expected_at(t, k, "right brace"))
    }
}

/// The members of an object from token `j` on, after those in `m`.  A later member
/// replaces an earlier one with the same key.
pub open spec fn parse_members(
    t: Seq<SpannedView<TokenView>>,
    j: int,
    m: Map<Seq<char>, SpannedView<JsonValueView>>,
    start: int,
) -> Parsed
    decreases t.len() - j, 2nat,
{
    if j < 0 || j >= t.len() {
        Parsed::NotApplicable
    } else if let TokenView::Str(key) = t[j].elem {
        if j + 1 >= t.len() || !(t[j + 1].elem is Colon) {
            Parsed::Fail(expected_at(t, j + 1, "colon"))
        } else {
            match parse_value(t, j + 2) {
                Parsed::NotApplicable => Parsed::Fail(expected_at(t, j + 2, "a value")),
                Parsed::Fail(e) => Parsed::Fail(e),
                Parsed::Value(v, k) => {
                    if k <= j || k >= t.len() {
                        Parsed::NotApplicable
                    } else if t[k].elem is Comma {
                        parse_members(t, k + 1, m.insert(key, v), start)
                    } else {
                        close_object(t, k, m.insert(key, v), start)
                    }
                },
            }
        }
    } else {
        close_object(t, j, m, start)
    }
}

/// A whole document from token `i` on: one value followed by the end of input.
pub open spec fn parse_document(t: Seq<SpannedView<TokenView>>, i: int) -> Result<
    SpannedView<JsonValueView>,
    SpannedView<ErrorView>,
> {
    match parse_value(t, i) {
        Parsed::NotApplicable => Err(expected_at(t, i, "a value")),
        Parsed::Fail(e) => Err(e),
        Parsed::Value(v, k) => if t[k].elem is EOF {
            Ok(v)
        } else {
            Err(SpannedView { elem: ErrorView::UnexpectedTok(t[k].elem), start: t[k].start, end: t[k].end })
        },
    }
}

/// A token sequence as the lexer hands it over: it ends with the end-of-input sentinel.
pub open spec fn well_terminated(t: Seq<SpannedView<TokenView>>) -> bool {
    t.len() > 0 && t.last().elem is EOF
}

// ---------------------------------------------------------------------------
// The parser
// ---------------------------------------------------------------------------

/// Relies on `PartialEq` for `str`: two strings are equal exactly when they hold the same
/// characters.
#[verifier::external_body]
fn same_key(a: &str, b: &str) -> (r: bool)
    ensures
        r == (a@ == b@),
{
    a == b
}

/// The outcome of one parse attempt, as `Parsed` models it.
enum Attempt<'a> {
    Matched(Spanned<JsonValue<'a>>),
    NotApplicable,
    Failed(Spanned<JsonError<'a>>),
}

spec fn models(a: Attempt, p: Parsed) -> bool {
    match (a, p) {
        (Attempt::Matched(v), Parsed::Value(pv, _)) => spanned_value_view(v) == pv,
        (Attempt::NotApplicable, Parsed::NotApplicable) => true,
        (Attempt::Failed(e), Parsed::Fail(pe)) => e@ == pe,
        _ => false,
    }
}

/// The models of a sequence of parsed values.
pub open spec fn value_views(v: Seq<Spanned<JsonValue>>) -> Seq<SpannedView<JsonValueView>> {
    v.map_values(|x: Spanned<JsonValue>| spanned_value_view(x))
}

/// The model of a parse result.
pub open spec fn result_view(r: Result<Spanned<JsonValue>, Spanned<JsonError>>) -> Result<
    SpannedView<JsonValueView>,
    SpannedView<ErrorView>,
> {
    match r {
        Ok(v) => Ok(spanned_value_view(v)),
        Err(e) => Err(e@),
    }
}

/// Parsing is a function of the tokens: two parsers started at the same place in the same
/// token sequence come to the same tree, spans included, or to the same error.
pub proof fn lemma_parse_repeatable(
    p1: Parser,
    r1: Result<Spanned<JsonValue>, Spanned<JsonError>>,
    p2: Parser,
    r2: Result<Spanned<JsonValue>, Spanned<JsonError>>,
)
    requires
        p1.toks() == p2.toks(),
        p1.position() == p2.position(),
        result_view(r1) == parse_document(p1.toks(), p1.position()),
        result_view(r2) == parse_document(p2.toks(), p2.position()),
    ensures
        result_view(r1) == result_view(r2),
{
}

/// Builds the tree of a document from its tokens by recursive descent.
pub struct Parser<'a> {
    tokens: Vec<Spanned<Token<'a>>>,
    pos: usize,
}

impl<'a> Parser<'a> {
    /// The models of the tokens being parsed.
    pub closed spec fn toks(&self) -> Seq<SpannedView<TokenView>> {
        token_views(self.tokens@)
    }

    /// The index of the next token.
    pub closed spec fn position(&self) -> int {
        self.pos as int
    }

    /// The tokens end with the sentinel and the next token is one of them.
    pub closed spec fn wf(&self) -> bool {
        &&& well_terminated(self.toks())
        &&& self.pos < self.tokens.len()
    }

    /// Both parsers work on the same tokens.
    pub closed spec fn same_tokens(&self, other: &Self) -> bool {
        self.tokens@ == other.tokens@
    }

    /// A parser positioned at the first of `tokens`, which must end with the sentinel.
    pub fn new(tokens: Vec<Spanned<Token<'a>>>) -> (r: Self)
        requires
            well_terminated(token_views(tokens@)),
        ensures
            r.wf(),
            r.toks() == token_views(tokens@),
            r.position() == 0,
    {
        Parser { tokens, pos: 0 }
    }

    /// Parses one value and then requires the end of input.
    pub fn json(self) -> (r: Result<Spanned<JsonValue<'a>>, Spanned<JsonError<'a>>>)
        requires
            self.wf(),
        ensures
            result_view(r) == parse_document(self.toks(), self.position()),
    {
        let mut parser = self;
        parser.document()
    }

    fn document(&mut self) -> (r: Result<Spanned<JsonValue<'a>>, Spanned<JsonError<'a>>>)
        requires
            old(self).wf(),
        ensures
            result_view(r) == parse_document(old(self).toks(), old(self).position()),
    {
        let val = self.value();
        match val {
            Err(e) => Err(e),
            Ok(v) => {
                let tk = self.next();
                match tk.elem {
                    Token::EOF => Ok(v),
                    elem => Err(Spanned { elem: JsonError { reason: ErrReason::UnexpectedTok(elem) }, span: tk.span }),
                }
            },
        }
    }

    /// Parses the value that begins at the next token.
    pub fn value(&mut self) -> (r: Result<Spanned<JsonValue<'a>>, Spanned<JsonError<'a>>>)
        requires
            old(self).wf(),
        ensures
            final(self).wf(),
            final(self).same_tokens(old(self)),
            match parse_value(old(self).toks(), old(self).position()) {
                Parsed::Value(v, k) => r is Ok && spanned_value_view(r->Ok_0) == v && final(self).position() == k,
                Parsed::NotApplicable => r is Err && r->Err_0@ == expected_at(old(self).toks(), old(self).position(), "a value"),
                Parsed::Fail(e) => r is Err && r->Err_0@ == e,
            },
    {
        match self.attempt_value() {
            Attempt::Matched(v) => Ok(v),
            Attempt::Failed(e) => Err(e),
            Attempt::NotApplicable => Err(self.expected("a value")),
        }
    }

    /// The error that reports `name` as required at the next token.
    fn expected(&self, name: &'static str) -> (r: Spanned<JsonError<'a>>)
        requires
            self.wf(),
        ensures
            r@ == expected_at(self.toks(), self.position(), name),
    {
        let tk = self.peek();
        Spanned { elem: JsonError { reason: ErrReason::Expected(name) }, span: span_of(tk.span.start, tk.span.end) }
    }

    fn peek(&self) -> (r: &Spanned<Token<'a>>)
        requires
            self.wf(),
        ensures
            r@ == self.toks()[self.position()],
    {
        &self.tokens[self.pos]
    }

    /// Consumes the next token; the sentinel is never passed.
    fn next(&mut self) -> (r: Spanned<Token<'a>>)
        requires
            old(self).wf(),
        ensures
            final(self).same_tokens(old(self)),
            r@ == old(self).toks()[old(self).position()],
            !(r.elem is EOF) ==> final(self).wf() && final(self).position() == old(self).position() + 1,
    {
        let tk = &self.tokens[self.pos];
        let r = Spanned { elem: tk.elem, span: span_of(tk.span.start, tk.span.end) };
        if self.pos + 1 < self.tokens.len() {
            self.pos = self.pos + 1;
        }
        r
    }

    fn attempt_value(&mut self) -> (r: Attempt<'a>)
        requires
            old(self).wf(),
        ensures
            final(self).wf(),
            final(self).same_tokens(old(self)),
            models(r, parse_value(old(self).toks(), old(self).position())),
            parse_value(old(self).toks(), old(self).position()) matches Parsed::Value(_, k) ==> final(self).position() == k,
            r is NotApplicable ==> final(self).position() == old(self).position(),
            r is Matched ==> final(self).position() > old(self).position(),
        decreases old(self).tokens@.len() - old(self).pos, 1nat,
    {
        let tk = self.peek();
        match tk.elem {
            Token::LBracket => self.array(),
            Token::LBrace => self.object(),
            Token::Null | Token::Bool(_) | Token::Str(_) | Token::Num(_) => {
                let tk = self.next();
                let elem = match tk.elem {
                    Token::Bool(b) => JsonValue::Bool(b),
                    Token::Str(s) => JsonValue::Str(s),
                    Token::Num(n) => JsonValue::Num(n),
                    _ => JsonValue::Null,
                };
                Attempt::Matched(Spanned { elem, span: tk.span })
            },
            _ => Attempt::NotApplicable,
        }
    }

    fn at_comma(&self) -> (r: bool)
        requires
            self.wf(),
        ensures
            r == (self.toks()[self.position()].elem is Comma),
    {
        matches!(self.peek().elem, Token::Comma)
    }

    fn array(&mut self) -> (r: Attempt<'a>)
        requires
            old(self).wf(),
            old(self).toks()[old(self).position()].elem is LBracket,
        ensures
            final(self).wf(),
            final(self).same_tokens(old(self)),
            models(r, parse_value(old(self).toks(), old(self).position())),
            parse_value(old(self).toks(), old(self).position()) matches Parsed::Value(_, k) ==> final(self).position() == k,
            r is Matched ==> final(self).position() > old(self).position(),
            !(r is NotApplicable),
        decreases old(self).tokens@.len() - old(self).pos, 0nat,
    {
        let ghost t = self.toks();
        let ghost p0 = self.position();
        let open = self.next();
        let start = open.span.start;
        let mut values: Vec<Spanned<JsonValue<'a>>> = Vec::new();
        proof {
            assert(value_views(values@) =~= Seq::empty());
        }
        loop
            invariant
                self.wf(),
                self.toks() == t,
                self.same_tokens(old(self)),
                self.position() > p0,
                p0 == old(self).position(),
                t == old(self).toks(),
                start as int == t[p0].start,
                parse_value(t, p0) == parse_elems(t, self.position(), value_views(values@), start as int),
            decreases t.len() - self.position(),
        {
            let ghost j = self.position();
            match self.attempt_value() {
                Attempt::Failed(e) => {
                    return Attempt::Failed(e);
                },
                Attempt::NotApplicable => {
                    return self.close_array(values, start);
                },
                Attempt::Matched(v) => {
                    proof {
                        assert(value_views(values@.push(v)) =~= value_views(values@).push(spanned_value_view(v)));
                    }
                    values.push(v);
                    if self.at_comma() {
                        self.next();
                    } else {
                        return self.close_array(values, start);
                    }
                },
            }
        }
    }

    fn close_array(&mut self, values: Vec<Spanned<JsonValue<'a>>>, start: usize) -> (r: Attempt<'a>)
        requires
            old(self).wf(),
        ensures
            final(self).wf(),
            final(self).same_tokens(old(self)),
            models(r, close_array(old(self).toks(), old(self).position(), value_views(values@), start as int)),
            close_array(old(self).toks(), old(self).position(), value_views(values@), start as int) matches Parsed::Value(_, k) ==> final(self).position() == k,
            r is Matched ==> final(self).position() > old(self).position(),
            !(r is NotApplicable),
    {
        if matches!(self.peek().elem, Token::RBracket) {
            let tk = self.next();
            proof {
                lemma_array_view(values);
            }
            Attempt::Matched(Spanned { elem: JsonValue::Array(values), span: span_of(start, tk.span.end) })
        } else {
            Attempt::Failed(self.expected("right bracket"))
        }
    }

    fn object(&mut self) -> (r: Attempt<'a>)
        requires
            old(self).wf(),
            old(self).toks()[old(self).position()].elem is LBrace,
        ensures
            final(self).wf(),
            final(self).same_tokens(old(self)),
            models(r, parse_value(old(self).toks(), old(self).position())),
            parse_value(old(self).toks(), old(self).position()) matches Parsed::Value(_, k) ==> final(self).position() == k,
            r is Matched ==> final(self).position() > old(self).position(),
            !(r is NotApplicable),
        decreases old(self).tokens@.len() - old(self).pos, 0nat,
    {
        let ghost t = self.toks();
        let ghost p0 = self.position();
        let open = self.next();
        let start = open.span.start;
        let mut members: Vec<(&'a str, Spanned<JsonValue<'a>>)> = Vec::new();
        proof {
            assert(members_view(members@) =~= Map::empty());
        }
        loop
            invariant
                self.wf(),
                self.toks() == t,
                self.same_tokens(old(self)),
                self.position() > p0,
                p0 == old(self).position(),
                t == old(self).toks(),
                start as int == t[p0].start,
                unique_keys(members@),
                parse_value(t, p0) == parse_members(t, self.position(), members_view(members@), start as int),
            decreases t.len() - self.position(),
        {
            let ghost j = self.position();
            let key = match self.peek().elem {
                Token::Str(key) => key,
                _ => {
                    return self.close_object(members, start);
                },
            };
            self.next();
            if !matches!(self.peek().elem, Token::Colon) {
                return Attempt::Failed(self.expected("colon"));
            }
            self.next();
            match self.attempt_value() {
                Attempt::NotApplicable => {
                    return Attempt::Failed(self.expected("a value"));
                },
                Attempt::Failed(e) => {
                    return Attempt::Failed(e);
                },
                Attempt::Matched(v) => {
                    insert_member(&mut members, key, v);
                    if self.at_comma() {
                        self.next();
                    } else {
                        return self.close_object(members, start);
                    }
                },
            }
        }
    }

    fn close_object(&mut self, members: Vec<(&'a str, Spanned<JsonValue<'a>>)>, start: usize) -> (r: Attempt<'a>)
        requires
            old(self).wf(),
        ensures
            final(self).wf(),
            final(self).same_tokens(old(self)),
            models(r, close_object(old(self).toks(), old(self).position(), members_view(members@), start as int)),
            close_object(old(self).toks(), old(self).position(), members_view(members@), start as int) matches Parsed::Value(_, k) ==> final(self).position() == k,
            r is Matched ==> final(self).position() > old(self).position(),
            !(r is NotApplicable),
    {
        if matches!(self.peek().elem, Token::RBrace) {
            let tk = self.next();
            proof {
                lemma_object_view(members);
            }
            Attempt::Matched(Spanned { elem: JsonValue::Object(members), span: span_of(start, tk.span.end) })
        } else {
            Attempt::Failed(self.expected("right brace"))
        }
    }
}

/// Sets the member `key` to `v`: in place where the key is present, else after the others.
fn insert_member<'a>(members: &mut Vec<(&'a str, Spanned<JsonValue<'a>>)>, key: &'a str, v: Spanned<JsonValue<'a>>)
    requires
        unique_keys(old(members)@),
    ensures
        unique_keys(final(members)@),
        members_view(final(members)@) == members_view(old(members)@).insert(key@, spanned_value_view(v)),
{
    let mut i: usize = 0;
    while i < members.len()
        invariant
            i <= members.len(),
            members@ == old(members)@,
            unique_keys(old(members)@),
            forall|k: int| 0 <= k < i ==> members@[k].0@ != key@,
        decreases members.len() - i,
    {
        if same_key(members[i].0, key) {
            let ghost m0 = members@;
            members[i] = (key, v);
            proof {
                assert(members@ == m0.update(i as int, (key, v)));
                lemma_members_insert(m0, key, v, members@);
            }
            return;
        }
        i = i + 1;
    }
    proof {
        lemma_members_insert(members@, key, v, members@.push((key, v)));
    }
    members.push((key, v));
}

} // verus!
