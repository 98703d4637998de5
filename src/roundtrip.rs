use vstd::prelude::*;

use crate::ast::JsonValueView;
use crate::parser::{
    close_array, close_object, parse_document, parse_elems, parse_members, parse_value, Parsed,
};
use crate::lexer::{
    digits_value, in_run, is_alpha, is_digit, keyword, lex, lex_from, run_end, structural, with_eof,
    RunKind,
};
use crate::tokens::{SpannedView, TokenView};

verus! {

broadcast use vstd::seq::group_seq_axioms;

/// A document without positions.  An object is a list of key and member pairs.
pub enum Doc {
    Null,
    Num(int),
    Str(Seq<char>),
    Bool(bool),
    Arr(Seq<Doc>),
    Obj(Seq<(Seq<char>, Doc)>),
}

/// The keys of the pairs in `ms`.
pub open spec fn doc_keys(ms: Seq<(Seq<char>, Doc)>) -> Set<Seq<char>> {
    Set::new(|k: Seq<char>| exists|j: int| 0 <= j < ms.len() && ms[j].0 == k)
}

/// Every object in `d` has unique keys.
pub open spec fn doc_valid(d: Doc) -> bool
    decreases d,
{
    match d {
        Doc::Arr(items) => forall|j: int| 0 <= j < items.len() ==> doc_valid(#[trigger] items[j]),
        Doc::Obj(ms) => (forall|a: int, b: int|
            0 <= a < ms.len() && 0 <= b < ms.len() && #[trigger] ms[a].0 == #[trigger] ms[b].0 ==> a == b)
            && forall|j: int| 0 <= j < ms.len() ==> doc_valid(#[trigger] ms[j].1),
        _ => true,
    }
}

/// The tokens that spell `d`.
pub open spec fn doc_tokens(d: Doc) -> Seq<TokenView>
    decreases d,
{
    match d {
        Doc::Null => seq![TokenView::Null],
        Doc::Num(n) => seq![TokenView::Num(n)],
        Doc::Str(s) => seq![TokenView::Str(s)],
        Doc::Bool(b) => seq![TokenView::Bool(b)],
        Doc::Arr(items) => seq![TokenView::LBracket] + items_tokens(items) + seq![TokenView::RBracket],
        Doc::Obj(ms) => seq![TokenView::LBrace] + members_tokens(ms) + seq![TokenView::RBrace],
    }
}

/// The tokens that spell the members `ms`, separated by commas.
pub open spec fn members_tokens(ms: Seq<(Seq<char>, Doc)>) -> Seq<TokenView>
    decreases ms,
{
    if ms.len() == 0 {
        Seq::empty()
    } else {
        let first = seq![TokenView::Str(ms[0].0), TokenView::Colon] + doc_tokens(ms[0].1);
        if ms.len() == 1 {
            first
        } else {
            first + seq![TokenView::Comma] + members_tokens(ms.subrange(1, ms.len() as int))
        }
    }
}

/// The tokens that spell `items`, separated by commas.
pub open spec fn items_tokens(items: Seq<Doc>) -> Seq<TokenView>
    decreases items,
{
    if items.len() == 0 {
        Seq::empty()
    } else if items.len() == 1 {
        doc_tokens(items[0])
    } else {
        doc_tokens(items[0]) + seq![TokenView::Comma] + items_tokens(items.subrange(1, items.len() as int))
    }
}

/// The tree `v` has the shape and the contents of `d`.
pub open spec fn matches_doc(v: JsonValueView, d: Doc) -> bool
    decreases d,
{
    match d {
        Doc::Null => v is Null,
        Doc::Num(n) => v == JsonValueView::Num(n),
        Doc::Str(s) => v == JsonValueView::Str(s),
        Doc::Bool(b) => v == JsonValueView::Bool(b),
        Doc::Arr(items) => match v {
            JsonValueView::Array(vs) => vs.len() == items.len() && forall|j: int|
                0 <= j < items.len() ==> matches_doc(#[trigger] vs[j].elem, items[j]),
            _ => false,
        },
        Doc::Obj(ms) => match v {
            JsonValueView::Object(m) => m.dom() == doc_keys(ms) && forall|j: int|
                0 <= j < ms.len() ==> matches_doc(#[trigger] m[ms[j].0].elem, ms[j].1),
            _ => false,
        },
    }
}

/// The token kinds of `t` from index `i` on begin with `w`.
pub open spec fn spells_at(t: Seq<SpannedView<TokenView>>, i: int, w: Seq<TokenView>) -> bool {
    0 <= i && i + w.len() <= t.len() && forall|m: int| 0 <= m < w.len() ==> #[trigger] t[i + m].elem == w[m]
}

proof fn lemma_spells_split(t: Seq<SpannedView<TokenView>>, i: int, a: Seq<TokenView>, b: Seq<TokenView>)
    requires
        spells_at(t, i, a + b),
    ensures
        spells_at(t, i, a),
        spells_at(t, i + a.len(), b),
{
    assert forall|m: int| 0 <= m < a.len() implies #[trigger] t[i + m].elem == a[m] by {
        assert((a + b)[m] == a[m]);
    }
    assert forall|m: int| 0 <= m < b.len() implies #[trigger] t[i + a.len() + m].elem == b[m] by {
        assert((a + b)[a.len() + m] == b[m]);
        assert(t[i + (a.len() + m)] == t[i + a.len() + m]);
    }
}

proof fn lemma_parse_doc(t: Seq<SpannedView<TokenView>>, i: int, d: Doc)
    requires
        spells_at(t, i, doc_tokens(d)),
        doc_valid(d),
    ensures
        doc_tokens(d).len() >= 1,
        parse_value(t, i) matches Parsed::Value(v, k) && k == i + doc_tokens(d).len() && matches_doc(v.elem, d),
    decreases d, 1nat,
{
    assert(t[i + 0].elem == doc_tokens(d)[0]);
    match d {
        Doc::Arr(items) => {
            let inner = items_tokens(items);
            lemma_spells_split(t, i, seq![TokenView::LBracket] + inner, seq![TokenView::RBracket]);
            lemma_spells_split(t, i, seq![TokenView::LBracket], inner);
            let close = i + 1 + inner.len();
            assert(t[close + 0].elem == TokenView::RBracket);
            lemma_parse_items(t, i + 1, Seq::empty(), t[i].start, items, close);
            let v = parse_value(t, i)->Value_0;
            let vs = v.elem->Array_0;
            assert forall|m: int| 0 <= m < items.len() implies matches_doc(#[trigger] vs[m].elem, items[m]) by {
                assert(vs[0 + m] == vs[m]);
            }
            assert(doc_tokens(d).len() == close + 1 - i);
        },
        Doc::Obj(ms) => {
            let inner = members_tokens(ms);
            lemma_spells_split(t, i, seq![TokenView::LBrace] + inner, seq![TokenView::RBrace]);
            lemma_spells_split(t, i, seq![TokenView::LBrace], inner);
            let close = i + 1 + inner.len();
            assert(t[close + 0].elem == TokenView::RBrace);
            lemma_parse_members(t, i + 1, Map::empty(), t[i].start, ms, close);
            let v = parse_value(t, i)->Value_0;
            let m = v.elem->Object_0;
            assert(m.dom() =~= doc_keys(ms));
            assert(doc_tokens(d).len() == close + 1 - i);
        },
        _ => {},
    }
}

/// `p` is an array that spans `[start, end)`, ends before token `k`, and holds `acc`
/// followed by trees of `items`.
spec fn array_outcome(
    p: Parsed,
    k: int,
    start: int,
    end: int,
    acc: Seq<SpannedView<JsonValueView>>,
    items: Seq<Doc>,
) -> bool {
    match p {
        Parsed::Value(v, next) => next == k && v.start == start && v.end == end && match v.elem {
            JsonValueView::Array(vs) => vs.len() == acc.len() + items.len() && vs.subrange(0, acc.len() as int) == acc
                && forall|m: int| 0 <= m < items.len() ==> matches_doc(#[trigger] vs[acc.len() + m].elem, items[m]),
            _ => false,
        },
        _ => false,
    }
}

proof fn lemma_parse_items(
    t: Seq<SpannedView<TokenView>>,
    j: int,
    acc: Seq<SpannedView<JsonValueView>>,
    start: int,
    items: Seq<Doc>,
    close: int,
)
    requires
        spells_at(t, j, items_tokens(items)),
        forall|m: int| 0 <= m < items.len() ==> doc_valid(#[trigger] items[m]),
        close == j + items_tokens(items).len(),
        close < t.len(),
        t[close].elem is RBracket,
    ensures
        array_outcome(parse_elems(t, j, acc, start), close + 1, start, t[close].end, acc, items),
    decreases items, 0nat,
{
    if items.len() == 0 {
        assert(parse_value(t, j) is NotApplicable);
        let vs = match close_array(t, j, acc, start) {
            Parsed::Value(v, _) => v.elem,
            _ => JsonValueView::Null,
        };
        assert(acc.subrange(0, acc.len() as int) =~= acc);
    } else {
        let first = doc_tokens(items[0]);
        if items.len() == 1 {
            lemma_parse_doc(t, j, items[0]);
            let v = parse_value(t, j)->Value_0;
            assert(acc.push(v).subrange(0, acc.len() as int) =~= acc);
        } else {
            let rest = items.subrange(1, items.len() as int);
            lemma_spells_split(t, j, first + seq![TokenView::Comma], items_tokens(rest));
            lemma_spells_split(t, j, first, seq![TokenView::Comma]);
            lemma_parse_doc(t, j, items[0]);
            let k = j + first.len();
            assert(t[k + 0].elem == TokenView::Comma);
            let v = parse_value(t, j)->Value_0;
            lemma_parse_items(t, k + 1, acc.push(v), start, rest, close);
            let r = parse_elems(t, k + 1, acc.push(v), start)->Value_0;
            let vs = r.elem->Array_0;
            assert(vs.subrange(0, acc.len() as int) =~= vs.subrange(0, acc.len() + 1 as int).subrange(0, acc.len() as int));
            assert(acc.push(v).subrange(0, acc.len() as int) =~= acc);
            assert forall|m: int| 0 <= m < items.len() implies matches_doc(#[trigger] vs[acc.len() + m].elem, items[m]) by {
                if m == 0 {
                    assert(vs[acc.len() as int] == vs.subrange(0, acc.len() + 1 as int)[acc.len() as int]);
                } else {
                    assert(items[m] == rest[m - 1]);
                    assert(vs[acc.len() + 1 + (m - 1)] == vs[acc.len() + m]);
                }
            }
        }
    }
}

/// `p` is an object that spans `[start, end)`, ends before token `k`, and holds the
/// members of `m` whose keys are not in `ms`, and trees of the members `ms`.
spec fn object_outcome(
    p: Parsed,
    k: int,
    start: int,
    end: int,
    m: Map<Seq<char>, SpannedView<JsonValueView>>,
    ms: Seq<(Seq<char>, Doc)>,
) -> bool {
    match p {
        Parsed::Value(v, next) => next == k && v.start == start && v.end == end && match v.elem {
            JsonValueView::Object(mm) => mm.dom() == m.dom() + doc_keys(ms)
                && (forall|key: Seq<char>| #[trigger] m.dom().contains(key) && !doc_keys(ms).contains(key) ==> mm[key] == m[key])
                && forall|j: int| 0 <= j < ms.len() ==> matches_doc(#[trigger] mm[ms[j].0].elem, ms[j].1),
            _ => false,
        },
        _ => false,
    }
}

proof fn lemma_parse_members(
    t: Seq<SpannedView<TokenView>>,
    j: int,
    m: Map<Seq<char>, SpannedView<JsonValueView>>,
    start: int,
    ms: Seq<(Seq<char>, Doc)>,
    close: int,
)
    requires
        spells_at(t, j, members_tokens(ms)),
        forall|a: int, b: int| 0 <= a < ms.len() && 0 <= b < ms.len() && #[trigger] ms[a].0 == #[trigger] ms[b].0 ==> a == b,
        forall|a: int| 0 <= a < ms.len() ==> doc_valid(#[trigger] ms[a].1),
        close == j + members_tokens(ms).len(),
        close < t.len(),
        t[close].elem is RBrace,
    ensures
        object_outcome(parse_members(t, j, m, start), close + 1, start, t[close].end, m, ms),
    decreases ms, 0nat,
{
    if ms.len() == 0 {
        assert(!(t[j].elem is Str));
        let mm = match close_object(t, j, m, start) {
            Parsed::Value(v, _) => v.elem->Object_0,
            _ => Map::empty(),
        };
        assert(doc_keys(ms) =~= Set::empty());
        assert(mm.dom() =~= m.dom() + doc_keys(ms));
    } else {
        let key = ms[0].0;
        let head = seq![TokenView::Str(key), TokenView::Colon];
        let first = head + doc_tokens(ms[0].1);
        assert(t[j + 0].elem == TokenView::Str(key));
        assert(t[j + 1].elem == TokenView::Colon) by {
            assert(members_tokens(ms)[1] == first[1]);
        }
        assert(spells_at(t, j, first)) by {
            if ms.len() > 1 {
                lemma_spells_split(t, j, first + seq![TokenView::Comma], members_tokens(ms.subrange(1, ms.len() as int)));
                lemma_spells_split(t, j, first, seq![TokenView::Comma]);
            }
        }
        lemma_spells_split(t, j, head, doc_tokens(ms[0].1));
        lemma_parse_doc(t, j + 2, ms[0].1);
        let v = parse_value(t, j + 2)->Value_0;
        let k = j + first.len();
        let m1 = m.insert(key, v);
        if ms.len() == 1 {
            let mm = match close_object(t, k, m1, start) {
                Parsed::Value(r, _) => r.elem->Object_0,
                _ => Map::empty(),
            };
            assert(doc_keys(ms) =~= set![key]) by {
                assert(ms[0].0 == key);
            }
            assert(mm.dom() =~= m.dom() + doc_keys(ms));
        } else {
            let rest = ms.subrange(1, ms.len() as int);
            lemma_spells_split(t, j, first + seq![TokenView::Comma], members_tokens(rest));
            lemma_spells_split(t, j, first, seq![TokenView::Comma]);
            assert(t[k + 0].elem == TokenView::Comma);
            assert forall|a: int, b: int| 0 <= a < rest.len() && 0 <= b < rest.len() && #[trigger] rest[a].0 == #[trigger] rest[b].0 implies a == b by {
                assert(rest[a] == ms[a + 1] && rest[b] == ms[b + 1]);
            }
            assert forall|a: int| 0 <= a < rest.len() implies doc_valid(#[trigger] rest[a].1) by {
                assert(rest[a] == ms[a + 1]);
            }
            lemma_parse_members(t, k + 1, m1, start, rest, close);
            let mm = parse_members(t, k + 1, m1, start)->Value_0.elem->Object_0;
            assert(!doc_keys(rest).contains(key)) by {
                if doc_keys(rest).contains(key) {
                    let b = choose|b: int| 0 <= b < rest.len() && rest[b].0 == key;
                    assert(ms[b + 1].0 == ms[0].0);
                }
            }
            assert(doc_keys(ms) =~= doc_keys(rest).insert(key)) by {
                assert forall|x: Seq<char>| doc_keys(ms).contains(x) implies #[trigger] doc_keys(rest).insert(key).contains(x) by {
                    let a = choose|a: int| 0 <= a < ms.len() && ms[a].0 == x;
                    if a > 0 {
                        assert(rest[a - 1] == ms[a]);
                    }
                }
                assert forall|x: Seq<char>| doc_keys(rest).contains(x) implies #[trigger] doc_keys(ms).contains(x) by {
                    let b = choose|b: int| 0 <= b < rest.len() && rest[b].0 == x;
                    assert(ms[b + 1] == rest[b]);
                }
                assert(ms[0].0 == key);
            }
            assert(mm.dom() =~= m.dom() + doc_keys(ms));
            assert(m1.dom().contains(key));
            assert(mm[key] == m1[key]);
            assert forall|a: int| 0 <= a < ms.len() implies matches_doc(#[trigger] mm[ms[a].0].elem, ms[a].1) by {
                if a > 0 {
                    assert(rest[a - 1] == ms[a]);
                    assert(matches_doc(mm[rest[a - 1].0].elem, rest[a - 1].1));
                }
            }
            assert forall|x: Seq<char>| #[trigger] m.dom().contains(x) && !doc_keys(ms).contains(x) implies mm[x] == m[x] by {
                assert(x != key);
                assert(m1.dom().contains(x));
                assert(!doc_keys(rest).contains(x));
            }
        }
    }
}

/// Parsing a token sequence that spells a document whose objects have unique keys,
/// followed by the end of input, succeeds with a tree of that document.
pub proof fn lemma_parse_spelled_document(t: Seq<SpannedView<TokenView>>, d: Doc)
    requires
        spells_at(t, 0, doc_tokens(d).push(TokenView::EOF)),
        doc_valid(d),
    ensures
        parse_document(t, 0) matches Ok(v) && matches_doc(v.elem, d),
{
    lemma_spells_split(t, 0, doc_tokens(d), seq![TokenView::EOF]);
    assert(doc_tokens(d).push(TokenView::EOF) =~= doc_tokens(d) + seq![TokenView::EOF]);
    lemma_parse_doc(t, 0, d);
    assert(t[doc_tokens(d).len() as int + 0].elem == TokenView::EOF);
}

// ---------------------------------------------------------------------------
// From text to tokens
// ---------------------------------------------------------------------------

pub open spec fn digit_char(n: nat) -> char {
    ((n + 48) as u8) as char
}

/// The decimal digits of `n`.
pub open spec fn decimal(n: nat) -> Seq<char>
    decreases n,
{
    if n < 10 {
        seq![digit_char(n)]
    } else {
        decimal(n / 10).push(digit_char(n % 10))
    }
}

pub open spec fn quoted(s: Seq<char>) -> Seq<char> {
    seq!['"'] + s + seq!['"']
}

/// The text of `d`, without white space.
pub open spec fn render(d: Doc) -> Seq<char>
    decreases d,
{
    match d {
        Doc::Null => seq!['n', 'u', 'l', 'l'],
        Doc::Bool(b) => if b {
            seq!['t', 'r', 'u', 'e']
        } else {
            seq!['f', 'a', 'l', 's', 'e']
        },
        Doc::Num(n) => decimal(n as nat),
        Doc::Str(s) => quoted(s),
        Doc::Arr(items) => seq!['['] + render_items(items) + seq![']'],
        Doc::Obj(ms) => seq!['{'] + render_members(ms) + seq!['}'],
    }
}

pub open spec fn render_items(items: Seq<Doc>) -> Seq<char>
    decreases items,
{
    if items.len() == 0 {
        Seq::empty()
    } else if items.len() == 1 {
        render(items[0])
    } else {
        render(items[0]) + seq![','] + render_items(items.subrange(1, items.len() as int))
    }
}

pub open spec fn render_members(ms: Seq<(Seq<char>, Doc)>) -> Seq<char>
    decreases ms,
{
    if ms.len() == 0 {
        Seq::empty()
    } else {
        let first = quoted(ms[0].0) + seq![':'] + render(ms[0].1);
        if ms.len() == 1 {
            first
        } else {
            first + seq![','] + render_members(ms.subrange(1, ms.len() as int))
        }
    }
}

/// Numbers in `d` are not negative and strings hold no quote.
pub open spec fn doc_textual(d: Doc) -> bool
    decreases d,
{
    match d {
        Doc::Num(n) => n >= 0,
        Doc::Str(s) => forall|m: int| 0 <= m < s.len() ==> s[m] != '"',
        Doc::Arr(items) => forall|j: int| 0 <= j < items.len() ==> doc_textual(#[trigger] items[j]),
        Doc::Obj(ms) => forall|j: int| 0 <= j < ms.len() ==> doc_textual(#[trigger] ms[j].1) && forall|m: int|
            0 <= m < ms[j].0.len() ==> ms[j].0[m] != '"',
        _ => true,
    }
}

/// The token kinds of a scan.
pub open spec fn kinds(toks: Seq<SpannedView<TokenView>>) -> Seq<TokenView> {
    toks.map_values(|x: SpannedView<TokenView>| x.elem)
}

/// `cs` holds `w` from index `i` on.
pub open spec fn text_at(cs: Seq<char>, i: int, w: Seq<char>) -> bool {
    0 <= i && i + w.len() <= cs.len() && cs.subrange(i, i + w.len()) == w
}

/// No letter or digit stands at index `e` of `cs`.
pub open spec fn delimited(cs: Seq<char>, e: int) -> bool {
    e >= cs.len() || !(is_alpha(cs[e]) || is_digit(cs[e]))
}

/// Scanning from `i` yields `w` and then goes on as scanning from `e`.
pub open spec fn scans_to(cs: Seq<char>, i: int, w: Seq<TokenView>, e: int) -> bool {
    kinds(lex_from(cs, i).toks) == w + kinds(lex_from(cs, e).toks) && lex_from(cs, i).err == lex_from(cs, e).err
}

proof fn lemma_text_split(cs: Seq<char>, i: int, a: Seq<char>, b: Seq<char>)
    requires
        text_at(cs, i, a + b),
    ensures
        text_at(cs, i, a),
        text_at(cs, i + a.len(), b),
{
    assert(cs.subrange(i, i + a.len()) =~= (a + b).subrange(0, a.len() as int));
    assert((a + b).subrange(0, a.len() as int) =~= a);
    assert(cs.subrange(i + a.len(), i + a.len() + b.len()) =~= (a + b).subrange(a.len() as int, (a + b).len() as int));
    assert((a + b).subrange(a.len() as int, (a + b).len() as int) =~= b);
}

proof fn lemma_run_end_exact(cs: Seq<char>, p: int, e: int, k: RunKind)
    requires
        0 <= p <= e <= cs.len(),
        forall|m: int| p <= m < e ==> in_run(k, #[trigger] cs[m]),
        e == cs.len() || !in_run(k, cs[e]),
    ensures
        run_end(cs, p, k) == e,
    decreases e - p,
{
    if p < e {
        lemma_run_end_exact(cs, p + 1, e, k);
    }
}

proof fn lemma_decimal(n: nat)
    ensures
        decimal(n).len() >= 1,
        forall|m: int| 0 <= m < decimal(n).len() ==> is_digit(#[trigger] decimal(n)[m]),
        digits_value(decimal(n)) == n,
    decreases n,
{
    if n < 10 {
        assert(seq![digit_char(n)].drop_last() =~= Seq::<char>::empty());
        assert(digits_value(Seq::<char>::empty()) == 0);
    } else {
        lemma_decimal(n / 10);
        assert(decimal(n).drop_last() =~= decimal(n / 10));
        assert(n == (n / 10) * 10 + n % 10);
    }
}

proof fn lemma_scans_trans(cs: Seq<char>, i: int, a: Seq<TokenView>, j: int, b: Seq<TokenView>, e: int)
    requires
        scans_to(cs, i, a, j),
        scans_to(cs, j, b, e),
    ensures
        scans_to(cs, i, a + b, e),
{
    assert(a + b + kinds(lex_from(cs, e).toks) =~= a + (b + kinds(lex_from(cs, e).toks)));
}

proof fn lemma_scan_structural(cs: Seq<char>, i: int, c: char, t: TokenView)
    requires
        0 <= i < cs.len(),
        cs[i] == c,
        structural(c) == Some(t),
    ensures
        scans_to(cs, i, seq![t], i + 1),
{
    reveal(lex_from);
    let rest = lex_from(cs, i + 1).toks;
    assert(kinds(lex_from(cs, i).toks) =~= seq![t] + kinds(rest));
}

proof fn lemma_scan_word(cs: Seq<char>, i: int, w: Seq<char>, t: TokenView)
    requires
        text_at(cs, i, w),
        w.len() >= 1,
        forall|m: int| 0 <= m < w.len() ==> is_alpha(#[trigger] w[m]),
        keyword(w) == Some(t),
        delimited(cs, i + w.len()),
    ensures
        scans_to(cs, i, seq![t], i + w.len()),
{
    let e = i + w.len();
    assert forall|m: int| i + 1 <= m < e implies in_run(RunKind::Letters, #[trigger] cs[m]) by {
        assert(cs[m] == cs.subrange(i, e)[m - i]);
    }
    assert(cs[i] == cs.subrange(i, e)[0]);
    lemma_run_end_exact(cs, i + 1, e, RunKind::Letters);
    reveal(lex_from);
    assert(cs.subrange(i, e) == w);
    let rest = lex_from(cs, e).toks;
    assert(kinds(lex_from(cs, i).toks) =~= seq![t] + kinds(rest));
}

proof fn lemma_scan_number(cs: Seq<char>, i: int, n: nat)
    requires
        text_at(cs, i, decimal(n)),
        delimited(cs, i + decimal(n).len()),
    ensures
        scans_to(cs, i, seq![TokenView::Num(n as int)], i + decimal(n).len()),
{
    lemma_decimal(n);
    let w = decimal(n);
    let e = i + w.len();
    assert forall|m: int| i + 1 <= m < e implies in_run(RunKind::Digits, #[trigger] cs[m]) by {
        assert(cs[m] == cs.subrange(i, e)[m - i]);
    }
    assert(cs[i] == cs.subrange(i, e)[0]);
    assert(!is_alpha(cs[i]));
    lemma_run_end_exact(cs, i + 1, e, RunKind::Digits);
    reveal(lex_from);
    let rest = lex_from(cs, e).toks;
    assert(kinds(lex_from(cs, i).toks) =~= seq![TokenView::Num(n as int)] + kinds(rest));
}

proof fn lemma_scan_string(cs: Seq<char>, i: int, s: Seq<char>)
    requires
        text_at(cs, i, quoted(s)),
        forall|m: int| 0 <= m < s.len() ==> s[m] != '"',
    ensures
        scans_to(cs, i, seq![TokenView::Str(s)], i + quoted(s).len()),
{
    let e = i + s.len() + 1;
    lemma_text_split(cs, i, seq!['"'] + s, seq!['"']);
    lemma_text_split(cs, i, seq!['"'], s);
    assert(cs[i] == cs.subrange(i, i + 1)[0]);
    assert(cs[e] == cs.subrange(e, e + 1)[0]);
    assert forall|m: int| i + 1 <= m < e implies in_run(RunKind::NotQuote, #[trigger] cs[m]) by {
        assert(cs[m] == cs.subrange(i + 1, e)[m - (i + 1)]);
    }
    lemma_run_end_exact(cs, i + 1, e, RunKind::NotQuote);
    reveal(lex_from);
    assert(cs.subrange(i + 1, e) == s);
    let rest = lex_from(cs, e + 1).toks;
    assert(kinds(lex_from(cs, i).toks) =~= seq![TokenView::Str(s)] + kinds(rest));
}

proof fn lemma_keywords()
    ensures
        keyword(seq!['t', 'r', 'u', 'e']) == Some(TokenView::Bool(true)),
        keyword(seq!['f', 'a', 'l', 's', 'e']) == Some(TokenView::Bool(false)),
        keyword(seq!['n', 'u', 'l', 'l']) == Some(TokenView::Null),
{
    let t = seq!['t', 'r', 'u', 'e'];
    let f = seq!['f', 'a', 'l', 's', 'e'];
    let n = seq!['n', 'u', 'l', 'l'];
    assert(t[0] == 't' && f[0] == 'f' && n[0] == 'n' && t.len() == 4 && f.len() == 5);
    assert(t != f && t != n && f != n);
}

proof fn lemma_scan_doc(cs: Seq<char>, i: int, d: Doc)
    requires
        text_at(cs, i, render(d)),
        delimited(cs, i + render(d).len()),
        doc_textual(d),
    ensures
        scans_to(cs, i, doc_tokens(d), i + render(d).len()),
    decreases d, 1nat,
{
    lemma_keywords();
    match d {
        Doc::Null => {
            let w = seq!['n', 'u', 'l', 'l'];
            assert(forall|m: int| 0 <= m < w.len() ==> is_alpha(#[trigger] w[m]));
            lemma_scan_word(cs, i, w, TokenView::Null);
        },
        Doc::Bool(b) => {
            if b {
                let w = seq!['t', 'r', 'u', 'e'];
                assert(forall|m: int| 0 <= m < w.len() ==> is_alpha(#[trigger] w[m]));
                lemma_scan_word(cs, i, w, TokenView::Bool(true));
            } else {
                let w = seq!['f', 'a', 'l', 's', 'e'];
                assert(forall|m: int| 0 <= m < w.len() ==> is_alpha(#[trigger] w[m]));
                lemma_scan_word(cs, i, w, TokenView::Bool(false));
            }
        },
        Doc::Num(n) => {
            lemma_scan_number(cs, i, n as nat);
        },
        Doc::Str(s) => {
            lemma_scan_string(cs, i, s);
        },
        Doc::Arr(items) => {
            let inner = render_items(items);
            let close = i + 1 + inner.len();
            lemma_text_split(cs, i, seq!['['] + inner, seq![']']);
            lemma_text_split(cs, i, seq!['['], inner);
            assert(cs[i] == cs.subrange(i, i + 1)[0]);
            assert(cs[close] == cs.subrange(close, close + 1)[0]);
            lemma_scan_structural(cs, i, '[', TokenView::LBracket);
            lemma_scan_items(cs, i + 1, items);
            lemma_scan_structural(cs, close, ']', TokenView::RBracket);
            lemma_scans_trans(cs, i, seq![TokenView::LBracket], i + 1, items_tokens(items), close);
            lemma_scans_trans(cs, i, seq![TokenView::LBracket] + items_tokens(items), close, seq![TokenView::RBracket], close + 1);
        },
        Doc::Obj(ms) => {
            let inner = render_members(ms);
            let close = i + 1 + inner.len();
            lemma_text_split(cs, i, seq!['{'] + inner, seq!['}']);
            lemma_text_split(cs, i, seq!['{'], inner);
            assert(cs[i] == cs.subrange(i, i + 1)[0]);
            assert(cs[close] == cs.subrange(close, close + 1)[0]);
            lemma_scan_structural(cs, i, '{', TokenView::LBrace);
            lemma_scan_members(cs, i + 1, ms);
            lemma_scan_structural(cs, close, '}', TokenView::RBrace);
            lemma_scans_trans(cs, i, seq![TokenView::LBrace], i + 1, members_tokens(ms), close);
            lemma_scans_trans(cs, i, seq![TokenView::LBrace] + members_tokens(ms), close, seq![TokenView::RBrace], close + 1);
        },
    }
}

proof fn lemma_scan_items(cs: Seq<char>, j: int, items: Seq<Doc>)
    requires
        text_at(cs, j, render_items(items)),
        delimited(cs, j + render_items(items).len()),
        forall|m: int| 0 <= m < items.len() ==> doc_textual(#[trigger] items[m]),
    ensures
        scans_to(cs, j, items_tokens(items), j + render_items(items).len()),
    decreases items, 0nat,
{
    if items.len() == 0 {
        assert(Seq::<TokenView>::empty() + kinds(lex_from(cs, j).toks) =~= kinds(lex_from(cs, j).toks));
    } else if items.len() == 1 {
        lemma_scan_doc(cs, j, items[0]);
    } else {
        let rest = items.subrange(1, items.len() as int);
        let first = render(items[0]);
        let k = j + first.len();
        lemma_text_split(cs, j, first + seq![','], render_items(rest));
        lemma_text_split(cs, j, first, seq![',']);
        assert(cs[k] == cs.subrange(k, k + 1)[0]);
        lemma_scan_doc(cs, j, items[0]);
        lemma_scan_structural(cs, k, ',', TokenView::Comma);
        assert forall|m: int| 0 <= m < rest.len() implies doc_textual(#[trigger] rest[m]) by {
            assert(rest[m] == items[m + 1]);
        }
        lemma_scan_items(cs, k + 1, rest);
        lemma_scans_trans(cs, j, doc_tokens(items[0]), k, seq![TokenView::Comma], k + 1);
        lemma_scans_trans(cs, j, doc_tokens(items[0]) + seq![TokenView::Comma], k + 1, items_tokens(rest), j + render_items(items).len());
    }
}

proof fn lemma_scan_members(cs: Seq<char>, j: int, ms: Seq<(Seq<char>, Doc)>)
    requires
        text_at(cs, j, render_members(ms)),
        delimited(cs, j + render_members(ms).len()),
        forall|a: int| 0 <= a < ms.len() ==> doc_textual(#[trigger] ms[a].1) && forall|m: int|
            0 <= m < ms[a].0.len() ==> ms[a].0[m] != '"',
    ensures
        scans_to(cs, j, members_tokens(ms), j + render_members(ms).len()),
    decreases ms, 0nat,
{
    if ms.len() == 0 {
        assert(Seq::<TokenView>::empty() + kinds(lex_from(cs, j).toks) =~= kinds(lex_from(cs, j).toks));
    } else {
        let q = quoted(ms[0].0);
        let first = q + seq![':'] + render(ms[0].1);
        let c = j + q.len();
        let e = c + 1 + render(ms[0].1).len();
        assert(text_at(cs, j, first)) by {
            if ms.len() > 1 {
                lemma_text_split(cs, j, first + seq![','], render_members(ms.subrange(1, ms.len() as int)));
                lemma_text_split(cs, j, first, seq![',']);
            }
        }
        lemma_text_split(cs, j, q + seq![':'], render(ms[0].1));
        lemma_text_split(cs, j, q, seq![':']);
        assert(cs[c] == cs.subrange(c, c + 1)[0]);
        lemma_scan_string(cs, j, ms[0].0);
        lemma_scan_structural(cs, c, ':', TokenView::Colon);
        let head = seq![TokenView::Str(ms[0].0), TokenView::Colon];
        lemma_scans_trans(cs, j, seq![TokenView::Str(ms[0].0)], c, seq![TokenView::Colon], c + 1);
        assert(seq![TokenView::Str(ms[0].0)] + seq![TokenView::Colon] =~= head);
        if ms.len() == 1 {
            lemma_scan_doc(cs, c + 1, ms[0].1);
            lemma_scans_trans(cs, j, head, c + 1, doc_tokens(ms[0].1), e);
        } else {
            let rest = ms.subrange(1, ms.len() as int);
            lemma_text_split(cs, j, first + seq![','], render_members(rest));
            lemma_text_split(cs, j, first, seq![',']);
            assert(cs[e] == cs.subrange(e, e + 1)[0]);
            lemma_scan_doc(cs, c + 1, ms[0].1);
            lemma_scans_trans(cs, j, head, c + 1, doc_tokens(ms[0].1), e);
            lemma_scan_structural(cs, e, ',', TokenView::Comma);
            lemma_scans_trans(cs, j, head + doc_tokens(ms[0].1), e, seq![TokenView::Comma], e + 1);
            assert forall|a: int| 0 <= a < rest.len() implies doc_textual(#[trigger] rest[a].1) && forall|m: int|
                0 <= m < rest[a].0.len() ==> rest[a].0[m] != '"' by {
                assert(rest[a] == ms[a + 1]);
            }
            lemma_scan_members(cs, e + 1, rest);
            lemma_scans_trans(cs, j, head + doc_tokens(ms[0].1) + seq![TokenView::Comma], e + 1, members_tokens(rest), j + render_members(ms).len());
        }
    }
}

/// Scanning the text of a document whose numbers are not negative and whose strings hold
/// no quote succeeds and yields the tokens that spell the document.
pub proof fn lemma_scan_rendered(d: Doc)
    requires
        doc_textual(d),
    ensures
        lex(render(d)).err is None,
        kinds(lex(render(d)).toks) == doc_tokens(d),
{
    let cs = render(d);
    assert(cs.subrange(0, cs.len() as int) =~= cs);
    lemma_scan_doc(cs, 0, d);
    assert(lex_from(cs, cs.len() as int).toks == Seq::<SpannedView<TokenView>>::empty()) by {
        reveal(lex_from);
    }
    assert(lex_from(cs, cs.len() as int).err is None) by {
        reveal(lex_from);
    }
    assert(kinds(Seq::<SpannedView<TokenView>>::empty()) =~= Seq::<TokenView>::empty());
    assert(doc_tokens(d) + Seq::<TokenView>::empty() =~= doc_tokens(d));
}

/// Scanning the text of a document and parsing the tokens gives back the document: this
/// holds of every document whose objects have unique keys, whose numbers are not negative
/// and whose strings hold no quote.
pub proof fn lemma_round_trip(d: Doc)
    requires
        doc_valid(d),
        doc_textual(d),
    ensures
        lex(render(d)).err is None,
        parse_document(with_eof(lex(render(d)).toks), 0) matches Ok(v) && matches_doc(v.elem, d),
{
    lemma_scan_rendered(d);
    let toks = lex(render(d)).toks;
    let t = with_eof(toks);
    let w = doc_tokens(d).push(TokenView::EOF);
    assert forall|m: int| 0 <= m < w.len() implies #[trigger] t[0 + m].elem == w[m] by {
        if m < toks.len() {
            assert(kinds(toks)[m] == toks[m].elem);
        }
    }
    lemma_parse_spelled_document(t, d);
}

} // verus!
