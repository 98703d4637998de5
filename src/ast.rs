use vstd::prelude::*;

use crate::tokens::{Spanned, SpannedView};

verus! {

broadcast use vstd::std_specs::vec::group_vec_axioms;

/// A node of the parsed document.  Object members are kept with unique keys.
#[derive(Debug)]
pub enum JsonValue<'a> {
    Null,
    Num(isize),
    Str(&'a str),
    Bool(bool),
    Array(Vec<Spanned<JsonValue<'a>>>),
    Object(Vec<(&'a str, Spanned<JsonValue<'a>>)>),
}

/// The model of a document node.  An object is a map from key text to member.
pub enum JsonValueView {
    Null,
    Num(int),
    Str(Seq<char>),
    Bool(bool),
    Array(Seq<SpannedView<JsonValueView>>),
    Object(Map<Seq<char>, SpannedView<JsonValueView>>),
}

pub open spec fn spanned_value_view(v: Spanned<JsonValue>) -> SpannedView<JsonValueView>
    decreases v, 1nat,
{
    SpannedView { elem: value_view(v.elem), start: v.span.start as int, end: v.span.end as int }
}

/// The index of the member of `m` whose key has the text `k`.
pub open spec fn member_index(m: Seq<(&str, Spanned<JsonValue>)>, k: Seq<char>) -> int {
    choose|i: int| 0 <= i < m.len() && m[i].0@ == k
}

pub open spec fn value_view(v: JsonValue) -> JsonValueView
    decreases v, 0nat,
{

    match v {
        JsonValue::Null => JsonValueView::Null,
        JsonValue::Num(n) => JsonValueView::Num(n as int),
        JsonValue::Str(s) => JsonValueView::Str(s@),
        JsonValue::Bool(b) => JsonValueView::Bool(b),
        JsonValue::Array(a) => JsonValueView::Array(Seq::new(a.len() as nat, |i: int|
                    if 0 <= i < a.len() {
                        spanned_value_view(a[i])
                    } else {
                        SpannedView { elem: JsonValueView::Null, start: 0, end: 0 }
                    },)),
        JsonValue::Object(m) => JsonValueView::Object(
            Map::new(
                |k: Seq<char>| exists|i: int| 0 <= i < m.len() && m[i].0@ == k,
                |k: Seq<char>|
                    {
                        let i = member_index(m@, k);
                        if 0 <= i < m.len() {
                            spanned_value_view(m[i].1)
                        } else {
                            SpannedView { elem: JsonValueView::Null, start: 0, end: 0 }
                        }
                    },
            ),
        ),
    }
}

/// The members of an object, as the map from key text to member that they stand for.
pub open spec fn members_view(m: Seq<(&str, Spanned<JsonValue>)>) -> Map<Seq<char>, SpannedView<JsonValueView>> {
    Map::new(
        |k: Seq<char>| exists|i: int| 0 <= i < m.len() && m[i].0@ == k,
        |k: Seq<char>| spanned_value_view(m[member_index(m, k)].1),
    )
}

/// No two members share a key.
pub open spec fn unique_keys(m: Seq<(&str, Spanned<JsonValue>)>) -> bool {
    forall|a: int, b: int| 0 <= a < m.len() && 0 <= b < m.len() && #[trigger] m[a].0@ == #[trigger] m[b].0@ ==> a == b
}

pub proof fn lemma_object_view(m: Vec<(&str, Spanned<JsonValue>)>)
    ensures
        value_view(JsonValue::Object(m)) == JsonValueView::Object(members_view(m@)),
{
    let a = match value_view(JsonValue::Object(m)) {
        JsonValueView::Object(x) => x,
        _ => Map::empty(),
    };
    assert forall|k: Seq<char>| #[trigger] a.dom().contains(k) implies a[k] == members_view(m@)[k] by {
        let i = member_index(m@, k);
        assert(0 <= i < m.len());
    }
    assert(a =~= members_view(m@));
}

pub proof fn lemma_array_view(v: Vec<Spanned<JsonValue>>)
    ensures
        value_view(JsonValue::Array(v)) == JsonValueView::Array(v@.map_values(|x: Spanned<JsonValue>| spanned_value_view(x))),
{
    let a = match value_view(JsonValue::Array(v)) {
        JsonValueView::Array(x) => x,
        _ => Seq::empty(),
    };
    assert(a =~= v@.map_values(|x: Spanned<JsonValue>| spanned_value_view(x)));
}

/// Putting `(key, v)` in place of the member with that key, or after the others, adds the
/// pair to the map of members.
pub proof fn lemma_members_insert(
    m: Seq<(&str, Spanned<JsonValue>)>,
    key: &str,
    v: Spanned<JsonValue>,
    n: Seq<(&str, Spanned<JsonValue>)>,
)
    requires
        unique_keys(m),
        (exists|i: int| 0 <= i < m.len() && m[i].0@ == key@ && n == m.update(i, (key, v)))
            || ((forall|i: int| 0 <= i < m.len() ==> m[i].0@ != key@) && n == m.push((key, v))),
    ensures
        unique_keys(n),
        members_view(n) == members_view(m).insert(key@, spanned_value_view(v)),
{
    let r = members_view(m).insert(key@, spanned_value_view(v));
    assert forall|a: int, b: int| 0 <= a < n.len() && 0 <= b < n.len() && #[trigger] n[a].0@ == #[trigger] n[b].0@ implies a == b by {
        if a < m.len() && b < m.len() && n[a].0@ != key@ {
            assert(n[a] == m[a] && n[b] == m[b]);
        } else if n.len() == m.len() + 1 && (a == m.len() || b == m.len()) {
            if a < m.len() {
                assert(n[a] == m[a]);
            }
            if b < m.len() {
                assert(n[b] == m[b]);
            }
        } else {
            let i = choose|i: int| 0 <= i < m.len() && m[i].0@ == key@ && n == m.update(i, (key, v));
            if a != i {
                assert(n[a] == m[a]);
            }
            if b != i {
                assert(n[b] == m[b]);
            }
        }
    }
    assert forall|k: Seq<char>| #[trigger] members_view(n).dom().contains(k) <==> r.dom().contains(k) by {
        if k != key@ {
            if members_view(n).dom().contains(k) {
                let i = choose|i: int| 0 <= i < n.len() && n[i].0@ == k;
                assert(m[i] == n[i]);
            }
            if members_view(m).dom().contains(k) {
                let i = choose|i: int| 0 <= i < m.len() && m[i].0@ == k;
                assert(m[i] == n[i]);
            }
        } else {
            if n.len() == m.len() + 1 {
                assert(n[m.len() as int].0@ == key@);
            } else {
                let i = choose|i: int| 0 <= i < m.len() && m[i].0@ == key@ && n == m.update(i, (key, v));
                assert(n[i].0@ == key@);
            }
        }
    }
    assert forall|k: Seq<char>| #[trigger] r.dom().contains(k) implies members_view(n)[k] == r[k] by {
        assert(members_view(n).dom().contains(k));
        let j = member_index(n, k);
        assert(0 <= j < n.len() && n[j].0@ == k);
        if k == key@ {
            if n.len() == m.len() + 1 {
                assert(n[m.len() as int].0@ == key@);
                assert(j == m.len());
            } else {
                let i = choose|i: int| 0 <= i < m.len() && m[i].0@ == key@ && n == m.update(i, (key, v));
                assert(n[i].0@ == key@);
                assert(j == i);
            }
        } else {
            let i = member_index(m, k);
            assert(0 <= i < m.len() && m[i].0@ == k);
            assert(m[j] == n[j]);
        }
    }
    assert(members_view(n) =~= r);
}

} // verus!
