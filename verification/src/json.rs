//! JSON documents as this crate holds them (settings files and drafts of
//! them): a value tree whose objects keep their keys sorted, as the maps of
//! `serde_json` do. Texts are read and written by `serde_json`.

use vstd::prelude::*;

use crate::outside::{build_value, copy_number, json_parse, json_pretty, parse_value, pretty, take_value, value_view};

verus! {

/// A JSON value. A value read from a text is well-formed (see
/// [`well_formed`]): the entries of every object are sorted by key, each key
/// once.
#[derive(Debug, PartialEq)]
pub enum JsonValue {
    Null,
    Bool(bool),
    Number(serde_json::Number),
    Str(String),
    Array(Vec<JsonValue>),
    Object(Vec<(String, JsonValue)>),
}

/// The mathematical content of a [`JsonValue`].
pub enum JsonView {
    Null,
    Bool(bool),
    Number(serde_json::Number),
    Str(Seq<char>),
    Array(Seq<JsonView>),
    Object(Seq<(Seq<char>, JsonView)>),
}

pub open spec fn json_view(v: JsonValue) -> JsonView
    decreases v, 0nat,
{
    match v {
        JsonValue::Null => JsonView::Null,
        JsonValue::Bool(b) => JsonView::Bool(b),
        JsonValue::Number(n) => JsonView::Number(n),
        JsonValue::Str(s) => JsonView::Str(s@),
        JsonValue::Array(items) => JsonView::Array(items_view(items@, items@.len() as int)),
        JsonValue::Object(entries) => JsonView::Object(entries_view(entries@, entries@.len() as int)),
    }
}

pub open spec fn items_view(items: Seq<JsonValue>, n: int) -> Seq<JsonView>
    decreases items, n,
{
    if n <= 0 || n > items.len() {
        seq![]
    } else {
        items_view(items, n - 1).push(json_view(items[n - 1]))
    }
}

pub open spec fn entries_view(entries: Seq<(String, JsonValue)>, n: int) -> Seq<(Seq<char>, JsonView)>
    decreases entries, n,
{
    if n <= 0 || n > entries.len() {
        seq![]
    } else {
        entries_view(entries, n - 1).push((entries[n - 1].0@, json_view(entries[n - 1].1)))
    }
}

impl View for JsonValue {
    type V = JsonView;

    open spec fn view(&self) -> JsonView {
        json_view(*self)
    }
}

} // verus!

verus! {

/// Each item's view sits at its index.
pub proof fn lemma_items_view_pub(items: Seq<JsonValue>, n: int)
    requires
        0 <= n <= items.len(),
    ensures
        items_view(items, n).len() == n,
        forall|j: int| 0 <= j < n ==> #[trigger] items_view(items, n)[j] == json_view(items[j]),
{
    lemma_items_view(items, n);
}

/// Each entry's view sits at its index.
pub proof fn lemma_entries_view_pub(entries: Seq<(String, JsonValue)>, n: int)
    requires
        0 <= n <= entries.len(),
    ensures
        entries_view(entries, n).len() == n,
        forall|j: int|
            0 <= j < n ==> #[trigger] entries_view(entries, n)[j] == (
                entries[j].0@,
                json_view(entries[j].1),
            ),
{
    lemma_entries_view(entries, n);
}

proof fn lemma_items_view(items: Seq<JsonValue>, n: int)
    requires
        0 <= n <= items.len(),
    ensures
        items_view(items, n).len() == n,
        forall|j: int| 0 <= j < n ==> #[trigger] items_view(items, n)[j] == json_view(items[j]),
    decreases n,
{
    if n > 0 {
        lemma_items_view(items, n - 1);
    }
}

proof fn lemma_entries_view(entries: Seq<(String, JsonValue)>, n: int)
    requires
        0 <= n <= entries.len(),
    ensures
        entries_view(entries, n).len() == n,
        forall|j: int|
            0 <= j < n ==> #[trigger] entries_view(entries, n)[j] == (
                entries[j].0@,
                json_view(entries[j].1),
            ),
    decreases n,
{
    if n > 0 {
        lemma_entries_view(entries, n - 1);
    }
}

// ---------------------------------------------------------------------------
// Objects.

/// The value under `k` (its first entry).
pub open spec fn lookup(es: Seq<(Seq<char>, JsonView)>, k: Seq<char>) -> Option<JsonView>
    decreases es.len(),
{
    if es.len() == 0 {
        None
    } else if es[0].0 == k {
        Some(es[0].1)
    } else {
        lookup(es.drop_first(), k)
    }
}

/// `v[k]` of `serde_json::Value::get`: the value under `k` of an object.
pub open spec fn get_spec(v: JsonView, k: Seq<char>) -> Option<JsonView> {
    match v {
        JsonView::Object(es) => lookup(es, k),
        _ => None,
    }
}

/// `es` with `k` set to `v`: in place when `k` is there, else before the first
/// greater key.
pub open spec fn upsert(es: Seq<(Seq<char>, JsonView)>, k: Seq<char>, v: JsonView) -> Seq<
    (Seq<char>, JsonView),
>
    decreases es.len(),
{
    if es.len() == 0 {
        seq![(k, v)]
    } else if es[0].0 == k {
        seq![(k, v)] + es.drop_first()
    } else if crate::order::lex_lt(k, es[0].0) {
        seq![(k, v)] + es
    } else {
        seq![es[0]] + upsert(es.drop_first(), k, v)
    }
}

/// Recursive merge of a patch into a base value: two objects merge key by
/// key, each key of the patch merged into the base's value under that key
/// (`null` when absent); any other patch replaces the base.
pub open spec fn merge_view(b: JsonView, p: JsonView) -> JsonView
    decreases p, 0nat,
{
    match p {
        JsonView::Object(pe) => match b {
            JsonView::Object(be) => JsonView::Object(merge_entries(be, pe, 0)),
            _ => p,
        },
        _ => p,
    }
}

/// `be` with the patch entries `pe[i..]` merged in, in order.
pub open spec fn merge_entries(
    be: Seq<(Seq<char>, JsonView)>,
    pe: Seq<(Seq<char>, JsonView)>,
    i: int,
) -> Seq<(Seq<char>, JsonView)>
    decreases pe, pe.len() - i,
{
    if i < 0 || i >= pe.len() {
        be
    } else {
        let old = match lookup(be, pe[i].0) {
            Some(x) => x,
            None => JsonView::Null,
        };
        merge_entries(upsert(be, pe[i].0, merge_view(old, pe[i].1)), pe, i + 1)
    }
}

/// Setting a key changes what that key holds and nothing else.
pub proof fn lemma_lookup_upsert(
    es: Seq<(Seq<char>, JsonView)>,
    k: Seq<char>,
    v: JsonView,
    k2: Seq<char>,
)
    ensures
        lookup(upsert(es, k, v), k2) == if k2 == k {
            Some(v)
        } else {
            lookup(es, k2)
        },
    decreases es.len(),
{
    if es.len() == 0 {
        assert(seq![(k, v)].drop_first() =~= Seq::<(Seq<char>, JsonView)>::empty());
        assert(upsert(es, k, v) == seq![(k, v)]);
        assert(lookup(Seq::<(Seq<char>, JsonView)>::empty(), k2) is None);
        assert(seq![(k, v)][0] == (k, v));
    } else if es[0].0 == k {
        assert((seq![(k, v)] + es.drop_first())[0] == (k, v));
        assert((seq![(k, v)] + es.drop_first()).drop_first() =~= es.drop_first());
    } else if crate::order::lex_lt(k, es[0].0) {
        assert((seq![(k, v)] + es)[0] == (k, v));
        assert((seq![(k, v)] + es).drop_first() =~= es);
    } else {
        assert((seq![es[0]] + upsert(es.drop_first(), k, v))[0] == es[0]);
        lemma_lookup_upsert(es.drop_first(), k, v, k2);
        assert((seq![es[0]] + upsert(es.drop_first(), k, v)).drop_first() =~= upsert(
            es.drop_first(),
            k,
            v,
        ));
    }
}

/// Each key at most once.
pub open spec fn distinct_keys(es: Seq<(Seq<char>, JsonView)>) -> bool {
    forall|i: int, j: int| 0 <= i < j < es.len() ==> es[i].0 != es[j].0
}

/// A key of `es`.
pub open spec fn has_key(es: Seq<(Seq<char>, JsonView)>, k: Seq<char>) -> bool {
    exists|i: int| 0 <= i < es.len() && #[trigger] es[i].0 == k
}

proof fn lemma_lookup_finds(es: Seq<(Seq<char>, JsonView)>, i: int)
    requires
        0 <= i < es.len(),
        distinct_keys(es),
    ensures
        lookup(es, es[i].0) == Some(es[i].1),
    decreases i,
{
    if i > 0 {
        assert(es[0].0 != es[i].0);
        assert(distinct_keys(es.drop_first()));
        lemma_lookup_finds(es.drop_first(), i - 1);
    }
}

proof fn lemma_lookup_none(es: Seq<(Seq<char>, JsonView)>, k: Seq<char>)
    requires
        !has_key(es, k),
    ensures
        lookup(es, k) is None,
    decreases es.len(),
{
    if es.len() > 0 {
        assert(es[0].0 != k);
        assert(!has_key(es.drop_first(), k)) by {
            if has_key(es.drop_first(), k) {
                let i = choose|i: int| 0 <= i < es.drop_first().len() && #[trigger] es.drop_first()[i].0 == k;
                assert(es[i + 1].0 == k);
            }
        }
        lemma_lookup_none(es.drop_first(), k);
    }
}

proof fn lemma_merge_entries_keys(
    be: Seq<(Seq<char>, JsonView)>,
    pe: Seq<(Seq<char>, JsonView)>,
    i: int,
    k: Seq<char>,
)
    requires
        0 <= i <= pe.len(),
        distinct_keys(pe),
    ensures
        (forall|j: int| i <= j < pe.len() ==> #[trigger] pe[j].0 != k) ==> lookup(
            merge_entries(be, pe, i),
            k,
        ) == lookup(be, k),
        forall|j: int|
            i <= j < pe.len() && #[trigger] pe[j].0 == k ==> lookup(merge_entries(be, pe, i), k)
                == Some(
                merge_view(
                    match lookup(be, k) {
                        Some(x) => x,
                        None => JsonView::Null,
                    },
                    pe[j].1,
                ),
            ),
    decreases pe.len() - i,
{
    if i < pe.len() {
        let old = match lookup(be, pe[i].0) {
            Some(x) => x,
            None => JsonView::Null,
        };
        let be2 = upsert(be, pe[i].0, merge_view(old, pe[i].1));
        lemma_merge_entries_keys(be2, pe, i + 1, k);
        lemma_lookup_upsert(be, pe[i].0, merge_view(old, pe[i].1), k);
        assert forall|j: int|
            i <= j < pe.len() && #[trigger] pe[j].0 == k implies lookup(
            merge_entries(be, pe, i),
            k,
        ) == Some(
            merge_view(
                match lookup(be, k) {
                    Some(x) => x,
                    None => JsonView::Null,
                },
                pe[j].1,
            ),
        ) by {
            if j > i {
                assert(pe[i].0 != pe[j].0);
            }
        }
    }
}

/// Merging a patch object into a base object: keys the patch does not
/// mention keep their value; each key the patch names gets the merge of the
/// base's value under it (`null` when absent) with the patch's value.
pub proof fn law_merge_by_key(
    be: Seq<(Seq<char>, JsonView)>,
    pe: Seq<(Seq<char>, JsonView)>,
    k: Seq<char>,
)
    requires
        distinct_keys(pe),
    ensures
        !has_key(pe, k) ==> get_spec(
            merge_view(JsonView::Object(be), JsonView::Object(pe)),
            k,
        ) == lookup(be, k),
        has_key(pe, k) ==> get_spec(merge_view(JsonView::Object(be), JsonView::Object(pe)), k)
            == Some(
            merge_view(
                match lookup(be, k) {
                    Some(x) => x,
                    None => JsonView::Null,
                },
                lookup(pe, k)->0,
            ),
        ),
{
    lemma_merge_entries_keys(be, pe, 0, k);
    if has_key(pe, k) {
        let j = choose|j: int| 0 <= j < pe.len() && #[trigger] pe[j].0 == k;
        lemma_lookup_finds(pe, j);
    }
}

} // verus!

verus! {

// ---------------------------------------------------------------------------
// Executable operations.

/// The view of a list of entries.
pub open spec fn ev(es: Seq<(String, JsonValue)>) -> Seq<(Seq<char>, JsonView)> {
    entries_view(es, es.len() as int)
}

/// The view of a list of items.
pub open spec fn iv(items: Seq<JsonValue>) -> Seq<JsonView> {
    items_view(items, items.len() as int)
}

proof fn lemma_ev_insert(es: Seq<(String, JsonValue)>, i: int, x: (String, JsonValue))
    requires
        0 <= i <= es.len(),
    ensures
        ev(es.insert(i, x)) == ev(es).insert(i, (x.0@, json_view(x.1))),
{
    lemma_entries_view(es, es.len() as int);
    lemma_entries_view(es.insert(i, x), es.len() + 1int);
    assert(ev(es.insert(i, x)) =~= ev(es).insert(i, (x.0@, json_view(x.1))));
}

proof fn lemma_ev_remove(es: Seq<(String, JsonValue)>, i: int)
    requires
        0 <= i < es.len(),
    ensures
        ev(es.remove(i)) == ev(es).remove(i),
{
    lemma_entries_view(es, es.len() as int);
    lemma_entries_view(es.remove(i), es.len() - 1);
    assert(ev(es.remove(i)) =~= ev(es).remove(i));
}

proof fn lemma_ev_push(es: Seq<(String, JsonValue)>, x: (String, JsonValue))
    ensures
        ev(es.push(x)) == ev(es).push((x.0@, json_view(x.1))),
{
    lemma_entries_view(es, es.len() as int);
    lemma_entries_view(es.push(x), es.len() + 1int);
    assert(ev(es.push(x)) =~= ev(es).push((x.0@, json_view(x.1))));
}

proof fn lemma_iv_push(items: Seq<JsonValue>, x: JsonValue)
    ensures
        iv(items.push(x)) == iv(items).push(json_view(x)),
{
    lemma_items_view(items, items.len() as int);
    lemma_items_view(items.push(x), items.len() + 1int);
    assert(iv(items.push(x)) =~= iv(items).push(json_view(x)));
}

impl JsonValue {
    /// An equal value.
    pub fn duplicate(&self) -> (r: JsonValue)
        ensures
            r@ == self@,
        decreases self,
    {
        match self {
            JsonValue::Null => JsonValue::Null,
            JsonValue::Bool(b) => JsonValue::Bool(*b),
            JsonValue::Number(n) => JsonValue::Number(copy_number(n)),
            JsonValue::Str(s) => JsonValue::Str(s.clone()),
            JsonValue::Array(items) => {
                let mut out: Vec<JsonValue> = Vec::new();
                let mut i: usize = 0;
                while i < items.len()
                    invariant
                        *self == JsonValue::Array(*items),
                        i <= items@.len(),
                        iv(out@) == iv(items@.take(i as int)),
                    decreases items@.len() - i,
                {
                    assert(decreases_to!(*self => self->Array_0));
                    assert(decreases_to!(*items => items@));
                    assert(decreases_to!(items@ => items@[i as int]));
                    assert(decreases_to!(*self => items@[i as int]));
                    let x = items[i].duplicate();
                    proof {
                        lemma_iv_push(out@, x);
                        lemma_iv_push(items@.take(i as int), items@[i as int]);
                        assert(items@.take(i + 1) =~= items@.take(i as int).push(items@[i as int]));
                    }
                    out.push(x);
                    i = i + 1;
                }
                assert(items@.take(items@.len() as int) =~= items@);
                JsonValue::Array(out)
            },
            JsonValue::Object(es) => {
                let mut out: Vec<(String, JsonValue)> = Vec::new();
                let mut i: usize = 0;
                while i < es.len()
                    invariant
                        *self == JsonValue::Object(*es),
                        i <= es@.len(),
                        ev(out@) == ev(es@.take(i as int)),
                    decreases es@.len() - i,
                {
                    assert(decreases_to!(*self => self->Object_0));
                    assert(decreases_to!(*es => es@));
                    assert(decreases_to!(es@ => es@[i as int]));
                    assert(decreases_to!(es@[i as int] => es@[i as int].1));
                    assert(decreases_to!(*self => es@[i as int].1));
                    let x = (es[i].0.clone(), es[i].1.duplicate());
                    proof {
                        lemma_ev_push(out@, x);
                        lemma_ev_push(es@.take(i as int), es@[i as int]);
                        assert(es@.take(i + 1) =~= es@.take(i as int).push(es@[i as int]));
                    }
                    out.push(x);
                    i = i + 1;
                }
                assert(es@.take(es@.len() as int) =~= es@);
                JsonValue::Object(out)
            },
        }
    }
}

/// A copy of the value under `k` in `es`, `null` when there is none.
fn lookup_or_null(es: &Vec<(String, JsonValue)>, k: &[char]) -> (r: JsonValue)
    ensures
        r@ == match lookup(ev(es@), k@) {
            Some(x) => x,
            None => JsonView::Null,
        },
{
    proof {
        lemma_entries_view(es@, es@.len() as int);
    }
    let ghost all = ev(es@);
    let mut i: usize = 0;
    assert(all.skip(0) =~= all);
    while i < es.len()
        invariant
            all == ev(es@),
            all.len() == es@.len(),
            forall|j: int| 0 <= j < es@.len() ==> #[trigger] all[j] == (es@[j].0@, json_view(es@[j].1)),
            i <= es@.len(),
            lookup(all.skip(i as int), k@) == lookup(all, k@),
        decreases es@.len() - i,
    {
        assert(all.skip(i as int)[0] == all[i as int]);
        if crate::text::chars_eq(&crate::text::to_chars(es[i].0.as_str()), k) {
            return es[i].1.duplicate();
        }
        assert(all.skip(i as int).drop_first() =~= all.skip(i + 1));
        i = i + 1;
    }
    JsonValue::Null
}

/// `es` with `k` set to `v`, as [`upsert`] says.
fn upsert_exec(es: Vec<(String, JsonValue)>, k: String, v: JsonValue) -> (r: Vec<(String, JsonValue)>)
    ensures
        ev(r@) == upsert(ev(es@), k@, v@),
{
    proof {
        lemma_entries_view(es@, es@.len() as int);
    }
    let ghost all = ev(es@);
    let kc = crate::text::to_chars(k.as_str());
    let mut i: usize = 0;
    assert(all.skip(0) =~= all);
    assert(all.take(0) + upsert(all, k@, v@) =~= upsert(all, k@, v@));
    while i < es.len()
        invariant
            all == ev(es@),
            all.len() == es@.len(),
            forall|j: int| 0 <= j < es@.len() ==> #[trigger] all[j] == (es@[j].0@, json_view(es@[j].1)),
            kc@ == k@,
            i <= es@.len(),
            all.take(i as int) + upsert(all.skip(i as int), k@, v@) == upsert(all, k@, v@),
        decreases es@.len() - i,
    {
        let key = crate::text::to_chars(es[i].0.as_str());
        assert(all.skip(i as int)[0] == all[i as int]);
        if crate::text::chars_eq(&key, &kc) {
            let mut r = es;
            proof {
                lemma_ev_remove(r@, i as int);
            }
            r.remove(i);
            proof {
                lemma_ev_insert(r@, i as int, (k, v));
                assert(all.skip(i as int).drop_first() =~= all.skip(i + 1));
                assert(all.take(i as int) + (seq![(k@, v@)] + all.skip(i + 1)) =~= all.remove(
                    i as int,
                ).insert(i as int, (k@, v@)));
            }
            r.insert(i, (k, v));
            return r;
        }
        if crate::order::lex_less(&kc, &key) {
            let mut r = es;
            proof {
                lemma_ev_insert(r@, i as int, (k, v));
                assert(all.take(i as int) + (seq![(k@, v@)] + all.skip(i as int)) =~= all.insert(
                    i as int,
                    (k@, v@),
                ));
            }
            r.insert(i, (k, v));
            return r;
        }
        assert(all.skip(i as int).drop_first() =~= all.skip(i + 1));
        assert(all.take(i as int) + (seq![all[i as int]] + upsert(all.skip(i + 1), k@, v@))
            =~= all.take(i + 1) + upsert(all.skip(i + 1), k@, v@));
        i = i + 1;
    }
    let mut r = es;
    proof {
        lemma_ev_push(r@, (k, v));
        assert(all.skip(i as int) =~= Seq::<(Seq<char>, JsonView)>::empty());
        assert(all.take(i as int) =~= all);
    }
    r.push((k, v));
    r
}

/// `patch` merged into `base` (see [`merge_view`]).
pub fn merge(base: JsonValue, patch: JsonValue) -> (r: JsonValue)
    ensures
        r@ == merge_view(base@, patch@),
    decreases patch, 1nat,
{
    match patch {
        JsonValue::Object(pe) => match base {
            JsonValue::Object(be) => JsonValue::Object(merge_object(be, pe)),
            _ => JsonValue::Object(pe),
        },
        other => other,
    }
}

fn merge_object(be: Vec<(String, JsonValue)>, pe: Vec<(String, JsonValue)>) -> (r: Vec<
    (String, JsonValue),
>)
    ensures
        ev(r@) == merge_entries(ev(be@), ev(pe@), 0),
    decreases pe, 0nat,
{
    proof {
        lemma_entries_view(pe@, pe@.len() as int);
    }
    let ghost p = ev(pe@);
    let ghost orig = pe@;
    let n = pe.len();
    let mut acc = be;
    let mut rest = pe;
    let mut i: usize = 0;
    assert(orig.skip(0) =~= orig);
    while rest.len() > 0
        invariant
            p == ev(orig),
            p.len() == orig.len(),
            forall|j: int| 0 <= j < orig.len() ==> #[trigger] p[j] == (orig[j].0@, json_view(orig[j].1)),
            i <= orig.len(),
            orig.len() == n,
            orig == pe@,
            rest@ == orig.skip(i as int),
            merge_entries(ev(acc@), p, i as int) == merge_entries(ev(be@), p, 0),
        decreases rest@.len(),
    {
        let (k, v) = rest.remove(0);
        assert(orig[i as int] == (k, v));
        let kc = crate::text::to_chars(k.as_str());
        let old = lookup_or_null(&acc, &kc);
        assert(i < orig.len());
        assert(orig == pe@);
        assert(decreases_to!(pe => pe@));
        assert(decreases_to!(pe@ => pe@[i as int]));
        assert(decreases_to!(pe@[i as int] => pe@[i as int].1));
        assert(decreases_to!(pe => orig[i as int].1));
        let merged = merge(old, v);
        acc = upsert_exec(acc, k, merged);
        i = i + 1;
        assert(rest@ =~= orig.skip(i as int));
    }
    assert(merge_entries(ev(acc@), p, i as int) == ev(acc@));
    acc
}

} // verus!

verus! {

// ---------------------------------------------------------------------------
// Texts, read and written by `serde_json`.

/// One level of a `serde_json::Value`: its kind, with its items or entries
/// still as values.
pub enum ValueShape {
    Null,
    Bool(bool),
    Number(serde_json::Number),
    Str(String),
    Array(Vec<serde_json::Value>),
    Object(Vec<(String, serde_json::Value)>),
}

pub open spec fn value_views(items: Seq<serde_json::Value>) -> Seq<JsonView> {
    items.map_values(|x: serde_json::Value| value_view(x))
}

pub open spec fn entry_views(es: Seq<(String, serde_json::Value)>) -> Seq<(Seq<char>, JsonView)> {
    es.map_values(|e: (String, serde_json::Value)| (e.0@, value_view(e.1)))
}

/// What one level holds.
pub open spec fn shape_view(s: ValueShape) -> JsonView {
    match s {
        ValueShape::Null => JsonView::Null,
        ValueShape::Bool(b) => JsonView::Bool(b),
        ValueShape::Number(n) => JsonView::Number(n),
        ValueShape::Str(t) => JsonView::Str(t@),
        ValueShape::Array(items) => JsonView::Array(value_views(items@)),
        ValueShape::Object(es) => JsonView::Object(entry_views(es@)),
    }
}

/// `es` inserted one by one into a map that starts as `acc`: the entries end
/// up in key order, and of equal keys the last one stays.
pub open spec fn insert_all(acc: Seq<(Seq<char>, JsonView)>, es: Seq<(Seq<char>, JsonView)>) -> Seq<
    (Seq<char>, JsonView),
>
    decreases es.len(),
{
    if es.len() == 0 {
        acc
    } else {
        insert_all(upsert(acc, es[0].0, es[0].1), es.drop_first())
    }
}

/// What a value built from one level holds: an object's entries collected
/// into a map.
pub open spec fn built_view(s: ValueShape) -> JsonView {
    match s {
        ValueShape::Object(es) => JsonView::Object(insert_all(seq![], entry_views(es@))),
        _ => shape_view(s),
    }
}

/// `v` with every object collected into a map, as `serde_json` holds it.
pub open spec fn normalize(v: JsonView) -> JsonView
    decreases v, 0nat,
{
    match v {
        JsonView::Array(items) => JsonView::Array(normalize_items(items, items.len() as int)),
        JsonView::Object(es) => JsonView::Object(insert_all(seq![], normalize_entries(es, es.len() as int))),
        _ => v,
    }
}

/// The first `n` items, normalized.
pub open spec fn normalize_items(items: Seq<JsonView>, n: int) -> Seq<JsonView>
    decreases items, n,
{
    if n <= 0 || n > items.len() {
        seq![]
    } else {
        normalize_items(items, n - 1).push(normalize(items[n - 1]))
    }
}

/// The first `n` entries, their values normalized.
pub open spec fn normalize_entries(es: Seq<(Seq<char>, JsonView)>, n: int) -> Seq<(Seq<char>, JsonView)>
    decreases es, n,
{
    if n <= 0 || n > es.len() {
        seq![]
    } else {
        normalize_entries(es, n - 1).push((es[n - 1].0, normalize(es[n - 1].1)))
    }
}

/// The `JsonValue` holding what a `serde_json::Value` holds.
fn from_value(v: serde_json::Value) -> (r: JsonValue)
    ensures
        r@ == value_view(v),
        well_formed(r@),
    decreases value_view(v),
{
    let ghost vv = value_view(v);
    match take_value(v) {
        ValueShape::Null => JsonValue::Null,
        ValueShape::Bool(b) => JsonValue::Bool(b),
        ValueShape::Number(n) => JsonValue::Number(n),
        ValueShape::Str(t) => JsonValue::Str(t),
        ValueShape::Array(items) => {
            let ghost orig = items@;
            let ghost views = value_views(orig);
            let n = items.len();
            let mut rest = items;
            let mut out: Vec<JsonValue> = Vec::new();
            let mut i: usize = 0;
            assert(orig.skip(0) =~= orig);
            assert(views.take(0) =~= Seq::<JsonView>::empty());
            while rest.len() > 0
                invariant
                    vv == value_view(v),
                    vv == JsonView::Array(views),
                    views == value_views(orig),
                    orig.len() == n,
                    i <= orig.len(),
                    rest@ == orig.skip(i as int),
                    iv(out@) == views.take(i as int),
                    forall|j: int| 0 <= j < i ==> well_formed(#[trigger] views[j]),
                decreases rest@.len(),
            {
                assert(orig.skip(i as int).len() == orig.len() - i);
                let x = rest.remove(0);
                assert(x == orig[i as int]);
                assert(views[i as int] == value_view(x));
                assert(decreases_to!(vv => vv->Array_0));
                assert(decreases_to!(views => views[i as int]));
                let y = from_value(x);
                proof {
                    lemma_iv_push(out@, y);
                    assert(views.take(i + 1) =~= views.take(i as int).push(views[i as int]));
                }
                out.push(y);
                i = i + 1;
                assert(rest@ =~= orig.skip(i as int));
            }
            assert(views.take(i as int) =~= views);
            proof {
                lemma_items_well_formed(views, views.len() as int);
            }
            JsonValue::Array(out)
        },
        ValueShape::Object(es) => {
            let ghost orig = es@;
            let ghost views = entry_views(orig);
            let n = es.len();
            let mut rest = es;
            let mut out: Vec<(String, JsonValue)> = Vec::new();
            let mut i: usize = 0;
            assert(orig.skip(0) =~= orig);
            assert(views.take(0) =~= Seq::<(Seq<char>, JsonView)>::empty());
            while rest.len() > 0
                invariant
                    vv == value_view(v),
                    vv == JsonView::Object(views),
                    views == entry_views(orig),
                    orig.len() == n,
                    i <= orig.len(),
                    rest@ == orig.skip(i as int),
                    ev(out@) == views.take(i as int),
                    keys_ascending(views),
                    forall|j: int| 0 <= j < i ==> well_formed(#[trigger] views[j].1),
                decreases rest@.len(),
            {
                assert(orig.skip(i as int).len() == orig.len() - i);
                let (k, x) = rest.remove(0);
                assert((k, x) == orig[i as int]);
                assert(views[i as int] == (k@, value_view(x)));
                assert(decreases_to!(vv => vv->Object_0));
                assert(decreases_to!(views => views[i as int]));
                assert(decreases_to!(views[i as int] => views[i as int].1));
                let y = from_value(x);
                proof {
                    lemma_ev_push(out@, (k, y));
                    assert(views.take(i + 1) =~= views.take(i as int).push(views[i as int]));
                }
                out.push((k, y));
                i = i + 1;
                assert(rest@ =~= orig.skip(i as int));
            }
            assert(views.take(i as int) =~= views);
            proof {
                lemma_entries_well_formed(views, views.len() as int);
            }
            JsonValue::Object(out)
        },
    }
}

/// A `serde_json::Value` holding `v`, its objects collected into maps. What
/// a map keeps of equal keys is left open, so the result is stated for a
/// well-formed `v`.
fn to_value(v: JsonValue) -> (r: serde_json::Value)
    ensures
        well_formed(v@) ==> value_view(r) == normalize(v@),
    decreases v,
{
    let ghost gv = v;
    match v {
        JsonValue::Null => build_value(ValueShape::Null),
        JsonValue::Bool(b) => build_value(ValueShape::Bool(b)),
        JsonValue::Number(n) => build_value(ValueShape::Number(n)),
        JsonValue::Str(t) => build_value(ValueShape::Str(t)),
        JsonValue::Array(items) => {
            let ghost orig = items@;
            proof {
                lemma_items_view(orig, orig.len() as int);
            }
            let n = items.len();
            let mut rest = items;
            let mut out: Vec<serde_json::Value> = Vec::new();
            let mut i: usize = 0;
            assert(orig.skip(0) =~= orig);
            assert(value_views(out@) =~= normalize_items(iv(orig), 0));
            while rest.len() > 0
                invariant
                    gv == v,
                    gv == JsonValue::Array(gv->Array_0),
                    gv->Array_0@ == orig,
                    gv@ == JsonView::Array(iv(orig)),
                    orig.len() == n,
                    iv(orig).len() == orig.len(),
                    forall|j: int| 0 <= j < orig.len() ==> #[trigger] iv(orig)[j] == json_view(orig[j]),
                    i <= orig.len(),
                    rest@ == orig.skip(i as int),
                    well_formed(gv@) ==> value_views(out@) == normalize_items(iv(orig), i as int),
                decreases rest@.len(),
            {
                assert(orig.skip(i as int).len() == orig.len() - i);
                let x = rest.remove(0);
                assert(x == orig[i as int]);
                assert(decreases_to!(gv => gv->Array_0));
                assert(decreases_to!(gv->Array_0 => gv->Array_0@));
                assert(decreases_to!(orig => orig[i as int]));
                let y = to_value(x);
                let ghost before = out@;
                proof {
                    if well_formed(gv@) {
                        lemma_items_well_formed(iv(orig), orig.len() as int);
                        assert(well_formed(iv(orig)[i as int]));
                    }
                }
                out.push(y);
                i = i + 1;
                assert(value_views(out@) =~= value_views(before).push(value_view(y)));
                assert(rest@ =~= orig.skip(i as int));
            }
            build_value(ValueShape::Array(out))
        },
        JsonValue::Object(es) => {
            let ghost orig = es@;
            proof {
                lemma_entries_view(orig, orig.len() as int);
            }
            let n = es.len();
            let mut rest = es;
            let mut out: Vec<(String, serde_json::Value)> = Vec::new();
            let mut i: usize = 0;
            assert(orig.skip(0) =~= orig);
            assert(entry_views(out@) =~= normalize_entries(ev(orig), 0));
            while rest.len() > 0
                invariant
                    gv == v,
                    gv == JsonValue::Object(gv->Object_0),
                    gv->Object_0@ == orig,
                    gv@ == JsonView::Object(ev(orig)),
                    orig.len() == n,
                    ev(orig).len() == orig.len(),
                    forall|j: int|
                        0 <= j < orig.len() ==> #[trigger] ev(orig)[j] == (orig[j].0@, json_view(orig[j].1)),
                    i <= orig.len(),
                    rest@ == orig.skip(i as int),
                    out@.len() == i,
                    forall|j: int| 0 <= j < i ==> (#[trigger] out@[j]).0@ == orig[j].0@,
                    well_formed(gv@) ==> entry_views(out@) == normalize_entries(ev(orig), i as int),
                decreases rest@.len(),
            {
                assert(orig.skip(i as int).len() == orig.len() - i);
                let (k, x) = rest.remove(0);
                assert((k, x) == orig[i as int]);
                assert(decreases_to!(gv => gv->Object_0));
                assert(decreases_to!(gv->Object_0 => gv->Object_0@));
                assert(decreases_to!(orig => orig[i as int]));
                assert(decreases_to!(orig[i as int] => orig[i as int].1));
                let y = to_value(x);
                let ghost before = out@;
                proof {
                    if well_formed(gv@) {
                        lemma_entries_well_formed(ev(orig), orig.len() as int);
                        assert(well_formed(ev(orig)[i as int].1));
                    }
                }
                out.push((k, y));
                i = i + 1;
                assert(entry_views(out@) =~= entry_views(before).push((k@, value_view(y))));
                assert(rest@ =~= orig.skip(i as int));
            }
            proof {
                if well_formed(gv@) {
                    lemma_ascending_distinct(ev(orig));
                    let ov = entry_views(out@);
                    assert forall|a: int, b: int| 0 <= a < b < ov.len() implies ov[a].0 != ov[b].0 by {
                        assert(ov[a].0 == ev(orig)[a].0 && ov[b].0 == ev(orig)[b].0);
                    }
                }
            }
            build_value(ValueShape::Object(out))
        },
    }
}

/// The view of a parse.
pub open spec fn parsed_view(r: Result<JsonValue, String>) -> Result<JsonView, Seq<char>> {
    match r {
        Ok(v) => Ok(v@),
        Err(m) => Err(m@),
    }
}

/// `serde_json::from_str`: the value a text holds, or the parser's message.
pub fn parse_json(text: &str) -> (r: Result<JsonValue, String>)
    ensures
        parsed_view(r) == json_parse(text@),
        r matches Ok(v) ==> well_formed(v@),
{
    match parse_value(text) {
        Ok(v) => Ok(from_value(v)),
        Err(m) => Err(m),
    }
}

/// `serde_json::to_string_pretty`: the text of `v`, its objects collected
/// into maps, or the serializer's message. It is stated for a well-formed
/// `v`: of an object's equal keys, which one a map keeps is left open.
pub fn to_string_pretty(v: JsonValue) -> (r: Result<String, String>)
    ensures
        well_formed(v@) ==> match r {
            Ok(s) => json_pretty(normalize(v@)) == Ok::<Seq<char>, Seq<char>>(s@),
            Err(m) => json_pretty(normalize(v@)) == Err::<Seq<char>, Seq<char>>(m@),
        },
{
    let value = to_value(v);
    pretty(&value)
}

} // verus!

verus! {

// ---------------------------------------------------------------------------
// Objects read from a text.

/// Keys in strictly increasing order, as a map of `serde_json` walks them.
pub open spec fn keys_ascending(es: Seq<(Seq<char>, JsonView)>) -> bool {
    forall|i: int, j: int| 0 <= i < j < es.len() ==> crate::order::lex_lt(#[trigger] es[i].0, #[trigger] es[j].0)
}

pub proof fn lemma_ascending_distinct(es: Seq<(Seq<char>, JsonView)>)
    requires
        keys_ascending(es),
    ensures
        distinct_keys(es),
{
    assert forall|i: int, j: int| 0 <= i < j < es.len() implies es[i].0 != es[j].0 by {
        crate::order::lemma_lex_irreflexive(es[i].0);
    }
}

/// Every key of `upsert(es, k, v)` is `k` or a key of `es`.
proof fn lemma_upsert_keys(es: Seq<(Seq<char>, JsonView)>, k: Seq<char>, v: JsonView)
    ensures
        forall|j: int|
            0 <= j < upsert(es, k, v).len() ==> #[trigger] upsert(es, k, v)[j].0 == k || exists|m: int|
                0 <= m < es.len() && es[m].0 == upsert(es, k, v)[j].0,
    decreases es.len(),
{
    let u = upsert(es, k, v);
    if es.len() == 0 {
    } else if es[0].0 == k {
        assert forall|j: int| 0 <= j < u.len() implies #[trigger] u[j].0 == k || exists|m: int|
            0 <= m < es.len() && es[m].0 == u[j].0 by {
            if j > 0 {
                assert(u[j] == es[j]);
            }
        }
    } else if crate::order::lex_lt(k, es[0].0) {
        assert forall|j: int| 0 <= j < u.len() implies #[trigger] u[j].0 == k || exists|m: int|
            0 <= m < es.len() && es[m].0 == u[j].0 by {
            if j > 0 {
                assert(u[j] == es[j - 1]);
            }
        }
    } else {
        let rest = es.drop_first();
        let ur = upsert(rest, k, v);
        lemma_upsert_keys(rest, k, v);
        assert forall|j: int| 0 <= j < u.len() implies #[trigger] u[j].0 == k || exists|m: int|
            0 <= m < es.len() && es[m].0 == u[j].0 by {
            if j == 0 {
                assert(u[0] == es[0]);
            } else {
                assert(u[j] == ur[j - 1]);
                if ur[j - 1].0 != k {
                    let m = choose|m: int| 0 <= m < rest.len() && rest[m].0 == ur[j - 1].0;
                    assert(es[m + 1] == rest[m]);
                }
            }
        }
    }
}

/// Setting a key keeps the keys in increasing order.
proof fn lemma_upsert_ascending(es: Seq<(Seq<char>, JsonView)>, k: Seq<char>, v: JsonView)
    requires
        keys_ascending(es),
    ensures
        keys_ascending(upsert(es, k, v)),
    decreases es.len(),
{
    let u = upsert(es, k, v);
    if es.len() == 0 {
    } else if es[0].0 == k {
        assert forall|i: int, j: int| 0 <= i < j < u.len() implies crate::order::lex_lt(
            #[trigger] u[i].0,
            #[trigger] u[j].0,
        ) by {
            assert(u[j] == es[j]);
            if i > 0 {
                assert(u[i] == es[i]);
            }
        }
    } else if crate::order::lex_lt(k, es[0].0) {
        assert forall|i: int, j: int| 0 <= i < j < u.len() implies crate::order::lex_lt(
            #[trigger] u[i].0,
            #[trigger] u[j].0,
        ) by {
            assert(u[j] == es[j - 1]);
            if i > 0 {
                assert(u[i] == es[i - 1]);
            } else if j > 1 {
                crate::order::lemma_lex_transitive(k, es[0].0, es[j - 1].0);
            }
        }
    } else {
        crate::order::lemma_lex_trichotomy(k, es[0].0);
        let rest = es.drop_first();
        let ur = upsert(rest, k, v);
        assert(keys_ascending(rest)) by {
            assert forall|i: int, j: int| 0 <= i < j < rest.len() implies crate::order::lex_lt(
                #[trigger] rest[i].0,
                #[trigger] rest[j].0,
            ) by {
                assert(rest[i] == es[i + 1] && rest[j] == es[j + 1]);
            }
        }
        lemma_upsert_ascending(rest, k, v);
        lemma_upsert_keys(rest, k, v);
        assert forall|i: int, j: int| 0 <= i < j < u.len() implies crate::order::lex_lt(
            #[trigger] u[i].0,
            #[trigger] u[j].0,
        ) by {
            assert(u[j] == ur[j - 1]);
            if i > 0 {
                assert(u[i] == ur[i - 1]);
            } else {
                assert(u[0] == es[0]);
                if ur[j - 1].0 != k {
                    let m = choose|m: int| 0 <= m < rest.len() && rest[m].0 == ur[j - 1].0;
                    assert(es[m + 1] == rest[m]);
                }
            }
        }
    }
}

/// Merging into an object whose keys increase keeps them increasing.
proof fn lemma_merge_entries_ascending(be: Seq<(Seq<char>, JsonView)>, pe: Seq<(Seq<char>, JsonView)>, i: int)
    requires
        keys_ascending(be),
    ensures
        keys_ascending(merge_entries(be, pe, i)),
    decreases pe.len() - i,
{
    if 0 <= i < pe.len() {
        let old = match lookup(be, pe[i].0) {
            Some(x) => x,
            None => JsonView::Null,
        };
        lemma_upsert_ascending(be, pe[i].0, merge_view(old, pe[i].1));
        lemma_merge_entries_ascending(upsert(be, pe[i].0, merge_view(old, pe[i].1)), pe, i + 1);
    }
}

/// Of entries with distinct keys, inserting all into a map finds each one.
proof fn lemma_insert_all_lookup(acc: Seq<(Seq<char>, JsonView)>, es: Seq<(Seq<char>, JsonView)>, k: Seq<char>)
    requires
        distinct_keys(es),
    ensures
        lookup(insert_all(acc, es), k) == match lookup(es, k) {
            Some(x) => Some(x),
            None => lookup(acc, k),
        },
    decreases es.len(),
{
    if es.len() > 0 {
        let rest = es.drop_first();
        let acc2 = upsert(acc, es[0].0, es[0].1);
        assert(distinct_keys(rest)) by {
            assert forall|i: int, j: int| 0 <= i < j < rest.len() implies rest[i].0 != rest[j].0 by {
                assert(rest[i] == es[i + 1] && rest[j] == es[j + 1]);
            }
        }
        lemma_insert_all_lookup(acc2, rest, k);
        lemma_lookup_upsert(acc, es[0].0, es[0].1, k);
        if es[0].0 == k {
            assert(!has_key(rest, k)) by {
                if has_key(rest, k) {
                    let j = choose|j: int| 0 <= j < rest.len() && #[trigger] rest[j].0 == k;
                    assert(es[j + 1] == rest[j]);
                }
            }
            lemma_lookup_none(rest, k);
        }
    }
}

proof fn lemma_normalize_entries(es: Seq<(Seq<char>, JsonView)>, n: int)
    requires
        0 <= n <= es.len(),
    ensures
        normalize_entries(es, n).len() == n,
        forall|j: int| 0 <= j < n ==> #[trigger] normalize_entries(es, n)[j] == (es[j].0, normalize(es[j].1)),
    decreases n,
{
    if n > 0 {
        lemma_normalize_entries(es, n - 1);
    }
}

/// Looking a key up among normalized entries finds the normalized value.
proof fn lemma_lookup_normalized(es: Seq<(Seq<char>, JsonView)>, ns: Seq<(Seq<char>, JsonView)>, k: Seq<char>)
    requires
        ns.len() == es.len(),
        forall|j: int| 0 <= j < es.len() ==> #[trigger] ns[j] == (es[j].0, normalize(es[j].1)),
    ensures
        lookup(ns, k) == match lookup(es, k) {
            Some(x) => Some(normalize(x)),
            None => None::<JsonView>,
        },
    decreases es.len(),
{
    if es.len() > 0 {
        assert(ns[0] == (es[0].0, normalize(es[0].1)));
        let er = es.drop_first();
        let nr = ns.drop_first();
        assert forall|j: int| 0 <= j < er.len() implies #[trigger] nr[j] == (er[j].0, normalize(er[j].1)) by {
            assert(nr[j] == ns[j + 1] && er[j] == es[j + 1]);
        }
        lemma_lookup_normalized(er, nr, k);
    }
}

/// What a key holds in an object once its entries are collected into a map,
/// when they increase.
pub proof fn lemma_normalized_object_lookup(es: Seq<(Seq<char>, JsonView)>, k: Seq<char>)
    requires
        keys_ascending(es),
    ensures
        get_spec(normalize(JsonView::Object(es)), k) == match lookup(es, k) {
            Some(x) => Some(normalize(x)),
            None => None::<JsonView>,
        },
{
    let ns = normalize_entries(es, es.len() as int);
    lemma_normalize_entries(es, es.len() as int);
    assert(distinct_keys(ns)) by {
        lemma_ascending_distinct(es);
        assert forall|i: int, j: int| 0 <= i < j < ns.len() implies ns[i].0 != ns[j].0 by {
            assert(ns[i].0 == es[i].0 && ns[j].0 == es[j].0);
        }
    }
    lemma_insert_all_lookup(seq![], ns, k);
    lemma_lookup_normalized(es, ns, k);
}

/// Merging a patch object into a base object whose keys increase, and
/// collecting the result into a map: keys the patch does not mention keep the
/// base's value; each key the patch names holds the base's value (`null` when
/// absent) merged with the patch's.
pub proof fn law_merge_keeps_unmentioned_keys(
    be: Seq<(Seq<char>, JsonView)>,
    pe: Seq<(Seq<char>, JsonView)>,
    k: Seq<char>,
)
    requires
        keys_ascending(be),
        distinct_keys(pe),
    ensures
        !has_key(pe, k) ==> get_spec(normalize(merge_view(JsonView::Object(be), JsonView::Object(pe))), k)
            == match lookup(be, k) {
            Some(x) => Some(normalize(x)),
            None => None::<JsonView>,
        },
        has_key(pe, k) ==> get_spec(normalize(merge_view(JsonView::Object(be), JsonView::Object(pe))), k)
            == Some(
            normalize(
                merge_view(
                    match lookup(be, k) {
                        Some(x) => x,
                        None => JsonView::Null,
                    },
                    lookup(pe, k)->0,
                ),
            ),
        ),
{
    let me = merge_entries(be, pe, 0);
    lemma_merge_entries_ascending(be, pe, 0);
    lemma_normalized_object_lookup(me, k);
    law_merge_by_key(be, pe, k);
}

} // verus!

verus! {

/// Every object, at every depth, has its keys in increasing order, as a
/// value read from a text has.
pub open spec fn well_formed(v: JsonView) -> bool
    decreases v, 0nat,
{
    match v {
        JsonView::Array(items) => items_well_formed(items, items.len() as int),
        JsonView::Object(es) => keys_ascending(es) && entries_well_formed(es, es.len() as int),
        _ => true,
    }
}

/// The first `n` items are well-formed.
pub open spec fn items_well_formed(items: Seq<JsonView>, n: int) -> bool
    decreases items, n,
{
    if n <= 0 || n > items.len() {
        true
    } else {
        items_well_formed(items, n - 1) && well_formed(items[n - 1])
    }
}

/// The values of the first `n` entries are well-formed.
pub open spec fn entries_well_formed(es: Seq<(Seq<char>, JsonView)>, n: int) -> bool
    decreases es, n,
{
    if n <= 0 || n > es.len() {
        true
    } else {
        entries_well_formed(es, n - 1) && well_formed(es[n - 1].1)
    }
}

pub proof fn lemma_items_well_formed(items: Seq<JsonView>, n: int)
    requires
        0 <= n <= items.len(),
    ensures
        items_well_formed(items, n) <==> forall|j: int| 0 <= j < n ==> well_formed(#[trigger] items[j]),
    decreases n,
{
    if n > 0 {
        lemma_items_well_formed(items, n - 1);
    }
}

pub proof fn lemma_entries_well_formed(es: Seq<(Seq<char>, JsonView)>, n: int)
    requires
        0 <= n <= es.len(),
    ensures
        entries_well_formed(es, n) <==> forall|j: int| 0 <= j < n ==> well_formed(#[trigger] es[j].1),
    decreases n,
{
    if n > 0 {
        lemma_entries_well_formed(es, n - 1);
    }
}

} // verus!

verus! {

/// Every entry of `upsert(es, k, v)` is `(k, v)` or an entry of `es`.
proof fn lemma_upsert_entries(es: Seq<(Seq<char>, JsonView)>, k: Seq<char>, v: JsonView)
    ensures
        forall|j: int|
            0 <= j < upsert(es, k, v).len() ==> #[trigger] upsert(es, k, v)[j] == (k, v) || exists|m: int|
                0 <= m < es.len() && es[m] == upsert(es, k, v)[j],
    decreases es.len(),
{
    let u = upsert(es, k, v);
    if es.len() == 0 {
    } else if es[0].0 == k {
        assert forall|j: int| 0 <= j < u.len() implies #[trigger] u[j] == (k, v) || exists|m: int|
            0 <= m < es.len() && es[m] == u[j] by {
            if j > 0 {
                assert(u[j] == es[j]);
            }
        }
    } else if crate::order::lex_lt(k, es[0].0) {
        assert forall|j: int| 0 <= j < u.len() implies #[trigger] u[j] == (k, v) || exists|m: int|
            0 <= m < es.len() && es[m] == u[j] by {
            if j > 0 {
                assert(u[j] == es[j - 1]);
            }
        }
    } else {
        let rest = es.drop_first();
        let ur = upsert(rest, k, v);
        lemma_upsert_entries(rest, k, v);
        assert forall|j: int| 0 <= j < u.len() implies #[trigger] u[j] == (k, v) || exists|m: int|
            0 <= m < es.len() && es[m] == u[j] by {
            if j == 0 {
                assert(u[0] == es[0]);
            } else {
                assert(u[j] == ur[j - 1]);
                if ur[j - 1] != (k, v) {
                    let m = choose|m: int| 0 <= m < rest.len() && rest[m] == ur[j - 1];
                    assert(es[m + 1] == rest[m]);
                }
            }
        }
    }
}

/// What a lookup finds is the value of one of the entries.
proof fn lemma_lookup_entry(es: Seq<(Seq<char>, JsonView)>, k: Seq<char>)
    ensures
        lookup(es, k) matches Some(x) ==> exists|m: int| 0 <= m < es.len() && es[m].1 == x,
    decreases es.len(),
{
    if es.len() > 0 && es[0].0 != k {
        lemma_lookup_entry(es.drop_first(), k);
        if lookup(es, k) is Some {
            let m = choose|m: int| 0 <= m < es.drop_first().len() && es.drop_first()[m].1 == lookup(es, k)->0;
            assert(es[m + 1] == es.drop_first()[m]);
        }
    }
}

/// Merging two well-formed values gives a well-formed value.
pub proof fn lemma_merge_well_formed(b: JsonView, p: JsonView)
    requires
        well_formed(b),
        well_formed(p),
    ensures
        well_formed(merge_view(b, p)),
    decreases p, 1nat,
{
    match p {
        JsonView::Object(pe) => match b {
            JsonView::Object(be) => {
                lemma_entries_well_formed(be, be.len() as int);
                lemma_entries_well_formed(pe, pe.len() as int);
                lemma_merge_entries_well_formed(be, pe, 0);
                let me = merge_entries(be, pe, 0);
                lemma_entries_well_formed(me, me.len() as int);
            },
            _ => {},
        },
        _ => {},
    }
}

proof fn lemma_merge_entries_well_formed(be: Seq<(Seq<char>, JsonView)>, pe: Seq<(Seq<char>, JsonView)>, i: int)
    requires
        keys_ascending(be),
        forall|j: int| 0 <= j < be.len() ==> well_formed(#[trigger] be[j].1),
        forall|j: int| 0 <= j < pe.len() ==> well_formed(#[trigger] pe[j].1),
    ensures
        keys_ascending(merge_entries(be, pe, i)),
        forall|j: int|
            0 <= j < merge_entries(be, pe, i).len() ==> well_formed(#[trigger] merge_entries(be, pe, i)[j].1),
    decreases pe, pe.len() - i,
{
    if 0 <= i < pe.len() {
        let old = match lookup(be, pe[i].0) {
            Some(x) => x,
            None => JsonView::Null,
        };
        lemma_lookup_entry(be, pe[i].0);
        assert(well_formed(old));
        assert(decreases_to!(pe => pe[i]));
        assert(decreases_to!(pe[i] => pe[i].1));
        lemma_merge_well_formed(old, pe[i].1);
        let nv = merge_view(old, pe[i].1);
        let be2 = upsert(be, pe[i].0, nv);
        lemma_upsert_ascending(be, pe[i].0, nv);
        lemma_upsert_entries(be, pe[i].0, nv);
        assert forall|j: int| 0 <= j < be2.len() implies well_formed(#[trigger] be2[j].1) by {
            if be2[j] != (pe[i].0, nv) {
                let m = choose|m: int| 0 <= m < be.len() && be[m] == be2[j];
                assert(well_formed(be[m].1));
            }
        }
        lemma_merge_entries_well_formed(be2, pe, i + 1);
    }
}

} // verus!
