use vstd::prelude::*;

use crate::json::{
    copy_of, items_view, json_equal, lemma_array_view, lemma_object_view, members_view, opt_view, Json, JsonTree,
    Member,
};
use crate::path::{
    erase, erase_from, lemma_segments_len, lookup, lookup_from, place, place_from, segments,
    split_key, tail, texts,
};

verus! {

/// A change to the row table, which maps each root key to one document.
#[derive(Debug)]
pub enum RowChange {
    /// Insert the row, or replace its document where the root key is taken.
    Put { root: String, document: Json },
    /// Remove the row of the root key, if there is one.
    Remove { root: String },
    /// Remove every row.
    Clear,
}

/// The model of a [`RowChange`].
pub enum Change {
    Put(Seq<char>, JsonTree),
    Remove(Seq<char>),
    Clear,
}

impl View for RowChange {
    type V = Change;

    open spec fn view(&self) -> Change {
        match self {
            RowChange::Put { root, document } => Change::Put(root@, document@),
            RowChange::Remove { root } => Change::Remove(root@),
            RowChange::Clear => Change::Clear,
        }
    }
}

/// The row table: each root key maps to its decoded document, or to `None`
/// where the stored text is not a document.
pub type Table = Map<Seq<char>, Option<JsonTree>>;

/// The table after a change.
pub open spec fn apply(t: Table, c: Change) -> Table {
    match c {
        Change::Put(root, doc) => t.insert(root, Some(doc)),
        Change::Remove(root) => t.remove(root),
        Change::Clear => Map::empty(),
    }
}

/// The document stored under `root`, if a row holds one.
pub open spec fn stored(t: Table, root: Seq<char>) -> Option<JsonTree> {
    if t.contains_key(root) {
        t[root]
    } else {
        None
    }
}

/// The root key of a dotted key: the text before its first dot.
pub open spec fn root_of(key: Seq<char>) -> Seq<char> {
    segments(key)[0]
}

/// The member names that a dotted key descends through below its root.
pub open spec fn field_path(key: Seq<char>) -> Seq<Seq<char>> {
    segments(key).drop_first()
}

/// The value at `key`, given the document stored under its root.
pub open spec fn read_doc(key: Seq<char>, doc: Option<JsonTree>) -> Option<JsonTree> {
    match doc {
        Some(d) => lookup(d, field_path(key)),
        None => None,
    }
}

/// The value at `key` in the table.
pub open spec fn read(t: Table, key: Seq<char>) -> Option<JsonTree> {
    read_doc(key, stored(t, root_of(key)))
}

/// Whether the table holds a value at `key`.
pub open spec fn holds(t: Table, key: Seq<char>) -> bool {
    read(t, key) is Some
}

/// The change that stores `v` at `key`: the root's document, or an empty
/// object where there is none, with `v` placed along the field path.
pub open spec fn set_change(key: Seq<char>, doc: Option<JsonTree>, v: JsonTree) -> Change {
    let base = match doc {
        Some(d) => d,
        None => JsonTree::Object(Seq::empty()),
    };
    Change::Put(root_of(key), place(base, field_path(key), v))
}

/// The change that deletes `key`: the root's row for a key without a field,
/// else the root's document (null where there is none) without the field.
pub open spec fn delete_change(key: Seq<char>, doc: Option<JsonTree>) -> Change {
    if field_path(key).len() == 0 {
        Change::Remove(root_of(key))
    } else {
        let base = match doc {
            Some(d) => d,
            None => JsonTree::Null,
        };
        Change::Put(root_of(key), erase(base, field_path(key)))
    }
}

/// The table after `set(key, v)`.
pub open spec fn after_set(t: Table, key: Seq<char>, v: JsonTree) -> Table {
    apply(t, set_change(key, stored(t, root_of(key)), v))
}

/// The table after `delete(key)`.
pub open spec fn after_delete(t: Table, key: Seq<char>) -> Table {
    apply(t, delete_change(key, stored(t, root_of(key))))
}

/// The split of a key gives its root first, then its field path.
proof fn lemma_path_of(parts: Vec<String>, key: Seq<char>)
    requires
        texts(parts@) == segments(key),
    ensures
        parts@.len() >= 1,
        parts@[0]@ == root_of(key),
        tail(parts@, 1) == field_path(key),
{
    lemma_segments_len(key);
    assert(texts(parts@)[0] == parts@[0]@);
    assert(tail(parts@, 1) =~= field_path(key));
}

/// The root key of `key`, under which its row is stored.
pub fn root_key(key: &str) -> (r: String)
    ensures
        r@ == root_of(key@),
{
    let mut parts = split_key(key);
    proof {
        lemma_path_of(parts, key@);
    }
    parts.swap_remove(0)
}

/// Whether `key` names a field below its root, rather than the root itself.
pub fn is_field_key(key: &str) -> (r: bool)
    ensures
        r == (field_path(key@).len() > 0),
{
    let parts = split_key(key);
    proof {
        lemma_path_of(parts, key@);
    }
    parts.len() > 1
}

/// The value at `key`, given `doc`, the document stored under its root.
pub fn resolve(key: &str, doc: Option<Json>) -> (r: Option<Json>)
    ensures
        opt_view(r) == read_doc(key@, opt_view(doc)),
{
    let parts = split_key(key);
    proof {
        lemma_path_of(parts, key@);
    }
    match doc {
        Some(d) => lookup_from(d, &parts, 1),
        None => None,
    }
}

/// Whether there is a value at `key`, given the document stored under its root.
pub fn contains(key: &str, doc: Option<Json>) -> (r: bool)
    ensures
        r == (read_doc(key@, opt_view(doc)) is Some),
{
    resolve(key, doc).is_some()
}

/// The change that stores `value` at `key`, given the document stored under its root.
pub fn plan_set(key: &str, doc: Option<Json>, value: Json) -> (r: RowChange)
    ensures
        r@ == set_change(key@, opt_view(doc), value@),
{
    let mut parts = split_key(key);
    proof {
        lemma_path_of(parts, key@);
    }
    let base = match doc {
        Some(d) => d,
        None => {
            let empty: Vec<Member> = Vec::new();
            proof {
                lemma_object_view(empty);
                assert(members_view(empty@) =~= Seq::<(Seq<char>, JsonTree)>::empty());
            }
            Json::Object(empty)
        },
    };
    let document = place_from(base, &parts, 1, value);
    let root = parts.swap_remove(0);
    RowChange::Put { root, document }
}

/// The change that deletes `key`, given the document stored under its root.
pub fn plan_delete(key: &str, doc: Option<Json>) -> (r: RowChange)
    ensures
        r@ == delete_change(key@, opt_view(doc)),
{
    let mut parts = split_key(key);
    proof {
        lemma_path_of(parts, key@);
    }
    if parts.len() == 1 {
        let root = parts.swap_remove(0);
        return RowChange::Remove { root };
    }
    let base = match doc {
        Some(d) => d,
        None => Json::Null,
    };
    let document = erase_from(base, &parts, 1);
    let root = parts.swap_remove(0);
    RowChange::Put { root, document }
}

/// The items of a value that is an array; none for any other value or none.
pub open spec fn array_items(v: Option<JsonTree>) -> Seq<JsonTree> {
    match v {
        Some(JsonTree::Array(items)) => items,
        _ => Seq::empty(),
    }
}

fn items_of(current: Option<Json>) -> (r: Vec<Json>)
    ensures
        items_view(r@) == array_items(opt_view(current)),
{
    match current {
        Some(Json::Array(items)) => {
            proof {
                lemma_array_view(items);
            }
            items
        },
        _ => {
            let empty: Vec<Json> = Vec::new();
            assert(items_view(empty@) =~= Seq::<JsonTree>::empty());
            empty
        },
    }
}

/// The array `current` with `x` appended; `[x]` where `current` is no array.
pub fn pushed(current: Option<Json>, x: Json) -> (r: Vec<Json>)
    ensures
        items_view(r@) == array_items(opt_view(current)).push(x@),
{
    let mut items = items_of(current);
    let ghost before = items_view(items@);
    items.push(x);
    assert(items_view(items@) =~= before.push(items@.last()@));
    items
}

/// The array `current` without any item equal to `x`, the others in their
/// order; empty where `current` is no array.
pub fn pulled(current: Option<Json>, x: &Json) -> (r: Vec<Json>)
    ensures
        items_view(r@) == array_items(opt_view(current)).filter(|e: JsonTree| e != x@),
{
    let mut rest = items_of(current);
    let ghost all = items_view(rest@);
    let ghost keep = |e: JsonTree| e != x@;
    let n = rest.len();
    let mut out: Vec<Json> = Vec::new();
    let mut i: usize = 0;
    proof {
        assert(all.subrange(0, 0).filter(keep) =~= Seq::<JsonTree>::empty()) by {
            reveal(Seq::filter);
        }
        assert(items_view(rest@) =~= all.subrange(0, n as int));
    }
    while i < n
        invariant
            i <= n,
            n == all.len(),
            rest@.len() == n - i,
            items_view(rest@) =~= all.subrange(i as int, n as int),
            items_view(out@) =~= all.subrange(0, i as int).filter(keep),
            keep == (|e: JsonTree| e != x@),
        decreases n - i,
    {
        let ghost r0 = items_view(rest@);
        let ghost o0 = items_view(out@);
        let e = rest.remove(0);
        proof {
            assert(r0[0] == all[i as int]);
            assert(items_view(rest@) =~= r0.subrange(1, r0.len() as int));
            assert(all.subrange(0, i as int + 1).drop_last() =~= all.subrange(0, i as int));
            reveal(Seq::filter);
        }
        if !json_equal(&e, x) {
            out.push(e);
            proof {
                assert(items_view(out@) =~= o0.push(all[i as int]));
            }
        }
        i = i + 1;
    }
    proof {
        assert(all.subrange(0, n as int) =~= all);
    }
    out
}

/// The change that clears the table.
pub fn plan_clear() -> (r: RowChange)
    ensures
        r@ == Change::Clear,
{
    RowChange::Clear
}

/// Stores `items` at `key` as an array and hands them back with the change.
fn store_items(key: &str, doc: Option<Json>, items: Vec<Json>) -> (r: (Vec<Json>, RowChange))
    ensures
        items_view(r.0@) == items_view(items@),
        r.1@ == set_change(key@, opt_view(doc), JsonTree::Array(items_view(items@))),
{
    proof {
        lemma_array_view(items);
    }
    let arr = Json::Array(items);
    let saved = copy_of(&arr);
    let change = plan_set(key, doc, arr);
    match saved {
        Json::Array(v) => {
            proof {
                lemma_array_view(v);
            }
            (v, change)
        },
        _ => (Vec::new(), change),
    }
}

/// The value at `key` without consuming `doc`.
fn resolve_ref(key: &str, doc: &Option<Json>) -> (r: Option<Json>)
    ensures
        opt_view(r) == read_doc(key@, opt_view(*doc)),
{
    match doc {
        Some(d) => resolve(key, Some(copy_of(d))),
        None => resolve(key, None),
    }
}

/// Appends `x` to the array at `key` (an empty one where there is no array):
/// the new array, and the change that stores it.
pub fn plan_push(key: &str, doc: Option<Json>, x: Json) -> (r: (Vec<Json>, RowChange))
    ensures
        items_view(r.0@) == array_items(read_doc(key@, opt_view(doc))).push(x@),
        r.1@ == set_change(key@, opt_view(doc), JsonTree::Array(items_view(r.0@))),
{
    let current = resolve_ref(key, &doc);
    let items = pushed(current, x);
    store_items(key, doc, items)
}

/// Removes every item equal to `x` from the array at `key` (an empty one
/// where there is no array): the new array, and the change that stores it.
pub fn plan_pull(key: &str, doc: Option<Json>, x: &Json) -> (r: (Vec<Json>, RowChange))
    ensures
        items_view(r.0@) == array_items(read_doc(key@, opt_view(doc))).filter(
            |e: JsonTree| e != x@,
        ),
        r.1@ == set_change(key@, opt_view(doc), JsonTree::Array(items_view(r.0@))),
{
    let current = resolve_ref(key, &doc);
    let items = pulled(current, x);
    store_items(key, doc, items)
}

/// A scanned row's value: its document, or null where its text is none.
pub open spec fn listed(doc: Option<JsonTree>) -> JsonTree {
    match doc {
        Some(d) => d,
        None => JsonTree::Null,
    }
}

/// The key and value of every scanned row, in scan order; a row whose text
/// does not decode is listed with null, never left out.
pub fn listing(rows: Vec<(String, Option<Json>)>) -> (r: Vec<(String, Json)>)
    ensures
        r@.len() == rows@.len(),
        forall|i: int|
            0 <= i < rows@.len() ==> r@[i].0@ == rows@[i].0@ && r@[i].1@ == listed(
                opt_view(rows@[i].1),
            ),
{
    let n = rows.len();
    let mut rest = rows;
    let mut out: Vec<(String, Json)> = Vec::new();
    let mut i: usize = 0;
    while i < n
        invariant
            i <= n == rows@.len(),
            rest@ == rows@.subrange(i as int, n as int),
            out@.len() == i,
            forall|j: int|
                0 <= j < i ==> out@[j].0@ == rows@[j].0@ && out@[j].1@ == listed(
                    opt_view(rows@[j].1),
                ),
        decreases n - i,
    {
        let (id, doc) = rest.remove(0);
        assert(rows@[i as int] == (id, doc));
        let value = match doc {
            Some(d) => d,
            None => Json::Null,
        };
        out.push((id, value));
        assert(rest@ =~= rows@.subrange(i as int + 1, n as int));
        i = i + 1;
    }
    out
}

} // verus!
