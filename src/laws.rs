//! What holds of the store across operations.
use vstd::prelude::*;

use crate::json::{
    lemma_with_member_other, lemma_with_member_same, lemma_without_member_other,
    lemma_without_member_same, member_of, JsonTree,
};
use crate::path::{erase, lookup, place};
use crate::store::{
    after_delete, after_set, apply, field_path, holds, read, root_of, stored, Change, Table,
};

verus! {

/// Reading a path right after placing a value there gives that value.
pub proof fn lemma_lookup_place(d: JsonTree, p: Seq<Seq<char>>, v: JsonTree)
    ensures
        lookup(place(d, p, v), p) == Some(v),
    decreases p.len(),
{
    if p.len() > 0 {
        let ms = crate::path::object_members(d);
        let child = match member_of(ms, p[0]) {
            Some(c) => c,
            None => JsonTree::Object(Seq::empty()),
        };
        lemma_with_member_same(ms, p[0], place(child, p.drop_first(), v));
        lemma_lookup_place(child, p.drop_first(), v);
    }
}

/// Placing a value under one member leaves every path through another member as it was.
pub proof fn lemma_lookup_place_other(
    d: JsonTree,
    q: Seq<Seq<char>>,
    w: JsonTree,
    p: Seq<Seq<char>>,
)
    requires
        p.len() > 0,
        q.len() > 0,
        p[0] != q[0],
    ensures
        lookup(place(d, q, w), p) == lookup(d, p),
{
    let ms = crate::path::object_members(d);
    let child = match member_of(ms, q[0]) {
        Some(c) => c,
        None => JsonTree::Object(Seq::empty()),
    };
    lemma_with_member_other(ms, q[0], place(child, q.drop_first(), w), p[0]);
}

/// Reading a path right after erasing it finds nothing.
pub proof fn lemma_lookup_erase(d: JsonTree, p: Seq<Seq<char>>)
    requires
        p.len() > 0,
    ensures
        lookup(erase(d, p), p) is None,
    decreases p.len(),
{
    if let JsonTree::Object(ms) = d {
        if p.len() == 1 {
            lemma_without_member_same(ms, p[0]);
        } else if let Some(c) = member_of(ms, p[0]) {
            lemma_with_member_same(ms, p[0], erase(c, p.drop_first()));
            lemma_lookup_erase(c, p.drop_first());
        }
    }
}

/// Erasing one member leaves every path through another member as it was.
pub proof fn lemma_lookup_erase_other(d: JsonTree, f: Seq<char>, p: Seq<Seq<char>>)
    requires
        p.len() > 0,
        p[0] != f,
    ensures
        lookup(erase(d, seq![f]), p) == lookup(d, p),
{
    if let JsonTree::Object(ms) = d {
        lemma_without_member_other(ms, f, p[0]);
    }
}

/// `get(k)` right after `set(k, v)` gives `v`, so `has(k)` holds.
pub proof fn set_then_get(t: Table, key: Seq<char>, v: JsonTree)
    ensures
        read(after_set(t, key, v), key) == Some(v),
        holds(after_set(t, key, v), key),
{
    let base = match stored(t, root_of(key)) {
        Some(d) => d,
        None => JsonTree::Object(Seq::empty()),
    };
    lemma_lookup_place(base, field_path(key), v);
}

/// Setting a sibling field of the same root keeps a field set before it.
pub proof fn set_keeps_sibling(
    t: Table,
    key: Seq<char>,
    v: JsonTree,
    other: Seq<char>,
    w: JsonTree,
)
    requires
        root_of(key) == root_of(other),
        field_path(key).len() > 0,
        field_path(other).len() > 0,
        field_path(key)[0] != field_path(other)[0],
    ensures
        read(after_set(after_set(t, key, v), other, w), key) == Some(v),
{
    let t1 = after_set(t, key, v);
    set_then_get(t, key, v);
    let d1 = stored(t1, root_of(key)).unwrap();
    lemma_lookup_place_other(d1, field_path(other), w, field_path(key));
}

/// Deleting a field removes it and leaves every path through a sibling field,
/// and the root stays an object holding that sibling.
pub proof fn delete_keeps_sibling(t: Table, key: Seq<char>, other: Seq<char>)
    requires
        root_of(key) == root_of(other),
        field_path(key).len() == 1,
        field_path(other).len() > 0,
        field_path(key)[0] != field_path(other)[0],
    ensures
        read(after_delete(t, key), other) == read(t, other),
        read(after_delete(t, key), key) is None,
        field_path(other).len() == 1 && read(t, other) is Some ==> match stored(
            after_delete(t, key),
            root_of(key),
        ) {
            Some(JsonTree::Object(ms)) => member_of(ms, field_path(other)[0]) == read(t, other),
            _ => false,
        },
{
    let base = match stored(t, root_of(key)) {
        Some(d) => d,
        None => JsonTree::Null,
    };
    assert(field_path(key) =~= seq![field_path(key)[0]]);
    lemma_lookup_erase_other(base, field_path(key)[0], field_path(other));
    lemma_lookup_erase(base, field_path(key));
    if let JsonTree::Object(ms) = base {
        lemma_without_member_other(ms, field_path(key)[0], field_path(other)[0]);
        if field_path(other).len() == 1 {
            assert(field_path(other).drop_first().len() == 0);
            reveal_with_fuel(lookup, 2);
        }
    }
}

/// `has(k)` is false right after `delete(k)`, and before any write.
pub proof fn delete_then_absent(t: Table, key: Seq<char>)
    ensures
        !holds(after_delete(t, key), key),
        !holds(Map::empty(), key),
{
    if field_path(key).len() > 0 {
        let base = match stored(t, root_of(key)) {
            Some(d) => d,
            None => JsonTree::Null,
        };
        lemma_lookup_erase(base, field_path(key));
    }
}

/// After clearing, no key holds a value and no row is left.
pub proof fn clear_empties(t: Table, key: Seq<char>)
    ensures
        !holds(apply(t, Change::Clear), key),
        apply(t, Change::Clear).dom() == Set::<Seq<char>>::empty(),
{
}

/// Setting two keys with different roots and no field keeps a row for each.
pub proof fn set_two_roots(t: Table, a: Seq<char>, v: JsonTree, b: Seq<char>, w: JsonTree)
    requires
        root_of(a) != root_of(b),
        field_path(a).len() == 0,
        field_path(b).len() == 0,
    ensures
        after_set(after_set(t, a, v), b, w).dom().contains(root_of(a)),
        after_set(after_set(t, a, v), b, w)[root_of(a)] == Some(v),
        after_set(after_set(t, a, v), b, w)[root_of(b)] == Some(w),
{
}

/// A write or a delete under one root leaves every key under another root as it was.
pub proof fn writes_keep_other_roots(t: Table, key: Seq<char>, v: JsonTree, other: Seq<char>)
    requires
        root_of(key) != root_of(other),
    ensures
        read(after_set(t, key, v), other) == read(t, other),
        read(after_delete(t, key), other) == read(t, other),
{
}

} // verus!
