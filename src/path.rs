use vstd::prelude::*;

use crate::json::{
    drop_members, lemma_object_view, member_of, members_view, opt_view, take_member,
    with_member, without_member, Json, JsonTree, Member, Members,
};

verus! {

/// The segments of a dotted key: the text between the dots, in order.
/// A key without a dot is one segment; every key has at least one.
pub open spec fn segments(s: Seq<char>) -> Seq<Seq<char>>
    decreases s.len(),
{
    if s.len() == 0 {
        seq![Seq::empty()]
    } else {
        let prev = segments(s.drop_last());
        if s.last() == '.' {
            prev.push(Seq::empty())
        } else {
            prev.update(prev.len() - 1, prev.last().push(s.last()))
        }
    }
}

/// Every key has a segment.
pub proof fn lemma_segments_len(s: Seq<char>)
    ensures
        segments(s).len() >= 1,
    decreases s.len(),
{
    if s.len() > 0 {
        lemma_segments_len(s.drop_last());
    }
}

/// The texts of a vector of strings.
pub open spec fn texts(v: Seq<String>) -> Seq<Seq<char>> {
    v.map_values(|s: String| s@)
}

/// Splits `key` at every dot.
pub fn split_key(key: &str) -> (r: Vec<String>)
    ensures
        texts(r@) == segments(key@),
        r@.len() >= 1,
{
    let n = key.unicode_len();
    let mut parts: Vec<String> = Vec::new();
    let mut start: usize = 0;
    let mut i: usize = 0;
    proof {
        assert(key@.subrange(0, 0) =~= Seq::<char>::empty());
        assert(texts(parts@).push(key@.subrange(0, 0)) =~= seq![Seq::<char>::empty()]);
    }
    while i < n
        invariant
            n == key@.len(),
            start <= i <= n,
            segments(key@.subrange(0, i as int)) == texts(parts@).push(
                key@.subrange(start as int, i as int),
            ),
        decreases n - i,
    {
        let c = key.get_char(i);
        let ghost prev = segments(key@.subrange(0, i as int));
        proof {
            assert(key@.subrange(0, i as int + 1).drop_last() =~= key@.subrange(0, i as int));
            assert(key@.subrange(0, i as int + 1).last() == c);
        }
        if c == '.' {
            let part = key.substring_char(start, i).to_owned();
            let ghost before = parts@;
            parts.push(part);
            proof {
                assert(texts(parts@) =~= texts(before).push(key@.subrange(start as int, i as int)));
                assert(key@.subrange(i as int + 1, i as int + 1) =~= Seq::<char>::empty());
            }
            start = i + 1;
        } else {
            proof {
                assert(key@.subrange(start as int, i as int).push(c) =~= key@.subrange(
                    start as int,
                    i as int + 1,
                ));
                assert(prev.update(prev.len() - 1, prev.last().push(c)) =~= texts(parts@).push(
                    key@.subrange(start as int, i as int + 1),
                ));
            }
        }
        i = i + 1;
    }
    let last = key.substring_char(start, n).to_owned();
    let ghost before = parts@;
    parts.push(last);
    proof {
        assert(key@.subrange(0, n as int) =~= key@);
        assert(texts(parts@) =~= texts(before).push(key@.subrange(start as int, n as int)));
    }
    parts
}

/// The members of a document that is an object; none for any other document.
pub open spec fn object_members(doc: JsonTree) -> Members {
    match doc {
        JsonTree::Object(ms) => ms,
        _ => Seq::empty(),
    }
}

/// The value that `path` reaches in `doc`, descending through object members.
pub open spec fn lookup(doc: JsonTree, path: Seq<Seq<char>>) -> Option<JsonTree>
    decreases path.len(),
{
    if path.len() == 0 {
        Some(doc)
    } else {
        match doc {
            JsonTree::Object(ms) => match member_of(ms, path[0]) {
                Some(child) => lookup(child, path.drop_first()),
                None => None,
            },
            _ => None,
        }
    }
}

/// `doc` with `v` placed at `path`.  On the way down, a member that is
/// missing, or a document that is no object, becomes an empty object;
/// every other member is kept.
pub open spec fn place(doc: JsonTree, path: Seq<Seq<char>>, v: JsonTree) -> JsonTree
    decreases path.len(),
{
    if path.len() == 0 {
        v
    } else {
        let ms = object_members(doc);
        let child = match member_of(ms, path[0]) {
            Some(c) => c,
            None => JsonTree::Object(Seq::empty()),
        };
        JsonTree::Object(with_member(ms, path[0], place(child, path.drop_first(), v)))
    }
}

/// `doc` without the member that a non-empty `path` names; unchanged where
/// the path does not lead through objects to it.
pub open spec fn erase(doc: JsonTree, path: Seq<Seq<char>>) -> JsonTree
    decreases path.len(),
{
    if path.len() == 0 {
        doc
    } else {
        match doc {
            JsonTree::Object(ms) => if path.len() == 1 {
                JsonTree::Object(without_member(ms, path[0]))
            } else {
                match member_of(ms, path[0]) {
                    Some(child) => JsonTree::Object(
                        with_member(ms, path[0], erase(child, path.drop_first())),
                    ),
                    None => doc,
                }
            },
            _ => doc,
        }
    }
}

/// The segments of `path` from `from` on.
pub open spec fn tail(path: Seq<String>, from: int) -> Seq<Seq<char>> {
    texts(path).subrange(from, path.len() as int)
}

/// Stepping one segment down the path.
proof fn lemma_tail_step(path: Seq<String>, from: int)
    requires
        0 <= from < path.len(),
    ensures
        tail(path, from).len() > 0,
        tail(path, from)[0] == path[from]@,
        tail(path, from).drop_first() == tail(path, from + 1),
{
    assert(tail(path, from).drop_first() =~= tail(path, from + 1));
}

/// The value that the segments of `path` from `from` on reach in `doc`.
pub fn lookup_from(doc: Json, path: &Vec<String>, from: usize) -> (r: Option<Json>)
    requires
        from <= path.len(),
    ensures
        opt_view(r) == lookup(doc@, tail(path@, from as int)),
    decreases path.len() - from,
{
    if from == path.len() {
        assert(tail(path@, from as int).len() == 0);
        return Some(doc);
    }
    proof {
        lemma_tail_step(path@, from as int);
    }
    match doc {
        Json::Object(ms) => {
            proof {
                lemma_object_view(ms);
            }
            match take_member(ms, &path[from]) {
                Some(child) => lookup_from(child, path, from + 1),
                None => None,
            }
        },
        _ => None,
    }
}

/// `doc` with `v` placed at the segments of `path` from `from` on.
pub fn place_from(doc: Json, path: &Vec<String>, from: usize, v: Json) -> (r: Json)
    requires
        from <= path.len(),
    ensures
        r@ == place(doc@, tail(path@, from as int), v@),
    decreases path.len() - from,
{
    if from == path.len() {
        assert(tail(path@, from as int).len() == 0);
        return v;
    }
    proof {
        lemma_tail_step(path@, from as int);
    }
    let mut ms: Vec<Member> = match doc {
        Json::Object(ms) => {
            proof {
                lemma_object_view(ms);
            }
            ms
        },
        _ => Vec::new(),
    };
    assert(members_view(ms@) == object_members(doc@));
    let name = path[from].clone();
    let ghost before = members_view(ms@);
    match crate::json::find_member(&ms, &name) {
        Some(k) => {
            let m = ms.remove(k);
            let value = place_from(m.value, path, from + 1, v);
            let ghost nv = value@;
            ms.insert(k, Member { name, value });
            assert(members_view(ms@) =~= before.update(k as int, (path@[from as int]@, nv)));
        },
        None => {
            let empty: Vec<Member> = Vec::new();
            proof {
                lemma_object_view(empty);
                assert(members_view(empty@) =~= Seq::<(Seq<char>, JsonTree)>::empty());
            }
            let value = place_from(Json::Object(empty), path, from + 1, v);
            let ghost nv = value@;
            ms.push(Member { name, value });
            assert(members_view(ms@) =~= before.push((path@[from as int]@, nv)));
        },
    }
    proof {
        lemma_object_view(ms);
    }
    Json::Object(ms)
}

/// `doc` without the member that the segments of `path` from `from` on name.
pub fn erase_from(doc: Json, path: &Vec<String>, from: usize) -> (r: Json)
    requires
        from < path.len(),
    ensures
        r@ == erase(doc@, tail(path@, from as int)),
    decreases path.len() - from,
{
    proof {
        lemma_tail_step(path@, from as int);
    }
    match doc {
        Json::Object(ms) => {
            proof {
                lemma_object_view(ms);
            }
            let mut ms = ms;
            let ghost before = members_view(ms@);
            if from + 1 == path.len() {
                let kept = drop_members(ms, &path[from]);
                proof {
                    lemma_object_view(kept);
                }
                return Json::Object(kept);
            }
            match crate::json::find_member(&ms, &path[from]) {
                Some(k) => {
                    let m = ms.remove(k);
                    let value = erase_from(m.value, path, from + 1);
                    let ghost nv = value@;
                    ms.insert(k, Member { name: m.name, value });
                    assert(members_view(ms@) =~= before.update(
                        k as int,
                        (path@[from as int]@, nv),
                    ));
                    proof {
                        lemma_object_view(ms);
                    }
                    Json::Object(ms)
                },
                None => {
                    proof {
                        lemma_object_view(ms);
                    }
                    Json::Object(ms)
                },
            }
        },
        _ => doc,
    }
}

} // verus!
