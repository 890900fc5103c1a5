use vstd::prelude::*;

verus! {

/// A JSON tree as the store's logic sees it.
///
/// Numbers are kept as their canonical decimal text, so that two numbers
/// compare equal exactly when they print the same.  Object members keep
/// their order; a name that occurs twice is looked up at its first place.
#[derive(Debug)]
pub enum Json {
    Null,
    Bool(bool),
    Number(String),
    Text(String),
    Array(Vec<Json>),
    Object(Vec<Member>),
}

/// One named member of an object.
#[derive(Debug)]
pub struct Member {
    pub name: String,
    pub value: Json,
}

/// The mathematical value of a [`Json`].
pub enum JsonTree {
    Null,
    Bool(bool),
    Number(Seq<char>),
    Text(Seq<char>),
    Array(Seq<JsonTree>),
    Object(Seq<(Seq<char>, JsonTree)>),
}

impl View for Json {
    type V = JsonTree;

    open spec fn view(&self) -> JsonTree
        decreases self,
    {
        match self {
            Json::Null => JsonTree::Null,
            Json::Bool(b) => JsonTree::Bool(*b),
            Json::Number(n) => JsonTree::Number(n@),
            Json::Text(s) => JsonTree::Text(s@),
            Json::Array(items) => JsonTree::Array(
                Seq::new(
                    items@.len(),
                    |i: int| if 0 <= i < items@.len() { items@[i].view() } else { JsonTree::Null },
                ),
            ),
            Json::Object(members) => JsonTree::Object(
                Seq::new(
                    members@.len(),
                    |i: int|
                        if 0 <= i < members@.len() {
                            (members@[i].name@, members@[i].value.view())
                        } else {
                            (Seq::empty(), JsonTree::Null)
                        },
                ),
            ),
        }
    }
}


/// A member list seen as pairs of name and value.
pub type Members = Seq<(Seq<char>, JsonTree)>;

/// The model of a vector of values.
pub open spec fn items_view(items: Seq<Json>) -> Seq<JsonTree> {
    Seq::new(items.len(), |i: int| items[i]@)
}

/// The model of a member vector.
pub open spec fn members_view(ms: Seq<Member>) -> Members {
    Seq::new(ms.len(), |i: int| (ms[i].name@, ms[i].value@))
}

/// An array's model is the models of its items.
pub proof fn lemma_array_view(items: Vec<Json>)
    ensures
        Json::Array(items)@ == JsonTree::Array(items_view(items@)),
{
    reveal_with_fuel(<Json as View>::view, 2);
    assert(Json::Array(items)@->Array_0 =~= items_view(items@));
}

/// An object's model is the models of its members.
pub proof fn lemma_object_view(ms: Vec<Member>)
    ensures
        Json::Object(ms)@ == JsonTree::Object(members_view(ms@)),
{
    reveal_with_fuel(<Json as View>::view, 2);
    assert(Json::Object(ms)@->Object_0 =~= members_view(ms@));
}

/// `i` is the first place at which a member is called `name`.
pub open spec fn first_named(ms: Members, name: Seq<char>, i: int) -> bool {
    &&& 0 <= i < ms.len()
    &&& ms[i].0 == name
    &&& forall|j: int| 0 <= j < i ==> ms[j].0 != name
}

/// The first place of a member called `name`, or -1 where there is none.
pub open spec fn index_of(ms: Members, name: Seq<char>) -> int {
    if exists|i: int| first_named(ms, name, i) {
        choose|i: int| first_named(ms, name, i)
    } else {
        -1
    }
}

/// The value of the member called `name`.
pub open spec fn member_of(ms: Members, name: Seq<char>) -> Option<JsonTree> {
    let k = index_of(ms, name);
    if k >= 0 {
        Some(ms[k].1)
    } else {
        None
    }
}

/// The members with `name` bound to `v`: in place where it is bound, else at the end.
pub open spec fn with_member(ms: Members, name: Seq<char>, v: JsonTree) -> Members {
    let k = index_of(ms, name);
    if k >= 0 {
        ms.update(k, (name, v))
    } else {
        ms.push((name, v))
    }
}

/// The members other than those called `name`.
pub open spec fn without_member(ms: Members, name: Seq<char>) -> Members {
    ms.filter(not_named(name))
}

/// Holds of a member not called `name`.
pub open spec fn not_named(name: Seq<char>) -> spec_fn((Seq<char>, JsonTree)) -> bool {
    |m: (Seq<char>, JsonTree)| m.0 != name
}

/// A first place of `name` is the one that `index_of` gives.
pub proof fn lemma_index_of_first(ms: Members, name: Seq<char>, i: int)
    requires
        first_named(ms, name, i),
    ensures
        index_of(ms, name) == i,
{
    let k = choose|k: int| first_named(ms, name, k);
    assert(first_named(ms, name, k));
    if k < i {
        assert(ms[k].0 != name);
    } else if i < k {
        assert(ms[i].0 != name);
    }
}

/// `index_of` gives a place called `name`, or -1 where no place is.
pub proof fn lemma_index_of_range(ms: Members, name: Seq<char>)
    ensures
        -1 <= index_of(ms, name) < ms.len(),
        index_of(ms, name) >= 0 ==> ms[index_of(ms, name)].0 == name,
        index_of(ms, name) == -1 ==> forall|j: int| 0 <= j < ms.len() ==> ms[j].0 != name,
{
    if index_of(ms, name) == -1 {
        assert forall|j: int| 0 <= j < ms.len() implies ms[j].0 != name by {
            if ms[j].0 == name {
                lemma_some_first_named(ms, name, j);
            }
        }
    }
}

/// Where some member is called `name`, a first one is.
proof fn lemma_some_first_named(ms: Members, name: Seq<char>, j: int)
    requires
        0 <= j < ms.len(),
        ms[j].0 == name,
    ensures
        exists|i: int| first_named(ms, name, i),
    decreases j,
{
    if exists|k: int| 0 <= k < j && ms[k].0 == name {
        let k = choose|k: int| 0 <= k < j && ms[k].0 == name;
        lemma_some_first_named(ms, name, k);
    } else {
        assert(first_named(ms, name, j));
    }
}

/// After binding `name` to `w`, the member called `name` is `w`.
pub proof fn lemma_with_member_same(ms: Members, name: Seq<char>, w: JsonTree)
    ensures
        member_of(with_member(ms, name, w), name) == Some(w),
{
    let k = index_of(ms, name);
    lemma_index_of_range(ms, name);
    let ms2 = with_member(ms, name, w);
    if k >= 0 {
        assert(first_named(ms, name, k));
        assert(first_named(ms2, name, k));
        lemma_index_of_first(ms2, name, k);
    } else {
        assert(first_named(ms2, name, ms.len() as int));
        lemma_index_of_first(ms2, name, ms.len() as int);
    }
}

/// Binding `name` leaves the member called `other` as it was.
pub proof fn lemma_with_member_other(ms: Members, name: Seq<char>, w: JsonTree, other: Seq<char>)
    requires
        other != name,
    ensures
        member_of(with_member(ms, name, w), other) == member_of(ms, other),
{
    let k = index_of(ms, name);
    lemma_index_of_range(ms, name);
    if k >= 0 {
        assert(first_named(ms, name, k));
    }
    let ms2 = with_member(ms, name, w);
    let k2 = index_of(ms, other);
    lemma_index_of_range(ms, other);
    lemma_index_of_range(ms2, other);
    if k2 >= 0 {
        assert(first_named(ms, other, k2));
        assert(first_named(ms2, other, k2));
        lemma_index_of_first(ms2, other, k2);
    } else {
        if index_of(ms2, other) >= 0 {
            let j = index_of(ms2, other);
            assert(ms2[j].0 == other);
        }
    }
}

/// The member called `o` of `s` with `x` appended.
pub proof fn lemma_member_of_push(s: Members, x: (Seq<char>, JsonTree), o: Seq<char>)
    ensures
        member_of(s.push(x), o) == if member_of(s, o) is Some {
            member_of(s, o)
        } else if x.0 == o {
            Some(x.1)
        } else {
            None
        },
{
    let t = s.push(x);
    let k = index_of(s, o);
    lemma_index_of_range(s, o);
    lemma_index_of_range(t, o);
    if k >= 0 {
        assert(first_named(s, o, k));
        assert(first_named(t, o, k));
        lemma_index_of_first(t, o, k);
    } else if x.0 == o {
        assert(first_named(t, o, s.len() as int));
        lemma_index_of_first(t, o, s.len() as int);
    } else {
        if index_of(t, o) >= 0 {
            assert(t[index_of(t, o)].0 == o);
        }
    }
}

/// Removing the members called `name` leaves the member called `other`.
pub proof fn lemma_without_member_other(ms: Members, name: Seq<char>, other: Seq<char>)
    requires
        other != name,
    ensures
        member_of(without_member(ms, name), other) == member_of(ms, other),
    decreases ms.len(),
{
    let keep = not_named(name);
    reveal(Seq::filter);
    if ms.len() > 0 {
        let init = ms.drop_last();
        lemma_without_member_other(init, name, other);
        assert(ms =~= init.push(ms.last()));
        lemma_member_of_push(init, ms.last(), other);
        assert(ms.filter(keep) == if keep(ms.last()) {
            init.filter(keep).push(ms.last())
        } else {
            init.filter(keep)
        });
        if keep(ms.last()) {
            lemma_member_of_push(init.filter(keep), ms.last(), other);
        }
    }
}

/// After removing the members called `name`, none is called `name`.
pub proof fn lemma_without_member_same(ms: Members, name: Seq<char>)
    ensures
        member_of(without_member(ms, name), name) is None,
{
    let keep = not_named(name);
    let f = ms.filter(keep);
    lemma_index_of_range(f, name);
    if index_of(f, name) >= 0 {
        ms.lemma_filter_pred(keep, index_of(f, name));
    }
}

/// Where the first member called `name` stands.
pub fn find_member(ms: &Vec<Member>, name: &String) -> (r: Option<usize>)
    ensures
        match r {
            Some(k) => k as int == index_of(members_view(ms@), name@),
            None => index_of(members_view(ms@), name@) == -1,
        },
{
    let ghost mv = members_view(ms@);
    let mut i: usize = 0;
    while i < ms.len()
        invariant
            i <= ms.len(),
            mv == members_view(ms@),
            forall|j: int| 0 <= j < i ==> mv[j].0 != name@,
        decreases ms.len() - i,
    {
        if ms[i].name == *name {
            proof {
                lemma_index_of_first(mv, name@, i as int);
            }
            return Some(i);
        }
        i = i + 1;
    }
    proof {
        lemma_index_of_range(mv, name@);
        if index_of(mv, name@) != -1 {
            assert(mv[index_of(mv, name@)].0 == name@);
        }
    }
    None
}


/// The model of an optional value.
pub open spec fn opt_view(o: Option<Json>) -> Option<JsonTree> {
    match o {
        Some(j) => Some(j@),
        None => None,
    }
}

/// Takes the value of the first member called `name` out of `ms`.
pub fn take_member(ms: Vec<Member>, name: &String) -> (r: Option<Json>)
    ensures
        opt_view(r) == member_of(members_view(ms@), name@),
{
    let mut ms = ms;
    match find_member(&ms, name) {
        Some(k) => {
            let m = ms.remove(k);
            Some(m.value)
        },
        None => None,
    }
}

/// The members of `ms` that are not called `name`, in their order.
pub fn drop_members(ms: Vec<Member>, name: &String) -> (r: Vec<Member>)
    ensures
        members_view(r@) == without_member(members_view(ms@), name@),
{
    let ghost all = members_view(ms@);
    let ghost keep = not_named(name@);
    let n = ms.len();
    let mut rest = ms;
    let mut out: Vec<Member> = Vec::new();
    let mut i: usize = 0;
    proof {
        assert(all.subrange(0, 0).filter(keep) =~= Seq::<(Seq<char>, JsonTree)>::empty()) by {
            reveal(Seq::filter);
        }
        assert(members_view(rest@) =~= all.subrange(0, n as int));
    }
    while i < n
        invariant
            i <= n,
            n == all.len(),
            rest@.len() == n - i,
            members_view(rest@) =~= all.subrange(i as int, n as int),
            members_view(out@) =~= all.subrange(0, i as int).filter(keep),
            keep == not_named(name@),
        decreases n - i,
    {
        let ghost r0 = members_view(rest@);
        let ghost o0 = members_view(out@);
        let m = rest.remove(0);
        proof {
            assert(r0[0] == all[i as int]);
            assert(all[i as int] == (m.name@, m.value@));
            assert(members_view(rest@) =~= r0.subrange(1, r0.len() as int));
            assert(all.subrange(0, i as int + 1).drop_last() =~= all.subrange(0, i as int));
            reveal(Seq::filter);
        }
        if m.name != *name {
            out.push(m);
            proof {
                assert(members_view(out@) =~= o0.push(all[i as int]));
            }
        }
        i = i + 1;
    }
    proof {
        assert(all.subrange(0, n as int) =~= all);
    }
    out
}


/// Whether two values are the same tree: same kind, same contents, and for
/// arrays and objects the same entries in the same order.
pub fn json_equal(a: &Json, b: &Json) -> (r: bool)
    ensures
        r == (a@ == b@),
    decreases a,
{
    match (a, b) {
        (Json::Null, Json::Null) => true,
        (Json::Bool(x), Json::Bool(y)) => *x == *y,
        (Json::Number(x), Json::Number(y)) => *x == *y,
        (Json::Text(x), Json::Text(y)) => *x == *y,
        (Json::Array(x), Json::Array(y)) => {
            proof {
                lemma_array_view(*x);
                lemma_array_view(*y);
                assert(*a == Json::Array(*x));
                assert(*b == Json::Array(*y));
            }
            if x.len() != y.len() {
                assert(items_view(x@).len() != items_view(y@).len());
                return false;
            }
            let mut i: usize = 0;
            while i < x.len()
                invariant
                    i <= x.len() == y.len(),
                    forall|j: int| 0 <= j < i ==> x@[j]@ == y@[j]@,
                    *a == Json::Array(*x),
                    a@ == JsonTree::Array(items_view(x@)),
                    b@ == JsonTree::Array(items_view(y@)),
                decreases x.len() - i,
            {
                assert(decreases_to!(*a => *x));
                assert(decreases_to!(*x => x[i as int]));
                if !json_equal(&x[i], &y[i]) {
                    assert(items_view(x@)[i as int] != items_view(y@)[i as int]);
                    return false;
                }
                i = i + 1;
            }
            assert(items_view(x@) =~= items_view(y@));
            true
        },
        (Json::Object(x), Json::Object(y)) => {
            proof {
                lemma_object_view(*x);
                lemma_object_view(*y);
                assert(*a == Json::Object(*x));
                assert(*b == Json::Object(*y));
            }
            if x.len() != y.len() {
                assert(members_view(x@).len() != members_view(y@).len());
                return false;
            }
            let mut i: usize = 0;
            while i < x.len()
                invariant
                    i <= x.len() == y.len(),
                    forall|j: int|
                        0 <= j < i ==> x@[j].name@ == y@[j].name@ && x@[j].value@ == y@[j].value@,
                    *a == Json::Object(*x),
                    a@ == JsonTree::Object(members_view(x@)),
                    b@ == JsonTree::Object(members_view(y@)),
                decreases x.len() - i,
            {
                assert(decreases_to!(*a => *x));
                assert(decreases_to!(*x => x[i as int]));
                assert(decreases_to!(x[i as int] => x[i as int].value));
                if x[i].name != y[i].name || !json_equal(&x[i].value, &y[i].value) {
                    assert(members_view(x@)[i as int] != members_view(y@)[i as int]);
                    return false;
                }
                i = i + 1;
            }
            assert(members_view(x@) =~= members_view(y@));
            true
        },
        _ => false,
    }
}


/// A copy of `a`, equal to it as a tree.
pub fn copy_of(a: &Json) -> (r: Json)
    ensures
        r@ == a@,
    decreases a,
{
    match a {
        Json::Null => Json::Null,
        Json::Bool(x) => Json::Bool(*x),
        Json::Number(x) => Json::Number(x.clone()),
        Json::Text(x) => Json::Text(x.clone()),
        Json::Array(x) => {
            let mut out: Vec<Json> = Vec::new();
            let mut i: usize = 0;
            while i < x.len()
                invariant
                    i <= x.len(),
                    out@.len() == i,
                    forall|j: int| 0 <= j < i ==> out@[j]@ == x@[j]@,
                    *a == Json::Array(*x),
                decreases x.len() - i,
            {
                assert(decreases_to!(*a => a->Array_0));
                assert(decreases_to!(*x => x[i as int]));
                let e = copy_of(&x[i]);
                out.push(e);
                i = i + 1;
            }
            proof {
                lemma_array_view(*x);
                lemma_array_view(out);
                assert(items_view(out@) =~= items_view(x@));
            }
            Json::Array(out)
        },
        Json::Object(x) => {
            let mut out: Vec<Member> = Vec::new();
            let mut i: usize = 0;
            while i < x.len()
                invariant
                    i <= x.len(),
                    out@.len() == i,
                    forall|j: int|
                        0 <= j < i ==> out@[j].name@ == x@[j].name@ && out@[j].value@ == x@[j].value@,
                    *a == Json::Object(*x),
                decreases x.len() - i,
            {
                assert(decreases_to!(*a => a->Object_0));
                assert(decreases_to!(*x => x[i as int]));
                assert(decreases_to!(x[i as int] => x[i as int].value));
                let value = copy_of(&x[i].value);
                out.push(Member { name: x[i].name.clone(), value });
                i = i + 1;
            }
            proof {
                lemma_object_view(*x);
                lemma_object_view(out);
                assert(members_view(out@) =~= members_view(x@));
            }
            Json::Object(out)
        },
    }
}

} // verus!
