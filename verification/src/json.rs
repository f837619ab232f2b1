//! JSON trees: the form in which banks keep the bodies of sections and objects.

use vstd::prelude::*;

use crate::seqs::first_where;

verus! {

/// What a JSON tree says.
#[verifier::ext_equal]
pub enum JsonView {
    Null,
    Bool(bool),
    Unsigned(u64),
    Decimal(Seq<char>),
    Str(Seq<char>),
    Array(Seq<JsonView>),
    Object(Seq<(Seq<char>, JsonView)>),
}

/// A JSON tree.
#[derive(Debug)]
pub enum Json {
    Null,
    Bool(bool),
    /// An integer from zero to `u64::MAX`.
    Unsigned(u64),
    /// Any other number, by its JSON text.
    Decimal(String),
    Str(String),
    Array(Vec<Json>),
    /// The members in order.
    Object(Vec<(String, Json)>),
}

impl View for Json {
    type V = JsonView;

    open spec fn view(&self) -> JsonView {
        tree_view(*self)
    }
}

/// What a tree says.
pub open spec fn tree_view(tree: Json) -> JsonView
    decreases tree,
{
    match tree {
        Json::Null => JsonView::Null,
        Json::Bool(b) => JsonView::Bool(b),
        Json::Unsigned(n) => JsonView::Unsigned(n),
        Json::Decimal(t) => JsonView::Decimal(t@),
        Json::Str(s) => JsonView::Str(s@),
        Json::Array(items) => JsonView::Array(
            Seq::new(
                items@.len(),
                |i: int|
                    if 0 <= i < items@.len() {
                        tree_view(items@[i])
                    } else {
                        JsonView::Null
                    },
            ),
        ),
        Json::Object(members) => JsonView::Object(
            Seq::new(
                members@.len(),
                |i: int|
                    if 0 <= i < members@.len() {
                        (members@[i].0@, tree_view(members@[i].1))
                    } else {
                        (Seq::empty(), JsonView::Null)
                    },
            ),
        ),
    }
}

// ---------------------------------------------------------------------------
// Reading a tree
// ---------------------------------------------------------------------------
/// Is a member's name `key`?
pub open spec fn named(key: Seq<char>) -> spec_fn((Seq<char>, JsonView)) -> bool {
    |m: (Seq<char>, JsonView)| m.0 == key
}

/// The member of an object under `key`.
pub open spec fn member(v: JsonView, key: Seq<char>) -> Option<JsonView> {
    match v {
        JsonView::Object(members) => {
            let i = first_where(members, named(key));
            if 0 <= i < members.len() {
                Some(members[i].1)
            } else {
                None
            }
        },
        _ => None,
    }
}

/// What stands at the end of a path of member names.
pub open spec fn at(v: JsonView, path: Seq<Seq<char>>) -> Option<JsonView>
    decreases path.len(),
{
    if path.len() == 0 {
        Some(v)
    } else {
        match member(v, path[0]) {
            Some(inner) => at(inner, path.skip(1)),
            None => None,
        }
    }
}

/// The tree with `new` at the end of a path; the same tree if the path leads nowhere.
pub open spec fn put(v: JsonView, path: Seq<Seq<char>>, new: JsonView) -> JsonView
    decreases path.len(),
{
    if path.len() == 0 {
        new
    } else {
        match v {
            JsonView::Object(members) => {
                let i = first_where(members, named(path[0]));
                if 0 <= i < members.len() {
                    JsonView::Object(
                        members.update(i, (members[i].0, put(members[i].1, path.skip(1), new))),
                    )
                } else {
                    v
                }
            },
            _ => v,
        }
    }
}

/// A 32-bit number.
pub open spec fn as_u32(v: JsonView) -> Option<u32> {
    match v {
        JsonView::Unsigned(n) => if n <= u32::MAX {
            Some(n as u32)
        } else {
            None
        },
        _ => None,
    }
}

/// The 32-bit number at the end of a path.
pub open spec fn u32_at(v: JsonView, path: Seq<Seq<char>>) -> Option<u32> {
    match at(v, path) {
        Some(inner) => as_u32(inner),
        None => None,
    }
}

/// A list of 32-bit numbers.
pub open spec fn as_ids(v: JsonView) -> Option<Seq<u32>> {
    match v {
        JsonView::Array(items) => if forall|i: int|
            0 <= i < items.len() ==> as_u32(#[trigger] items[i]) is Some {
            Some(Seq::new(items.len(), |i: int| as_u32(items[i]).unwrap()))
        } else {
            None
        },
        _ => None,
    }
}

/// The list of 32-bit numbers at the end of a path.
pub open spec fn ids_at(v: JsonView, path: Seq<Seq<char>>) -> Option<Seq<u32>> {
    match at(v, path) {
        Some(inner) => as_ids(inner),
        None => None,
    }
}

/// A list of 32-bit numbers as a tree.
pub open spec fn ids_view(ids: Seq<u32>) -> JsonView {
    JsonView::Array(ids.map_values(|id: u32| JsonView::Unsigned(id as u64)))
}

/// A path of member names.
pub open spec fn path_view(path: Seq<&str>) -> Seq<Seq<char>> {
    path.map_values(|key: &str| key@)
}

/// A list of ids reads back from its tree.
pub proof fn lemma_ids_read_back(ids: Seq<u32>)
    ensures
        as_ids(ids_view(ids)) == Some(ids),
{
    let items = ids.map_values(|id: u32| JsonView::Unsigned(id as u64));
    assert(Seq::new(items.len(), |i: int| as_u32(items[i]).unwrap()) =~= ids);
}

/// What was put at the end of a path that leads somewhere is read there.
pub proof fn lemma_put_at(v: JsonView, path: Seq<Seq<char>>, new: JsonView)
    requires
        at(v, path) is Some,
    ensures
        at(put(v, path, new), path) == Some(new),
    decreases path.len(),
{
    if path.len() > 0 {
        if let JsonView::Object(members) = v {
            let p = named(path[0]);
            let i = first_where(members, p);
            crate::seqs::lemma_first_where_points(members, p);
            let changed = members.update(
                i,
                (members[i].0, put(members[i].1, path.skip(1), new)),
            );
            assert forall|k: int| 0 <= k < i implies !p(#[trigger] changed[k]) by {
                assert(changed[k] == members[k]);
                assert(!p(members[k]));
            }
            crate::seqs::lemma_first_where(changed, p, i);
            lemma_put_at(members[i].1, path.skip(1), new);
        }
    }
}

/// Putting something at the end of one path leaves what another path leads to, if the two part
/// before either ends.
pub proof fn lemma_put_elsewhere(
    v: JsonView,
    path: Seq<Seq<char>>,
    other: Seq<Seq<char>>,
    new: JsonView,
    fork: int,
)
    requires
        0 <= fork < path.len(),
        fork < other.len(),
        path[fork] != other[fork],
        forall|k: int| 0 <= k < fork ==> path[k] == other[k],
    ensures
        at(put(v, path, new), other) == at(v, other),
    decreases path.len(),
{
    if let JsonView::Object(members) = v {
        let p = named(path[0]);
        let q = named(other[0]);
        let i = first_where(members, p);
        let j = first_where(members, q);
        crate::seqs::lemma_first_where_points(members, p);
        crate::seqs::lemma_first_where_points(members, q);
        if i < members.len() {
            let changed = members.update(
                i,
                (members[i].0, put(members[i].1, path.skip(1), new)),
            );
            assert forall|k: int| 0 <= k < j implies !q(#[trigger] changed[k]) by {
                assert(!q(members[k]));
            }
            crate::seqs::lemma_first_where(changed, q, j);
            if fork > 0 {
                assert(path[0] == other[0]);
                assert(p =~= q);
                assert forall|k: int| 0 <= k < fork - 1 implies path.skip(1)[k] == other.skip(1)[k] by {
                    assert(path[k + 1] == other[k + 1]);
                }
                lemma_put_elsewhere(
                    members[i].1,
                    path.skip(1),
                    other.skip(1),
                    new,
                    fork - 1,
                );
            }
        }
    }
}

impl Json {
    /// A copy of the tree.
    pub fn dup(&self) -> (r: Json)
        ensures
            r@ == self@,
        decreases self,
    {
        match self {
            Json::Null => Json::Null,
            Json::Bool(b) => Json::Bool(*b),
            Json::Unsigned(n) => Json::Unsigned(*n),
            Json::Decimal(t) => Json::Decimal(t.clone()),
            Json::Str(t) => Json::Str(t.clone()),
            Json::Array(items) => {
                let mut out: Vec<Json> = Vec::new();
                let mut i: usize = 0;
                while i < items.len()
                    invariant
                        i <= items@.len(),
                        out@.len() == i,
                        forall|k: int| 0 <= k < i ==> (#[trigger] out@[k])@ == items@[k]@,
                        decreases_to!(self => items),
                    decreases items@.len() - i,
                {
                    assert(decreases_to!(items => items@));
                    assert(decreases_to!(items@ => items@[i as int]));
                    out.push(items[i].dup());
                    i = i + 1;
                }
                let r = Json::Array(out);
                assert(r@->Array_0 =~= self@->Array_0);
                r
            },
            Json::Object(members) => {
                let mut out: Vec<(String, Json)> = Vec::new();
                let mut i: usize = 0;
                while i < members.len()
                    invariant
                        i <= members@.len(),
                        out@.len() == i,
                        forall|k: int|
                            0 <= k < i ==> (#[trigger] out@[k]).0@ == members@[k].0@ && out@[k].1@
                                == members@[k].1@,
                        decreases_to!(self => members),
                    decreases members@.len() - i,
                {
                    assert(decreases_to!(members => members@));
                    assert(decreases_to!(members@ => members@[i as int]));
                    assert(decreases_to!(members@[i as int] => members@[i as int].1));
                    out.push((members[i].0.clone(), members[i].1.dup()));
                    i = i + 1;
                }
                let r = Json::Object(out);
                assert(r@->Object_0 =~= self@->Object_0);
                r
            },
        }
    }

    /// The member of an object under `key`.
    pub fn get(&self, key: &str) -> (r: Option<&Json>)
        ensures
            match r {
                Some(inner) => member(self@, key@) == Some(inner@),
                None => member(self@, key@) is None,
            },
    {
        match self {
            Json::Object(members) => {
                let i = index_of_key(members, key);
                if i < members.len() {
                    Some(&members[i].1)
                } else {
                    None
                }
            },
            _ => None,
        }
    }

    /// What stands at the end of a path of member names.
    pub fn at(&self, path: &Vec<&str>) -> (r: Option<&Json>)
        ensures
            match r {
                Some(inner) => at(self@, path_view(path@)) == Some(inner@),
                None => at(self@, path_view(path@)) is None,
            },
    {
        let mut here: &Json = self;
        let mut i: usize = 0;
        let ghost keys = path_view(path@);
        assert(keys.skip(0) =~= keys);
        while i < path.len()
            invariant
                i <= path@.len(),
                keys == path_view(path@),
                at(self@, keys) == at(here@, keys.skip(i as int)),
            decreases path@.len() - i,
        {
            assert(keys.skip(i as int).skip(1) =~= keys.skip(i + 1));
            match here.get(path[i]) {
                Some(inner) => {
                    here = inner;
                },
                None => {
                    return None;
                },
            }
            i = i + 1;
        }
        Some(here)
    }

    /// A number from zero to `u32::MAX`.
    pub fn as_u32(&self) -> (r: Option<u32>)
        ensures
            r == as_u32(self@),
    {
        match self {
            Json::Unsigned(n) => if *n <= 0xffff_ffff {
                Some(*n as u32)
            } else {
                None
            },
            _ => None,
        }
    }

    /// A list of numbers from zero to `u32::MAX`.
    pub fn as_ids(&self) -> (r: Option<Vec<u32>>)
        ensures
            match r {
                Some(ids) => as_ids(self@) == Some(ids@),
                None => as_ids(self@) is None,
            },
    {
        match self {
            Json::Array(items) => {
                let mut out: Vec<u32> = Vec::new();
                let mut i: usize = 0;
                let ghost views = self@->Array_0;
                while i < items.len()
                    invariant
                        i <= items@.len(),
                        out@.len() == i,
                        views.len() == items@.len(),
                        forall|k: int| 0 <= k < items@.len() ==> #[trigger] views[k] == items@[k]@,
                        forall|k: int| 0 <= k < i ==> as_u32(#[trigger] views[k]) == Some(out@[k]),
                        self@ == JsonView::Array(views),
                    decreases items@.len() - i,
                {
                    match items[i].as_u32() {
                        Some(n) => {
                            out.push(n);
                        },
                        None => {
                            assert(as_u32(views[i as int]) is None);
                            return None;
                        },
                    }
                    i = i + 1;
                }
                assert(Seq::new(views.len(), |k: int| as_u32(views[k]).unwrap()) =~= out@);
                Some(out)
            },
            _ => None,
        }
    }

    /// The number at the end of a path.
    pub fn u32_at(&self, path: &Vec<&str>) -> (r: Option<u32>)
        ensures
            r == u32_at(self@, path_view(path@)),
    {
        match self.at(path) {
            Some(inner) => inner.as_u32(),
            None => None,
        }
    }

    /// The list of numbers at the end of a path.
    pub fn ids_at(&self, path: &Vec<&str>) -> (r: Option<Vec<u32>>)
        ensures
            match r {
                Some(ids) => ids_at(self@, path_view(path@)) == Some(ids@),
                None => ids_at(self@, path_view(path@)) is None,
            },
    {
        match self.at(path) {
            Some(inner) => inner.as_ids(),
            None => None,
        }
    }

    /// A list of ids as a tree.
    pub fn from_ids(ids: &Vec<u32>) -> (r: Json)
        ensures
            r@ == ids_view(ids@),
    {
        let mut items: Vec<Json> = Vec::new();
        let mut i: usize = 0;
        while i < ids.len()
            invariant
                i <= ids@.len(),
                items@.len() == i,
                forall|k: int|
                    0 <= k < i ==> (#[trigger] items@[k])@ == JsonView::Unsigned(ids@[k] as u64),
            decreases ids@.len() - i,
        {
            items.push(Json::Unsigned(ids[i] as u64));
            i = i + 1;
        }
        let r = Json::Array(items);
        assert(r@->Array_0 =~= ids_view(ids@)->Array_0);
        r
    }

    /// The tree with `new` at the end of a path, from its step `from` on.
    pub fn put(self, path: &Vec<&str>, from: usize, new: Json) -> (r: Json)
        requires
            from <= path@.len(),
        ensures
            r@ == put(self@, path_view(path@).skip(from as int), new@),
        decreases path@.len() - from,
    {
        let ghost keys = path_view(path@).skip(from as int);
        if from == path.len() {
            return new;
        }
        assert(keys.skip(1) =~= path_view(path@).skip(from + 1));
        match self {
            Json::Object(mut members) => {
                let i = index_of_key(&members, path[from]);
                if i < members.len() {
                    let ghost before = members@;
                    let (key, inner) = members.remove(i);
                    let changed = inner.put(path, from + 1, new);
                    members.insert(i, (key, changed));
                    let r = Json::Object(members);
                    assert(members@ =~= before.update(i as int, (key, changed)));
                    assert(r@->Object_0 =~= put(self@, keys, new@)->Object_0);
                    r
                } else {
                    Json::Object(members)
                }
            },
            other => other,
        }
    }
}

/// The index of the first member under `key`, or the number of members.
fn index_of_key(members: &Vec<(String, Json)>, key: &str) -> (r: usize)
    ensures
        r == first_where(
            Json::Object(*members)@->Object_0,
            named(key@),
        ),
        r <= members@.len(),
{
    let ghost views = Json::Object(*members)@->Object_0;
    let ghost p = named(key@);
    let name = key.to_owned();
    let mut i: usize = 0;
    while i < members.len()
        invariant
            i <= members@.len(),
            views.len() == members@.len(),
            name@ == key@,
            p == named(key@),
            forall|k: int| 0 <= k < members@.len() ==> (#[trigger] views[k]).0 == members@[k].0@,
            forall|k: int| 0 <= k < i ==> !p(#[trigger] views[k]),
        ensures
            i <= members@.len(),
            i == members@.len() || p(views[i as int]),
            forall|k: int| 0 <= k < i ==> !p(#[trigger] views[k]),
        decreases members@.len() - i,
    {
        if members[i].0 == name {
            break;
        }
        i = i + 1;
    }
    proof {
        crate::seqs::lemma_first_where(views, p, i as int);
    }
    i
}

} // verus!
