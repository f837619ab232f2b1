//! Objects of a bank by their hashes.

use std::collections::HashMap;

use vstd::prelude::*;

use crate::bank::{
    any_named, has_hash, main_objects, objects_view, resolved, HIRCObject, ObjectData, Soundbank,
};
use crate::ids::{hash_name, id_hash, parse_decimal, parse_hex};

verus! {

broadcast use vstd::std_specs::hash::group_hash_axioms;

/// The last object with this hash.
pub open spec fn last_with(objects: Seq<ObjectData>, hash: u32) -> Option<ObjectData>
    decreases objects.len(),
{
    if objects.len() == 0 {
        None
    } else if id_hash(objects.last().id) == hash {
        Some(objects.last())
    } else {
        last_with(objects.drop_last(), hash)
    }
}

/// A hash is there exactly if there is a last object with it.
pub proof fn lemma_last_with(objects: Seq<ObjectData>, hash: u32)
    ensures
        has_hash(objects, hash) == (last_with(objects, hash) is Some),
        last_with(objects, hash) matches Some(o) ==> id_hash(o.id) == hash && objects.contains(o),
    decreases objects.len(),
{
    if objects.len() > 0 {
        let front = objects.drop_last();
        lemma_last_with(front, hash);
        if id_hash(objects.last().id) == hash {
            assert(objects[objects.len() - 1] == objects.last());
        } else {
            if has_hash(objects, hash) {
                let i = choose|i: int|
                    0 <= i < objects.len() && id_hash((#[trigger] objects[i]).id) == hash;
                assert(front[i] == objects[i]);
            }
            if let Some(o) = last_with(front, hash) {
                let k = choose|k: int| 0 <= k < front.len() && front[k] == o;
                assert(objects[k] == o);
            }
        }
    }
}

/// An object behind which no other has its hash is the last with it.
pub proof fn lemma_last_with_at(objects: Seq<ObjectData>, hash: u32, i: int)
    requires
        0 <= i < objects.len(),
        id_hash(objects[i].id) == hash,
        forall|k: int| i < k < objects.len() ==> id_hash((#[trigger] objects[k]).id) != hash,
    ensures
        last_with(objects, hash) == Some(objects[i]),
    decreases objects.len(),
{
    if i < objects.len() - 1 {
        assert(objects.last() == objects[objects.len() - 1]);
        assert(objects.drop_last()[i] == objects[i]);
        lemma_last_with_at(objects.drop_last(), hash, i);
    }
}

/// Does the map point at the last object of each hash, among the first `n`?
pub open spec fn points_at_last(
    by_hash: Map<u32, usize>,
    objects: Seq<ObjectData>,
    n: int,
) -> bool {
    &&& forall|h: u32| #[trigger]
        by_hash.contains_key(h) ==> by_hash[h] < n && id_hash(objects[by_hash[h] as int].id) == h
    &&& forall|k: int|
        0 <= k < n ==> by_hash.contains_key(id_hash((#[trigger] objects[k]).id))
            && k <= by_hash[id_hash(objects[k].id)]
}

/// The objects of the first section with objects, by their hashes. Of objects with the same hash
/// it knows the last.
#[derive(Debug)]
pub struct HircIndex<'a> {
    objects: Option<&'a Vec<HIRCObject>>,
    by_hash: HashMap<u32, usize>,
}

impl<'a> HircIndex<'a> {
    closed spec fn content(self) -> Seq<ObjectData> {
        match self.objects {
            Some(objects) => objects_view(objects@),
            None => Seq::empty(),
        }
    }

    #[verifier::type_invariant]
    closed spec fn complete(self) -> bool {
        points_at_last(self.by_hash@, self.content(), self.content().len() as int)
    }
}

impl<'a> View for HircIndex<'a> {
    type V = Seq<ObjectData>;

    closed spec fn view(&self) -> Seq<ObjectData> {
        self.content()
    }
}

impl<'a> HircIndex<'a> {
    /// The index of a bank.
    pub fn build(sb: &'a Soundbank) -> (r: HircIndex<'a>)
        ensures
            r@ == main_objects(sb@),
    {
        let mut by_hash: HashMap<u32, usize> = HashMap::new();
        let found = sb.first_objects();
        match found {
            Some(objects) => {
                let ghost views = objects_view(objects@);
                let mut i: usize = 0;
                while i < objects.len()
                    invariant
                        i <= objects@.len(),
                        views == objects_view(objects@),
                        points_at_last(by_hash@, views, i as int),
                    decreases objects@.len() - i,
                {
                    let ghost before = by_hash@;
                    assert(views[i as int] == objects@[i as int]@);
                    by_hash.insert(objects[i].id.as_hash(), i);
                    i = i + 1;
                    proof {
                        assert forall|k: int| 0 <= k < i implies by_hash@.contains_key(
                            id_hash((#[trigger] views[k]).id),
                        ) && k <= by_hash@[id_hash(views[k].id)] by {
                            if k < i - 1 {
                                assert(before.contains_key(id_hash(views[k].id)));
                            }
                        }
                    }
                }
            },
            None => {},
        }
        HircIndex { objects: found, by_hash }
    }

    /// The object with this hash; of several, the last.
    pub fn get(&self, hash: u32) -> (r: Option<&'a HIRCObject>)
        ensures
            match r {
                Some(o) => last_with(self@, hash) == Some(o@),
                None => last_with(self@, hash) is None,
            },
    {
        proof {
            use_type_invariant(self);
            lemma_last_with(self@, hash);
        }
        match (self.objects, self.by_hash.get(&hash)) {
            (Some(objects), Some(at)) => {
                let i: usize = *at;
                proof {
                    assert forall|k: int| i < k < self@.len() implies id_hash(
                        (#[trigger] self@[k]).id,
                    ) != hash by {}
                    lemma_last_with_at(self@, hash, i as int);
                }
                assert(self@[i as int] == objects@[i as int]@);
                Some(&objects[i])
            },
            _ => {
                proof {
                    if has_hash(self@, hash) {
                        let k = choose|k: int|
                            0 <= k < self@.len() && id_hash((#[trigger] self@[k]).id) == hash;
                        assert(self.by_hash@.contains_key(hash));
                    }
                }
                None
            },
        }
    }

    /// Is there an object with this hash?
    pub fn contains(&self, hash: u32) -> (r: bool)
        ensures
            r == has_hash(self@, hash),
    {
        proof {
            lemma_last_with(self@, hash);
        }
        self.get(hash).is_some()
    }

    /// The hash of the object that a text means.
    pub fn resolve(&self, target: &str) -> (r: Option<u32>)
        ensures
            r == resolved(self@, target@),
    {
        if let Some(v) = parse_hex(target) {
            if self.contains(v) {
                return Some(v);
            }
        }
        if let Some(v) = parse_decimal(target) {
            if self.contains(v) {
                return Some(v);
            }
        }
        let named = match self.objects {
            Some(objects) => any_named(objects, target),
            None => false,
        };
        if named {
            Some(hash_name(target))
        } else {
            None
        }
    }
}

} // verus!
