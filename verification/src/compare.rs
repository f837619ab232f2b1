//! How two banks differ.

use std::collections::HashSet;

use vstd::prelude::*;

use crate::bank::{
    main_objects, object_with, objects_view, position_of, HIRCObject, Soundbank,
};
use crate::body::{children, with_id, BodyView};
use crate::editor::{collected, lemma_collected};
use crate::graph::unseen;
use crate::kind::BodyKind;
use crate::seqs::{ascending, lemma_sorted, sort_ids, sorted};
use crate::session::hashes;

verus! {

broadcast use vstd::std_specs::hash::group_hash_axioms;

// ---------------------------------------------------------------------------
// Lists of ids as sets
// ---------------------------------------------------------------------------
/// Does each id exceed the one before it?
pub open spec fn rising(ids: Seq<u32>) -> bool {
    forall|i: int, j: int| 0 <= i < j < ids.len() ==> ids[i] < ids[j]
}

/// The ids of one list that another does not have, in ascending order, each once.
pub open spec fn difference(a: Seq<u32>, b: Seq<u32>) -> Seq<u32> {
    unseen(collected(a), b.to_set())
}

proof fn lemma_rising_unique(a: Seq<u32>, b: Seq<u32>)
    requires
        rising(a),
        rising(b),
        forall|id: u32| #[trigger] a.contains(id) == b.contains(id),
    ensures
        a == b,
    decreases a.len(),
{
    if a.len() == 0 {
        if b.len() > 0 {
            assert(b.contains(b[0]));
            assert(a.contains(b[0]));
        }
        assert(a =~= b);
    } else {
        let x = a.last();
        assert(a[a.len() - 1] == x);
        assert(a.contains(x));
        assert(b.contains(x));
        let k = choose|k: int| 0 <= k < b.len() && b[k] == x;
        let y = b.last();
        assert(b[b.len() - 1] == y);
        assert(b.contains(y));
        assert(a.contains(y));
        let m = choose|m: int| 0 <= m < a.len() && a[m] == y;
        assert(x == y);
        let c = a.drop_last();
        let d = b.drop_last();
        assert forall|id: u32| #[trigger] c.contains(id) == d.contains(id) by {
            if c.contains(id) {
                let i = choose|i: int| 0 <= i < c.len() && c[i] == id;
                assert(a[i] == id && id < x);
                assert(a.contains(id));
                assert(b.contains(id));
                let j = choose|j: int| 0 <= j < b.len() && b[j] == id;
                assert(d[j] == id);
            }
            if d.contains(id) {
                let j = choose|j: int| 0 <= j < d.len() && d[j] == id;
                assert(b[j] == id && id < y);
                assert(b.contains(id));
                assert(a.contains(id));
                let i = choose|i: int| 0 <= i < a.len() && a[i] == id;
                assert(c[i] == id);
            }
        }
        lemma_rising_unique(c, d);
        assert(a =~= c.push(x));
        assert(b =~= d.push(y));
    }
}

proof fn lemma_with_id_rises(ids: Seq<u32>, id: u32)
    requires
        rising(ids),
    ensures
        rising(with_id(ids, id)),
{
    if !ids.contains(id) {
        let longer = ids.push(id);
        let r = sorted(longer);
        lemma_sorted(longer);
        assert(longer.no_duplicates()) by {
            assert forall|i: int, j: int|
                0 <= i < longer.len() && 0 <= j < longer.len() && i != j implies longer[i]
                != longer[j] by {
                if i == ids.len() {
                    assert(ids.contains(ids[j]));
                } else if j == ids.len() {
                    assert(ids.contains(ids[i]));
                } else if i < j {
                    assert(ids[i] < ids[j]);
                } else {
                    assert(ids[j] < ids[i]);
                }
            }
        }
        longer.lemma_multiset_has_no_duplicates();
        r.lemma_multiset_has_no_duplicates_conv();
        assert forall|i: int, j: int| 0 <= i < j < r.len() implies r[i] < r[j] by {
            assert(r[i] != r[j]);
        }
    }
}

/// Ids that were collected rise, so that none is listed twice.
pub proof fn lemma_collected_rises(ids: Seq<u32>)
    ensures
        rising(collected(ids)),
        collected(ids).no_duplicates(),
    decreases ids.len(),
{
    if ids.len() > 0 {
        lemma_collected_rises(ids.drop_last());
        lemma_with_id_rises(collected(ids.drop_last()), ids.last());
    }
    let r = collected(ids);
    assert forall|i: int, j: int| 0 <= i < r.len() && 0 <= j < r.len() && i != j implies r[i]
        != r[j] by {
        if i < j {
            assert(r[i] < r[j]);
        } else {
            assert(r[j] < r[i]);
        }
    }
}

proof fn lemma_sorted_contains(ids: Seq<u32>, id: u32)
    ensures
        sorted(ids).contains(id) == ids.contains(id),
{
    lemma_sorted(ids);
    broadcast use vstd::seq_lib::group_to_multiset_ensures;

    assert(sorted(ids).to_multiset().contains(id) == sorted(ids).contains(id));
    assert(ids.to_multiset().contains(id) == ids.contains(id));
}

/// The ids in ascending order, each once.
pub fn collect_ids(ids: &Vec<u32>) -> (r: Vec<u32>)
    ensures
        r@ == collected(ids@),
{
    let in_order = sort_ids(ids);
    proof {
        lemma_sorted(ids@);
    }
    let mut r: Vec<u32> = Vec::new();
    let mut i: usize = 0;
    while i < in_order.len()
        invariant
            i <= in_order@.len(),
            in_order@ == sorted(ids@),
            ascending(in_order@),
            rising(r@),
            r@.len() > 0 ==> i > 0 && r@.last() == in_order@[i - 1],
            r@.len() == 0 ==> i == 0,
            forall|k: int| 0 <= k < i ==> r@.contains(#[trigger] in_order@[k]),
            forall|k: int| 0 <= k < r@.len() ==> in_order@.contains(#[trigger] r@[k]),
        decreases in_order@.len() - i,
    {
        let id = in_order[i];
        let ghost before = r@;
        let fresh = r.len() == 0 || r[r.len() - 1] != id;
        if fresh {
            r.push(id);
        }
        proof {
            assert(in_order@[i as int] == id);
            if i > 0 {
                assert(in_order@[i - 1] <= in_order@[i as int]);
            }
            assert(in_order@.contains(id));
            if fresh {
                assert forall|a: int, b: int| 0 <= a < b < r@.len() implies r@[a] < r@[b] by {
                    if b == before.len() {
                        if a < before.len() - 1 {
                            assert(before[a] < before[before.len() - 1]);
                        }
                    }
                }
                assert(r@[r@.len() - 1] == id);
            } else {
                assert(r@[r@.len() - 1] == id);
            }
            assert(r@.contains(id));
            assert forall|k: int| 0 <= k < i + 1 implies r@.contains(#[trigger] in_order@[k]) by {
                if k < i {
                    assert(before.contains(in_order@[k]));
                    let m = choose|m: int| 0 <= m < before.len() && before[m] == in_order@[k];
                    assert(r@[m] == in_order@[k]);
                }
            }
        }
        i = i + 1;
    }
    proof {
        lemma_collected(ids@);
        lemma_collected_rises(ids@);
        assert forall|id: u32| #[trigger] r@.contains(id) == collected(ids@).contains(id) by {
            lemma_sorted_contains(ids@, id);
            if r@.contains(id) {
                let k = choose|k: int| 0 <= k < r@.len() && r@[k] == id;
                assert(in_order@.contains(r@[k]));
            }
            if in_order@.contains(id) {
                let k = choose|k: int| 0 <= k < in_order@.len() && in_order@[k] == id;
                assert(r@.contains(in_order@[k]));
            }
        }
        lemma_rising_unique(r@, collected(ids@));
    }
    r
}

/// The ids of one list that another does not have, in ascending order, each once.
pub fn subtract_ids(a: &Vec<u32>, b: &Vec<u32>) -> (r: Vec<u32>)
    ensures
        r@ == difference(a@, b@),
{
    let mut others: HashSet<u32> = HashSet::new();
    let mut i: usize = 0;
    assert(others@ =~= b@.take(0).to_set());
    while i < b.len()
        invariant
            i <= b@.len(),
            others@ == b@.take(i as int).to_set(),
        decreases b@.len() - i,
    {
        let ghost before = b@.take(i as int);
        let id = b[i];
        others.insert(id);
        proof {
            let longer = b@.take(i + 1);
            assert(longer =~= before.push(id));
            assert forall|x: u32| before.to_set().insert(id).contains(x)
                == longer.to_set().contains(x) by {
                if before.contains(x) {
                    let k = choose|k: int| 0 <= k < before.len() && before[k] == x;
                    assert(longer[k] == x);
                }
                if x == id {
                    assert(longer[before.len() as int] == x);
                }
                if longer.contains(x) {
                    let k = choose|k: int| 0 <= k < longer.len() && longer[k] == x;
                    if k < before.len() {
                        assert(before[k] == x);
                    }
                }
            }
            assert(before.to_set().insert(id) =~= longer.to_set());
        }
        i = i + 1;
    }
    assert(b@.take(i as int) =~= b@);
    let own = collect_ids(a);
    let mut r: Vec<u32> = Vec::new();
    let mut j: usize = 0;
    assert(own@.take(0) =~= Seq::<u32>::empty());
    while j < own.len()
        invariant
            j <= own@.len(),
            r@ == unseen(own@.take(j as int), others@),
        decreases own@.len() - j,
    {
        assert(own@.take(j + 1).drop_last() =~= own@.take(j as int));
        let id = own[j];
        if !others.contains(&id) {
            r.push(id);
        }
        j = j + 1;
    }
    assert(own@.take(j as int) =~= own@);
    r
}

// ---------------------------------------------------------------------------
// Banks
// ---------------------------------------------------------------------------
/// How the objects of two banks differ: how many there are, and the hashes that only one has.
#[derive(Debug)]
pub struct Comparison {
    pub count_a: usize,
    pub count_b: usize,
    pub only_a: Vec<u32>,
    pub only_b: Vec<u32>,
}

/// The objects of the first section with objects; none if there is no such section.
pub fn hirc_hashes(soundbank: &Soundbank) -> (r: Vec<u32>)
    ensures
        r@ == hashes(main_objects(soundbank@)),
{
    let mut r: Vec<u32> = Vec::new();
    match soundbank.first_objects() {
        Some(objects) => {
            let ghost views = objects_view(objects@);
            let mut i: usize = 0;
            while i < objects.len()
                invariant
                    i <= objects@.len(),
                    views == objects_view(objects@),
                    r@ == hashes(views.take(i as int)),
                decreases objects@.len() - i,
            {
                assert(views[i as int] == objects@[i as int]@);
                r.push(objects[i].id.as_hash());
                i = i + 1;
                assert(r@ =~= hashes(views.take(i as int)));
            }
            assert(views.take(i as int) =~= views);
        },
        None => {
            assert(r@ =~= hashes(Seq::empty()));
        },
    }
    r
}

/// How the objects of two banks differ.
pub fn compare_banks(a: &Soundbank, b: &Soundbank) -> (r: Comparison)
    ensures
        r.count_a == main_objects(a@).len(),
        r.count_b == main_objects(b@).len(),
        r.only_a@ == difference(hashes(main_objects(a@)), hashes(main_objects(b@))),
        r.only_b@ == difference(hashes(main_objects(b@)), hashes(main_objects(a@))),
{
    let ids_a = hirc_hashes(a);
    let ids_b = hirc_hashes(b);
    Comparison {
        count_a: ids_a.len(),
        count_b: ids_b.len(),
        only_a: subtract_ids(&ids_a, &ids_b),
        only_b: subtract_ids(&ids_b, &ids_a),
    }
}

/// The children of a mixer or a container that is not for music; of another body, none.
pub open spec fn plain_children(body: BodyView) -> Seq<u32> {
    match body.kind {
        BodyKind::ActorMixer
        | BodyKind::RandomSequenceContainer
        | BodyKind::SwitchContainer
        | BodyKind::LayerContainer => match children(body) {
            Some(ids) => ids,
            None => Seq::empty(),
        },
        _ => Seq::empty(),
    }
}

/// The children of the first object with a hash.
pub fn mixer_children(objects: &Vec<HIRCObject>, id: u32) -> (r: Vec<u32>)
    ensures
        r@ == (match object_with(objects_view(objects@), id) {
            Some(o) => plain_children(o.body),
            None => Seq::empty(),
        }),
{
    let i = position_of(objects, id);
    if i == objects.len() {
        return Vec::new();
    }
    assert(objects_view(objects@)[i as int] == objects@[i as int]@);
    match objects[i].body.kind() {
        BodyKind::ActorMixer
        | BodyKind::RandomSequenceContainer
        | BodyKind::SwitchContainer
        | BodyKind::LayerContainer => match objects[i].body.children() {
            Some(ids) => ids,
            None => Vec::new(),
        },
        _ => Vec::new(),
    }
}

/// How many ids only one of two lists has.
pub fn count_different(a: &Vec<u32>, b: &Vec<u32>) -> (r: u128)
    ensures
        r == difference(a@, b@).len() + difference(b@, a@).len(),
{
    let only_a = subtract_ids(a, b);
    let only_b = subtract_ids(b, a);
    only_a.len() as u128 + only_b.len() as u128
}

/// How many bytes two files have in common from their start on.
pub fn common_prefix(a: &Vec<u8>, b: &Vec<u8>) -> (r: usize)
    ensures
        r <= a@.len(),
        r <= b@.len(),
        a@.take(r as int) == b@.take(r as int),
        r < a@.len() && r < b@.len() ==> a@[r as int] != b@[r as int],
{
    let mut i: usize = 0;
    while i < a.len() && i < b.len() && a[i] == b[i]
        invariant
            i <= a@.len(),
            i <= b@.len(),
            forall|k: int| 0 <= k < i ==> a@[k] == b@[k],
        decreases a@.len() - i,
    {
        i = i + 1;
    }
    assert(a@.take(i as int) =~= b@.take(i as int));
    i
}

} // verus!
