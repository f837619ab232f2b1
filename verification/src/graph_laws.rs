//! In which order dependencies are listed.

use vstd::prelude::*;

use crate::bank::ObjectData;
use crate::body::references;
use crate::graph::{
    dependencies, lemma_add_contains, lemma_push_contains, lemma_skip_contains, lemma_unseen,
    lemma_unseen_count, refers, unseen, unseen_count, walk,
};
use crate::index::last_with;

verus! {

/// The ids of objects that were not seen, each where it comes first.
pub open spec fn fresh(objects: Seq<ObjectData>, ids: Seq<u32>, seen: Set<u32>) -> Seq<u32>
    decreases ids.len(),
{
    if ids.len() == 0 {
        Seq::empty()
    } else {
        let front = ids.drop_last();
        let last = ids.last();
        if last_with(objects, last) is Some && !seen.contains(last) && !front.contains(last) {
            fresh(objects, front, seen).push(last)
        } else {
            fresh(objects, front, seen)
        }
    }
}

/// What some objects refer to, one object after the other.
pub open spec fn all_referred(objects: Seq<ObjectData>, ids: Seq<u32>) -> Seq<u32>
    decreases ids.len(),
{
    if ids.len() == 0 {
        Seq::empty()
    } else {
        all_referred(objects, ids.drop_last()) + refers(objects, ids.last())
    }
}

proof fn lemma_fresh_contains(objects: Seq<ObjectData>, ids: Seq<u32>, seen: Set<u32>, id: u32)
    ensures
        fresh(objects, ids, seen).contains(id) == (last_with(objects, id) is Some && !seen.contains(
            id,
        ) && ids.contains(id)),
    decreases ids.len(),
{
    if ids.len() > 0 {
        let front = ids.drop_last();
        lemma_fresh_contains(objects, front, seen, id);
        lemma_push_contains(front, ids.last(), id);
        assert(ids =~= front.push(ids.last()));
        lemma_push_contains(fresh(objects, front, seen), ids.last(), id);
    }
}

proof fn lemma_fresh_joined(
    objects: Seq<ObjectData>,
    a: Seq<u32>,
    b: Seq<u32>,
    seen: Set<u32>,
)
    ensures
        fresh(objects, a + b, seen) == fresh(objects, a, seen) + fresh(
            objects,
            b,
            seen.union(a.to_set()),
        ),
    decreases b.len(),
{
    if b.len() == 0 {
        assert(a + b =~= a);
        assert(fresh(objects, a, seen) + Seq::<u32>::empty() =~= fresh(objects, a, seen));
    } else {
        let front = b.drop_last();
        lemma_fresh_joined(objects, a, front, seen);
        assert((a + b).drop_last() =~= a + front);
        lemma_add_contains(a, front, b.last());
        let more = fresh(objects, front, seen.union(a.to_set()));
        assert(fresh(objects, a, seen) + more.push(b.last()) =~= (fresh(objects, a, seen)
            + more).push(b.last()));
    }
}

proof fn lemma_fresh_same(objects: Seq<ObjectData>, ids: Seq<u32>, s: Set<u32>, t: Set<u32>)
    requires
        forall|x: u32| #[trigger]
            last_with(objects, x) is Some ==> s.contains(x) == t.contains(x),
    ensures
        fresh(objects, ids, s) == fresh(objects, ids, t),
    decreases ids.len(),
{
    if ids.len() > 0 {
        lemma_fresh_same(objects, ids.drop_last(), s, t);
    }
}

proof fn lemma_fresh_unseen(objects: Seq<ObjectData>, ids: Seq<u32>, s: Set<u32>, t: Set<u32>)
    requires
        s.subset_of(t),
    ensures
        fresh(objects, unseen(ids, s), t) == fresh(objects, ids, t),
    decreases ids.len(),
{
    if ids.len() > 0 {
        let front = ids.drop_last();
        lemma_fresh_unseen(objects, front, s, t);
        if !s.contains(ids.last()) {
            assert(unseen(ids, s).drop_last() =~= unseen(front, s));
            lemma_unseen(front, s, ids.last());
        }
    }
}

proof fn lemma_walk_in_order(
    objects: Seq<ObjectData>,
    start: u32,
    queue: Seq<u32>,
    seen: Set<u32>,
    order: Seq<u32>,
)
    requires
        order + fresh(objects, queue, seen) == fresh(
            objects,
            seq![start] + all_referred(objects, order),
            Set::empty(),
        ),
        forall|x: u32| #[trigger]
            last_with(objects, x) is Some ==> order.contains(x) == seen.contains(x),
    ensures
        ({
            let r = walk(objects, queue, seen, order);
            r == fresh(objects, seq![start] + all_referred(objects, r), Set::empty())
        }),
    decreases unseen_count(objects, seen), queue.len(),
{
    if queue.len() == 0 {
        assert(order + fresh(objects, queue, seen) =~= order);
    } else {
        let id = queue[0];
        let rest = queue.skip(1);
        let now = seen.insert(id);
        let one = seq![id];
        assert(queue =~= one + rest);
        lemma_fresh_joined(objects, one, rest, seen);
        assert(one.drop_last() =~= Seq::<u32>::empty());
        assert(one.contains(id)) by {
            assert(one[0] == id);
        }
        assert(seen.union(one.to_set()) =~= now) by {
            assert forall|x: u32| one.contains(x) implies x == id by {}
        }
        reveal_with_fuel(fresh, 2);
        if seen.contains(id) {
            assert(now =~= seen);
            assert(fresh(objects, queue, seen) =~= fresh(objects, rest, seen));
            lemma_walk_in_order(objects, start, rest, seen, order);
        } else {
            lemma_unseen_count(objects, seen, id);
            match last_with(objects, id) {
                Some(o) => {
                    let refs = references(o.body);
                    let more = unseen(refs, now);
                    let grown = order.push(id);
                    let total = seq![start] + all_referred(objects, order);
                    let known = now.union(rest.to_set());
                    assert(grown.drop_last() =~= order);
                    assert(seq![start] + all_referred(objects, grown) =~= total + refs);
                    lemma_fresh_joined(objects, total, refs, Set::empty());
                    lemma_fresh_joined(objects, rest, more, now);
                    lemma_fresh_unseen(objects, refs, now, known);
                    assert forall|x: u32| #[trigger] last_with(objects, x) is Some implies (
                    known.contains(x) == Set::<u32>::empty().union(total.to_set()).contains(x)) by {
                        lemma_fresh_contains(objects, total, Set::empty(), x);
                        lemma_fresh_contains(objects, queue, seen, x);
                        lemma_add_contains(order, fresh(objects, queue, seen), x);
                        lemma_skip_contains(queue, x);
                    }
                    lemma_fresh_same(
                        objects,
                        refs,
                        known,
                        Set::<u32>::empty().union(total.to_set()),
                    );
                    assert(fresh(objects, queue, seen) =~= one + fresh(objects, rest, now));
                    assert(grown + fresh(objects, rest + more, now) =~= (order + fresh(
                        objects,
                        queue,
                        seen,
                    )) + fresh(objects, refs, known));
                    assert forall|x: u32| #[trigger] last_with(objects, x) is Some implies (
                    grown.contains(x) == now.contains(x)) by {
                        lemma_push_contains(order, id, x);
                    }
                    lemma_walk_in_order(objects, start, rest + more, now, grown);
                },
                None => {
                    assert(fresh(objects, queue, seen) =~= fresh(objects, rest, now));
                    lemma_walk_in_order(objects, start, rest, now, order);
                },
            }
        }
    }
}

/// The dependencies of an object are the object itself and then, for one object of the list after
/// the other, what that object refers to, in the order in which it does; left out is what is not
/// there, and what was listed before.
pub proof fn lemma_dependencies_in_order(objects: Seq<ObjectData>, start: u32)
    ensures
        dependencies(objects, start) == fresh(
            objects,
            seq![start] + all_referred(objects, dependencies(objects, start)),
            Set::empty(),
        ),
{
    let none = Seq::<u32>::empty();
    assert(all_referred(objects, none) =~= none);
    assert(seq![start] + none =~= seq![start]);
    let first = fresh(objects, seq![start], Set::empty());
    assert(none + first =~= first);
    lemma_walk_in_order(objects, start, seq![start], Set::empty(), none);
}

} // verus!
