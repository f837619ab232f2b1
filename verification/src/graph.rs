//! The graph of objects: what an object depends on, as a list and as a tree.

use std::collections::HashSet;

use vstd::prelude::*;

use crate::bank::{has_hash, ObjectData};
use crate::body::references;
use crate::ids::{id_hash, id_name, IdView};
use crate::index::{last_with, lemma_last_with, HircIndex};
use crate::kind::kind_name;
use crate::text::{decimal, decimal_text, join, join3};

verus! {

broadcast use vstd::std_specs::hash::group_hash_axioms;

// ---------------------------------------------------------------------------
// Known ids
// ---------------------------------------------------------------------------
/// The hashes of objects.
pub open spec fn known(objects: Seq<ObjectData>) -> Set<u32> {
    objects.map_values(|o: ObjectData| id_hash(o.id)).to_set()
}

/// The hashes of objects are finitely many, and are those for which there is a last object.
pub proof fn lemma_known(objects: Seq<ObjectData>, id: u32)
    ensures
        known(objects).finite(),
        known(objects).contains(id) == (last_with(objects, id) is Some),
{
    let all = objects.map_values(|o: ObjectData| id_hash(o.id));
    vstd::seq_lib::seq_to_set_is_finite(all);
    lemma_last_with(objects, id);
    if has_hash(objects, id) {
        let i = choose|i: int|
            0 <= i < objects.len() && id_hash((#[trigger] objects[i]).id) == id;
        assert(all[i] == id);
    }
    if all.contains(id) {
        let i = choose|i: int| 0 <= i < all.len() && all[i] == id;
        assert(id_hash(objects[i].id) == id);
    }
}

/// How many objects were not seen yet.
pub open spec fn unseen_count(objects: Seq<ObjectData>, seen: Set<u32>) -> nat {
    known(objects).difference(seen).len()
}

/// Seeing an object leaves one less to see; seeing another id leaves as many.
pub proof fn lemma_unseen_count(objects: Seq<ObjectData>, seen: Set<u32>, id: u32)
    requires
        !seen.contains(id),
    ensures
        last_with(objects, id) is Some ==> unseen_count(objects, seen.insert(id)) < unseen_count(
            objects,
            seen,
        ),
        last_with(objects, id) is None ==> unseen_count(objects, seen.insert(id)) == unseen_count(
            objects,
            seen,
        ),
{
    lemma_known(objects, id);
    let rest = known(objects).difference(seen);
    let after = known(objects).difference(seen.insert(id));
    if last_with(objects, id) is Some {
        assert(after =~= rest.remove(id));
        assert(rest.contains(id));
    } else {
        assert(after =~= rest);
    }
}

/// What an object refers to; nothing if there is no such object.
pub open spec fn refers(objects: Seq<ObjectData>, id: u32) -> Seq<u32> {
    match last_with(objects, id) {
        Some(o) => references(o.body),
        None => Seq::empty(),
    }
}

/// The ids that were not seen, in their order.
pub open spec fn unseen(ids: Seq<u32>, seen: Set<u32>) -> Seq<u32>
    decreases ids.len(),
{
    if ids.len() == 0 {
        Seq::empty()
    } else if seen.contains(ids.last()) {
        unseen(ids.drop_last(), seen)
    } else {
        unseen(ids.drop_last(), seen).push(ids.last())
    }
}

/// What was not seen is there exactly if it was there before and was not seen.
pub proof fn lemma_unseen(ids: Seq<u32>, seen: Set<u32>, id: u32)
    ensures
        unseen(ids, seen).contains(id) == (ids.contains(id) && !seen.contains(id)),
    decreases ids.len(),
{
    if ids.len() > 0 {
        let front = ids.drop_last();
        lemma_unseen(front, seen, id);
        assert(ids =~= front.push(ids.last()));
        let before = unseen(front, seen);
        assert(front.push(ids.last()).contains(id) == (front.contains(id) || id == ids.last()))
            by {
            lemma_push_contains(front, ids.last(), id);
        }
        lemma_push_contains(before, ids.last(), id);
    }
}

/// One more id is there, and no other.
pub proof fn lemma_push_contains(s: Seq<u32>, x: u32, id: u32)
    ensures
        s.push(x).contains(id) == (s.contains(id) || x == id),
{
    if s.contains(id) {
        let i = choose|i: int| 0 <= i < s.len() && s[i] == id;
        assert(s.push(x)[i] == id);
    }
    if x == id {
        assert(s.push(x)[s.len() as int] == id);
    }
}

// ---------------------------------------------------------------------------
// Dependencies
// ---------------------------------------------------------------------------
/// A walk over the graph, breadth first. `queue` is what is to be visited, `seen` what was, and
/// `order` the objects among that, in the order in which they were visited.
pub open spec fn walk(
    objects: Seq<ObjectData>,
    queue: Seq<u32>,
    seen: Set<u32>,
    order: Seq<u32>,
) -> Seq<u32>
    decreases unseen_count(objects, seen), queue.len(),
{
    if queue.len() == 0 {
        order
    } else {
        let id = queue[0];
        let rest = queue.skip(1);
        if seen.contains(id) {
            walk(objects, rest, seen, order)
        } else {
            let now = seen.insert(id);
            match last_with(objects, id) {
                Some(o) => {
                    proof {
                        lemma_unseen_count(objects, seen, id);
                    }
                    walk(objects, rest + unseen(references(o.body), now), now, order.push(id))
                },
                None => {
                    proof {
                        lemma_unseen_count(objects, seen, id);
                    }
                    walk(objects, rest, now, order)
                },
            }
        }
    }
}

/// The objects that an object depends on, itself among them, breadth first.
pub open spec fn dependencies(objects: Seq<ObjectData>, start: u32) -> Seq<u32> {
    walk(objects, seq![start], Set::empty(), Seq::empty())
}

/// Is the set of ids closed under what objects refer to, as far as objects are there?
pub open spec fn closed_under(objects: Seq<ObjectData>, ids: Set<u32>) -> bool {
    forall|a: u32, b: u32|
        #![trigger ids.contains(a), refers(objects, a).contains(b)]
        ids.contains(a) && refers(objects, a).contains(b) && last_with(objects, b) is Some
            ==> ids.contains(b)
}

/// What holds while the graph is walked.
spec fn walk_sound(
    objects: Seq<ObjectData>,
    start: u32,
    queue: Seq<u32>,
    seen: Set<u32>,
    order: Seq<u32>,
) -> bool {
    &&& order.no_duplicates()
    &&& forall|a: u32| order.contains(a) <==> seen.contains(a) && #[trigger] last_with(
        objects,
        a,
    ) is Some
    &&& forall|a: u32, b: u32|
        #![trigger order.contains(a), refers(objects, a).contains(b)]
        order.contains(a) && refers(objects, a).contains(b) ==> seen.contains(b)
            || queue.contains(b)
    &&& seen.contains(start) || queue.contains(start)
}

/// The first id is there, and what comes behind it.
pub proof fn lemma_skip_contains(queue: Seq<u32>, b: u32)
    requires
        queue.len() > 0,
    ensures
        queue.contains(b) == (queue.skip(1).contains(b) || b == queue[0]),
{
    let rest = queue.skip(1);
    if queue.contains(b) {
        let i = choose|i: int| 0 <= i < queue.len() && queue[i] == b;
        if i > 0 {
            assert(rest[i - 1] == b);
        }
    }
    if rest.contains(b) {
        let i = choose|i: int| 0 <= i < rest.len() && rest[i] == b;
        assert(queue[i + 1] == b);
    }
}

/// Both parts are there, and nothing else.
pub proof fn lemma_add_contains(a: Seq<u32>, b: Seq<u32>, x: u32)
    ensures
        (a + b).contains(x) == (a.contains(x) || b.contains(x)),
{
    if a.contains(x) {
        let i = choose|i: int| 0 <= i < a.len() && a[i] == x;
        assert((a + b)[i] == x);
    }
    if b.contains(x) {
        let i = choose|i: int| 0 <= i < b.len() && b[i] == x;
        assert((a + b)[a.len() + i] == x);
    }
    if (a + b).contains(x) {
        let i = choose|i: int| 0 <= i < (a + b).len() && (a + b)[i] == x;
        if i < a.len() {
            assert(a[i] == x);
        } else {
            assert(b[i - a.len()] == x);
        }
    }
}

proof fn lemma_walk_step(
    objects: Seq<ObjectData>,
    start: u32,
    queue: Seq<u32>,
    seen: Set<u32>,
    order: Seq<u32>,
)
    requires
        walk_sound(objects, start, queue, seen, order),
        queue.len() > 0,
    ensures
        ({
            let id = queue[0];
            let rest = queue.skip(1);
            let now = seen.insert(id);
            if seen.contains(id) {
                walk_sound(objects, start, rest, seen, order)
            } else {
                match last_with(objects, id) {
                    Some(o) => walk_sound(
                        objects,
                        start,
                        rest + unseen(references(o.body), now),
                        now,
                        order.push(id),
                    ),
                    None => walk_sound(objects, start, rest, now, order),
                }
            }
        }),
{
    let id = queue[0];
    let rest = queue.skip(1);
    lemma_skip_contains(queue, start);
    if seen.contains(id) {
        assert forall|a: u32, b: u32|
            #![trigger order.contains(a), refers(objects, a).contains(b)]
            order.contains(a) && refers(objects, a).contains(b) implies seen.contains(b)
            || rest.contains(b) by {
            lemma_skip_contains(queue, b);
        }
    } else {
        let now = seen.insert(id);
        match last_with(objects, id) {
            Some(o) => {
                let more = unseen(references(o.body), now);
                let next = rest + more;
                let grown = order.push(id);
                assert(grown.no_duplicates()) by {
                    assert(!order.contains(id));
                    assert forall|i: int, j: int|
                        0 <= i < grown.len() && 0 <= j < grown.len() && i != j implies grown[i]
                        != grown[j] by {
                        if i == order.len() {
                            assert(order.contains(order[j]));
                        } else if j == order.len() {
                            assert(order.contains(order[i]));
                        }
                    }
                }
                assert forall|a: u32| grown.contains(a) <==> now.contains(a)
                    && #[trigger] last_with(objects, a) is Some by {
                    lemma_push_contains(order, id, a);
                }
                assert forall|a: u32, b: u32|
                    #![trigger grown.contains(a), refers(objects, a).contains(b)]
                    grown.contains(a) && refers(objects, a).contains(b) implies now.contains(b)
                    || next.contains(b) by {
                    lemma_push_contains(order, id, a);
                    lemma_skip_contains(queue, b);
                    lemma_add_contains(rest, more, b);
                    lemma_unseen(references(o.body), now, b);
                    if order.contains(a) {
                        assert(seen.contains(b) || queue.contains(b));
                    }
                }
                lemma_add_contains(rest, more, start);
            },
            None => {
                assert forall|a: u32| order.contains(a) <==> now.contains(a)
                    && #[trigger] last_with(objects, a) is Some by {}
                assert forall|a: u32, b: u32|
                    #![trigger order.contains(a), refers(objects, a).contains(b)]
                    order.contains(a) && refers(objects, a).contains(b) implies now.contains(b)
                    || rest.contains(b) by {
                    lemma_skip_contains(queue, b);
                }
            },
        }
    }
}

proof fn lemma_walk(
    objects: Seq<ObjectData>,
    start: u32,
    queue: Seq<u32>,
    seen: Set<u32>,
    order: Seq<u32>,
)
    requires
        walk_sound(objects, start, queue, seen, order),
    ensures
        ({
            let r = walk(objects, queue, seen, order);
            &&& r.no_duplicates()
            &&& closed_under(objects, r.to_set())
            &&& last_with(objects, start) is Some ==> r.contains(start)
            &&& forall|a: u32| r.contains(a) ==> #[trigger] last_with(objects, a) is Some
        }),
    decreases unseen_count(objects, seen), queue.len(),
{
    if queue.len() == 0 {
        let r = order;
        assert forall|a: u32, b: u32|
            #![trigger r.to_set().contains(a), refers(objects, a).contains(b)]
            r.to_set().contains(a) && refers(objects, a).contains(b) && last_with(objects, b)
                is Some implies r.to_set().contains(b) by {
            assert(order.contains(a));
            assert(seen.contains(b));
            assert(order.contains(b));
        }
    } else {
        let id = queue[0];
        let rest = queue.skip(1);
        lemma_walk_step(objects, start, queue, seen, order);
        if seen.contains(id) {
            lemma_walk(objects, start, rest, seen, order);
        } else {
            lemma_unseen_count(objects, seen, id);
            let now = seen.insert(id);
            match last_with(objects, id) {
                Some(o) => {
                    let next = rest + unseen(references(o.body), now);
                    lemma_walk(objects, start, next, now, order.push(id));
                },
                None => {
                    lemma_walk(objects, start, rest, now, order);
                },
            }
        }
    }
}

proof fn lemma_walk_least(
    objects: Seq<ObjectData>,
    queue: Seq<u32>,
    seen: Set<u32>,
    order: Seq<u32>,
    ids: Set<u32>,
)
    requires
        closed_under(objects, ids),
        forall|a: u32| #[trigger]
            queue.contains(a) && last_with(objects, a) is Some ==> ids.contains(a),
        forall|a: u32| #[trigger] order.contains(a) ==> ids.contains(a),
    ensures
        forall|a: u32| #[trigger]
            walk(objects, queue, seen, order).contains(a) ==> ids.contains(a),
    decreases unseen_count(objects, seen), queue.len(),
{
    if queue.len() > 0 {
        let id = queue[0];
        let rest = queue.skip(1);
        assert(queue.contains(id));
        assert forall|a: u32| #[trigger]
            rest.contains(a) && last_with(objects, a) is Some implies ids.contains(a) by {
            lemma_skip_contains(queue, a);
        }
        if seen.contains(id) {
            lemma_walk_least(objects, rest, seen, order, ids);
            assert(walk(objects, queue, seen, order) == walk(objects, rest, seen, order));
        } else {
            lemma_unseen_count(objects, seen, id);
            let now = seen.insert(id);
            match last_with(objects, id) {
                Some(o) => {
                    let more = unseen(references(o.body), now);
                    let next = rest + more;
                    assert forall|a: u32| #[trigger]
                        next.contains(a) && last_with(objects, a) is Some implies ids.contains(
                        a,
                    ) by {
                        lemma_add_contains(rest, more, a);
                        lemma_unseen(references(o.body), now, a);
                        if more.contains(a) {
                            assert(ids.contains(id));
                            assert(refers(objects, id).contains(a));
                        }
                    }
                    assert forall|a: u32| #[trigger] order.push(id).contains(a) implies ids.contains(
                        a,
                    ) by {
                        lemma_push_contains(order, id, a);
                    }
                    lemma_walk_least(objects, next, now, order.push(id), ids);
                    assert(walk(objects, queue, seen, order) == walk(
                        objects,
                        next,
                        now,
                        order.push(id),
                    ));
                },
                None => {
                    lemma_walk_least(objects, rest, now, order, ids);
                    assert(walk(objects, queue, seen, order) == walk(objects, rest, now, order));
                },
            }
        }
    }
}

/// The dependencies of an object that is there are the smallest set of objects that holds the
/// object and all objects that its members refer to. None is listed twice.
pub proof fn lemma_dependencies(objects: Seq<ObjectData>, start: u32, ids: Set<u32>)
    ensures
        ({
            let r = dependencies(objects, start);
            &&& r.no_duplicates()
            &&& closed_under(objects, r.to_set())
            &&& last_with(objects, start) is Some ==> r.contains(start)
            &&& forall|a: u32| r.contains(a) ==> #[trigger] last_with(objects, a) is Some
            &&& closed_under(objects, ids) && (last_with(objects, start) is Some ==> ids.contains(
                start,
            )) ==> r.to_set().subset_of(ids)
        }),
{
    let queue = seq![start];
    let none = Set::<u32>::empty();
    assert(queue[0] == start);
    assert(queue.contains(start));
    lemma_walk(objects, start, queue, none, Seq::empty());
    if closed_under(objects, ids) && (last_with(objects, start) is Some ==> ids.contains(start)) {
        assert forall|a: u32| #[trigger]
            queue.contains(a) && last_with(objects, a) is Some implies ids.contains(a) by {
            let i = choose|i: int| 0 <= i < queue.len() && queue[i] == a;
            assert(i == 0);
        }
        lemma_walk_least(objects, queue, none, Seq::empty(), ids);
        let r = dependencies(objects, start);
        assert forall|a: u32| r.to_set().contains(a) implies ids.contains(a) by {
            assert(r.contains(a));
        }
    }
}

/// Is there an object with id `b` that is at most `n` references away from `start`, by way of
/// objects that are there?
pub open spec fn reached(objects: Seq<ObjectData>, start: u32, n: nat, b: u32) -> bool
    decreases n,
{
    &&& last_with(objects, b) is Some
    &&& if n == 0 {
        b == start
    } else {
        ||| reached(objects, start, (n - 1) as nat, b)
        ||| exists|a: u32|
            reached(objects, start, (n - 1) as nat, a) && #[trigger] refers(
                objects,
                a,
            ).contains(b)
    }
}

proof fn lemma_reached_farther(objects: Seq<ObjectData>, start: u32, n: nat, m: nat, b: u32)
    requires
        n <= m,
        reached(objects, start, n, b),
    ensures
        reached(objects, start, m, b),
    decreases m - n,
{
    if n < m {
        lemma_reached_farther(objects, start, n, (m - 1) as nat, b);
    }
}

/// No id stands behind one that is farther away.
spec fn by_distance(objects: Seq<ObjectData>, start: u32, ids: Seq<u32>) -> bool {
    forall|i: int, j: int, n: nat|
        #![trigger reached(objects, start, n, ids[j]), ids[i]]
        0 <= i <= j < ids.len() && reached(objects, start, n, ids[j]) ==> reached(
            objects,
            start,
            n,
            ids[i],
        )
}

/// What holds of distances while the graph is walked: the first `m` ids that wait are at distance
/// `d` at most, and the others at most one farther.
spec fn walk_by_distance(
    objects: Seq<ObjectData>,
    start: u32,
    queue: Seq<u32>,
    seen: Set<u32>,
    order: Seq<u32>,
    d: nat,
    m: int,
) -> bool {
    &&& 0 <= m <= queue.len()
    &&& forall|k: int|
        0 <= k < queue.len() && last_with(objects, #[trigger] queue[k]) is Some ==> reached(
            objects,
            start,
            if k < m {
                d
            } else {
                d + 1
            },
            queue[k],
        )
    &&& forall|b: u32| #[trigger]
        reached(objects, start, d, b) ==> seen.contains(b) || queue.take(m).contains(b)
    &&& forall|a: u32| #[trigger] order.contains(a) ==> reached(objects, start, d, a)
    &&& d > 0 ==> forall|a: u32| #[trigger]
        reached(objects, start, (d - 1) as nat, a) ==> order.contains(a)
    &&& by_distance(objects, start, order)
}

/// When nothing at distance `d` waits any more, what waits is at distance `d + 1`.
proof fn lemma_walk_farther(
    objects: Seq<ObjectData>,
    start: u32,
    queue: Seq<u32>,
    seen: Set<u32>,
    order: Seq<u32>,
    d: nat,
)
    requires
        walk_sound(objects, start, queue, seen, order),
        walk_by_distance(objects, start, queue, seen, order, d, 0),
    ensures
        walk_by_distance(objects, start, queue, seen, order, d + 1, queue.len() as int),
{
    let all = queue.take(queue.len() as int);
    assert(all =~= queue);
    assert forall|a: u32| #[trigger] reached(objects, start, d, a) implies order.contains(a) by {
        assert(!queue.take(0).contains(a));
        assert(seen.contains(a));
        assert(last_with(objects, a) is Some);
    }
    assert forall|b: u32| #[trigger] reached(objects, start, d + 1, b) implies seen.contains(b)
        || all.contains(b) by {
        if reached(objects, start, d, b) {
            assert(order.contains(b));
            assert(last_with(objects, b) is Some);
        } else {
            let a = choose|a: u32|
                reached(objects, start, d, a) && #[trigger] refers(objects, a).contains(b);
            assert(order.contains(a));
        }
    }
    assert forall|a: u32| #[trigger] order.contains(a) implies reached(
        objects,
        start,
        d + 1,
        a,
    ) by {
        lemma_reached_farther(objects, start, d, d + 1, a);
    }
}

proof fn lemma_nearest_first(
    objects: Seq<ObjectData>,
    start: u32,
    queue: Seq<u32>,
    seen: Set<u32>,
    order: Seq<u32>,
    d: nat,
    m: int,
)
    requires
        walk_sound(objects, start, queue, seen, order),
        walk_by_distance(objects, start, queue, seen, order, d, m),
        m > 0,
        !seen.contains(queue[0]),
        last_with(objects, queue[0]) is Some,
    ensures
        by_distance(objects, start, order.push(queue[0])),
{
    let id = queue[0];
    let grown = order.push(id);
    assert forall|i: int, j: int, n: nat|
        #![trigger reached(objects, start, n, grown[j]), grown[i]]
        0 <= i <= j < grown.len() && reached(objects, start, n, grown[j]) implies reached(
        objects,
        start,
        n,
        grown[i],
    ) by {
        if j < order.len() {
            assert(grown[j] == order[j] && grown[i] == order[i]);
            assert(reached(objects, start, n, order[j]));
        } else if i < order.len() {
            assert(order.contains(order[i]));
            assert(grown[i] == order[i]);
            if n < d {
                lemma_reached_farther(objects, start, n, (d - 1) as nat, id);
                assert(order.contains(id));
                assert(seen.contains(id));
            } else {
                lemma_reached_farther(objects, start, d, n, order[i]);
            }
        }
    }
}

proof fn lemma_walk_by_distance(
    objects: Seq<ObjectData>,
    start: u32,
    queue: Seq<u32>,
    seen: Set<u32>,
    order: Seq<u32>,
    d: nat,
    m: int,
) -> (last: nat)
    requires
        walk_sound(objects, start, queue, seen, order),
        walk_by_distance(objects, start, queue, seen, order, d, m),
    ensures
        by_distance(objects, start, walk(objects, queue, seen, order)),
        forall|a: u32| #[trigger]
            walk(objects, queue, seen, order).contains(a) ==> reached(objects, start, last, a),
    decreases
            unseen_count(objects, seen),
            queue.len(),
            if m == 0 {
                1int
            } else {
                0int
            },
{
    if queue.len() == 0 {
        d
    } else if m == 0 {
        lemma_walk_farther(objects, start, queue, seen, order, d);
        lemma_walk_by_distance(objects, start, queue, seen, order, d + 1, queue.len() as int)
    } else {
        let id = queue[0];
        let rest = queue.skip(1);
        lemma_walk_step(objects, start, queue, seen, order);
        assert(queue.take(m)[0] == id);
        assert(queue.take(m).skip(1) =~= rest.take(m - 1));
        assert forall|b: u32| #[trigger] reached(objects, start, d, b) implies b == id
            || seen.contains(b) || rest.take(m - 1).contains(b) by {
            lemma_skip_contains(queue.take(m), b);
        }
        if seen.contains(id) {
            lemma_walk_by_distance(objects, start, rest, seen, order, d, m - 1)
        } else {
            lemma_unseen_count(objects, seen, id);
            let now = seen.insert(id);
            match last_with(objects, id) {
                Some(o) => {
                    let more = unseen(references(o.body), now);
                    let next = rest + more;
                    let grown = order.push(id);
                    assert(next.take(m - 1) =~= rest.take(m - 1));
                    lemma_nearest_first(objects, start, queue, seen, order, d, m);
                    assert(reached(objects, start, d, id));
                    assert forall|k: int|
                        0 <= k < next.len() && last_with(objects, #[trigger] next[k])
                            is Some implies reached(
                        objects,
                        start,
                        if k < m - 1 {
                            d
                        } else {
                            d + 1
                        },
                        next[k],
                    ) by {
                        if k < rest.len() {
                            assert(next[k] == queue[k + 1]);
                        } else {
                            assert(next[k] == more[k - rest.len()]);
                            assert(more.contains(next[k]));
                            lemma_unseen(references(o.body), now, next[k]);
                            assert(refers(objects, id).contains(next[k]));
                        }
                    }
                    assert forall|a: u32| #[trigger] grown.contains(a) implies reached(
                        objects,
                        start,
                        d,
                        a,
                    ) by {
                        lemma_push_contains(order, id, a);
                    }
                    assert(d > 0 ==> forall|a: u32| #[trigger]
                        reached(objects, start, (d - 1) as nat, a) ==> grown.contains(a)) by {
                        if d > 0 {
                            assert forall|a: u32| #[trigger]
                                reached(objects, start, (d - 1) as nat, a) implies grown.contains(
                                a,
                            ) by {
                                lemma_push_contains(order, id, a);
                            }
                        }
                    }
                    lemma_walk_by_distance(objects, start, next, now, grown, d, m - 1)
                },
                None => lemma_walk_by_distance(objects, start, rest, now, order, d, m - 1),
            }
        }
    }
}

/// Among the dependencies of an object the nearer ones come first: an object that is reached
/// within some number of references has only such objects before it. Each is reached.
pub proof fn lemma_dependencies_by_distance(
    objects: Seq<ObjectData>,
    start: u32,
    i: int,
    j: int,
    n: nat,
)
    requires
        0 <= i <= j < dependencies(objects, start).len(),
    ensures
        reached(objects, start, n, dependencies(objects, start)[j]) ==> reached(
            objects,
            start,
            n,
            dependencies(objects, start)[i],
        ),
        exists|k: nat| #[trigger] reached(objects, start, k, dependencies(objects, start)[j]),
{
    let queue = seq![start];
    let none = Set::<u32>::empty();
    let order = Seq::<u32>::empty();
    assert(queue[0] == start);
    assert(queue.contains(start));
    assert(queue.take(1) =~= queue);
    let last = lemma_walk_by_distance(objects, start, queue, none, order, 0, 1);
    let r = dependencies(objects, start);
    assert(r.contains(r[j]));
    assert(reached(objects, start, last, r[j]));
    assert(r[i] == r[i]);
}

/// The objects that an object depends on, itself among them, breadth first. Ids for which there
/// is no object are left out.
pub fn collect_dependencies(index: &HircIndex, start: u32) -> (r: Vec<u32>)
    ensures
        r@ == dependencies(index@, start),
{
    let mut order: Vec<u32> = Vec::new();
    let mut seen: HashSet<u32> = HashSet::new();
    let mut queue: Vec<u32> = vec![start];
    let mut head: usize = 0;
    proof {
        assert(queue@.skip(0) =~= seq![start]);
        assert(seen@ =~= Set::<u32>::empty());
        assert(order@ =~= Seq::<u32>::empty());
    }
    while head < queue.len()
        invariant
            head <= queue@.len(),
            walk(index@, queue@.skip(head as int), seen@, order@) == dependencies(index@, start),
        decreases unseen_count(index@, seen@), queue@.len() - head,
    {
        let ghost before = queue@.skip(head as int);
        let ghost was_seen = seen@;
        let id = queue[head];
        head = head + 1;
        assert(before[0] == id);
        assert(before.skip(1) =~= queue@.skip(head as int));
        if !seen.contains(&id) {
            seen.insert(id);
            proof {
                lemma_unseen_count(index@, was_seen, id);
            }
            if let Some(object) = index.get(id) {
                order.push(id);
                let refs = object.body.references_of();
                let ghost waiting = queue@;
                let mut i: usize = 0;
                assert(refs@.take(0) =~= Seq::<u32>::empty());
                assert(queue@ =~= waiting + unseen(refs@.take(0), seen@));
                while i < refs.len()
                    invariant
                        i <= refs@.len(),
                        queue@ == waiting + unseen(refs@.take(i as int), seen@),
                    decreases refs@.len() - i,
                {
                    let child = refs[i];
                    let ghost so_far = unseen(refs@.take(i as int), seen@);
                    assert(refs@.take(i + 1).drop_last() =~= refs@.take(i as int));
                    if !seen.contains(&child) {
                        queue.push(child);
                        assert(queue@ =~= waiting + so_far.push(child));
                    }
                    i = i + 1;
                }
                assert(refs@.take(i as int) =~= refs@);
                assert(queue@.skip(head as int) =~= before.skip(1) + unseen(refs@, seen@));
            }
        }
    }
    assert(queue@.skip(head as int) =~= Seq::<u32>::empty());
    order
}

// ---------------------------------------------------------------------------
// Trees
// ---------------------------------------------------------------------------
/// The label of an object that is shown: its name, or a dash.
pub open spec fn label_text(id: IdView) -> Seq<char> {
    match id_name(id) {
        Some(name) => name,
        None => "—"@,
    }
}

/// The line of an id in a tree.
pub open spec fn tree_line(
    objects: Seq<ObjectData>,
    id: u32,
    pad: Seq<char>,
    cycle: bool,
) -> Seq<char> {
    let start = pad + decimal_text(id as nat);
    match last_with(objects, id) {
        Some(o) => {
            let end = if cycle {
                "  (cycle)"@
            } else {
                ""@
            };
            start + "  "@ + kind_name(o.body.kind) + "  "@ + label_text(o.id) + end
        },
        None => start + " (external — not in this bank)"@,
    }
}

/// Ids one step further in, the last one first.
pub open spec fn indented(ids: Seq<u32>, pad: Seq<char>) -> Seq<(u32, Seq<char>)> {
    Seq::new(ids.len(), |i: int| (ids[ids.len() - 1 - i], pad + "  "@))
}

/// The lines of a tree, and the ids that were visited.
pub struct Tree {
    pub lines: Seq<Seq<char>>,
    pub visited: Set<u32>,
}

/// A walk over the graph, depth first. `stack` is what is to be visited, its last element next,
/// each with what stands in front of its line. What an object refers to is visited at its first
/// visit only.
pub open spec fn tree_walk(
    objects: Seq<ObjectData>,
    stack: Seq<(u32, Seq<char>)>,
    visited: Set<u32>,
    lines: Seq<Seq<char>>,
) -> Tree
    decreases unseen_count(objects, visited), stack.len(),
{
    if stack.len() == 0 {
        Tree { lines, visited }
    } else {
        let (id, pad) = stack.last();
        let rest = stack.drop_last();
        let more = lines.push(tree_line(objects, id, pad, visited.contains(id)));
        if visited.contains(id) {
            tree_walk(objects, rest, visited, more)
        } else {
            proof {
                lemma_unseen_count(objects, visited, id);
            }
            match last_with(objects, id) {
                Some(o) => tree_walk(
                    objects,
                    rest + indented(references(o.body), pad),
                    visited.insert(id),
                    more,
                ),
                None => tree_walk(objects, rest, visited.insert(id), more),
            }
        }
    }
}

/// The tree below an object.
pub open spec fn tree_of_object(objects: Seq<ObjectData>, root: u32) -> Tree {
    tree_walk(objects, seq![(root, Seq::empty())], Set::empty(), Seq::empty())
}

/// Is the id among what is to be visited?
pub open spec fn waits(stack: Seq<(u32, Seq<char>)>, id: u32) -> bool {
    exists|i: int| 0 <= i < stack.len() && (#[trigger] stack[i]).0 == id
}

proof fn lemma_waits(stack: Seq<(u32, Seq<char>)>, ids: Seq<u32>, pad: Seq<char>, id: u32)
    requires
        stack.len() > 0,
    ensures
        waits(stack, id) == (waits(stack.drop_last(), id) || stack.last().0 == id),
        waits(stack.drop_last() + indented(ids, pad), id) == (waits(stack.drop_last(), id)
            || ids.contains(id)),
{
    let rest = stack.drop_last();
    let inner = indented(ids, pad);
    let joined = rest + inner;
    if waits(stack, id) {
        let i = choose|i: int| 0 <= i < stack.len() && (#[trigger] stack[i]).0 == id;
        if i < rest.len() {
            assert(rest[i].0 == id);
        }
    }
    if waits(rest, id) {
        let i = choose|i: int| 0 <= i < rest.len() && (#[trigger] rest[i]).0 == id;
        assert(stack[i].0 == id);
        assert(joined[i].0 == id);
    }
    if stack.last().0 == id {
        assert(stack[stack.len() - 1].0 == id);
    }
    if ids.contains(id) {
        let i = choose|i: int| 0 <= i < ids.len() && ids[i] == id;
        assert(joined[rest.len() + ids.len() - 1 - i].0 == id);
    }
    if waits(joined, id) {
        let i = choose|i: int| 0 <= i < joined.len() && (#[trigger] joined[i]).0 == id;
        if i < rest.len() {
            assert(rest[i].0 == id);
        } else {
            assert(ids[ids.len() - 1 - (i - rest.len())] == id);
        }
    }
}

proof fn lemma_tree_walk(
    objects: Seq<ObjectData>,
    root: u32,
    stack: Seq<(u32, Seq<char>)>,
    visited: Set<u32>,
    lines: Seq<Seq<char>>,
    ids: Set<u32>,
)
    requires
        visited.contains(root) || waits(stack, root),
        forall|a: u32, b: u32|
            #![trigger visited.contains(a), refers(objects, a).contains(b)]
            visited.contains(a) && refers(objects, a).contains(b) ==> visited.contains(b) || waits(
                stack,
                b,
            ),
        closed_under(objects, ids),
        forall|a: u32| #[trigger]
            waits(stack, a) && last_with(objects, a) is Some ==> ids.contains(a),
        forall|a: u32| #[trigger]
            visited.contains(a) && last_with(objects, a) is Some ==> ids.contains(a),
    ensures
        ({
            let r = tree_walk(objects, stack, visited, lines).visited;
            &&& r.contains(root)
            &&& forall|a: u32, b: u32|
                #![trigger r.contains(a), refers(objects, a).contains(b)]
                r.contains(a) && refers(objects, a).contains(b) ==> r.contains(b)
            &&& forall|a: u32| #[trigger]
                r.contains(a) && last_with(objects, a) is Some ==> ids.contains(a)
        }),
    decreases unseen_count(objects, visited), stack.len(),
{
    if stack.len() > 0 {
        let (id, pad) = stack.last();
        let rest = stack.drop_last();
        let more = lines.push(tree_line(objects, id, pad, visited.contains(id)));
        let refs = refers(objects, id);
        let next = rest + indented(refs, pad);
        lemma_waits(stack, refs, pad, id);
        lemma_waits(stack, refs, pad, root);
        if visited.contains(id) {
            assert forall|a: u32, b: u32|
                #![trigger visited.contains(a), refers(objects, a).contains(b)]
                visited.contains(a) && refers(objects, a).contains(b) implies visited.contains(b)
                || waits(rest, b) by {
                lemma_waits(stack, refs, pad, b);
            }
            assert forall|a: u32| #[trigger]
                waits(rest, a) && last_with(objects, a) is Some implies ids.contains(a) by {
                lemma_waits(stack, refs, pad, a);
            }
            lemma_tree_walk(objects, root, rest, visited, more, ids);
            assert(tree_walk(objects, stack, visited, lines) == tree_walk(
                objects,
                rest,
                visited,
                more,
            ));
        } else {
            lemma_unseen_count(objects, visited, id);
            let now = visited.insert(id);
            if last_with(objects, id) is None {
                assert(next =~= rest);
            }
            assert forall|a: u32, b: u32|
                #![trigger now.contains(a), refers(objects, a).contains(b)]
                now.contains(a) && refers(objects, a).contains(b) implies now.contains(b) || waits(
                next,
                b,
            ) by {
                lemma_waits(stack, refs, pad, b);
                if a != id {
                    assert(visited.contains(a));
                }
            }
            assert forall|a: u32| #[trigger]
                waits(next, a) && last_with(objects, a) is Some implies ids.contains(a) by {
                lemma_waits(stack, refs, pad, a);
                if refs.contains(a) {
                    assert(ids.contains(id));
                }
            }
            lemma_tree_walk(objects, root, next, now, more, ids);
            assert(tree_walk(objects, stack, visited, lines) == tree_walk(
                objects,
                next,
                now,
                more,
            ));
        }
    }
}

/// The tree below an object shows the dependencies of the object, and of other ids only those
/// that they refer to.
pub proof fn lemma_tree_shows_dependencies(objects: Seq<ObjectData>, root: u32)
    ensures
        known(objects).intersect(tree_of_object(objects, root).visited) == dependencies(
            objects,
            root,
        ).to_set(),
{
    let deps = dependencies(objects, root).to_set();
    let stack = seq![(root, Seq::<char>::empty())];
    let none = Set::<u32>::empty();
    let shown = tree_of_object(objects, root).visited;
    lemma_dependencies(objects, root, deps);
    assert(stack[0].0 == root);
    assert forall|a: u32| #[trigger]
        waits(stack, a) && last_with(objects, a) is Some implies deps.contains(a) by {
        let i = choose|i: int| 0 <= i < stack.len() && (#[trigger] stack[i]).0 == a;
        assert(a == root);
        assert(dependencies(objects, root).contains(root));
    }
    lemma_tree_walk(objects, root, stack, none, Seq::empty(), deps);
    lemma_dependencies(objects, root, shown);
    assert forall|a: u32| known(objects).intersect(shown).contains(a) == deps.contains(a) by {
        lemma_known(objects, a);
        if deps.contains(a) {
            assert(dependencies(objects, root).contains(a));
        }
    }
    assert(known(objects).intersect(shown) =~= deps);
}

/// The label of an object that is shown: its name, or a dash.
pub fn label_of(id: &crate::ids::ObjectId) -> (r: String)
    ensures
        r@ == label_text(id@),
{
    match id.name() {
        Some(name) => name,
        None => "—".to_owned(),
    }
}

/// Texts, as plain data.
pub open spec fn texts_view(texts: Seq<String>) -> Seq<Seq<char>> {
    texts.map_values(|t: String| t@)
}

fn line_of(index: &HircIndex, id: u32, pad: &str, cycle: bool) -> (r: String)
    ensures
        r@ == tree_line(index@, id, pad@, cycle),
{
    let start = join(pad, decimal(id as u64).as_str());
    match index.get(id) {
        Some(object) => {
            let end = if cycle {
                "  (cycle)"
            } else {
                ""
            };
            let kinded = join3(start.as_str(), "  ", object.body.kind().name());
            join3(join(kinded.as_str(), "  ").as_str(), label_of(&object.id).as_str(), end)
        },
        None => join(start.as_str(), " (external — not in this bank)"),
    }
}

/// What is to be visited, as plain data.
spec fn stack_view(stack: Seq<(u32, String)>) -> Seq<(u32, Seq<char>)> {
    stack.map_values(|s: (u32, String)| (s.0, s.1@))
}

/// The lines of the tree below an object.
pub fn tree_lines(index: &HircIndex, root: u32) -> (r: Vec<String>)
    ensures
        texts_view(r@) == tree_of_object(index@, root).lines,
{
    let mut lines: Vec<String> = Vec::new();
    let mut visited: HashSet<u32> = HashSet::new();
    let mut stack: Vec<(u32, String)> = vec![(root, String::new())];
    proof {
        assert(stack_view(stack@) =~= seq![(root, Seq::empty())]) by {
            assert(stack@[0].1@ =~= Seq::<char>::empty());
        }
        assert(visited@ =~= Set::<u32>::empty());
        assert(texts_view(lines@) =~= Seq::<Seq<char>>::empty());
    }
    while stack.len() > 0
        invariant
            tree_walk(index@, stack_view(stack@), visited@, texts_view(lines@)) == tree_of_object(
                index@,
                root,
            ),
        decreases unseen_count(index@, visited@), stack@.len(),
    {
        let ghost before = stack_view(stack@);
        let ghost was_visited = visited@;
        let ghost so_far = texts_view(lines@);
        let (id, pad) = match stack.pop() {
            Some(top) => top,
            None => {
                return lines;
            },
        };
        proof {
            assert(before.last() == (id, pad@));
            assert(stack_view(stack@) =~= before.drop_last());
        }
        let cycle = visited.contains(&id);
        let line = line_of(index, id, pad.as_str(), cycle);
        let ghost text = line@;
        lines.push(line);
        assert(texts_view(lines@) =~= so_far.push(text));
        if !cycle {
            visited.insert(id);
            proof {
                lemma_unseen_count(index@, was_visited, id);
            }
            if let Some(object) = index.get(id) {
                let refs = object.body.references_of();
                let ghost rest = stack_view(stack@);
                let ghost target = indented(refs@, pad@);
                let mut i: usize = refs.len();
                assert(stack_view(stack@) =~= rest + target.take(0));
                while i > 0
                    invariant
                        i <= refs@.len(),
                        target == indented(refs@, pad@),
                        stack_view(stack@) == rest + target.take(refs@.len() - i),
                    decreases i,
                {
                    let ghost pushed = stack_view(stack@);
                    i = i - 1;
                    let inner = join(pad.as_str(), "  ");
                    let ghost one = (refs@[i as int], inner@);
                    stack.push((refs[i], inner));
                    proof {
                        let n = refs@.len() - i;
                        assert(stack_view(stack@) =~= pushed.push(one));
                        assert(target[n - 1] == one);
                        assert(target.take(n) =~= target.take(n - 1).push(one));
                        assert(rest + target.take(n) =~= pushed.push(one));
                    }
                }
                assert(target.take(refs@.len() as int) =~= target);
            }
        }
    }
    assert(stack_view(stack@) =~= Seq::<(u32, Seq<char>)>::empty());
    lines
}

} // verus!
