//! Searching and sorting, over sequences and over vectors.

use vstd::prelude::*;

verus! {

/// The index of the first element that satisfies `p`, or the length of `s` if there is none.
pub open spec fn first_where<A>(s: Seq<A>, p: spec_fn(A) -> bool) -> int
    decreases s.len(),
{
    if s.len() == 0 {
        0
    } else if p(s[0]) {
        0
    } else {
        1 + first_where(s.skip(1), p)
    }
}

/// A search that passed over the first `i` elements and stopped at `i`, at the end or at a hit,
/// has found the first hit.
pub proof fn lemma_first_where<A>(s: Seq<A>, p: spec_fn(A) -> bool, i: int)
    requires
        0 <= i <= s.len(),
        forall|k: int| 0 <= k < i ==> !p(#[trigger] s[k]),
        i == s.len() || p(s[i]),
    ensures
        first_where(s, p) == i,
    decreases s.len(),
{
    if s.len() > 0 && i > 0 {
        assert(!p(s[0]));
        assert forall|k: int| 0 <= k < i - 1 implies !p(#[trigger] s.skip(1)[k]) by {
            assert(s.skip(1)[k] == s[k + 1]);
        }
        if i < s.len() {
            assert(s.skip(1)[i - 1] == s[i]);
        }
        lemma_first_where(s.skip(1), p, i - 1);
    }
}

/// What `first_where` points at.
pub proof fn lemma_first_where_points<A>(s: Seq<A>, p: spec_fn(A) -> bool)
    ensures
        0 <= first_where(s, p) <= s.len(),
        first_where(s, p) < s.len() ==> p(s[first_where(s, p)]),
        forall|k: int| 0 <= k < first_where(s, p) ==> !p(#[trigger] s[k]),
    decreases s.len(),
{
    if s.len() > 0 && !p(s[0]) {
        lemma_first_where_points(s.skip(1), p);
        let n = first_where(s.skip(1), p);
        assert forall|k: int| 0 <= k < n + 1 implies !p(#[trigger] s[k]) by {
            if k > 0 {
                assert(s[k] == s.skip(1)[k - 1]);
            }
        }
        if n < s.skip(1).len() {
            assert(s[n + 1] == s.skip(1)[n]);
        }
    }
}

/// Ascending order, equal neighbours allowed.
pub open spec fn ascending(s: Seq<u32>) -> bool {
    forall|i: int, j: int| 0 <= i <= j < s.len() ==> s[i] <= s[j]
}

/// `r` holds the elements of `s`, each as often as `s` does, in ascending order.
pub open spec fn is_sorted_form(r: Seq<u32>, s: Seq<u32>) -> bool {
    &&& ascending(r)
    &&& r.to_multiset() == s.to_multiset()
}

/// The ids of `s` in ascending order.
pub open spec fn sorted(s: Seq<u32>) -> Seq<u32> {
    s.sort_by(|a: u32, b: u32| a <= b)
}

/// `sorted` is an ascending arrangement of the same ids.
pub proof fn lemma_sorted(s: Seq<u32>)
    ensures
        is_sorted_form(sorted(s), s),
{
    let leq = |a: u32, b: u32| a <= b;
    s.lemma_sort_by_ensures(leq);
    let r = sorted(s);
    assert forall|i: int, j: int| 0 <= i <= j < r.len() implies r[i] <= r[j] by {
        if i < j {
            assert(leq(r[i], r[j]));
        }
    }
}

/// There is only one ascending arrangement of a list of ids.
pub proof fn lemma_sorted_form_unique(a: Seq<u32>, b: Seq<u32>, s: Seq<u32>)
    requires
        is_sorted_form(a, s),
        is_sorted_form(b, s),
    ensures
        a == b,
{
    let leq = |x: u32, y: u32| x <= y;
    assert(vstd::relations::sorted_by(a, leq));
    assert(vstd::relations::sorted_by(b, leq));
    vstd::seq_lib::lemma_sorted_unique(a, b, leq);
}

/// Puts `x` where it belongs in an ascending list.
fn insert_id(list: &mut Vec<u32>, x: u32)
    requires
        ascending(old(list)@),
    ensures
        ascending(final(list)@),
        final(list)@.to_multiset() == old(list)@.push(x).to_multiset(),
{
    let mut p: usize = list.len();
    while p > 0 && list[p - 1] > x
        invariant
            p <= list@.len(),
            ascending(list@),
            forall|k: int| p <= k < list@.len() ==> list@[k] > x,
        decreases p,
    {
        p = p - 1;
    }
    let ghost before = list@;
    list.insert(p, x);
    proof {
        broadcast use vstd::seq_lib::group_to_multiset_ensures;

        assert(before.insert(p as int, x).to_multiset() == before.to_multiset().insert(x));
    }
}

/// The ids of `items` in ascending order.
pub fn sort_ids(items: &Vec<u32>) -> (r: Vec<u32>)
    ensures
        r@ == sorted(items@),
        is_sorted_form(r@, items@),
{
    let mut r: Vec<u32> = Vec::new();
    let mut i: usize = 0;
    assert(items@.take(0) =~= r@);
    while i < items.len()
        invariant
            i <= items@.len(),
            ascending(r@),
            r@.to_multiset() == items@.take(i as int).to_multiset(),
        decreases items@.len() - i,
    {
        let ghost before = r@;
        insert_id(&mut r, items[i]);
        proof {
            broadcast use vstd::seq_lib::group_to_multiset_ensures;

            assert(items@.take(i + 1) =~= items@.take(i as int).push(items@[i as int]));
        }
        i = i + 1;
    }
    assert(items@.take(items@.len() as int) =~= items@);
    proof {
        lemma_sorted(items@);
        lemma_sorted_form_unique(r@, sorted(items@), items@);
    }
    r
}

/// Is `x` one of the ids?
pub fn contains_id(items: &Vec<u32>, x: u32) -> (r: bool)
    ensures
        r == items@.contains(x),
{
    let mut i: usize = 0;
    while i < items.len()
        invariant
            i <= items@.len(),
            forall|k: int| 0 <= k < i ==> items@[k] != x,
        decreases items@.len() - i,
    {
        if items[i] == x {
            assert(items@[i as int] == x);
            return true;
        }
        i = i + 1;
    }
    false
}

} // verus!
