//! Replacing one id by another everywhere in a tree.

use vstd::prelude::*;

use crate::json::{as_ids, as_u32, at, member, named, Json, JsonView};
use crate::json_text::{all_keys_distinct, all_numbers_plain, distinct_keys, nested_within, printable};
use crate::seqs::first_where;

verus! {

/// The tree with every number `from` replaced by `to`. Member names, and numbers that are no
/// unsigned integers, stay as they are.
pub open spec fn renumbered(v: JsonView, from: u32, to: u32) -> JsonView
    decreases v,
{
    match v {
        JsonView::Unsigned(n) => if n == from {
            JsonView::Unsigned(to as u64)
        } else {
            v
        },
        JsonView::Array(items) => JsonView::Array(
            Seq::new(
                items.len(),
                |i: int|
                    if 0 <= i < items.len() {
                        renumbered(items[i], from, to)
                    } else {
                        JsonView::Null
                    },
            ),
        ),
        JsonView::Object(members) => JsonView::Object(
            Seq::new(
                members.len(),
                |i: int|
                    if 0 <= i < members.len() {
                        (members[i].0, renumbered(members[i].1, from, to))
                    } else {
                        (Seq::empty(), JsonView::Null)
                    },
            ),
        ),
        _ => v,
    }
}

/// `id`, or `to` if it is `from`.
pub open spec fn renumbered_id(id: u32, from: u32, to: u32) -> u32 {
    if id == from {
        to
    } else {
        id
    }
}

/// A list of ids with `to` for `from`.
pub open spec fn renumbered_ids(ids: Seq<u32>, from: u32, to: u32) -> Seq<u32> {
    ids.map_values(|id: u32| renumbered_id(id, from, to))
}

/// Does the number `n` occur in the tree?
pub open spec fn mentions(v: JsonView, n: u32) -> bool
    decreases v,
{
    match v {
        JsonView::Unsigned(m) => m == n,
        JsonView::Array(items) => exists|i: int|
            0 <= i < items.len() && mentions(#[trigger] items[i], n),
        JsonView::Object(members) => exists|i: int|
            0 <= i < members.len() && mentions((#[trigger] members[i]).1, n),
        _ => false,
    }
}

/// The tree with every number `from` replaced by `to`.
fn renumber_tree(tree: Json, from: u32, to: u32) -> (r: Json)
    ensures
        r@ == renumbered(tree@, from, to),
    decreases tree,
{
    let ghost before = tree;
    match tree {
        Json::Unsigned(n) => if n == from as u64 {
            Json::Unsigned(to as u64)
        } else {
            Json::Unsigned(n)
        },
        Json::Array(items) => {
            let mut out: Vec<Json> = Vec::new();
            for item in it: items
                invariant
                    it.seq() == items@,
                    before == tree,
                    decreases_to!(before => items),
                    out@.len() == it.index(),
                    forall|k: int|
                        0 <= k < out@.len() ==> (#[trigger] out@[k])@ == renumbered(
                            items@[k]@,
                            from,
                            to,
                        ),
            {
                assert(decreases_to!(items => items@));
                assert(decreases_to!(items@ => items@[it.index() as int]));
                out.push(renumber_tree(item, from, to));
            }
            let r = Json::Array(out);
            assert(r@->Array_0 =~= renumbered(before@, from, to)->Array_0);
            r
        },
        Json::Object(members) => {
            let mut out: Vec<(String, Json)> = Vec::new();
            for entry in it: members
                invariant
                    it.seq() == members@,
                    before == tree,
                    decreases_to!(before => members),
                    out@.len() == it.index(),
                    forall|k: int|
                        0 <= k < out@.len() ==> (#[trigger] out@[k]).0@ == members@[k].0@
                            && out@[k].1@ == renumbered(members@[k].1@, from, to),
            {
                assert(decreases_to!(members => members@));
                assert(decreases_to!(members@ => members@[it.index() as int]));
                assert(decreases_to!(members@[it.index() as int] => members@[it.index() as int].1));
                let (name, inner) = entry;
                out.push((name, renumber_tree(inner, from, to)));
            }
            let r = Json::Object(out);
            assert(r@->Object_0 =~= renumbered(before@, from, to)->Object_0);
            r
        },
        other => other,
    }
}

/// Replaces every number `from` in the tree by `to`.
pub fn rewrite_u32(value: &mut Json, from: u32, to: u32)
    ensures
        final(value)@ == renumbered(old(value)@, from, to),
{
    let mut tree = Json::Null;
    std::mem::swap(value, &mut tree);
    *value = renumber_tree(tree, from, to);
}

/// The new number takes the place of the old one: of the old one nothing is left.
pub proof fn lemma_renumbered_leaves_none(v: JsonView, from: u32, to: u32)
    requires
        from != to,
    ensures
        !mentions(renumbered(v, from, to), from),
    decreases v,
{
    match v {
        JsonView::Array(items) => {
            let out = renumbered(v, from, to)->Array_0;
            assert forall|i: int| 0 <= i < out.len() implies !mentions(#[trigger] out[i], from) by {
                lemma_renumbered_leaves_none(items[i], from, to);
            }
        },
        JsonView::Object(members) => {
            let out = renumbered(v, from, to)->Object_0;
            assert forall|i: int| 0 <= i < out.len() implies !mentions(
                (#[trigger] out[i]).1,
                from,
            ) by {
                lemma_renumbered_leaves_none(members[i].1, from, to);
            }
        },
        _ => {},
    }
}

/// A tree in which the old number does not occur stays as it is.
pub proof fn lemma_renumbered_untouched(v: JsonView, from: u32, to: u32)
    requires
        !mentions(v, from),
    ensures
        renumbered(v, from, to) == v,
    decreases v,
{
    match v {
        JsonView::Array(items) => {
            let out = renumbered(v, from, to)->Array_0;
            assert forall|i: int| 0 <= i < items.len() implies out[i] == items[i] by {
                assert(!mentions(items[i], from));
                lemma_renumbered_untouched(items[i], from, to);
            }
            assert(out =~= items);
        },
        JsonView::Object(members) => {
            let out = renumbered(v, from, to)->Object_0;
            assert forall|i: int| 0 <= i < members.len() implies out[i] == members[i] by {
                assert(!mentions(members[i].1, from));
                lemma_renumbered_untouched(members[i].1, from, to);
            }
            assert(out =~= members);
        },
        _ => {},
    }
}

/// Renumbering can be undone, if the new number did not occur before.
pub proof fn lemma_renumbered_back(v: JsonView, from: u32, to: u32)
    requires
        !mentions(v, to),
    ensures
        renumbered(renumbered(v, from, to), to, from) == v,
    decreases v,
{
    let there = renumbered(v, from, to);
    match v {
        JsonView::Array(items) => {
            let back = renumbered(there, to, from)->Array_0;
            assert forall|i: int| 0 <= i < items.len() implies back[i] == items[i] by {
                assert(!mentions(items[i], to));
                lemma_renumbered_back(items[i], from, to);
            }
            assert(back =~= items);
        },
        JsonView::Object(members) => {
            let back = renumbered(there, to, from)->Object_0;
            assert forall|i: int| 0 <= i < members.len() implies back[i] == members[i] by {
                assert(!mentions(members[i].1, to));
                lemma_renumbered_back(members[i].1, from, to);
            }
            assert(back =~= members);
        },
        _ => {},
    }
}

/// A path leads to the same place before and after, where the number is replaced too.
pub proof fn lemma_renumbered_at(v: JsonView, path: Seq<Seq<char>>, from: u32, to: u32)
    ensures
        at(renumbered(v, from, to), path) == (match at(v, path) {
            Some(inner) => Some(renumbered(inner, from, to)),
            None => None,
        }),
    decreases path.len(),
{
    if path.len() > 0 {
        lemma_renumbered_member(v, path[0], from, to);
        if let Some(inner) = member(v, path[0]) {
            lemma_renumbered_at(inner, path.skip(1), from, to);
        }
    }
}

proof fn lemma_renumbered_member(v: JsonView, key: Seq<char>, from: u32, to: u32)
    ensures
        member(renumbered(v, from, to), key) == (match member(v, key) {
            Some(inner) => Some(renumbered(inner, from, to)),
            None => None,
        }),
{
    if let JsonView::Object(members) = v {
        let p = named(key);
        let out = renumbered(v, from, to)->Object_0;
        crate::seqs::lemma_first_where_points(members, p);
        let i = first_where(members, p);
        assert forall|k: int| 0 <= k < i implies !p(#[trigger] out[k]) by {
            assert(!p(members[k]));
        }
        crate::seqs::lemma_first_where(out, p, i);
        if i < members.len() {
            assert(out[i].1 == renumbered(members[i].1, from, to));
            assert(member(v, key) == Some(members[i].1));
            assert(member(JsonView::Object(out), key) == Some(out[i].1));
        } else {
            assert(member(v, key) is None);
            assert(member(JsonView::Object(out), key) is None);
        }
    }
}

/// A list of ids stays a list of ids, with the new number for the old one.
pub proof fn lemma_renumbered_as_ids(v: JsonView, from: u32, to: u32)
    ensures
        as_ids(renumbered(v, from, to)) == (match as_ids(v) {
            Some(ids) => Some(renumbered_ids(ids, from, to)),
            None => None,
        }),
{
    if let JsonView::Array(items) = v {
        let out = renumbered(v, from, to)->Array_0;
        assert forall|i: int| 0 <= i < items.len() implies (as_u32(#[trigger] out[i]) is Some)
            == (as_u32(items[i]) is Some) by {
            assert(out[i] == renumbered(items[i], from, to));
        }
        if forall|i: int| 0 <= i < items.len() ==> as_u32(#[trigger] items[i]) is Some {
            assert forall|i: int| 0 <= i < out.len() implies as_u32(#[trigger] out[i]) is Some by {
                assert(as_u32(items[i]) is Some);
            }
            let ids = as_ids(v).unwrap();
            let changed = as_ids(JsonView::Array(out)).unwrap();
            assert forall|i: int| 0 <= i < ids.len() implies changed[i] == renumbered_ids(
                ids,
                from,
                to,
            )[i] by {
                assert(out[i] == renumbered(items[i], from, to));
                assert(as_u32(items[i]) is Some);
            }
            assert(changed =~= renumbered_ids(ids, from, to));
        } else {
            let i = choose|i: int| 0 <= i < items.len() && as_u32(#[trigger] items[i]) is None;
            assert(as_u32(out[i]) is None);
        }
    }
}

/// A tree that can be written as text still can.
pub proof fn lemma_renumbered_printable(v: JsonView, from: u32, to: u32)
    requires
        printable(v),
    ensures
        printable(renumbered(v, from, to)),
    decreases v,
{
    match v {
        JsonView::Array(items) => {
            let out = renumbered(v, from, to);
            assert forall|i: int| 0 <= i < items.len() implies printable(
                #[trigger] out->Array_0[i],
            ) by {
                assert(all_keys_distinct(items[i]) && all_numbers_plain(items[i]));
                lemma_renumbered_printable(items[i], from, to);
            }
            assert(all_keys_distinct(out));
            assert(all_numbers_plain(out));
        },
        JsonView::Object(members) => {
            let out = renumbered(v, from, to);
            assert forall|i: int| 0 <= i < members.len() implies printable(
                (#[trigger] out->Object_0[i]).1,
            ) by {
                assert(all_keys_distinct(members[i].1) && all_numbers_plain(members[i].1));
                lemma_renumbered_printable(members[i].1, from, to);
            }
            assert(distinct_keys(out->Object_0));
            assert(all_keys_distinct(out));
            assert(all_numbers_plain(out));
        },
        _ => {},
    }
}

/// A tree is nested as deep as before.
pub proof fn lemma_renumbered_nesting(v: JsonView, from: u32, to: u32, depth: int)
    requires
        nested_within(v, depth),
    ensures
        nested_within(renumbered(v, from, to), depth),
    decreases v,
{
    match v {
        JsonView::Array(items) => {
            let out = renumbered(v, from, to)->Array_0;
            assert forall|i: int| 0 <= i < out.len() implies nested_within(
                #[trigger] out[i],
                depth - 1,
            ) by {
                assert(nested_within(items[i], depth - 1));
                lemma_renumbered_nesting(items[i], from, to, depth - 1);
            }
        },
        JsonView::Object(members) => {
            let out = renumbered(v, from, to)->Object_0;
            assert forall|i: int| 0 <= i < out.len() implies nested_within(
                (#[trigger] out[i]).1,
                depth - 1,
            ) by {
                assert(nested_within(members[i].1, depth - 1));
                lemma_renumbered_nesting(members[i].1, from, to, depth - 1);
            }
        },
        _ => {},
    }
}

} // verus!
