//! The tree below an object, level by level.

use vstd::prelude::*;

use crate::bank::ObjectData;
use crate::body::references;
use crate::graph::{
    indented, known, lemma_known, lemma_unseen_count, tree_line, tree_of_object, tree_walk,
    unseen_count, Tree,
};
use crate::ids::IdView;
use crate::index::last_with;
use crate::kind::kind_name;
use crate::text::decimal_text;

verus! {

/// Two spaces for each level.
pub open spec fn margin(depth: nat) -> Seq<char> {
    Seq::new(2 * depth, |i: int| ' ')
}

/// The line of an id at a level. An id that is shown again is marked, and so is one that is not in
/// the bank.
pub open spec fn line_at(
    objects: Seq<ObjectData>,
    id: u32,
    depth: nat,
    again: bool,
) -> Seq<char> {
    match last_with(objects, id) {
        Some(o) => {
            let name = match o.id {
                IdView::Name(name) => name,
                IdView::Hash(_) => "—"@,
            };
            let line = margin(depth) + decimal_text(id as nat) + "  "@ + kind_name(o.body.kind)
                + "  "@ + name;
            if again {
                line + "  (cycle)"@
            } else {
                line
            }
        },
        None => margin(depth) + decimal_text(id as nat) + " (external — not in this bank)"@,
    }
}

/// The more was seen, the fewer objects were not.
pub proof fn lemma_fewer_unseen(objects: Seq<ObjectData>, a: Set<u32>, b: Set<u32>)
    requires
        a.subset_of(b),
    ensures
        unseen_count(objects, b) <= unseen_count(objects, a),
{
    lemma_known(objects, 0);
    let more = known(objects).difference(a);
    let fewer = known(objects).difference(b);
    assert(fewer.subset_of(more));
    vstd::set_lib::lemma_len_subset(fewer, more);
}

/// What a list of ids shows at a level, by recursion over the levels: for each id its line, and
/// behind it, if the id is shown for the first time, what the object refers to, one level deeper.
/// It also tells which ids were shown in the end.
pub open spec fn outline(
    objects: Seq<ObjectData>,
    ids: Seq<u32>,
    depth: nat,
    shown: Set<u32>,
) -> Tree
    decreases unseen_count(objects, shown), ids.len(),
{
    if ids.len() == 0 {
        Tree { lines: Seq::empty(), visited: shown }
    } else {
        let id = ids[0];
        let now = shown.insert(id);
        let line = line_at(objects, id, depth, shown.contains(id));
        if shown.contains(id) {
            let rest = outline(objects, ids.skip(1), depth, shown);
            Tree { lines: seq![line] + rest.lines, visited: rest.visited }
        } else {
            proof {
                lemma_unseen_count(objects, shown, id);
            }
            match last_with(objects, id) {
                Some(o) => {
                    let below = outline(objects, references(o.body), depth + 1, now);
                    let by_then = below.visited.union(now);
                    proof {
                        lemma_fewer_unseen(objects, now, by_then);
                    }
                    let rest = outline(objects, ids.skip(1), depth, by_then);
                    Tree { lines: seq![line] + below.lines + rest.lines, visited: rest.visited }
                },
                None => {
                    let rest = outline(objects, ids.skip(1), depth, now);
                    Tree { lines: seq![line] + rest.lines, visited: rest.visited }
                },
            }
        }
    }
}

spec fn stacked(ids: Seq<u32>, depth: nat) -> Seq<(u32, Seq<char>)> {
    Seq::new(ids.len(), |i: int| (ids[ids.len() - 1 - i], margin(depth)))
}

proof fn lemma_line(objects: Seq<ObjectData>, id: u32, depth: nat, again: bool)
    ensures
        tree_line(objects, id, margin(depth), again) == line_at(objects, id, depth, again),
{
    reveal_strlit("");
    if let Some(o) = last_with(objects, id) {
        let line = margin(depth) + decimal_text(id as nat) + "  "@ + kind_name(o.body.kind)
            + "  "@ + crate::graph::label_text(o.id);
        assert(line + ""@ =~= line);
    }
}

proof fn lemma_one_level_deeper(ids: Seq<u32>, depth: nat)
    ensures
        indented(ids, margin(depth)) == stacked(ids, depth + 1),
{
    reveal_strlit("  ");
    assert("  "@.len() == 2 && "  "@[0] == ' ' && "  "@[1] == ' ');
    assert(margin(depth) + "  "@ =~= margin(depth + 1));
    assert(indented(ids, margin(depth)) =~= stacked(ids, depth + 1));
}

#[verifier::rlimit(40)]
proof fn lemma_walk_is_outline(
    objects: Seq<ObjectData>,
    below: Seq<(u32, Seq<char>)>,
    ids: Seq<u32>,
    depth: nat,
    shown: Set<u32>,
    lines: Seq<Seq<char>>,
)
    ensures
        ({
            let r = outline(objects, ids, depth, shown);
            &&& shown.subset_of(r.visited)
            &&& tree_walk(objects, below + stacked(ids, depth), shown, lines) == tree_walk(
                objects,
                below,
                r.visited,
                lines + r.lines,
            )
        }),
    decreases unseen_count(objects, shown), ids.len(),
{
    let stack = below + stacked(ids, depth);
    let r = outline(objects, ids, depth, shown);
    if ids.len() == 0 {
        assert(stack =~= below);
        assert(lines + r.lines =~= lines);
    } else {
        let id = ids[0];
        let rest = ids.skip(1);
        let now = shown.insert(id);
        let line = line_at(objects, id, depth, shown.contains(id));
        let next = below + stacked(rest, depth);
        assert(stack.last() == (id, margin(depth)));
        assert(stack.drop_last() =~= next);
        lemma_line(objects, id, depth, shown.contains(id));
        let more = lines.push(line);
        if shown.contains(id) {
            lemma_walk_is_outline(objects, below, rest, depth, shown, more);
            let after = outline(objects, rest, depth, shown);
            assert(more + after.lines =~= lines + r.lines);
        } else {
            lemma_unseen_count(objects, shown, id);
            match last_with(objects, id) {
                Some(o) => {
                    let refs = references(o.body);
                    let inner = outline(objects, refs, depth + 1, now);
                    let by_then = inner.visited.union(now);
                    lemma_one_level_deeper(refs, depth);
                    lemma_walk_is_outline(objects, next, refs, depth + 1, now, more);
                    assert(by_then =~= inner.visited);
                    lemma_fewer_unseen(objects, now, by_then);
                    lemma_walk_is_outline(objects, below, rest, depth, by_then, more + inner.lines);
                    let after = outline(objects, rest, depth, by_then);
                    assert(more + inner.lines + after.lines =~= lines + r.lines);
                    assert(shown.subset_of(by_then));
                },
                None => {
                    lemma_walk_is_outline(objects, below, rest, depth, now, more);
                    let after = outline(objects, rest, depth, now);
                    assert(more + after.lines =~= lines + r.lines);
                },
            }
        }
    }
}

/// The tree below an object is its outline: the object stands at the margin, and what an object
/// refers to stands below it, in the order of its references, indented by two more spaces.
pub proof fn lemma_tree_is_outline(objects: Seq<ObjectData>, root: u32)
    ensures
        tree_of_object(objects, root) == outline(objects, seq![root], 0, Set::empty()),
{
    let none = Seq::<(u32, Seq<char>)>::empty();
    let r = outline(objects, seq![root], 0, Set::empty());
    lemma_walk_is_outline(objects, none, seq![root], 0, Set::empty(), Seq::empty());
    assert(margin(0) =~= Seq::<char>::empty());
    assert(none + stacked(seq![root], 0) =~= seq![(root, Seq::<char>::empty())]);
    assert(Seq::<Seq<char>>::empty() + r.lines =~= r.lines);
}

/// The first line of a tree is that of the object itself, at the margin.
pub proof fn lemma_tree_starts_at_the_margin(objects: Seq<ObjectData>, root: u32)
    ensures
        tree_of_object(objects, root).lines.len() > 0,
        tree_of_object(objects, root).lines[0] == line_at(objects, root, 0, false),
{
    lemma_tree_is_outline(objects, root);
}

} // verus!
