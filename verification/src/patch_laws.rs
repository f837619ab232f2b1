//! What patches do to stored trees, and how banks are compared.

use vstd::prelude::*;

use crate::body::{children, well_formed, BodyView};
use crate::compare::{difference, lemma_collected_rises, plain_children, rising};
use crate::editor::{collected, lemma_collected};
use crate::field_laws::parted;
use crate::graph::unseen;
use crate::ids::name_hash;
use crate::json::{at, lemma_put_at, lemma_put_elsewhere, member, put, JsonView};
use crate::json_text::{printable, printed_json};
use crate::kind::{kind_name, kind_named, kind_number, BodyKind};
use crate::patch::{
    bank_patched, id_trees, mixer_patched, new_row, placed_tree, section_patched, sorted_trees,
    subgraph_type, tree_hashed, with_more_children, PatchError,
};
use crate::seqs::{first_where, lemma_first_where_points};

verus! {

// ---------------------------------------------------------------------------
// Sorted trees
// ---------------------------------------------------------------------------
/// The number that a tree is, or zero.
pub open spec fn worth(tree: JsonView) -> u64 {
    match tree {
        JsonView::Unsigned(n) => n,
        _ => 0,
    }
}

/// Do the numbers ascend?
pub open spec fn numbers_ascend(trees: Seq<JsonView>) -> bool {
    forall|i: int, j: int|
        0 <= i <= j < trees.len() ==> worth(#[trigger] trees[i]) <= worth(
            #[trigger] trees[j],
        )
}

proof fn lemma_placed(trees: Seq<JsonView>, tree: JsonView)
    requires
        numbers_ascend(trees),
    ensures
        numbers_ascend(placed_tree(trees, tree)),
        placed_tree(trees, tree).to_multiset() == trees.to_multiset().insert(tree),
        placed_tree(trees, tree).len() == trees.len() + 1,
        forall|i: int|
            0 <= i <= trees.len() ==> worth(#[trigger] placed_tree(trees, tree)[i]) <= worth(
                tree,
            ) || (trees.len() > 0 && worth(placed_tree(trees, tree)[i]) <= worth(
                trees.last(),
            )),
    decreases trees.len(),
{
    broadcast use vstd::seq_lib::group_to_multiset_ensures;

    let r = placed_tree(trees, tree);
    if trees.len() == 0 || worth(trees.last()) <= worth(tree) {
        assert forall|i: int, j: int| 0 <= i <= j < r.len() implies worth(#[trigger] r[i])
            <= worth(#[trigger] r[j]) by {
            if i < trees.len() {
                assert(worth(trees[i]) <= worth(trees[trees.len() - 1]));
                if j < trees.len() {
                    assert(worth(trees[i]) <= worth(trees[j]));
                }
            }
        }
    } else {
        let front = trees.drop_last();
        let last = trees.last();
        assert forall|i: int, j: int| 0 <= i <= j < front.len() implies worth(
            #[trigger] front[i],
        ) <= worth(#[trigger] front[j]) by {
            assert(worth(trees[i]) <= worth(trees[j]));
        }
        lemma_placed(front, tree);
        let inner = placed_tree(front, tree);
        assert forall|i: int| 0 <= i < inner.len() implies worth(#[trigger] inner[i])
            <= worth(last) by {
            if front.len() > 0 {
                assert(worth(trees[trees.len() - 2]) <= worth(trees[trees.len() - 1]));
            }
        }
        assert forall|i: int, j: int| 0 <= i <= j < r.len() implies worth(#[trigger] r[i])
            <= worth(#[trigger] r[j]) by {
            if j < inner.len() {
                assert(worth(inner[i]) <= worth(inner[j]));
            } else if i < inner.len() {
                assert(worth(inner[i]) <= worth(last));
            }
        }
        assert(trees =~= front.push(last));
        assert(r.to_multiset() =~= trees.to_multiset().insert(tree));
    }
}

/// Sorting loses nothing and adds nothing, and puts the numbers in ascending order.
pub proof fn lemma_sorted_trees(trees: Seq<JsonView>)
    ensures
        numbers_ascend(sorted_trees(trees)),
        sorted_trees(trees).to_multiset() == trees.to_multiset(),
        sorted_trees(trees).len() == trees.len(),
    decreases trees.len(),
{
    broadcast use vstd::seq_lib::group_to_multiset_ensures;

    if trees.len() > 0 {
        let front = trees.drop_last();
        lemma_sorted_trees(front);
        lemma_placed(sorted_trees(front), trees.last());
        assert(trees =~= front.push(trees.last()));
    }
}

// ---------------------------------------------------------------------------
// Children of a stored mixer
// ---------------------------------------------------------------------------
/// Is the second tree the first with more children in a list, in ascending order, with their
/// number beside the list if there was one, and with everything else as it was?
pub open spec fn only_gained_children(
    before: JsonView,
    after: JsonView,
    items_path: Seq<Seq<char>>,
    count_path: Seq<Seq<char>>,
    ids: Seq<u32>,
) -> bool {
    let more = ids.map_values(|id: u32| JsonView::Unsigned(id as u64));
    &&& at(before, items_path) is Some && at(before, items_path)->Some_0 is Array
    &&& at(after, items_path) is Some && at(after, items_path)->Some_0 is Array
    &&& ({
        let was = at(before, items_path)->Some_0->Array_0;
        let is = at(after, items_path)->Some_0->Array_0;
        &&& numbers_ascend(is)
        &&& is.to_multiset() == (was + more).to_multiset()
        &&& is.len() == was.len() + ids.len()
        &&& at(before, count_path) is Some ==> at(after, count_path) == Some(
            JsonView::Unsigned(is.len() as u64),
        )
        &&& at(before, count_path) is None ==> at(after, count_path) is None
    })
    &&& forall|other: Seq<Seq<char>>| #[trigger]
        parted(items_path, other) && parted(count_path, other) ==> at(after, other) == at(
            before,
            other,
        )
}

proof fn lemma_gains_children(
    tree: JsonView,
    items_path: Seq<Seq<char>>,
    count_path: Seq<Seq<char>>,
    ids: Seq<u32>,
)
    requires
        parted(items_path, count_path),
        parted(count_path, items_path),
    ensures
        match with_more_children(tree, items_path, count_path, ids) {
            Ok(after) => only_gained_children(tree, after, items_path, count_path, ids),
            Err(e) => e == PatchError::NoChildren && !(at(tree, items_path) matches Some(
                JsonView::Array(_),
            )),
        },
{
    if let Some(JsonView::Array(items)) = at(tree, items_path) {
        let more = id_trees(ids);
        let all = sorted_trees(items + more);
        lemma_sorted_trees(items + more);
        let longer = put(tree, items_path, JsonView::Array(all));
        lemma_put_at(tree, items_path, JsonView::Array(all));
        lemma_put_apart(tree, items_path, count_path, JsonView::Array(all));
        let after = with_more_children(tree, items_path, count_path, ids)->Ok_0;
        let count = JsonView::Unsigned(all.len() as u64);
        if at(longer, count_path) is Some {
            lemma_put_at(longer, count_path, count);
            lemma_put_apart(longer, count_path, items_path, count);
        }
        assert forall|other: Seq<Seq<char>>| #[trigger]
            parted(items_path, other) && parted(count_path, other) implies at(after, other) == at(
            tree,
            other,
        ) by {
            lemma_put_apart(tree, items_path, other, JsonView::Array(all));
            lemma_put_apart(longer, count_path, other, count);
        }
    }
}

proof fn lemma_put_apart(
    v: JsonView,
    path: Seq<Seq<char>>,
    other: Seq<Seq<char>>,
    new: JsonView,
)
    requires
        parted(path, other),
    ensures
        at(put(v, path, new), other) == at(v, other),
{
    let k = choose|k: int|
        0 <= k < path.len() && k < other.len() && #[trigger] path[k] != other[k] && forall|j: int|
            0 <= j < k ==> #[trigger] path[j] == other[j];
    lemma_put_elsewhere(v, path, other, new, k);
}

proof fn lemma_counts_apart()
    ensures
        "items"@ != "count"@,
        "objects"@ != "object_count"@,
{
    reveal_strlit("items");
    reveal_strlit("count");
    reveal_strlit("objects");
    reveal_strlit("object_count");
    assert("items"@[0] == 'i');
    assert("count"@[0] == 'c');
    assert("objects"@.len() == 7);
    assert("object_count"@.len() == 12);
}

/// The stored body of a mixer gains the children and the count of them; it is refused exactly if
/// there is no list of children.
pub proof fn lemma_mixer_gains_children(body: JsonView, ids: Seq<u32>)
    ensures
        ({
            let items = seq!["ActorMixer"@, "children"@, "items"@];
            let count = seq!["ActorMixer"@, "children"@, "count"@];
            match mixer_patched(body, ids) {
                Ok(after) => only_gained_children(body, after, items, count, ids),
                Err(e) => e == PatchError::NoChildren && !(at(body, items) matches Some(
                    JsonView::Array(_),
                )),
            }
        }),
{
    let items = seq!["ActorMixer"@, "children"@, "items"@];
    let count = seq!["ActorMixer"@, "children"@, "count"@];
    lemma_counts_apart();
    assert(items[2] != count[2] && items[0] == count[0] && items[1] == count[1]);
    assert(parted(items, count));
    assert(count[2] != items[2]);
    assert(parted(count, items));
    lemma_gains_children(body, items, count, ids);
}

// ---------------------------------------------------------------------------
// Banks as trees
// ---------------------------------------------------------------------------
/// Has the object in the tree this hash, and no name?
pub open spec fn has_tree_hash(object: JsonView, hash: u32) -> bool {
    at(object, seq!["id"@, "Hash"@]) == Some(JsonView::Unsigned(hash as u64))
}

/// A section gains the objects behind its own, and the first of these with the mixer's hash gains
/// the children; the count of objects, if there is one, is set, and everything else stays.
pub proof fn lemma_section_gains_objects(
    section: JsonView,
    mixer: u32,
    ids: Seq<u32>,
    added: Seq<JsonView>,
)
    ensures
        ({
            let list = seq!["body"@, "HIRC"@, "objects"@];
            let count = seq!["body"@, "HIRC"@, "object_count"@];
            match section_patched(section, mixer, ids, added) {
                Ok(after) => {
                    &&& at(section, list) is Some && at(section, list)->Some_0 is Array
                    &&& at(after, list) is Some && at(after, list)->Some_0 is Array
                    &&& ({
                        let was = at(section, list)->Some_0->Array_0;
                        let is = at(after, list)->Some_0->Array_0;
                        let i = first_where(was, tree_hashed(mixer));
                        &&& is.len() == was.len() + added.len()
                        &&& 0 <= i < was.len()
                        &&& has_tree_hash(was[i], mixer)
                        &&& forall|k: int|
                            0 <= k < i ==> !has_tree_hash(#[trigger] was[k], mixer)
                        &&& forall|k: int|
                            0 <= k < was.len() && k != i ==> #[trigger] is[k] == was[k]
                        &&& forall|k: int|
                            0 <= k < added.len() ==> #[trigger] is[was.len() + k] == added[k]
                        &&& only_gained_children(
                            was[i],
                            is[i],
                            seq!["body"@, "ActorMixer"@, "children"@, "items"@],
                            seq!["body"@, "ActorMixer"@, "children"@, "count"@],
                            ids,
                        )
                        &&& at(section, count) is Some ==> at(after, count) == Some(
                            JsonView::Unsigned(is.len() as u64),
                        )
                    })
                    &&& forall|other: Seq<Seq<char>>| #[trigger]
                        parted(list, other) && parted(count, other) ==> at(after, other) == at(
                            section,
                            other,
                        )
                },
                Err(PatchError::MissingObjects) => !(at(section, list) matches Some(
                    JsonView::Array(_),
                )),
                Err(PatchError::MixerNotFound) => at(section, list) matches Some(
                    JsonView::Array(was),
                ) && forall|k: int| 0 <= k < was.len() ==> !has_tree_hash(#[trigger] was[k], mixer),
                Err(PatchError::NoChildren) => at(section, list) matches Some(
                    JsonView::Array(was),
                ) && {
                    let i = first_where(was, tree_hashed(mixer));
                    &&& 0 <= i < was.len()
                    &&& has_tree_hash(was[i], mixer)
                    &&& !(at(was[i], seq!["body"@, "ActorMixer"@, "children"@, "items"@]) matches
                        Some(JsonView::Array(_)))
                },
                Err(_) => false,
            }
        }),
{
    let list = seq!["body"@, "HIRC"@, "objects"@];
    let count = seq!["body"@, "HIRC"@, "object_count"@];
    let items = seq!["body"@, "ActorMixer"@, "children"@, "items"@];
    let number = seq!["body"@, "ActorMixer"@, "children"@, "count"@];
    lemma_counts_apart();
    assert(items[3] != number[3] && items[0] == number[0] && items[1] == number[1] && items[2]
        == number[2]);
    assert(parted(items, number));
    assert(number[3] != items[3]);
    assert(parted(number, items));
    assert(list[2] != count[2] && list[0] == count[0] && list[1] == count[1]);
    assert(parted(list, count));
    assert(count[2] != list[2]);
    assert(parted(count, list));
    if let Some(JsonView::Array(was)) = at(section, list) {
        let i = first_where(was, tree_hashed(mixer));
        lemma_first_where_points(was, tree_hashed(mixer));
        assert forall|k: int| 0 <= k < i implies !has_tree_hash(#[trigger] was[k], mixer) by {
            assert(!tree_hashed(mixer)(was[k]));
        }
        if i < was.len() {
            assert(tree_hashed(mixer)(was[i]));
            lemma_gains_children(was[i], items, number, ids);
            if let Ok(patched) = with_more_children(was[i], items, number, ids) {
                let all = was.update(i, patched) + added;
                let longer = put(section, list, JsonView::Array(all));
                let n = JsonView::Unsigned(all.len() as u64);
                lemma_put_at(section, list, JsonView::Array(all));
                lemma_put_apart(section, list, count, JsonView::Array(all));
                let after = section_patched(section, mixer, ids, added)->Ok_0;
                if at(longer, count) is Some {
                    lemma_put_at(longer, count, n);
                    lemma_put_apart(longer, count, list, n);
                }
                assert forall|other: Seq<Seq<char>>| #[trigger]
                    parted(list, other) && parted(count, other) implies at(after, other) == at(
                    section,
                    other,
                ) by {
                    lemma_put_apart(section, list, other, JsonView::Array(all));
                    lemma_put_apart(longer, count, other, n);
                }
            }
        }
    }
}

/// A bank is patched in its second section; all others stay.
pub proof fn lemma_second_section_is_patched(
    bank: JsonView,
    mixer: u32,
    ids: Seq<u32>,
    added: Seq<JsonView>,
)
    ensures
        match bank_patched(bank, mixer, ids, added) {
            Ok(after) => {
                &&& member(bank, "sections"@) is Some && member(bank, "sections"@)->Some_0 is Array
                &&& member(after, "sections"@) is Some && member(
                    after,
                    "sections"@,
                )->Some_0 is Array
                &&& ({
                    let was = member(bank, "sections"@)->Some_0->Array_0;
                    let is = member(after, "sections"@)->Some_0->Array_0;
                    &&& was.len() > 1
                    &&& is.len() == was.len()
                    &&& section_patched(was[1], mixer, ids, added) == Ok::<JsonView, PatchError>(
                        is[1],
                    )
                    &&& forall|k: int| 0 <= k < was.len() && k != 1 ==> #[trigger] is[k] == was[k]
                })
            },
            Err(e) => match member(bank, "sections"@) {
                Some(JsonView::Array(was)) => if was.len() > 1 {
                    section_patched(was[1], mixer, ids, added) == Err::<JsonView, PatchError>(e)
                } else {
                    e == PatchError::MissingObjects
                },
                _ => e == PatchError::MissingObjects,
            },
        },
{
    if let Some(JsonView::Array(was)) = member(bank, "sections"@) {
        if was.len() > 1 {
            if let Ok(section) = section_patched(was[1], mixer, ids, added) {
                let path = seq!["sections"@];
                let new = JsonView::Array(was.update(1, section));
                let after = put(bank, path, new);
                assert(path.skip(1) =~= Seq::<Seq<char>>::empty());
                reveal_with_fuel(at, 2);
                assert(at(bank, path) == member(bank, "sections"@));
                lemma_put_at(bank, path, new);
                assert(at(after, path) == member(after, "sections"@));
            }
        }
    }
}

// ---------------------------------------------------------------------------
// Rows of new objects
// ---------------------------------------------------------------------------
/// The row of a new object is labelled by its name and found by the hash of that. It holds the
/// first member of its body, whose name is its kind, and tells the parent and the bus among the
/// parameters of its node.
pub proof fn lemma_new_row_columns(object: JsonView)
    ensures
        match new_row(object) {
            Ok(row) => {
                let members = at(object, seq!["body"@])->Some_0->Object_0;
                let fields = members[0].1;
                &&& at(object, seq!["body"@]) matches Some(JsonView::Object(_))
                &&& members.len() > 0
                &&& match at(object, seq!["id"@, "String"@]) {
                    Some(JsonView::Str(name)) => row.label == name,
                    _ => row.label.len() == 0,
                }
                &&& row.id_hash == name_hash(row.label)
                &&& row.body_kind == members[0].0
                &&& row.body_json == printed_json(JsonView::Object(seq![members[0]]))
                &&& at(fields, seq!["node_base_params"@, "direct_parent_id"@]) matches Some(
                    JsonView::Unsigned(n),
                ) ==> n <= u32::MAX ==> row.direct_parent is Some && row.direct_parent->Some_0 == n
                &&& at(fields, seq!["node_base_params"@, "override_bus_id"@]) matches Some(
                    JsonView::Unsigned(n),
                ) ==> n <= u32::MAX ==> row.override_bus is Some && row.override_bus->Some_0 == n
                &&& !(at(fields, seq!["node_base_params"@, "direct_parent_id"@]) matches Some(
                    JsonView::Unsigned(_),
                )) ==> row.direct_parent is None
                &&& !(at(fields, seq!["node_base_params"@, "override_bus_id"@]) matches Some(
                    JsonView::Unsigned(_),
                )) ==> row.override_bus is None
            },
            Err(PatchError::NoBody) => match at(object, seq!["body"@]) {
                Some(JsonView::Object(members)) => members.len() == 0,
                _ => true,
            },
            Err(PatchError::Json(_)) => at(object, seq!["body"@]) matches Some(
                JsonView::Object(members),
            ) && members.len() > 0 && !printable(JsonView::Object(seq![members[0]])),
            Err(_) => false,
        },
{
}

/// The kinds in the subgraph of a sound have their numbers.
pub proof fn lemma_new_row_type(kind: BodyKind)
    requires
        kind == BodyKind::State || kind == BodyKind::Sound || kind == BodyKind::Action || kind
            == BodyKind::Event || kind == BodyKind::RandomSequenceContainer || kind
            == BodyKind::ActorMixer,
    ensures
        subgraph_type(kind_name(kind)) == kind_number(kind),
{
    crate::kind::lemma_kind_names(kind);
}

/// The kinds of which a new sound is made have their numbers; a kind that is not among them, nor a
/// state or a mixer, has zero, and so has a name of no kind.
pub proof fn lemma_new_row_numbers(kind: BodyKind)
    ensures
        subgraph_type("State"@) == 1,
        subgraph_type("Sound"@) == 2,
        subgraph_type("Action"@) == 3,
        subgraph_type("Event"@) == 4,
        subgraph_type("RandomSequenceContainer"@) == 5,
        subgraph_type("ActorMixer"@) == 7,
        kind != BodyKind::State && kind != BodyKind::Sound && kind != BodyKind::Action && kind
            != BodyKind::Event && kind != BodyKind::RandomSequenceContainer && kind
            != BodyKind::ActorMixer ==> subgraph_type(kind_name(kind)) == 0,
        forall|name: Seq<char>|
            (forall|k: BodyKind| kind_name(k) != name) ==> #[trigger] subgraph_type(name) == 0,
{
    crate::kind::lemma_kind_names(kind);
    crate::kind::lemma_kind_names(BodyKind::State);
    crate::kind::lemma_kind_names(BodyKind::Sound);
    crate::kind::lemma_kind_names(BodyKind::Action);
    crate::kind::lemma_kind_names(BodyKind::Event);
    crate::kind::lemma_kind_names(BodyKind::RandomSequenceContainer);
    crate::kind::lemma_kind_names(BodyKind::ActorMixer);
}

/// The kinds are numbered from one, in this order.
pub proof fn lemma_kinds_in_order(i: int)
    requires
        0 <= i < 22,
    ensures
        ({
            let names = seq![
                "State"@,
                "Sound"@,
                "Action"@,
                "Event"@,
                "RandomSequenceContainer"@,
                "SwitchContainer"@,
                "ActorMixer"@,
                "Bus"@,
                "LayerContainer"@,
                "MusicSegment"@,
                "MusicTrack"@,
                "MusicSwitchContainer"@,
                "MusicRandomSequenceContainer"@,
                "Attenuation"@,
                "DialogueEvent"@,
                "EffectShareSet"@,
                "EffectCustom"@,
                "AuxiliaryBus"@,
                "LFOModulator"@,
                "EnvelopeModulator"@,
                "AudioDevice"@,
                "TimeModulator"@,
            ];
            &&& names.len() == 22
            &&& kind_named(names[i]) is Some
            &&& kind_name(kind_named(names[i])->Some_0) == names[i]
            &&& kind_number(kind_named(names[i])->Some_0) == i + 1
        }),
{
    crate::kind::lemma_kind_names(BodyKind::State);
    crate::kind::lemma_kind_names(BodyKind::Sound);
    crate::kind::lemma_kind_names(BodyKind::Action);
    crate::kind::lemma_kind_names(BodyKind::Event);
    crate::kind::lemma_kind_names(BodyKind::RandomSequenceContainer);
    crate::kind::lemma_kind_names(BodyKind::SwitchContainer);
    crate::kind::lemma_kind_names(BodyKind::ActorMixer);
    crate::kind::lemma_kind_names(BodyKind::Bus);
    crate::kind::lemma_kind_names(BodyKind::LayerContainer);
    crate::kind::lemma_kind_names(BodyKind::MusicSegment);
    crate::kind::lemma_kind_names(BodyKind::MusicTrack);
    crate::kind::lemma_kind_names(BodyKind::MusicSwitchContainer);
    crate::kind::lemma_kind_names(BodyKind::MusicRandomSequenceContainer);
    crate::kind::lemma_kind_names(BodyKind::Attenuation);
    crate::kind::lemma_kind_names(BodyKind::DialogueEvent);
    crate::kind::lemma_kind_names(BodyKind::EffectShareSet);
    crate::kind::lemma_kind_names(BodyKind::EffectCustom);
    crate::kind::lemma_kind_names(BodyKind::AuxiliaryBus);
    crate::kind::lemma_kind_names(BodyKind::LFOModulator);
    crate::kind::lemma_kind_names(BodyKind::EnvelopeModulator);
    crate::kind::lemma_kind_names(BodyKind::AudioDevice);
    crate::kind::lemma_kind_names(BodyKind::TimeModulator);
}

// ---------------------------------------------------------------------------
// Comparing
// ---------------------------------------------------------------------------
proof fn lemma_unseen_contains(ids: Seq<u32>, seen: Set<u32>, id: u32)
    ensures
        unseen(ids, seen).contains(id) == (ids.contains(id) && !seen.contains(id)),
    decreases ids.len(),
{
    if ids.len() > 0 {
        let front = ids.drop_last();
        let last = ids.last();
        lemma_unseen_contains(front, seen, id);
        let before = unseen(front, seen);
        if front.contains(id) {
            let i = choose|i: int| 0 <= i < front.len() && front[i] == id;
            assert(ids[i] == id);
        }
        if ids.contains(id) {
            let i = choose|i: int| 0 <= i < ids.len() && ids[i] == id;
            if i < front.len() {
                assert(front[i] == id);
            }
        }
        if last == id {
            assert(ids[ids.len() - 1] == id);
        }
        if before.contains(id) {
            let i = choose|i: int| 0 <= i < before.len() && before[i] == id;
            assert(before.push(last)[i] == id);
        }
        assert(before.push(last)[before.len() as int] == last);
        if before.push(last).contains(id) {
            let i = choose|i: int| 0 <= i < before.push(last).len() && before.push(last)[i] == id;
            if i < before.len() {
                assert(before[i] == id);
            }
        }
    }
}

proof fn lemma_unseen_rises(ids: Seq<u32>, seen: Set<u32>)
    requires
        rising(ids),
    ensures
        rising(unseen(ids, seen)),
        forall|i: int|
            0 <= i < unseen(ids, seen).len() ==> ids.contains(#[trigger] unseen(ids, seen)[i]),
    decreases ids.len(),
{
    if ids.len() > 0 {
        let front = ids.drop_last();
        let last = ids.last();
        assert forall|i: int, j: int| 0 <= i < j < front.len() implies front[i] < front[j] by {
            assert(ids[i] < ids[j]);
        }
        lemma_unseen_rises(front, seen);
        let before = unseen(front, seen);
        let all = unseen(ids, seen);
        assert forall|i: int| 0 <= i < before.len() implies before[i] < last by {
            assert(front.contains(before[i]));
            let k = choose|k: int| 0 <= k < front.len() && front[k] == before[i];
            assert(ids[k] < ids[ids.len() - 1]);
        }
        assert forall|i: int| 0 <= i < all.len() implies ids.contains(#[trigger] all[i]) by {
            if i < before.len() {
                assert(all[i] == before[i]);
                let k = choose|k: int| 0 <= k < front.len() && front[k] == before[i];
                assert(ids[k] == all[i]);
            } else {
                assert(ids[ids.len() - 1] == all[i]);
            }
        }
        assert forall|i: int, j: int| 0 <= i < j < all.len() implies all[i] < all[j] by {
            if j < before.len() {
                assert(before[i] < before[j]);
            }
        }
    }
}

/// The difference of two lists holds exactly the ids that the first has and the second has not, in
/// ascending order, each once.
pub proof fn lemma_difference(a: Seq<u32>, b: Seq<u32>, id: u32)
    ensures
        difference(a, b).contains(id) == (a.contains(id) && !b.contains(id)),
        rising(difference(a, b)),
{
    lemma_collected(a);
    lemma_collected_rises(a);
    lemma_unseen_contains(collected(a), b.to_set(), id);
    lemma_unseen_rises(collected(a), b.to_set());
    assert(collected(a).contains(id) == a.contains(id));
}

/// The children that are compared are those in the list of the body, of mixers and of containers
/// that are not for music.
pub proof fn lemma_plain_children(body: BodyView)
    requires
        well_formed(body),
    ensures
        match body.kind {
            BodyKind::ActorMixer
            | BodyKind::RandomSequenceContainer
            | BodyKind::SwitchContainer
            | BodyKind::LayerContainer => at(body.fields, seq!["children"@, "items"@]) == Some(
                crate::json::ids_view(plain_children(body)),
            ),
            _ => plain_children(body).len() == 0,
        },
{
    crate::field_laws::lemma_children_are_listed(body);
}

} // verus!
