//! What is read of the trees of a subgraph, and what adding one does to a bank.

use vstd::prelude::*;

use crate::bank::{
    first_objects, hashed, hirc_index, lemma_with_objects, main_objects, ObjectData, SectionData,
};
use crate::body::{
    body_in, children, each_layer_fits, fields_fit, has_list, lemma_body_in_tree, lemma_named_kind,
    list_at, well_formed, BodyView,
};
use crate::edit_laws::only_children_differ;
use crate::field_laws::{children_place, node_of};
use crate::ids::{id_hash, IdView};
use crate::json::{at, ids_at, u32_at, JsonView};
use crate::json_text::storable;
use crate::kind::{kind_name, BodyKind};
use crate::seqs::{ascending, first_where, lemma_first_where_points, lemma_sorted, sorted};
use crate::session::{hashes, is_mixer, subgraph_objects, with_mixer_children, with_subgraph};

verus! {

// ---------------------------------------------------------------------------
// Bodies in trees
// ---------------------------------------------------------------------------
/// Are the fields there that the kind is routed and followed by?
pub open spec fn has_its_fields(kind: BodyKind, v: JsonView) -> bool {
    &&& v is Object
    &&& match kind {
        BodyKind::Sound
        | BodyKind::RandomSequenceContainer
        | BodyKind::SwitchContainer
        | BodyKind::ActorMixer
        | BodyKind::LayerContainer
        | BodyKind::MusicTrack
        | BodyKind::MusicSegment
        | BodyKind::MusicSwitchContainer
        | BodyKind::MusicRandomSequenceContainer => node_of(v, kind) matches Some(node) && u32_at(
            node,
            seq!["direct_parent_id"@],
        ) is Some && u32_at(node, seq!["override_bus_id"@]) is Some,
        BodyKind::Bus | BodyKind::AuxiliaryBus => u32_at(
            v,
            seq!["initial_values"@, "override_bus_id"@],
        ) is Some,
        _ => true,
    }
    &&& children_place(kind) matches Some(path) ==> ids_at(v, path) is Some
    &&& match kind {
        BodyKind::Event => ids_at(v, seq!["actions"@]) is Some,
        BodyKind::Action => u32_at(v, seq!["external_id"@]) is Some,
        BodyKind::Sound => u32_at(
            v,
            seq!["bank_source_data"@, "media_information"@, "source_id"@],
        ) is Some,
        BodyKind::MusicTrack => has_list(v, seq!["sources"@]) && forall|i: int|
            0 <= i < list_at(v, seq!["sources"@]).len() ==> u32_at(
                #[trigger] list_at(v, seq!["sources"@])[i],
                seq!["media_information"@, "source_id"@],
            ) is Some,
        BodyKind::SwitchContainer => has_list(v, seq!["switch_groups"@]) && forall|i: int|
            0 <= i < list_at(v, seq!["switch_groups"@]).len() ==> ids_at(
                #[trigger] list_at(v, seq!["switch_groups"@])[i],
                seq!["nodes"@],
            ) is Some,
        BodyKind::LayerContainer => has_list(v, seq!["layers"@]) && each_layer_fits(
            list_at(v, seq!["layers"@]),
        ),
        _ => true,
    }
}

/// A tree is read as a body exactly if it has one member, named like a kind of object, that has
/// the fields of the kind, and if it can be stored.
pub proof fn lemma_body_is_read(tree: JsonView, kind: BodyKind, fields: JsonView)
    ensures
        (body_in(tree) == Some(BodyView { kind, fields })) == (tree == JsonView::Object(
            seq![(kind_name(kind), fields)],
        ) && storable(tree) && has_its_fields(kind, fields)),
{
    let body = BodyView { kind, fields };
    crate::field_laws::lemma_routing_is_read(body);
    assert(fields_fit(body) == has_its_fields(kind, fields));
    if body_in(tree) == Some(body) {
        let members = tree->Object_0;
        lemma_named_kind(members[0].0);
        assert(members =~= seq![(kind_name(kind), fields)]);
    }
    if tree == JsonView::Object(seq![(kind_name(kind), fields)]) && storable(tree)
        && has_its_fields(kind, fields) {
        lemma_body_in_tree(body);
    }
}

// ---------------------------------------------------------------------------
// Objects in trees
// ---------------------------------------------------------------------------
/// Does the tree stand for the object? It names it, and holds its body.
pub open spec fn stands_for(tree: JsonView, object: ObjectData) -> bool {
    &&& object.id matches IdView::Name(name) && at(tree, seq!["id"@, "String"@]) == Some(
        JsonView::Str(name),
    )
    &&& at(tree, seq!["body"@]) matches Some(body) && body_in(body) == Some(object.body)
}

/// Does the tree stand for no object?
pub open spec fn stands_for_none(tree: JsonView) -> bool {
    forall|object: ObjectData| !#[trigger] stands_for(tree, object)
}

/// The trees of a subgraph are read as the objects that they stand for, one for each, in order. It
/// is refused exactly if one stands for none.
pub proof fn lemma_subgraph_is_read(trees: Seq<JsonView>)
    ensures
        match subgraph_objects(trees) {
            Ok(objects) => {
                &&& objects.len() == trees.len()
                &&& forall|k: int|
                    0 <= k < trees.len() ==> stands_for(trees[k], #[trigger] objects[k])
                &&& hashes(objects).len() == objects.len()
                &&& forall|k: int|
                    0 <= k < objects.len() ==> #[trigger] hashes(objects)[k] == id_hash(
                        objects[k].id,
                    )
            },
            Err(_) => exists|k: int|
                0 <= k < trees.len() && stands_for_none(#[trigger] trees[k]),
        },
    decreases trees.len(),
{
    if trees.len() > 0 {
        let front = trees.drop_last();
        lemma_subgraph_is_read(front);
        match subgraph_objects(front) {
            Ok(before) => {
                if let Ok(objects) = subgraph_objects(trees) {
                    assert forall|k: int| 0 <= k < trees.len() implies stands_for(
                        trees[k],
                        #[trigger] objects[k],
                    ) by {
                        if k < front.len() {
                            assert(objects[k] == before[k]);
                            assert(front[k] == trees[k]);
                        }
                    }
                } else {
                    let n = trees.len() - 1;
                    assert(trees[n] == trees.last());
                    assert(stands_for_none(trees[n]));
                }
            },
            Err(_) => {
                let k = choose|k: int|
                    0 <= k < front.len() && stands_for_none(#[trigger] front[k]);
                assert(trees[k] == front[k]);
            },
        }
    }
}

// ---------------------------------------------------------------------------
// Adding
// ---------------------------------------------------------------------------
/// Adding a subgraph puts its objects behind the others, as they are, and gives the first object
/// with the mixer's hash, which is a mixer, the new children beside those that it had, in
/// ascending order. All other objects and sections stay.
pub proof fn lemma_subgraph_is_added(
    bank: Seq<SectionData>,
    added: Seq<ObjectData>,
    mixer: u32,
    more: Seq<u32>,
)
    requires
        first_objects(bank) is Some,
        is_mixer(main_objects(bank) + added, mixer),
        forall|k: int|
            0 <= k < main_objects(bank).len() + added.len() ==> well_formed(
                (#[trigger] (main_objects(bank) + added)[k]).body,
            ),
    ensures
        ({
            let after = with_subgraph(bank, added, mixer, more);
            let was = main_objects(bank) + added;
            let is = main_objects(after);
            let i = first_where(was, hashed(mixer));
            let ids = children(was[i].body)->Some_0;
            let now = children(is[i].body)->Some_0;
            &&& 0 <= i < was.len()
            &&& id_hash(was[i].id) == mixer
            &&& forall|k: int| 0 <= k < i ==> id_hash((#[trigger] was[k]).id) != mixer
            &&& was[i].body.kind == BodyKind::ActorMixer
            &&& is.len() == was.len()
            &&& forall|k: int| 0 <= k < was.len() && k != i ==> #[trigger] is[k] == was[k]
            &&& is[i].id == was[i].id
            &&& only_children_differ(was[i].body, is[i].body, now)
            &&& ascending(now)
            &&& now.to_multiset() == ids.to_multiset().add(more.to_multiset())
            &&& after.len() == bank.len()
            &&& hirc_index(after) == hirc_index(bank)
            &&& forall|s: int|
                0 <= s < bank.len() && s != hirc_index(bank) ==> #[trigger] after[s] == bank[s]
        }),
{
    let was = main_objects(bank) + added;
    let i = first_where(was, hashed(mixer));
    lemma_first_where_points(was, hashed(mixer));
    assert(hashed(mixer)(was[i]));
    assert forall|k: int| 0 <= k < i implies id_hash((#[trigger] was[k]).id) != mixer by {
        assert(!hashed(mixer)(was[k]));
    }
    let body = was[i].body;
    let ids = children(body)->Some_0;
    let now = sorted(ids + more);
    lemma_sorted(ids + more);
    vstd::seq_lib::lemma_multiset_commutative(ids, more);
    assert(well_formed(was[i].body));
    crate::edit_laws::lemma_only_children_differ(body, now);
    lemma_with_objects(bank, with_mixer_children(was, mixer, more));
}

/// The objects of a subgraph come behind those that were there, and all keep their ids.
pub proof fn lemma_subgraph_ids_stay(
    bank: Seq<SectionData>,
    added: Seq<ObjectData>,
    mixer: u32,
    more: Seq<u32>,
)
    requires
        first_objects(bank) is Some,
    ensures
        ({
            let before = main_objects(bank);
            let after = main_objects(with_subgraph(bank, added, mixer, more));
            &&& after.len() == before.len() + added.len()
            &&& forall|k: int| 0 <= k < before.len() ==> (#[trigger] after[k]).id == before[k].id
            &&& forall|k: int|
                0 <= k < added.len() ==> after[before.len() + k].id == (#[trigger] added[k]).id
        }),
{
    let was = main_objects(bank) + added;
    lemma_first_where_points(was, hashed(mixer));
    lemma_with_objects(bank, with_mixer_children(was, mixer, more));
}

/// A subgraph can be added to a mixer: the first object with the hash is one exactly if it is of
/// that kind.
pub proof fn lemma_mixer_is_found(objects: Seq<ObjectData>, hash: u32, i: int)
    requires
        0 <= i < objects.len(),
        id_hash(objects[i].id) == hash,
        forall|k: int| 0 <= k < i ==> id_hash((#[trigger] objects[k]).id) != hash,
        well_formed(objects[i].body),
    ensures
        is_mixer(objects, hash) == (objects[i].body.kind == BodyKind::ActorMixer),
{
    assert forall|k: int| 0 <= k < i implies !hashed(hash)(#[trigger] objects[k]) by {}
    assert(hashed(hash)(objects[i]));
    crate::seqs::lemma_first_where(objects, hashed(hash), i);
    crate::field_laws::lemma_children_are_listed(objects[i].body);
}

} // verus!
