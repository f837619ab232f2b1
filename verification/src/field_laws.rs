//! What the library reads in the bodies of objects, said of the fields themselves.

use vstd::prelude::*;

use crate::body::{
    action_target, audio_sources, children, direct_parent, id_in_each, id_or_none, ids_in_each,
    ids_or_none, is_play, layer_children, list_at, nonzero, override_bus, references, well_formed,
    with_children, BodyView,
};
use crate::json::{
    as_ids, as_u32, at, ids_at, ids_view, lemma_put_at, lemma_put_elsewhere, u32_at, JsonView,
};
use crate::kind::BodyKind;

verus! {

// ---------------------------------------------------------------------------
// Numbers in a tree
// ---------------------------------------------------------------------------
/// Does the number stand at the end of the path?
pub open spec fn number_there(v: JsonView, path: Seq<Seq<char>>, n: u32) -> bool {
    at(v, path) == Some(JsonView::Unsigned(n as u64))
}

/// Does the number stand in the list at the end of the path?
pub open spec fn listed_there(v: JsonView, path: Seq<Seq<char>>, n: u32) -> bool {
    at(v, path) matches Some(JsonView::Array(items)) && items.contains(
        JsonView::Unsigned(n as u64),
    )
}

/// Does some element of the list at the end of the path hold the number at the end of another?
pub open spec fn in_element(
    v: JsonView,
    list: Seq<Seq<char>>,
    path: Seq<Seq<char>>,
    n: u32,
) -> bool {
    exists|i: int|
        0 <= i < list_at(v, list).len() && number_there(#[trigger] list_at(v, list)[i], path, n)
}

proof fn lemma_number(v: JsonView, path: Seq<Seq<char>>, n: u32)
    ensures
        (u32_at(v, path) == Some(n)) == number_there(v, path, n),
{
    if let Some(JsonView::Unsigned(m)) = at(v, path) {
        if m <= u32::MAX {
            assert((m as u32) as u64 == m);
        }
    }
    assert((n as u64) as u32 == n);
}

proof fn lemma_ids_are_listed(v: JsonView, ids: Seq<u32>)
    requires
        as_ids(v) == Some(ids),
    ensures
        v == ids_view(ids),
{
    let items = v->Array_0;
    assert forall|i: int| 0 <= i < items.len() implies #[trigger] items[i] == JsonView::Unsigned(
        ids[i] as u64,
    ) by {
        assert(as_u32(items[i]) is Some);
        assert(ids[i] == as_u32(items[i])->Some_0);
    }
    assert(items =~= ids_view(ids)->Array_0);
}

proof fn lemma_listed(v: JsonView, path: Seq<Seq<char>>, n: u32)
    requires
        ids_at(v, path) is Some,
    ensures
        ids_at(v, path)->Some_0.contains(n) == listed_there(v, path, n),
        at(v, path) == Some(ids_view(ids_at(v, path)->Some_0)),
{
    let ids = ids_at(v, path)->Some_0;
    let inner = at(v, path)->Some_0;
    lemma_ids_are_listed(inner, ids);
    let items = inner->Array_0;
    if ids.contains(n) {
        let i = choose|i: int| 0 <= i < ids.len() && ids[i] == n;
        assert(items[i] == JsonView::Unsigned(n as u64));
    }
    if items.contains(JsonView::Unsigned(n as u64)) {
        let i = choose|i: int| 0 <= i < items.len() && items[i] == JsonView::Unsigned(n as u64);
        assert(ids[i] as u64 == n as u64);
        assert(ids[i] == n);
    }
}

proof fn lemma_joined(a: Seq<u32>, b: Seq<u32>, x: u32)
    ensures
        (a + b).contains(x) == (a.contains(x) || b.contains(x)),
{
    if a.contains(x) {
        let i = choose|i: int| 0 <= i < a.len() && a[i] == x;
        assert((a + b)[i] == x);
    }
    if b.contains(x) {
        let i = choose|i: int| 0 <= i < b.len() && b[i] == x;
        assert((a + b)[a.len() + i] == x);
    }
    if (a + b).contains(x) {
        let i = choose|i: int| 0 <= i < (a + b).len() && (a + b)[i] == x;
        if i < a.len() {
            assert(a[i] == x);
        } else {
            assert(b[i - a.len()] == x);
        }
    }
}

proof fn lemma_nonzero(ids: Seq<u32>, x: u32)
    ensures
        nonzero(ids).contains(x) == (ids.contains(x) && x != 0),
        nonzero(ids) == ids.filter(|id: u32| id != 0),
    decreases ids.len(),
{
    reveal(Seq::filter);
    if ids.len() > 0 {
        let front = ids.drop_last();
        lemma_nonzero(front, x);
        assert(ids =~= front + seq![ids.last()]);
        lemma_joined(front, seq![ids.last()], x);
        assert(seq![ids.last()][0] == ids.last());
        assert(nonzero(front).push(ids.last()) =~= nonzero(front) + seq![ids.last()]);
        lemma_joined(nonzero(front), seq![ids.last()], x);
    }
}

proof fn lemma_id_or_none(v: JsonView, path: Seq<Seq<char>>, n: u32)
    ensures
        id_or_none(v, path).contains(n) == number_there(v, path, n),
{
    lemma_number(v, path, n);
    if let Some(id) = u32_at(v, path) {
        assert(seq![id][0] == id);
        lemma_number(v, path, id);
    }
}

proof fn lemma_id_in_each(items: Seq<JsonView>, path: Seq<Seq<char>>, n: u32)
    ensures
        id_in_each(items, path).contains(n) == exists|i: int|
            0 <= i < items.len() && number_there(#[trigger] items[i], path, n),
    decreases items.len(),
{
    if items.len() > 0 {
        let front = items.drop_last();
        lemma_id_in_each(front, path, n);
        lemma_id_or_none(items.last(), path, n);
        lemma_joined(id_in_each(front, path), id_or_none(items.last(), path), n);
        if id_in_each(front, path).contains(n) {
            let i = choose|i: int|
                0 <= i < front.len() && number_there(#[trigger] front[i], path, n);
            assert(number_there(items[i], path, n));
        }
        if number_there(items.last(), path, n) {
            assert(number_there(items[items.len() - 1], path, n));
        }
        if exists|i: int| 0 <= i < items.len() && number_there(#[trigger] items[i], path, n) {
            let i = choose|i: int|
                0 <= i < items.len() && number_there(#[trigger] items[i], path, n);
            if i < front.len() {
                assert(number_there(front[i], path, n));
            }
        }
    }
}

proof fn lemma_ids_in_each(items: Seq<JsonView>, path: Seq<Seq<char>>, n: u32)
    requires
        forall|i: int| 0 <= i < items.len() ==> ids_at(#[trigger] items[i], path) is Some,
    ensures
        ids_in_each(items, path).contains(n) == exists|i: int|
            0 <= i < items.len() && listed_there(#[trigger] items[i], path, n),
        ids_in_each(items, path) == items.map_values(
            |item: JsonView| ids_at(item, path)->Some_0,
        ).flatten(),
    decreases items.len(),
{
    let each = |item: JsonView| ids_at(item, path)->Some_0;
    if items.len() > 0 {
        let front = items.drop_last();
        assert forall|i: int| 0 <= i < front.len() implies ids_at(#[trigger] front[i], path)
            is Some by {
            assert(front[i] == items[i]);
        }
        lemma_ids_in_each(front, path, n);
        assert(ids_at(items[items.len() - 1], path) is Some);
        lemma_listed(items.last(), path, n);
        lemma_joined(ids_in_each(front, path), ids_or_none(items.last(), path), n);
        assert(items.map_values(each) =~= front.map_values(each).push(each(items.last())));
        front.map_values(each).lemma_flatten_push(each(items.last()));
        if exists|i: int| 0 <= i < front.len() && listed_there(#[trigger] front[i], path, n) {
            let i = choose|i: int|
                0 <= i < front.len() && listed_there(#[trigger] front[i], path, n);
            assert(listed_there(items[i], path, n));
        }
        if listed_there(items.last(), path, n) {
            assert(listed_there(items[items.len() - 1], path, n));
        }
        if exists|i: int| 0 <= i < items.len() && listed_there(#[trigger] items[i], path, n) {
            let i = choose|i: int|
                0 <= i < items.len() && listed_there(#[trigger] items[i], path, n);
            if i < front.len() {
                assert(listed_there(front[i], path, n));
            }
        }
    } else {
        assert(items.map_values(each) =~= Seq::<Seq<u32>>::empty());
    }
}

proof fn lemma_layer_children(layers: Seq<JsonView>, n: u32)
    ensures
        layer_children(layers).contains(n) == exists|i: int|
            0 <= i < layers.len() && in_element(
                #[trigger] layers[i],
                seq!["associated_children"@],
                seq!["associated_child_id"@],
                n,
            ),
        layer_children(layers) == layers.map_values(
            |layer: JsonView|
                id_in_each(
                    list_at(layer, seq!["associated_children"@]),
                    seq!["associated_child_id"@],
                ),
        ).flatten(),
    decreases layers.len(),
{
    let list = seq!["associated_children"@];
    let path = seq!["associated_child_id"@];
    let each = |layer: JsonView| id_in_each(list_at(layer, list), path);
    if layers.len() > 0 {
        let front = layers.drop_last();
        let last = layers.last();
        lemma_layer_children(front, n);
        lemma_id_in_each(list_at(last, list), path, n);
        lemma_joined(layer_children(front), id_in_each(list_at(last, list), path), n);
        assert(layers.map_values(each) =~= front.map_values(each).push(each(last)));
        front.map_values(each).lemma_flatten_push(each(last));
        if exists|i: int| 0 <= i < front.len() && in_element(#[trigger] front[i], list, path, n) {
            let i = choose|i: int|
                0 <= i < front.len() && in_element(#[trigger] front[i], list, path, n);
            assert(in_element(layers[i], list, path, n));
        }
        if in_element(last, list, path, n) {
            assert(in_element(layers[layers.len() - 1], list, path, n));
        }
        if exists|i: int| 0 <= i < layers.len() && in_element(#[trigger] layers[i], list, path, n) {
            let i = choose|i: int|
                0 <= i < layers.len() && in_element(#[trigger] layers[i], list, path, n);
            if i < front.len() {
                assert(in_element(front[i], list, path, n));
            }
        }
    } else {
        assert(layers.map_values(each) =~= Seq::<Seq<u32>>::empty());
    }
}

// ---------------------------------------------------------------------------
// What a body plays
// ---------------------------------------------------------------------------
/// Does the body play the audio file? A sound names one file, a track of music one in each of its
/// sources; zero stands for no file.
pub open spec fn plays(body: BodyView, file: u32) -> bool {
    &&& file != 0
    &&& match body.kind {
        BodyKind::Sound => number_there(
            body.fields,
            seq!["bank_source_data"@, "media_information"@, "source_id"@],
            file,
        ),
        BodyKind::MusicTrack => in_element(
            body.fields,
            seq!["sources"@],
            seq!["media_information"@, "source_id"@],
            file,
        ),
        _ => false,
    }
}

/// The audio files of a body are those that it plays.
pub proof fn lemma_audio_is_played(body: BodyView, file: u32)
    ensures
        audio_sources(body).contains(file) == plays(body, file),
{
    let v = body.fields;
    let source = seq!["bank_source_data"@, "media_information"@, "source_id"@];
    let inner = seq!["media_information"@, "source_id"@];
    lemma_id_or_none(v, source, file);
    lemma_nonzero(id_or_none(v, source), file);
    lemma_id_in_each(list_at(v, seq!["sources"@]), inner, file);
    lemma_nonzero(id_in_each(list_at(v, seq!["sources"@]), inner), file);
}

// ---------------------------------------------------------------------------
// What a body refers to
// ---------------------------------------------------------------------------
/// Does the body refer to the id? Events list actions, actions name a target other than zero, and
/// containers and mixers list children; switch containers list nodes of their groups beside them,
/// and layer containers children of their layers.
pub open spec fn points_to(body: BodyView, id: u32) -> bool {
    let v = body.fields;
    match body.kind {
        BodyKind::Event => listed_there(v, seq!["actions"@], id),
        BodyKind::Action => id != 0 && number_there(v, seq!["external_id"@], id),
        BodyKind::RandomSequenceContainer | BodyKind::ActorMixer => listed_there(
            v,
            seq!["children"@, "items"@],
            id,
        ),
        BodyKind::SwitchContainer => {
            ||| listed_there(v, seq!["children"@, "items"@], id)
            ||| exists|i: int|
                0 <= i < list_at(v, seq!["switch_groups"@]).len() && listed_there(
                    #[trigger] list_at(v, seq!["switch_groups"@])[i],
                    seq!["nodes"@],
                    id,
                )
        },
        BodyKind::LayerContainer => {
            ||| listed_there(v, seq!["children"@, "items"@], id)
            ||| exists|i: int|
                0 <= i < list_at(v, seq!["layers"@]).len() && in_element(
                    #[trigger] list_at(v, seq!["layers"@])[i],
                    seq!["associated_children"@],
                    seq!["associated_child_id"@],
                    id,
                )
        },
        BodyKind::MusicSegment => listed_there(
            v,
            seq!["music_node_params"@, "children"@, "items"@],
            id,
        ),
        BodyKind::MusicSwitchContainer | BodyKind::MusicRandomSequenceContainer => listed_there(
            v,
            seq!["music_trans_node_params"@, "music_node_params"@, "children"@, "items"@],
            id,
        ),
        _ => false,
    }
}

/// The references of a body are the ids that its fields point to.
pub proof fn lemma_references_point(body: BodyView, id: u32)
    requires
        well_formed(body),
    ensures
        references(body).contains(id) == points_to(body, id),
{
    let v = body.fields;
    match body.kind {
        BodyKind::Event => {
            lemma_listed(v, seq!["actions"@], id);
        },
        BodyKind::Action => {
            lemma_id_or_none(v, seq!["external_id"@], id);
            lemma_nonzero(id_or_none(v, seq!["external_id"@]), id);
        },
        BodyKind::RandomSequenceContainer | BodyKind::ActorMixer => {
            lemma_listed(v, seq!["children"@, "items"@], id);
        },
        BodyKind::SwitchContainer => {
            let own = seq!["children"@, "items"@];
            let groups = list_at(v, seq!["switch_groups"@]);
            lemma_listed(v, own, id);
            lemma_ids_in_each(groups, seq!["nodes"@], id);
            lemma_joined(ids_or_none(v, own), ids_in_each(groups, seq!["nodes"@]), id);
        },
        BodyKind::LayerContainer => {
            let own = seq!["children"@, "items"@];
            let layers = list_at(v, seq!["layers"@]);
            lemma_listed(v, own, id);
            lemma_layer_children(layers, id);
            lemma_joined(ids_or_none(v, own), layer_children(layers), id);
        },
        BodyKind::MusicSegment => {
            lemma_listed(v, seq!["music_node_params"@, "children"@, "items"@], id);
        },
        BodyKind::MusicSwitchContainer | BodyKind::MusicRandomSequenceContainer => {
            lemma_listed(
                v,
                seq!["music_trans_node_params"@, "music_node_params"@, "children"@, "items"@],
                id,
            );
        },
        _ => {},
    }
}

/// The references of a body come in the order of its fields: a list of them is that list, and the
/// lists inside the groups of a switch container and the layers of a layer container follow its
/// children one after the other.
pub proof fn lemma_references_in_order(body: BodyView)
    requires
        well_formed(body),
    ensures
        ({
            let v = body.fields;
            let ids = references(body);
            match body.kind {
                BodyKind::Event => at(v, seq!["actions"@]) == Some(ids_view(ids)),
                BodyKind::RandomSequenceContainer | BodyKind::ActorMixer => at(
                    v,
                    seq!["children"@, "items"@],
                ) == Some(ids_view(ids)),
                BodyKind::MusicSegment => at(
                    v,
                    seq!["music_node_params"@, "children"@, "items"@],
                ) == Some(ids_view(ids)),
                BodyKind::MusicSwitchContainer | BodyKind::MusicRandomSequenceContainer => at(
                    v,
                    seq!["music_trans_node_params"@, "music_node_params"@, "children"@, "items"@],
                ) == Some(ids_view(ids)),
                BodyKind::SwitchContainer => {
                    &&& ids_at(v, seq!["children"@, "items"@]) is Some
                    &&& ids == ids_at(v, seq!["children"@, "items"@])->Some_0 + list_at(
                        v,
                        seq!["switch_groups"@],
                    ).map_values(
                        |group: JsonView| ids_at(group, seq!["nodes"@])->Some_0,
                    ).flatten()
                },
                BodyKind::LayerContainer => {
                    &&& ids_at(v, seq!["children"@, "items"@]) is Some
                    &&& ids == ids_at(v, seq!["children"@, "items"@])->Some_0 + list_at(
                        v,
                        seq!["layers"@],
                    ).map_values(
                        |layer: JsonView|
                            id_in_each(
                                list_at(layer, seq!["associated_children"@]),
                                seq!["associated_child_id"@],
                            ),
                    ).flatten()
                },
                BodyKind::Action => ids.len() <= 1,
                _ => ids.len() == 0,
            }
        }),
{
    let v = body.fields;
    match body.kind {
        BodyKind::Event => {
            lemma_listed(v, seq!["actions"@], 0);
        },
        BodyKind::RandomSequenceContainer | BodyKind::ActorMixer => {
            lemma_listed(v, seq!["children"@, "items"@], 0);
        },
        BodyKind::MusicSegment => {
            lemma_listed(v, seq!["music_node_params"@, "children"@, "items"@], 0);
        },
        BodyKind::MusicSwitchContainer | BodyKind::MusicRandomSequenceContainer => {
            lemma_listed(
                v,
                seq!["music_trans_node_params"@, "music_node_params"@, "children"@, "items"@],
                0,
            );
        },
        BodyKind::SwitchContainer => {
            lemma_ids_in_each(list_at(v, seq!["switch_groups"@]), seq!["nodes"@], 0);
        },
        BodyKind::LayerContainer => {
            lemma_layer_children(list_at(v, seq!["layers"@]), 0);
        },
        BodyKind::Action => {
            reveal_with_fuel(nonzero, 3);
        },
        _ => {},
    }
}

// ---------------------------------------------------------------------------
// Where a body is attached
// ---------------------------------------------------------------------------
/// Where the fields of a kind hold the parameters of a node, if it is one.
pub open spec fn node_of(v: JsonView, kind: BodyKind) -> Option<JsonView> {
    match kind {
        BodyKind::Sound
        | BodyKind::RandomSequenceContainer
        | BodyKind::SwitchContainer
        | BodyKind::ActorMixer
        | BodyKind::LayerContainer
        | BodyKind::MusicTrack => at(v, seq!["node_base_params"@]),
        BodyKind::MusicSegment => at(v, seq!["music_node_params"@, "node_base_params"@]),
        BodyKind::MusicSwitchContainer | BodyKind::MusicRandomSequenceContainer => at(
            v,
            seq!["music_trans_node_params"@, "music_node_params"@, "node_base_params"@],
        ),
        _ => None,
    }
}

proof fn lemma_at_push(v: JsonView, path: Seq<Seq<char>>, key: Seq<char>)
    ensures
        at(v, path.push(key)) == (match at(v, path) {
            Some(inner) => at(inner, seq![key]),
            None => None,
        }),
    decreases path.len(),
{
    if path.len() == 0 {
        assert(path.push(key) =~= seq![key]);
    } else {
        assert(path.push(key)[0] == path[0]);
        assert(path.push(key).skip(1) =~= path.skip(1).push(key));
        if let Some(inner) = crate::json::member(v, path[0]) {
            lemma_at_push(inner, path.skip(1), key);
        }
    }
}

/// The parent of a body is the number under that name among its node's parameters, and so is the
/// bus that it overrides; a bus keeps the latter among its initial values. Other bodies have
/// neither.
pub proof fn lemma_routing_is_read(body: BodyView)
    ensures
        direct_parent(body) == (match node_of(body.fields, body.kind) {
            Some(node) => u32_at(node, seq!["direct_parent_id"@]),
            None => None,
        }),
        override_bus(body) == (match body.kind {
            BodyKind::Bus | BodyKind::AuxiliaryBus => u32_at(
                body.fields,
                seq!["initial_values"@, "override_bus_id"@],
            ),
            _ => match node_of(body.fields, body.kind) {
                Some(node) => u32_at(node, seq!["override_bus_id"@]),
                None => None,
            },
        }),
{
    let v = body.fields;
    let plain = seq!["node_base_params"@];
    let music = seq!["music_node_params"@, "node_base_params"@];
    let trans = seq!["music_trans_node_params"@, "music_node_params"@, "node_base_params"@];
    lemma_at_push(v, plain, "direct_parent_id"@);
    lemma_at_push(v, music, "direct_parent_id"@);
    lemma_at_push(v, trans, "direct_parent_id"@);
    lemma_at_push(v, plain, "override_bus_id"@);
    lemma_at_push(v, music, "override_bus_id"@);
    lemma_at_push(v, trans, "override_bus_id"@);
}

/// Where a mixer or a container holds its children.
pub open spec fn children_place(kind: BodyKind) -> Option<Seq<Seq<char>>> {
    match kind {
        BodyKind::RandomSequenceContainer
        | BodyKind::SwitchContainer
        | BodyKind::ActorMixer
        | BodyKind::LayerContainer => Some(seq!["children"@, "items"@]),
        BodyKind::MusicSegment => Some(seq!["music_node_params"@, "children"@, "items"@]),
        BodyKind::MusicSwitchContainer | BodyKind::MusicRandomSequenceContainer => Some(
            seq!["music_trans_node_params"@, "music_node_params"@, "children"@, "items"@],
        ),
        _ => None,
    }
}

/// A body has a list of children exactly if its kind is that of a mixer or a container, and then
/// the list is the one in its fields.
pub proof fn lemma_children_are_listed(body: BodyView)
    requires
        well_formed(body),
    ensures
        match children_place(body.kind) {
            Some(path) => children(body) is Some && at(body.fields, path) == Some(
                ids_view(children(body)->Some_0),
            ),
            None => children(body) is None,
        },
{
    if let Some(path) = crate::body::children_path(body.kind) {
        lemma_listed(body.fields, path, 0);
    }
}

/// Do the paths part before either ends?
pub open spec fn parted(a: Seq<Seq<char>>, b: Seq<Seq<char>>) -> bool {
    exists|k: int|
        0 <= k < a.len() && k < b.len() && #[trigger] a[k] != b[k] && forall|j: int|
            0 <= j < k ==> #[trigger] a[j] == b[j]
}

/// Another list of children is read where the old one was, and what stands elsewhere in the fields
/// stays.
pub proof fn lemma_other_fields_stay(body: BodyView, ids: Seq<u32>, other: Seq<Seq<char>>)
    requires
        well_formed(body),
        children(body) is Some,
    ensures
        with_children(body, ids).kind == body.kind,
        children_place(body.kind) is Some,
        at(with_children(body, ids).fields, children_place(body.kind)->Some_0) == Some(
            ids_view(ids),
        ),
        parted(children_place(body.kind)->Some_0, other) ==> at(
            with_children(body, ids).fields,
            other,
        ) == at(body.fields, other),
{
    let path = children_place(body.kind)->Some_0;
    lemma_put_at(body.fields, path, ids_view(ids));
    if parted(path, other) {
        let k = choose|k: int|
            0 <= k < path.len() && k < other.len() && #[trigger] path[k] != other[k] && forall|
                j: int,
            |
                0 <= j < k ==> #[trigger] path[j] == other[j];
        lemma_put_elsewhere(body.fields, path, other, ids_view(ids), k);
    }
}

/// An action has a target exactly if its fields name one other than zero, and it plays the target
/// exactly if it has the type for that.
pub proof fn lemma_action_fields(body: BodyView, id: u32)
    ensures
        (action_target(body) == Some(id)) == (body.kind == BodyKind::Action && id != 0
            && number_there(body.fields, seq!["external_id"@], id)),
        is_play(body) == (body.kind == BodyKind::Action && number_there(
            body.fields,
            seq!["action_type"@],
            0x0403,
        )),
{
    lemma_number(body.fields, seq!["external_id"@], id);
    lemma_number(body.fields, seq!["action_type"@], 0x0403);
}

} // verus!
