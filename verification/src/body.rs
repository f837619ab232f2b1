//! The bodies of objects: what they refer to, where they are routed, and their children.

use vstd::prelude::*;

use crate::body_laws::{lemma_renumbered_body, lemma_with_children};
use crate::json::{at, ids_at, ids_view, path_view, put, u32_at, Json, JsonView};
use crate::json_text::{parsed_json, storable, JsonError};
use crate::kind::{kind_name, kind_named, lemma_kind_names, BodyKind};
use crate::renumber::{renumbered, rewrite_u32};
use crate::seqs::{contains_id, sort_ids};

verus! {

// ---------------------------------------------------------------------------
// Where the fields stand
// ---------------------------------------------------------------------------
/// Where a body keeps the parameters that all nodes of the routing graph have.
pub open spec fn node_path(kind: BodyKind) -> Option<Seq<Seq<char>>> {
    match kind {
        BodyKind::Sound
        | BodyKind::RandomSequenceContainer
        | BodyKind::SwitchContainer
        | BodyKind::ActorMixer
        | BodyKind::LayerContainer
        | BodyKind::MusicTrack => Some(seq!["node_base_params"@]),
        BodyKind::MusicSegment => Some(seq!["music_node_params"@, "node_base_params"@]),
        BodyKind::MusicSwitchContainer | BodyKind::MusicRandomSequenceContainer => Some(
            seq!["music_trans_node_params"@, "music_node_params"@, "node_base_params"@],
        ),
        _ => None,
    }
}

/// Where a body keeps the id of its parent.
pub open spec fn parent_path(kind: BodyKind) -> Option<Seq<Seq<char>>> {
    match node_path(kind) {
        Some(path) => Some(path.push("direct_parent_id"@)),
        None => None,
    }
}

/// Where a body keeps the id of the bus that it overrides.
pub open spec fn bus_path(kind: BodyKind) -> Option<Seq<Seq<char>>> {
    match kind {
        BodyKind::Bus | BodyKind::AuxiliaryBus => Some(
            seq!["initial_values"@, "override_bus_id"@],
        ),
        _ => match node_path(kind) {
            Some(path) => Some(path.push("override_bus_id"@)),
            None => None,
        },
    }
}

/// Where a container or mixer keeps its list of children.
pub open spec fn children_path(kind: BodyKind) -> Option<Seq<Seq<char>>> {
    match kind {
        BodyKind::RandomSequenceContainer
        | BodyKind::SwitchContainer
        | BodyKind::ActorMixer
        | BodyKind::LayerContainer => Some(seq!["children"@, "items"@]),
        BodyKind::MusicSegment => Some(seq!["music_node_params"@, "children"@, "items"@]),
        BodyKind::MusicSwitchContainer | BodyKind::MusicRandomSequenceContainer => Some(
            seq!["music_trans_node_params"@, "music_node_params"@, "children"@, "items"@],
        ),
        _ => None,
    }
}

/// Has an object of this kind a list of children?
pub open spec fn is_container(kind: BodyKind) -> bool {
    children_path(kind) is Some
}

// ---------------------------------------------------------------------------
// Lists inside a body
// ---------------------------------------------------------------------------
/// The elements of the list at the end of a path; none if there is no list.
pub open spec fn list_at(v: JsonView, path: Seq<Seq<char>>) -> Seq<JsonView> {
    match at(v, path) {
        Some(JsonView::Array(items)) => items,
        _ => Seq::empty(),
    }
}

/// The ids at the end of a path; none if there are no ids.
pub open spec fn ids_or_none(v: JsonView, path: Seq<Seq<char>>) -> Seq<u32> {
    match ids_at(v, path) {
        Some(ids) => ids,
        None => Seq::empty(),
    }
}

/// The id at the end of a path, as a list of one; none if there is no id.
pub open spec fn id_or_none(v: JsonView, path: Seq<Seq<char>>) -> Seq<u32> {
    match u32_at(v, path) {
        Some(id) => seq![id],
        None => Seq::empty(),
    }
}

/// The ids that the elements of a list hold at the end of a path, one after the other.
pub open spec fn id_in_each(items: Seq<JsonView>, path: Seq<Seq<char>>) -> Seq<u32>
    decreases items.len(),
{
    if items.len() == 0 {
        Seq::empty()
    } else {
        id_in_each(items.drop_last(), path) + id_or_none(items.last(), path)
    }
}

/// The lists of ids that the elements of a list hold at the end of a path, joined.
pub open spec fn ids_in_each(items: Seq<JsonView>, path: Seq<Seq<char>>) -> Seq<u32>
    decreases items.len(),
{
    if items.len() == 0 {
        Seq::empty()
    } else {
        ids_in_each(items.drop_last(), path) + ids_or_none(items.last(), path)
    }
}

/// The children that the layers of a list are associated with, layer by layer.
pub open spec fn layer_children(layers: Seq<JsonView>) -> Seq<u32>
    decreases layers.len(),
{
    if layers.len() == 0 {
        Seq::empty()
    } else {
        layer_children(layers.drop_last()) + id_in_each(
            list_at(layers.last(), seq!["associated_children"@]),
            seq!["associated_child_id"@],
        )
    }
}

/// A list of ids without zeros.
pub open spec fn nonzero(ids: Seq<u32>) -> Seq<u32>
    decreases ids.len(),
{
    if ids.len() == 0 {
        Seq::empty()
    } else if ids.last() != 0 {
        nonzero(ids.drop_last()).push(ids.last())
    } else {
        nonzero(ids.drop_last())
    }
}

// ---------------------------------------------------------------------------
// Bodies
// ---------------------------------------------------------------------------
/// What a body says.
#[verifier::ext_equal]
pub struct BodyView {
    pub kind: BodyKind,
    pub fields: JsonView,
}

/// The body of an object: its kind and its fields.
#[derive(Debug)]
pub struct HIRCObjectBody {
    kind: BodyKind,
    fields: Json,
}

impl View for HIRCObjectBody {
    type V = BodyView;

    closed spec fn view(&self) -> BodyView {
        BodyView { kind: self.kind, fields: self.fields@ }
    }
}

impl HIRCObjectBody {
    /// A body is complete, and can be stored.
    #[verifier::type_invariant]
    closed spec fn complete(self) -> bool {
        well_formed(BodyView { kind: self.kind, fields: self.fields@ })
    }
}

/// The tree that a body is stored as: an object with the name of the kind as its only member.
pub open spec fn body_tree(body: BodyView) -> JsonView {
    JsonView::Object(seq![(kind_name(body.kind), body.fields)])
}

/// Does every element of a list hold an id at the end of a path?
pub open spec fn each_has_id(items: Seq<JsonView>, path: Seq<Seq<char>>) -> bool {
    forall|i: int| 0 <= i < items.len() ==> u32_at(#[trigger] items[i], path) is Some
}

/// Is there a list at the end of a path?
pub open spec fn has_list(v: JsonView, path: Seq<Seq<char>>) -> bool {
    at(v, path) matches Some(JsonView::Array(_))
}

/// Does every element of a list hold a list of ids at the end of a path?
pub open spec fn each_has_ids(items: Seq<JsonView>, path: Seq<Seq<char>>) -> bool {
    forall|i: int| 0 <= i < items.len() ==> ids_at(#[trigger] items[i], path) is Some
}

/// Does every layer name its children?
pub open spec fn each_layer_fits(layers: Seq<JsonView>) -> bool {
    forall|i: int|
        0 <= i < layers.len() ==> has_list(#[trigger] layers[i], seq!["associated_children"@])
            && each_has_id(
            list_at(layers[i], seq!["associated_children"@]),
            seq!["associated_child_id"@],
        )
}

/// Are the fields there that objects of the kind are routed and followed by, beside the routing
/// parameters and the children?
pub open spec fn own_fields_fit(body: BodyView) -> bool {
    let v = body.fields;
    match body.kind {
        BodyKind::Event => ids_at(v, seq!["actions"@]) is Some,
        BodyKind::Action => u32_at(v, seq!["external_id"@]) is Some,
        BodyKind::Sound => u32_at(
            v,
            seq!["bank_source_data"@, "media_information"@, "source_id"@],
        ) is Some,
        BodyKind::MusicTrack => has_list(v, seq!["sources"@]) && each_has_id(
            list_at(v, seq!["sources"@]),
            seq!["media_information"@, "source_id"@],
        ),
        BodyKind::SwitchContainer => has_list(v, seq!["switch_groups"@]) && each_has_ids(
            list_at(v, seq!["switch_groups"@]),
            seq!["nodes"@],
        ),
        BodyKind::LayerContainer => has_list(v, seq!["layers"@]) && each_layer_fits(
            list_at(v, seq!["layers"@]),
        ),
        _ => true,
    }
}

/// Are all the fields there that objects of the kind are routed and followed by?
pub open spec fn fields_fit(body: BodyView) -> bool {
    &&& body.fields is Object
    &&& parent_path(body.kind) matches Some(path) ==> u32_at(body.fields, path) is Some
    &&& bus_path(body.kind) matches Some(path) ==> u32_at(body.fields, path) is Some
    &&& children_path(body.kind) matches Some(path) ==> ids_at(body.fields, path) is Some
    &&& own_fields_fit(body)
}

/// Is the body complete, and can it be stored?
pub open spec fn well_formed(body: BodyView) -> bool {
    fields_fit(body) && storable(body_tree(body))
}

/// Does the text read as the body?
pub open spec fn reads_as(text: Seq<char>, body: BodyView) -> bool {
    match parsed_json(text) {
        Some(tree) => body_in(tree) == Some(body),
        None => false,
    }
}

/// The body that a tree holds, if it holds one.
pub open spec fn body_in(tree: JsonView) -> Option<BodyView> {
    match tree {
        JsonView::Object(members) => if members.len() == 1 {
            match kind_named(members[0].0) {
                Some(kind) => {
                    let body = BodyView { kind, fields: members[0].1 };
                    if well_formed(body) {
                        Some(body)
                    } else {
                        None
                    }
                },
                None => None,
            }
        } else {
            None
        },
        _ => None,
    }
}

// ---------------------------------------------------------------------------
// What the library asks of a body
// ---------------------------------------------------------------------------
/// The ids that a body refers to, in the order in which it lists them.
pub open spec fn references(body: BodyView) -> Seq<u32> {
    let v = body.fields;
    let children = match children_path(body.kind) {
        Some(path) => ids_or_none(v, path),
        None => Seq::empty(),
    };
    match body.kind {
        BodyKind::Event => ids_or_none(v, seq!["actions"@]),
        BodyKind::Action => nonzero(id_or_none(v, seq!["external_id"@])),
        BodyKind::SwitchContainer => children + ids_in_each(
            list_at(v, seq!["switch_groups"@]),
            seq!["nodes"@],
        ),
        BodyKind::LayerContainer => children + layer_children(list_at(v, seq!["layers"@])),
        _ => children,
    }
}

/// The children of a body, if its kind has any.
pub open spec fn children(body: BodyView) -> Option<Seq<u32>> {
    match children_path(body.kind) {
        Some(path) => ids_at(body.fields, path),
        None => None,
    }
}

/// The body with another list of children.
pub open spec fn with_children(body: BodyView, ids: Seq<u32>) -> BodyView {
    match children_path(body.kind) {
        Some(path) => BodyView { kind: body.kind, fields: put(body.fields, path, ids_view(ids)) },
        None => body,
    }
}

/// The parent that a body is attached to.
pub open spec fn direct_parent(body: BodyView) -> Option<u32> {
    match parent_path(body.kind) {
        Some(path) => u32_at(body.fields, path),
        None => None,
    }
}

/// The bus that a body overrides.
pub open spec fn override_bus(body: BodyView) -> Option<u32> {
    match bus_path(body.kind) {
        Some(path) => u32_at(body.fields, path),
        None => None,
    }
}

/// The audio files that a body plays, in the order in which it lists them.
pub open spec fn audio_sources(body: BodyView) -> Seq<u32> {
    match body.kind {
        BodyKind::Sound => nonzero(
            id_or_none(
                body.fields,
                seq!["bank_source_data"@, "media_information"@, "source_id"@],
            ),
        ),
        BodyKind::MusicTrack => nonzero(
            id_in_each(
                list_at(body.fields, seq!["sources"@]),
                seq!["media_information"@, "source_id"@],
            ),
        ),
        _ => Seq::empty(),
    }
}

/// The number of the action that plays its target.
pub const PLAY: u32 = 0x0403;

/// Is the body an action that plays its target?
pub open spec fn is_play(body: BodyView) -> bool {
    body.kind is Action && u32_at(body.fields, seq!["action_type"@]) == Some(PLAY)
}

/// The target of an action, if it has one.
pub open spec fn action_target(body: BodyView) -> Option<u32> {
    if body.kind is Action {
        match u32_at(body.fields, seq!["external_id"@]) {
            Some(id) => if id != 0 {
                Some(id)
            } else {
                None
            },
            None => None,
        }
    } else {
        None
    }
}

// ---------------------------------------------------------------------------
// Paths, executable
// ---------------------------------------------------------------------------
fn path1(a: &'static str) -> (r: Vec<&'static str>)
    ensures
        path_view(r@) == seq![a@],
{
    let r = vec![a];
    assert(path_view(r@) =~= seq![a@]);
    r
}

fn path2(a: &'static str, b: &'static str) -> (r: Vec<&'static str>)
    ensures
        path_view(r@) == seq![a@, b@],
{
    let r = vec![a, b];
    assert(path_view(r@) =~= seq![a@, b@]);
    r
}

fn path3(a: &'static str, b: &'static str, c: &'static str) -> (r: Vec<&'static str>)
    ensures
        path_view(r@) == seq![a@, b@, c@],
{
    let r = vec![a, b, c];
    assert(path_view(r@) =~= seq![a@, b@, c@]);
    r
}

/// What an optional path says.
pub open spec fn opt_path_view(path: Option<Vec<&'static str>>) -> Option<Seq<Seq<char>>> {
    match path {
        Some(p) => Some(path_view(p@)),
        None => None,
    }
}

fn path_to_node(kind: BodyKind) -> (r: Option<Vec<&'static str>>)
    ensures
        opt_path_view(r) == node_path(kind),
{
    match kind {
        BodyKind::Sound
        | BodyKind::RandomSequenceContainer
        | BodyKind::SwitchContainer
        | BodyKind::ActorMixer
        | BodyKind::LayerContainer
        | BodyKind::MusicTrack => Some(path1("node_base_params")),
        BodyKind::MusicSegment => Some(path2("music_node_params", "node_base_params")),
        BodyKind::MusicSwitchContainer | BodyKind::MusicRandomSequenceContainer => Some(
            path3("music_trans_node_params", "music_node_params", "node_base_params"),
        ),
        _ => None,
    }
}

fn extended(path: Option<Vec<&'static str>>, key: &'static str) -> (r: Option<Vec<&'static str>>)
    ensures
        opt_path_view(r) == (match opt_path_view(path) {
            Some(p) => Some(p.push(key@)),
            None => None,
        }),
{
    match path {
        Some(mut p) => {
            let ghost before = p@;
            p.push(key);
            assert(path_view(p@) =~= path_view(before).push(key@));
            Some(p)
        },
        None => None,
    }
}

fn path_to_parent(kind: BodyKind) -> (r: Option<Vec<&'static str>>)
    ensures
        opt_path_view(r) == parent_path(kind),
{
    extended(path_to_node(kind), "direct_parent_id")
}

fn path_to_bus(kind: BodyKind) -> (r: Option<Vec<&'static str>>)
    ensures
        opt_path_view(r) == bus_path(kind),
{
    match kind {
        BodyKind::Bus | BodyKind::AuxiliaryBus => Some(path2("initial_values", "override_bus_id")),
        _ => extended(path_to_node(kind), "override_bus_id"),
    }
}

fn path_to_children(kind: BodyKind) -> (r: Option<Vec<&'static str>>)
    ensures
        opt_path_view(r) == children_path(kind),
{
    match kind {
        BodyKind::RandomSequenceContainer
        | BodyKind::SwitchContainer
        | BodyKind::ActorMixer
        | BodyKind::LayerContainer => Some(path2("children", "items")),
        BodyKind::MusicSegment => Some(path3("music_node_params", "children", "items")),
        BodyKind::MusicSwitchContainer | BodyKind::MusicRandomSequenceContainer => {
            let r = vec!["music_trans_node_params", "music_node_params", "children", "items"];
            assert(path_view(r@)
                =~= seq!["music_trans_node_params"@, "music_node_params"@, "children"@, "items"@]);
            Some(r)
        },
        _ => None,
    }
}

// ---------------------------------------------------------------------------
// Lists, executable
// ---------------------------------------------------------------------------
/// A list at the end of a path, if there is one.
pub(crate) fn find_list<'a>(tree: &'a Json, path: &Vec<&str>) -> (r: Option<&'a Vec<Json>>)
    ensures
        match r {
            Some(items) => has_list(tree@, path_view(path@)) && Json::Array(*items)@
                == JsonView::Array(list_at(tree@, path_view(path@))),
            None => !has_list(tree@, path_view(path@)) && list_at(tree@, path_view(path@))
                == Seq::<JsonView>::empty(),
        },
{
    match tree.at(path) {
        Some(Json::Array(items)) => {
            let ghost whole = Json::Array(*items)@;
            Some(items)
        },
        _ => None,
    }
}

fn push_all(out: &mut Vec<u32>, ids: &Vec<u32>)
    ensures
        final(out)@ == old(out)@ + ids@,
{
    let mut i: usize = 0;
    let ghost start = out@;
    assert(start + ids@.take(0) =~= start);
    while i < ids.len()
        invariant
            i <= ids@.len(),
            out@ == start + ids@.take(i as int),
        decreases ids@.len() - i,
    {
        out.push(ids[i]);
        assert(out@ =~= start + ids@.take(i + 1));
        i = i + 1;
    }
    assert(ids@.take(ids@.len() as int) =~= ids@);
}

/// The ids that the elements of a list hold at the end of a path, and whether each holds one.
pub(crate) fn collect_id_in_each(items: &Vec<Json>, path: &Vec<&str>) -> (r: (Vec<u32>, bool))
    ensures
        r.0@ == id_in_each(Json::Array(*items)@->Array_0, path_view(path@)),
        r.1 == each_has_id(Json::Array(*items)@->Array_0, path_view(path@)),
{
    let ghost views = Json::Array(*items)@->Array_0;
    let ghost p = path_view(path@);
    let mut out: Vec<u32> = Vec::new();
    let mut all = true;
    let mut i: usize = 0;
    assert(views.take(0) =~= Seq::<JsonView>::empty());
    while i < items.len()
        invariant
            i <= items@.len(),
            views.len() == items@.len(),
            p == path_view(path@),
            forall|k: int| 0 <= k < items@.len() ==> #[trigger] views[k] == items@[k]@,
            out@ == id_in_each(views.take(i as int), p),
            all == (forall|k: int| 0 <= k < i ==> u32_at(#[trigger] views[k], p) is Some),
        decreases items@.len() - i,
    {
        assert(views.take(i + 1).drop_last() =~= views.take(i as int));
        assert(views.take(i + 1).last() == views[i as int]);
        match items[i].u32_at(path) {
            Some(id) => {
                out.push(id);
                assert(out@ =~= id_in_each(views.take(i as int), p) + seq![id]);
            },
            None => {
                assert(u32_at(views[i as int], p) is None);
                all = false;
                assert(out@ =~= id_in_each(views.take(i as int), p) + Seq::<u32>::empty());
            },
        }
        i = i + 1;
    }
    assert(views.take(views.len() as int) =~= views);
    (out, all)
}

/// The lists of ids that the elements of a list hold, joined, and whether each holds one.
fn collect_ids_in_each(items: &Vec<Json>, path: &Vec<&str>) -> (r: (Vec<u32>, bool))
    ensures
        r.0@ == ids_in_each(Json::Array(*items)@->Array_0, path_view(path@)),
        r.1 == each_has_ids(Json::Array(*items)@->Array_0, path_view(path@)),
{
    let ghost views = Json::Array(*items)@->Array_0;
    let ghost p = path_view(path@);
    let mut out: Vec<u32> = Vec::new();
    let mut all = true;
    let mut i: usize = 0;
    assert(views.take(0) =~= Seq::<JsonView>::empty());
    while i < items.len()
        invariant
            i <= items@.len(),
            views.len() == items@.len(),
            p == path_view(path@),
            forall|k: int| 0 <= k < items@.len() ==> #[trigger] views[k] == items@[k]@,
            out@ == ids_in_each(views.take(i as int), p),
            all == (forall|k: int| 0 <= k < i ==> ids_at(#[trigger] views[k], p) is Some),
        decreases items@.len() - i,
    {
        assert(views.take(i + 1).drop_last() =~= views.take(i as int));
        assert(views.take(i + 1).last() == views[i as int]);
        match items[i].ids_at(path) {
            Some(ids) => {
                push_all(&mut out, &ids);
            },
            None => {
                assert(ids_at(views[i as int], p) is None);
                all = false;
                assert(out@ =~= ids_in_each(views.take(i as int), p) + Seq::<u32>::empty());
            },
        }
        i = i + 1;
    }
    assert(views.take(views.len() as int) =~= views);
    (out, all)
}

/// The children that layers are associated with, and whether each layer names its children.
fn collect_layer_children(layers: &Vec<Json>) -> (r: (Vec<u32>, bool))
    ensures
        r.0@ == layer_children(Json::Array(*layers)@->Array_0),
        r.1 == each_layer_fits(Json::Array(*layers)@->Array_0),
{
    let ghost views = Json::Array(*layers)@->Array_0;
    let list_path = path1("associated_children");
    let id_path = path1("associated_child_id");
    let mut out: Vec<u32> = Vec::new();
    let mut all = true;
    let mut i: usize = 0;
    assert(views.take(0) =~= Seq::<JsonView>::empty());
    while i < layers.len()
        invariant
            i <= layers@.len(),
            views.len() == layers@.len(),
            path_view(list_path@) == seq!["associated_children"@],
            path_view(id_path@) == seq!["associated_child_id"@],
            forall|k: int| 0 <= k < layers@.len() ==> #[trigger] views[k] == layers@[k]@,
            out@ == layer_children(views.take(i as int)),
            all == each_layer_fits(views.take(i as int)),
        decreases layers@.len() - i,
    {
        let ghost shorter = views.take(i as int);
        let ghost longer = views.take(i + 1);
        assert(longer.drop_last() =~= shorter);
        assert(longer.last() == views[i as int]);
        let fits = match find_list(&layers[i], &list_path) {
            Some(items) => {
                let (ids, each) = collect_id_in_each(items, &id_path);
                push_all(&mut out, &ids);
                each
            },
            None => {
                assert(out@ =~= layer_children(shorter) + Seq::<u32>::empty());
                false
            },
        };
        proof {
            if all && fits {
                assert forall|k: int| 0 <= k < longer.len() implies has_list(
                    #[trigger] longer[k],
                    seq!["associated_children"@],
                ) && each_has_id(
                    list_at(longer[k], seq!["associated_children"@]),
                    seq!["associated_child_id"@],
                ) by {
                    if k < i {
                        assert(longer[k] == shorter[k]);
                    }
                }
            }
            if each_layer_fits(longer) {
                assert forall|k: int| 0 <= k < shorter.len() implies has_list(
                    #[trigger] shorter[k],
                    seq!["associated_children"@],
                ) && each_has_id(
                    list_at(shorter[k], seq!["associated_children"@]),
                    seq!["associated_child_id"@],
                ) by {
                    assert(longer[k] == shorter[k]);
                }
                assert(longer[i as int] == views[i as int]);
            }
        }
        all = all && fits;
        i = i + 1;
    }
    assert(views.take(views.len() as int) =~= views);
    (out, all)
}

fn drop_zeros(ids: &Vec<u32>) -> (r: Vec<u32>)
    ensures
        r@ == nonzero(ids@),
{
    let mut out: Vec<u32> = Vec::new();
    let mut i: usize = 0;
    assert(ids@.take(0) =~= Seq::<u32>::empty());
    while i < ids.len()
        invariant
            i <= ids@.len(),
            out@ == nonzero(ids@.take(i as int)),
        decreases ids@.len() - i,
    {
        assert(ids@.take(i + 1).drop_last() =~= ids@.take(i as int));
        if ids[i] != 0 {
            out.push(ids[i]);
        }
        i = i + 1;
    }
    assert(ids@.take(ids@.len() as int) =~= ids@);
    out
}

// ---------------------------------------------------------------------------
// Questions to a body
// ---------------------------------------------------------------------------
fn ids_from(tree: &Json, path: &Vec<&str>) -> (r: Vec<u32>)
    ensures
        r@ == ids_or_none(tree@, path_view(path@)),
{
    match tree.ids_at(path) {
        Some(ids) => ids,
        None => Vec::new(),
    }
}

/// Why a list of children cannot be changed.
#[derive(Debug, Clone, Copy, PartialEq, Eq, Structural)]
pub enum ChildError {
    /// Objects of this kind have no children.
    NoChildren,
    /// The child to be removed is not in the list.
    NotThere,
}

/// The list with one more id, in ascending order; the same list if the id is in it already.
pub open spec fn with_id(ids: Seq<u32>, id: u32) -> Seq<u32> {
    if ids.contains(id) {
        ids
    } else {
        crate::seqs::sorted(ids.push(id))
    }
}

/// The list without any occurrence of an id.
pub open spec fn without_id(ids: Seq<u32>, id: u32) -> Seq<u32>
    decreases ids.len(),
{
    if ids.len() == 0 {
        Seq::empty()
    } else if ids.last() != id {
        without_id(ids.drop_last(), id).push(ids.last())
    } else {
        without_id(ids.drop_last(), id)
    }
}

fn remove_id(ids: &Vec<u32>, id: u32) -> (r: Vec<u32>)
    ensures
        r@ == without_id(ids@, id),
        r@.len() <= ids@.len(),
        (r@.len() == ids@.len()) == !ids@.contains(id),
{
    let mut out: Vec<u32> = Vec::new();
    let mut i: usize = 0;
    let ghost mut hit = false;
    assert(ids@.take(0) =~= Seq::<u32>::empty());
    while i < ids.len()
        invariant
            i <= ids@.len(),
            out@ == without_id(ids@.take(i as int), id),
            out@.len() <= i,
            hit == (out@.len() < i),
            hit == (exists|k: int| 0 <= k < i && ids@[k] == id),
        decreases ids@.len() - i,
    {
        assert(ids@.take(i + 1).drop_last() =~= ids@.take(i as int));
        if ids[i] != id {
            out.push(ids[i]);
        } else {
            assert(ids@[i as int] == id);
            proof {
                hit = true;
            }
        }
        i = i + 1;
    }
    assert(ids@.take(ids@.len() as int) =~= ids@);
    out
}

fn check_own_fields(kind: BodyKind, fields: &Json) -> (r: bool)
    ensures
        r == own_fields_fit((BodyView { kind, fields: fields@ })),
{
    match kind {
        BodyKind::Event => fields.ids_at(&path1("actions")).is_some(),
        BodyKind::Action => fields.u32_at(&path1("external_id")).is_some(),
        BodyKind::Sound => fields.u32_at(
            &path3("bank_source_data", "media_information", "source_id"),
        ).is_some(),
        BodyKind::MusicTrack => match find_list(fields, &path1("sources")) {
            Some(items) => collect_id_in_each(
                items,
                &path2("media_information", "source_id"),
            ).1,
            None => false,
        },
        BodyKind::SwitchContainer => match find_list(fields, &path1("switch_groups")) {
            Some(items) => collect_ids_in_each(items, &path1("nodes")).1,
            None => false,
        },
        BodyKind::LayerContainer => match find_list(fields, &path1("layers")) {
            Some(items) => collect_layer_children(items).1,
            None => false,
        },
        _ => true,
    }
}

fn check_fields(kind: BodyKind, fields: &Json) -> (r: bool)
    ensures
        r == fields_fit((BodyView { kind, fields: fields@ })),
{
    let parent = match path_to_parent(kind) {
        Some(path) => fields.u32_at(&path).is_some(),
        None => true,
    };
    let bus = match path_to_bus(kind) {
        Some(path) => fields.u32_at(&path).is_some(),
        None => true,
    };
    let children = match path_to_children(kind) {
        Some(path) => fields.ids_at(&path).is_some(),
        None => true,
    };
    let object = matches!(fields, Json::Object(_));
    object && parent && bus && children && check_own_fields(kind, fields)
}

impl HIRCObjectBody {
    /// The kind of the body.
    pub fn kind(&self) -> (r: BodyKind)
        ensures
            r == self@.kind,
    {
        self.kind
    }

    /// A copy of the body.
    pub fn dup(&self) -> (r: HIRCObjectBody)
        ensures
            r@ == self@,
    {
        proof {
            use_type_invariant(self);
        }
        HIRCObjectBody { kind: self.kind, fields: self.fields.dup() }
    }

    /// The tree that the body is stored as.
    pub fn to_json(&self) -> (r: Json)
        ensures
            r@ == body_tree(self@),
            well_formed(self@),
    {
        proof {
            use_type_invariant(self);
        }
        let members = vec![(self.kind.name().to_owned(), self.fields.dup())];
        let r = Json::Object(members);
        assert(r@->Object_0 =~= body_tree(self@)->Object_0);
        r
    }

    /// The body that a tree holds. A body has a known kind, the fields that its kind is routed
    /// and followed by, and can be stored.
    pub fn from_json(tree: Json) -> (r: Result<HIRCObjectBody, JsonError>)
        ensures
            match r {
                Ok(body) => body_in(tree@) == Some(body@),
                Err(e) => body_in(tree@) is None && e == JsonError::NotABody,
            },
    {
        let ghost view = tree@;
        let storable = tree.is_storable();
        match tree {
            Json::Object(mut members) => {
                assert(view->Object_0.len() == members@.len());
                if members.len() != 1 {
                    return Err(JsonError::NotABody);
                }
                assert(view->Object_0[0] == (members@[0].0@, members@[0].1@));
                let (name, fields) = members.remove(0);
                match BodyKind::from_name(&name) {
                    Some(kind) => {
                        let ghost body = BodyView { kind, fields: fields@ };
                        proof {
                            lemma_named_kind(name@);
                            assert(body_tree(body)->Object_0 =~= view->Object_0);
                        }
                        if storable && check_fields(kind, &fields) {
                            Ok(HIRCObjectBody { kind, fields })
                        } else {
                            Err(JsonError::NotABody)
                        }
                    },
                    None => Err(JsonError::NotABody),
                }
            },
            _ => Err(JsonError::NotABody),
        }
    }

    /// The ids that the body refers to.
    pub fn references_of(&self) -> (r: Vec<u32>)
        ensures
            r@ == references(self@),
    {
        let mut out = match path_to_children(self.kind) {
            Some(path) => ids_from(&self.fields, &path),
            None => Vec::new(),
        };
        match self.kind {
            BodyKind::Event => ids_from(&self.fields, &path1("actions")),
            BodyKind::Action => {
                let mut target: Vec<u32> = Vec::new();
                if let Some(id) = self.fields.u32_at(&path1("external_id")) {
                    target.push(id);
                }
                assert(target@ =~= id_or_none(self@.fields, seq!["external_id"@]));
                drop_zeros(&target)
            },
            BodyKind::SwitchContainer => {
                if let Some(items) = find_list(&self.fields, &path1("switch_groups")) {
                    let (ids, _) = collect_ids_in_each(items, &path1("nodes"));
                    push_all(&mut out, &ids);
                } else {
                    assert(out@ + Seq::<u32>::empty() =~= out@);
                }
                out
            },
            BodyKind::LayerContainer => {
                if let Some(items) = find_list(&self.fields, &path1("layers")) {
                    let (ids, _) = collect_layer_children(items);
                    push_all(&mut out, &ids);
                } else {
                    assert(out@ + Seq::<u32>::empty() =~= out@);
                }
                out
            },
            _ => out,
        }
    }

    /// The parent and the bus that the body is routed to.
    pub fn extract_routing(&self) -> (r: (Option<u32>, Option<u32>))
        ensures
            r == (direct_parent(self@), override_bus(self@)),
            r.0 is Some == (parent_path(self@.kind) is Some),
            r.1 is Some == (bus_path(self@.kind) is Some),
    {
        proof {
            use_type_invariant(self);
        }
        let parent = match path_to_parent(self.kind) {
            Some(path) => self.fields.u32_at(&path),
            None => None,
        };
        let bus = match path_to_bus(self.kind) {
            Some(path) => self.fields.u32_at(&path),
            None => None,
        };
        (parent, bus)
    }

    /// The children of the body, if its kind has any.
    pub fn children(&self) -> (r: Option<Vec<u32>>)
        ensures
            match r {
                Some(ids) => children(self@) == Some(ids@),
                None => children(self@) is None,
            },
            r is Some == is_container(self@.kind),
    {
        proof {
            use_type_invariant(self);
        }
        match path_to_children(self.kind) {
            Some(path) => self.fields.ids_at(&path),
            None => None,
        }
    }

    /// Has the body a list of children?
    pub fn has_children(&self) -> (r: bool)
        ensures
            r == is_container(self@.kind),
    {
        path_to_children(self.kind).is_some()
    }

    /// Gives the body another list of children.
    fn set_children(&mut self, ids: &Vec<u32>)
        requires
            is_container(old(self)@.kind),
        ensures
            final(self)@ == with_children(old(self)@, ids@),
    {
        proof {
            use_type_invariant(&*self);
        }
        if let Some(path) = path_to_children(self.kind) {
            assert(path_view(path@).skip(0) =~= path_view(path@));
            let fields = self.fields.dup().put(&path, 0, Json::from_ids(ids));
            proof {
                lemma_with_children(self@, ids@);
            }
            self.fields = fields;
        }
    }

    /// Adds a child, unless it is there already, and keeps the list in ascending order.
    pub fn add_child(&mut self, child: u32) -> (r: Result<(), ChildError>)
        ensures
            match children(old(self)@) {
                Some(ids) => r is Ok && final(self)@ == (if ids.contains(child) {
                    old(self)@
                } else {
                    with_children(old(self)@, with_id(ids, child))
                }),
                None => r == Err::<(), ChildError>(ChildError::NoChildren) && final(self)@ == old(
                    self,
                )@,
            },
            r is Ok == is_container(old(self)@.kind),
    {
        match self.children() {
            Some(mut ids) => {
                if !contains_id(&ids, child) {
                    ids.push(child);
                    self.set_children(&sort_ids(&ids));
                }
                Ok(())
            },
            None => Err(ChildError::NoChildren),
        }
    }

    /// Adds several children and puts the list in ascending order. A child that is there already
    /// is there once more.
    pub fn append_children(&mut self, more: &Vec<u32>) -> (r: Result<(), ChildError>)
        ensures
            match children(old(self)@) {
                Some(ids) => r is Ok && final(self)@ == with_children(
                    old(self)@,
                    crate::seqs::sorted(ids + more@),
                ),
                None => r == Err::<(), ChildError>(ChildError::NoChildren) && final(self)@ == old(
                    self,
                )@,
            },
            r is Ok == is_container(old(self)@.kind),
    {
        match self.children() {
            Some(mut ids) => {
                push_all(&mut ids, more);
                self.set_children(&sort_ids(&ids));
                Ok(())
            },
            None => Err(ChildError::NoChildren),
        }
    }

    /// Removes every occurrence of a child.
    pub fn remove_child(&mut self, child: u32) -> (r: Result<(), ChildError>)
        ensures
            match children(old(self)@) {
                Some(ids) => if ids.contains(child) {
                    r is Ok && final(self)@ == with_children(old(self)@, without_id(ids, child))
                } else {
                    r == Err::<(), ChildError>(ChildError::NotThere) && final(self)@ == old(self)@
                },
                None => r == Err::<(), ChildError>(ChildError::NoChildren) && final(self)@ == old(
                    self,
                )@,
            },
            r == Err::<(), ChildError>(ChildError::NoChildren) <==> !is_container(
                old(self)@.kind,
            ),
    {
        match self.children() {
            Some(ids) => {
                let left = remove_id(&ids, child);
                if left.len() == ids.len() {
                    return Err(ChildError::NotThere);
                }
                self.set_children(&left);
                Ok(())
            },
            None => Err(ChildError::NoChildren),
        }
    }

    /// The audio files that the body plays.
    pub fn audio_sources(&self) -> (r: Vec<u32>)
        ensures
            r@ == audio_sources(self@),
    {
        match self.kind {
            BodyKind::Sound => {
                let path = path3("bank_source_data", "media_information", "source_id");
                let mut source: Vec<u32> = Vec::new();
                if let Some(id) = self.fields.u32_at(&path) {
                    source.push(id);
                }
                assert(source@ =~= id_or_none(self@.fields, path_view(path@)));
                drop_zeros(&source)
            },
            BodyKind::MusicTrack => match find_list(&self.fields, &path1("sources")) {
                Some(items) => {
                    let (ids, _) = collect_id_in_each(
                        items,
                        &path2("media_information", "source_id"),
                    );
                    drop_zeros(&ids)
                },
                None => {
                    let none: Vec<u32> = Vec::new();
                    assert(none@ =~= id_in_each(
                        Seq::empty(),
                        seq!["media_information"@, "source_id"@],
                    ));
                    drop_zeros(&none)
                },
            },
            _ => Vec::new(),
        }
    }

    /// Is the body an action that plays its target?
    pub fn is_play(&self) -> (r: bool)
        ensures
            r == is_play(self@),
    {
        match self.kind {
            BodyKind::Action => match self.fields.u32_at(&path1("action_type")) {
                Some(code) => code == PLAY,
                None => false,
            },
            _ => false,
        }
    }

    /// The target of an action, if it has one.
    pub fn action_target(&self) -> (r: Option<u32>)
        ensures
            r == action_target(self@),
    {
        match self.kind {
            BodyKind::Action => match self.fields.u32_at(&path1("external_id")) {
                Some(id) => if id != 0 {
                    Some(id)
                } else {
                    None
                },
                None => None,
            },
            _ => None,
        }
    }

    /// Replaces every number `from` in the fields by `to`.
    pub fn renumber(&mut self, from: u32, to: u32)
        ensures
            final(self)@ == renumbered_body(old(self)@, from, to),
    {
        proof {
            use_type_invariant(&*self);
            lemma_renumbered_body(self@, from, to);
        }
        let mut fields = self.fields.dup();
        rewrite_u32(&mut fields, from, to);
        self.fields = fields;
    }
}

/// The body with every number `from` in its fields replaced by `to`.
pub open spec fn renumbered_body(body: BodyView, from: u32, to: u32) -> BodyView {
    BodyView { kind: body.kind, fields: renumbered(body.fields, from, to) }
}

/// A name that belongs to a kind is that kind's name.
pub proof fn lemma_named_kind(name: Seq<char>)
    ensures
        kind_named(name) matches Some(kind) ==> kind_name(kind) == name,
{
}

/// A complete body is found in its own tree.
pub proof fn lemma_body_in_tree(body: BodyView)
    requires
        well_formed(body),
    ensures
        body_in(body_tree(body)) == Some(body),
{
    lemma_kind_names(body.kind);
}

} // verus!
