//! New sounds spliced into stored trees, without reading them as banks.

use vstd::prelude::*;

use crate::ids::{hash_name, name_hash};
use crate::json::{at, member, path_view, put, Json, JsonView};
use crate::json_text::{printable, printed_json, JsonError};
use crate::kind::{kind_named, kind_number, BodyKind};
use crate::seqs::{first_where, lemma_first_where};
use crate::session::trees_view;

verus! {

/// Why a tree cannot be patched.
#[derive(Debug, Clone, Copy, PartialEq, Eq, Structural)]
pub enum PatchError {
    /// There is no list of objects.
    MissingObjects,
    /// No object has the hash of the mixer.
    MixerNotFound,
    /// The mixer has no list of children.
    NoChildren,
    /// An object has no body.
    NoBody,
    /// A body cannot be written as text.
    Json(JsonError),
}

// ---------------------------------------------------------------------------
// Order
// ---------------------------------------------------------------------------
/// What a tree is sorted by: its number, or zero.
pub open spec fn sort_key(tree: JsonView) -> u64 {
    match tree {
        JsonView::Unsigned(n) => n,
        _ => 0,
    }
}

/// The tree put behind the last one with no greater key.
pub open spec fn placed_tree(trees: Seq<JsonView>, tree: JsonView) -> Seq<JsonView>
    decreases trees.len(),
{
    if trees.len() == 0 || sort_key(trees.last()) <= sort_key(tree) {
        trees.push(tree)
    } else {
        placed_tree(trees.drop_last(), tree).push(trees.last())
    }
}

/// The trees in ascending order of their keys; trees with the same key keep their order.
pub open spec fn sorted_trees(trees: Seq<JsonView>) -> Seq<JsonView>
    decreases trees.len(),
{
    if trees.len() == 0 {
        Seq::empty()
    } else {
        placed_tree(sorted_trees(trees.drop_last()), trees.last())
    }
}

proof fn lemma_placed_tree(trees: Seq<JsonView>, tree: JsonView, i: int)
    requires
        0 <= i <= trees.len(),
        i > 0 ==> sort_key(trees[i - 1]) <= sort_key(tree),
        forall|k: int| i <= k < trees.len() ==> sort_key(#[trigger] trees[k]) > sort_key(tree),
    ensures
        placed_tree(trees, tree) == trees.insert(i, tree),
    decreases trees.len(),
{
    if i == trees.len() {
        assert(trees.insert(i, tree) =~= trees.push(tree));
    } else {
        assert(trees.last() == trees[trees.len() - 1]);
        lemma_placed_tree(trees.drop_last(), tree, i);
        assert(trees.drop_last().insert(i, tree).push(trees.last()) =~= trees.insert(i, tree));
    }
}

fn key_of(tree: &Json) -> (r: u64)
    ensures
        r == sort_key(tree@),
{
    match tree {
        Json::Unsigned(n) => *n,
        _ => 0,
    }
}

fn sort_trees(trees: Vec<Json>) -> (r: Vec<Json>)
    ensures
        trees_view(r@) == sorted_trees(trees_view(trees@)),
{
    let ghost views = trees_view(trees@);
    let mut r: Vec<Json> = Vec::new();
    proof {
        assert(views.take(0) =~= Seq::<JsonView>::empty());
        assert(trees_view(r@) =~= Seq::<JsonView>::empty());
    }
    for tree in it: trees
        invariant
            it.seq() == trees@,
            views == trees_view(trees@),
            trees_view(r@) == sorted_trees(views.take(it.index() as int)),
    {
        let ghost n = it.index() as int;
        let ghost before = trees_view(r@);
        let ghost view = tree@;
        let key = key_of(&tree);
        let mut i: usize = r.len();
        while i > 0 && key_of(&r[i - 1]) > key
            invariant
                i <= r@.len(),
                before == trees_view(r@),
                key == sort_key(view),
                forall|k: int|
                    i <= k < before.len() ==> sort_key(#[trigger] before[k]) > sort_key(view),
            decreases i,
        {
            assert(before[i - 1] == r@[i - 1]@);
            i = i - 1;
        }
        proof {
            if i > 0 {
                assert(before[i - 1] == r@[i - 1]@);
            }
            lemma_placed_tree(before, view, i as int);
            assert(views.take(n + 1).drop_last() =~= views.take(n));
            assert(views.take(n + 1).last() == view);
        }
        r.insert(i, tree);
        assert(trees_view(r@) =~= before.insert(i as int, view));
    }
    assert(views.take(views.len() as int) =~= views);
    r
}

// ---------------------------------------------------------------------------
// Children of a mixer
// ---------------------------------------------------------------------------
/// Ids as trees.
pub open spec fn id_trees(ids: Seq<u32>) -> Seq<JsonView> {
    ids.map_values(|id: u32| JsonView::Unsigned(id as u64))
}

/// The tree with more children at the end of a path, in ascending order, and with their number
/// beside them if there is a place for it.
pub open spec fn with_more_children(
    tree: JsonView,
    items_path: Seq<Seq<char>>,
    count_path: Seq<Seq<char>>,
    ids: Seq<u32>,
) -> Result<JsonView, PatchError> {
    match at(tree, items_path) {
        Some(JsonView::Array(items)) => {
            let all = sorted_trees(items + id_trees(ids));
            let longer = put(tree, items_path, JsonView::Array(all));
            Ok(
                if at(longer, count_path) is Some {
                    put(longer, count_path, JsonView::Unsigned(all.len() as u64))
                } else {
                    longer
                },
            )
        },
        _ => Err(PatchError::NoChildren),
    }
}

fn add_children(
    tree: Json,
    items_path: &Vec<&str>,
    count_path: &Vec<&str>,
    ids: &Vec<u32>,
) -> (r: Result<Json, PatchError>)
    ensures
        match r {
            Ok(patched) => with_more_children(
                tree@,
                path_view(items_path@),
                path_view(count_path@),
                ids@,
            ) == Ok::<JsonView, PatchError>(patched@),
            Err(e) => with_more_children(
                tree@,
                path_view(items_path@),
                path_view(count_path@),
                ids@,
            ) == Err::<JsonView, PatchError>(e),
        },
{
    let ghost items_at = path_view(items_path@);
    let ghost count_at = path_view(count_path@);
    assert(items_at.skip(0) =~= items_at);
    assert(count_at.skip(0) =~= count_at);
    let mut items: Vec<Json> = match tree.at(items_path) {
        Some(Json::Array(items)) => {
            let copy = copy_trees(items);
            assert(at(tree@, items_at)->Some_0->Array_0 =~= trees_view(items@));
            copy
        },
        _ => {
            return Err(PatchError::NoChildren);
        },
    };
    let ghost before = trees_view(items@);
    let mut i: usize = 0;
    assert(id_trees(ids@.take(0)) =~= Seq::<JsonView>::empty());
    assert(before + Seq::<JsonView>::empty() =~= before);
    while i < ids.len()
        invariant
            i <= ids@.len(),
            trees_view(items@) == before + id_trees(ids@.take(i as int)),
        decreases ids@.len() - i,
    {
        let ghost so_far = trees_view(items@);
        let one = Json::Unsigned(ids[i] as u64);
        let ghost view = one@;
        items.push(one);
        i = i + 1;
        proof {
            assert(trees_view(items@) =~= so_far.push(view));
            assert(id_trees(ids@.take(i as int)) =~= id_trees(ids@.take(i - 1)).push(view));
            assert(trees_view(items@) =~= before + id_trees(ids@.take(i as int)));
        }
    }
    assert(ids@.take(i as int) =~= ids@);
    let sorted = sort_trees(items);
    let count = sorted.len() as u64;
    let list = Json::Array(sorted);
    assert(list@->Array_0 =~= trees_view(sorted@));
    let longer = tree.put(items_path, 0, list);
    if longer.at(count_path).is_some() {
        Ok(longer.put(count_path, 0, Json::Unsigned(count)))
    } else {
        Ok(longer)
    }
}

/// A copy of a list of trees.
fn copy_trees(trees: &Vec<Json>) -> (r: Vec<Json>)
    ensures
        trees_view(r@) == trees_view(trees@),
{
    let mut r: Vec<Json> = Vec::new();
    let mut i: usize = 0;
    while i < trees.len()
        invariant
            i <= trees@.len(),
            r@.len() == i,
            forall|k: int| 0 <= k < i ==> (#[trigger] r@[k])@ == trees@[k]@,
        decreases trees@.len() - i,
    {
        r.push(trees[i].dup());
        i = i + 1;
    }
    assert(trees_view(r@) =~= trees_view(trees@));
    r
}

/// The stored body of a mixer with more children.
pub open spec fn mixer_patched(body: JsonView, ids: Seq<u32>) -> Result<JsonView, PatchError> {
    with_more_children(
        body,
        seq!["ActorMixer"@, "children"@, "items"@],
        seq!["ActorMixer"@, "children"@, "count"@],
        ids,
    )
}

/// Adds children to the stored body of a mixer.
pub fn patch_mixer_body(body: Json, new_children: &Vec<u32>) -> (r: Result<Json, PatchError>)
    ensures
        match r {
            Ok(patched) => mixer_patched(body@, new_children@) == Ok::<JsonView, PatchError>(
                patched@,
            ),
            Err(e) => mixer_patched(body@, new_children@) == Err::<JsonView, PatchError>(e),
        },
{
    let items_path = vec!["ActorMixer", "children", "items"];
    let count_path = vec!["ActorMixer", "children", "count"];
    assert(path_view(items_path@) =~= seq!["ActorMixer"@, "children"@, "items"@]);
    assert(path_view(count_path@) =~= seq!["ActorMixer"@, "children"@, "count"@]);
    add_children(body, &items_path, &count_path, new_children)
}

// ---------------------------------------------------------------------------
// Rows of new objects
// ---------------------------------------------------------------------------
/// The row of a new object.
#[derive(Debug)]
pub struct NewRow {
    pub label: String,
    pub id_hash: u32,
    pub body_kind: String,
    pub body_type: u8,
    pub direct_parent: Option<u32>,
    pub override_bus: Option<u32>,
    pub body_json: String,
}

/// The row of a new object, as plain data.
#[verifier::ext_equal]
pub struct NewRowData {
    pub label: Seq<char>,
    pub id_hash: u32,
    pub body_kind: Seq<char>,
    pub body_type: u8,
    pub direct_parent: Option<u32>,
    pub override_bus: Option<u32>,
    pub body_json: Seq<char>,
}

impl View for NewRow {
    type V = NewRowData;

    open spec fn view(&self) -> NewRowData {
        NewRowData {
            label: self.label@,
            id_hash: self.id_hash,
            body_kind: self.body_kind@,
            body_type: self.body_type,
            direct_parent: self.direct_parent,
            override_bus: self.override_bus,
            body_json: self.body_json@,
        }
    }
}

/// Is it the kind of an object in the subgraph of a sound?
pub open spec fn subgraph_kind(kind: BodyKind) -> bool {
    match kind {
        BodyKind::State
        | BodyKind::Sound
        | BodyKind::Action
        | BodyKind::Event
        | BodyKind::RandomSequenceContainer
        | BodyKind::ActorMixer => true,
        _ => false,
    }
}

/// The number of a kind; zero for one that is not in the subgraph of a sound.
pub open spec fn subgraph_type(name: Seq<char>) -> u8 {
    match kind_named(name) {
        Some(kind) => if subgraph_kind(kind) {
            kind_number(kind)
        } else {
            0
        },
        None => 0,
    }
}

/// The number at the end of a path, as far as 32 bits hold it.
pub open spec fn low_number_at(tree: JsonView, path: Seq<Seq<char>>) -> Option<u32> {
    match at(tree, path) {
        Some(JsonView::Unsigned(n)) => Some(n as u32),
        _ => None,
    }
}

/// The row of a new object.
pub open spec fn new_row(object: JsonView) -> Result<NewRowData, PatchError> {
    let label = match at(object, seq!["id"@, "String"@]) {
        Some(JsonView::Str(name)) => name,
        _ => Seq::empty(),
    };
    match at(object, seq!["body"@]) {
        Some(JsonView::Object(members)) => if members.len() == 0 {
            Err(PatchError::NoBody)
        } else {
            let wrapped = JsonView::Object(seq![members[0]]);
            if printable(wrapped) {
                Ok(
                    NewRowData {
                        label,
                        id_hash: name_hash(label),
                        body_kind: members[0].0,
                        body_type: subgraph_type(members[0].0),
                        direct_parent: low_number_at(
                            members[0].1,
                            seq!["node_base_params"@, "direct_parent_id"@],
                        ),
                        override_bus: low_number_at(
                            members[0].1,
                            seq!["node_base_params"@, "override_bus_id"@],
                        ),
                        body_json: printed_json(wrapped),
                    },
                )
            } else {
                Err(PatchError::Json(JsonError::NotPrintable))
            }
        },
        _ => Err(PatchError::NoBody),
    }
}

fn low_number(tree: &Json, path: &Vec<&str>) -> (r: Option<u32>)
    ensures
        r == low_number_at(tree@, path_view(path@)),
{
    match tree.at(path) {
        Some(Json::Unsigned(n)) => Some(#[verifier::truncate] (*n as u32)),
        _ => None,
    }
}

fn type_of_kind(name: &String) -> (r: u8)
    ensures
        r == subgraph_type(name@),
{
    match BodyKind::from_name(name) {
        Some(kind) => match kind {
            BodyKind::State
            | BodyKind::Sound
            | BodyKind::Action
            | BodyKind::Event
            | BodyKind::RandomSequenceContainer
            | BodyKind::ActorMixer => kind.number(),
            _ => 0,
        },
        None => 0,
    }
}

/// The row of a new object.
pub fn make_new_row(object: &Json) -> (r: Result<NewRow, PatchError>)
    ensures
        match r {
            Ok(row) => new_row(object@) == Ok::<NewRowData, PatchError>(row@),
            Err(e) => new_row(object@) == Err::<NewRowData, PatchError>(e),
        },
{
    let id_path = vec!["id", "String"];
    let body_path = vec!["body"];
    let parent_path = vec!["node_base_params", "direct_parent_id"];
    let bus_path = vec!["node_base_params", "override_bus_id"];
    proof {
        assert(path_view(id_path@) =~= seq!["id"@, "String"@]);
        assert(path_view(body_path@) =~= seq!["body"@]);
        assert(path_view(parent_path@) =~= seq!["node_base_params"@, "direct_parent_id"@]);
        assert(path_view(bus_path@) =~= seq!["node_base_params"@, "override_bus_id"@]);
    }
    let label = match object.at(&id_path) {
        Some(Json::Str(name)) => name.clone(),
        _ => {
            let none = String::new();
            assert(none@ =~= Seq::<char>::empty());
            none
        },
    };
    match object.at(&body_path) {
        Some(Json::Object(members)) => {
            if members.len() == 0 {
                return Err(PatchError::NoBody);
            }
            let ghost view = at(object@, seq!["body"@])->Some_0->Object_0;
            assert(view[0] == (members@[0].0@, members@[0].1@));
            let (kind, body) = (&members[0].0, &members[0].1);
            let wrapped = Json::Object(vec![(kind.clone(), body.dup())]);
            assert(wrapped@->Object_0 =~= seq![view[0]]);
            match wrapped.to_text() {
                Ok(body_json) => Ok(
                    NewRow {
                        id_hash: hash_name(label.as_str()),
                        label,
                        body_kind: kind.clone(),
                        body_type: type_of_kind(kind),
                        direct_parent: low_number(body, &parent_path),
                        override_bus: low_number(body, &bus_path),
                        body_json,
                    },
                ),
                Err(e) => Err(PatchError::Json(e)),
            }
        },
        _ => Err(PatchError::NoBody),
    }
}

// ---------------------------------------------------------------------------
// Whole banks
// ---------------------------------------------------------------------------
/// Has the object this hash, and no name?
pub open spec fn tree_hashed(hash: u32) -> spec_fn(JsonView) -> bool {
    |object: JsonView| at(object, seq!["id"@, "Hash"@]) == Some(JsonView::Unsigned(hash as u64))
}

/// A section with new objects, and with more children for a mixer.
pub open spec fn section_patched(
    section: JsonView,
    mixer: u32,
    ids: Seq<u32>,
    added: Seq<JsonView>,
) -> Result<JsonView, PatchError> {
    let list = seq!["body"@, "HIRC"@, "objects"@];
    let count = seq!["body"@, "HIRC"@, "object_count"@];
    match at(section, list) {
        Some(JsonView::Array(objects)) => {
            let i = first_where(objects, tree_hashed(mixer));
            if i < objects.len() {
                match with_more_children(
                    objects[i],
                    seq!["body"@, "ActorMixer"@, "children"@, "items"@],
                    seq!["body"@, "ActorMixer"@, "children"@, "count"@],
                    ids,
                ) {
                    Ok(patched) => {
                        let all = objects.update(i, patched) + added;
                        let longer = put(section, list, JsonView::Array(all));
                        Ok(
                            if at(longer, count) is Some {
                                put(longer, count, JsonView::Unsigned(all.len() as u64))
                            } else {
                                longer
                            },
                        )
                    },
                    Err(e) => Err(e),
                }
            } else {
                Err(PatchError::MixerNotFound)
            }
        },
        _ => Err(PatchError::MissingObjects),
    }
}

/// A bank as one tree, with new objects in its second section, and with more children for a
/// mixer there.
pub open spec fn bank_patched(
    bank: JsonView,
    mixer: u32,
    ids: Seq<u32>,
    added: Seq<JsonView>,
) -> Result<JsonView, PatchError> {
    match member(bank, "sections"@) {
        Some(JsonView::Array(sections)) => if sections.len() > 1 {
            match section_patched(sections[1], mixer, ids, added) {
                Ok(section) => Ok(
                    put(
                        bank,
                        seq!["sections"@],
                        JsonView::Array(sections.update(1, section)),
                    ),
                ),
                Err(e) => Err(e),
            }
        } else {
            Err(PatchError::MissingObjects)
        },
        _ => Err(PatchError::MissingObjects),
    }
}

fn find_mixer(objects: &Vec<Json>, mixer: u32) -> (r: usize)
    ensures
        r == first_where(trees_view(objects@), tree_hashed(mixer)),
        r <= objects@.len(),
{
    let ghost views = trees_view(objects@);
    let ghost p = tree_hashed(mixer);
    let path = vec!["id", "Hash"];
    assert(path_view(path@) =~= seq!["id"@, "Hash"@]);
    let mut i: usize = 0;
    while i < objects.len()
        invariant
            i <= objects@.len(),
            views == trees_view(objects@),
            p == tree_hashed(mixer),
            path_view(path@) == seq!["id"@, "Hash"@],
            forall|k: int| 0 <= k < i ==> !p(#[trigger] views[k]),
        ensures
            i <= objects@.len(),
            i == objects@.len() || p(views[i as int]),
            forall|k: int| 0 <= k < i ==> !p(#[trigger] views[k]),
        decreases objects@.len() - i,
    {
        assert(views[i as int] == objects@[i as int]@);
        match objects[i].at(&path) {
            Some(Json::Unsigned(n)) => {
                if *n == mixer as u64 {
                    break;
                }
            },
            _ => {},
        }
        i = i + 1;
    }
    proof {
        lemma_first_where(views, p, i as int);
    }
    i
}

fn patch_section(section: Json, mixer: u32, ids: &Vec<u32>, added: Vec<Json>) -> (r: Result<
    Json,
    PatchError,
>)
    ensures
        match r {
            Ok(patched) => section_patched(
                section@,
                mixer,
                ids@,
                trees_view(added@),
            ) == Ok::<JsonView, PatchError>(patched@),
            Err(e) => section_patched(section@, mixer, ids@, trees_view(added@)) == Err::<
                JsonView,
                PatchError,
            >(e),
        },
{
    let ghost new_objects = trees_view(added@);
    let list_path = vec!["body", "HIRC", "objects"];
    let count_path = vec!["body", "HIRC", "object_count"];
    let ghost list = seq!["body"@, "HIRC"@, "objects"@];
    let ghost count = seq!["body"@, "HIRC"@, "object_count"@];
    proof {
        assert(path_view(list_path@) =~= list);
        assert(path_view(count_path@) =~= count);
        assert(list.skip(0) =~= list);
        assert(count.skip(0) =~= count);
    }
    let mut objects: Vec<Json> = match section.at(&list_path) {
        Some(Json::Array(objects)) => {
            let copy = copy_trees(objects);
            assert(at(section@, list)->Some_0->Array_0 =~= trees_view(objects@));
            copy
        },
        _ => {
            return Err(PatchError::MissingObjects);
        },
    };
    let ghost before = trees_view(objects@);
    let i = find_mixer(&objects, mixer);
    if i == objects.len() {
        return Err(PatchError::MixerNotFound);
    }
    let items_path = vec!["body", "ActorMixer", "children", "items"];
    let items_count = vec!["body", "ActorMixer", "children", "count"];
    proof {
        assert(path_view(items_path@) =~= seq![
            "body"@,
            "ActorMixer"@,
            "children"@,
            "items"@,
        ]);
        assert(path_view(items_count@) =~= seq![
            "body"@,
            "ActorMixer"@,
            "children"@,
            "count"@,
        ]);
        assert(before[i as int] == objects@[i as int]@);
    }
    let object = objects.remove(i);
    let patched = match add_children(object, &items_path, &items_count, ids) {
        Ok(patched) => patched,
        Err(e) => {
            return Err(e);
        },
    };
    let ghost view = patched@;
    objects.insert(i, patched);
    assert(trees_view(objects@) =~= before.update(i as int, view));
    let mut added = added;
    objects.append(&mut added);
    assert(trees_view(objects@) =~= before.update(i as int, view) + new_objects);
    let total = objects.len() as u64;
    let all = Json::Array(objects);
    assert(all@->Array_0 =~= trees_view(objects@));
    let longer = section.put(&list_path, 0, all);
    if longer.at(&count_path).is_some() {
        Ok(longer.put(&count_path, 0, Json::Unsigned(total)))
    } else {
        Ok(longer)
    }
}

/// Adds new objects to a bank that is one tree, in its second section, and more children to a
/// mixer there.
pub fn patch_bank(bank: Json, mixer: u32, new_children: &Vec<u32>, new_objects: Vec<Json>) -> (r:
    Result<Json, PatchError>)
    ensures
        match r {
            Ok(patched) => bank_patched(
                bank@,
                mixer,
                new_children@,
                trees_view(new_objects@),
            ) == Ok::<JsonView, PatchError>(patched@),
            Err(e) => bank_patched(
                bank@,
                mixer,
                new_children@,
                trees_view(new_objects@),
            ) == Err::<JsonView, PatchError>(e),
        },
{
    let path = vec!["sections"];
    let ghost keys = seq!["sections"@];
    proof {
        assert(path_view(path@) =~= keys);
        assert(keys.skip(0) =~= keys);
    }
    let mut sections: Vec<Json> = match bank.get("sections") {
        Some(Json::Array(sections)) => {
            let copy = copy_trees(sections);
            assert(member(bank@, "sections"@)->Some_0->Array_0 =~= trees_view(sections@));
            copy
        },
        _ => {
            return Err(PatchError::MissingObjects);
        },
    };
    let ghost before = trees_view(sections@);
    if sections.len() <= 1 {
        return Err(PatchError::MissingObjects);
    }
    assert(before[1] == sections@[1]@);
    let section = sections.remove(1);
    let patched = match patch_section(section, mixer, new_children, new_objects) {
        Ok(patched) => patched,
        Err(e) => {
            return Err(e);
        },
    };
    let ghost view = patched@;
    sections.insert(1, patched);
    assert(trees_view(sections@) =~= before.update(1, view));
    let all = Json::Array(sections);
    assert(all@->Array_0 =~= trees_view(sections@));
    Ok(bank.put(&path, 0, all))
}

} // verus!
