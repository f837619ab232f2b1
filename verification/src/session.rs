//! A bank in memory, with the rows that mirror its changes in the database.

use vstd::prelude::*;

use crate::bank::{
    first_objects, hashed, hirc_index, lemma_object_with, lemma_with_objects, main_objects,
    object_with, objects_view, position_of, with_objects, HIRCObject, ObjectData, SectionBody,
    SectionData, Soundbank,
};
use crate::body::{
    body_in, body_tree, children, direct_parent, lemma_body_in_tree, override_bus, with_children,
    BodyView, HIRCObjectBody,
};
use crate::error::{StorageError, StorageFault};
use crate::ids::{dictionary_view, id_hash, FNVDictionary, IdView, ObjectId};
use crate::index::{last_with, lemma_last_with, HircIndex};
use crate::json::{at, path_view, Json, JsonView};
use crate::json_text::{printed_json, JsonError};
use crate::kind::{kind_name, kind_number, BodyKind};
use crate::rows::{
    hirc_rows_view, object_read, object_row, stored_body, write_hirc_row, HircRow, HircRowData,
};
use crate::seqs::{first_where, lemma_first_where, lemma_first_where_points, sorted};
use crate::storage::{export_fits, exported, lemma_put_after_take};
use crate::text::{capital_hex_id, capital_hex_id_text, join3};
use crate::wems::{
    bank_alignment, fits, has_no_audio, ids_ascend, is_data, is_index, lemma_rebuilt_extracts,
    lemma_sorted_by_id, lemma_sorted_stay, rebuild_didx_data, sort_wems, sorted_by_id, wems_fit,
    wems_view, with_audio,
};

verus! {

// ---------------------------------------------------------------------------
// Sessions
// ---------------------------------------------------------------------------
/// What a session holds.
#[verifier::ext_equal]
pub struct SessionData {
    pub db_path: Seq<char>,
    pub bank: Seq<SectionData>,
    pub wems: Seq<(u32, Seq<u8>)>,
}

/// A bank in memory, with its audio files in order of their ids.
#[derive(Debug)]
pub struct SoundbankSession {
    db_path: String,
    soundbank: Soundbank,
    wems: Vec<(u32, Vec<u8>)>,
}

impl View for SoundbankSession {
    type V = SessionData;

    closed spec fn view(&self) -> SessionData {
        SessionData {
            db_path: self.db_path@,
            bank: self.soundbank@,
            wems: wems_view(self.wems@),
        }
    }
}

/// Objects that a change of the bank touched: those with new contents, and new ones.
#[derive(Debug)]
pub struct HircEdits {
    pub modified: Vec<u32>,
    pub inserted: Vec<u32>,
}

impl Default for HircEdits {
    fn default() -> (r: HircEdits)
        ensures
            r.modified@.len() == 0,
            r.inserted@.len() == 0,
    {
        HircEdits { modified: Vec::new(), inserted: Vec::new() }
    }
}

/// A change of the bank that is not in force yet: the bank that it gives, the objects that it
/// touched, and the section that they are in.
#[derive(Debug)]
pub struct Mutation {
    pub soundbank: Soundbank,
    pub edits: HircEdits,
    pub section_ord: usize,
}

/// The new contents of an object's row.
#[derive(Debug)]
pub struct UpdateRow {
    pub id_hash: u32,
    pub body_json: String,
    pub body_kind: &'static str,
    pub body_type: u8,
    pub direct_parent: Option<u32>,
    pub override_bus: Option<u32>,
}

/// The new contents of an object's row, as plain data.
#[verifier::ext_equal]
pub struct UpdateRowData {
    pub id_hash: u32,
    pub body_json: Seq<char>,
    pub body_kind: Seq<char>,
    pub body_type: u8,
    pub direct_parent: Option<u32>,
    pub override_bus: Option<u32>,
}

impl View for UpdateRow {
    type V = UpdateRowData;

    open spec fn view(&self) -> UpdateRowData {
        UpdateRowData {
            id_hash: self.id_hash,
            body_json: self.body_json@,
            body_kind: self.body_kind@,
            body_type: self.body_type,
            direct_parent: self.direct_parent,
            override_bus: self.override_bus,
        }
    }
}

/// New contents of rows, as plain data.
pub open spec fn update_rows_view(rows: Seq<UpdateRow>) -> Seq<UpdateRowData> {
    rows.map_values(|r: UpdateRow| r@)
}

/// What a change of the bank writes to the database.
#[derive(Debug)]
pub struct HircWrites {
    pub section_ord: usize,
    pub updates: Vec<UpdateRow>,
    pub inserts: Vec<HircRow>,
}

// ---------------------------------------------------------------------------
// What a change writes
// ---------------------------------------------------------------------------
/// What is said of a hash that no object has.
pub open spec fn missing_text(before: Seq<char>, hash: u32, after: Seq<char>) -> Seq<char> {
    before + capital_hex_id_text(hash) + after
}

/// What is said of a changed object that is not there.
pub open spec fn modified_missing(hash: u32) -> StorageFault {
    StorageFault::BadHash(missing_text("modified id "@, hash, " not found in cached HIRC"@))
}

/// What is said of a new object that is not there.
pub open spec fn inserted_missing(hash: u32) -> StorageFault {
    StorageFault::BadHash(missing_text("inserted id "@, hash, " not present in cached HIRC"@))
}

/// What is said of a bank without objects.
pub open spec fn no_hirc() -> StorageFault {
    StorageFault::BadHash("no HIRC section in cached bank"@)
}

/// The new contents of an object's row.
pub open spec fn update_row(object: ObjectData) -> UpdateRowData {
    UpdateRowData {
        id_hash: id_hash(object.id),
        body_json: printed_json(body_tree(object.body)),
        body_kind: kind_name(object.body.kind),
        body_type: kind_number(object.body.kind),
        direct_parent: direct_parent(object.body),
        override_bus: override_bus(object.body),
    }
}

/// The new contents of the rows of changed objects, or what is wrong with the first that has no
/// row.
pub open spec fn updates_of(objects: Seq<ObjectData>, ids: Seq<u32>) -> Result<
    Seq<UpdateRowData>,
    StorageFault,
>
    decreases ids.len(),
{
    if ids.len() == 0 {
        Ok(Seq::empty())
    } else {
        match updates_of(objects, ids.drop_last()) {
            Ok(rows) => match last_with(objects, ids.last()) {
                Some(o) => Ok(rows.push(update_row(o))),
                None => Err(modified_missing(ids.last())),
            },
            Err(e) => Err(e),
        }
    }
}

/// The rows of new objects, counted on from `ord`, or what is wrong with the first that has none.
pub open spec fn inserts_of(
    objects: Seq<ObjectData>,
    ids: Seq<u32>,
    ord: int,
    dictionary: Map<u32, Seq<char>>,
) -> Result<Seq<HircRowData>, StorageFault>
    decreases ids.len(),
{
    if ids.len() == 0 {
        Ok(Seq::empty())
    } else {
        match inserts_of(objects, ids.drop_last(), ord, dictionary) {
            Ok(rows) => match last_with(objects, ids.last()) {
                Some(o) => Ok(rows.push(object_row(o, ord + ids.len() - 1, dictionary))),
                None => Err(inserted_missing(ids.last())),
            },
            Err(e) => Err(e),
        }
    }
}

/// Is every new body read back as the body of the object with its hash?
pub open spec fn updates_read_back(
    objects: Seq<ObjectData>,
    ids: Seq<u32>,
    updates: Seq<UpdateRowData>,
) -> bool {
    &&& updates.len() == ids.len()
    &&& forall|j: int|
        0 <= j < updates.len() ==> stored_body((#[trigger] updates[j]).body_json) == Ok::<
            BodyView,
            StorageFault,
        >(last_with(objects, ids[j])->Some_0.body)
}

/// Is every new row read back as the object with its hash?
pub open spec fn inserts_read_back(
    objects: Seq<ObjectData>,
    ids: Seq<u32>,
    rows: Seq<HircRowData>,
) -> bool {
    &&& rows.len() == ids.len()
    &&& forall|j: int|
        0 <= j < rows.len() ==> object_read((#[trigger] rows[j]).stored) == Ok::<
            ObjectData,
            StorageFault,
        >(last_with(objects, ids[j])->Some_0)
}

proof fn lemma_updates_stop(objects: Seq<ObjectData>, ids: Seq<u32>, n: int)
    requires
        0 <= n <= ids.len(),
        updates_of(objects, ids.take(n)) is Err,
    ensures
        updates_of(objects, ids) == updates_of(objects, ids.take(n)),
    decreases ids.len(),
{
    if n == ids.len() {
        assert(ids.take(n) =~= ids);
    } else {
        assert(ids.drop_last().take(n) =~= ids.take(n));
        lemma_updates_stop(objects, ids.drop_last(), n);
    }
}

proof fn lemma_inserts_stop(
    objects: Seq<ObjectData>,
    ids: Seq<u32>,
    ord: int,
    dictionary: Map<u32, Seq<char>>,
    n: int,
)
    requires
        0 <= n <= ids.len(),
        inserts_of(objects, ids.take(n), ord, dictionary) is Err,
    ensures
        inserts_of(objects, ids, ord, dictionary) == inserts_of(
            objects,
            ids.take(n),
            ord,
            dictionary,
        ),
    decreases ids.len(),
{
    if n == ids.len() {
        assert(ids.take(n) =~= ids);
    } else {
        assert(ids.drop_last().take(n) =~= ids.take(n));
        lemma_inserts_stop(objects, ids.drop_last(), ord, dictionary, n);
    }
}

fn make_update(hash: u32, object: &HIRCObject) -> (r: Result<UpdateRow, StorageError>)
    requires
        id_hash(object@.id) == hash,
    ensures
        r is Ok,
        r->Ok_0@ == update_row(object@),
        stored_body(r->Ok_0@.body_json) == Ok::<BodyView, StorageFault>(object@.body),
{
    let kind = object.body.kind();
    let (parent, bus) = object.body.extract_routing();
    let tree = object.body.to_json();
    proof {
        lemma_body_in_tree(object@.body);
    }
    match tree.to_text() {
        Ok(body_json) => Ok(
            UpdateRow {
                id_hash: hash,
                body_json,
                body_kind: kind.name(),
                body_type: kind.number(),
                direct_parent: parent,
                override_bus: bus,
            },
        ),
        Err(e) => Err(StorageError::Json(e)),
    }
}

fn make_updates(index: &HircIndex, ids: &Vec<u32>) -> (r: Result<Vec<UpdateRow>, StorageError>)
    ensures
        match r {
            Ok(rows) => {
                &&& updates_of(index@, ids@) == Ok::<Seq<UpdateRowData>, StorageFault>(
                    update_rows_view(rows@),
                )
                &&& updates_read_back(index@, ids@, update_rows_view(rows@))
            },
            Err(e) => updates_of(index@, ids@) == Err::<Seq<UpdateRowData>, StorageFault>(e@),
        },
{
    let mut rows: Vec<UpdateRow> = Vec::new();
    let mut i: usize = 0;
    proof {
        assert(ids@.take(0) =~= Seq::<u32>::empty());
        assert(update_rows_view(rows@) =~= Seq::<UpdateRowData>::empty());
    }
    while i < ids.len()
        invariant
            i <= ids@.len(),
            updates_of(index@, ids@.take(i as int)) == Ok::<Seq<UpdateRowData>, StorageFault>(
                update_rows_view(rows@),
            ),
            updates_read_back(index@, ids@.take(i as int), update_rows_view(rows@)),
        decreases ids@.len() - i,
    {
        let ghost before = update_rows_view(rows@);
        let hash = ids[i];
        proof {
            assert(ids@.take(i + 1).drop_last() =~= ids@.take(i as int));
            assert(ids@.take(i + 1).last() == hash);
            lemma_last_with(index@, hash);
        }
        let object = match index.get(hash) {
            Some(object) => object,
            None => {
                proof {
                    lemma_updates_stop(index@, ids@, i + 1);
                }
                let hex = capital_hex_id(hash);
                return Err(
                    StorageError::BadHash(
                        join3("modified id ", hex.as_str(), " not found in cached HIRC"),
                    ),
                );
            },
        };
        match make_update(hash, object) {
            Ok(row) => {
                let ghost view = row@;
                rows.push(row);
                proof {
                    let after = update_rows_view(rows@);
                    assert(after =~= before.push(view));
                    assert forall|j: int| 0 <= j < after.len() implies stored_body(
                        (#[trigger] after[j]).body_json,
                    ) == Ok::<BodyView, StorageFault>(
                        last_with(index@, ids@.take(i + 1)[j])->Some_0.body,
                    ) by {
                        if j < before.len() {
                            assert(after[j] == before[j]);
                            assert(ids@.take(i + 1)[j] == ids@.take(i as int)[j]);
                        }
                    }
                }
            },
            Err(e) => {
                proof {
                    lemma_updates_stop(index@, ids@, i + 1);
                }
                return Err(e);
            },
        }
        i = i + 1;
    }
    assert(ids@.take(i as int) =~= ids@);
    Ok(rows)
}

fn make_inserts(
    index: &HircIndex,
    ids: &Vec<u32>,
    next_ord: usize,
    dictionary: &FNVDictionary,
) -> (r: Result<Vec<HircRow>, StorageError>)
    requires
        next_ord + ids@.len() <= usize::MAX,
    ensures
        ({
            let expected = inserts_of(
                index@,
                ids@,
                next_ord as int,
                dictionary_view(dictionary@),
            );
            match r {
                Ok(rows) => {
                    &&& expected == Ok::<Seq<HircRowData>, StorageFault>(hirc_rows_view(rows@))
                    &&& inserts_read_back(index@, ids@, hirc_rows_view(rows@))
                },
                Err(e) => expected == Err::<Seq<HircRowData>, StorageFault>(e@),
            }
        }),
{
    let ghost names = dictionary_view(dictionary@);
    let ghost ord = next_ord as int;
    let mut rows: Vec<HircRow> = Vec::new();
    let mut i: usize = 0;
    proof {
        assert(ids@.take(0) =~= Seq::<u32>::empty());
        assert(hirc_rows_view(rows@) =~= Seq::<HircRowData>::empty());
    }
    while i < ids.len()
        invariant
            i <= ids@.len(),
            next_ord + ids@.len() <= usize::MAX,
            ord == next_ord,
            names == dictionary_view(dictionary@),
            inserts_of(index@, ids@.take(i as int), ord, names) == Ok::<
                Seq<HircRowData>,
                StorageFault,
            >(hirc_rows_view(rows@)),
            inserts_read_back(index@, ids@.take(i as int), hirc_rows_view(rows@)),
        decreases ids@.len() - i,
    {
        let ghost before = hirc_rows_view(rows@);
        let hash = ids[i];
        proof {
            assert(ids@.take(i + 1).drop_last() =~= ids@.take(i as int));
            assert(ids@.take(i + 1).last() == hash);
            lemma_last_with(index@, hash);
        }
        let object = match index.get(hash) {
            Some(object) => object,
            None => {
                proof {
                    lemma_inserts_stop(index@, ids@, ord, names, i + 1);
                }
                let hex = capital_hex_id(hash);
                return Err(
                    StorageError::BadHash(
                        join3("inserted id ", hex.as_str(), " not present in cached HIRC"),
                    ),
                );
            },
        };
        match write_hirc_row(next_ord + i, object, dictionary) {
            Ok(row) => {
                let ghost view = row@;
                rows.push(row);
                proof {
                    let after = hirc_rows_view(rows@);
                    assert(after =~= before.push(view));
                    assert forall|j: int| 0 <= j < after.len() implies object_read(
                        (#[trigger] after[j]).stored,
                    ) == Ok::<ObjectData, StorageFault>(
                        last_with(index@, ids@.take(i + 1)[j])->Some_0,
                    ) by {
                        if j < before.len() {
                            assert(after[j] == before[j]);
                            assert(ids@.take(i + 1)[j] == ids@.take(i as int)[j]);
                        }
                    }
                }
            },
            Err(e) => {
                proof {
                    lemma_inserts_stop(index@, ids@, ord, names, i + 1);
                }
                return Err(e);
            },
        }
        i = i + 1;
    }
    assert(ids@.take(i as int) =~= ids@);
    Ok(rows)
}

/// The section with the objects of a bank.
pub fn find_hirc_in(sb: &Soundbank) -> (r: Result<(usize, &Vec<HIRCObject>), StorageError>)
    ensures
        match r {
            Ok((i, objects)) => {
                &&& i == hirc_index(sb@)
                &&& first_objects(sb@) == Some(objects_view(objects@))
            },
            Err(e) => first_objects(sb@) is None && e@ == no_hirc(),
        },
{
    let i = sb.hirc_index();
    match sb.first_objects() {
        Some(objects) => Ok((i, objects)),
        None => Err(StorageError::BadHash("no HIRC section in cached bank".to_owned())),
    }
}

impl Mutation {
    fn of(soundbank: Soundbank, edits: HircEdits) -> (r: Result<Mutation, StorageError>)
        ensures
            match r {
                Ok(m) => {
                    &&& first_objects(soundbank@) is Some
                    &&& m.soundbank == soundbank
                    &&& m.edits == edits
                    &&& m.section_ord == hirc_index(soundbank@)
                },
                Err(e) => first_objects(soundbank@) is None && e@ == no_hirc(),
            },
    {
        let section_ord = match find_hirc_in(&soundbank) {
            Ok((i, _)) => i,
            Err(e) => {
                return Err(e);
            },
        };
        Ok(Mutation { soundbank, edits, section_ord })
    }

    /// What the change writes to the database: the rows of changed objects, then those of new
    /// objects, which are counted on from `next_ord`.
    pub fn writes(&self, dictionary: &FNVDictionary, next_ord: usize) -> (r: Result<
        HircWrites,
        StorageError,
    >)
        requires
            next_ord + self.edits.inserted@.len() <= usize::MAX,
        ensures
            ({
                let objects = main_objects(self.soundbank@);
                let updates = updates_of(objects, self.edits.modified@);
                let inserts = inserts_of(
                    objects,
                    self.edits.inserted@,
                    next_ord as int,
                    dictionary_view(dictionary@),
                );
                match r {
                    Ok(writes) => {
                        &&& writes.section_ord == self.section_ord
                        &&& updates == Ok::<Seq<UpdateRowData>, StorageFault>(
                            update_rows_view(writes.updates@),
                        )
                        &&& inserts == Ok::<Seq<HircRowData>, StorageFault>(
                            hirc_rows_view(writes.inserts@),
                        )
                        &&& updates_read_back(
                            objects,
                            self.edits.modified@,
                            update_rows_view(writes.updates@),
                        )
                        &&& inserts_read_back(
                            objects,
                            self.edits.inserted@,
                            hirc_rows_view(writes.inserts@),
                        )
                    },
                    Err(e) => if updates is Err {
                        updates == Err::<Seq<UpdateRowData>, StorageFault>(e@)
                    } else {
                        inserts == Err::<Seq<HircRowData>, StorageFault>(e@)
                    },
                }
            }),
    {
        let index = HircIndex::build(&self.soundbank);
        let updates = match make_updates(&index, &self.edits.modified) {
            Ok(updates) => updates,
            Err(e) => {
                return Err(e);
            },
        };
        match make_inserts(&index, &self.edits.inserted, next_ord, dictionary) {
            Ok(inserts) => Ok(HircWrites { section_ord: self.section_ord, updates, inserts }),
            Err(e) => Err(e),
        }
    }
}

// ---------------------------------------------------------------------------
// Subgraphs
// ---------------------------------------------------------------------------
/// The object that a tree of a subgraph stands for.
pub open spec fn subgraph_object(tree: JsonView) -> Result<ObjectData, StorageFault> {
    match at(tree, seq!["id"@, "String"@]) {
        Some(JsonView::Str(name)) => match at(tree, seq!["body"@]) {
            Some(body) => match body_in(body) {
                Some(body) => Ok(ObjectData { id: IdView::Name(name), body }),
                None => Err(StorageFault::Json(JsonError::NotABody)),
            },
            None => Err(StorageFault::Json(JsonError::NotABody)),
        },
        _ => Err(StorageFault::BadHash("subgraph object missing id.String"@)),
    }
}

/// The objects that the trees of a subgraph stand for, or what is wrong with the first that
/// stands for none.
pub open spec fn subgraph_objects(trees: Seq<JsonView>) -> Result<Seq<ObjectData>, StorageFault>
    decreases trees.len(),
{
    if trees.len() == 0 {
        Ok(Seq::empty())
    } else {
        match subgraph_objects(trees.drop_last()) {
            Ok(objects) => match subgraph_object(trees.last()) {
                Ok(object) => Ok(objects.push(object)),
                Err(e) => Err(e),
            },
            Err(e) => Err(e),
        }
    }
}

/// Is the first object with this hash a mixer with its list of children?
pub open spec fn is_mixer(objects: Seq<ObjectData>, hash: u32) -> bool {
    object_with(objects, hash) matches Some(o) && o.body.kind == BodyKind::ActorMixer && children(
        o.body,
    ) is Some
}

/// The objects, with more children for a mixer.
pub open spec fn with_mixer_children(
    objects: Seq<ObjectData>,
    mixer: u32,
    more: Seq<u32>,
) -> Seq<ObjectData> {
    if is_mixer(objects, mixer) {
        let i = first_where(objects, hashed(mixer));
        let body = objects[i].body;
        objects.update(
            i,
            ObjectData {
                id: objects[i].id,
                body: with_children(body, sorted(children(body).unwrap() + more)),
            },
        )
    } else {
        objects
    }
}

/// The hashes of objects.
pub open spec fn hashes(objects: Seq<ObjectData>) -> Seq<u32> {
    objects.map_values(|o: ObjectData| id_hash(o.id))
}

fn read_subgraph_object(tree: &Json) -> (r: Result<HIRCObject, StorageError>)
    ensures
        match r {
            Ok(o) => subgraph_object(tree@) == Ok::<ObjectData, StorageFault>(o@),
            Err(e) => subgraph_object(tree@) == Err::<ObjectData, StorageFault>(e@),
        },
{
    let id_path = vec!["id", "String"];
    let body_path = vec!["body"];
    proof {
        assert(path_view(id_path@) =~= seq!["id"@, "String"@]);
        assert(path_view(body_path@) =~= seq!["body"@]);
    }
    let id = match tree.at(&id_path) {
        Some(Json::Str(name)) => ObjectId::String(name.clone()),
        _ => {
            return Err(StorageError::BadHash("subgraph object missing id.String".to_owned()));
        },
    };
    match tree.at(&body_path) {
        Some(body) => match HIRCObjectBody::from_json(body.dup()) {
            Ok(body) => Ok(HIRCObject { id, body }),
            Err(e) => Err(StorageError::Json(e)),
        },
        None => Err(StorageError::Json(JsonError::NotABody)),
    }
}

/// What trees say.
pub open spec fn trees_view(trees: Seq<Json>) -> Seq<JsonView> {
    trees.map_values(|t: Json| t@)
}

proof fn lemma_subgraph_stops(trees: Seq<JsonView>, n: int)
    requires
        0 <= n <= trees.len(),
        subgraph_objects(trees.take(n)) is Err,
    ensures
        subgraph_objects(trees) == subgraph_objects(trees.take(n)),
    decreases trees.len(),
{
    if n == trees.len() {
        assert(trees.take(n) =~= trees);
    } else {
        assert(trees.drop_last().take(n) =~= trees.take(n));
        lemma_subgraph_stops(trees.drop_last(), n);
    }
}

/// The objects that the trees of a subgraph stand for, and their hashes.
fn read_subgraph(trees: &Vec<Json>) -> (r: Result<(Vec<HIRCObject>, Vec<u32>), StorageError>)
    ensures
        match r {
            Ok((objects, ids)) => {
                &&& subgraph_objects(trees_view(trees@)) == Ok::<Seq<ObjectData>, StorageFault>(
                    objects_view(objects@),
                )
                &&& ids@ == hashes(objects_view(objects@))
            },
            Err(e) => subgraph_objects(trees_view(trees@)) == Err::<
                Seq<ObjectData>,
                StorageFault,
            >(e@),
        },
{
    let ghost views = trees_view(trees@);
    let mut objects: Vec<HIRCObject> = Vec::new();
    let mut ids: Vec<u32> = Vec::new();
    let mut i: usize = 0;
    proof {
        assert(views.take(0) =~= Seq::<JsonView>::empty());
        assert(objects_view(objects@) =~= Seq::<ObjectData>::empty());
        assert(ids@ =~= hashes(objects_view(objects@)));
    }
    while i < trees.len()
        invariant
            i <= trees@.len(),
            views == trees_view(trees@),
            subgraph_objects(views.take(i as int)) == Ok::<Seq<ObjectData>, StorageFault>(
                objects_view(objects@),
            ),
            ids@ == hashes(objects_view(objects@)),
        decreases trees@.len() - i,
    {
        let ghost before = objects_view(objects@);
        proof {
            assert(views.take(i + 1).drop_last() =~= views.take(i as int));
            assert(views.take(i + 1).last() == trees@[i as int]@);
        }
        match read_subgraph_object(&trees[i]) {
            Ok(object) => {
                let ghost view = object@;
                ids.push(object.id.as_hash());
                objects.push(object);
                assert(objects_view(objects@) =~= before.push(view));
                assert(hashes(before.push(view)) =~= hashes(before).push(id_hash(view.id)));
            },
            Err(e) => {
                proof {
                    lemma_subgraph_stops(views, i + 1);
                }
                return Err(e);
            },
        }
        i = i + 1;
    }
    assert(views.take(i as int) =~= views);
    Ok((objects, ids))
}

/// Gives a mixer more children, if the first object with its hash is one.
fn extend_mixer(objects: &mut Vec<HIRCObject>, mixer: u32, more: &Vec<u32>) -> (r: bool)
    ensures
        r == is_mixer(objects_view(old(objects)@), mixer),
        objects_view(final(objects)@) == with_mixer_children(
            objects_view(old(objects)@),
            mixer,
            more@,
        ),
{
    let ghost before = objects_view(objects@);
    let i = position_of(&*objects, mixer);
    proof {
        lemma_object_with(before, mixer);
    }
    if i == objects.len() {
        return false;
    }
    assert(before[i as int] == objects@[i as int]@);
    if objects[i].body.kind() != BodyKind::ActorMixer {
        return false;
    }
    let mut object = objects.remove(i);
    let done = object.body.append_children(more).is_ok();
    let ghost view = object@;
    objects.insert(i, object);
    assert(objects_view(objects@) =~= before.update(i as int, view));
    assert(objects_view(objects@) =~= with_mixer_children(before, mixer, more@));
    done
}

/// The bank with a subgraph added: new objects behind the others, and more children for a mixer.
pub open spec fn with_subgraph(
    bank: Seq<SectionData>,
    objects: Seq<ObjectData>,
    mixer: u32,
    more: Seq<u32>,
) -> Seq<SectionData> {
    with_objects(bank, with_mixer_children(main_objects(bank) + objects, mixer, more))
}

// ---------------------------------------------------------------------------
// Using a session
// ---------------------------------------------------------------------------
/// Where the index and the data of audio stand in a bank that is being exported.
#[derive(Debug, Clone, Copy)]
pub struct Splice {
    pub didx: Option<usize>,
    pub data: Option<usize>,
}

/// The first place where `p` holds, if there is one.
pub open spec fn place(bank: Seq<SectionData>, p: spec_fn(SectionData) -> bool) -> Option<usize> {
    if first_where(bank, p) < bank.len() {
        Some(first_where(bank, p) as usize)
    } else {
        None
    }
}

/// The bank without the sections that were put in for an export.
pub open spec fn spliced_out(bank: Seq<SectionData>, splice: Splice) -> Seq<SectionData> {
    match (splice.didx, splice.data) {
        (Some(d), Some(a)) => bank.remove(a as int).remove(d as int),
        _ => bank,
    }
}

/// Do the places of the audio lie in the bank, the data behind the index?
pub open spec fn splice_fits(bank: Seq<SectionData>, splice: Splice) -> bool {
    match (splice.didx, splice.data) {
        (Some(d), Some(a)) => d < a < bank.len(),
        _ => true,
    }
}

impl SoundbankSession {
    /// The audio files of a session are in order.
    #[verifier::type_invariant]
    closed spec fn ordered(self) -> bool {
        ids_ascend(wems_view(self.wems@))
    }

    /// A session on a bank and its audio files.
    pub fn open(db_path: String, soundbank: Soundbank, wems: Vec<(u32, Vec<u8>)>) -> (r:
        SoundbankSession)
        ensures
            r@ == (SessionData {
                db_path: db_path@,
                bank: soundbank@,
                wems: sorted_by_id(wems_view(wems@)),
            }),
    {
        proof {
            lemma_sorted_by_id(wems_view(wems@));
        }
        SoundbankSession { db_path, soundbank, wems: sort_wems(wems) }
    }

    /// The bank.
    pub fn soundbank(&self) -> (r: &Soundbank)
        ensures
            r@ == self@.bank,
    {
        &self.soundbank
    }

    /// The path of the database.
    pub fn db_path(&self) -> (r: &str)
        ensures
            r@ == self@.db_path,
    {
        self.db_path.as_str()
    }

    /// Changes a copy of the bank. The session stays as it is until the change is committed, so
    /// that the bank changes only if the database does.
    pub fn mutate_hirc<F: FnOnce(Soundbank) -> (Soundbank, HircEdits)>(&self, f: F) -> (r: Result<
        Mutation,
        StorageError,
    >)
        requires
            forall|bank: Soundbank| bank@ == self@.bank ==> call_requires(f, (bank,)),
        ensures
            exists|bank: Soundbank, after: (Soundbank, HircEdits)| #[trigger]
                call_ensures(f, (bank,), after) && bank@ == self@.bank && match r {
                    Ok(m) => {
                        &&& first_objects(after.0@) is Some
                        &&& m.soundbank == after.0
                        &&& m.edits == after.1
                        &&& m.section_ord == hirc_index(after.0@)
                    },
                    Err(e) => first_objects(after.0@) is None && e@ == no_hirc(),
                },
    {
        let bank = self.soundbank.dup();
        let ghost given = bank;
        let (after, edits) = f(bank);
        assert(call_ensures(f, (given,), (after, edits)));
        Mutation::of(after, edits)
    }

    /// Adds a subgraph to a copy of the bank: new objects behind the others, and more children
    /// for a mixer. Without the mixer nothing is added. The session stays as it is until the
    /// change is committed.
    pub fn add_hirc_subgraph(
        &self,
        mixer_id: u32,
        objects: Vec<Json>,
        new_children: Vec<u32>,
    ) -> (r: Result<Mutation, StorageError>)
        ensures
            match (subgraph_objects(trees_view(objects@)), r) {
                (Ok(added), Ok(m)) => {
                    let bank = self@.bank;
                    &&& first_objects(bank) is Some
                    &&& is_mixer(main_objects(bank) + added, mixer_id)
                    &&& m.soundbank@ == with_subgraph(bank, added, mixer_id, new_children@)
                    &&& m.section_ord == hirc_index(bank)
                    &&& m.edits.inserted@ == hashes(added)
                    &&& m.edits.modified@ == seq![mixer_id]
                },
                (Ok(added), Err(e)) => if first_objects(self@.bank) is None {
                    e@ == no_hirc()
                } else {
                    &&& !is_mixer(main_objects(self@.bank) + added, mixer_id)
                    &&& e@ == modified_missing(mixer_id)
                },
                (Err(fault), Ok(_)) => false,
                (Err(fault), Err(e)) => e@ == fault,
            },
    {
        let (mut added, inserted) = match read_subgraph(&objects) {
            Ok(typed) => typed,
            Err(e) => {
                return Err(e);
            },
        };
        let ghost new_objects = objects_view(added@);
        let mut bank = self.soundbank.dup();
        let ghost before = bank@;
        match bank.take_objects() {
            Some(mut all) => {
                let ghost first = objects_view(all@);
                all.append(&mut added);
                assert(objects_view(all@) =~= first + new_objects);
                if !extend_mixer(&mut all, mixer_id, &new_children) {
                    let hex = capital_hex_id(mixer_id);
                    return Err(
                        StorageError::BadHash(
                            join3("modified id ", hex.as_str(), " not found in cached HIRC"),
                        ),
                    );
                }
                let ghost target = objects_view(all@);
                bank.put_objects(all);
                proof {
                    lemma_put_after_take(before, target);
                    lemma_with_objects(before, target);
                }
            },
            None => {},
        }
        let modified = vec![mixer_id];
        assert(modified@ =~= seq![mixer_id]);
        Mutation::of(bank, HircEdits { modified, inserted })
    }

    /// Puts a change in force.
    pub fn commit(&mut self, mutation: Mutation)
        ensures
            final(self)@ == (SessionData { bank: mutation.soundbank@, ..old(self)@ }),
    {
        proof {
            use_type_invariant(&*self);
        }
        self.soundbank = mutation.soundbank;
    }

    /// Can the audio files be put into the bank?
    pub fn export_fits(&self) -> (r: bool)
        ensures
            r == export_fits(self@.bank, self@.wems),
    {
        proof {
            use_type_invariant(self);
            lemma_sorted_stay(self@.wems);
        }
        if self.wems.len() == 0 {
            return true;
        }
        match self.soundbank.wem_alignment() {
            Some(alignment) => wems_fit(&self.wems, alignment),
            None => true,
        }
    }

    /// Puts the audio of the session into its bank, behind the header, and tells where it
    /// stands.
    fn splice_in_didx_data(&mut self) -> (r: Result<Splice, StorageError>)
        requires
            bank_alignment(old(self)@.bank) matches Some(alignment) ==> fits(
                sorted_by_id(old(self)@.wems),
                alignment,
            ),
        ensures
            match (bank_alignment(old(self)@.bank), r) {
                (Some(alignment), Ok(splice)) => {
                    let after = with_audio(
                        old(self)@.bank,
                        sorted_by_id(old(self)@.wems),
                        alignment,
                    );
                    &&& final(self)@ == (SessionData { bank: after, ..old(self)@ })
                    &&& splice == (Splice {
                        didx: place(after, is_index()),
                        data: place(after, is_data()),
                    })
                },
                (None, Err(e)) => e@ == StorageFault::MissingBkhd && final(self)@ == old(self)@,
                _ => false,
            },
    {
        proof {
            use_type_invariant(&*self);
        }
        let wems = dup_wems(&self.wems);
        let mut bank = Soundbank { sections: Vec::new() };
        std::mem::swap(&mut self.soundbank, &mut bank);
        let result = rebuild_didx_data(&mut bank, wems);
        let splice = Splice { didx: find_didx(&bank), data: find_data(&bank) };
        std::mem::swap(&mut self.soundbank, &mut bank);
        match result {
            Ok(()) => Ok(splice),
            Err(e) => Err(e),
        }
    }

    /// Readies the bank for an export: puts its audio in, if there is any, and tells where it
    /// stands.
    pub fn begin_export(&mut self) -> (r: Result<Splice, StorageError>)
        requires
            export_fits(old(self)@.bank, old(self)@.wems),
        ensures
            match (exported(old(self)@.bank, old(self)@.wems), r) {
                (Ok(after), Ok(splice)) => {
                    &&& final(self)@ == (SessionData { bank: after, ..old(self)@ })
                    &&& splice == (if old(self)@.wems.len() == 0 {
                        Splice { didx: None, data: None }
                    } else {
                        Splice { didx: place(after, is_index()), data: place(after, is_data()) }
                    })
                },
                (Err(fault), Err(e)) => e@ == fault && final(self)@ == old(self)@,
                _ => false,
            },
    {
        if self.wems.len() > 0 {
            self.splice_in_didx_data()
        } else {
            Ok(Splice { didx: None, data: None })
        }
    }

    /// Takes the audio out of the bank again, whatever came of the export.
    pub fn end_export(&mut self, splice: Splice)
        requires
            splice_fits(old(self)@.bank, splice),
        ensures
            final(self)@ == (SessionData {
                bank: spliced_out(old(self)@.bank, splice),
                ..old(self)@
            }),
    {
        proof {
            use_type_invariant(&*self);
        }
        let ghost before = self.soundbank@;
        if let (Some(d), Some(a)) = (splice.didx, splice.data) {
            let mut bank = Soundbank { sections: Vec::new() };
            std::mem::swap(&mut self.soundbank, &mut bank);
            let _ = bank.sections.remove(a);
            assert(bank@ =~= before.remove(a as int));
            let _ = bank.sections.remove(d);
            assert(bank@ =~= before.remove(a as int).remove(d as int));
            std::mem::swap(&mut self.soundbank, &mut bank);
        }
    }
}

/// A session is after an export what it was before: the audio that is put in for the export is
/// taken out again.
pub proof fn lemma_export_restores(
    bank: Seq<SectionData>,
    wems: Seq<(u32, Seq<u8>)>,
    after: Seq<SectionData>,
)
    requires
        has_no_audio(bank),
        bank.len() + 2 <= usize::MAX,
        export_fits(bank, wems),
        exported(bank, wems) == Ok::<Seq<SectionData>, StorageFault>(after),
    ensures
        ({
            let splice = if wems.len() == 0 {
                Splice { didx: None, data: None }
            } else {
                Splice { didx: place(after, is_index()), data: place(after, is_data()) }
            };
            splice_fits(after, splice) && spliced_out(after, splice) == bank
        }),
{
    if wems.len() > 0 {
        let alignment = bank_alignment(bank).unwrap();
        lemma_rebuilt_extracts(bank, wems, alignment);
        lemma_first_where_points(bank, crate::wems::is_header());
    }
}

fn dup_wems(wems: &Vec<(u32, Vec<u8>)>) -> (r: Vec<(u32, Vec<u8>)>)
    ensures
        wems_view(r@) == wems_view(wems@),
{
    let mut r: Vec<(u32, Vec<u8>)> = Vec::new();
    let mut i: usize = 0;
    while i < wems.len()
        invariant
            i <= wems@.len(),
            r@.len() == i,
            forall|k: int|
                0 <= k < i ==> (#[trigger] r@[k]).0 == wems@[k].0 && r@[k].1@ == wems@[k].1@,
        decreases wems@.len() - i,
    {
        let from = &wems[i].1;
        let mut bytes: Vec<u8> = Vec::new();
        let mut j: usize = 0;
        while j < from.len()
            invariant
                j <= from@.len(),
                bytes@ == from@.take(j as int),
            decreases from@.len() - j,
        {
            bytes.push(from[j]);
            j = j + 1;
            assert(bytes@ =~= from@.take(j as int));
        }
        assert(bytes@ =~= from@);
        r.push((wems[i].0, bytes));
        i = i + 1;
    }
    assert(wems_view(r@) =~= wems_view(wems@));
    r
}

fn find_didx(bank: &Soundbank) -> (r: Option<usize>)
    ensures
        r == place(bank@, is_index()),
{
    let ghost p = is_index();
    let mut i: usize = 0;
    while i < bank.sections.len() && !matches!(&bank.sections[i].body, SectionBody::DIDX(_))
        invariant
            i <= bank.sections@.len(),
            p == is_index(),
            forall|k: int| 0 <= k < i ==> !p(#[trigger] bank@[k]),
        decreases bank.sections@.len() - i,
    {
        assert(!p(bank@[i as int]));
        i = i + 1;
    }
    proof {
        if i < bank.sections@.len() {
            assert(p(bank@[i as int]));
        }
        lemma_first_where(bank@, p, i as int);
    }
    if i < bank.sections.len() {
        Some(i)
    } else {
        None
    }
}

fn find_data(bank: &Soundbank) -> (r: Option<usize>)
    ensures
        r == place(bank@, is_data()),
{
    let ghost p = is_data();
    let mut i: usize = 0;
    while i < bank.sections.len() && !matches!(&bank.sections[i].body, SectionBody::DATA(_))
        invariant
            i <= bank.sections@.len(),
            p == is_data(),
            forall|k: int| 0 <= k < i ==> !p(#[trigger] bank@[k]),
        decreases bank.sections@.len() - i,
    {
        assert(!p(bank@[i as int]));
        i = i + 1;
    }
    proof {
        if i < bank.sections@.len() {
            assert(p(bank@[i as int]));
        }
        lemma_first_where(bank@, p, i as int);
    }
    if i < bank.sections.len() {
        Some(i)
    } else {
        None
    }
}

/// How long the steps of an export took.
#[derive(Debug, Clone, Copy)]
pub struct ExportPhases {
    pub didx_t: std::time::Duration,
    pub prep_t: std::time::Duration,
    pub enc_t: std::time::Duration,
    pub write_t: std::time::Duration,
}

} // verus!
