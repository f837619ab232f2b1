//! Complete banks stay complete: what is read can be written, and so can what edits make of it.

use vstd::prelude::*;
use vstd::utf8::valid_utf8;

use crate::bank::{
    hashed, header_tree, holds_objects, main_objects, objects_in_trees, resolved, section_in,
    with_objects, ObjectData, SectionContent, SectionData,
};
use crate::body::{children, well_formed, with_children, BodyView};
use crate::body_laws::{lemma_renumbered_body, lemma_with_children};
use crate::editor::{copy_result, linked, missing_objects, CopyData};
use crate::edits::{
    child_added, child_removed, object_place, with_body, with_body_at, with_child, without_child,
};
use crate::error::EditFault;
use crate::graph::{dependencies, lemma_dependencies};
use crate::ids::{id_hash, IdView};
use crate::index::{last_with, lemma_last_with};
use crate::json::{member, JsonView};
use crate::rows::{
    bank_read, bank_storable, magic_in, objects_read, objects_storable, section_storable,
    StoredObjectData, StoredSectionData,
};
use crate::seqs::{first_where, lemma_first_where_points};
use crate::session::{is_mixer, subgraph_objects, with_mixer_children, with_subgraph};
use crate::storage::{upgraded, upgraded_objects};
use crate::viewer::{renumbered_bank, renumbered_objects, with_id_at, with_new_id};
use crate::wems::without_audio;

verus! {

// ---------------------------------------------------------------------------
// Reading
// ---------------------------------------------------------------------------
proof fn lemma_objects_read_storable(rows: Seq<StoredObjectData>)
    ensures
        objects_read(rows) matches Ok(objects) ==> objects_storable(objects),
    decreases rows.len(),
{
    if rows.len() > 0 {
        lemma_objects_read_storable(rows.drop_last());
    }
}

/// A bank that was read is complete, so that it can be written and is read back as it is. The
/// first four bytes of a magic number must be a text.
pub proof fn lemma_read_is_storable(rows: Seq<StoredSectionData>)
    requires
        forall|i: int| 0 <= i < rows.len() ==> valid_utf8(magic_in((#[trigger] rows[i]).magic)),
    ensures
        bank_read(rows) matches Ok(bank) ==> bank_storable(bank),
    decreases rows.len(),
{
    if rows.len() > 0 {
        let front = rows.drop_last();
        assert forall|i: int| 0 <= i < front.len() implies valid_utf8(
            magic_in((#[trigger] front[i]).magic),
        ) by {
            assert(front[i] == rows[i]);
        }
        lemma_read_is_storable(front);
        let row = rows.last();
        assert(row == rows[rows.len() - 1]);
        lemma_objects_read_storable(row.objects);
        if let Some(text) = row.body_json {
            if let Some(tree) = crate::json_text::parsed_json(text) {
                lemma_section_in_storable(tree);
            }
        }
    }
}

proof fn lemma_objects_in_trees_storable(trees: Seq<JsonView>)
    ensures
        objects_in_trees(trees) matches Some(objects) ==> objects_storable(objects),
    decreases trees.len(),
{
    if trees.len() > 0 {
        lemma_objects_in_trees_storable(trees.drop_last());
    }
}

proof fn lemma_section_in_storable(tree: JsonView)
    ensures
        section_in(tree) matches Some(SectionContent::BKHD(header)) ==> crate::bank::header_fits(
            header,
        ),
        section_in(tree) matches Some(SectionContent::Other(inner)) ==> inner == tree,
        section_in(tree) matches Some(SectionContent::HIRC(objects)) ==> objects_storable(objects),
{
    if let JsonView::Object(members) = tree {
        if members.len() == 1 {
            if let Some(JsonView::Array(trees)) = member(members[0].1, "objects"@) {
                lemma_objects_in_trees_storable(trees);
            }
        }
        if members.len() == 1 && members[0].0 == "BKHD"@ {
            assert(members =~= seq![("BKHD"@, members[0].1)]);
            assert(tree == header_tree(members[0].1));
        }
    }
}

// ---------------------------------------------------------------------------
// Edits
// ---------------------------------------------------------------------------
/// Complete objects in place of others leave a bank complete.
pub proof fn lemma_with_objects_storable(bank: Seq<SectionData>, objects: Seq<ObjectData>)
    requires
        bank_storable(bank),
        objects_storable(objects),
    ensures
        bank_storable(with_objects(bank, objects)),
{
    let after = with_objects(bank, objects);
    lemma_first_where_points(bank, holds_objects());
    assert forall|i: int| 0 <= i < after.len() implies section_storable(#[trigger] after[i]) by {
        assert(section_storable(bank[i]));
    }
}

/// The objects of a complete bank are complete.
pub proof fn lemma_main_storable(bank: Seq<SectionData>)
    requires
        bank_storable(bank),
    ensures
        objects_storable(main_objects(bank)),
{
    lemma_first_where_points(bank, holds_objects());
    let h = crate::bank::hirc_index(bank);
    if h < bank.len() {
        assert(holds_objects()(bank[h]));
        assert(section_storable(bank[h]));
    }
}

proof fn lemma_update_storable(objects: Seq<ObjectData>, i: int, object: ObjectData)
    requires
        objects_storable(objects),
        0 <= i < objects.len(),
        well_formed(object.body),
    ensures
        objects_storable(objects.update(i, object)),
{
    let after = objects.update(i, object);
    assert forall|k: int| 0 <= k < after.len() implies well_formed((#[trigger] after[k]).body) by {
        assert(well_formed(objects[k].body));
    }
}

proof fn lemma_children_storable(body: BodyView, child: u32)
    requires
        well_formed(body),
    ensures
        child_added(body, child) matches Ok(after) ==> well_formed(after),
        child_removed(body, child) matches Ok(after) ==> well_formed(after),
{
    if let Some(ids) = children(body) {
        lemma_with_children(body, crate::body::with_id(ids, child));
        lemma_with_children(body, crate::body::without_id(ids, child));
    }
}

/// Adding a child, removing one and replacing a body by a complete one leave a bank complete.
pub proof fn lemma_body_edits_storable(
    bank: Seq<SectionData>,
    id: u32,
    child: u32,
    body: BodyView,
)
    requires
        bank_storable(bank),
        well_formed(body),
    ensures
        with_child(bank, id, child) matches Ok(after) ==> bank_storable(after),
        without_child(bank, id, child) matches Ok(after) ==> bank_storable(after),
        with_body(bank, id, body) matches Ok(after) ==> bank_storable(after),
{
    lemma_main_storable(bank);
    if let Ok(i) = object_place(bank, id) {
        let objects = main_objects(bank);
        lemma_first_where_points(objects, hashed(id));
        assert(well_formed(objects[i].body));
        lemma_children_storable(objects[i].body, child);
        lemma_body_at_storable(bank, i, body);
        if let Ok(after) = child_added(objects[i].body, child) {
            lemma_body_at_storable(bank, i, after);
        }
        if let Ok(after) = child_removed(objects[i].body, child) {
            lemma_body_at_storable(bank, i, after);
        }
    }
}

proof fn lemma_body_at_storable(bank: Seq<SectionData>, i: int, body: BodyView)
    requires
        bank_storable(bank),
        0 <= i < main_objects(bank).len(),
        well_formed(body),
    ensures
        bank_storable(with_body_at(bank, i, body)),
{
    lemma_main_storable(bank);
    let objects = main_objects(bank);
    let object = ObjectData { id: objects[i].id, body };
    lemma_update_storable(objects, i, object);
    lemma_with_objects_storable(bank, objects.update(i, object));
}

proof fn lemma_renumbered_objects_storable(objects: Seq<ObjectData>, from: u32, to: u32)
    requires
        objects_storable(objects),
    ensures
        objects_storable(renumbered_objects(objects, from, to)),
{
    let after = renumbered_objects(objects, from, to);
    assert forall|k: int| 0 <= k < after.len() implies well_formed((#[trigger] after[k]).body) by {
        assert(well_formed(objects[k].body));
        lemma_renumbered_body(objects[k].body, from, to);
    }
}

/// Changing an id leaves a bank complete.
pub proof fn lemma_new_id_storable(bank: Seq<SectionData>, hash: u32, id: IdView)
    requires
        bank_storable(bank),
    ensures
        with_new_id(bank, hash, id) matches Ok(after) ==> bank_storable(after),
{
    if let Ok(i) = object_place(bank, hash) {
        lemma_main_storable(bank);
        let objects = main_objects(bank);
        lemma_first_where_points(objects, hashed(hash));
        assert(well_formed(objects[i].body));
        let object = ObjectData { id, body: objects[i].body };
        lemma_update_storable(objects, i, object);
        lemma_with_objects_storable(bank, objects.update(i, object));
        let named = with_id_at(bank, i, id);
        if id_hash(id) != hash {
            let after = renumbered_bank(named, hash, id_hash(id));
            assert forall|k: int| 0 <= k < after.len() implies section_storable(
                #[trigger] after[k],
            ) by {
                assert(section_storable(named[k]));
                if let SectionContent::HIRC(inner) = named[k].body {
                    lemma_renumbered_objects_storable(inner, hash, id_hash(id));
                }
            }
        }
    }
}

proof fn lemma_subgraph_objects_storable(trees: Seq<JsonView>)
    ensures
        subgraph_objects(trees) matches Ok(objects) ==> objects_storable(objects),
    decreases trees.len(),
{
    if trees.len() > 0 {
        lemma_subgraph_objects_storable(trees.drop_last());
    }
}

proof fn lemma_joined_storable(a: Seq<ObjectData>, b: Seq<ObjectData>)
    requires
        objects_storable(a),
        objects_storable(b),
    ensures
        objects_storable(a + b),
{
    let all = a + b;
    assert forall|k: int| 0 <= k < all.len() implies well_formed((#[trigger] all[k]).body) by {
        if k < a.len() {
            assert(well_formed(a[k].body));
        } else {
            assert(well_formed(b[k - a.len()].body));
        }
    }
}

/// Adding a subgraph leaves a bank complete.
pub proof fn lemma_subgraph_storable(
    bank: Seq<SectionData>,
    trees: Seq<JsonView>,
    mixer: u32,
    more: Seq<u32>,
)
    requires
        bank_storable(bank),
    ensures
        subgraph_objects(trees) matches Ok(added) ==> bank_storable(
            with_subgraph(bank, added, mixer, more),
        ),
{
    if let Ok(added) = subgraph_objects(trees) {
        lemma_main_storable(bank);
        lemma_subgraph_objects_storable(trees);
        lemma_joined_storable(main_objects(bank), added);
        let all = main_objects(bank) + added;
        if is_mixer(all, mixer) {
            let i = first_where(all, hashed(mixer));
            lemma_first_where_points(all, hashed(mixer));
            let body = all[i].body;
            assert(well_formed(body));
            let ids = crate::seqs::sorted(children(body).unwrap() + more);
            lemma_with_children(body, ids);
            lemma_update_storable(
                all,
                i,
                ObjectData { id: all[i].id, body: with_children(body, ids) },
            );
        }
        lemma_with_objects_storable(bank, with_mixer_children(all, mixer, more));
    }
}

proof fn lemma_missing_storable(
    source: Seq<ObjectData>,
    destination: Seq<ObjectData>,
    ids: Seq<u32>,
)
    requires
        objects_storable(source),
        forall|a: u32| ids.contains(a) ==> #[trigger] last_with(source, a) is Some,
    ensures
        objects_storable(missing_objects(source, destination, ids)),
    decreases ids.len(),
{
    if ids.len() > 0 {
        let front = ids.drop_last();
        assert forall|a: u32| front.contains(a) implies #[trigger] last_with(source, a) is Some by {
            let i = choose|i: int| 0 <= i < front.len() && front[i] == a;
            assert(ids[i] == a);
        }
        lemma_missing_storable(source, destination, front);
        let last = ids.last();
        assert(ids.contains(last));
        lemma_last_with(source, last);
        let o = last_with(source, last)->Some_0;
        let k = choose|k: int| 0 <= k < source.len() && source[k] == o;
        assert(well_formed(source[k].body));
    }
}

/// Copying an event leaves the destination complete.
pub proof fn lemma_copy_storable(
    source: Seq<ObjectData>,
    bank: Seq<SectionData>,
    event: Seq<char>,
    register_with: Option<Seq<char>>,
    done: CopyData,
)
    requires
        bank_storable(bank),
        objects_storable(source),
        copy_result(source, bank, event, register_with) == Ok::<CopyData, EditFault>(done),
    ensures
        bank_storable(done.bank),
{
    let own = main_objects(bank);
    lemma_main_storable(bank);
    let event_id = resolved(source, event)->Some_0;
    lemma_dependencies(source, event_id, Set::empty());
    let ids = dependencies(source, event_id);
    lemma_missing_storable(source, own, ids);
    let added = missing_objects(source, own, ids);
    lemma_joined_storable(own, added);
    let all = own + added;
    let objects = linked(all, done.link)->Ok_0;
    if let Some((parent, top)) = done.link {
        let i = first_where(all, hashed(parent));
        lemma_first_where_points(all, hashed(parent));
        assert(well_formed(all[i].body));
        lemma_children_storable(all[i].body, top);
        let body = child_added(all[i].body, top)->Ok_0;
        lemma_update_storable(all, i, ObjectData { id: all[i].id, body });
    }
    lemma_with_objects_storable(bank, objects);
}

// ---------------------------------------------------------------------------
// Importing
// ---------------------------------------------------------------------------
proof fn lemma_without_audio_storable(bank: Seq<SectionData>)
    requires
        bank_storable(bank),
    ensures
        bank_storable(without_audio(bank)),
    decreases bank.len(),
{
    if bank.len() > 0 {
        let front = bank.drop_last();
        assert forall|i: int| 0 <= i < front.len() implies section_storable(#[trigger] front[i]) by {
            assert(section_storable(bank[i]));
        }
        lemma_without_audio_storable(front);
        assert(section_storable(bank[bank.len() - 1]));
    }
}

/// What is imported of a complete bank is complete, so that it is read back as it is.
pub proof fn lemma_import_storable(bank: Seq<SectionData>, dictionary: Map<u32, Seq<char>>)
    requires
        bank_storable(bank),
    ensures
        bank_storable(without_audio(upgraded(bank, dictionary))),
{
    lemma_main_storable(bank);
    let objects = main_objects(bank);
    let named = upgraded_objects(objects, dictionary);
    assert forall|k: int| 0 <= k < named.len() implies well_formed((#[trigger] named[k]).body) by {
        assert(well_formed(objects[k].body));
    }
    lemma_with_objects_storable(bank, named);
    lemma_without_audio_storable(upgraded(bank, dictionary));
}

} // verus!
