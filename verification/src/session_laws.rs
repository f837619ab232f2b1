//! The database after a change holds what the changed bank holds.

use vstd::prelude::*;

use crate::bank::{
    first_objects, hashed, hirc_index, holds_objects, lemma_object_with, lemma_with_objects,
    main_objects, objects_in, with_objects, ObjectData, SectionData,
};
use crate::error::StorageFault;
use crate::ids::id_hash;
use crate::index::{last_with, lemma_last_with, lemma_last_with_at};
use crate::rows::{
    bank_read, columns_fit, holds, lemma_objects_read, object_read, object_row, objects_read,
    section_read, selected, selected_section, HircRowData, SectionRowData, StoredObjectData,
    StoredSectionData,
};
use crate::seqs::{first_where, lemma_first_where_points};
use crate::session::{
    hashes, inserts_of, inserts_read_back, is_mixer, update_row, updates_of, updates_read_back,
    with_mixer_children, UpdateRowData,
};

verus! {

/// A row after new contents were written to the rows with one hash.
pub open spec fn updated_row(row: HircRowData, update: UpdateRowData) -> HircRowData {
    if row.id_hash == update.id_hash {
        HircRowData {
            stored: StoredObjectData { body_json: update.body_json, ..row.stored },
            body_kind: update.body_kind,
            body_type: update.body_type,
            direct_parent: update.direct_parent,
            override_bus: update.override_bus,
            ..row
        }
    } else {
        row
    }
}

/// The rows of a section after new contents were written, one after the other.
pub open spec fn updated_rows(
    rows: Seq<HircRowData>,
    updates: Seq<UpdateRowData>,
) -> Seq<HircRowData>
    decreases updates.len(),
{
    if updates.len() == 0 {
        rows
    } else {
        updated_rows(rows, updates.drop_last()).map_values(
            |row: HircRowData| updated_row(row, updates.last()),
        )
    }
}

/// Do no two objects have one hash?
pub open spec fn distinct_hashes(objects: Seq<ObjectData>) -> bool {
    forall|i: int, j: int|
        0 <= i < j < objects.len() ==> id_hash((#[trigger] objects[i]).id) != id_hash(
            (#[trigger] objects[j]).id,
        )
}

proof fn lemma_only(objects: Seq<ObjectData>, i: int)
    requires
        distinct_hashes(objects),
        0 <= i < objects.len(),
    ensures
        last_with(objects, id_hash(objects[i].id)) == Some(objects[i]),
{
    lemma_last_with_at(objects, id_hash(objects[i].id), i);
}

proof fn lemma_insert_rows(
    objects: Seq<ObjectData>,
    ids: Seq<u32>,
    ord: int,
    dictionary: Map<u32, Seq<char>>,
    rows: Seq<HircRowData>,
)
    requires
        inserts_of(objects, ids, ord, dictionary) == Ok::<Seq<HircRowData>, StorageFault>(rows),
    ensures
        rows.len() == ids.len(),
        forall|k: int|
            0 <= k < ids.len() ==> (#[trigger] rows[k]) == object_row(
                last_with(objects, ids[k])->Some_0,
                ord + k,
                dictionary,
            ),
    decreases ids.len(),
{
    if ids.len() > 0 {
        let front = inserts_of(objects, ids.drop_last(), ord, dictionary);
        lemma_insert_rows(objects, ids.drop_last(), ord, dictionary, front->Ok_0);
        assert forall|k: int| 0 <= k < ids.len() implies (#[trigger] rows[k]) == object_row(
            last_with(objects, ids[k])->Some_0,
            ord + k,
            dictionary,
        ) by {
            if k < ids.len() - 1 {
                assert(front->Ok_0[k] == rows[k]);
                assert(ids.drop_last()[k] == ids[k]);
            }
        }
    }
}

proof fn lemma_update_rows(
    objects: Seq<ObjectData>,
    ids: Seq<u32>,
    updates: Seq<UpdateRowData>,
)
    requires
        updates_of(objects, ids) == Ok::<Seq<UpdateRowData>, StorageFault>(updates),
    ensures
        updates.len() == ids.len(),
        forall|k: int|
            0 <= k < ids.len() ==> (#[trigger] updates[k]) == update_row(
                last_with(objects, ids[k])->Some_0,
            ) && last_with(objects, ids[k]) is Some,
    decreases ids.len(),
{
    if ids.len() > 0 {
        let front = updates_of(objects, ids.drop_last())->Ok_0;
        lemma_update_rows(objects, ids.drop_last(), front);
        assert forall|k: int| 0 <= k < ids.len() implies (#[trigger] updates[k]) == update_row(
            last_with(objects, ids[k])->Some_0,
        ) && last_with(objects, ids[k]) is Some by {
            if k < ids.len() - 1 {
                assert(front[k] == updates[k]);
                assert(ids.drop_last()[k] == ids[k]);
            }
        }
    }
}

proof fn lemma_updated_rows_len(rows: Seq<HircRowData>, updates: Seq<UpdateRowData>)
    ensures
        updated_rows(rows, updates).len() == rows.len(),
    decreases updates.len(),
{
    if updates.len() > 0 {
        lemma_updated_rows_len(rows, updates.drop_last());
    }
}

// ---------------------------------------------------------------------------
// Memory and database in step
// ---------------------------------------------------------------------------
/// The rows of a bank after new contents were written to rows of one section, and new rows were
/// added to it.
pub open spec fn mirrored(
    rows: Seq<SectionRowData>,
    section_ord: int,
    updates: Seq<UpdateRowData>,
    inserts: Seq<HircRowData>,
) -> Seq<SectionRowData> {
    rows.map_values(
        |row: SectionRowData|
            if row.ord == section_ord {
                SectionRowData { objects: updated_rows(row.objects, updates) + inserts, ..row }
            } else {
                row
            },
    )
}

/// Did the objects of a bank become these? No two of them have one hash; those that were there
/// keep their places and their ids; those with a new body are listed as changed; and the ones
/// behind them are listed as new, in their order.
pub open spec fn edits_fit(
    before: Seq<ObjectData>,
    after: Seq<ObjectData>,
    modified: Seq<u32>,
    inserted: Seq<u32>,
) -> bool {
    &&& distinct_hashes(after)
    &&& before.len() <= after.len()
    &&& forall|k: int|
        0 <= k < before.len() ==> (#[trigger] after[k]).id == before[k].id && (after[k].body
            != before[k].body ==> modified.contains(id_hash(before[k].id)))
    &&& inserted == hashes(after.skip(before.len() as int))
}

proof fn lemma_read_splits(rows: Seq<StoredObjectData>, objects: Seq<ObjectData>)
    requires
        objects_read(rows) == Ok::<Seq<ObjectData>, StorageFault>(objects),
    ensures
        rows.len() == objects.len(),
        forall|k: int|
            0 <= k < rows.len() ==> object_read(#[trigger] rows[k]) == Ok::<
                ObjectData,
                StorageFault,
            >(objects[k]),
    decreases rows.len(),
{
    if rows.len() > 0 {
        let front = objects_read(rows.drop_last())->Ok_0;
        lemma_read_splits(rows.drop_last(), front);
        assert forall|k: int| 0 <= k < rows.len() implies object_read(#[trigger] rows[k]) == Ok::<
            ObjectData,
            StorageFault,
        >(objects[k]) by {
            if k < rows.len() - 1 {
                assert(rows.drop_last()[k] == rows[k]);
                assert(front[k] == objects[k]);
            }
        }
    }
}

proof fn lemma_bank_read_len(rows: Seq<StoredSectionData>)
    ensures
        bank_read(rows) matches Ok(bank) ==> bank.len() <= rows.len(),
    decreases rows.len(),
{
    if rows.len() > 0 {
        lemma_bank_read_len(rows.drop_last());
    }
}

proof fn lemma_bank_read_splits(rows: Seq<StoredSectionData>, bank: Seq<SectionData>)
    requires
        bank_read(rows) == Ok::<Seq<SectionData>, StorageFault>(bank),
        rows.len() == bank.len(),
    ensures
        forall|k: int|
            0 <= k < rows.len() ==> section_read(#[trigger] rows[k]) == Ok::<
                SectionData,
                StorageFault,
            >(bank[k]),
    decreases rows.len(),
{
    if rows.len() > 0 {
        let front = bank_read(rows.drop_last())->Ok_0;
        lemma_bank_read_len(rows.drop_last());
        lemma_bank_read_splits(rows.drop_last(), front);
        assert forall|k: int| 0 <= k < rows.len() implies section_read(#[trigger] rows[k]) == Ok::<
            SectionData,
            StorageFault,
        >(bank[k]) by {
            if k < rows.len() - 1 {
                assert(rows.drop_last()[k] == rows[k]);
                assert(front[k] == bank[k]);
            }
        }
    }
}

proof fn lemma_bank_read_joins(rows: Seq<StoredSectionData>, bank: Seq<SectionData>)
    requires
        rows.len() == bank.len(),
        forall|k: int|
            0 <= k < rows.len() ==> section_read(#[trigger] rows[k]) == Ok::<
                SectionData,
                StorageFault,
            >(bank[k]),
    ensures
        bank_read(rows) == Ok::<Seq<SectionData>, StorageFault>(bank),
    decreases rows.len(),
{
    if rows.len() > 0 {
        assert(rows.last() == rows[rows.len() - 1]);
        lemma_bank_read_joins(rows.drop_last(), bank.drop_last());
        assert(bank.drop_last().push(bank.last()) =~= bank);
    } else {
        assert(bank =~= Seq::<SectionData>::empty());
    }
}

/// What is read of a row after new contents were written.
proof fn lemma_updated_row_read(
    row: HircRowData,
    object: ObjectData,
    after: ObjectData,
    objects: Seq<ObjectData>,
    ids: Seq<u32>,
    updates: Seq<UpdateRowData>,
    place: int,
)
    requires
        distinct_hashes(objects),
        0 <= place < objects.len(),
        objects[place] == after,
        after.id == object.id,
        row.id_hash == id_hash(object.id),
        object_read(row.stored) == Ok::<ObjectData, StorageFault>(object),
        updates_read_back(objects, ids, updates),
        forall|j: int|
            0 <= j < ids.len() ==> (#[trigger] updates[j]).id_hash == ids[j] && last_with(
                objects,
                ids[j],
            ) is Some,
        after.body != object.body ==> ids.contains(row.id_hash),
    ensures
        ({
            let done = updated_rows(seq![row], updates);
            &&& done.len() == 1
            &&& done[0].ord == row.ord
            &&& done[0].id_hash == row.id_hash
            &&& object_read(done[0].stored) == Ok::<ObjectData, StorageFault>(after)
        }),
    decreases ids.len(),
{
    if ids.len() == 0 {
        assert(updates =~= Seq::<UpdateRowData>::empty());
        assert(after == object);
    } else {
        let fewer = ids.drop_last();
        let front = updates.drop_last();
        let last = ids.last();
        assert(updates.last() == updates[updates.len() - 1]);
        assert(updates.last().id_hash == last);
        assert forall|j: int| 0 <= j < front.len() implies (#[trigger] front[j]) == updates[j]
            && fewer[j] == ids[j] by {}
        lemma_updated_rows_len(seq![row], front);
        let before = updated_rows(seq![row], front);
        let done = updated_rows(seq![row], updates);
        assert(done[0] == updated_row(before[0], updates.last()));
        if last == row.id_hash {
            lemma_only(objects, place);
            assert(last_with(objects, last) == Some(after));
            lemma_updated_rows_columns(row, front);
        } else {
            if ids.contains(row.id_hash) {
                let j = choose|j: int| 0 <= j < ids.len() && ids[j] == row.id_hash;
                assert(fewer[j] == row.id_hash);
            }
            lemma_updated_row_read(row, object, after, objects, fewer, front, place);
        }
    }
}

/// New contents leave alone where an object stands and what it is called.
proof fn lemma_updated_rows_columns(row: HircRowData, updates: Seq<UpdateRowData>)
    ensures
        ({
            let done = updated_rows(seq![row], updates);
            &&& done.len() == 1
            &&& done[0].ord == row.ord
            &&& done[0].id_hash == row.id_hash
            &&& done[0].stored.id_kind == row.stored.id_kind
            &&& done[0].stored.id_value == row.stored.id_value
        }),
    decreases updates.len(),
{
    if updates.len() > 0 {
        lemma_updated_rows_columns(row, updates.drop_last());
    }
}

proof fn lemma_updated_rows_at(rows: Seq<HircRowData>, updates: Seq<UpdateRowData>, k: int)
    requires
        0 <= k < rows.len(),
    ensures
        updated_rows(rows, updates).len() == rows.len(),
        updated_rows(seq![rows[k]], updates).len() == 1,
        updated_rows(rows, updates)[k] == updated_rows(seq![rows[k]], updates)[0],
    decreases updates.len(),
{
    if updates.len() > 0 {
        lemma_updated_rows_at(rows, updates.drop_last(), k);
    }
}

/// The rows of the section with the objects, after a change.
proof fn lemma_section_in_step(
    rows: Seq<HircRowData>,
    before: Seq<ObjectData>,
    after: Seq<ObjectData>,
    modified: Seq<u32>,
    dictionary: Map<u32, Seq<char>>,
    updates: Seq<UpdateRowData>,
    inserts: Seq<HircRowData>,
)
    requires
        columns_fit(rows, before),
        objects_read(rows.map_values(|r: HircRowData| r.stored)) == Ok::<
            Seq<ObjectData>,
            StorageFault,
        >(before),
        edits_fit(before, after, modified, hashes(after.skip(before.len() as int))),
        updates_of(after, modified) == Ok::<Seq<UpdateRowData>, StorageFault>(updates),
        inserts_of(
            after,
            hashes(after.skip(before.len() as int)),
            before.len() as int,
            dictionary,
        ) == Ok::<Seq<HircRowData>, StorageFault>(inserts),
        updates_read_back(after, modified, updates),
        inserts_read_back(after, hashes(after.skip(before.len() as int)), inserts),
    ensures
        columns_fit(updated_rows(rows, updates) + inserts, after),
        objects_read(
            (updated_rows(rows, updates) + inserts).map_values(|r: HircRowData| r.stored),
        ) == Ok::<Seq<ObjectData>, StorageFault>(after),
{
    let n = before.len() as int;
    let added = after.skip(n);
    let stored = rows.map_values(|r: HircRowData| r.stored);
    lemma_read_splits(stored, before);
    lemma_update_rows(after, modified, updates);
    lemma_insert_rows(after, hashes(added), n, dictionary, inserts);
    lemma_updated_rows_len(rows, updates);
    assert forall|j: int| 0 <= j < modified.len() implies (#[trigger] updates[j]).id_hash
        == modified[j] && last_with(after, modified[j]) is Some by {
        lemma_last_with(after, modified[j]);
    }
    let all = updated_rows(rows, updates) + inserts;
    let read = all.map_values(|r: HircRowData| r.stored);
    assert forall|k: int| 0 <= k < all.len() implies (#[trigger] all[k]).ord == k && all[k].id_hash
        == id_hash(after[k].id) && object_read(all[k].stored) == Ok::<ObjectData, StorageFault>(
        after[k],
    ) by {
        if k < n {
            assert(rows[k].ord == k);
            assert(stored[k] == rows[k].stored);
            assert(after[k].id == before[k].id);
            lemma_updated_rows_at(rows, updates, k);
            lemma_updated_row_read(
                rows[k],
                before[k],
                after[k],
                after,
                modified,
                updates,
                k,
            );
        } else {
            let m = k - n;
            assert(all[k] == inserts[m]);
            assert(after[n + m] == added[m]);
            assert(hashes(added)[m] == id_hash(after[k].id));
            lemma_only(after, k);
        }
    }
    assert forall|k: int| 0 <= k < read.len() implies object_read(#[trigger] read[k]) == Ok::<
        ObjectData,
        StorageFault,
    >(after[k]) by {
        assert(read[k] == all[k].stored);
    }
    lemma_objects_read(read, after);
}

/// Memory and database stay in step: if the rows hold the bank, and the rows that a change writes
/// are written to the section that it names, then the rows hold the changed bank. So they do
/// after any number of changes.
pub proof fn lemma_lock_step(
    rows: Seq<SectionRowData>,
    bank: Seq<SectionData>,
    after: Seq<ObjectData>,
    modified: Seq<u32>,
    inserted: Seq<u32>,
    dictionary: Map<u32, Seq<char>>,
    updates: Seq<UpdateRowData>,
    inserts: Seq<HircRowData>,
)
    requires
        holds(rows, bank),
        first_objects(bank) is Some,
        edits_fit(main_objects(bank), after, modified, inserted),
        updates_of(after, modified) == Ok::<Seq<UpdateRowData>, StorageFault>(updates),
        inserts_of(after, inserted, main_objects(bank).len() as int, dictionary) == Ok::<
            Seq<HircRowData>,
            StorageFault,
        >(inserts),
        updates_read_back(after, modified, updates),
        inserts_read_back(after, inserted, inserts),
    ensures
        holds(mirrored(rows, hirc_index(bank), updates, inserts), with_objects(bank, after)),
        hirc_index(with_objects(bank, after)) == hirc_index(bank),
        main_objects(with_objects(bank, after)) == after,
{
    let h = hirc_index(bank);
    let done = mirrored(rows, h, updates, inserts);
    let changed = with_objects(bank, after);
    let stored = selected(rows);
    let read = selected(done);
    lemma_bank_read_splits(stored, bank);
    lemma_with_objects(bank, after);
    lemma_first_where_points(bank, holds_objects());
    assert(holds_objects()(bank[h]));
    let row = rows[h];
    assert(row.ord == h);
    assert(stored[h] == selected_section(row));
    assert(objects_in(bank[h]) == main_objects(bank));
    assert(section_read(stored[h]) == Ok::<SectionData, StorageFault>(bank[h]));
    lemma_objects_without_body(stored[h], bank[h]);
    lemma_section_in_step(
        row.objects,
        main_objects(bank),
        after,
        modified,
        dictionary,
        updates,
        inserts,
    );
    assert forall|k: int| 0 <= k < done.len() implies (#[trigger] done[k]).ord == k && columns_fit(
        done[k].objects,
        objects_in(changed[k]),
    ) && (changed[k].body is HIRC ==> done[k].body_json is None) && section_read(read[k]) == Ok::<SectionData, StorageFault>(changed[k]) by {
        assert(rows[k].ord == k);
        assert(stored[k] == selected_section(rows[k]));
        assert(read[k] == selected_section(done[k]));
        if k != h {
            assert(done[k] == rows[k]);
            assert(changed[k] == bank[k]);
        }
    }
    assert forall|k: int| 0 <= k < read.len() implies section_read(#[trigger] read[k]) == Ok::<
        SectionData,
        StorageFault,
    >(changed[k]) by {
        assert(done[k].ord == k);
    }
    lemma_bank_read_joins(read, changed);
}

/// What is read of a section without a body of its own is what is read of its objects.
proof fn lemma_objects_without_body(row: StoredSectionData, section: SectionData)
    requires
        section_read(row) == Ok::<SectionData, StorageFault>(section),
        section.body is HIRC,
        row.body_json is None,
    ensures
        objects_read(row.objects) == Ok::<Seq<ObjectData>, StorageFault>(section.body->HIRC_0),
{
}

/// A subgraph that is added to a bank fits the lists of changed and new objects that come with
/// it, so that memory and database stay in step. No two of the objects may have one hash.
pub proof fn lemma_subgraph_edits_fit(
    objects: Seq<ObjectData>,
    added: Seq<ObjectData>,
    mixer: u32,
    more: Seq<u32>,
)
    requires
        distinct_hashes(objects + added),
        is_mixer(objects + added, mixer),
    ensures
        edits_fit(
            objects,
            with_mixer_children(objects + added, mixer, more),
            seq![mixer],
            hashes(added),
        ),
{
    let all = objects + added;
    let after = with_mixer_children(all, mixer, more);
    let n = objects.len() as int;
    let modified = seq![mixer];
    assert forall|k: int| 0 <= k < all.len() implies (#[trigger] after[k]).id == all[k].id by {}
    assert(distinct_hashes(after)) by {
        assert forall|i: int, j: int| 0 <= i < j < after.len() implies id_hash(
            (#[trigger] after[i]).id,
        ) != id_hash((#[trigger] after[j]).id) by {
            assert(all[i].id == after[i].id && all[j].id == after[j].id);
        }
    }
    lemma_object_with(all, mixer);
    lemma_first_where_points(all, hashed(mixer));
    assert forall|k: int| 0 <= k < n implies (#[trigger] after[k]).id == objects[k].id && (
    after[k].body != objects[k].body ==> modified.contains(id_hash(objects[k].id))) by {
        assert(all[k] == objects[k]);
        if k == first_where(all, hashed(mixer)) {
            assert(hashed(mixer)(all[k]));
            assert(modified[0] == mixer);
        }
    }
    assert(hashes(after.skip(n)) =~= hashes(added)) by {
        assert forall|k: int| 0 <= k < added.len() implies hashes(after.skip(n))[k] == hashes(
            added,
        )[k] by {
            assert(all[n + k] == added[k]);
            assert(after[n + k].id == added[k].id);
        }
    }
}

} // verus!
