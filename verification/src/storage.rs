//! The storage layer: what goes into the database, and what comes out of it.

use vstd::prelude::*;

use crate::bank::{
    first_objects, lemma_with_objects, main_objects, objects_view, with_objects, HIRCObject,
    ObjectData, SectionData, Soundbank,
};
use crate::error::{StorageError, StorageFault};
use crate::ids::{
    dictionary_of, dictionary_view, id_hash, lemma_dictionary_hashes, look_up, name_hash, name_in,
    FNVDictionary, IdView, ObjectId,
};
use crate::import_laws::{lemma_import_legible, lemma_packed_comes_back, lemma_silent_comes_back};
use crate::json_text::JsonError;
use crate::rows::{
    bank_legible, bank_printable, bank_read, holds, outcome, section_rows, section_rows_view,
    selected, write_soundbank, SectionRow, SectionRowData,
};
use crate::seqs::{contains_id, first_where, lemma_first_where, lemma_first_where_points};
use crate::text::{chars_of, join};
use crate::wems::{
    audio_in_range, bank_alignment, extract_wems, extracted, fits, has_no_audio, is_audio, is_data,
    is_index, lemma_no_audio_stays, lemma_without_audio, rebuild_didx_data, sorted_by_id,
    wems_view, with_audio, without_audio,
};

verus! {

/// The version of the schema.
pub const SCHEMA_VERSION: i32 = 1;

/// What marks a database as one of soundbanks.
pub const APPLICATION_ID: i32 = 0x52455755;

// ---------------------------------------------------------------------------
// Schema
// ---------------------------------------------------------------------------
/// Is the file a soundbank database of this version? What it is marked with goes first.
pub fn check_schema(application_id: i32, version: i32) -> (r: Result<(), StorageError>)
    ensures
        match r {
            Ok(_) => application_id == APPLICATION_ID && version == SCHEMA_VERSION,
            Err(e) => if application_id != APPLICATION_ID {
                e@ == (StorageFault::BadApplicationId { found: application_id })
            } else {
                version != SCHEMA_VERSION && e@ == (StorageFault::VersionMismatch {
                    found: version,
                    expected: SCHEMA_VERSION,
                })
            },
        },
{
    if application_id != APPLICATION_ID {
        return Err(StorageError::BadApplicationId { found: application_id });
    }
    if version != SCHEMA_VERSION {
        return Err(StorageError::VersionMismatch { found: version, expected: SCHEMA_VERSION });
    }
    Ok(())
}

// ---------------------------------------------------------------------------
// Audio
// ---------------------------------------------------------------------------
/// A 32-bit id as the database holds it.
pub open spec fn stored_number(id: u32) -> i64 {
    id as i64
}

/// The 32-bit id in a number of the database.
pub open spec fn loaded_number(n: i64) -> u32 {
    n as u32
}

/// An id comes out of the database as it went in.
pub proof fn lemma_number_reads_back(id: u32)
    ensures
        loaded_number(stored_number(id)) == id,
{
}

/// The rows of audio files, as plain data.
pub open spec fn wem_rows_view(rows: Seq<(i64, Vec<u8>)>) -> Seq<(i64, Seq<u8>)> {
    rows.map_values(|w: (i64, Vec<u8>)| (w.0, w.1@))
}

/// The rows of audio files.
pub open spec fn wem_rows(wems: Seq<(u32, Seq<u8>)>) -> Seq<(i64, Seq<u8>)> {
    wems.map_values(|w: (u32, Seq<u8>)| (stored_number(w.0), w.1))
}

/// The audio files in rows.
pub open spec fn wems_read(rows: Seq<(i64, Seq<u8>)>) -> Seq<(u32, Seq<u8>)> {
    rows.map_values(|w: (i64, Seq<u8>)| (loaded_number(w.0), w.1))
}

/// Audio files are read back as they were written.
pub proof fn lemma_wems_read_back(wems: Seq<(u32, Seq<u8>)>)
    ensures
        wems_read(wem_rows(wems)) == wems,
{
    assert(wems_read(wem_rows(wems)) =~= wems);
}

/// The rows of audio files, in the order in which they are written.
pub fn write_wems(items: Vec<(u32, Vec<u8>)>) -> (r: Vec<(i64, Vec<u8>)>)
    ensures
        wem_rows_view(r@) == wem_rows(wems_view(items@)),
{
    let ghost rows = wem_rows(wems_view(items@));
    let mut r: Vec<(i64, Vec<u8>)> = Vec::new();
    assert(wem_rows_view(r@) =~= rows.take(0));
    for item in it: items
        invariant
            it.seq() == items@,
            rows == wem_rows(wems_view(items@)),
            wem_rows_view(r@) == rows.take(it.index() as int),
    {
        let ghost n = it.index() as int;
        let ghost before = wem_rows_view(r@);
        let ghost view = (stored_number(item.0), item.1@);
        r.push((item.0 as i64, item.1));
        assert(rows[n] == view);
        assert(rows.take(n + 1) =~= rows.take(n).push(view));
        assert(wem_rows_view(r@) =~= before.push(view));
    }
    assert(rows.take(rows.len() as int) =~= rows);
    r
}

/// The audio files in rows.
pub fn read_wems(rows: Vec<(i64, Vec<u8>)>) -> (r: Vec<(u32, Vec<u8>)>)
    ensures
        wems_view(r@) == wems_read(wem_rows_view(rows@)),
{
    let ghost wems = wems_read(wem_rows_view(rows@));
    let mut r: Vec<(u32, Vec<u8>)> = Vec::new();
    assert(wems_view(r@) =~= wems.take(0));
    for row in it: rows
        invariant
            it.seq() == rows@,
            wems == wems_read(wem_rows_view(rows@)),
            wems_view(r@) == wems.take(it.index() as int),
    {
        let ghost n = it.index() as int;
        let ghost before = wems_view(r@);
        let ghost view = (loaded_number(row.0), row.1@);
        r.push((#[verifier::truncate] (row.0 as u32), row.1));
        assert(wems[n] == view);
        assert(wems.take(n + 1) =~= wems.take(n).push(view));
        assert(wems_view(r@) =~= before.push(view));
    }
    assert(wems.take(wems.len() as int) =~= wems);
    r
}

/// What was found for the ids, as plain data.
pub open spec fn found_view(found: Seq<Option<Vec<u8>>>) -> Seq<Option<Seq<u8>>> {
    found.map_values(
        |f: Option<Vec<u8>>|
            match f {
                Some(bytes) => Some(bytes@),
                None => None,
            },
    )
}

/// The files that were found and that the destination does not have, each with its id.
pub open spec fn files_to_copy(
    ids: Seq<u32>,
    existing: Seq<u32>,
    found: Seq<Option<Seq<u8>>>,
) -> Seq<(u32, Seq<u8>)>
    decreases found.len(),
{
    if found.len() == 0 {
        Seq::empty()
    } else {
        let front = files_to_copy(ids, existing, found.drop_last());
        let id = ids[found.len() - 1];
        match found.last() {
            Some(bytes) => if existing.contains(id) {
                front
            } else {
                front.push((id, bytes))
            },
            None => front,
        }
    }
}

/// The audio files to copy: those of the ids for which the source has a file and the destination
/// has none.
pub fn copy_wems(ids: &Vec<u32>, existing: &Vec<u32>, found: Vec<Option<Vec<u8>>>) -> (r: Vec<
    (u32, Vec<u8>),
>)
    requires
        found@.len() == ids@.len(),
    ensures
        wems_view(r@) == files_to_copy(ids@, existing@, found_view(found@)),
{
    let ghost views = found_view(found@);
    let mut r: Vec<(u32, Vec<u8>)> = Vec::new();
    let count = ids.len();
    let mut i: usize = 0;
    proof {
        assert(views.take(0) =~= Seq::<Option<Seq<u8>>>::empty());
        assert(wems_view(r@) =~= Seq::<(u32, Seq<u8>)>::empty());
    }
    for one in it: found
        invariant
            it.seq() == found@,
            i == it.index(),
            count == ids@.len(),
            found@.len() == ids@.len(),
            views == found_view(found@),
            wems_view(r@) == files_to_copy(ids@, existing@, views.take(it.index() as int)),
    {
        let ghost before = wems_view(r@);
        proof {
            assert(views.take(i + 1).drop_last() =~= views.take(i as int));
            assert(views.take(i + 1).last() == views[i as int]);
        }
        if let Some(bytes) = one {
            if !contains_id(existing, ids[i]) {
                let ghost view = (ids@[i as int], bytes@);
                r.push((ids[i], bytes));
                assert(wems_view(r@) =~= before.push(view));
            }
        }
        i = i + 1;
    }
    assert(views.take(views.len() as int) =~= views);
    r
}

/// The audio files of a database after more were written to it. A file replaces one with its id.
pub open spec fn files_after(
    files: Map<u32, Seq<u8>>,
    written: Seq<(u32, Seq<u8>)>,
) -> Map<u32, Seq<u8>>
    decreases written.len(),
{
    if written.len() == 0 {
        files
    } else {
        files_after(files, written.drop_last()).insert(written.last().0, written.last().1)
    }
}

proof fn lemma_files_copied(
    files: Map<u32, Seq<u8>>,
    ids: Seq<u32>,
    existing: Seq<u32>,
    found: Seq<Option<Seq<u8>>>,
    id: u32,
)
    requires
        ids.no_duplicates(),
        found.len() <= ids.len(),
        forall|k: u32| #[trigger] existing.contains(k) == files.contains_key(k),
    ensures
        ({
            let after = files_after(files, files_to_copy(ids, existing, found));
            &&& files.contains_key(id) ==> after.contains_key(id) && after[id] == files[id]
            &&& !files.contains_key(id) ==> (after.contains_key(id) == exists|k: int|
                0 <= k < found.len() && #[trigger] ids[k] == id && found[k] is Some)
            &&& forall|k: int|
                0 <= k < found.len() && #[trigger] ids[k] == id && found[k] is Some
                    && !files.contains_key(id) ==> after[id] == found[k]->Some_0
        }),
    decreases found.len(),
{
    if found.len() > 0 {
        let front = found.drop_last();
        let n = found.len() - 1;
        lemma_files_copied(files, ids, existing, front, id);
        let copied = files_to_copy(ids, existing, found);
        let before = files_to_copy(ids, existing, front);
        assert(existing.contains(ids[n]) == files.contains_key(ids[n]));
        if found.last() is Some && !existing.contains(ids[n]) {
            assert(copied.drop_last() =~= before);
        }
        assert forall|k: int| 0 <= k < n implies #[trigger] ids[k] != ids[n] by {}
        assert(found[n] == found.last());
        if !files.contains_key(id) {
            if exists|k: int| 0 <= k < front.len() && #[trigger] ids[k] == id && front[k] is Some {
                let k = choose|k: int|
                    0 <= k < front.len() && #[trigger] ids[k] == id && front[k] is Some;
                assert(found[k] == front[k]);
            }
            if exists|k: int| 0 <= k < found.len() && #[trigger] ids[k] == id && found[k] is Some {
                let k = choose|k: int|
                    0 <= k < found.len() && #[trigger] ids[k] == id && found[k] is Some;
                if k < n {
                    assert(front[k] == found[k]);
                }
            }
        }
    }
}

/// Copying audio files overwrites none: the destination keeps its files, and gets in addition the
/// source's file for each of the ids for which the source has one and the destination had none.
pub proof fn lemma_copy_keeps_files(
    files: Map<u32, Seq<u8>>,
    ids: Seq<u32>,
    existing: Seq<u32>,
    found: Seq<Option<Seq<u8>>>,
)
    requires
        ids.no_duplicates(),
        found.len() == ids.len(),
        forall|k: u32| #[trigger] existing.contains(k) == files.contains_key(k),
    ensures
        ({
            let after = files_after(files, files_to_copy(ids, existing, found));
            &&& forall|id: u32| #[trigger]
                files.contains_key(id) ==> after.contains_key(id) && after[id] == files[id]
            &&& forall|id: u32| #[trigger]
                after.contains_key(id) && !files.contains_key(id) ==> ids.contains(id)
            &&& forall|k: int|
                0 <= k < ids.len() && !files.contains_key(#[trigger] ids[k]) ==> (
                after.contains_key(ids[k]) == (found[k] is Some)) && (found[k] is Some
                    ==> after[ids[k]] == found[k]->Some_0)
        }),
{
    let after = files_after(files, files_to_copy(ids, existing, found));
    assert forall|id: u32| #[trigger] files.contains_key(id) implies after.contains_key(id)
        && after[id] == files[id] by {
        lemma_files_copied(files, ids, existing, found, id);
    }
    assert forall|id: u32| #[trigger] after.contains_key(id) && !files.contains_key(id) implies
        ids.contains(id) by {
        lemma_files_copied(files, ids, existing, found, id);
    }
    assert forall|k: int| 0 <= k < ids.len() && !files.contains_key(#[trigger] ids[k]) implies (
    after.contains_key(ids[k]) == (found[k] is Some)) && (found[k] is Some ==> after[ids[k]]
        == found[k]->Some_0) by {
        lemma_files_copied(files, ids, existing, found, ids[k]);
    }
}

// ---------------------------------------------------------------------------
// Import
// ---------------------------------------------------------------------------
/// The id with its name, where the dictionary has one for its hash.
pub open spec fn upgraded_id(id: IdView, dictionary: Map<u32, Seq<char>>) -> IdView {
    match name_in(dictionary, id_hash(id)) {
        Some(name) => IdView::Name(name),
        None => id,
    }
}

/// The objects with their names, where the dictionary has them.
pub open spec fn upgraded_objects(
    objects: Seq<ObjectData>,
    dictionary: Map<u32, Seq<char>>,
) -> Seq<ObjectData> {
    objects.map_values(
        |o: ObjectData| ObjectData { id: upgraded_id(o.id, dictionary), body: o.body },
    )
}

/// The bank with the names of the objects in its first section with objects, where the
/// dictionary has them.
pub open spec fn upgraded(
    bank: Seq<SectionData>,
    dictionary: Map<u32, Seq<char>>,
) -> Seq<SectionData> {
    with_objects(bank, upgraded_objects(main_objects(bank), dictionary))
}

/// A dictionary of names changes no hash.
pub proof fn lemma_upgrade_keeps_hash(id: IdView, names: Seq<Seq<char>>)
    ensures
        id_hash(upgraded_id(id, dictionary_of(names))) == id_hash(id),
{
    if dictionary_of(names).dom().contains(id_hash(id)) {
        lemma_dictionary_hashes(names, id_hash(id));
    }
}

/// Has every name of the dictionary the hash that it is listed under?
pub open spec fn honest(dictionary: Map<u32, Seq<char>>) -> bool {
    forall|hash: u32| #[trigger]
        dictionary.contains_key(hash) ==> name_hash(dictionary[hash]) == hash
}

/// A dictionary that was read is honest.
pub proof fn lemma_read_is_honest(names: Seq<Seq<char>>)
    ensures
        honest(dictionary_of(names)),
{
    assert forall|hash: u32| #[trigger] dictionary_of(names).contains_key(hash) implies name_hash(
        dictionary_of(names)[hash],
    ) == hash by {
        lemma_dictionary_hashes(names, hash);
    }
}

/// An honest dictionary names objects and changes nothing else: hashes and bodies stay, in their
/// order.
pub proof fn lemma_upgraded(bank: Seq<SectionData>, dictionary: Map<u32, Seq<char>>)
    requires
        honest(dictionary),
    ensures
        ({
            let before = main_objects(bank);
            let after = main_objects(upgraded(bank, dictionary));
            &&& after.len() == before.len()
            &&& forall|k: int|
                0 <= k < before.len() ==> id_hash((#[trigger] after[k]).id) == id_hash(
                    before[k].id,
                ) && after[k].body == before[k].body
        }),
{
    let before = main_objects(bank);
    if first_objects(bank) is Some {
        lemma_with_objects(bank, upgraded_objects(before, dictionary));
    }
    assert forall|k: int| 0 <= k < before.len() implies id_hash(
        (#[trigger] main_objects(upgraded(bank, dictionary))[k]).id,
    ) == id_hash(before[k].id) && main_objects(upgraded(bank, dictionary))[k].body
        == before[k].body by {}
}

/// What is imported of a bank.
#[derive(Debug)]
pub struct Import {
    pub sections: Vec<SectionRow>,
    pub wems: Vec<(u32, Vec<u8>)>,
}

fn upgrade_ids(soundbank: &mut Soundbank, dictionary: &FNVDictionary)
    ensures
        final(soundbank)@ == upgraded(old(soundbank)@, dictionary_view(dictionary@)),
{
    let ghost bank = soundbank@;
    let ghost names = dictionary_view(dictionary@);
    match soundbank.take_objects() {
        Some(objects) => {
            let ghost target = upgraded_objects(objects_view(objects@), names);
            let mut renamed: Vec<HIRCObject> = Vec::new();
            assert(objects_view(renamed@) =~= target.take(0));
            for object in it: objects
                invariant
                    it.seq() == objects@,
                    names == dictionary_view(dictionary@),
                    target == upgraded_objects(objects_view(objects@), names),
                    objects_view(renamed@) == target.take(it.index() as int),
            {
                let ghost n = it.index() as int;
                let ghost before = objects_view(renamed@);
                let ghost view = object@;
                let id = match look_up(dictionary, object.id.as_hash()) {
                    Some(name) => ObjectId::String(name),
                    None => object.id,
                };
                let one = HIRCObject { id, body: object.body };
                let ghost named = one@;
                renamed.push(one);
                proof {
                    assert(objects_view(objects@)[n] == view);
                    assert(target[n] == named);
                    assert(target.take(n + 1) =~= target.take(n).push(named));
                    assert(objects_view(renamed@) =~= before.push(named));
                }
            }
            assert(target.take(target.len() as int) =~= target);
            soundbank.put_objects(renamed);
            proof {
                lemma_put_after_take(bank, target);
            }
        },
        None => {},
    }
}

/// Objects that go back into an emptied section replace those that were taken.
pub proof fn lemma_put_after_take(bank: Seq<SectionData>, objects: Seq<ObjectData>)
    ensures
        with_objects(with_objects(bank, Seq::empty()), objects) == with_objects(bank, objects),
{
    if first_objects(bank) is Some {
        crate::bank::lemma_with_objects(bank, Seq::empty());
        lemma_first_where_points(bank, crate::bank::holds_objects());
        assert(with_objects(with_objects(bank, Seq::empty()), objects) =~= with_objects(
            bank,
            objects,
        ));
    }
}

/// Other objects leave the audio of a bank as it is.
proof fn lemma_audio_of_upgraded(bank: Seq<SectionData>, objects: Seq<ObjectData>)
    ensures
        extracted(with_objects(bank, objects)) == extracted(bank),
        audio_in_range(with_objects(bank, objects)) == audio_in_range(bank),
{
    let after = with_objects(bank, objects);
    lemma_first_where_points(bank, crate::bank::holds_objects());
    lemma_first_where_points(bank, is_index());
    lemma_first_where_points(bank, is_data());
    assert forall|k: int| 0 <= k < bank.len() implies is_index()(#[trigger] after[k])
        == is_index()(bank[k]) && is_data()(after[k]) == is_data()(bank[k]) by {}
    let i = first_where(bank, is_index());
    let d = first_where(bank, is_data());
    assert forall|k: int| 0 <= k < i implies !is_index()(#[trigger] after[k]) by {
        assert(!is_index()(bank[k]));
    }
    assert forall|k: int| 0 <= k < d implies !is_data()(#[trigger] after[k]) by {
        assert(!is_data()(bank[k]));
    }
    lemma_first_where(after, is_index(), i);
    lemma_first_where(after, is_data(), d);
}

/// The bank without the magic numbers of its audio, which are made anew at each export.
pub open spec fn unmarked(bank: Seq<SectionData>) -> Seq<SectionData> {
    bank.map_values(
        |s: SectionData|
            if is_audio(s) {
                SectionData { magic: seq![0u8, 0u8, 0u8, 0u8], body: s.body }
            } else {
                s
            },
    )
}

/// Do the ids rise from file to file?
pub open spec fn ids_rise(wems: Seq<(u32, Seq<u8>)>) -> bool {
    forall|i: int, j: int| 0 <= i < j < wems.len() ==> wems[i].0 < wems[j].0
}

/// Has the bank its audio right behind its header, in order of the ids, each once, and packed at
/// the alignment that the header asks for?
pub open spec fn well_packed(bank: Seq<SectionData>) -> bool {
    let plain = without_audio(bank);
    match bank_alignment(plain) {
        Some(alignment) => {
            &&& extracted(bank).len() > 0
            &&& ids_rise(extracted(bank))
            &&& fits(extracted(bank), alignment)
            &&& unmarked(bank) == with_audio(plain, extracted(bank), alignment)
        },
        None => false,
    }
}

/// Is this bank exported from these rows of sections and of audio files? The files can be put
/// into the bank that is read.
pub open spec fn comes_back(
    rows: Seq<SectionRowData>,
    wems: Seq<(i64, Seq<u8>)>,
    bank: Seq<SectionData>,
) -> bool {
    match bank_read(selected(rows)) {
        Ok(read) => export_fits(read, wems_read(wems)) && exported(read, wems_read(wems)) == Ok::<
            Seq<SectionData>,
            StorageFault,
        >(bank),
        Err(_) => false,
    }
}

/// What a parsed bank is stored as: its sections without audio, objects under the names that the
/// dictionary has for them, and the audio files. A complete bank whose audio is packed as exports
/// pack it, or that has none, is exported from those rows as it was, under those names.
pub fn import_bnk(soundbank: Soundbank, dictionary: &FNVDictionary) -> (r: Result<
    Import,
    StorageError,
>)
    requires
        audio_in_range(soundbank@),
    ensures
        ({
            let names = dictionary_view(dictionary@);
            let stripped = without_audio(upgraded(soundbank@, names));
            match r {
                Ok(import) => {
                    &&& bank_printable(stripped)
                    &&& section_rows_view(import.sections@) == section_rows(stripped, names)
                    &&& wems_view(import.wems@) == extracted(soundbank@)
                    &&& bank_legible(soundbank@) ==> holds(
                        section_rows_view(import.sections@),
                        stripped,
                    )
                    &&& bank_legible(soundbank@) && (well_packed(soundbank@) || has_no_audio(
                        soundbank@,
                    )) ==> comes_back(
                        section_rows_view(import.sections@),
                        wem_rows(wems_view(import.wems@)),
                        unmarked(upgraded(soundbank@, names)),
                    )
                },
                Err(e) => !bank_printable(stripped) && e@ == StorageFault::Json(
                    JsonError::NotPrintable,
                ),
            }
        }),
{
    let ghost names = dictionary_view(dictionary@);
    let mut soundbank = soundbank;
    let ghost whole = soundbank@;
    upgrade_ids(&mut soundbank, dictionary);
    proof {
        lemma_audio_of_upgraded(whole, upgraded_objects(main_objects(whole), names));
    }
    let wems = extract_wems(&soundbank);
    soundbank.strip_audio();
    proof {
        lemma_without_audio(upgraded(whole, names));
        lemma_no_audio_stays(soundbank@);
    }
    proof {
        if bank_legible(whole) {
            lemma_import_legible(whole, upgraded_objects(main_objects(whole), names));
        }
        lemma_wems_read_back(extracted(whole));
        if well_packed(whole) {
            lemma_packed_comes_back(whole, names);
        }
        if has_no_audio(whole) {
            lemma_silent_comes_back(whole, names);
        }
    }
    match write_soundbank(&soundbank, dictionary) {
        Ok(sections) => Ok(Import { sections, wems }),
        Err(e) => Err(e),
    }
}

// ---------------------------------------------------------------------------
// Export
// ---------------------------------------------------------------------------
/// The bank to export: the stored one, with its audio files if there are any.
pub open spec fn exported(
    bank: Seq<SectionData>,
    wems: Seq<(u32, Seq<u8>)>,
) -> Result<Seq<SectionData>, StorageFault> {
    if wems.len() == 0 {
        Ok(bank)
    } else {
        match bank_alignment(bank) {
            Some(alignment) => Ok(with_audio(bank, sorted_by_id(wems), alignment)),
            None => Err(StorageFault::MissingBkhd),
        }
    }
}

/// Can the audio files be put into the bank?
pub open spec fn export_fits(bank: Seq<SectionData>, wems: Seq<(u32, Seq<u8>)>) -> bool {
    wems.len() > 0 ==> (bank_alignment(bank) matches Some(alignment) ==> fits(
        sorted_by_id(wems),
        alignment,
    ))
}

/// The bank to export: the stored one, with its audio files if there are any.
pub fn export_bnk(soundbank: Soundbank, wems: Vec<(u32, Vec<u8>)>) -> (r: Result<
    Soundbank,
    StorageError,
>)
    requires
        export_fits(soundbank@, wems_view(wems@)),
    ensures
        outcome(r) == exported(soundbank@, wems_view(wems@)),
{
    let mut soundbank = soundbank;
    if wems.len() > 0 {
        match rebuild_didx_data(&mut soundbank, wems) {
            Ok(()) => {},
            Err(e) => {
                return Err(e);
            },
        }
    }
    Ok(soundbank)
}

// ---------------------------------------------------------------------------
// Queries
// ---------------------------------------------------------------------------
/// The id of the object that a label was found for.
pub fn find_id_by_label(found: Option<i64>) -> (r: Option<u32>)
    ensures
        r == loaded_optional(found),
{
    match found {
        Some(n) => Some(#[verifier::truncate] (n as u32)),
        None => None,
    }
}

/// The 32-bit id in an optional number of the database.
pub open spec fn loaded_optional(n: Option<i64>) -> Option<u32> {
    match n {
        Some(n) => Some(loaded_number(n)),
        None => None,
    }
}

/// An object in a list.
#[derive(Debug, Clone)]
pub struct ObjectSummary {
    pub id_hash: u32,
    pub label: Option<String>,
    pub body_kind: String,
    pub direct_parent: Option<u32>,
    pub override_bus: Option<u32>,
}

impl ObjectSummary {
    /// The object in a row of a list.
    pub fn from_row(
        id_hash: i64,
        label: Option<String>,
        body_kind: String,
        direct_parent: Option<i64>,
        override_bus: Option<i64>,
    ) -> (r: ObjectSummary)
        ensures
            r.id_hash == loaded_number(id_hash),
            r.label == label,
            r.body_kind == body_kind,
            r.direct_parent == loaded_optional(direct_parent),
            r.override_bus == loaded_optional(override_bus),
    {
        ObjectSummary {
            id_hash: #[verifier::truncate] (id_hash as u32),
            label,
            body_kind,
            direct_parent: find_id_by_label(direct_parent),
            override_bus: find_id_by_label(override_bus),
        }
    }
}

/// What a list of objects is filtered by, and how long it gets at most.
#[derive(Debug)]
pub struct ObjectQuery {
    pub kind_pattern: String,
    pub label_pattern: String,
    pub limit: i64,
}

/// The pattern of a filter; without a filter, the one that matches everything.
pub open spec fn pattern(filter: Option<Seq<char>>) -> Seq<char> {
    match filter {
        Some(text) => text,
        None => "%"@,
    }
}

/// An optional text, as plain data.
pub open spec fn filter_view(filter: Option<&str>) -> Option<Seq<char>> {
    match filter {
        Some(text) => Some(text@),
        None => None,
    }
}

fn pattern_of(filter: Option<&str>) -> (r: String)
    ensures
        r@ == pattern(filter_view(filter)),
{
    match filter {
        Some(text) => text.to_owned(),
        None => "%".to_owned(),
    }
}

/// The query for all objects that match.
pub fn list_objects(body_kind: Option<&str>, name_like: Option<&str>) -> (r: ObjectQuery)
    ensures
        r.kind_pattern@ == pattern(filter_view(body_kind)),
        r.label_pattern@ == pattern(filter_view(name_like)),
        r.limit == i64::MAX,
{
    list_objects_capped(body_kind, name_like, i64::MAX)
}

/// The query for at most `limit` objects that match.
pub fn list_objects_capped(
    body_kind: Option<&str>,
    name_like: Option<&str>,
    limit: i64,
) -> (r: ObjectQuery)
    ensures
        r.kind_pattern@ == pattern(filter_view(body_kind)),
        r.label_pattern@ == pattern(filter_view(name_like)),
        r.limit == limit,
{
    ObjectQuery {
        kind_pattern: pattern_of(body_kind),
        label_pattern: pattern_of(name_like),
        limit,
    }
}

/// The number of objects in a count of the database.
pub fn count_objects(n: i64) -> (r: u64)
    ensures
        r == n as u64,
{
    #[verifier::truncate]
    (n as u64)
}

/// The patterns for the count of all objects that match.
pub fn count_objects_filtered(body_kind: Option<&str>, name_like: Option<&str>) -> (r: (
    String,
    String,
))
    ensures
        r.0@ == pattern(filter_view(body_kind)),
        r.1@ == pattern(filter_view(name_like)),
{
    (pattern_of(body_kind), pattern_of(name_like))
}

/// The number of the database by which the objects under a parent are found.
pub fn list_children_of(parent_id: u32) -> (r: i64)
    ensures
        r == stored_number(parent_id),
{
    parent_id as i64
}

// ---------------------------------------------------------------------------
// Converting files
// ---------------------------------------------------------------------------
/// What is made of a file.
#[derive(Debug, Clone, Copy, PartialEq, Eq, Structural)]
pub enum Conversion {
    /// A database of a bank.
    Import,
    /// A bank of a database.
    Export,
}

/// A character with `A` to `Z` in lower case.
pub open spec fn lower_char(c: char) -> char {
    if 'A' <= c <= 'Z' {
        (c as int + 32) as char
    } else {
        c
    }
}

/// A text with `A` to `Z` in lower case.
pub open spec fn lower_text(text: Seq<char>) -> Seq<char> {
    text.map_values(|c: char| lower_char(c))
}

/// What is made of a file with this extension, in capitals or not.
pub open spec fn conversion_for(extension: Seq<char>) -> Option<Conversion> {
    if lower_text(extension) == "bnk"@ {
        Some(Conversion::Import)
    } else if lower_text(extension) == "db"@ {
        Some(Conversion::Export)
    } else {
        None
    }
}

/// Is the text, in capitals or not, this word of small letters?
fn reads(text: &Vec<char>, word: &str) -> (r: bool)
    ensures
        r == (lower_text(text@) == word@),
{
    let letters = chars_of(word);
    if text.len() != letters.len() {
        return false;
    }
    let mut i: usize = 0;
    while i < text.len()
        invariant
            i <= text@.len(),
            text@.len() == letters@.len(),
            letters@ == word@,
            forall|k: int| 0 <= k < i ==> lower_char(#[trigger] text@[k]) == letters@[k],
        decreases text@.len() - i,
    {
        let c = text[i];
        let low: char = if 'A' <= c && c <= 'Z' {
            ((c as u8) + 32) as char
        } else {
            c
        };
        assert(low == lower_char(c));
        if low != letters[i] {
            assert(lower_text(text@)[i as int] != word@[i as int]);
            return false;
        }
        i = i + 1;
    }
    assert(lower_text(text@) =~= word@);
    true
}

/// What is made of a file with this extension, in capitals or not.
pub fn conversion_of(extension: &str) -> (r: Option<Conversion>)
    ensures
        r == conversion_for(extension@),
{
    let chars = chars_of(extension);
    if reads(&chars, "bnk") {
        Some(Conversion::Import)
    } else if reads(&chars, "db") {
        Some(Conversion::Export)
    } else {
        None
    }
}

/// The name of the bank that is made of a database.
pub fn created_name(stem: &str) -> (r: String)
    ensures
        r@ == stem@ + ".created.bnk"@,
{
    join(stem, ".created.bnk")
}

} // verus!
