//! The rows of a bank, column by column.

use vstd::prelude::*;

use crate::bank::{
    first_objects, has_hash, hirc_index, holds_objects, lemma_with_objects, main_objects,
    ObjectData, SectionContent, SectionData,
};
use crate::body::{direct_parent, override_bus, BodyView};
use crate::ids::{id_hash, name_hash, IdView};
use crate::index::{last_with, lemma_last_with};
use crate::json::JsonView;
use crate::json_text::printed_json;
use crate::kind::{kind_name, kind_number};
use crate::rows::{object_rows, section_row, section_rows, HircRowData};
use crate::seqs::lemma_first_where_points;
use crate::session::{inserts_of, updates_of};
use crate::storage::{upgraded, upgraded_objects};
use crate::text::decimal_text;
use crate::wems::without_audio;

verus! {

// ---------------------------------------------------------------------------
// Objects
// ---------------------------------------------------------------------------
/// Is this the row of the object? An object with a name is stored and labelled by it; one without
/// is stored by its hash and labelled by the name that the dictionary has for that, if it has one.
/// The row tells the hash, the kind, the parent and the bus of the object, and holds its body.
pub open spec fn is_row_of(
    row: HircRowData,
    object: ObjectData,
    ord: int,
    dictionary: Map<u32, Seq<char>>,
) -> bool {
    &&& row.ord == ord
    &&& match object.id {
        IdView::Name(name) => {
            &&& row.stored.id_kind == "String"@
            &&& row.stored.id_value == name
            &&& row.id_hash == name_hash(name)
            &&& row.label == Some(name)
        },
        IdView::Hash(hash) => {
            &&& row.stored.id_kind == "Hash"@
            &&& row.stored.id_value == decimal_text(hash as nat)
            &&& row.id_hash == hash
            &&& dictionary.contains_key(hash) ==> row.label == Some(dictionary[hash])
            &&& !dictionary.contains_key(hash) ==> row.label is None
        },
    }
    &&& holds_body(
        row.stored.body_json,
        row.body_kind,
        row.body_type,
        row.direct_parent,
        row.override_bus,
        object.body,
    )
}

/// Do the columns of a body tell of this one?
pub open spec fn holds_body(
    json: Seq<char>,
    kind: Seq<char>,
    number: u8,
    parent: Option<u32>,
    bus: Option<u32>,
    body: BodyView,
) -> bool {
    &&& json == printed_json(JsonView::Object(seq![(kind_name(body.kind), body.fields)]))
    &&& kind == kind_name(body.kind)
    &&& number == kind_number(body.kind)
    &&& parent == direct_parent(body)
    &&& bus == override_bus(body)
}

proof fn lemma_object_rows(objects: Seq<ObjectData>, dictionary: Map<u32, Seq<char>>)
    ensures
        object_rows(objects, dictionary).len() == objects.len(),
        forall|k: int|
            0 <= k < objects.len() ==> is_row_of(
                #[trigger] object_rows(objects, dictionary)[k],
                objects[k],
                k,
                dictionary,
            ),
{
}

// ---------------------------------------------------------------------------
// Sections
// ---------------------------------------------------------------------------
/// The sections that hold no audio are kept, in order.
pub proof fn lemma_only_audio_is_left_out(bank: Seq<SectionData>)
    ensures
        without_audio(bank) == bank.filter(
            |s: SectionData| !(s.body is DIDX) && !(s.body is DATA),
        ),
    decreases bank.len(),
{
    reveal(Seq::filter);
    if bank.len() > 0 {
        lemma_only_audio_is_left_out(bank.drop_last());
    }
}

proof fn lemma_section_rows(bank: Seq<SectionData>, dictionary: Map<u32, Seq<char>>)
    ensures
        section_rows(bank, dictionary).len() == without_audio(bank).len(),
        forall|r: int|
            0 <= r < without_audio(bank).len() ==> #[trigger] section_rows(bank, dictionary)[r]
                == section_row(without_audio(bank)[r], r, dictionary),
    decreases bank.len(),
{
    if bank.len() > 0 {
        lemma_section_rows(bank.drop_last(), dictionary);
    }
}

/// Each section without audio has a row, numbered as they come. A section of objects has no text
/// of its own, but a row for each of its objects; a header, and any other section, has its text
/// and no such rows.
pub proof fn lemma_every_section_has_its_row(
    bank: Seq<SectionData>,
    dictionary: Map<u32, Seq<char>>,
)
    ensures
        ({
            let kept = bank.filter(|s: SectionData| !(s.body is DIDX) && !(s.body is DATA));
            let rows = section_rows(bank, dictionary);
            &&& rows.len() == kept.len()
            &&& forall|r: int|
                0 <= r < rows.len() ==> (#[trigger] rows[r]).ord == r && match kept[r].body {
                    SectionContent::HIRC(objects) => {
                        &&& rows[r].body_json is None
                        &&& rows[r].objects.len() == objects.len()
                        &&& forall|k: int|
                            0 <= k < objects.len() ==> is_row_of(
                                #[trigger] rows[r].objects[k],
                                objects[k],
                                k,
                                dictionary,
                            )
                    },
                    SectionContent::BKHD(header) => rows[r].body_json == Some(
                        printed_json(JsonView::Object(seq![("BKHD"@, header)])),
                    ) && rows[r].objects.len() == 0,
                    SectionContent::Other(tree) => rows[r].body_json == Some(printed_json(tree))
                        && rows[r].objects.len() == 0,
                    _ => true,
                }
        }),
{
    lemma_only_audio_is_left_out(bank);
    lemma_section_rows(bank, dictionary);
    let kept = without_audio(bank);
    let rows = section_rows(bank, dictionary);
    assert forall|r: int| 0 <= r < rows.len() implies rows[r] == section_row(
        kept[r],
        r,
        dictionary,
    ) by {}
    assert forall|r: int| 0 <= r < rows.len() && kept[r].body is HIRC implies {
        let objects = kept[r].body->HIRC_0;
        &&& (#[trigger] rows[r]).objects.len() == objects.len()
        &&& forall|k: int|
            0 <= k < objects.len() ==> is_row_of(
                #[trigger] rows[r].objects[k],
                objects[k],
                k,
                dictionary,
            )
    } by {
        lemma_object_rows(kept[r].body->HIRC_0, dictionary);
    }
}

// ---------------------------------------------------------------------------
// Names from the dictionary
// ---------------------------------------------------------------------------
/// The import names objects of every kind: an object whose hash the dictionary has gets that name,
/// and any other keeps its id. Bodies stay, and so do all other sections.
pub proof fn lemma_import_names_objects(
    bank: Seq<SectionData>,
    dictionary: Map<u32, Seq<char>>,
)
    ensures
        ({
            let before = main_objects(bank);
            let after = main_objects(upgraded(bank, dictionary));
            &&& after.len() == before.len()
            &&& forall|k: int|
                0 <= k < before.len() ==> {
                    let hash = id_hash(before[k].id);
                    &&& (#[trigger] after[k]).body == before[k].body
                    &&& dictionary.contains_key(hash) ==> after[k].id == IdView::Name(
                        dictionary[hash],
                    )
                    &&& !dictionary.contains_key(hash) ==> after[k].id == before[k].id
                }
            &&& upgraded(bank, dictionary).len() == bank.len()
            &&& hirc_index(upgraded(bank, dictionary)) == hirc_index(bank)
            &&& forall|s: int|
                0 <= s < bank.len() && s != hirc_index(bank) ==> #[trigger] upgraded(
                    bank,
                    dictionary,
                )[s] == bank[s]
            &&& forall|s: int|
                0 <= s < bank.len() ==> (#[trigger] upgraded(bank, dictionary)[s]).magic
                    == bank[s].magic
        }),
{
    let objects = upgraded_objects(main_objects(bank), dictionary);
    lemma_first_where_points(bank, holds_objects());
    if first_objects(bank) is Some {
        lemma_with_objects(bank, objects);
    }
}

proof fn lemma_kept_place(bank: Seq<SectionData>)
    requires
        first_objects(bank) is Some,
    ensures
        first_objects(without_audio(bank)) == first_objects(bank),
    decreases bank.len(),
{
    let last = bank.last();
    let front = bank.drop_last();
    lemma_first_where_points(bank, holds_objects());
    let h = hirc_index(bank);
    assert(holds_objects()(bank[h]));
    if h < front.len() {
        assert forall|k: int| 0 <= k < h implies !holds_objects()(#[trigger] front[k]) by {
            assert(!holds_objects()(bank[k]));
        }
        assert(front[h] == bank[h]);
        crate::seqs::lemma_first_where(front, holds_objects(), h);
        lemma_kept_place(front);
        let kept = without_audio(front);
        lemma_first_where_points(kept, holds_objects());
        let g = hirc_index(kept);
        assert(holds_objects()(kept[g]));
        let all = without_audio(bank);
        assert forall|k: int| 0 <= k < g implies !holds_objects()(#[trigger] all[k]) by {
            assert(all[k] == kept[k]);
        }
        assert(all[g] == kept[g]);
        crate::seqs::lemma_first_where(all, holds_objects(), g);
    } else {
        lemma_none_kept(front);
        let kept = without_audio(front);
        let all = without_audio(bank);
        assert(all == kept.push(last));
        assert forall|k: int| 0 <= k < kept.len() implies !holds_objects()(#[trigger] all[k]) by {
            assert(all[k] == kept[k]);
        }
        crate::seqs::lemma_first_where(all, holds_objects(), kept.len() as int);
    }
}

proof fn lemma_none_kept(bank: Seq<SectionData>)
    requires
        forall|k: int| 0 <= k < bank.len() ==> !holds_objects()(#[trigger] bank[k]),
    ensures
        forall|k: int|
            0 <= k < without_audio(bank).len() ==> !holds_objects()(
                #[trigger] without_audio(bank)[k],
            ),
    decreases bank.len(),
{
    if bank.len() > 0 {
        let front = bank.drop_last();
        assert forall|k: int| 0 <= k < front.len() implies !holds_objects()(#[trigger] front[k]) by {
            assert(front[k] == bank[k]);
        }
        lemma_none_kept(front);
        assert(!holds_objects()(bank[bank.len() - 1]));
        let before = without_audio(front);
        let all = without_audio(bank);
        assert forall|k: int| 0 <= k < all.len() implies !holds_objects()(#[trigger] all[k]) by {
            if k < before.len() {
                assert(all[k] == before[k]);
            }
        }
    }
}

/// Among the rows of an imported bank there is one for each of its objects. An object whose hash
/// the dictionary has is stored by that name, whatever its kind; any other as it was.
pub proof fn lemma_imported_rows_are_named(
    bank: Seq<SectionData>,
    dictionary: Map<u32, Seq<char>>,
    k: int,
)
    requires
        0 <= k < main_objects(bank).len(),
    ensures
        ({
            let stripped = without_audio(upgraded(bank, dictionary));
            let rows = section_rows(stripped, dictionary);
            let r = hirc_index(stripped);
            let object = main_objects(bank)[k];
            let hash = id_hash(object.id);
            &&& 0 <= r < rows.len()
            &&& rows[r].objects.len() == main_objects(bank).len()
            &&& dictionary.contains_key(hash) ==> is_row_of(
                rows[r].objects[k],
                ObjectData { id: IdView::Name(dictionary[hash]), body: object.body },
                k,
                dictionary,
            )
            &&& !dictionary.contains_key(hash) ==> is_row_of(
                rows[r].objects[k],
                object,
                k,
                dictionary,
            )
        }),
{
    let named = upgraded(bank, dictionary);
    let stripped = without_audio(named);
    let rows = section_rows(stripped, dictionary);
    lemma_import_names_objects(bank, dictionary);
    lemma_first_where_points(bank, holds_objects());
    lemma_with_objects(bank, upgraded_objects(main_objects(bank), dictionary));
    lemma_kept_place(named);
    let r = hirc_index(stripped);
    lemma_first_where_points(stripped, holds_objects());
    assert(holds_objects()(stripped[r]));
    crate::wems::lemma_without_audio(named);
    crate::wems::lemma_no_audio_stays(stripped);
    lemma_section_rows(stripped, dictionary);
    assert(rows[r] == section_row(stripped[r], r, dictionary));
    lemma_object_rows(main_objects(named), dictionary);
    assert(is_row_of(rows[r].objects[k], main_objects(named)[k], k, dictionary));
}

// ---------------------------------------------------------------------------
// Rows that a change writes
// ---------------------------------------------------------------------------
/// The rows of changed objects hold their new bodies, one for each, in order; it is refused if one
/// is not there.
pub proof fn lemma_updates_hold_bodies(objects: Seq<ObjectData>, ids: Seq<u32>)
    ensures
        match updates_of(objects, ids) {
            Ok(rows) => {
                &&& rows.len() == ids.len()
                &&& forall|k: int|
                    0 <= k < ids.len() ==> {
                        let o = last_with(objects, ids[k])->Some_0;
                        let row = #[trigger] rows[k];
                        &&& has_hash(objects, ids[k])
                        &&& row.id_hash == ids[k]
                        &&& holds_body(
                            row.body_json,
                            row.body_kind,
                            row.body_type,
                            row.direct_parent,
                            row.override_bus,
                            o.body,
                        )
                    }
            },
            Err(_) => exists|k: int| 0 <= k < ids.len() && !has_hash(objects, #[trigger] ids[k]),
        },
    decreases ids.len(),
{
    if ids.len() > 0 {
        let front = ids.drop_last();
        lemma_updates_hold_bodies(objects, front);
        lemma_last_with(objects, ids.last());
        match updates_of(objects, front) {
            Ok(before) => {
                if let Ok(rows) = updates_of(objects, ids) {
                    assert forall|k: int| 0 <= k < ids.len() implies {
                        let o = last_with(objects, ids[k])->Some_0;
                        let row = #[trigger] rows[k];
                        &&& has_hash(objects, ids[k])
                        &&& row.id_hash == ids[k]
                        &&& holds_body(
                            row.body_json,
                            row.body_kind,
                            row.body_type,
                            row.direct_parent,
                            row.override_bus,
                            o.body,
                        )
                    } by {
                        if k < front.len() {
                            assert(rows[k] == before[k]);
                            assert(front[k] == ids[k]);
                        }
                    }
                } else {
                    assert(!has_hash(objects, ids[ids.len() - 1]));
                }
            },
            Err(_) => {
                let k = choose|k: int|
                    0 <= k < front.len() && !has_hash(objects, #[trigger] front[k]);
                assert(!has_hash(objects, ids[k]));
            },
        }
    }
}

/// The rows of new objects are those of the objects, one for each, in order, and numbered on; it
/// is refused if one is not there.
pub proof fn lemma_inserts_are_rows(
    objects: Seq<ObjectData>,
    ids: Seq<u32>,
    ord: int,
    dictionary: Map<u32, Seq<char>>,
)
    ensures
        match inserts_of(objects, ids, ord, dictionary) {
            Ok(rows) => {
                &&& rows.len() == ids.len()
                &&& forall|k: int|
                    0 <= k < ids.len() ==> has_hash(objects, ids[k]) && is_row_of(
                        #[trigger] rows[k],
                        last_with(objects, ids[k])->Some_0,
                        ord + k,
                        dictionary,
                    ) && rows[k].id_hash == ids[k]
            },
            Err(_) => exists|k: int| 0 <= k < ids.len() && !has_hash(objects, #[trigger] ids[k]),
        },
    decreases ids.len(),
{
    if ids.len() > 0 {
        let front = ids.drop_last();
        lemma_inserts_are_rows(objects, front, ord, dictionary);
        lemma_last_with(objects, ids.last());
        match inserts_of(objects, front, ord, dictionary) {
            Ok(before) => {
                if let Ok(rows) = inserts_of(objects, ids, ord, dictionary) {
                    assert forall|k: int| 0 <= k < ids.len() implies has_hash(objects, ids[k])
                        && is_row_of(
                        #[trigger] rows[k],
                        last_with(objects, ids[k])->Some_0,
                        ord + k,
                        dictionary,
                    ) && rows[k].id_hash == ids[k] by {
                        if k < front.len() {
                            assert(rows[k] == before[k]);
                            assert(front[k] == ids[k]);
                        }
                    }
                } else {
                    assert(!has_hash(objects, ids[ids.len() - 1]));
                }
            },
            Err(_) => {
                let k = choose|k: int|
                    0 <= k < front.len() && !has_hash(objects, #[trigger] front[k]);
                assert(!has_hash(objects, ids[k]));
            },
        }
    }
}

} // verus!
