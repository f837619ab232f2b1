//! Where audio files lie in a bank, and how sections are read from their rows.

use vstd::prelude::*;

use crate::bank::{section_in, SectionContent, SectionData};
use crate::error::StorageFault;
use crate::ids::IdView;
use crate::json::u32_at;
use crate::json_text::parsed_json;
use crate::rows::{
    bank_read, is_audio_row, magic_in, objects_read, section_read, stored_body, stored_id,
    StoredObjectData, StoredSectionData,
};
use crate::seqs::{lemma_first_where, lemma_first_where_points};
use crate::storage::exported;
use crate::text::number_in;
use crate::wems::{
    bank_alignment, data_before, descriptor, extracted, files_of, fits, is_data, is_header,
    is_index, lemma_packed, lemma_sorted_by_id, packed_data, packed_index, padded, sorted_by_id,
    with_audio, zeros,
};

verus! {

// ---------------------------------------------------------------------------
// Packing
// ---------------------------------------------------------------------------
/// The index has one entry for each file, in order, with its id, its place and its length.
pub proof fn lemma_index_lists_files(wems: Seq<(u32, Seq<u8>)>, alignment: u32)
    requires
        fits(wems, alignment),
    ensures
        ({
            let index = packed_index(wems, alignment);
            let data = packed_data(wems, alignment);
            &&& index.len() == wems.len()
            &&& forall|k: int|
                0 <= k < wems.len() ==> {
                    let d = #[trigger] index[k];
                    &&& d.id == wems[k].0
                    &&& d.size == wems[k].1.len()
                    &&& d.offset + d.size <= data.len()
                    &&& data.subrange(d.offset as int, d.offset + d.size) == wems[k].1
                    &&& d.offset & ((alignment - 1) as u32) == 0
                }
        }),
{
    let index = packed_index(wems, alignment);
    let data = packed_data(wems, alignment);
    assert forall|k: int| 0 <= k < wems.len() implies {
        let d = #[trigger] index[k];
        &&& d.id == wems[k].0
        &&& d.size == wems[k].1.len()
        &&& d.offset + d.size <= data.len()
        &&& data.subrange(d.offset as int, d.offset + d.size) == wems[k].1
        &&& d.offset & ((alignment - 1) as u32) == 0
    } by {
        lemma_packed(wems, alignment, k);
    }
}

proof fn lemma_prefix(wems: Seq<(u32, Seq<u8>)>, alignment: u32, i: int, j: int)
    requires
        0 <= i <= j < wems.len(),
    ensures
        data_before(wems, alignment, i).is_prefix_of(data_before(wems, alignment, j)),
    decreases j - i,
{
    if i < j {
        lemma_prefix(wems, alignment, i, j - 1);
    }
}

/// The files are packed tightly: the first starts at zero, behind each there are zeros up to the
/// next one, fewer than the alignment, and behind the last there is nothing.
pub proof fn lemma_packed_tightly(wems: Seq<(u32, Seq<u8>)>, alignment: u32)
    requires
        fits(wems, alignment),
        wems.len() > 0,
    ensures
        ({
            let index = packed_index(wems, alignment);
            let data = packed_data(wems, alignment);
            let last = index[wems.len() - 1];
            &&& index[0].offset == 0
            &&& last.offset + last.size == data.len()
            &&& forall|k: int|
                0 <= k < wems.len() - 1 ==> {
                    let end = (#[trigger] index[k]).offset + index[k].size;
                    let next = index[k + 1].offset;
                    &&& end <= next < end + alignment
                    &&& forall|p: int| end <= p < next ==> #[trigger] data[p] == 0
                }
        }),
{
    let index = packed_index(wems, alignment);
    let data = packed_data(wems, alignment);
    let n = wems.len() - 1;
    lemma_packed(wems, alignment, n);
    lemma_packed(wems, alignment, 0);
    assert(index[n] == descriptor(wems, alignment, n));
    assert(index[0] == descriptor(wems, alignment, 0));
    assert forall|k: int| 0 <= k < wems.len() - 1 implies {
        let end = (#[trigger] index[k]).offset + index[k].size;
        let next = index[k + 1].offset;
        &&& end <= next < end + alignment
        &&& forall|p: int| end <= p < next ==> #[trigger] data[p] == 0
    } by {
        lemma_packed(wems, alignment, k);
        lemma_packed(wems, alignment, k + 1);
        let before = data_before(wems, alignment, k);
        let after = data_before(wems, alignment, k + 1);
        let written = before + wems[k].1;
        assert(before.len() + wems[k].1.len() + alignment - 1 <= u32::MAX);
        crate::wems::lemma_padded(written.len() as u32, alignment);
        assert(after == written + zeros(padded(written.len() as u32, alignment) - written.len()));
        lemma_prefix(wems, alignment, k + 1, n);
        let all = data_before(wems, alignment, n);
        assert forall|p: int| written.len() <= p < after.len() implies #[trigger] data[p] == 0 by {
            assert(after[p] == 0);
            assert(all[p] == after[p]);
            assert(data[p] == all[p]);
        }
    }
}

/// How long the files are together, with as much behind each as an alignment can ask for.
pub open spec fn room_for(wems: Seq<(u32, Seq<u8>)>, alignment: u32) -> int
    decreases wems.len(),
{
    if wems.len() == 0 {
        0
    } else {
        room_for(wems.drop_last(), alignment) + wems.last().1.len() + alignment
    }
}

proof fn lemma_room(wems: Seq<(u32, Seq<u8>)>, alignment: u32, k: int)
    requires
        0 <= k <= wems.len(),
    ensures
        0 <= room_for(wems.take(k), alignment) <= room_for(wems, alignment),
    decreases wems.len() - k,
{
    if k < wems.len() {
        lemma_room(wems, alignment, k + 1);
        assert(wems.take(k + 1).drop_last() =~= wems.take(k));
        lemma_room_positive(wems.take(k), alignment);
    } else {
        assert(wems.take(k) =~= wems);
        lemma_room_positive(wems, alignment);
    }
}

proof fn lemma_room_positive(wems: Seq<(u32, Seq<u8>)>, alignment: u32)
    ensures
        room_for(wems, alignment) >= 0,
    decreases wems.len(),
{
    if wems.len() > 0 {
        lemma_room_positive(wems.drop_last(), alignment);
    }
}

proof fn lemma_room_taken(wems: Seq<(u32, Seq<u8>)>, alignment: u32, k: int)
    requires
        0 <= k <= wems.len(),
        alignment > 0,
        room_for(wems, alignment) <= u32::MAX,
    ensures
        data_before(wems, alignment, k).len() <= room_for(wems.take(k), alignment),
    decreases k,
{
    if k > 0 {
        lemma_room_taken(wems, alignment, k - 1);
        assert(wems.take(k).drop_last() =~= wems.take(k - 1));
        assert(wems.take(k).last() == wems[k - 1]);
        lemma_room(wems, alignment, k);
        let written = data_before(wems, alignment, k - 1) + wems[k - 1].1;
        crate::wems::lemma_padded(written.len() as u32, alignment);
    }
}

/// Files can be packed wherever there is room for all of them and for what an alignment can ask
/// for.
pub proof fn lemma_files_fit(wems: Seq<(u32, Seq<u8>)>, alignment: u32)
    requires
        alignment > 0,
        room_for(wems, alignment) <= u32::MAX,
    ensures
        fits(wems, alignment),
{
    assert forall|k: int| 0 <= k < wems.len() implies #[trigger] data_before(
        wems,
        alignment,
        k,
    ).len() + wems[k].1.len() + alignment - 1 <= u32::MAX by {
        lemma_room_taken(wems, alignment, k);
        lemma_room(wems, alignment, k + 1);
        assert(wems.take(k + 1).drop_last() =~= wems.take(k));
        assert(wems.take(k + 1).last() == wems[k]);
    }
}

/// Audio goes right behind the first header, index first; all other sections keep their order.
pub proof fn lemma_audio_goes_behind_header(
    bank: Seq<SectionData>,
    wems: Seq<(u32, Seq<u8>)>,
    alignment: u32,
    h: int,
)
    requires
        0 <= h < bank.len(),
        bank[h].body is BKHD,
        forall|k: int| 0 <= k < h ==> !((#[trigger] bank[k]).body is BKHD),
    ensures
        ({
            let after = with_audio(bank, wems, alignment);
            &&& after.len() == bank.len() + 2
            &&& after[h + 1].body == SectionContent::DIDX(packed_index(wems, alignment))
            &&& after[h + 2].body == SectionContent::DATA(packed_data(wems, alignment))
            &&& after[h + 1].magic == seq![0u8, 0u8, 0u8, 0u8]
            &&& after[h + 2].magic == seq![0u8, 0u8, 0u8, 0u8]
            &&& forall|k: int| 0 <= k <= h ==> #[trigger] after[k] == bank[k]
            &&& forall|k: int| h < k < bank.len() ==> after[k + 2] == #[trigger] bank[k]
            &&& bank_alignment(bank) == u32_at(bank[h].body->BKHD_0, seq!["wem_alignment"@])
        }),
{
    assert forall|k: int| 0 <= k < h implies !is_header()(#[trigger] bank[k]) by {}
    assert(is_header()(bank[h]));
    lemma_first_where(bank, is_header(), h);
    let after = with_audio(bank, wems, alignment);
    assert forall|k: int| h < k < bank.len() implies after[k + 2] == #[trigger] bank[k] by {}
}

/// A bank is exported as it is if it has no audio files. With some, they are put behind its header
/// in the order of their ids, at the alignment that the header asks for; without a header that is
/// refused.
pub proof fn lemma_export_packs_by_id(bank: Seq<SectionData>, wems: Seq<(u32, Seq<u8>)>)
    ensures
        wems.len() == 0 ==> exported(bank, wems) == Ok::<Seq<SectionData>, StorageFault>(bank),
        wems.len() > 0 ==> match exported(bank, wems) {
            Ok(after) => {
                &&& bank_alignment(bank) is Some
                &&& exists|order: Seq<(u32, Seq<u8>)>|
                    {
                        &&& after == #[trigger] with_audio(
                            bank,
                            order,
                            bank_alignment(bank)->Some_0,
                        )
                        &&& order.len() == wems.len()
                        &&& forall|i: int, j: int|
                            0 <= i <= j < order.len() ==> order[i].0 <= order[j].0
                        &&& forall|id: u32| files_of(order, id) == #[trigger] files_of(wems, id)
                    }
            },
            Err(e) => e == StorageFault::MissingBkhd && bank_alignment(bank) is None,
        },
{
    lemma_sorted_by_id(wems);
    if wems.len() > 0 {
        if let Some(alignment) = bank_alignment(bank) {
            let order = sorted_by_id(wems);
            assert(exported(bank, wems)->Ok_0 == with_audio(bank, order, alignment));
        }
    }
}

/// The files of a bank are cut out of its audio data as its index tells, by the first index and the
/// first data; a bank without either has none.
pub proof fn lemma_files_are_cut_out(bank: Seq<SectionData>, i: int, d: int)
    requires
        0 <= i < bank.len(),
        0 <= d < bank.len(),
        bank[i].body is DIDX,
        bank[d].body is DATA,
        forall|k: int| 0 <= k < i ==> !((#[trigger] bank[k]).body is DIDX),
        forall|k: int| 0 <= k < d ==> !((#[trigger] bank[k]).body is DATA),
    ensures
        ({
            let index = bank[i].body->DIDX_0;
            let data = bank[d].body->DATA_0;
            &&& extracted(bank).len() == index.len()
            &&& forall|k: int|
                0 <= k < index.len() ==> (#[trigger] extracted(bank)[k]).0 == index[k].id
                    && extracted(bank)[k].1 == data.subrange(
                    index[k].offset as int,
                    index[k].offset + index[k].size,
                )
        }),
{
    assert forall|k: int| 0 <= k < i implies !is_index()(#[trigger] bank[k]) by {}
    assert forall|k: int| 0 <= k < d implies !is_data()(#[trigger] bank[k]) by {}
    assert(is_index()(bank[i]));
    assert(is_data()(bank[d]));
    lemma_first_where(bank, is_index(), i);
    lemma_first_where(bank, is_data(), d);
}

/// A bank without an index of audio, or without audio data, has no audio files.
pub proof fn lemma_no_files(bank: Seq<SectionData>)
    requires
        (forall|k: int| 0 <= k < bank.len() ==> !((#[trigger] bank[k]).body is DIDX)) || (forall|
            k: int,
        |
            0 <= k < bank.len() ==> !((#[trigger] bank[k]).body is DATA)),
    ensures
        extracted(bank).len() == 0,
{
    lemma_first_where_points(bank, is_index());
    lemma_first_where_points(bank, is_data());
    if extracted(bank).len() > 0 {
        let i = crate::seqs::first_where(bank, is_index());
        let d = crate::seqs::first_where(bank, is_data());
        assert(is_index()(bank[i]) && is_data()(bank[d]));
        assert(bank[i].body is DIDX && bank[d].body is DATA);
    }
}

// ---------------------------------------------------------------------------
// Reading rows
// ---------------------------------------------------------------------------
/// A stored id is a name or a decimal hash, as its kind tells; any other kind, and any other hash,
/// is refused.
pub proof fn lemma_stored_id(kind: Seq<char>, value: Seq<char>)
    ensures
        match stored_id(kind, value) {
            Ok(IdView::Name(name)) => kind == "String"@ && name == value,
            Ok(IdView::Hash(hash)) => kind == "Hash"@ && number_in(value, 10) == Some(hash),
            Err(StorageFault::BadHash(text)) => kind == "Hash"@ && text == value && number_in(
                value,
                10,
            ) is None,
            Err(StorageFault::InvalidIdKind(text)) => text == kind && kind != "String"@ && kind
                != "Hash"@,
            Err(_) => false,
        },
{
}

/// Stored objects are read one by one, in order; it is refused exactly if one cannot be read.
pub proof fn lemma_objects_are_read(rows: Seq<StoredObjectData>)
    ensures
        match objects_read(rows) {
            Ok(objects) => {
                &&& objects.len() == rows.len()
                &&& forall|k: int|
                    0 <= k < rows.len() ==> {
                        &&& stored_id(rows[k].id_kind, rows[k].id_value) == Ok::<
                            IdView,
                            StorageFault,
                        >((#[trigger] objects[k]).id)
                        &&& crate::body::reads_as(rows[k].body_json, objects[k].body)
                    }
            },
            Err(e) => exists|k: int|
                0 <= k < rows.len() && (stored_id(
                    (#[trigger] rows[k]).id_kind,
                    rows[k].id_value,
                ) is Err || stored_body(rows[k].body_json) is Err),
        },
    decreases rows.len(),
{
    if rows.len() > 0 {
        let front = rows.drop_last();
        lemma_objects_are_read(front);
        match objects_read(front) {
            Ok(before) => {
                if let Ok(objects) = objects_read(rows) {
                    assert forall|k: int| 0 <= k < rows.len() implies {
                        &&& stored_id(rows[k].id_kind, rows[k].id_value) == Ok::<
                            IdView,
                            StorageFault,
                        >((#[trigger] objects[k]).id)
                        &&& crate::body::reads_as(rows[k].body_json, objects[k].body)
                    } by {
                        if k < front.len() {
                            assert(objects[k] == before[k]);
                            assert(front[k] == rows[k]);
                        }
                    }
                } else {
                    let n = rows.len() - 1;
                    assert(rows[n] == rows.last());
                }
            },
            Err(_) => {
                let k = choose|k: int|
                    0 <= k < front.len() && (stored_id(
                        (#[trigger] front[k]).id_kind,
                        front[k].id_value,
                    ) is Err || stored_body(front[k].body_json) is Err);
                assert(rows[k] == front[k]);
            },
        }
    }
}

/// A section is read with the magic number of its row. Without a text it holds the objects of its
/// rows; with one it holds what the text says.
pub proof fn lemma_section_is_read(row: StoredSectionData)
    ensures
        section_read(row) matches Ok(section) ==> {
            &&& section.magic == magic_in(row.magic)
            &&& match row.body_json {
                None => section.body is HIRC && objects_read(row.objects) == Ok::<
                    Seq<crate::bank::ObjectData>,
                    StorageFault,
                >(section.body->HIRC_0),
                Some(text) => parsed_json(text) matches Some(tree) && section_in(tree) == Some(
                    section.body,
                ),
            }
        },
{
}

/// A stored bank is read section by section, in order, but for audio that is stored as a section;
/// it is refused exactly if another row cannot be read.
pub proof fn lemma_bank_is_read(rows: Seq<StoredSectionData>)
    ensures
        ({
            let kept = rows.filter(|row: StoredSectionData| !is_audio_row(row));
            match bank_read(rows) {
                Ok(bank) => {
                    &&& bank.len() == kept.len()
                    &&& forall|k: int|
                        0 <= k < bank.len() ==> section_read(kept[k]) == Ok::<
                            SectionData,
                            StorageFault,
                        >(#[trigger] bank[k])
                },
                Err(_) => exists|k: int| 0 <= k < kept.len() && section_read(
                    #[trigger] kept[k],
                ) is Err,
            }
        }),
    decreases rows.len(),
{
    reveal(Seq::filter);
    let wanted = |row: StoredSectionData| !is_audio_row(row);
    if rows.len() > 0 {
        let front = rows.drop_last();
        lemma_bank_is_read(front);
        let before = front.filter(wanted);
        let kept = rows.filter(wanted);
        match bank_read(front) {
            Ok(sections) => {
                if !is_audio_row(rows.last()) {
                    assert(kept == before.push(rows.last()));
                    if let Ok(bank) = bank_read(rows) {
                        assert forall|k: int| 0 <= k < bank.len() implies section_read(kept[k])
                            == Ok::<SectionData, StorageFault>(#[trigger] bank[k]) by {
                            if k < before.len() {
                                assert(bank[k] == sections[k]);
                                assert(kept[k] == before[k]);
                            }
                        }
                    } else {
                        assert(section_read(kept[kept.len() - 1]) is Err);
                    }
                }
            },
            Err(_) => {
                let k = choose|k: int| 0 <= k < before.len() && section_read(
                    #[trigger] before[k],
                ) is Err;
                assert(kept[k] == before[k]);
            },
        }
    }
}

} // verus!
