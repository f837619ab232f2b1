//! What is imported comes back when it is exported.

use vstd::prelude::*;

use crate::bank::{
    first_objects, hirc_index, holds_objects, main_objects, with_objects, ObjectData,
    SectionContent, SectionData,
};
use crate::error::StorageFault;
use crate::rows::{bank_legible, section_legible};
use crate::seqs::{first_where, lemma_first_where, lemma_first_where_points};
use crate::storage::{
    export_fits, exported, ids_rise, unmarked, upgraded, upgraded_objects, well_packed,
};
use crate::wems::{
    bank_alignment, extracted, fits, has_no_audio, header_index, ids_ascend, is_audio, is_header,
    lemma_no_audio_stays, lemma_rebuilt_extracts, lemma_sorted_stay, with_audio, without_audio,
};

verus! {

proof fn lemma_without_audio_legible(bank: Seq<SectionData>)
    requires
        bank_legible(bank),
    ensures
        bank_legible(without_audio(bank)),
    decreases bank.len(),
{
    if bank.len() > 0 {
        let front = bank.drop_last();
        assert forall|i: int| 0 <= i < front.len() implies section_legible(#[trigger] front[i]) by {
            assert(section_legible(bank[i]));
        }
        lemma_without_audio_legible(front);
        assert(section_legible(bank[bank.len() - 1]));
    }
}

/// Magic numbers and trees stay what they are when objects change and audio is dropped.
pub proof fn lemma_import_legible(bank: Seq<SectionData>, objects: Seq<ObjectData>)
    requires
        bank_legible(bank),
    ensures
        bank_legible(without_audio(with_objects(bank, objects))),
{
    let after = with_objects(bank, objects);
    lemma_first_where_points(bank, holds_objects());
    assert forall|i: int| 0 <= i < after.len() implies section_legible(#[trigger] after[i]) by {
        assert(section_legible(bank[i]));
    }
    lemma_without_audio_legible(after);
}

/// Other objects in a bank with one more section.
proof fn lemma_with_objects_push(
    bank: Seq<SectionData>,
    section: SectionData,
    objects: Seq<ObjectData>,
)
    ensures
        first_objects(bank) is Some ==> with_objects(bank.push(section), objects) == with_objects(
            bank,
            objects,
        ).push(section),
        first_objects(bank) is None && section.body is HIRC ==> with_objects(
            bank.push(section),
            objects,
        ) == bank.push(
            SectionData { magic: section.magic, body: SectionContent::HIRC(objects) },
        ),
        first_objects(bank) is None && !(section.body is HIRC) ==> with_objects(
            bank.push(section),
            objects,
        ) == bank.push(section),
        first_objects(bank) is None ==> with_objects(bank, objects) == bank,
        first_objects(bank.push(section)) is Some == (first_objects(bank) is Some
            || section.body is HIRC),
{
    let p = holds_objects();
    let h = hirc_index(bank);
    let longer = bank.push(section);
    lemma_first_where_points(bank, p);
    assert forall|k: int| 0 <= k < h implies !p(#[trigger] longer[k]) by {
        assert(longer[k] == bank[k]);
    }
    if h < bank.len() {
        assert(longer[h] == bank[h]);
        lemma_first_where(longer, p, h);
        assert(with_objects(longer, objects) =~= with_objects(bank, objects).push(section));
    } else if section.body is HIRC {
        assert(longer[h] == section);
        lemma_first_where(longer, p, h);
        assert(with_objects(longer, objects) =~= bank.push(
            SectionData { magic: section.magic, body: SectionContent::HIRC(objects) },
        ));
    } else {
        assert(longer[h] == section);
        lemma_first_where(longer, p, h + 1);
    }
}

/// Audio is dropped in front of or behind a change of the objects.
proof fn lemma_without_audio_with_objects(bank: Seq<SectionData>, objects: Seq<ObjectData>)
    ensures
        without_audio(with_objects(bank, objects)) == with_objects(without_audio(bank), objects),
        first_objects(without_audio(bank)) is Some == (first_objects(bank) is Some),
    decreases bank.len(),
{
    lemma_first_where_points(bank, holds_objects());
    if bank.len() > 0 {
        let front = bank.drop_last();
        let last = bank.last();
        assert(bank =~= front.push(last));
        lemma_without_audio_with_objects(front, objects);
        lemma_with_objects_push(front, last, objects);
        lemma_with_objects_push(without_audio(front), last, objects);
        let after = with_objects(bank, objects);
        let changed = SectionData { magic: last.magic, body: SectionContent::HIRC(objects) };
        if first_objects(front) is Some {
            assert(after.drop_last() =~= with_objects(front, objects));
        } else {
            assert(after.drop_last() =~= front);
            assert(after.last() == (if last.body is HIRC {
                changed
            } else {
                last
            }));
        }
    } else {
        assert(with_objects(bank, objects) =~= bank);
        lemma_first_where_points(without_audio(bank), holds_objects());
    }
}

/// Magic numbers of audio are dropped in front of or behind a change of the objects.
proof fn lemma_unmarked_with_objects(bank: Seq<SectionData>, objects: Seq<ObjectData>)
    ensures
        unmarked(with_objects(bank, objects)) == with_objects(unmarked(bank), objects),
{
    let p = holds_objects();
    let h = hirc_index(bank);
    let bare = unmarked(bank);
    lemma_first_where_points(bank, p);
    assert forall|k: int| 0 <= k < h implies !p(#[trigger] bare[k]) by {
        assert(!p(bank[k]));
    }
    if h < bank.len() {
        assert(p(bare[h]));
    }
    lemma_first_where(bare, p, h);
    assert(unmarked(with_objects(bank, objects)) =~= with_objects(bare, objects));
}

/// The header stays where it is and as it is when the objects change.
proof fn lemma_header_with_objects(bank: Seq<SectionData>, objects: Seq<ObjectData>)
    ensures
        header_index(with_objects(bank, objects)) == header_index(bank),
        bank_alignment(with_objects(bank, objects)) == bank_alignment(bank),
{
    let p = is_header();
    let after = with_objects(bank, objects);
    let h = header_index(bank);
    lemma_first_where_points(bank, p);
    lemma_first_where_points(bank, holds_objects());
    assert forall|k: int| 0 <= k < bank.len() implies p(#[trigger] after[k]) == p(bank[k]) by {}
    assert forall|k: int| 0 <= k < h implies !p(#[trigger] after[k]) by {
        assert(!p(bank[k]));
    }
    if h < bank.len() {
        assert(p(bank[h]));
        assert(p(after[h]));
    }
    lemma_first_where(after, p, h);
}

/// Audio is put in in front of or behind a change of the objects.
proof fn lemma_with_audio_with_objects(
    bank: Seq<SectionData>,
    objects: Seq<ObjectData>,
    wems: Seq<(u32, Seq<u8>)>,
    alignment: u32,
)
    requires
        header_index(bank) < bank.len(),
    ensures
        with_audio(with_objects(bank, objects), wems, alignment) == with_objects(
            with_audio(bank, wems, alignment),
            objects,
        ),
{
    let p = holds_objects();
    let at = header_index(bank);
    let h = hirc_index(bank);
    let full = with_audio(bank, wems, alignment);
    lemma_header_with_objects(bank, objects);
    lemma_first_where_points(bank, p);
    lemma_first_where_points(bank, is_header());
    assert(is_header()(bank[at]));
    let place = if h <= at {
        h
    } else {
        h + 2
    };
    assert forall|k: int| 0 <= k < place implies !p(#[trigger] full[k]) by {
        if k <= at {
            assert(full[k] == bank[k]);
        } else if k > at + 2 {
            assert(full[k] == bank[k - 2]);
        }
    }
    if h < bank.len() {
        assert(p(bank[h]));
        assert(h != at);
        assert(full[place] == bank[h]);
        lemma_first_where(full, p, place);
        assert(with_audio(with_objects(bank, objects), wems, alignment) =~= with_objects(
            full,
            objects,
        ));
    } else {
        lemma_first_where(full, p, place);
    }
}

/// A bank whose audio is packed as exports pack it is exported as it was.
pub proof fn lemma_packed_comes_back(bank: Seq<SectionData>, dictionary: Map<u32, Seq<char>>)
    requires
        well_packed(bank),
    ensures
        export_fits(without_audio(upgraded(bank, dictionary)), extracted(bank)),
        exported(without_audio(upgraded(bank, dictionary)), extracted(bank)) == Ok::<
            Seq<SectionData>,
            StorageFault,
        >(unmarked(upgraded(bank, dictionary))),
{
    let objects = upgraded_objects(main_objects(bank), dictionary);
    let plain = without_audio(bank);
    let wems = extracted(bank);
    let alignment = bank_alignment(plain)->Some_0;
    lemma_without_audio_with_objects(bank, objects);
    lemma_unmarked_with_objects(bank, objects);
    lemma_header_with_objects(plain, objects);
    lemma_first_where_points(plain, is_header());
    lemma_with_audio_with_objects(plain, objects, wems, alignment);
    assert(ids_ascend(wems));
    lemma_sorted_stay(wems);
}

/// A bank without audio is exported as it was.
pub proof fn lemma_silent_comes_back(bank: Seq<SectionData>, dictionary: Map<u32, Seq<char>>)
    requires
        has_no_audio(bank),
    ensures
        export_fits(without_audio(upgraded(bank, dictionary)), extracted(bank)),
        exported(without_audio(upgraded(bank, dictionary)), extracted(bank)) == Ok::<
            Seq<SectionData>,
            StorageFault,
        >(unmarked(upgraded(bank, dictionary))),
{
    let objects = upgraded_objects(main_objects(bank), dictionary);
    let named = upgraded(bank, dictionary);
    lemma_first_where_points(bank, holds_objects());
    lemma_first_where_points(bank, crate::wems::is_index());
    assert forall|k: int| 0 <= k < named.len() implies !is_audio(#[trigger] named[k]) by {
        assert(!is_audio(bank[k]));
    }
    lemma_no_audio_stays(named);
    let i = first_where(bank, crate::wems::is_index());
    if i < bank.len() {
        assert(!is_audio(bank[i]));
    }
    assert(unmarked(named) =~= named);
}

/// What is exported is packed as exports pack it: so it comes back from an import of it.
pub proof fn lemma_exported_is_packed(
    bank: Seq<SectionData>,
    wems: Seq<(u32, Seq<u8>)>,
    alignment: u32,
)
    requires
        has_no_audio(bank),
        bank_alignment(bank) == Some(alignment),
        wems.len() > 0,
        ids_rise(wems),
        fits(wems, alignment),
    ensures
        exported(bank, wems) == Ok::<Seq<SectionData>, StorageFault>(
            with_audio(bank, wems, alignment),
        ),
        well_packed(with_audio(bank, wems, alignment)),
        extracted(with_audio(bank, wems, alignment)) == wems,
{
    let full = with_audio(bank, wems, alignment);
    assert(ids_ascend(wems));
    lemma_sorted_stay(wems);
    lemma_rebuilt_extracts(bank, wems, alignment);
    lemma_first_where_points(bank, is_header());
    let at = header_index(bank);
    assert forall|k: int| 0 <= k < full.len() implies unmarked(full)[k] == #[trigger] full[k] by {
        if k <= at {
            assert(!is_audio(bank[k]));
        } else if k > at + 2 {
            assert(full[k] == bank[k - 2]);
            assert(!is_audio(bank[k - 2]));
        }
    }
    assert(unmarked(full) =~= full);
}

} // verus!
