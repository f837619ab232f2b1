//! Which objects and which audio a bank has, and which sections trees stand for.

use vstd::prelude::*;
use vstd::utf8::encode_utf8;

use crate::bank::{
    all_objects, first_objects, hirc_index, holds_objects, main_objects, object_in, objects_in,
    objects_in_trees, section_in, ObjectData, SectionContent, SectionData,
};
use crate::body::body_in;
use crate::error::StorageFault;
use crate::graph::label_text;
use crate::ids::{id_hash, id_name, IdView};
use crate::json::{at, member, named, u32_at, JsonView};
use crate::json_text::{
    all_keys_distinct, all_numbers_plain, distinct_keys, parsed_json, printable, storable,
};
use crate::rows::{
    bank_printable, bank_read, columns_fit, holds, is_audio_row, is_audio_tree, magic_in,
    objects_read, section_printable, section_read, selected, SectionRowData, StoredSectionData,
};
use crate::seqs::{lemma_first_where, lemma_first_where_points};
use crate::session::hashes;
use crate::storage::{
    comes_back, exported, loaded_number, loaded_optional, stored_number, unmarked, wem_rows,
    wems_read,
};
use crate::wems::{audio_in_range, bank_alignment, is_data, is_header, is_index};

verus! {

// ---------------------------------------------------------------------------
// Objects of a bank
// ---------------------------------------------------------------------------
/// The main objects of a bank are those of its first section with objects.
pub proof fn lemma_main_objects(bank: Seq<SectionData>, h: int)
    requires
        0 <= h < bank.len(),
        bank[h].body is HIRC,
        forall|k: int| 0 <= k < h ==> !((#[trigger] bank[k]).body is HIRC),
    ensures
        hirc_index(bank) == h,
        first_objects(bank) == Some(bank[h].body->HIRC_0),
        main_objects(bank) == bank[h].body->HIRC_0,
{
    assert(holds_objects()(bank[h]));
    assert forall|k: int| 0 <= k < h implies !holds_objects()(#[trigger] bank[k]) by {}
    lemma_first_where(bank, holds_objects(), h);
}

/// A bank without a section with objects has no main objects.
pub proof fn lemma_no_main_objects(bank: Seq<SectionData>)
    requires
        forall|k: int| 0 <= k < bank.len() ==> !((#[trigger] bank[k]).body is HIRC),
    ensures
        hirc_index(bank) == bank.len(),
        first_objects(bank) is None,
        main_objects(bank).len() == 0,
{
    assert forall|k: int| 0 <= k < bank.len() implies !holds_objects()(#[trigger] bank[k]) by {}
    lemma_first_where(bank, holds_objects(), bank.len() as int);
}

/// All objects of a bank are those of its sections with objects, one section after the other.
pub proof fn lemma_all_objects(bank: Seq<SectionData>)
    ensures
        all_objects(bank) == bank.map_values(
            |s: SectionData|
                match s.body {
                    SectionContent::HIRC(objects) => objects,
                    _ => Seq::<ObjectData>::empty(),
                },
        ).flatten(),
    decreases bank.len(),
{
    let of = |s: SectionData|
        match s.body {
            SectionContent::HIRC(objects) => objects,
            _ => Seq::<ObjectData>::empty(),
        };
    let parts = bank.map_values(of);
    if bank.len() > 0 {
        let front = bank.drop_last();
        lemma_all_objects(front);
        let before = front.map_values(of);
        assert(parts =~= before.push(of(bank.last())));
        before.lemma_flatten_push(of(bank.last()));
        assert(all_objects(bank) == all_objects(front) + of(bank.last()));
    } else {
        assert(parts =~= Seq::<Seq<ObjectData>>::empty());
        assert(all_objects(bank) =~= Seq::<ObjectData>::empty());
    }
}

/// The hashes of objects are those of their ids, in order.
pub proof fn lemma_hashes(objects: Seq<ObjectData>)
    ensures
        hashes(objects).len() == objects.len(),
        forall|k: int| 0 <= k < objects.len() ==> #[trigger] hashes(objects)[k] == id_hash(
            objects[k].id,
        ),
{
}

/// An object is labelled by its name; one that is known by its hash only, by a dash.
pub proof fn lemma_label(id: IdView)
    ensures
        match id {
            IdView::Name(name) => id_name(id) == Some(name) && label_text(id) == name,
            IdView::Hash(_) => id_name(id) is None && label_text(id) == "—"@,
        },
{
}

/// Without a header a bank asks for no alignment.
pub proof fn lemma_no_alignment(bank: Seq<SectionData>)
    requires
        forall|k: int| 0 <= k < bank.len() ==> !((#[trigger] bank[k]).body is BKHD),
    ensures
        bank_alignment(bank) is None,
{
    assert forall|k: int| 0 <= k < bank.len() implies !is_header()(#[trigger] bank[k]) by {}
    lemma_first_where(bank, is_header(), bank.len() as int);
}

// ---------------------------------------------------------------------------
// Trees
// ---------------------------------------------------------------------------
/// A member is what stands under its name, where that name comes first; there is none where the
/// name does not come, nor in anything but an object.
pub proof fn lemma_member_is_found(v: JsonView, key: Seq<char>)
    ensures
        match member(v, key) {
            Some(inner) => v is Object && exists|i: int|
                0 <= i < v->Object_0.len() && #[trigger] v->Object_0[i] == (key, inner) && forall|
                    k: int,
                |
                    0 <= k < i ==> (#[trigger] v->Object_0[k]).0 != key,
            None => v is Object ==> forall|k: int|
                0 <= k < v->Object_0.len() ==> (#[trigger] v->Object_0[k]).0 != key,
        },
{
    if let JsonView::Object(members) = v {
        lemma_first_where_points(members, named(key));
        let i = crate::seqs::first_where(members, named(key));
        if i < members.len() {
            assert(named(key)(members[i]));
            assert(members[i] == (key, members[i].1));
            assert forall|k: int| 0 <= k < i implies (#[trigger] members[k]).0 != key by {
                assert(!named(key)(members[k]));
            }
        } else {
            assert forall|k: int| 0 <= k < members.len() implies (#[trigger] members[k]).0
                != key by {
                assert(!named(key)(members[k]));
            }
        }
    }
}

/// Does the tree name the id?
pub open spec fn names_id(tree: JsonView, id: IdView) -> bool {
    match id {
        IdView::Name(name) => tree == JsonView::Object(seq![("String"@, JsonView::Str(name))]),
        IdView::Hash(hash) => tree == JsonView::Object(
            seq![("Hash"@, JsonView::Unsigned(hash as u64))],
        ),
    }
}

/// Does the tree stand for the object?
pub open spec fn names_object(tree: JsonView, o: ObjectData) -> bool {
    match (member(tree, "id"@), member(tree, "body"@)) {
        (Some(id), Some(body)) => names_id(id, o.id) && body_in(body) == Some(o.body),
        _ => false,
    }
}

/// The tree stands for the object that is read from it, and for no other; where none is read it
/// stands for none.
pub proof fn lemma_object_in(tree: JsonView, o: ObjectData)
    ensures
        (object_in(tree) == Some(o)) == names_object(tree, o),
{
    reveal_strlit("String");
    reveal_strlit("Hash");
    assert("String"@.len() == 6 && "Hash"@.len() == 4);
    if let Some(JsonView::Object(members)) = member(tree, "id"@) {
        if members.len() == 1 {
            assert(members =~= seq![(members[0].0, members[0].1)]);
        }
        if names_object(tree, o) {
            match o.id {
                IdView::Name(name) => {
                    assert(members == seq![("String"@, JsonView::Str(name))]);
                    assert(members[0] == ("String"@, JsonView::Str(name)));
                },
                IdView::Hash(hash) => {
                    assert(members == seq![("Hash"@, JsonView::Unsigned(hash as u64))]);
                    assert(members[0] == ("Hash"@, JsonView::Unsigned(hash as u64)));
                },
            }
        }
    }
}

/// The objects in trees are read one by one, in order, and only if each can be.
pub proof fn lemma_objects_in_trees(trees: Seq<JsonView>)
    ensures
        match objects_in_trees(trees) {
            Some(objects) => objects.len() == trees.len() && forall|k: int|
                0 <= k < trees.len() ==> names_object(trees[k], #[trigger] objects[k]),
            None => exists|k: int| 0 <= k < trees.len() && object_in(#[trigger] trees[k]) is None,
        },
    decreases trees.len(),
{
    if trees.len() > 0 {
        let front = trees.drop_last();
        lemma_objects_in_trees(front);
        match objects_in_trees(front) {
            Some(before) => {
                if let Some(objects) = objects_in_trees(trees) {
                    assert forall|k: int| 0 <= k < trees.len() implies names_object(
                        trees[k],
                        #[trigger] objects[k],
                    ) by {
                        if k < front.len() {
                            assert(front[k] == trees[k]);
                            assert(objects[k] == before[k]);
                        } else {
                            lemma_object_in(trees[k], objects[k]);
                        }
                    }
                } else {
                    assert(object_in(trees[trees.len() - 1]) is None);
                }
            },
            None => {
                let k = choose|k: int|
                    0 <= k < front.len() && object_in(#[trigger] front[k]) is None;
                assert(trees[k] == front[k]);
            },
        }
    }
}

/// Does the tree stand for a section, under that name and with that content?
pub open spec fn holds_section(name: Seq<char>, v: JsonView, body: SectionContent) -> bool {
    match body {
        SectionContent::BKHD(header) => name == "BKHD"@ && header == v && u32_at(
            v,
            seq!["wem_alignment"@],
        ) is Some,
        SectionContent::HIRC(objects) => name == "HIRC"@ && (member(v, "objects"@) matches Some(
            JsonView::Array(trees),
        ) && objects_in_trees(trees) == Some(objects)),
        SectionContent::DIDX(_) => false,
        SectionContent::DATA(_) => false,
        SectionContent::Other(tree) => name != "BKHD"@ && name != "HIRC"@ && name != "DIDX"@ && name
            != "DATA"@ && tree == JsonView::Object(seq![(name, v)]),
    }
}

/// A tree that can be stored stands for a section if its only member is named like one. A header
/// must tell its alignment and a section with objects must hold objects; what has any other name
/// is kept as it is, unless that is the name of audio.
pub proof fn lemma_section_in(name: Seq<char>, v: JsonView, body: SectionContent)
    requires
        storable(JsonView::Object(seq![(name, v)])),
    ensures
        (section_in(JsonView::Object(seq![(name, v)])) == Some(body)) == holds_section(
            name,
            v,
            body,
        ),
{
    reveal_strlit("BKHD");
    reveal_strlit("HIRC");
    reveal_strlit("DIDX");
    reveal_strlit("DATA");
    assert("BKHD"@[0] == 'B' && "HIRC"@[0] == 'H' && "DIDX"@[0] == 'D' && "DATA"@[0] == 'D');
    assert("DIDX"@[1] == 'I' && "DATA"@[1] == 'A');
    let members = seq![(name, v)];
    assert(members.len() == 1 && members[0] == (name, v));
}

/// A tree with no or more than one member, or anything but an object, stands for no section.
pub proof fn lemma_no_section_in(tree: JsonView)
    requires
        tree is Object ==> tree->Object_0.len() != 1,
    ensures
        section_in(tree) is None,
        !is_audio_tree(tree),
{
}

/// Audio data is stored as text or as a list, and an index of audio as a list of ids, places and
/// lengths. No other tree stands for audio.
pub proof fn lemma_audio_tree(name: Seq<char>, v: JsonView)
    ensures
        is_audio_tree(JsonView::Object(seq![(name, v)])) == {
            ||| name == "DATA"@ && (member(v, "data"@) matches Some(JsonView::Str(_)))
            ||| name == "DATA"@ && (member(v, "data"@) matches Some(JsonView::Array(_)))
            ||| name == "DIDX"@ && (at(v, seq!["descriptors"@]) matches Some(JsonView::Array(items))
                && forall|i: int|
                0 <= i < items.len() ==> u32_at(#[trigger] items[i], seq!["id"@]) is Some && u32_at(
                    items[i],
                    seq!["offset"@],
                ) is Some && u32_at(items[i], seq!["size"@]) is Some)
        },
{
    reveal_strlit("DIDX");
    reveal_strlit("DATA");
    assert("DIDX"@[1] == 'I' && "DATA"@[1] == 'A');
    let members = seq![(name, v)];
    assert(members.len() == 1 && members[0] == (name, v));
    if let Some(JsonView::Array(items)) = at(v, seq!["descriptors"@]) {
        if is_audio_tree(JsonView::Object(members)) && name == "DIDX"@ {
            assert forall|i: int| 0 <= i < items.len() implies u32_at(
                #[trigger] items[i],
                seq!["id"@],
            ) is Some && u32_at(items[i], seq!["offset"@]) is Some && u32_at(
                items[i],
                seq!["size"@],
            ) is Some by {}
        }
    }
}

/// A stored section is refused exactly if its objects cannot be read, or if its text is no tree or
/// a tree that stands for no section.
pub proof fn lemma_section_is_refused(row: StoredSectionData)
    ensures
        section_read(row) is Err == match row.body_json {
            None => objects_read(row.objects) is Err,
            Some(text) => match parsed_json(text) {
                Some(tree) => section_in(tree) is None,
                None => true,
            },
        },
        is_audio_row(row) == match row.body_json {
            None => false,
            Some(text) => match parsed_json(text) {
                Some(tree) => is_audio_tree(tree),
                None => false,
            },
        },
{
}

/// The magic number of a section is the first four bytes of its text, with zeros behind a shorter
/// one.
pub proof fn lemma_magic(text: Seq<char>)
    ensures
        magic_in(text).len() == 4,
        forall|i: int|
            0 <= i < 4 && i < encode_utf8(text).len() ==> #[trigger] magic_in(text)[i]
                == encode_utf8(text)[i],
        forall|i: int|
            encode_utf8(text).len() <= i < 4 ==> #[trigger] magic_in(text)[i] == 0,
{
}

/// What stands for itself can be printed. A list can be if its items can, and an object if its
/// members can and are named differently.
pub proof fn lemma_printable(v: JsonView)
    ensures
        match v {
            JsonView::Array(items) => printable(v) == (forall|i: int|
                0 <= i < items.len() ==> printable(#[trigger] items[i])),
            JsonView::Object(members) => printable(v) == ((forall|i: int, j: int|
                0 <= i < j < members.len() ==> (#[trigger] members[i]).0 != (
                #[trigger] members[j]).0) && (forall|i: int|
                0 <= i < members.len() ==> printable((#[trigger] members[i]).1))),
            JsonView::Decimal(text) => printable(v) == (parsed_json(text) == Some(v)),
            _ => printable(v),
        },
{
    match v {
        JsonView::Array(items) => {
            if printable(v) {
                assert forall|i: int| 0 <= i < items.len() implies printable(
                    #[trigger] items[i],
                ) by {
                    assert(all_keys_distinct(items[i]) && all_numbers_plain(items[i]));
                }
            }
            if forall|i: int| 0 <= i < items.len() ==> printable(#[trigger] items[i]) {
                assert forall|i: int| 0 <= i < items.len() implies all_keys_distinct(
                    #[trigger] items[i],
                ) && all_numbers_plain(items[i]) by {
                    assert(printable(items[i]));
                }
            }
        },
        JsonView::Object(members) => {
            if printable(v) {
                assert forall|i: int| 0 <= i < members.len() implies printable(
                    (#[trigger] members[i]).1,
                ) by {
                    assert(all_keys_distinct(members[i].1) && all_numbers_plain(members[i].1));
                }
                assert(distinct_keys(members));
            }
            if (forall|i: int| 0 <= i < members.len() ==> printable((#[trigger] members[i]).1)) && (
            forall|i: int, j: int|
                0 <= i < j < members.len() ==> (#[trigger] members[i]).0 != (
                #[trigger] members[j]).0) {
                assert forall|i: int| 0 <= i < members.len() implies all_keys_distinct(
                    (#[trigger] members[i]).1,
                ) && all_numbers_plain(members[i].1) by {
                    assert(printable(members[i].1));
                }
                assert(distinct_keys(members));
            }
        },
        _ => {},
    }
}

/// A bank can be printed if every tree can be that one of its sections keeps.
pub proof fn lemma_bank_printable(bank: Seq<SectionData>)
    ensures
        bank_printable(bank) == (forall|k: int|
            0 <= k < bank.len() ==> ((#[trigger] bank[k]).body matches SectionContent::Other(tree)
                ==> printable(tree))),
{
    if forall|k: int|
        0 <= k < bank.len() ==> ((#[trigger] bank[k]).body matches SectionContent::Other(tree)
            ==> printable(tree)) {
        assert forall|k: int| 0 <= k < bank.len() implies section_printable(#[trigger] bank[k]) by {
        }
    }
    if bank_printable(bank) {
        assert forall|k: int| 0 <= k < bank.len() implies ((
        #[trigger] bank[k]).body matches SectionContent::Other(tree) ==> printable(tree)) by {
            assert(section_printable(bank[k]));
        }
    }
}

// ---------------------------------------------------------------------------
// What is stored
// ---------------------------------------------------------------------------
/// Rows that hold a bank are numbered on, as many as it has sections, and give the bank back when
/// they are read.
pub proof fn lemma_held(rows: Seq<SectionRowData>, bank: Seq<SectionData>)
    requires
        holds(rows, bank),
    ensures
        rows.len() == bank.len(),
        bank_read(selected(rows)) == Ok::<Seq<SectionData>, StorageFault>(bank),
        forall|k: int| 0 <= k < rows.len() ==> (#[trigger] rows[k]).ord == k,
        forall|k: int, j: int|
            0 <= k < rows.len() && 0 <= j < rows[k].objects.len() && bank[k].body is HIRC ==> (
            #[trigger] rows[k].objects[j]).ord == j && rows[k].objects[j].id_hash == id_hash(
                bank[k].body->HIRC_0[j].id,
            ),
        forall|k: int|
            0 <= k < rows.len() && bank[k].body is HIRC ==> (#[trigger] rows[k]).objects.len()
                == bank[k].body->HIRC_0.len(),
{
    assert forall|k: int, j: int|
        0 <= k < rows.len() && 0 <= j < rows[k].objects.len() && bank[k].body is HIRC implies (
    #[trigger] rows[k].objects[j]).ord == j && rows[k].objects[j].id_hash == id_hash(
        bank[k].body->HIRC_0[j].id,
    ) by {
        assert(rows[k].ord == k);
        assert(columns_fit(rows[k].objects, objects_in(bank[k])));
    }
    assert forall|k: int| 0 <= k < rows.len() && bank[k].body is HIRC implies (
    #[trigger] rows[k]).objects.len() == bank[k].body->HIRC_0.len() by {
        assert(columns_fit(rows[k].objects, objects_in(bank[k])));
    }
}

/// Of a row of a section everything is read that tells what the section holds.
pub proof fn lemma_selected(rows: Seq<SectionRowData>)
    ensures
        selected(rows).len() == rows.len(),
        forall|k: int|
            0 <= k < rows.len() ==> {
                let row = #[trigger] selected(rows)[k];
                &&& row.magic == rows[k].magic
                &&& row.body_json == rows[k].body_json
                &&& row.objects.len() == rows[k].objects.len()
            },
        forall|k: int, j: int|
            0 <= k < rows.len() && 0 <= j < rows[k].objects.len() ==> (
            #[trigger] selected(rows)[k].objects[j]) == rows[k].objects[j].stored,
{
}

/// A bank that comes back is what the rows and the audio files give when they are read and
/// exported.
pub proof fn lemma_comes_back(
    rows: Seq<SectionRowData>,
    wems: Seq<(i64, Seq<u8>)>,
    bank: Seq<SectionData>,
)
    requires
        comes_back(rows, wems, bank),
    ensures
        bank_read(selected(rows)) is Ok,
        exported(bank_read(selected(rows))->Ok_0, wems_read(wems)) == Ok::<
            Seq<SectionData>,
            StorageFault,
        >(bank),
{
}

/// Without the marks of audio a bank has the same sections, and the same marks on all others.
pub proof fn lemma_unmarked(bank: Seq<SectionData>)
    ensures
        unmarked(bank).len() == bank.len(),
        forall|k: int|
            0 <= k < bank.len() ==> (#[trigger] unmarked(bank)[k]).body == bank[k].body && (!(
            bank[k].body is DIDX) && !(bank[k].body is DATA) ==> unmarked(bank)[k].magic
                == bank[k].magic),
{
}

/// The audio of a bank is in range if every file that its first index lists lies within its first
/// data.
pub proof fn lemma_in_range(bank: Seq<SectionData>, i: int, d: int)
    requires
        0 <= i < bank.len(),
        0 <= d < bank.len(),
        bank[i].body is DIDX,
        bank[d].body is DATA,
        forall|k: int| 0 <= k < i ==> !((#[trigger] bank[k]).body is DIDX),
        forall|k: int| 0 <= k < d ==> !((#[trigger] bank[k]).body is DATA),
    ensures
        audio_in_range(bank) == (forall|k: int|
            0 <= k < bank[i].body->DIDX_0.len() ==> (#[trigger] bank[i].body->DIDX_0[k]).offset
                + bank[i].body->DIDX_0[k].size <= bank[d].body->DATA_0.len()),
{
    assert forall|k: int| 0 <= k < i implies !is_index()(#[trigger] bank[k]) by {}
    assert forall|k: int| 0 <= k < d implies !is_data()(#[trigger] bank[k]) by {}
    assert(is_index()(bank[i]));
    assert(is_data()(bank[d]));
    lemma_first_where(bank, is_index(), i);
    lemma_first_where(bank, is_data(), d);
}

/// Where a bank has no index of audio, or no audio data, nothing is out of range.
pub proof fn lemma_nothing_out_of_range(bank: Seq<SectionData>)
    requires
        (forall|k: int| 0 <= k < bank.len() ==> !((#[trigger] bank[k]).body is DIDX)) || (forall|
            k: int,
        |
            0 <= k < bank.len() ==> !((#[trigger] bank[k]).body is DATA)),
    ensures
        audio_in_range(bank),
{
    lemma_first_where_points(bank, is_index());
    lemma_first_where_points(bank, is_data());
    let i = crate::seqs::first_where(bank, is_index());
    let d = crate::seqs::first_where(bank, is_data());
    if i < bank.len() && d < bank.len() {
        assert(is_index()(bank[i]) && is_data()(bank[d]));
        assert(bank[i].body is DIDX && bank[d].body is DATA);
    }
}

// ---------------------------------------------------------------------------
// Numbers of the database
// ---------------------------------------------------------------------------
/// An id is stored as the same number, and a number that is an id is loaded as that id.
pub proof fn lemma_same_number(id: u32, n: i64)
    requires
        n == id,
    ensures
        stored_number(id) == n,
        loaded_number(n) == id,
        loaded_optional(Some(n)) == Some(id),
        loaded_optional(None) is None,
{
}

/// Audio files are stored in order, each under its id with its bytes.
pub proof fn lemma_files_are_stored(wems: Seq<(u32, Seq<u8>)>)
    ensures
        wem_rows(wems).len() == wems.len(),
        forall|k: int|
            0 <= k < wems.len() ==> (#[trigger] wem_rows(wems)[k]).0 == wems[k].0
                && wem_rows(wems)[k].1 == wems[k].1,
        wems_read(wem_rows(wems)) == wems,
{
    crate::storage::lemma_wems_read_back(wems);
}

} // verus!
