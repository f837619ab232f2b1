//! Soundbanks as rows of the database, and back.

use vstd::prelude::*;
use vstd::utf8::{decode_utf8, decode_utf8_encode_utf8, encode_utf8, valid_utf8};

use crate::bank::{
    header_fits, header_tree, objects_in, objects_view, section_in, section_tree, HIRCObject, HIRCSection,
    ObjectData, Section, SectionBody, SectionContent, SectionData, Soundbank,
};
use crate::body::{
    body_in, body_tree, collect_id_in_each, each_has_id, find_list, has_list, list_at, direct_parent, lemma_body_in_tree, override_bus, well_formed,
    HIRCObjectBody,
};
use crate::error::{StorageError, StorageFault};
use crate::ids::{
    dictionary_view, id_hash, look_up, name_in, text_view, FNVDictionary, IdView, ObjectId,
};
use crate::json::{member, path_view, Json, JsonView};
use crate::json_text::{parsed_json, printable, printed_json, storable, JsonError};
use crate::kind::{kind_name, kind_number};
use crate::text::{chars_of, decimal, decimal_text, lemma_decimal_reads_back, number_in, parse_number};
use crate::wems::{has_no_audio, is_audio, without_audio};

verus! {

// ---------------------------------------------------------------------------
// Magic numbers
// ---------------------------------------------------------------------------
/// What `String::from_utf8_lossy` makes of bytes.
pub uninterp spec fn lossy_text(bytes: Seq<u8>) -> Seq<char>;

/// `String::from_utf8_lossy` of the four bytes. Bytes that are UTF-8 give the text that they
/// encode; what stands in for other bytes is named and not said here.
#[verifier::external_body]
pub(crate) fn magic_to_string(magic: &[u8; 4]) -> (r: String)
    ensures
        r@ == lossy_text(magic@),
        valid_utf8(magic@) ==> r@ == decode_utf8(magic@),
{
    String::from_utf8_lossy(magic).into_owned()
}

/// The first four bytes of a text, filled up with zeros.
pub open spec fn magic_in(text: Seq<char>) -> Seq<u8> {
    let bytes = encode_utf8(text);
    Seq::new(
        4,
        |i: int|
            if i < bytes.len() {
                bytes[i]
            } else {
                0
            },
    )
}

/// The byte at a position, or zero behind the end.
fn byte_or_zero(bytes: &[u8], i: usize) -> (r: u8)
    ensures
        r == (if i < bytes@.len() {
            bytes@[i as int]
        } else {
            0
        }),
{
    if i < bytes.len() {
        bytes[i]
    } else {
        0
    }
}

/// The first four bytes of a text, filled up with zeros.
pub fn string_to_magic(s: &str) -> (r: [u8; 4])
    ensures
        r@ == magic_in(s@),
{
    let bytes = s.as_bytes();
    let r: [u8; 4] = [
        byte_or_zero(bytes, 0),
        byte_or_zero(bytes, 1),
        byte_or_zero(bytes, 2),
        byte_or_zero(bytes, 3),
    ];
    assert(r@ =~= magic_in(s@));
    r
}

/// Four bytes that are UTF-8 are read back from their text.
pub proof fn lemma_magic_reads_back(magic: Seq<u8>)
    requires
        magic.len() == 4,
        valid_utf8(magic),
    ensures
        magic_in(decode_utf8(magic)) == magic,
{
    decode_utf8_encode_utf8(magic);
    assert(magic_in(decode_utf8(magic)) =~= magic);
}

// ---------------------------------------------------------------------------
// Rows
// ---------------------------------------------------------------------------
/// What is read of an object's row.
#[derive(Debug)]
pub struct StoredObject {
    pub id_kind: String,
    pub id_value: String,
    pub body_json: String,
}

/// The row of an object.
#[derive(Debug)]
pub struct HircRow {
    pub ord: usize,
    pub stored: StoredObject,
    pub id_hash: u32,
    pub label: Option<String>,
    pub body_kind: &'static str,
    pub body_type: u8,
    pub direct_parent: Option<u32>,
    pub override_bus: Option<u32>,
}

/// The row of a section, with the rows of its objects. A section without a body of its own is
/// one of objects.
#[derive(Debug)]
pub struct SectionRow {
    pub ord: usize,
    pub magic: String,
    pub body_json: Option<String>,
    pub objects: Vec<HircRow>,
}

/// What is read of a section's row, with what is read of the rows of its objects.
#[derive(Debug)]
pub struct StoredSection {
    pub magic: String,
    pub body_json: Option<String>,
    pub objects: Vec<StoredObject>,
}

/// What is read of an object's row, as plain data.
#[verifier::ext_equal]
pub struct StoredObjectData {
    pub id_kind: Seq<char>,
    pub id_value: Seq<char>,
    pub body_json: Seq<char>,
}

/// The row of an object, as plain data.
#[verifier::ext_equal]
pub struct HircRowData {
    pub ord: int,
    pub stored: StoredObjectData,
    pub id_hash: u32,
    pub label: Option<Seq<char>>,
    pub body_kind: Seq<char>,
    pub body_type: u8,
    pub direct_parent: Option<u32>,
    pub override_bus: Option<u32>,
}

/// The row of a section, as plain data.
#[verifier::ext_equal]
pub struct SectionRowData {
    pub ord: int,
    pub magic: Seq<char>,
    pub body_json: Option<Seq<char>>,
    pub objects: Seq<HircRowData>,
}

/// What is read of a section's row, as plain data.
#[verifier::ext_equal]
pub struct StoredSectionData {
    pub magic: Seq<char>,
    pub body_json: Option<Seq<char>>,
    pub objects: Seq<StoredObjectData>,
}

impl View for StoredObject {
    type V = StoredObjectData;

    open spec fn view(&self) -> StoredObjectData {
        StoredObjectData {
            id_kind: self.id_kind@,
            id_value: self.id_value@,
            body_json: self.body_json@,
        }
    }
}

impl View for HircRow {
    type V = HircRowData;

    open spec fn view(&self) -> HircRowData {
        HircRowData {
            ord: self.ord as int,
            stored: self.stored@,
            id_hash: self.id_hash,
            label: text_view(self.label),
            body_kind: self.body_kind@,
            body_type: self.body_type,
            direct_parent: self.direct_parent,
            override_bus: self.override_bus,
        }
    }
}

/// Rows of objects, as plain data.
pub open spec fn hirc_rows_view(rows: Seq<HircRow>) -> Seq<HircRowData> {
    rows.map_values(|r: HircRow| r@)
}

impl View for SectionRow {
    type V = SectionRowData;

    open spec fn view(&self) -> SectionRowData {
        SectionRowData {
            ord: self.ord as int,
            magic: self.magic@,
            body_json: text_view(self.body_json),
            objects: hirc_rows_view(self.objects@),
        }
    }
}

/// Rows of sections, as plain data.
pub open spec fn section_rows_view(rows: Seq<SectionRow>) -> Seq<SectionRowData> {
    rows.map_values(|r: SectionRow| r@)
}

/// What is read of rows of objects, as plain data.
pub open spec fn stored_objects_view(rows: Seq<StoredObject>) -> Seq<StoredObjectData> {
    rows.map_values(|r: StoredObject| r@)
}

impl View for StoredSection {
    type V = StoredSectionData;

    open spec fn view(&self) -> StoredSectionData {
        StoredSectionData {
            magic: self.magic@,
            body_json: text_view(self.body_json),
            objects: stored_objects_view(self.objects@),
        }
    }
}

/// What is read of rows of sections, as plain data.
pub open spec fn stored_sections_view(rows: Seq<StoredSection>) -> Seq<StoredSectionData> {
    rows.map_values(|r: StoredSection| r@)
}

/// What is read of the row of a section.
pub open spec fn selected_section(row: SectionRowData) -> StoredSectionData {
    StoredSectionData {
        magic: row.magic,
        body_json: row.body_json,
        objects: row.objects.map_values(|r: HircRowData| r.stored),
    }
}

/// What is read of the rows of sections.
pub open spec fn selected(rows: Seq<SectionRowData>) -> Seq<StoredSectionData> {
    rows.map_values(|r: SectionRowData| selected_section(r))
}

// ---------------------------------------------------------------------------
// Writing
// ---------------------------------------------------------------------------
/// Is the id stored as a name or as a hash?
pub open spec fn stored_kind(id: IdView) -> Seq<char> {
    match id {
        IdView::Name(_) => "String"@,
        IdView::Hash(_) => "Hash"@,
    }
}

/// The text that an id is stored as.
pub open spec fn stored_value(id: IdView) -> Seq<char> {
    match id {
        IdView::Name(name) => name,
        IdView::Hash(hash) => decimal_text(hash as nat),
    }
}

/// The label of an object: its name, or the name that the dictionary has for its hash.
pub open spec fn label_of(id: IdView, dictionary: Map<u32, Seq<char>>) -> Option<Seq<char>> {
    match id {
        IdView::Name(name) => Some(name),
        IdView::Hash(hash) => name_in(dictionary, hash),
    }
}

/// The row of an object.
pub open spec fn object_row(
    object: ObjectData,
    ord: int,
    dictionary: Map<u32, Seq<char>>,
) -> HircRowData {
    HircRowData {
        ord,
        stored: StoredObjectData {
            id_kind: stored_kind(object.id),
            id_value: stored_value(object.id),
            body_json: printed_json(body_tree(object.body)),
        },
        id_hash: id_hash(object.id),
        label: label_of(object.id, dictionary),
        body_kind: kind_name(object.body.kind),
        body_type: kind_number(object.body.kind),
        direct_parent: direct_parent(object.body),
        override_bus: override_bus(object.body),
    }
}

/// The rows of a section's objects.
pub open spec fn object_rows(
    objects: Seq<ObjectData>,
    dictionary: Map<u32, Seq<char>>,
) -> Seq<HircRowData> {
    Seq::new(objects.len(), |i: int| object_row(objects[i], i, dictionary))
}

/// The row of a section.
pub open spec fn section_row(
    section: SectionData,
    ord: int,
    dictionary: Map<u32, Seq<char>>,
) -> SectionRowData {
    SectionRowData {
        ord,
        magic: lossy_text(section.magic),
        body_json: match section_tree(section.body) {
            Some(tree) => Some(printed_json(tree)),
            None => None,
        },
        objects: match section.body {
            SectionContent::HIRC(objects) => object_rows(objects, dictionary),
            _ => Seq::empty(),
        },
    }
}

/// The rows of a bank, numbered as they come. Sections of audio have none.
pub open spec fn section_rows(
    bank: Seq<SectionData>,
    dictionary: Map<u32, Seq<char>>,
) -> Seq<SectionRowData>
    decreases bank.len(),
{
    if bank.len() == 0 {
        Seq::empty()
    } else if is_audio(bank.last()) {
        section_rows(bank.drop_last(), dictionary)
    } else {
        section_rows(bank.drop_last(), dictionary).push(
            section_row(
                bank.last(),
                section_rows(bank.drop_last(), dictionary).len() as int,
                dictionary,
            ),
        )
    }
}

/// Can JSON text hold the section? Objects and headers it always can.
pub open spec fn section_printable(section: SectionData) -> bool {
    match section.body {
        SectionContent::Other(tree) => printable(tree),
        _ => true,
    }
}

/// Can JSON text hold the bank?
pub open spec fn bank_printable(bank: Seq<SectionData>) -> bool {
    forall|i: int| 0 <= i < bank.len() ==> section_printable(#[trigger] bank[i])
}

/// Is every object complete?
pub open spec fn objects_storable(objects: Seq<ObjectData>) -> bool {
    forall|i: int| 0 <= i < objects.len() ==> well_formed((#[trigger] objects[i]).body)
}

/// Is the section complete, and is its magic number a text?
pub open spec fn section_storable(section: SectionData) -> bool {
    &&& section.magic.len() == 4
    &&& valid_utf8(section.magic)
    &&& match section.body {
        SectionContent::BKHD(header) => header_fits(header),
        SectionContent::HIRC(objects) => objects_storable(objects),
        SectionContent::Other(tree) => section_in(tree) == Some(section.body),
        _ => true,
    }
}

/// Is the magic number of the section a text, and is a tree that it holds one of a section? What
/// else a section needs to be read back, it always has.
pub open spec fn section_legible(section: SectionData) -> bool {
    &&& valid_utf8(section.magic)
    &&& section.body matches SectionContent::Other(tree) ==> section_in(tree) == Some(section.body)
}

/// Are all magic numbers texts, and all trees those of sections?
pub open spec fn bank_legible(bank: Seq<SectionData>) -> bool {
    forall|i: int| 0 <= i < bank.len() ==> section_legible(#[trigger] bank[i])
}

/// ASCII bytes are a text.
pub proof fn lemma_ascii_is_text(bytes: Seq<u8>)
    requires
        forall|i: int| 0 <= i < bytes.len() ==> #[trigger] bytes[i] < 128,
    ensures
        valid_utf8(bytes),
    decreases bytes.len(),
{
    if bytes.len() > 0 {
        assert(bytes[0] < 128);
        let rest = bytes.subrange(1, bytes.len() as int);
        assert forall|i: int| 0 <= i < rest.len() implies #[trigger] rest[i] < 128 by {
            assert(rest[i] == bytes[i + 1]);
        }
        lemma_ascii_is_text(rest);
        let b = bytes[0];
        assert(b < 128 ==> b & 0x80 == 0 && (b & 0x7f) as u32 == b as u32) by (bit_vector);
        assert(vstd::utf8::pop_first_scalar(bytes) =~= rest);
    }
}

/// Is every section complete, and is every magic number a text?
pub open spec fn bank_storable(bank: Seq<SectionData>) -> bool {
    forall|i: int| 0 <= i < bank.len() ==> section_storable(#[trigger] bank[i])
}

// ---------------------------------------------------------------------------
// Reading
// ---------------------------------------------------------------------------
/// The id of a stored object.
pub open spec fn stored_id(kind: Seq<char>, value: Seq<char>) -> Result<IdView, StorageFault> {
    if kind == "String"@ {
        Ok(IdView::Name(value))
    } else if kind == "Hash"@ {
        match number_in(value, 10) {
            Some(hash) => Ok(IdView::Hash(hash)),
            None => Err(StorageFault::BadHash(value)),
        }
    } else {
        Err(StorageFault::InvalidIdKind(kind))
    }
}

/// The body of a stored object.
pub open spec fn stored_body(text: Seq<char>) -> Result<crate::body::BodyView, StorageFault> {
    match parsed_json(text) {
        Some(tree) => match body_in(tree) {
            Some(body) => Ok(body),
            None => Err(StorageFault::Json(JsonError::NotABody)),
        },
        None => Err(StorageFault::Json(JsonError::NotJson)),
    }
}

/// The stored object.
pub open spec fn object_read(row: StoredObjectData) -> Result<ObjectData, StorageFault> {
    match stored_id(row.id_kind, row.id_value) {
        Ok(id) => match stored_body(row.body_json) {
            Ok(body) => Ok(ObjectData { id, body }),
            Err(e) => Err(e),
        },
        Err(e) => Err(e),
    }
}

/// The stored objects, or what is wrong with the first one that cannot be read.
pub open spec fn objects_read(rows: Seq<StoredObjectData>) -> Result<Seq<ObjectData>, StorageFault>
    decreases rows.len(),
{
    if rows.len() == 0 {
        Ok(Seq::empty())
    } else {
        match objects_read(rows.drop_last()) {
            Ok(objects) => match object_read(rows.last()) {
                Ok(object) => Ok(objects.push(object)),
                Err(e) => Err(e),
            },
            Err(e) => Err(e),
        }
    }
}

/// The body of a stored section.
pub open spec fn content_read(row: StoredSectionData) -> Result<SectionContent, StorageFault> {
    match row.body_json {
        Some(text) => match parsed_json(text) {
            Some(tree) => match section_in(tree) {
                Some(body) => Ok(body),
                None => Err(StorageFault::Json(JsonError::NotASection)),
            },
            None => Err(StorageFault::Json(JsonError::NotJson)),
        },
        None => match objects_read(row.objects) {
            Ok(objects) => Ok(SectionContent::HIRC(objects)),
            Err(e) => Err(e),
        },
    }
}

/// The stored section.
pub open spec fn section_read(row: StoredSectionData) -> Result<SectionData, StorageFault> {
    match content_read(row) {
        Ok(body) => Ok(SectionData { magic: magic_in(row.magic), body }),
        Err(e) => Err(e),
    }
}

/// Is the tree that of a section of audio? An index lists an id, an offset and a size of each file;
/// the data stands there as text or as a list.
pub open spec fn is_audio_tree(tree: JsonView) -> bool {
    match tree {
        JsonView::Object(members) => if members.len() != 1 {
            false
        } else if members[0].0 == "DIDX"@ {
            let list = list_at(members[0].1, seq!["descriptors"@]);
            &&& has_list(members[0].1, seq!["descriptors"@])
            &&& each_has_id(list, seq!["id"@])
            &&& each_has_id(list, seq!["offset"@])
            &&& each_has_id(list, seq!["size"@])
        } else if members[0].0 == "DATA"@ {
            match member(members[0].1, "data"@) {
                Some(JsonView::Str(_)) => true,
                Some(JsonView::Array(_)) => true,
                _ => false,
            }
        } else {
            false
        },
        _ => false,
    }
}

/// Is a section of audio stored here?
pub open spec fn is_audio_row(row: StoredSectionData) -> bool {
    match row.body_json {
        Some(text) => match parsed_json(text) {
            Some(tree) => is_audio_tree(tree),
            None => false,
        },
        None => false,
    }
}

/// The stored bank, or what is wrong with the first section that cannot be read. Audio that is
/// stored as a section is left out: it is made anew from the stored files.
pub open spec fn bank_read(rows: Seq<StoredSectionData>) -> Result<Seq<SectionData>, StorageFault>
    decreases rows.len(),
{
    if rows.len() == 0 {
        Ok(Seq::empty())
    } else {
        match bank_read(rows.drop_last()) {
            Ok(sections) => if is_audio_row(rows.last()) {
                Ok(sections)
            } else {
                match section_read(rows.last()) {
                    Ok(section) => Ok(sections.push(section)),
                    Err(e) => Err(e),
                }
            },
            Err(e) => Err(e),
        }
    }
}

/// An id is read back as it was stored.
pub proof fn lemma_id_reads_back(id: IdView)
    ensures
        stored_id(stored_kind(id), stored_value(id)) == Ok::<IdView, StorageFault>(id),
{
    reveal_strlit("String");
    reveal_strlit("Hash");
    match id {
        IdView::Name(name) => {},
        IdView::Hash(hash) => {
            assert("Hash"@.len() != "String"@.len());
            lemma_decimal_reads_back(hash);
        },
    }
}

/// Do the rows of objects have the hashes of these objects, and are they numbered as they come?
pub open spec fn columns_fit(rows: Seq<HircRowData>, objects: Seq<ObjectData>) -> bool {
    &&& rows.len() == objects.len()
    &&& forall|j: int|
        0 <= j < rows.len() ==> (#[trigger] rows[j]).ord == j && rows[j].id_hash == id_hash(
            objects[j].id,
        )
}

/// Do the rows hold this bank? What is read of them is the bank; sections and objects are numbered
/// as they come; and objects are found by their hashes.
pub open spec fn holds(rows: Seq<SectionRowData>, bank: Seq<SectionData>) -> bool {
    &&& bank_read(selected(rows)) == Ok::<Seq<SectionData>, StorageFault>(bank)
    &&& rows.len() == bank.len()
    &&& forall|k: int|
        0 <= k < rows.len() ==> (#[trigger] rows[k]).ord == k && columns_fit(
            rows[k].objects,
            objects_in(bank[k]),
        ) && (bank[k].body is HIRC ==> rows[k].body_json is None)
}

/// Rows that hold a bank hold it with one more section when the row of that section comes behind
/// them.
proof fn lemma_holds_push(
    rows: Seq<SectionRowData>,
    bank: Seq<SectionData>,
    row: SectionRowData,
    section: SectionData,
)
    requires
        holds(rows, bank),
        row.ord == rows.len(),
        section_read(selected_section(row)) == Ok::<SectionData, StorageFault>(section),
        columns_fit(row.objects, objects_in(section)),
        section.body is HIRC ==> row.body_json is None,
    ensures
        holds(rows.push(row), bank.push(section)),
{
    assert(selected(rows.push(row)) =~= selected(rows).push(selected_section(row)));
    lemma_bank_read_push(selected(rows), selected_section(row));
    let longer = rows.push(row);
    let after = bank.push(section);
    assert forall|k: int| 0 <= k < longer.len() implies (#[trigger] longer[k]).ord == k
        && columns_fit(longer[k].objects, objects_in(after[k])) && (after[k].body is HIRC
        ==> longer[k].body_json is None) by {
        if k < rows.len() {
            assert(longer[k] == rows[k]);
            assert(after[k] == bank[k]);
        }
    }
}

// ---------------------------------------------------------------------------
// Executable: writing
// ---------------------------------------------------------------------------
/// The row of an object. What is read of the row is the object again.
pub fn write_hirc_row(ord: usize, object: &HIRCObject, dictionary: &FNVDictionary) -> (r: Result<
    HircRow,
    StorageError,
>)
    ensures
        r is Ok,
        r->Ok_0@ == object_row(object@, ord as int, dictionary_view(dictionary@)),
        object_read(r->Ok_0@.stored) == Ok::<ObjectData, StorageFault>(object@),
        well_formed(object@.body),
{
    let (id_kind, id_value, label) = match &object.id {
        ObjectId::String(s) => ("String".to_owned(), s.clone(), Some(s.clone())),
        ObjectId::Hash(h) => ("Hash".to_owned(), decimal(*h as u64), look_up(dictionary, *h)),
    };
    let (parent, bus) = object.body.extract_routing();
    let kind = object.body.kind();
    let body_json = match object.body.to_json().to_text() {
        Ok(text) => text,
        Err(e) => {
            return Err(StorageError::Json(e));
        },
    };
    let row = HircRow {
        ord,
        stored: StoredObject { id_kind, id_value, body_json },
        id_hash: object.id.as_hash(),
        label,
        body_kind: kind.name(),
        body_type: kind.number(),
        direct_parent: parent,
        override_bus: bus,
    };
    proof {
        lemma_id_reads_back(object@.id);
        lemma_body_in_tree(object@.body);
    }
    Ok(row)
}

/// Rows that are read one by one are read together.
pub proof fn lemma_objects_read(rows: Seq<StoredObjectData>, objects: Seq<ObjectData>)
    requires
        rows.len() == objects.len(),
        forall|i: int|
            0 <= i < rows.len() ==> object_read(#[trigger] rows[i]) == Ok::<
                ObjectData,
                StorageFault,
            >(objects[i]),
    ensures
        objects_read(rows) == Ok::<Seq<ObjectData>, StorageFault>(objects),
    decreases rows.len(),
{
    if rows.len() > 0 {
        assert(rows.last() == rows[rows.len() - 1]);
        lemma_objects_read(rows.drop_last(), objects.drop_last());
        assert(objects.drop_last().push(objects.last()) =~= objects);
    } else {
        assert(objects =~= Seq::<ObjectData>::empty());
    }
}

fn write_hirc_rows(objects: &Vec<HIRCObject>, dictionary: &FNVDictionary) -> (r: Result<
    Vec<HircRow>,
    StorageError,
>)
    ensures
        ({
            let views = objects_view(objects@);
            &&& r is Ok
            &&& hirc_rows_view(r->Ok_0@) == object_rows(views, dictionary_view(dictionary@))
            &&& objects_read(
                hirc_rows_view(r->Ok_0@).map_values(|r: HircRowData| r.stored),
            ) == Ok::<Seq<ObjectData>, StorageFault>(views)
            &&& objects_storable(views)
        }),
{
    let ghost views = objects_view(objects@);
    let ghost names = dictionary_view(dictionary@);
    let mut rows: Vec<HircRow> = Vec::new();
    let mut i: usize = 0;
    while i < objects.len()
        invariant
            i <= objects@.len(),
            views == objects_view(objects@),
            names == dictionary_view(dictionary@),
            rows@.len() == i,
            forall|k: int| 0 <= k < i ==> well_formed((#[trigger] views[k]).body),
            forall|k: int|
                0 <= k < i ==> (#[trigger] rows@[k])@ == object_row(views[k], k, names),
            forall|k: int|
                0 <= k < i ==> object_read((#[trigger] rows@[k])@.stored) == Ok::<
                    ObjectData,
                    StorageFault,
                >(views[k]),
        decreases objects@.len() - i,
    {
        assert(views[i as int] == objects@[i as int]@);
        match write_hirc_row(i, &objects[i], dictionary) {
            Ok(row) => {
                rows.push(row);
            },
            Err(e) => {
                return Err(e);
            },
        }
        i = i + 1;
    }
    proof {
        assert(hirc_rows_view(rows@) =~= object_rows(views, names));
        let stored = hirc_rows_view(rows@).map_values(|r: HircRowData| r.stored);
        assert forall|k: int| 0 <= k < stored.len() implies object_read(#[trigger] stored[k])
            == Ok::<ObjectData, StorageFault>(views[k]) by {
            assert(stored[k] == rows@[k]@.stored);
        }
        lemma_objects_read(stored, views);
    }
    Ok(rows)
}

/// The row of a section that holds no audio.
fn write_section_row(ord: usize, section: &Section, dictionary: &FNVDictionary) -> (r: Result<
    SectionRow,
    StorageError,
>)
    requires
        !is_audio(section@),
    ensures
        match r {
            Ok(row) => {
                &&& section_printable(section@)
                &&& row@ == section_row(section@, ord as int, dictionary_view(dictionary@))
                &&& columns_fit(row@.objects, objects_in(section@))
                &&& section_legible(section@) ==> section_storable(section@) && section_read(
                    selected_section(row@),
                ) == Ok::<SectionData, StorageFault>(section@)
            },
            Err(e) => !section_printable(section@) && e@ == StorageFault::Json(
                JsonError::NotPrintable,
            ),
        },
{
    let magic = magic_to_string(&section.magic);
    proof {
        if section_legible(section@) {
            lemma_magic_reads_back(section@.magic);
        }
    }
    match &section.body {
        SectionBody::HIRC(hirc) => {
            let objects = match write_hirc_rows(&hirc.objects, dictionary) {
                Ok(objects) => objects,
                Err(e) => {
                    return Err(e);
                },
            };
            Ok(SectionRow { ord, magic, body_json: None, objects })
        },
        _ => {
            let objects: Vec<HircRow> = Vec::new();
            assert(hirc_rows_view(objects@) =~= Seq::<HircRowData>::empty());
            match section.body.to_json() {
                Some(tree) => {
                    proof {
                        if section_legible(section@) {
                            lemma_section_in_tree(section@.body);
                        }
                    }
                    match tree.to_text() {
                        Ok(text) => Ok(SectionRow { ord, magic, body_json: Some(text), objects }),
                        Err(e) => Err(StorageError::Json(e)),
                    }
                },
                None => Ok(SectionRow { ord, magic, body_json: None, objects }),
            }
        },
    }
}

/// The tree of a complete section is the tree of that section only.
pub proof fn lemma_section_in_tree(body: SectionContent)
    requires
        match body {
            SectionContent::BKHD(header) => header_fits(header),
            SectionContent::Other(tree) => section_in(tree) == Some(body),
            _ => false,
        },
    ensures
        section_in(section_tree(body).unwrap()) == Some(body),
        storable(section_tree(body).unwrap()),
{
    reveal_strlit("BKHD");
    reveal_strlit("HIRC");
    reveal_strlit("DIDX");
    reveal_strlit("DATA");
    match body {
        SectionContent::BKHD(header) => {
            let tree = header_tree(header);
            assert("BKHD"@[0] == 'B');
            assert("HIRC"@[0] == 'H');
            assert("DIDX"@[0] == 'D');
            assert("DATA"@[0] == 'D');
            assert(tree->Object_0[0] == ("BKHD"@, header));
        },
        _ => {},
    }
}

proof fn lemma_bank_read_push(rows: Seq<StoredSectionData>, row: StoredSectionData)
    ensures
        bank_read(rows.push(row)) == (match bank_read(rows) {
            Ok(sections) => if is_audio_row(row) {
                Ok(sections)
            } else {
                match section_read(row) {
                    Ok(section) => Ok(sections.push(section)),
                    Err(e) => Err(e),
                }
            },
            Err(e) => Err(e),
        }),
{
    assert(rows.push(row).drop_last() =~= rows);
    assert(rows.push(row).last() == row);
}

/// A bank that was read holds no audio.
pub proof fn lemma_read_has_no_audio(rows: Seq<StoredSectionData>)
    ensures
        bank_read(rows) matches Ok(bank) ==> has_no_audio(bank),
    decreases rows.len(),
{
    if rows.len() > 0 {
        lemma_read_has_no_audio(rows.drop_last());
    }
}

/// The rows of a bank. Audio has no rows here. The rows hold the bank, but for its audio, if all
/// magic numbers are texts and all trees those of sections.
pub fn write_soundbank(soundbank: &Soundbank, dictionary: &FNVDictionary) -> (r: Result<
    Vec<SectionRow>,
    StorageError,
>)
    ensures
        match r {
            Ok(rows) => {
                &&& bank_printable(soundbank@)
                &&& section_rows_view(rows@) == section_rows(
                    soundbank@,
                    dictionary_view(dictionary@),
                )
                &&& bank_legible(soundbank@) ==> holds(
                    section_rows_view(rows@),
                    without_audio(soundbank@),
                )
            },
            Err(e) => !bank_printable(soundbank@) && e@ == StorageFault::Json(
                JsonError::NotPrintable,
            ),
        },
{
    let ghost bank = soundbank@;
    let ghost names = dictionary_view(dictionary@);
    let mut rows: Vec<SectionRow> = Vec::new();
    let mut i: usize = 0;
    proof {
        assert(bank.take(0) =~= Seq::<SectionData>::empty());
        assert(section_rows_view(rows@) =~= Seq::<SectionRowData>::empty());
        assert(selected(section_rows_view(rows@)) =~= Seq::<StoredSectionData>::empty());
    }
    while i < soundbank.sections.len()
        invariant
            i <= soundbank.sections@.len(),
            bank == soundbank@,
            bank.len() == soundbank.sections@.len(),
            names == dictionary_view(dictionary@),
            forall|k: int| 0 <= k < i ==> section_printable(#[trigger] bank[k]),
            section_rows_view(rows@) == section_rows(bank.take(i as int), names),
            bank_legible(bank) ==> holds(
                section_rows_view(rows@),
                without_audio(bank.take(i as int)),
            ),
        decreases soundbank.sections@.len() - i,
    {
        let ghost before = section_rows_view(rows@);
        let section = &soundbank.sections[i];
        proof {
            assert(bank[i as int] == section@);
            assert(bank.take(i + 1).drop_last() =~= bank.take(i as int));
            assert(bank.take(i + 1).last() == section@);
        }
        match &section.body {
            SectionBody::DIDX(_) | SectionBody::DATA(_) => {},
            _ => {
                match write_section_row(rows.len(), section, dictionary) {
                    Ok(row) => {
                        let ghost view = row@;
                        rows.push(row);
                        proof {
                            assert(section_rows_view(rows@) =~= before.push(view));
                            if bank_legible(bank) {
                                lemma_holds_push(
                                    before,
                                    without_audio(bank.take(i as int)),
                                    view,
                                    section@,
                                );
                            }
                        }
                    },
                    Err(e) => {
                        assert(!section_printable(bank[i as int]));
                        return Err(e);
                    },
                }
            },
        }
        i = i + 1;
    }
    assert(bank.take(i as int) =~= bank);
    Ok(rows)
}

// ---------------------------------------------------------------------------
// Executable: reading
// ---------------------------------------------------------------------------
/// The result of reading, as plain data.
pub open spec fn outcome<T: View>(r: Result<T, StorageError>) -> Result<T::V, StorageFault> {
    match r {
        Ok(value) => Ok(value@),
        Err(e) => Err(e@),
    }
}

fn read_id(kind: String, value: String) -> (r: Result<ObjectId, StorageError>)
    ensures
        outcome(r) == stored_id(kind@, value@),
{
    if kind == "String".to_owned() {
        Ok(ObjectId::String(value))
    } else if kind == "Hash".to_owned() {
        let chars = chars_of(value.as_str());
        assert(chars@.skip(0) =~= chars@);
        match parse_number(&chars, 0, 10) {
            Some(hash) => Ok(ObjectId::Hash(hash)),
            None => Err(StorageError::BadHash(value)),
        }
    } else {
        Err(StorageError::InvalidIdKind(kind))
    }
}

/// The stored object.
pub fn read_object(row: StoredObject) -> (r: Result<HIRCObject, StorageError>)
    ensures
        outcome(r) == object_read(row@),
{
    let id = match read_id(row.id_kind, row.id_value) {
        Ok(id) => id,
        Err(e) => {
            return Err(e);
        },
    };
    let tree = match Json::from_text(row.body_json.as_str()) {
        Ok(tree) => tree,
        Err(e) => {
            return Err(StorageError::Json(e));
        },
    };
    match HIRCObjectBody::from_json(tree) {
        Ok(body) => Ok(HIRCObject { id, body }),
        Err(e) => Err(StorageError::Json(e)),
    }
}

proof fn lemma_objects_read_stops(rows: Seq<StoredObjectData>, n: int)
    requires
        0 <= n <= rows.len(),
        objects_read(rows.take(n)) is Err,
    ensures
        objects_read(rows) == objects_read(rows.take(n)),
    decreases rows.len(),
{
    if n == rows.len() {
        assert(rows.take(n) =~= rows);
    } else {
        assert(rows.drop_last().take(n) =~= rows.take(n));
        lemma_objects_read_stops(rows.drop_last(), n);
    }
}

/// The objects of a stored section, or what is wrong with the first one that cannot be read.
pub fn load_hirc_section(rows: Vec<StoredObject>) -> (r: Result<HIRCSection, StorageError>)
    ensures
        match r {
            Ok(hirc) => objects_read(stored_objects_view(rows@)) == Ok::<
                Seq<ObjectData>,
                StorageFault,
            >(objects_view(hirc.objects@)),
            Err(e) => objects_read(stored_objects_view(rows@)) == Err::<
                Seq<ObjectData>,
                StorageFault,
            >(e@),
        },
{
    let ghost views = stored_objects_view(rows@);
    let mut objects: Vec<HIRCObject> = Vec::new();
    proof {
        assert(views.take(0) =~= Seq::<StoredObjectData>::empty());
        assert(objects_view(objects@) =~= Seq::<ObjectData>::empty());
    }
    for row in it: rows
        invariant
            it.seq() == rows@,
            views == stored_objects_view(rows@),
            objects_read(views.take(it.index() as int)) == Ok::<Seq<ObjectData>, StorageFault>(
                objects_view(objects@),
            ),
    {
        let ghost n = it.index() as int;
        let ghost before = objects_view(objects@);
        proof {
            assert(views.take(n + 1).drop_last() =~= views.take(n));
            assert(views.take(n + 1).last() == row@);
        }
        match read_object(row) {
            Ok(object) => {
                let ghost view = object@;
                objects.push(object);
                assert(objects_view(objects@) =~= before.push(view));
            },
            Err(e) => {
                proof {
                    lemma_objects_read_stops(views, n + 1);
                }
                return Err(e);
            },
        }
    }
    assert(views.take(views.len() as int) =~= views);
    Ok(HIRCSection { objects })
}

fn has_audio_tree(tree: &Json) -> (r: bool)
    ensures
        r == is_audio_tree(tree@),
{
    match tree {
        Json::Object(members) => {
            if members.len() != 1 {
                return false;
            }
            assert(tree@->Object_0[0] == (members@[0].0@, members@[0].1@));
            let inner = &members[0].1;
            if members[0].0 == "DIDX".to_owned() {
                let list = vec!["descriptors"];
                let id = vec!["id"];
                let offset = vec!["offset"];
                let size = vec!["size"];
                proof {
                    assert(path_view(list@) =~= seq!["descriptors"@]);
                    assert(path_view(id@) =~= seq!["id"@]);
                    assert(path_view(offset@) =~= seq!["offset"@]);
                    assert(path_view(size@) =~= seq!["size"@]);
                }
                match find_list(inner, &list) {
                    Some(items) => collect_id_in_each(items, &id).1 && collect_id_in_each(
                        items,
                        &offset,
                    ).1 && collect_id_in_each(items, &size).1,
                    None => false,
                }
            } else if members[0].0 == "DATA".to_owned() {
                match inner.get("data") {
                    Some(Json::Str(_)) => true,
                    Some(Json::Array(_)) => true,
                    _ => false,
                }
            } else {
                false
            }
        },
        _ => false,
    }
}

fn holds_audio(row: &StoredSection) -> (r: bool)
    ensures
        r == is_audio_row(row@),
{
    match &row.body_json {
        Some(text) => match Json::from_text(text.as_str()) {
            Ok(tree) => has_audio_tree(&tree),
            Err(_) => false,
        },
        None => false,
    }
}

fn read_section(row: StoredSection) -> (r: Result<Section, StorageError>)
    ensures
        outcome(r) == section_read(row@),
{
    let magic = string_to_magic(row.magic.as_str());
    match row.body_json {
        Some(text) => {
            let tree = match Json::from_text(text.as_str()) {
                Ok(tree) => tree,
                Err(e) => {
                    return Err(StorageError::Json(e));
                },
            };
            match SectionBody::from_json(tree) {
                Ok(body) => Ok(Section { magic, body }),
                Err(e) => Err(StorageError::Json(e)),
            }
        },
        None => match load_hirc_section(row.objects) {
            Ok(hirc) => Ok(Section { magic, body: SectionBody::HIRC(hirc) }),
            Err(e) => Err(e),
        },
    }
}

proof fn lemma_bank_read_stops(rows: Seq<StoredSectionData>, n: int)
    requires
        0 <= n <= rows.len(),
        bank_read(rows.take(n)) is Err,
    ensures
        bank_read(rows) == bank_read(rows.take(n)),
    decreases rows.len(),
{
    if n == rows.len() {
        assert(rows.take(n) =~= rows);
    } else {
        assert(rows.drop_last().take(n) =~= rows.take(n));
        lemma_bank_read_stops(rows.drop_last(), n);
    }
}

/// The stored bank, or what is wrong with the first section that cannot be read. It has no
/// audio.
pub fn read_soundbank(rows: Vec<StoredSection>) -> (r: Result<Soundbank, StorageError>)
    ensures
        outcome(r) == bank_read(stored_sections_view(rows@)),
{
    let ghost views = stored_sections_view(rows@);
    let mut bank = Soundbank { sections: Vec::new() };
    proof {
        assert(views.take(0) =~= Seq::<StoredSectionData>::empty());
        assert(bank@ =~= Seq::<SectionData>::empty());
    }
    for row in it: rows
        invariant
            it.seq() == rows@,
            views == stored_sections_view(rows@),
            bank_read(views.take(it.index() as int)) == Ok::<Seq<SectionData>, StorageFault>(
                bank@,
            ),
    {
        let ghost n = it.index() as int;
        let ghost before = bank@;
        proof {
            assert(views.take(n + 1).drop_last() =~= views.take(n));
            assert(views.take(n + 1).last() == row@);
        }
        if !holds_audio(&row) {
            match read_section(row) {
                Ok(section) => {
                    let ghost view = section@;
                    bank.sections.push(section);
                    assert(bank@ =~= before.push(view));
                },
                Err(e) => {
                    proof {
                        lemma_bank_read_stops(views, n + 1);
                    }
                    return Err(e);
                },
            }
        }
    }
    assert(views.take(views.len() as int) =~= views);
    Ok(bank)
}

} // verus!
