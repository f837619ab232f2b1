//! Soundbanks: their sections, and finding objects in them.

use vstd::prelude::*;

use crate::body::{body_in, BodyView, HIRCObjectBody};
use crate::ids::{
    has_hex_prefix, hex_number, id_hash, id_name, name_hash, numeric_id, parse_decimal, parse_hex,
    text_view, IdView, ObjectId,
};
use crate::json::{as_u32, member, path_view, u32_at, Json, JsonView};
use crate::json_text::{storable, JsonError};
use crate::kind::BodyKind;
use crate::seqs::{first_where, lemma_first_where, lemma_first_where_points};
use crate::text::{
    all_digits, capital_hex_id_text, decimal_text, digit_value, hex_id_text, hex_text,
    lemma_decimal_has_no_letters, lemma_decimal_reads_back, lemma_hex_reads_back, number_in,
    unsigned_part, upper_digit,
};

verus! {

// ---------------------------------------------------------------------------
// What a bank says
// ---------------------------------------------------------------------------
/// What an object says.
#[verifier::ext_equal]
pub struct ObjectData {
    pub id: IdView,
    pub body: BodyView,
}

/// Where an audio file lies in the audio data.
#[derive(Debug, Clone, Copy, PartialEq, Eq, Structural)]
pub struct DIDXDescriptor {
    pub id: u32,
    pub offset: u32,
    pub size: u32,
}

/// What the body of a section says.
#[verifier::ext_equal]
pub enum SectionContent {
    /// The header.
    BKHD(JsonView),
    /// The objects.
    HIRC(Seq<ObjectData>),
    /// The index of the audio data.
    DIDX(Seq<DIDXDescriptor>),
    /// The audio data.
    DATA(Seq<u8>),
    /// Any other section, by the tree that it is stored as.
    Other(JsonView),
}

/// What a section says.
#[verifier::ext_equal]
pub struct SectionData {
    pub magic: Seq<u8>,
    pub body: SectionContent,
}

// ---------------------------------------------------------------------------
// Banks
// ---------------------------------------------------------------------------
/// An object of the routing graph.
#[derive(Debug)]
pub struct HIRCObject {
    pub id: ObjectId,
    pub body: HIRCObjectBody,
}

impl View for HIRCObject {
    type V = ObjectData;

    open spec fn view(&self) -> ObjectData {
        ObjectData { id: self.id@, body: self.body@ }
    }
}

/// What a list of objects says.
pub open spec fn objects_view(objects: Seq<HIRCObject>) -> Seq<ObjectData> {
    objects.map_values(|o: HIRCObject| o@)
}

/// The objects of a bank.
#[derive(Debug)]
pub struct HIRCSection {
    pub objects: Vec<HIRCObject>,
}

/// The header of a bank.
#[derive(Debug)]
pub struct BKHDSection {
    fields: Json,
}

impl View for BKHDSection {
    type V = JsonView;

    closed spec fn view(&self) -> JsonView {
        self.fields@
    }
}

/// The index of the audio data.
#[derive(Debug)]
pub struct DIDXSection {
    pub descriptors: Vec<DIDXDescriptor>,
}

/// The audio data.
#[derive(Debug)]
pub struct DATASection {
    pub data: Vec<u8>,
}

/// The body of a section.
#[derive(Debug)]
pub enum SectionBody {
    BKHD(BKHDSection),
    HIRC(HIRCSection),
    DIDX(DIDXSection),
    DATA(DATASection),
    /// Any other section, by the tree that it is stored as.
    Other(Json),
}

impl View for SectionBody {
    type V = SectionContent;

    open spec fn view(&self) -> SectionContent {
        match self {
            SectionBody::BKHD(header) => SectionContent::BKHD(header@),
            SectionBody::HIRC(hirc) => SectionContent::HIRC(objects_view(hirc.objects@)),
            SectionBody::DIDX(didx) => SectionContent::DIDX(didx.descriptors@),
            SectionBody::DATA(data) => SectionContent::DATA(data.data@),
            SectionBody::Other(tree) => SectionContent::Other(tree@),
        }
    }
}

/// A section of a bank.
#[derive(Debug)]
pub struct Section {
    pub magic: [u8; 4],
    pub body: SectionBody,
}

impl View for Section {
    type V = SectionData;

    open spec fn view(&self) -> SectionData {
        SectionData { magic: self.magic@, body: self.body@ }
    }
}

/// A soundbank.
#[derive(Debug)]
pub struct Soundbank {
    pub sections: Vec<Section>,
}

impl View for Soundbank {
    type V = Seq<SectionData>;

    open spec fn view(&self) -> Seq<SectionData> {
        self.sections@.map_values(|s: Section| s@)
    }
}

// ---------------------------------------------------------------------------
// Section bodies as trees
// ---------------------------------------------------------------------------
/// The alignment of audio files that a header asks for.
pub open spec fn alignment_in(header: JsonView) -> Option<u32> {
    u32_at(header, seq!["wem_alignment"@])
}

/// The tree that a header is stored as.
pub open spec fn header_tree(header: JsonView) -> JsonView {
    JsonView::Object(seq![("BKHD"@, header)])
}

/// Is the header complete, and can it be stored?
pub open spec fn header_fits(header: JsonView) -> bool {
    alignment_in(header) is Some && storable(header_tree(header))
}

/// The id that a tree holds: a name or a hash, as the only member of an object that says which.
pub open spec fn id_in(tree: JsonView) -> Option<IdView> {
    match tree {
        JsonView::Object(members) => if members.len() != 1 {
            None
        } else if members[0].0 == "String"@ {
            match members[0].1 {
                JsonView::Str(name) => Some(IdView::Name(name)),
                _ => None,
            }
        } else if members[0].0 == "Hash"@ {
            match as_u32(members[0].1) {
                Some(hash) => Some(IdView::Hash(hash)),
                None => None,
            }
        } else {
            None
        },
        _ => None,
    }
}

/// The object that a tree holds.
pub open spec fn object_in(tree: JsonView) -> Option<ObjectData> {
    match (member(tree, "id"@), member(tree, "body"@)) {
        (Some(id), Some(body)) => match (id_in(id), body_in(body)) {
            (Some(id), Some(body)) => Some(ObjectData { id, body }),
            _ => None,
        },
        _ => None,
    }
}

/// The objects that trees hold, if each holds one.
pub open spec fn objects_in_trees(trees: Seq<JsonView>) -> Option<Seq<ObjectData>>
    decreases trees.len(),
{
    if trees.len() == 0 {
        Some(Seq::empty())
    } else {
        match (objects_in_trees(trees.drop_last()), object_in(trees.last())) {
            (Some(objects), Some(object)) => Some(objects.push(object)),
            _ => None,
        }
    }
}

/// Is the name that of a section of audio?
pub open spec fn names_audio(name: Seq<char>) -> bool {
    name == "DIDX"@ || name == "DATA"@
}

/// The body of a section that a tree holds, if it holds one. It is an object with the name of the
/// section as its only member. Audio is not among what trees hold.
pub open spec fn section_in(tree: JsonView) -> Option<SectionContent> {
    match tree {
        JsonView::Object(members) => if members.len() != 1 || names_audio(members[0].0)
            || !storable(tree) {
            None
        } else if members[0].0 == "BKHD"@ {
            if alignment_in(members[0].1) is Some {
                Some(SectionContent::BKHD(members[0].1))
            } else {
                None
            }
        } else if members[0].0 == "HIRC"@ {
            match member(members[0].1, "objects"@) {
                Some(JsonView::Array(trees)) => match objects_in_trees(trees) {
                    Some(objects) => Some(SectionContent::HIRC(objects)),
                    None => None,
                },
                _ => None,
            }
        } else {
            Some(SectionContent::Other(tree))
        },
        _ => None,
    }
}

/// The tree that the body of a section is stored as, if it is stored as one.
pub open spec fn section_tree(body: SectionContent) -> Option<JsonView> {
    match body {
        SectionContent::BKHD(header) => Some(header_tree(header)),
        SectionContent::Other(tree) => Some(tree),
        _ => None,
    }
}

fn alignment_of(fields: &Json) -> (r: Option<u32>)
    ensures
        r == alignment_in(fields@),
{
    let path = vec!["wem_alignment"];
    assert(path_view(path@) =~= seq!["wem_alignment"@]);
    fields.u32_at(&path)
}

impl BKHDSection {
    /// A header says how audio files are aligned, and can be stored.
    #[verifier::type_invariant]
    closed spec fn complete(self) -> bool {
        header_fits(self.fields@)
    }

    /// The alignment of audio files that the header asks for.
    pub fn wem_alignment(&self) -> (r: u32)
        ensures
            alignment_in(self@) == Some(r),
    {
        proof {
            use_type_invariant(self);
        }
        match alignment_of(&self.fields) {
            Some(alignment) => alignment,
            None => 0,
        }
    }

    /// The tree that the header is stored as.
    pub fn to_json(&self) -> (r: Json)
        ensures
            r@ == header_tree(self@),
            header_fits(self@),
    {
        proof {
            use_type_invariant(self);
        }
        let r = Json::Object(vec![("BKHD".to_owned(), self.fields.dup())]);
        assert(r@->Object_0 =~= header_tree(self@)->Object_0);
        r
    }
}

fn read_id(tree: &Json) -> (r: Option<ObjectId>)
    ensures
        match r {
            Some(id) => id_in(tree@) == Some(id@),
            None => id_in(tree@) is None,
        },
{
    match tree {
        Json::Object(members) => {
            if members.len() != 1 {
                return None;
            }
            assert(tree@->Object_0[0] == (members@[0].0@, members@[0].1@));
            if members[0].0 == "String".to_owned() {
                match &members[0].1 {
                    Json::Str(name) => Some(ObjectId::String(name.clone())),
                    _ => None,
                }
            } else if members[0].0 == "Hash".to_owned() {
                match members[0].1.as_u32() {
                    Some(hash) => Some(ObjectId::Hash(hash)),
                    None => None,
                }
            } else {
                None
            }
        },
        _ => None,
    }
}

fn read_object(tree: &Json) -> (r: Option<HIRCObject>)
    ensures
        match r {
            Some(object) => object_in(tree@) == Some(object@),
            None => object_in(tree@) is None,
        },
{
    match (tree.get("id"), tree.get("body")) {
        (Some(id), Some(body)) => match (read_id(id), HIRCObjectBody::from_json(body.dup())) {
            (Some(id), Ok(body)) => Some(HIRCObject { id, body }),
            _ => None,
        },
        _ => None,
    }
}

proof fn lemma_objects_in_trees_stop(trees: Seq<JsonView>, n: int)
    requires
        0 <= n <= trees.len(),
        objects_in_trees(trees.take(n)) is None,
    ensures
        objects_in_trees(trees) is None,
    decreases trees.len(),
{
    if n == trees.len() {
        assert(trees.take(n) =~= trees);
    } else {
        assert(trees.drop_last().take(n) =~= trees.take(n));
        lemma_objects_in_trees_stop(trees.drop_last(), n);
    }
}

fn read_objects(trees: &Vec<Json>) -> (r: Option<Vec<HIRCObject>>)
    ensures
        match r {
            Some(objects) => objects_in_trees(trees@.map_values(|t: Json| t@)) == Some(
                objects_view(objects@),
            ),
            None => objects_in_trees(trees@.map_values(|t: Json| t@)) is None,
        },
{
    let ghost views = trees@.map_values(|t: Json| t@);
    let mut objects: Vec<HIRCObject> = Vec::new();
    let mut i: usize = 0;
    proof {
        assert(views.take(0) =~= Seq::<JsonView>::empty());
        assert(objects_view(objects@) =~= Seq::<ObjectData>::empty());
    }
    while i < trees.len()
        invariant
            i <= trees@.len(),
            views == trees@.map_values(|t: Json| t@),
            objects_in_trees(views.take(i as int)) == Some(objects_view(objects@)),
        decreases trees@.len() - i,
    {
        let ghost before = objects_view(objects@);
        proof {
            assert(views.take(i + 1).drop_last() =~= views.take(i as int));
            assert(views.take(i + 1).last() == trees@[i as int]@);
        }
        match read_object(&trees[i]) {
            Some(object) => {
                let ghost view = object@;
                objects.push(object);
                assert(objects_view(objects@) =~= before.push(view));
            },
            None => {
                proof {
                    lemma_objects_in_trees_stop(views, i + 1);
                }
                return None;
            },
        }
        i = i + 1;
    }
    assert(views.take(i as int) =~= views);
    Some(objects)
}

impl SectionBody {
    /// The body of a section that a tree holds. Audio is not among what trees hold.
    pub fn from_json(tree: Json) -> (r: Result<SectionBody, JsonError>)
        ensures
            match r {
                Ok(body) => section_in(tree@) == Some(body@),
                Err(e) => section_in(tree@) is None && e == JsonError::NotASection,
            },
    {
        let ghost view = tree@;
        if !tree.is_storable() {
            return Err(JsonError::NotASection);
        }
        match tree {
            Json::Object(mut members) => {
                if members.len() != 1 {
                    return Err(JsonError::NotASection);
                }
                assert(view->Object_0[0] == (members@[0].0@, members@[0].1@));
                if members[0].0 == "DIDX".to_owned() || members[0].0 == "DATA".to_owned() {
                    return Err(JsonError::NotASection);
                }
                if members[0].0 == "BKHD".to_owned() {
                    let (_, fields) = members.remove(0);
                    assert(header_tree(fields@)->Object_0 =~= view->Object_0);
                    if alignment_of(&fields).is_some() {
                        Ok(SectionBody::BKHD(BKHDSection { fields }))
                    } else {
                        Err(JsonError::NotASection)
                    }
                } else if members[0].0 == "HIRC".to_owned() {
                    match members[0].1.get("objects") {
                        Some(Json::Array(trees)) => {
                            assert(Json::Array(*trees)@->Array_0 =~= trees@.map_values(
                                |t: Json| t@,
                            ));
                            match read_objects(trees) {
                                Some(objects) => Ok(SectionBody::HIRC(HIRCSection { objects })),
                                None => Err(JsonError::NotASection),
                            }
                        },
                        _ => Err(JsonError::NotASection),
                    }
                } else {
                    Ok(SectionBody::Other(Json::Object(members)))
                }
            },
            _ => Err(JsonError::NotASection),
        }
    }

    /// The tree that the body is stored as, if it is stored as one.
    pub fn to_json(&self) -> (r: Option<Json>)
        ensures
            match r {
                Some(tree) => section_tree(self@) == Some(tree@),
                None => section_tree(self@) is None,
            },
            self@ matches SectionContent::BKHD(header) ==> header_fits(header),
    {
        match self {
            SectionBody::BKHD(header) => Some(header.to_json()),
            SectionBody::Other(tree) => Some(tree.dup()),
            _ => None,
        }
    }
}

// ---------------------------------------------------------------------------
// Copies
// ---------------------------------------------------------------------------
impl HIRCObject {
    /// A copy of the object.
    pub fn dup(&self) -> (r: HIRCObject)
        ensures
            r@ == self@,
    {
        HIRCObject { id: self.id.dup(), body: self.body.dup() }
    }
}

/// A copy of a list of objects.
pub fn dup_objects(objects: &Vec<HIRCObject>) -> (r: Vec<HIRCObject>)
    ensures
        objects_view(r@) == objects_view(objects@),
{
    let mut r: Vec<HIRCObject> = Vec::new();
    let mut i: usize = 0;
    while i < objects.len()
        invariant
            i <= objects@.len(),
            r@.len() == i,
            forall|k: int| 0 <= k < i ==> (#[trigger] r@[k])@ == objects@[k]@,
        decreases objects@.len() - i,
    {
        r.push(objects[i].dup());
        i = i + 1;
    }
    assert(objects_view(r@) =~= objects_view(objects@));
    r
}

impl BKHDSection {
    /// A copy of the header.
    pub fn dup(&self) -> (r: BKHDSection)
        ensures
            r@ == self@,
    {
        proof {
            use_type_invariant(self);
        }
        BKHDSection { fields: self.fields.dup() }
    }
}

impl SectionBody {
    /// A copy of the body.
    pub fn dup(&self) -> (r: SectionBody)
        ensures
            r@ == self@,
    {
        match self {
            SectionBody::BKHD(header) => SectionBody::BKHD(header.dup()),
            SectionBody::HIRC(hirc) => SectionBody::HIRC(
                HIRCSection { objects: dup_objects(&hirc.objects) },
            ),
            SectionBody::DIDX(didx) => {
                let mut descriptors: Vec<DIDXDescriptor> = Vec::new();
                let mut i: usize = 0;
                while i < didx.descriptors.len()
                    invariant
                        i <= didx.descriptors@.len(),
                        descriptors@ == didx.descriptors@.take(i as int),
                    decreases didx.descriptors@.len() - i,
                {
                    descriptors.push(didx.descriptors[i]);
                    i = i + 1;
                    assert(descriptors@ =~= didx.descriptors@.take(i as int));
                }
                assert(descriptors@ =~= didx.descriptors@);
                SectionBody::DIDX(DIDXSection { descriptors })
            },
            SectionBody::DATA(audio) => {
                let mut data: Vec<u8> = Vec::new();
                let mut i: usize = 0;
                while i < audio.data.len()
                    invariant
                        i <= audio.data@.len(),
                        data@ == audio.data@.take(i as int),
                    decreases audio.data@.len() - i,
                {
                    data.push(audio.data[i]);
                    i = i + 1;
                    assert(data@ =~= audio.data@.take(i as int));
                }
                assert(data@ =~= audio.data@);
                SectionBody::DATA(DATASection { data })
            },
            SectionBody::Other(tree) => SectionBody::Other(tree.dup()),
        }
    }
}

impl Soundbank {
    /// A copy of the bank.
    pub fn dup(&self) -> (r: Soundbank)
        ensures
            r@ == self@,
    {
        let mut sections: Vec<Section> = Vec::new();
        let mut i: usize = 0;
        while i < self.sections.len()
            invariant
                i <= self.sections@.len(),
                sections@.len() == i,
                forall|k: int| 0 <= k < i ==> (#[trigger] sections@[k])@ == self.sections@[k]@,
            decreases self.sections@.len() - i,
        {
            let section = &self.sections[i];
            sections.push(Section { magic: section.magic, body: section.body.dup() });
            i = i + 1;
        }
        let r = Soundbank { sections };
        assert(r@ =~= self@);
        r
    }
}

// ---------------------------------------------------------------------------
// Sections
// ---------------------------------------------------------------------------
/// Does the section hold the objects?
pub open spec fn holds_objects() -> spec_fn(SectionData) -> bool {
    |s: SectionData| s.body is HIRC
}

/// The index of the first section with objects, or the number of sections.
pub open spec fn hirc_index(bank: Seq<SectionData>) -> int {
    first_where(bank, holds_objects())
}

/// The objects of the first section with objects.
pub open spec fn first_objects(bank: Seq<SectionData>) -> Option<Seq<ObjectData>> {
    if hirc_index(bank) < bank.len() {
        Some(bank[hirc_index(bank)].body->HIRC_0)
    } else {
        None
    }
}

/// The objects of the first section with objects; none if there is no such section.
pub open spec fn main_objects(bank: Seq<SectionData>) -> Seq<ObjectData> {
    match first_objects(bank) {
        Some(objects) => objects,
        None => Seq::empty(),
    }
}

/// The bank with other objects in the first section with objects.
pub open spec fn with_objects(
    bank: Seq<SectionData>,
    objects: Seq<ObjectData>,
) -> Seq<SectionData> {
    let i = hirc_index(bank);
    if i < bank.len() {
        bank.update(i, SectionData { magic: bank[i].magic, body: SectionContent::HIRC(objects) })
    } else {
        bank
    }
}

/// The objects of a section.
pub open spec fn objects_in(section: SectionData) -> Seq<ObjectData> {
    match section.body {
        SectionContent::HIRC(objects) => objects,
        _ => Seq::empty(),
    }
}

/// The objects of all sections, section by section.
pub open spec fn all_objects(bank: Seq<SectionData>) -> Seq<ObjectData>
    decreases bank.len(),
{
    if bank.len() == 0 {
        Seq::empty()
    } else {
        all_objects(bank.drop_last()) + objects_in(bank.last())
    }
}

/// New objects are read back, and no other section changes.
pub proof fn lemma_with_objects(bank: Seq<SectionData>, objects: Seq<ObjectData>)
    requires
        first_objects(bank) is Some,
    ensures
        first_objects(with_objects(bank, objects)) == Some(objects),
        hirc_index(with_objects(bank, objects)) == hirc_index(bank),
        with_objects(bank, objects).len() == bank.len(),
        forall|k: int|
            0 <= k < bank.len() && k != hirc_index(bank) ==> #[trigger] with_objects(
                bank,
                objects,
            )[k] == bank[k],
{
    let p = holds_objects();
    lemma_first_where_points(bank, p);
    let after = with_objects(bank, objects);
    let i = hirc_index(bank);
    assert forall|k: int| 0 <= k < i implies !p(#[trigger] after[k]) by {
        assert(!p(bank[k]));
    }
    lemma_first_where(after, p, i);
}

impl Soundbank {
    /// The index of the first section with objects, or the number of sections.
    pub fn hirc_index(&self) -> (r: usize)
        ensures
            r == hirc_index(self@),
            r <= self.sections@.len(),
            r < self.sections@.len() ==> self.sections@[r as int].body is HIRC,
    {
        let ghost p = holds_objects();
        let mut i: usize = 0;
        while i < self.sections.len()
            invariant
                i <= self.sections@.len(),
                p == holds_objects(),
                forall|k: int| 0 <= k < i ==> !p(#[trigger] self@[k]),
            ensures
                i <= self.sections@.len(),
                i == self.sections@.len() || p(self@[i as int]),
                forall|k: int| 0 <= k < i ==> !p(#[trigger] self@[k]),
            decreases self.sections@.len() - i,
        {
            match &self.sections[i].body {
                SectionBody::HIRC(_) => {
                    assert(self@[i as int].body is HIRC);
                    break;
                },
                _ => {},
            }
            assert(!p(self@[i as int]));
            i = i + 1;
        }
        proof {
            lemma_first_where(self@, p, i as int);
        }
        i
    }

    /// The objects of the first section with objects.
    pub fn first_objects(&self) -> (r: Option<&Vec<HIRCObject>>)
        ensures
            match r {
                Some(objects) => first_objects(self@) == Some(objects_view(objects@)),
                None => first_objects(self@) is None,
            },
    {
        let i = self.hirc_index();
        if i < self.sections.len() {
            match &self.sections[i].body {
                SectionBody::HIRC(hirc) => Some(&hirc.objects),
                _ => None,
            }
        } else {
            None
        }
    }

    /// Takes the objects out of the first section with objects.
    pub(crate) fn take_objects(&mut self) -> (r: Option<Vec<HIRCObject>>)
        ensures
            match r {
                Some(objects) => first_objects(old(self)@) == Some(objects_view(objects@))
                    && final(self)@ == with_objects(old(self)@, Seq::empty()),
                None => first_objects(old(self)@) is None && final(self)@ == old(self)@,
            },
    {
        let i = self.hirc_index();
        let ghost before = self@;
        if i < self.sections.len() {
            let section = self.sections.remove(i);
            match section.body {
                SectionBody::HIRC(hirc) => {
                    let empty: Vec<HIRCObject> = Vec::new();
                    let body = SectionBody::HIRC(HIRCSection { objects: empty });
                    assert(objects_view(empty@) =~= Seq::<ObjectData>::empty());
                    self.sections.insert(i, Section { magic: section.magic, body });
                    assert(self@ =~= with_objects(before, Seq::empty()));
                    Some(hirc.objects)
                },
                _ => None,
            }
        } else {
            None
        }
    }

    /// Puts other objects into the first section with objects.
    pub(crate) fn put_objects(&mut self, objects: Vec<HIRCObject>)
        ensures
            final(self)@ == with_objects(old(self)@, objects_view(objects@)),
    {
        let i = self.hirc_index();
        let ghost before = self@;
        if i < self.sections.len() {
            let section = self.sections.remove(i);
            let body = SectionBody::HIRC(HIRCSection { objects });
            self.sections.insert(i, Section { magic: section.magic, body });
            assert(self@ =~= with_objects(before, objects_view(objects@)));
        }
    }
}

// ---------------------------------------------------------------------------
// Objects
// ---------------------------------------------------------------------------
/// Has the object this hash?
pub open spec fn hashed(hash: u32) -> spec_fn(ObjectData) -> bool {
    |o: ObjectData| id_hash(o.id) == hash
}

/// Does one of the objects have this hash?
pub open spec fn has_hash(objects: Seq<ObjectData>, hash: u32) -> bool {
    exists|i: int| 0 <= i < objects.len() && id_hash((#[trigger] objects[i]).id) == hash
}

/// Does one of the objects have this name?
pub open spec fn has_name(objects: Seq<ObjectData>, name: Seq<char>) -> bool {
    exists|i: int| 0 <= i < objects.len() && (#[trigger] objects[i]).id == IdView::Name(name)
}

/// The first object with this hash.
pub open spec fn object_with(objects: Seq<ObjectData>, hash: u32) -> Option<ObjectData> {
    let i = first_where(objects, hashed(hash));
    if 0 <= i < objects.len() {
        Some(objects[i])
    } else {
        None
    }
}

/// The hash of the object that a text means: a hexadecimal or decimal hash that is there, else a
/// name that is there.
pub open spec fn resolved(objects: Seq<ObjectData>, target: Seq<char>) -> Option<u32> {
    if hex_number(target) is Some && has_hash(objects, hex_number(target).unwrap()) {
        hex_number(target)
    } else if number_in(target, 10) is Some && has_hash(
        objects,
        number_in(target, 10).unwrap(),
    ) {
        number_in(target, 10)
    } else if has_name(objects, target) {
        Some(name_hash(target))
    } else {
        None
    }
}

/// What a text resolves to is there.
pub proof fn lemma_resolved_is_there(objects: Seq<ObjectData>, target: Seq<char>)
    ensures
        resolved(objects, target) matches Some(hash) ==> has_hash(objects, hash),
{
    if has_name(objects, target) {
        let i = choose|i: int|
            0 <= i < objects.len() && (#[trigger] objects[i]).id == IdView::Name(target);
        assert(id_hash(objects[i].id) == name_hash(target));
    }
}

/// An object is meant by its hash in decimal.
pub proof fn lemma_decimal_resolves(objects: Seq<ObjectData>, hash: u32)
    requires
        has_hash(objects, hash),
    ensures
        resolved(objects, decimal_text(hash as nat)) == Some(hash),
{
    let text = decimal_text(hash as nat);
    lemma_decimal_reads_back(hash);
    lemma_decimal_has_no_letters(hash as nat);
    if text.len() >= 2 {
        assert('0' <= text[1] <= '9');
    }
}

/// An object is meant by its hash in hexadecimal, however that is written.
pub proof fn lemma_numeral_resolves(objects: Seq<ObjectData>, text: Seq<char>, hash: u32)
    requires
        has_hash(objects, hash),
        hex_number(text) == Some(hash),
    ensures
        resolved(objects, text) == Some(hash),
{
}

/// An object is meant by its hash in hexadecimal, behind `0x` or `0X`, in capitals or not.
pub proof fn lemma_hex_resolves(objects: Seq<ObjectData>, hash: u32)
    requires
        has_hash(objects, hash),
    ensures
        resolved(objects, hex_id_text(hash)) == Some(hash),
        resolved(objects, capital_hex_id_text(hash)) == Some(hash),
        resolved(objects, "0X"@ + hex_text(hash as nat, 8)) == Some(hash),
        resolved(
            objects,
            "0X"@ + hex_text(hash as nat, 8).map_values(|c: char| upper_digit(c)),
        ) == Some(hash),
{
    reveal_strlit("0x");
    reveal_strlit("0X");
    lemma_hex_reads_back(hash);
    let digits = hex_text(hash as nat, 8);
    let capitals = digits.map_values(|c: char| upper_digit(c));
    assert(("0x"@ + digits).skip(2) =~= digits);
    assert(("0x"@ + capitals).skip(2) =~= capitals);
    assert(("0X"@ + digits).skip(2) =~= digits);
    assert(("0X"@ + capitals).skip(2) =~= capitals);
}

/// Is the text the numeral of a hash that is there?
pub open spec fn is_numeral_of_hash(objects: Seq<ObjectData>, text: Seq<char>) -> bool {
    ||| hex_number(text) is Some && has_hash(objects, hex_number(text)->Some_0)
    ||| number_in(text, 10) is Some && has_hash(objects, number_in(text, 10)->Some_0)
}

/// An object is meant by its name, unless the name is the numeral of a hash that is there. A text
/// that is neither a name nor such a numeral means nothing.
pub proof fn lemma_name_resolves(objects: Seq<ObjectData>, name: Seq<char>)
    requires
        !is_numeral_of_hash(objects, name),
    ensures
        has_name(objects, name) ==> resolved(objects, name) == Some(name_hash(name)),
        !has_name(objects, name) ==> resolved(objects, name) is None,
{
}

/// A name that does not look numeric is no numeral.
pub proof fn lemma_name_is_no_numeral(objects: Seq<ObjectData>, name: Seq<char>)
    requires
        numeric_id(name) is None,
    ensures
        !is_numeral_of_hash(objects, name),
{
    if has_hex_prefix(name) {
        assert(digit_value(name[1], 10) is None);
        assert(unsigned_part(name) == name);
        assert(!all_digits(name, 10));
    }
}

/// A hash is there exactly if there is an object with it.
pub proof fn lemma_object_with(objects: Seq<ObjectData>, hash: u32)
    ensures
        has_hash(objects, hash) == (object_with(objects, hash) is Some),
        object_with(objects, hash) matches Some(o) ==> id_hash(o.id) == hash,
        0 <= first_where(objects, hashed(hash)) <= objects.len(),
        object_with(objects, hash) is Some == (first_where(objects, hashed(hash)) < objects.len()),
{
    lemma_first_where_points(objects, hashed(hash));
    if has_hash(objects, hash) {
        let i = choose|i: int|
            0 <= i < objects.len() && id_hash((#[trigger] objects[i]).id) == hash;
        assert(hashed(hash)(objects[i]));
    }
}

/// The index of the first object with this hash, or the number of objects.
pub fn position_of(objects: &Vec<HIRCObject>, hash: u32) -> (r: usize)
    ensures
        r == first_where(objects_view(objects@), hashed(hash)),
        r <= objects@.len(),
        (r < objects@.len()) == has_hash(objects_view(objects@), hash),
{
    let ghost views = objects_view(objects@);
    let ghost p = hashed(hash);
    let mut i: usize = 0;
    while i < objects.len()
        invariant
            i <= objects@.len(),
            p == hashed(hash),
            views == objects_view(objects@),
            forall|k: int| 0 <= k < i ==> !p(#[trigger] views[k]),
        ensures
            i <= objects@.len(),
            i == objects@.len() || p(views[i as int]),
            forall|k: int| 0 <= k < i ==> !p(#[trigger] views[k]),
        decreases objects@.len() - i,
    {
        assert(views[i as int] == objects@[i as int]@);
        if objects[i].id.as_hash() == hash {
            break;
        }
        i = i + 1;
    }
    proof {
        lemma_first_where(views, p, i as int);
        lemma_object_with(views, hash);
    }
    i
}

/// Does one of the objects have this name?
pub fn any_named(objects: &Vec<HIRCObject>, name: &str) -> (r: bool)
    ensures
        r == has_name(objects_view(objects@), name@),
{
    let wanted = name.to_owned();
    let ghost views = objects_view(objects@);
    let mut i: usize = 0;
    while i < objects.len()
        invariant
            i <= objects@.len(),
            wanted@ == name@,
            views == objects_view(objects@),
            forall|k: int| 0 <= k < i ==> (#[trigger] views[k]).id != IdView::Name(name@),
        decreases objects@.len() - i,
    {
        assert(views[i as int] == objects@[i as int]@);
        if let ObjectId::String(own) = &objects[i].id {
            if *own == wanted {
                assert(views[i as int].id == IdView::Name(name@));
                return true;
            }
        }
        i = i + 1;
    }
    false
}

/// The objects of joined sections are the objects of the ones, then those of the others.
pub proof fn lemma_all_objects(bank: Seq<SectionData>, k: int)
    requires
        0 <= k <= bank.len(),
    ensures
        all_objects(bank) == all_objects(bank.take(k)) + all_objects(bank.skip(k)),
    decreases bank.len(),
{
    if k == bank.len() {
        assert(bank.take(k) =~= bank);
        assert(bank.skip(k) =~= Seq::<SectionData>::empty());
        assert(all_objects(bank) =~= all_objects(bank) + Seq::<ObjectData>::empty());
    } else {
        lemma_all_objects(bank.drop_last(), k);
        assert(bank.drop_last().take(k) =~= bank.take(k));
        assert(bank.drop_last().skip(k) =~= bank.skip(k).drop_last());
        assert(bank.skip(k).last() == bank.last());
        let a = all_objects(bank.take(k));
        let b = all_objects(bank.skip(k).drop_last());
        let c = objects_in(bank.last());
        assert(a + b + c =~= a + (b + c));
    }
}

proof fn lemma_first_where_joined(
    a: Seq<ObjectData>,
    b: Seq<ObjectData>,
    p: spec_fn(ObjectData) -> bool,
)
    ensures
        first_where(a + b, p) == (if first_where(a, p) < a.len() {
            first_where(a, p)
        } else {
            a.len() + first_where(b, p)
        }),
{
    let s = a + b;
    lemma_first_where_points(a, p);
    lemma_first_where_points(b, p);
    let i = if first_where(a, p) < a.len() {
        first_where(a, p)
    } else {
        a.len() + first_where(b, p)
    };
    assert forall|k: int| 0 <= k < i implies !p(#[trigger] s[k]) by {
        if k < a.len() {
            assert(s[k] == a[k]);
        } else {
            assert(s[k] == b[k - a.len()]);
        }
    }
    if i < s.len() {
        if i < a.len() {
            assert(s[i] == a[i]);
        } else {
            assert(s[i] == b[i - a.len()]);
        }
    }
    lemma_first_where(s, p, i);
}

impl Soundbank {
    /// The first object with this hash, in any section.
    pub fn find_object(&self, id: u32) -> (r: Option<&HIRCObject>)
        ensures
            match r {
                Some(o) => object_with(all_objects(self@), id) == Some(o@),
                None => object_with(all_objects(self@), id) is None,
            },
    {
        let ghost bank = self@;
        let mut i: usize = 0;
        assert(bank.skip(0) =~= bank);
        while i < self.sections.len()
            invariant
                i <= self.sections@.len(),
                bank == self@,
                bank.len() == self.sections@.len(),
                object_with(all_objects(bank), id) == object_with(
                    all_objects(bank.skip(i as int)),
                    id,
                ),
            decreases self.sections@.len() - i,
        {
            let ghost rest = bank.skip(i as int);
            proof {
                lemma_all_objects(rest, 1);
                let one = rest.take(1);
                assert(one.drop_last() =~= Seq::<SectionData>::empty());
                assert(all_objects(one.drop_last()) =~= Seq::<ObjectData>::empty());
                assert(one.last() == rest[0]);
                assert(all_objects(one) =~= objects_in(rest[0]));
                assert(rest.skip(1) =~= bank.skip(i + 1));
                lemma_first_where_joined(
                    objects_in(rest[0]),
                    all_objects(bank.skip(i + 1)),
                    hashed(id),
                );
                lemma_object_with(objects_in(rest[0]), id);
                lemma_object_with(all_objects(bank.skip(i + 1)), id);
                assert(rest[0] == self.sections@[i as int]@);
            }
            match &self.sections[i].body {
                SectionBody::HIRC(hirc) => {
                    let k = position_of(&hirc.objects, id);
                    if k < hirc.objects.len() {
                        return Some(&hirc.objects[k]);
                    }
                },
                _ => {},
            }
            i = i + 1;
        }
        assert(bank.skip(i as int) =~= Seq::<SectionData>::empty());
        None
    }

    /// Does an object with this hash stand in any section?
    pub fn has_id(&self, id: u32) -> (r: bool)
        ensures
            r == has_hash(all_objects(self@), id),
    {
        proof {
            lemma_object_with(all_objects(self@), id);
        }
        self.find_object(id).is_some()
    }

    /// Does an object with this name stand in any section?
    pub fn has_name(&self, name: &str) -> (r: bool)
        ensures
            r == has_name(all_objects(self@), name@),
    {
        let ghost bank = self@;
        let mut i: usize = 0;
        assert(bank.take(0) =~= Seq::<SectionData>::empty());
        while i < self.sections.len()
            invariant
                i <= self.sections@.len(),
                bank == self@,
                bank.len() == self.sections@.len(),
                !has_name(all_objects(bank.take(i as int)), name@),
            decreases self.sections@.len() - i,
        {
            let ghost a = all_objects(bank.take(i as int));
            let ghost b = objects_in(bank[i as int]);
            assert(bank.take(i + 1).drop_last() =~= bank.take(i as int));
            assert(all_objects(bank.take(i + 1)) == a + b);
            match &self.sections[i].body {
                SectionBody::HIRC(hirc) => {
                    if any_named(&hirc.objects, name) {
                        proof {
                            let k = choose|k: int|
                                0 <= k < b.len() && (#[trigger] b[k]).id == IdView::Name(name@);
                            assert((a + b)[a.len() + k] == b[k]);
                            lemma_all_objects(bank, i + 1);
                            let whole = all_objects(bank);
                            assert(whole[a.len() + k] == b[k]);
                        }
                        return true;
                    }
                },
                _ => {},
            }
            proof {
                assert(!has_name(b, name@));
                assert forall|k: int| 0 <= k < (a + b).len() implies (#[trigger] (a + b)[k]).id
                    != IdView::Name(name@) by {
                    if k < a.len() {
                        assert((a + b)[k] == a[k]);
                    } else {
                        assert((a + b)[k] == b[k - a.len()]);
                    }
                }
            }
            i = i + 1;
        }
        assert(bank.take(i as int) =~= bank);
        false
    }

    /// The name of the first object with this hash, if it has one.
    pub fn lookup_label(&self, id: u32) -> (r: Option<String>)
        ensures
            text_view(r) == label_of_hash(all_objects(self@), id),
    {
        match self.find_object(id) {
            Some(o) => o.id.name(),
            None => None,
        }
    }

    /// The kind of the first object with this hash.
    pub fn lookup_kind(&self, id: u32) -> (r: Option<BodyKind>)
        ensures
            r == kind_of_hash(all_objects(self@), id),
    {
        match self.find_object(id) {
            Some(o) => Some(o.body.kind()),
            None => None,
        }
    }

    /// The hash of the object that a text means, in any section.
    pub fn resolve_target(&self, target: &str) -> (r: Option<u32>)
        ensures
            r == resolved(all_objects(self@), target@),
    {
        if let Some(v) = parse_hex(target) {
            if self.has_id(v) {
                return Some(v);
            }
        }
        if let Some(v) = parse_decimal(target) {
            if self.has_id(v) {
                return Some(v);
            }
        }
        if self.has_name(target) {
            Some(crate::ids::hash_name(target))
        } else {
            None
        }
    }
}

/// The name of the first object with this hash.
pub open spec fn label_of_hash(objects: Seq<ObjectData>, id: u32) -> Option<Seq<char>> {
    match object_with(objects, id) {
        Some(o) => id_name(o.id),
        None => None,
    }
}

/// The kind of the first object with this hash.
pub open spec fn kind_of_hash(objects: Seq<ObjectData>, id: u32) -> Option<BodyKind> {
    match object_with(objects, id) {
        Some(o) => Some(o.body.kind),
        None => None,
    }
}

} // verus!
