//! What the pages of the viewer show.

use vstd::prelude::*;
use vstd::utf8::encode_utf8;

use crate::bank::{
    all_objects, is_numeral_of_hash, kind_of_hash, label_of_hash, lemma_decimal_resolves,
    lemma_name_resolves, object_with, resolved, ObjectData, Soundbank,
};
use crate::body::{
    body_tree, direct_parent, is_container, lemma_body_in_tree, reads_as, references, HIRCObjectBody,
};
use crate::ids::{id_hash, id_name, text_view, IdView};
use crate::json_text::pretty_json;
use crate::kind::{kind_name, BodyKind};
use crate::storage::ObjectSummary;
use crate::text::{chars_of, decimal, decimal_text, hex_id, hex_id_text, join, join3, lines, lines_of};

verus! {

/// At most so many objects are shown in a list.
pub const SEARCH_CAP: u64 = 500;

// ---------------------------------------------------------------------------
// Links
// ---------------------------------------------------------------------------
/// The path of an object's page.
pub open spec fn object_path(target: Seq<char>) -> Seq<char> {
    "/object/"@ + target
}

/// The path of an object's page.
pub fn object_href(target: &str) -> (r: String)
    ensures
        r@ == object_path(target@),
{
    join("/object/", target)
}

/// A page, marked as HTML.
pub fn wrap_doctype(html: &str) -> (r: String)
    ensures
        r@ == "<!DOCTYPE html>"@ + html@,
{
    join("<!DOCTYPE html>", html)
}

/// The text that an object is named by in links and forms: its label, or its hash in decimal.
pub open spec fn target_text(label: Option<Seq<char>>, id: u32) -> Seq<char> {
    match label {
        Some(label) => label,
        None => decimal_text(id as nat),
    }
}

/// The text that an object is shown by: its label, or its hash in hexadecimal.
pub open spec fn display_text(label: Option<Seq<char>>, id: u32) -> Seq<char> {
    match label {
        Some(label) => label,
        None => hex_id_text(id),
    }
}

fn target_of(label: &Option<String>, id: u32) -> (r: String)
    ensures
        r@ == target_text(text_view(*label), id),
{
    match label {
        Some(label) => label.clone(),
        None => decimal(id as u64),
    }
}

fn display_of(label: &Option<String>, id: u32) -> (r: String)
    ensures
        r@ == display_text(text_view(*label), id),
{
    match label {
        Some(label) => label.clone(),
        None => hex_id(id),
    }
}

/// A link to an object. It is muted if the object has no label.
#[derive(Debug)]
pub struct Link {
    pub href: String,
    pub text: String,
    pub muted: bool,
}

/// A link, as plain data.
#[verifier::ext_equal]
pub struct LinkData {
    pub href: Seq<char>,
    pub text: Seq<char>,
    pub muted: bool,
}

impl View for Link {
    type V = LinkData;

    open spec fn view(&self) -> LinkData {
        LinkData { href: self.href@, text: self.text@, muted: self.muted }
    }
}

/// The link to an object.
pub open spec fn link(label: Option<Seq<char>>, id: u32) -> LinkData {
    LinkData {
        href: object_path(target_text(label, id)),
        text: display_text(label, id),
        muted: label is None,
    }
}

fn link_to(label: &Option<String>, id: u32) -> (r: Link)
    ensures
        r@ == link(text_view(*label), id),
{
    Link {
        href: object_href(target_of(label, id).as_str()),
        text: display_of(label, id),
        muted: label.is_none(),
    }
}

// ---------------------------------------------------------------------------
// Searching
// ---------------------------------------------------------------------------
/// The character that takes the meaning from the one behind it in a pattern.
pub const ESCAPE: char = '\\';

/// Does the character mean more than itself in a pattern?
pub open spec fn is_wild(c: char) -> bool {
    c == '%' || c == '_' || c == ESCAPE
}

/// The pattern for a text itself: every character that means more than itself is escaped.
pub open spec fn escaped(text: Seq<char>) -> Seq<char>
    decreases text.len(),
{
    if text.len() == 0 {
        Seq::empty()
    } else if is_wild(text.last()) {
        escaped(text.drop_last()).push(ESCAPE).push(text.last())
    } else {
        escaped(text.drop_last()).push(text.last())
    }
}

/// The one text that a pattern stands for; none if it holds a wildcard, or an escape with nothing
/// behind it.
pub open spec fn literal_in(pattern: Seq<char>) -> Option<Seq<char>>
    decreases pattern.len(),
{
    if pattern.len() == 0 {
        Some(Seq::empty())
    } else if pattern[0] == ESCAPE {
        if pattern.len() == 1 {
            None
        } else {
            match literal_in(pattern.skip(2)) {
                Some(rest) => Some(seq![pattern[1]] + rest),
                None => None,
            }
        }
    } else if is_wild(pattern[0]) {
        None
    } else {
        match literal_in(pattern.skip(1)) {
            Some(rest) => Some(seq![pattern[0]] + rest),
            None => None,
        }
    }
}

proof fn lemma_literal_joined(a: Seq<char>, b: Seq<char>)
    requires
        literal_in(a) is Some,
        literal_in(b) is Some,
    ensures
        literal_in(a + b) == Some(literal_in(a)->Some_0 + literal_in(b)->Some_0),
    decreases a.len(),
{
    if a.len() == 0 {
        assert(a + b =~= b);
        assert(Seq::<char>::empty() + literal_in(b)->Some_0 =~= literal_in(b)->Some_0);
    } else {
        let n: int = if a[0] == ESCAPE {
            2
        } else {
            1
        };
        lemma_literal_joined(a.skip(n), b);
        assert((a + b).skip(n) =~= a.skip(n) + b);
        let one = seq![a[n - 1]];
        let mid = literal_in(a.skip(n))->Some_0;
        let end = literal_in(b)->Some_0;
        assert(one + (mid + end) =~= (one + mid) + end);
    }
}

/// The escaped text stands for the text itself.
pub proof fn lemma_escaped_is_literal(text: Seq<char>)
    ensures
        literal_in(escaped(text)) == Some(text),
    decreases text.len(),
{
    if text.len() == 0 {
        assert(text =~= Seq::<char>::empty());
    } else {
        let front = text.drop_last();
        let c = text.last();
        lemma_escaped_is_literal(front);
        let tail = if is_wild(c) {
            seq![ESCAPE, c]
        } else {
            seq![c]
        };
        let none = Seq::<char>::empty();
        assert(literal_in(none) == Some(none));
        if is_wild(c) {
            assert(tail.skip(2) =~= none);
            assert(seq![c] + none =~= seq![c]);
            assert(literal_in(tail) == Some(seq![c]));
        } else {
            assert(tail.skip(1) =~= none);
            assert(seq![c] + none =~= seq![c]);
            assert(literal_in(tail) == Some(seq![c]));
        }
        lemma_literal_joined(escaped(front), tail);
        assert(escaped(text) =~= escaped(front) + tail);
        assert(front + seq![c] =~= text);
    }
}

/// The pattern for a text itself.
pub fn escape(text: &str) -> (r: String)
    ensures
        r@ == escaped(text@),
{
    let chars = chars_of(text);
    let mut r = String::new();
    let mut i: usize = 0;
    proof {
        assert(chars@.take(0) =~= Seq::<char>::empty());
        assert(r@ =~= Seq::<char>::empty());
    }
    while i < chars.len()
        invariant
            i <= chars@.len(),
            r@ == escaped(chars@.take(i as int)),
        decreases chars@.len() - i,
    {
        assert(chars@.take(i + 1).drop_last() =~= chars@.take(i as int));
        let c = chars[i];
        if c == '%' || c == '_' || c == ESCAPE {
            r.push(ESCAPE);
        }
        r.push(c);
        i = i + 1;
    }
    assert(chars@.take(i as int) =~= chars@);
    r
}

/// The filters of a search: patterns for the kind and for the label. An empty text is no filter.
/// The kind is matched as it is, the label if the text is part of it.
pub fn search_filters(q: &str, kind: &str) -> (r: (Option<String>, Option<String>))
    ensures
        text_view(r.0) == (if kind@.len() == 0 {
            None
        } else {
            Some(escaped(kind@))
        }),
        text_view(r.1) == (if q@.len() == 0 {
            None
        } else {
            Some("%"@ + escaped(q@) + "%"@)
        }),
{
    let kind_filter = if kind.unicode_len() == 0 {
        None
    } else {
        Some(escape(kind))
    };
    let label_filter = if q.unicode_len() == 0 {
        None
    } else {
        Some(join3("%", escape(q).as_str(), "%"))
    };
    (kind_filter, label_filter)
}

/// The kinds that a search can be limited to, in the order in which they are offered.
pub fn search_kinds() -> (r: Vec<BodyKind>)
    ensures
        r@ == seq![
            BodyKind::Event,
            BodyKind::Action,
            BodyKind::Sound,
            BodyKind::RandomSequenceContainer,
            BodyKind::SwitchContainer,
            BodyKind::ActorMixer,
            BodyKind::LayerContainer,
            BodyKind::Bus,
            BodyKind::AuxiliaryBus,
            BodyKind::MusicSegment,
            BodyKind::MusicTrack,
            BodyKind::MusicSwitchContainer,
            BodyKind::MusicRandomSequenceContainer,
            BodyKind::DialogueEvent,
            BodyKind::Attenuation,
            BodyKind::EffectShareSet,
            BodyKind::EffectCustom,
            BodyKind::AudioDevice,
            BodyKind::State,
            BodyKind::TimeModulator,
        ],
{
    vec![
        BodyKind::Event,
        BodyKind::Action,
        BodyKind::Sound,
        BodyKind::RandomSequenceContainer,
        BodyKind::SwitchContainer,
        BodyKind::ActorMixer,
        BodyKind::LayerContainer,
        BodyKind::Bus,
        BodyKind::AuxiliaryBus,
        BodyKind::MusicSegment,
        BodyKind::MusicTrack,
        BodyKind::MusicSwitchContainer,
        BodyKind::MusicRandomSequenceContainer,
        BodyKind::DialogueEvent,
        BodyKind::Attenuation,
        BodyKind::EffectShareSet,
        BodyKind::EffectCustom,
        BodyKind::AudioDevice,
        BodyKind::State,
        BodyKind::TimeModulator,
    ]
}

/// A row of a list of objects.
#[derive(Debug)]
pub struct ObjectRow {
    pub id: u32,
    pub kind: String,
    pub parent: String,
    pub link: Link,
}

/// A row of a list of objects, as plain data.
#[verifier::ext_equal]
pub struct ObjectRowData {
    pub id: u32,
    pub kind: Seq<char>,
    pub parent: Seq<char>,
    pub link: LinkData,
}

impl View for ObjectRow {
    type V = ObjectRowData;

    open spec fn view(&self) -> ObjectRowData {
        ObjectRowData {
            id: self.id,
            kind: self.kind@,
            parent: self.parent@,
            link: self.link@,
        }
    }
}

/// Rows of a list of objects, as plain data.
pub open spec fn object_rows_view(rows: Seq<ObjectRow>) -> Seq<ObjectRowData> {
    rows.map_values(|r: ObjectRow| r@)
}

/// The row of an object. Zero is no parent.
pub open spec fn row_of(object: ObjectSummary) -> ObjectRowData {
    ObjectRowData {
        id: object.id_hash,
        kind: object.body_kind@,
        parent: match object.direct_parent {
            Some(parent) => if parent != 0 {
                decimal_text(parent as nat)
            } else {
                Seq::empty()
            },
            None => Seq::empty(),
        },
        link: link(text_view(object.label), object.id_hash),
    }
}

fn make_row(object: &ObjectSummary) -> (r: ObjectRow)
    ensures
        r@ == row_of(*object),
{
    let parent = match object.direct_parent {
        Some(parent) => if parent != 0 {
            decimal(parent as u64)
        } else {
            String::new()
        },
        None => String::new(),
    };
    assert(parent@ =~= row_of(*object).parent);
    ObjectRow {
        id: object.id_hash,
        kind: object.body_kind.clone(),
        parent,
        link: link_to(&object.label, object.id_hash),
    }
}

/// The rows of objects.
pub fn make_rows(objects: &Vec<ObjectSummary>) -> (r: Vec<ObjectRow>)
    ensures
        object_rows_view(r@) == objects@.map_values(|o: ObjectSummary| row_of(o)),
{
    let mut r: Vec<ObjectRow> = Vec::new();
    let mut i: usize = 0;
    while i < objects.len()
        invariant
            i <= objects@.len(),
            r@.len() == i,
            forall|k: int| 0 <= k < i ==> (#[trigger] r@[k])@ == row_of(objects@[k]),
        decreases objects@.len() - i,
    {
        r.push(make_row(&objects[i]));
        i = i + 1;
    }
    assert(object_rows_view(r@) =~= objects@.map_values(|o: ObjectSummary| row_of(o)));
    r
}

/// How many objects match a search, and how many of them are shown.
#[derive(Debug, Clone, Copy, PartialEq, Eq, Structural)]
pub enum CountLine {
    /// None matches.
    NoMatches,
    /// More match than are shown.
    Truncated { returned: u64, total: u64 },
    /// All that match are shown.
    All { total: u64 },
}

/// How many objects match a search, and how many of them are shown.
pub fn count_line(returned: u64, total_match: u64) -> (r: CountLine)
    ensures
        r == (if total_match == 0 {
            CountLine::NoMatches
        } else if total_match > returned {
            CountLine::Truncated { returned, total: total_match }
        } else {
            CountLine::All { total: total_match }
        }),
{
    if total_match == 0 {
        CountLine::NoMatches
    } else if total_match > returned {
        CountLine::Truncated { returned, total: total_match }
    } else {
        CountLine::All { total: total_match }
    }
}

/// The word for so many matches.
pub fn match_word(total: u64) -> (r: &'static str)
    ensures
        r@ == (if total == 1 {
            "match"@
        } else {
            "matches"@
        }),
{
    if total == 1 {
        "match"
    } else {
        "matches"
    }
}

// ---------------------------------------------------------------------------
// Objects
// ---------------------------------------------------------------------------
/// The status of an object's page: not found, refused, or fine.
pub fn page_status(found: bool, refused: bool) -> (r: u16)
    ensures
        r == (if !found {
            404u16
        } else if refused {
            400u16
        } else {
            200u16
        }),
{
    if !found {
        404
    } else if refused {
        400
    } else {
        200
    }
}

/// The name of a kind, or of no kind.
pub open spec fn kind_text(kind: Option<BodyKind>) -> Seq<char> {
    match kind {
        Some(kind) => kind_name(kind),
        None => "external"@,
    }
}

fn kind_text_of(kind: Option<BodyKind>) -> (r: &'static str)
    ensures
        r@ == kind_text(kind),
{
    match kind {
        Some(kind) => kind.name(),
        None => "external",
    }
}

/// An id that an object refers to.
#[derive(Debug)]
pub struct ReferenceRow {
    pub id: u32,
    pub kind: &'static str,
    pub link: Link,
    pub removable: bool,
}

/// An id that an object refers to, as plain data.
#[verifier::ext_equal]
pub struct ReferenceRowData {
    pub id: u32,
    pub kind: Seq<char>,
    pub link: LinkData,
    pub removable: bool,
}

impl View for ReferenceRow {
    type V = ReferenceRowData;

    open spec fn view(&self) -> ReferenceRowData {
        ReferenceRowData {
            id: self.id,
            kind: self.kind@,
            link: self.link@,
            removable: self.removable,
        }
    }
}

/// References, as plain data.
pub open spec fn reference_rows_view(rows: Seq<ReferenceRow>) -> Seq<ReferenceRowData> {
    rows.map_values(|r: ReferenceRow| r@)
}

/// What is shown of an id that an object refers to.
pub open spec fn reference(
    objects: Seq<ObjectData>,
    id: u32,
    removable: bool,
) -> ReferenceRowData {
    ReferenceRowData {
        id,
        kind: kind_text(kind_of_hash(objects, id)),
        link: link(label_of_hash(objects, id), id),
        removable,
    }
}

/// What is shown of an id that an object refers to.
pub fn reference_row(soundbank: &Soundbank, id: u32, removable: bool) -> (r: ReferenceRow)
    ensures
        r@ == reference(all_objects(soundbank@), id, removable),
{
    let label = soundbank.lookup_label(id);
    ReferenceRow {
        id,
        kind: kind_text_of(soundbank.lookup_kind(id)),
        link: link_to(&label, id),
        removable,
    }
}

/// The page of an object.
#[derive(Debug)]
pub struct ObjectDetails {
    pub id: u32,
    pub kind: &'static str,
    pub label: Option<String>,
    /// What the object is shown by.
    pub title: String,
    /// What the object is named by in forms.
    pub target: String,
    /// The object above it.
    pub parent: Option<ReferenceRow>,
    pub references: Vec<ReferenceRow>,
    /// Can children be added?
    pub can_add_child: bool,
    pub body_json: String,
    pub body_lines: usize,
    pub body_bytes: usize,
    /// Is the editor of the body open?
    pub editor_open: bool,
}

/// The page of an object, as plain data.
#[verifier::ext_equal]
pub struct DetailsData {
    pub id: u32,
    pub kind: Seq<char>,
    pub label: Option<Seq<char>>,
    pub title: Seq<char>,
    pub target: Seq<char>,
    pub parent: Option<ReferenceRowData>,
    pub references: Seq<ReferenceRowData>,
    pub can_add_child: bool,
    pub body_json: Seq<char>,
    pub body_lines: nat,
    pub body_bytes: nat,
    pub editor_open: bool,
}

impl View for ObjectDetails {
    type V = DetailsData;

    open spec fn view(&self) -> DetailsData {
        DetailsData {
            id: self.id,
            kind: self.kind@,
            label: text_view(self.label),
            title: self.title@,
            target: self.target@,
            parent: match self.parent {
                Some(parent) => Some(parent@),
                None => None,
            },
            references: reference_rows_view(self.references@),
            can_add_child: self.can_add_child,
            body_json: self.body_json@,
            body_lines: self.body_lines as nat,
            body_bytes: self.body_bytes as nat,
            editor_open: self.editor_open,
        }
    }
}

/// The text of an object's body on its page: what was typed but not saved, else the body itself.
pub open spec fn body_text(object: ObjectData, pending: Option<Seq<char>>) -> Seq<char> {
    match pending {
        Some(text) => text,
        None => pretty_json(body_tree(object.body)),
    }
}

/// The page of an object.
pub open spec fn details(
    objects: Seq<ObjectData>,
    id: u32,
    object: ObjectData,
    pending: Option<Seq<char>>,
    refused: bool,
) -> DetailsData {
    let label = id_name(object.id);
    let container = is_container(object.body.kind);
    let text = body_text(object, pending);
    DetailsData {
        id,
        kind: kind_name(object.body.kind),
        label,
        title: display_text(label, id),
        target: target_text(label, id),
        parent: match direct_parent(object.body) {
            Some(parent) => if parent != 0 {
                Some(reference(objects, parent, false))
            } else {
                None
            },
            None => None,
        },
        references: references(object.body).map_values(
            |rid: u32| reference(objects, rid, container),
        ),
        can_add_child: container,
        body_json: text,
        body_lines: lines_of(text).len(),
        body_bytes: encode_utf8(text).len(),
        editor_open: pending is Some || refused,
    }
}

fn reference_rows(soundbank: &Soundbank, ids: &Vec<u32>, removable: bool) -> (r: Vec<ReferenceRow>)
    ensures
        reference_rows_view(r@) == ids@.map_values(
            |rid: u32| reference(all_objects(soundbank@), rid, removable),
        ),
{
    let ghost objects = all_objects(soundbank@);
    let mut r: Vec<ReferenceRow> = Vec::new();
    let mut i: usize = 0;
    while i < ids.len()
        invariant
            i <= ids@.len(),
            objects == all_objects(soundbank@),
            r@.len() == i,
            forall|k: int|
                0 <= k < i ==> (#[trigger] r@[k])@ == reference(objects, ids@[k], removable),
        decreases ids@.len() - i,
    {
        r.push(reference_row(soundbank, ids[i], removable));
        i = i + 1;
    }
    assert(reference_rows_view(r@) =~= ids@.map_values(
        |rid: u32| reference(objects, rid, removable),
    ));
    r
}

fn shown_body(body: &HIRCObjectBody, pending: Option<String>) -> (r: String)
    ensures
        r@ == (match text_view(pending) {
            Some(text) => text,
            None => pretty_json(body_tree(body@)),
        }),
        pending is None ==> reads_as(r@, body@),
{
    match pending {
        Some(text) => text,
        None => {
            let tree = body.to_json();
            proof {
                lemma_body_in_tree(body@);
            }
            match tree.to_pretty_text() {
                Ok(text) => text,
                Err(_) => String::new(),
            }
        },
    }
}

/// The page of the object with a hash, if there is one. Where nothing else was typed, the text on
/// it reads as the body of the object.
pub fn object_details(soundbank: &Soundbank, id: u32, pending: Option<String>, refused: bool) -> (r:
    Option<ObjectDetails>)
    ensures
        ({
            let objects = all_objects(soundbank@);
            match r {
                Some(page) => {
                    &&& object_with(objects, id) is Some
                    &&& page@ == details(
                        objects,
                        id,
                        object_with(objects, id)->Some_0,
                        text_view(pending),
                        refused,
                    )
                    &&& pending is None ==> reads_as(
                        page@.body_json,
                        object_with(objects, id)->Some_0.body,
                    )
                },
                None => object_with(objects, id) is None,
            }
        }),
{
    let object = match soundbank.find_object(id) {
        Some(object) => object,
        None => {
            return None;
        },
    };
    let label = object.id.name();
    let (parent_id, _) = object.body.extract_routing();
    let parent = match parent_id {
        Some(parent) => if parent != 0 {
            Some(reference_row(soundbank, parent, false))
        } else {
            None
        },
        None => None,
    };
    let container = object.body.has_children();
    let refs = object.body.references_of();
    let references = reference_rows(soundbank, &refs, container);
    let editor_open = pending.is_some() || refused;
    let body_json = shown_body(&object.body, pending);
    let all_lines = lines(body_json.as_str());
    let ghost texts = all_lines@.map_values(|l: String| l@);
    assert(texts.len() == all_lines@.len());
    let body_lines = all_lines.len();
    let body_bytes = body_json.as_str().as_bytes().len();
    Some(
        ObjectDetails {
            id,
            kind: object.body.kind().name(),
            title: display_of(&label, id),
            target: target_of(&label, id),
            label,
            parent,
            references,
            can_add_child: container,
            body_json,
            body_lines,
            body_bytes,
            editor_open,
        },
    )
}

/// What the page says of an object that is not there: the text that was given, or the hash.
pub fn missing_text(id: u32, target: &str) -> (r: String)
    ensures
        r@ == (if target@.len() == 0 {
            decimal_text(id as nat)
        } else {
            target@
        }),
{
    if target.unicode_len() == 0 {
        decimal(id as u64)
    } else {
        target.to_owned()
    }
}

// ---------------------------------------------------------------------------
// Laws
// ---------------------------------------------------------------------------
/// A link to an object leads to an object with its hash, unless the object has a name that is the
/// numeral of a hash.
pub proof fn lemma_link_resolves(objects: Seq<ObjectData>, k: int)
    requires
        0 <= k < objects.len(),
        id_name(objects[k].id) matches Some(name) ==> !is_numeral_of_hash(objects, name),
    ensures
        ({
            let id = id_hash(objects[k].id);
            &&& link(id_name(objects[k].id), id).href == object_path(
                target_text(id_name(objects[k].id), id),
            )
            &&& resolved(objects, target_text(id_name(objects[k].id), id)) == Some(id)
        }),
{
    match objects[k].id {
        IdView::Name(name) => {
            assert(objects[k].id == IdView::Name(name));
            lemma_name_resolves(objects, name);
        },
        IdView::Hash(hash) => {
            assert(id_hash(objects[k].id) == hash);
            lemma_decimal_resolves(objects, hash);
        },
    }
}

} // verus!
