//! What the pages of the viewer show.

use vstd::prelude::*;
use vstd::utf8::encode_utf8;

use crate::bank::{has_hash, object_with, ObjectData};
use crate::body::{direct_parent, references};
use crate::field_laws::children_place;
use crate::ids::{id_hash, IdView};
use crate::json::JsonView;
use crate::json_text::pretty_json;
use crate::kind::kind_name;
use crate::pages::{details, escaped, link, reference, row_of, LinkData, ReferenceRowData, ESCAPE};
use crate::seqs::lemma_first_where;
use crate::storage::{conversion_for, lower_char, lower_text, pattern, Conversion, ObjectSummary};
use crate::text::{decimal_text, hex_id_text, lines_of};

verus! {

// ---------------------------------------------------------------------------
// Links
// ---------------------------------------------------------------------------
/// Is this the link to an object with this name, or without one? It leads to the page by the name,
/// else by the hash in decimal, and shows the name, else the hash in hexadecimal, muted.
pub open spec fn is_link_to(l: LinkData, name: Option<Seq<char>>, id: u32) -> bool {
    match name {
        Some(name) => {
            &&& l.href == "/object/"@ + name
            &&& l.text == name
            &&& !l.muted
        },
        None => {
            &&& l.href == "/object/"@ + decimal_text(id as nat)
            &&& l.text == hex_id_text(id)
            &&& l.muted
        },
    }
}

/// Links lead to objects by their names, else by their hashes.
pub proof fn lemma_link(name: Option<Seq<char>>, id: u32)
    ensures
        is_link_to(link(name, id), name, id),
{
}

// ---------------------------------------------------------------------------
// Lists
// ---------------------------------------------------------------------------
/// The row of an object in a list tells its id, its kind and its parent, and links to it. A parent
/// of zero is none. The bus that it overrides is not shown.
pub proof fn lemma_list_row(object: ObjectSummary)
    ensures
        ({
            let row = row_of(object);
            let name = match object.label {
                Some(label) => Some(label@),
                None => None,
            };
            &&& row.id == object.id_hash
            &&& row.kind == object.body_kind@
            &&& match object.direct_parent {
                Some(parent) => row.parent == (if parent == 0 {
                    Seq::<char>::empty()
                } else {
                    decimal_text(parent as nat)
                }),
                None => row.parent == Seq::<char>::empty(),
            }
            &&& is_link_to(row.link, name, object.id_hash)
        }),
{
}

/// A text that is searched for keeps all its characters, in order; in front of those that would
/// mean more than themselves stands an escape, and nowhere else.
pub proof fn lemma_escape(text: Seq<char>)
    ensures
        escaped(text) == text.map_values(
            |c: char|
                if c == '%' || c == '_' || c == '\\' {
                    seq!['\\', c]
                } else {
                    seq![c]
                },
        ).flatten(),
    decreases text.len(),
{
    let part = |c: char|
        if c == '%' || c == '_' || c == '\\' {
            seq!['\\', c]
        } else {
            seq![c]
        };
    if text.len() > 0 {
        let front = text.drop_last();
        let last = text.last();
        lemma_escape(front);
        assert(text.map_values(part) =~= front.map_values(part).push(part(last)));
        front.map_values(part).lemma_flatten_push(part(last));
        let before = escaped(front);
        assert(before.push(ESCAPE).push(last) =~= before + seq!['\\', last]);
        assert(before.push(last) =~= before + seq![last]);
    } else {
        assert(text.map_values(part) =~= Seq::<Seq<char>>::empty());
    }
}

/// A filter is its own pattern; without one everything matches.
pub proof fn lemma_pattern(filter: Option<Seq<char>>)
    ensures
        filter is Some ==> pattern(filter) == filter->Some_0,
        filter is None ==> pattern(filter) == "%"@,
{
}

// ---------------------------------------------------------------------------
// Objects
// ---------------------------------------------------------------------------
/// Is this what is shown of an id that is referred to? Its kind and its name are those of the first
/// object with the hash; without one it is external.
pub open spec fn shows_reference(
    row: ReferenceRowData,
    objects: Seq<ObjectData>,
    id: u32,
    removable: bool,
) -> bool {
    &&& row.id == id
    &&& row.removable == removable
    &&& forall|i: int|
        {
            &&& 0 <= i < objects.len()
            &&& id_hash((#[trigger] objects[i]).id) == id
            &&& forall|k: int| 0 <= k < i ==> id_hash((#[trigger] objects[k]).id) != id
        } ==> row.kind == kind_name(objects[i].body.kind) && match objects[i].id {
            IdView::Name(name) => is_link_to(row.link, Some(name), id),
            IdView::Hash(_) => is_link_to(row.link, None, id),
        }
    &&& !has_hash(objects, id) ==> row.kind == "external"@ && is_link_to(row.link, None, id)
}

/// What is shown of an id is told by the first object with it.
pub proof fn lemma_reference(objects: Seq<ObjectData>, id: u32, removable: bool)
    ensures
        shows_reference(reference(objects, id, removable), objects, id, removable),
{
    let row = reference(objects, id, removable);
    crate::bank::lemma_object_with(objects, id);
    assert forall|i: int|
        {
            &&& 0 <= i < objects.len()
            &&& id_hash((#[trigger] objects[i]).id) == id
            &&& forall|k: int| 0 <= k < i ==> id_hash((#[trigger] objects[k]).id) != id
        } implies row.kind == kind_name(objects[i].body.kind) && match objects[i].id {
        IdView::Name(name) => is_link_to(row.link, Some(name), id),
        IdView::Hash(_) => is_link_to(row.link, None, id),
    } by {
        let p = crate::bank::hashed(id);
        assert forall|k: int| 0 <= k < i implies !p(#[trigger] objects[k]) by {}
        assert(p(objects[i]));
        lemma_first_where(objects, p, i);
    }
}

/// The first object with a hash is found, if there is one.
pub proof fn lemma_first_is_found(objects: Seq<ObjectData>, id: u32, i: int)
    requires
        0 <= i < objects.len(),
        id_hash(objects[i].id) == id,
        forall|k: int| 0 <= k < i ==> id_hash((#[trigger] objects[k]).id) != id,
    ensures
        object_with(objects, id) == Some(objects[i]),
{
    let p = crate::bank::hashed(id);
    assert forall|k: int| 0 <= k < i implies !p(#[trigger] objects[k]) by {}
    assert(p(objects[i]));
    lemma_first_where(objects, p, i);
}

/// The page of an object shows its kind and its name, what it is named by, the object above it, if
/// it has one other than zero, and all that it refers to, in order. References can be removed, and
/// children added, exactly if it is a mixer or a container. The text of the body is what was typed,
/// else the body; the editor is open if something was typed or refused.
pub proof fn lemma_page(
    objects: Seq<ObjectData>,
    id: u32,
    object: ObjectData,
    pending: Option<Seq<char>>,
    refused: bool,
)
    ensures
        ({
            let page = details(objects, id, object, pending, refused);
            let container = children_place(object.body.kind) is Some;
            &&& page.id == id
            &&& page.kind == kind_name(object.body.kind)
            &&& match object.id {
                IdView::Name(name) => {
                    &&& page.label == Some(name)
                    &&& page.title == name
                    &&& page.target == name
                },
                IdView::Hash(_) => {
                    &&& page.label is None
                    &&& page.title == hex_id_text(id)
                    &&& page.target == decimal_text(id as nat)
                },
            }
            &&& match direct_parent(object.body) {
                Some(parent) => if parent == 0 {
                    page.parent is None
                } else {
                    page.parent is Some && shows_reference(
                        page.parent->Some_0,
                        objects,
                        parent,
                        false,
                    )
                },
                None => page.parent is None,
            }
            &&& page.references.len() == references(object.body).len()
            &&& forall|k: int|
                0 <= k < page.references.len() ==> shows_reference(
                    #[trigger] page.references[k],
                    objects,
                    references(object.body)[k],
                    container,
                )
            &&& page.can_add_child == container
            &&& page.body_json == (match pending {
                Some(text) => text,
                None => pretty_json(
                    JsonView::Object(seq![(kind_name(object.body.kind), object.body.fields)]),
                ),
            })
            &&& page.body_lines == lines_of(page.body_json).len()
            &&& page.body_bytes == encode_utf8(page.body_json).len()
            &&& page.editor_open == (pending is Some || refused)
        }),
{
    let page = details(objects, id, object, pending, refused);
    let container = children_place(object.body.kind) is Some;
    if let Some(parent) = direct_parent(object.body) {
        lemma_reference(objects, parent, false);
    }
    assert forall|k: int| 0 <= k < page.references.len() implies shows_reference(
        #[trigger] page.references[k],
        objects,
        references(object.body)[k],
        container,
    ) by {
        lemma_reference(objects, references(object.body)[k], container);
    }
}

// ---------------------------------------------------------------------------
// Files
// ---------------------------------------------------------------------------
/// Is it the letter, in capitals or not?
pub open spec fn is_letter(c: char, small: char, capital: char) -> bool {
    c == small || c == capital
}

/// A bank is imported and a database exported, whichever way its extension is written; nothing is
/// made of any other file.
pub proof fn lemma_conversion(extension: Seq<char>)
    ensures
        (conversion_for(extension) == Some(Conversion::Import)) == (extension.len() == 3
            && is_letter(extension[0], 'b', 'B') && is_letter(extension[1], 'n', 'N')
            && is_letter(extension[2], 'k', 'K')),
        (conversion_for(extension) == Some(Conversion::Export)) == (extension.len() == 2
            && is_letter(extension[0], 'd', 'D') && is_letter(extension[1], 'b', 'B')),
{
    let lower = lower_text(extension);
    reveal_strlit("bnk");
    reveal_strlit("db");
    assert("bnk"@.len() == 3 && "bnk"@[0] == 'b' && "bnk"@[1] == 'n' && "bnk"@[2] == 'k');
    assert("db"@.len() == 2 && "db"@[0] == 'd' && "db"@[1] == 'b');
    assert forall|i: int| 0 <= i < extension.len() implies lower[i] == lower_char(
        #[trigger] extension[i],
    ) by {}
    if extension.len() == 3 && is_letter(extension[0], 'b', 'B') && is_letter(
        extension[1],
        'n',
        'N',
    ) && is_letter(extension[2], 'k', 'K') {
        assert(lower =~= "bnk"@);
    }
    if extension.len() == 2 && is_letter(extension[0], 'd', 'D') && is_letter(
        extension[1],
        'b',
        'B',
    ) {
        assert(lower =~= "db"@);
    }
    if lower == "bnk"@ {
        assert(lower[0] == 'b' && lower[1] == 'n' && lower[2] == 'k');
        assert(lower_char(extension[0]) == 'b');
        assert(lower_char(extension[1]) == 'n');
        assert(lower_char(extension[2]) == 'k');
    }
    if lower == "db"@ {
        assert(lower_char(extension[0]) == 'd');
        assert(lower_char(extension[1]) == 'b');
    }
}

} // verus!
