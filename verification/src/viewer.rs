//! The edits that the viewer offers.

use vstd::prelude::*;

use crate::bank::{
    all_objects, first_objects, has_hash, has_name, hashed, hirc_index, holds_objects,
    is_numeral_of_hash, lemma_all_objects, lemma_decimal_resolves, lemma_name_is_no_numeral,
    lemma_name_resolves, lemma_with_objects, main_objects, object_with, objects_in, objects_view,
    position_of, resolved, with_objects, HIRCObject, HIRCSection, ObjectData, Section, SectionBody,
    SectionContent, SectionData, Soundbank,
};
use crate::body::{
    body_in, direct_parent, override_bus, reads_as, references, renumbered_body, well_formed,
    HIRCObjectBody,
};
use crate::body_laws::lemma_renumbered_body;
use crate::edits::{
    add_child_to, edited, lemma_own_objects, object_place, remove_child_from, replace_body,
    with_body, without_child,
};
use crate::editor::with_child_meant;
use crate::error::{EditError, EditFault};
use crate::ids::{
    id_hash, id_meant, numeric_id, parse_id, parse_object_id, write_id, written_id, IdView,
    ObjectId,
};
use crate::json::Json;
use crate::json_text::{parsed_json, JsonError};
use crate::renumber::{
    lemma_renumbered_back, lemma_renumbered_leaves_none, mentions, renumbered_id, renumbered_ids,
};
use crate::seqs::{lemma_first_where, lemma_first_where_points};
use crate::session_laws::distinct_hashes;
use crate::storage::lemma_put_after_take;

verus! {

// ---------------------------------------------------------------------------
// Children
// ---------------------------------------------------------------------------
/// Adds a child to an object, both meant by texts.
pub fn do_add_child(soundbank: &mut Soundbank, parent: &str, child: &str) -> (r: Result<
    (),
    EditError,
>)
    ensures
        edited(
            r,
            old(soundbank)@,
            final(soundbank)@,
            with_child_meant(
                old(soundbank)@,
                all_objects(old(soundbank)@),
                parent@,
                child@,
            ),
        ),
{
    let parent_id = match soundbank.resolve_target(parent) {
        Some(id) => id,
        None => {
            return Err(EditError::NoSuchParent(parent.to_owned()));
        },
    };
    let child_id = match soundbank.resolve_target(child) {
        Some(id) => id,
        None => {
            return Err(EditError::NoSuchChild(child.to_owned()));
        },
    };
    add_child_to(soundbank, parent_id, child_id)
}

/// The id that a text means: a number, whether or not an object has it, else what it resolves to.
pub open spec fn id_given(objects: Seq<ObjectData>, text: Seq<char>) -> Option<u32> {
    match numeric_id(text) {
        Some(id) => Some(id),
        None => resolved(objects, text),
    }
}

/// The bank with one child less for an object, both meant by texts. The child need not be in the
/// bank if it is given by a number.
pub open spec fn without_child_meant(
    bank: Seq<SectionData>,
    parent: Seq<char>,
    child: Seq<char>,
) -> Result<Seq<SectionData>, EditFault> {
    match resolved(all_objects(bank), parent) {
        Some(p) => match id_given(all_objects(bank), child) {
            Some(c) => without_child(bank, p, c),
            None => Err(EditFault::BadChildId(child)),
        },
        None => Err(EditFault::NoSuchParent(parent)),
    }
}

/// Removes a child from an object, both meant by texts.
pub fn do_remove_child(soundbank: &mut Soundbank, parent: &str, child: &str) -> (r: Result<
    (),
    EditError,
>)
    ensures
        edited(
            r,
            old(soundbank)@,
            final(soundbank)@,
            without_child_meant(old(soundbank)@, parent@, child@),
        ),
{
    let parent_id = match soundbank.resolve_target(parent) {
        Some(id) => id,
        None => {
            return Err(EditError::NoSuchParent(parent.to_owned()));
        },
    };
    let given = match parse_id(child) {
        Some(id) => Some(id),
        None => soundbank.resolve_target(child),
    };
    let child_id = match given {
        Some(id) => id,
        None => {
            return Err(EditError::BadChildId(child.to_owned()));
        },
    };
    remove_child_from(soundbank, parent_id, child_id)
}

// ---------------------------------------------------------------------------
// Bodies
// ---------------------------------------------------------------------------
/// The bank with another body, given as text, for the object that a text means.
pub open spec fn with_body_meant(
    bank: Seq<SectionData>,
    target: Seq<char>,
    text: Seq<char>,
) -> Result<Seq<SectionData>, EditFault> {
    match parsed_json(text) {
        Some(tree) => match body_in(tree) {
            Some(body) => match resolved(all_objects(bank), target) {
                Some(id) => with_body(bank, id, body),
                None => Err(EditFault::NoSuchObject(target)),
            },
            None => Err(EditFault::Json(JsonError::NotABody)),
        },
        None => Err(EditFault::Json(JsonError::NotJson)),
    }
}

/// Gives an object another body. The body is read first, so that a mistake in it changes nothing.
pub fn do_edit_body(soundbank: &mut Soundbank, target: &str, body_json: &str) -> (r: Result<
    (),
    EditError,
>)
    ensures
        edited(
            r,
            old(soundbank)@,
            final(soundbank)@,
            with_body_meant(old(soundbank)@, target@, body_json@),
        ),
{
    let tree = match Json::from_text(body_json) {
        Ok(tree) => tree,
        Err(e) => {
            return Err(EditError::Json(e));
        },
    };
    let body = match HIRCObjectBody::from_json(tree) {
        Ok(body) => body,
        Err(e) => {
            return Err(EditError::Json(e));
        },
    };
    match soundbank.resolve_target(target) {
        Some(id) => replace_body(soundbank, id, body),
        None => Err(EditError::NoSuchObject(target.to_owned())),
    }
}

// ---------------------------------------------------------------------------
// Ids
// ---------------------------------------------------------------------------
/// The objects with every mention of a hash replaced by another.
pub open spec fn renumbered_objects(
    objects: Seq<ObjectData>,
    from: u32,
    to: u32,
) -> Seq<ObjectData> {
    objects.map_values(
        |o: ObjectData| ObjectData { id: o.id, body: renumbered_body(o.body, from, to) },
    )
}

/// The section with every mention of a hash in its objects replaced by another.
pub open spec fn renumbered_section(section: SectionData, from: u32, to: u32) -> SectionData {
    match section.body {
        SectionContent::HIRC(objects) => SectionData {
            magic: section.magic,
            body: SectionContent::HIRC(renumbered_objects(objects, from, to)),
        },
        _ => section,
    }
}

/// The bank with every mention of a hash in its objects replaced by another.
pub open spec fn renumbered_bank(
    bank: Seq<SectionData>,
    from: u32,
    to: u32,
) -> Seq<SectionData> {
    bank.map_values(|s: SectionData| renumbered_section(s, from, to))
}

/// The bank with another id for the object at a place.
pub open spec fn with_id_at(bank: Seq<SectionData>, i: int, id: IdView) -> Seq<SectionData> {
    let objects = main_objects(bank);
    with_objects(bank, objects.update(i, ObjectData { id, body: objects[i].body }))
}

/// The bank with another id for the object with a hash. If that changes the hash, every mention
/// of it changes too.
pub open spec fn with_new_id(bank: Seq<SectionData>, hash: u32, id: IdView) -> Result<
    Seq<SectionData>,
    EditFault,
> {
    match object_place(bank, hash) {
        Ok(i) => {
            let named = with_id_at(bank, i, id);
            Ok(
                if id_hash(id) != hash {
                    renumbered_bank(named, hash, id_hash(id))
                } else {
                    named
                },
            )
        },
        Err(e) => Err(e),
    }
}

/// The bank with another id, given as text, for the object that a text means.
pub open spec fn with_id_meant(
    bank: Seq<SectionData>,
    target: Seq<char>,
    new_id: Seq<char>,
    renumber: bool,
) -> Result<Seq<SectionData>, EditFault> {
    if new_id.len() == 0 {
        Err(EditFault::EmptyId)
    } else {
        match resolved(all_objects(bank), target) {
            Some(from) => {
                let to = id_hash(id_meant(new_id));
                if to != from && !renumber {
                    Err(EditFault::HashWouldChange { from, to })
                } else if to != from && has_hash(all_objects(bank), to) {
                    Err(EditFault::HashTaken(to))
                } else {
                    with_new_id(bank, from, id_meant(new_id))
                }
            },
            None => Err(EditFault::NoSuchObject(target)),
        }
    }
}

fn renumber_objects(objects: Vec<HIRCObject>, from: u32, to: u32) -> (r: Vec<HIRCObject>)
    ensures
        objects_view(r@) == renumbered_objects(objects_view(objects@), from, to),
{
    let ghost target = renumbered_objects(objects_view(objects@), from, to);
    let mut r: Vec<HIRCObject> = Vec::new();
    assert(objects_view(r@) =~= target.take(0));
    for object in it: objects
        invariant
            it.seq() == objects@,
            target == renumbered_objects(objects_view(objects@), from, to),
            objects_view(r@) == target.take(it.index() as int),
    {
        let ghost n = it.index() as int;
        let ghost before = objects_view(r@);
        let ghost was = object@;
        let mut body = object.body;
        body.renumber(from, to);
        let changed = HIRCObject { id: object.id, body };
        let ghost view = changed@;
        r.push(changed);
        proof {
            assert(objects_view(objects@)[n] == was);
            assert(target[n] == view);
            assert(target.take(n + 1) =~= target.take(n).push(view));
            assert(objects_view(r@) =~= before.push(view));
        }
    }
    assert(target.take(target.len() as int) =~= target);
    r
}

fn renumber_bank(soundbank: &mut Soundbank, from: u32, to: u32)
    ensures
        final(soundbank)@ == renumbered_bank(old(soundbank)@, from, to),
{
    let ghost bank = soundbank@;
    let ghost target = renumbered_bank(bank, from, to);
    let mut sections: Vec<Section> = Vec::new();
    std::mem::swap(&mut soundbank.sections, &mut sections);
    let ghost raw = sections@;
    assert(soundbank@ =~= target.take(0));
    for section in it: sections
        invariant
            it.seq() == raw,
            bank == raw.map_values(|s: Section| s@),
            target == renumbered_bank(bank, from, to),
            soundbank@ == target.take(it.index() as int),
    {
        let ghost n = it.index() as int;
        let ghost before = soundbank@;
        let ghost was = section@;
        let body = match section.body {
            SectionBody::HIRC(hirc) => SectionBody::HIRC(
                HIRCSection { objects: renumber_objects(hirc.objects, from, to) },
            ),
            other => other,
        };
        let changed = Section { magic: section.magic, body };
        let ghost view = changed@;
        soundbank.sections.push(changed);
        proof {
            assert(bank[n] == was);
            assert(target[n] == view);
            assert(target.take(n + 1) =~= target.take(n).push(view));
            assert(soundbank@ =~= before.push(view));
        }
    }
    assert(target.take(target.len() as int) =~= target);
}

fn rename(soundbank: &mut Soundbank, hash: u32, id: ObjectId) -> (r: Result<(), EditError>)
    ensures
        edited(
            r,
            old(soundbank)@,
            final(soundbank)@,
            match object_place(old(soundbank)@, hash) {
                Ok(i) => Ok(with_id_at(old(soundbank)@, i, id@)),
                Err(e) => Err(e),
            },
        ),
{
    let ghost bank = soundbank@;
    let mut objects = match soundbank.take_objects() {
        Some(objects) => objects,
        None => {
            return Err(EditError::NoHirc);
        },
    };
    let ghost before = objects_view(objects@);
    let i = position_of(&objects, hash);
    let mut r: Result<(), EditError> = Err(EditError::NotInHirc(hash));
    if i < objects.len() {
        assert(before[i as int] == objects@[i as int]@);
        let object = objects.remove(i);
        let changed = HIRCObject { id, body: object.body };
        let ghost view = changed@;
        objects.insert(i, changed);
        assert(objects_view(objects@) =~= before.update(i as int, view));
        r = Ok(());
    }
    let ghost after = objects_view(objects@);
    soundbank.put_objects(objects);
    proof {
        lemma_put_after_take(bank, after);
        lemma_own_objects(bank);
    }
    r
}

/// Gives an object another id, and tells how the id is written in a link. If that changes the
/// hash, every mention of the hash in the objects of the bank is rewritten; that has to be asked
/// for, and another object must not have the new hash.
pub fn do_edit_id(
    soundbank: &mut Soundbank,
    target: &str,
    new_id_input: &str,
    renumber: bool,
) -> (r: Result<String, EditError>)
    ensures
        edited(
            r,
            old(soundbank)@,
            final(soundbank)@,
            with_id_meant(old(soundbank)@, target@, new_id_input@, renumber),
        ),
        r matches Ok(link) ==> link@ == written_id(id_meant(new_id_input@)),
{
    if new_id_input.unicode_len() == 0 {
        return Err(EditError::EmptyId);
    }
    let old_hash = match soundbank.resolve_target(target) {
        Some(hash) => hash,
        None => {
            return Err(EditError::NoSuchObject(target.to_owned()));
        },
    };
    let new_id = parse_object_id(new_id_input);
    let new_hash = new_id.as_hash();
    if new_hash != old_hash {
        if !renumber {
            return Err(EditError::HashWouldChange { from: old_hash, to: new_hash });
        }
        if soundbank.has_id(new_hash) {
            return Err(EditError::HashTaken(new_hash));
        }
    }
    let link = write_id(&new_id);
    match rename(soundbank, old_hash, new_id) {
        Ok(()) => {},
        Err(e) => {
            return Err(e);
        },
    }
    if new_hash != old_hash {
        renumber_bank(soundbank, old_hash, new_hash);
    }
    Ok(link)
}

// ---------------------------------------------------------------------------
// Laws
// ---------------------------------------------------------------------------
/// The objects of all sections, renumbered.
proof fn lemma_renumbered_all(bank: Seq<SectionData>, from: u32, to: u32)
    ensures
        all_objects(renumbered_bank(bank, from, to)) == renumbered_objects(
            all_objects(bank),
            from,
            to,
        ),
    decreases bank.len(),
{
    let after = renumbered_bank(bank, from, to);
    if bank.len() > 0 {
        lemma_renumbered_all(bank.drop_last(), from, to);
        assert(after.drop_last() =~= renumbered_bank(bank.drop_last(), from, to));
        assert(after.last() == renumbered_section(bank.last(), from, to));
        let a = all_objects(bank.drop_last());
        let b = objects_in(bank.last());
        assert(objects_in(after.last()) =~= renumbered_objects(b, from, to));
        assert(renumbered_objects(a, from, to) + renumbered_objects(b, from, to)
            =~= renumbered_objects(a + b, from, to));
    } else {
        assert(all_objects(after) =~= renumbered_objects(all_objects(bank), from, to));
    }
}

/// After an id was changed to one with another hash, no object mentions the old hash.
pub proof fn lemma_renumbered_bank_leaves_none(bank: Seq<SectionData>, from: u32, to: u32, k: int)
    requires
        from != to,
        0 <= k < all_objects(renumbered_bank(bank, from, to)).len(),
    ensures
        !mentions(all_objects(renumbered_bank(bank, from, to))[k].body.fields, from),
{
    lemma_renumbered_all(bank, from, to);
    let objects = all_objects(bank);
    lemma_renumbered_leaves_none(objects[k].body.fields, from, to);
}

/// Renumbering keeps the graph linked: every object keeps its id, and what it refers to, its
/// parent and its bus are the same as before, but for the old hash, in whose place stands the
/// new one. A complete object stays complete. Zero means that there is no target, so of references
/// this holds only if neither hash is zero.
pub proof fn lemma_renumbered_bank_links(bank: Seq<SectionData>, from: u32, to: u32, k: int)
    requires
        0 <= k < all_objects(bank).len(),
    ensures
        ({
            let before = all_objects(bank)[k];
            let after = all_objects(renumbered_bank(bank, from, to))[k];
            &&& all_objects(renumbered_bank(bank, from, to)).len() == all_objects(bank).len()
            &&& after.id == before.id
            &&& from != 0 && to != 0 ==> references(after.body) == renumbered_ids(
                references(before.body),
                from,
                to,
            )
            &&& direct_parent(after.body) == (match direct_parent(before.body) {
                Some(id) => Some(renumbered_id(id, from, to)),
                None => None,
            })
            &&& override_bus(after.body) == (match override_bus(before.body) {
                Some(id) => Some(renumbered_id(id, from, to)),
                None => None,
            })
            &&& well_formed(before.body) ==> well_formed(after.body)
        }),
{
    lemma_renumbered_all(bank, from, to);
    lemma_renumbered_body(all_objects(bank)[k].body, from, to);
}

/// Renumbering to a hash that no object mentions can be undone.
pub proof fn lemma_renumbered_bank_back(bank: Seq<SectionData>, from: u32, to: u32)
    requires
        forall|i: int, k: int|
            0 <= i < bank.len() && 0 <= k < objects_in(bank[i]).len() ==> !mentions(
                (#[trigger] objects_in(bank[i])[k]).body.fields,
                to,
            ),
    ensures
        renumbered_bank(renumbered_bank(bank, from, to), to, from) == bank,
{
    let back = renumbered_bank(renumbered_bank(bank, from, to), to, from);
    assert forall|i: int| 0 <= i < bank.len() implies back[i] == #[trigger] bank[i] by {
        if let SectionContent::HIRC(objects) = bank[i].body {
            let there = renumbered_objects(objects, from, to);
            let again = renumbered_objects(there, to, from);
            assert forall|k: int| 0 <= k < objects.len() implies again[k] == objects[k] by {
                assert(objects_in(bank[i])[k] == objects[k]);
                lemma_renumbered_back(objects[k].body.fields, from, to);
                assert(again[k].body =~= objects[k].body);
            }
            assert(again =~= objects);
        }
    }
    assert(back =~= bank);
}

/// After an id was changed, the object is found by the new id, in the place where it was.
pub proof fn lemma_new_id_is_there(bank: Seq<SectionData>, hash: u32, id: IdView)
    requires
        object_place(bank, hash) is Ok,
    ensures
        ({
            let after = with_new_id(bank, hash, id)->Ok_0;
            let i = object_place(bank, hash)->Ok_0;
            &&& main_objects(after).len() == main_objects(bank).len()
            &&& main_objects(after)[i].id == id
            &&& forall|k: int|
                0 <= k < main_objects(bank).len() && k != i ==> (#[trigger] main_objects(
                    after,
                )[k]).id == main_objects(bank)[k].id
        }),
{
    let i = object_place(bank, hash)->Ok_0;
    let objects = main_objects(bank);
    lemma_first_where_points(objects, hashed(hash));
    let changed = objects.update(i, ObjectData { id, body: objects[i].body });
    lemma_with_objects(bank, changed);
    let named = with_id_at(bank, i, id);
    assert(main_objects(named) == changed);
    if id_hash(id) != hash {
        let after = renumbered_bank(named, hash, id_hash(id));
        let h = hirc_index(named);
        let p = holds_objects();
        lemma_first_where_points(named, p);
        assert forall|k: int| 0 <= k < h implies !p(#[trigger] after[k]) by {
            assert(!p(named[k]));
            assert(after[k] == renumbered_section(named[k], hash, id_hash(id)));
        }
        assert(after[h] == renumbered_section(named[h], hash, id_hash(id)));
        lemma_first_where(after, p, h);
        assert(main_objects(after) == renumbered_objects(changed, hash, id_hash(id)));
    }
}

proof fn lemma_no_objects(bank: Seq<SectionData>)
    requires
        forall|k: int| 0 <= k < bank.len() ==> !holds_objects()(#[trigger] bank[k]),
    ensures
        all_objects(bank) == Seq::<ObjectData>::empty(),
    decreases bank.len(),
{
    if bank.len() > 0 {
        assert(!holds_objects()(bank[bank.len() - 1]));
        assert forall|k: int| 0 <= k < bank.drop_last().len() implies !holds_objects()(
            #[trigger] bank.drop_last()[k],
        ) by {
            assert(bank.drop_last()[k] == bank[k]);
        }
        lemma_no_objects(bank.drop_last());
        assert(all_objects(bank) =~= Seq::<ObjectData>::empty());
    }
}

/// The objects of all sections begin with those of the first section with objects.
pub proof fn lemma_all_with_objects(bank: Seq<SectionData>, objects: Seq<ObjectData>)
    requires
        first_objects(bank) is Some,
    ensures
        ({
            let others = all_objects(bank.skip(hirc_index(bank) + 1));
            &&& all_objects(bank) == main_objects(bank) + others
            &&& all_objects(with_objects(bank, objects)) == objects + others
        }),
{
    let h = hirc_index(bank);
    let after = with_objects(bank, objects);
    lemma_first_where_points(bank, holds_objects());
    let front = bank.take(h);
    assert forall|k: int| 0 <= k < front.len() implies !holds_objects()(#[trigger] front[k]) by {
        assert(front[k] == bank[k]);
    }
    lemma_no_objects(front);
    lemma_all_objects(bank, h + 1);
    lemma_all_objects(after, h + 1);
    assert(bank.take(h + 1).drop_last() =~= front);
    assert(after.take(h + 1).drop_last() =~= front);
    assert(after.skip(h + 1) =~= bank.skip(h + 1));
    assert(bank.take(h + 1).last() == bank[h]);
    assert(after.take(h + 1).last() == after[h]);
    assert(all_objects(bank.take(h + 1)) =~= main_objects(bank));
    assert(all_objects(after.take(h + 1)) =~= objects);
}

/// A text that reads as the body of the object that it is saved for leaves the bank as it is, if
/// the object is in the first section with objects.
pub proof fn lemma_saving_unedited(
    bank: Seq<SectionData>,
    target: Seq<char>,
    text: Seq<char>,
    id: u32,
)
    requires
        resolved(all_objects(bank), target) == Some(id),
        object_place(bank, id) is Ok,
        object_with(all_objects(bank), id) is Some,
        reads_as(text, object_with(all_objects(bank), id)->Some_0.body),
    ensures
        with_body_meant(bank, target, text) == Ok::<Seq<SectionData>, EditFault>(bank),
{
    let objects = main_objects(bank);
    let all = all_objects(bank);
    let i = object_place(bank, id)->Ok_0;
    lemma_all_with_objects(bank, objects);
    lemma_first_where_points(objects, hashed(id));
    assert forall|k: int| 0 <= k < i implies !hashed(id)(#[trigger] all[k]) by {
        assert(all[k] == objects[k]);
    }
    assert(all[i] == objects[i]);
    lemma_first_where(all, hashed(id), i);
    let body = object_with(all, id)->Some_0.body;
    assert(objects.update(i, ObjectData { id: objects[i].id, body }) =~= objects);
    lemma_own_objects(bank);
}

/// After an id was changed, the link that was given leads to an object with the new id's hash,
/// unless the new id is a name that is the numeral of a hash.
pub proof fn lemma_edit_id_link_resolves(
    bank: Seq<SectionData>,
    target: Seq<char>,
    new_id: Seq<char>,
    renumber: bool,
    after: Seq<SectionData>,
)
    requires
        with_id_meant(bank, target, new_id, renumber) == Ok::<Seq<SectionData>, EditFault>(after),
        id_meant(new_id) is Name ==> !is_numeral_of_hash(all_objects(after), new_id),
    ensures
        resolved(all_objects(after), written_id(id_meant(new_id))) == Some(
            id_hash(id_meant(new_id)),
        ),
{
    let from = resolved(all_objects(bank), target)->Some_0;
    let id = id_meant(new_id);
    let to = id_hash(id);
    let i = object_place(bank, from)->Ok_0;
    let objects = main_objects(bank);
    lemma_first_where_points(objects, hashed(from));
    let changed = objects.update(i, ObjectData { id, body: objects[i].body });
    let named = with_id_at(bank, i, id);
    lemma_all_with_objects(bank, changed);
    let renamed = all_objects(named);
    assert(renamed[i] == changed[i]);
    let last = all_objects(after);
    if to != from {
        lemma_renumbered_all(named, from, to);
    }
    assert(last[i].id == id);
    match id {
        IdView::Name(name) => {
            assert(has_name(last, name));
            lemma_name_resolves(last, name);
        },
        IdView::Hash(hash) => {
            assert(id_hash(last[i].id) == hash);
            lemma_decimal_resolves(last, hash);
        },
    }
}

/// After an id was changed to one without a plus sign in front, the link that was given leads to an
/// object with the new id's hash.
pub proof fn lemma_plain_id_link_resolves(
    bank: Seq<SectionData>,
    target: Seq<char>,
    new_id: Seq<char>,
    renumber: bool,
    after: Seq<SectionData>,
)
    requires
        with_id_meant(bank, target, new_id, renumber) == Ok::<Seq<SectionData>, EditFault>(after),
        new_id.len() > 0 ==> new_id[0] != '+',
    ensures
        resolved(all_objects(after), written_id(id_meant(new_id))) == Some(
            id_hash(id_meant(new_id)),
        ),
{
    if id_meant(new_id) is Name {
        lemma_name_is_no_numeral(all_objects(after), new_id);
    }
    lemma_edit_id_link_resolves(bank, target, new_id, renumber, after);
}

/// Changing an id never gives two objects one hash: where no two had one before, no two have one
/// afterwards.
pub proof fn lemma_edit_id_keeps_distinct(
    bank: Seq<SectionData>,
    target: Seq<char>,
    new_id: Seq<char>,
    renumber: bool,
    after: Seq<SectionData>,
)
    requires
        with_id_meant(bank, target, new_id, renumber) == Ok::<Seq<SectionData>, EditFault>(after),
        distinct_hashes(all_objects(bank)),
    ensures
        distinct_hashes(all_objects(after)),
        has_hash(all_objects(after), id_hash(id_meant(new_id))),
{
    let from = resolved(all_objects(bank), target)->Some_0;
    let id = id_meant(new_id);
    let to = id_hash(id);
    let i = object_place(bank, from)->Ok_0;
    let objects = main_objects(bank);
    lemma_first_where_points(objects, hashed(from));
    assert(hashed(from)(objects[i]));
    let changed = objects.update(i, ObjectData { id, body: objects[i].body });
    let named = with_id_at(bank, i, id);
    lemma_all_with_objects(bank, changed);
    let before = all_objects(bank);
    let renamed = all_objects(named);
    assert(before[i] == objects[i]);
    assert forall|k: int| 0 <= k < before.len() implies (#[trigger] renamed[k]).id == (if k == i {
        id
    } else {
        before[k].id
    }) by {
        if k < objects.len() {
            assert(before[k] == objects[k]);
            assert(renamed[k] == changed[k]);
        }
    }
    assert(distinct_hashes(renamed)) by {
        assert forall|a: int, b: int| 0 <= a < b < renamed.len() implies id_hash(
            (#[trigger] renamed[a]).id,
        ) != id_hash((#[trigger] renamed[b]).id) by {
            assert(id_hash(before[a].id) != id_hash(before[b].id));
        }
    }
    assert(id_hash(renamed[i].id) == to);
    if to != from {
        lemma_renumbered_all(named, from, to);
        let last = all_objects(after);
        assert forall|k: int| 0 <= k < last.len() implies (#[trigger] last[k]).id
            == renamed[k].id by {}
        assert forall|a: int, b: int| 0 <= a < b < last.len() implies id_hash(
            (#[trigger] last[a]).id,
        ) != id_hash((#[trigger] last[b]).id) by {
            assert(last[a].id == renamed[a].id && last[b].id == renamed[b].id);
        }
        assert(id_hash(last[i].id) == to);
    }
}

/// In a bank with one section of objects, the editor and the viewer mean the same objects by the
/// same texts.
pub proof fn lemma_one_section_resolves(bank: Seq<SectionData>, target: Seq<char>)
    requires
        forall|k: int|
            hirc_index(bank) < k < bank.len() ==> !holds_objects()(#[trigger] bank[k]),
    ensures
        all_objects(bank) == main_objects(bank),
        resolved(all_objects(bank), target) == resolved(main_objects(bank), target),
{
    let h = hirc_index(bank);
    lemma_first_where_points(bank, holds_objects());
    if h < bank.len() {
        let rest = bank.skip(h + 1);
        assert forall|k: int| 0 <= k < rest.len() implies !holds_objects()(#[trigger] rest[k]) by {
            assert(rest[k] == bank[h + 1 + k]);
        }
        lemma_no_objects(rest);
        lemma_all_with_objects(bank, main_objects(bank));
        assert(all_objects(bank) =~= main_objects(bank));
    } else {
        lemma_no_objects(bank);
    }
}

} // verus!
