//! What the edits of the editor and of the viewer do to a bank.

use vstd::prelude::*;

use crate::bank::{
    all_objects, first_objects, has_hash, hashed, hirc_index, holds_objects, lemma_with_objects,
    main_objects, objects_in, resolved, ObjectData, SectionData,
};
use crate::body::{
    children, direct_parent, override_bus, reads_as, references, well_formed, with_children,
    with_id, without_id, BodyView,
};
use crate::body_laws::{lemma_renumbered_body, lemma_with_children, lemma_with_id};
use crate::edits::{edited, lemma_own_objects, lemma_with_body_at, object_place, with_body_at};
use crate::editor::with_child_meant;
use crate::error::{EditError, EditFault};
use crate::field_laws::{children_place, lemma_other_fields_stay, parted};
use crate::ids::{id_hash, id_meant, numeric_id};
use crate::json::{at, JsonView};
use crate::json_text::{parsed_json, JsonError};
use crate::renumber::{lemma_renumbered_leaves_none, mentions, renumbered, renumbered_ids};
use crate::seqs::{ascending, first_where, lemma_first_where_points, lemma_sorted};
use crate::viewer::{
    lemma_all_with_objects, renumbered_bank, renumbered_objects, with_body_meant, with_id_at,
    with_id_meant, without_child_meant,
};

verus! {

/// An edit that is accepted leaves the bank that it is to give; one that is refused says why and
/// leaves the bank as it was.
pub proof fn lemma_edits_are_whole<T>(
    r: Result<T, EditError>,
    before: Seq<SectionData>,
    after: Seq<SectionData>,
    expected: Result<Seq<SectionData>, EditFault>,
)
    requires
        edited(r, before, after, expected),
    ensures
        match expected {
            Ok(bank) => r is Ok && after == bank,
            Err(fault) => r is Err && r->Err_0@ == fault && after == before,
        },
{
}

/// Do the banks differ at most in the body of one object, the one at this place among the objects
/// of the first section that has any?
pub open spec fn only_body_differs(
    before: Seq<SectionData>,
    after: Seq<SectionData>,
    i: int,
) -> bool {
    let h = hirc_index(before);
    &&& 0 <= h < before.len()
    &&& after.len() == before.len()
    &&& forall|s: int| 0 <= s < before.len() && s != h ==> #[trigger] after[s] == before[s]
    &&& after[h].magic == before[h].magic
    &&& before[h].body is HIRC && after[h].body is HIRC
    &&& after[h].body->HIRC_0.len() == before[h].body->HIRC_0.len()
    &&& 0 <= i < before[h].body->HIRC_0.len()
    &&& after[h].body->HIRC_0[i].id == before[h].body->HIRC_0[i].id
    &&& forall|k: int|
        0 <= k < before[h].body->HIRC_0.len() && k != i ==> #[trigger] after[h].body->HIRC_0[k]
            == before[h].body->HIRC_0[k]
}

/// Is this the place of the first object with the hash, among the objects of the first section
/// that has any?
pub open spec fn is_place_of(bank: Seq<SectionData>, i: int, hash: u32) -> bool {
    let objects = main_objects(bank);
    &&& 0 <= i < objects.len()
    &&& id_hash(objects[i].id) == hash
    &&& forall|k: int| 0 <= k < i ==> id_hash((#[trigger] objects[k]).id) != hash
}

/// An object is edited where it stands first; it is not there if no object has its hash.
pub proof fn lemma_place(bank: Seq<SectionData>, hash: u32)
    ensures
        match object_place(bank, hash) {
            Ok(i) => first_objects(bank) is Some && is_place_of(bank, i, hash),
            Err(EditFault::NotInHirc(h)) => h == hash && first_objects(bank) is Some && !has_hash(
                main_objects(bank),
                hash,
            ),
            Err(EditFault::NoHirc) => forall|s: int|
                0 <= s < bank.len() ==> !((#[trigger] bank[s]).body is HIRC),
            Err(_) => false,
        },
{
    let objects = main_objects(bank);
    lemma_first_where_points(bank, holds_objects());
    lemma_first_where_points(objects, hashed(hash));
    let i = first_where(objects, hashed(hash));
    if first_objects(bank) is Some {
        assert forall|k: int| 0 <= k < i implies id_hash((#[trigger] objects[k]).id) != hash by {
            assert(!hashed(hash)(objects[k]));
        }
        if i < objects.len() {
            assert(hashed(hash)(objects[i]));
        }
    } else {
        assert forall|s: int| 0 <= s < bank.len() implies !((#[trigger] bank[s]).body is HIRC) by {
            assert(!holds_objects()(bank[s]));
        }
    }
}

proof fn lemma_body_at(bank: Seq<SectionData>, i: int, body: BodyView)
    requires
        first_objects(bank) is Some,
        0 <= i < main_objects(bank).len(),
    ensures
        only_body_differs(bank, with_body_at(bank, i, body), i),
        main_objects(with_body_at(bank, i, body))[i].body == body,
{
    let objects = main_objects(bank);
    let after = with_body_at(bank, i, body);
    lemma_first_where_points(bank, holds_objects());
    assert(holds_objects()(bank[hirc_index(bank)]));
    lemma_with_body_at(bank, i, body);
    lemma_with_objects(bank, objects.update(i, ObjectData { id: objects[i].id, body }));
}

// ---------------------------------------------------------------------------
// Children
// ---------------------------------------------------------------------------
/// Is the second body the first with these children, and with everything else as it was?
pub open spec fn only_children_differ(before: BodyView, after: BodyView, ids: Seq<u32>) -> bool {
    &&& after.kind == before.kind
    &&& children(after) == Some(ids)
    &&& direct_parent(after) == direct_parent(before)
    &&& override_bus(after) == override_bus(before)
    &&& children_place(before.kind) is Some
    &&& forall|other: Seq<Seq<char>>| #[trigger]
        parted(children_place(before.kind)->Some_0, other) ==> at(after.fields, other) == at(
            before.fields,
            other,
        )
}

/// Another list of children changes nothing else.
pub proof fn lemma_only_children_differ(body: BodyView, ids: Seq<u32>)
    requires
        well_formed(body),
        children(body) is Some,
    ensures
        only_children_differ(body, with_children(body, ids), ids),
{
    lemma_with_children(body, ids);
    lemma_other_fields_stay(body, ids, Seq::empty());
    assert forall|other: Seq<Seq<char>>| #[trigger]
        parted(children_place(body.kind)->Some_0, other) implies at(
        with_children(body, ids).fields,
        other,
    ) == at(body.fields, other) by {
        lemma_other_fields_stay(body, ids, other);
    }
}

/// A child is added to the object that the first text means: its children are then those that it
/// had and the one that the second text means, in ascending order. A child that is there already
/// is not added again. It is refused if a text means nothing, if the object is not in the first
/// section with objects, or if it has no children.
pub proof fn lemma_child_is_added(
    bank: Seq<SectionData>,
    objects: Seq<ObjectData>,
    parent: Seq<char>,
    child: Seq<char>,
)
    requires
        forall|k: int|
            0 <= k < main_objects(bank).len() ==> well_formed(
                (#[trigger] main_objects(bank)[k]).body,
            ),
    ensures
        match with_child_meant(bank, objects, parent, child) {
            Ok(after) => {
                let p = resolved(objects, parent)->Some_0;
                let c = resolved(objects, child)->Some_0;
                let i = object_place(bank, p)->Ok_0;
                let before = main_objects(bank)[i].body;
                let ids = children(before)->Some_0;
                &&& resolved(objects, parent) is Some
                &&& resolved(objects, child) is Some
                &&& is_place_of(bank, i, p)
                &&& children(before) is Some
                &&& ids.contains(c) ==> after == bank
                &&& !ids.contains(c) ==> {
                    let now = children(main_objects(after)[i].body)->Some_0;
                    &&& only_body_differs(bank, after, i)
                    &&& only_children_differ(before, main_objects(after)[i].body, now)
                    &&& ascending(now)
                    &&& now.to_multiset() == ids.to_multiset().insert(c)
                }
            },
            Err(EditFault::NoSuchParent(text)) => resolved(objects, parent) is None && text
                == parent,
            Err(EditFault::NoSuchChild(text)) => resolved(objects, parent) is Some && resolved(
                objects,
                child,
            ) is None && text == child,
            Err(EditFault::NoChildren(kind)) => {
                let i = object_place(bank, resolved(objects, parent)->Some_0)->Ok_0;
                &&& children_place(kind) is None
                &&& is_place_of(bank, i, resolved(objects, parent)->Some_0)
                &&& main_objects(bank)[i].body.kind == kind
            },
            Err(fault) => resolved(objects, parent) is Some && object_place(
                bank,
                resolved(objects, parent)->Some_0,
            ) == Err::<int, EditFault>(fault),
        },
{
    if let (Some(p), Some(c)) = (resolved(objects, parent), resolved(objects, child)) {
        lemma_place(bank, p);
        if let Ok(i) = object_place(bank, p) {
            let body = main_objects(bank)[i].body;
            assert(well_formed(main_objects(bank)[i].body));
            crate::field_laws::lemma_children_are_listed(body);
            if let Some(ids) = children(body) {
                if ids.contains(c) {
                    assert(main_objects(bank).update(
                        i,
                        ObjectData { id: main_objects(bank)[i].id, body },
                    ) =~= main_objects(bank));
                    lemma_own_objects(bank);
                } else {
                    let now = with_id(ids, c);
                    lemma_with_id(ids, c);
                    lemma_sorted(ids.push(c));
                    broadcast use vstd::seq_lib::group_to_multiset_ensures;

                    assert(ids.push(c).to_multiset() =~= ids.to_multiset().insert(c));
                    lemma_only_children_differ(body, now);
                    lemma_body_at(bank, i, with_children(body, now));
                }
            }
        }
    }
}

proof fn lemma_without_id_filters(ids: Seq<u32>, id: u32)
    ensures
        without_id(ids, id) == ids.filter(|other: u32| other != id),
    decreases ids.len(),
{
    reveal(Seq::filter);
    if ids.len() > 0 {
        lemma_without_id_filters(ids.drop_last(), id);
    }
}

/// A child is removed from the object that the first text means: its children are then the others
/// that it had, in the same order. The child is the number that the second text spells, else what
/// it means; it is refused if it is not among the children.
pub proof fn lemma_child_is_removed(
    bank: Seq<SectionData>,
    parent: Seq<char>,
    child: Seq<char>,
)
    requires
        forall|k: int|
            0 <= k < main_objects(bank).len() ==> well_formed(
                (#[trigger] main_objects(bank)[k]).body,
            ),
    ensures
        ({
            let all = all_objects(bank);
            let given = match numeric_id(child) {
                Some(id) => Some(id),
                None => resolved(all, child),
            };
            match without_child_meant(bank, parent, child) {
                Ok(after) => {
                    let p = resolved(all, parent)->Some_0;
                    let c = given->Some_0;
                    let i = object_place(bank, p)->Ok_0;
                    let before = main_objects(bank)[i].body;
                    let ids = children(before)->Some_0;
                    &&& resolved(all, parent) is Some
                    &&& given is Some
                    &&& is_place_of(bank, i, p)
                    &&& children(before) is Some
                    &&& ids.contains(c)
                    &&& only_body_differs(bank, after, i)
                    &&& only_children_differ(
                        before,
                        main_objects(after)[i].body,
                        ids.filter(|id: u32| id != c),
                    )
                },
                Err(EditFault::NoSuchParent(text)) => resolved(all, parent) is None && text
                    == parent,
                Err(EditFault::BadChildId(text)) => resolved(all, parent) is Some && given is None
                    && text == child,
                Err(EditFault::NotAChild(c)) => {
                    let i = object_place(bank, resolved(all, parent)->Some_0)->Ok_0;
                    &&& given == Some(c)
                    &&& is_place_of(bank, i, resolved(all, parent)->Some_0)
                    &&& !children(main_objects(bank)[i].body)->Some_0.contains(c)
                },
                Err(EditFault::NoChildren(kind)) => {
                    let i = object_place(bank, resolved(all, parent)->Some_0)->Ok_0;
                    &&& children_place(kind) is None
                    &&& is_place_of(bank, i, resolved(all, parent)->Some_0)
                    &&& main_objects(bank)[i].body.kind == kind
                },
                Err(fault) => resolved(all, parent) is Some && object_place(
                    bank,
                    resolved(all, parent)->Some_0,
                ) == Err::<int, EditFault>(fault),
            }
        }),
{
    let all = all_objects(bank);
    let given = match numeric_id(child) {
        Some(id) => Some(id),
        None => resolved(all, child),
    };
    if let (Some(p), Some(c)) = (resolved(all, parent), given) {
        lemma_place(bank, p);
        if let Ok(i) = object_place(bank, p) {
            let body = main_objects(bank)[i].body;
            assert(well_formed(main_objects(bank)[i].body));
            crate::field_laws::lemma_children_are_listed(body);
            if let Some(ids) = children(body) {
                let now = without_id(ids, c);
                lemma_without_id_filters(ids, c);
                lemma_only_children_differ(body, now);
                lemma_body_at(bank, i, with_children(body, now));
            }
        }
    }
}

// ---------------------------------------------------------------------------
// Bodies
// ---------------------------------------------------------------------------
/// Another body takes the place of that of the object that the text means, if the body's text
/// reads as one; nothing else changes.
pub proof fn lemma_body_is_replaced(bank: Seq<SectionData>, target: Seq<char>, text: Seq<char>)
    ensures
        match with_body_meant(bank, target, text) {
            Ok(after) => {
                let id = resolved(all_objects(bank), target)->Some_0;
                let i = object_place(bank, id)->Ok_0;
                &&& resolved(all_objects(bank), target) is Some
                &&& is_place_of(bank, i, id)
                &&& only_body_differs(bank, after, i)
                &&& reads_as(text, main_objects(after)[i].body)
            },
            Err(EditFault::Json(JsonError::NotJson)) => parsed_json(text) is None,
            Err(EditFault::Json(JsonError::NotABody)) => parsed_json(text) is Some && forall|
                body: BodyView,
            |
                !#[trigger] reads_as(text, body),
            Err(EditFault::NoSuchObject(missing)) => missing == target && resolved(
                all_objects(bank),
                target,
            ) is None,
            Err(fault) => resolved(all_objects(bank), target) is Some && object_place(
                bank,
                resolved(all_objects(bank), target)->Some_0,
            ) == Err::<int, EditFault>(fault),
        },
{
    if let Some(id) = resolved(all_objects(bank), target) {
        lemma_place(bank, id);
        if let Some(tree) = parsed_json(text) {
            if let Some(body) = crate::body::body_in(tree) {
                if let Ok(i) = object_place(bank, id) {
                    lemma_body_at(bank, i, body);
                }
            }
        }
    }
}

// ---------------------------------------------------------------------------
// Ids
// ---------------------------------------------------------------------------
/// Is the second tree the first with one number for another, and with everything else as it was?
pub open spec fn only_number_differs(
    before: JsonView,
    after: JsonView,
    from: u32,
    to: u32,
) -> bool
    decreases before,
{
    match (before, after) {
        (JsonView::Unsigned(n), JsonView::Unsigned(m)) => if n == from as u64 {
            m == to as u64
        } else {
            m == n
        },
        (JsonView::Array(a), JsonView::Array(b)) => {
            &&& a.len() == b.len()
            &&& forall|i: int|
                0 <= i < a.len() ==> only_number_differs(#[trigger] a[i], b[i], from, to)
        },
        (JsonView::Object(a), JsonView::Object(b)) => {
            &&& a.len() == b.len()
            &&& forall|i: int|
                0 <= i < a.len() ==> (#[trigger] a[i]).0 == b[i].0 && only_number_differs(
                    a[i].1,
                    b[i].1,
                    from,
                    to,
                )
        },
        _ => before == after,
    }
}

proof fn lemma_only_number_differs(v: JsonView, from: u32, to: u32)
    ensures
        only_number_differs(v, renumbered(v, from, to), from, to),
    decreases v,
{
    let w = renumbered(v, from, to);
    match v {
        JsonView::Array(items) => {
            assert forall|i: int| 0 <= i < items.len() implies only_number_differs(
                #[trigger] items[i],
                w->Array_0[i],
                from,
                to,
            ) by {
                assert(decreases_to!(v => items));
                assert(decreases_to!(items => items[i]));
                lemma_only_number_differs(items[i], from, to);
            }
        },
        JsonView::Object(members) => {
            assert forall|i: int| 0 <= i < members.len() implies (#[trigger] members[i]).0
                == w->Object_0[i].0 && only_number_differs(
                members[i].1,
                w->Object_0[i].1,
                from,
                to,
            ) by {
                assert(decreases_to!(v => members));
                assert(decreases_to!(members => members[i]));
                assert(decreases_to!(members[i] => members[i].1));
                lemma_only_number_differs(members[i].1, from, to);
            }
        },
        _ => {},
    }
}

/// The id with one hash for another.
pub open spec fn swapped(id: u32, from: u32, to: u32) -> u32 {
    if id == from {
        to
    } else {
        id
    }
}

/// The optional id with one hash for another.
pub open spec fn swapped_optional(id: Option<u32>, from: u32, to: u32) -> Option<u32> {
    match id {
        Some(id) => Some(swapped(id, from, to)),
        None => None,
    }
}

proof fn lemma_all_renumbered(bank: Seq<SectionData>, from: u32, to: u32)
    ensures
        all_objects(renumbered_bank(bank, from, to)) == renumbered_objects(
            all_objects(bank),
            from,
            to,
        ),
    decreases bank.len(),
{
    let after = renumbered_bank(bank, from, to);
    if bank.len() == 0 {
        assert(all_objects(after) =~= renumbered_objects(all_objects(bank), from, to));
    } else {
        lemma_all_renumbered(bank.drop_last(), from, to);
        assert(after.drop_last() =~= renumbered_bank(bank.drop_last(), from, to));
        assert(objects_in(after.last()) =~= renumbered_objects(
            objects_in(bank.last()),
            from,
            to,
        ));
        assert(all_objects(after) =~= renumbered_objects(all_objects(bank), from, to));
    }
}

/// The object that the text means gets the id that the other text means, a name or a number
/// alike, and every other object keeps its id. If that changes the hash, it is done only where
/// that was asked for and where no object has the new hash, and then no object mentions the old
/// hash any more: in every body the new one stands wherever the old one stood, and everything else
/// is as it was. If the hash stays, all bodies stay.
pub proof fn lemma_id_is_changed(
    bank: Seq<SectionData>,
    target: Seq<char>,
    new_id: Seq<char>,
    renumber: bool,
    after: Seq<SectionData>,
)
    requires
        with_id_meant(bank, target, new_id, renumber) == Ok::<Seq<SectionData>, EditFault>(after),
    ensures
        ({
            let was = all_objects(bank);
            let is = all_objects(after);
            let from = resolved(was, target)->Some_0;
            let to = id_hash(id_meant(new_id));
            let i = object_place(bank, from)->Ok_0;
            &&& new_id.len() > 0
            &&& resolved(was, target) is Some
            &&& is_place_of(bank, i, from)
            &&& is.len() == was.len()
            &&& is[i].id == id_meant(new_id)
            &&& forall|k: int| 0 <= k < was.len() && k != i ==> (#[trigger] is[k]).id == was[k].id
            &&& from != to ==> renumber && !has_hash(was, to)
            &&& forall|k: int|
                0 <= k < was.len() ==> {
                    let b = was[k].body;
                    let a = (#[trigger] is[k]).body;
                    &&& a.kind == b.kind
                    &&& from == to ==> a == b
                    &&& from != to ==> {
                        &&& !mentions(a.fields, from)
                        &&& only_number_differs(b.fields, a.fields, from, to)
                        &&& direct_parent(a) == swapped_optional(direct_parent(b), from, to)
                        &&& override_bus(a) == swapped_optional(override_bus(b), from, to)
                        &&& from != 0 && to != 0 ==> references(a) == references(b).map_values(
                            |id: u32| swapped(id, from, to),
                        )
                    }
                }
        }),
{
    let was = all_objects(bank);
    let is = all_objects(after);
    let from = resolved(was, target)->Some_0;
    let id = id_meant(new_id);
    let to = id_hash(id);
    lemma_place(bank, from);
    let i = object_place(bank, from)->Ok_0;
    let objects = main_objects(bank);
    let changed = objects.update(i, ObjectData { id, body: objects[i].body });
    let named = with_id_at(bank, i, id);
    lemma_all_with_objects(bank, changed);
    let renamed = all_objects(named);
    assert forall|k: int| 0 <= k < was.len() implies (#[trigger] renamed[k]).body == was[k].body
        && renamed[k].id == (if k == i {
        id
    } else {
        was[k].id
    }) by {
        if k < objects.len() {
            assert(was[k] == objects[k]);
            assert(renamed[k] == changed[k]);
        }
    }
    if from != to {
        lemma_all_renumbered(named, from, to);
        assert forall|k: int| 0 <= k < was.len() implies (#[trigger] is[k]).id == renamed[k].id
            && is[k].body.kind == was[k].body.kind && !mentions(is[k].body.fields, from)
            && only_number_differs(was[k].body.fields, is[k].body.fields, from, to)
            && direct_parent(is[k].body) == swapped_optional(direct_parent(was[k].body), from, to)
            && override_bus(is[k].body) == swapped_optional(override_bus(was[k].body), from, to)
            && (from != 0 && to != 0 ==> references(is[k].body) == references(
            was[k].body,
        ).map_values(|id: u32| swapped(id, from, to))) by {
            let body = renamed[k].body;
            lemma_renumbered_leaves_none(body.fields, from, to);
            lemma_only_number_differs(body.fields, from, to);
            lemma_renumbered_body(body, from, to);
            assert(renumbered_ids(references(body), from, to) =~= references(body).map_values(
                |id: u32| swapped(id, from, to),
            ));
        }
    }
}

/// Changing an id leaves all sections without objects as they are, and keeps the order and the
/// magic numbers of the others.
pub proof fn lemma_id_change_keeps_sections(
    bank: Seq<SectionData>,
    target: Seq<char>,
    new_id: Seq<char>,
    renumber: bool,
    after: Seq<SectionData>,
)
    requires
        with_id_meant(bank, target, new_id, renumber) == Ok::<Seq<SectionData>, EditFault>(after),
    ensures
        after.len() == bank.len(),
        forall|s: int|
            0 <= s < bank.len() ==> {
                &&& (#[trigger] after[s]).magic == bank[s].magic
                &&& bank[s].body is HIRC ==> after[s].body is HIRC
                    && after[s].body->HIRC_0.len() == bank[s].body->HIRC_0.len()
                &&& !(bank[s].body is HIRC) ==> after[s] == bank[s]
            },
{
    let from = resolved(all_objects(bank), target)->Some_0;
    let id = id_meant(new_id);
    let i = object_place(bank, from)->Ok_0;
    let objects = main_objects(bank);
    let changed = objects.update(i, ObjectData { id, body: objects[i].body });
    let named = with_id_at(bank, i, id);
    lemma_place(bank, from);
    lemma_first_where_points(bank, holds_objects());
    assert(holds_objects()(bank[hirc_index(bank)]));
    lemma_with_objects(bank, changed);
    assert forall|s: int| 0 <= s < bank.len() implies {
        &&& (#[trigger] after[s]).magic == bank[s].magic
        &&& bank[s].body is HIRC ==> after[s].body is HIRC && after[s].body->HIRC_0.len()
            == bank[s].body->HIRC_0.len()
        &&& !(bank[s].body is HIRC) ==> after[s] == bank[s]
    } by {
        if s != hirc_index(bank) {
            assert(named[s] == bank[s]);
        }
    }
}

/// An id is not changed exactly if the new one is empty, if the text means no object, if the hash
/// would change without leave, if another object has the new hash, or if the object is not in the
/// first section with objects.
pub proof fn lemma_id_change_refused(
    bank: Seq<SectionData>,
    target: Seq<char>,
    new_id: Seq<char>,
    renumber: bool,
)
    ensures
        ({
            let all = all_objects(bank);
            let from = resolved(all, target);
            let to = id_hash(id_meant(new_id));
            match with_id_meant(bank, target, new_id, renumber) {
                Ok(_) => true,
                Err(EditFault::EmptyId) => new_id.len() == 0,
                Err(EditFault::NoSuchObject(text)) => text == target && from is None,
                Err(EditFault::HashWouldChange { from: f, to: t }) => {
                    &&& from == Some(f)
                    &&& t == to
                    &&& f != t
                    &&& !renumber
                },
                Err(EditFault::HashTaken(t)) => t == to && from is Some && from != Some(to)
                    && renumber && has_hash(all, to),
                Err(fault) => from is Some && object_place(bank, from->Some_0) == Err::<
                    int,
                    EditFault,
                >(fault),
            }
        }),
{
    if let Some(from) = resolved(all_objects(bank), target) {
        lemma_place(bank, from);
    }
}

} // verus!
