//! Edits of single objects in a bank.

use vstd::prelude::*;

use crate::bank::{
    first_objects, hashed, holds_objects, lemma_with_objects, main_objects, objects_view,
    position_of, with_objects, HIRCObject, ObjectData, SectionData, Soundbank,
};
use crate::body::{
    children, with_children, with_id, without_id, BodyView, ChildError, HIRCObjectBody,
};
use crate::error::{EditError, EditFault};
use crate::seqs::{first_where, lemma_first_where_points};
use crate::storage::lemma_put_after_take;

verus! {

/// The place of an object in the first section with objects.
pub open spec fn object_place(bank: Seq<SectionData>, id: u32) -> Result<int, EditFault> {
    match first_objects(bank) {
        Some(objects) => {
            let i = first_where(objects, hashed(id));
            if i < objects.len() {
                Ok(i)
            } else {
                Err(EditFault::NotInHirc(id))
            }
        },
        None => Err(EditFault::NoHirc),
    }
}

/// The bank with another body for the object at a place.
pub open spec fn with_body_at(
    bank: Seq<SectionData>,
    i: int,
    body: BodyView,
) -> Seq<SectionData> {
    let objects = main_objects(bank);
    with_objects(bank, objects.update(i, ObjectData { id: objects[i].id, body }))
}

/// The body with one more child, in ascending order; the same body if the child is there.
pub open spec fn child_added(body: BodyView, child: u32) -> Result<BodyView, EditFault> {
    match children(body) {
        Some(ids) => Ok(
            if ids.contains(child) {
                body
            } else {
                with_children(body, with_id(ids, child))
            },
        ),
        None => Err(EditFault::NoChildren(body.kind)),
    }
}

/// The body without a child.
pub open spec fn child_removed(body: BodyView, child: u32) -> Result<BodyView, EditFault> {
    match children(body) {
        Some(ids) => if ids.contains(child) {
            Ok(with_children(body, without_id(ids, child)))
        } else {
            Err(EditFault::NotAChild(child))
        },
        None => Err(EditFault::NoChildren(body.kind)),
    }
}

/// The bank with one more child for an object.
pub open spec fn with_child(bank: Seq<SectionData>, parent: u32, child: u32) -> Result<
    Seq<SectionData>,
    EditFault,
> {
    match object_place(bank, parent) {
        Ok(i) => match child_added(main_objects(bank)[i].body, child) {
            Ok(body) => Ok(with_body_at(bank, i, body)),
            Err(e) => Err(e),
        },
        Err(e) => Err(e),
    }
}

/// The bank with one child less for an object.
pub open spec fn without_child(bank: Seq<SectionData>, parent: u32, child: u32) -> Result<
    Seq<SectionData>,
    EditFault,
> {
    match object_place(bank, parent) {
        Ok(i) => match child_removed(main_objects(bank)[i].body, child) {
            Ok(body) => Ok(with_body_at(bank, i, body)),
            Err(e) => Err(e),
        },
        Err(e) => Err(e),
    }
}

/// The bank with another body for an object.
pub open spec fn with_body(bank: Seq<SectionData>, id: u32, body: BodyView) -> Result<
    Seq<SectionData>,
    EditFault,
> {
    match object_place(bank, id) {
        Ok(i) => Ok(with_body_at(bank, i, body)),
        Err(e) => Err(e),
    }
}

/// What an edit leaves behind: the bank that it gives, or the bank as it was and a refusal.
pub open spec fn edited<T>(
    r: Result<T, EditError>,
    before: Seq<SectionData>,
    after: Seq<SectionData>,
    expected: Result<Seq<SectionData>, EditFault>,
) -> bool {
    match (expected, r) {
        (Ok(bank), Ok(_)) => after == bank,
        (Err(fault), Err(e)) => e@ == fault && after == before,
        _ => false,
    }
}

/// The objects that a bank has leave it as it is.
pub proof fn lemma_own_objects(bank: Seq<SectionData>)
    ensures
        with_objects(bank, main_objects(bank)) == bank,
{
    lemma_first_where_points(bank, holds_objects());
    assert(with_objects(bank, main_objects(bank)) =~= bank);
}

/// A new body stands where it was put, every other object stays, and so does every other section.
pub proof fn lemma_with_body_at(bank: Seq<SectionData>, i: int, body: BodyView)
    requires
        0 <= i < main_objects(bank).len(),
    ensures
        main_objects(with_body_at(bank, i, body)).len() == main_objects(bank).len(),
        main_objects(with_body_at(bank, i, body))[i] == (ObjectData {
            id: main_objects(bank)[i].id,
            body,
        }),
        forall|k: int|
            0 <= k < main_objects(bank).len() && k != i ==> #[trigger] main_objects(
                with_body_at(bank, i, body),
            )[k] == main_objects(bank)[k],
        forall|k: int|
            0 <= k < bank.len() && k != crate::bank::hirc_index(bank) ==> #[trigger] with_body_at(
                bank,
                i,
                body,
            )[k] == bank[k],
{
    let objects = main_objects(bank).update(
        i,
        ObjectData { id: main_objects(bank)[i].id, body },
    );
    lemma_with_objects(bank, objects);
}

fn child_refusal(e: ChildError, body: &HIRCObjectBody, child: u32) -> (r: EditError)
    ensures
        r@ == (match e {
            ChildError::NoChildren => EditFault::NoChildren(body@.kind),
            ChildError::NotThere => EditFault::NotAChild(child),
        }),
{
    match e {
        ChildError::NoChildren => EditError::NoChildren(body.kind()),
        ChildError::NotThere => EditError::NotAChild(child),
    }
}

/// Adds a child to an object, in ascending order, if it is not there.
pub fn add_child_to(soundbank: &mut Soundbank, parent: u32, child: u32) -> (r: Result<
    (),
    EditError,
>)
    ensures
        edited(
            r,
            old(soundbank)@,
            final(soundbank)@,
            with_child(old(soundbank)@, parent, child),
        ),
{
    let ghost bank = soundbank@;
    let mut objects = match soundbank.take_objects() {
        Some(objects) => objects,
        None => {
            return Err(EditError::NoHirc);
        },
    };
    let ghost before = objects_view(objects@);
    let i = position_of(&objects, parent);
    let mut r: Result<(), EditError> = Err(EditError::NotInHirc(parent));
    if i < objects.len() {
        assert(before[i as int] == objects@[i as int]@);
        let mut object = objects.remove(i);
        r = match object.body.add_child(child) {
            Ok(()) => Ok(()),
            Err(e) => Err(child_refusal(e, &object.body, child)),
        };
        let ghost view = object@;
        objects.insert(i, object);
        assert(objects_view(objects@) =~= before.update(i as int, view));
        assert(r is Err ==> objects_view(objects@) =~= before);
    }
    let ghost after = objects_view(objects@);
    soundbank.put_objects(objects);
    proof {
        lemma_put_after_take(bank, after);
        lemma_own_objects(bank);
    }
    r
}

/// Removes a child from an object.
pub fn remove_child_from(soundbank: &mut Soundbank, parent: u32, child: u32) -> (r: Result<
    (),
    EditError,
>)
    ensures
        edited(
            r,
            old(soundbank)@,
            final(soundbank)@,
            without_child(old(soundbank)@, parent, child),
        ),
{
    let ghost bank = soundbank@;
    let mut objects = match soundbank.take_objects() {
        Some(objects) => objects,
        None => {
            return Err(EditError::NoHirc);
        },
    };
    let ghost before = objects_view(objects@);
    let i = position_of(&objects, parent);
    let mut r: Result<(), EditError> = Err(EditError::NotInHirc(parent));
    if i < objects.len() {
        assert(before[i as int] == objects@[i as int]@);
        let mut object = objects.remove(i);
        r = match object.body.remove_child(child) {
            Ok(()) => Ok(()),
            Err(e) => Err(child_refusal(e, &object.body, child)),
        };
        let ghost view = object@;
        objects.insert(i, object);
        assert(objects_view(objects@) =~= before.update(i as int, view));
        assert(r is Err ==> objects_view(objects@) =~= before);
    }
    let ghost after = objects_view(objects@);
    soundbank.put_objects(objects);
    proof {
        lemma_put_after_take(bank, after);
        lemma_own_objects(bank);
    }
    r
}

/// Gives an object another body.
pub fn replace_body(soundbank: &mut Soundbank, id: u32, body: HIRCObjectBody) -> (r: Result<
    (),
    EditError,
>)
    ensures
        edited(r, old(soundbank)@, final(soundbank)@, with_body(old(soundbank)@, id, body@)),
{
    let ghost bank = soundbank@;
    let mut objects = match soundbank.take_objects() {
        Some(objects) => objects,
        None => {
            return Err(EditError::NoHirc);
        },
    };
    let ghost before = objects_view(objects@);
    let i = position_of(&objects, id);
    let mut r: Result<(), EditError> = Err(EditError::NotInHirc(id));
    if i < objects.len() {
        assert(before[i as int] == objects@[i as int]@);
        let object = objects.remove(i);
        let changed = HIRCObject { id: object.id, body };
        let ghost view = changed@;
        objects.insert(i, changed);
        assert(objects_view(objects@) =~= before.update(i as int, view));
        r = Ok(());
    }
    let ghost after = objects_view(objects@);
    soundbank.put_objects(objects);
    proof {
        lemma_put_after_take(bank, after);
        lemma_own_objects(bank);
    }
    r
}

} // verus!
