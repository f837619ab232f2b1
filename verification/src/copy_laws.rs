//! What the copy of an event brings along.

use vstd::prelude::*;

use crate::bank::{
    first_objects, has_hash, hashed, hirc_index, lemma_resolved_is_there, lemma_with_objects,
    main_objects, resolved, ObjectData, SectionData,
};
use crate::body::{action_target, audio_sources, children, is_play, references, well_formed};
use crate::body_laws::{lemma_with_children, lemma_with_id};
use crate::compare::{lemma_collected_rises, rising};
use crate::editor::{
    collected, copy_plan, copy_result, existing_count, first_target, kept, lemma_collected, linked,
    missing_objects, sources_of, top_container, CopyData, PlanData, PlannedData,
};
use crate::error::EditFault;
use crate::field_laws::{lemma_action_fields, lemma_audio_is_played, number_there, plays};
use crate::graph::{dependencies, lemma_dependencies};
use crate::ids::{id_hash, IdView};
use crate::index::{last_with, lemma_last_with};
use crate::json::{at, ids_view};
use crate::kind::BodyKind;
use crate::seqs::{first_where, lemma_first_where, lemma_first_where_points};

verus! {

// ---------------------------------------------------------------------------
// Audio files
// ---------------------------------------------------------------------------
/// Does one of these objects play the audio file?
pub open spec fn one_plays(objects: Seq<ObjectData>, ids: Seq<u32>, file: u32) -> bool {
    exists|k: int|
        0 <= k < ids.len() && has_hash(objects, #[trigger] ids[k]) && plays(
            last_with(objects, ids[k])->Some_0.body,
            file,
        )
}

proof fn lemma_sources_of(objects: Seq<ObjectData>, ids: Seq<u32>, file: u32)
    ensures
        sources_of(objects, ids).contains(file) == one_plays(objects, ids, file),
    decreases ids.len(),
{
    if ids.len() > 0 {
        let front = ids.drop_last();
        let before = sources_of(objects, front);
        lemma_sources_of(objects, front, file);
        lemma_last_with(objects, ids.last());
        if let Some(o) = last_with(objects, ids.last()) {
            lemma_audio_is_played(o.body, file);
            let more = audio_sources(o.body);
            let all = before + more;
            if before.contains(file) {
                let i = choose|i: int| 0 <= i < before.len() && before[i] == file;
                assert(all[i] == file);
            }
            if more.contains(file) {
                let i = choose|i: int| 0 <= i < more.len() && more[i] == file;
                assert(all[before.len() + i] == file);
                assert(ids[ids.len() - 1] == ids.last());
            }
            if all.contains(file) {
                let i = choose|i: int| 0 <= i < all.len() && all[i] == file;
                if i < before.len() {
                    assert(before[i] == file);
                } else {
                    assert(more[i - before.len()] == file);
                }
            }
        }
        if one_plays(objects, front, file) {
            let k = choose|k: int|
                0 <= k < front.len() && has_hash(objects, #[trigger] front[k]) && plays(
                    last_with(objects, front[k])->Some_0.body,
                    file,
                );
            assert(ids[k] == front[k]);
        }
        if one_plays(objects, ids, file) {
            let k = choose|k: int|
                0 <= k < ids.len() && has_hash(objects, #[trigger] ids[k]) && plays(
                    last_with(objects, ids[k])->Some_0.body,
                    file,
                );
            if k < front.len() {
                assert(front[k] == ids[k]);
            }
        }
    }
}

/// The audio files of some objects are those that one of the objects plays: all of them, no others,
/// in ascending order, each once.
pub proof fn lemma_collected_sources(objects: Seq<ObjectData>, ids: Seq<u32>, file: u32)
    ensures
        collected(sources_of(objects, ids)).contains(file) == one_plays(objects, ids, file),
        rising(collected(sources_of(objects, ids))),
{
    lemma_sources_of(objects, ids, file);
    lemma_collected(sources_of(objects, ids));
    lemma_collected_rises(sources_of(objects, ids));
}

/// The audio files of a plan are those that some dependency of the event plays: all of them, no
/// others, in ascending order, each once.
pub proof fn lemma_plan_has_all_audio(
    source: Seq<ObjectData>,
    destination: Seq<ObjectData>,
    event: Seq<char>,
    plan: PlanData,
    file: u32,
)
    requires
        copy_plan(source, destination, event) == Ok::<PlanData, EditFault>(plan),
    ensures
        resolved(source, event) == Some(plan.event_id),
        plan.wem_ids.contains(file) == one_plays(
            source,
            dependencies(source, plan.event_id),
            file,
        ),
        rising(plan.wem_ids),
{
    lemma_collected_sources(source, dependencies(source, plan.event_id), file);
}

/// The audio files of a copy are those that some dependency of the event plays.
pub proof fn lemma_copy_has_all_audio(
    source: Seq<ObjectData>,
    bank: Seq<SectionData>,
    event: Seq<char>,
    register_with: Option<Seq<char>>,
    done: CopyData,
    file: u32,
)
    requires
        copy_result(source, bank, event, register_with) == Ok::<CopyData, EditFault>(done),
    ensures
        resolved(source, event) is Some,
        done.wem_ids.contains(file) == one_plays(
            source,
            dependencies(source, resolved(source, event)->Some_0),
            file,
        ),
        rising(done.wem_ids),
{
    let plan = copy_plan(source, main_objects(bank), event)->Ok_0;
    lemma_plan_has_all_audio(source, main_objects(bank), event, plan, file);
}

// ---------------------------------------------------------------------------
// Objects
// ---------------------------------------------------------------------------
/// A plan is made exactly for an event that is there. It lists the dependencies of the event in
/// their order, each with its kind and its name, and marks those that the destination has.
pub proof fn lemma_plan_lists_dependencies(
    source: Seq<ObjectData>,
    destination: Seq<ObjectData>,
    event: Seq<char>,
)
    ensures
        match copy_plan(source, destination, event) {
            Ok(plan) => {
                let ids = dependencies(source, plan.event_id);
                &&& resolved(source, event) == Some(plan.event_id)
                &&& last_with(source, plan.event_id)->Some_0.body.kind == BodyKind::Event
                &&& plan.objects.len() == ids.len()
                &&& forall|k: int|
                    0 <= k < ids.len() ==> {
                        let o = last_with(source, ids[k])->Some_0;
                        let p = #[trigger] plan.objects[k];
                        &&& has_hash(source, ids[k])
                        &&& p.id == ids[k]
                        &&& p.kind == o.body.kind
                        &&& p.exists == has_hash(destination, ids[k])
                        &&& p.label == (match o.id {
                            IdView::Name(name) => name,
                            IdView::Hash(_) => "—"@,
                        })
                    }
            },
            Err(EditFault::EventNotFound(text)) => resolved(source, event) is None && text
                == event,
            Err(EditFault::NotAnEvent(kind)) => {
                &&& resolved(source, event) is Some
                &&& kind != BodyKind::Event
                &&& last_with(source, resolved(source, event)->Some_0)->Some_0.body.kind == kind
            },
            Err(_) => false,
        },
{
    if let Ok(plan) = copy_plan(source, destination, event) {
        let ids = dependencies(source, plan.event_id);
        lemma_dependencies(source, plan.event_id, Set::empty());
        assert forall|k: int| 0 <= k < ids.len() implies has_hash(source, #[trigger] ids[k]) by {
            assert(ids.contains(ids[k]));
            lemma_last_with(source, ids[k]);
        }
    }
}

/// How many planned objects the destination has.
pub proof fn lemma_existing_are_counted(planned: Seq<PlannedData>)
    ensures
        existing_count(planned) == planned.filter(|p: PlannedData| p.exists).len(),
    decreases planned.len(),
{
    reveal(Seq::filter);
    if planned.len() > 0 {
        lemma_existing_are_counted(planned.drop_last());
    }
}

proof fn lemma_missing_is_copied(
    source: Seq<ObjectData>,
    destination: Seq<ObjectData>,
    ids: Seq<u32>,
)
    ensures
        missing_objects(source, destination, ids) == ids.filter(
            |id: u32| !has_hash(destination, id),
        ).map_values(|id: u32| last_with(source, id)->Some_0),
    decreases ids.len(),
{
    reveal(Seq::filter);
    let absent = |id: u32| !has_hash(destination, id);
    let copy = |id: u32| last_with(source, id)->Some_0;
    if ids.len() > 0 {
        let front = ids.drop_last();
        lemma_missing_is_copied(source, destination, front);
        assert(front.filter(absent).push(ids.last()).map_values(copy) =~= front.filter(
            absent,
        ).map_values(copy).push(copy(ids.last())));
    } else {
        assert(ids.filter(absent).map_values(copy) =~= Seq::<ObjectData>::empty());
    }
}

/// A copy puts behind the objects of the destination exactly the dependencies of the event that
/// it does not have, in their order, each as it is in the source, but for the one that gets a
/// child. No other section changes.
pub proof fn lemma_copy_adds_what_is_missing(
    source: Seq<ObjectData>,
    bank: Seq<SectionData>,
    event: Seq<char>,
    register_with: Option<Seq<char>>,
    done: CopyData,
)
    requires
        copy_result(source, bank, event, register_with) == Ok::<CopyData, EditFault>(done),
    ensures
        ({
            let before = main_objects(bank);
            let after = main_objects(done.bank);
            let wanted = dependencies(source, resolved(source, event)->Some_0).filter(
                |id: u32| !has_hash(before, id),
            );
            &&& after.len() == before.len() + wanted.len()
            &&& done.added == wanted.len()
            &&& forall|k: int|
                0 <= k < wanted.len() ==> kept(
                    last_with(source, wanted[k])->Some_0,
                    #[trigger] after[before.len() + k],
                    done.link,
                )
            &&& done.bank.len() == bank.len()
            &&& forall|s: int|
                0 <= s < bank.len() && s != hirc_index(bank) ==> #[trigger] done.bank[s]
                    == bank[s]
        }),
{
    let before = main_objects(bank);
    let event_id = resolved(source, event)->Some_0;
    let ids = dependencies(source, event_id);
    let wanted = ids.filter(|id: u32| !has_hash(before, id));
    lemma_missing_is_copied(source, before, ids);
    let added = missing_objects(source, before, ids);
    let all = before + added;
    let objects = linked(all, done.link)->Ok_0;
    lemma_with_objects(bank, objects);
    let after = main_objects(done.bank);
    if let Some((parent, top)) = done.link {
        lemma_first_where_points(all, hashed(parent));
    }
    assert forall|k: int| 0 <= k < wanted.len() implies kept(
        last_with(source, wanted[k])->Some_0,
        #[trigger] after[before.len() + k],
        done.link,
    ) by {
        assert(all[before.len() + k] == added[k]);
        assert(added[k] == last_with(source, wanted[k])->Some_0);
        if let Some((parent, top)) = done.link {
            let i = first_where(all, hashed(parent));
            assert(hashed(parent)(all[i]));
        }
    }
}

// ---------------------------------------------------------------------------
// The link
// ---------------------------------------------------------------------------
/// Does the action among the objects aim at this target?
pub open spec fn aims_at(objects: Seq<ObjectData>, action: u32, target: u32) -> bool {
    last_with(objects, action) matches Some(o) && o.body.kind == BodyKind::Action && target != 0
        && number_there(o.body.fields, seq!["external_id"@], target)
}

/// Does the action among the objects aim at something?
pub open spec fn aims(objects: Seq<ObjectData>, action: u32) -> bool {
    exists|target: u32| aims_at(objects, action, target)
}

/// Does the action among the objects play what it aims at?
pub open spec fn aims_to_play(objects: Seq<ObjectData>, action: u32) -> bool {
    last_with(objects, action) matches Some(o) && aims(objects, action) && number_there(
        o.body.fields,
        seq!["action_type"@],
        0x0403,
    )
}

/// Are the first `n` actions there?
pub open spec fn all_there(objects: Seq<ObjectData>, actions: Seq<u32>, n: int) -> bool {
    forall|i: int| 0 <= i < n ==> has_hash(objects, #[trigger] actions[i])
}

proof fn lemma_aim(objects: Seq<ObjectData>, action: u32, target: u32)
    ensures
        last_with(objects, action) matches Some(o) ==> (action_target(o.body) == Some(target))
            == aims_at(objects, action, target) && is_play(o.body) == (o.body.kind
            == BodyKind::Action && number_there(o.body.fields, seq!["action_type"@], 0x0403)),
        last_with(objects, action) matches Some(o) ==> (action_target(o.body) is Some) == aims(
            objects,
            action,
        ),
{
    if let Some(o) = last_with(objects, action) {
        lemma_action_fields(o.body, target);
        if let Some(t) = action_target(o.body) {
            lemma_action_fields(o.body, t);
            assert(aims_at(objects, action, t));
        }
        if aims(objects, action) {
            let t = choose|t: u32| aims_at(objects, action, t);
            lemma_action_fields(o.body, t);
        }
    }
}

/// Is the target that of the first action that qualifies?
pub open spec fn is_first_aim(
    objects: Seq<ObjectData>,
    actions: Seq<u32>,
    playing: bool,
    target: u32,
) -> bool {
    exists|n: int|
        {
            &&& 0 <= n < actions.len()
            &&& aims_at(objects, #[trigger] actions[n], target)
            &&& playing ==> aims_to_play(objects, actions[n])
            &&& all_there(objects, actions, n)
            &&& forall|i: int|
                0 <= i < n ==> !(aims(objects, #[trigger] actions[i]) && (playing
                    ==> aims_to_play(objects, actions[i])))
        }
}

/// Does no action qualify, up to the first that is not there?
pub open spec fn no_aim(objects: Seq<ObjectData>, actions: Seq<u32>, playing: bool) -> bool {
    forall|n: int|
        0 <= n < actions.len() && all_there(objects, actions, n) ==> !(aims(
            objects,
            #[trigger] actions[n],
        ) && (playing ==> aims_to_play(objects, actions[n])))
}

proof fn lemma_first_target(objects: Seq<ObjectData>, actions: Seq<u32>, playing: bool)
    ensures
        match first_target(objects, actions, playing) {
            Some(target) => is_first_aim(objects, actions, playing, target),
            None => no_aim(objects, actions, playing),
        },
    decreases actions.len(),
{
    if actions.len() > 0 {
        let rest = actions.skip(1);
        let found = first_target(objects, actions, playing);
        lemma_aim(objects, actions[0], 0);
        lemma_last_with(objects, actions[0]);
        lemma_first_target(objects, rest, playing);
        match last_with(objects, actions[0]) {
            Some(o) => {
                if action_target(o.body) is Some && (is_play(o.body) || !playing) {
                    let target = action_target(o.body)->Some_0;
                    lemma_aim(objects, actions[0], target);
                    assert(aims_at(objects, actions[0], target));
                    assert(all_there(objects, actions, 0));
                } else if let Some(target) = found {
                    let n = choose|n: int|
                        {
                            &&& 0 <= n < rest.len()
                            &&& aims_at(objects, #[trigger] rest[n], target)
                            &&& playing ==> aims_to_play(objects, rest[n])
                            &&& all_there(objects, rest, n)
                            &&& forall|i: int|
                                0 <= i < n ==> !(aims(objects, #[trigger] rest[i]) && (playing
                                    ==> aims_to_play(objects, rest[i])))
                        };
                    assert(actions[n + 1] == rest[n]);
                    assert forall|i: int| 0 <= i < n + 1 implies has_hash(
                        objects,
                        #[trigger] actions[i],
                    ) && !(aims(objects, actions[i]) && (playing ==> aims_to_play(
                        objects,
                        actions[i],
                    ))) by {
                        if i > 0 {
                            assert(rest[i - 1] == actions[i]);
                            assert(has_hash(objects, rest[i - 1]));
                        }
                    }
                    assert(aims_at(objects, actions[n + 1], target));
                } else {
                    assert forall|n: int|
                        0 <= n < actions.len() && all_there(objects, actions, n) implies !(aims(
                        objects,
                        #[trigger] actions[n],
                    ) && (playing ==> aims_to_play(objects, actions[n]))) by {
                        if n > 0 {
                            assert(rest[n - 1] == actions[n]);
                            assert(all_there(objects, rest, n - 1)) by {
                                assert forall|i: int| 0 <= i < n - 1 implies has_hash(
                                    objects,
                                    #[trigger] rest[i],
                                ) by {
                                    assert(has_hash(objects, actions[i + 1]));
                                }
                            }
                        }
                    }
                }
            },
            None => {
                assert forall|n: int|
                    0 <= n < actions.len() && all_there(objects, actions, n) implies !(aims(
                    objects,
                    #[trigger] actions[n],
                ) && (playing ==> aims_to_play(objects, actions[n]))) by {
                    if n > 0 {
                        assert(has_hash(objects, actions[0]));
                    } else if aims(objects, actions[0]) {
                        let t = choose|t: u32| aims_at(objects, actions[0], t);
                        assert(aims_at(objects, actions[0], t));
                    }
                }
            },
        }
    }
}

/// An event is about what the first of its actions that plays something plays; if none plays, it
/// is about what the first action that has a target aims at. Actions behind one that is not there
/// do not count.
pub proof fn lemma_event_is_about(objects: Seq<ObjectData>, event: u32, actions: Seq<u32>)
    requires
        last_with(objects, event) matches Some(o) && o.body.kind == BodyKind::Event && at(
            o.body.fields,
            seq!["actions"@],
        ) == Some(ids_view(actions)),
    ensures
        match top_container(objects, event) {
            Some(target) => is_first_aim(objects, actions, true, target) || (no_aim(
                objects,
                actions,
                true,
            ) && is_first_aim(objects, actions, false, target)),
            None => no_aim(objects, actions, true) && no_aim(objects, actions, false),
        },
{
    let o = last_with(objects, event)->Some_0;
    crate::json::lemma_ids_read_back(actions);
    assert(references(o.body) == actions);
    lemma_first_target(objects, actions, true);
    lemma_first_target(objects, actions, false);
}

/// A copy that is to be registered makes the container that the event is about a child of the
/// object that was named, beside the children that it had; without that, nothing gets a child.
pub proof fn lemma_copy_is_registered(
    source: Seq<ObjectData>,
    bank: Seq<SectionData>,
    event: Seq<char>,
    register_with: Option<Seq<char>>,
    done: CopyData,
)
    requires
        copy_result(source, bank, event, register_with) == Ok::<CopyData, EditFault>(done),
        forall|k: int|
            0 <= k < main_objects(bank).len() ==> well_formed(
                (#[trigger] main_objects(bank)[k]).body,
            ),
    ensures
        ({
            let before = main_objects(bank);
            let after = main_objects(done.bank);
            match register_with {
                Some(target) => {
                    let parent = resolved(before, target)->Some_0;
                    let top = top_container(source, resolved(source, event)->Some_0)->Some_0;
                    let i = first_where(before, hashed(parent));
                    &&& resolved(before, target) is Some
                    &&& top_container(source, resolved(source, event)->Some_0) is Some
                    &&& done.link == Some((parent, top))
                    &&& 0 <= i < before.len()
                    &&& after[i].id == before[i].id
                    &&& children(before[i].body) is Some
                    &&& children(after[i].body) is Some
                    &&& children(after[i].body)->Some_0.contains(top)
                    &&& forall|c: u32| c != top ==> (#[trigger] children(
                        after[i].body,
                    )->Some_0.contains(c) == children(before[i].body)->Some_0.contains(c))
                    &&& forall|k: int|
                        0 <= k < before.len() && k != i ==> #[trigger] after[k] == before[k]
                },
                None => {
                    &&& done.link is None
                    &&& forall|k: int| 0 <= k < before.len() ==> #[trigger] after[k] == before[k]
                },
            }
        }),
{
    let before = main_objects(bank);
    let event_id = resolved(source, event)->Some_0;
    let ids = dependencies(source, event_id);
    let added = missing_objects(source, before, ids);
    let all = before + added;
    let objects = linked(all, done.link)->Ok_0;
    lemma_with_objects(bank, objects);
    if let Some(target) = register_with {
        let parent = resolved(before, target)->Some_0;
        let top = top_container(source, event_id)->Some_0;
        lemma_resolved_is_there(before, target);
        let i = first_where(before, hashed(parent));
        lemma_first_where_points(before, hashed(parent));
        let w = choose|w: int|
            0 <= w < before.len() && id_hash((#[trigger] before[w]).id) == parent;
        assert(hashed(parent)(before[w]));
        assert(i < before.len());
        assert forall|k: int| 0 <= k < i implies !hashed(parent)(#[trigger] all[k]) by {
            assert(all[k] == before[k]);
        }
        assert(all[i] == before[i]);
        lemma_first_where(all, hashed(parent), i);
        let body = before[i].body;
        assert(well_formed(main_objects(bank)[i].body));
        let list = children(body)->Some_0;
        lemma_with_id(list, top);
        lemma_with_children(body, crate::body::with_id(list, top));
    }
}

/// An event that is there can be copied, without registering it, to any bank with objects.
pub proof fn lemma_event_can_be_copied(
    source: Seq<ObjectData>,
    bank: Seq<SectionData>,
    event: Seq<char>,
)
    requires
        resolved(source, event) is Some,
        last_with(source, resolved(source, event)->Some_0)->Some_0.body.kind == BodyKind::Event,
        first_objects(bank) is Some,
    ensures
        copy_result(source, bank, event, None) is Ok,
{
}

} // verus!
