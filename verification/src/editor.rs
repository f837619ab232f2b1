//! The commands of the editor.

use vstd::prelude::*;

use crate::bank::{
    first_objects, has_hash, hashed, lemma_resolved_is_there, lemma_with_objects, main_objects,
    objects_view, position_of, resolved, with_objects, HIRCObject, ObjectData, SectionData,
    Soundbank,
};
use crate::body::{
    action_target, audio_sources, body_tree, is_play, lemma_body_in_tree, references, with_id,
    BodyView, HIRCObjectBody,
};
use crate::body_laws::lemma_with_id;
use crate::edits::{add_child_to, child_added, edited, with_child};
use crate::error::{EditError, EditFault};
use crate::graph::{
    collect_dependencies, dependencies, label_of, label_text, lemma_dependencies, texts_view,
};
use crate::ids::{id_hash, text_view};
use crate::index::{last_with, lemma_last_with, HircIndex};
use crate::json::Json;
use crate::json_text::pretty_json;
use crate::kind::{kind_name, BodyKind};

use crate::seqs::{ascending, contains_id, first_where, lemma_first_where_points, sort_ids};
use crate::session_laws::distinct_hashes;
use crate::storage::{filter_view, lemma_put_after_take, ObjectSummary};
use crate::text::{
    decimal, decimal_text, join, join3, pad_left, pad_right, padded_left, padded_right,
};

verus! {

// ---------------------------------------------------------------------------
// Finding
// ---------------------------------------------------------------------------
/// A text that may be missing, or a dash.
pub open spec fn or_dash(text: Option<Seq<char>>) -> Seq<char> {
    match text {
        Some(text) => text,
        None => "—"@,
    }
}

/// The line of an object that was found.
pub open spec fn find_line(row: ObjectSummary) -> Seq<char> {
    let parent = match row.direct_parent {
        Some(id) => decimal_text(id as nat),
        None => "—"@,
    };
    padded_left(decimal_text(row.id_hash as nat), 12, ' ') + "  "@ + padded_right(
        row.body_kind@,
        32,
    ) + "  parent="@ + padded_right(parent, 12) + "  "@ + or_dash(text_view(row.label))
}

/// The line of an object that was found.
pub fn find_line_of(row: &ObjectSummary) -> (r: String)
    ensures
        r@ == find_line(*row),
{
    let label = match &row.label {
        Some(label) => label.clone(),
        None => "—".to_owned(),
    };
    let parent = match row.direct_parent {
        Some(id) => decimal(id as u64),
        None => "—".to_owned(),
    };
    let id = pad_left(decimal(row.id_hash as u64).as_str(), 12, ' ');
    let kind = pad_right(row.body_kind.as_str(), 32);
    let front = join3(id.as_str(), "  ", kind.as_str());
    let middle = join3(front.as_str(), "  parent=", pad_right(parent.as_str(), 12).as_str());
    join3(middle.as_str(), "  ", label.as_str())
}

/// The lines that `find` shows.
pub open spec fn find_lines(rows: Seq<ObjectSummary>) -> Seq<Seq<char>> {
    if rows.len() == 0 {
        seq!["(no matches)"@]
    } else {
        rows.map_values(|row: ObjectSummary| find_line(row))
    }
}

/// The lines that `find` shows.
pub fn cmd_find(rows: &Vec<ObjectSummary>) -> (r: Vec<String>)
    ensures
        texts_view(r@) == find_lines(rows@),
{
    if rows.len() == 0 {
        let r = vec!["(no matches)".to_owned()];
        assert(texts_view(r@) =~= find_lines(rows@));
        return r;
    }
    let mut r: Vec<String> = Vec::new();
    let mut i: usize = 0;
    while i < rows.len()
        invariant
            i <= rows@.len(),
            r@.len() == i,
            forall|k: int| 0 <= k < i ==> (#[trigger] r@[k])@ == find_line(rows@[k]),
        decreases rows@.len() - i,
    {
        r.push(find_line_of(&rows[i]));
        i = i + 1;
    }
    assert(texts_view(r@) =~= find_lines(rows@));
    r
}

// ---------------------------------------------------------------------------
// Inspecting
// ---------------------------------------------------------------------------
/// What `inspect` shows of an object: a line with its id and its label, and its body.
pub open spec fn inspection(objects: Seq<ObjectData>, target: Seq<char>) -> Result<
    Seq<Seq<char>>,
    EditFault,
> {
    match resolved(objects, target) {
        Some(id) => {
            let o = last_with(objects, id)->Some_0;
            Ok(
                seq![
                    "# id: "@ + decimal_text(id as nat) + "  ("@ + label_text(o.id) + ")"@,
                    pretty_json(body_tree(o.body)),
                ],
            )
        },
        None => Err(EditFault::NoSuchObject(target)),
    }
}

/// What `inspect` shows of an object.
pub fn cmd_inspect(soundbank: &Soundbank, target: &str) -> (r: Result<Vec<String>, EditError>)
    ensures
        match r {
            Ok(lines) => inspection(main_objects(soundbank@), target@) == Ok::<
                Seq<Seq<char>>,
                EditFault,
            >(texts_view(lines@)),
            Err(e) => inspection(main_objects(soundbank@), target@) == Err::<
                Seq<Seq<char>>,
                EditFault,
            >(e@),
        },
{
    let index = HircIndex::build(soundbank);
    let id = match index.resolve(target) {
        Some(id) => id,
        None => {
            return Err(EditError::NoSuchObject(target.to_owned()));
        },
    };
    proof {
        lemma_resolved_is_there(index@, target@);
        lemma_last_with(index@, id);
    }
    match index.get(id) {
        Some(object) => {
            let body = match object.body.to_json().to_pretty_text() {
                Ok(body) => body,
                Err(e) => {
                    return Err(EditError::Json(e));
                },
            };
            let start = join3("# id: ", decimal(id as u64).as_str(), "  (");
            let line = join3(start.as_str(), label_of(&object.id).as_str(), ")");
            let lines = vec![line, body];
            assert(texts_view(lines@) =~= inspection(index@, target@)->Ok_0);
            Ok(lines)
        },
        None => Err(EditError::NoSuchObject(target.to_owned())),
    }
}

// ---------------------------------------------------------------------------
// Adding a child
// ---------------------------------------------------------------------------
/// The bank with one more child for an object, both meant by texts.
pub open spec fn with_child_meant(
    bank: Seq<SectionData>,
    objects: Seq<ObjectData>,
    parent: Seq<char>,
    child: Seq<char>,
) -> Result<Seq<SectionData>, EditFault> {
    match (resolved(objects, parent), resolved(objects, child)) {
        (None, _) => Err(EditFault::NoSuchParent(parent)),
        (Some(_), None) => Err(EditFault::NoSuchChild(child)),
        (Some(p), Some(c)) => with_child(bank, p, c),
    }
}

/// Adds a child to an object, and tells the ids of both, the object's first.
pub fn cmd_add_child(soundbank: &mut Soundbank, parent: &str, child: &str) -> (r: Result<
    (u32, u32),
    EditError,
>)
    ensures
        edited(
            r,
            old(soundbank)@,
            final(soundbank)@,
            with_child_meant(
                old(soundbank)@,
                main_objects(old(soundbank)@),
                parent@,
                child@,
            ),
        ),
        r matches Ok((p, c)) ==> resolved(main_objects(old(soundbank)@), parent@) == Some(p)
            && resolved(main_objects(old(soundbank)@), child@) == Some(c),
{
    let index = HircIndex::build(&*soundbank);
    let parent_found = index.resolve(parent);
    let child_found = index.resolve(child);
    let parent_id = match parent_found {
        Some(id) => id,
        None => {
            return Err(EditError::NoSuchParent(parent.to_owned()));
        },
    };
    let child_id = match child_found {
        Some(id) => id,
        None => {
            return Err(EditError::NoSuchChild(child.to_owned()));
        },
    };
    match add_child_to(soundbank, parent_id, child_id) {
        Ok(()) => Ok((parent_id, child_id)),
        Err(e) => Err(e),
    }
}

// ---------------------------------------------------------------------------
// What an event plays
// ---------------------------------------------------------------------------
/// The first target among actions, or among those that play. An action that is not there ends the
/// search.
pub open spec fn first_target(
    objects: Seq<ObjectData>,
    actions: Seq<u32>,
    playing: bool,
) -> Option<u32>
    decreases actions.len(),
{
    if actions.len() == 0 {
        None
    } else {
        match last_with(objects, actions[0]) {
            Some(o) => if action_target(o.body) is Some && (is_play(o.body) || !playing) {
                action_target(o.body)
            } else {
                first_target(objects, actions.skip(1), playing)
            },
            None => None,
        }
    }
}

/// The container that an event is about: the target of its first action that plays one. An event
/// that plays nothing, but stops something, is about the first target of its actions.
pub open spec fn top_container(objects: Seq<ObjectData>, event: u32) -> Option<u32> {
    match last_with(objects, event) {
        Some(o) => if o.body.kind == BodyKind::Event {
            let actions = references(o.body);
            match first_target(objects, actions, true) {
                Some(target) => Some(target),
                None => first_target(objects, actions, false),
            }
        } else {
            None
        },
        None => None,
    }
}

fn find_target(index: &HircIndex, actions: &Vec<u32>, playing: bool) -> (r: Option<u32>)
    ensures
        r == first_target(index@, actions@, playing),
{
    let mut i: usize = 0;
    assert(actions@.skip(0) =~= actions@);
    while i < actions.len()
        invariant
            i <= actions@.len(),
            first_target(index@, actions@.skip(i as int), playing) == first_target(
                index@,
                actions@,
                playing,
            ),
        decreases actions@.len() - i,
    {
        let ghost rest = actions@.skip(i as int);
        assert(rest[0] == actions@[i as int]);
        assert(rest.skip(1) =~= actions@.skip(i + 1));
        match index.get(actions[i]) {
            Some(action) => {
                let target = action.body.action_target();
                if target.is_some() && (action.body.is_play() || !playing) {
                    return target;
                }
            },
            None => {
                return None;
            },
        }
        i = i + 1;
    }
    None
}

/// The container that an event is about: the target of its first action that plays one, else of
/// its first action that has one.
pub fn top_container_for_event(index: &HircIndex, event_id: u32) -> (r: Option<u32>)
    ensures
        r == top_container(index@, event_id),
{
    let event = match index.get(event_id) {
        Some(event) => event,
        None => {
            return None;
        },
    };
    if event.body.kind() != BodyKind::Event {
        return None;
    }
    let actions = event.body.references_of();
    match find_target(index, &actions, true) {
        Some(target) => Some(target),
        None => find_target(index, &actions, false),
    }
}

/// The audio files that objects play, as they come.
pub open spec fn sources_of(objects: Seq<ObjectData>, ids: Seq<u32>) -> Seq<u32>
    decreases ids.len(),
{
    if ids.len() == 0 {
        Seq::empty()
    } else {
        let front = sources_of(objects, ids.drop_last());
        match last_with(objects, ids.last()) {
            Some(o) => front + audio_sources(o.body),
            None => front,
        }
    }
}

/// The ids in ascending order, each once.
pub open spec fn collected(ids: Seq<u32>) -> Seq<u32>
    decreases ids.len(),
{
    if ids.len() == 0 {
        Seq::empty()
    } else {
        with_id(collected(ids.drop_last()), ids.last())
    }
}

/// Collecting ids orders them, lists each once, and loses none.
pub proof fn lemma_collected(ids: Seq<u32>)
    ensures
        ascending(collected(ids)),
        forall|id: u32| #[trigger] collected(ids).contains(id) == ids.contains(id),
    decreases ids.len(),
{
    if ids.len() > 0 {
        let front = ids.drop_last();
        lemma_collected(front);
        lemma_with_id(collected(front), ids.last());
        assert forall|id: u32| #[trigger] collected(ids).contains(id) == ids.contains(id) by {
            assert(ids =~= front.push(ids.last()));
            if front.contains(id) {
                let i = choose|i: int| 0 <= i < front.len() && front[i] == id;
                assert(ids[i] == id);
            }
            if ids.contains(id) {
                let i = choose|i: int| 0 <= i < ids.len() && ids[i] == id;
                if i < front.len() {
                    assert(front[i] == id);
                }
            }
            if id == ids.last() {
                assert(ids[ids.len() - 1] == id);
            } else {
                assert(collected(front).contains(id) == front.contains(id));
            }
        }
    }
}

fn collect_id(ids: Vec<u32>, id: u32) -> (r: Vec<u32>)
    ensures
        r@ == with_id(ids@, id),
{
    if contains_id(&ids, id) {
        ids
    } else {
        let mut longer = ids;
        longer.push(id);
        sort_ids(&longer)
    }
}

/// The audio files that objects play, in ascending order, each once.
pub fn collect_wem_ids(index: &HircIndex, ids: &Vec<u32>) -> (r: Vec<u32>)
    ensures
        r@ == collected(sources_of(index@, ids@)),
{
    let mut wems: Vec<u32> = Vec::new();
    let mut i: usize = 0;
    assert(ids@.take(0) =~= Seq::<u32>::empty());
    while i < ids.len()
        invariant
            i <= ids@.len(),
            wems@ == collected(sources_of(index@, ids@.take(i as int))),
        decreases ids@.len() - i,
    {
        let ghost front = sources_of(index@, ids@.take(i as int));
        assert(ids@.take(i + 1).drop_last() =~= ids@.take(i as int));
        if let Some(object) = index.get(ids[i]) {
            let sources = object.body.audio_sources();
            let mut j: usize = 0;
            assert(front + sources@.take(0) =~= front);
            while j < sources.len()
                invariant
                    j <= sources@.len(),
                    wems@ == collected(front + sources@.take(j as int)),
                decreases sources@.len() - j,
            {
                let ghost longer = front + sources@.take(j + 1);
                assert(longer.drop_last() =~= front + sources@.take(j as int));
                assert(longer.last() == sources@[j as int]);
                wems = collect_id(wems, sources[j]);
                j = j + 1;
            }
            assert(sources@.take(j as int) =~= sources@);
        }
        i = i + 1;
    }
    assert(ids@.take(i as int) =~= ids@);
    wems
}

// ---------------------------------------------------------------------------
// Copies of objects
// ---------------------------------------------------------------------------
/// The copy of an object by way of the text of its body.
pub fn clone_via_json(object: &HIRCObject) -> (r: Result<HIRCObject, EditError>)
    ensures
        r is Ok,
        r->Ok_0@ == object@,
{
    let tree = object.body.to_json();
    proof {
        lemma_body_in_tree(object@.body);
    }
    let text = match tree.to_text() {
        Ok(text) => text,
        Err(e) => {
            return Err(EditError::Json(e));
        },
    };
    let tree = match Json::from_text(text.as_str()) {
        Ok(tree) => tree,
        Err(e) => {
            return Err(EditError::Json(e));
        },
    };
    match HIRCObjectBody::from_json(tree) {
        Ok(body) => Ok(HIRCObject { id: object.id.dup(), body }),
        Err(e) => Err(EditError::Json(e)),
    }
}

// ---------------------------------------------------------------------------
// Planning the copy of an event
// ---------------------------------------------------------------------------
/// An object that the copy of an event needs, and whether the destination has it.
#[derive(Debug)]
pub struct PlannedObject {
    pub id: u32,
    pub exists: bool,
    pub kind: BodyKind,
    pub label: String,
}

/// An object that the copy of an event needs, as plain data.
#[verifier::ext_equal]
pub struct PlannedData {
    pub id: u32,
    pub exists: bool,
    pub kind: BodyKind,
    pub label: Seq<char>,
}

impl View for PlannedObject {
    type V = PlannedData;

    open spec fn view(&self) -> PlannedData {
        PlannedData { id: self.id, exists: self.exists, kind: self.kind, label: self.label@ }
    }
}

/// Objects that the copy of an event needs, as plain data.
pub open spec fn planned_view(planned: Seq<PlannedObject>) -> Seq<PlannedData> {
    planned.map_values(|p: PlannedObject| p@)
}

/// What the copy of an event needs: objects, and audio files.
#[derive(Debug)]
pub struct CopyPlan {
    pub event_id: u32,
    pub objects: Vec<PlannedObject>,
    pub wem_ids: Vec<u32>,
}

/// What the copy of an event needs, as plain data.
#[verifier::ext_equal]
pub struct PlanData {
    pub event_id: u32,
    pub objects: Seq<PlannedData>,
    pub wem_ids: Seq<u32>,
}

impl View for CopyPlan {
    type V = PlanData;

    open spec fn view(&self) -> PlanData {
        PlanData {
            event_id: self.event_id,
            objects: planned_view(self.objects@),
            wem_ids: self.wem_ids@,
        }
    }
}

/// An object of the source in the plan of a copy.
pub open spec fn planned(
    source: Seq<ObjectData>,
    destination: Seq<ObjectData>,
    id: u32,
) -> PlannedData {
    let o = last_with(source, id)->Some_0;
    PlannedData {
        id,
        exists: has_hash(destination, id),
        kind: o.body.kind,
        label: label_text(o.id),
    }
}

/// What the copy of an event needs.
pub open spec fn copy_plan(
    source: Seq<ObjectData>,
    destination: Seq<ObjectData>,
    event: Seq<char>,
) -> Result<PlanData, EditFault> {
    match resolved(source, event) {
        Some(id) => {
            let kind = last_with(source, id)->Some_0.body.kind;
            if kind == BodyKind::Event {
                let ids = dependencies(source, id);
                Ok(
                    PlanData {
                        event_id: id,
                        objects: ids.map_values(|id: u32| planned(source, destination, id)),
                        wem_ids: collected(sources_of(source, ids)),
                    },
                )
            } else {
                Err(EditFault::NotAnEvent(kind))
            }
        },
        None => Err(EditFault::EventNotFound(event)),
    }
}

/// What the copy of an event needs, and the ids of the objects in it.
fn plan_with_ids(source: &HircIndex, destination: &HircIndex, event: &str) -> (r: Result<
    (CopyPlan, Vec<u32>),
    EditError,
>)
    ensures
        match r {
            Ok((plan, ids)) => {
                &&& copy_plan(source@, destination@, event@) == Ok::<PlanData, EditFault>(plan@)
                &&& ids@ == dependencies(source@, plan.event_id)
            },
            Err(e) => copy_plan(source@, destination@, event@) == Err::<PlanData, EditFault>(e@),
        },
{
    let event_id = match source.resolve(event) {
        Some(id) => id,
        None => {
            return Err(EditError::EventNotFound(event.to_owned()));
        },
    };
    proof {
        lemma_resolved_is_there(source@, event@);
        lemma_last_with(source@, event_id);
        lemma_dependencies(source@, event_id, Set::empty());
    }
    match source.get(event_id) {
        Some(object) => {
            let kind = object.body.kind();
            if kind != BodyKind::Event {
                return Err(EditError::NotAnEvent(kind));
            }
        },
        None => {
            return Err(EditError::EventNotFound(event.to_owned()));
        },
    }
    let ids = collect_dependencies(source, event_id);
    let mut objects: Vec<PlannedObject> = Vec::new();
    let mut i: usize = 0;
    while i < ids.len()
        invariant
            i <= ids@.len(),
            objects@.len() == i,
            forall|a: u32| ids@.contains(a) ==> #[trigger] last_with(source@, a) is Some,
            forall|k: int|
                0 <= k < i ==> (#[trigger] objects@[k])@ == planned(
                    source@,
                    destination@,
                    ids@[k],
                ),
        decreases ids@.len() - i,
    {
        let id = ids[i];
        assert(ids@.contains(id));
        assert(last_with(source@, id) is Some);
        if let Some(object) = source.get(id) {
            objects.push(
                PlannedObject {
                    id,
                    exists: destination.contains(id),
                    kind: object.body.kind(),
                    label: label_of(&object.id),
                },
            );
        }
        i = i + 1;
    }
    let wem_ids = collect_wem_ids(source, &ids);
    let plan = CopyPlan { event_id, objects, wem_ids };
    assert(planned_view(plan.objects@) =~= ids@.map_values(
        |id: u32| planned(source@, destination@, id),
    ));
    Ok((plan, ids))
}

/// What the copy of an event from one bank to another needs.
pub fn plan_copy(source: &Soundbank, destination: &Soundbank, event: &str) -> (r: Result<
    CopyPlan,
    EditError,
>)
    ensures
        match r {
            Ok(plan) => copy_plan(
                main_objects(source@),
                main_objects(destination@),
                event@,
            ) == Ok::<PlanData, EditFault>(plan@),
            Err(e) => copy_plan(main_objects(source@), main_objects(destination@), event@) == Err::<
                PlanData,
                EditFault,
            >(e@),
        },
{
    let src = HircIndex::build(source);
    let dst = HircIndex::build(destination);
    match plan_with_ids(&src, &dst, event) {
        Ok((plan, _)) => Ok(plan),
        Err(e) => Err(e),
    }
}

/// How many of the objects the destination has.
pub open spec fn existing_count(planned: Seq<PlannedData>) -> nat
    decreases planned.len(),
{
    if planned.len() == 0 {
        0
    } else {
        existing_count(planned.drop_last()) + if planned.last().exists {
            1nat
        } else {
            0nat
        }
    }
}

/// The line of an object in a plan.
pub open spec fn planned_line(planned: PlannedData) -> Seq<char> {
    let mark = if planned.exists {
        "skip"@
    } else {
        " new"@
    };
    "  ["@ + mark + "] "@ + padded_left(decimal_text(planned.id as nat), 12, ' ') + "  "@
        + padded_right(kind_name(planned.kind), 32) + "  "@ + planned.label
}

/// Ids, separated by commas.
pub open spec fn listed(ids: Seq<u32>) -> Seq<char>
    decreases ids.len(),
{
    if ids.len() == 0 {
        Seq::empty()
    } else if ids.len() == 1 {
        decimal_text(ids[0] as nat)
    } else {
        listed(ids.drop_last()) + ", "@ + decimal_text(ids.last() as nat)
    }
}

/// The lines that show a plan.
pub open spec fn plan_lines(plan: PlanData) -> Seq<Seq<char>> {
    let total = plan.objects.len();
    let existing = existing_count(plan.objects);
    seq![
        "Would copy "@ + decimal_text(total) + " HIRC objects ("@ + decimal_text(
            (total - existing) as nat,
        ) + " new, "@ + decimal_text(existing) + " already in dst):"@,
    ] + plan.objects.map_values(|p: PlannedData| planned_line(p)) + seq![
        "Plus "@ + decimal_text(plan.wem_ids.len()) + " WEM(s): {"@ + listed(plan.wem_ids) + "}"@,
    ]
}

fn planned_line_of(planned: &PlannedObject) -> (r: String)
    ensures
        r@ == planned_line(planned@),
{
    let mark = if planned.exists {
        "skip"
    } else {
        " new"
    };
    let start = join3("  [", mark, "] ");
    let id = pad_left(decimal(planned.id as u64).as_str(), 12, ' ');
    let front = join3(start.as_str(), id.as_str(), "  ");
    let kind = pad_right(planned.kind.name(), 32);
    let middle = join3(front.as_str(), kind.as_str(), "  ");
    join(middle.as_str(), planned.label.as_str())
}

fn list_ids(ids: &Vec<u32>) -> (r: String)
    ensures
        r@ == listed(ids@),
{
    if ids.len() == 0 {
        let r = String::new();
        assert(r@ =~= Seq::<char>::empty());
        return r;
    }
    let mut r = decimal(ids[0] as u64);
    let mut i: usize = 1;
    assert(ids@.take(1)[0] == ids@[0]);
    while i < ids.len()
        invariant
            1 <= i <= ids@.len(),
            r@ == listed(ids@.take(i as int)),
        decreases ids@.len() - i,
    {
        assert(ids@.take(i + 1).drop_last() =~= ids@.take(i as int));
        assert(ids@.take(i + 1).last() == ids@[i as int]);
        r = join3(r.as_str(), ", ", decimal(ids[i] as u64).as_str());
        i = i + 1;
    }
    assert(ids@.take(i as int) =~= ids@);
    r
}

impl CopyPlan {
    /// The lines that show the plan.
    pub fn lines(&self) -> (r: Vec<String>)
        ensures
            texts_view(r@) == plan_lines(self@),
    {
        let ghost views = planned_view(self.objects@);
        let total = self.objects.len();
        let mut existing: usize = 0;
        let mut lines: Vec<String> = Vec::new();
        let mut i: usize = 0;
        assert(views.take(0) =~= Seq::<PlannedData>::empty());
        while i < total
            invariant
                i <= total,
                total == self.objects@.len(),
                views == planned_view(self.objects@),
                existing == existing_count(views.take(i as int)),
                existing <= i,
                lines@.len() == i,
                forall|k: int| 0 <= k < i ==> (#[trigger] lines@[k])@ == planned_line(views[k]),
            decreases total - i,
        {
            assert(views.take(i + 1).drop_last() =~= views.take(i as int));
            assert(views.take(i + 1).last() == self.objects@[i as int]@);
            lines.push(planned_line_of(&self.objects[i]));
            if self.objects[i].exists {
                existing = existing + 1;
            }
            i = i + 1;
        }
        assert(views.take(i as int) =~= views);
        let totals = join3("Would copy ", decimal(total as u64).as_str(), " HIRC objects (");
        let news = join3(totals.as_str(), decimal((total - existing) as u64).as_str(), " new, ");
        let first = join3(news.as_str(), decimal(existing as u64).as_str(), " already in dst):");
        let wems = join3("Plus ", decimal(self.wem_ids.len() as u64).as_str(), " WEM(s): {");
        let last = join3(wems.as_str(), list_ids(&self.wem_ids).as_str(), "}");
        lines.insert(0, first);
        lines.push(last);
        assert(texts_view(lines@) =~= plan_lines(self@));
        lines
    }
}

// ---------------------------------------------------------------------------
// Copying an event
// ---------------------------------------------------------------------------
/// The objects of the source that the destination does not have.
pub open spec fn missing_objects(
    source: Seq<ObjectData>,
    destination: Seq<ObjectData>,
    ids: Seq<u32>,
) -> Seq<ObjectData>
    decreases ids.len(),
{
    if ids.len() == 0 {
        Seq::empty()
    } else {
        let front = missing_objects(source, destination, ids.drop_last());
        if has_hash(destination, ids.last()) {
            front
        } else {
            front.push(last_with(source, ids.last())->Some_0)
        }
    }
}

/// What the copy of an event did.
#[derive(Debug)]
pub struct CopyDone {
    /// The destination.
    pub soundbank: Soundbank,
    /// How many objects are new in it.
    pub added: usize,
    /// The object that got the event's container as a child, and the container.
    pub link: Option<(u32, u32)>,
    /// The audio files that belong to the event.
    pub wem_ids: Vec<u32>,
}

/// What the copy of an event did, as plain data.
#[verifier::ext_equal]
pub struct CopyData {
    pub bank: Seq<SectionData>,
    pub added: nat,
    pub link: Option<(u32, u32)>,
    pub wem_ids: Seq<u32>,
}

impl View for CopyDone {
    type V = CopyData;

    open spec fn view(&self) -> CopyData {
        CopyData {
            bank: self.soundbank@,
            added: self.added as nat,
            link: self.link,
            wem_ids: self.wem_ids@,
        }
    }
}

/// The object that is to get the event's container as a child, and the container.
pub open spec fn copy_link(
    source: Seq<ObjectData>,
    destination: Seq<ObjectData>,
    event_id: u32,
    register_with: Option<Seq<char>>,
) -> Result<Option<(u32, u32)>, EditFault> {
    match register_with {
        Some(target) => match resolved(destination, target) {
            Some(parent) => match top_container(source, event_id) {
                Some(top) => Ok(Some((parent, top))),
                None => Err(EditFault::NoContainer),
            },
            None => Err(EditFault::ParentNotFound(target)),
        },
        None => Ok(None),
    }
}

/// The objects after one of them got a child, if one is to get one.
pub open spec fn linked(objects: Seq<ObjectData>, link: Option<(u32, u32)>) -> Result<
    Seq<ObjectData>,
    EditFault,
> {
    match link {
        Some((parent, top)) => {
            let i = first_where(objects, hashed(parent));
            if i < objects.len() {
                match child_added(objects[i].body, top) {
                    Ok(body) => Ok(
                        objects.update(i, ObjectData { id: objects[i].id, body }),
                    ),
                    Err(e) => Err(e),
                }
            } else {
                Err(EditFault::NotInHirc(parent))
            }
        },
        None => Ok(objects),
    }
}

/// What the copy of an event does: copies of the objects that the destination does not have come
/// behind its own, and the event's container becomes a child where that was asked for.
pub open spec fn copy_result(
    source: Seq<ObjectData>,
    bank: Seq<SectionData>,
    event: Seq<char>,
    register_with: Option<Seq<char>>,
) -> Result<CopyData, EditFault> {
    let destination = main_objects(bank);
    match copy_plan(source, destination, event) {
        Ok(plan) => match copy_link(source, destination, plan.event_id, register_with) {
            Ok(link) => if first_objects(bank) is None {
                Err(EditFault::NoHircInDestination)
            } else {
                let ids = dependencies(source, plan.event_id);
                let added = missing_objects(source, destination, ids);
                match linked(destination + added, link) {
                    Ok(objects) => Ok(
                        CopyData {
                            bank: with_objects(bank, objects),
                            added: added.len(),
                            link,
                            wem_ids: plan.wem_ids,
                        },
                    ),
                    Err(e) => Err(e),
                }
            },
            Err(e) => Err(e),
        },
        Err(e) => Err(e),
    }
}

fn find_link(
    source: &HircIndex,
    destination: &HircIndex,
    event_id: u32,
    register_with: Option<&str>,
) -> (r: Result<Option<(u32, u32)>, EditError>)
    ensures
        match r {
            Ok(link) => copy_link(
                source@,
                destination@,
                event_id,
                filter_view(register_with),
            ) == Ok::<Option<(u32, u32)>, EditFault>(link),
            Err(e) => copy_link(
                source@,
                destination@,
                event_id,
                filter_view(register_with),
            ) == Err::<Option<(u32, u32)>, EditFault>(e@),
        },
{
    match register_with {
        Some(target) => {
            let parent = match destination.resolve(target) {
                Some(parent) => parent,
                None => {
                    return Err(EditError::ParentNotFound(target.to_owned()));
                },
            };
            match top_container_for_event(source, event_id) {
                Some(top) => Ok(Some((parent, top))),
                None => Err(EditError::NoContainer),
            }
        },
        None => Ok(None),
    }
}

fn clone_missing(source: &HircIndex, destination: &HircIndex, ids: &Vec<u32>) -> (r: Result<
    Vec<HIRCObject>,
    EditError,
>)
    requires
        forall|a: u32| ids@.contains(a) ==> #[trigger] last_with(source@, a) is Some,
    ensures
        r is Ok,
        objects_view(r->Ok_0@) == missing_objects(source@, destination@, ids@),
{
    let mut copies: Vec<HIRCObject> = Vec::new();
    let mut i: usize = 0;
    proof {
        assert(ids@.take(0) =~= Seq::<u32>::empty());
        assert(objects_view(copies@) =~= Seq::<ObjectData>::empty());
    }
    while i < ids.len()
        invariant
            i <= ids@.len(),
            forall|a: u32| ids@.contains(a) ==> #[trigger] last_with(source@, a) is Some,
            objects_view(copies@) == missing_objects(source@, destination@, ids@.take(i as int)),
        decreases ids@.len() - i,
    {
        let id = ids[i];
        let ghost before = objects_view(copies@);
        proof {
            assert(ids@.contains(id));
            assert(last_with(source@, id) is Some);
            assert(ids@.take(i + 1).drop_last() =~= ids@.take(i as int));
            assert(ids@.take(i + 1).last() == id);
        }
        if !destination.contains(id) {
            if let Some(object) = source.get(id) {
                match clone_via_json(object) {
                    Ok(copy) => {
                        let ghost view = copy@;
                        copies.push(copy);
                        assert(objects_view(copies@) =~= before.push(view));
                    },
                    Err(e) => {
                        return Err(e);
                    },
                }
            }
        }
        i = i + 1;
    }
    assert(ids@.take(i as int) =~= ids@);
    Ok(copies)
}

fn link_child(objects: &mut Vec<HIRCObject>, link: Option<(u32, u32)>) -> (r: Result<
    (),
    EditError,
>)
    ensures
        match r {
            Ok(_) => linked(objects_view(old(objects)@), link) == Ok::<
                Seq<ObjectData>,
                EditFault,
            >(objects_view(final(objects)@)),
            Err(e) => linked(objects_view(old(objects)@), link) == Err::<
                Seq<ObjectData>,
                EditFault,
            >(e@),
        },
{
    let ghost before = objects_view(objects@);
    match link {
        Some((parent, top)) => {
            let i = position_of(&*objects, parent);
            if i == objects.len() {
                return Err(EditError::NotInHirc(parent));
            }
            assert(before[i as int] == objects@[i as int]@);
            let mut object = objects.remove(i);
            let r = object.body.add_child(top);
            let kind = object.body.kind();
            let ghost view = object@;
            objects.insert(i, object);
            assert(objects_view(objects@) =~= before.update(i as int, view));
            match r {
                Ok(()) => Ok(()),
                Err(_) => Err(EditError::NoChildren(kind)),
            }
        },
        None => Ok(()),
    }
}

/// Copies an event, and what it depends on, from one bank to another. Objects that the
/// destination has are left alone; the others are copied as they are.
pub fn copy_event(
    source: &Soundbank,
    destination: Soundbank,
    event: &str,
    register_with: Option<&str>,
) -> (r: Result<CopyDone, EditError>)
    ensures
        ({
            let objects = main_objects(source@);
            let expected = copy_result(
                objects,
                destination@,
                event@,
                filter_view(register_with),
            );
            match r {
                Ok(done) => expected == Ok::<CopyData, EditFault>(done@),
                Err(e) => expected == Err::<CopyData, EditFault>(e@),
            }
        }),
{
    let ghost bank = destination@;
    let src = HircIndex::build(source);
    let dst = HircIndex::build(&destination);
    let (plan, ids) = match plan_with_ids(&src, &dst, event) {
        Ok(planned) => planned,
        Err(e) => {
            return Err(e);
        },
    };
    let link = match find_link(&src, &dst, plan.event_id, register_with) {
        Ok(link) => link,
        Err(e) => {
            return Err(e);
        },
    };
    if destination.first_objects().is_none() {
        return Err(EditError::NoHircInDestination);
    }
    proof {
        lemma_dependencies(src@, plan.event_id, Set::empty());
    }
    let mut copies = match clone_missing(&src, &dst, &ids) {
        Ok(copies) => copies,
        Err(e) => {
            return Err(e);
        },
    };
    let ghost new_objects = objects_view(copies@);
    let added = copies.len();
    let mut soundbank = destination;
    let mut objects = match soundbank.take_objects() {
        Some(objects) => objects,
        None => {
            return Err(EditError::NoHircInDestination);
        },
    };
    let ghost own = objects_view(objects@);
    objects.append(&mut copies);
    assert(objects_view(objects@) =~= own + new_objects);
    match link_child(&mut objects, link) {
        Ok(()) => {},
        Err(e) => {
            return Err(e);
        },
    }
    let ghost target = objects_view(objects@);
    soundbank.put_objects(objects);
    proof {
        lemma_put_after_take(bank, target);
    }
    Ok(CopyDone { soundbank, added, link, wem_ids: plan.wem_ids })
}

// ---------------------------------------------------------------------------
// Laws
// ---------------------------------------------------------------------------
proof fn lemma_missing(source: Seq<ObjectData>, destination: Seq<ObjectData>, ids: Seq<u32>)
    requires
        ids.no_duplicates(),
        forall|a: u32| ids.contains(a) ==> #[trigger] last_with(source, a) is Some,
    ensures
        ({
            let r = missing_objects(source, destination, ids);
            &&& forall|k: int|
                0 <= k < r.len() ==> !has_hash(destination, id_hash((#[trigger] r[k]).id))
                    && ids.contains(id_hash(r[k].id))
            &&& distinct_hashes(r)
            &&& forall|a: u32| #[trigger]
                ids.contains(a) ==> has_hash(destination, a) || has_hash(r, a)
        }),
    decreases ids.len(),
{
    let r = missing_objects(source, destination, ids);
    if ids.len() > 0 {
        let rest = ids.drop_last();
        let last = ids.last();
        let front = missing_objects(source, destination, rest);
        assert forall|a: u32| rest.contains(a) implies #[trigger] last_with(source, a) is Some by {
            let i = choose|i: int| 0 <= i < rest.len() && rest[i] == a;
            assert(ids[i] == a);
        }
        lemma_missing(source, destination, rest);
        assert(ids.contains(last));
        assert(!rest.contains(last));
        lemma_last_with(source, last);
        assert forall|k: int| 0 <= k < r.len() implies !has_hash(
            destination,
            id_hash((#[trigger] r[k]).id),
        ) && ids.contains(id_hash(r[k].id)) by {
            if k < front.len() {
                assert(r[k] == front[k]);
                let h = id_hash(front[k].id);
                assert(rest.contains(h));
                let i = choose|i: int| 0 <= i < rest.len() && rest[i] == h;
                assert(ids[i] == h);
            }
        }
        assert forall|i: int, j: int| 0 <= i < j < r.len() implies id_hash((#[trigger] r[i]).id)
            != id_hash((#[trigger] r[j]).id) by {
            assert(r[i] == front[i]);
            assert(rest.contains(id_hash(front[i].id)));
            if j < front.len() {
                assert(r[j] == front[j]);
            }
        }
        assert forall|a: u32| #[trigger] ids.contains(a) implies has_hash(destination, a)
            || has_hash(r, a) by {
            if a == last {
                if !has_hash(destination, last) {
                    assert(id_hash(r[r.len() - 1].id) == last);
                }
            } else {
                let i = choose|i: int| 0 <= i < ids.len() && ids[i] == a;
                assert(rest[i] == a);
                assert(rest.contains(a));
                if has_hash(front, a) {
                    let k = choose|k: int|
                        0 <= k < front.len() && id_hash((#[trigger] front[k]).id) == a;
                    assert(r[k] == front[k]);
                }
            }
        }
    }
}

/// Is the object as it was, but for a child that it was to get?
pub open spec fn kept(before: ObjectData, after: ObjectData, link: Option<(u32, u32)>) -> bool {
    after == before || match link {
        Some((parent, top)) => {
            &&& id_hash(before.id) == parent
            &&& after.id == before.id
            &&& child_added(before.body, top) == Ok::<BodyView, EditFault>(after.body)
        },
        None => false,
    }
}

/// Copying an event overwrites nothing. The objects of the destination stay in front and keep
/// their ids, and their bodies too, but for the one that gets a child. No new object has the hash
/// of an old one. Afterwards the destination has everything that the event depends on.
pub proof fn lemma_copy_overwrites_nothing(
    source: Seq<ObjectData>,
    bank: Seq<SectionData>,
    event: Seq<char>,
    register_with: Option<Seq<char>>,
    done: CopyData,
)
    requires
        copy_result(source, bank, event, register_with) == Ok::<CopyData, EditFault>(done),
    ensures
        ({
            let before = main_objects(bank);
            let after = main_objects(done.bank);
            &&& after.len() == before.len() + done.added
            &&& forall|k: int|
                0 <= k < before.len() ==> kept(before[k], #[trigger] after[k], done.link)
            &&& distinct_hashes(before) ==> distinct_hashes(after)
            &&& forall|id: u32| #[trigger]
                dependencies(source, resolved(source, event)->Some_0).contains(id) ==> has_hash(
                    after,
                    id,
                )
        }),
{
    let before = main_objects(bank);
    let event_id = resolved(source, event)->Some_0;
    let ids = dependencies(source, event_id);
    lemma_dependencies(source, event_id, Set::empty());
    lemma_missing(source, before, ids);
    let added = missing_objects(source, before, ids);
    let all = before + added;
    let objects = linked(all, done.link)->Ok_0;
    lemma_with_objects(bank, objects);
    let after = main_objects(done.bank);
    assert(after == objects);
    if let Some((parent, top)) = done.link {
        lemma_first_where_points(all, hashed(parent));
    }
    assert forall|k: int| 0 <= k < all.len() implies (#[trigger] after[k]).id == all[k].id by {}
    assert forall|k: int| 0 <= k < before.len() implies kept(
        before[k],
        #[trigger] after[k],
        done.link,
    ) by {
        assert(all[k] == before[k]);
        if let Some((parent, top)) = done.link {
            let i = first_where(all, hashed(parent));
            assert(hashed(parent)(all[i]));
        }
    }
    if distinct_hashes(before) {
        assert forall|i: int, j: int| 0 <= i < j < after.len() implies id_hash(
            (#[trigger] after[i]).id,
        ) != id_hash((#[trigger] after[j]).id) by {
            assert(after[i].id == all[i].id && after[j].id == all[j].id);
            if j < before.len() {
                assert(all[i] == before[i] && all[j] == before[j]);
            } else {
                let m = j - before.len();
                assert(all[j] == added[m]);
                if i < before.len() {
                    assert(all[i] == before[i]);
                    assert(!has_hash(before, id_hash(added[m].id)));
                } else {
                    let n = i - before.len();
                    assert(all[i] == added[n]);
                    assert(id_hash(added[n].id) != id_hash(added[m].id));
                }
            }
        }
    }
    assert forall|id: u32| #[trigger] ids.contains(id) implies has_hash(after, id) by {
        if has_hash(before, id) {
            let k = choose|k: int|
                0 <= k < before.len() && id_hash((#[trigger] before[k]).id) == id;
            assert(after[k].id == before[k].id);
        } else {
            let k = choose|k: int|
                0 <= k < added.len() && id_hash((#[trigger] added[k]).id) == id;
            assert(all[before.len() + k] == added[k]);
            assert(id_hash(after[before.len() + k].id) == id);
        }
    }
}

} // verus!
