//! The lines that the editor shows, column by column.

use vstd::prelude::*;

use crate::bank::{resolved, ObjectData};
use crate::editor::{
    find_line, find_lines, inspection, listed, plan_lines, planned_line, PlanData, PlannedData,
};
use crate::error::EditFault;
use crate::ids::IdView;
use crate::index::last_with;
use crate::json::JsonView;
use crate::json_text::pretty_json;
use crate::kind::{kind_name, BodyKind};
use crate::storage::ObjectSummary;
use crate::text::{decimal_text, padded_left, padded_right};

verus! {

// ---------------------------------------------------------------------------
// Columns
// ---------------------------------------------------------------------------
/// Does the text stand at the left of a column, with spaces behind it?
pub open spec fn left_in(line: Seq<char>, from: int, width: int, text: Seq<char>) -> bool {
    &&& text.len() <= width
    &&& from + width <= line.len()
    &&& forall|i: int|
        0 <= i < width ==> #[trigger] line[from + i] == (if i < text.len() {
            text[i]
        } else {
            ' '
        })
}

/// Does the text stand at the right of a column, with spaces before it?
pub open spec fn right_in(line: Seq<char>, from: int, width: int, text: Seq<char>) -> bool {
    &&& text.len() <= width
    &&& from + width <= line.len()
    &&& forall|i: int|
        0 <= i < width ==> #[trigger] line[from + i] == (if i < width - text.len() {
            ' '
        } else {
            text[i - (width - text.len())]
        })
}

spec fn ten_to(k: nat) -> nat
    decreases k,
{
    if k == 0 {
        1
    } else {
        10 * ten_to((k - 1) as nat)
    }
}

proof fn lemma_decimal_len(n: nat, k: nat)
    requires
        k > 0,
        n < ten_to(k),
    ensures
        0 < decimal_text(n).len() <= k,
    decreases k,
{
    if n >= 10 {
        if k == 1 {
            assert(ten_to(0) == 1);
            assert(ten_to(1) == 10);
        } else {
            lemma_decimal_len(n / 10, (k - 1) as nat);
        }
    }
}

/// A 32-bit number takes ten digits at most.
pub proof fn lemma_id_is_short(id: u32)
    ensures
        0 < decimal_text(id as nat).len() <= 10,
{
    reveal_with_fuel(ten_to, 11);
    lemma_decimal_len(id as nat, 10);
}

proof fn lemma_short_kind(kind: BodyKind)
    ensures
        kind_name(kind).len() <= 32,
{
    reveal_strlit("State");
    reveal_strlit("Sound");
    reveal_strlit("Action");
    reveal_strlit("Event");
    reveal_strlit("RandomSequenceContainer");
    reveal_strlit("SwitchContainer");
    reveal_strlit("ActorMixer");
    reveal_strlit("Bus");
    reveal_strlit("LayerContainer");
    reveal_strlit("MusicSegment");
    reveal_strlit("MusicTrack");
    reveal_strlit("MusicSwitchContainer");
    reveal_strlit("MusicRandomSequenceContainer");
    reveal_strlit("Attenuation");
    reveal_strlit("DialogueEvent");
    reveal_strlit("EffectShareSet");
    reveal_strlit("EffectCustom");
    reveal_strlit("AuxiliaryBus");
    reveal_strlit("LFOModulator");
    reveal_strlit("EnvelopeModulator");
    reveal_strlit("AudioDevice");
    reveal_strlit("TimeModulator");
}

// ---------------------------------------------------------------------------
// Found objects
// ---------------------------------------------------------------------------
/// The text of an optional id: its number, or a dash.
pub open spec fn number_or_dash(id: Option<u32>) -> Seq<char> {
    match id {
        Some(id) => decimal_text(id as nat),
        None => "—"@,
    }
}

/// The line of an object has its columns at fixed places: the id at the right of the first, its
/// kind at the left of the second, its parent behind `parent=`, or a dash, and its label, or a
/// dash, at the end.
pub proof fn lemma_find_line_columns(row: ObjectSummary)
    requires
        row.body_kind@.len() <= 32,
    ensures
        ({
            let line = find_line(row);
            let label = match row.label {
                Some(label) => label@,
                None => "—"@,
            };
            &&& right_in(line, 0, 12, decimal_text(row.id_hash as nat))
            &&& left_in(line, 12, 2, Seq::empty())
            &&& left_in(line, 14, 32, row.body_kind@)
            &&& line.subrange(46, 55) == "  parent="@
            &&& left_in(line, 55, 12, number_or_dash(row.direct_parent))
            &&& left_in(line, 67, 2, Seq::empty())
            &&& line.skip(69) == label
        }),
{
    reveal_strlit("  ");
    reveal_strlit("  parent=");
    reveal_strlit("—");
    assert("  "@.len() == 2 && "  "@[0] == ' ' && "  "@[1] == ' ');
    assert("  parent="@.len() == 9);
    assert("—"@.len() == 1);
    lemma_id_is_short(row.id_hash);
    if let Some(parent) = row.direct_parent {
        lemma_id_is_short(parent);
    }
    let label = match row.label {
        Some(label) => label@,
        None => "—"@,
    };
    let id = padded_left(decimal_text(row.id_hash as nat), 12, ' ');
    let kind = padded_right(row.body_kind@, 32);
    let parent = padded_right(number_or_dash(row.direct_parent), 12);
    let line = find_line(row);
    assert(id.len() == 12 && kind.len() == 32 && parent.len() == 12);
    assert(line =~= id + "  "@ + kind + "  parent="@ + parent + "  "@ + label);
    assert(line.subrange(46, 55) =~= "  parent="@);
    assert(line.skip(69) =~= label);
}

/// The line of an object tells nothing of the bus that it overrides.
pub proof fn lemma_find_line_without_bus(a: ObjectSummary, b: ObjectSummary)
    requires
        a.id_hash == b.id_hash,
        a.label == b.label,
        a.body_kind == b.body_kind,
        a.direct_parent == b.direct_parent,
    ensures
        find_line(a) == find_line(b),
{
}

/// Every object that was found has its line, in the order in which they were found; where nothing
/// was found, one line says so.
pub proof fn lemma_all_found_are_shown(rows: Seq<ObjectSummary>)
    ensures
        rows.len() == 0 ==> find_lines(rows) == seq!["(no matches)"@],
        rows.len() > 0 ==> find_lines(rows).len() == rows.len(),
        forall|k: int| 0 <= k < rows.len() ==> #[trigger] find_lines(rows)[k] == find_line(rows[k]),
{
}

// ---------------------------------------------------------------------------
// Inspected objects
// ---------------------------------------------------------------------------
/// An object that a text means is shown with its id, its name, or a dash, and its body; another
/// text is refused.
pub proof fn lemma_inspection_shows_object(objects: Seq<ObjectData>, target: Seq<char>)
    ensures
        match inspection(objects, target) {
            Ok(lines) => {
                let id = resolved(objects, target)->Some_0;
                let o = last_with(objects, id)->Some_0;
                let name = match o.id {
                    IdView::Name(name) => name,
                    IdView::Hash(_) => "—"@,
                };
                &&& resolved(objects, target) is Some
                &&& lines.len() == 2
                &&& lines[0] == "# id: "@ + decimal_text(id as nat) + "  ("@ + name + ")"@
                &&& lines[1] == pretty_json(
                    JsonView::Object(seq![(kind_name(o.body.kind), o.body.fields)]),
                )
            },
            Err(fault) => resolved(objects, target) is None && fault == EditFault::NoSuchObject(
                target,
            ),
        },
{
}

proof fn lemma_mark(exists: bool)
    ensures
        ({
            let front = "  ["@ + (if exists {
                "skip"@
            } else {
                " new"@
            }) + "] "@;
            front.len() == 9 && front == (if exists {
                "  [skip] "@
            } else {
                "  [ new] "@
            })
        }),
{
    reveal_strlit("  [");
    reveal_strlit("] ");
    if exists {
        reveal_strlit("skip");
        reveal_strlit("  [skip] ");
        assert("  ["@ + "skip"@ + "] "@ =~= "  [skip] "@);
    } else {
        reveal_strlit(" new");
        reveal_strlit("  [ new] ");
        assert("  ["@ + " new"@ + "] "@ =~= "  [ new] "@);
    }
}

// ---------------------------------------------------------------------------
// Planned copies
// ---------------------------------------------------------------------------
/// The line of a planned object has a mark that tells whether the destination has it, and then its
/// id, its kind and its label in columns.
pub proof fn lemma_planned_line_columns(planned: PlannedData)
    ensures
        ({
            let line = planned_line(planned);
            &&& line.subrange(0, 9) == (if planned.exists {
                "  [skip] "@
            } else {
                "  [ new] "@
            })
            &&& right_in(line, 9, 12, decimal_text(planned.id as nat))
            &&& left_in(line, 21, 2, Seq::empty())
            &&& left_in(line, 23, 32, kind_name(planned.kind))
            &&& left_in(line, 55, 2, Seq::empty())
            &&& line.skip(57) == planned.label
        }),
{
    reveal_strlit("  ");
    assert("  "@.len() == 2 && "  "@[0] == ' ' && "  "@[1] == ' ');
    lemma_mark(planned.exists);
    lemma_id_is_short(planned.id);
    lemma_short_kind(planned.kind);
    let mark = if planned.exists {
        "skip"@
    } else {
        " new"@
    };
    let front = "  ["@ + mark + "] "@;
    let id = padded_left(decimal_text(planned.id as nat), 12, ' ');
    let kind = padded_right(kind_name(planned.kind), 32);
    let line = planned_line(planned);
    assert(front.len() == 9 && id.len() == 12 && kind.len() == 32);
    assert(line =~= front + id + "  "@ + kind + "  "@ + planned.label);
    assert(line.subrange(0, 9) =~= front);
    assert(line.skip(57) =~= planned.label);
}

/// A list of ids names each of them, in order, with a comma and a space between two.
pub proof fn lemma_all_ids_are_listed(ids: Seq<u32>)
    ensures
        listed(ids) == Seq::new(
            ids.len(),
            |i: int|
                if i == 0 {
                    decimal_text(ids[i] as nat)
                } else {
                    ", "@ + decimal_text(ids[i] as nat)
                },
        ).flatten(),
    decreases ids.len(),
{
    let part = |i: int|
        if i == 0 {
            decimal_text(ids[i] as nat)
        } else {
            ", "@ + decimal_text(ids[i] as nat)
        };
    let parts = Seq::new(ids.len(), part);
    if ids.len() > 0 {
        let front = ids.drop_last();
        lemma_all_ids_are_listed(front);
        let before = Seq::new(
            front.len(),
            |i: int|
                if i == 0 {
                    decimal_text(front[i] as nat)
                } else {
                    ", "@ + decimal_text(front[i] as nat)
                },
        );
        assert(parts =~= before.push(part(ids.len() - 1)));
        before.lemma_flatten_push(part(ids.len() - 1));
        if ids.len() == 1 {
            assert(before.flatten() =~= Seq::<char>::empty());
            assert(Seq::<char>::empty() + decimal_text(ids[0] as nat) =~= decimal_text(
                ids[0] as nat,
            ));
        } else {
            assert(before.flatten() + (", "@ + decimal_text(ids.last() as nat)) =~= listed(front)
                + ", "@ + decimal_text(ids.last() as nat));
        }
    } else {
        assert(parts =~= Seq::<Seq<char>>::empty());
        assert(listed(ids) =~= Seq::<char>::empty());
    }
}

/// A plan is shown by a line that counts its objects, new ones and others, a line for each of
/// them, and a line that counts the audio files and names them.
pub proof fn lemma_plan_is_shown(plan: PlanData)
    ensures
        ({
            let lines = plan_lines(plan);
            let n = plan.objects.len();
            let there = plan.objects.filter(|p: PlannedData| p.exists).len();
            &&& there <= n
            &&& lines.len() == n + 2
            &&& lines[0] == "Would copy "@ + decimal_text(n) + " HIRC objects ("@ + decimal_text(
                (n - there) as nat,
            ) + " new, "@ + decimal_text(there) + " already in dst):"@
            &&& forall|k: int|
                0 <= k < n ==> #[trigger] lines[k + 1] == planned_line(plan.objects[k])
            &&& lines[lines.len() - 1] == "Plus "@ + decimal_text(plan.wem_ids.len())
                + " WEM(s): {"@ + listed(plan.wem_ids) + "}"@
        }),
{
    crate::copy_laws::lemma_existing_are_counted(plan.objects);
    plan.objects.lemma_filter_len(|p: PlannedData| p.exists);
}

} // verus!
