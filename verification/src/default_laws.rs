//! What is set in the bodies of new sounds.

use vstd::prelude::*;

use crate::bench::{
    action_play_body_tree, action_stop_body_tree, adv_settings_params_tree, aux_params_tree,
    bank_source_data_tree, empty_playlist_tree, event_body_tree, hirc_obj_tree,
    media_information_tree, new_sound_trees, no_curves_tree, no_effects_tree, no_entries_tree,
    no_exceptions_tree, no_properties_tree, no_states_tree, node_base_params_tree, numbered,
    one_child_tree, play_params_tree, play_settings_tree, positioning_params_tree,
    ran_seq_body_tree, sound_body_tree, stop_flags_tree, stop_params_tree, stop_settings_tree,
};
use crate::ids::name_hash;
use crate::json::{ids_view, JsonView};
use crate::kind::{kind_number, BodyKind};

verus! {

/// Is nothing set in a tree, apart from certain numbers? Any other number is zero, and no truth
/// value is true.
pub open spec fn unset_but(v: JsonView, numbers: Set<u64>) -> bool
    decreases v,
{
    match v {
        JsonView::Null => false,
        JsonView::Bool(b) => !b,
        JsonView::Unsigned(n) => n == 0 || numbers.contains(n),
        JsonView::Decimal(text) => text == "0.0"@,
        JsonView::Str(_) => true,
        JsonView::Array(items) => forall|i: int|
            0 <= i < items.len() ==> unset_but(#[trigger] items[i], numbers),
        JsonView::Object(members) => forall|i: int|
            0 <= i < members.len() ==> unset_but((#[trigger] members[i]).1, numbers),
    }
}

/// Is a value that holds no other one unset?
spec fn plain(v: JsonView, numbers: Set<u64>) -> bool {
    match v {
        JsonView::Array(items) => items.len() == 0,
        JsonView::Object(_) => false,
        _ => unset_but(v, numbers),
    }
}

proof fn lemma_ids(id: u32, numbers: Set<u64>)
    requires
        numbers.contains(id as u64),
    ensures
        unset_but(ids_view(seq![id]), numbers),
{
    let items = ids_view(seq![id])->Array_0;
    assert forall|i: int| 0 <= i < items.len() implies unset_but(#[trigger] items[i], numbers) by {
        assert(items[i] == JsonView::Unsigned(id as u64));
    }
}

proof fn lemma_members(v: JsonView, numbers: Set<u64>)
    requires
        v is Object,
        forall|i: int|
            0 <= i < v->Object_0.len() ==> plain((#[trigger] v->Object_0[i]).1, numbers)
                || unset_but(v->Object_0[i].1, numbers),
    ensures
        unset_but(v, numbers),
{
    let members = v->Object_0;
    assert forall|i: int| 0 <= i < members.len() implies unset_but(
        (#[trigger] members[i]).1,
        numbers,
    ) by {
        assert(plain(v->Object_0[i].1, numbers) || unset_but(v->Object_0[i].1, numbers));
    }
}

proof fn lemma_node(parent: u32, numbers: Set<u64>)
    requires
        numbers.contains(parent as u64),
    ensures
        unset_but(node_base_params_tree(parent), numbers),
{
    lemma_members(no_entries_tree(), numbers);
    lemma_members(no_effects_tree(), numbers);
    lemma_members(no_properties_tree(), numbers);
    lemma_members(positioning_params_tree(), numbers);
    lemma_members(aux_params_tree(), numbers);
    lemma_members(adv_settings_params_tree(), numbers);
    lemma_members(no_states_tree(), numbers);
    lemma_members(no_curves_tree(), numbers);
    lemma_members(node_base_params_tree(parent), numbers);
}

proof fn lemma_sound(parent: u32, source: u32, numbers: Set<u64>)
    requires
        numbers.contains(parent as u64),
        numbers.contains(source as u64),
    ensures
        unset_but(sound_body_tree(parent, source), numbers),
{
    lemma_node(parent, numbers);
    lemma_members(media_information_tree(source), numbers);
    lemma_members(bank_source_data_tree(source), numbers);
    lemma_members(sound_body_tree(parent, source), numbers);
}

proof fn lemma_container(parent: u32, child: u32, numbers: Set<u64>)
    requires
        numbers.contains(parent as u64),
        numbers.contains(child as u64),
        numbers.contains(1),
    ensures
        unset_but(ran_seq_body_tree(parent, child), numbers),
{
    lemma_node(parent, numbers);
    lemma_ids(child, numbers);
    lemma_members(one_child_tree(child), numbers);
    lemma_members(empty_playlist_tree(), numbers);
    lemma_members(ran_seq_body_tree(parent, child), numbers);
}

proof fn lemma_play(target: u32, numbers: Set<u64>)
    requires
        numbers.contains(target as u64),
        numbers.contains(0x0403),
    ensures
        unset_but(action_play_body_tree(target), numbers),
{
    lemma_members(no_entries_tree(), numbers);
    lemma_members(play_settings_tree(), numbers);
    lemma_members(play_params_tree(), numbers);
    lemma_members(action_play_body_tree(target), numbers);
}

proof fn lemma_stop(target: u32, numbers: Set<u64>)
    requires
        numbers.contains(target as u64),
        numbers.contains(0x0102),
    ensures
        unset_but(action_stop_body_tree(target), numbers),
{
    lemma_members(no_entries_tree(), numbers);
    lemma_members(stop_flags_tree(), numbers);
    lemma_members(no_exceptions_tree(), numbers);
    lemma_members(stop_settings_tree(), numbers);
    lemma_members(stop_params_tree(), numbers);
    lemma_members(action_stop_body_tree(target), numbers);
}

proof fn lemma_event(action: u32, numbers: Set<u64>)
    requires
        numbers.contains(action as u64),
        numbers.contains(1),
    ensures
        unset_but(event_body_tree(action), numbers),
{
    lemma_ids(action, numbers);
    lemma_members(event_body_tree(action), numbers);
}

proof fn lemma_object(kind: BodyKind, label: Seq<char>, body: JsonView, numbers: Set<u64>)
    requires
        unset_but(body, numbers),
        numbers.contains(kind_number(kind) as u64),
    ensures
        unset_but(hirc_obj_tree(kind, label, body), numbers),
{
    let v = hirc_obj_tree(kind, label, body);
    lemma_members(v->Object_0[2].1, numbers);
    lemma_members(v->Object_0[3].1, numbers);
    lemma_members(v, numbers);
}

/// In the objects of a new sound nothing is set but what makes them hang together. The sound holds
/// the hash of its container and its audio file; the container holds the mixer, the hash of the
/// sound, and a one that counts it; each action holds its type and the hash of the container; each
/// event holds the hash of its action, and a one that counts it. Beside these there is the number
/// of the kind. Every other number is zero, and no truth value is true.
pub proof fn lemma_nothing_else_is_set(seq: u32, mixer_id: u32, source_id: u32)
    ensures
        ({
            let trees = new_sound_trees(seq, mixer_id, source_id);
            let sound = name_hash(numbered("Snd_new_"@, seq)) as u64;
            let container = name_hash(numbered("Cntr_new_"@, seq)) as u64;
            let play = name_hash(numbered("Action_play_new_"@, seq)) as u64;
            let stop = name_hash(numbered("Action_stop_new_"@, seq)) as u64;
            &&& trees.len() == 6
            &&& unset_but(
                trees[0],
                set![kind_number(BodyKind::Sound) as u64, container, source_id as u64],
            )
            &&& unset_but(
                trees[1],
                set![
                    kind_number(BodyKind::RandomSequenceContainer) as u64,
                    mixer_id as u64,
                    sound,
                    1,
                ],
            )
            &&& unset_but(
                trees[2],
                set![kind_number(BodyKind::Action) as u64, 0x0403, container],
            )
            &&& unset_but(
                trees[3],
                set![kind_number(BodyKind::Action) as u64, 0x0102, container],
            )
            &&& unset_but(trees[4], set![kind_number(BodyKind::Event) as u64, play, 1])
            &&& unset_but(trees[5], set![kind_number(BodyKind::Event) as u64, stop, 1])
        }),
{
    let trees = new_sound_trees(seq, mixer_id, source_id);
    let label = numbered("Snd_new_"@, seq);
    let sound = name_hash(label);
    let holder = numbered("Cntr_new_"@, seq);
    let container = name_hash(holder);
    let play = name_hash(numbered("Action_play_new_"@, seq));
    let stop = name_hash(numbered("Action_stop_new_"@, seq));
    let event = kind_number(BodyKind::Event) as u64;
    let action = kind_number(BodyKind::Action) as u64;
    let a = set![kind_number(BodyKind::Sound) as u64, container as u64, source_id as u64];
    lemma_sound(container, source_id, a);
    lemma_object(BodyKind::Sound, label, sound_body_tree(container, source_id), a);
    let b = set![
        kind_number(BodyKind::RandomSequenceContainer) as u64,
        mixer_id as u64,
        sound as u64,
        1,
    ];
    lemma_container(mixer_id, sound, b);
    lemma_object(
        BodyKind::RandomSequenceContainer,
        holder,
        ran_seq_body_tree(mixer_id, sound),
        b,
    );
    let c = set![action, 0x0403, container as u64];
    lemma_play(container, c);
    lemma_object(
        BodyKind::Action,
        numbered("Action_play_new_"@, seq),
        action_play_body_tree(container),
        c,
    );
    let d = set![action, 0x0102, container as u64];
    lemma_stop(container, d);
    lemma_object(
        BodyKind::Action,
        numbered("Action_stop_new_"@, seq),
        action_stop_body_tree(container),
        d,
    );
    let e = set![event, play as u64, 1];
    lemma_event(play, e);
    lemma_object(BodyKind::Event, numbered("Play_new_"@, seq), event_body_tree(play), e);
    let f = set![event, stop as u64, 1];
    lemma_event(stop, f);
    lemma_object(BodyKind::Event, numbered("Stop_new_"@, seq), event_body_tree(stop), f);
}

} // verus!
