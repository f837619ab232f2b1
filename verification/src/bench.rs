//! New sounds for measurements, and the measurements themselves.

use std::time::{Duration, Instant};

use vstd::prelude::*;

use crate::ids::{hash_name, name_hash};
use crate::json::{ids_view, Json, JsonView};
use crate::json_text::all_numbers_plain;
use crate::kind::{kind_name, kind_number, BodyKind};
use crate::session::{subgraph_objects, trees_view};
use crate::sound_laws::{lemma_accepted_joined, lemma_new_sound_can_be_added};
use crate::text::{
    decimal, decimal_text, join, lemma_padded_decimals_differ, pad_left, padded_left,
};

verus! {

// ---------------------------------------------------------------------------
// Trees
// ---------------------------------------------------------------------------
/// A number in a tree.
pub open spec fn num(n: u64) -> JsonView {
    JsonView::Unsigned(n)
}

/// A truth value in a tree.
pub open spec fn flag(b: bool) -> JsonView {
    JsonView::Bool(b)
}

/// A text in a tree.
pub open spec fn word(text: Seq<char>) -> JsonView {
    JsonView::Str(text)
}

/// Zero, with a fraction, in a tree.
pub open spec fn decimal_zero() -> JsonView {
    JsonView::Decimal("0.0"@)
}

fn number(n: u64) -> (r: Json)
    ensures
        r@ == num(n),
{
    Json::Unsigned(n)
}

fn truth(b: bool) -> (r: Json)
    ensures
        r@ == flag(b),
{
    Json::Bool(b)
}

fn text(s: &str) -> (r: Json)
    ensures
        r@ == word(s@),
{
    Json::Str(s.to_owned())
}

fn zero() -> (r: Json)
    ensures
        r@ == decimal_zero(),
        all_numbers_plain(r@),
{
    match Json::from_text("0.0") {
        Ok(r) => r,
        Err(_) => Json::Null,
    }
}

fn no_items() -> (r: Json)
    ensures
        r@ == JsonView::Array(Seq::empty()),
{
    let r = Json::Array(Vec::new());
    assert(r@->Array_0 =~= Seq::<JsonView>::empty());
    r
}

fn one_id(id: u32) -> (r: Json)
    ensures
        r@ == ids_view(seq![id]),
{
    let ids = vec![id];
    assert(ids@ =~= seq![id]);
    Json::from_ids(&ids)
}

/// Where a sound is heard: nothing set.
pub open spec fn positioning_params_tree() -> JsonView {
    JsonView::Object(
        seq![
            ("unk1"@, flag(false)),
            ("three_dimensional_position_type"@, word("Emitter"@)),
            ("speaker_panning_type"@, word("DirectSpeakerAssignment"@)),
            ("listener_relative_routing"@, flag(false)),
            ("override_parent"@, flag(false)),
            ("unk2"@, flag(false)),
            ("enable_diffraction"@, flag(false)),
            ("hold_listener_orientation"@, flag(false)),
            ("hold_emitter_position_and_orientation"@, flag(false)),
            ("enable_attenuation"@, flag(false)),
            ("three_dimensional_spatialization_mode"@, word("None"@)),
            ("path_mode"@, word("StepSequence"@)),
            ("transition_time"@, num(0)),
            ("vertex_count"@, num(0)),
            ("vertices"@, JsonView::Array(Seq::empty())),
            ("path_list_item_count"@, num(0)),
            ("path_list_item_offsets"@, JsonView::Array(Seq::empty())),
            ("three_dimensional_automation_params"@, JsonView::Array(Seq::empty())),
        ],
    )
}

fn positioning_params() -> (r: Json)
    ensures
        r@ == positioning_params_tree(),
{
    let r = Json::Object(
        vec![
            ("unk1".to_owned(), truth(false)),
            ("three_dimensional_position_type".to_owned(), text("Emitter")),
            ("speaker_panning_type".to_owned(), text("DirectSpeakerAssignment")),
            ("listener_relative_routing".to_owned(), truth(false)),
            ("override_parent".to_owned(), truth(false)),
            ("unk2".to_owned(), truth(false)),
            ("enable_diffraction".to_owned(), truth(false)),
            ("hold_listener_orientation".to_owned(), truth(false)),
            ("hold_emitter_position_and_orientation".to_owned(), truth(false)),
            ("enable_attenuation".to_owned(), truth(false)),
            ("three_dimensional_spatialization_mode".to_owned(), text("None")),
            ("path_mode".to_owned(), text("StepSequence")),
            ("transition_time".to_owned(), number(0)),
            ("vertex_count".to_owned(), number(0)),
            ("vertices".to_owned(), no_items()),
            ("path_list_item_count".to_owned(), number(0)),
            ("path_list_item_offsets".to_owned(), no_items()),
            ("three_dimensional_automation_params".to_owned(), no_items()),
        ],
    );
    assert(r@->Object_0 =~= positioning_params_tree()->Object_0);
    r
}

/// Which auxiliary buses a sound is sent to: none.
pub open spec fn aux_params_tree() -> JsonView {
    JsonView::Object(
        seq![
            ("unk1"@, flag(false)),
            ("unk2"@, flag(false)),
            ("unk3"@, flag(false)),
            ("override_reflections_aux_bus"@, flag(false)),
            ("has_aux"@, flag(false)),
            ("override_user_aux_sends"@, flag(false)),
            ("unk4"@, num(0)),
            ("aux1"@, num(0)),
            ("aux2"@, num(0)),
            ("aux3"@, num(0)),
            ("aux4"@, num(0)),
            ("reflections_aux_bus"@, num(0)),
        ],
    )
}

fn aux_params() -> (r: Json)
    ensures
        r@ == aux_params_tree(),
{
    let r = Json::Object(
        vec![
            ("unk1".to_owned(), truth(false)),
            ("unk2".to_owned(), truth(false)),
            ("unk3".to_owned(), truth(false)),
            ("override_reflections_aux_bus".to_owned(), truth(false)),
            ("has_aux".to_owned(), truth(false)),
            ("override_user_aux_sends".to_owned(), truth(false)),
            ("unk4".to_owned(), number(0)),
            ("aux1".to_owned(), number(0)),
            ("aux2".to_owned(), number(0)),
            ("aux3".to_owned(), number(0)),
            ("aux4".to_owned(), number(0)),
            ("reflections_aux_bus".to_owned(), number(0)),
        ],
    );
    assert(r@->Object_0 =~= aux_params_tree()->Object_0);
    r
}

/// How a sound shares voices: as its parent does.
pub open spec fn adv_settings_params_tree() -> JsonView {
    JsonView::Object(
        seq![
            ("unk1"@, flag(false)),
            ("unk2"@, flag(false)),
            ("unk3"@, flag(false)),
            ("is_virtual_voices_opt_override_parent"@, flag(false)),
            ("ignore_parent_maximum_instances"@, flag(false)),
            ("unk4"@, flag(false)),
            ("use_virtual_behavior"@, flag(false)),
            ("kill_newest"@, flag(false)),
            ("virtual_queue_behavior"@, word("PlayFromBeginning"@)),
            ("max_instance_count"@, num(0)),
            ("below_threshold_behavior"@, word("ContinueToPlay"@)),
            ("unk5"@, flag(false)),
            ("unk6"@, flag(false)),
            ("unk7"@, flag(false)),
            ("unk8"@, flag(false)),
            ("enable_envelope"@, flag(false)),
            ("normalize_loudness"@, flag(false)),
            ("override_analysis"@, flag(false)),
            ("override_hdr_envelope"@, flag(false)),
        ],
    )
}

fn adv_settings_params() -> (r: Json)
    ensures
        r@ == adv_settings_params_tree(),
{
    let r = Json::Object(
        vec![
            ("unk1".to_owned(), truth(false)),
            ("unk2".to_owned(), truth(false)),
            ("unk3".to_owned(), truth(false)),
            ("is_virtual_voices_opt_override_parent".to_owned(), truth(false)),
            ("ignore_parent_maximum_instances".to_owned(), truth(false)),
            ("unk4".to_owned(), truth(false)),
            ("use_virtual_behavior".to_owned(), truth(false)),
            ("kill_newest".to_owned(), truth(false)),
            ("virtual_queue_behavior".to_owned(), text("PlayFromBeginning")),
            ("max_instance_count".to_owned(), number(0)),
            ("below_threshold_behavior".to_owned(), text("ContinueToPlay")),
            ("unk5".to_owned(), truth(false)),
            ("unk6".to_owned(), truth(false)),
            ("unk7".to_owned(), truth(false)),
            ("unk8".to_owned(), truth(false)),
            ("enable_envelope".to_owned(), truth(false)),
            ("normalize_loudness".to_owned(), truth(false)),
            ("override_analysis".to_owned(), truth(false)),
            ("override_hdr_envelope".to_owned(), truth(false)),
        ],
    );
    assert(r@->Object_0 =~= adv_settings_params_tree()->Object_0);
    r
}

/// A list of entries with its length: empty.
pub open spec fn no_entries_tree() -> JsonView {
    JsonView::Object(
        seq![
            ("count"@, num(0)),
            ("entries"@, JsonView::Array(Seq::empty())),
        ],
    )
}

fn no_entries() -> (r: Json)
    ensures
        r@ == no_entries_tree(),
{
    let r = Json::Object(
        vec![
            ("count".to_owned(), number(0)),
            ("entries".to_owned(), no_items()),
        ],
    );
    assert(r@->Object_0 =~= no_entries_tree()->Object_0);
    r
}

/// The effects of a node: none.
pub open spec fn no_effects_tree() -> JsonView {
    JsonView::Object(
        seq![
            ("is_override_parent_fx"@, num(0)),
            ("fx_chunk_count"@, num(0)),
            ("fx_bypass_bits"@, num(0)),
            ("fx_chunks"@, JsonView::Array(Seq::empty())),
        ],
    )
}

fn no_effects() -> (r: Json)
    ensures
        r@ == no_effects_tree(),
{
    let r = Json::Object(
        vec![
            ("is_override_parent_fx".to_owned(), number(0)),
            ("fx_chunk_count".to_owned(), number(0)),
            ("fx_bypass_bits".to_owned(), number(0)),
            ("fx_chunks".to_owned(), no_items()),
        ],
    );
    assert(r@->Object_0 =~= no_effects_tree()->Object_0);
    r
}

/// The properties of a node: none.
pub open spec fn no_properties_tree() -> JsonView {
    JsonView::Object(
        seq![
            ("prop_initial_values"@, JsonView::Array(Seq::empty())),
            ("prop_ranged_modifiers"@, no_entries_tree()),
        ],
    )
}

fn no_properties() -> (r: Json)
    ensures
        r@ == no_properties_tree(),
{
    let r = Json::Object(
        vec![
            ("prop_initial_values".to_owned(), no_items()),
            ("prop_ranged_modifiers".to_owned(), no_entries()),
        ],
    );
    assert(r@->Object_0 =~= no_properties_tree()->Object_0);
    r
}

/// The states of a node: none.
pub open spec fn no_states_tree() -> JsonView {
    JsonView::Object(
        seq![
            ("state_property_count"@, num(0)),
            ("state_property_info"@, JsonView::Array(Seq::empty())),
            ("state_group_count"@, num(0)),
            ("state_group_chunks"@, JsonView::Array(Seq::empty())),
        ],
    )
}

fn no_states() -> (r: Json)
    ensures
        r@ == no_states_tree(),
{
    let r = Json::Object(
        vec![
            ("state_property_count".to_owned(), number(0)),
            ("state_property_info".to_owned(), no_items()),
            ("state_group_count".to_owned(), number(0)),
            ("state_group_chunks".to_owned(), no_items()),
        ],
    );
    assert(r@->Object_0 =~= no_states_tree()->Object_0);
    r
}

/// The curves of a node: none.
pub open spec fn no_curves_tree() -> JsonView {
    JsonView::Object(
        seq![
            ("count"@, num(0)),
            ("rtpcs"@, JsonView::Array(Seq::empty())),
        ],
    )
}

fn no_curves() -> (r: Json)
    ensures
        r@ == no_curves_tree(),
{
    let r = Json::Object(
        vec![
            ("count".to_owned(), number(0)),
            ("rtpcs".to_owned(), no_items()),
        ],
    );
    assert(r@->Object_0 =~= no_curves_tree()->Object_0);
    r
}

/// What every node of the routing graph has: nothing set but its parent.
pub open spec fn node_base_params_tree(parent_id: u32) -> JsonView {
    JsonView::Object(
        seq![
            ("node_initial_fx_parameters"@, no_effects_tree()),
            ("override_attachment_params"@, num(0)),
            ("override_bus_id"@, num(0)),
            ("direct_parent_id"@, num(parent_id as u64)),
            ("unknown_flags"@, num(0)),
            ("node_initial_params"@, no_properties_tree()),
            ("positioning_params"@, positioning_params_tree()),
            ("aux_params"@, aux_params_tree()),
            ("adv_settings_params"@, adv_settings_params_tree()),
            ("state_chunk"@, no_states_tree()),
            ("initial_rtpc"@, no_curves_tree()),
        ],
    )
}

fn node_base_params(parent_id: u32) -> (r: Json)
    ensures
        r@ == node_base_params_tree(parent_id),
{
    let r = Json::Object(
        vec![
            ("node_initial_fx_parameters".to_owned(), no_effects()),
            ("override_attachment_params".to_owned(), number(0)),
            ("override_bus_id".to_owned(), number(0)),
            ("direct_parent_id".to_owned(), number(parent_id as u64)),
            ("unknown_flags".to_owned(), number(0)),
            ("node_initial_params".to_owned(), no_properties()),
            ("positioning_params".to_owned(), positioning_params()),
            ("aux_params".to_owned(), aux_params()),
            ("adv_settings_params".to_owned(), adv_settings_params()),
            ("state_chunk".to_owned(), no_states()),
            ("initial_rtpc".to_owned(), no_curves()),
        ],
    );
    assert(r@->Object_0 =~= node_base_params_tree(parent_id)->Object_0);
    r
}

/// Which audio file a sound plays.
pub open spec fn media_information_tree(source_id: u32) -> JsonView {
    JsonView::Object(
        seq![
            ("source_id"@, num(source_id as u64)),
            ("in_memory_media_size"@, num(0)),
            ("source_flags"@, num(0)),
        ],
    )
}

fn media_information(source_id: u32) -> (r: Json)
    ensures
        r@ == media_information_tree(source_id),
{
    let r = Json::Object(
        vec![
            ("source_id".to_owned(), number(source_id as u64)),
            ("in_memory_media_size".to_owned(), number(0)),
            ("source_flags".to_owned(), number(0)),
        ],
    );
    assert(r@->Object_0 =~= media_information_tree(source_id)->Object_0);
    r
}

/// An audio file in the bank.
pub open spec fn bank_source_data_tree(source_id: u32) -> JsonView {
    JsonView::Object(
        seq![
            ("plugin"@, word("PCM"@)),
            ("source_type"@, word("Embedded"@)),
            ("media_information"@, media_information_tree(source_id)),
            ("params_size"@, num(0)),
            ("params"@, word(""@)),
        ],
    )
}

fn bank_source_data(source_id: u32) -> (r: Json)
    ensures
        r@ == bank_source_data_tree(source_id),
{
    let r = Json::Object(
        vec![
            ("plugin".to_owned(), text("PCM")),
            ("source_type".to_owned(), text("Embedded")),
            ("media_information".to_owned(), media_information(source_id)),
            ("params_size".to_owned(), number(0)),
            ("params".to_owned(), text("")),
        ],
    );
    assert(r@->Object_0 =~= bank_source_data_tree(source_id)->Object_0);
    r
}

/// A sound under a parent that plays an audio file.
pub open spec fn sound_body_tree(parent_id: u32, source_id: u32) -> JsonView {
    JsonView::Object(
        seq![
            ("bank_source_data"@, bank_source_data_tree(source_id)),
            ("node_base_params"@, node_base_params_tree(parent_id)),
        ],
    )
}

fn sound_body(parent_id: u32, source_id: u32) -> (r: Json)
    ensures
        r@ == sound_body_tree(parent_id, source_id),
{
    let r = Json::Object(
        vec![
            ("bank_source_data".to_owned(), bank_source_data(source_id)),
            ("node_base_params".to_owned(), node_base_params(parent_id)),
        ],
    );
    assert(r@->Object_0 =~= sound_body_tree(parent_id, source_id)->Object_0);
    r
}

/// A list of one child.
pub open spec fn one_child_tree(child: u32) -> JsonView {
    JsonView::Object(
        seq![
            ("count"@, num(1)),
            ("items"@, ids_view(seq![child])),
        ],
    )
}

fn one_child(child: u32) -> (r: Json)
    ensures
        r@ == one_child_tree(child),
{
    let r = Json::Object(
        vec![
            ("count".to_owned(), number(1)),
            ("items".to_owned(), one_id(child)),
        ],
    );
    assert(r@->Object_0 =~= one_child_tree(child)->Object_0);
    r
}

/// A playlist: empty.
pub open spec fn empty_playlist_tree() -> JsonView {
    JsonView::Object(
        seq![
            ("count"@, num(0)),
            ("items"@, JsonView::Array(Seq::empty())),
        ],
    )
}

fn empty_playlist() -> (r: Json)
    ensures
        r@ == empty_playlist_tree(),
{
    let r = Json::Object(
        vec![
            ("count".to_owned(), number(0)),
            ("items".to_owned(), no_items()),
        ],
    );
    assert(r@->Object_0 =~= empty_playlist_tree()->Object_0);
    r
}

/// A container under a parent with one child.
pub open spec fn ran_seq_body_tree(parent_id: u32, only_child: u32) -> JsonView {
    JsonView::Object(
        seq![
            ("node_base_params"@, node_base_params_tree(parent_id)),
            ("loop_count"@, num(0)),
            ("loop_mod_min"@, num(0)),
            ("loop_mod_max"@, num(0)),
            ("transition_time"@, decimal_zero()),
            ("transition_time_mod_min"@, decimal_zero()),
            ("transition_time_mod_max"@, decimal_zero()),
            ("avoid_repeat_count"@, num(0)),
            ("transition_mode"@, num(0)),
            ("random_mode"@, num(0)),
            ("mode"@, num(0)),
            ("flags"@, num(0)),
            ("children"@, one_child_tree(only_child)),
            ("playlist"@, empty_playlist_tree()),
        ],
    )
}

fn ran_seq_body(parent_id: u32, only_child: u32) -> (r: Json)
    ensures
        r@ == ran_seq_body_tree(parent_id, only_child),
        all_numbers_plain(decimal_zero()),
{
    let r = Json::Object(
        vec![
            ("node_base_params".to_owned(), node_base_params(parent_id)),
            ("loop_count".to_owned(), number(0)),
            ("loop_mod_min".to_owned(), number(0)),
            ("loop_mod_max".to_owned(), number(0)),
            ("transition_time".to_owned(), zero()),
            ("transition_time_mod_min".to_owned(), zero()),
            ("transition_time_mod_max".to_owned(), zero()),
            ("avoid_repeat_count".to_owned(), number(0)),
            ("transition_mode".to_owned(), number(0)),
            ("random_mode".to_owned(), number(0)),
            ("mode".to_owned(), number(0)),
            ("flags".to_owned(), number(0)),
            ("children".to_owned(), one_child(only_child)),
            ("playlist".to_owned(), empty_playlist()),
        ],
    );
    assert(r@->Object_0 =~= ran_seq_body_tree(parent_id, only_child)->Object_0);
    r
}

/// How a target is played.
pub open spec fn play_settings_tree() -> JsonView {
    JsonView::Object(
        seq![
            ("fade_curve"@, num(0)),
            ("bank_id"@, num(0)),
        ],
    )
}

fn play_settings() -> (r: Json)
    ensures
        r@ == play_settings_tree(),
{
    let r = Json::Object(
        vec![
            ("fade_curve".to_owned(), number(0)),
            ("bank_id".to_owned(), number(0)),
        ],
    );
    assert(r@->Object_0 =~= play_settings_tree()->Object_0);
    r
}

/// That a target is played.
pub open spec fn play_params_tree() -> JsonView {
    JsonView::Object(
        seq![
            ("Play"@, play_settings_tree()),
        ],
    )
}

fn play_params() -> (r: Json)
    ensures
        r@ == play_params_tree(),
{
    let r = Json::Object(
        vec![
            ("Play".to_owned(), play_settings()),
        ],
    );
    assert(r@->Object_0 =~= play_params_tree()->Object_0);
    r
}

/// How a target is stopped.
pub open spec fn stop_flags_tree() -> JsonView {
    JsonView::Object(
        seq![
            ("flags1"@, num(0)),
            ("flags2"@, num(0)),
        ],
    )
}

fn stop_flags() -> (r: Json)
    ensures
        r@ == stop_flags_tree(),
{
    let r = Json::Object(
        vec![
            ("flags1".to_owned(), number(0)),
            ("flags2".to_owned(), number(0)),
        ],
    );
    assert(r@->Object_0 =~= stop_flags_tree()->Object_0);
    r
}

/// What is not stopped: nothing.
pub open spec fn no_exceptions_tree() -> JsonView {
    JsonView::Object(
        seq![
            ("count"@, num(0)),
            ("exceptions"@, JsonView::Array(Seq::empty())),
        ],
    )
}

fn no_exceptions() -> (r: Json)
    ensures
        r@ == no_exceptions_tree(),
{
    let r = Json::Object(
        vec![
            ("count".to_owned(), number(0)),
            ("exceptions".to_owned(), no_items()),
        ],
    );
    assert(r@->Object_0 =~= no_exceptions_tree()->Object_0);
    r
}

/// How a target is stopped, and what is not.
pub open spec fn stop_settings_tree() -> JsonView {
    JsonView::Object(
        seq![
            ("stop"@, stop_flags_tree()),
            ("except"@, no_exceptions_tree()),
        ],
    )
}

fn stop_settings() -> (r: Json)
    ensures
        r@ == stop_settings_tree(),
{
    let r = Json::Object(
        vec![
            ("stop".to_owned(), stop_flags()),
            ("except".to_owned(), no_exceptions()),
        ],
    );
    assert(r@->Object_0 =~= stop_settings_tree()->Object_0);
    r
}

/// That a target is stopped.
pub open spec fn stop_params_tree() -> JsonView {
    JsonView::Object(
        seq![
            ("StopE"@, stop_settings_tree()),
        ],
    )
}

fn stop_params() -> (r: Json)
    ensures
        r@ == stop_params_tree(),
{
    let r = Json::Object(
        vec![
            ("StopE".to_owned(), stop_settings()),
        ],
    );
    assert(r@->Object_0 =~= stop_params_tree()->Object_0);
    r
}

/// An action that plays its target.
pub open spec fn action_play_body_tree(target: u32) -> JsonView {
    JsonView::Object(
        seq![
            ("action_type"@, num(0x0403)),
            ("external_id"@, num(target as u64)),
            ("is_bus"@, num(0)),
            ("prop_bundle"@, JsonView::Array(Seq::empty())),
            ("ranged_modifiers"@, no_entries_tree()),
            ("params"@, play_params_tree()),
        ],
    )
}

fn action_play_body(target: u32) -> (r: Json)
    ensures
        r@ == action_play_body_tree(target),
{
    let r = Json::Object(
        vec![
            ("action_type".to_owned(), number(0x0403)),
            ("external_id".to_owned(), number(target as u64)),
            ("is_bus".to_owned(), number(0)),
            ("prop_bundle".to_owned(), no_items()),
            ("ranged_modifiers".to_owned(), no_entries()),
            ("params".to_owned(), play_params()),
        ],
    );
    assert(r@->Object_0 =~= action_play_body_tree(target)->Object_0);
    r
}

/// An action that stops its target.
pub open spec fn action_stop_body_tree(target: u32) -> JsonView {
    JsonView::Object(
        seq![
            ("action_type"@, num(0x0102)),
            ("external_id"@, num(target as u64)),
            ("is_bus"@, num(0)),
            ("prop_bundle"@, JsonView::Array(Seq::empty())),
            ("ranged_modifiers"@, no_entries_tree()),
            ("params"@, stop_params_tree()),
        ],
    )
}

fn action_stop_body(target: u32) -> (r: Json)
    ensures
        r@ == action_stop_body_tree(target),
{
    let r = Json::Object(
        vec![
            ("action_type".to_owned(), number(0x0102)),
            ("external_id".to_owned(), number(target as u64)),
            ("is_bus".to_owned(), number(0)),
            ("prop_bundle".to_owned(), no_items()),
            ("ranged_modifiers".to_owned(), no_entries()),
            ("params".to_owned(), stop_params()),
        ],
    );
    assert(r@->Object_0 =~= action_stop_body_tree(target)->Object_0);
    r
}

/// An event with one action.
pub open spec fn event_body_tree(action_id: u32) -> JsonView {
    JsonView::Object(
        seq![
            ("action_count"@, num(1)),
            ("actions"@, ids_view(seq![action_id])),
        ],
    )
}

fn event_body(action_id: u32) -> (r: Json)
    ensures
        r@ == event_body_tree(action_id),
{
    let r = Json::Object(
        vec![
            ("action_count".to_owned(), number(1)),
            ("actions".to_owned(), one_id(action_id)),
        ],
    );
    assert(r@->Object_0 =~= event_body_tree(action_id)->Object_0);
    r
}

// ---------------------------------------------------------------------------
// Objects
// ---------------------------------------------------------------------------
/// A named object with a body.
pub open spec fn hirc_obj_tree(kind: BodyKind, label: Seq<char>, body: JsonView) -> JsonView {
    JsonView::Object(
        seq![
            ("body_type"@, num(kind_number(kind) as u64)),
            ("size"@, num(0)),
            ("id"@, JsonView::Object(seq![("String"@, word(label))])),
            ("body"@, JsonView::Object(seq![(kind_name(kind), body)])),
        ],
    )
}

fn hirc_obj(kind: BodyKind, label: &str, body: Json) -> (r: Json)
    ensures
        r@ == hirc_obj_tree(kind, label@, body@),
{
    let id = Json::Object(vec![("String".to_owned(), text(label))]);
    assert(id@->Object_0 =~= seq![("String"@, word(label@))]);
    let ghost view = body@;
    let wrapped = Json::Object(vec![(kind.name().to_owned(), body)]);
    assert(wrapped@->Object_0 =~= seq![(kind_name(kind), view)]);
    let r = Json::Object(
        vec![
            ("body_type".to_owned(), number(kind.number() as u64)),
            ("size".to_owned(), number(0)),
            ("id".to_owned(), id),
            ("body".to_owned(), wrapped),
        ],
    );
    assert(r@->Object_0 =~= hirc_obj_tree(kind, label@, view)->Object_0);
    r
}

/// A label with a number of at least six digits.
pub open spec fn numbered(prefix: Seq<char>, seq: u32) -> Seq<char> {
    prefix + padded_left(decimal_text(seq as nat), 6, '0')
}

/// Labels with the same beginning and different numbers differ.
pub proof fn lemma_numbered_labels_differ(prefix: Seq<char>, a: u32, b: u32)
    requires
        a != b,
    ensures
        numbered(prefix, a) != numbered(prefix, b),
{
    let n = prefix.len() as int;
    let s = numbered(prefix, a);
    let t = numbered(prefix, b);
    lemma_padded_decimals_differ(a as nat, b as nat, 6);
    assert(s.skip(n) =~= padded_left(decimal_text(a as nat), 6, '0'));
    assert(t.skip(n) =~= padded_left(decimal_text(b as nat), 6, '0'));
}

fn numbered_label(prefix: &str, seq: u32) -> (r: String)
    ensures
        r@ == numbered(prefix@, seq),
{
    join(prefix, pad_left(decimal(seq as u64).as_str(), 6, '0').as_str())
}

/// A new sound: its container, and the six objects that play and stop it.
#[derive(Debug)]
pub struct NewSound {
    /// The hash of the container.
    pub sc_id: u32,
    pub objects: Vec<Json>,
}

/// The objects of a new sound: the sound in a container under the mixer, and for playing and for
/// stopping the container an action each and an event each.
pub open spec fn new_sound_trees(seq: u32, mixer_id: u32, source_id: u32) -> Seq<JsonView> {
    let sound = numbered("Snd_new_"@, seq);
    let container = numbered("Cntr_new_"@, seq);
    let play = numbered("Action_play_new_"@, seq);
    let stop = numbered("Action_stop_new_"@, seq);
    let container_id = name_hash(container);
    seq![
        hirc_obj_tree(BodyKind::Sound, sound, sound_body_tree(container_id, source_id)),
        hirc_obj_tree(
            BodyKind::RandomSequenceContainer,
            container,
            ran_seq_body_tree(mixer_id, name_hash(sound)),
        ),
        hirc_obj_tree(BodyKind::Action, play, action_play_body_tree(container_id)),
        hirc_obj_tree(BodyKind::Action, stop, action_stop_body_tree(container_id)),
        hirc_obj_tree(
            BodyKind::Event,
            numbered("Play_new_"@, seq),
            event_body_tree(name_hash(play)),
        ),
        hirc_obj_tree(
            BodyKind::Event,
            numbered("Stop_new_"@, seq),
            event_body_tree(name_hash(stop)),
        ),
    ]
}

/// A new sound under a mixer that plays an audio file. Its objects are accepted where a subgraph is
/// added.
pub fn make_new_sound(seq: u32, mixer_id: u32, source_id: u32) -> (r: NewSound)
    ensures
        r.sc_id == name_hash(numbered("Cntr_new_"@, seq)),
        trees_view(r.objects@) == new_sound_trees(seq, mixer_id, source_id),
        subgraph_objects(trees_view(r.objects@)) is Ok,
{
    let sound_label = numbered_label("Snd_new_", seq);
    let cntr_label = numbered_label("Cntr_new_", seq);
    let play_action_label = numbered_label("Action_play_new_", seq);
    let stop_action_label = numbered_label("Action_stop_new_", seq);
    let play_event_label = numbered_label("Play_new_", seq);
    let stop_event_label = numbered_label("Stop_new_", seq);
    let sound_id = hash_name(sound_label.as_str());
    let cntr_id = hash_name(cntr_label.as_str());
    let play_action_id = hash_name(play_action_label.as_str());
    let stop_action_id = hash_name(stop_action_label.as_str());
    let objects = vec![
        hirc_obj(BodyKind::Sound, sound_label.as_str(), sound_body(cntr_id, source_id)),
        hirc_obj(
            BodyKind::RandomSequenceContainer,
            cntr_label.as_str(),
            ran_seq_body(mixer_id, sound_id),
        ),
        hirc_obj(BodyKind::Action, play_action_label.as_str(), action_play_body(cntr_id)),
        hirc_obj(BodyKind::Action, stop_action_label.as_str(), action_stop_body(cntr_id)),
        hirc_obj(BodyKind::Event, play_event_label.as_str(), event_body(play_action_id)),
        hirc_obj(BodyKind::Event, stop_event_label.as_str(), event_body(stop_action_id)),
    ];
    assert(trees_view(objects@) =~= new_sound_trees(seq, mixer_id, source_id));
    proof {
        lemma_new_sound_can_be_added(seq, mixer_id, source_id);
    }
    NewSound { sc_id: cntr_id, objects }
}

/// The objects of several new sounds, one after the other.
pub open spec fn new_sounds_trees(
    base_seq: u32,
    n: int,
    mixer_id: u32,
    first_source: u32,
) -> Seq<JsonView>
    decreases n,
{
    if n <= 0 {
        Seq::empty()
    } else {
        new_sounds_trees(base_seq, n - 1, mixer_id, first_source) + new_sound_trees(
            (base_seq + n - 1) as u32,
            mixer_id,
            (first_source + n - 1) as u32,
        )
    }
}

/// The containers of several new sounds.
pub open spec fn new_containers(base_seq: u32, n: int) -> Seq<u32> {
    Seq::new(n as nat, |i: int| name_hash(numbered("Cntr_new_"@, (base_seq + i) as u32)))
}

/// Several new sounds under a mixer, numbered on from `base_seq`, that play audio files numbered
/// on from `first_source`: their objects, and their containers. The objects are accepted where a
/// subgraph is added.
pub fn make_new_sounds(base_seq: u32, n: u32, mixer_id: u32, first_source: u32) -> (r: (
    Vec<Json>,
    Vec<u32>,
))
    requires
        base_seq + n <= u32::MAX,
        first_source + n <= u32::MAX,
    ensures
        trees_view(r.0@) == new_sounds_trees(base_seq, n as int, mixer_id, first_source),
        r.1@ == new_containers(base_seq, n as int),
        subgraph_objects(trees_view(r.0@)) is Ok,
{
    let mut objects: Vec<Json> = Vec::new();
    let mut containers: Vec<u32> = Vec::new();
    let mut i: u32 = 0;
    proof {
        assert(trees_view(objects@) =~= Seq::<JsonView>::empty());
        assert(containers@ =~= new_containers(base_seq, 0));
    }
    while i < n
        invariant
            i <= n,
            base_seq + n <= u32::MAX,
            first_source + n <= u32::MAX,
            trees_view(objects@) == new_sounds_trees(base_seq, i as int, mixer_id, first_source),
            subgraph_objects(trees_view(objects@)) is Ok,
            containers@ == new_containers(base_seq, i as int),
        decreases n - i,
    {
        let ghost before = trees_view(objects@);
        let mut new = make_new_sound(base_seq + i, mixer_id, first_source + i);
        let ghost more = trees_view(new.objects@);
        containers.push(new.sc_id);
        objects.append(&mut new.objects);
        i = i + 1;
        assert(trees_view(objects@) =~= before + more);
        proof {
            lemma_accepted_joined(before, more);
        }
        assert(containers@ =~= new_containers(base_seq, i as int));
    }
    (objects, containers)
}

// ---------------------------------------------------------------------------
// Measurements
// ---------------------------------------------------------------------------
/// How long the steps of a run took, in order.
#[derive(Debug)]
pub struct Phases {
    rows: Vec<(String, Duration)>,
}

impl View for Phases {
    type V = Seq<(Seq<char>, Duration)>;

    closed spec fn view(&self) -> Seq<(Seq<char>, Duration)> {
        self.rows@.map_values(|row: (String, Duration)| (row.0@, row.1))
    }
}

impl Phases {
    /// No steps.
    pub fn new() -> (r: Phases)
        ensures
            r@ == Seq::<(Seq<char>, Duration)>::empty(),
    {
        let r = Phases { rows: Vec::new() };
        assert(r@ =~= Seq::<(Seq<char>, Duration)>::empty());
        r
    }

    /// Adds a step.
    pub fn record(&mut self, name: String, dur: Duration)
        ensures
            final(self)@ == old(self)@.push((name@, dur)),
    {
        let ghost before = self@;
        let ghost row = (name@, dur);
        self.rows.push((name, dur));
        assert(self@ =~= before.push(row));
    }

    /// The steps.
    pub fn rows(&self) -> (r: &Vec<(String, Duration)>)
        ensures
            r@.map_values(|row: (String, Duration)| (row.0@, row.1)) == self@,
    {
        &self.rows
    }
}

/// `std::time::Instant`, a point in time.
#[verifier::external_type_specification]
#[verifier::external_body]
pub struct ExInstant(std::time::Instant);

/// `std::time::Instant::now`. Nothing is promised of the time that it tells.
pub assume_specification[ std::time::Instant::now ]() -> Instant;

/// The point in time at which it is called, as the clock tells it.
pub fn now() -> (r: Instant)
    ensures
        call_ensures(Instant::now, (), r),
{
    Instant::now()
}

} // verus!
