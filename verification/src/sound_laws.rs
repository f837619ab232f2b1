//! The objects of new sounds are accepted where subgraphs are added.

use vstd::prelude::*;

use crate::bank::ObjectData;
use crate::bench::{
    action_play_body_tree, action_stop_body_tree, adv_settings_params_tree, aux_params_tree,
    bank_source_data_tree, decimal_zero, empty_playlist_tree, event_body_tree, hirc_obj_tree,
    media_information_tree, new_containers, new_sound_trees, new_sounds_trees, no_curves_tree,
    no_effects_tree, no_entries_tree, no_exceptions_tree, no_properties_tree, no_states_tree,
    node_base_params_tree, numbered, one_child_tree, play_params_tree, play_settings_tree,
    positioning_params_tree, ran_seq_body_tree, sound_body_tree, stop_flags_tree, stop_params_tree,
    stop_settings_tree,
};
use crate::body::{
    body_tree, children, direct_parent, fields_fit, lemma_body_in_tree, references, well_formed,
    BodyView,
};
use crate::error::StorageFault;
use crate::field_laws::{number_there, plays};
use crate::ids::{name_hash, IdView};
use crate::json::{at, lemma_ids_read_back, member, named, u32_at, JsonView};
use crate::json_text::{all_keys_distinct, all_numbers_plain, distinct_keys, nested_within, DEEPEST};
use crate::kind::BodyKind;
use crate::seqs::lemma_first_where;
use crate::session::{subgraph_object, subgraph_objects};
use crate::subgraph_laws::{lemma_subgraph_is_read, stands_for};
use crate::text::decimal_text;

verus! {

// ---------------------------------------------------------------------------
// Trees
// ---------------------------------------------------------------------------
/// Can the tree be written as text and, within a depth, read back?
spec fn fits(v: JsonView, depth: int) -> bool {
    all_keys_distinct(v) && all_numbers_plain(v) && nested_within(v, depth)
}

/// Has the tree nothing below it that could fail to fit?
spec fn leaf(v: JsonView) -> bool {
    match v {
        JsonView::Decimal(_) => all_numbers_plain(v),
        JsonView::Array(items) => forall|i: int|
            0 <= i < items.len() ==> (#[trigger] items[i]) is Unsigned,
        JsonView::Object(_) => false,
        _ => true,
    }
}

proof fn lemma_leaf(v: JsonView, depth: int)
    requires
        leaf(v),
        depth > 0,
    ensures
        fits(v, depth),
{
    if let JsonView::Array(items) = v {
        assert forall|i: int| 0 <= i < items.len() implies all_keys_distinct(#[trigger] items[i])
            && all_numbers_plain(items[i]) && nested_within(items[i], depth - 1) by {
            assert(items[i] is Unsigned);
        }
    }
}

proof fn lemma_object_fits(v: JsonView, depth: int)
    requires
        v is Object,
        distinct_keys(v->Object_0),
        forall|i: int|
            0 <= i < v->Object_0.len() ==> fits((#[trigger] v->Object_0[i]).1, depth - 1),
        depth > 0,
    ensures
        fits(v, depth),
{
    let members = v->Object_0;
    assert forall|i: int| 0 <= i < members.len() implies all_keys_distinct(
        (#[trigger] members[i]).1,
    ) && all_numbers_plain(members[i].1) && nested_within(members[i].1, depth - 1) by {
        assert(fits(v->Object_0[i].1, depth - 1));
    }
}

proof fn lemma_positioning_params(depth: int)
    requires
        depth >= 2,
    ensures
        fits(positioning_params_tree(), depth),
{
    let v = positioning_params_tree();
    let members = v->Object_0;
    reveal_strlit("unk1");
    reveal_strlit("three_dimensional_position_type");
    reveal_strlit("speaker_panning_type");
    reveal_strlit("listener_relative_routing");
    reveal_strlit("override_parent");
    reveal_strlit("unk2");
    reveal_strlit("enable_diffraction");
    reveal_strlit("hold_listener_orientation");
    reveal_strlit("hold_emitter_position_and_orientation");
    reveal_strlit("enable_attenuation");
    reveal_strlit("three_dimensional_spatialization_mode");
    reveal_strlit("path_mode");
    reveal_strlit("transition_time");
    reveal_strlit("vertex_count");
    reveal_strlit("vertices");
    reveal_strlit("path_list_item_count");
    reveal_strlit("path_list_item_offsets");
    reveal_strlit("three_dimensional_automation_params");
    assert("unk1"@.len() == 4 && "unk1"@[3] == '1');
    assert("three_dimensional_position_type"@.len() == 31);
    assert("speaker_panning_type"@.len() == 20 && "speaker_panning_type"@[19] == 'e');
    assert("listener_relative_routing"@.len() == 25 && "listener_relative_routing"@[24] == 'g');
    assert("override_parent"@.len() == 15 && "override_parent"@[14] == 't');
    assert("unk2"@.len() == 4 && "unk2"@[3] == '2');
    assert("enable_diffraction"@.len() == 18 && "enable_diffraction"@[7] == 'd');
    assert("hold_listener_orientation"@.len() == 25 && "hold_listener_orientation"@[24] == 'n');
    assert("hold_emitter_position_and_orientation"@.len() == 37
        && "hold_emitter_position_and_orientation"@[36] == 'n');
    assert("enable_attenuation"@.len() == 18 && "enable_attenuation"@[7] == 'a');
    assert("three_dimensional_spatialization_mode"@.len() == 37
        && "three_dimensional_spatialization_mode"@[36] == 'e');
    assert("path_mode"@.len() == 9);
    assert("transition_time"@.len() == 15 && "transition_time"@[14] == 'e');
    assert("vertex_count"@.len() == 12);
    assert("vertices"@.len() == 8);
    assert("path_list_item_count"@.len() == 20 && "path_list_item_count"@[19] == 't');
    assert("path_list_item_offsets"@.len() == 22);
    assert("three_dimensional_automation_params"@.len() == 35);
    assert(distinct_keys(members));
    assert forall|i: int| 0 <= i < members.len() implies fits(
        (#[trigger] members[i]).1,
        depth - 1,
    ) by {
        lemma_leaf(members[i].1, depth - 1);
    }
    lemma_object_fits(v, depth);
}

proof fn lemma_aux_params(depth: int)
    requires
        depth >= 2,
    ensures
        fits(aux_params_tree(), depth),
{
    let v = aux_params_tree();
    let members = v->Object_0;
    reveal_strlit("unk1");
    reveal_strlit("unk2");
    reveal_strlit("unk3");
    reveal_strlit("override_reflections_aux_bus");
    reveal_strlit("has_aux");
    reveal_strlit("override_user_aux_sends");
    reveal_strlit("unk4");
    reveal_strlit("aux1");
    reveal_strlit("aux2");
    reveal_strlit("aux3");
    reveal_strlit("aux4");
    reveal_strlit("reflections_aux_bus");
    assert("unk1"@.len() == 4 && "unk1"@[0] == 'u' && "unk1"@[3] == '1');
    assert("unk2"@.len() == 4 && "unk2"@[0] == 'u' && "unk2"@[3] == '2');
    assert("unk3"@.len() == 4 && "unk3"@[0] == 'u' && "unk3"@[3] == '3');
    assert("override_reflections_aux_bus"@.len() == 28);
    assert("has_aux"@.len() == 7);
    assert("override_user_aux_sends"@.len() == 23);
    assert("unk4"@.len() == 4 && "unk4"@[0] == 'u' && "unk4"@[3] == '4');
    assert("aux1"@.len() == 4 && "aux1"@[0] == 'a' && "aux1"@[3] == '1');
    assert("aux2"@.len() == 4 && "aux2"@[0] == 'a' && "aux2"@[3] == '2');
    assert("aux3"@.len() == 4 && "aux3"@[0] == 'a' && "aux3"@[3] == '3');
    assert("aux4"@.len() == 4 && "aux4"@[0] == 'a' && "aux4"@[3] == '4');
    assert("reflections_aux_bus"@.len() == 19);
    assert(distinct_keys(members));
    assert forall|i: int| 0 <= i < members.len() implies fits(
        (#[trigger] members[i]).1,
        depth - 1,
    ) by {
        lemma_leaf(members[i].1, depth - 1);
    }
    lemma_object_fits(v, depth);
}

proof fn lemma_adv_settings_params(depth: int)
    requires
        depth >= 2,
    ensures
        fits(adv_settings_params_tree(), depth),
{
    let v = adv_settings_params_tree();
    let members = v->Object_0;
    reveal_strlit("unk1");
    reveal_strlit("unk2");
    reveal_strlit("unk3");
    reveal_strlit("is_virtual_voices_opt_override_parent");
    reveal_strlit("ignore_parent_maximum_instances");
    reveal_strlit("unk4");
    reveal_strlit("use_virtual_behavior");
    reveal_strlit("kill_newest");
    reveal_strlit("virtual_queue_behavior");
    reveal_strlit("max_instance_count");
    reveal_strlit("below_threshold_behavior");
    reveal_strlit("unk5");
    reveal_strlit("unk6");
    reveal_strlit("unk7");
    reveal_strlit("unk8");
    reveal_strlit("enable_envelope");
    reveal_strlit("normalize_loudness");
    reveal_strlit("override_analysis");
    reveal_strlit("override_hdr_envelope");
    assert("unk1"@.len() == 4 && "unk1"@[3] == '1');
    assert("unk2"@.len() == 4 && "unk2"@[3] == '2');
    assert("unk3"@.len() == 4 && "unk3"@[3] == '3');
    assert("is_virtual_voices_opt_override_parent"@.len() == 37);
    assert("ignore_parent_maximum_instances"@.len() == 31);
    assert("unk4"@.len() == 4 && "unk4"@[3] == '4');
    assert("use_virtual_behavior"@.len() == 20);
    assert("kill_newest"@.len() == 11);
    assert("virtual_queue_behavior"@.len() == 22);
    assert("max_instance_count"@.len() == 18 && "max_instance_count"@[17] == 't');
    assert("below_threshold_behavior"@.len() == 24);
    assert("unk5"@.len() == 4 && "unk5"@[3] == '5');
    assert("unk6"@.len() == 4 && "unk6"@[3] == '6');
    assert("unk7"@.len() == 4 && "unk7"@[3] == '7');
    assert("unk8"@.len() == 4 && "unk8"@[3] == '8');
    assert("enable_envelope"@.len() == 15);
    assert("normalize_loudness"@.len() == 18 && "normalize_loudness"@[17] == 's');
    assert("override_analysis"@.len() == 17);
    assert("override_hdr_envelope"@.len() == 21);
    assert(distinct_keys(members));
    assert forall|i: int| 0 <= i < members.len() implies fits(
        (#[trigger] members[i]).1,
        depth - 1,
    ) by {
        lemma_leaf(members[i].1, depth - 1);
    }
    lemma_object_fits(v, depth);
}

proof fn lemma_no_entries(depth: int)
    requires
        depth >= 2,
    ensures
        fits(no_entries_tree(), depth),
{
    let v = no_entries_tree();
    let members = v->Object_0;
    reveal_strlit("count");
    reveal_strlit("entries");
    assert("count"@.len() == 5);
    assert("entries"@.len() == 7);
    assert(distinct_keys(members));
    assert forall|i: int| 0 <= i < members.len() implies fits(
        (#[trigger] members[i]).1,
        depth - 1,
    ) by {
        lemma_leaf(members[i].1, depth - 1);
    }
    lemma_object_fits(v, depth);
}

proof fn lemma_no_effects(depth: int)
    requires
        depth >= 2,
    ensures
        fits(no_effects_tree(), depth),
{
    let v = no_effects_tree();
    let members = v->Object_0;
    reveal_strlit("is_override_parent_fx");
    reveal_strlit("fx_chunk_count");
    reveal_strlit("fx_bypass_bits");
    reveal_strlit("fx_chunks");
    assert("is_override_parent_fx"@.len() == 21);
    assert("fx_chunk_count"@.len() == 14 && "fx_chunk_count"@[13] == 't');
    assert("fx_bypass_bits"@.len() == 14 && "fx_bypass_bits"@[13] == 's');
    assert("fx_chunks"@.len() == 9);
    assert(distinct_keys(members));
    assert forall|i: int| 0 <= i < members.len() implies fits(
        (#[trigger] members[i]).1,
        depth - 1,
    ) by {
        lemma_leaf(members[i].1, depth - 1);
    }
    lemma_object_fits(v, depth);
}

proof fn lemma_no_properties(depth: int)
    requires
        depth >= 3,
    ensures
        fits(no_properties_tree(), depth),
{
    let v = no_properties_tree();
    let members = v->Object_0;
    reveal_strlit("prop_initial_values");
    reveal_strlit("prop_ranged_modifiers");
    assert("prop_initial_values"@.len() == 19);
    assert("prop_ranged_modifiers"@.len() == 21);
    assert(distinct_keys(members));
    lemma_no_entries(depth - 1);
    assert forall|i: int| 0 <= i < members.len() implies fits(
        (#[trigger] members[i]).1,
        depth - 1,
    ) by {
        if leaf(members[i].1) {
            lemma_leaf(members[i].1, depth - 1);
        }
    }
    lemma_object_fits(v, depth);
}

proof fn lemma_no_states(depth: int)
    requires
        depth >= 2,
    ensures
        fits(no_states_tree(), depth),
{
    let v = no_states_tree();
    let members = v->Object_0;
    reveal_strlit("state_property_count");
    reveal_strlit("state_property_info");
    reveal_strlit("state_group_count");
    reveal_strlit("state_group_chunks");
    assert("state_property_count"@.len() == 20);
    assert("state_property_info"@.len() == 19);
    assert("state_group_count"@.len() == 17);
    assert("state_group_chunks"@.len() == 18);
    assert(distinct_keys(members));
    assert forall|i: int| 0 <= i < members.len() implies fits(
        (#[trigger] members[i]).1,
        depth - 1,
    ) by {
        lemma_leaf(members[i].1, depth - 1);
    }
    lemma_object_fits(v, depth);
}

proof fn lemma_no_curves(depth: int)
    requires
        depth >= 2,
    ensures
        fits(no_curves_tree(), depth),
{
    let v = no_curves_tree();
    let members = v->Object_0;
    reveal_strlit("count");
    reveal_strlit("rtpcs");
    assert("count"@.len() == 5 && "count"@[4] == 't');
    assert("rtpcs"@.len() == 5 && "rtpcs"@[4] == 's');
    assert(distinct_keys(members));
    assert forall|i: int| 0 <= i < members.len() implies fits(
        (#[trigger] members[i]).1,
        depth - 1,
    ) by {
        lemma_leaf(members[i].1, depth - 1);
    }
    lemma_object_fits(v, depth);
}

proof fn lemma_node_base_params(parent_id: u32, depth: int)
    requires
        depth >= 4,
    ensures
        fits(node_base_params_tree(parent_id), depth),
{
    let v = node_base_params_tree(parent_id);
    let members = v->Object_0;
    reveal_strlit("node_initial_fx_parameters");
    reveal_strlit("override_attachment_params");
    reveal_strlit("override_bus_id");
    reveal_strlit("direct_parent_id");
    reveal_strlit("unknown_flags");
    reveal_strlit("node_initial_params");
    reveal_strlit("positioning_params");
    reveal_strlit("aux_params");
    reveal_strlit("adv_settings_params");
    reveal_strlit("state_chunk");
    reveal_strlit("initial_rtpc");
    assert("node_initial_fx_parameters"@.len() == 26 && "node_initial_fx_parameters"@[0] == 'n');
    assert("override_attachment_params"@.len() == 26 && "override_attachment_params"@[0] == 'o');
    assert("override_bus_id"@.len() == 15);
    assert("direct_parent_id"@.len() == 16);
    assert("unknown_flags"@.len() == 13);
    assert("node_initial_params"@.len() == 19 && "node_initial_params"@[0] == 'n');
    assert("positioning_params"@.len() == 18);
    assert("aux_params"@.len() == 10);
    assert("adv_settings_params"@.len() == 19 && "adv_settings_params"@[0] == 'a');
    assert("state_chunk"@.len() == 11);
    assert("initial_rtpc"@.len() == 12);
    assert(distinct_keys(members));
    lemma_no_effects(depth - 1);
    lemma_no_properties(depth - 1);
    lemma_positioning_params(depth - 1);
    lemma_aux_params(depth - 1);
    lemma_adv_settings_params(depth - 1);
    lemma_no_states(depth - 1);
    lemma_no_curves(depth - 1);
    assert forall|i: int| 0 <= i < members.len() implies fits(
        (#[trigger] members[i]).1,
        depth - 1,
    ) by {
        if leaf(members[i].1) {
            lemma_leaf(members[i].1, depth - 1);
        }
    }
    lemma_object_fits(v, depth);
}

proof fn lemma_media_information(source_id: u32, depth: int)
    requires
        depth >= 2,
    ensures
        fits(media_information_tree(source_id), depth),
{
    let v = media_information_tree(source_id);
    let members = v->Object_0;
    reveal_strlit("source_id");
    reveal_strlit("in_memory_media_size");
    reveal_strlit("source_flags");
    assert("source_id"@.len() == 9);
    assert("in_memory_media_size"@.len() == 20);
    assert("source_flags"@.len() == 12);
    assert(distinct_keys(members));
    assert forall|i: int| 0 <= i < members.len() implies fits(
        (#[trigger] members[i]).1,
        depth - 1,
    ) by {
        lemma_leaf(members[i].1, depth - 1);
    }
    lemma_object_fits(v, depth);
}

proof fn lemma_bank_source_data(source_id: u32, depth: int)
    requires
        depth >= 3,
    ensures
        fits(bank_source_data_tree(source_id), depth),
{
    let v = bank_source_data_tree(source_id);
    let members = v->Object_0;
    reveal_strlit("plugin");
    reveal_strlit("source_type");
    reveal_strlit("media_information");
    reveal_strlit("params_size");
    reveal_strlit("params");
    assert("plugin"@.len() == 6 && "plugin"@[5] == 'n');
    assert("source_type"@.len() == 11 && "source_type"@[0] == 's');
    assert("media_information"@.len() == 17);
    assert("params_size"@.len() == 11 && "params_size"@[0] == 'p');
    assert("params"@.len() == 6 && "params"@[5] == 's');
    assert(distinct_keys(members));
    lemma_media_information(source_id, depth - 1);
    assert forall|i: int| 0 <= i < members.len() implies fits(
        (#[trigger] members[i]).1,
        depth - 1,
    ) by {
        if leaf(members[i].1) {
            lemma_leaf(members[i].1, depth - 1);
        }
    }
    lemma_object_fits(v, depth);
}

proof fn lemma_sound_body(parent_id: u32, source_id: u32, depth: int)
    requires
        depth >= 5,
    ensures
        fits(sound_body_tree(parent_id, source_id), depth),
{
    let v = sound_body_tree(parent_id, source_id);
    let members = v->Object_0;
    reveal_strlit("bank_source_data");
    reveal_strlit("node_base_params");
    assert("bank_source_data"@.len() == 16 && "bank_source_data"@[15] == 'a');
    assert("node_base_params"@.len() == 16 && "node_base_params"@[15] == 's');
    assert(distinct_keys(members));
    lemma_bank_source_data(source_id, depth - 1);
    lemma_node_base_params(parent_id, depth - 1);
    assert forall|i: int| 0 <= i < members.len() implies fits(
        (#[trigger] members[i]).1,
        depth - 1,
    ) by {
        if leaf(members[i].1) {
            lemma_leaf(members[i].1, depth - 1);
        }
    }
    lemma_object_fits(v, depth);
}

proof fn lemma_one_child(child: u32, depth: int)
    requires
        depth >= 2,
    ensures
        fits(one_child_tree(child), depth),
{
    let v = one_child_tree(child);
    let members = v->Object_0;
    reveal_strlit("count");
    reveal_strlit("items");
    assert("count"@.len() == 5 && "count"@[4] == 't');
    assert("items"@.len() == 5 && "items"@[4] == 's');
    assert(distinct_keys(members));
    assert forall|i: int| 0 <= i < members.len() implies fits(
        (#[trigger] members[i]).1,
        depth - 1,
    ) by {
        lemma_leaf(members[i].1, depth - 1);
    }
    lemma_object_fits(v, depth);
}

proof fn lemma_empty_playlist(depth: int)
    requires
        depth >= 2,
    ensures
        fits(empty_playlist_tree(), depth),
{
    let v = empty_playlist_tree();
    let members = v->Object_0;
    reveal_strlit("count");
    reveal_strlit("items");
    assert("count"@.len() == 5 && "count"@[4] == 't');
    assert("items"@.len() == 5 && "items"@[4] == 's');
    assert(distinct_keys(members));
    assert forall|i: int| 0 <= i < members.len() implies fits(
        (#[trigger] members[i]).1,
        depth - 1,
    ) by {
        lemma_leaf(members[i].1, depth - 1);
    }
    lemma_object_fits(v, depth);
}

proof fn lemma_ran_seq_body(parent_id: u32, only_child: u32, depth: int)
    requires
        depth >= 5,
        all_numbers_plain(decimal_zero()),
    ensures
        fits(ran_seq_body_tree(parent_id, only_child), depth),
{
    let v = ran_seq_body_tree(parent_id, only_child);
    let members = v->Object_0;
    reveal_strlit("node_base_params");
    reveal_strlit("loop_count");
    reveal_strlit("loop_mod_min");
    reveal_strlit("loop_mod_max");
    reveal_strlit("transition_time");
    reveal_strlit("transition_time_mod_min");
    reveal_strlit("transition_time_mod_max");
    reveal_strlit("avoid_repeat_count");
    reveal_strlit("transition_mode");
    reveal_strlit("random_mode");
    reveal_strlit("mode");
    reveal_strlit("flags");
    reveal_strlit("children");
    reveal_strlit("playlist");
    assert("node_base_params"@.len() == 16);
    assert("loop_count"@.len() == 10);
    assert("loop_mod_min"@.len() == 12 && "loop_mod_min"@[11] == 'n');
    assert("loop_mod_max"@.len() == 12 && "loop_mod_max"@[11] == 'x');
    assert("transition_time"@.len() == 15 && "transition_time"@[11] == 't');
    assert("transition_time_mod_min"@.len() == 23 && "transition_time_mod_min"@[22] == 'n');
    assert("transition_time_mod_max"@.len() == 23 && "transition_time_mod_max"@[22] == 'x');
    assert("avoid_repeat_count"@.len() == 18);
    assert("transition_mode"@.len() == 15 && "transition_mode"@[11] == 'm');
    assert("random_mode"@.len() == 11);
    assert("mode"@.len() == 4);
    assert("flags"@.len() == 5);
    assert("children"@.len() == 8 && "children"@[7] == 'n');
    assert("playlist"@.len() == 8 && "playlist"@[7] == 't');
    assert(distinct_keys(members));
    lemma_node_base_params(parent_id, depth - 1);
    lemma_one_child(only_child, depth - 1);
    lemma_empty_playlist(depth - 1);
    assert forall|i: int| 0 <= i < members.len() implies fits(
        (#[trigger] members[i]).1,
        depth - 1,
    ) by {
        if leaf(members[i].1) {
            lemma_leaf(members[i].1, depth - 1);
        }
    }
    lemma_object_fits(v, depth);
}

proof fn lemma_play_settings(depth: int)
    requires
        depth >= 2,
    ensures
        fits(play_settings_tree(), depth),
{
    let v = play_settings_tree();
    let members = v->Object_0;
    reveal_strlit("fade_curve");
    reveal_strlit("bank_id");
    assert("fade_curve"@.len() == 10);
    assert("bank_id"@.len() == 7);
    assert(distinct_keys(members));
    assert forall|i: int| 0 <= i < members.len() implies fits(
        (#[trigger] members[i]).1,
        depth - 1,
    ) by {
        lemma_leaf(members[i].1, depth - 1);
    }
    lemma_object_fits(v, depth);
}

proof fn lemma_play_params(depth: int)
    requires
        depth >= 3,
    ensures
        fits(play_params_tree(), depth),
{
    let v = play_params_tree();
    let members = v->Object_0;
    assert(distinct_keys(members));
    lemma_play_settings(depth - 1);
    assert forall|i: int| 0 <= i < members.len() implies fits(
        (#[trigger] members[i]).1,
        depth - 1,
    ) by {
        if leaf(members[i].1) {
            lemma_leaf(members[i].1, depth - 1);
        }
    }
    lemma_object_fits(v, depth);
}

proof fn lemma_stop_flags(depth: int)
    requires
        depth >= 2,
    ensures
        fits(stop_flags_tree(), depth),
{
    let v = stop_flags_tree();
    let members = v->Object_0;
    reveal_strlit("flags1");
    reveal_strlit("flags2");
    assert("flags1"@.len() == 6 && "flags1"@[5] == '1');
    assert("flags2"@.len() == 6 && "flags2"@[5] == '2');
    assert(distinct_keys(members));
    assert forall|i: int| 0 <= i < members.len() implies fits(
        (#[trigger] members[i]).1,
        depth - 1,
    ) by {
        lemma_leaf(members[i].1, depth - 1);
    }
    lemma_object_fits(v, depth);
}

proof fn lemma_no_exceptions(depth: int)
    requires
        depth >= 2,
    ensures
        fits(no_exceptions_tree(), depth),
{
    let v = no_exceptions_tree();
    let members = v->Object_0;
    reveal_strlit("count");
    reveal_strlit("exceptions");
    assert("count"@.len() == 5);
    assert("exceptions"@.len() == 10);
    assert(distinct_keys(members));
    assert forall|i: int| 0 <= i < members.len() implies fits(
        (#[trigger] members[i]).1,
        depth - 1,
    ) by {
        lemma_leaf(members[i].1, depth - 1);
    }
    lemma_object_fits(v, depth);
}

proof fn lemma_stop_settings(depth: int)
    requires
        depth >= 3,
    ensures
        fits(stop_settings_tree(), depth),
{
    let v = stop_settings_tree();
    let members = v->Object_0;
    reveal_strlit("stop");
    reveal_strlit("except");
    assert("stop"@.len() == 4);
    assert("except"@.len() == 6);
    assert(distinct_keys(members));
    lemma_stop_flags(depth - 1);
    lemma_no_exceptions(depth - 1);
    assert forall|i: int| 0 <= i < members.len() implies fits(
        (#[trigger] members[i]).1,
        depth - 1,
    ) by {
        if leaf(members[i].1) {
            lemma_leaf(members[i].1, depth - 1);
        }
    }
    lemma_object_fits(v, depth);
}

proof fn lemma_stop_params(depth: int)
    requires
        depth >= 4,
    ensures
        fits(stop_params_tree(), depth),
{
    let v = stop_params_tree();
    let members = v->Object_0;
    assert(distinct_keys(members));
    lemma_stop_settings(depth - 1);
    assert forall|i: int| 0 <= i < members.len() implies fits(
        (#[trigger] members[i]).1,
        depth - 1,
    ) by {
        if leaf(members[i].1) {
            lemma_leaf(members[i].1, depth - 1);
        }
    }
    lemma_object_fits(v, depth);
}

proof fn lemma_action_play_body(target: u32, depth: int)
    requires
        depth >= 4,
    ensures
        fits(action_play_body_tree(target), depth),
{
    let v = action_play_body_tree(target);
    let members = v->Object_0;
    reveal_strlit("action_type");
    reveal_strlit("external_id");
    reveal_strlit("is_bus");
    reveal_strlit("prop_bundle");
    reveal_strlit("ranged_modifiers");
    reveal_strlit("params");
    assert("action_type"@.len() == 11 && "action_type"@[0] == 'a' && "action_type"@[10] == 'e');
    assert("external_id"@.len() == 11 && "external_id"@[0] == 'e' && "external_id"@[10] == 'd');
    assert("is_bus"@.len() == 6 && "is_bus"@[0] == 'i');
    assert("prop_bundle"@.len() == 11 && "prop_bundle"@[0] == 'p');
    assert("ranged_modifiers"@.len() == 16);
    assert("params"@.len() == 6 && "params"@[0] == 'p');
    assert(distinct_keys(members));
    lemma_no_entries(depth - 1);
    lemma_play_params(depth - 1);
    assert forall|i: int| 0 <= i < members.len() implies fits(
        (#[trigger] members[i]).1,
        depth - 1,
    ) by {
        if leaf(members[i].1) {
            lemma_leaf(members[i].1, depth - 1);
        }
    }
    lemma_object_fits(v, depth);
}

proof fn lemma_action_stop_body(target: u32, depth: int)
    requires
        depth >= 5,
    ensures
        fits(action_stop_body_tree(target), depth),
{
    let v = action_stop_body_tree(target);
    let members = v->Object_0;
    reveal_strlit("action_type");
    reveal_strlit("external_id");
    reveal_strlit("is_bus");
    reveal_strlit("prop_bundle");
    reveal_strlit("ranged_modifiers");
    reveal_strlit("params");
    assert("action_type"@.len() == 11 && "action_type"@[0] == 'a' && "action_type"@[10] == 'e');
    assert("external_id"@.len() == 11 && "external_id"@[0] == 'e' && "external_id"@[10] == 'd');
    assert("is_bus"@.len() == 6 && "is_bus"@[0] == 'i');
    assert("prop_bundle"@.len() == 11 && "prop_bundle"@[0] == 'p');
    assert("ranged_modifiers"@.len() == 16);
    assert("params"@.len() == 6 && "params"@[0] == 'p');
    assert(distinct_keys(members));
    lemma_no_entries(depth - 1);
    lemma_stop_params(depth - 1);
    assert forall|i: int| 0 <= i < members.len() implies fits(
        (#[trigger] members[i]).1,
        depth - 1,
    ) by {
        if leaf(members[i].1) {
            lemma_leaf(members[i].1, depth - 1);
        }
    }
    lemma_object_fits(v, depth);
}

proof fn lemma_event_body(action_id: u32, depth: int)
    requires
        depth >= 2,
    ensures
        fits(event_body_tree(action_id), depth),
{
    let v = event_body_tree(action_id);
    let members = v->Object_0;
    reveal_strlit("action_count");
    reveal_strlit("actions");
    assert("action_count"@.len() == 12);
    assert("actions"@.len() == 7);
    assert(distinct_keys(members));
    assert forall|i: int| 0 <= i < members.len() implies fits(
        (#[trigger] members[i]).1,
        depth - 1,
    ) by {
        lemma_leaf(members[i].1, depth - 1);
    }
    lemma_object_fits(v, depth);
}

// ---------------------------------------------------------------------------
// Fields
// ---------------------------------------------------------------------------
proof fn lemma_member(v: JsonView, i: int)
    requires
        v is Object,
        distinct_keys(v->Object_0),
        0 <= i < v->Object_0.len(),
    ensures
        member(v, v->Object_0[i].0) == Some(v->Object_0[i].1),
{
    let members = v->Object_0;
    let p = named(members[i].0);
    assert forall|k: int| 0 <= k < i implies !p(#[trigger] members[k]) by {
        assert(members[k].0 != members[i].0);
    }
    lemma_first_where(members, p, i);
}

proof fn lemma_at_two(v: JsonView, a: Seq<char>, b: Seq<char>)
    ensures
        at(v, seq![a]) == member(v, a),
        at(v, seq![a, b]) == (match member(v, a) {
            Some(inner) => member(inner, b),
            None => None,
        }),
{
    reveal_with_fuel(at, 3);
    assert(seq![a].skip(1) =~= Seq::<Seq<char>>::empty());
    assert(seq![b].skip(1) =~= Seq::<Seq<char>>::empty());
    assert(seq![a, b].skip(1) =~= seq![b]);
}

proof fn lemma_routing(v: JsonView, i: int, parent: u32)
    requires
        v is Object,
        distinct_keys(v->Object_0),
        0 <= i < v->Object_0.len(),
        v->Object_0[i] == ("node_base_params"@, node_base_params_tree(parent)),
    ensures
        u32_at(v, seq!["node_base_params"@].push("direct_parent_id"@)) == Some(parent),
        u32_at(v, seq!["node_base_params"@].push("override_bus_id"@)) == Some(0u32),
{
    let node = node_base_params_tree(parent);
    lemma_node_base_params(parent, DEEPEST as int);
    lemma_member(v, i);
    lemma_member(node, 2);
    lemma_member(node, 3);
    lemma_at_two(v, "node_base_params"@, "direct_parent_id"@);
    lemma_at_two(v, "node_base_params"@, "override_bus_id"@);
    assert(seq!["node_base_params"@].push("direct_parent_id"@) =~= seq![
        "node_base_params"@,
        "direct_parent_id"@,
    ]);
    assert(seq!["node_base_params"@].push("override_bus_id"@) =~= seq![
        "node_base_params"@,
        "override_bus_id"@,
    ]);
}

/// A body that has its fields and fits is complete.
proof fn lemma_complete(kind: BodyKind, fields: JsonView)
    requires
        fields_fit(BodyView { kind, fields }),
        fits(fields, DEEPEST - 1),
    ensures
        well_formed(BodyView { kind, fields }),
{
    let body = BodyView { kind, fields };
    lemma_object_fits(body_tree(body), DEEPEST as int);
}

proof fn lemma_new_sound_body(parent: u32, source: u32)
    ensures
        well_formed(BodyView { kind: BodyKind::Sound, fields: sound_body_tree(parent, source) }),
{
    let v = sound_body_tree(parent, source);
    let data = bank_source_data_tree(source);
    let media = media_information_tree(source);
    lemma_sound_body(parent, source, DEEPEST - 1);
    lemma_bank_source_data(source, DEEPEST as int);
    lemma_media_information(source, DEEPEST as int);
    lemma_routing(v, 1, parent);
    lemma_member(v, 0);
    lemma_member(data, 2);
    lemma_member(media, 0);
    let path = seq!["bank_source_data"@, "media_information"@, "source_id"@];
    assert(path.skip(1) =~= seq!["media_information"@, "source_id"@]);
    lemma_at_two(data, "media_information"@, "source_id"@);
    assert(at(v, path) == at(data, path.skip(1)));
    lemma_complete(BodyKind::Sound, v);
}

proof fn lemma_new_container_body(parent: u32, child: u32)
    requires
        all_numbers_plain(decimal_zero()),
    ensures
        well_formed(
            BodyView {
                kind: BodyKind::RandomSequenceContainer,
                fields: ran_seq_body_tree(parent, child),
            },
        ),
{
    let v = ran_seq_body_tree(parent, child);
    lemma_ran_seq_body(parent, child, DEEPEST - 1);
    lemma_one_child(child, DEEPEST as int);
    lemma_routing(v, 0, parent);
    lemma_member(v, 12);
    lemma_member(one_child_tree(child), 1);
    lemma_at_two(v, "children"@, "items"@);
    lemma_ids_read_back(seq![child]);
    lemma_complete(BodyKind::RandomSequenceContainer, v);
}

proof fn lemma_new_action_bodies(target: u32)
    ensures
        well_formed(BodyView { kind: BodyKind::Action, fields: action_play_body_tree(target) }),
        well_formed(BodyView { kind: BodyKind::Action, fields: action_stop_body_tree(target) }),
{
    let play = action_play_body_tree(target);
    let stop = action_stop_body_tree(target);
    lemma_action_play_body(target, DEEPEST - 1);
    lemma_action_stop_body(target, DEEPEST - 1);
    lemma_member(play, 1);
    lemma_member(stop, 1);
    lemma_at_two(play, "external_id"@, "external_id"@);
    lemma_at_two(stop, "external_id"@, "external_id"@);
    lemma_complete(BodyKind::Action, play);
    lemma_complete(BodyKind::Action, stop);
}

proof fn lemma_new_event_body(action: u32)
    ensures
        well_formed(BodyView { kind: BodyKind::Event, fields: event_body_tree(action) }),
{
    let v = event_body_tree(action);
    lemma_event_body(action, DEEPEST - 1);
    lemma_member(v, 1);
    lemma_at_two(v, "actions"@, "actions"@);
    lemma_ids_read_back(seq![action]);
    lemma_complete(BodyKind::Event, v);
}

// ---------------------------------------------------------------------------
// Objects
// ---------------------------------------------------------------------------
/// A named object with a complete body is read as that object.
pub proof fn lemma_new_object_is_read(kind: BodyKind, label: Seq<char>, fields: JsonView)
    requires
        well_formed(BodyView { kind, fields }),
    ensures
        subgraph_object(hirc_obj_tree(kind, label, fields)) == Ok::<ObjectData, StorageFault>(
            ObjectData { id: IdView::Name(label), body: BodyView { kind, fields } },
        ),
{
    let v = hirc_obj_tree(kind, label, fields);
    reveal_strlit("body_type");
    reveal_strlit("size");
    reveal_strlit("id");
    reveal_strlit("body");
    assert("body_type"@.len() == 9);
    assert("size"@.len() == 4 && "size"@[0] == 's');
    assert("id"@.len() == 2);
    assert("body"@.len() == 4 && "body"@[0] == 'b');
    assert(distinct_keys(v->Object_0));
    let id = v->Object_0[2].1;
    assert(distinct_keys(id->Object_0));
    lemma_member(v, 2);
    lemma_member(v, 3);
    lemma_member(id, 0);
    lemma_at_two(v, "id"@, "String"@);
    lemma_at_two(v, "body"@, "body"@);
    lemma_body_in_tree(BodyView { kind, fields });
}

/// The objects of a new sound are accepted where a subgraph is added, as six objects, provided
/// that the zero with a fraction, which stands in the body of the container, reads as it is
/// written.
pub proof fn lemma_new_sound_can_be_added(seq: u32, mixer_id: u32, source_id: u32)
    requires
        all_numbers_plain(decimal_zero()),
    ensures
        match subgraph_objects(new_sound_trees(seq, mixer_id, source_id)) {
            Ok(objects) => objects.len() == 6,
            Err(_) => false,
        },
{
    let trees = new_sound_trees(seq, mixer_id, source_id);
    let sound = numbered("Snd_new_"@, seq);
    let container = numbered("Cntr_new_"@, seq);
    let play = numbered("Action_play_new_"@, seq);
    let stop = numbered("Action_stop_new_"@, seq);
    let target = name_hash(container);
    lemma_new_sound_body(target, source_id);
    lemma_new_container_body(mixer_id, name_hash(sound));
    lemma_new_action_bodies(target);
    lemma_new_event_body(name_hash(play));
    lemma_new_event_body(name_hash(stop));
    lemma_new_object_is_read(BodyKind::Sound, sound, sound_body_tree(target, source_id));
    lemma_new_object_is_read(
        BodyKind::RandomSequenceContainer,
        container,
        ran_seq_body_tree(mixer_id, name_hash(sound)),
    );
    lemma_new_object_is_read(BodyKind::Action, play, action_play_body_tree(target));
    lemma_new_object_is_read(BodyKind::Action, stop, action_stop_body_tree(target));
    lemma_new_object_is_read(
        BodyKind::Event,
        numbered("Play_new_"@, seq),
        event_body_tree(name_hash(play)),
    );
    lemma_new_object_is_read(
        BodyKind::Event,
        numbered("Stop_new_"@, seq),
        event_body_tree(name_hash(stop)),
    );
    lemma_all_accepted(trees);
}

proof fn lemma_all_accepted(trees: Seq<JsonView>)
    requires
        forall|i: int| 0 <= i < trees.len() ==> subgraph_object(#[trigger] trees[i]) is Ok,
    ensures
        match subgraph_objects(trees) {
            Ok(objects) => objects.len() == trees.len(),
            Err(_) => false,
        },
    decreases trees.len(),
{
    if trees.len() > 0 {
        let front = trees.drop_last();
        assert forall|i: int| 0 <= i < front.len() implies subgraph_object(
            #[trigger] front[i],
        ) is Ok by {
            assert(front[i] == trees[i]);
        }
        lemma_all_accepted(front);
        assert(subgraph_object(trees[trees.len() - 1]) is Ok);
    }
}

/// Trees that are accepted apart are accepted together.
pub proof fn lemma_accepted_joined(a: Seq<JsonView>, b: Seq<JsonView>)
    ensures
        subgraph_objects(a + b) == (match (subgraph_objects(a), subgraph_objects(b)) {
            (Ok(first), Ok(more)) => Ok::<Seq<ObjectData>, StorageFault>(first + more),
            (Err(e), _) => Err(e),
            (Ok(_), Err(e)) => Err(e),
        }),
    decreases b.len(),
{
    if b.len() == 0 {
        assert(a + b =~= a);
        if let Ok(first) = subgraph_objects(a) {
            assert(first + Seq::<ObjectData>::empty() =~= first);
        }
    } else {
        assert((a + b).drop_last() =~= a + b.drop_last());
        assert((a + b).last() == b.last());
        lemma_accepted_joined(a, b.drop_last());
        if let (Ok(first), Ok(more)) = (subgraph_objects(a), subgraph_objects(b.drop_last())) {
            if let Ok(object) = subgraph_object(b.last()) {
                assert((first + more).push(object) =~= first + more.push(object));
            }
        }
    }
}

/// The objects of several new sounds are accepted together, six of each, on the same condition.
pub proof fn lemma_new_sounds_can_be_added(
    base_seq: u32,
    n: int,
    mixer_id: u32,
    first_source: u32,
)
    requires
        all_numbers_plain(decimal_zero()),
        0 <= n,
    ensures
        match subgraph_objects(new_sounds_trees(base_seq, n, mixer_id, first_source)) {
            Ok(objects) => objects.len() == 6 * n,
            Err(_) => false,
        },
    decreases n,
{
    if n > 0 {
        let seq = (base_seq + n - 1) as u32;
        let source = (first_source + n - 1) as u32;
        lemma_new_sounds_can_be_added(base_seq, n - 1, mixer_id, first_source);
        lemma_new_sound_can_be_added(seq, mixer_id, source);
        lemma_accepted_joined(
            new_sounds_trees(base_seq, n - 1, mixer_id, first_source),
            new_sound_trees(seq, mixer_id, source),
        );
    }
}

// ---------------------------------------------------------------------------
// What the objects say
// ---------------------------------------------------------------------------
/// A numbered label is its beginning, and then the number in decimal, with zeros in front of it up
/// to six digits.
pub proof fn lemma_numbered_label(prefix: Seq<char>, n: u32)
    ensures
        ({
            let label = numbered(prefix, n);
            let digits = decimal_text(n as nat);
            &&& label.take(prefix.len() as int) == prefix
            &&& label.len() == prefix.len() + (if digits.len() < 6 {
                6
            } else {
                digits.len()
            })
            &&& label.skip(label.len() - digits.len()) == digits
            &&& forall|i: int|
                prefix.len() <= i < label.len() - digits.len() ==> #[trigger] label[i] == '0'
        }),
{
    let label = numbered(prefix, n);
    let digits = decimal_text(n as nat);
    assert(label.take(prefix.len() as int) =~= prefix);
    assert(label.skip(label.len() - digits.len()) =~= digits);
}

/// The objects of a new sound hang together. The sound plays its audio file, and its parent is the
/// container; the container has the sound as its only child, and the mixer as its parent. One
/// action plays the container and another one stops it, and each has an event of its own. All are
/// named by the number.
pub proof fn lemma_new_sound_hangs_together(
    seq: u32,
    mixer_id: u32,
    source_id: u32,
    objects: Seq<ObjectData>,
)
    requires
        all_numbers_plain(decimal_zero()),
        subgraph_objects(new_sound_trees(seq, mixer_id, source_id)) == Ok::<
            Seq<ObjectData>,
            StorageFault,
        >(objects),
    ensures
        ({
            let sound = numbered("Snd_new_"@, seq);
            let container = numbered("Cntr_new_"@, seq);
            let play = numbered("Action_play_new_"@, seq);
            let stop = numbered("Action_stop_new_"@, seq);
            &&& objects.len() == 6
            &&& objects[0].id == IdView::Name(sound)
            &&& objects[0].body.kind == BodyKind::Sound
            &&& source_id != 0 ==> plays(objects[0].body, source_id)
            &&& direct_parent(objects[0].body) == Some(name_hash(container))
            &&& objects[1].id == IdView::Name(container)
            &&& objects[1].body.kind == BodyKind::RandomSequenceContainer
            &&& direct_parent(objects[1].body) == Some(mixer_id)
            &&& children(objects[1].body) == Some(seq![name_hash(sound)])
            &&& objects[2].id == IdView::Name(play)
            &&& objects[2].body.kind == BodyKind::Action
            &&& number_there(objects[2].body.fields, seq!["action_type"@], 0x0403)
            &&& number_there(objects[2].body.fields, seq!["external_id"@], name_hash(container))
            &&& objects[3].id == IdView::Name(stop)
            &&& objects[3].body.kind == BodyKind::Action
            &&& number_there(objects[3].body.fields, seq!["action_type"@], 0x0102)
            &&& number_there(objects[3].body.fields, seq!["external_id"@], name_hash(container))
            &&& objects[4].id == IdView::Name(numbered("Play_new_"@, seq))
            &&& objects[4].body.kind == BodyKind::Event
            &&& references(objects[4].body) == seq![name_hash(play)]
            &&& objects[5].id == IdView::Name(numbered("Stop_new_"@, seq))
            &&& objects[5].body.kind == BodyKind::Event
            &&& references(objects[5].body) == seq![name_hash(stop)]
        }),
{
    let trees = new_sound_trees(seq, mixer_id, source_id);
    let sound = numbered("Snd_new_"@, seq);
    let container = numbered("Cntr_new_"@, seq);
    let play = numbered("Action_play_new_"@, seq);
    let stop = numbered("Action_stop_new_"@, seq);
    let target = name_hash(container);
    let sound_fields = sound_body_tree(target, source_id);
    let container_fields = ran_seq_body_tree(mixer_id, name_hash(sound));
    let play_fields = action_play_body_tree(target);
    let stop_fields = action_stop_body_tree(target);
    lemma_subgraph_is_read(trees);
    lemma_new_sound_body(target, source_id);
    lemma_new_container_body(mixer_id, name_hash(sound));
    lemma_new_action_bodies(target);
    lemma_new_event_body(name_hash(play));
    lemma_new_event_body(name_hash(stop));
    lemma_new_object_is_read(BodyKind::Sound, sound, sound_fields);
    lemma_new_object_is_read(BodyKind::RandomSequenceContainer, container, container_fields);
    lemma_new_object_is_read(BodyKind::Action, play, play_fields);
    lemma_new_object_is_read(BodyKind::Action, stop, stop_fields);
    lemma_new_object_is_read(
        BodyKind::Event,
        numbered("Play_new_"@, seq),
        event_body_tree(name_hash(play)),
    );
    lemma_new_object_is_read(
        BodyKind::Event,
        numbered("Stop_new_"@, seq),
        event_body_tree(name_hash(stop)),
    );
    assert(stands_for(trees[0], objects[0]));
    assert(stands_for(trees[1], objects[1]));
    assert(stands_for(trees[2], objects[2]));
    assert(stands_for(trees[3], objects[3]));
    assert(stands_for(trees[4], objects[4]));
    assert(stands_for(trees[5], objects[5]));
    lemma_sound_body(target, source_id, DEEPEST - 1);
    lemma_routing(sound_fields, 1, target);
    lemma_member(sound_fields, 0);
    lemma_bank_source_data(source_id, DEEPEST as int);
    lemma_media_information(source_id, DEEPEST as int);
    lemma_member(bank_source_data_tree(source_id), 2);
    lemma_member(media_information_tree(source_id), 0);
    let path = seq!["bank_source_data"@, "media_information"@, "source_id"@];
    assert(path.skip(1) =~= seq!["media_information"@, "source_id"@]);
    lemma_at_two(bank_source_data_tree(source_id), "media_information"@, "source_id"@);
    assert(at(sound_fields, path) == at(bank_source_data_tree(source_id), path.skip(1)));
    lemma_ran_seq_body(mixer_id, name_hash(sound), DEEPEST - 1);
    lemma_routing(container_fields, 0, mixer_id);
    lemma_one_child(name_hash(sound), DEEPEST as int);
    lemma_member(container_fields, 12);
    lemma_member(one_child_tree(name_hash(sound)), 1);
    lemma_at_two(container_fields, "children"@, "items"@);
    lemma_ids_read_back(seq![name_hash(sound)]);
    lemma_action_play_body(target, DEEPEST - 1);
    lemma_action_stop_body(target, DEEPEST - 1);
    lemma_member(play_fields, 0);
    lemma_member(play_fields, 1);
    lemma_member(stop_fields, 0);
    lemma_member(stop_fields, 1);
    lemma_at_two(play_fields, "action_type"@, "action_type"@);
    lemma_at_two(play_fields, "external_id"@, "external_id"@);
    lemma_at_two(stop_fields, "action_type"@, "action_type"@);
    lemma_at_two(stop_fields, "external_id"@, "external_id"@);
    lemma_new_event_refers(name_hash(play));
    lemma_new_event_refers(name_hash(stop));
}

proof fn lemma_new_event_refers(action: u32)
    ensures
        references(
            BodyView { kind: BodyKind::Event, fields: event_body_tree(action) },
        ) == seq![action],
{
    let v = event_body_tree(action);
    lemma_event_body(action, DEEPEST - 1);
    lemma_member(v, 1);
    lemma_at_two(v, "actions"@, "actions"@);
    lemma_ids_read_back(seq![action]);
}

/// Several new sounds are new sounds one after the other, numbered on, each with the next audio
/// file, and so are their containers.
pub proof fn lemma_new_sounds_are_numbered_on(
    base_seq: u32,
    n: int,
    mixer_id: u32,
    first_source: u32,
    i: int,
)
    requires
        0 <= i < n,
        base_seq + n <= u32::MAX,
        first_source + n <= u32::MAX,
    ensures
        new_sounds_trees(base_seq, n, mixer_id, first_source).len() == 6 * n,
        new_sounds_trees(base_seq, n, mixer_id, first_source).subrange(6 * i, 6 * i + 6)
            == new_sound_trees((base_seq + i) as u32, mixer_id, (first_source + i) as u32),
        new_containers(base_seq, n).len() == n,
        new_containers(base_seq, n)[i] == name_hash(
            numbered("Cntr_new_"@, (base_seq + i) as u32),
        ),
    decreases n,
{
    let front = new_sounds_trees(base_seq, n - 1, mixer_id, first_source);
    let last = new_sound_trees(
        (base_seq + n - 1) as u32,
        mixer_id,
        (first_source + n - 1) as u32,
    );
    let all = new_sounds_trees(base_seq, n, mixer_id, first_source);
    lemma_new_sounds_len(base_seq, n - 1, mixer_id, first_source);
    if i < n - 1 {
        lemma_new_sounds_are_numbered_on(base_seq, n - 1, mixer_id, first_source, i);
        assert(all.subrange(6 * i, 6 * i + 6) =~= front.subrange(6 * i, 6 * i + 6));
    } else {
        assert(all.subrange(6 * i, 6 * i + 6) =~= last);
    }
}

proof fn lemma_new_sounds_len(base_seq: u32, n: int, mixer_id: u32, first_source: u32)
    requires
        0 <= n,
    ensures
        new_sounds_trees(base_seq, n, mixer_id, first_source).len() == 6 * n,
    decreases n,
{
    if n > 0 {
        lemma_new_sounds_len(base_seq, n - 1, mixer_id, first_source);
    }
}

} // verus!
