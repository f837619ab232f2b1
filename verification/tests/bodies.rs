use rewwise::body::{ChildError, HIRCObjectBody};
use rewwise::json::Json;
use rewwise::json_text::JsonError;
use rewwise::kind::BodyKind;

fn body(text: &str) -> HIRCObjectBody {
    HIRCObjectBody::from_json(Json::from_text(text).unwrap()).unwrap()
}

fn refused(text: &str) -> bool {
    matches!(
        HIRCObjectBody::from_json(Json::from_text(text).unwrap()),
        Err(JsonError::NotABody)
    )
}

fn text_of(body: &HIRCObjectBody) -> String {
    body.to_json().to_text().unwrap()
}

const NODE: &str = r#""node_base_params":{"direct_parent_id":11,"override_bus_id":12}"#;

fn mixer(children: &str) -> HIRCObjectBody {
    body(&format!(
        r#"{{"ActorMixer":{{{NODE},"children":{{"count":0,"items":{children}}}}}}}"#
    ))
}

#[test]
fn bodies_are_tagged_with_their_kind() {
    let b = body(r#"{"Event":{"action_count":2,"actions":[5,6]}}"#);
    assert_eq!(b.kind(), BodyKind::Event);
    assert_eq!(b.references_of(), vec![5, 6]);
    assert_eq!(text_of(&b), r#"{"Event":{"action_count":2,"actions":[5,6]}}"#);
}

#[test]
fn trees_that_are_no_body_are_refused() {
    assert!(refused("null"));
    assert!(refused("{}"));
    assert!(refused(r#"{"State":5}"#));
    assert!(refused(r#"{"Nothing":{}}"#));
    assert!(refused(r#"{"Event":{}}"#));
    assert!(refused(r#"{"Event":{"actions":[]},"Bus":{}}"#));
    assert!(refused(r#"{"Event":{"actions":[4294967296]}}"#));
    assert!(refused(r#"{"ActorMixer":{"children":{"items":[]}}}"#));
}

#[test]
fn actions_refer_to_their_target_unless_it_is_zero() {
    let b = body(r#"{"Action":{"external_id":9}}"#);
    assert_eq!(b.references_of(), vec![9]);
    assert_eq!(b.action_target(), Some(9));
    let none = body(r#"{"Action":{"external_id":0}}"#);
    assert_eq!(none.references_of(), Vec::<u32>::new());
    assert_eq!(none.action_target(), None);
}

#[test]
fn switches_and_layers_refer_to_more_than_their_children() {
    let switch = body(&format!(
        r#"{{"SwitchContainer":{{{NODE},"children":{{"items":[1]}},"switch_groups":[{{"nodes":[2,3]}},{{"nodes":[4]}}]}}}}"#
    ));
    assert_eq!(switch.references_of(), vec![1, 2, 3, 4]);
    let layer = body(&format!(
        r#"{{"LayerContainer":{{{NODE},"children":{{"items":[1]}},"layers":[{{"associated_children":[{{"associated_child_id":0}},{{"associated_child_id":7}}]}}]}}}}"#
    ));
    assert_eq!(layer.references_of(), vec![1, 0, 7]);
}

#[test]
fn routing_is_found_where_each_kind_keeps_it() {
    assert_eq!(mixer("[]").extract_routing(), (Some(11), Some(12)));
    let segment = body(&format!(
        r#"{{"MusicSegment":{{"music_node_params":{{{NODE},"children":{{"items":[8]}}}}}}}}"#
    ));
    assert_eq!(segment.extract_routing(), (Some(11), Some(12)));
    assert_eq!(segment.references_of(), vec![8]);
    let music = body(&format!(
        r#"{{"MusicSwitchContainer":{{"music_trans_node_params":{{"music_node_params":{{{NODE},"children":{{"items":[9]}}}}}}}}}}"#
    ));
    assert_eq!(music.extract_routing(), (Some(11), Some(12)));
    assert_eq!(music.references_of(), vec![9]);
    let bus = body(r#"{"Bus":{"initial_values":{"override_bus_id":3}}}"#);
    assert_eq!(bus.extract_routing(), (None, Some(3)));
    let state = body(r#"{"State":{}}"#);
    assert_eq!(state.extract_routing(), (None, None));
}

#[test]
fn children_are_added_once_and_in_order() {
    let mut b = mixer("[5,3]");
    assert!(b.add_child(5).is_ok());
    assert_eq!(b.children(), Some(vec![5, 3]));
    assert!(b.add_child(4).is_ok());
    assert_eq!(b.children(), Some(vec![3, 4, 5]));
    assert!(b.append_children(&vec![4, 1]).is_ok());
    assert_eq!(b.children(), Some(vec![1, 3, 4, 4, 5]));
}

#[test]
fn children_are_removed_wherever_they_stand() {
    let mut b = mixer("[3,4,4,5]");
    assert!(b.remove_child(4).is_ok());
    assert_eq!(b.children(), Some(vec![3, 5]));
    assert!(matches!(b.remove_child(4), Err(ChildError::NotThere)));
    let mut event = body(r#"{"Event":{"actions":[1]}}"#);
    assert!(matches!(event.add_child(1), Err(ChildError::NoChildren)));
    assert!(matches!(event.remove_child(1), Err(ChildError::NoChildren)));
    assert!(!event.has_children());
}

#[test]
fn adding_and_removing_a_child_changes_nothing() {
    let mut b = mixer("[1,3]");
    let before = text_of(&b);
    b.add_child(2).unwrap();
    b.remove_child(2).unwrap();
    assert_eq!(text_of(&b), before);
}

#[test]
fn audio_sources_are_those_that_are_set() {
    let sound = body(&format!(
        r#"{{"Sound":{{{NODE},"bank_source_data":{{"media_information":{{"source_id":77}}}}}}}}"#
    ));
    assert_eq!(sound.audio_sources(), vec![77]);
    let track = body(&format!(
        r#"{{"MusicTrack":{{{NODE},"sources":[{{"media_information":{{"source_id":0}}}},{{"media_information":{{"source_id":5}}}}]}}}}"#
    ));
    assert_eq!(track.audio_sources(), vec![5]);
    assert_eq!(mixer("[1]").audio_sources(), Vec::<u32>::new());
}

#[test]
fn renumbering_moves_references() {
    let mut b = mixer("[5,11]");
    b.renumber(11, 21);
    assert_eq!(b.children(), Some(vec![5, 21]));
    assert_eq!(b.extract_routing(), (Some(21), Some(12)));
}
