use std::time::Duration;

use rewwise::bank::{HIRCObject, HIRCSection, Section, SectionBody, Soundbank};
use rewwise::bench::{make_new_sound, make_new_sounds, now, Phases};
use rewwise::body::HIRCObjectBody;
use rewwise::compare::{
    common_prefix, compare_banks, count_different, mixer_children, subtract_ids,
};
use rewwise::ids::{hash_name, FNVDictionary, ObjectId};
use rewwise::json::Json;
use rewwise::patch::{make_new_row, patch_bank, patch_mixer_body, PatchError};
use rewwise::session::SoundbankSession;

fn tree(text: &str) -> Json {
    Json::from_text(text).unwrap()
}

fn object(id: ObjectId, text: &str) -> HIRCObject {
    HIRCObject { id, body: HIRCObjectBody::from_json(tree(text)).unwrap() }
}

fn bank(objects: Vec<HIRCObject>) -> Soundbank {
    Soundbank {
        sections: vec![Section {
            magic: *b"HIRC",
            body: SectionBody::HIRC(HIRCSection { objects }),
        }],
    }
}

fn mixer(children: &str) -> String {
    format!(
        r#"{{"ActorMixer":{{"node_base_params":{{"direct_parent_id":0,"override_bus_id":0}},"children":{{"count":0,"items":{children}}}}}}}"#
    )
}

#[test]
fn a_new_sound_has_six_objects() {
    let new = make_new_sound(7, 99, 1000);
    assert_eq!(new.sc_id, hash_name("Cntr_new_000007"));
    assert_eq!(new.objects.len(), 6);
    let texts: Vec<String> = new.objects.iter().map(|o| o.to_text().unwrap()).collect();
    assert!(texts[0].starts_with(r#"{"body_type":2,"size":0,"id":{"String":"Snd_new_000007"},"body":{"Sound":{"bank_source_data":{"plugin":"PCM","source_type":"Embedded","media_information":{"source_id":1000,"#));
    assert!(texts[1].contains(r#""transition_time":0.0,"#));
    assert!(texts[1].contains(r#""direct_parent_id":99,"#));
    assert_eq!(
        texts[2],
        format!(
            r#"{{"body_type":3,"size":0,"id":{{"String":"Action_play_new_000007"}},"body":{{"Action":{{"action_type":1027,"external_id":{},"is_bus":0,"prop_bundle":[],"ranged_modifiers":{{"count":0,"entries":[]}},"params":{{"Play":{{"fade_curve":0,"bank_id":0}}}}}}}}}}"#,
            new.sc_id
        )
    );
    assert!(texts[3].contains(r#""action_type":258,"#));
    assert_eq!(
        texts[5],
        format!(
            r#"{{"body_type":4,"size":0,"id":{{"String":"Stop_new_000007"}},"body":{{"Event":{{"action_count":1,"actions":[{}]}}}}}}"#,
            hash_name("Action_stop_new_000007")
        )
    );
}

#[test]
fn new_sounds_are_numbered_on() {
    let (objects, containers) = make_new_sounds(5, 2, 99, 1000);
    assert_eq!(objects.len(), 12);
    assert_eq!(containers, vec![hash_name("Cntr_new_000005"), hash_name("Cntr_new_000006")]);
    assert!(objects[6].to_text().unwrap().contains(r#""source_id":1001"#));
    assert_eq!(make_new_sounds(0, 0, 1, 1).0.len(), 0);
}

#[test]
fn labels_of_new_sounds_differ() {
    let (a, _) = make_new_sounds(0, 12, 99, 1000);
    let (b, _) = make_new_sounds(999_999, 2, 99, 1000);
    let mut labels: Vec<String> = Vec::new();
    for object in a.iter().chain(b.iter()) {
        let text = object.get("id").unwrap().get("String").unwrap().to_text().unwrap();
        assert!(!labels.contains(&text), "{text}");
        labels.push(text);
    }
    assert_eq!(labels.len(), 14 * 6);
    assert!(labels.contains(&"\"Snd_new_1000000\"".to_string()));
}

#[test]
fn new_sounds_can_be_added_to_a_bank() {
    let (objects, containers) = make_new_sounds(0, 3, 7, 900_000_000);
    let sb = bank(vec![object(ObjectId::Hash(7), &mixer("[]"))]);
    let mut session = SoundbankSession::open("x.db".to_string(), sb, vec![]);
    let mutation = session.add_hirc_subgraph(7, objects, containers.clone()).unwrap();
    let writes = mutation.writes(&FNVDictionary::new(), 1).unwrap();
    assert_eq!((writes.updates.len(), writes.inserts.len()), (1, 18));
    assert_eq!(writes.inserts[17].ord, 18);
    session.commit(mutation);
    let all = session.soundbank().first_objects().unwrap();
    assert_eq!(all.len(), 19);
    let mut sorted = containers;
    sorted.sort();
    assert_eq!(mixer_children(all, 7), sorted);
}

#[test]
fn phases_are_kept_in_order() {
    let started = now();
    let mut phases = Phases::new();
    assert!(phases.rows().is_empty());
    phases.record("a".to_string(), Duration::from_millis(5));
    phases.record("b".to_string(), started.elapsed());
    assert_eq!(phases.rows()[0], ("a".to_string(), Duration::from_millis(5)));
    assert_eq!(phases.rows()[1].0, "b");
    assert!(now() >= started);
}

#[test]
fn banks_are_compared_by_their_hashes() {
    let state = r#"{"State":{}}"#;
    let a = bank(vec![
        object(ObjectId::Hash(9), state),
        object(ObjectId::Hash(1), state),
        object(ObjectId::Hash(9), state),
    ]);
    let b = bank(vec![object(ObjectId::Hash(1), state), object(ObjectId::Hash(4), state)]);
    let c = compare_banks(&a, &b);
    assert_eq!((c.count_a, c.count_b), (3, 2));
    assert_eq!((c.only_a, c.only_b), (vec![9], vec![4]));
}

#[test]
fn lists_are_compared_as_sets() {
    assert_eq!(subtract_ids(&vec![5, 3, 5, 1], &vec![3]), vec![1, 5]);
    assert_eq!(count_different(&vec![1, 2, 2], &vec![2, 3, 4]), 3);
    assert_eq!(common_prefix(&vec![1, 2, 3], &vec![1, 2, 4]), 2);
    assert_eq!(common_prefix(&vec![1, 2], &vec![1, 2, 4]), 2);
    assert_eq!(common_prefix(&vec![], &vec![1]), 0);
}

#[test]
fn children_of_music_are_not_compared() {
    let segment = r#"{"MusicSegment":{"music_node_params":{"node_base_params":{"direct_parent_id":0,"override_bus_id":0},"children":{"items":[8]}}}}"#;
    let objects = vec![object(ObjectId::Hash(1), &mixer("[4,2]")), object(ObjectId::Hash(2), segment)];
    assert_eq!(mixer_children(&objects, 1), vec![4, 2]);
    assert_eq!(mixer_children(&objects, 2), Vec::<u32>::new());
    assert_eq!(mixer_children(&objects, 3), Vec::<u32>::new());
}

#[test]
fn stored_mixers_are_patched() {
    let body = tree(r#"{"ActorMixer":{"children":{"count":2,"items":[9,4]}}}"#);
    let patched = patch_mixer_body(body, &vec![7, 4]).unwrap();
    assert_eq!(
        patched.to_text().unwrap(),
        r#"{"ActorMixer":{"children":{"count":4,"items":[4,4,7,9]}}}"#
    );
    let bare = tree(r#"{"ActorMixer":{"children":{"items":["x",3,"y"]}}}"#);
    assert_eq!(
        patch_mixer_body(bare, &vec![1]).unwrap().to_text().unwrap(),
        r#"{"ActorMixer":{"children":{"items":["x","y",1,3]}}}"#
    );
    assert!(matches!(patch_mixer_body(tree("{}"), &vec![1]), Err(PatchError::NoChildren)));
}

#[test]
fn new_objects_have_rows() {
    let new = make_new_sound(1, 99, 1000);
    let row = make_new_row(&new.objects[1]).unwrap();
    assert_eq!((row.label.as_str(), row.id_hash), ("Cntr_new_000001", new.sc_id));
    assert_eq!((row.body_kind.as_str(), row.body_type), ("RandomSequenceContainer", 5));
    assert_eq!((row.direct_parent, row.override_bus), (Some(99), Some(0)));
    assert!(row.body_json.starts_with(r#"{"RandomSequenceContainer":{"node_base_params":"#));
    let odd = make_new_row(&tree(r#"{"body":{"Bus":{}}}"#)).unwrap();
    assert_eq!((odd.label.as_str(), odd.body_type, odd.direct_parent), ("", 0, None));
    assert!(matches!(make_new_row(&tree(r#"{"body":{}}"#)), Err(PatchError::NoBody)));
    assert!(matches!(make_new_row(&tree("{}")), Err(PatchError::NoBody)));
}

#[test]
fn rows_that_no_text_holds_are_refused() {
    let body = Json::Object(vec![("Bus".to_string(), Json::Decimal("x".to_string()))]);
    let object = Json::Object(vec![("body".to_string(), body)]);
    assert!(matches!(make_new_row(&object), Err(PatchError::Json(_))));
}

#[test]
fn whole_banks_are_patched() {
    let text = r#"{"sections":[{},{"body":{"HIRC":{"object_count":1,"objects":[{"id":{"Hash":7},"body":{"ActorMixer":{"children":{"count":1,"items":[5]}}}}]}}}]}"#;
    let patched = patch_bank(tree(text), 7, &vec![2], vec![tree(r#"{"new":1}"#)]).unwrap();
    assert_eq!(
        patched.to_text().unwrap(),
        r#"{"sections":[{},{"body":{"HIRC":{"object_count":2,"objects":[{"id":{"Hash":7},"body":{"ActorMixer":{"children":{"count":2,"items":[2,5]}}}},{"new":1}]}}}]}"#
    );
    assert!(matches!(patch_bank(tree(text), 8, &vec![], vec![]), Err(PatchError::MixerNotFound)));
    assert!(matches!(
        patch_bank(tree(r#"{"sections":[{}]}"#), 7, &vec![], vec![]),
        Err(PatchError::MissingObjects)
    ));
}
