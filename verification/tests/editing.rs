use rewwise::bank::{HIRCObject, HIRCSection, Section, SectionBody, Soundbank};
use rewwise::body::HIRCObjectBody;
use rewwise::editor::{
    cmd_add_child, cmd_find, cmd_inspect, collect_wem_ids, copy_event, plan_copy,
    top_container_for_event,
};
use rewwise::error::EditError;
use rewwise::graph::{collect_dependencies, tree_lines};
use rewwise::ids::{hash_name, ObjectId};
use rewwise::index::HircIndex;
use rewwise::json::Json;
use rewwise::kind::BodyKind;
use rewwise::storage::ObjectSummary;

fn object(id: ObjectId, text: &str) -> HIRCObject {
    let body = HIRCObjectBody::from_json(Json::from_text(text).unwrap()).unwrap();
    HIRCObject { id, body }
}

fn named(name: &str, text: &str) -> HIRCObject {
    object(ObjectId::String(name.to_string()), text)
}

fn bank(objects: Vec<HIRCObject>) -> Soundbank {
    Soundbank {
        sections: vec![Section {
            magic: *b"HIRC",
            body: SectionBody::HIRC(HIRCSection { objects }),
        }],
    }
}

fn mixer(children: &str) -> String {
    format!(
        r#"{{"ActorMixer":{{"node_base_params":{{"direct_parent_id":0,"override_bus_id":0}},"children":{{"count":0,"items":{children}}}}}}}"#
    )
}

fn sound(source: u32) -> String {
    format!(
        r#"{{"Sound":{{"node_base_params":{{"direct_parent_id":0,"override_bus_id":0}},"bank_source_data":{{"media_information":{{"source_id":{source}}}}}}}}}"#
    )
}

fn event(actions: &str) -> String {
    format!(r#"{{"Event":{{"action_count":1,"actions":{actions}}}}}"#)
}

fn action(target: u32) -> String {
    format!(r#"{{"Action":{{"external_id":{target}}}}}"#)
}

/// An event, its action, a container that refers to itself, and two sounds.
fn source() -> Soundbank {
    bank(vec![
        named("Play_roar", &event("[20,21]")),
        object(ObjectId::Hash(20), &action(0)),
        object(ObjectId::Hash(21), &action(30)),
        object(ObjectId::Hash(30), &mixer("[41,40,30,99]")),
        object(ObjectId::Hash(40), &sound(1002)),
        object(ObjectId::Hash(41), &sound(1001)),
    ])
}

fn play_roar() -> u32 {
    hash_name("Play_roar")
}

#[test]
fn nearer_dependencies_come_first() {
    let sb = bank(vec![
        object(ObjectId::Hash(1), &mixer("[2,3]")),
        object(ObjectId::Hash(2), &mixer("[4]")),
        object(ObjectId::Hash(3), &mixer("[5]")),
        object(ObjectId::Hash(4), &mixer("[5,6]")),
        object(ObjectId::Hash(5), &sound(1)),
        object(ObjectId::Hash(6), &mixer("[1,3]")),
    ]);
    let index = HircIndex::build(&sb);
    assert_eq!(collect_dependencies(&index, 1), vec![1, 2, 3, 4, 5, 6]);
    assert_eq!(collect_dependencies(&index, 6), vec![6, 1, 3, 2, 5, 4]);
}

#[test]
fn dependencies_are_walked_breadth_first() {
    let sb = source();
    let index = HircIndex::build(&sb);
    assert_eq!(
        collect_dependencies(&index, play_roar()),
        vec![play_roar(), 20, 21, 30, 41, 40]
    );
    assert_eq!(collect_dependencies(&index, 99), Vec::<u32>::new());
}

#[test]
fn trees_mark_cycles_and_strangers() {
    let sb = source();
    let index = HircIndex::build(&sb);
    assert_eq!(
        tree_lines(&index, 21),
        vec![
            "21  Action  —",
            "  30  ActorMixer  —",
            "    41  Sound  —",
            "    40  Sound  —",
            "    30  ActorMixer  —  (cycle)",
            "    99 (external — not in this bank)",
        ]
    );
    assert_eq!(
        tree_lines(&index, play_roar())[0],
        format!("{}  Event  Play_roar", play_roar())
    );
}

#[test]
fn objects_are_meant_by_name_or_number() {
    let sb = source();
    let index = HircIndex::build(&sb);
    assert_eq!(index.resolve("Play_roar"), Some(play_roar()));
    assert_eq!(index.resolve("play_roar"), None);
    assert_eq!(index.resolve("30"), Some(30));
    assert_eq!(index.resolve("0x1e"), Some(30));
    assert_eq!(index.resolve("0X0000001E"), Some(30));
    for target in ["Play_roar", "30", "0x1e", "31", "x"] {
        assert_eq!(index.resolve(target), sb.resolve_target(target));
    }
    assert_eq!(index.resolve("31"), None);
    assert!(index.contains(40));
    assert!(!index.contains(42));
}

#[test]
fn of_objects_with_one_hash_the_last_is_found() {
    let sb = bank(vec![object(ObjectId::Hash(5), &sound(1)), object(ObjectId::Hash(5), &sound(2))]);
    let index = HircIndex::build(&sb);
    assert_eq!(index.get(5).unwrap().body.audio_sources(), vec![2]);
}

#[test]
fn a_number_that_is_a_name_is_found_by_name() {
    let sb = bank(vec![named("12", &event("[]"))]);
    let index = HircIndex::build(&sb);
    assert_eq!(index.resolve("12"), Some(hash_name("12")));
}

#[test]
fn the_container_of_an_event_is_what_it_plays() {
    let sb = source();
    let index = HircIndex::build(&sb);
    assert_eq!(top_container_for_event(&index, play_roar()), Some(30));
    assert_eq!(top_container_for_event(&index, 30), None);
    let stop = r#"{"Action":{"action_type":258,"external_id":5}}"#;
    let play = r#"{"Action":{"action_type":1027,"external_id":6}}"#;
    let both = bank(vec![
        named("Play", &event("[1,2]")),
        named("Stop", &event("[1]")),
        object(ObjectId::Hash(1), stop),
        object(ObjectId::Hash(2), play),
    ]);
    let index = HircIndex::build(&both);
    assert_eq!(top_container_for_event(&index, hash_name("Play")), Some(6));
    assert_eq!(top_container_for_event(&index, hash_name("Stop")), Some(5));
    let broken = bank(vec![named("e", &event("[1,2]")), object(ObjectId::Hash(2), &action(9))]);
    let index = HircIndex::build(&broken);
    assert_eq!(top_container_for_event(&index, hash_name("e")), None);
}

#[test]
fn audio_files_are_collected_once_and_in_order() {
    let sb = bank(vec![
        object(ObjectId::Hash(1), &sound(9)),
        object(ObjectId::Hash(2), &sound(3)),
        object(ObjectId::Hash(3), &sound(9)),
        object(ObjectId::Hash(4), &sound(0)),
    ]);
    let index = HircIndex::build(&sb);
    assert_eq!(collect_wem_ids(&index, &vec![1, 2, 3, 4, 5]), vec![3, 9]);
}

#[test]
fn a_plan_tells_what_is_new() {
    let dst = bank(vec![object(ObjectId::Hash(40), &sound(7))]);
    let plan = plan_copy(&source(), &dst, "Play_roar").unwrap();
    assert_eq!(plan.event_id, play_roar());
    assert_eq!(plan.wem_ids, vec![1001, 1002]);
    let lines = plan.lines();
    assert_eq!(lines[0], "Would copy 6 HIRC objects (5 new, 1 already in dst):");
    assert_eq!(
        lines[1],
        format!("  [ new] {:>12}  {:<32}  {}", play_roar(), "Event", "Play_roar")
    );
    assert_eq!(lines[6], format!("  [skip] {:>12}  {:<32}  {}", 40, "Sound", "—"));
    assert_eq!(lines[7], "Plus 2 WEM(s): {1001, 1002}");
    assert_eq!(lines.len(), 8);
}

#[test]
fn a_plan_without_audio_says_so() {
    let src = bank(vec![named("e", &event("[]"))]);
    let plan = plan_copy(&src, &bank(vec![]), "e").unwrap();
    assert_eq!(plan.lines()[2], "Plus 0 WEM(s): {}");
}

#[test]
fn copying_an_event_overwrites_nothing() {
    let dst = bank(vec![
        object(ObjectId::Hash(40), &sound(7)),
        named("Mixer", &mixer("[50,10]")),
    ]);
    let done = copy_event(&source(), dst, "Play_roar", Some("Mixer")).unwrap();
    assert_eq!(done.added, 5);
    assert_eq!(done.link, Some((hash_name("Mixer"), 30)));
    assert_eq!(done.wem_ids, vec![1001, 1002]);
    let objects = done.soundbank.first_objects().unwrap();
    assert_eq!(objects.len(), 7);
    assert_eq!(objects[0].body.audio_sources(), vec![7]);
    assert_eq!(objects[1].body.children(), Some(vec![10, 30, 50]));
    let hashes: Vec<u32> = objects.iter().map(|o| o.id.as_hash()).collect();
    assert_eq!(hashes, vec![40, hash_name("Mixer"), play_roar(), 20, 21, 30, 41]);
    assert_eq!(objects[5].body.to_json().to_text().unwrap(), mixer("[41,40,30,99]"));
}

#[test]
fn copies_are_refused_with_a_reason() {
    let dst = || bank(vec![named("Mixer", &mixer("[]")), named("e", &event("[]"))]);
    let copy = |event: &str, with: Option<&str>| copy_event(&source(), dst(), event, with);
    match copy("Nobody", None) {
        Err(EditError::EventNotFound(text)) => assert_eq!(text, "Nobody"),
        other => panic!("{other:?}"),
    }
    assert!(matches!(copy("30", None), Err(EditError::NotAnEvent(BodyKind::ActorMixer))));
    match copy("Play_roar", Some("Nobody")) {
        Err(EditError::ParentNotFound(text)) => assert_eq!(text, "Nobody"),
        other => panic!("{other:?}"),
    }
    assert!(matches!(
        copy("Play_roar", Some("e")),
        Err(EditError::NoChildren(BodyKind::Event))
    ));
    let silent = bank(vec![named("s", &event("[]"))]);
    assert!(matches!(
        copy_event(&silent, dst(), "s", Some("Mixer")),
        Err(EditError::NoContainer)
    ));
    assert!(matches!(
        copy_event(&source(), Soundbank { sections: vec![] }, "Play_roar", None),
        Err(EditError::NoHircInDestination)
    ));
}

#[test]
fn children_are_added_by_name_or_number() {
    let mut sb = bank(vec![named("Mixer", &mixer("[5]")), object(ObjectId::Hash(3), &sound(1))]);
    assert_eq!(cmd_add_child(&mut sb, "Mixer", "0x3").unwrap(), (hash_name("Mixer"), 3));
    assert_eq!(sb.first_objects().unwrap()[0].body.children(), Some(vec![3, 5]));
    assert!(matches!(cmd_add_child(&mut sb, "x", "3"), Err(EditError::NoSuchParent(_))));
    assert!(matches!(cmd_add_child(&mut sb, "Mixer", "x"), Err(EditError::NoSuchChild(_))));
    assert!(matches!(
        cmd_add_child(&mut sb, "3", "Mixer"),
        Err(EditError::NoChildren(BodyKind::Sound))
    ));
    assert_eq!(sb.first_objects().unwrap().len(), 2);
}

#[test]
fn found_objects_are_listed_in_columns() {
    let row = ObjectSummary {
        id_hash: 7,
        label: None,
        body_kind: "Sound".to_string(),
        direct_parent: Some(9),
        override_bus: None,
    };
    let other = ObjectSummary {
        id_hash: 4294967295,
        label: Some("Play_x".to_string()),
        body_kind: "Event".to_string(),
        direct_parent: None,
        override_bus: None,
    };
    assert_eq!(
        cmd_find(&vec![row, other]),
        vec![
            format!("{:>12}  {:<32}  parent={:<12}  {}", 7, "Sound", "9", "—"),
            format!("{:>12}  {:<32}  parent={:<12}  {}", 4294967295u32, "Event", "—", "Play_x"),
        ]
    );
    assert_eq!(cmd_find(&vec![]), vec!["(no matches)"]);
}

#[test]
fn objects_are_inspected() {
    let sb = bank(vec![named("e", &event("[7]"))]);
    assert_eq!(
        cmd_inspect(&sb, "e").unwrap(),
        vec![
            format!("# id: {}  (e)", hash_name("e")),
            "{\n  \"Event\": {\n    \"action_count\": 1,\n    \"actions\": [\n      7\n    ]\n  }\n}"
                .to_string(),
        ]
    );
    assert!(matches!(cmd_inspect(&sb, "x"), Err(EditError::NoSuchObject(_))));
}
