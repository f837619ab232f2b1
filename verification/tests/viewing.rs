use rewwise::bank::{HIRCObject, HIRCSection, Section, SectionBody, Soundbank};
use rewwise::body::HIRCObjectBody;
use rewwise::error::EditError;
use rewwise::ids::{hash_name, ObjectId};
use rewwise::json::Json;
use rewwise::json_text::JsonError;
use rewwise::kind::BodyKind;
use rewwise::pages::{
    count_line, make_rows, match_word, missing_text, object_details, object_href, page_status,
    search_filters, search_kinds, wrap_doctype, CountLine, SEARCH_CAP,
};
use rewwise::storage::ObjectSummary;
use rewwise::viewer::{do_add_child, do_edit_body, do_edit_id, do_remove_child};

fn object(id: ObjectId, text: &str) -> HIRCObject {
    let body = HIRCObjectBody::from_json(Json::from_text(text).unwrap()).unwrap();
    HIRCObject { id, body }
}

fn hirc(objects: Vec<HIRCObject>) -> Section {
    Section { magic: *b"HIRC", body: SectionBody::HIRC(HIRCSection { objects }) }
}

fn mixer(parent: u32, children: &str) -> String {
    format!(
        r#"{{"ActorMixer":{{"node_base_params":{{"direct_parent_id":{parent},"override_bus_id":0}},"children":{{"count":0,"items":{children}}}}}}}"#
    )
}

fn sample() -> Soundbank {
    Soundbank {
        sections: vec![
            hirc(vec![
                object(ObjectId::String("Mixer".to_string()), &mixer(5, "[5,3]")),
                object(ObjectId::Hash(5), &mixer(0, "[]")),
                object(ObjectId::Hash(6), r#"{"Action":{"external_id":5,"bank":5}}"#),
            ]),
            hirc(vec![object(ObjectId::Hash(8), &mixer(5, "[]"))]),
        ],
    }
}

fn body_text(sb: &Soundbank, id: u32) -> String {
    sb.find_object(id).unwrap().body.to_json().to_text().unwrap()
}

#[test]
fn children_are_added_from_any_section() {
    let mut sb = sample();
    do_add_child(&mut sb, "Mixer", "8").unwrap();
    assert_eq!(body_text(&sb, hash_name("Mixer")), mixer(5, "[3,5,8]"));
    assert!(matches!(do_add_child(&mut sb, "x", "8"), Err(EditError::NoSuchParent(_))));
    assert!(matches!(do_add_child(&mut sb, "Mixer", "x"), Err(EditError::NoSuchChild(_))));
    assert!(matches!(do_add_child(&mut sb, "8", "5"), Err(EditError::NotInHirc(8))));
    assert!(matches!(
        do_add_child(&mut sb, "6", "5"),
        Err(EditError::NoChildren(BodyKind::Action))
    ));
}

#[test]
fn children_are_removed_though_they_are_nowhere() {
    let mut sb = sample();
    do_remove_child(&mut sb, "Mixer", "+3").unwrap();
    assert_eq!(body_text(&sb, hash_name("Mixer")), mixer(5, "[5]"));
    assert!(matches!(do_remove_child(&mut sb, "Mixer", "3"), Err(EditError::NotAChild(3))));
    assert!(matches!(do_remove_child(&mut sb, "Mixer", "x"), Err(EditError::BadChildId(_))));
    assert!(matches!(do_remove_child(&mut sb, "x", "3"), Err(EditError::NoSuchParent(_))));
    assert!(matches!(do_remove_child(&mut sb, "6", "3"), Err(EditError::NoChildren(_))));
}

#[test]
fn bodies_are_replaced_once_they_can_be_read() {
    let mut sb = sample();
    let before = body_text(&sb, 6);
    assert!(matches!(
        do_edit_body(&mut sb, "6", "{"),
        Err(EditError::Json(JsonError::NotJson))
    ));
    assert!(matches!(
        do_edit_body(&mut sb, "6", r#"{"Action":{}}"#),
        Err(EditError::Json(JsonError::NotABody))
    ));
    assert!(matches!(
        do_edit_body(&mut sb, "x", r#"{"State":{}}"#),
        Err(EditError::NoSuchObject(_))
    ));
    assert_eq!(body_text(&sb, 6), before);
    do_edit_body(&mut sb, "6", r#"{"State":{"a":1}}"#).unwrap();
    assert_eq!(body_text(&sb, 6), r#"{"State":{"a":1}}"#);
}

#[test]
fn names_with_the_same_hash_need_no_renumbering() {
    let name = "Play_x";
    let mut sb = Soundbank {
        sections: vec![hirc(vec![object(ObjectId::Hash(hash_name(name)), r#"{"State":{}}"#)])],
    };
    let target = hash_name(name).to_string();
    assert_eq!(do_edit_id(&mut sb, &target, name, false).unwrap(), name);
    assert_eq!(sb.lookup_label(hash_name(name)), Some(name.to_string()));
}

#[test]
fn renumbering_rewrites_every_reference() {
    let mut sb = sample();
    assert_eq!(do_edit_id(&mut sb, "5", "0x15", true).unwrap(), "21");
    assert!(!sb.has_id(5));
    assert!(sb.has_id(21));
    assert_eq!(body_text(&sb, hash_name("Mixer")), mixer(21, "[21,3]"));
    assert_eq!(body_text(&sb, 6), r#"{"Action":{"external_id":21,"bank":21}}"#);
    assert_eq!(body_text(&sb, 8), mixer(21, "[]"));
}

#[test]
fn renumbering_rewrites_an_object_that_refers_to_itself() {
    let mut sb = Soundbank {
        sections: vec![hirc(vec![object(ObjectId::Hash(5), &mixer(0, "[5,6]"))])],
    };
    do_edit_id(&mut sb, "5", "7", true).unwrap();
    assert_eq!(body_text(&sb, 7), mixer(0, "[7,6]"));
}

#[test]
fn ids_that_would_break_the_bank_are_refused() {
    let mut sb = sample();
    assert!(matches!(do_edit_id(&mut sb, "5", "", true), Err(EditError::EmptyId)));
    assert!(matches!(do_edit_id(&mut sb, "x", "9", true), Err(EditError::NoSuchObject(_))));
    assert!(matches!(
        do_edit_id(&mut sb, "5", "9", false),
        Err(EditError::HashWouldChange { from: 5, to: 9 })
    ));
    assert!(matches!(do_edit_id(&mut sb, "5", "8", true), Err(EditError::HashTaken(8))));
    assert!(matches!(do_edit_id(&mut sb, "8", "9", true), Err(EditError::NotInHirc(8))));
    assert_eq!(body_text(&sb, hash_name("Mixer")), mixer(5, "[5,3]"));
}

#[test]
fn a_bank_without_objects_cannot_be_edited() {
    let mut sb = Soundbank { sections: vec![] };
    assert!(matches!(do_edit_body(&mut sb, "1", r#"{"State":{}}"#), Err(EditError::NoSuchObject(_))));
    assert!(matches!(
        rewwise::edits::add_child_to(&mut sb, 1, 2),
        Err(EditError::NoHirc)
    ));
}

#[test]
fn targets_are_found_in_all_sections() {
    let sb = sample();
    assert_eq!(sb.resolve_target("Mixer"), Some(hash_name("Mixer")));
    assert_eq!(sb.resolve_target("8"), Some(8));
    assert_eq!(sb.resolve_target("0X8"), Some(8));
    assert_eq!(sb.resolve_target("9"), None);
    assert_eq!(sb.lookup_kind(8), Some(BodyKind::ActorMixer));
    assert_eq!(sb.lookup_kind(9), None);
}

#[test]
fn pages_show_objects() {
    let sb = sample();
    let page = object_details(&sb, hash_name("Mixer"), None, false).unwrap();
    assert_eq!((page.kind, page.title.as_str(), page.target.as_str()), ("ActorMixer", "Mixer", "Mixer"));
    let parent = page.parent.unwrap();
    assert_eq!((parent.id, parent.kind), (5, "ActorMixer"));
    assert_eq!(parent.link.href, "/object/5");
    assert_eq!(parent.link.text, "0x00000005");
    assert!(page.can_add_child);
    assert!(!page.editor_open);
    assert_eq!(page.references.len(), 2);
    assert_eq!((page.references[1].id, page.references[1].kind), (3, "external"));
    assert!(page.references[1].removable && page.references[1].link.muted);
    assert_eq!(page.body_lines, page.body_json.lines().count());
    assert_eq!(page.body_bytes, page.body_json.len());
    assert!(page.body_lines > 5);
    let action = object_details(&sb, 6, Some("ä\nb".to_string()), true).unwrap();
    assert_eq!((action.title.as_str(), action.target.as_str()), ("0x00000006", "6"));
    assert_eq!((action.body_lines, action.body_bytes), (2, 4));
    assert!(action.editor_open && !action.can_add_child && action.parent.is_none());
    assert!(!action.references[0].removable);
    assert!(object_details(&sb, 99, None, false).is_none());
}

#[test]
fn bodies_that_are_saved_unedited_stay() {
    let mut sb = sample();
    for id in [hash_name("Mixer"), 5, 6] {
        let before = body_text(&sb, id);
        let page = object_details(&sb, id, None, false).unwrap();
        assert_ne!(page.body_json, before);
        do_edit_body(&mut sb, &page.target, &page.body_json).unwrap();
        assert_eq!(body_text(&sb, id), before);
    }
}

#[test]
fn zero_is_no_parent() {
    let sb = sample();
    assert!(object_details(&sb, 5, None, false).unwrap().parent.is_none());
}

#[test]
fn lists_link_to_objects() {
    let rows = make_rows(&vec![
        ObjectSummary {
            id_hash: 7,
            label: None,
            body_kind: "Sound".to_string(),
            direct_parent: Some(0),
            override_bus: None,
        },
        ObjectSummary {
            id_hash: 8,
            label: Some("x".to_string()),
            body_kind: "Event".to_string(),
            direct_parent: Some(7),
            override_bus: None,
        },
    ]);
    assert_eq!((rows[0].parent.as_str(), rows[0].link.href.as_str()), ("", "/object/7"));
    assert_eq!((rows[0].link.text.as_str(), rows[0].link.muted), ("0x00000007", true));
    assert_eq!((rows[1].parent.as_str(), rows[1].link.href.as_str()), ("7", "/object/x"));
    assert_eq!((rows[1].link.text.as_str(), rows[1].link.muted), ("x", false));
}

#[test]
fn counts_tell_what_is_shown() {
    assert_eq!(count_line(0, 0), CountLine::NoMatches);
    assert_eq!(count_line(500, 501), CountLine::Truncated { returned: 500, total: 501 });
    assert_eq!(count_line(3, 3), CountLine::All { total: 3 });
    assert_eq!((match_word(1), match_word(2)), ("match", "matches"));
    assert_eq!(SEARCH_CAP, 500);
}

#[test]
fn empty_filters_are_none() {
    assert_eq!(search_filters("", ""), (None, None));
    assert_eq!(
        search_filters("roar", "Event"),
        (Some("Event".to_string()), Some("%roar%".to_string()))
    );
    assert_eq!(
        search_filters("100%_\\x", "a_b"),
        (Some("a\\_b".to_string()), Some("%100\\%\\_\\\\x%".to_string()))
    );
    assert_eq!(search_kinds().len(), 20);
    assert_eq!(search_kinds()[0].name(), "Event");
}

#[test]
fn pages_have_a_status_and_a_path() {
    assert_eq!(page_status(false, true), 404);
    assert_eq!(page_status(true, true), 400);
    assert_eq!(page_status(true, false), 200);
    assert_eq!(object_href("Play_x"), "/object/Play_x");
    assert_eq!(wrap_doctype("<p>"), "<!DOCTYPE html><p>");
    assert_eq!(missing_text(0, "x"), "x");
    assert_eq!(missing_text(0, ""), "0");
}

#[test]
fn links_lead_to_their_objects() {
    let sb = sample();
    for id in [hash_name("Mixer"), 5, 6, 8] {
        let page = object_details(&sb, id, None, false).unwrap();
        assert_eq!(sb.resolve_target(&page.target), Some(id));
    }
    let mut sb = sample();
    let link = do_edit_id(&mut sb, "5", "0xnumber", true).unwrap();
    assert_eq!(sb.resolve_target(&link), Some(hash_name("0xnumber")));
}

#[test]
fn links_after_a_rename_lead_to_the_object() {
    for new_id in ["Renamed", "77", "0x4d", "5x", "0xzz"] {
        let mut sb = sample();
        let link = do_edit_id(&mut sb, "6", new_id, true).unwrap();
        let hash = sb.resolve_target(&link).unwrap();
        assert_eq!(sb.lookup_kind(hash), Some(BodyKind::Action), "{new_id}");
    }
    let mut sb = sample();
    let link = do_edit_id(&mut sb, "6", "+5", true).unwrap();
    assert_eq!(link, "+5");
    assert_eq!(sb.resolve_target(&link), Some(5));
}
