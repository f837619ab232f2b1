use rewwise::bank::{
    HIRCObject, HIRCSection, Section, SectionBody, Soundbank,
};
use rewwise::body::HIRCObjectBody;
use rewwise::error::StorageError;
use rewwise::ids::{hash_name, parse_dictionary, FNVDictionary, ObjectId};
use rewwise::json::Json;
use rewwise::json_text::JsonError;
use rewwise::rows::{
    read_soundbank, string_to_magic, write_soundbank, SectionRow, StoredObject, StoredSection,
};
use rewwise::session::{HircEdits, SoundbankSession};
use rewwise::storage::{
    check_schema, conversion_of, count_objects, count_objects_filtered, created_name, export_bnk,
    find_id_by_label, import_bnk, list_children_of, list_objects, list_objects_capped, Conversion,
    ObjectSummary, APPLICATION_ID, SCHEMA_VERSION,
};

fn dict() -> FNVDictionary {
    FNVDictionary::new()
}

fn tree(text: &str) -> Json {
    Json::from_text(text).unwrap()
}

fn object(id: ObjectId, text: &str) -> HIRCObject {
    HIRCObject { id, body: HIRCObjectBody::from_json(tree(text)).unwrap() }
}

fn named(name: &str, text: &str) -> HIRCObject {
    object(ObjectId::String(name.to_string()), text)
}

fn header() -> Section {
    let text = r#"{"BKHD":{"version":134,"bank_id":1,"language_fnv_hash":0,"wem_alignment":16,"project_id":0,"padding":[]}}"#;
    Section { magic: *b"BKHD", body: SectionBody::from_json(tree(text)).unwrap() }
}

fn hirc(objects: Vec<HIRCObject>) -> Section {
    Section { magic: *b"HIRC", body: SectionBody::HIRC(HIRCSection { objects }) }
}

fn tiny_bank() -> Soundbank {
    Soundbank { sections: vec![header(), hirc(vec![])] }
}

/// What the database gives back of the rows that were written to it.
fn select(rows: Vec<SectionRow>) -> Vec<StoredSection> {
    rows.into_iter()
        .map(|row| StoredSection {
            magic: row.magic,
            body_json: row.body_json,
            objects: row.objects.into_iter().map(|o| o.stored).collect(),
        })
        .collect()
}

fn shape(bank: &Soundbank) -> Vec<String> {
    let mut out = Vec::new();
    for section in &bank.sections {
        out.push(format!("{:?}", section.magic));
        match &section.body {
            SectionBody::HIRC(h) => {
                for o in &h.objects {
                    out.push(format!("{:?} {}", o.id, o.body.to_json().to_text().unwrap()));
                }
            }
            SectionBody::DIDX(d) => out.push(format!("{:?}", d)),
            SectionBody::DATA(d) => out.push(format!("{:?}", d)),
            other => out.push(other.to_json().unwrap().to_text().unwrap()),
        }
    }
    out
}

const EVENT: &str = r#"{"Event":{"action_count":1,"actions":[5]}}"#;
const MIXER: &str = r#"{"ActorMixer":{"node_base_params":{"direct_parent_id":1,"override_bus_id":2},"children":{"count":1,"items":[9]}}}"#;

#[test]
fn open_and_export_round_trip() {
    let bank = tiny_bank();
    let rows = write_soundbank(&bank, &dict()).unwrap();
    let loaded = read_soundbank(select(rows)).unwrap();
    let mut session = SoundbankSession::open("session_smoke.db".to_string(), loaded, vec![]);
    assert_eq!(session.db_path(), "session_smoke.db");
    assert!(session.export_fits());
    let splice = session.begin_export().unwrap();
    assert_eq!(shape(session.soundbank()), shape(&bank));
    session.end_export(splice);
    assert_eq!(shape(session.soundbank()), shape(&bank));
}

#[test]
fn banks_are_read_back_as_they_were_written() {
    let stid = SectionBody::from_json(tree(r#"{"STID":[1.5,"x"]}"#)).unwrap();
    let bank = Soundbank {
        sections: vec![
            header(),
            hirc(vec![named("Play_x", EVENT), object(ObjectId::Hash(7), MIXER)]),
            Section { magic: *b"STID", body: stid },
        ],
    };
    let rows = write_soundbank(&bank, &parse_dictionary("")).unwrap();
    let back = read_soundbank(select(rows)).unwrap();
    assert_eq!(shape(&back), shape(&bank));
}

#[test]
fn rows_hold_the_columns_of_objects() {
    let bank = Soundbank {
        sections: vec![
            header(),
            hirc(vec![
                named("Play_x", EVENT),
                object(ObjectId::Hash(hash_name("mixer")), MIXER),
                object(ObjectId::Hash(8), EVENT),
            ]),
        ],
    };
    let rows = write_soundbank(&bank, &parse_dictionary("Mixer\n")).unwrap();
    assert_eq!(rows.len(), 2);
    assert_eq!((rows[0].ord, rows[0].magic.as_str()), (0, "BKHD"));
    assert!(rows[0].body_json.as_ref().unwrap().starts_with(r#"{"BKHD":{"version":134"#));
    assert_eq!(rows[1].body_json, None);
    let first = &rows[1].objects[0];
    assert_eq!((first.ord, first.stored.id_kind.as_str()), (0, "String"));
    assert_eq!(first.stored.id_value, "Play_x");
    assert_eq!(first.label, Some("Play_x".to_string()));
    assert_eq!(first.id_hash, hash_name("Play_x"));
    assert_eq!((first.body_kind, first.body_type), ("Event", 4));
    assert_eq!((first.direct_parent, first.override_bus), (None, None));
    assert_eq!(first.stored.body_json, EVENT);
    let second = &rows[1].objects[1];
    assert_eq!((second.ord, second.stored.id_kind.as_str()), (1, "Hash"));
    assert_eq!(second.stored.id_value, hash_name("mixer").to_string());
    assert_eq!(second.label, Some("Mixer".to_string()));
    assert_eq!((second.direct_parent, second.override_bus), (Some(1), Some(2)));
    assert_eq!(rows[1].objects[2].label, None);
}

#[test]
fn rows_are_numbered_without_audio() {
    let mut bank = tiny_bank();
    rewwise::wems::rebuild_didx_data(&mut bank, vec![(1, vec![1])]).unwrap();
    let rows = write_soundbank(&bank, &dict()).unwrap();
    assert_eq!(rows.iter().map(|r| r.ord).collect::<Vec<_>>(), vec![0, 1]);
}

#[test]
fn changes_go_to_the_section_that_was_stored() {
    let mut bank = Soundbank {
        sections: vec![header(), hirc(vec![object(ObjectId::Hash(7), MIXER)])],
    };
    rewwise::wems::rebuild_didx_data(&mut bank, vec![(1, vec![1])]).unwrap();
    let rows = write_soundbank(&bank, &dict()).unwrap();
    let ord = rows[1].ord;
    let loaded = read_soundbank(select(rows)).unwrap();
    let session = SoundbankSession::open("x.db".to_string(), loaded, vec![]);
    let mutation = session.add_hirc_subgraph(7, vec![], vec![3]).unwrap();
    assert_eq!(mutation.writes(&dict(), 1).unwrap().section_ord, ord);
}

#[test]
fn magic_numbers_go_through_text() {
    assert_eq!(string_to_magic("BKHD"), *b"BKHD");
    assert_eq!(string_to_magic("ab"), [97, 98, 0, 0]);
    assert_eq!(string_to_magic("abcdef"), *b"abcd");
    let odd = Soundbank { sections: vec![Section { magic: [0xff, 65, 66, 67], ..hirc(vec![]) }] };
    let rows = write_soundbank(&odd, &dict()).unwrap();
    assert_eq!(rows[0].magic, "\u{fffd}ABC");
}

fn stored(kind: &str, value: &str, body: &str) -> Vec<StoredSection> {
    vec![StoredSection {
        magic: "HIRC".to_string(),
        body_json: None,
        objects: vec![StoredObject {
            id_kind: kind.to_string(),
            id_value: value.to_string(),
            body_json: body.to_string(),
        }],
    }]
}

#[test]
fn rows_that_cannot_be_read_are_named() {
    assert!(read_soundbank(stored("Hash", "12", EVENT)).is_ok());
    match read_soundbank(stored("Hash", "x", EVENT)) {
        Err(StorageError::BadHash(text)) => assert_eq!(text, "x"),
        other => panic!("{other:?}"),
    }
    match read_soundbank(stored("Name", "x", EVENT)) {
        Err(StorageError::InvalidIdKind(kind)) => assert_eq!(kind, "Name"),
        other => panic!("{other:?}"),
    }
    assert!(matches!(
        read_soundbank(stored("String", "x", "{")),
        Err(StorageError::Json(JsonError::NotJson))
    ));
    assert!(matches!(
        read_soundbank(stored("String", "x", "{}")),
        Err(StorageError::Json(JsonError::NotABody))
    ));
    for text in [
        r#"{"DATA":{"data":5}}"#,
        r#"{"DIDX":{}}"#,
        r#"{"DIDX":{"descriptors":[{"id":1,"offset":0}]}}"#,
        r#"{"HIRC":{}}"#,
        r#"{"HIRC":{"objects":[{"id":{"Name":"x"},"body":{"Event":{}}}]}}"#,
        r#"{"BKHD":{}}"#,
        r#"{"STID":{},"DATA":{}}"#,
    ] {
        assert!(matches!(
            read_soundbank(vec![body_row("HIRC", text)]),
            Err(StorageError::Json(JsonError::NotASection))
        ));
    }
}

fn body_row(magic: &str, text: &str) -> StoredSection {
    StoredSection { magic: magic.to_string(), body_json: Some(text.to_string()), objects: vec![] }
}

#[test]
fn objects_in_the_body_of_a_section_are_read() {
    let text = format!(
        r#"{{"HIRC":{{"objects":[{{"id":{{"String":"Play_x"}},"body":{EVENT}}},{{"id":{{"Hash":12}},"body":{EVENT}}}]}}}}"#
    );
    let bank = read_soundbank(vec![body_row("HIRC", &text)]).unwrap();
    let ids: Vec<u32> = bank.first_objects().unwrap().iter().map(|o| o.id.as_hash()).collect();
    assert_eq!(ids, [hash_name("Play_x"), 12]);
    let texts = bank.first_objects().unwrap()[1].body.to_json().to_text().unwrap();
    assert_eq!(texts, tree(EVENT).to_text().unwrap());
}

#[test]
fn audio_among_the_sections_is_left_out() {
    let rows = vec![
        body_row("DIDX", r#"{"DIDX":{"descriptors":[{"id":1,"offset":0,"size":4}]}}"#),
        body_row("STID", r#"{"STID":{"a":1}}"#),
        body_row("DATA", r#"{"DATA":{"data":[1,2,3,4]}}"#),
        body_row("DATA", r#"{"DATA":{"data":""}}"#),
    ];
    let bank = read_soundbank(rows).unwrap();
    assert_eq!(bank.sections.len(), 1);
    assert_eq!(bank.sections[0].magic, *b"STID");
}

#[test]
fn bodies_that_no_text_holds_are_not_written() {
    let twice = Json::Object(vec![("a".to_string(), Json::Null), ("a".to_string(), Json::Null)]);
    let bank = Soundbank {
        sections: vec![Section { magic: *b"STID", body: SectionBody::Other(twice) }],
    };
    assert!(matches!(
        write_soundbank(&bank, &dict()),
        Err(StorageError::Json(JsonError::NotPrintable))
    ));
}

#[test]
fn databases_of_other_kinds_are_refused() {
    assert!(check_schema(APPLICATION_ID, SCHEMA_VERSION).is_ok());
    assert!(matches!(check_schema(5, 9), Err(StorageError::BadApplicationId { found: 5 })));
    assert!(matches!(
        check_schema(0x52455755, 9),
        Err(StorageError::VersionMismatch { found: 9, expected: 1 })
    ));
}

#[test]
fn imports_name_objects_and_part_the_audio() {
    let mut bank = Soundbank {
        sections: vec![
            header(),
            hirc(vec![object(ObjectId::Hash(hash_name("Play_x")), EVENT), named("other", EVENT)]),
        ],
    };
    rewwise::wems::rebuild_didx_data(&mut bank, vec![(4, vec![1, 2])]).unwrap();
    let import = import_bnk(bank, &parse_dictionary("Play_x")).unwrap();
    assert_eq!(import.wems, vec![(4, vec![1, 2])]);
    assert_eq!(import.sections.len(), 2);
    assert_eq!(import.sections[1].ord, 1);
    assert_eq!(import.sections[1].objects[0].stored.id_value, "Play_x");
    assert_eq!(import.sections[1].objects[0].stored.id_kind, "String");
    assert_eq!(import.sections[1].objects[1].stored.id_value, "other");
}

#[test]
fn an_imported_bank_is_exported_again() {
    let mut bank = Soundbank { sections: vec![header(), hirc(vec![named("Play_x", EVENT)])] };
    rewwise::wems::rebuild_didx_data(&mut bank, vec![(4, vec![1, 2]), (9, vec![3])]).unwrap();
    let expected = shape(&bank);
    let import = import_bnk(bank, &dict()).unwrap();
    let loaded = read_soundbank(select(import.sections)).unwrap();
    let exported = export_bnk(loaded, import.wems).unwrap();
    assert_eq!(shape(&exported), expected);
}

#[test]
fn exports_with_audio_need_a_header() {
    let bank = Soundbank { sections: vec![hirc(vec![])] };
    assert!(matches!(export_bnk(bank, vec![(1, vec![1])]), Err(StorageError::MissingBkhd)));
    let bank = Soundbank { sections: vec![hirc(vec![])] };
    assert!(export_bnk(bank, vec![]).is_ok());
}

#[test]
fn an_export_leaves_the_session_as_it_was() {
    let bank = tiny_bank();
    let expected = shape(&bank);
    let mut session =
        SoundbankSession::open("x.db".to_string(), bank, vec![(9, vec![1]), (2, vec![5, 6])]);
    for _ in 0..2 {
        assert!(session.export_fits());
        let splice = session.begin_export().unwrap();
        assert_eq!((splice.didx, splice.data), (Some(1), Some(2)));
        assert_eq!(session.soundbank().sections.len(), 4);
        session.end_export(splice);
        assert_eq!(shape(session.soundbank()), expected);
    }
    let headless = Soundbank { sections: vec![hirc(vec![])] };
    let mut session = SoundbankSession::open("x.db".to_string(), headless, vec![(9, vec![1])]);
    assert!(matches!(session.begin_export(), Err(StorageError::MissingBkhd)));
}

fn with_mixer() -> SoundbankSession {
    let bank = Soundbank {
        sections: vec![header(), hirc(vec![object(ObjectId::Hash(7), MIXER)])],
    };
    SoundbankSession::open("x.db".to_string(), bank, vec![])
}

#[test]
fn subgraphs_are_added_and_mirrored() {
    let mut session = with_mixer();
    let new = tree(&format!(r#"{{"id":{{"String":"New"}},"body":{EVENT}}}"#));
    let mutation = session.add_hirc_subgraph(7, vec![new], vec![12, 3]).unwrap();
    assert_eq!(session.soundbank().first_objects().unwrap().len(), 1);
    assert_eq!(mutation.edits.modified, vec![7]);
    assert_eq!(mutation.edits.inserted, vec![hash_name("New")]);
    let writes = mutation.writes(&dict(), 1).unwrap();
    assert_eq!(writes.section_ord, 1);
    assert_eq!(writes.updates.len(), 1);
    assert_eq!(writes.updates[0].id_hash, 7);
    assert!(writes.updates[0].body_json.contains("[3,9,12]"));
    assert_eq!((writes.updates[0].direct_parent, writes.updates[0].override_bus), (Some(1), Some(2)));
    assert_eq!(writes.inserts.len(), 1);
    assert_eq!(writes.inserts[0].ord, 1);
    assert_eq!(writes.inserts[0].stored.id_value, "New");
    session.commit(mutation);
    let objects = session.soundbank().first_objects().unwrap();
    assert_eq!(objects.len(), 2);
    assert_eq!(objects[0].body.children(), Some(vec![3, 9, 12]));
}

#[test]
fn subgraphs_without_names_or_bodies_are_refused() {
    let session = with_mixer();
    match session.add_hirc_subgraph(7, vec![tree(r#"{"id":{"Hash":1}}"#)], vec![]) {
        Err(StorageError::BadHash(text)) => assert_eq!(text, "subgraph object missing id.String"),
        other => panic!("{other:?}"),
    }
    assert!(matches!(
        session.add_hirc_subgraph(7, vec![tree(r#"{"id":{"String":"x"}}"#)], vec![]),
        Err(StorageError::Json(JsonError::NotABody))
    ));
    match session.add_hirc_subgraph(8, vec![], vec![1]) {
        Err(StorageError::BadHash(text)) => {
            assert_eq!(text, "modified id 0x00000008 not found in cached HIRC")
        }
        other => panic!("{other:?}"),
    }
    let event = SoundbankSession::open(
        "x".to_string(),
        Soundbank { sections: vec![hirc(vec![named("e", EVENT)])] },
        vec![],
    );
    assert!(event.add_hirc_subgraph(hash_name("e"), vec![], vec![1]).is_err());
    let empty = SoundbankSession::open("x".to_string(), Soundbank { sections: vec![] }, vec![]);
    match empty.add_hirc_subgraph(7, vec![], vec![]) {
        Err(StorageError::BadHash(text)) => assert_eq!(text, "no HIRC section in cached bank"),
        other => panic!("{other:?}"),
    }
}

#[test]
fn touched_objects_must_be_in_the_bank() {
    let session = with_mixer();
    let mutation = session
        .mutate_hirc(|bank| (bank, HircEdits { modified: vec![0xab], inserted: vec![] }))
        .unwrap();
    match mutation.writes(&dict(), 0) {
        Err(StorageError::BadHash(text)) => {
            assert_eq!(text, "modified id 0x000000AB not found in cached HIRC")
        }
        other => panic!("{other:?}"),
    }
    let mutation = session
        .mutate_hirc(|bank| (bank, HircEdits { modified: vec![7], inserted: vec![0xab] }))
        .unwrap();
    match mutation.writes(&dict(), 0) {
        Err(StorageError::BadHash(text)) => {
            assert_eq!(text, "inserted id 0x000000AB not present in cached HIRC")
        }
        other => panic!("{other:?}"),
    }
    assert!(HircEdits::default().modified.is_empty());
}

#[test]
fn queries_fall_back_to_everything() {
    let all = list_objects(None, None);
    assert_eq!((all.kind_pattern.as_str(), all.label_pattern.as_str()), ("%", "%"));
    assert_eq!(all.limit, i64::MAX);
    let some = list_objects_capped(Some("Event"), Some("Play_%"), 5);
    assert_eq!((some.kind_pattern.as_str(), some.label_pattern.as_str()), ("Event", "Play_%"));
    assert_eq!(some.limit, 5);
    assert_eq!(count_objects_filtered(None, Some("a")), ("%".to_string(), "a".to_string()));
    assert_eq!(count_objects(12), 12);
    assert_eq!(find_id_by_label(Some(4294967295)), Some(u32::MAX));
    assert_eq!(find_id_by_label(None), None);
    assert_eq!(list_children_of(u32::MAX), 4294967295);
    let row = ObjectSummary::from_row(5, None, "Event".to_string(), Some(6), None);
    assert_eq!((row.id_hash, row.direct_parent, row.override_bus), (5, Some(6), None));
}

#[test]
fn files_are_converted_by_their_extension() {
    assert_eq!(conversion_of("bnk"), Some(Conversion::Import));
    assert_eq!(conversion_of("BNK"), Some(Conversion::Import));
    assert_eq!(conversion_of("Db"), Some(Conversion::Export));
    assert_eq!(conversion_of("json"), None);
    assert_eq!(conversion_of(""), None);
    assert_eq!(created_name("cs_main"), "cs_main.created.bnk");
}

#[test]
fn an_edited_bank_is_read_back_as_it_was_written() {
    let mut bank = Soundbank {
        sections: vec![
            header(),
            hirc(vec![named("Play_x", EVENT), object(ObjectId::Hash(7), MIXER)]),
        ],
    };
    rewwise::viewer::do_add_child(&mut bank, "7", "Play_x").unwrap();
    rewwise::viewer::do_edit_id(&mut bank, "7", "Mixer", true).unwrap();
    rewwise::viewer::do_edit_body(&mut bank, "Play_x", r#"{"Event":{"actions":[]}}"#).unwrap();
    let rows = write_soundbank(&bank, &dict()).unwrap();
    let back = read_soundbank(select(rows)).unwrap();
    assert_eq!(shape(&back), shape(&bank));
    assert_eq!(back.lookup_label(hash_name("Mixer")), Some("Mixer".to_string()));
}

#[test]
fn a_changed_bank_has_the_rows_that_were_written() {
    let mut session = with_mixer();
    let mut rows = write_soundbank(session.soundbank(), &dict()).unwrap();
    let new = tree(&format!(r#"{{"id":{{"String":"New"}},"body":{EVENT}}}"#));
    let mutation = session.add_hirc_subgraph(7, vec![new], vec![3]).unwrap();
    let writes = mutation.writes(&dict(), rows[1].objects.len()).unwrap();
    for update in writes.updates {
        for row in rows[1].objects.iter_mut().filter(|r| r.id_hash == update.id_hash) {
            row.stored.body_json = update.body_json.clone();
        }
    }
    rows[1].objects.extend(writes.inserts);
    session.commit(mutation);
    let expected = write_soundbank(session.soundbank(), &dict()).unwrap();
    assert_eq!(format!("{rows:?}"), format!("{expected:?}"));
}
