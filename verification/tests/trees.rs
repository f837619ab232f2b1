use rewwise::json::Json;
use rewwise::json_text::JsonError;
use rewwise::renumber::rewrite_u32;

fn tree(text: &str) -> Json {
    Json::from_text(text).unwrap()
}

#[test]
fn trees_read_and_write_json() {
    let text = r#"{"b":1,"a":[true,null,"x\n"],"f":0.5,"n":-3,"big":18446744073709551615}"#;
    assert_eq!(tree(text).to_text().unwrap(), text);
    assert_eq!(tree("[ 1 , 2 ]").to_text().unwrap(), "[1,2]");
}

#[test]
fn pretty_text_is_indented() {
    assert_eq!(tree(r#"{"a":[1]}"#).to_pretty_text().unwrap(), "{\n  \"a\": [\n    1\n  ]\n}");
}

#[test]
fn texts_that_are_no_json_are_refused() {
    assert!(matches!(Json::from_text("{"), Err(JsonError::NotJson)));
    assert!(matches!(Json::from_text(""), Err(JsonError::NotJson)));
}

#[test]
fn deep_nesting_is_refused() {
    let fine = format!("{}{}", "[".repeat(127), "]".repeat(127));
    let deep = format!("{}{}", "[".repeat(128), "]".repeat(128));
    assert!(Json::from_text(&fine).is_ok());
    assert!(Json::from_text(&deep).is_err());
}

#[test]
fn trees_that_no_text_holds_are_refused() {
    let twice = Json::Object(vec![
        ("a".to_string(), Json::Null),
        ("a".to_string(), Json::Null),
    ]);
    assert!(matches!(twice.to_text(), Err(JsonError::NotPrintable)));
    let bad = Json::Decimal("no number".to_string());
    assert!(matches!(bad.to_text(), Err(JsonError::NotPrintable)));
    assert!(matches!(bad.to_pretty_text(), Err(JsonError::NotPrintable)));
}

#[test]
fn members_are_found_by_path() {
    let t = tree(r#"{"a":{"b":[1,2]},"c":7}"#);
    assert_eq!(t.ids_at(&vec!["a", "b"]), Some(vec![1, 2]));
    assert_eq!(t.u32_at(&vec!["c"]), Some(7));
    assert_eq!(t.u32_at(&vec!["a", "x"]), None);
    assert_eq!(t.u32_at(&vec!["a", "b"]), None);
    let put = t.put(&vec!["a", "b"], 0, Json::Unsigned(3));
    assert_eq!(put.to_text().unwrap(), r#"{"a":{"b":3},"c":7}"#);
}

#[test]
fn renumbering_replaces_whole_numbers_only() {
    let mut t = tree(r#"{"7":7,"a":[7,70,7.0,"7"],"b":{"c":7}}"#);
    rewrite_u32(&mut t, 7, 9);
    assert_eq!(t.to_text().unwrap(), r#"{"7":9,"a":[9,70,7.0,"7"],"b":{"c":9}}"#);
    rewrite_u32(&mut t, 9, 7);
    assert_eq!(t.to_text().unwrap(), r#"{"7":7,"a":[7,70,7.0,"7"],"b":{"c":7}}"#);
}

#[test]
fn no_key_has_a_meaning_of_its_own() {
    for key in ["$serde_json::private::RawValue", "$serde_json::private::Number"] {
        for value in ["5", "no json"] {
            let object = Json::Object(vec![(key.to_string(), Json::Str(value.to_string()))]);
            let text = object.to_text().unwrap();
            assert_eq!(Json::from_text(&text).unwrap().to_text().unwrap(), text);
            assert!(matches!(Json::from_text(&text), Ok(Json::Object(_))));
        }
    }
}

#[test]
fn a_zero_with_a_fraction_is_kept_as_written() {
    match Json::from_text("0.0").unwrap() {
        Json::Decimal(text) => assert_eq!(text, "0.0"),
        other => panic!("{other:?}"),
    }
    assert_eq!(Json::from_text("[0.0]").unwrap().to_text().unwrap(), "[0.0]");
}
