use rewwise::ids::{
    hash_name, look_up, parse_decimal, parse_dictionary, parse_hex, parse_id, parse_object_id,
    write_id, ObjectId,
};
use rewwise::kind::BodyKind;
use rewwise::text::{capital_hex_id, decimal, hex_id, lines, pad_left, pad_right};

#[test]
fn names_hash_without_regard_to_case() {
    assert_eq!(hash_name("Play_c211006013"), 0x86a6bbe9);
    assert_eq!(hash_name("Stop_c211006013"), 0x685a5367);
    assert_eq!(hash_name("PLAY_C211006013"), hash_name("play_c211006013"));
    assert_eq!(hash_name(""), 2166136261);
    assert_eq!(hash_name("a"), 0x050c5d7e);
}

#[test]
fn ids_are_hashed_or_are_hashes() {
    assert_eq!(ObjectId::String("a".to_string()).as_hash(), 0x050c5d7e);
    assert_eq!(ObjectId::Hash(7).as_hash(), 7);
    assert_eq!(ObjectId::Hash(7).name(), None);
    assert_eq!(ObjectId::String("a".to_string()).name(), Some("a".to_string()));
}

#[test]
fn numbers_are_read_in_both_bases() {
    assert_eq!(parse_hex("0x6D5C6A3F"), Some(0x6d5c6a3f));
    assert_eq!(parse_hex("0Xff"), Some(255));
    assert_eq!(parse_hex("ff"), None);
    assert_eq!(parse_hex("0x100000000"), None);
    assert_eq!(parse_hex("0x"), None);
    assert_eq!(parse_decimal("1834890111"), Some(1834890111));
    assert_eq!(parse_decimal("+5"), Some(5));
    assert_eq!(parse_decimal("-5"), None);
    assert_eq!(parse_decimal("4294967295"), Some(u32::MAX));
    assert_eq!(parse_decimal("4294967296"), None);
    assert_eq!(parse_decimal(""), None);
    assert_eq!(parse_id("0x10"), Some(16));
    assert_eq!(parse_id("16"), Some(16));
    assert_eq!(parse_id("0xzz"), None);
    assert_eq!(parse_id("+16"), Some(16));
    assert_eq!(parse_id("++16"), None);
}

#[test]
fn numeric_text_is_a_hash_and_other_text_a_name() {
    assert!(matches!(parse_object_id("0x10"), ObjectId::Hash(16)));
    assert!(matches!(parse_object_id("12"), ObjectId::Hash(12)));
    match parse_object_id("Play_x") {
        ObjectId::String(s) => assert_eq!(s, "Play_x"),
        ObjectId::Hash(_) => panic!("a name"),
    }
    match parse_object_id("+5") {
        ObjectId::String(s) => assert_eq!(s, "+5"),
        ObjectId::Hash(_) => panic!("a name"),
    }
    assert_eq!(write_id(&ObjectId::Hash(12)), "12");
    assert_eq!(write_id(&ObjectId::String("x".to_string())), "x");
}

#[test]
fn dictionaries_skip_blank_and_comment_lines() {
    let d = parse_dictionary("# comment\n\nPlay_c211006013\r\nStop_c211006013\n");
    assert_eq!(look_up(&d, 0x86a6bbe9), Some("Play_c211006013".to_string()));
    assert_eq!(look_up(&d, 0x685a5367), Some("Stop_c211006013".to_string()));
    assert_eq!(look_up(&d, 1), None);
    assert_eq!(d.len(), 2);
}

#[test]
fn later_names_replace_earlier_ones_of_the_same_hash() {
    let d = parse_dictionary("ABC\nabc\n");
    assert_eq!(d.len(), 1);
    assert_eq!(look_up(&d, hash_name("abc")), Some("abc".to_string()));
}

#[test]
fn kinds_have_names_and_numbers() {
    assert_eq!(BodyKind::State.number(), 1);
    assert_eq!(BodyKind::Sound.number(), 2);
    assert_eq!(BodyKind::Action.number(), 3);
    assert_eq!(BodyKind::Event.number(), 4);
    assert_eq!(BodyKind::RandomSequenceContainer.number(), 5);
    assert_eq!(BodyKind::ActorMixer.number(), 7);
    assert_eq!(BodyKind::TimeModulator.name(), "TimeModulator");
    assert_eq!(BodyKind::from_name(&"Bus".to_string()), Some(BodyKind::Bus));
    assert_eq!(BodyKind::from_name(&"bus".to_string()), None);
}

#[test]
fn ids_are_shown_in_hexadecimal() {
    assert_eq!(hex_id(0xdeadbeef), "0xdeadbeef");
    assert_eq!(hex_id(1), "0x00000001");
    assert_eq!(capital_hex_id(0xdeadbeef), "0xDEADBEEF");
    assert_eq!(decimal(0), "0");
    assert_eq!(decimal(4294967295), "4294967295");
}

#[test]
fn texts_are_padded_by_characters() {
    assert_eq!(pad_left("12", 6, '0'), "000012");
    assert_eq!(pad_left("1234567", 6, '0'), "1234567");
    assert_eq!(pad_right("—", 3), "—  ");
}

#[test]
fn lines_end_at_line_feeds() {
    assert_eq!(lines("a\nb\r\n\nc"), vec!["a", "b", "", "c"]);
    assert_eq!(lines("a\n"), vec!["a"]);
    assert_eq!(lines("").len(), 0);
}
