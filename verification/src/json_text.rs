//! JSON trees as text, by way of `serde_json`.

use vstd::prelude::*;

use crate::json::{Json, JsonView};

verus! {

/// `serde_json::Value`, a parsed JSON document.
#[verifier::external_type_specification]
#[verifier::external_body]
pub struct ExValue(serde_json::Value);

/// `serde_json::Error`, what is wrong with a text or a value.
#[verifier::external_type_specification]
#[verifier::external_body]
pub struct ExError(serde_json::Error);

/// What a `serde_json::Value` holds. A number that `Number::as_u64` knows is an unsigned integer;
/// any other number is told by the text that `Number` displays.
pub uninterp spec fn value_content(value: serde_json::Value) -> JsonView;

/// What `serde_json::from_str` makes of a text; nothing if it refuses the text.
pub uninterp spec fn parsed_json(text: Seq<char>) -> Option<JsonView>;

/// The text that `serde_json::to_string` makes of a document.
pub uninterp spec fn printed_json(content: JsonView) -> Seq<char>;

/// The text that `serde_json::to_string_pretty` makes of a document.
pub uninterp spec fn pretty_json(content: JsonView) -> Seq<char>;

/// No two members of the object have one name.
pub open spec fn distinct_keys(members: Seq<(Seq<char>, JsonView)>) -> bool {
    forall|i: int, j: int| 0 <= i < j < members.len() ==> members[i].0 != members[j].0
}

/// No object in the tree has two members of one name.
pub open spec fn all_keys_distinct(v: JsonView) -> bool
    decreases v,
{
    match v {
        JsonView::Array(items) => forall|i: int|
            0 <= i < items.len() ==> all_keys_distinct(#[trigger] items[i]),
        JsonView::Object(members) => {
            &&& distinct_keys(members)
            &&& forall|i: int|
                0 <= i < members.len() ==> all_keys_distinct((#[trigger] members[i]).1)
        },
        _ => true,
    }
}

/// Every number that is kept by its text is kept by the text that it is printed as.
pub open spec fn all_numbers_plain(v: JsonView) -> bool
    decreases v,
{
    match v {
        JsonView::Decimal(text) => parsed_json(text) == Some(JsonView::Decimal(text)),
        JsonView::Array(items) => forall|i: int|
            0 <= i < items.len() ==> all_numbers_plain(#[trigger] items[i]),
        JsonView::Object(members) => forall|i: int|
            0 <= i < members.len() ==> all_numbers_plain((#[trigger] members[i]).1),
        _ => true,
    }
}

/// Can the tree be written as text?
pub open spec fn printable(v: JsonView) -> bool {
    all_keys_distinct(v) && all_numbers_plain(v)
}

/// Are there at most `depth` arrays and objects around any place in the tree?
pub open spec fn nested_within(v: JsonView, depth: int) -> bool
    decreases v,
{
    match v {
        JsonView::Array(items) => depth > 0 && forall|i: int|
            0 <= i < items.len() ==> nested_within(#[trigger] items[i], depth - 1),
        JsonView::Object(members) => depth > 0 && forall|i: int|
            0 <= i < members.len() ==> nested_within((#[trigger] members[i]).1, depth - 1),
        _ => true,
    }
}

/// The deepest nesting that `serde_json` reads.
pub const DEEPEST: u8 = 127;

/// Can the tree be written as text and read back?
pub open spec fn storable(v: JsonView) -> bool {
    printable(v) && nested_within(v, DEEPEST as int)
}

/// One level of a `serde_json::Value`.
pub enum Level {
    Null,
    Bool(bool),
    /// The number as an unsigned integer, if it is one, and its text.
    Number(Option<u64>, String),
    Str(String),
    Array(Vec<serde_json::Value>),
    Object(Vec<(String, serde_json::Value)>),
}

/// What a level holds, with what is below it.
pub open spec fn level_content(level: Level) -> JsonView {
    match level {
        Level::Null => JsonView::Null,
        Level::Bool(b) => JsonView::Bool(b),
        Level::Number(Some(n), _) => JsonView::Unsigned(n),
        Level::Number(None, text) => JsonView::Decimal(text@),
        Level::Str(s) => JsonView::Str(s@),
        Level::Array(items) => JsonView::Array(
            items@.map_values(|item: serde_json::Value| value_content(item)),
        ),
        Level::Object(members) => JsonView::Object(
            members@.map_values(|m: (String, serde_json::Value)| (m.0@, value_content(m.1))),
        ),
    }
}

/// `serde_json::from_str`, asked for a `serde_json::Value`. Which texts it takes, and what it
/// reads in them, is named and not said here, but for this: it refuses a text that is nested
/// deeper than `DEEPEST`, because the features `unbounded_depth` and `raw_value` are off; and it
/// reads `0.0` as the floating-point zero, which is displayed as it was written.
#[verifier::external_body]
fn parse_value(text: &str) -> (r: Result<serde_json::Value, serde_json::Error>)
    ensures
        match r {
            Ok(value) => {
                &&& parsed_json(text@) == Some(value_content(value))
                &&& nested_within(value_content(value), DEEPEST as int)
            },
            Err(_) => parsed_json(text@) is None,
        },
        text@ == "0.0"@ ==> r is Ok && value_content(r->Ok_0) == JsonView::Decimal(text@),
{
    serde_json::from_str(text)
}

/// `serde_json::to_string` of a `serde_json::Value`. It fails for no such value: all member names
/// are strings. `serde_json::from_str` reads the text back as the same document unless that is
/// nested too deep for it, because the feature `float_roundtrip` is on, and the features
/// `raw_value` and `arbitrary_precision`, which give objects with a certain key another meaning,
/// are off.
#[verifier::external_body]
fn print_value(value: &serde_json::Value) -> (r: Result<String, serde_json::Error>)
    ensures
        r is Ok,
        r->Ok_0@ == printed_json(value_content(*value)),
        nested_within(value_content(*value), DEEPEST as int) ==> parsed_json(r->Ok_0@) == Some(
            value_content(*value),
        ),
{
    serde_json::to_string(value)
}

/// `serde_json::to_string_pretty` of a `serde_json::Value`. It fails for no such value: all member
/// names are strings. The text differs from that of `serde_json::to_string` in white space between
/// its tokens alone, so `serde_json::from_str` reads it back in the same cases.
#[verifier::external_body]
fn print_value_pretty(value: &serde_json::Value) -> (r: Result<String, serde_json::Error>)
    ensures
        r is Ok,
        r->Ok_0@ == pretty_json(value_content(*value)),
        nested_within(value_content(*value), DEEPEST as int) ==> parsed_json(r->Ok_0@) == Some(
            value_content(*value),
        ),
{
    serde_json::to_string_pretty(value)
}

/// The variants of `serde_json::Value`, with `Number::as_u64` and the text that `Number` displays
/// for a number. The text of a number that is no unsigned integer reads back as that number,
/// because the feature `float_roundtrip` is on. `serde_json::Map` gives its members in order,
/// because the feature `preserve_order` is on, and has each name once.
#[verifier::external_body]
fn open_value(value: serde_json::Value) -> (r: Level)
    ensures
        level_content(r) == value_content(value),
        r matches Level::Number(None, text) ==> parsed_json(text@) == Some(
            JsonView::Decimal(text@),
        ),
        r matches Level::Object(_) ==> distinct_keys(level_content(r)->Object_0),
{
    match value {
        serde_json::Value::Null => Level::Null,
        serde_json::Value::Bool(b) => Level::Bool(b),
        serde_json::Value::Number(n) => Level::Number(n.as_u64(), n.to_string()),
        serde_json::Value::String(s) => Level::Str(s),
        serde_json::Value::Array(items) => Level::Array(items),
        serde_json::Value::Object(members) => Level::Object(members.into_iter().collect()),
    }
}

/// A `serde_json::Value` from one level. The members of an object go into a `serde_json::Map` one
/// after the other, which keeps them as they are if no two have one name. A number is made from
/// its unsigned integer.
#[verifier::external_body]
fn close_value(level: Level) -> (r: serde_json::Value)
    requires
        level matches Level::Number(n, _) ==> n is Some,
        level matches Level::Object(_) ==> distinct_keys(level_content(level)->Object_0),
    ensures
        value_content(r) == level_content(level),
{
    match level {
        Level::Null => serde_json::Value::Null,
        Level::Bool(b) => serde_json::Value::Bool(b),
        Level::Number(n, _) => serde_json::Value::from(n),
        Level::Str(s) => serde_json::Value::String(s),
        Level::Array(items) => serde_json::Value::Array(items),
        Level::Object(members) => serde_json::Value::Object(members.into_iter().collect()),
    }
}

/// Why a tree and a text do not go together.
#[derive(Debug, Clone, Copy, PartialEq, Eq, Structural)]
pub enum JsonError {
    /// The text is no JSON document.
    NotJson,
    /// The tree holds a number or an object that JSON text cannot hold.
    NotPrintable,
    /// The tree is not the body of an object.
    NotABody,
    /// The tree is not the body of a section.
    NotASection,
}

/// The tree that a `serde_json::Value` holds.
pub fn tree_of(value: serde_json::Value) -> (r: Json)
    ensures
        r@ == value_content(value),
        printable(r@),
    decreases value_content(value),
{
    let ghost content = value_content(value);
    match open_value(value) {
        Level::Null => Json::Null,
        Level::Bool(b) => Json::Bool(b),
        Level::Number(Some(n), _) => Json::Unsigned(n),
        Level::Number(None, text) => Json::Decimal(text),
        Level::Str(s) => Json::Str(s),
        Level::Array(items) => {
            let mut out: Vec<Json> = Vec::new();
            let ghost views = content->Array_0;
            for item in it: items
                invariant
                    it.seq() == items@,
                    content == JsonView::Array(views),
                    views == items@.map_values(|x: serde_json::Value| value_content(x)),
                    content == value_content(value),
                    out@.len() == it.index(),
                    forall|k: int|
                        0 <= k < out@.len() ==> (#[trigger] out@[k])@ == views[k] && printable(
                            out@[k]@,
                        ),
            {
                assert(views[it.index() as int] == value_content(item));
                assert(decreases_to!(content => content->Array_0));
                assert(decreases_to!(views => views[it.index() as int]));
                out.push(tree_of(item));
            }
            let r = Json::Array(out);
            assert(r@->Array_0 =~= views);
            assert forall|k: int| 0 <= k < views.len() implies printable(
                #[trigger] r@->Array_0[k],
            ) by {
                assert(printable(out@[k]@));
            }
            assert(all_keys_distinct(r@) && all_numbers_plain(r@));
            r
        },
        Level::Object(members) => {
            let mut out: Vec<(String, Json)> = Vec::new();
            let ghost views = content->Object_0;
            for entry in it: members
                invariant
                    it.seq() == members@,
                    content == JsonView::Object(views),
                    views == members@.map_values(
                        |m: (String, serde_json::Value)| (m.0@, value_content(m.1)),
                    ),
                    content == value_content(value),
                    out@.len() == it.index(),
                    forall|k: int|
                        0 <= k < out@.len() ==> (#[trigger] out@[k]).0@ == views[k].0 && out@[k].1@
                            == views[k].1 && printable(out@[k].1@),
            {
                assert(views[it.index() as int] == (entry.0@, value_content(entry.1)));
                assert(decreases_to!(content => content->Object_0));
                assert(decreases_to!(views => views[it.index() as int]));
                assert(decreases_to!(views[it.index() as int] => views[it.index() as int].1));
                let (name, inner) = entry;
                out.push((name, tree_of(inner)));
            }
            let r = Json::Object(out);
            assert(r@->Object_0 =~= views);
            assert forall|k: int| 0 <= k < views.len() implies printable(
                (#[trigger] r@->Object_0[k]).1,
            ) by {
                assert(printable(out@[k].1@));
            }
            assert(all_keys_distinct(r@) && all_numbers_plain(r@));
            r
        },
    }
}

/// Has the object two members of one name?
fn has_twins(members: &Vec<(String, Json)>) -> (r: bool)
    ensures
        r == !distinct_keys(Json::Object(*members)@->Object_0),
{
    let ghost views = Json::Object(*members)@->Object_0;
    let mut j: usize = 0;
    while j < members.len()
        invariant
            j <= members@.len(),
            views.len() == members@.len(),
            forall|k: int| 0 <= k < members@.len() ==> (#[trigger] views[k]).0 == members@[k].0@,
            forall|a: int, b: int| 0 <= a < b < j ==> views[a].0 != views[b].0,
            views == Json::Object(*members)@->Object_0,
        decreases members@.len() - j,
    {
        let mut i: usize = 0;
        while i < j
            invariant
                i <= j < members@.len(),
                views.len() == members@.len(),
                forall|k: int|
                    0 <= k < members@.len() ==> (#[trigger] views[k]).0 == members@[k].0@,
                forall|a: int| 0 <= a < i ==> views[a].0 != views[j as int].0,
                views == Json::Object(*members)@->Object_0,
            decreases j - i,
        {
            if members[i].0 == members[j].0 {
                assert(views[i as int].0 == views[j as int].0);
                return true;
            }
            assert(views[i as int].0 != views[j as int].0);
            i = i + 1;
        }
        j = j + 1;
    }
    false
}

/// The `serde_json::Value` that holds a tree, if there is one.
pub fn value_of(tree: &Json) -> (r: Option<serde_json::Value>)
    ensures
        match r {
            Some(value) => printable(tree@) && value_content(value) == tree@,
            None => !printable(tree@),
        },
    decreases tree,
{
    match tree {
        Json::Null => Some(close_value(Level::Null)),
        Json::Bool(b) => Some(close_value(Level::Bool(*b))),
        Json::Unsigned(n) => Some(close_value(Level::Number(Some(*n), String::new()))),
        Json::Str(s) => Some(close_value(Level::Str(s.clone()))),
        Json::Decimal(text) => match parse_value(text.as_str()) {
            Ok(value) => {
                let ghost content = value_content(value);
                match open_value(value) {
                    Level::Number(None, plain) => {
                        if plain == *text {
                            match parse_value(text.as_str()) {
                                Ok(again) => Some(again),
                                Err(_) => None,
                            }
                        } else {
                            None
                        }
                    },
                    _ => None,
                }
            },
            Err(_) => None,
        },
        Json::Array(items) => {
            let mut out: Vec<serde_json::Value> = Vec::new();
            let ghost views = tree@->Array_0;
            let mut i: usize = 0;
            while i < items.len()
                invariant
                    i <= items@.len(),
                    out@.len() == i,
                    tree@ == JsonView::Array(views),
                    views.len() == items@.len(),
                    forall|k: int| 0 <= k < items@.len() ==> #[trigger] views[k] == items@[k]@,
                    forall|k: int|
                        0 <= k < i ==> value_content(#[trigger] out@[k]) == views[k] && printable(
                            views[k],
                        ),
                    decreases_to!(tree => items),
                decreases items@.len() - i,
            {
                assert(decreases_to!(items => items@));
                assert(decreases_to!(items@ => items@[i as int]));
                match value_of(&items[i]) {
                    Some(value) => {
                        out.push(value);
                    },
                    None => {
                        assert(!printable(views[i as int]));
                        proof {
                            let whole = JsonView::Array(views);
                            assert(whole->Array_0[i as int] == views[i as int]);
                            assert(all_keys_distinct(whole) ==> all_keys_distinct(views[i as int]));
                            assert(all_numbers_plain(whole) ==> all_numbers_plain(views[i as int]));
                        }
                        return None;
                    },
                }
                i = i + 1;
            }
            let ghost level = Level::Array(out);
            assert(level_content(level)->Array_0 =~= views);
            assert forall|k: int| 0 <= k < views.len() implies printable(#[trigger] views[k]) by {
                assert(value_content(out@[k]) == views[k]);
            }
            Some(close_value(Level::Array(out)))
        },
        Json::Object(members) => {
            if has_twins(members) {
                return None;
            }
            let mut out: Vec<(String, serde_json::Value)> = Vec::new();
            let ghost views = tree@->Object_0;
            let mut i: usize = 0;
            while i < members.len()
                invariant
                    i <= members@.len(),
                    out@.len() == i,
                    tree@ == JsonView::Object(views),
                    distinct_keys(views),
                    views.len() == members@.len(),
                    forall|k: int|
                        0 <= k < members@.len() ==> #[trigger] views[k] == (
                            members@[k].0@,
                            members@[k].1@,
                        ),
                    forall|k: int|
                        0 <= k < i ==> (#[trigger] out@[k]).0@ == views[k].0 && value_content(
                            out@[k].1,
                        ) == views[k].1 && printable(views[k].1),
                    decreases_to!(tree => members),
                decreases members@.len() - i,
            {
                assert(decreases_to!(members => members@));
                assert(decreases_to!(members@ => members@[i as int]));
                assert(decreases_to!(members@[i as int] => members@[i as int].1));
                match value_of(&members[i].1) {
                    Some(value) => {
                        out.push((members[i].0.clone(), value));
                    },
                    None => {
                        assert(!printable(views[i as int].1));
                        return None;
                    },
                }
                i = i + 1;
            }
            let ghost level = Level::Object(out);
            assert(level_content(level)->Object_0 =~= views);
            assert forall|k: int| 0 <= k < views.len() implies printable(
                (#[trigger] views[k]).1,
            ) by {
                assert(value_content(out@[k].1) == views[k].1);
            }
            Some(close_value(Level::Object(out)))
        },
    }
}

/// Are there at most `depth` arrays and objects around any place in the tree?
fn nests_within(tree: &Json, depth: u8) -> (r: bool)
    ensures
        r == nested_within(tree@, depth as int),
    decreases tree,
{
    match tree {
        Json::Array(items) => {
            if depth == 0 {
                return false;
            }
            let ghost views = tree@->Array_0;
            let mut i: usize = 0;
            while i < items.len()
                invariant
                    i <= items@.len(),
                    depth > 0,
                    tree@ == JsonView::Array(views),
                    views.len() == items@.len(),
                    forall|k: int| 0 <= k < items@.len() ==> #[trigger] views[k] == items@[k]@,
                    forall|k: int| 0 <= k < i ==> nested_within(#[trigger] views[k], depth - 1),
                    decreases_to!(tree => items),
                decreases items@.len() - i,
            {
                assert(decreases_to!(items => items@));
                assert(decreases_to!(items@ => items@[i as int]));
                if !nests_within(&items[i], depth - 1) {
                    assert(!nested_within(views[i as int], depth - 1));
                    let ghost whole = JsonView::Array(views);
                    assert(whole->Array_0[i as int] == views[i as int]);
                    return false;
                }
                i = i + 1;
            }
            true
        },
        Json::Object(members) => {
            if depth == 0 {
                return false;
            }
            let ghost views = tree@->Object_0;
            let mut i: usize = 0;
            while i < members.len()
                invariant
                    i <= members@.len(),
                    depth > 0,
                    tree@ == JsonView::Object(views),
                    views.len() == members@.len(),
                    forall|k: int|
                        0 <= k < members@.len() ==> #[trigger] views[k] == (
                            members@[k].0@,
                            members@[k].1@,
                        ),
                    forall|k: int|
                        0 <= k < i ==> nested_within((#[trigger] views[k]).1, depth - 1),
                    decreases_to!(tree => members),
                decreases members@.len() - i,
            {
                assert(decreases_to!(members => members@));
                assert(decreases_to!(members@ => members@[i as int]));
                assert(decreases_to!(members@[i as int] => members@[i as int].1));
                if !nests_within(&members[i].1, depth - 1) {
                    assert(!nested_within(views[i as int].1, depth - 1));
                    let ghost whole = JsonView::Object(views);
                    assert(whole->Object_0[i as int] == views[i as int]);
                    return false;
                }
                i = i + 1;
            }
            true
        },
        _ => true,
    }
}

impl Json {
    /// Can the tree be written as text and read back?
    pub fn is_storable(&self) -> (r: bool)
        ensures
            r == storable(self@),
    {
        match value_of(self) {
            Some(_) => nests_within(self, DEEPEST),
            None => false,
        }
    }

    /// Reads a JSON text. That of a zero with a fraction is kept as it is written.
    pub fn from_text(text: &str) -> (r: Result<Json, JsonError>)
        ensures
            match r {
                Ok(tree) => parsed_json(text@) == Some(tree@) && storable(tree@),
                Err(e) => parsed_json(text@) is None && e == JsonError::NotJson,
            },
            text@ == "0.0"@ ==> r is Ok && r->Ok_0@ == JsonView::Decimal(text@),
    {
        match parse_value(text) {
            Ok(value) => Ok(tree_of(value)),
            Err(_) => Err(JsonError::NotJson),
        }
    }

    /// The tree as JSON text. The text reads back as the same tree, unless the tree is nested
    /// deeper than a reader goes.
    pub fn to_text(&self) -> (r: Result<String, JsonError>)
        ensures
            match r {
                Ok(text) => {
                    &&& printable(self@)
                    &&& text@ == printed_json(self@)
                    &&& nested_within(self@, DEEPEST as int) ==> parsed_json(text@) == Some(self@)
                },
                Err(e) => !printable(self@) && e == JsonError::NotPrintable,
            },
    {
        match value_of(self) {
            Some(value) => match print_value(&value) {
                Ok(text) => Ok(text),
                Err(_) => Err(JsonError::NotPrintable),
            },
            None => Err(JsonError::NotPrintable),
        }
    }

    /// The tree as JSON text with one member or element to a line. The text reads back as the same
    /// tree, unless the tree is nested deeper than a reader goes.
    pub fn to_pretty_text(&self) -> (r: Result<String, JsonError>)
        ensures
            match r {
                Ok(text) => {
                    &&& printable(self@)
                    &&& text@ == pretty_json(self@)
                    &&& nested_within(self@, DEEPEST as int) ==> parsed_json(text@) == Some(self@)
                },
                Err(e) => !printable(self@) && e == JsonError::NotPrintable,
            },
    {
        match value_of(self) {
            Some(value) => match print_value_pretty(&value) {
                Ok(text) => Ok(text),
                Err(_) => Err(JsonError::NotPrintable),
            },
            None => Err(JsonError::NotPrintable),
        }
    }
}

} // verus!
