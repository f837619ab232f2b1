//! Object ids, the hash that ids are stored by, and the dictionary of known names.

use std::collections::HashMap;

use vstd::prelude::*;
use vstd::utf8::encode_utf8;

use crate::text::{
    chars_of, decimal, decimal_text, lines, lines_of, number_in, parse_number,
};

verus! {

broadcast use vstd::std_specs::hash::group_hash_axioms;

/// A byte with `A` to `Z` in lower case.
pub open spec fn lower_byte(b: u8) -> u8 {
    if 65 <= b <= 90 {
        (b + 32) as u8
    } else {
        b
    }
}

/// The 32-bit FNV-1 hash of a text in lower case: from a fixed start, each byte multiplies the
/// hash by a fixed prime, modulo two to the thirty-second, and is then mixed in by exclusive or.
pub open spec fn fnv_hash(bytes: Seq<u8>) -> u32
    decreases bytes.len(),
{
    if bytes.len() == 0 {
        2166136261
    } else {
        (((fnv_hash(bytes.drop_last()) * 16777619) % 0x1_0000_0000) as u32) ^ (lower_byte(
            bytes.last(),
        ) as u32)
    }
}

/// The hash of a name.
pub open spec fn name_hash(name: Seq<char>) -> u32 {
    fnv_hash(encode_utf8(name))
}

/// The hash of a name.
pub fn hash_name(name: &str) -> (r: u32)
    ensures
        r == name_hash(name@),
{
    let bytes = name.as_bytes();
    let mut hash: u32 = 2166136261;
    let mut i: usize = 0;
    assert(bytes@.take(0) =~= Seq::<u8>::empty());
    while i < bytes.len()
        invariant
            i <= bytes@.len(),
            hash == fnv_hash(bytes@.take(i as int)),
        decreases bytes@.len() - i,
    {
        let b: u8 = bytes[i];
        let low: u8 = if 65 <= b && b <= 90 {
            b + 32
        } else {
            b
        };
        let product: u64 = (hash as u64) * 16777619;
        let wrapped: u32 = (product % 0x1_0000_0000) as u32;
        assert(bytes@.take(i + 1).drop_last() =~= bytes@.take(i as int));
        hash = wrapped ^ (low as u32);
        i = i + 1;
    }
    assert(bytes@.take(bytes@.len() as int) =~= bytes@);
    hash
}

/// What an object id says.
pub enum IdView {
    Name(Seq<char>),
    Hash(u32),
}

/// The id of an object: its name, or its hash where the name is not known.
#[derive(Debug)]
pub enum ObjectId {
    String(String),
    Hash(u32),
}

impl View for ObjectId {
    type V = IdView;

    open spec fn view(&self) -> IdView {
        match self {
            ObjectId::String(name) => IdView::Name(name@),
            ObjectId::Hash(hash) => IdView::Hash(*hash),
        }
    }
}

/// The hash that an id stands for.
pub open spec fn id_hash(id: IdView) -> u32 {
    match id {
        IdView::Name(name) => name_hash(name),
        IdView::Hash(hash) => hash,
    }
}

/// The name that an id carries.
pub open spec fn id_name(id: IdView) -> Option<Seq<char>> {
    match id {
        IdView::Name(name) => Some(name),
        IdView::Hash(_) => None,
    }
}

/// What an optional text says.
pub open spec fn text_view(text: Option<String>) -> Option<Seq<char>> {
    match text {
        Some(t) => Some(t@),
        None => None,
    }
}

impl ObjectId {
    /// The hash that the id stands for.
    pub fn as_hash(&self) -> (r: u32)
        ensures
            r == id_hash(self@),
    {
        match self {
            ObjectId::String(name) => hash_name(name.as_str()),
            ObjectId::Hash(hash) => *hash,
        }
    }

    /// A copy of the id.
    pub fn dup(&self) -> (r: ObjectId)
        ensures
            r@ == self@,
    {
        match self {
            ObjectId::String(name) => ObjectId::String(name.clone()),
            ObjectId::Hash(hash) => ObjectId::Hash(*hash),
        }
    }

    /// The name that the id carries.
    pub fn name(&self) -> (r: Option<String>)
        ensures
            text_view(r) == id_name(self@),
    {
        match self {
            ObjectId::String(name) => Some(name.clone()),
            ObjectId::Hash(_) => None,
        }
    }
}

// ---------------------------------------------------------------------------
// Ids as the user writes them
// ---------------------------------------------------------------------------
/// Does the text start with `0x` or `0X`?
pub open spec fn has_hex_prefix(s: Seq<char>) -> bool {
    s.len() >= 2 && s[0] == '0' && (s[1] == 'x' || s[1] == 'X')
}

/// The number behind a hexadecimal prefix.
pub open spec fn hex_number(s: Seq<char>) -> Option<u32> {
    if has_hex_prefix(s) {
        number_in(s.skip(2), 16)
    } else {
        None
    }
}

/// The number that a text spells: hexadecimal behind a prefix, else decimal.
pub open spec fn numeric_id(s: Seq<char>) -> Option<u32> {
    if has_hex_prefix(s) {
        number_in(s.skip(2), 16)
    } else {
        number_in(s, 10)
    }
}

/// The id that a text means: a hash if it spells a number without a sign in front, else a name.
pub open spec fn id_meant(s: Seq<char>) -> IdView {
    if s.len() > 0 && s[0] == '+' {
        IdView::Name(s)
    } else {
        match numeric_id(s) {
            Some(hash) => IdView::Hash(hash),
            None => IdView::Name(s),
        }
    }
}

fn starts_hex(chars: &Vec<char>) -> (r: bool)
    ensures
        r == has_hex_prefix(chars@),
{
    chars.len() >= 2 && chars[0] == '0' && (chars[1] == 'x' || chars[1] == 'X')
}

/// The number behind `0x` or `0X`.
pub fn parse_hex(s: &str) -> (r: Option<u32>)
    ensures
        r == hex_number(s@),
{
    let chars = chars_of(s);
    if starts_hex(&chars) {
        parse_number(&chars, 2, 16)
    } else {
        None
    }
}

/// A decimal number.
pub fn parse_decimal(s: &str) -> (r: Option<u32>)
    ensures
        r == number_in(s@, 10),
{
    let chars = chars_of(s);
    assert(chars@.skip(0) =~= chars@);
    parse_number(&chars, 0, 10)
}

/// Reads a numeric id, decimal or behind `0x`, without looking at any bank.
pub fn parse_id(s: &str) -> (r: Option<u32>)
    ensures
        r == numeric_id(s@),
{
    let chars = chars_of(s);
    if starts_hex(&chars) {
        parse_number(&chars, 2, 16)
    } else {
        assert(chars@.skip(0) =~= chars@);
        parse_number(&chars, 0, 10)
    }
}

/// Takes the text as a hash if it looks numeric, else as a name.
pub fn parse_object_id(s: &str) -> (r: ObjectId)
    ensures
        r@ == id_meant(s@),
{
    let chars = chars_of(s);
    if chars.len() > 0 && chars[0] == '+' {
        return ObjectId::String(s.to_owned());
    }
    match parse_id(s) {
        Some(hash) => ObjectId::Hash(hash),
        None => ObjectId::String(s.to_owned()),
    }
}

/// An id as the user can write it: its name, else its hash in decimal.
pub open spec fn written_id(id: IdView) -> Seq<char> {
    match id {
        IdView::Name(name) => name,
        IdView::Hash(hash) => decimal_text(hash as nat),
    }
}

/// The id as the user can write it: its name, else its hash in decimal.
pub fn write_id(id: &ObjectId) -> (r: String)
    ensures
        r@ == written_id(id@),
{
    match id {
        ObjectId::String(name) => name.clone(),
        ObjectId::Hash(hash) => decimal(*hash as u64),
    }
}

/// An id is read back from the way it is written, unless it is a name that looks like a hash.
pub proof fn lemma_written_id_is_meant(id: IdView)
    requires
        id matches IdView::Name(name) ==> id_meant(name) == id,
    ensures
        id_meant(written_id(id)) == id,
{
    if let IdView::Hash(hash) = id {
        crate::text::lemma_decimal_reads_back(hash);
        crate::text::lemma_decimal_has_no_letters(hash as nat);
        let text = decimal_text(hash as nat);
        if text.len() > 0 {
            assert('0' <= text[0] <= '9');
        }
    }
}

// ---------------------------------------------------------------------------
// The dictionary
// ---------------------------------------------------------------------------
/// Known names by their hash.
pub type FNVDictionary = HashMap<u32, String>;

/// What a dictionary says.
pub open spec fn dictionary_view(d: Map<u32, String>) -> Map<u32, Seq<char>> {
    d.map_values(|name: String| name@)
}

/// The name that a dictionary gives to a hash.
pub open spec fn name_in(d: Map<u32, Seq<char>>, hash: u32) -> Option<Seq<char>> {
    if d.dom().contains(hash) {
        Some(d[hash])
    } else {
        None
    }
}

/// Is the line of a dictionary file a name, and neither blank nor a comment?
pub open spec fn names_symbol(line: Seq<char>) -> bool {
    line.len() > 0 && line[0] != '#'
}

/// The dictionary of the names on the lines; of two names with one hash the later one stays.
pub open spec fn dictionary_of(names: Seq<Seq<char>>) -> Map<u32, Seq<char>>
    decreases names.len(),
{
    if names.len() == 0 {
        Map::empty()
    } else {
        let before = dictionary_of(names.drop_last());
        if names_symbol(names.last()) {
            before.insert(name_hash(names.last()), names.last())
        } else {
            before
        }
    }
}

/// Reads a dictionary file: one symbol to a line, blank lines and lines with `#` ignored.
pub fn parse_dictionary(input: &str) -> (r: FNVDictionary)
    ensures
        dictionary_view(r@) == dictionary_of(lines_of(input@)),
{
    let all = lines(input);
    let mut r: FNVDictionary = HashMap::new();
    let ghost texts = lines_of(input@);
    let ghost view = |l: String| l@;
    assert(texts == all@.map_values(view));
    let mut i: usize = 0;
    assert(texts.take(0) =~= Seq::<Seq<char>>::empty());
    assert(dictionary_view(r@) =~= Map::<u32, Seq<char>>::empty());
    while i < all.len()
        invariant
            i <= all@.len(),
            texts.len() == all@.len(),
            forall|k: int| 0 <= k < all@.len() ==> #[trigger] texts[k] == all@[k]@,
            dictionary_view(r@) == dictionary_of(texts.take(i as int)),
        decreases all@.len() - i,
    {
        let ghost before = r@;
        assert(texts.take(i + 1).drop_last() =~= texts.take(i as int));
        assert(texts.take(i + 1).last() == all@[i as int]@);
        let line = &all[i];
        if !line.as_str().is_empty() && line.as_str().get_char(0) != '#' {
            let hash = hash_name(line.as_str());
            r.insert(hash, line.clone());
            assert(dictionary_view(r@) =~= dictionary_view(before).insert(hash, line@));
        }
        i = i + 1;
    }
    assert(texts.take(texts.len() as int) =~= texts);
    r
}

/// The name that a dictionary gives to a hash.
pub fn look_up(dictionary: &FNVDictionary, hash: u32) -> (r: Option<String>)
    ensures
        text_view(r) == name_in(dictionary_view(dictionary@), hash),
{
    match dictionary.get(&hash) {
        Some(name) => Some(name.clone()),
        None => None,
    }
}

/// Every name in a parsed dictionary stands under its own hash.
pub proof fn lemma_dictionary_hashes(names: Seq<Seq<char>>, hash: u32)
    requires
        dictionary_of(names).dom().contains(hash),
    ensures
        name_hash(dictionary_of(names)[hash]) == hash,
        names.contains(dictionary_of(names)[hash]),
    decreases names.len(),
{
    if names.len() > 0 {
        let before = dictionary_of(names.drop_last());
        if names_symbol(names.last()) && name_hash(names.last()) == hash {
            assert(names[names.len() - 1] == names.last());
        } else {
            lemma_dictionary_hashes(names.drop_last(), hash);
            let name = before[hash];
            let k = choose|k: int| 0 <= k < names.len() - 1 && names.drop_last()[k] == name;
            assert(names[k] == name);
        }
    }
}

} // verus!
