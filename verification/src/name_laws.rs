//! What names, numbers and dictionaries mean.

use vstd::prelude::*;
use vstd::utf8::encode_utf8;

use crate::bank::{has_hash, resolved, ObjectData};
use crate::ids::{
    dictionary_of, fnv_hash, has_hex_prefix, hex_number, id_hash, id_meant, name_hash, name_in,
    numeric_id, IdView,
};
use crate::seqs::lemma_first_where;
use crate::text::{
    all_digits, capital_hex_id_text, decimal_text, digit_value, digits_value, hex_id_text,
    hex_text, lemma_decimal_reads_back, lemma_hex_reads_back, lines_of, number_in, padded_left,
    padded_right, unsigned_part, upper_digit,
};

verus! {

// ---------------------------------------------------------------------------
// Hashes
// ---------------------------------------------------------------------------
/// The hash of a text with one more byte: the hash so far times the prime, modulo two to the
/// thirty-second, with the byte, in lower case, mixed in by exclusive or.
pub proof fn lemma_hash_grows(bytes: Seq<u8>, b: u8)
    ensures
        b < 65 || b > 90 ==> fnv_hash(bytes.push(b)) == ((((fnv_hash(bytes) as int) * 16777619)
            % 4294967296) as u32) ^ (b as u32),
        65 <= b <= 90 ==> fnv_hash(bytes.push(b)) == fnv_hash(bytes.push((b + 32) as u8)),
        fnv_hash(Seq::empty()) == 2166136261,
{
    assert(bytes.push(b).drop_last() =~= bytes);
    assert(bytes.push((b + 32) as u8).drop_last() =~= bytes);
}

proof fn lemma_same_case(a: Seq<u8>, b: Seq<u8>)
    requires
        a.len() == b.len(),
        forall|i: int|
            0 <= i < a.len() ==> #[trigger] a[i] == b[i] || (65 <= a[i] <= 90 && a[i] + 32 == b[i])
                || (65 <= b[i] <= 90 && b[i] + 32 == a[i]),
    ensures
        fnv_hash(a) == fnv_hash(b),
    decreases a.len(),
{
    if a.len() > 0 {
        let x = a.drop_last();
        let y = b.drop_last();
        assert forall|i: int| 0 <= i < x.len() implies #[trigger] x[i] == y[i] || (65 <= x[i] <= 90
            && x[i] + 32 == y[i]) || (65 <= y[i] <= 90 && y[i] + 32 == x[i]) by {
            assert(a[i] == x[i] && b[i] == y[i]);
        }
        lemma_same_case(x, y);
        let n = a.len() - 1;
        assert(a[n] == a.last() && b[n] == b.last());
    }
}

/// Names that differ only in the case of letters from `A` to `Z` have the same hash.
pub proof fn lemma_case_does_not_matter(a: Seq<char>, b: Seq<char>)
    requires
        encode_utf8(a).len() == encode_utf8(b).len(),
        forall|i: int|
            0 <= i < encode_utf8(a).len() ==> {
                let x = #[trigger] encode_utf8(a)[i];
                let y = encode_utf8(b)[i];
                x == y || (65 <= x <= 90 && x + 32 == y) || (65 <= y <= 90 && y + 32 == x)
            },
    ensures
        name_hash(a) == name_hash(b),
        id_hash(IdView::Name(a)) == id_hash(IdView::Name(b)),
{
    lemma_same_case(encode_utf8(a), encode_utf8(b));
}

// ---------------------------------------------------------------------------
// Numbers
// ---------------------------------------------------------------------------
/// One more digit makes the number ten times as large, and more by the digit. Decimal numbers have
/// no zero in front.
pub proof fn lemma_decimal_grows(n: nat, d: nat)
    requires
        d < 10,
        n > 0,
    ensures
        decimal_text(10 * n + d) == decimal_text(n).push(('0' as int + d) as char),
        decimal_text(n)[0] != '0',
    decreases n,
{
    assert((10 * n + d) / 10 == n);
    assert((10 * n + d) % 10 == d);
    if n >= 10 {
        lemma_decimal_grows(n / 10, n % 10);
        assert(decimal_text(n) == decimal_text(n / 10).push(decimal_text(n).last()));
    }
}

/// A text is filled up to its width and no further, on the left or on the right, and stays whole.
pub proof fn lemma_padding(s: Seq<char>, width: nat, c: char)
    ensures
        ({
            let l = padded_left(s, width as int, c);
            let r = padded_right(s, width as int);
            let n = if s.len() < width {
                width
            } else {
                s.len()
            };
            &&& l.len() == n
            &&& r.len() == n
            &&& l.skip(n - s.len()) == s
            &&& r.take(s.len() as int) == s
            &&& forall|i: int| 0 <= i < n - s.len() ==> #[trigger] l[i] == c
            &&& forall|i: int| s.len() <= i < n ==> #[trigger] r[i] == ' '
        }),
{
    let l = padded_left(s, width as int, c);
    let r = padded_right(s, width as int);
    let n = if s.len() < width {
        width
    } else {
        s.len()
    };
    assert(l.skip(n - s.len()) =~= s);
    assert(r.take(s.len() as int) =~= s);
}

/// A digit more makes a number larger by the radix, and more by the digit, as long as 32 bits hold
/// it; letters are digits above nine in base sixteen, in either case.
pub proof fn lemma_number_grows(s: Seq<char>, c: char, d: u32, radix: int)
    requires
        s.len() > 0,
        s[0] != '+',
        radix == 10 || radix == 16,
        ('0' <= c <= '9' && d == c as u32 - '0' as u32) || (radix == 16 && 'a' <= c <= 'f' && d
            == c as u32 - 'a' as u32 + 10) || (radix == 16 && 'A' <= c <= 'F' && d == c as u32
            - 'A' as u32 + 10),
    ensures
        match number_in(s, radix) {
            Some(n) => number_in(s.push(c), radix) == (if n * radix + d <= u32::MAX {
                Some((n * radix + d) as u32)
            } else {
                None
            }),
            None => number_in(s.push(c), radix) is None,
        },
{
    let t = s.push(c);
    assert(t[0] == s[0]);
    assert(unsigned_part(s) == s && unsigned_part(t) == t);
    assert(t.drop_last() =~= s);
    assert(digit_value(c, radix) == Some(d as int));
    if all_digits(t, radix) {
        assert forall|i: int| 0 <= i < s.len() implies digit_value(#[trigger] s[i], radix)
            is Some by {
            assert(t[i] == s[i]);
        }
        if digits_value(s, radix) > u32::MAX {
            assert(digits_value(t, radix) > u32::MAX) by (nonlinear_arith)
                requires
                    digits_value(t, radix) == digits_value(s, radix) * radix + d,
                    digits_value(s, radix) > u32::MAX,
                    radix == 10 || radix == 16,
                    d >= 0,
            ;
        }
    }
    if all_digits(s, radix) {
        assert forall|i: int| 0 <= i < t.len() implies digit_value(#[trigger] t[i], radix)
            is Some by {
            if i < s.len() {
                assert(t[i] == s[i]);
            }
        }
        crate::text::lemma_digits_value_grows(s, radix, 0);
    }
}

/// One digit is its own number.
pub proof fn lemma_one_digit(c: char)
    requires
        '0' <= c <= '9',
    ensures
        number_in(seq![c], 10) == Some((c as u32 - '0' as u32) as u32),
        number_in(seq![c], 16) == Some((c as u32 - '0' as u32) as u32),
{
    let s = seq![c];
    assert(s.drop_last() =~= Seq::<char>::empty());
    reveal_with_fuel(digits_value, 2);
}

/// Every way to write the hash of an object resolves to it: in decimal, as long as the text is not
/// the hexadecimal hash of another.
pub proof fn lemma_any_numeral_resolves(objects: Seq<ObjectData>, text: Seq<char>, hash: u32)
    requires
        has_hash(objects, hash),
        number_in(text, 10) == Some(hash),
        hex_number(text) is None,
    ensures
        resolved(objects, text) == Some(hash),
{
}

proof fn lemma_prefixed(digits: Seq<char>, x: char)
    requires
        x == 'x' || x == 'X',
    ensures
        has_hex_prefix(seq!['0', x] + digits),
        (seq!['0', x] + digits).skip(2) == digits,
{
    assert((seq!['0', x] + digits).skip(2) =~= digits);
}

/// Numbers mean themselves, in decimal, and in hexadecimal behind `0x` or `0X`, in small letters or
/// capitals.
pub proof fn lemma_numbers_are_meant(n: u32)
    ensures
        id_meant(decimal_text(n as nat)) == IdView::Hash(n),
        id_meant(hex_id_text(n)) == IdView::Hash(n),
        id_meant(capital_hex_id_text(n)) == IdView::Hash(n),
        id_meant(seq!['0', 'X'] + hex_text(n as nat, 8)) == IdView::Hash(n),
        numeric_id(decimal_text(n as nat)) == Some(n),
        numeric_id(hex_id_text(n)) == Some(n),
        numeric_id(capital_hex_id_text(n)) == Some(n),
        numeric_id(seq!['+'] + decimal_text(n as nat)) == Some(n),
{
    let d = decimal_text(n as nat);
    let h = hex_text(n as nat, 8);
    let c = h.map_values(|c: char| upper_digit(c));
    lemma_decimal_reads_back(n);
    lemma_hex_reads_back(n);
    crate::text::lemma_decimal_has_no_letters(n as nat);
    crate::line_laws::lemma_id_is_short(n);
    reveal_strlit("0x");
    assert("0x"@ =~= seq!['0', 'x']);
    lemma_prefixed(h, 'x');
    lemma_prefixed(c, 'x');
    lemma_prefixed(h, 'X');
    assert('0' <= d[0] <= '9');
    if d.len() > 1 {
        assert('0' <= d[1] <= '9');
    }
    assert(!has_hex_prefix(d));
    let signed = seq!['+'] + d;
    assert(signed[0] == '+');
    assert(signed.skip(1) =~= d);
    assert(unsigned_part(signed) == d);
    assert(unsigned_part(d) == d);
}

/// A text that is not a number means a name, which is the text itself, and so does one with a sign
/// in front. Only digits make a number, and hexadecimal ones only behind their prefix.
pub proof fn lemma_names_are_meant(s: Seq<char>)
    ensures
        match id_meant(s) {
            IdView::Name(name) => name == s,
            IdView::Hash(hash) => {
                &&& s.len() > 0 && s[0] != '+'
                &&& numeric_id(s) == Some(hash)
                &&& (forall|i: int| 0 <= i < s.len() ==> '0' <= #[trigger] s[i] <= '9') || (
                s.len() > 2 && s[0] == '0' && (s[1] == 'x' || s[1] == 'X'))
            },
        },
        s.len() > 0 && s[0] == '+' ==> id_meant(s) == IdView::Name(s),
        (exists|i: int| 0 <= i < s.len() && #[trigger] digit_value(s[i], 16) is None && i > 2)
            ==> id_meant(s) == IdView::Name(s),
{
    if let IdView::Hash(hash) = id_meant(s) {
        if has_hex_prefix(s) {
            let rest = s.skip(2);
            let digits = unsigned_part(rest);
            assert(digits.len() > 0);
            assert(rest.len() > 0);
            assert forall|i: int| 1 < i < s.len() implies digit_value(#[trigger] s[i], 16) is Some
                || (i == 2 && s[i] == '+') by {
                if rest[0] == '+' {
                    if i > 2 {
                        assert(digits[i - 3] == s[i]);
                        assert(digit_value(digits[i - 3], 16) is Some);
                    }
                } else {
                    assert(digits[i - 2] == s[i]);
                    assert(digit_value(digits[i - 2], 16) is Some);
                }
            }
        } else {
            assert(unsigned_part(s) == s);
            assert forall|i: int| 0 <= i < s.len() implies '0' <= #[trigger] s[i] <= '9' by {
                assert(digit_value(s[i], 10) is Some);
            }
        }
    }
}

// ---------------------------------------------------------------------------
// Lines and dictionaries
// ---------------------------------------------------------------------------
/// A text is cut at its newlines: what stands before the first is the first line, less a carriage
/// return at its end, and the lines of what stands behind it follow. A text without a newline is
/// one line, or none if it is empty.
pub proof fn lemma_lines(line: Seq<char>, rest: Seq<char>)
    requires
        forall|i: int| 0 <= i < line.len() ==> #[trigger] line[i] != '\n',
    ensures
        lines_of(line.push('\n') + rest) == seq![
            if line.len() > 0 && line[line.len() - 1] == '\r' {
                line.take(line.len() - 1)
            } else {
                line
            },
        ] + lines_of(rest),
        line.len() > 0 ==> lines_of(line) == seq![line],
        line.len() == 0 ==> lines_of(line) == Seq::<Seq<char>>::empty(),
{
    let text = line.push('\n') + rest;
    let p = |c: char| c == '\n';
    let n = line.len() as int;
    assert forall|k: int| 0 <= k < n implies !p(#[trigger] text[k]) by {
        assert(text[k] == line[k]);
    }
    assert(text[n] == '\n');
    lemma_first_where(text, p, n);
    assert(text.take(n) =~= line);
    assert(text.skip(n + 1) =~= rest);
    if line.len() > 0 {
        assert(line.drop_last() =~= line.take(line.len() - 1));
        assert forall|k: int| 0 <= k < n implies !p(#[trigger] line[k]) by {}
        lemma_first_where(line, p, n);
    }
}

/// Is the line a name with this hash, and neither blank nor a comment?
pub open spec fn defines(line: Seq<char>, hash: u32) -> bool {
    line.len() > 0 && line[0] != '#' && name_hash(line) == hash
}

/// A dictionary has the name on each line that is neither blank nor a comment, under its hash, and
/// nothing else.
pub proof fn lemma_dictionary(lines: Seq<Seq<char>>, hash: u32)
    ensures
        dictionary_of(lines).contains_key(hash) == exists|i: int|
            0 <= i < lines.len() && defines(#[trigger] lines[i], hash),
    decreases lines.len(),
{
    if lines.len() > 0 {
        let front = lines.drop_last();
        let n = lines.len() - 1;
        lemma_dictionary(front, hash);
        assert(lines[n] == lines.last());
        if dictionary_of(front).contains_key(hash) {
            let i = choose|i: int| 0 <= i < front.len() && defines(#[trigger] front[i], hash);
            assert(defines(lines[i], hash));
        }
        if defines(lines.last(), hash) {
            assert(defines(lines[n], hash));
        }
        if exists|i: int| 0 <= i < lines.len() && defines(#[trigger] lines[i], hash) {
            let i = choose|i: int| 0 <= i < lines.len() && defines(#[trigger] lines[i], hash);
            if i < n {
                assert(defines(front[i], hash));
            }
        }
    }
}

/// Of several names with one hash a dictionary has the last.
pub proof fn lemma_last_name_stays(lines: Seq<Seq<char>>, hash: u32, i: int)
    requires
        0 <= i < lines.len(),
        defines(lines[i], hash),
        forall|j: int| i < j < lines.len() ==> !defines(#[trigger] lines[j], hash),
    ensures
        dictionary_of(lines).contains_key(hash),
        dictionary_of(lines)[hash] == lines[i],
    decreases lines.len(),
{
    let front = lines.drop_last();
    let n = lines.len() - 1;
    assert(lines[n] == lines.last());
    if i < n {
        assert forall|j: int| i < j < front.len() implies !defines(#[trigger] front[j], hash) by {
            assert(lines[j] == front[j]);
        }
        assert(front[i] == lines[i]);
        lemma_last_name_stays(front, hash, i);
        assert(!defines(lines[n], hash));
    }
}

/// A hash is looked up in the dictionary.
pub proof fn lemma_looked_up(d: Map<u32, Seq<char>>, hash: u32)
    ensures
        d.contains_key(hash) ==> name_in(d, hash) == Some(d[hash]),
        !d.contains_key(hash) ==> name_in(d, hash) is None,
{
}

} // verus!
