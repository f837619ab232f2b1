//! Numbers and lines as text.

use vstd::arithmetic::power::pow;
use vstd::prelude::*;

verus! {

/// `String::push` adds one character at the end of the string.
pub assume_specification[ std::string::String::push ](s: &mut std::string::String, c: char)
    ensures
        final(s)@ == old(s)@.push(c),
;

/// The characters of `s`.
pub fn chars_of(s: &str) -> (r: Vec<char>)
    ensures
        r@ == s@,
{
    let mut r: Vec<char> = Vec::new();
    for c in it: s.chars()
        invariant
            it.seq() == s@,
            r@ == s@.take(it.index() as int),
    {
        r.push(c);
        assert(s@.take(it.index() + 1) =~= s@.take(it.index() as int).push(c));
    }
    assert(s@.take(s@.len() as int) =~= s@);
    r
}

/// The characters of `chars` from `from` up to `to`, as a string.
pub fn string_of(chars: &Vec<char>, from: usize, to: usize) -> (r: String)
    requires
        from <= to <= chars@.len(),
    ensures
        r@ == chars@.subrange(from as int, to as int),
{
    let mut r = String::new();
    let mut i: usize = from;
    while i < to
        invariant
            from <= i <= to <= chars@.len(),
            r@ == chars@.subrange(from as int, i as int),
        decreases to - i,
    {
        r.push(chars[i]);
        assert(chars@.subrange(from as int, i + 1) =~= chars@.subrange(from as int, i as int).push(
            chars@[i as int],
        ));
        i = i + 1;
    }
    r
}

/// The digit of value `d`, lower case above nine.
pub open spec fn digit_char(d: int) -> char {
    if d < 10 {
        ('0' as int + d) as char
    } else {
        ('a' as int + d - 10) as char
    }
}

/// `digit_char` for a digit of base sixteen.
fn digit(d: u64) -> (c: char)
    requires
        d < 16,
    ensures
        c == digit_char(d as int),
{
    if d < 8 {
        if d < 4 {
            if d < 2 {
                if d == 0 { '0' } else { '1' }
            } else {
                if d == 2 { '2' } else { '3' }
            }
        } else {
            if d < 6 {
                if d == 4 { '4' } else { '5' }
            } else {
                if d == 6 { '6' } else { '7' }
            }
        }
    } else {
        if d < 12 {
            if d < 10 {
                if d == 8 { '8' } else { '9' }
            } else {
                if d == 10 { 'a' } else { 'b' }
            }
        } else {
            if d < 14 {
                if d == 12 { 'c' } else { 'd' }
            } else {
                if d == 14 { 'e' } else { 'f' }
            }
        }
    }
}

/// `n` in decimal, without leading zeros.
pub open spec fn decimal_text(n: nat) -> Seq<char>
    decreases n,
{
    if n < 10 {
        seq![digit_char(n as int)]
    } else {
        decimal_text(n / 10).push(digit_char((n % 10) as int))
    }
}

/// `n` in decimal.
pub fn decimal(n: u64) -> (r: String)
    ensures
        r@ == decimal_text(n as nat),
    decreases n,
{
    if n < 10 {
        let mut r = String::new();
        r.push(digit(n));
        assert(r@ =~= seq![digit_char(n as int)]);
        r
    } else {
        let mut r = decimal(n / 10);
        r.push(digit(n % 10));
        r
    }
}

/// The last `width` hexadecimal digits of `n`.
pub open spec fn hex_text(n: nat, width: nat) -> Seq<char>
    decreases width,
{
    if width == 0 {
        Seq::empty()
    } else {
        hex_text(n / 16, (width - 1) as nat).push(digit_char((n % 16) as int))
    }
}

fn hex_digits(n: u64, width: usize) -> (r: String)
    ensures
        r@ == hex_text(n as nat, width as nat),
    decreases width,
{
    if width == 0 {
        String::new()
    } else {
        let mut r = hex_digits(n / 16, width - 1);
        r.push(digit(n % 16));
        r
    }
}

/// An id as it is shown in hexadecimal: `0x` and eight digits.
pub open spec fn hex_id_text(id: u32) -> Seq<char> {
    "0x"@ + hex_text(id as nat, 8)
}

/// An id in hexadecimal: `0x` and eight lower-case digits.
pub fn hex_id(id: u32) -> (r: String)
    ensures
        r@ == hex_id_text(id),
{
    join("0x", hex_digits(id as u64, 8).as_str())
}

/// The upper-case letter of a digit.
pub open spec fn upper_digit(c: char) -> char {
    if 'a' <= c <= 'f' {
        (c as int - 32) as char
    } else {
        c
    }
}

/// An id in hexadecimal with capitals: `0x` and eight digits.
pub open spec fn capital_hex_id_text(id: u32) -> Seq<char> {
    "0x"@ + hex_text(id as nat, 8).map_values(|c: char| upper_digit(c))
}

/// An id in hexadecimal with capitals: `0x` and eight upper-case digits.
pub fn capital_hex_id(id: u32) -> (r: String)
    ensures
        r@ == capital_hex_id_text(id),
{
    let digits = chars_of(hex_digits(id as u64, 8).as_str());
    let mut r = "0x".to_owned();
    let mut i: usize = 0;
    while i < digits.len()
        invariant
            i <= digits@.len(),
            r@ == "0x"@ + digits@.take(i as int).map_values(|c: char| upper_digit(c)),
        decreases digits@.len() - i,
    {
        let ghost before = digits@.take(i as int).map_values(|c: char| upper_digit(c));
        let c = digits[i];
        let upper: char = match c {
            'a' => 'A',
            'b' => 'B',
            'c' => 'C',
            'd' => 'D',
            'e' => 'E',
            'f' => 'F',
            other => other,
        };
        assert(upper == upper_digit(c));
        r.push(upper);
        i = i + 1;
        assert(digits@.take(i as int).map_values(|c: char| upper_digit(c)) =~= before.push(upper));
        assert(r@ =~= "0x"@ + before.push(upper));
    }
    assert(digits@.take(i as int) =~= digits@);
    r
}

/// One text after the other.
pub fn join(a: &str, b: &str) -> (r: String)
    ensures
        r@ == a@ + b@,
{
    let mut r = a.to_owned();
    r.append(b);
    r
}

/// Three texts after one another.
pub fn join3(a: &str, b: &str, c: &str) -> (r: String)
    ensures
        r@ == a@ + b@ + c@,
{
    let mut r = join(a, b);
    r.append(c);
    r
}

/// `n` copies of `c`.
pub open spec fn repeated(c: char, n: int) -> Seq<char> {
    Seq::new(
        if n < 0 {
            0
        } else {
            n as nat
        },
        |i: int| c,
    )
}

/// `s` filled up on the left with `c` to `width` characters.
pub open spec fn padded_left(s: Seq<char>, width: int, c: char) -> Seq<char> {
    repeated(c, width - s.len()) + s
}

/// `s` filled up on the right with spaces to `width` characters.
pub open spec fn padded_right(s: Seq<char>, width: int) -> Seq<char> {
    s + repeated(' ', width - s.len())
}

fn repeat_char(c: char, n: usize) -> (r: String)
    ensures
        r@ == repeated(c, n as int),
{
    let mut r = String::new();
    let mut i: usize = 0;
    while i < n
        invariant
            i <= n,
            r@ =~= repeated(c, i as int),
        decreases n - i,
    {
        r.push(c);
        i = i + 1;
    }
    r
}

/// `s` filled up on the left with `c` to `width` characters; a longer text is left as it is.
pub fn pad_left(s: &str, width: usize, c: char) -> (r: String)
    ensures
        r@ == padded_left(s@, width as int, c),
{
    let n = s.unicode_len();
    let mut r = if n < width {
        repeat_char(c, width - n)
    } else {
        String::new()
    };
    r.append(s);
    assert(r@ =~= padded_left(s@, width as int, c));
    r
}

/// `s` filled up on the right with spaces to `width` characters; a longer text is left as it is.
pub fn pad_right(s: &str, width: usize) -> (r: String)
    ensures
        r@ == padded_right(s@, width as int),
{
    let n = s.unicode_len();
    let mut r = s.to_owned();
    if n < width {
        r.append(repeat_char(' ', width - n).as_str());
    }
    assert(r@ =~= padded_right(s@, width as int));
    r
}

/// The value of a digit in base `radix`, letters in either case.
pub open spec fn digit_value(c: char, radix: int) -> Option<int> {
    let v = if '0' <= c <= '9' {
        c as int - '0' as int
    } else if 'a' <= c <= 'z' {
        c as int - 'a' as int + 10
    } else if 'A' <= c <= 'Z' {
        c as int - 'A' as int + 10
    } else {
        radix
    };
    if v < radix {
        Some(v)
    } else {
        None
    }
}

/// Is every character a digit of base `radix`?
pub open spec fn all_digits(s: Seq<char>, radix: int) -> bool {
    forall|i: int| 0 <= i < s.len() ==> digit_value(#[trigger] s[i], radix) is Some
}

/// The number that the digits of `s` spell in base `radix`.
pub open spec fn digits_value(s: Seq<char>, radix: int) -> int
    decreases s.len(),
{
    if s.len() == 0 {
        0
    } else {
        digits_value(s.drop_last(), radix) * radix + digit_value(s.last(), radix).unwrap()
    }
}

/// `s` without a leading plus sign.
pub open spec fn unsigned_part(s: Seq<char>) -> Seq<char> {
    if s.len() > 0 && s[0] == '+' {
        s.skip(1)
    } else {
        s
    }
}

/// The 32-bit number that `s` spells in base `radix`: an optional plus sign, then one digit or
/// more, and nothing else.
pub open spec fn number_in(s: Seq<char>, radix: int) -> Option<u32> {
    let digits = unsigned_part(s);
    if digits.len() > 0 && all_digits(digits, radix) && digits_value(digits, radix)
        <= u32::MAX {
        Some(digits_value(digits, radix) as u32)
    } else {
        None
    }
}

/// The first digits of a number make no larger one than all of them.
pub proof fn lemma_digits_value_grows(s: Seq<char>, radix: int, i: int)
    requires
        0 <= i <= s.len(),
        all_digits(s, radix),
        1 <= radix,
    ensures
        0 <= digits_value(s.take(i), radix) <= digits_value(s, radix),
    decreases s.len(),
{
    if i == s.len() {
        assert(s.take(i) =~= s);
        if s.len() > 0 {
            assert forall|k: int| 0 <= k < s.drop_last().len() implies digit_value(
                #[trigger] s.drop_last()[k],
                radix,
            ) is Some by {
                assert(digit_value(s[k], radix) is Some);
            }
            assert(s.drop_last().take(s.len() - 1) =~= s.drop_last());
            lemma_digits_value_grows(s.drop_last(), radix, s.len() - 1);
            assert(digit_value(s[s.len() - 1], radix) is Some);
            let a = digits_value(s.drop_last(), radix);
            assert(a * radix >= 0) by (nonlinear_arith)
                requires
                    a >= 0,
                    radix >= 1,
            ;
        }
    } else {
        assert forall|k: int| 0 <= k < s.drop_last().len() implies digit_value(
            #[trigger] s.drop_last()[k],
            radix,
        ) is Some by {
            assert(digit_value(s[k], radix) is Some);
        }
        lemma_digits_value_grows(s.drop_last(), radix, i);
        assert(s.drop_last().take(i) =~= s.take(i));
        assert(digit_value(s[s.len() - 1], radix) is Some);
        let a = digits_value(s.drop_last(), radix);
        assert(a * radix >= a) by (nonlinear_arith)
            requires
                a >= 0,
                radix >= 1,
        ;
    }
}

fn value_of_digit(c: char, radix: u32) -> (r: Option<u32>)
    requires
        2 <= radix <= 36,
    ensures
        match r {
            Some(v) => digit_value(c, radix as int) == Some(v as int) && v < radix,
            None => digit_value(c, radix as int) is None,
        },
{
    let code: u32 = c as u32;
    let v: u32 = if '0' <= c && c <= '9' {
        code - 48
    } else if 'a' <= c && c <= 'z' {
        code - 87
    } else if 'A' <= c && c <= 'Z' {
        code - 55
    } else {
        radix
    };
    if v < radix {
        Some(v)
    } else {
        None
    }
}

/// Reads a 32-bit number in base `radix`, from the character at `from` to the end of the text.
pub fn parse_number(chars: &Vec<char>, from: usize, radix: u32) -> (r: Option<u32>)
    requires
        from <= chars@.len(),
        2 <= radix <= 36,
    ensures
        r == number_in(chars@.skip(from as int), radix as int),
{
    let ghost whole = chars@.skip(from as int);
    let start: usize = if from < chars.len() && chars[from] == '+' {
        from + 1
    } else {
        from
    };
    let ghost digits = unsigned_part(whole);
    assert(digits =~= chars@.skip(start as int));
    if start == chars.len() {
        return None;
    }
    let mut value: u64 = 0;
    let mut i: usize = start;
    let ghost mut seen: int = 0;
    assert(digits.take(0) =~= Seq::<char>::empty());
    while i < chars.len()
        invariant
            start <= i <= chars@.len(),
            seen == i - start,
            digits == chars@.skip(start as int),
            digits == unsigned_part(chars@.skip(from as int)),
            2 <= radix <= 36,
            forall|k: int| 0 <= k < seen ==> digit_value(#[trigger] digits[k], radix as int) is Some,
            value == digits_value(digits.take(seen), radix as int),
            value <= u32::MAX,
        decreases chars@.len() - i,
    {
        assert(digits[seen] == chars@[i as int]);
        match value_of_digit(chars[i], radix) {
            None => {
                return None;
            },
            Some(v) => {
                assert(digits.take(seen + 1).drop_last() =~= digits.take(seen));
                assert(value * radix <= u32::MAX * 36) by (nonlinear_arith)
                    requires
                        value <= u32::MAX,
                        radix <= 36,
                ;
                value = value * (radix as u64) + (v as u64);
                if value > 0xffff_ffff {
                    proof {
                        if all_digits(digits, radix as int) {
                            lemma_digits_value_grows(digits, radix as int, seen + 1);
                        }
                    }
                    return None;
                }
            },
        }
        i = i + 1;
        proof {
            seen = seen + 1;
        }
    }
    assert(digits.take(seen) =~= digits);
    Some(value as u32)
}

proof fn lemma_leading_zeros(s: Seq<char>, n: int)
    requires
        0 <= n,
    ensures
        digits_value(repeated('0', n) + s, 10) == digits_value(s, 10),
    decreases n + s.len(),
{
    let zeros = repeated('0', n);
    let t = zeros + s;
    if s.len() > 0 {
        assert(t.drop_last() =~= zeros + s.drop_last());
        assert(t.last() == s.last());
        lemma_leading_zeros(s.drop_last(), n);
    } else if n > 0 {
        assert(s =~= Seq::<char>::empty());
        assert(t.drop_last() =~= repeated('0', n - 1) + s);
        assert(t.last() == '0');
        lemma_leading_zeros(s, n - 1);
    } else {
        assert(t =~= s);
    }
}

/// Two numbers that are filled up with zeros to the same width are different texts if they are
/// different numbers.
pub proof fn lemma_padded_decimals_differ(a: nat, b: nat, width: int)
    requires
        a != b,
    ensures
        padded_left(decimal_text(a), width, '0') != padded_left(decimal_text(b), width, '0'),
{
    let s = decimal_text(a);
    let t = decimal_text(b);
    lemma_decimal_digits(a);
    lemma_decimal_digits(b);
    let zeros_a: int = if width < s.len() {
        0
    } else {
        width - s.len()
    };
    let zeros_b: int = if width < t.len() {
        0
    } else {
        width - t.len()
    };
    lemma_leading_zeros(s, zeros_a);
    lemma_leading_zeros(t, zeros_b);
    assert(repeated('0', width - s.len()) =~= repeated('0', zeros_a));
    assert(repeated('0', width - t.len()) =~= repeated('0', zeros_b));
}

/// A decimal number reads back as itself.
pub proof fn lemma_decimal_reads_back(n: u32)
    ensures
        number_in(decimal_text(n as nat), 10) == Some(n),
{
    lemma_decimal_digits(n as nat);
}

proof fn lemma_decimal_digits(n: nat)
    ensures
        decimal_text(n).len() > 0,
        all_digits(decimal_text(n), 10),
        digits_value(decimal_text(n), 10) == n,
        decimal_text(n)[0] != '+',
    decreases n,
{
    if n < 10 {
        let s = seq![digit_char(n as int)];
        assert(s.drop_last() =~= Seq::<char>::empty());
        reveal_with_fuel(digits_value, 2);
    } else {
        lemma_decimal_digits(n / 10);
        let a = decimal_text(n / 10);
        let s = a.push(digit_char((n % 10) as int));
        assert(s.drop_last() =~= a);
        assert forall|k: int| 0 <= k < s.len() implies digit_value(#[trigger] s[k], 10) is Some by {
            if k < a.len() {
                assert(s[k] == a[k]);
            }
        }
    }
}

proof fn lemma_hex_value(n: nat, width: nat)
    requires
        n < pow(16, width),
    ensures
        hex_text(n, width).len() == width,
        all_digits(hex_text(n, width), 16),
        digits_value(hex_text(n, width), 16) == n,
    decreases width,
{
    reveal(pow);
    if width > 0 {
        let front = hex_text(n / 16, (width - 1) as nat);
        let s = hex_text(n, width);
        assert(pow(16, width) == 16 * pow(16, (width - 1) as nat));
        assert(n / 16 < pow(16, (width - 1) as nat)) by (nonlinear_arith)
            requires
                n < 16 * pow(16, (width - 1) as nat),
        ;
        lemma_hex_value(n / 16, (width - 1) as nat);
        assert(s.drop_last() =~= front);
        assert(s.last() == digit_char((n % 16) as int));
        assert(digit_value(s.last(), 16) == Some((n % 16) as int));
        assert forall|i: int| 0 <= i < s.len() implies digit_value(#[trigger] s[i], 16) is Some by {
            if i < front.len() {
                assert(s[i] == front[i]);
            }
        }
    }
}

proof fn lemma_capitals_value(s: Seq<char>)
    requires
        all_digits(s, 16),
    ensures
        all_digits(s.map_values(|c: char| upper_digit(c)), 16),
        digits_value(s.map_values(|c: char| upper_digit(c)), 16) == digits_value(s, 16),
    decreases s.len(),
{
    let capitals = s.map_values(|c: char| upper_digit(c));
    assert forall|i: int| 0 <= i < capitals.len() implies digit_value(#[trigger] capitals[i], 16)
        == digit_value(s[i], 16) by {
        assert(digit_value(s[i], 16) is Some);
    }
    if s.len() > 0 {
        let front = s.drop_last();
        assert forall|i: int| 0 <= i < front.len() implies digit_value(#[trigger] front[i], 16)
            is Some by {
            assert(front[i] == s[i]);
        }
        lemma_capitals_value(front);
        assert(capitals.drop_last() =~= front.map_values(|c: char| upper_digit(c)));
        assert(digit_value(capitals[s.len() - 1], 16) == digit_value(s[s.len() - 1], 16));
    }
}

/// Eight hexadecimal digits, in capitals or not, read back as the number that they are of.
pub proof fn lemma_hex_reads_back(n: u32)
    ensures
        number_in(hex_text(n as nat, 8), 16) == Some(n),
        number_in(hex_text(n as nat, 8).map_values(|c: char| upper_digit(c)), 16) == Some(n),
{
    assert(pow(16, 8) == 0x1_0000_0000) by {
        reveal_with_fuel(pow, 9);
    }
    let s = hex_text(n as nat, 8);
    let capitals = s.map_values(|c: char| upper_digit(c));
    lemma_hex_value(n as nat, 8);
    lemma_capitals_value(s);
    assert(digit_value(s[0], 16) is Some);
    assert(digit_value(capitals[0], 16) is Some);
}

/// A decimal number holds digits only.
pub proof fn lemma_decimal_has_no_letters(n: nat)
    ensures
        forall|k: int| 0 <= k < decimal_text(n).len() ==> '0' <= #[trigger] decimal_text(n)[k] <= '9',
    decreases n,
{
    if n >= 10 {
        lemma_decimal_has_no_letters(n / 10);
        let a = decimal_text(n / 10);
        let s = decimal_text(n);
        assert(s == a.push(digit_char((n % 10) as int)));
        assert forall|k: int| 0 <= k < s.len() implies '0' <= #[trigger] s[k] <= '9' by {
            if k < a.len() {
                assert(s[k] == a[k]);
            }
        }
    } else {
        assert(decimal_text(n) == seq![digit_char(n as int)]);
    }
}

/// A line without the carriage return before its newline.
pub open spec fn without_return(line: Seq<char>) -> Seq<char> {
    if line.len() > 0 && line.last() == '\r' {
        line.drop_last()
    } else {
        line
    }
}

/// The lines of a text: what stands before each newline, less a carriage return before it, and
/// what stands behind the last newline, if anything does.
pub open spec fn lines_of(text: Seq<char>) -> Seq<Seq<char>>
    decreases text.len(),
{
    if text.len() == 0 {
        Seq::empty()
    } else {
        let n = crate::seqs::first_where(text, |c: char| c == '\n');
        if 0 <= n < text.len() {
            seq![without_return(text.take(n))] + lines_of(text.skip(n + 1))
        } else {
            seq![text]
        }
    }
}

/// The lines of a text.
pub fn lines(text: &str) -> (r: Vec<String>)
    ensures
        r@.map_values(|l: String| l@) == lines_of(text@),
{
    let chars = chars_of(text);
    let mut r: Vec<String> = Vec::new();
    let mut start: usize = 0;
    let ghost view = |l: String| l@;
    assert(text@.skip(0) =~= text@);
    assert(r@.map_values(view) =~= Seq::<Seq<char>>::empty());
    while start < chars.len()
        invariant
            start <= chars@.len(),
            chars@ == text@,
            view == (|l: String| l@),
            lines_of(text@) == r@.map_values(view) + lines_of(text@.skip(start as int)),
        decreases chars@.len() - start,
    {
        let ghost rest = text@.skip(start as int);
        let ghost newline = |c: char| c == '\n';
        let mut end: usize = start;
        while end < chars.len() && chars[end] != '\n'
            invariant
                start <= end <= chars@.len(),
                forall|k: int| start <= k < end ==> chars@[k] != '\n',
            decreases chars@.len() - end,
        {
            end = end + 1;
        }
        proof {
            assert forall|k: int| 0 <= k < end - start implies !newline(#[trigger] rest[k]) by {
                assert(rest[k] == chars@[start + k]);
            }
            if end < chars@.len() {
                assert(rest[end - start] == chars@[end as int]);
            }
            crate::seqs::lemma_first_where(rest, newline, end - start);
        }
        let ghost before = r@;
        if end < chars.len() {
            let stop: usize = if end > start && chars[end - 1] == '\r' {
                end - 1
            } else {
                end
            };
            let line = string_of(&chars, start, stop);
            assert(rest.take(end - start) =~= chars@.subrange(start as int, end as int));
            assert(line@ =~= without_return(rest.take(end - start)));
            assert(rest.skip(end - start + 1) =~= text@.skip(end + 1));
            r.push(line);
            assert(r@.map_values(view) =~= before.map_values(view) + seq![line@]);
            assert(r@.map_values(view) + lines_of(text@.skip(end + 1)) =~= before.map_values(view) + (
            seq![line@] + lines_of(text@.skip(end + 1))));
            start = end + 1;
        } else {
            let line = string_of(&chars, start, end);
            assert(line@ =~= rest);
            r.push(line);
            assert(r@.map_values(view) =~= before.map_values(view) + seq![line@]);
            assert(text@.skip(end as int) =~= Seq::<char>::empty());
            assert(r@.map_values(view) + lines_of(text@.skip(end as int)) =~= before.map_values(view)
                + seq![rest]);
            start = end;
        }
    }
    assert(text@.skip(start as int) =~= Seq::<char>::empty());
    assert(r@.map_values(view) + lines_of(text@.skip(start as int)) =~= r@.map_values(view));
    r
}

} // verus!
