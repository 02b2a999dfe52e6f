//! Scalars of XML documents: which texts stand for an integer, a real number, data or a date.

use vstd::prelude::*;

use crate::numerals::{decimal, digit, hexadecimal, written};

verus! {

/// The value of a digit, or -1.
pub open spec fn digit_value(b: u8) -> int {
    if '0' as u8 <= b <= '9' as u8 {
        b - '0' as u8
    } else if 'a' as u8 <= b <= 'f' as u8 {
        b - 'a' as u8 + 10
    } else if 'A' as u8 <= b <= 'F' as u8 {
        b - 'A' as u8 + 10
    } else {
        -1
    }
}

/// Whether the bytes from `from` to `to` are digits of a base, at least one.
pub open spec fn digits(text: Seq<u8>, from: int, to: int, base: int) -> bool {
    from < to && forall|i: int| from <= i < to ==> 0 <= digit_value(#[trigger] text[i]) < base
}

/// The number that the digits from `from` to `to` stand for.
pub open spec fn radix_value(text: Seq<u8>, from: int, to: int, base: nat) -> nat
    decreases to - from,
{
    if to <= from {
        0
    } else {
        radix_value(text, from, to - 1, base) * base + digit_value(text[to - 1]) as nat
    }
}

/// The least number that 64 bits do not hold.
pub open spec fn too_large() -> nat {
    0x1_0000_0000_0000_0000
}

/// The value of a digit, or 255.
fn digit_of(b: u8) -> (r: u8)
    ensures
        digit_value(b) == (if r == 255 {
            -1
        } else {
            r as int
        }),
        r < 16 || r == 255,
{
    if '0' as u8 <= b && b <= '9' as u8 {
        b - '0' as u8
    } else if 'a' as u8 <= b && b <= 'f' as u8 {
        b - 'a' as u8 + 10
    } else if 'A' as u8 <= b && b <= 'F' as u8 {
        b - 'A' as u8 + 10
    } else {
        255
    }
}

/// Reads the number that digits stand for, up to the least that 64 bits do not hold.
pub fn read_digits(text: &[u8], from: usize, to: usize, base: u8) -> (r: Option<u128>)
    requires
        to <= text@.len(),
        2 <= base <= 16,
    ensures
        r is Some <==> digits(text@, from as int, to as int, base as int),
        r matches Some(n) ==> n == (if radix_value(text@, from as int, to as int, base as nat)
            < too_large() {
            radix_value(text@, from as int, to as int, base as nat)
        } else {
            too_large()
        }),
{
    if from >= to {
        return None;
    }
    let limit: u128 = 0x1_0000_0000_0000_0000;
    let mut n: u128 = 0;
    for i in from..to
        invariant
            to <= text@.len(),
            2 <= base <= 16,
            limit == too_large(),
            forall|j: int| from <= j < i ==> 0 <= digit_value(#[trigger] text@[j]) < base,
            n == (if radix_value(text@, from as int, i as int, base as nat) < too_large() {
                radix_value(text@, from as int, i as int, base as nat)
            } else {
                too_large()
            }),
    {
        let d: u8 = digit_of(text[i]);
        if d >= base {
            assert(!(0 <= digit_value(text@[i as int]) < base));
            return None;
        }
        let ghost v = radix_value(text@, from as int, i as int, base as nat);
        assert(n * base <= 0x10_0000_0000_0000_0000 && 0 <= n * base) by (nonlinear_arith)
            requires
                0 <= n <= 0x1_0000_0000_0000_0000,
                2 <= base <= 16,
        ;
        assert(v >= 0x1_0000_0000_0000_0000 ==> v * base >= 0x1_0000_0000_0000_0000)
            by (nonlinear_arith)
            requires
                2 <= base <= 16,
                v >= 0,
        ;
        assert(n >= 0x1_0000_0000_0000_0000 ==> n * base >= 0x1_0000_0000_0000_0000)
            by (nonlinear_arith)
            requires
                2 <= base <= 16,
                n >= 0,
        ;
        assert(radix_value(text@, from as int, i + 1, base as nat) == v * base + d);
        let next: u128 = n * base as u128 + d as u128;
        n = if next < limit {
            next
        } else {
            limit
        };
    }
    Some(n)
}

/// Where the text starts behind all the `0x` that it has in a row from `i` on.
pub open spec fn behind_hex_marks(text: Seq<u8>, i: int) -> int
    decreases text.len() - i,
{
    if 0 <= i && i + 1 < text.len() && text[i] == '0' as u8 && text[i + 1] == 'x' as u8 {
        behind_hex_marks(text, i + 2)
    } else {
        i
    }
}

/// Where the text goes on behind a plus sign at `i`, if there is one.
pub open spec fn behind_plus(text: Seq<u8>, i: int) -> int {
    if i < text.len() && text[i] == '+' as u8 {
        i + 1
    } else {
        i
    }
}

/// Whether a text stands for an integer: one of 64 bits, with or without a sign, in decimal, or
/// without a minus sign in hexadecimal behind `0x`.
pub open spec fn integer_text(text: Seq<u8>) -> bool {
    let end = text.len() as int;
    if text.len() >= 2 && text[0] == '0' as u8 && text[1] == 'x' as u8 {
        let from = behind_plus(text, behind_hex_marks(text, 0));
        digits(text, from, end, 16) && radix_value(text, from, end, 16) < too_large()
    } else if text.len() > 0 && text[0] == '-' as u8 {
        digits(text, 1, end, 10) && radix_value(text, 1, end, 10) <= 0x8000_0000_0000_0000
    } else {
        let from = behind_plus(text, 0);
        digits(text, from, end, 10) && radix_value(text, from, end, 10) < too_large()
    }
}

/// Whether a text stands for an integer.
pub fn is_integer_text(text: &[u8]) -> (r: bool)
    ensures
        r == integer_text(text@),
{
    let end: usize = text.len();
    if end >= 2 && text[0] == '0' as u8 && text[1] == 'x' as u8 {
        let mut from: usize = 0;
        while end - from >= 2 && text[from] == '0' as u8 && text[from + 1] == 'x' as u8
            invariant
                end == text@.len(),
                from <= end,
                behind_hex_marks(text@, 0) == behind_hex_marks(text@, from as int),
            decreases end - from,
        {
            from += 2;
        }
        if from < end && text[from] == '+' as u8 {
            from += 1;
        }
        match read_digits(text, from, end, 16) {
            Some(n) => n < 0x1_0000_0000_0000_0000,
            None => false,
        }
    } else if end > 0 && text[0] == '-' as u8 {
        match read_digits(text, 1, end, 10) {
            Some(n) => n <= 0x8000_0000_0000_0000,
            None => false,
        }
    } else {
        let from: usize = if end > 0 && text[0] == '+' as u8 {
            1
        } else {
            0
        };
        match read_digits(text, from, end, 10) {
            Some(n) => n < 0x1_0000_0000_0000_0000,
            None => false,
        }
    }
}

/// Whether a byte is a decimal digit.
pub open spec fn decimal_digit(b: u8) -> bool {
    '0' as u8 <= b <= '9' as u8
}

/// Where the decimal digits end that go on at `i`.
pub open spec fn digits_end(text: Seq<u8>, i: int) -> int
    decreases text.len() - i,
{
    if 0 <= i < text.len() && decimal_digit(text[i]) {
        digits_end(text, i + 1)
    } else {
        i
    }
}

fn find_digits_end(text: &[u8], from: usize) -> (r: usize)
    requires
        from <= text@.len(),
    ensures
        from <= r <= text@.len(),
        r == digits_end(text@, from as int),
{
    let mut i: usize = from;
    while i < text.len() && '0' as u8 <= text[i] && text[i] <= '9' as u8
        invariant
            from <= i <= text@.len(),
            digits_end(text@, from as int) == digits_end(text@, i as int),
        decreases text@.len() - i,
    {
        i += 1;
    }
    i
}

/// Where the text goes on behind a sign at `i`, if there is one.
pub open spec fn behind_sign(text: Seq<u8>, i: int) -> int {
    if i < text.len() && (text[i] == '+' as u8 || text[i] == '-' as u8) {
        i + 1
    } else {
        i
    }
}

/// A letter as a small one.
pub open spec fn small(b: u8) -> u8 {
    if 'A' as u8 <= b <= 'Z' as u8 {
        (b + 32) as u8
    } else {
        b
    }
}

/// Whether the text from `i` on is a word, in whatever case.
pub open spec fn word_from(text: Seq<u8>, i: int, word: Seq<u8>) -> bool {
    text.len() - i == word.len() && forall|k: int|
        0 <= k < word.len() ==> small(text[i + k]) == #[trigger] word[k]
}

/// Whether an exponent, or nothing, stands from `i` to the end.
pub open spec fn exponent_from(text: Seq<u8>, i: int) -> bool {
    i == text.len() || ((text[i] == 'e' as u8 || text[i] == 'E' as u8) && ({
        let from = behind_sign(text, i + 1);
        from < digits_end(text, from) == text.len()
    }))
}

/// Whether a decimal number stands from `i` to the end: digits, of which some may stand behind a
/// point, and an exponent or none.
pub open spec fn number_from(text: Seq<u8>, i: int) -> bool {
    let whole = digits_end(text, i);
    if whole < text.len() && text[whole] == '.' as u8 {
        let end = digits_end(text, whole + 1);
        end - i > 1 && exponent_from(text, end)
    } else {
        whole > i && exponent_from(text, whole)
    }
}

/// Whether a text stands for a real number: `inf`, `infinity` or `nan` in whatever case, or a
/// decimal number, with a sign or without.
pub open spec fn real_text(text: Seq<u8>) -> bool {
    let i = behind_sign(text, 0);
    word_from(text, i, infinity().take(3)) || word_from(text, i, infinity()) || word_from(
        text,
        i,
        nan(),
    ) || number_from(text, i)
}

/// The bytes of `infinity`.
pub open spec fn infinity() -> Seq<u8> {
    seq![
        'i' as u8,
        'n' as u8,
        'f' as u8,
        'i' as u8,
        'n' as u8,
        'i' as u8,
        't' as u8,
        'y' as u8,
    ]
}

/// The bytes of `nan`.
pub open spec fn nan() -> Seq<u8> {
    seq!['n' as u8, 'a' as u8, 'n' as u8]
}

/// A letter as a small one.
pub fn small_of(b: u8) -> (r: u8)
    ensures
        r == small(b),
{
    if 'A' as u8 <= b && b <= 'Z' as u8 {
        b + 32
    } else {
        b
    }
}

fn is_word_from(text: &[u8], i: usize, word: &[u8]) -> (r: bool)
    requires
        i <= text@.len(),
    ensures
        r == word_from(text@, i as int, word@),
{
    let len: usize = text.len();
    if len - i != word.len() {
        return false;
    }
    for k in 0..word.len()
        invariant
            len == text@.len(),
            i + word@.len() == len,
            forall|j: int| 0 <= j < k ==> small(text@[i + j]) == #[trigger] word@[j],
    {
        if small_of(text[i + k]) != word[k] {
            assert(small(text@[i + k]) != word@[k as int]);
            return false;
        }
    }
    true
}

fn is_exponent_from(text: &[u8], i: usize) -> (r: bool)
    requires
        i <= text@.len(),
    ensures
        r == exponent_from(text@, i as int),
{
    let len: usize = text.len();
    if i == len {
        return true;
    }
    if text[i] != 'e' as u8 && text[i] != 'E' as u8 {
        return false;
    }
    let mut from: usize = i + 1;
    if from < len && (text[from] == '+' as u8 || text[from] == '-' as u8) {
        from += 1;
    }
    let end: usize = find_digits_end(text, from);
    from < end && end == len
}

fn is_number_from(text: &[u8], i: usize) -> (r: bool)
    requires
        i <= text@.len(),
    ensures
        r == number_from(text@, i as int),
{
    let whole: usize = find_digits_end(text, i);
    if whole < text.len() && text[whole] == '.' as u8 {
        let end: usize = find_digits_end(text, whole + 1);
        end - i > 1 && is_exponent_from(text, end)
    } else {
        whole > i && is_exponent_from(text, whole)
    }
}

/// Whether a text stands for a real number.
pub fn is_real_text(text: &[u8]) -> (r: bool)
    ensures
        r == real_text(text@),
{
    let i: usize = if text.len() > 0 && (text[0] == '+' as u8 || text[0] == '-' as u8) {
        1
    } else {
        0
    };
    let inf: [u8; 3] = ['i' as u8, 'n' as u8, 'f' as u8];
    let all: [u8; 8] = [
        'i' as u8,
        'n' as u8,
        'f' as u8,
        'i' as u8,
        'n' as u8,
        'i' as u8,
        't' as u8,
        'y' as u8,
    ];
    let none: [u8; 3] = ['n' as u8, 'a' as u8, 'n' as u8];
    proof {
        assert(inf@ =~= infinity().take(3));
        assert(all@ =~= infinity());
        assert(none@ =~= nan());
    }
    is_word_from(text, i, inf.as_slice()) || is_word_from(text, i, all.as_slice()) || is_word_from(
        text,
        i,
        none.as_slice(),
    ) || is_number_from(text, i)
}

/// Whether a byte is left out of data: a blank, a tab, a line end or a form feed.
pub open spec fn left_out(b: u8) -> bool {
    b == 32 || b == 9 || b == 10 || b == 12 || b == 13
}

/// The six bits that a character of data stands for, or -1.
pub open spec fn six_bits(b: u8) -> int {
    if 'A' as u8 <= b <= 'Z' as u8 {
        b - 'A' as u8
    } else if 'a' as u8 <= b <= 'z' as u8 {
        b - 'a' as u8 + 26
    } else if '0' as u8 <= b <= '9' as u8 {
        b - '0' as u8 + 52
    } else if b == '+' as u8 {
        62
    } else if b == '/' as u8 {
        63
    } else {
        -1
    }
}

/// How many `=` fill up the last four characters.
pub open spec fn padding(text: Seq<u8>) -> int {
    if text.len() == 0 || text.last() != '=' as u8 {
        0
    } else if text.len() == 1 || text[text.len() - 2] != '=' as u8 {
        1
    } else {
        2
    }
}

/// Whether characters stand for data: groups of four, the last filled up with `=`, and no bit set
/// that stands for nothing.
pub open spec fn base64(text: Seq<u8>) -> bool {
    let used = text.len() - padding(text);
    &&& text.len() % 4 == 0
    &&& forall|i: int| 0 <= i < used ==> six_bits(#[trigger] text[i]) >= 0
    &&& padding(text) == 1 ==> six_bits(text[used - 1]) % 4 == 0
    &&& padding(text) == 2 ==> six_bits(text[used - 1]) % 16 == 0
}

/// Whether a text stands for data.
pub open spec fn data_text(text: Seq<u8>) -> bool {
    base64(text.filter(|b: u8| !left_out(b)))
}

fn bits_of(b: u8) -> (r: u8)
    ensures
        six_bits(b) == (if r == 255 {
            -1
        } else {
            r as int
        }),
        r < 64 || r == 255,
{
    if 'A' as u8 <= b && b <= 'Z' as u8 {
        b - 'A' as u8
    } else if 'a' as u8 <= b && b <= 'z' as u8 {
        b - 'a' as u8 + 26
    } else if '0' as u8 <= b && b <= '9' as u8 {
        b - '0' as u8 + 52
    } else if b == '+' as u8 {
        62
    } else if b == '/' as u8 {
        63
    } else {
        255
    }
}

fn is_base64(text: &[u8]) -> (r: bool)
    ensures
        r == base64(text@),
{
    let len: usize = text.len();
    if len % 4 != 0 {
        return false;
    }
    let filled: usize = if len == 0 || text[len - 1] != '=' as u8 {
        0
    } else if text[len - 2] != '=' as u8 {
        1
    } else {
        2
    };
    let used: usize = len - filled;
    for i in 0..used
        invariant
            used <= len == text@.len(),
            used == len - padding(text@),
            forall|j: int| 0 <= j < i ==> six_bits(#[trigger] text@[j]) >= 0,
    {
        if bits_of(text[i]) == 255 {
            assert(six_bits(text@[i as int]) < 0);
            return false;
        }
    }
    if filled == 0 {
        return true;
    }
    assert(six_bits(text@[used - 1]) >= 0);
    let last: u8 = bits_of(text[used - 1]);
    if filled == 1 {
        last % 4 == 0
    } else {
        last % 16 == 0
    }
}

/// Whether a text stands for data.
pub fn is_data_text(text: &[u8]) -> (r: bool)
    ensures
        r == data_text(text@),
{
    let ghost kept = |b: u8| !left_out(b);
    let mut rest: Vec<u8> = Vec::new();
    assert(rest@ =~= text@.take(0).filter(kept)) by {
        reveal(Seq::filter);
    }
    for i in 0..text.len()
        invariant
            kept == (|b: u8| !left_out(b)),
            rest@ == text@.take(i as int).filter(kept),
    {
        proof {
            reveal(Seq::filter);
            assert(text@.take(i + 1).drop_last() =~= text@.take(i as int));
        }
        let b: u8 = text[i];
        if !(b == 32 || b == 9 || b == 10 || b == 12 || b == 13) {
            rest.push(b);
        }
    }
    assert(text@.take(text@.len() as int) =~= text@);
    is_base64(rest.as_slice())
}

/// Whether two decimal digits stand at `i`.
pub open spec fn pair_at(text: Seq<u8>, i: int) -> bool {
    i + 2 <= text.len() && decimal_digit(text[i]) && decimal_digit(text[i + 1])
}

/// The number that the two digits at `i` stand for.
pub open spec fn pair_value(text: Seq<u8>, i: int) -> int {
    10 * (text[i] - '0' as u8) + (text[i + 1] - '0' as u8)
}

/// Where the offset of a date starts: behind its seconds, or behind the digits of their fraction.
pub open spec fn offset_start(text: Seq<u8>) -> int {
    if text.len() > 19 && text[19] == '.' as u8 {
        digits_end(text, 20)
    } else {
        19
    }
}

/// Whether a text is built like a date: `YYYY-MM-DD`, a byte of whatever kind, `HH:MM:SS` with a
/// fraction or without, and `Z` or an offset of hours and minutes.
pub open spec fn built_like_date(text: Seq<u8>) -> bool {
    let z = offset_start(text);
    &&& text.len() > 19
    &&& pair_at(text, 0) && pair_at(text, 2) && text[4] == '-' as u8
    &&& pair_at(text, 5) && text[7] == '-' as u8 && pair_at(text, 8)
    &&& pair_at(text, 11) && text[13] == ':' as u8
    &&& pair_at(text, 14) && text[16] == ':' as u8 && pair_at(text, 17)
    &&& z != 20
    &&& {
        ||| z + 1 == text.len() && (text[z] == 'Z' as u8 || text[z] == 'z' as u8)
        ||| z + 6 == text.len() && (text[z] == '+' as u8 || text[z] == '-' as u8) && pair_at(
            text,
            z + 1,
        ) && text[z + 3] == ':' as u8 && pair_at(text, z + 4)
    }
}

/// The offset of a date in minutes.
pub open spec fn offset_minutes(text: Seq<u8>) -> int {
    let z = offset_start(text);
    let size = 60 * pair_value(text, z + 1) + pair_value(text, z + 4);
    if text[z] == '+' as u8 {
        size
    } else if text[z] == '-' as u8 {
        -size
    } else {
        0
    }
}

/// The time of a date in minutes of its own day, in UTC: below zero it lies on the day before,
/// and from 1440 on the day after.
pub open spec fn utc_minutes(text: Seq<u8>) -> int {
    60 * pair_value(text, 11) + pair_value(text, 14) - offset_minutes(text)
}

/// How many days a month has.
pub open spec fn month_len(year: int, month: int) -> int {
    if month == 2 {
        if year % 4 == 0 && (year % 100 != 0 || year % 400 == 0) {
            29
        } else {
            28
        }
    } else if month == 4 || month == 6 || month == 9 || month == 11 {
        30
    } else {
        31
    }
}

/// The year of a date.
pub open spec fn year_of(text: Seq<u8>) -> int {
    100 * pair_value(text, 0) + pair_value(text, 2)
}

/// Whether a leap second can stand at the end of a date's minute: it must be the last of a month
/// in UTC.
pub open spec fn leap_minute(text: Seq<u8>) -> bool {
    let minutes = utc_minutes(text);
    let day = pair_value(text, 8);
    let last = month_len(year_of(text), pair_value(text, 5));
    ||| minutes == -1 && day == 1
    ||| minutes == 1439 && day == last
    ||| minutes == 2879 && day + 1 == last
}

/// Whether a text stands for a date.
pub open spec fn date_text(text: Seq<u8>) -> bool {
    let z = offset_start(text);
    &&& built_like_date(text)
    &&& 1 <= pair_value(text, 5) <= 12
    &&& 1 <= pair_value(text, 8) <= month_len(year_of(text), pair_value(text, 5))
    &&& pair_value(text, 11) <= 23 && pair_value(text, 14) <= 59
    &&& pair_value(text, 17) <= 59 || (pair_value(text, 17) == 60 && leap_minute(text))
    &&& z + 6 == text.len() ==> pair_value(text, z + 1) <= 23 && pair_value(text, z + 4) <= 59
}

/// Whether a text stands for a date that lies behind the year 9999 in UTC.
pub open spec fn date_behind_9999(text: Seq<u8>) -> bool {
    &&& date_text(text)
    &&& year_of(text) == 9999 && pair_value(text, 5) == 12 && pair_value(text, 8) == 31
    &&& utc_minutes(text) >= 1440
}

fn has_pair(text: &[u8], i: usize) -> (r: bool)
    requires
        i <= text@.len(),
    ensures
        r == pair_at(text@, i as int),
{
    text.len() - i >= 2 && '0' as u8 <= text[i] && text[i] <= '9' as u8 && '0' as u8 <= text[i + 1]
        && text[i + 1] <= '9' as u8
}

fn pair_of(text: &[u8], i: usize) -> (r: i32)
    requires
        pair_at(text@, i as int),
    ensures
        r == pair_value(text@, i as int),
        0 <= r <= 99,
{
    10 * (text[i] - '0' as u8) as i32 + (text[i + 1] - '0' as u8) as i32
}

fn find_offset_start(text: &[u8]) -> (r: usize)
    requires
        text@.len() > 19,
    ensures
        r == offset_start(text@),
        19 <= r <= text@.len(),
{
    if text[19] == '.' as u8 {
        find_digits_end(text, 20)
    } else {
        19
    }
}

fn is_built_like_date(text: &[u8]) -> (r: bool)
    ensures
        r == built_like_date(text@),
{
    let len: usize = text.len();
    if len <= 19 {
        return false;
    }
    if !(has_pair(text, 0) && has_pair(text, 2) && text[4] == '-' as u8) {
        return false;
    }
    if !(has_pair(text, 5) && text[7] == '-' as u8 && has_pair(text, 8)) {
        return false;
    }
    if !(has_pair(text, 11) && text[13] == ':' as u8) {
        return false;
    }
    if !(has_pair(text, 14) && text[16] == ':' as u8 && has_pair(text, 17)) {
        return false;
    }
    let z: usize = find_offset_start(text);
    if z == 20 {
        return false;
    }
    let left: usize = len - z;
    if left == 1 {
        text[z] == 'Z' as u8 || text[z] == 'z' as u8
    } else if left == 6 {
        (text[z] == '+' as u8 || text[z] == '-' as u8) && has_pair(text, z + 1) && text[z + 3]
            == ':' as u8 && has_pair(text, z + 4)
    } else {
        false
    }
}

fn offset_of(text: &[u8]) -> (r: i32)
    requires
        built_like_date(text@),
    ensures
        r == offset_minutes(text@),
        -6039 <= r <= 6039,
{
    let z: usize = find_offset_start(text);
    if text[z] == '+' as u8 {
        60 * pair_of(text, z + 1) + pair_of(text, z + 4)
    } else if text[z] == '-' as u8 {
        -(60 * pair_of(text, z + 1) + pair_of(text, z + 4))
    } else {
        0
    }
}

fn month_len_of(year: i32, month: i32) -> (r: i32)
    requires
        0 <= year,
    ensures
        r == month_len(year as int, month as int),
{
    if month == 2 {
        if year % 4 == 0 && (year % 100 != 0 || year % 400 == 0) {
            29
        } else {
            28
        }
    } else if month == 4 || month == 6 || month == 9 || month == 11 {
        30
    } else {
        31
    }
}

/// What a text that should stand for a date stands for.
#[derive(Debug, Clone, Copy, PartialEq, Eq, Structural)]
pub enum DateKind {
    /// No date.
    Malformed,
    /// A date up to the year 9999 in UTC.
    InRange,
    /// A date behind the year 9999 in UTC.
    Behind,
}

/// What a text that should stand for a date stands for.
pub open spec fn date_kind(text: Seq<u8>) -> DateKind {
    if date_behind_9999(text) {
        DateKind::Behind
    } else if date_text(text) {
        DateKind::InRange
    } else {
        DateKind::Malformed
    }
}

/// Tells what a text that should stand for a date stands for.
pub fn judge_date(text: &[u8]) -> (r: DateKind)
    ensures
        r == date_kind(text@),
{
    if !is_built_like_date(text) {
        return DateKind::Malformed;
    }
    let year: i32 = 100 * pair_of(text, 0) + pair_of(text, 2);
    let month: i32 = pair_of(text, 5);
    let day: i32 = pair_of(text, 8);
    let hour: i32 = pair_of(text, 11);
    let minute: i32 = pair_of(text, 14);
    let second: i32 = pair_of(text, 17);
    let last: i32 = month_len_of(year, month);
    if month < 1 || month > 12 || day < 1 || day > last || hour > 23 || minute > 59 {
        return DateKind::Malformed;
    }
    let z: usize = find_offset_start(text);
    if text.len() - z == 6 && (pair_of(text, z + 1) > 23 || pair_of(text, z + 4) > 59) {
        return DateKind::Malformed;
    }
    let utc: i32 = 60 * hour + minute - offset_of(text);
    if second > 59 {
        let leap: bool = (utc == -1 && day == 1) || (utc == 1439 && day == last) || (utc == 2879
            && day + 1 == last);
        if second > 60 || !leap {
            return DateKind::Malformed;
        }
    }
    if year == 9999 && month == 12 && day == 31 && utc >= 1440 {
        DateKind::Behind
    } else {
        DateKind::InRange
    }
}

/// A date behind the year 9999 is one of the last day of that year, in a time zone that lags behind:
/// its time and the zone's offset make up at least a day.
pub proof fn lemma_last_dates_are_of_the_last_day(text: Seq<u8>)
    ensures
        date_kind(text) == DateKind::Behind ==> {
            let z = text.len() - 6;
            {
                &&& text.len() >= 25
                &&& text[0] == '9' as u8
                &&& text[1] == '9' as u8
                &&& text[2] == '9' as u8
                &&& text[3] == '9' as u8
                &&& text[4] == '-' as u8
                &&& text[5] == '1' as u8
                &&& text[6] == '2' as u8
                &&& text[7] == '-' as u8
                &&& text[8] == '3' as u8
                &&& text[9] == '1' as u8
                &&& text[z] == '-' as u8
                &&& 600 * (text[11] - '0' as u8) + 60 * (text[12] - '0' as u8) + 10 * (text[14]
                    - '0' as u8) + (text[15] - '0' as u8) + 600 * (text[z + 1] - '0' as u8) + 60 * (
                text[z + 2] - '0' as u8) + 10 * (text[z + 4] - '0' as u8) + (text[z + 5] - '0' as u8)
                    >= 1440
            }
        },
{
    if date_kind(text) == DateKind::Behind && text.len() > 19 && text[19] == '.' as u8 {
        lemma_digits_end_behind(text, 20);
    }
}

proof fn lemma_digits_end_behind(text: Seq<u8>, i: int)
    requires
        0 <= i <= text.len(),
    ensures
        i <= digits_end(text, i) <= text.len(),
    decreases text.len() - i,
{
    if i < text.len() && decimal_digit(text[i]) {
        lemma_digits_end_behind(text, i + 1);
    }
}

/// A time of the last day of the year 9999 in a time zone that lags behind lies behind that year if
/// the time and the zone's offset make up at least a day, and in it if they do not.
pub proof fn lemma_times_of_the_last_day(text: Seq<u8>)
    requires
        text.len() == 25,
        text[0] == '9' as u8,
        text[1] == '9' as u8,
        text[2] == '9' as u8,
        text[3] == '9' as u8,
        text[4] == '-' as u8,
        text[5] == '1' as u8,
        text[6] == '2' as u8,
        text[7] == '-' as u8,
        text[8] == '3' as u8,
        text[9] == '1' as u8,
        text[13] == ':' as u8 && text[16] == ':' as u8 && text[22] == ':' as u8,
        text[19] == '-' as u8,
        '0' as u8 <= text[11] <= '9' as u8 && '0' as u8 <= text[12] <= '9' as u8,
        '0' as u8 <= text[14] <= '5' as u8 && '0' as u8 <= text[15] <= '9' as u8,
        '0' as u8 <= text[17] <= '5' as u8 && '0' as u8 <= text[18] <= '9' as u8,
        '0' as u8 <= text[20] <= '9' as u8 && '0' as u8 <= text[21] <= '9' as u8,
        '0' as u8 <= text[23] <= '5' as u8 && '0' as u8 <= text[24] <= '9' as u8,
        10 * (text[11] - '0' as u8) + (text[12] - '0' as u8) <= 23,
        10 * (text[20] - '0' as u8) + (text[21] - '0' as u8) <= 23,
    ensures
        date_kind(text) == (if 600 * (text[11] - '0' as u8) + 60 * (text[12] - '0' as u8) + 10 * (
        text[14] - '0' as u8) + (text[15] - '0' as u8) + 600 * (text[20] - '0' as u8) + 60 * (
        text[21] - '0' as u8) + 10 * (text[23] - '0' as u8) + (text[24] - '0' as u8) >= 1440 {
            DateKind::Behind
        } else {
            DateKind::InRange
        }),
{
    assert(offset_start(text) == 19);
    assert(year_of(text) == 9999);
}

proof fn lemma_radix_of_front(text: Seq<u8>, front: Seq<u8>, from: int, to: int, base: nat)
    requires
        0 <= from <= to <= front.len() <= text.len(),
        forall|i: int| 0 <= i < front.len() ==> #[trigger] front[i] == text[i],
    ensures
        radix_value(text, from, to, base) == radix_value(front, from, to, base),
    decreases to - from,
{
    if from < to {
        lemma_radix_of_front(text, front, from, to - 1, base);
        assert(front[to - 1] == text[to - 1]);
    }
}

/// A number that is written in a base is read as that number, whatever stands before its digits.
pub proof fn lemma_written_numbers_are_read(n: nat, base: nat, before: Seq<u8>)
    requires
        base == 10 || base == 16,
    ensures
        ({
            let text = before + written(n, base).map_values(|c: char| c as u8);
            &&& digits(text, before.len() as int, text.len() as int, base as int)
            &&& radix_value(text, before.len() as int, text.len() as int, base) == n
        }),
    decreases n,
{
    let figures = written(n, base).map_values(|c: char| c as u8);
    let text = before + figures;
    let from = before.len() as int;
    reveal_with_fuel(radix_value, 2);
    if n < base {
        assert(text.len() == from + 1);
        assert(text[from] == digit(n) as u8);
        assert(digit_value(text[from]) == n);
    } else {
        assert(n / base < n) by (nonlinear_arith)
            requires
                n >= base,
                base >= 2,
        ;
        lemma_written_numbers_are_read(n / base, base, before);
        let high = before + written(n / base, base).map_values(|c: char| c as u8);
        let end = text.len() as int;
        assert(text =~= high.push(digit(n % base) as u8));
        assert(0 <= n % base < base);
        assert(digit_value(text[end - 1]) == n % base);
        lemma_radix_of_front(text, high, from, end - 1, base);
        assert forall|i: int| from <= i < end implies 0 <= digit_value(#[trigger] text[i])
            < base by {
            if i < end - 1 {
                assert(text[i] == high[i]);
            }
        }
        assert(n == (n / base) * base + n % base) by (nonlinear_arith)
            requires
                base > 0,
        ;
    }
}

/// Integers are taken as far as 64 bits hold them: in decimal without a sign or with a minus sign,
/// and in hexadecimal behind `0x`.
pub proof fn lemma_integers_of_64_bits(n: nat)
    ensures
        integer_text(decimal(n).map_values(|c: char| c as u8)) <==> n < 0x1_0000_0000_0000_0000,
        integer_text(seq!['-' as u8] + decimal(n).map_values(|c: char| c as u8)) <==> n
            <= 0x8000_0000_0000_0000,
        integer_text(seq!['0' as u8, 'x' as u8] + hexadecimal(n).map_values(|c: char| c as u8))
            <==> n < 0x1_0000_0000_0000_0000,
{
    let ten = decimal(n).map_values(|c: char| c as u8);
    let sixteen = hexadecimal(n).map_values(|c: char| c as u8);
    let none = Seq::<u8>::empty();
    lemma_written_numbers_are_read(n, 10, none);
    assert(none + ten =~= ten);
    assert(0 <= digit_value(ten[0]) < 10);
    if ten.len() > 1 {
        assert(0 <= digit_value(ten[1]) < 10);
    }
    let minus = seq!['-' as u8];
    lemma_written_numbers_are_read(n, 10, minus);
    let hex = seq!['0' as u8, 'x' as u8];
    let text = hex + sixteen;
    lemma_written_numbers_are_read(n, 16, hex);
    assert(0 <= digit_value(text[2]) < 16);
    if text.len() > 3 {
        assert(0 <= digit_value(text[3]) < 16);
    }
    reveal_with_fuel(behind_hex_marks, 2);
    assert(text[0] == '0' as u8 && text[1] == 'x' as u8);
    assert(behind_hex_marks(text, 0) == 2);
    assert(behind_plus(text, 2) == 2);
}

proof fn lemma_digits_end_at(text: Seq<u8>, i: int, end: int)
    requires
        0 <= i <= end <= text.len(),
        forall|j: int| i <= j < end ==> decimal_digit(#[trigger] text[j]),
        end == text.len() || !decimal_digit(text[end]),
    ensures
        digits_end(text, i) == end,
    decreases end - i,
{
    if i < end {
        assert(decimal_digit(text[i]));
        lemma_digits_end_at(text, i + 1, end);
    }
}

/// Decimal digits stand for a real number if there are any, also with a point before, among or
/// behind them, and with an `e` and further digits behind them.
pub proof fn lemma_real_numbers(a: Seq<u8>, b: Seq<u8>)
    requires
        forall|j: int| 0 <= j < a.len() ==> '0' as u8 <= #[trigger] a[j] <= '9' as u8,
        forall|j: int| 0 <= j < b.len() ==> '0' as u8 <= #[trigger] b[j] <= '9' as u8,
    ensures
        real_text(a) <==> a.len() > 0,
        real_text(a + seq!['.' as u8] + b) <==> a.len() + b.len() > 0,
        a.len() > 0 ==> (real_text(a + seq!['e' as u8] + b) <==> b.len() > 0),
        a.len() > 0 ==> real_text(seq!['-' as u8] + a),
{
    let n = a.len() as int;
    lemma_digits_end_at(a, 0, n);
    let point = a + seq!['.' as u8] + b;
    let end = point.len() as int;
    assert(point[n] == '.' as u8);
    assert forall|j: int| 0 <= j < n implies decimal_digit(#[trigger] point[j]) by {
        assert(point[j] == a[j]);
    }
    assert forall|j: int| n + 1 <= j < end implies decimal_digit(#[trigger] point[j]) by {
        assert(point[j] == b[j - n - 1]);
    }
    lemma_digits_end_at(point, 0, n);
    lemma_digits_end_at(point, n + 1, end);
    lemma_no_words(point);
    lemma_no_words(a);
    if n > 0 {
        assert(a[0] == point[0]);
        let power = a + seq!['e' as u8] + b;
        assert(power[n] == 'e' as u8);
        assert forall|j: int| 0 <= j < n implies decimal_digit(#[trigger] power[j]) by {
            assert(power[j] == a[j]);
        }
        assert forall|j: int| n + 1 <= j < end implies decimal_digit(#[trigger] power[j]) by {
            assert(power[j] == b[j - n - 1]);
        }
        lemma_digits_end_at(power, 0, n);
        lemma_digits_end_at(power, n + 1, end);
        assert(decimal_digit(power[0]));
        lemma_no_words(power);
        let minus = seq!['-' as u8] + a;
        assert forall|j: int| 1 <= j < n + 1 implies decimal_digit(#[trigger] minus[j]) by {
            assert(minus[j] == a[j - 1]);
        }
        lemma_digits_end_at(minus, 1, n + 1);
        assert(minus[0] == '-' as u8);
        assert(behind_sign(minus, 0) == 1);
    }
}

proof fn lemma_no_words(text: Seq<u8>)
    requires
        text.len() > 0 ==> decimal_digit(text[0]) || text[0] == '.' as u8,
    ensures
        behind_sign(text, 0) == 0,
        real_text(text) <==> number_from(text, 0),
{
    if text.len() > 0 {
        assert(small(text[0]) == text[0]);
        assert(infinity().take(3)[0] == 'i' as u8 && infinity()[0] == 'i' as u8 && nan()[0]
            == 'n' as u8);
        assert(!word_from(text, 0, infinity().take(3))) by {
            if word_from(text, 0, infinity().take(3)) {
                assert(small(text[0int + 0int]) == infinity().take(3)[0]);
            }
        }
        assert(!word_from(text, 0, infinity())) by {
            if word_from(text, 0, infinity()) {
                assert(small(text[0int + 0int]) == infinity()[0]);
            }
        }
        assert(!word_from(text, 0, nan())) by {
            if word_from(text, 0, nan()) {
                assert(small(text[0int + 0int]) == nan()[0]);
            }
        }
    } else {
        assert(infinity().take(3).len() == 3);
    }
}

/// Blanks, tabs, line ends and form feeds change nothing about data, wherever they stand. Without
/// them, letters, digits, `+` and `/` are data if they come in fours.
pub proof fn lemma_data_in_fours(a: Seq<u8>, space: u8, b: Seq<u8>)
    requires
        space == 32 || space == 9 || space == 10 || space == 12 || space == 13,
    ensures
        data_text(a + seq![space] + b) <==> data_text(a + b),
        (forall|i: int|
            0 <= i < a.len() ==> ('A' as u8 <= #[trigger] a[i] <= 'Z' as u8 || 'a' as u8 <= a[i]
                <= 'z' as u8 || '0' as u8 <= a[i] <= '9' as u8 || a[i] == '+' as u8 || a[i]
                == '/' as u8)) ==> (data_text(a) <==> a.len() % 4 == 0),
{
    let kept = |b: u8| !left_out(b);
    Seq::filter_distributes_over_add(a, seq![space], kept);
    Seq::filter_distributes_over_add(a + seq![space], b, kept);
    Seq::filter_distributes_over_add(a, b, kept);
    reveal_with_fuel(Seq::filter, 2);
    assert(seq![space].drop_last() =~= Seq::empty());
    assert(seq![space].filter(kept) =~= Seq::empty());
    assert(a.filter(kept) + seq![space].filter(kept) =~= a.filter(kept));
    if forall|i: int|
        0 <= i < a.len() ==> ('A' as u8 <= #[trigger] a[i] <= 'Z' as u8 || 'a' as u8 <= a[i]
            <= 'z' as u8 || '0' as u8 <= a[i] <= '9' as u8 || a[i] == '+' as u8 || a[i]
            == '/' as u8) {
        lemma_all_kept(a);
        assert(a.filter(kept) == a);
        assert(padding(a) == 0);
    }
}

proof fn lemma_all_kept(a: Seq<u8>)
    requires
        forall|i: int| 0 <= i < a.len() ==> !left_out(#[trigger] a[i]),
    ensures
        a.filter(|b: u8| !left_out(b)) == a,
    decreases a.len(),
{
    reveal(Seq::filter);
    if a.len() > 0 {
        lemma_all_kept(a.drop_last());
        assert(!left_out(a[a.len() - 1]));
        assert(a.drop_last().push(a.last()) =~= a);
    }
}

} // verus!
