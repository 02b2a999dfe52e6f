//! Numerals: how numbers are written, and how texts are set in columns.

use vstd::arithmetic::power::pow;
use vstd::prelude::*;

use crate::text::chars_of;

verus! {

/// The digit that stands for `d` in a base of at most sixteen.
pub open spec fn digit(d: nat) -> char {
    if d < 10 {
        (('0' as int) + d) as char
    } else {
        (('a' as int) + d - 10) as char
    }
}

/// `n` written in base `base`, most significant digit first and without leading zeros.
pub open spec fn written(n: nat, base: nat) -> Seq<char>
    decreases n,
{
    if base < 2 || n < base {
        seq![digit(n)]
    } else {
        proof {
            assert(n / base < n) by (nonlinear_arith)
                requires
                    n >= base,
                    base >= 2,
            ;
        }
        written(n / base, base).push(digit(n % base))
    }
}

/// `n` in decimal.
pub open spec fn decimal(n: nat) -> Seq<char> {
    written(n, 10)
}

/// `n` in hexadecimal, with small letters and no prefix.
pub open spec fn hexadecimal(n: nat) -> Seq<char> {
    written(n, 16)
}

fn digit_char(d: u64) -> (r: char)
    requires
        d < 16,
    ensures
        r == digit(d as nat),
{
    if d < 10 {
        (48u8 + d as u8) as char
    } else {
        (97u8 + (d as u8 - 10)) as char
    }
}

fn write_in(n: u64, base: u64) -> (r: String)
    requires
        2 <= base <= 16,
    ensures
        r@ == written(n as nat, base as nat),
    decreases n,
{
    let mut r: String;
    if n < base {
        r = String::new();
        r.push(digit_char(n));
        assert(r@ =~= seq![digit(n as nat)]);
    } else {
        assert(n / base < n) by (nonlinear_arith)
            requires
                n >= base,
                base >= 2,
        ;
        r = write_in(n / base, base);
        assert(n % base < base) by (nonlinear_arith)
            requires
                base >= 2,
        ;
        r.push(digit_char(n % base));
    }
    r
}

/// Writes `n` in decimal.
pub fn to_decimal(n: u64) -> (r: String)
    ensures
        r@ == decimal(n as nat),
{
    write_in(n, 10)
}

/// Writes `n` in hexadecimal.
pub fn to_hexadecimal(n: u64) -> (r: String)
    ensures
        r@ == hexadecimal(n as nat),
{
    write_in(n, 16)
}

/// `n` in decimal, with a minus sign if it is below zero.
pub open spec fn signed_decimal(n: int) -> Seq<char> {
    if n < 0 {
        "-"@ + decimal((-n) as nat)
    } else {
        decimal(n as nat)
    }
}

/// Writes `n` in decimal, with its sign if it is below zero.
pub fn to_signed_decimal(n: i32) -> (r: String)
    ensures
        r@ == signed_decimal(n as int),
{
    if n < 0 {
        let mut r = "-".to_owned();
        r.append(to_decimal((-(n as i64)) as u64).as_str());
        r
    } else {
        to_decimal(n as u64)
    }
}

/// Whether a character is a decimal digit.
pub open spec fn is_digit(c: char) -> bool {
    '0' <= c <= '9'
}

/// The number that decimal digits stand for.
pub open spec fn value_of(digits: Seq<char>) -> nat
    decreases digits.len(),
{
    if digits.len() == 0 {
        0
    } else {
        10 * value_of(digits.drop_last()) + (digits.last() as int - '0' as int) as nat
    }
}

/// A text without the plus sign that it may begin with.
pub open spec fn without_plus(s: Seq<char>) -> Seq<char> {
    if s.len() > 0 && s[0] == '+' {
        s.drop_first()
    } else {
        s
    }
}

/// The number of 32 bits that a text is the decimal form of: digits only, behind at most a plus
/// sign.
pub open spec fn unsigned_in(s: Seq<char>) -> Option<u32> {
    let digits = without_plus(s);
    if digits.len() > 0 && (forall|i: int| 0 <= i < digits.len() ==> is_digit(#[trigger] digits[i]))
        && value_of(digits) <= u32::MAX {
        Some(value_of(digits) as u32)
    } else {
        None
    }
}

proof fn lemma_value_grows(digits: Seq<char>, k: int)
    requires
        0 <= k <= digits.len(),
        forall|i: int| 0 <= i < digits.len() ==> is_digit(#[trigger] digits[i]),
    ensures
        value_of(digits.take(k)) <= value_of(digits),
    decreases digits.len(),
{
    if k == digits.len() {
        assert(digits.take(k) =~= digits);
    } else {
        let init = digits.drop_last();
        assert forall|i: int| 0 <= i < init.len() implies is_digit(#[trigger] init[i]) by {
            assert(init[i] == digits[i]);
        }
        lemma_value_grows(init, k);
        assert(init.take(k) =~= digits.take(k));
        assert(is_digit(digits[digits.len() - 1]));
    }
}

/// Reads the decimal form of a number of 32 bits.
pub fn read_unsigned(s: &str) -> (r: Option<u32>)
    ensures
        r == unsigned_in(s@),
{
    let chars = chars_of(s);
    let len: usize = chars.len();
    let ghost digits = without_plus(s@);
    let start: usize = if len > 0 && chars[0] == '+' {
        1
    } else {
        0
    };
    if start == len {
        return None;
    }
    let mut value: u64 = 0;
    let mut i: usize = start;
    while i < len
        invariant
            chars@ == s@,
            len == chars@.len(),
            start <= i <= len,
            start < len,
            start == s@.len() - digits.len(),
            digits == without_plus(s@),
            forall|j: int| 0 <= j < digits.len() ==> #[trigger] digits[j] == chars@[start + j],
            forall|j: int| 0 <= j < i - start ==> is_digit(#[trigger] digits[j]),
            value == value_of(digits.take(i - start)),
            value <= u32::MAX,
        decreases len - i,
    {
        let c: char = chars[i];
        let ghost k = i - start;
        assert(digits[k] == c);
        if c < '0' || '9' < c {
            return None;
        }
        assert(digits.take(k + 1).drop_last() =~= digits.take(k));
        value = 10 * value + (c as u32 - '0' as u32) as u64;
        if value > u32::MAX as u64 {
            proof {
                if unsigned_in(s@) is Some {
                    lemma_value_grows(digits, k + 1);
                }
            }
            return None;
        }
        i += 1;
    }
    assert(digits.take(len - start) =~= digits);
    Some(value as u32)
}

/// A number is read back from its decimal form.
pub proof fn lemma_decimal_read_back(n: u32)
    ensures
        unsigned_in(decimal(n as nat)) == Some(n),
{
    lemma_decimal_digits(n as nat);
    assert(without_plus(decimal(n as nat)) == decimal(n as nat)) by {
        assert(is_digit(decimal(n as nat)[0]));
    }
}

proof fn lemma_decimal_digits(n: nat)
    ensures
        decimal(n).len() > 0,
        forall|i: int| 0 <= i < decimal(n).len() ==> is_digit(#[trigger] decimal(n)[i]),
        value_of(decimal(n)) == n,
    decreases n,
{
    if n < 10 {
        reveal_with_fuel(value_of, 2);
        assert(decimal(n).drop_last() =~= Seq::empty());
        assert(decimal(n).last() as int == '0' as int + n);
    } else {
        let high = decimal(n / 10);
        lemma_decimal_digits(n / 10);
        assert(decimal(n).drop_last() =~= high);
        assert(decimal(n).last() as int == '0' as int + n % 10);
        assert forall|i: int| 0 <= i < decimal(n).len() implies is_digit(
            #[trigger] decimal(n)[i],
        ) by {
            if i < high.len() {
                assert(decimal(n)[i] == high[i]);
            }
        }
    }
}

/// Digits set apart in threes from the right, with a comma between each two groups.
pub open spec fn in_threes(digits: Seq<char>) -> Seq<char>
    decreases digits.len(),
{
    if digits.len() <= 3 {
        digits
    } else {
        in_threes(digits.take(digits.len() - 3)).push(',') + digits.skip(digits.len() - 3)
    }
}

/// Without its commas, a number in threes is the number in decimal.
pub proof fn lemma_in_threes_keeps_number(n: nat)
    ensures
        in_threes(decimal(n)).filter(|c: char| c != ',') == decimal(n),
{
    lemma_decimal_digits(n);
    assert forall|i: int| 0 <= i < decimal(n).len() implies #[trigger] decimal(n)[i] != ',' by {
        assert(is_digit(decimal(n)[i]));
    }
    lemma_in_threes_keeps_digits(decimal(n));
}

proof fn lemma_in_threes_keeps_digits(digits: Seq<char>)
    requires
        forall|i: int| 0 <= i < digits.len() ==> #[trigger] digits[i] != ',',
    ensures
        in_threes(digits).filter(|c: char| c != ',') == digits,
    decreases digits.len(),
{
    let keep = |c: char| c != ',';
    if digits.len() <= 3 {
        lemma_filter_all(digits);
    } else {
        let high = digits.take(digits.len() - 3);
        let low = digits.skip(digits.len() - 3);
        lemma_in_threes_keeps_digits(high);
        lemma_filter_all(low);
        Seq::filter_distributes_over_add(in_threes(high).push(','), low, keep);
        assert(in_threes(high).push(',').filter(keep) =~= high) by {
            reveal(Seq::filter);
            assert(in_threes(high).push(',').drop_last() =~= in_threes(high));
        }
        assert(high + low =~= digits);
    }
}

proof fn lemma_decimal_len(n: nat, k: nat)
    requires
        k >= 1,
        n < pow(10, k),
    ensures
        1 <= decimal(n).len() <= k,
    decreases k,
{
    reveal(pow);
    if n >= 10 {
        assert(pow(10, 1) == 10) by {
            reveal_with_fuel(pow, 2);
        }
        lemma_decimal_len(n / 10, (k - 1) as nat);
    }
}

proof fn lemma_in_threes_len(digits: Seq<char>)
    requires
        digits.len() >= 1,
    ensures
        in_threes(digits).len() == digits.len() + (digits.len() - 1) / 3,
    decreases digits.len(),
{
    if digits.len() > 3 {
        lemma_in_threes_len(digits.take(digits.len() - 3));
    }
}

/// A number of at most 15 digits takes at most 19 characters in threes.
pub proof fn lemma_in_threes_fits(n: nat)
    requires
        n < 1_000_000_000_000_000,
    ensures
        in_threes(decimal(n)).len() <= 19,
{
    assert(pow(10, 15) == 1_000_000_000_000_000) by {
        reveal_with_fuel(pow, 16);
    }
    lemma_decimal_len(n, 15);
    lemma_in_threes_len(decimal(n));
}

proof fn lemma_filter_all(s: Seq<char>)
    requires
        forall|i: int| 0 <= i < s.len() ==> #[trigger] s[i] != ',',
    ensures
        s.filter(|c: char| c != ',') == s,
    decreases s.len(),
{
    reveal(Seq::filter);
    if s.len() > 0 {
        lemma_filter_all(s.drop_last());
        assert(s[s.len() - 1] != ',');
        assert(s =~= s.drop_last().push(s.last()));
    }
}

/// Writes a count in decimal with a comma between each three digits.
pub fn fmt_comma(n: u64) -> (r: String)
    ensures
        r@ == in_threes(decimal(n as nat)),
    decreases n,
{
    if n < 1000 {
        proof {
            reveal_with_fuel(written, 4);
        }
        to_decimal(n)
    } else {
        let mut r = fmt_comma(n / 1000);
        r.push(',');
        r.push(digit_char(n / 100 % 10));
        r.push(digit_char(n / 10 % 10));
        r.push(digit_char(n % 10));
        proof {
            let m = n as nat;
            let high = decimal(m / 1000);
            let all = decimal(m);
            reveal_with_fuel(written, 4);
            assert((m / 10) / 10 == m / 100 && (m / 100) / 10 == m / 1000);
            assert(all =~= high.push(digit(m / 100 % 10)).push(digit(m / 10 % 10)).push(
                digit(m % 10),
            ));
            assert(all.take(all.len() - 3) =~= high);
            assert(r@ =~= in_threes(all));
        }
        r
    }
}

/// `n` blanks.
pub open spec fn blanks(n: int) -> Seq<char> {
    Seq::new(if n > 0 { n as nat } else { 0 }, |i: int| ' ')
}

/// `s` set to the right of a column of `width` characters; a longer text stands as it is.
pub open spec fn set_right(s: Seq<char>, width: int) -> Seq<char> {
    blanks(width - s.len()) + s
}

/// `s` set to the left of a column of `width` characters; a longer text stands as it is.
pub open spec fn set_left(s: Seq<char>, width: int) -> Seq<char> {
    s + blanks(width - s.len())
}

fn push_blanks(s: &mut String, n: usize)
    ensures
        final(s)@ == old(s)@ + blanks(n as int),
{
    let ghost before = s@;
    assert(before =~= before + blanks(0));
    for i in 0..n
        invariant
            s@ == before + blanks(i as int),
    {
        s.push(' ');
        assert(s@ =~= before + blanks(i + 1));
    }
}

/// Sets `s` to the right of a column.
pub fn align_right(s: &str, width: usize) -> (r: String)
    ensures
        r@ == set_right(s@, width as int),
{
    let len: usize = s.unicode_len();
    let mut r = String::new();
    if len < width {
        push_blanks(&mut r, width - len);
    }
    r.append(s);
    assert(r@ =~= set_right(s@, width as int));
    r
}

/// Sets `s` to the left of a column.
pub fn align_left(s: &str, width: usize) -> (r: String)
    ensures
        r@ == set_left(s@, width as int),
{
    let len: usize = s.unicode_len();
    let mut r = s.to_owned();
    if len < width {
        push_blanks(&mut r, width - len);
    }
    assert(r@ =~= set_left(s@, width as int));
    r
}

/// A number below ten is written as its digit, and any other as the number of its tens followed by
/// the digit of the rest.
pub proof fn lemma_decimal_digit_by_digit(n: nat)
    ensures
        n < 10 ==> decimal(n).len() == 1 && decimal(n)[0] as int == '0' as int + n,
        n >= 10 ==> decimal(n) == decimal(n / 10) + decimal(n % 10),
{
    if n >= 10 {
        assert(decimal(n % 10) =~= seq![digit(n % 10)]);
        assert(decimal(n) =~= decimal(n / 10) + decimal(n % 10));
    }
}

/// A number below sixteen is written as its hexadecimal digit, and any other as the number of its
/// sixteens followed by the digit of the rest.
pub proof fn lemma_hexadecimal_digit_by_digit(n: nat)
    ensures
        n < 10 ==> hexadecimal(n).len() == 1 && hexadecimal(n)[0] as int == '0' as int + n,
        10 <= n < 16 ==> hexadecimal(n).len() == 1 && hexadecimal(n)[0] as int == 'a' as int + n
            - 10,
        n >= 16 ==> hexadecimal(n) == hexadecimal(n / 16) + hexadecimal(n % 16),
{
    if n >= 16 {
        assert(hexadecimal(n % 16) =~= seq![digit(n % 16)]);
        assert(hexadecimal(n) =~= hexadecimal(n / 16) + hexadecimal(n % 16));
    }
}

/// A number below zero is written as its counterpart above zero behind a minus sign.
pub proof fn lemma_signs(n: nat)
    ensures
        signed_decimal(n as int) == decimal(n),
        n > 0 ==> signed_decimal(-n) == seq!['-'] + decimal(n),
{
    reveal_strlit("-");
    assert("-"@ =~= seq!['-']);
}

/// Counted from the right, every fourth character of digits in threes is a comma, and the others
/// are the digits in their order.
pub proof fn lemma_commas_stand_between_threes(digits: Seq<char>, p: int)
    requires
        digits.len() >= 1,
        0 <= p < in_threes(digits).len(),
    ensures
        ({
            let text = in_threes(digits);
            &&& text.len() == digits.len() + (digits.len() - 1) / 3
            &&& p % 4 == 3 ==> text[text.len() - 1 - p] == ','
            &&& p % 4 != 3 ==> 0 <= p - p / 4 < digits.len() && text[text.len() - 1 - p]
                == digits[digits.len() - 1 - (p - p / 4)]
        }),
    decreases digits.len(),
{
    lemma_in_threes_len(digits);
    let text = in_threes(digits);
    if digits.len() > 3 && p >= 4 {
        let high = digits.take(digits.len() - 3);
        let done = in_threes(high);
        lemma_in_threes_len(high);
        lemma_commas_stand_between_threes(high, p - 4);
        assert(text[text.len() - 1 - p] == done[done.len() - 1 - (p - 4)]);
    }
}

/// A text in a column stands at its edge, with blanks on the other side as far as it is narrower
/// than the column.
pub proof fn lemma_columns(s: Seq<char>, width: int)
    ensures
        ({
            let right = set_right(s, width);
            let left = set_left(s, width);
            let len = if s.len() < width {
                width
            } else {
                s.len() as int
            };
            &&& right.len() == len && left.len() == len
            &&& right.subrange(len - s.len(), len) == s
            &&& left.subrange(0, s.len() as int) == s
            &&& forall|q: int| 0 <= q < len - s.len() ==> #[trigger] right[q] == ' '
            &&& forall|q: int| s.len() <= q < len ==> #[trigger] left[q] == ' '
        }),
{
    let len = set_right(s, width).len() as int;
    assert(set_right(s, width).subrange(len - s.len(), len) =~= s);
    assert(set_left(s, width).subrange(0, s.len() as int) =~= s);
}

/// Which number a text stands for, character by character: a digit for itself, and a further digit
/// for ten times as much and itself, as long as 32 bits hold it. Anything else stands for none,
/// but for one plus sign at the front, which changes nothing.
pub proof fn lemma_unsigned_digit_by_digit(s: Seq<char>, c: char)
    ensures
        unsigned_in(Seq::empty()) is None,
        unsigned_in(seq![c]) == (if '0' <= c <= '9' {
            Some((c as int - '0' as int) as u32)
        } else {
            None
        }),
        s.len() > 0 && s[0] != '+' ==> unsigned_in(seq!['+'] + s) == unsigned_in(s),
        s.len() > 0 && s[0] == '+' ==> unsigned_in(seq!['+'] + s) is None,
        s.len() > 0 && s[0] != '+' ==> unsigned_in(s.push(c)) == (match unsigned_in(s) {
            Some(m) => if '0' <= c <= '9' && 10 * m + (c as int - '0' as int) <= u32::MAX {
                Some((10 * m + (c as int - '0' as int)) as u32)
            } else {
                None
            },
            None => None,
        }),
{
    let one = seq![c];
    assert(one.drop_last() =~= Seq::empty());
    reveal_with_fuel(value_of, 2);
    assert(one[0] == c);
    if c == '+' {
        assert(without_plus(one) =~= Seq::empty());
    }
    let plus = seq!['+'] + s;
    assert(plus.drop_first() =~= s);
    if s.len() > 0 && s[0] == '+' {
        assert(!is_digit(s[0]));
    }
    if s.len() > 0 && s[0] != '+' {
        let more = s.push(c);
        assert(more[0] == s[0]);
        assert(without_plus(more) == more && without_plus(s) == s);
        assert(more.drop_last() =~= s);
        assert(more.last() == c);
        let all = forall|i: int| 0 <= i < s.len() ==> is_digit(#[trigger] s[i]);
        let all_more = forall|i: int| 0 <= i < more.len() ==> is_digit(#[trigger] more[i]);
        if all_more {
            assert forall|i: int| 0 <= i < s.len() implies is_digit(#[trigger] s[i]) by {
                assert(is_digit(more[i]));
            }
            assert(is_digit(more[s.len() as int]));
        }
        if all && is_digit(c) {
            assert forall|i: int| 0 <= i < more.len() implies is_digit(#[trigger] more[i]) by {
                if i < s.len() {
                    assert(more[i] == s[i]);
                }
            }
        }
        assert(all_more <==> all && is_digit(c));
    }
}

} // verus!
