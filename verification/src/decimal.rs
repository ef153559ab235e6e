//! Unsigned decimal numbers, as they stand in HTTP header fields.

use vstd::prelude::*;
#[allow(unused_imports)]
use vstd::arithmetic::div_mod::lemma_div_denominator;
#[allow(unused_imports)]
use vstd::arithmetic::power::{lemma_pow_positive, pow};

verus! {

/// The character that stands for a digit below ten.
pub open spec fn digit_char(d: nat) -> char {
    if d == 0 {
        '0'
    } else if d == 1 {
        '1'
    } else if d == 2 {
        '2'
    } else if d == 3 {
        '3'
    } else if d == 4 {
        '4'
    } else if d == 5 {
        '5'
    } else if d == 6 {
        '6'
    } else if d == 7 {
        '7'
    } else if d == 8 {
        '8'
    } else {
        '9'
    }
}

/// The decimal notation of `n`, without leading zeros.
pub open spec fn decimal(n: nat) -> Seq<char>
    decreases n,
{
    if n < 10 {
        seq![digit_char(n)]
    } else {
        decimal(n / 10).push(digit_char(n % 10))
    }
}

/// The characters of an ASCII text as bytes.
pub open spec fn ascii_bytes(text: Seq<char>) -> Seq<u8> {
    Seq::new(text.len(), |i: int| text[i] as u8)
}

/// Whether a byte is one of `0` to `9`.
pub open spec fn is_digit(b: u8) -> bool {
    0x30 <= b <= 0x39
}

/// Whether every byte is a digit.
pub open spec fn all_digits(s: Seq<u8>) -> bool {
    forall|i: int| 0 <= i < s.len() ==> is_digit(#[trigger] s[i])
}

/// The number that a sequence of digits denotes; the empty sequence denotes zero.
pub open spec fn digits_value(s: Seq<u8>) -> nat
    decreases s.len(),
{
    if s.len() == 0 {
        0
    } else {
        digits_value(s.drop_last()) * 10 + (s.last() - 0x30) as nat
    }
}

/// The digits of a number: an optional leading `+` is left out.
pub open spec fn unsigned_part(s: Seq<u8>) -> Seq<u8> {
    if s.len() > 0 && s[0] == 0x2b {
        s.skip(1)
    } else {
        s
    }
}

/// The 64-bit number that `s` denotes: digits after an optional `+`, at least one of
/// them, with a value that fits.
pub open spec fn number(s: Seq<u8>) -> Option<u64> {
    let digits = unsigned_part(s);
    if digits.len() > 0 && all_digits(digits) && digits_value(digits) <= u64::MAX {
        Some(digits_value(digits) as u64)
    } else {
        None
    }
}

/// The text of a single digit.
fn digit(d: u64) -> (text: &'static str)
    requires
        d < 10,
    ensures
        text@ == seq![digit_char(d as nat)],
{
    proof {
        reveal_strlit("0");
        reveal_strlit("1");
        reveal_strlit("2");
        reveal_strlit("3");
        reveal_strlit("4");
        reveal_strlit("5");
        reveal_strlit("6");
        reveal_strlit("7");
        reveal_strlit("8");
        reveal_strlit("9");
    }
    match d {
        0 => "0",
        1 => "1",
        2 => "2",
        3 => "3",
        4 => "4",
        5 => "5",
        6 => "6",
        7 => "7",
        8 => "8",
        _ => "9",
    }
}

/// Appends the decimal notation of `n` to `text`.
pub fn append_decimal(text: &mut String, n: u64)
    ensures
        final(text)@ == old(text)@ + decimal(n as nat),
    decreases n,
{
    let ghost before = text@;
    if n >= 10 {
        append_decimal(text, n / 10);
    }
    text.append(digit(n % 10));
    assert(text@ == before + decimal(n as nat));
}

/// Reads a decimal number: digits, after a `+` if there is one.
///
/// There is no result for a text without digits, with anything but digits, or with a
/// value above 64 bits.
pub fn parse_number(s: &[u8]) -> (r: Option<u64>)
    ensures
        r == number(s@),
{
    let start: usize = if s.len() > 0 && s[0] == 0x2b {
        1
    } else {
        0
    };
    let ghost digits = unsigned_part(s@);
    if start == s.len() {
        return None;
    }
    let mut value: u64 = 0;
    let mut i: usize = start;
    while i < s.len()
        invariant
            start <= i <= s.len(),
            digits == s@.skip(start as int),
            digits == unsigned_part(s@),
            forall|j: int| 0 <= j < i - start ==> is_digit(#[trigger] digits[j]),
            value == digits_value(digits.take(i - start)),
        decreases s.len() - i,
    {
        let b: u8 = s[i];
        assert(b == digits[i - start]);
        if b < 0x30 || b > 0x39 {
            return None;
        }
        let d: u64 = (b - 0x30) as u64;
        let ghost before = digits.take(i - start);
        let ghost after = digits.take(i + 1 - start);
        proof {
            assert(after.drop_last() =~= before);
            assert(digits_value(after) == value * 10 + d);
            assert(digits.take(digits.len() as int) =~= digits);
            lemma_prefix_value(digits, i + 1 - start, digits.len() as int);
        }
        if value > (u64::MAX - d) / 10 {
            assert(value * 10 + d > u64::MAX);
            return None;
        }
        value = value * 10 + d;
        i = i + 1;
    }
    proof {
        assert(digits.take(digits.len() as int) =~= digits);
    }
    Some(value)
}

/// More digits never denote a smaller number.
proof fn lemma_prefix_value(s: Seq<u8>, i: int, j: int)
    requires
        0 <= i <= j <= s.len(),
    ensures
        digits_value(s.take(i)) <= digits_value(s.take(j)),
    decreases j,
{
    if i < j {
        lemma_prefix_value(s, i, j - 1);
        assert(s.take(j).drop_last() =~= s.take(j - 1));
    }
}

/// A decimal notation is made of digits only, at least one, and denotes its number.
pub proof fn lemma_decimal_digits(n: nat)
    ensures
        decimal(n).len() > 0,
        all_digits(ascii_bytes(decimal(n))),
        digits_value(ascii_bytes(decimal(n))) == n,
    decreases n,
{
    let bytes = ascii_bytes(decimal(n));
    if n < 10 {
        assert(bytes.drop_last() =~= Seq::<u8>::empty());
        assert(digits_value(bytes.drop_last()) == 0);
        assert(bytes.last() - 0x30 == n);
    } else {
        lemma_decimal_digits(n / 10);
        assert(bytes.drop_last() =~= ascii_bytes(decimal(n / 10)));
        assert(bytes.last() - 0x30 == n % 10);
        assert forall|i: int| 0 <= i < bytes.len() implies is_digit(#[trigger] bytes[i]) by {
            if i < bytes.len() - 1 {
                assert(bytes[i] == ascii_bytes(decimal(n / 10))[i]);
            }
        }
    }
}

/// Reading what was written gives the number back.
pub proof fn law_decimal_round_trip(n: u64)
    ensures
        number(ascii_bytes(decimal(n as nat))) == Some(n),
{
    let bytes = ascii_bytes(decimal(n as nat));
    lemma_decimal_digits(n as nat);
    assert(is_digit(bytes[0]));
}

/// Two numbers with one notation are the same.
pub proof fn law_decimal_injective(m: nat, n: nat)
    requires
        decimal(m) == decimal(n),
    ensures
        m == n,
{
    lemma_decimal_digits(m);
    lemma_decimal_digits(n);
}

/// The digit in each place of a notation, counted from the right, is that of the number.
pub proof fn law_decimal_places(n: nat, k: nat)
    requires
        k < decimal(n).len(),
    ensures
        decimal(n)[decimal(n).len() - 1 - k] as int == 48 + (n as int / pow(10, k)) % 10,
    decreases n,
{
    reveal(pow);
    if k == 0 {
        assert(pow(10, 0) == 1);
    } else {
        let shorter = decimal(n / 10);
        law_decimal_places(n / 10, (k - 1) as nat);
        lemma_pow_positive(10, (k - 1) as nat);
        lemma_div_denominator(n as int, 10, pow(10, (k - 1) as nat));
        assert(pow(10, k) == 10 * pow(10, (k - 1) as nat));
        assert(decimal(n)[decimal(n).len() - 1 - k] == shorter[shorter.len() - 1 - (k - 1)]);
    }
}

/// A notation has as many digits as the number needs, and no more: no zero leads but in zero
/// itself.
pub proof fn law_decimal_length(n: nat)
    ensures
        n < pow(10, decimal(n).len()),
        n > 0 ==> n >= pow(10, (decimal(n).len() - 1) as nat),
        n == 0 ==> decimal(n).len() == 1,
    decreases n,
{
    reveal(pow);
    if n < 10 {
        assert(pow(10, 0) == 1);
        assert(pow(10, 1) == 10 * pow(10, 0));
    } else {
        let len = decimal(n / 10).len();
        law_decimal_length(n / 10);
        assert(pow(10, len + 1) == 10 * pow(10, len));
        assert(pow(10, len) == 10 * pow(10, (len - 1) as nat));
    }
}

/// A digit denotes itself, and one more digit makes ten times the number and the digit, unless
/// that is more than 64 bits hold.
pub proof fn law_number_grows_by_digits(s: Seq<u8>, d: u8)
    requires
        d < 10,
    ensures
        number(seq![(0x30 + d) as u8]) == Some(d as u64),
        number(s) matches Some(value) ==> number(s.push((0x30 + d) as u8)) == if value * 10 + d
            <= u64::MAX {
            Some((value * 10 + d) as u64)
        } else {
            None
        },
{
    let one = seq![(0x30 + d) as u8];
    assert(unsigned_part(one) =~= one);
    assert(one.drop_last() =~= Seq::<u8>::empty());
    assert(digits_value(one) == d) by {
        assert(digits_value(Seq::<u8>::empty()) == 0);
    }
    if number(s) is Some {
        let longer = s.push((0x30 + d) as u8);
        let digits = unsigned_part(s);
        assert(longer[0] == s[0]);
        assert(unsigned_part(longer) =~= digits.push((0x30 + d) as u8));
        assert(unsigned_part(longer).drop_last() =~= digits);
        assert forall|i: int| 0 <= i < unsigned_part(longer).len() implies is_digit(
            #[trigger] unsigned_part(longer)[i],
        ) by {
            if i < digits.len() {
                assert(unsigned_part(longer)[i] == digits[i]);
            }
        }
    }
}

/// A number is made of bytes from `0` to `9`, at least one, behind at most one `+`, which does
/// not change it.
pub proof fn law_number_form(s: Seq<u8>)
    ensures
        number(s) is Some ==> forall|i: int|
            0 <= i < s.len() ==> 0x30 <= #[trigger] s[i] <= 0x39 || (i == 0 && s[0] == 0x2b),
        number(s) is Some ==> exists|i: int| 0 <= i < s.len() && 0x30 <= #[trigger] s[i] <= 0x39,
        s.len() > 0 && s[0] != 0x2b ==> number(seq![0x2bu8] + s) == number(s),
        s.len() > 0 && s[0] == 0x2b ==> number(seq![0x2bu8] + s) is None,
{
    let digits = unsigned_part(s);
    if number(s) is Some {
        assert forall|i: int| 0 <= i < s.len() implies 0x30 <= #[trigger] s[i] <= 0x39 || (i == 0
            && s[0] == 0x2b) by {
            if s[0] == 0x2b {
                if i > 0 {
                    assert(digits[i - 1] == s[i]);
                    assert(is_digit(digits[i - 1]));
                }
            } else {
                assert(is_digit(digits[i]));
            }
        }
        assert(is_digit(digits[0]));
        let last = s.len() - 1;
        assert(digits[digits.len() - 1] == s[last]);
        assert(is_digit(digits[digits.len() - 1]));
        assert(0x30 <= s[last] <= 0x39);
    }
    let signed = seq![0x2bu8] + s;
    assert(unsigned_part(signed) =~= s);
    if s.len() > 0 && s[0] == 0x2b {
        assert(!is_digit(s[0]));
    }
}

/// A call of `append_decimal` adds the digits of the number to the text and leaves what stands
/// there: read as a number they give it back.
pub proof fn law_append_decimal(text: &mut String, n: u64)
    requires
        call_ensures(append_decimal, (text, n), ()),
    ensures
        final(text)@.len() > old(text)@.len(),
        final(text)@.take(old(text)@.len() as int) == old(text)@,
        number(ascii_bytes(final(text)@.skip(old(text)@.len() as int))) == Some(n),
{
    let digits = decimal(n as nat);
    law_decimal_round_trip(n);
    lemma_decimal_digits(n as nat);
    assert(final(text)@.take(old(text)@.len() as int) =~= old(text)@);
    assert(final(text)@.skip(old(text)@.len() as int) =~= digits);
}

/// A call of `parse_number` gives no number for anything but digits behind at most one `+`, and
/// the number of the digits else, unless it is more than 64 bits hold.
pub proof fn law_parse_number(s: &[u8], r: Option<u64>)
    requires
        call_ensures(parse_number, (s,), r),
    ensures
        r is Some ==> forall|i: int|
            0 <= i < s@.len() ==> 0x30 <= #[trigger] s@[i] <= 0x39 || (i == 0 && s@[0] == 0x2b),
        s@.len() == 0 ==> r is None,
        forall|n: u64| s@ == #[trigger] ascii_bytes(decimal(n as nat)) ==> r == Some(n),
        forall|head: Seq<u8>, d: u8|
            d < 10 && s@ == #[trigger] head.push((0x30 + d) as u8) ==> (number(head) matches Some(
                value,
            ) ==> r == if value * 10 + d <= u64::MAX {
                Some((value * 10 + d) as u64)
            } else {
                None
            }),
{
    law_number_form(s@);
    assert forall|n: u64| s@ == #[trigger] ascii_bytes(decimal(n as nat)) implies r == Some(n) by {
        law_decimal_round_trip(n);
    }
    assert forall|head: Seq<u8>, d: u8|
        d < 10 && s@ == #[trigger] head.push((0x30 + d) as u8) implies (number(head) matches Some(
        value,
    ) ==> r == if value * 10 + d <= u64::MAX {
        Some((value * 10 + d) as u64)
    } else {
        None
    }) by {
        law_number_grows_by_digits(head, d);
    }
}

/// The bytes of an ASCII text are its characters, one for one.
pub proof fn law_ascii_bytes(text: Seq<char>, i: int)
    requires
        0 <= i < text.len(),
    ensures
        ascii_bytes(text).len() == text.len(),
        (text[i] as u32) < 0x80 ==> ascii_bytes(text)[i] as u32 == text[i] as u32,
{
    lemma_ascii(text[i]);
}

/// A character of ASCII fits in a byte.
proof fn lemma_ascii(c: char)
    ensures
        (c as u32) < 0x80 ==> (c as u8) as u32 == c as u32,
{
}

} // verus!
