//! The few texts the library writes: numbers in decimal and in fixed-width
//! hexadecimal, and a quoted string.

use vstd::arithmetic::div_mod;
use vstd::arithmetic::power;
use vstd::prelude::*;

verus! {

/// The digit of value `d`, lower case above nine.
pub open spec fn digit_of(d: int) -> char {
    if d < 10 {
        (48 + d) as char
    } else {
        (87 + d) as char
    }
}

/// `n` in decimal, without leading zeros.
pub open spec fn decimal_of(n: nat) -> Seq<char>
    decreases n,
{
    if n < 10 {
        seq![digit_of(n as int)]
    } else {
        decimal_of(n / 10).push(digit_of((n % 10) as int))
    }
}

/// `0x` and the two hexadecimal digits of `byte`.
pub open spec fn hex_byte_of(byte: u8) -> Seq<char> {
    seq!['0', 'x', digit_of(byte as int / 16), digit_of(byte as int % 16)]
}

/// `0x` and the four hexadecimal digits of `word`.
pub open spec fn hex_word_of(word: u16) -> Seq<char> {
    seq![
        '0',
        'x',
        digit_of(word as int / 4096),
        digit_of(word as int / 256 % 16),
        digit_of(word as int / 16 % 16),
        digit_of(word as int % 16),
    ]
}

/// What the standard library's `Debug` writes for a string: the string
/// between double quotes, what is not printable escaped.
pub uninterp spec fn quoted_of(text: Seq<char>) -> Seq<char>;

/// Calls `<str as Debug>::fmt` by way of `format!`. Trusted: the result is a
/// function of the characters of `text` alone, and goes by the name
/// [`quoted_of`]; which characters are escaped, and how, is not stated.
#[verifier::external_body]
pub(crate) fn quoted(text: &str) -> (out: String)
    ensures
        out@ == quoted_of(text@),
{
    format!("{text:?}")
}

fn digit(d: u8) -> (out: &'static str)
    requires
        d < 16,
    ensures
        out@ == seq![digit_of(d as int)],
{
    proof {
        reveal_strlit("0");
        reveal_strlit("1");
        reveal_strlit("2");
        reveal_strlit("3");
        reveal_strlit("4");
        reveal_strlit("5");
        reveal_strlit("6");
        reveal_strlit("7");
        reveal_strlit("8");
        reveal_strlit("9");
        reveal_strlit("a");
        reveal_strlit("b");
        reveal_strlit("c");
        reveal_strlit("d");
        reveal_strlit("e");
        reveal_strlit("f");
    }
    match d {
        0 => "0",
        1 => "1",
        2 => "2",
        3 => "3",
        4 => "4",
        5 => "5",
        6 => "6",
        7 => "7",
        8 => "8",
        9 => "9",
        10 => "a",
        11 => "b",
        12 => "c",
        13 => "d",
        14 => "e",
        _ => "f",
    }
}

/// `n` in decimal.
pub(crate) fn decimal(n: usize) -> (out: String)
    ensures
        out@ == decimal_of(n as nat),
    decreases n,
{
    if n < 10 {
        digit(n as u8).to_owned()
    } else {
        let mut out: String = decimal(n / 10);
        out.append(digit((n % 10) as u8));
        proof {
            assert(out@ =~= decimal_of(n as nat));
        }
        out
    }
}

/// `byte` as `0x` and two hexadecimal digits.
pub(crate) fn hex_byte(byte: u8) -> (out: String)
    ensures
        out@ == hex_byte_of(byte),
{
    proof {
        reveal_strlit("0x");
    }
    let mut out: String = "0x".to_owned();
    out.append(digit(byte / 16));
    out.append(digit(byte % 16));
    proof {
        assert(out@ =~= hex_byte_of(byte));
    }
    out
}

/// `word` as `0x` and four hexadecimal digits.
pub(crate) fn hex_word(word: u16) -> (out: String)
    ensures
        out@ == hex_word_of(word),
{
    proof {
        reveal_strlit("0x");
    }
    let mut out: String = "0x".to_owned();
    out.append(digit((word / 4096) as u8));
    out.append(digit((word / 256 % 16) as u8));
    out.append(digit((word / 16 % 16) as u8));
    out.append(digit((word % 16) as u8));
    proof {
        assert(out@ =~= hex_word_of(word));
    }
    out
}

/// A number in decimal, digit by digit: the digit `at` places from the right is
/// how often ten to the power `at` goes into the number, without what stands to
/// its left. The digits are as many as the number needs.
pub proof fn law_decimal_digit_by_digit(n: nat, at: nat)
    ensures
        ({
            let digits = decimal_of(n);
            &&& digits.len() >= 1
            &&& n < power::pow(10, digits.len())
            &&& n > 0 ==> n >= power::pow(10, (digits.len() - 1) as nat)
            &&& n == 0 ==> digits.len() == 1
            &&& at < digits.len() ==> digits[digits.len() - 1 - at] as int == '0' as int + n as int
                / power::pow(10, at) % 10
        }),
    decreases n,
{
    reveal(power::pow);
    let digits = decimal_of(n);
    if n < 10 {
        assert(power::pow(10, 1) == 10) by {
            reveal_with_fuel(power::pow, 2);
        }
        assert(power::pow(10, 0) == 1);
    } else {
        let tens = decimal_of(n / 10);
        law_decimal_digit_by_digit(n / 10, if at > 0 {
            (at - 1) as nat
        } else {
            0
        });
        assert(power::pow(10, digits.len()) == 10 * power::pow(10, tens.len()));
        assert(power::pow(10, (digits.len() - 1) as nat) == 10 * power::pow(
            10,
            (tens.len() - 1) as nat,
        ));
        if at == 0 {
            assert(power::pow(10, 0) == 1);
        } else if at < digits.len() {
            let lower = (at - 1) as nat;
            power::lemma_pow_positive(10, lower);
            assert(power::pow(10, at) == 10 * power::pow(10, lower));
            div_mod::lemma_div_denominator(n as int, 10, power::pow(10, lower));
            assert(digits[digits.len() - 1 - at] == tens[tens.len() - 1 - lower]);
        }
    }
}

/// A byte in hexadecimal: `0x` and two digits, lower case, that count sixteens
/// and ones.
pub proof fn law_hex_byte_digit_by_digit(byte: u8)
    ensures
        ({
            let out = hex_byte_of(byte);
            let value = |c: char|
                if '0' <= c <= '9' {
                    c as int - '0' as int
                } else {
                    10 + c as int - 'a' as int
                };
            &&& out.len() == 4 && out[0] == '0' && out[1] == 'x'
            &&& forall|i: int|
                2 <= i < 4 ==> '0' <= #[trigger] out[i] <= '9' || 'a' <= out[i] <= 'f'
            &&& 16 * value(out[2]) + value(out[3]) == byte
        }),
{
}

/// The digit of a value has that value.
proof fn lemma_digit_has_its_value(d: int)
    requires
        0 <= d < 16,
    ensures
        '0' <= digit_of(d) <= '9' || 'a' <= digit_of(d) <= 'f',
        '0' <= digit_of(d) <= '9' ==> digit_of(d) as int - '0' as int == d,
        !('0' <= digit_of(d) <= '9') ==> 10 + digit_of(d) as int - 'a' as int == d,
{
}

/// A word is its four hexadecimal digits.
proof fn lemma_word_in_digits(w: int)
    requires
        0 <= w < 65536,
    ensures
        4096 * (w / 4096) + 256 * (w / 256 % 16) + 16 * (w / 16 % 16) + w % 16 == w,
        0 <= w / 4096 < 16,
{
    assert(w / 256 == w / 16 / 16);
    assert(w / 4096 == w / 256 / 16);
}

/// A word in hexadecimal: `0x` and four digits, lower case, from the highest
/// down.
pub proof fn law_hex_word_digit_by_digit(word: u16)
    ensures
        ({
            let out = hex_word_of(word);
            let value = |c: char|
                if '0' <= c <= '9' {
                    c as int - '0' as int
                } else {
                    10 + c as int - 'a' as int
                };
            &&& out.len() == 6 && out[0] == '0' && out[1] == 'x'
            &&& forall|i: int|
                2 <= i < 6 ==> '0' <= #[trigger] out[i] <= '9' || 'a' <= out[i] <= 'f'
            &&& 4096 * value(out[2]) + 256 * value(out[3]) + 16 * value(out[4]) + value(out[5])
                == word
        }),
{
    let w = word as int;
    let (a, b, c, d) = (w / 4096, w / 256 % 16, w / 16 % 16, w % 16);
    let value = |c: char|
        if '0' <= c <= '9' {
            c as int - '0' as int
        } else {
            10 + c as int - 'a' as int
        };
    let out = hex_word_of(word);
    assert(out[2] == digit_of(a) && out[3] == digit_of(b) && out[4] == digit_of(c) && out[5]
        == digit_of(d));
    assert(value(out[2]) == a) by {
        lemma_digit_has_its_value(a);
    }
    assert(value(out[3]) == b) by {
        lemma_digit_has_its_value(b);
    }
    assert(value(out[4]) == c) by {
        lemma_digit_has_its_value(c);
    }
    assert(value(out[5]) == d) by {
        lemma_digit_has_its_value(d);
    }
    assert(4096 * a + 256 * b + 16 * c + d == w) by {
        lemma_word_in_digits(w);
    }
    assert forall|i: int| 2 <= i < 6 implies '0' <= #[trigger] out[i] <= '9' || 'a' <= out[i]
        <= 'f' by {
        lemma_digit_has_its_value(a);
        lemma_digit_has_its_value(b);
        lemma_digit_has_its_value(c);
        lemma_digit_has_its_value(d);
    }
}

/// Two numbers that differ are written differently.
pub proof fn law_decimals_tell_apart(one: nat, other: nat)
    ensures
        decimal_of(one) == decimal_of(other) ==> one == other,
    decreases one,
{
    if decimal_of(one) == decimal_of(other) {
        assert(decimal_of(one).last() == decimal_of(other).last());
        assert(decimal_of(one).len() == decimal_of(other).len());
        law_decimal_digit_by_digit(one, 0);
        law_decimal_digit_by_digit(other, 0);
        if one < 10 {
            assert(other < 10) by {
                if other >= 10 {
                    law_decimal_digit_by_digit(other / 10, 0);
                    assert(decimal_of(other).len() == decimal_of(other / 10).len() + 1);
                }
            }
        } else {
            assert(other >= 10) by {
                law_decimal_digit_by_digit(one / 10, 0);
                assert(decimal_of(one).len() == decimal_of(one / 10).len() + 1);
            }
            assert(decimal_of(one).drop_last() =~= decimal_of(one / 10));
            assert(decimal_of(other).drop_last() =~= decimal_of(other / 10));
            law_decimals_tell_apart(one / 10, other / 10);
            assert(digit_of((one % 10) as int) == digit_of((other % 10) as int));
        }
    }
}

} // verus!
