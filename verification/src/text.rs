//! Numbers rendered as text for error messages.

use vstd::arithmetic::power2::pow2;
use vstd::prelude::*;
use vstd::string::*;

verus! {

/// The character of digit `d` (below 16): `0` to `9`, then `A` to `F`
/// when `upper`, else `a` to `f`.
pub open spec fn digit_char(d: int, upper: bool) -> char {
    if d < 10 {
        (48 + d) as char
    } else if upper {
        (55 + d) as char
    } else {
        (87 + d) as char
    }
}

/// The digits of `n` in base `base`, most significant first, without
/// leading zeros (a single `0` for zero).
pub open spec fn digits(n: nat, base: nat, upper: bool) -> Seq<char>
    decreases n,
{
    if base < 2 || n < base {
        seq![digit_char(n as int, upper)]
    } else {
        proof {
            assert(n / base < n) by (nonlinear_arith)
                requires
                    base >= 2,
                    n >= base,
            ;
        }
        digits(n / base, base, upper).push(digit_char((n % base) as int, upper))
    }
}

/// The last `width` digits of `n` in base 16, lower case, zeros in front.
pub open spec fn padded_lower_hex_digits(n: nat, width: nat) -> Seq<char>
    decreases width,
{
    if width == 0 {
        seq![]
    } else {
        padded_lower_hex_digits(n / 16, (width - 1) as nat).push(digit_char((n % 16) as int, false))
    }
}

/// The text that `format!("{}", n)` produces for `n`: its decimal digits.
pub open spec fn decimal_text(n: u64) -> Seq<char> {
    digits(n as nat, 10, false)
}

/// The text that `format!("{:#X}", n)` produces for `n`: `0x` and its
/// upper-case hexadecimal digits.
pub open spec fn upper_hex_text(n: u64) -> Seq<char> {
    seq!['0', 'x'] + digits(n as nat, 16, true)
}

/// The text that `format!("{:#010x}", n)` produces for `n`: `0x` and eight
/// lower-case hexadecimal digits, zeros in front.
pub open spec fn padded_lower_hex_text(n: u32) -> Seq<char> {
    seq!['0', 'x'] + padded_lower_hex_digits(n as nat, 8)
}

/// Whether `c` is a decimal digit, `0` to `9`.
pub open spec fn is_decimal_digit(c: char) -> bool {
    '0' <= c && c <= '9'
}

/// Whether `c` is an upper-case hexadecimal digit, `0` to `9` or `A` to `F`.
pub open spec fn is_upper_hex_digit(c: char) -> bool {
    is_decimal_digit(c) || ('A' <= c && c <= 'F')
}

/// Whether `c` is a lower-case hexadecimal digit, `0` to `9` or `a` to `f`.
pub open spec fn is_lower_hex_digit(c: char) -> bool {
    is_decimal_digit(c) || ('a' <= c && c <= 'f')
}

/// The value of a digit character: `0` to `9` are 0 to 9, `A` to `F` and
/// `a` to `f` are 10 to 15.
pub open spec fn digit_value(c: char) -> int {
    if is_decimal_digit(c) {
        c as int - '0' as int
    } else if 'A' <= c && c <= 'F' {
        c as int - 'A' as int + 10
    } else {
        c as int - 'a' as int + 10
    }
}

/// The number that the digits `t` spell in base `base`, most significant first.
pub open spec fn digits_value(t: Seq<char>, base: int) -> int
    decreases t.len(),
{
    if t.len() == 0 {
        0
    } else {
        digits_value(t.drop_last(), base) * base + digit_value(t.last())
    }
}

proof fn lemma_digit_char(d: int, upper: bool)
    requires
        0 <= d < 16,
    ensures
        digit_value(digit_char(d, upper)) == d,
        d < 10 ==> is_decimal_digit(digit_char(d, upper)),
        upper ==> is_upper_hex_digit(digit_char(d, upper)),
        !upper ==> is_lower_hex_digit(digit_char(d, upper)),
        (digit_char(d, upper) == '0') == (d == 0),
{
}

proof fn lemma_digits_spell(n: nat, base: nat, upper: bool)
    requires
        base == 10 || base == 16,
    ensures
        digits(n, base, upper).len() >= 1,
        digits_value(digits(n, base, upper), base as int) == n,
        digits(n, base, upper).len() > 1 ==> digits(n, base, upper)[0] != '0',
        digits(n, base, upper)[0] == '0' ==> n == 0,
        forall|i: int|
            0 <= i < digits(n, base, upper).len() ==> {
                let c = #[trigger] digits(n, base, upper)[i];
                &&& (base == 10 ==> is_decimal_digit(c))
                &&& (upper ==> is_upper_hex_digit(c))
                &&& (!upper ==> is_lower_hex_digit(c))
            },
    decreases n,
{
    let t = digits(n, base, upper);
    if n < base {
        lemma_digit_char(n as int, upper);
        assert(t.drop_last() =~= Seq::<char>::empty());
        assert(digits_value(t.drop_last(), base as int) == 0);
        assert(digits_value(t, base as int) == 0 * (base as int) + digit_value(t.last()));
    } else {
        assert(n / base < n) by (nonlinear_arith)
            requires
                base >= 2,
                n >= base,
        ;
        lemma_digits_spell(n / base, base, upper);
        lemma_digit_char((n % base) as int, upper);
        let front = digits(n / base, base, upper);
        assert(t.drop_last() =~= front);
        vstd::arithmetic::div_mod::lemma_fundamental_div_mod(n as int, base as int);
        let q = (n / base) as int;
        let r = (n % base) as int;
        assert(t.last() == digit_char(r, upper));
        assert(digits_value(t, base as int) == digits_value(front, base as int) * base + r);
        assert(q * base == base * q) by (nonlinear_arith);
        assert(n / base >= 1) by (nonlinear_arith)
            requires
                base >= 2,
                n >= base,
        ;
    }
}

/// `decimal_text(n)` is the decimal numeral of `n`: one or more decimal
/// digits, without a leading zero unless it is `0` itself, that spell `n`.
pub proof fn lemma_decimal_text_spells(n: u64)
    ensures
        decimal_text(n).len() >= 1,
        forall|i: int| 0 <= i < decimal_text(n).len() ==> is_decimal_digit(#[trigger] decimal_text(n)[i]),
        decimal_text(n).len() > 1 ==> decimal_text(n)[0] != '0',
        digits_value(decimal_text(n), 10) == n,
{
    lemma_digits_spell(n as nat, 10, false);
}

/// `upper_hex_text(n)` is `0x` followed by the upper-case hexadecimal numeral
/// of `n`, without a leading zero unless it is `0` itself.
pub proof fn lemma_upper_hex_text_spells(n: u64)
    ensures
        upper_hex_text(n).len() >= 3,
        upper_hex_text(n)[0] == '0' && upper_hex_text(n)[1] == 'x',
        forall|i: int|
            2 <= i < upper_hex_text(n).len() ==> is_upper_hex_digit(#[trigger] upper_hex_text(n)[i]),
        upper_hex_text(n).len() > 3 ==> upper_hex_text(n)[2] != '0',
        digits_value(upper_hex_text(n).skip(2), 16) == n,
{
    lemma_digits_spell(n as nat, 16, true);
    let d = digits(n as nat, 16, true);
    assert(upper_hex_text(n).skip(2) =~= d);
    assert forall|i: int| 2 <= i < upper_hex_text(n).len() implies is_upper_hex_digit(
        #[trigger] upper_hex_text(n)[i],
    ) by {
        assert(upper_hex_text(n)[i] == d[i - 2]);
    }
}

proof fn lemma_padded_digits_spell(n: nat, width: nat)
    ensures
        padded_lower_hex_digits(n, width).len() == width,
        forall|i: int|
            0 <= i < width ==> is_lower_hex_digit(#[trigger] padded_lower_hex_digits(n, width)[i]),
        digits_value(padded_lower_hex_digits(n, width), 16) == (n as int) % (pow2(4 * width) as int),
    decreases width,
{
    let t = padded_lower_hex_digits(n, width);
    if width == 0 {
        vstd::arithmetic::power2::lemma2_to64();
    } else {
        let w1 = (width - 1) as nat;
        lemma_padded_digits_spell(n / 16, w1);
        lemma_digit_char((n % 16) as int, false);
        let front = padded_lower_hex_digits(n / 16, w1);
        assert(t.drop_last() =~= front);
        assert forall|i: int| 0 <= i < width implies is_lower_hex_digit(#[trigger] t[i]) by {
            if i < w1 {
                assert(t[i] == front[i]);
            }
        }
        let m = pow2(4 * w1) as int;
        vstd::arithmetic::power2::lemma_pow2_adds(4 * w1, 4);
        vstd::arithmetic::power2::lemma2_to64();
        vstd::arithmetic::power2::lemma_pow2_pos(4 * w1);
        assert(4 * width == 4 * w1 + 4);
        vstd::arithmetic::div_mod::lemma_mod_breakdown(n as int, 16, m);
        assert(16 * m == m * 16) by (nonlinear_arith);
        assert(pow2(4 * width) as int == 16 * m);
        let q = (n / 16) as int;
        let r = (n % 16) as int;
        assert(digits_value(t, 16) == (q % m) * 16 + r) by (nonlinear_arith)
            requires
                digits_value(t, 16) == digits_value(front, 16) * 16 + r,
                digits_value(front, 16) == q % m,
        ;
    }
}

/// `padded_lower_hex_text(n)` is `0x` followed by eight lower-case
/// hexadecimal digits that spell `n`, zeros in front.
pub proof fn lemma_padded_lower_hex_text_spells(n: u32)
    ensures
        padded_lower_hex_text(n).len() == 10,
        padded_lower_hex_text(n)[0] == '0' && padded_lower_hex_text(n)[1] == 'x',
        forall|i: int|
            2 <= i < 10 ==> is_lower_hex_digit(#[trigger] padded_lower_hex_text(n)[i]),
        digits_value(padded_lower_hex_text(n).skip(2), 16) == n,
{
    lemma_padded_digits_spell(n as nat, 8);
    let d = padded_lower_hex_digits(n as nat, 8);
    assert(padded_lower_hex_text(n).skip(2) =~= d);
    vstd::arithmetic::power2::lemma2_to64();
    assert(pow2(32) == 0x1_0000_0000);
    vstd::arithmetic::div_mod::lemma_small_mod(n as nat, 0x1_0000_0000);
    assert(4 * 8nat == 32);
    assert forall|i: int| 2 <= i < 10 implies is_lower_hex_digit(
        #[trigger] padded_lower_hex_text(n)[i],
    ) by {
        assert(padded_lower_hex_text(n)[i] == d[i - 2]);
    }
}

/// Renders `n` in decimal with std's `format!("{}", n)`.
/// Trusted: the result is the text that std's `Display` for `u64` gives,
/// which its documentation describes as the decimal digits of `n` without
/// sign or leading zeros.
#[verifier::external_body]
pub(crate) fn format_decimal(n: u64) -> (text: String)
    ensures
        text@ == decimal_text(n),
{
    format!("{}", n)
}

/// Renders `n` with std's `format!("{:#X}", n)`.
/// Trusted: the result is the text that std's `UpperHex` for `u64` gives with
/// the alternate flag: the prefix `0x`, then the upper-case hexadecimal digits
/// of `n` without leading zeros.
#[verifier::external_body]
pub(crate) fn format_upper_hex(n: u64) -> (text: String)
    ensures
        text@ == upper_hex_text(n),
{
    format!("{:#X}", n)
}

/// Renders `n` with std's `format!("{:#010x}", n)`.
/// Trusted: the result is the text that std's `LowerHex` for `u32` gives with
/// the alternate flag, zero padding and width 10: the prefix `0x`, then the
/// lower-case hexadecimal digits of `n` padded with zeros to eight, which a
/// `u32` never exceeds.
#[verifier::external_body]
pub(crate) fn format_padded_lower_hex(n: u32) -> (text: String)
    ensures
        text@ == padded_lower_hex_text(n),
{
    format!("{:#010x}", n)
}

/// `prefix` followed by `suffix`.
pub fn join_text(prefix: &str, suffix: &str) -> (text: String)
    ensures
        text@ == prefix@ + suffix@,
{
    String::from_str(prefix).concat(suffix)
}

} // verus!
