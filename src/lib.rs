//! Lenient conversion of a byte string into a `u128`.
//!
//! A string of decimal ASCII digits is read as its number, modulo 2^128.
//! Any other byte is still folded in, as `(byte - b'0') mod 256`, which gives a
//! value that depends on the bytes alone and means nothing else.
use vstd::prelude::*;
use vstd::arithmetic::div_mod::{
    lemma_add_mod_noop_right, lemma_mul_mod_noop_left, lemma_small_mod,
};
use vstd::string::StringSliceAdditionalSpecFns;

verus! {

/// 2^128, the modulus of every `u128` operation here.
pub open spec fn u128_modulus() -> nat {
    (u128::MAX + 1) as nat
}

/// The ASCII code of `'0'`.
pub const ZERO_DIGIT: u8 = 0x30;

/// Whether `b` is one of the ASCII digits `'0'..='9'`.
pub open spec fn is_digit(b: u8) -> bool {
    ZERO_DIGIT <= b <= 0x39
}

/// Whether every byte of `s` is an ASCII digit.
pub open spec fn all_digits(s: Seq<u8>) -> bool {
    forall|i: int| 0 <= i < s.len() ==> is_digit(#[trigger] s[i])
}

/// What one byte adds: `b - '0'` in 8-bit wrapping arithmetic.
pub open spec fn digit_value(b: u8) -> nat {
    ((b as int - ZERO_DIGIT) % 256) as nat
}

/// One step of the parse: times ten, then plus the byte's digit value, each
/// operation wrapping at 2^128.
pub open spec fn step(total: u128, b: u8) -> u128 {
    let scaled = (total as nat * 10) % u128_modulus();
    ((scaled + digit_value(b)) % u128_modulus()) as u128
}

/// The result of parsing `s`: the steps applied to each byte from first to last.
pub open spec fn parsed_value(s: Seq<u8>) -> u128
    decreases s.len(),
{
    if s.len() == 0 {
        0
    } else {
        step(parsed_value(s.drop_last()), s.last())
    }
}

/// The value of `s` without any wrapping: each byte's digit value, weighted by
/// ten to the power of the number of bytes after it.
pub open spec fn unbounded_value(s: Seq<u8>) -> nat
    decreases s.len(),
{
    if s.len() == 0 {
        0
    } else {
        unbounded_value(s.drop_last()) * 10 + digit_value(s.last())
    }
}

/// Ten to the power `n`.
pub open spec fn pow10(n: nat) -> nat
    decreases n,
{
    if n == 0 {
        1
    } else {
        10 * pow10((n - 1) as nat)
    }
}

/// The number that the digit string `s` spells, read from its most
/// significant digit: the first digit times ten to the power of the number of
/// digits after it, plus the number that the rest spells.
pub open spec fn decimal_number(s: Seq<u8>) -> int
    decreases s.len(),
{
    if s.len() == 0 {
        0
    } else {
        (s[0] - ZERO_DIGIT) * pow10((s.len() - 1) as nat) + decimal_number(s.drop_first())
    }
}

/// Wrapping at each step gives the same result as computing the value without
/// bounds and reducing it modulo 2^128 at the end, for every byte string.
pub proof fn lemma_stepwise_wrap_is_truncation(s: Seq<u8>)
    ensures
        parsed_value(s) as nat == unbounded_value(s) % u128_modulus(),
    decreases s.len(),
{
    if s.len() > 0 {
        let p = s.drop_last();
        let m = u128_modulus() as int;
        let x = unbounded_value(p) as int;
        let d = digit_value(s.last()) as int;
        lemma_stepwise_wrap_is_truncation(p);
        lemma_mul_mod_noop_left(x, 10, m);
        lemma_add_mod_noop_right(d, x * 10, m);
        assert((parsed_value(p) as int * 10) % m == (x * 10) % m);
        assert(((x * 10) % m + d) % m == (x * 10 + d) % m);
        assert(parsed_value(s) as int == (unbounded_value(s) as int) % m);
    } else {
        assert(unbounded_value(s) == 0);
    }
}

/// Appending a digit to a digit string multiplies its number by ten and adds
/// the digit.
proof fn lemma_decimal_number_push(s: Seq<u8>, b: u8)
    requires
        all_digits(s),
        is_digit(b),
    ensures
        decimal_number(s.push(b)) == decimal_number(s) * 10 + (b - ZERO_DIGIT),
    decreases s.len(),
{
    let t = s.push(b);
    if s.len() == 0 {
        assert(t.drop_first() =~= Seq::<u8>::empty());
        assert(t[0] == b);
        assert(pow10(0) == 1);
        assert(decimal_number(t) == (b - ZERO_DIGIT) * 1 + decimal_number(t.drop_first()));
        assert(decimal_number(s) == 0);
    } else {
        let rest = s.drop_first();
        assert(t.drop_first() =~= rest.push(b));
        assert(all_digits(rest)) by {
            assert forall|i: int| 0 <= i < rest.len() implies is_digit(#[trigger] rest[i]) by {
                assert(rest[i] == s[i + 1]);
            }
        }
        lemma_decimal_number_push(rest, b);
        assert(t[0] == s[0]);
        assert(t.len() - 1 == s.len());
        let h = s[0] - ZERO_DIGIT;
        let k = pow10((s.len() - 1) as nat) as int;
        let r = decimal_number(rest);
        assert(pow10(s.len() as nat) == 10 * k);
        assert(h * (10 * k) + (r * 10 + (b - ZERO_DIGIT)) == (h * k + r) * 10 + (b
            - ZERO_DIGIT)) by (nonlinear_arith);
        assert(decimal_number(t) == h * pow10(s.len() as nat) + decimal_number(rest.push(b)));
        assert(decimal_number(s) == h * k + r);
    }
}

/// On a digit string the unbounded value is the number that the string spells.
proof fn lemma_unbounded_value_of_digits(s: Seq<u8>)
    requires
        all_digits(s),
    ensures
        unbounded_value(s) == decimal_number(s),
    decreases s.len(),
{
    if s.len() > 0 {
        let p = s.drop_last();
        assert(all_digits(p)) by {
            assert forall|i: int| 0 <= i < p.len() implies is_digit(#[trigger] p[i]) by {
                assert(p[i] == s[i]);
            }
        }
        assert(is_digit(s.last()));
        lemma_unbounded_value_of_digits(p);
        lemma_decimal_number_push(p, s.last());
        assert(p.push(s.last()) =~= s);
    }
}

/// A digit string of any length parses to the number it spells modulo 2^128.
pub proof fn lemma_digit_string_wraps(s: Seq<u8>)
    requires
        all_digits(s),
    ensures
        parsed_value(s) == decimal_number(s) % (u128_modulus() as int),
{
    lemma_stepwise_wrap_is_truncation(s);
    lemma_unbounded_value_of_digits(s);
}

/// A digit string that spells a number below 2^128 parses to exactly that
/// number.
pub proof fn lemma_digit_string_exact(s: Seq<u8>)
    requires
        all_digits(s),
        decimal_number(s) < u128_modulus(),
    ensures
        parsed_value(s) == decimal_number(s),
{
    lemma_digit_string_wraps(s);
    lemma_unbounded_value_of_digits(s);
    lemma_small_mod(unbounded_value(s), u128_modulus());
}

/// The result depends on the input's bytes alone: inputs with the same bytes
/// parse to the same value, however often and wherever the parse is made.
pub proof fn lemma_parse_is_deterministic(a: &str, b: &str)
    requires
        a.spec_bytes() == b.spec_bytes(),
    ensures
        parsed_value(a.spec_bytes()) == parsed_value(b.spec_bytes()),
{
}

/// Parses the bytes of `bytes` as a decimal number, wrapping at 2^128.
///
/// Never fails: bytes that are not digits contribute `(byte - b'0') mod 256`.
pub fn parse_u128_bytes(bytes: &[u8]) -> (r: u128)
    ensures
        r == parsed_value(bytes@),
        r as nat == unbounded_value(bytes@) % u128_modulus(),
{
    let len = bytes.len();
    let mut index: usize = 0;
    let mut total: u128 = 0;
    while index < len
        invariant
            len == bytes@.len(),
            index <= len,
            total == parsed_value(bytes@.subrange(0, index as int)),
        decreases len - index,
    {
        proof {
            let prefix = bytes@.subrange(0, index as int + 1);
            assert(prefix.drop_last() =~= bytes@.subrange(0, index as int));
            assert(prefix.last() == bytes@[index as int]);
        }
        total = total.wrapping_mul(10);
        let u = bytes[index].wrapping_sub(ZERO_DIGIT) as u128;
        total = total.wrapping_add(u);
        index += 1;
    }
    assert(bytes@.subrange(0, len as int) =~= bytes@);
    proof {
        lemma_stepwise_wrap_is_truncation(bytes@);
    }
    total
}

/// Parses the input into a `u128` value.
///
/// * If the input string is empty, the output is 0.
/// * If the input string is exclusively decimal ASCII digits that spell a
///   `u128` value then the output is that value.
/// * Otherwise the output is a value that depends on the input's bytes alone:
///   a very bad hash.
pub fn parse_u128(input_string: &str) -> (r: u128)
    ensures
        r == parsed_value(input_string.spec_bytes()),
        r as nat == unbounded_value(input_string.spec_bytes()) % u128_modulus(),
{
    parse_u128_bytes(input_string.as_bytes())
}

} // verus!
