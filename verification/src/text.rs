//! Decimal and hexadecimal text.
use bitcoin::hex::DisplayHex;
use vstd::arithmetic::power2::{lemma2_to64, lemma2_to64_rest, lemma_pow2_unfold, pow2};
use vstd::prelude::*;
use vstd::utf8::{encode_scalar, encode_utf8};

verus! {

/// What each of several texts holds.
pub open spec fn texts(strings: Seq<String>) -> Seq<Seq<char>> {
    Seq::new(strings.len(), |i: int| strings[i]@)
}

/// The digit for a value below sixteen, in lower case.
pub open spec fn hex_digit(n: int) -> char {
    if n < 10 {
        ('0' as int + n) as char
    } else {
        ('a' as int + n - 10) as char
    }
}

/// Two lower case digits for each byte.
pub open spec fn hex(bytes: Seq<u8>) -> Seq<char> {
    Seq::new(
        2 * bytes.len(),
        |i: int|
            hex_digit(
                if i % 2 == 0 {
                    bytes[i / 2] / 16
                } else {
                    bytes[i / 2] % 16
                } as int,
            ),
    )
}

/// The value of a hexadecimal digit in either case.
pub open spec fn digit_value(c: char) -> Option<int> {
    if '0' <= c <= '9' {
        Some(c as int - '0' as int)
    } else if 'a' <= c <= 'f' {
        Some(c as int - 'a' as int + 10)
    } else if 'A' <= c <= 'F' {
        Some(c as int - 'A' as int + 10)
    } else {
        None
    }
}

/// The digits of a number in base ten.
pub open spec fn digits(n: nat) -> Seq<char>
    decreases n,
{
    if n < 10 {
        seq![hex_digit(n as int)]
    } else {
        digits(n / 10).push(hex_digit((n % 10) as int))
    }
}

/// A number in base ten, with a sign where it is negative.
pub open spec fn decimal(n: int) -> Seq<char> {
    if n < 0 {
        seq!['-'] + digits((-n) as nat)
    } else {
        digits(n as nat)
    }
}

/// Writes a number in base ten with `to_string` of the standard library.
#[verifier::external_body]
pub(crate) fn to_decimal(n: i128) -> (r: String)
    ensures
        r@ == decimal(n as int),
{
    n.to_string()
}

/// Writes bytes in hexadecimal with `DisplayHex::to_lower_hex_string` of the
/// `bitcoin` crate: two lower case digits for each byte, in order.
#[verifier::external_body]
pub(crate) fn to_hex(bytes: &[u8]) -> (r: String)
    ensures
        r@ == hex(bytes@),
{
    bytes.to_lower_hex_string()
}

/// A character takes at most four bytes.
pub proof fn lemma_utf8_len(text: Seq<char>)
    ensures
        encode_utf8(text).len() <= 4 * text.len(),
    decreases text.len(),
{
    if text.len() > 0 {
        lemma_utf8_len(text.drop_first());
        assert(encode_scalar(text[0] as u32).len() <= 4);
    }
}

/// A number has at most one digit more than it has bits.
proof fn lemma_digits_len(n: nat, bits: nat)
    requires
        n < pow2(bits),
    ensures
        digits(n).len() <= bits + 1,
    decreases bits,
{
    lemma2_to64();
    if n >= 10 {
        lemma_pow2_unfold(bits);
        lemma_digits_len(n / 10, (bits - 1) as nat);
    }
}

/// A 64-bit number has at most 66 characters.
pub proof fn lemma_decimal_len(n: int)
    requires
        i64::MIN <= n <= i64::MAX,
    ensures
        decimal(n).len() <= 66,
{
    lemma2_to64();
    lemma2_to64_rest();
    lemma_digits_len(
        if n < 0 {
            -n
        } else {
            n
        } as nat,
        64,
    );
}

} // verus!
