//! Hashes of transactions, blocks and scripts.
//!
//! A hash is held in internal byte order; its text shows the bytes in reverse.
use crate::text::{decimal, digit_value, hex, texts};
use vstd::prelude::*;
use vstd::utf8::encode_utf8;

verus! {

/// A hash in internal byte order.
pub type FullHash = [u8; 32];

/// The text of a hash: lower case hexadecimal, last byte first.
pub open spec fn hash_text(hash: Seq<u8>) -> Seq<char> {
    hex(hash.reverse())
}

/// The hash that a text stands for: 64 hexadecimal digits in either case, last
/// byte first.
pub open spec fn hash_of_text(text: Seq<char>) -> Option<Seq<u8>> {
    if text.len() == 64 && (forall|i: int|
        0 <= i < text.len() ==> digit_value(#[trigger] text[i]) is Some) {
        Some(
            Seq::new(
                32,
                |i: int|
                    (16 * digit_value(text[62 - 2 * i])->0 + digit_value(
                        text[63 - 2 * i],
                    )->0) as u8,
            ),
        )
    } else {
        None
    }
}

/// The SHA-256 digest of some bytes.
pub uninterp spec fn sha256(data: Seq<u8>) -> Seq<u8>;

/// Hashes bytes with `Sha256` of the `crypto` crate, which takes fewer than two to
/// the power 61 of them. The digest is a function of the bytes alone; what it is
/// on given bytes is not stated.
#[verifier::external_body]
pub(crate) fn sha256_digest(data: &[u8]) -> (r: FullHash)
    requires
        data@.len() < 0x2000_0000_0000_0000,
    ensures
        r@ == sha256(data@),
{
    let mut hasher = crypto::sha2::Sha256::new();
    let mut hash: FullHash = [0; 32];
    crypto::digest::Digest::input(&mut hasher, data);
    crypto::digest::Digest::result(&mut hasher, &mut hash);
    hash
}

/// The first byte that is no hexadecimal digit.
pub open spec fn first_non_digit(bytes: Seq<u8>) -> u8
    decreases bytes.len(),
{
    if bytes.len() == 0 {
        0
    } else if digit_value(bytes[0] as char) is None {
        bytes[0]
    } else {
        first_non_digit(bytes.drop_first())
    }
}

/// What is wrong with a text that stands for no hash, and why: it does not have as
/// many bytes as a hash has digits, or has another one than a digit.
pub open spec fn hash_text_faults(text: Seq<char>) -> Seq<Seq<char>> {
    let bytes = encode_utf8(text);
    if bytes.len() != 64 {
        seq![
            "failed to parse hex"@,
            "invilad hex string length "@ + decimal(bytes.len() as int) + " (expected 64)"@,
        ]
    } else {
        seq![
            "failed to parse hex digit"@,
            "invalid hex char "@ + decimal(first_non_digit(bytes) as int),
        ]
    }
}

/// Parses a hash with `FromStr` of `bitcoin::hashes::sha256d::Hash`: it accepts
/// 64 hexadecimal digits and nothing else, and reverses the bytes. Its error
/// displays one text, and that of the error that it has as its source.
#[verifier::external_body]
pub(crate) fn parse_hash(text: &str) -> (r: Result<FullHash, Vec<String>>)
    ensures
        (match r {
            Ok(hash) => hash_of_text(text@) == Some(hash@),
            Err(faults) => hash_of_text(text@) is None && texts(faults@) == hash_text_faults(text@),
        }),
{
    match text.parse::<bitcoin::hashes::sha256d::Hash>() {
        Ok(hash) => Ok(bitcoin::hashes::Hash::to_byte_array(hash)),
        Err(e) => {
            let source = std::error::Error::source(&e);
            Err([Some(e.to_string()), source.map(ToString::to_string)].into_iter().flatten().collect())
        },
    }
}

/// Displays a hash as `bitcoin::hashes::sha256d::Hash` does: lower case
/// hexadecimal, last byte first.
#[verifier::external_body]
pub(crate) fn display_hash(hash: &FullHash) -> (r: String)
    ensures
        r@ == hash_text(hash@),
{
    let hash: bitcoin::hashes::sha256d::Hash = bitcoin::hashes::Hash::from_byte_array(*hash);
    hash.to_string()
}

/// The bytes of a hash, where there are as many as a hash has.
pub fn full_hash(bytes: &[u8]) -> (r: FullHash)
    requires
        bytes@.len() == 32,
    ensures
        r@ == bytes@,
{
    let mut hash: FullHash = [0; 32];
    let mut i: usize = 0;
    while i < 32
        invariant
            i <= 32,
            bytes@.len() == 32,
            forall|j: int| 0 <= j < i ==> hash@[j] == bytes@[j],
        decreases 32 - i,
    {
        hash[i] = bytes[i];
        i = i + 1;
    }
    assert(hash@ =~= bytes@);
    hash
}

/// Whether two hashes are the same.
pub fn same_hash(a: &FullHash, b: &FullHash) -> (r: bool)
    ensures
        r == (*a == *b),
{
    let mut i: usize = 0;
    while i < 32
        invariant
            i <= 32,
            forall|j: int| 0 <= j < i ==> a@[j] == b@[j],
        decreases 32 - i,
    {
        if a[i] != b[i] {
            return false;
        }
        i = i + 1;
    }
    assert(*a =~= *b);
    true
}

/// The text of a hash stands for that hash: what a client sends for a script is
/// the key under which the index keeps it.
pub proof fn lemma_hash_text_round_trip(hash: Seq<u8>)
    requires
        hash.len() == 32,
    ensures
        hash_of_text(hash_text(hash)) == Some(hash),
{
    let text = hash_text(hash);
    assert forall|i: int| 0 <= i < text.len() implies digit_value(#[trigger] text[i]) is Some by {}
    assert(hash_of_text(text)->0 =~= hash);
}

} // verus!
