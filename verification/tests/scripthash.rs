use bitcoin::hex::FromHex;
use crypto::digest::Digest;
use crypto::sha2::Sha256;
use electrs::hash::{full_hash, FullHash};
use electrs::json::Json;
use electrs::messages::ScriptHashSet;
use electrs::params::hash_from_value;

fn compute_script_hash(script: &[u8]) -> FullHash {
    let mut hash = FullHash::default();
    let mut sha2 = Sha256::new();
    sha2.input(script);
    sha2.result(&mut hash);
    hash
}

/// Verify that a hash in protocol hex gives the same bytes as
/// compute_script_hash() for the same script. A mismatch here would cause the
/// dirty-scripthash lookup in an update to silently fail.
#[test]
fn scripthash_byte_order_roundtrip() {
    // A simple P2PKH scriptPubKey (OP_DUP OP_HASH160 <20 bytes> OP_EQUALVERIFY OP_CHECKSIG)
    let script = Vec::<u8>::from_hex("76a91489abcdefabbaabbaabbaabbaabbaabbaabbaabba88ac").unwrap();

    // Path 1: compute_script_hash (used by mempool dirty tracking)
    let from_compute = compute_script_hash(&script);

    // Path 2: Electrum protocol hex, in reversed byte order
    let display_hex: String = from_compute
        .iter()
        .rev()
        .map(|b| format!("{:02x}", b))
        .collect();
    let parsed = hash_from_value(Some(&Json::Text(display_hex))).expect("valid hex");
    let from_parsed = full_hash(&parsed[..]);

    assert_eq!(
        from_compute, from_parsed,
        "compute_script_hash and the protocol hash must give identical bytes"
    );
}

/// Verify that a hash from the client is found in the dirty set that the mempool
/// fills.
#[test]
fn scripthash_dirty_set_membership() {
    let script = Vec::<u8>::from_hex("76a91489abcdefabbaabbaabbaabbaabbaabbaabbaabba88ac").unwrap();

    let computed = compute_script_hash(&script);

    // Simulate the dirty set (populated by mempool via compute_script_hash)
    let mut dirty = ScriptHashSet::new();
    dirty.insert(computed);

    let display_hex: String = computed
        .iter()
        .rev()
        .map(|b| format!("{:02x}", b))
        .collect();
    let script_hash = hash_from_value(Some(&Json::Text(display_hex))).unwrap();
    let lookup_key = full_hash(&script_hash[..]);

    assert!(
        dirty.contains(&lookup_key),
        "a script hash from the client must be found in the dirty set"
    );
}

#[test]
fn dirty_set_holds_what_was_put_in() {
    let mut dirty = ScriptHashSet::new();
    assert!(dirty.is_empty());
    assert!(dirty.insert([1; 32]));
    assert!(!dirty.insert([1; 32]));
    assert!(dirty.insert([2; 32]));
    assert!(!dirty.is_empty());
    assert!(dirty.contains(&[1; 32]));
    assert!(dirty.contains(&[2; 32]));
    assert!(!dirty.contains(&[3; 32]));
}

#[test]
fn hash_parameters_are_64_hexadecimal_digits() {
    let error = |val: Option<&Json>| hash_from_value(val).unwrap_err().message;
    assert_eq!(error(None), "missing hash");
    assert_eq!(error(Some(&Json::Unsigned(1))), "non-string hash");
    for bad in ["", "xyz", &"0".repeat(63), &"0".repeat(65), &"g".repeat(64), &"0x".repeat(32)] {
        assert_eq!(error(Some(&Json::Text(bad.to_string()))), "non-hex hash");
    }
    let text = "AB".repeat(31) + "0c";
    let hash = hash_from_value(Some(&Json::Text(text))).unwrap();
    assert_eq!(hash[0], 0x0c);
    assert_eq!(hash[1..], [0xab; 31]);
}
