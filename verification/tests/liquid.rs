use elements::confidential;
use electrs::liquid::{fee_info_from_raw, get_tx_fee, tx_fee_info, Transaction, TxOut};

fn output(asset: Option<u8>, value: Option<u64>, script: &[u8]) -> TxOut {
    TxOut {
        asset: asset.map(|byte| [byte; 32]),
        value,
        script_pubkey: script.to_vec(),
    }
}

#[test]
fn fee_outputs_of_the_native_asset_add_up() {
    let tx = Transaction {
        output: vec![
            output(Some(1), Some(500), &[0x51]), // not a fee
            output(Some(1), Some(30), &[]),
            output(Some(2), Some(1_000), &[]), // another asset
            output(Some(1), Some(12), &[]),
            output(None, Some(7), &[]), // blinded asset
            output(Some(1), None, &[]), // blinded value
        ],
        weight: 401,
    };
    assert_eq!(get_tx_fee(&tx, &[1; 32]), 42);
    assert_eq!(get_tx_fee(&tx, &[2; 32]), 1_000);
    assert_eq!(get_tx_fee(&tx, &[3; 32]), 0);
    let info = tx_fee_info(&tx, &[1; 32]);
    assert_eq!((info.fee, info.vsize), (42, 101));
    assert_eq!(f64::from_bits(info.fee_per_vbyte.bits), 42f64 / 100.25);
    assert!(tx.output[1].is_fee());
    assert!(!tx.output[0].is_fee() && !tx.output[4].is_fee() && !tx.output[5].is_fee());
}

#[test]
fn fee_agrees_with_the_elements_crate() {
    let asset = |byte: u8| elements::AssetId::from_slice(&[byte; 32]).unwrap();
    let given = [(1u8, 500u64, true), (1, 30, false), (2, 1_000, false), (1, 12, false)];
    let theirs = elements::Transaction {
        version: 2,
        lock_time: elements::LockTime::ZERO,
        input: vec![],
        output: given
            .iter()
            .map(|(byte, value, spendable)| elements::TxOut {
                asset: confidential::Asset::Explicit(asset(*byte)),
                value: confidential::Value::Explicit(*value),
                nonce: confidential::Nonce::Null,
                script_pubkey: if *spendable {
                    elements::Script::from(vec![0x51])
                } else {
                    elements::Script::new()
                },
                witness: elements::TxOutWitness::default(),
            })
            .collect(),
    };
    let ours = Transaction {
        output: theirs
            .output
            .iter()
            .map(|o| TxOut {
                asset: o.asset.explicit().map(|a| a.into_inner().to_byte_array()),
                value: o.value.explicit(),
                script_pubkey: o.script_pubkey.to_bytes(),
            })
            .collect(),
        weight: theirs.weight() as u64,
    };
    for byte in [1u8, 2, 3] {
        let native = asset(byte).into_inner().to_byte_array();
        assert_eq!(get_tx_fee(&ours, &native), theirs.fee_in(asset(byte)));
    }

    let raw = elements::encode::serialize(&theirs);
    let info = fee_info_from_raw(&raw, &[1; 32]).unwrap();
    assert_eq!((info.fee, info.vsize), (42, theirs.vsize() as u64));
    assert_eq!(
        f64::from_bits(info.fee_per_vbyte.bits),
        42f64 / (theirs.weight() as f64 / 4f64)
    );
    // not a transaction
    assert!(fee_info_from_raw(&raw[1..], &[1; 32]).is_none());
    // a fee that does not fit
    let mut huge = theirs;
    huge.output[1].value = confidential::Value::Explicit(u64::MAX);
    let raw = elements::encode::serialize(&huge);
    assert!(fee_info_from_raw(&raw, &[1; 32]).is_none());
    assert_eq!(fee_info_from_raw(&raw, &[2; 32]).unwrap().fee, 1_000);
}
