//! Fees on a chain with several assets, where a transaction states its fee in
//! outputs of their own.
use crate::feerate::{as_double, vsize_of_weight, FeeRate};
use crate::fees::TxFeeInfo;
use crate::graph::seq_total;
use crate::hash::{same_hash, FullHash};
use vstd::prelude::*;

verus! {

/// The name of an asset.
pub type AssetId = FullHash;

/// An output, as far as fees go. A blinded asset or value is not known.
#[derive(Debug)]
pub struct TxOut {
    pub asset: Option<AssetId>,
    pub value: Option<u64>,
    pub script_pubkey: Vec<u8>,
}

/// What an output holds.
#[verifier::ext_equal]
pub struct TxOutView {
    pub asset: Option<AssetId>,
    pub value: Option<u64>,
    pub script_pubkey: Seq<u8>,
}

impl View for TxOut {
    type V = TxOutView;

    open spec fn view(&self) -> TxOutView {
        TxOutView {
            asset: self.asset,
            value: self.value,
            script_pubkey: self.script_pubkey@,
        }
    }
}

impl TxOutView {
    /// A fee output has an empty script, and states its asset and its value.
    pub open spec fn is_fee(self) -> bool {
        self.script_pubkey.len() == 0 && self.value is Some && self.asset is Some
    }
}

impl TxOut {
    /// Whether this output states a fee.
    pub fn is_fee(&self) -> (r: bool)
        ensures
            r == self@.is_fee(),
    {
        self.script_pubkey.len() == 0 && self.value.is_some() && self.asset.is_some()
    }
}

/// A transaction, as far as fees go.
#[derive(Debug)]
pub struct Transaction {
    pub output: Vec<TxOut>,
    /// In weight units.
    pub weight: u64,
}

/// What a transaction holds.
#[verifier::ext_equal]
pub struct TransactionView {
    pub output: Seq<TxOutView>,
    pub weight: u64,
}

impl View for Transaction {
    type V = TransactionView;

    open spec fn view(&self) -> TransactionView {
        TransactionView {
            output: Seq::new(self.output@.len(), |i: int| self.output@[i]@),
            weight: self.weight,
        }
    }
}

/// The transaction that some bytes encode, if they encode one.
pub uninterp spec fn decoded_liquid_transaction(raw: Seq<u8>) -> Option<TransactionView>;

/// Decodes a transaction with `elements::encode::deserialize` and takes its outputs
/// over, and the weight from `Transaction::weight`. All of them are functions of
/// the bytes alone; which bytes encode what is not stated. The weight counts every
/// byte of a transaction, of which there are some in any, at most four times, and
/// has to fit.
#[verifier::external_body]
fn decode_liquid_transaction(raw: &[u8]) -> (r: Option<Transaction>)
    requires
        4 * raw@.len() <= usize::MAX,
    ensures
        (match r {
            Some(tx) => decoded_liquid_transaction(raw@) == Some(tx@) && tx.weight > 0,
            None => decoded_liquid_transaction(raw@) is None,
        }),
{
    let tx: elements::Transaction = elements::encode::deserialize(raw).ok()?;
    let asset = |id: elements::AssetId| id.into_inner().to_byte_array();
    let output = |o: &elements::TxOut| TxOut {
        asset: o.asset.explicit().map(asset),
        value: o.value.explicit(),
        script_pubkey: o.script_pubkey.to_bytes(),
    };
    Some(Transaction {
        output: tx.output.iter().map(output).collect(),
        weight: tx.weight() as u64,
    })
}

/// What an output contributes to the fee in `asset`.
pub open spec fn fee_part(asset: AssetId) -> spec_fn(TxOutView) -> nat {
    |o: TxOutView|
        if o.is_fee() && o.asset == Some(asset) {
            o.value->0 as nat
        } else {
            0
        }
}

/// The fee that a transaction states in an asset.
pub open spec fn tx_fee(tx: TransactionView, asset: AssetId) -> nat {
    seq_total(fee_part(asset), tx.output)
}

/// The fee of a transaction in the native asset of its network.
pub fn get_tx_fee(tx: &Transaction, native_asset: &AssetId) -> (fee: u64)
    requires
        tx_fee(tx@, *native_asset) <= u64::MAX,
    ensures
        fee == tx_fee(tx@, *native_asset),
{
    sum_fees(tx, native_asset).unwrap()
}

/// Adds up the fee that a transaction states in an asset, where it fits.
fn sum_fees(tx: &Transaction, native_asset: &AssetId) -> (r: Option<u64>)
    ensures
        (match r {
            Some(fee) => fee == tx_fee(tx@, *native_asset),
            None => tx_fee(tx@, *native_asset) > u64::MAX,
        }),
{
    let ghost part = fee_part(*native_asset);
    let mut fee: u64 = 0;
    let mut i: usize = 0;
    while i < tx.output.len()
        invariant
            i <= tx.output@.len(),
            part == fee_part(*native_asset),
            fee == seq_total(part, tx@.output.take(i as int)),
        decreases tx.output@.len() - i,
    {
        let output: &TxOut = &tx.output[i];
        proof {
            assert(tx@.output.take(i + 1).drop_last() =~= tx@.output.take(i as int));
            assert(tx@.output.take(i + 1).last() == output@);
            lemma_prefix_total(part, tx@.output, i + 1);
        }
        if output.is_fee() && same_hash(&output.asset.unwrap(), native_asset) {
            match fee.checked_add(output.value.unwrap()) {
                Some(sum) => {
                    fee = sum;
                },
                None => {
                    return None;
                },
            }
        }
        i = i + 1;
    }
    assert(tx@.output.take(tx.output@.len() as int) =~= tx@.output);
    Some(fee)
}

/// Fee data of a transaction. The feerate is taken per quarter of the weight,
/// without rounding the size up.
pub fn tx_fee_info(tx: &Transaction, native_asset: &AssetId) -> (r: TxFeeInfo)
    requires
        tx.weight > 0,
        tx_fee(tx@, *native_asset) <= u64::MAX,
    ensures
        r.wf(),
        r.fee == tx_fee(tx@, *native_asset),
        r.vsize == (as_double(tx.weight as nat) + 3) / 4,
        r.fee_per_vbyte.bits == FeeRate::of_weight(
            tx_fee(tx@, *native_asset),
            tx.weight as nat,
        ),
{
    let fee: u64 = get_tx_fee(tx, native_asset);
    TxFeeInfo {
        fee,
        vsize: vsize_of_weight(tx.weight),
        fee_per_vbyte: FeeRate::from_weight(fee, tx.weight),
    }
}

/// Fee data of an encoded transaction: nothing where the bytes encode none, or
/// where the fee that it states does not fit 64 bits.
pub fn fee_info_from_raw(raw: &[u8], native_asset: &AssetId) -> (r: Option<TxFeeInfo>)
    requires
        4 * raw@.len() <= usize::MAX,
    ensures
        (match r {
            Some(info) => {
                &&& decoded_liquid_transaction(raw@) is Some
                &&& info.wf()
                &&& info.fee == tx_fee(decoded_liquid_transaction(raw@)->0, *native_asset)
                &&& info.vsize == (as_double(
                    decoded_liquid_transaction(raw@)->0.weight as nat,
                ) + 3) / 4
                &&& info.fee_per_vbyte.bits == FeeRate::of_weight(
                    info.fee as nat,
                    decoded_liquid_transaction(raw@)->0.weight as nat,
                )
            },
            None => decoded_liquid_transaction(raw@) matches Some(tx) ==> tx_fee(tx, *native_asset)
                > u64::MAX,
        }),
{
    match decode_liquid_transaction(raw) {
        None => None,
        Some(tx) => match sum_fees(&tx, native_asset) {
            None => None,
            Some(_) => Some(tx_fee_info(&tx, native_asset)),
        },
    }
}

/// A prefix has at most the sum of the whole.
proof fn lemma_prefix_total<T>(f: spec_fn(T) -> nat, s: Seq<T>, i: int)
    requires
        0 <= i <= s.len(),
    ensures
        seq_total(f, s.take(i)) <= seq_total(f, s),
    decreases s.len(),
{
    if i < s.len() {
        lemma_prefix_total(f, s.drop_last(), i);
        assert(s.drop_last().take(i) =~= s.take(i));
    } else {
        assert(s.take(i) =~= s);
    }
}

} // verus!
