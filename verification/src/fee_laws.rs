//! What transactions pay, in terms of what they spend and what they create.
use crate::chain::{decoded_transaction, Transaction, TransactionView, TxOut};
use crate::feerate::{vsize_of_weight, FeeRate};
use crate::fees::{
    get_tx_fee, output_value, pays_fee, spent_value, total_in, tx_fee, TxFeeInfo,
};
use crate::graph::{lemma_seq_total, lemma_total_agree, lemma_total_remove, seq_total, total};
use crate::liquid::{self, fee_part};
use crate::rounding::{
    distance, lemma_as_double_near, lemma_feerate_nearest, lemma_weight_feerate_nearest,
};
use std::collections::HashMap;
use vstd::prelude::*;

verus! {

/// The sum of what each item of a sequence counts for.
pub proof fn lemma_sum_grows<T>(f: spec_fn(T) -> nat, items: Seq<T>, item: T)
    ensures
        seq_total(f, Seq::<T>::empty()) == 0,
        seq_total(f, items.push(item)) == seq_total(f, items) + f(item),
        seq_total(f, items) == items.fold_left(0nat, |sum: nat, x: T| sum + f(x)),
    decreases items.len(),
{
    assert(items.push(item).drop_last() =~= items);
    let add = |sum: nat, x: T| sum + f(x);
    if items.len() > 0 {
        lemma_sum_grows(f, items.drop_last(), items.last());
    }
}

/// The sum of what each member of a set counts for: nothing for no members, and one
/// member more adds what it counts for.
pub proof fn lemma_set_sum_grows<T>(f: spec_fn(T) -> nat, members: Set<T>, member: T)
    requires
        members.finite(),
        !members.contains(member),
    ensures
        total(f, Set::<T>::empty()) == 0,
        total(f, members.insert(member)) == total(f, members) + f(member),
{
    lemma_total_remove(f, members.insert(member), member);
    assert(members.insert(member).remove(member) =~= members);
}

/// The values of outputs, added up.
pub open spec fn values(outputs: Seq<TxOut>) -> int {
    outputs.fold_left(0int, |sum: int, output: TxOut| sum + output.value)
}

/// The values of the outputs that the inputs `keys` spend, added up.
pub open spec fn spent(prevouts: Map<u32, &TxOut>, keys: Seq<u32>) -> int {
    keys.fold_left(0int, |sum: int, i: u32| sum + prevouts[i].value)
}

/// `keys` are the inputs that spend something, each once.
pub open spec fn are_inputs(prevouts: Map<u32, &TxOut>, keys: Seq<u32>) -> bool {
    &&& keys.no_duplicates()
    &&& keys.to_set() == prevouts.dom()
}

/// All outputs count.
proof fn lemma_outputs_added(outputs: Seq<TxOut>)
    ensures
        seq_total(output_value(), outputs) == values(outputs),
    decreases outputs.len(),
{
    if outputs.len() > 0 {
        lemma_outputs_added(outputs.drop_last());
    }
}

/// All inputs count.
proof fn lemma_inputs_added(prevouts: Map<u32, &TxOut>, keys: Seq<u32>)
    ensures
        seq_total(spent_value(prevouts), keys) == spent(prevouts, keys),
    decreases keys.len(),
{
    if keys.len() > 0 {
        lemma_inputs_added(prevouts, keys.drop_last());
    }
}

/// A transaction creates coins exactly if it has one input, and that spends the
/// output with the greatest number of a transaction whose hash is zero.
pub proof fn lemma_coinbase(tx: TransactionView)
    ensures
        tx.is_coinbase() <==> tx.input.len() == 1 && tx.input[0].vout == 0xffff_ffff && (forall|
            i: int,
        |
            0 <= i < 32 ==> #[trigger] tx.input[0].txid@[i] == 0),
{
}

/// Whatever the number of inputs and outputs: the fee and the values of all outputs
/// add up to the values of all outputs that are spent. A transaction has a fee
/// exactly if the former do not exceed the latter, and these fit 64 bits. One that
/// creates coins pays none.
pub proof fn lemma_fee_balances(
    tx: TransactionView,
    prevouts: Map<u32, &TxOut>,
    keys: Seq<u32>,
)
    requires
        are_inputs(prevouts, keys),
    ensures
        tx.is_coinbase() ==> pays_fee(tx, prevouts) && tx_fee(tx, prevouts) == 0,
        !tx.is_coinbase() ==> {
            &&& pays_fee(tx, prevouts) <==> values(tx.output) <= spent(prevouts, keys) <= u64::MAX
            &&& pays_fee(tx, prevouts) ==> tx_fee(tx, prevouts) + values(tx.output) == spent(
                prevouts,
                keys,
            )
        },
{
    lemma_outputs_added(tx.output);
    lemma_inputs_added(prevouts, keys);
    lemma_seq_total(spent_value(prevouts), keys);
}

/// One output more lowers the fee by its value.
pub proof fn lemma_output_lowers_fee(
    tx: TransactionView,
    prevouts: Map<u32, &TxOut>,
    output: TxOut,
)
    requires
        !tx.is_coinbase(),
        pays_fee(
            (TransactionView { output: tx.output.push(output), ..tx }),
            prevouts,
        ),
    ensures
        pays_fee(tx, prevouts),
        tx_fee((TransactionView { output: tx.output.push(output), ..tx }), prevouts) + output.value
            == tx_fee(tx, prevouts),
{
    lemma_sum_grows(output_value(), tx.output, output);
}

/// One input more raises the fee by the value that it spends.
pub proof fn lemma_input_raises_fee(
    tx: TransactionView,
    prevouts: Map<u32, &TxOut>,
    i: u32,
    output: &TxOut,
)
    requires
        !tx.is_coinbase(),
        prevouts.dom().finite(),
        !prevouts.contains_key(i),
        pays_fee(tx, prevouts),
        total_in(prevouts) + output.value <= u64::MAX,
    ensures
        pays_fee(tx, prevouts.insert(i, output)),
        tx_fee(tx, prevouts.insert(i, output)) == tx_fee(tx, prevouts) + output.value,
{
    let more = prevouts.insert(i, output);
    lemma_set_sum_grows(spent_value(more), prevouts.dom(), i);
    assert(more.dom() =~= prevouts.dom().insert(i));
    lemma_total_agree(spent_value(more), spent_value(prevouts), prevouts.dom());
}

/// The fee that is computed of a transaction is what all of its outputs leave of all
/// that it spends.
pub proof fn lemma_computed_fee(
    tx: Transaction,
    prevouts: HashMap<u32, &TxOut>,
    keys: Seq<u32>,
    fee: u64,
)
    requires
        pays_fee(tx@, prevouts@),
        are_inputs(prevouts@, keys),
        call_ensures(get_tx_fee, (&tx, &prevouts), fee),
    ensures
        tx@.is_coinbase() ==> fee == 0,
        !tx@.is_coinbase() ==> fee + values(tx.output@) == spent(prevouts@, keys),
{
    lemma_fee_balances(tx@, prevouts@, keys);
}

/// A virtual size is a quarter of the weight, rounded up, up to 53 bits.
pub proof fn lemma_computed_vsize(weight: u64, vsize: u64)
    requires
        call_ensures(vsize_of_weight, (weight,), vsize),
    ensures
        weight < 0x20_0000_0000_0000 ==> weight <= 4 * vsize < weight + 4,
        weight - weight / 0x20_0000_0000_0000 <= 4 * vsize < weight + weight
            / 0x20_0000_0000_0000 + 4,
{
    lemma_as_double_near(weight);
}

/// No pattern stands for a number that is nearer to the quotient of a fee and a
/// size than the feerate that is computed of them.
pub proof fn lemma_computed_feerate(fee: u64, vsize: u64, rate: FeeRate, other: int)
    requires
        vsize > 0,
        other >= 0,
        call_ensures(FeeRate::new, (fee, vsize), rate),
    ensures
        fee < 0x20_0000_0000_0000 && vsize < 0x20_0000_0000_0000 ==> distance(
            fee as nat,
            vsize as nat,
            rate.bits as int,
        ) <= distance(fee as nat, vsize as nat, other),
{
    lemma_feerate_nearest(fee, vsize, other);
    lemma_as_double_near(fee);
    lemma_as_double_near(vsize);
}

/// No pattern stands for a number that is nearer to the quotient of a fee and a
/// quarter of a weight than the feerate that is computed of them.
pub proof fn lemma_computed_weight_feerate(fee: u64, weight: u64, rate: FeeRate, other: int)
    requires
        weight > 0,
        other >= 0,
        call_ensures(FeeRate::from_weight, (fee, weight), rate),
    ensures
        fee < 0x20_0000_0000_0000 && weight < 0x20_0000_0000_0000 ==> distance(
            (4 * fee) as nat,
            weight as nat,
            rate.bits as int,
        ) <= distance((4 * fee) as nat, weight as nat, other),
{
    lemma_weight_feerate_nearest(fee, weight, other);
    lemma_as_double_near(fee);
    lemma_as_double_near(weight);
}

/// Up to 53 bits, the size is a quarter of the weight, rounded up, and no pattern stands
/// for a number that is nearer to the fee per quarter of the weight than the feerate.
pub open spec fn sized_and_rated(info: TxFeeInfo, weight: u64, other: int) -> bool {
    &&& weight < 0x20_0000_0000_0000 ==> weight <= 4 * info.vsize < weight + 4
    &&& 0 < weight < 0x20_0000_0000_0000 && info.fee < 0x20_0000_0000_0000 ==> distance(
        (4 * info.fee) as nat,
        weight as nat,
        info.fee_per_vbyte.bits as int,
    ) <= distance((4 * info.fee) as nat, weight as nat, other)
}

/// The fee data of a transaction: its fee, a quarter of its weight rounded up, and
/// the number nearest to the fee per quarter of the weight.
pub proof fn lemma_computed_fee_data(
    tx: Transaction,
    prevouts: HashMap<u32, &TxOut>,
    keys: Seq<u32>,
    info: TxFeeInfo,
    other: int,
)
    requires
        tx.wf(),
        pays_fee(tx@, prevouts@),
        are_inputs(prevouts@, keys),
        call_ensures(TxFeeInfo::new, (&tx, &prevouts), info),
        other >= 0,
    ensures
        tx@.is_coinbase() ==> info.fee == 0,
        !tx@.is_coinbase() ==> info.fee + values(tx.output@) == spent(prevouts@, keys),
        sized_and_rated(info, tx.weight, other),
{
    lemma_fee_balances(tx@, prevouts@, keys);
    lemma_as_double_near(tx.weight);
    lemma_as_double_near(info.fee);
    lemma_weight_feerate_nearest(info.fee, tx.weight, other);
}

/// Bytes have fee data exactly if they encode a transaction that has a fee, and the
/// data is that of the transaction.
pub proof fn lemma_computed_raw_fee_data(
    raw: &[u8],
    prevouts: HashMap<u32, &TxOut>,
    keys: Seq<u32>,
    r: Option<TxFeeInfo>,
    other: int,
)
    requires
        are_inputs(prevouts@, keys),
        call_ensures(TxFeeInfo::from_raw, (raw, &prevouts), r),
        other >= 0,
    ensures
        (match decoded_transaction(raw@) {
            None => r is None,
            Some(tx) => {
                &&& r is Some <==> tx.is_coinbase() || values(tx.output) <= spent(
                    prevouts@,
                    keys,
                ) <= u64::MAX
                &&& r matches Some(info) ==> {
                    &&& tx.is_coinbase() ==> info.fee == 0
                    &&& !tx.is_coinbase() ==> info.fee + values(tx.output) == spent(
                        prevouts@,
                        keys,
                    )
                    &&& sized_and_rated(info, tx.weight, other)
                }
            },
        }),
{
    if let Some(tx) = decoded_transaction(raw@) {
        lemma_fee_balances(tx, prevouts@, keys);
        if let Some(info) = r {
            lemma_as_double_near(tx.weight);
            lemma_as_double_near(info.fee);
            if tx.weight > 0 {
                lemma_weight_feerate_nearest(info.fee, tx.weight, other);
            }
        }
    }
}

/// The fee that one output states in an asset: its value, where its script is empty
/// and it states that asset openly.
pub open spec fn stated_fee(output: liquid::TxOutView, asset: liquid::AssetId) -> int {
    match (output.value, output.asset) {
        (Some(value), Some(other)) if other == asset && output.script_pubkey.len() == 0 => {
            value as int
        },
        _ => 0,
    }
}

/// On a chain with several assets, the fee of a transaction in one of them is what
/// all of its outputs state in it, added up. One output more adds what it states.
pub proof fn lemma_stated_fees(
    tx: liquid::TransactionView,
    asset: liquid::AssetId,
    output: liquid::TxOutView,
)
    ensures
        liquid::tx_fee(tx, asset) == tx.output.fold_left(
            0int,
            |sum: int, o: liquid::TxOutView| sum + stated_fee(o, asset),
        ),
        liquid::tx_fee(
            (liquid::TransactionView { output: tx.output.push(output), ..tx }),
            asset,
        ) == liquid::tx_fee(tx, asset) + stated_fee(output, asset),
    decreases tx.output.len(),
{
    lemma_sum_grows(fee_part(asset), tx.output, output);
    if tx.output.len() > 0 {
        let front = liquid::TransactionView { output: tx.output.drop_last(), ..tx };
        lemma_stated_fees(front, asset, tx.output.last());
        assert(front.output.push(tx.output.last()) =~= tx.output);
    }
}

/// An output states a fee exactly if its script is empty and its value and asset are
/// open.
pub proof fn lemma_fee_outputs(output: liquid::TxOutView)
    ensures
        output.is_fee() <==> output.script_pubkey.len() == 0 && output.value is Some
            && output.asset is Some,
{
}

/// The fee that is computed on a chain with several assets is all that the outputs
/// state in the native one; the size is a quarter of the weight, rounded up.
pub proof fn lemma_computed_stated_fee(
    tx: liquid::Transaction,
    asset: liquid::AssetId,
    fee: u64,
    info: TxFeeInfo,
    other: int,
)
    requires
        liquid::tx_fee(tx@, asset) <= u64::MAX,
        tx.weight > 0,
        call_ensures(liquid::get_tx_fee, (&tx, &asset), fee),
        call_ensures(liquid::tx_fee_info, (&tx, &asset), info),
        other >= 0,
    ensures
        fee == tx@.output.fold_left(
            0int,
            |sum: int, o: liquid::TxOutView| sum + stated_fee(o, asset),
        ),
        info.fee == fee,
        sized_and_rated(info, tx.weight, other),
{
    lemma_stated_fees(tx@, asset, liquid::TxOutView {
        asset: None,
        value: None,
        script_pubkey: Seq::empty(),
    });
    lemma_as_double_near(tx.weight);
    lemma_as_double_near(info.fee);
    lemma_weight_feerate_nearest(info.fee, tx.weight, other);
}

/// Bytes have fee data on such a chain exactly if they encode a transaction, and what it
/// states fits 64 bits; the data is that of the transaction.
pub proof fn lemma_computed_raw_stated_fee(
    raw: &[u8],
    asset: liquid::AssetId,
    r: Option<TxFeeInfo>,
    other: int,
)
    requires
        call_ensures(liquid::fee_info_from_raw, (raw, &asset), r),
        other >= 0,
    ensures
        (match liquid::decoded_liquid_transaction(raw@) {
            None => r is None,
            Some(tx) => {
                let stated = tx.output.fold_left(
                    0int,
                    |sum: int, o: liquid::TxOutView| sum + stated_fee(o, asset),
                );
                &&& r is Some <==> stated <= u64::MAX
                &&& r matches Some(info) ==> info.fee == stated && sized_and_rated(
                    info,
                    tx.weight,
                    other,
                )
            },
        }),
{
    if let Some(tx) = liquid::decoded_liquid_transaction(raw@) {
        lemma_stated_fees(tx, asset, liquid::TxOutView {
            asset: None,
            value: None,
            script_pubkey: Seq::empty(),
        });
        if let Some(info) = r {
            lemma_as_double_near(tx.weight);
            lemma_as_double_near(info.fee);
            if tx.weight > 0 {
                lemma_weight_feerate_nearest(info.fee, tx.weight, other);
            }
        }
    }
}

} // verus!
