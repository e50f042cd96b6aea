//! Transaction fees and the mempool fee histogram.
use crate::chain::{decode_transaction, decoded_transaction, Transaction, TransactionView, TxOut};
use crate::feerate::{as_double, vsize_of_weight, FeeRate};
use crate::graph::{lemma_seq_total, seq_total, total};
use crate::histogram::{
    build_histogram, is_histogram, lemma_histogram_descends, lemma_histogram_total,
};
use crate::packages::{
    addable_relatives, effective_feerates, finite_rates, grouped_rates, holds_packages,
    is_grouping, lemma_vsize_conserved, minable_relatives, vsize_of, Group,
};
use std::collections::HashMap;
use std::hash::Hash;
use vstd::prelude::*;
use vstd::std_specs::hash::obeys_key_model;
use vstd::std_specs::iter::IteratorSpec;

verus! {

broadcast use vstd::std_specs::hash::group_hash_axioms;

/// Fee data of one transaction.
#[derive(Clone, Copy, Debug, PartialEq, Eq, Structural)]
pub struct TxFeeInfo {
    /// In satoshis.
    pub fee: u64,
    /// In virtual bytes, that is a quarter of the weight.
    pub vsize: u64,
    /// In satoshis per virtual byte.
    pub fee_per_vbyte: FeeRate,
}

impl TxFeeInfo {
    /// Every transaction takes up space, and its feerate is a finite number.
    pub open spec fn wf(self) -> bool {
        self.vsize > 0 && self.fee_per_vbyte.wf()
    }

    /// Fee data of a transaction whose inputs spend `prevouts`. The feerate is
    /// taken per quarter of the weight, without rounding the size up.
    pub fn new(tx: &Transaction, prevouts: &HashMap<u32, &TxOut>) -> (r: TxFeeInfo)
        requires
            tx.wf(),
            pays_fee(tx@, prevouts@),
        ensures
            r.wf(),
            r.fee == tx_fee(tx@, prevouts@),
            r.vsize == (as_double(tx.weight as nat) + 3) / 4,
            r.fee_per_vbyte.bits == FeeRate::of_weight(tx_fee(tx@, prevouts@), tx.weight as nat),
    {
        let fee: u64 = get_tx_fee(tx, prevouts);
        TxFeeInfo {
            fee,
            vsize: vsize_of_weight(tx.weight),
            fee_per_vbyte: FeeRate::from_weight(fee, tx.weight),
        }
    }

    /// Fee data of an encoded transaction whose inputs spend `prevouts`: nothing
    /// where the bytes encode none, or where its outputs exceed its inputs.
    pub fn from_raw(raw: &[u8], prevouts: &HashMap<u32, &TxOut>) -> (r: Option<TxFeeInfo>)
        requires
            4 * raw@.len() <= usize::MAX,
        ensures
            (match r {
                Some(info) => {
                    &&& decoded_transaction(raw@) is Some
                    &&& pays_fee(decoded_transaction(raw@)->0, prevouts@)
                    &&& info.wf()
                    &&& info.fee == tx_fee(decoded_transaction(raw@)->0, prevouts@)
                    &&& info.vsize == (as_double(
                        decoded_transaction(raw@)->0.weight as nat,
                    ) + 3) / 4
                    &&& info.fee_per_vbyte.bits == FeeRate::of_weight(
                        info.fee as nat,
                        decoded_transaction(raw@)->0.weight as nat,
                    )
                },
                None => decoded_transaction(raw@) matches Some(tx) ==> !pays_fee(tx, prevouts@),
            }),
    {
        match decode_transaction(raw) {
            None => None,
            Some(tx) => {
                if fee_within_bounds(&tx, prevouts) {
                    Some(TxFeeInfo::new(&tx, prevouts))
                } else {
                    None
                }
            },
        }
    }
}

/// The value of the output that an input spends.
pub open spec fn spent_value(prevouts: Map<u32, &TxOut>) -> spec_fn(u32) -> nat {
    |i: u32| prevouts[i].value as nat
}

/// The value of an output.
pub open spec fn output_value() -> spec_fn(TxOut) -> nat {
    |o: TxOut| o.value as nat
}

/// What the inputs of a transaction bring in.
pub open spec fn total_in(prevouts: Map<u32, &TxOut>) -> nat {
    total(spent_value(prevouts), prevouts.dom())
}

/// What the outputs of a transaction take up.
pub open spec fn total_out(tx: TransactionView) -> nat {
    seq_total(output_value(), tx.output)
}

/// The fee of a transaction: what its outputs leave of its inputs. One that
/// creates coins pays none.
pub open spec fn tx_fee(tx: TransactionView, prevouts: Map<u32, &TxOut>) -> nat {
    if tx.is_coinbase() {
        0
    } else {
        (total_in(prevouts) - total_out(tx)) as nat
    }
}

/// The inputs of a transaction cover its outputs, and add up within 64 bits.
pub open spec fn pays_fee(tx: TransactionView, prevouts: Map<u32, &TxOut>) -> bool {
    tx.is_coinbase() || total_out(tx) <= total_in(prevouts) <= u64::MAX
}

/// The fee of a transaction in satoshis, given the outputs that its inputs spend.
pub fn get_tx_fee(tx: &Transaction, prevouts: &HashMap<u32, &TxOut>) -> (fee: u64)
    requires
        pays_fee(tx@, prevouts@),
    ensures
        fee == tx_fee(tx@, prevouts@),
{
    if tx.is_coinbase() {
        return 0;
    }
    let total_in: u128 = sum_spent(prevouts);
    let total_out: u128 = sum_outputs(&tx.output);
    (total_in - total_out) as u64
}

/// Whether a transaction has a fee.
fn fee_within_bounds(tx: &Transaction, prevouts: &HashMap<u32, &TxOut>) -> (r: bool)
    ensures
        r == pays_fee(tx@, prevouts@),
{
    if tx.is_coinbase() {
        return true;
    }
    let total_in: u128 = sum_spent(prevouts);
    let total_out: u128 = sum_outputs(&tx.output);
    total_out <= total_in && total_in <= u64::MAX as u128
}

/// Adds up the outputs that are spent.
fn sum_spent(prevouts: &HashMap<u32, &TxOut>) -> (sum: u128)
    ensures
        sum == total_in(prevouts@),
{
    let mut sum: u128 = 0;
    let ghost mut keys: Seq<u32> = Seq::empty();
    for pair in it: prevouts.iter()
        invariant
            it.seq() == vstd::std_specs::hash::spec_hash_map_iter(prevouts).remaining(),
            it.seq().no_duplicates(),
            keys.len() == it.index(),
            forall|j: int| 0 <= j < it.index() ==> #[trigger] keys[j] == *it.seq()[j].0,
            keys.no_duplicates(),
            sum == seq_total(spent_value(prevouts@), keys),
            sum <= keys.len() * u64::MAX,
            keys.len() <= 0x1_0000_0000,
    {
        proof {
            let i = it.index() as int;
            let k = *pair.0;
            assert(prevouts@.contains_key(*it.seq()[i].0));
            assert(prevouts@[k] == *pair.1);
            let more = keys.push(k);
            assert(more.drop_last() =~= keys);
            assert forall|a: int, b: int| 0 <= a < b < more.len() implies more[a] != more[b] by {
                if b == keys.len() && more[a] == k {
                    assert(prevouts@.contains_key(*it.seq()[a].0));
                    assert(it.seq()[a] == it.seq()[i]);
                }
            }
            lemma_few_keys(more);
            keys = more;
        }
        sum = sum + pair.1.value as u128;
    }
    proof {
        lemma_seq_total(spent_value(prevouts@), keys);
        assert(keys.to_set() =~= prevouts@.dom()) by {
            assert forall|k: u32| prevouts@.contains_key(k) implies keys.contains(k) by {
                let v = vstd::std_specs::hash::spec_hash_map_iter(prevouts).remaining();
                let j = choose|j: int| 0 <= j < v.len() && v[j] == (&k, &prevouts@[k]);
                assert(keys[j] == k);
            }
            assert forall|k: u32| keys.contains(k) implies prevouts@.contains_key(k) by {
                let v = vstd::std_specs::hash::spec_hash_map_iter(prevouts).remaining();
                let j = choose|j: int| 0 <= j < keys.len() && keys[j] == k;
                assert(prevouts@.contains_key(*v[j].0));
            }
        }
    }
    sum
}

/// There are no more distinct indices than 32 bits can tell apart.
proof fn lemma_few_keys(keys: Seq<u32>)
    requires
        keys.no_duplicates(),
    ensures
        keys.len() <= 0x1_0000_0000,
{
    let all = Set::<int>::new(|i: int| 0 <= i < 0x1_0000_0000);
    let ints = keys.map_values(|k: u32| k as int);
    vstd::set_lib::lemma_int_range(0, 0x1_0000_0000);
    assert(all =~= vstd::set_lib::set_int_range(0, 0x1_0000_0000));
    assert(ints.no_duplicates());
    ints.unique_seq_to_set();
    assert(ints.to_set().subset_of(all));
    vstd::set_lib::lemma_len_subset(ints.to_set(), all);
}

/// Adds up outputs.
fn sum_outputs(outputs: &Vec<TxOut>) -> (sum: u128)
    ensures
        sum == seq_total(output_value(), outputs@),
{
    let mut sum: u128 = 0;
    let mut i: usize = 0;
    while i < outputs.len()
        invariant
            i <= outputs@.len(),
            sum == seq_total(output_value(), outputs@.take(i as int)),
            sum <= i * u64::MAX,
        decreases outputs@.len() - i,
    {
        proof {
            assert(outputs@.take(i + 1).drop_last() =~= outputs@.take(i as int));
            assert(i * u64::MAX + u64::MAX <= u128::MAX) by (nonlinear_arith)
                requires
                    i < usize::MAX,
            ;
        }
        sum = sum + outputs[i].value as u128;
        i = i + 1;
    }
    assert(outputs@.take(outputs@.len() as int) =~= outputs@);
    sum
}

/// `histogram` bins the effective feerates of `entries`, whichever of several
/// best packages is mined first where they tie.
pub open spec fn is_fee_histogram<K>(
    entries: Map<K, TxFeeInfo>,
    parents: Map<K, Vec<K>>,
    histogram: Seq<(FeeRate, u64)>,
) -> bool {
    exists|groups: Seq<Group<K>>| #[trigger]
        is_grouping(entries, parents, groups) && is_histogram(
            grouped_rates(entries, parents, groups),
            histogram,
        )
}

/// Builds a package-aware mempool fee histogram.
///
/// Rather than binning each transaction by its own standalone feerate, every
/// transaction is assigned an effective feerate that reflects the
/// child-pays-for-parent package it would be mined as part of. A low-fee parent
/// that is being pulled in by a high-fee child is therefore counted at the
/// higher package feerate (and the child at the lower package feerate).
///
/// `entries` maps each mempool transaction to its fee data; `parents` maps each
/// one to the list of its in-mempool parents. Transactions with no in-mempool
/// ancestry can be omitted from `parents`.
///
/// The bins run from the highest feerate down, and each counts the virtual size
/// of all transactions at or above its feerate: the last one counts them all.
pub fn make_fee_histogram<K: Copy + Eq + Hash>(
    entries: &HashMap<K, TxFeeInfo>,
    parents: &HashMap<K, Vec<K>>,
) -> (histogram: Vec<(FeeRate, u64)>)
    requires
        obeys_key_model::<K>(),
        addable_relatives(entries@, parents@),
        holds_packages(entries@, parents@),
        minable_relatives(entries@, parents@),
        finite_rates(entries@),
        total(vsize_of(entries@), entries@.dom()) <= u64::MAX,
    ensures
        is_fee_histogram(entries@, parents@, histogram@),
        total(vsize_of(entries@), entries@.dom()) == (if histogram@.len() > 0 {
            histogram@.last().1 as nat
        } else {
            0
        }),
        forall|i: int, j: int|
            0 <= i < j < histogram@.len() ==> (#[trigger] histogram@[i]).0.bits > (
            #[trigger] histogram@[j]).0.bits,
{
    let rates: Vec<(FeeRate, u64)> = effective_feerates(entries, parents);
    let ghost given = rates@;
    let ghost groups = choose|groups: Seq<Group<K>>| #[trigger]
        is_grouping(entries@, parents@, groups) && given == grouped_rates(
            entries@,
            parents@,
            groups,
        );
    proof {
        lemma_vsize_conserved(entries@, parents@, groups);
    }
    let histogram: Vec<(FeeRate, u64)> = build_histogram(rates);
    assert(is_grouping(entries@, parents@, groups) && is_histogram(
        grouped_rates(entries@, parents@, groups),
        histogram@,
    ));
    proof {
        lemma_histogram_total(given, histogram@);
        assert forall|i: int, j: int| 0 <= i < j < histogram@.len() implies (
        #[trigger] histogram@[i]).0.bits > (#[trigger] histogram@[j]).0.bits by {
            lemma_histogram_descends(given, histogram@, i, j);
        }
    }
    histogram
}

} // verus!
