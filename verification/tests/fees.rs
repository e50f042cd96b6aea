use electrs::chain::{OutPoint, Transaction, TxOut};
use electrs::feerate::{vsize_of_weight, FeeRate};
use electrs::fees::{get_tx_fee, make_fee_histogram, TxFeeInfo};
use electrs::histogram::build_histogram;
use electrs::packages::{ancestor_package, chunk_cluster, collect_cluster, effective_feerates};
use std::collections::{HashMap, HashSet};

fn feeinfo(fee: u64, vsize: u64) -> TxFeeInfo {
    TxFeeInfo {
        fee,
        vsize,
        fee_per_vbyte: FeeRate::new(fee, vsize),
    }
}

fn rate(value: f64) -> FeeRate {
    FeeRate { bits: value.to_bits() }
}

// Effective feerates come in arbitrary order; sort them so that assertions don't
// depend on it.
fn sorted_rates(rates: Vec<(FeeRate, u64)>) -> Vec<(f64, u64)> {
    let mut rates: Vec<(f64, u64)> =
        rates.into_iter().map(|(r, vsize)| (f64::from_bits(r.bits), vsize)).collect();
    rates.sort_by(|a, b| a.partial_cmp(b).unwrap());
    rates
}

#[test]
fn singletons_keep_their_own_feerate() {
    let entries = HashMap::from([(1u32, feeinfo(100, 100)), (2u32, feeinfo(500, 100))]);
    let parents = HashMap::new();

    assert_eq!(
        sorted_rates(effective_feerates(&entries, &parents)),
        vec![(1.0, 100), (5.0, 100)]
    );
}

#[test]
fn cpfp_lifts_parent_and_lowers_child_to_package_rate() {
    // Low-fee parent (1 sat/vB) rescued by a high-fee child (100 sat/vB).
    let entries = HashMap::from([
        (1u32, feeinfo(100, 100)),    // parent: own rate 1 sat/vB
        (2u32, feeinfo(10_000, 100)), // child: own rate 100 sat/vB
    ]);
    // child (2) spends parent (1)
    let parents = HashMap::from([(2u32, vec![1u32])]);

    // package rate = (100 + 10_000) / (100 + 100) = 50.5 sat/vB for both
    assert_eq!(
        sorted_rates(effective_feerates(&entries, &parents)),
        vec![(50.5, 100), (50.5, 100)]
    );
}

#[test]
fn high_parent_is_not_dragged_down_by_low_child() {
    // High-fee parent (100 sat/vB) with a low-fee child (1 sat/vB). The
    // parent should be mined first at its own rate; the child follows alone.
    let entries = HashMap::from([
        (1u32, feeinfo(10_000, 100)), // parent: own rate 100 sat/vB
        (2u32, feeinfo(100, 100)),    // child: own rate 1 sat/vB
    ]);
    let parents = HashMap::from([(2u32, vec![1u32])]);

    assert_eq!(
        sorted_rates(effective_feerates(&entries, &parents)),
        vec![(1.0, 100), (100.0, 100)]
    );
}

#[test]
fn feerate_is_the_quotient_of_doubles() {
    let fees = [
        0,
        1,
        2,
        3,
        7,
        1000,
        10_100,
        123_456_789,
        2_100_000_000_000_000,
        (1 << 53) - 1,
        1 << 53,
        (1 << 53) + 1,
        (1 << 53) + 3,
        u64::MAX - 1024,
        u64::MAX,
    ];
    for fee in fees {
        for vsize in fees {
            if vsize > 0 {
                let expected = fee as f64 / vsize as f64;
                assert_eq!(FeeRate::new(fee, vsize).bits, expected.to_bits(), "{} / {}", fee, vsize);
                let by_weight = fee as f64 / (vsize as f64 / 4f64);
                assert_eq!(FeeRate::from_weight(fee, vsize).bits, by_weight.to_bits());
                assert_eq!(vsize_of_weight(vsize), (vsize as f64 / 4f64).ceil() as u64);
            }
        }
    }
}

#[test]
fn feerate_grows_with_fee_and_falls_with_size() {
    for n in 1..200u64 {
        assert!(FeeRate::new(n, 7).bits < FeeRate::new(n + 1, 7).bits);
        assert!(FeeRate::new(7, n).bits > FeeRate::new(7, n + 1).bits);
    }
    // One third is rounded to the nearest double.
    assert_eq!(FeeRate::new(1, 3).bits, 0x3fd5_5555_5555_5555);
}

#[test]
fn grandparents_are_mined_with_their_child() {
    // 1 <- 2 <- 3, where 3 pays for all of them.
    let entries = HashMap::from([
        (1u32, feeinfo(0, 100)),
        (2u32, feeinfo(0, 100)),
        (3u32, feeinfo(900, 100)),
        (4u32, feeinfo(200, 100)),
    ]);
    let parents = HashMap::from([(2u32, vec![1u32]), (3u32, vec![2u32])]);
    assert_eq!(
        sorted_rates(effective_feerates(&entries, &parents)),
        vec![(2.0, 100), (3.0, 100), (3.0, 100), (3.0, 100)]
    );
}

#[test]
fn second_child_is_mined_alone_at_its_own_rate() {
    // Both children spend 1. The better one pulls it in; what the other then
    // pays is for itself alone.
    let entries = HashMap::from([
        (1u32, feeinfo(0, 100)),
        (2u32, feeinfo(1000, 100)),
        (3u32, feeinfo(900, 100)),
    ]);
    let parents = HashMap::from([(2u32, vec![1u32]), (3u32, vec![1u32])]);
    assert_eq!(
        sorted_rates(effective_feerates(&entries, &parents)),
        vec![(5.0, 100), (5.0, 100), (9.0, 100)]
    );
}

#[test]
fn ancestors_are_those_that_remain() {
    let parents = HashMap::from([(3u32, vec![2u32, 1u32]), (2u32, vec![1u32])]);
    let mut package = ancestor_package(3u32, &parents, &HashSet::from([1u32, 2, 3]));
    package.sort();
    assert_eq!(package, vec![1, 2, 3]);
    // Once 2 is mined, 1 is still reached directly.
    let mut package = ancestor_package(3u32, &parents, &HashSet::from([1u32, 3]));
    package.sort();
    assert_eq!(package, vec![1, 3]);
    assert_eq!(ancestor_package(1u32, &parents, &HashSet::from([1u32, 2, 3])), vec![1]);
}

#[test]
fn ancestors_are_found_beyond_one_that_has_left() {
    // 1 <- 2 <- 3, and 2 has left.
    let parents = HashMap::from([(3u32, vec![2u32]), (2u32, vec![1u32])]);
    let package = ancestor_package(3u32, &parents, &HashSet::from([1u32, 3]));
    assert_eq!(package, vec![3, 1]);
    // The transaction itself is in its package, remaining or not.
    assert_eq!(ancestor_package(3u32, &parents, &HashSet::from([2u32])), vec![3, 2]);
    assert_eq!(ancestor_package(3u32, &parents, &HashSet::new()), vec![3]);
    // A cycle is walked once.
    let parents = HashMap::from([(1u32, vec![2u32]), (2u32, vec![1u32, 2])]);
    assert_eq!(ancestor_package(1u32, &parents, &HashSet::from([1u32, 2])), vec![1, 2]);
}

#[test]
fn members_of_a_package_come_after_one_of_their_children() {
    let parents = HashMap::from([
        (6u32, vec![5u32, 4u32]),
        (5u32, vec![3u32, 2u32]),
        (4u32, vec![2u32, 1u32]),
        (2u32, vec![1u32]),
    ]);
    let all = HashSet::from([1u32, 2, 3, 4, 5, 6]);
    let package = ancestor_package(6u32, &parents, &all);
    assert_eq!(package.len(), 6);
    assert_eq!(package[0], 6);
    for i in 1..package.len() {
        assert!(package[..i]
            .iter()
            .any(|child| parents.get(child).is_some_and(|list| list.contains(&package[i]))));
    }
}

#[test]
fn package_without_size_is_passed_over() {
    let nothing = TxFeeInfo { fee: 50, vsize: 0, fee_per_vbyte: rate(0.0) };
    let entries = HashMap::from([(1u32, nothing), (2u32, feeinfo(100, 100))]);
    let parents = HashMap::from([(2u32, vec![1u32])]);
    // On its own, 1 has no feerate: it is mined with its child.
    assert_eq!(
        sorted_rates(effective_feerates(&entries, &parents)),
        vec![(1.5, 0), (1.5, 100)]
    );
}

#[test]
fn unrelated_packages_leave_each_other_alone() {
    let first = HashMap::from([(1u32, feeinfo(0, 100)), (2u32, feeinfo(900, 200))]);
    let first_parents = HashMap::from([(2u32, vec![1u32])]);
    let second = HashMap::from([
        (3u32, feeinfo(700, 100)),
        (4u32, feeinfo(100, 100)),
        (5u32, feeinfo(40, 10)),
    ]);
    let second_parents = HashMap::from([(4u32, vec![3u32])]);
    let mut apart = effective_feerates(&first, &first_parents);
    apart.extend(effective_feerates(&second, &second_parents));

    let entries: HashMap<u32, TxFeeInfo> = first.into_iter().chain(second).collect();
    let parents: HashMap<u32, Vec<u32>> =
        first_parents.into_iter().chain(second_parents).collect();
    let together = sorted_rates(effective_feerates(&entries, &parents));
    assert_eq!(together, sorted_rates(apart));
    assert_eq!(
        together,
        vec![(1.0, 100), (3.0, 100), (3.0, 200), (4.0, 10), (7.0, 100)]
    );
}

#[test]
fn transactions_without_parents_can_be_left_out() {
    let entries = HashMap::from([
        (1u32, feeinfo(10_000, 40_000)),
        (2u32, feeinfo(900_000, 30_000)),
        (3u32, feeinfo(5, 20_000)),
        (4u32, feeinfo(70_000, 7)),
    ]);
    let short = HashMap::from([(2u32, vec![1u32])]);
    let long = HashMap::from([
        (1u32, vec![]),
        (2u32, vec![1u32]),
        (3u32, vec![]),
        (4u32, vec![]),
    ]);
    let histogram = make_fee_histogram(&entries, &short);
    assert_eq!(histogram, make_fee_histogram(&entries, &long));
    assert_eq!(histogram, vec![(rate(13.0), 70_007), (rate(0.00025), 90_007)]);
}

#[test]
fn cluster_is_collected_once() {
    let parents = HashMap::from([(2u32, vec![1u32]), (3u32, vec![1u32])]);
    let children = HashMap::from([(1u32, vec![2u32, 3u32])]);
    let mut visited = HashSet::new();
    let mut cluster = collect_cluster(2u32, &parents, &children, &mut visited);
    cluster.sort();
    assert_eq!(cluster, vec![1, 2, 3]);
    assert_eq!(visited, HashSet::from([1u32, 2, 3]));
}

#[test]
fn chunks_are_appended() {
    let entries = HashMap::from([(1u32, feeinfo(100, 100)), (2u32, feeinfo(300, 100))]);
    let parents = HashMap::from([(2u32, vec![1u32])]);
    let mut result = vec![(rate(9.0), 1)];
    chunk_cluster(&[1u32, 2], &entries, &parents, &mut result);
    assert_eq!(result, vec![(rate(9.0), 1), (rate(2.0), 100), (rate(2.0), 100)]);
}

#[test]
fn histogram_bins_close_after_enough_size() {
    let entries = vec![
        (rate(1.0), 10_000),
        (rate(5.0), 30_000),
        (rate(3.0), 25_000),
        (rate(3.0), 1_000),
        (rate(2.0), 40_000),
    ];
    // 5.0 and both at 3.0 make a bin of more than 50000; the rest stays below it.
    assert_eq!(
        build_histogram(entries),
        vec![(rate(3.0), 56_000), (rate(1.0), 106_000)]
    );
}

#[test]
fn histogram_bin_of_exactly_the_width_stays_open() {
    let entries = vec![(rate(5.0), 50_000), (rate(4.0), 1), (rate(3.0), 7)];
    assert_eq!(
        build_histogram(entries),
        vec![(rate(4.0), 50_001), (rate(3.0), 50_008)]
    );
}

#[test]
fn histogram_bins_count_all_at_or_above() {
    let entries = vec![(rate(1.0), 60_000), (rate(2.0), 60_000)];
    assert_eq!(
        build_histogram(entries),
        vec![(rate(2.0), 60_000), (rate(1.0), 120_000)]
    );
    let entries: Vec<(FeeRate, u64)> = (1..=4u64).map(|i| (rate(i as f64), 50_000 + i)).collect();
    assert_eq!(
        build_histogram(entries),
        vec![
            (rate(4.0), 50_004),
            (rate(3.0), 100_007),
            (rate(2.0), 150_009),
            (rate(1.0), 200_010)
        ]
    );
}

#[test]
fn histogram_keeps_one_feerate_in_one_bin() {
    let entries = vec![(rate(5.0), 60_000), (rate(5.0), 60_000), (rate(4.0), 1)];
    assert_eq!(
        build_histogram(entries),
        vec![(rate(5.0), 120_000), (rate(4.0), 120_001)]
    );
}

#[test]
fn histogram_does_not_depend_on_the_order_of_entries() {
    let mut entries: Vec<(FeeRate, u64)> =
        (0..40u64).map(|i| (rate((i * 7 % 11) as f64), 5_000 + i * 100)).collect();
    let histogram = build_histogram(entries.clone());
    assert_eq!(
        histogram.last().unwrap().1,
        entries.iter().map(|entry| entry.1).sum::<u64>()
    );
    for (rate, vsize) in &histogram {
        let above = entries.iter().filter(|entry| entry.0.bits >= rate.bits);
        assert_eq!(*vsize, above.map(|entry| entry.1).sum::<u64>());
    }
    assert!(histogram.windows(2).all(|pair| pair[0].0.bits > pair[1].0.bits));
    assert!(histogram.windows(2).all(|pair| pair[0].1 < pair[1].1));
    assert!(histogram.len() > 2);
    for _ in 0..10 {
        entries.rotate_left(7);
        assert_eq!(build_histogram(entries.clone()), histogram);
    }
    entries.reverse();
    assert_eq!(build_histogram(entries), histogram);
}

#[test]
fn histogram_without_size_is_empty() {
    assert_eq!(build_histogram(vec![]), vec![]);
    assert_eq!(build_histogram(vec![(rate(5.0), 0)]), vec![]);
    // Nothing is left to count below a full bin.
    assert_eq!(
        build_histogram(vec![(rate(5.0), 60_000), (rate(3.0), 0)]),
        vec![(rate(5.0), 60_000)]
    );
}

#[test]
fn fee_histogram_counts_packages_and_all_size() {
    let entries = HashMap::from([
        (1u32, feeinfo(100, 100)),
        (2u32, feeinfo(10_000, 100)),
        (3u32, feeinfo(60_000, 60_000)),
    ]);
    let parents = HashMap::from([(2u32, vec![1u32])]);
    let histogram = make_fee_histogram(&entries, &parents);
    assert_eq!(histogram, vec![(rate(1.0), 60_200)]);

    let entries = HashMap::from([
        (1u32, feeinfo(600_000, 60_000)),
        (2u32, feeinfo(1, 1)),
    ]);
    let histogram = make_fee_histogram(&entries, &HashMap::new());
    assert_eq!(histogram, vec![(rate(10.0), 60_000), (rate(1.0), 60_001)]);
}

fn spends(txid_byte: u8, vout: u32) -> OutPoint {
    OutPoint { txid: [txid_byte; 32], vout }
}

#[test]
fn fee_is_what_outputs_leave_of_inputs() {
    let tx = Transaction {
        input: vec![spends(1, 0), spends(1, 1)],
        output: vec![TxOut { value: 40 }, TxOut { value: 50 }],
        weight: 561,
    };
    let (a, b) = (TxOut { value: 60 }, TxOut { value: 41 });
    let prevouts = HashMap::from([(0u32, &a), (1u32, &b)]);
    assert_eq!(get_tx_fee(&tx, &prevouts), 11);

    let info = TxFeeInfo::new(&tx, &prevouts);
    assert_eq!(info.fee, 11);
    assert_eq!(info.vsize, 141);
    // per quarter of the weight, not per rounded size
    assert_eq!(f64::from_bits(info.fee_per_vbyte.bits), 11f64 / 140.25);
}

#[test]
fn coinbase_pays_no_fee() {
    let tx = Transaction {
        input: vec![spends(0, u32::MAX)],
        output: vec![TxOut { value: 5_000_000_000 }],
        weight: 400,
    };
    assert_eq!(get_tx_fee(&tx, &HashMap::new()), 0);
    let info = TxFeeInfo::new(&tx, &HashMap::new());
    assert_eq!((info.fee, info.vsize, info.fee_per_vbyte.bits), (0, 100, 0));

    // An input with a hash, or with another index, is an ordinary one.
    assert!(!spends(1, u32::MAX).is_null());
    assert!(!spends(0, 0).is_null());
    assert!(spends(0, u32::MAX).is_null());
}

#[test]
fn fee_of_an_encoded_transaction() {
    let outpoint = bitcoin::OutPoint {
        txid: "11".repeat(32).parse().unwrap(),
        vout: 3,
    };
    let tx = bitcoin::Transaction {
        version: bitcoin::transaction::Version::TWO,
        lock_time: bitcoin::absolute::LockTime::ZERO,
        input: vec![bitcoin::TxIn {
            previous_output: outpoint,
            script_sig: bitcoin::ScriptBuf::new(),
            sequence: bitcoin::Sequence::MAX,
            witness: bitcoin::Witness::new(),
        }],
        output: vec![bitcoin::TxOut {
            value: bitcoin::Amount::from_sat(1_000),
            script_pubkey: bitcoin::ScriptBuf::new(),
        }],
    };
    let raw = bitcoin::consensus::serialize(&tx);
    let spent = TxOut { value: 1_300 };
    let prevouts = HashMap::from([(0u32, &spent)]);
    let info = TxFeeInfo::from_raw(&raw, &prevouts).unwrap();
    assert_eq!(info.fee, 300);
    assert_eq!(info.vsize, tx.vsize() as u64);
    assert_eq!(
        f64::from_bits(info.fee_per_vbyte.bits),
        300f64 / (tx.weight().to_wu() as f64 / 4f64)
    );

    // more goes out than comes in
    let little = TxOut { value: 999 };
    assert!(TxFeeInfo::from_raw(&raw, &HashMap::from([(0u32, &little)])).is_none());
    // not a transaction
    assert!(TxFeeInfo::from_raw(&raw[1..], &prevouts).is_none());
}
