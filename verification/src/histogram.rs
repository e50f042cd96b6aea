//! The fee histogram: how much virtual size pays at least which feerate.
use crate::feerate::FeeRate;
use crate::graph::{lemma_total_concat, seq_total};
use vstd::prelude::*;

verus! {

/// Virtual size from which on a bin is closed at the next lower feerate.
pub const VSIZE_BIN_WIDTH: u64 = 50_000;

/// The virtual size of an entry whose feerate is at least `lo` and below `hi`.
pub open spec fn vsize_within(lo: int, hi: int) -> spec_fn((FeeRate, u64)) -> nat {
    |e: (FeeRate, u64)|
        if lo <= e.0.bits < hi {
            e.1 as nat
        } else {
            0
        }
}

/// The total virtual size at feerates of at least `lo` and below `hi`.
pub open spec fn between(entries: Seq<(FeeRate, u64)>, lo: int, hi: int) -> nat {
    seq_total(vsize_within(lo, hi), entries)
}

/// The virtual size of an entry.
pub open spec fn entry_vsize() -> spec_fn((FeeRate, u64)) -> nat {
    |e: (FeeRate, u64)| e.1 as nat
}

/// The feerate below which bin `i` lies: that of the bin before it.
pub open spec fn upper(bins: Seq<(FeeRate, u64)>, i: int) -> int {
    if i <= 0 {
        u64::MAX + 1
    } else {
        bins[i - 1].0.bits as int
    }
}

/// What bin `i` adds to the bins before it: the virtual size at feerates of at
/// least its own and below that of the bin before it.
pub open spec fn bin_vsize(
    entries: Seq<(FeeRate, u64)>,
    bins: Seq<(FeeRate, u64)>,
    i: int,
) -> nat {
    between(entries, bins[i].0.bits as int, upper(bins, i))
}

/// Bin `i` counts all that pays at least its feerate. It adds something to the
/// bin before it, and was not full before it took in what pays its own feerate.
pub open spec fn is_bin(
    entries: Seq<(FeeRate, u64)>,
    bins: Seq<(FeeRate, u64)>,
    i: int,
) -> bool {
    &&& bins[i].0.bits < upper(bins, i)
    &&& bins[i].1 == between(entries, bins[i].0.bits as int, u64::MAX + 1)
    &&& bin_vsize(entries, bins, i) > 0
    &&& between(entries, bins[i].0.bits + 1, upper(bins, i)) <= VSIZE_BIN_WIDTH
    &&& exists|j: int| 0 <= j < entries.len() && (#[trigger] entries[j]).0 == bins[i].0
}

/// The bins run from the highest feerate down. All but the last are full, and
/// the last goes down to the lowest feerate. Entries without any virtual size
/// below a last bin that is full are not counted.
pub open spec fn is_histogram(
    entries: Seq<(FeeRate, u64)>,
    bins: Seq<(FeeRate, u64)>,
) -> bool {
    let end = upper(bins, bins.len() as int);
    &&& forall|i: int| 0 <= i < bins.len() ==> #[trigger] is_bin(entries, bins, i)
    &&& forall|i: int|
        0 <= i < bins.len() - 1 ==> #[trigger] bin_vsize(entries, bins, i) > VSIZE_BIN_WIDTH
    &&& forall|j: int|
        0 <= j < entries.len() && (#[trigger] entries[j]).0.bits < end ==> entries[j].1 == 0 && (
        bins.len() > 0 ==> bin_vsize(entries, bins, bins.len() - 1) > VSIZE_BIN_WIDTH)
}

/// The feerates do not decrease.
pub open spec fn ascending(entries: Seq<(FeeRate, u64)>) -> bool {
    forall|i: int, j: int|
        0 <= i <= j < entries.len() ==> (#[trigger] entries[i]).0.bits <= (
        #[trigger] entries[j]).0.bits
}

/// Sorts by feerate with `sort_unstable_by_key` of the standard library: the
/// result is a permutation in which the keys do not decrease. The order of
/// entries with one feerate is left open.
#[verifier::external_body]
fn sort_by_rate(entries: &mut Vec<(FeeRate, u64)>)
    ensures
        ascending(final(entries)@),
        final(entries)@.to_multiset() == old(entries)@.to_multiset(),
{
    entries.sort_unstable_by_key(|entry| entry.0.bits)
}

/// Bins `(feerate, vsize)` entries into the Electrum fee histogram format:
/// `[(feerate, total_vsize_at_or_above), ...]` in descending feerate order.
pub fn build_histogram(entries: Vec<(FeeRate, u64)>) -> (histogram: Vec<(FeeRate, u64)>)
    requires
        seq_total(entry_vsize(), entries@) <= u64::MAX,
        forall|i: int| 0 <= i < entries@.len() ==> (#[trigger] entries@[i]).0.wf(),
    ensures
        is_histogram(entries@, histogram@),
{
    let mut sorted: Vec<(FeeRate, u64)> = entries;
    let ghost given = sorted@;
    sort_by_rate(&mut sorted);
    let mut histogram: Vec<(FeeRate, u64)> = Vec::new();
    let mut bin_size: u64 = 0;
    let mut total_size: u64 = 0;
    let mut last_fee_rate: FeeRate = FeeRate { bits: 0 };
    // The current bin holds what lies from `p` to `c`, at feerates above its
    // lowest from `q` on.
    let ghost mut c: int = sorted@.len() as int;
    let ghost mut q: int = sorted@.len() as int;
    let mut p: usize = sorted.len();
    proof {
        lemma_permuted_total(entry_vsize(), given, sorted@);
        assert(sorted@.subrange(c, c) =~= Seq::empty());
    }
    while p > 0
        invariant
            ascending(sorted@),
            seq_total(entry_vsize(), sorted@) <= u64::MAX,
            bin_state(sorted@, histogram@, p as int, q, c),
            bin_size == slice_total(sorted@, p as int, c),
            total_size == slice_total(sorted@, p as int, sorted@.len() as int),
            p < c ==> last_fee_rate == sorted@[p as int].0,
            p == c ==> c == sorted@.len(),
        decreases p,
    {
        let entry: (FeeRate, u64) = sorted[p - 1];
        let fee_rate: FeeRate = entry.0;
        let vsize: u64 = entry.1;
        if bin_size > VSIZE_BIN_WIDTH && last_fee_rate.bits != fee_rate.bits {
            proof {
                lemma_close_bin(sorted@, histogram@, p as int, q, c, total_size);
                c = p as int;
                q = p as int;
            }
            // vsize of transactions paying >= last_fee_rate
            histogram.push((last_fee_rate, total_size));
            bin_size = 0;
        } else if last_fee_rate.bits != fee_rate.bits {
            proof {
                q = p as int;
            }
        }
        proof {
            lemma_slice_step(sorted@, p as int, c);
            lemma_slice_step(sorted@, p as int, sorted@.len() as int);
        }
        last_fee_rate = fee_rate;
        bin_size = bin_size + vsize;
        total_size = total_size + vsize;
        p = p - 1;
    }
    if bin_size > 0 {
        proof {
            lemma_close_bin(sorted@, histogram@, 0, q, c, total_size);
        }
        histogram.push((last_fee_rate, total_size));
    } else {
        proof {
            assert forall|j: int| 0 <= j < c implies (#[trigger] sorted@[j]).1 == 0 by {
                lemma_zero_total(sorted@.subrange(0, c), j);
            }
        }
    }
    proof {
        lemma_permuted_histogram(sorted@, given, histogram@);
    }
    histogram
}

/// The total virtual size of the entries from `i` to `j`.
spec fn slice_total(entries: Seq<(FeeRate, u64)>, i: int, j: int) -> nat {
    seq_total(entry_vsize(), entries.subrange(i, j))
}

/// The feerate at `i` is higher than that before it.
spec fn is_cut(entries: Seq<(FeeRate, u64)>, i: int) -> bool {
    i == entries.len() || (0 < i < entries.len() && entries[i - 1].0.bits < entries[i].0.bits)
}

/// State of the walk down from the highest feerate: all from `c` on is in full
/// bins, what lies from `p` to `c` is in the current bin, and from `q` on that
/// bin holds the feerates above its lowest one.
spec fn bin_state(
    entries: Seq<(FeeRate, u64)>,
    bins: Seq<(FeeRate, u64)>,
    p: int,
    q: int,
    c: int,
) -> bool {
    &&& 0 <= p <= q <= c <= entries.len()
    &&& is_cut(entries, c)
    &&& upper(bins, bins.len() as int) == bound_at(entries, c)
    &&& c < entries.len() ==> bins.len() > 0
    &&& slice_total(entries, q, c) <= VSIZE_BIN_WIDTH
    &&& p < c ==> p < q
    &&& forall|j: int| p <= j < q ==> (#[trigger] entries[j]).0 == entries[p].0
    &&& q < c ==> entries[p].0.bits < entries[q].0.bits
    &&& forall|i: int| 0 <= i < bins.len() ==> #[trigger] is_bin(entries, bins, i)
    &&& forall|i: int|
        0 <= i < bins.len() ==> #[trigger] bin_vsize(entries, bins, i) > VSIZE_BIN_WIDTH
}

/// The feerate at `c`, or above all of them at the end.
spec fn bound_at(entries: Seq<(FeeRate, u64)>, c: int) -> int {
    if c == entries.len() {
        u64::MAX + 1
    } else {
        entries[c].0.bits as int
    }
}

/// Sums that agree on each item of a sequence agree on the sequence.
proof fn lemma_total_agrees<T>(f: spec_fn(T) -> nat, g: spec_fn(T) -> nat, s: Seq<T>)
    requires
        forall|i: int| 0 <= i < s.len() ==> f(#[trigger] s[i]) == g(s[i]),
    ensures
        seq_total(f, s) == seq_total(g, s),
    decreases s.len(),
{
    if s.len() > 0 {
        let front = s.drop_last();
        assert forall|i: int| 0 <= i < front.len() implies f(#[trigger] front[i]) == g(
            front[i],
        ) by {
            assert(front[i] == s[i]);
        }
        lemma_total_agrees(f, g, front);
        assert(s.last() == s[s.len() - 1]);
    }
}

/// A sum depends on how often each item occurs alone.
proof fn lemma_permuted_total<T>(f: spec_fn(T) -> nat, a: Seq<T>, b: Seq<T>)
    requires
        a.to_multiset() == b.to_multiset(),
    ensures
        seq_total(f, a) == seq_total(f, b),
    decreases a.len(),
{
    broadcast use vstd::seq_lib::group_to_multiset_ensures;

    assert(a.len() == a.to_multiset().len() && b.len() == b.to_multiset().len());
    if a.len() > 0 {
        let x = a.last();
        let front = a.drop_last();
        assert(front.push(x) =~= a);
        assert(b.to_multiset().count(x) > 0);
        assert(b.contains(x));
        let i = choose|i: int| 0 <= i < b.len() && b[i] == x;
        let rest = b.remove(i);
        assert(front.to_multiset() =~= rest.to_multiset()) by {
            assert(a.to_multiset() =~= front.to_multiset().insert(x));
            assert(rest.to_multiset() =~= b.to_multiset().remove(x));
        }
        lemma_permuted_total(f, front, rest);
        let (l, r) = (b.subrange(0, i), b.subrange(i + 1, b.len() as int));
        assert(rest =~= l + r);
        assert(b =~= l.push(x) + r);
        assert(l.push(x).drop_last() =~= l);
        lemma_total_concat(f, l, r);
        lemma_total_concat(f, l.push(x), r);
    }
}

/// In ascending order, what pays from `lo` up to `hi` lies in one slice.
proof fn lemma_between_slice(
    entries: Seq<(FeeRate, u64)>,
    lo: int,
    hi: int,
    i: int,
    j: int,
)
    requires
        0 <= i <= j <= entries.len(),
        forall|k: int| 0 <= k < i ==> (#[trigger] entries[k]).0.bits < lo,
        forall|k: int| i <= k < j ==> lo <= (#[trigger] entries[k]).0.bits < hi,
        forall|k: int| j <= k < entries.len() ==> (#[trigger] entries[k]).0.bits >= hi,
    ensures
        between(entries, lo, hi) == slice_total(entries, i, j),
{
    let f = vsize_within(lo, hi);
    let (a, b, d) = (
        entries.subrange(0, i),
        entries.subrange(i, j),
        entries.subrange(j, entries.len() as int),
    );
    let none = |e: (FeeRate, u64)| 0nat;
    assert(entries =~= a + b + d);
    lemma_total_concat(f, a + b, d);
    lemma_total_concat(f, a, b);
    lemma_total_agrees(f, none, a);
    lemma_total_agrees(f, none, d);
    lemma_total_agrees(f, entry_vsize(), b);
    lemma_total_none(a);
    lemma_total_none(d);
}

/// Nothing adds up to nothing.
proof fn lemma_total_none(s: Seq<(FeeRate, u64)>)
    ensures
        seq_total(|e: (FeeRate, u64)| 0nat, s) == 0,
    decreases s.len(),
{
    if s.len() > 0 {
        lemma_total_none(s.drop_last());
    }
}

/// Where nothing adds up, each entry is without size.
proof fn lemma_zero_total(s: Seq<(FeeRate, u64)>, j: int)
    requires
        0 <= j < s.len(),
        seq_total(entry_vsize(), s) == 0,
    ensures
        s[j].1 == 0,
    decreases s.len(),
{
    if j < s.len() - 1 {
        lemma_zero_total(s.drop_last(), j);
    }
}

/// Taking in the next lower entry adds its virtual size, which fits.
proof fn lemma_slice_step(entries: Seq<(FeeRate, u64)>, p: int, c: int)
    requires
        0 < p <= c <= entries.len(),
    ensures
        slice_total(entries, p - 1, c) == slice_total(entries, p, c) + entries[p - 1].1,
        slice_total(entries, p - 1, c) <= seq_total(entry_vsize(), entries),
{
    let f = entry_vsize();
    let one = seq![entries[p - 1]];
    let (a, b) = (entries.subrange(0, p - 1), entries.subrange(c, entries.len() as int));
    let mid = entries.subrange(p - 1, c);
    assert(mid =~= one + entries.subrange(p, c));
    lemma_total_concat(f, one, entries.subrange(p, c));
    assert(one.drop_last() =~= Seq::empty());
    assert(seq_total(f, one) == entries[p - 1].1) by {
        assert(seq_total(f, one.drop_last()) == 0);
    }
    assert(entries =~= a + mid + b);
    lemma_total_concat(f, a + mid, b);
    lemma_total_concat(f, a, mid);
}

/// The current bin, closed at `p`, is a bin of the histogram.
proof fn lemma_close_bin(
    entries: Seq<(FeeRate, u64)>,
    bins: Seq<(FeeRate, u64)>,
    p: int,
    q: int,
    c: int,
    size: u64,
)
    requires
        ascending(entries),
        bin_state(entries, bins, p, q, c),
        p < c,
        p == 0 || entries[p - 1].0.bits < entries[p].0.bits,
        size == slice_total(entries, p, entries.len() as int),
        slice_total(entries, p, c) > 0,
    ensures
        forall|i: int|
            0 <= i <= bins.len() ==> #[trigger] is_bin(
                entries,
                bins.push((entries[p].0, size)),
                i,
            ),
        forall|i: int|
            0 <= i < bins.len() ==> #[trigger] bin_vsize(
                entries,
                bins.push((entries[p].0, size)),
                i,
            ) > VSIZE_BIN_WIDTH,
        bin_vsize(entries, bins.push((entries[p].0, size)), bins.len() as int) == slice_total(
            entries,
            p,
            c,
        ),
        upper(bins.push((entries[p].0, size)), (bins.len() + 1) as int) == bound_at(entries, p),
{
    let r = entries[p].0;
    let more = bins.push((r, size));
    let hi = bound_at(entries, c);
    assert forall|i: int| 0 <= i < bins.len() implies #[trigger] bin_vsize(entries, more, i)
        > VSIZE_BIN_WIDTH by {
        assert(bin_vsize(entries, bins, i) > VSIZE_BIN_WIDTH);
        assert(more[i] == bins[i]);
        assert(upper(more, i) == upper(bins, i));
    }
    assert(upper(more, bins.len() as int) == hi);
    lemma_between_slice(entries, r.bits as int, hi, p, c);
    assert forall|i: int| 0 <= i <= bins.len() implies #[trigger] is_bin(entries, more, i) by {
        if i < bins.len() {
            assert(is_bin(entries, bins, i));
            assert(more[i] == bins[i]);
            assert(upper(more, i) == upper(bins, i));
        } else {
            assert(upper(more, i) == upper(bins, i));
            lemma_between_slice(entries, r.bits as int, u64::MAX + 1, p, entries.len() as int);
            lemma_between_slice(entries, r.bits + 1, hi, q, c);
            assert(entries[p].0 == more[i].0);
        }
    }
}

/// The histogram of a sorted sequence is that of the sequence as given.
pub proof fn lemma_permuted_histogram(
    a: Seq<(FeeRate, u64)>,
    b: Seq<(FeeRate, u64)>,
    bins: Seq<(FeeRate, u64)>,
)
    requires
        a.to_multiset() == b.to_multiset(),
        is_histogram(a, bins),
    ensures
        is_histogram(b, bins),
{
    broadcast use vstd::seq_lib::group_to_multiset_ensures;

    assert forall|e: (FeeRate, u64)| a.contains(e) <==> b.contains(e) by {
        assert(a.contains(e) <==> a.to_multiset().count(e) > 0);
        assert(b.contains(e) <==> b.to_multiset().count(e) > 0);
    }
    assert forall|i: int| 0 <= i < bins.len() implies #[trigger] is_bin(b, bins, i) by {
        assert(is_bin(a, bins, i));
        let (lo, hi) = (bins[i].0.bits as int, upper(bins, i));
        lemma_permuted_total(vsize_within(lo, u64::MAX + 1), a, b);
        lemma_permuted_total(vsize_within(lo, hi), a, b);
        lemma_permuted_total(vsize_within(lo + 1, hi), a, b);
        let j = choose|j: int| 0 <= j < a.len() && (#[trigger] a[j]).0 == bins[i].0;
        assert(a.contains(a[j]));
        assert(b.contains(a[j]));
    }
    assert forall|i: int| 0 <= i < bins.len() implies #[trigger] bin_vsize(b, bins, i) == bin_vsize(
        a,
        bins,
        i,
    ) by {
        lemma_permuted_total(vsize_within(bins[i].0.bits as int, upper(bins, i)), a, b);
    }
    let end = upper(bins, bins.len() as int);
    assert forall|j: int|
        0 <= j < b.len() && (#[trigger] b[j]).0.bits < end implies b[j].1 == 0 && (bins.len() > 0
        ==> bin_vsize(b, bins, bins.len() - 1) > VSIZE_BIN_WIDTH) by {
        assert(b.contains(b[j]));
        assert(a.contains(b[j]));
        let i = choose|i: int| 0 <= i < a.len() && a[i] == b[j];
        assert(a[i].0.bits < end);
    }
}

/// The bins of a histogram are in strictly descending feerate order.
pub proof fn lemma_histogram_descends(
    entries: Seq<(FeeRate, u64)>,
    bins: Seq<(FeeRate, u64)>,
    i: int,
    j: int,
)
    requires
        is_histogram(entries, bins),
        0 <= i < j < bins.len(),
    ensures
        bins[i].0.bits > bins[j].0.bits,
    decreases j - i,
{
    assert(is_bin(entries, bins, j));
    if i < j - 1 {
        lemma_histogram_descends(entries, bins, i, j - 1);
    }
}

/// A range of feerates can be split in two.
proof fn lemma_between_splits(entries: Seq<(FeeRate, u64)>, lo: int, mid: int, hi: int)
    requires
        lo <= mid <= hi,
    ensures
        between(entries, lo, hi) == between(entries, lo, mid) + between(entries, mid, hi),
    decreases entries.len(),
{
    if entries.len() > 0 {
        lemma_between_splits(entries.drop_last(), lo, mid, hi);
    }
}

/// Each bin counts more than those before it.
pub proof fn lemma_histogram_grows(
    entries: Seq<(FeeRate, u64)>,
    bins: Seq<(FeeRate, u64)>,
    i: int,
    j: int,
)
    requires
        is_histogram(entries, bins),
        0 <= i < j < bins.len(),
    ensures
        bins[i].1 < bins[j].1,
    decreases j - i,
{
    assert(is_bin(entries, bins, j));
    assert(is_bin(entries, bins, j - 1));
    lemma_between_splits(entries, bins[j].0.bits as int, upper(bins, j), u64::MAX + 1);
    if i < j - 1 {
        lemma_histogram_grows(entries, bins, i, j - 1);
    }
}

/// The last bin of a histogram counts all virtual size; without any there is no
/// bin.
pub proof fn lemma_histogram_total(entries: Seq<(FeeRate, u64)>, bins: Seq<(FeeRate, u64)>)
    requires
        is_histogram(entries, bins),
    ensures
        seq_total(entry_vsize(), entries) == (if bins.len() > 0 {
            bins.last().1 as nat
        } else {
            0
        }),
{
    let end = upper(bins, bins.len() as int);
    if bins.len() > 0 {
        assert(is_bin(entries, bins, bins.len() - 1));
        lemma_total_agrees(vsize_within(end, u64::MAX + 1), entry_vsize(), entries);
    } else {
        lemma_total_agrees(|e: (FeeRate, u64)| 0nat, entry_vsize(), entries);
        lemma_total_none(entries);
    }
}

/// What pays at least `hi` pays at least `lo`.
proof fn lemma_between_grows(entries: Seq<(FeeRate, u64)>, lo: int, mid: int, hi: int)
    requires
        lo <= mid,
    ensures
        between(entries, mid, hi) <= between(entries, lo, hi),
    decreases entries.len(),
{
    if entries.len() > 0 {
        lemma_between_grows(entries.drop_last(), lo, mid, hi);
    }
}

/// Two histograms of the same entries that agree so far do not part with a higher
/// bin in the first.
proof fn lemma_bins_part(
    entries: Seq<(FeeRate, u64)>,
    a: Seq<(FeeRate, u64)>,
    b: Seq<(FeeRate, u64)>,
    i: int,
)
    requires
        is_histogram(entries, a),
        is_histogram(entries, b),
        0 <= i < a.len(),
        i < b.len(),
        upper(a, i) == upper(b, i),
    ensures
        a[i].0.bits <= b[i].0.bits,
{
    assert(is_bin(entries, a, i));
    assert(is_bin(entries, b, i));
    if a[i].0.bits > b[i].0.bits {
        lemma_between_grows(entries, b[i].0.bits + 1, a[i].0.bits as int, upper(a, i));
        assert(bin_vsize(entries, a, i) <= VSIZE_BIN_WIDTH);
        assert(i == a.len() - 1);
        let j = choose|j: int| 0 <= j < entries.len() && (#[trigger] entries[j]).0 == b[i].0;
        assert(entries[j].0.bits < upper(a, a.len() as int));
    }
}

/// Two histograms of the same entries agree bin by bin.
proof fn lemma_bins_agree(
    entries: Seq<(FeeRate, u64)>,
    a: Seq<(FeeRate, u64)>,
    b: Seq<(FeeRate, u64)>,
    i: int,
)
    requires
        is_histogram(entries, a),
        is_histogram(entries, b),
        0 <= i < a.len(),
        i < b.len(),
    ensures
        a[i] == b[i],
    decreases i,
{
    if i > 0 {
        lemma_bins_agree(entries, a, b, i - 1);
    }
    lemma_bins_part(entries, a, b, i);
    lemma_bins_part(entries, b, a, i);
    assert(is_bin(entries, a, i));
    assert(is_bin(entries, b, i));
}

/// A histogram has no more bins than another of the same entries.
proof fn lemma_bins_count(
    entries: Seq<(FeeRate, u64)>,
    a: Seq<(FeeRate, u64)>,
    b: Seq<(FeeRate, u64)>,
)
    requires
        is_histogram(entries, a),
        is_histogram(entries, b),
    ensures
        b.len() <= a.len(),
{
    if a.len() < b.len() {
        let n = a.len() as int;
        assert(is_bin(entries, b, n));
        if n > 0 {
            lemma_bins_agree(entries, a, b, n - 1);
        }
        let end = upper(a, n);
        assert(upper(b, n) == end);
        let f = vsize_within(b[n].0.bits as int, end);
        lemma_total_agrees(f, |e: (FeeRate, u64)| 0nat, entries);
        lemma_total_none(entries);
    }
}

/// A list of entries has one histogram.
pub proof fn lemma_histogram_unique(
    entries: Seq<(FeeRate, u64)>,
    a: Seq<(FeeRate, u64)>,
    b: Seq<(FeeRate, u64)>,
)
    requires
        is_histogram(entries, a),
        is_histogram(entries, b),
    ensures
        a == b,
{
    lemma_bins_count(entries, a, b);
    lemma_bins_count(entries, b, a);
    assert forall|i: int| 0 <= i < a.len() implies a[i] == b[i] by {
        lemma_bins_agree(entries, a, b, i);
    }
    assert(a =~= b);
}

/// The size of all entries whose feerate has at least this pattern, added up.
pub open spec fn size_from(entries: Seq<(FeeRate, u64)>, bits: int) -> int {
    entries.fold_left(
        0int,
        |sum: int, entry: (FeeRate, u64)|
            if entry.0.bits >= bits {
                sum + entry.1
            } else {
                sum
            },
    )
}

/// What pays at least some feerate is what pays from it on.
proof fn lemma_size_from(entries: Seq<(FeeRate, u64)>, lo: int)
    ensures
        between(entries, lo, u64::MAX + 1) == size_from(entries, lo),
    decreases entries.len(),
{
    if entries.len() > 0 {
        lemma_size_from(entries.drop_last(), lo);
    }
}

/// Each bin is at the feerate of some entry, and counts the size of all entries at or
/// above it. The bins run from the highest feerate down. Each but the last adds more
/// than 50 000 to the one before it, and was not over that before it took in what
/// pays exactly its feerate. Below the last one there is no size left.
pub proof fn lemma_histogram_bins(
    entries: Seq<(FeeRate, u64)>,
    bins: Seq<(FeeRate, u64)>,
    i: int,
)
    requires
        is_histogram(entries, bins),
        0 <= i < bins.len(),
    ensures
        exists|j: int| 0 <= j < entries.len() && (#[trigger] entries[j]).0 == bins[i].0,
        bins[i].1 == size_from(entries, bins[i].0.bits as int),
        i > 0 ==> bins[i].0.bits < bins[i - 1].0.bits,
        ({
            let before = if i > 0 {
                bins[i - 1].1 as int
            } else {
                0
            };
            &&& bins[i].1 > before
            &&& i < bins.len() - 1 ==> bins[i].1 - before > 50_000
            &&& size_from(entries, bins[i].0.bits + 1) - before <= 50_000
        }),
        i == bins.len() - 1 ==> forall|j: int|
            0 <= j < entries.len() && (#[trigger] entries[j]).0.bits < bins[i].0.bits
                ==> entries[j].1 == 0,
{
    let lo = bins[i].0.bits as int;
    let hi = upper(bins, i);
    let top = u64::MAX + 1;
    assert(is_bin(entries, bins, i));
    lemma_size_from(entries, lo);
    lemma_size_from(entries, lo + 1);
    lemma_between_splits(entries, lo, hi, top);
    lemma_between_splits(entries, lo + 1, hi, top);
    if i > 0 {
        assert(is_bin(entries, bins, i - 1));
    } else {
        lemma_total_agrees(vsize_within(top, top), |e: (FeeRate, u64)| 0nat, entries);
        lemma_total_none(entries);
    }
    if i < bins.len() - 1 {
        assert(bin_vsize(entries, bins, i) > VSIZE_BIN_WIDTH);
    }
}

/// There is no bin exactly if nothing takes up space.
pub proof fn lemma_histogram_empty(entries: Seq<(FeeRate, u64)>, bins: Seq<(FeeRate, u64)>)
    requires
        is_histogram(entries, bins),
    ensures
        bins.len() == 0 <==> forall|j: int|
            0 <= j < entries.len() ==> (#[trigger] entries[j]).1 == 0,
{
    if bins.len() == 0 {
        assert forall|j: int| 0 <= j < entries.len() implies (#[trigger] entries[j]).1 == 0 by {
            assert(entries[j].0.bits < upper(bins, bins.len() as int));
        }
    } else if forall|j: int| 0 <= j < entries.len() ==> (#[trigger] entries[j]).1 == 0 {
        assert(is_bin(entries, bins, 0));
        let (lo, hi) = (bins[0].0.bits as int, upper(bins, 0));
        lemma_total_agrees(vsize_within(lo, hi), |e: (FeeRate, u64)| 0nat, entries);
        lemma_total_none(entries);
    }
}

/// The histogram that is built of some entries has those bins.
pub proof fn lemma_histogram_built(
    entries: Vec<(FeeRate, u64)>,
    histogram: Vec<(FeeRate, u64)>,
    i: int,
)
    requires
        call_ensures(build_histogram, (entries,), histogram),
        0 <= i < histogram@.len(),
    ensures
        histogram@[i].1 == size_from(entries@, histogram@[i].0.bits as int),
        i > 0 ==> histogram@[i].0.bits < histogram@[i - 1].0.bits,
        i < histogram@.len() - 1 ==> histogram@[i].1 - (if i > 0 {
            histogram@[i - 1].1 as int
        } else {
            0
        }) > 50_000,
        i == histogram@.len() - 1 ==> forall|j: int|
            0 <= j < entries@.len() && (#[trigger] entries@[j]).0.bits < histogram@[i].0.bits
                ==> entries@[j].1 == 0,
{
    lemma_histogram_bins(entries@, histogram@, i);
}

} // verus!
