//! How connected transactions are taken apart into chunks, and what each counts as.
use crate::feerate::FeeRate;
use crate::fees::{is_fee_histogram, make_fee_histogram, TxFeeInfo};
use crate::graph::{
    lemma_closed_holds_reachable, lemma_reaches_self, lemma_reaches_step, lemma_seq_total, reaches,
    seq_total, total,
};
use crate::histogram::{is_histogram, lemma_histogram_bins, size_from};
use crate::packages::{
    ancestor_package, ancestors, chunk_rates, component, effective_feerates, fee_of, grouped_rates,
    is_best_package, is_group, is_grouping, is_lone, left_after, listed, mined_in_order,
    mined_rates, mines_out, parent_step, related, set_rate, vsize_of, Group,
};
use std::collections::{HashMap, HashSet};
use std::hash::Hash;
use vstd::prelude::*;

verus! {

/// The fees of some transactions, added up.
pub open spec fn fees<K>(entries: Map<K, TxFeeInfo>, txids: Seq<K>) -> int {
    txids.fold_left(0int, |sum: int, k: K| sum + entries[k].fee)
}

/// The virtual sizes of some transactions, added up.
pub open spec fn sizes<K>(entries: Map<K, TxFeeInfo>, txids: Seq<K>) -> int {
    txids.fold_left(0int, |sum: int, k: K| sum + entries[k].vsize)
}

/// The feerate of a set is that of the fees and the sizes of all of its members.
pub proof fn lemma_set_rate<K>(entries: Map<K, TxFeeInfo>, txids: Seq<K>)
    requires
        txids.no_duplicates(),
    ensures
        set_rate(entries, txids.to_set()) == FeeRate::of(
            fees(entries, txids) as nat,
            sizes(entries, txids) as nat,
        ),
        total(vsize_of(entries), txids.to_set()) == sizes(entries, txids),
        total(fee_of(entries), txids.to_set()) == fees(entries, txids),
{
    lemma_seq_total(fee_of(entries), txids);
    lemma_seq_total(vsize_of(entries), txids);
    lemma_added_up(entries, txids);
}

/// Sums over a list, item by item.
proof fn lemma_added_up<K>(entries: Map<K, TxFeeInfo>, txids: Seq<K>)
    ensures
        seq_total(fee_of(entries), txids) == fees(entries, txids),
        seq_total(vsize_of(entries), txids) == sizes(entries, txids),
    decreases txids.len(),
{
    if txids.len() > 0 {
        lemma_added_up(entries, txids.drop_last());
    }
}

/// A chunk more adds one pair for each of its members, in order: the feerate of the
/// whole chunk, and the size of the member.
pub proof fn lemma_chunk_counted<K>(
    entries: Map<K, TxFeeInfo>,
    chunks: Seq<Seq<K>>,
    chunk: Seq<K>,
)
    requires
        chunk.no_duplicates(),
        0 <= FeeRate::of(fees(entries, chunk) as nat, sizes(entries, chunk) as nat) <= u64::MAX,
    ensures
        mined_rates(entries, Seq::empty()) == Seq::<(FeeRate, u64)>::empty(),
        ({
            let before = mined_rates(entries, chunks);
            let after = mined_rates(entries, chunks.push(chunk));
            &&& after.len() == before.len() + chunk.len()
            &&& after.take(before.len() as int) == before
            &&& forall|j: int|
                0 <= j < chunk.len() ==> {
                    &&& (#[trigger] after[before.len() + j]).0.bits == FeeRate::of(
                        fees(entries, chunk) as nat,
                        sizes(entries, chunk) as nat,
                    )
                    &&& after[before.len() + j].1 == entries[chunk[j]].vsize
                }
        }),
{
    assert(chunks.push(chunk).drop_last() =~= chunks);
    let before = mined_rates(entries, chunks);
    let after = mined_rates(entries, chunks.push(chunk));
    lemma_set_rate(entries, chunk);
    assert(after =~= before + chunk_rates(entries, chunk));
    assert(after.take(before.len() as int) =~= before);
}

/// One of two transactions spends an output of the other.
pub open spec fn linked<K>(parents: Map<K, Vec<K>>, a: K, b: K) -> bool {
    listed(parents, a).contains(b) || listed(parents, b).contains(a)
}

/// What is listed for a transaction is what its entry holds, if it has one.
pub proof fn lemma_listed<K>(parents: Map<K, Vec<K>>, k: K)
    ensures
        parents.contains_key(k) ==> listed(parents, k) == parents[k]@,
        !parents.contains_key(k) ==> listed(parents, k).len() == 0,
{
}

/// A transaction is lone exactly if it is linked to none.
proof fn lemma_lone<K>(parents: Map<K, Vec<K>>, t: K)
    ensures
        is_lone(parents, t) <==> !(exists|b: K| #[trigger] linked(parents, t, b)),
{
    if exists|b: K| #[trigger] linked(parents, t, b) {
        let b = choose|b: K| #[trigger] linked(parents, t, b);
        assert(related(parents)(t, b));
    } else {
        assert forall|b: K| !(#[trigger] related(parents)(t, b)) by {
            assert(!linked(parents, t, b));
        }
    }
}

/// A group more adds what it counts as: its own pair for a transaction that is linked
/// to none, and else the pairs of its chunks.
pub proof fn lemma_group_counted_last<K>(
    entries: Map<K, TxFeeInfo>,
    parents: Map<K, Vec<K>>,
    groups: Seq<Group<K>>,
    group: Group<K>,
)
    ensures
        grouped_rates(entries, parents, Seq::empty()) == Seq::<(FeeRate, u64)>::empty(),
        grouped_rates(entries, parents, groups.push(group)) == grouped_rates(
            entries,
            parents,
            groups,
        ) + (if exists|b: K| #[trigger] linked(parents, group.start, b) {
            mined_rates(entries, group.chunks)
        } else {
            seq![(entries[group.start].fee_per_vbyte, entries[group.start].vsize)]
        }),
{
    assert(groups.push(group).drop_last() =~= groups);
    lemma_lone(parents, group.start);
}

/// One of the first `n` chunks holds `k`.
pub open spec fn mined_before<K>(chunks: Seq<Seq<K>>, n: int, k: K) -> bool {
    exists|c: int| 0 <= c < n && c < chunks.len() && (#[trigger] chunks[c]).contains(k)
}

/// `package` lists `t` and all that it descends from within a cluster, as far as the
/// first `n` chunks have left it, each once.
pub open spec fn heads_package<K>(
    parents: Map<K, Vec<K>>,
    cluster: Set<K>,
    chunks: Seq<Seq<K>>,
    n: int,
    t: K,
    package: Seq<K>,
) -> bool {
    &&& package.no_duplicates()
    &&& forall|k: K| #[trigger]
        package.contains(k) <==> k == t || (cluster.contains(k) && reaches(
            parent_step(parents),
            t,
            k,
        ) && !mined_before(chunks, n, k))
}

/// What is left of a cluster is what none of its chunks holds.
proof fn lemma_left<K>(cluster: Set<K>, chunks: Seq<Seq<K>>, c: int, k: K)
    requires
        0 <= c <= chunks.len(),
    ensures
        left_after(cluster, chunks.take(c)).contains(k) <==> cluster.contains(k) && !mined_before(
            chunks,
            c,
            k,
        ),
    decreases c,
{
    let first = chunks.take(c);
    if c > 0 {
        lemma_left(cluster, chunks, c - 1, k);
        assert(first.drop_last() =~= chunks.take(c - 1));
        assert(first.last() == chunks[c - 1]);
        if chunks[c - 1].contains(k) {
            assert(mined_before(chunks, c, k));
        } else if mined_before(chunks, c, k) {
            let d = choose|d: int|
                0 <= d < c && d < chunks.len() && (#[trigger] chunks[d]).contains(k);
            assert(d < c - 1);
        } else {
            assert(!mined_before(chunks, c - 1, k));
        }
    }
}

/// Each chunk is the best package of what the earlier ones have left.
proof fn lemma_chunk_best<K>(
    entries: Map<K, TxFeeInfo>,
    parents: Map<K, Vec<K>>,
    cluster: Set<K>,
    chunks: Seq<Seq<K>>,
    c: int,
)
    requires
        mined_in_order(entries, parents, cluster, chunks),
        0 <= c < chunks.len(),
    ensures
        is_best_package(entries, parents, left_after(cluster, chunks.take(c)), chunks[c]),
    decreases chunks.len(),
{
    let front = chunks.drop_last();
    if c < front.len() {
        lemma_chunk_best(entries, parents, cluster, front, c);
        assert(chunks.take(c) =~= front.take(c));
        assert(chunks[c] == front[c]);
    } else {
        assert(chunks.take(c) =~= front);
    }
}

/// A chunk holds its head, and what its head descends from and is left, and no more.
proof fn lemma_chunk_holds<K>(
    entries: Map<K, TxFeeInfo>,
    parents: Map<K, Vec<K>>,
    cluster: Set<K>,
    chunks: Seq<Seq<K>>,
    c: int,
    k: K,
)
    requires
        mined_in_order(entries, parents, cluster, chunks),
        0 <= c < chunks.len(),
    ensures
        chunks[c].len() > 0,
        chunks[c].contains(k) <==> cluster.contains(k) && !mined_before(chunks, c, k) && reaches(
            parent_step(parents),
            chunks[c][0],
            k,
        ),
{
    let left = left_after(cluster, chunks.take(c));
    let head = chunks[c][0];
    lemma_chunk_best(entries, parents, cluster, chunks, c);
    lemma_left(cluster, chunks, c, k);
    lemma_reaches_self(parent_step(parents), head);
    assert(chunks[c].to_set().contains(k) <==> chunks[c].contains(k));
    assert(ancestors(parents, left, head).contains(k) <==> k == head || (left.contains(k)
        && reaches(parent_step(parents), head, k)));
}

/// The chunks of a cluster that is mined out hold each of its members once, and
/// nothing else.
pub proof fn lemma_cluster_mined<K>(
    entries: Map<K, TxFeeInfo>,
    parents: Map<K, Vec<K>>,
    cluster: Set<K>,
    chunks: Seq<Seq<K>>,
    k: K,
)
    requires
        mines_out(entries, parents, cluster, chunks),
    ensures
        cluster.contains(k) <==> mined_before(chunks, chunks.len() as int, k),
        forall|c: int|
            0 <= c < chunks.len() ==> (#[trigger] chunks[c]).no_duplicates() && (
            chunks[c].contains(k) ==> !mined_before(chunks, c, k)),
{
    let n = chunks.len() as int;
    assert(chunks.take(n) =~= chunks);
    lemma_left(cluster, chunks, n, k);
    assert(!left_after(cluster, chunks).contains(k));
    if mined_before(chunks, n, k) {
        let d = choose|d: int| 0 <= d < n && d < chunks.len() && (#[trigger] chunks[d]).contains(k);
        lemma_chunk_holds(entries, parents, cluster, chunks, d, k);
    }
    assert forall|c: int| 0 <= c < chunks.len() implies (#[trigger] chunks[c]).no_duplicates() && (
    chunks[c].contains(k) ==> !mined_before(chunks, c, k)) by {
        lemma_chunk_best(entries, parents, cluster, chunks, c);
        lemma_chunk_holds(entries, parents, cluster, chunks, c, k);
    }
}

/// Parents are mined no later than their children.
pub proof fn lemma_parents_mined_first<K>(
    entries: Map<K, TxFeeInfo>,
    parents: Map<K, Vec<K>>,
    cluster: Set<K>,
    chunks: Seq<Seq<K>>,
    c: int,
    k: K,
    p: K,
)
    requires
        mines_out(entries, parents, cluster, chunks),
        0 <= c < chunks.len(),
        chunks[c].contains(k),
        listed(parents, k).contains(p),
        cluster.contains(p),
    ensures
        mined_before(chunks, c + 1, p),
{
    lemma_chunk_holds(entries, parents, cluster, chunks, c, k);
    lemma_chunk_holds(entries, parents, cluster, chunks, c, p);
    lemma_reaches_step(parent_step(parents), chunks[c][0], k, p);
    if mined_before(chunks, c, p) {
        let d = choose|d: int| 0 <= d < c && d < chunks.len() && (#[trigger] chunks[d]).contains(p);
        assert(chunks[d].contains(p));
    }
}

/// Each chunk takes up space, and has the best feerate that a transaction that is left
/// could have together with all that it descends from and that is left.
pub proof fn lemma_chunk_rate_best<K>(
    entries: Map<K, TxFeeInfo>,
    parents: Map<K, Vec<K>>,
    cluster: Set<K>,
    chunks: Seq<Seq<K>>,
    c: int,
    t: K,
    package: Seq<K>,
)
    requires
        mines_out(entries, parents, cluster, chunks),
        0 <= c < chunks.len(),
        cluster.contains(t),
        !mined_before(chunks, c, t),
        heads_package(parents, cluster, chunks, c, t, package),
    ensures
        sizes(entries, chunks[c]) > 0,
        sizes(entries, package) > 0 ==> FeeRate::of(
            fees(entries, package) as nat,
            sizes(entries, package) as nat,
        ) <= FeeRate::of(fees(entries, chunks[c]) as nat, sizes(entries, chunks[c]) as nat),
{
    let left = left_after(cluster, chunks.take(c));
    lemma_chunk_best(entries, parents, cluster, chunks, c);
    lemma_left(cluster, chunks, c, t);
    assert(package.to_set() =~= ancestors(parents, left, t)) by {
        assert forall|k: K| package.to_set().contains(k) <==> ancestors(parents, left, t).contains(
            k,
        ) by {
            assert(package.to_set().contains(k) <==> package.contains(k));
            lemma_left(cluster, chunks, c, k);
        }
    }
    lemma_set_rate(entries, package);
    lemma_set_rate(entries, chunks[c]);
    assert(left.contains(t));
}

/// The head of a chunk is such a transaction, and the chunk is that package.
pub proof fn lemma_chunk_headed<K>(
    entries: Map<K, TxFeeInfo>,
    parents: Map<K, Vec<K>>,
    cluster: Set<K>,
    chunks: Seq<Seq<K>>,
    c: int,
)
    requires
        mines_out(entries, parents, cluster, chunks),
        0 <= c < chunks.len(),
    ensures
        chunks[c].len() > 0,
        cluster.contains(chunks[c][0]),
        !mined_before(chunks, c, chunks[c][0]),
        heads_package(parents, cluster, chunks, c, chunks[c][0], chunks[c]),
{
    let head = chunks[c][0];
    lemma_chunk_best(entries, parents, cluster, chunks, c);
    lemma_left(cluster, chunks, c, head);
    assert forall|k: K| #[trigger] chunks[c].contains(k) <==> k == head || (cluster.contains(k)
        && reaches(parent_step(parents), head, k) && !mined_before(chunks, c, k)) by {
        lemma_chunk_holds(entries, parents, cluster, chunks, c, k);
        lemma_reaches_self(parent_step(parents), head);
    }
}

/// A transaction descends from itself and, with each one that it descends from, from the
/// parents of that; from nothing else.
pub proof fn lemma_descends<K>(parents: Map<K, Vec<K>>, t: K, k: K, p: K, ks: Set<K>)
    ensures
        reaches(parent_step(parents), t, t),
        reaches(parent_step(parents), t, k) && listed(parents, k).contains(p) ==> reaches(
            parent_step(parents),
            t,
            p,
        ),
        reaches(parent_step(parents), t, k) && ks.contains(t) && (forall|a: K, b: K|
            ks.contains(a) && #[trigger] listed(parents, a).contains(b) ==> ks.contains(b))
            ==> ks.contains(k),
{
    let step = parent_step(parents);
    lemma_reaches_self(step, t);
    if reaches(step, t, k) && listed(parents, k).contains(p) {
        lemma_reaches_step(step, t, k, p);
    }
    if reaches(step, t, k) && ks.contains(t) && (forall|a: K, b: K|
        ks.contains(a) && #[trigger] listed(parents, a).contains(b) ==> ks.contains(b)) {
        lemma_closed_holds_reachable(step, ks, t, k);
    }
}

/// A connected package holds a transaction and, with each member, all that it is linked
/// to; whatever else does so holds all of it.
pub proof fn lemma_connected<K>(parents: Map<K, Vec<K>>, t: K, a: K, b: K, ks: Set<K>)
    ensures
        component(parents, t).contains(t),
        component(parents, t).contains(a) && linked(parents, a, b) ==> component(
            parents,
            t,
        ).contains(b),
        ks.contains(t) && (forall|x: K, y: K|
            ks.contains(x) && #[trigger] linked(parents, x, y) ==> ks.contains(y)) && component(
            parents,
            t,
        ).contains(a) ==> ks.contains(a),
{
    let step = related(parents);
    lemma_reaches_self(step, t);
    if component(parents, t).contains(a) && linked(parents, a, b) {
        lemma_reaches_step(step, t, a, b);
    }
    if ks.contains(t) && (forall|x: K, y: K|
        ks.contains(x) && #[trigger] linked(parents, x, y) ==> ks.contains(y)) && component(
        parents,
        t,
    ).contains(a) {
        assert forall|x: K, y: K| ks.contains(x) && #[trigger] step(x, y) implies ks.contains(
            y,
        ) by {
            assert(linked(parents, x, y));
        }
        lemma_closed_holds_reachable(step, ks, t, a);
    }
}

/// Every transaction is in one of the groups, and no two groups share one. A group that
/// starts at a transaction with links is its connected package, mined out.
pub proof fn lemma_grouped<K>(
    entries: Map<K, TxFeeInfo>,
    parents: Map<K, Vec<K>>,
    groups: Seq<Group<K>>,
    k: K,
)
    requires
        is_grouping(entries, parents, groups),
    ensures
        entries.contains_key(k) ==> exists|i: int|
            0 <= i < groups.len() && component(parents, (#[trigger] groups[i]).start).contains(k),
        forall|i: int, j: int|
            0 <= i < j < groups.len() ==> !(component(
                parents,
                (#[trigger] groups[i]).start,
            ).contains(k) && component(parents, (#[trigger] groups[j]).start).contains(k)),
        forall|i: int|
            0 <= i < groups.len() ==> entries.contains_key((#[trigger] groups[i]).start) && ((
            exists|b: K| #[trigger] linked(parents, groups[i].start, b)) ==> mines_out(
                entries,
                parents,
                component(parents, groups[i].start),
                groups[i].chunks,
            )),
{
    reveal(is_grouping);
    assert forall|i: int, j: int| 0 <= i < j < groups.len() implies !(component(
        parents,
        (#[trigger] groups[i]).start,
    ).contains(k) && component(parents, (#[trigger] groups[j]).start).contains(k)) by {
        assert(component(parents, groups[i].start).disjoint(component(parents, groups[j].start)));
    }
    assert forall|i: int| 0 <= i < groups.len() implies entries.contains_key(
        (#[trigger] groups[i]).start,
    ) && ((exists|b: K| #[trigger] linked(parents, groups[i].start, b)) ==> mines_out(
        entries,
        parents,
        component(parents, groups[i].start),
        groups[i].chunks,
    )) by {
        assert(is_group(entries, parents, groups[i]));
        lemma_lone(parents, groups[i].start);
    }
}

/// A fee histogram counts, in each bin, the size of all transactions whose feerate is
/// at least its own, where the feerates are those of a grouping.
pub proof fn lemma_fee_histogram_counts<K>(
    entries: Map<K, TxFeeInfo>,
    parents: Map<K, Vec<K>>,
    histogram: Seq<(FeeRate, u64)>,
)
    requires
        is_fee_histogram(entries, parents, histogram),
    ensures
        exists|groups: Seq<Group<K>>| #[trigger]
            is_grouping(entries, parents, groups) && forall|i: int|
                0 <= i < histogram.len() ==> (#[trigger] histogram[i]).1 == size_from(
                    grouped_rates(entries, parents, groups),
                    histogram[i].0.bits as int,
                ),
{
    let groups = choose|groups: Seq<Group<K>>| #[trigger]
        is_grouping(entries, parents, groups) && is_histogram(
            grouped_rates(entries, parents, groups),
            histogram,
        );
    assert(is_grouping(entries, parents, groups) && forall|i: int|
        0 <= i < histogram.len() ==> (#[trigger] histogram[i]).1 == size_from(
            grouped_rates(entries, parents, groups),
            histogram[i].0.bits as int,
        )) by {
        assert forall|i: int| 0 <= i < histogram.len() implies (#[trigger] histogram[i]).1
            == size_from(
            grouped_rates(entries, parents, groups),
            histogram[i].0.bits as int,
        ) by {
            lemma_histogram_bins(grouped_rates(entries, parents, groups), histogram, i);
        }
    }
}

/// Sums over a short list.
proof fn lemma_added_up_pair<K>(entries: Map<K, TxFeeInfo>, a: K, b: K)
    ensures
        fees(entries, seq![a]) == entries[a].fee,
        sizes(entries, seq![a]) == entries[a].vsize,
        fees(entries, seq![a, b]) == entries[a].fee + entries[b].fee,
        sizes(entries, seq![a, b]) == entries[a].vsize + entries[b].vsize,
{
    let (none, one, two) = (Seq::<K>::empty(), seq![a], seq![a, b]);
    assert(one.drop_last() =~= none);
    assert(two.drop_last() =~= one);
    assert(fees(entries, none) == 0 && sizes(entries, none) == 0);
    assert(fees(entries, one) == fees(entries, one.drop_last()) + entries[a].fee);
    assert(sizes(entries, one) == sizes(entries, one.drop_last()) + entries[a].vsize);
    assert(fees(entries, two) == fees(entries, two.drop_last()) + entries[b].fee);
    assert(sizes(entries, two) == sizes(entries, two.drop_last()) + entries[b].vsize);
}

/// A mempool of a parent and its child.
pub open spec fn is_pair<K>(
    entries: Map<K, TxFeeInfo>,
    parents: Map<K, Vec<K>>,
    parent: K,
    child: K,
) -> bool {
    &&& parent != child
    &&& entries.dom() == set![parent, child]
    &&& forall|a: K, b: K| #[trigger]
        listed(parents, a).contains(b) <==> a == child && b == parent
    &&& entries[parent].vsize > 0
    &&& entries[child].vsize > 0
}

/// What descends from what in such a mempool.
proof fn lemma_pair_reaches<K>(
    entries: Map<K, TxFeeInfo>,
    parents: Map<K, Vec<K>>,
    parent: K,
    child: K,
)
    requires
        is_pair(entries, parents, parent, child),
    ensures
        reaches(parent_step(parents), child, parent),
        forall|k: K| #[trigger] reaches(parent_step(parents), parent, k) ==> k == parent,
        component(parents, parent) == set![parent, child],
        component(parents, child) == set![parent, child],
{
    let step = parent_step(parents);
    assert(listed(parents, child).contains(parent));
    lemma_reaches_self(step, child);
    lemma_reaches_step(step, child, child, parent);
    assert forall|k: K| #[trigger] reaches(step, parent, k) implies k == parent by {
        lemma_closed_holds_reachable(step, set![parent], parent, k);
    }
    let both = set![parent, child];
    assert forall|t: K, k: K|
        both.contains(t) && #[trigger] component(parents, t).contains(k) implies both.contains(
        k,
    ) by {
        assert forall|x: K, y: K| both.contains(x) && #[trigger] linked(
            parents,
            x,
            y,
        ) implies both.contains(y) by {
            assert(listed(parents, x).contains(y) || listed(parents, y).contains(x));
        }
        lemma_connected(parents, t, k, k, both);
    }
    assert(linked(parents, parent, child) && linked(parents, child, parent));
    lemma_connected(parents, parent, parent, child, both);
    lemma_connected(parents, child, child, parent, both);
    assert(component(parents, parent) =~= both);
    assert(component(parents, child) =~= both);
}

/// The chunks of such a mempool: both together, or the parent and then the child.
proof fn lemma_pair_chunks<K>(
    entries: Map<K, TxFeeInfo>,
    parents: Map<K, Vec<K>>,
    parent: K,
    child: K,
    chunks: Seq<Seq<K>>,
)
    requires
        is_pair(entries, parents, parent, child),
        mines_out(entries, parents, set![parent, child], chunks),
    ensures
        chunks == seq![seq![child, parent]] || chunks == seq![seq![parent], seq![child]],
        FeeRate::of(
            (entries[parent].fee + entries[child].fee) as nat,
            (entries[parent].vsize + entries[child].vsize) as nat,
        ) > FeeRate::of(entries[parent].fee as nat, entries[parent].vsize as nat) ==> chunks
            == seq![seq![child, parent]],
        FeeRate::of(
            (entries[parent].fee + entries[child].fee) as nat,
            (entries[parent].vsize + entries[child].vsize) as nat,
        ) < FeeRate::of(entries[parent].fee as nat, entries[parent].vsize as nat) ==> chunks
            == seq![seq![parent], seq![child]],
{
    let both = set![parent, child];
    lemma_pair_reaches(entries, parents, parent, child);
    lemma_added_up_pair(entries, child, parent);
    lemma_added_up_pair(entries, parent, child);
    let n = chunks.len() as int;
    assert(chunks.take(n) =~= chunks);
    lemma_cluster_mined(entries, parents, both, chunks, parent);
    lemma_cluster_mined(entries, parents, both, chunks, child);
    assert(n > 0);
    let head = chunks[0][0];
    lemma_chunk_headed(entries, parents, both, chunks, 0);
    lemma_chunk_holds(entries, parents, both, chunks, 0, parent);
    lemma_chunk_holds(entries, parents, both, chunks, 0, child);
    lemma_reaches_self(parent_step(parents), head);
    assert(!mined_before(chunks, 0, parent) && !mined_before(chunks, 0, child));
    // What each could be mined as at first.
    let (one, two) = (seq![parent], seq![child, parent]);
    assert(heads_package(parents, both, chunks, 0, parent, one)) by {
        assert forall|k: K| #[trigger] one.contains(k) <==> k == parent || (both.contains(
            k,
        ) && reaches(parent_step(parents), parent, k) && !mined_before(chunks, 0, k)) by {
            if k == parent {
                assert(one[0] == k);
            }
        }
    }
    assert(heads_package(parents, both, chunks, 0, child, two)) by {
        assert forall|k: K| #[trigger] two.contains(k) <==> k == child || (
        both.contains(k) && reaches(parent_step(parents), child, k) && !mined_before(
            chunks,
            0,
            k,
        )) by {
            if k == child {
                assert(two[0] == k);
            }
            if k == parent {
                assert(two[1] == k);
            }
        }
    }
    lemma_chunk_rate_best(entries, parents, both, chunks, 0, parent, one);
    lemma_chunk_rate_best(entries, parents, both, chunks, 0, child, two);
    if head == child {
        lemma_same_members(chunks[0], seq![child, parent]);
        assert(mined_before(chunks, 1, parent) && mined_before(chunks, 1, child));
        if n > 1 {
            lemma_chunk_headed(entries, parents, both, chunks, 1);
        }
        assert(chunks =~= seq![seq![child, parent]]);
    } else {
        assert(head == parent);
        assert(!chunks[0].contains(child));
        lemma_same_members(chunks[0], seq![parent]);
        assert(mined_before(chunks, 1, parent));
        if n == 1 {
            let d = choose|d: int|
                0 <= d < n && d < chunks.len() && (#[trigger] chunks[d]).contains(child);
            assert(d == 0);
        }
        lemma_chunk_headed(entries, parents, both, chunks, 1);
        lemma_chunk_holds(entries, parents, both, chunks, 1, parent);
        assert(chunks[1][0] == child);
        lemma_same_members(chunks[1], seq![child]);
        if n > 2 {
            lemma_chunk_headed(entries, parents, both, chunks, 2);
            assert(chunks[1].contains(child) && chunks[0].contains(parent));
            assert(mined_before(chunks, 2, child) && mined_before(chunks, 2, parent));
        }
        assert(chunks =~= seq![seq![parent], seq![child]]);
    }
}

/// A list without duplicates that starts as a short one does, and has its members, is
/// that list.
proof fn lemma_same_members<K>(list: Seq<K>, short: Seq<K>)
    requires
        list.no_duplicates(),
        short.no_duplicates(),
        0 < short.len() <= 2,
        list.len() > 0,
        list[0] == short[0],
        forall|k: K| #[trigger] list.contains(k) <==> short.contains(k),
    ensures
        list == short,
{
    assert forall|i: int| 0 <= i < list.len() implies #[trigger] list[i] == short[0] || (
    short.len() == 2 && list[i] == short[1]) by {
        assert(list.contains(list[i]));
    }
    if short.len() == 2 {
        assert(short.contains(short[1]));
        assert(list.contains(short[1]));
        let j = choose|j: int| 0 <= j < list.len() && list[j] == short[1];
        assert(list[1] == short[1]);
        if list.len() > 2 {
            assert(list[2] == list[0] || list[2] == list[1]);
        }
    } else if list.len() > 1 {
        assert(list[1] == list[0]);
    }
    assert(list =~= short);
}

/// A parent that pays less than the two together is pulled in by its child: both count
/// at the feerate of the two. One that pays more is mined first, and each counts at its
/// own.
pub proof fn lemma_child_pays_for_parent<K>(
    entries: Map<K, TxFeeInfo>,
    parents: Map<K, Vec<K>>,
    groups: Seq<Group<K>>,
    parent: K,
    child: K,
)
    requires
        is_pair(entries, parents, parent, child),
        is_grouping(entries, parents, groups),
    ensures
        ({
            let (p, c) = (entries[parent], entries[child]);
            let own = FeeRate::of(p.fee as nat, p.vsize as nat);
            let other = FeeRate::of(c.fee as nat, c.vsize as nat);
            let together = FeeRate::of((p.fee + c.fee) as nat, (p.vsize + c.vsize) as nat);
            let rates = grouped_rates(entries, parents, groups);
            &&& together > own ==> rates == seq![
                (FeeRate { bits: together as u64 }, c.vsize),
                (FeeRate { bits: together as u64 }, p.vsize),
            ]
            &&& together < own ==> rates == seq![
                (FeeRate { bits: own as u64 }, p.vsize),
                (FeeRate { bits: other as u64 }, c.vsize),
            ]
        }),
{
    lemma_pair_reaches(entries, parents, parent, child);
    lemma_grouped(entries, parents, groups, parent);
    assert(entries.contains_key(parent));
    assert(groups.len() > 0);
    // All groups hold both, so that there is one.
    assert forall|i: int| 0 <= i < groups.len() implies component(
        parents,
        (#[trigger] groups[i]).start,
    ).contains(parent) by {
        assert(entries.contains_key(groups[i].start));
    }
    if groups.len() > 1 {
        assert(component(parents, groups[0].start).contains(parent) && component(
            parents,
            groups[1].start,
        ).contains(parent));
    }
    let group = groups[0];
    let chunks = group.chunks;
    assert(entries.contains_key(group.start));
    assert(linked(parents, parent, child) && linked(parents, child, parent)) by {
        assert(listed(parents, child).contains(parent));
    }
    lemma_pair_chunks(entries, parents, parent, child, chunks);
    lemma_group_counted_last(entries, parents, Seq::empty(), group);
    assert(Seq::empty().push(group) =~= groups);
    let rates = mined_rates(entries, chunks);
    assert(grouped_rates(entries, parents, groups) =~= rates);
    lemma_added_up_pair(entries, parent, child);
    lemma_added_up_pair(entries, child, parent);
    lemma_set_rate(entries, seq![child, parent]);
    lemma_set_rate(entries, seq![parent]);
    lemma_set_rate(entries, seq![child]);
    assert(mined_rates(entries, Seq::<Seq<K>>::empty()) =~= Seq::empty());
    if chunks == seq![seq![child, parent]] {
        assert(chunks.drop_last() =~= Seq::empty());
        assert(rates =~= chunk_rates(entries, seq![child, parent]));
    } else {
        assert(chunks.drop_last() =~= seq![seq![parent]]);
        assert(chunks.drop_last().drop_last() =~= Seq::empty());
        assert(mined_rates(entries, chunks.drop_last()) =~= chunk_rates(entries, seq![parent]));
        assert(rates =~= chunk_rates(entries, seq![parent]) + chunk_rates(entries, seq![child]));
    }
}

/// The feerates that are computed of a mempool are those of some grouping of it.
pub proof fn lemma_computed_rates<K: Copy + Eq + Hash>(
    entries: HashMap<K, TxFeeInfo>,
    parents: HashMap<K, Vec<K>>,
    rates: Vec<(FeeRate, u64)>,
)
    requires
        call_ensures(effective_feerates::<K>, (&entries, &parents), rates),
    ensures
        exists|groups: Seq<Group<K>>| #[trigger]
            is_grouping(entries@, parents@, groups) && rates@ == grouped_rates(
                entries@,
                parents@,
                groups,
            ),
{
}

/// The histogram that is computed of a mempool counts, in each bin, the size of all
/// transactions at or above its feerate, where the feerates are those of some grouping;
/// it runs from the highest feerate down.
pub proof fn lemma_computed_histogram<K: Copy + Eq + Hash>(
    entries: HashMap<K, TxFeeInfo>,
    parents: HashMap<K, Vec<K>>,
    histogram: Vec<(FeeRate, u64)>,
)
    requires
        call_ensures(make_fee_histogram::<K>, (&entries, &parents), histogram),
    ensures
        exists|groups: Seq<Group<K>>| #[trigger]
            is_grouping(entries@, parents@, groups) && forall|i: int|
                0 <= i < histogram@.len() ==> (#[trigger] histogram@[i]).1 == size_from(
                    grouped_rates(entries@, parents@, groups),
                    histogram@[i].0.bits as int,
                ),
        forall|i: int, j: int|
            0 <= i < j < histogram@.len() ==> (#[trigger] histogram@[i]).0.bits > (
            #[trigger] histogram@[j]).0.bits,
{
    lemma_fee_histogram_counts(entries@, parents@, histogram@);
}

/// The package that is computed of a transaction lists it first, and then all that it
/// descends from and that is left, each once.
pub proof fn lemma_computed_package<K: Copy + Eq + Hash>(
    txid: K,
    parents: HashMap<K, Vec<K>>,
    remaining: HashSet<K>,
    package: Vec<K>,
    k: K,
)
    requires
        call_ensures(ancestor_package::<K>, (txid, &parents, &remaining), package),
    ensures
        package@.len() > 0,
        package@[0] == txid,
        package@.no_duplicates(),
        package@.contains(k) <==> k == txid || (remaining@.contains(k) && reaches(
            parent_step(parents@),
            txid,
            k,
        )),
{
    assert(package@.to_set().contains(k) <==> package@.contains(k));
}

} // verus!
