//! Laws of effective feerates: what they depend on, and what they do not.
//!
//! Which of several best packages is mined first is left open where they tie.
//! Where none do, the feerates are determined by the transactions and their
//! parents.
use crate::feerate::FeeRate;
use crate::fees::{is_fee_histogram, TxFeeInfo};
use crate::graph::{lemma_closed_holds_reachable, lemma_reaches_self, lemma_reaches_step};
use crate::histogram::{is_histogram, lemma_histogram_unique, lemma_permuted_histogram};
use crate::packages::{
    addable_relatives, ancestors, are_groups, chunk_rates, component, group_rates, grouped_rates,
    holds_packages, in_groups, is_best_package, is_group, is_grouping, is_lone, left_after,
    lemma_component_not_lone, lemma_lone_component, listed, minable_relatives, mined_in_order,
    mined_rates, mines_out, parent_step, related, set_rate, Group,
};
use vstd::prelude::*;

verus! {

/// However far `cluster` has been mined, its best packages are one and the same.
pub open spec fn untied<K>(
    entries: Map<K, TxFeeInfo>,
    parents: Map<K, Vec<K>>,
    cluster: Set<K>,
) -> bool {
    forall|chunks: Seq<Seq<K>>, a: Seq<K>, b: Seq<K>|
        mined_in_order(entries, parents, cluster, chunks) && #[trigger] is_best_package(
            entries,
            parents,
            left_after(cluster, chunks),
            a,
        ) && #[trigger] is_best_package(entries, parents, left_after(cluster, chunks), b)
            ==> a.to_set() == b.to_set()
}

/// No two packages tie for the best among transactions that have relatives.
pub open spec fn untied_relatives<K>(
    entries: Map<K, TxFeeInfo>,
    parents: Map<K, Vec<K>>,
) -> bool {
    forall|t: K| #[trigger]
        entries.contains_key(t) && !is_lone(parents, t) ==> untied(
            entries,
            parents,
            component(parents, t),
        )
}

/// Permuted items are mapped to permuted items.
proof fn lemma_permuted_map<A, B>(f: spec_fn(A) -> B, a: Seq<A>, b: Seq<A>)
    requires
        a.to_multiset() == b.to_multiset(),
    ensures
        a.map_values(f).to_multiset() == b.map_values(f).to_multiset(),
    decreases a.len(),
{
    broadcast use vstd::seq_lib::group_to_multiset_ensures;

    assert(a.len() == a.to_multiset().len() && b.len() == b.to_multiset().len());
    if a.len() > 0 {
        let x = a.last();
        let front = a.drop_last();
        assert(front.push(x) =~= a);
        assert(b.to_multiset().count(x) > 0);
        assert(b.contains(x));
        let i = choose|i: int| 0 <= i < b.len() && b[i] == x;
        let rest = b.remove(i);
        assert(front.to_multiset() =~= rest.to_multiset()) by {
            assert(a.to_multiset() =~= front.to_multiset().insert(x));
            assert(rest.to_multiset() =~= b.to_multiset().remove(x));
        }
        lemma_permuted_map(f, front, rest);
        assert(a.map_values(f) =~= front.map_values(f).push(f(x)));
        assert(rest.map_values(f) =~= b.map_values(f).remove(i));
        assert(b.map_values(f)[i] == f(x));
        assert(b.map_values(f).contains(f(x)));
        assert(b.map_values(f).to_multiset() =~= rest.map_values(f).to_multiset().insert(f(x)));
    } else {
        assert(a =~= b);
    }
}

/// Lists of the same items without duplicates are permutations of each other.
proof fn lemma_same_items<K>(a: Seq<K>, b: Seq<K>)
    requires
        a.no_duplicates(),
        b.no_duplicates(),
        a.to_set() == b.to_set(),
    ensures
        a.to_multiset() == b.to_multiset(),
{
    broadcast use vstd::seq_lib::group_to_multiset_ensures;

    a.lemma_multiset_has_no_duplicates();
    b.lemma_multiset_has_no_duplicates();
    assert forall|x: K| a.to_multiset().count(x) == b.to_multiset().count(x) by {
        assert(a.to_set().contains(x) <==> a.contains(x));
        assert(b.to_set().contains(x) <==> b.contains(x));
        assert(a.to_multiset().contains(x) <==> a.contains(x));
        assert(b.to_multiset().contains(x) <==> b.contains(x));
    }
    assert(a.to_multiset() =~= b.to_multiset());
}

/// A chunk is counted alike in whatever order it lists its members.
proof fn lemma_chunk_rates_agree<K>(entries: Map<K, TxFeeInfo>, a: Seq<K>, b: Seq<K>)
    requires
        a.no_duplicates(),
        b.no_duplicates(),
        a.to_set() == b.to_set(),
    ensures
        chunk_rates(entries, a).to_multiset() == chunk_rates(entries, b).to_multiset(),
{
    let rate = FeeRate { bits: set_rate(entries, a.to_set()) as u64 };
    let f = |k: K| (rate, entries[k].vsize);
    lemma_same_items(a, b);
    lemma_permuted_map(f, a, b);
    assert(chunk_rates(entries, a) =~= a.map_values(f));
    assert(chunk_rates(entries, b) =~= b.map_values(f));
}

/// What has been mined first has been mined in order.
proof fn lemma_mined_prefix<K>(
    entries: Map<K, TxFeeInfo>,
    parents: Map<K, Vec<K>>,
    cluster: Set<K>,
    chunks: Seq<Seq<K>>,
    n: int,
)
    requires
        0 <= n < chunks.len(),
        mined_in_order(entries, parents, cluster, chunks),
    ensures
        mined_in_order(entries, parents, cluster, chunks.take(n)),
        is_best_package(entries, parents, left_after(cluster, chunks.take(n)), chunks[n]),
    decreases chunks.len(),
{
    let front = chunks.drop_last();
    if n == chunks.len() - 1 {
        assert(chunks.take(n) =~= front);
    } else {
        lemma_mined_prefix(entries, parents, cluster, front, n);
        assert(front.take(n) =~= chunks.take(n));
    }
}

/// Without ties, as many chunks of a cluster leave and count the same.
proof fn lemma_mined_agree<K>(
    entries: Map<K, TxFeeInfo>,
    parents: Map<K, Vec<K>>,
    cluster: Set<K>,
    a: Seq<Seq<K>>,
    b: Seq<Seq<K>>,
)
    requires
        untied(entries, parents, cluster),
        mined_in_order(entries, parents, cluster, a),
        mined_in_order(entries, parents, cluster, b),
        a.len() == b.len(),
    ensures
        left_after(cluster, a) == left_after(cluster, b),
        mined_rates(entries, a).to_multiset() == mined_rates(entries, b).to_multiset(),
    decreases a.len(),
{
    if a.len() > 0 {
        let (front_a, front_b) = (a.drop_last(), b.drop_last());
        lemma_mined_agree(entries, parents, cluster, front_a, front_b);
        assert(is_best_package(entries, parents, left_after(cluster, front_a), a.last()));
        assert(is_best_package(entries, parents, left_after(cluster, front_a), b.last()));
        assert(a.last().to_set() == b.last().to_set());
        lemma_chunk_rates_agree(entries, a.last(), b.last());
        vstd::seq_lib::lemma_multiset_commutative(
            mined_rates(entries, front_a),
            chunk_rates(entries, a.last()),
        );
        vstd::seq_lib::lemma_multiset_commutative(
            mined_rates(entries, front_b),
            chunk_rates(entries, b.last()),
        );
    } else {
        assert(a =~= b);
    }
}

/// Without ties, two ways to mine a cluster out take as many chunks.
proof fn lemma_mined_out_no_longer<K>(
    entries: Map<K, TxFeeInfo>,
    parents: Map<K, Vec<K>>,
    cluster: Set<K>,
    a: Seq<Seq<K>>,
    b: Seq<Seq<K>>,
)
    requires
        untied(entries, parents, cluster),
        mines_out(entries, parents, cluster, a),
        mines_out(entries, parents, cluster, b),
    ensures
        b.len() <= a.len(),
{
    if a.len() < b.len() {
        let n = a.len() as int;
        lemma_mined_prefix(entries, parents, cluster, b, n);
        lemma_mined_agree(entries, parents, cluster, a, b.take(n));
        assert(left_after(cluster, b.take(n)).contains(b[n][0]));
    }
}

/// Connected packages that meet are one.
pub proof fn lemma_components_meet<K>(parents: Map<K, Vec<K>>, a: K, b: K, k: K)
    requires
        component(parents, a).contains(k),
        component(parents, b).contains(k),
    ensures
        component(parents, a) == component(parents, b),
{
    lemma_component_within(parents, a, b, k);
    lemma_component_within(parents, b, a, k);
    assert(component(parents, a) =~= component(parents, b));
}

/// A connected package holds each one that it meets.
proof fn lemma_component_within<K>(parents: Map<K, Vec<K>>, a: K, b: K, k: K)
    requires
        component(parents, a).contains(k),
        component(parents, b).contains(k),
    ensures
        component(parents, b).subset_of(component(parents, a)),
{
    let step = related(parents);
    let whole = component(parents, a);
    let outside = Set::new(|x: K| !whole.contains(x));
    assert forall|x: K, y: K| whole.contains(x) && #[trigger] step(x, y) implies whole.contains(
        y,
    ) by {
        lemma_reaches_step(step, a, x, y);
    }
    assert forall|x: K, y: K| outside.contains(x) && #[trigger] step(x, y) implies outside.contains(
        y,
    ) by {
        assert(step(y, x));
    }
    if !whole.contains(b) {
        lemma_closed_holds_reachable(step, outside, b, k);
    }
    assert forall|x: K| component(parents, b).contains(x) implies whole.contains(x) by {
        lemma_closed_holds_reachable(step, whole, b, x);
    }
}

/// Without ties, a connected package is counted alike however it is mined.
proof fn lemma_group_rates_agree<K>(
    entries: Map<K, TxFeeInfo>,
    parents: Map<K, Vec<K>>,
    a: Group<K>,
    b: Group<K>,
)
    requires
        is_group(entries, parents, a),
        is_group(entries, parents, b),
        component(parents, a.start) == component(parents, b.start),
        untied_relatives(entries, parents),
    ensures
        group_rates(entries, parents, a).to_multiset() == group_rates(
            entries,
            parents,
            b,
        ).to_multiset(),
{
    lemma_reaches_self(related(parents), b.start);
    assert(component(parents, a.start).contains(b.start));
    if is_lone(parents, a.start) {
        lemma_lone_component(parents, a.start);
        assert(a.start == b.start);
    } else {
        let cluster = component(parents, a.start);
        lemma_component_not_lone(parents, a.start, b.start);
        lemma_mined_out_no_longer(entries, parents, cluster, a.chunks, b.chunks);
        lemma_mined_out_no_longer(entries, parents, cluster, b.chunks, a.chunks);
        lemma_mined_agree(entries, parents, cluster, a.chunks, b.chunks);
    }
}

/// Taking one group away leaves separate groups that hold the rest.
pub proof fn lemma_groups_remove<K>(
    entries: Map<K, TxFeeInfo>,
    parents: Map<K, Vec<K>>,
    groups: Seq<Group<K>>,
    i: int,
)
    requires
        are_groups(entries, parents, groups),
        0 <= i < groups.len(),
    ensures
        are_groups(entries, parents, groups.remove(i)),
        forall|k: K| #[trigger]
            in_groups(parents, groups.remove(i), k) <==> in_groups(parents, groups, k)
                && !component(parents, groups[i].start).contains(k),
{
    let rest = groups.remove(i);
    assert forall|j: int| 0 <= j < rest.len() implies is_group(
        entries,
        parents,
        #[trigger] rest[j],
    ) by {
        assert(rest[j] == groups[if j < i { j } else { j + 1 }]);
    }
    assert forall|j: int, l: int| 0 <= j < l < rest.len() implies component(
        parents,
        (#[trigger] rest[j]).start,
    ).disjoint(component(parents, (#[trigger] rest[l]).start)) by {
        assert(rest[j] == groups[if j < i { j } else { j + 1 }]);
        assert(rest[l] == groups[if l < i { l } else { l + 1 }]);
    }
    assert forall|k: K| #[trigger]
        in_groups(parents, rest, k) <==> in_groups(parents, groups, k) && !component(
            parents,
            groups[i].start,
        ).contains(k) by {
        if in_groups(parents, rest, k) {
            let j = choose|j: int|
                0 <= j < rest.len() && component(parents, (#[trigger] rest[j]).start).contains(k);
            let l: int = if j < i { j } else { j + 1 };
            assert(rest[j] == groups[l]);
            assert(component(parents, groups[l].start).contains(k));
            if l < i {
                assert(component(parents, groups[l].start).disjoint(
                    component(parents, groups[i].start),
                ));
            } else {
                assert(component(parents, groups[i].start).disjoint(
                    component(parents, groups[l].start),
                ));
            }
        }
        if in_groups(parents, groups, k) && !component(parents, groups[i].start).contains(k) {
            let l = choose|l: int|
                0 <= l < groups.len() && component(
                    parents,
                    (#[trigger] groups[l]).start,
                ).contains(k);
            let j: int = if l < i { l } else { l - 1 };
            assert(rest[j] == groups[l]);
        }
    }
}

/// Each group adds its own feerates to those of the others.
proof fn lemma_grouped_remove<K>(
    entries: Map<K, TxFeeInfo>,
    parents: Map<K, Vec<K>>,
    groups: Seq<Group<K>>,
    i: int,
)
    requires
        0 <= i < groups.len(),
    ensures
        grouped_rates(entries, parents, groups).to_multiset() == grouped_rates(
            entries,
            parents,
            groups.remove(i),
        ).to_multiset().add(group_rates(entries, parents, groups[i]).to_multiset()),
    decreases groups.len(),
{
    let front = groups.drop_last();
    let rest = groups.remove(i);
    let last = group_rates(entries, parents, groups.last());
    vstd::seq_lib::lemma_multiset_commutative(grouped_rates(entries, parents, front), last);
    if i == groups.len() - 1 {
        assert(rest =~= front);
    } else {
        lemma_grouped_remove(entries, parents, front, i);
        assert(rest.drop_last() =~= front.remove(i));
        assert(rest.last() == groups.last());
        assert(front[i] == groups[i]);
        vstd::seq_lib::lemma_multiset_commutative(
            grouped_rates(entries, parents, front.remove(i)),
            last,
        );
        assert(grouped_rates(entries, parents, groups).to_multiset() =~= grouped_rates(
            entries,
            parents,
            rest,
        ).to_multiset().add(group_rates(entries, parents, groups[i]).to_multiset()));
    }
}

/// Without ties, groups that hold the same transactions count the same.
proof fn lemma_groups_agree<K>(
    entries: Map<K, TxFeeInfo>,
    parents: Map<K, Vec<K>>,
    a: Seq<Group<K>>,
    b: Seq<Group<K>>,
)
    requires
        are_groups(entries, parents, a),
        are_groups(entries, parents, b),
        untied_relatives(entries, parents),
        forall|k: K| #[trigger] in_groups(parents, a, k) <==> in_groups(parents, b, k),
    ensures
        grouped_rates(entries, parents, a).to_multiset() == grouped_rates(
            entries,
            parents,
            b,
        ).to_multiset(),
    decreases a.len(),
{
    if a.len() == 0 {
        if b.len() > 0 {
            lemma_reaches_self(related(parents), b[0].start);
            assert(in_groups(parents, b, b[0].start));
            assert(in_groups(parents, a, b[0].start));
        }
        assert(a =~= b);
    } else {
        let n = a.len() - 1;
        let start = a[n].start;
        lemma_reaches_self(related(parents), start);
        assert(component(parents, a[n].start).contains(start));
        assert(in_groups(parents, a, start));
        assert(in_groups(parents, b, start));
        let i = choose|i: int|
            0 <= i < b.len() && component(parents, (#[trigger] b[i]).start).contains(start);
        lemma_components_meet(parents, start, b[i].start, start);
        lemma_groups_remove(entries, parents, a, n);
        lemma_groups_remove(entries, parents, b, i);
        assert forall|k: K| #[trigger] in_groups(parents, a.remove(n), k) <==> in_groups(
            parents,
            b.remove(i),
            k,
        ) by {
            assert(in_groups(parents, a, k) <==> in_groups(parents, b, k));
        }
        lemma_groups_agree(entries, parents, a.remove(n), b.remove(i));
        assert(is_group(entries, parents, a[n]));
        assert(is_group(entries, parents, b[i]));
        lemma_group_rates_agree(entries, parents, a[n], b[i]);
        lemma_grouped_remove(entries, parents, a, n);
        lemma_grouped_remove(entries, parents, b, i);
    }
}

/// A grouping holds the transactions of `entries` and nothing else.
pub proof fn lemma_grouping_holds<K>(
    entries: Map<K, TxFeeInfo>,
    parents: Map<K, Vec<K>>,
    groups: Seq<Group<K>>,
)
    requires
        holds_packages(entries, parents),
        is_grouping(entries, parents, groups),
    ensures
        are_groups(entries, parents, groups),
        forall|k: K| #[trigger] in_groups(parents, groups, k) <==> entries.contains_key(k),
{
    reveal(is_grouping);
    assert forall|k: K| #[trigger] in_groups(parents, groups, k) implies entries.contains_key(
        k,
    ) by {
        let i = choose|i: int|
            0 <= i < groups.len() && component(parents, (#[trigger] groups[i]).start).contains(k);
        assert(is_group(entries, parents, groups[i]));
        lemma_closed_holds_reachable(related(parents), entries.dom(), groups[i].start, k);
    }
}

/// Where no candidates tie, the effective feerates are determined up to their
/// order.
pub proof fn lemma_rates_determined<K>(
    entries: Map<K, TxFeeInfo>,
    parents: Map<K, Vec<K>>,
    a: Seq<Group<K>>,
    b: Seq<Group<K>>,
)
    requires
        holds_packages(entries, parents),
        untied_relatives(entries, parents),
        is_grouping(entries, parents, a),
        is_grouping(entries, parents, b),
    ensures
        grouped_rates(entries, parents, a).to_multiset() == grouped_rates(
            entries,
            parents,
            b,
        ).to_multiset(),
{
    lemma_grouping_holds(entries, parents, a);
    lemma_grouping_holds(entries, parents, b);
    lemma_groups_agree(entries, parents, a, b);
}

/// Where no candidates tie, there is one fee histogram.
pub proof fn lemma_fee_histogram_determined<K>(
    entries: Map<K, TxFeeInfo>,
    parents: Map<K, Vec<K>>,
    a: Seq<(FeeRate, u64)>,
    b: Seq<(FeeRate, u64)>,
)
    requires
        holds_packages(entries, parents),
        untied_relatives(entries, parents),
        is_fee_histogram(entries, parents, a),
        is_fee_histogram(entries, parents, b),
    ensures
        a == b,
{
    let groups_a = choose|groups: Seq<Group<K>>| #[trigger]
        is_grouping(entries, parents, groups) && is_histogram(
            grouped_rates(entries, parents, groups),
            a,
        );
    let groups_b = choose|groups: Seq<Group<K>>| #[trigger]
        is_grouping(entries, parents, groups) && is_histogram(
            grouped_rates(entries, parents, groups),
            b,
        );
    let rates_a = grouped_rates(entries, parents, groups_a);
    let rates_b = grouped_rates(entries, parents, groups_b);
    lemma_rates_determined(entries, parents, groups_a, groups_b);
    lemma_permuted_histogram(rates_b, rates_a, b);
    lemma_histogram_unique(rates_a, a, b);
}

/// Both list the same parents for each transaction: one may leave out those that
/// have none.
pub open spec fn same_lists<K>(a: Map<K, Vec<K>>, b: Map<K, Vec<K>>) -> bool {
    forall|k: K| #[trigger] listed(a, k) == listed(b, k)
}

/// A cluster is mined alike with the same lists of parents.
proof fn lemma_mined_same_lists<K>(
    entries: Map<K, TxFeeInfo>,
    a: Map<K, Vec<K>>,
    b: Map<K, Vec<K>>,
    cluster: Set<K>,
    chunks: Seq<Seq<K>>,
)
    requires
        parent_step(a) == parent_step(b),
    ensures
        mined_in_order(entries, a, cluster, chunks) == mined_in_order(entries, b, cluster, chunks),
    decreases chunks.len(),
{
    if chunks.len() > 0 {
        let front = chunks.drop_last();
        let left = left_after(cluster, front);
        lemma_mined_same_lists(entries, a, b, cluster, front);
        assert forall|t: K| #[trigger] ancestors(a, left, t) == ancestors(b, left, t) by {
            assert(ancestors(a, left, t) =~= ancestors(b, left, t));
        }
        assert(is_best_package(entries, a, left, chunks.last()) == is_best_package(
            entries,
            b,
            left,
            chunks.last(),
        ));
    }
}

/// Packages are the same with the same lists of parents.
proof fn lemma_components_same_lists<K>(a: Map<K, Vec<K>>, b: Map<K, Vec<K>>)
    requires
        same_lists(a, b),
    ensures
        parent_step(a) == parent_step(b),
        related(a) == related(b),
        forall|t: K| #[trigger] component(a, t) == component(b, t),
        forall|t: K| #[trigger] is_lone(a, t) == is_lone(b, t),
{
    assert(parent_step(a) =~= parent_step(b));
    assert(related(a) =~= related(b));
}

/// Groups count the same with the same lists of parents.
proof fn lemma_rates_same_lists<K>(
    entries: Map<K, TxFeeInfo>,
    a: Map<K, Vec<K>>,
    b: Map<K, Vec<K>>,
    groups: Seq<Group<K>>,
)
    requires
        same_lists(a, b),
    ensures
        grouped_rates(entries, a, groups) == grouped_rates(entries, b, groups),
    decreases groups.len(),
{
    if groups.len() > 0 {
        lemma_components_same_lists(a, b);
        assert(is_lone(a, groups.last().start) == is_lone(b, groups.last().start));
        lemma_rates_same_lists(entries, a, b, groups.drop_last());
    }
}

/// Groups are the same with the same lists of parents.
proof fn lemma_groups_same_lists<K>(
    entries: Map<K, TxFeeInfo>,
    a: Map<K, Vec<K>>,
    b: Map<K, Vec<K>>,
    groups: Seq<Group<K>>,
)
    requires
        same_lists(a, b),
        is_grouping(entries, a, groups),
    ensures
        is_grouping(entries, b, groups),
{
    lemma_components_same_lists(a, b);
    assert(are_groups(entries, a, groups)) by {
        reveal(is_grouping);
    }
    assert forall|i: int| 0 <= i < groups.len() implies is_group(
        entries,
        b,
        #[trigger] groups[i],
    ) by {
        let start = groups[i].start;
        assert(is_group(entries, a, groups[i]));
        assert(is_lone(a, start) == is_lone(b, start));
        assert(component(a, start) == component(b, start));
        lemma_mined_same_lists(entries, a, b, component(a, start), groups[i].chunks);
    }
    assert forall|i: int, j: int| 0 <= i < j < groups.len() implies component(
        b,
        (#[trigger] groups[i]).start,
    ).disjoint(component(b, (#[trigger] groups[j]).start)) by {
        assert(component(a, groups[i].start) == component(b, groups[i].start));
        assert(component(a, groups[j].start) == component(b, groups[j].start));
    }
    assert forall|k: K| #[trigger] entries.contains_key(k) implies in_groups(b, groups, k) by {
        assert(in_groups(a, groups, k)) by {
            reveal(is_grouping);
        }
        let i = choose|i: int|
            0 <= i < groups.len() && component(a, (#[trigger] groups[i]).start).contains(k);
        assert(component(a, groups[i].start) == component(b, groups[i].start));
    }
    reveal(is_grouping);
}

/// Transactions without parents can be left out of `parents`: the same histograms
/// are asked for, of the same mempools.
pub proof fn lemma_empty_lists_optional<K>(
    entries: Map<K, TxFeeInfo>,
    a: Map<K, Vec<K>>,
    b: Map<K, Vec<K>>,
    histogram: Seq<(FeeRate, u64)>,
)
    requires
        same_lists(a, b),
    ensures
        addable_relatives(entries, a) == addable_relatives(entries, b),
        holds_packages(entries, a) == holds_packages(entries, b),
        minable_relatives(entries, a) == minable_relatives(entries, b),
        untied_relatives(entries, a) == untied_relatives(entries, b),
        is_fee_histogram(entries, a, histogram) == is_fee_histogram(entries, b, histogram),
{
    lemma_conditions_same_lists(entries, a, b);
    lemma_conditions_same_lists(entries, b, a);
    lemma_histogram_same_lists(entries, a, b, histogram);
    lemma_histogram_same_lists(entries, b, a, histogram);
}

/// Where no candidates tie, leaving transactions without parents out of `parents`
/// does not change the histogram.
pub proof fn lemma_empty_lists_same_histogram<K>(
    entries: Map<K, TxFeeInfo>,
    a: Map<K, Vec<K>>,
    b: Map<K, Vec<K>>,
    histogram_a: Seq<(FeeRate, u64)>,
    histogram_b: Seq<(FeeRate, u64)>,
)
    requires
        same_lists(a, b),
        holds_packages(entries, a),
        untied_relatives(entries, a),
        is_fee_histogram(entries, a, histogram_a),
        is_fee_histogram(entries, b, histogram_b),
    ensures
        histogram_a == histogram_b,
{
    lemma_empty_lists_optional(entries, a, b, histogram_b);
    lemma_fee_histogram_determined(entries, a, histogram_a, histogram_b);
}

/// What is asked of a mempool is asked with the same lists of parents.
proof fn lemma_conditions_same_lists<K>(
    entries: Map<K, TxFeeInfo>,
    a: Map<K, Vec<K>>,
    b: Map<K, Vec<K>>,
)
    requires
        same_lists(a, b),
    ensures
        addable_relatives(entries, a) ==> addable_relatives(entries, b),
        holds_packages(entries, a) ==> holds_packages(entries, b),
        minable_relatives(entries, a) ==> minable_relatives(entries, b),
        untied_relatives(entries, a) ==> untied_relatives(entries, b),
{
    assert(parent_step(a) =~= parent_step(b));
    assert(related(a) =~= related(b));
    assert forall|s: Set<K>, t: K| #[trigger] ancestors(a, s, t) == ancestors(b, s, t) by {
        assert(ancestors(a, s, t) =~= ancestors(b, s, t));
    }
    assert forall|cluster: Set<K>, chunks: Seq<Seq<K>>| #[trigger]
        mined_in_order(entries, b, cluster, chunks) == mined_in_order(
            entries,
            a,
            cluster,
            chunks,
        ) by {
        lemma_mined_same_lists(entries, a, b, cluster, chunks);
    }
    assert forall|left: Set<K>, chunk: Seq<K>| #[trigger]
        is_best_package(entries, b, left, chunk) == is_best_package(entries, a, left, chunk) by {
        assert(ancestors(a, left, chunk[0]) == ancestors(b, left, chunk[0]));
    }
}

/// A histogram stays one with the same lists of parents.
proof fn lemma_histogram_same_lists<K>(
    entries: Map<K, TxFeeInfo>,
    a: Map<K, Vec<K>>,
    b: Map<K, Vec<K>>,
    histogram: Seq<(FeeRate, u64)>,
)
    requires
        same_lists(a, b),
    ensures
        is_fee_histogram(entries, a, histogram) ==> is_fee_histogram(entries, b, histogram),
{
    if is_fee_histogram(entries, a, histogram) {
        let groups = choose|groups: Seq<Group<K>>| #[trigger]
            is_grouping(entries, a, groups) && is_histogram(
                grouped_rates(entries, a, groups),
                histogram,
            );
        lemma_groups_same_lists(entries, a, b, groups);
        lemma_rates_same_lists(entries, a, b, groups);
        assert(is_grouping(entries, b, groups));
    }
}

} // verus!
