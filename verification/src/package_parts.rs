//! Unrelated packages: mempools that have nothing to do with each other leave each
//! other's effective feerates alone.
use crate::fees::TxFeeInfo;
use crate::graph::{lemma_reaches_agree, lemma_reaches_self, lemma_total_agree, reaches, total};
use crate::package_laws::{
    lemma_components_meet, lemma_grouping_holds, lemma_groups_remove, lemma_rates_determined,
    untied_relatives,
};
use crate::packages::{
    ancestors, are_groups, chunk_rates, component, fee_of, group_rates, grouped_rates,
    holds_packages, in_groups, is_best_package, is_group, is_grouping, is_lone, left_after,
    lemma_ancestors_within, lemma_groups_push, lemma_left_within, listed, mined_in_order,
    mined_rates, parent_step, related, vsize_of, Group,
};
use vstd::prelude::*;

verus! {

/// `part` and the parents listed in it stand in `entries` and `parents` as they
/// are, and nothing else there is related to them.
pub open spec fn is_part<K>(
    part: Map<K, TxFeeInfo>,
    part_parents: Map<K, Vec<K>>,
    entries: Map<K, TxFeeInfo>,
    parents: Map<K, Vec<K>>,
) -> bool {
    &&& forall|k: K| #[trigger]
        part.contains_key(k) ==> entries.contains_key(k) && entries[k] == part[k]
    &&& forall|a: K, b: K|
        part.contains_key(a) || part.contains_key(b) ==> (#[trigger] listed(parents, a).contains(b)
            <==> listed(part_parents, a).contains(b))
    &&& closed_over(part, part_parents)
}

/// `parents` lists parents for transactions of `entries` alone, and no others.
pub open spec fn closed_over<K>(entries: Map<K, TxFeeInfo>, parents: Map<K, Vec<K>>) -> bool {
    forall|a: K, b: K| #[trigger]
        listed(parents, a).contains(b) ==> entries.contains_key(a) && entries.contains_key(b)
}

/// A part has its packages in the whole.
proof fn lemma_part_component<K>(
    part: Map<K, TxFeeInfo>,
    part_parents: Map<K, Vec<K>>,
    entries: Map<K, TxFeeInfo>,
    parents: Map<K, Vec<K>>,
    t: K,
)
    requires
        is_part(part, part_parents, entries, parents),
        part.contains_key(t),
    ensures
        component(parents, t) == component(part_parents, t),
        component(parents, t).subset_of(part.dom()),
        is_lone(parents, t) == is_lone(part_parents, t),
{
    let (step, other) = (related(parents), related(part_parents));
    assert forall|x: K, y: K| part.contains_key(x) implies #[trigger] step(x, y) == other(x, y) && (
    step(x, y) ==> part.contains_key(y)) by {
        assert(listed(parents, x).contains(y) <==> listed(part_parents, x).contains(y));
        assert(listed(parents, y).contains(x) <==> listed(part_parents, y).contains(x));
    }
    assert forall|b: K| component(parents, t).contains(b) implies component(
        part_parents,
        t,
    ).contains(b) && part.contains_key(b) by {
        lemma_reaches_agree(step, other, part.dom(), t, b);
    }
    assert forall|x: K, y: K| part.contains_key(x) && #[trigger] other(x, y) implies part.contains_key(
        y,
    ) && step(x, y) by {
        assert(step(x, y) == other(x, y));
    }
    assert forall|b: K| component(part_parents, t).contains(b) implies component(
        parents,
        t,
    ).contains(b) by {
        lemma_reaches_agree(other, step, part.dom(), t, b);
    }
    assert(component(parents, t) =~= component(part_parents, t));
    assert forall|b: K| #[trigger] related(parents)(t, b) == related(part_parents)(t, b) by {
        assert(step(t, b) == other(t, b));
    }
    if is_lone(parents, t) {
        assert forall|b: K| !(#[trigger] related(part_parents)(t, b)) by {
            assert(!related(parents)(t, b));
        }
    }
}

/// A transaction of a part has its ancestors there.
proof fn lemma_part_ancestors<K>(
    part: Map<K, TxFeeInfo>,
    part_parents: Map<K, Vec<K>>,
    entries: Map<K, TxFeeInfo>,
    parents: Map<K, Vec<K>>,
    left: Set<K>,
    t: K,
)
    requires
        is_part(part, part_parents, entries, parents),
        part.contains_key(t),
    ensures
        ancestors(parents, left, t) == ancestors(part_parents, left, t),
{
    let (step, other) = (parent_step(parents), parent_step(part_parents));
    assert forall|x: K, y: K| part.contains_key(x) && #[trigger] step(x, y) implies part.contains_key(
        y,
    ) && other(x, y) by {
        assert(listed(part_parents, x).contains(y));
    }
    assert forall|x: K, y: K| part.contains_key(x) && #[trigger] other(x, y) implies part.contains_key(
        y,
    ) && step(x, y) by {
        assert(listed(part_parents, x).contains(y));
        assert(listed(parents, x).contains(y));
    }
    assert forall|b: K| reaches(step, t, b) implies reaches(other, t, b) by {
        lemma_reaches_agree(step, other, part.dom(), t, b);
    }
    assert forall|b: K| reaches(other, t, b) implies reaches(step, t, b) by {
        lemma_reaches_agree(other, step, part.dom(), t, b);
    }
    assert(ancestors(parents, left, t) =~= ancestors(part_parents, left, t));
}

/// Fees and sizes add up alike in a part and in the whole.
proof fn lemma_part_totals<K>(
    part: Map<K, TxFeeInfo>,
    part_parents: Map<K, Vec<K>>,
    entries: Map<K, TxFeeInfo>,
    parents: Map<K, Vec<K>>,
    s: Set<K>,
)
    requires
        is_part(part, part_parents, entries, parents),
        s.subset_of(part.dom()),
        s.finite(),
    ensures
        total(fee_of(entries), s) == total(fee_of(part), s),
        total(vsize_of(entries), s) == total(vsize_of(part), s),
{
    assert forall|k: K| #[trigger] s.contains(k) implies entries[k] == part[k] by {
        assert(part.contains_key(k));
    }
    lemma_total_agree(fee_of(entries), fee_of(part), s);
    lemma_total_agree(vsize_of(entries), vsize_of(part), s);
}

/// A part has its best packages in the whole.
proof fn lemma_part_best<K>(
    part: Map<K, TxFeeInfo>,
    part_parents: Map<K, Vec<K>>,
    entries: Map<K, TxFeeInfo>,
    parents: Map<K, Vec<K>>,
    left: Set<K>,
    chunk: Seq<K>,
)
    requires
        is_part(part, part_parents, entries, parents),
        left.subset_of(part.dom()),
        left.finite(),
    ensures
        is_best_package(entries, parents, left, chunk) == is_best_package(
            part,
            part_parents,
            left,
            chunk,
        ),
{
    assert forall|t: K| #[trigger] left.contains(t) implies {
        let package = ancestors(parents, left, t);
        &&& package == ancestors(part_parents, left, t)
        &&& total(fee_of(entries), package) == total(fee_of(part), package)
        &&& total(vsize_of(entries), package) == total(vsize_of(part), package)
    } by {
        let package = ancestors(parents, left, t);
        lemma_part_ancestors(part, part_parents, entries, parents, left, t);
        lemma_ancestors_within(parents, left, t);
        vstd::set_lib::lemma_set_subset_finite(left, package);
        lemma_part_totals(part, part_parents, entries, parents, package);
    }
}

/// A part is mined in the whole as it is on its own.
proof fn lemma_part_mined<K>(
    part: Map<K, TxFeeInfo>,
    part_parents: Map<K, Vec<K>>,
    entries: Map<K, TxFeeInfo>,
    parents: Map<K, Vec<K>>,
    cluster: Set<K>,
    chunks: Seq<Seq<K>>,
)
    requires
        is_part(part, part_parents, entries, parents),
        cluster.subset_of(part.dom()),
        cluster.finite(),
    ensures
        mined_in_order(entries, parents, cluster, chunks) == mined_in_order(
            part,
            part_parents,
            cluster,
            chunks,
        ),
        mined_in_order(part, part_parents, cluster, chunks) ==> mined_rates(entries, chunks)
            == mined_rates(part, chunks),
    decreases chunks.len(),
{
    if chunks.len() > 0 {
        let front = chunks.drop_last();
        let left = left_after(cluster, front);
        lemma_part_mined(part, part_parents, entries, parents, cluster, front);
        lemma_left_within(cluster, front);
        vstd::set_lib::lemma_set_subset_finite(cluster, left);
        lemma_part_best(part, part_parents, entries, parents, left, chunks.last());
    }
    if chunks.len() > 0 && mined_in_order(part, part_parents, cluster, chunks) {
        let chunk = chunks.last();
        let left = left_after(cluster, chunks.drop_last());
        lemma_ancestors_within(part_parents, left, chunk[0]);
        vstd::set_lib::lemma_set_subset_finite(left, chunk.to_set());
        lemma_part_totals(part, part_parents, entries, parents, chunk.to_set());
        assert forall|i: int| 0 <= i < chunk.len() implies entries[#[trigger] chunk[i]]
            == part[chunk[i]] by {
            assert(chunk.contains(chunk[i]));
            assert(chunk.to_set().contains(chunk[i]));
            assert(part.contains_key(chunk[i]));
        }
        assert(chunk_rates(entries, chunk) =~= chunk_rates(part, chunk));
    }
}

/// A group of a part is one of the whole, and counts the same there; and a group
/// of the whole that begins in a part is one of that part.
proof fn lemma_part_group<K>(
    part: Map<K, TxFeeInfo>,
    part_parents: Map<K, Vec<K>>,
    entries: Map<K, TxFeeInfo>,
    parents: Map<K, Vec<K>>,
    group: Group<K>,
)
    requires
        is_part(part, part_parents, entries, parents),
        part.dom().finite(),
        is_group(part, part_parents, group) || (part.contains_key(group.start) && is_group(
            entries,
            parents,
            group,
        )),
    ensures
        is_group(part, part_parents, group),
        is_group(entries, parents, group),
        group_rates(entries, parents, group) == group_rates(part, part_parents, group),
        component(parents, group.start) == component(part_parents, group.start),
        component(parents, group.start).subset_of(part.dom()),
{
    lemma_part_component(part, part_parents, entries, parents, group.start);
    if !is_lone(parents, group.start) {
        let cluster = component(part_parents, group.start);
        vstd::set_lib::lemma_set_subset_finite(part.dom(), cluster);
        lemma_part_mined(part, part_parents, entries, parents, cluster, group.chunks);
    }
}

/// The groups of a part are groups of the whole, and count the same there.
proof fn lemma_part_groups<K>(
    part: Map<K, TxFeeInfo>,
    part_parents: Map<K, Vec<K>>,
    entries: Map<K, TxFeeInfo>,
    parents: Map<K, Vec<K>>,
    groups: Seq<Group<K>>,
)
    requires
        is_part(part, part_parents, entries, parents),
        part.dom().finite(),
        are_groups(part, part_parents, groups),
    ensures
        are_groups(entries, parents, groups),
        grouped_rates(entries, parents, groups) == grouped_rates(part, part_parents, groups),
        forall|i: int|
            0 <= i < groups.len() ==> component(
                parents,
                (#[trigger] groups[i]).start,
            ).subset_of(part.dom()),
        forall|k: K| #[trigger]
            in_groups(part_parents, groups, k) ==> in_groups(parents, groups, k),
    decreases groups.len(),
{
    assert forall|i: int| 0 <= i < groups.len() implies {
        let group = #[trigger] groups[i];
        &&& is_group(entries, parents, group)
        &&& component(parents, group.start) == component(part_parents, group.start)
        &&& component(parents, group.start).subset_of(part.dom())
    } by {
        assert(is_group(part, part_parents, groups[i]));
        lemma_part_group(part, part_parents, entries, parents, groups[i]);
    }
    assert forall|k: K| #[trigger] in_groups(part_parents, groups, k) implies in_groups(
        parents,
        groups,
        k,
    ) by {
        let i = choose|i: int|
            0 <= i < groups.len() && component(
                part_parents,
                (#[trigger] groups[i]).start,
            ).contains(k);
        assert(component(parents, groups[i].start).contains(k));
    }
    if groups.len() > 0 {
        let n = groups.len() - 1;
        lemma_groups_remove(part, part_parents, groups, n);
        assert(groups.remove(n) =~= groups.drop_last());
        lemma_part_groups(part, part_parents, entries, parents, groups.drop_last());
        assert(is_group(part, part_parents, groups[n]));
        lemma_part_group(part, part_parents, entries, parents, groups[n]);
    }
}

/// Groups put together count one after the other.
proof fn lemma_grouped_concat<K>(
    entries: Map<K, TxFeeInfo>,
    parents: Map<K, Vec<K>>,
    a: Seq<Group<K>>,
    b: Seq<Group<K>>,
)
    ensures
        grouped_rates(entries, parents, a + b) == grouped_rates(entries, parents, a)
            + grouped_rates(entries, parents, b),
    decreases b.len(),
{
    if b.len() == 0 {
        assert(a + b =~= a);
        assert(grouped_rates(entries, parents, a) + grouped_rates(entries, parents, b)
            =~= grouped_rates(entries, parents, a));
    } else {
        assert((a + b).drop_last() =~= a + b.drop_last());
        lemma_grouped_concat(entries, parents, a, b.drop_last());
        assert(grouped_rates(entries, parents, a + b) =~= grouped_rates(entries, parents, a)
            + grouped_rates(entries, parents, b));
    }
}

/// Separate groups put together.
proof fn lemma_groups_concat<K>(
    entries: Map<K, TxFeeInfo>,
    parents: Map<K, Vec<K>>,
    a: Seq<Group<K>>,
    b: Seq<Group<K>>,
)
    requires
        are_groups(entries, parents, a),
        are_groups(entries, parents, b),
        forall|i: int, j: int|
            0 <= i < a.len() && 0 <= j < b.len() ==> component(
                parents,
                (#[trigger] a[i]).start,
            ).disjoint(component(parents, (#[trigger] b[j]).start)),
    ensures
        are_groups(entries, parents, a + b),
        forall|k: K|
            in_groups(parents, a, k) || in_groups(parents, b, k) ==> #[trigger] in_groups(
                parents,
                a + b,
                k,
            ),
{
    let all = a + b;
    let n = a.len() as int;
    assert forall|i: int| 0 <= i < all.len() implies is_group(
        entries,
        parents,
        #[trigger] all[i],
    ) by {
        if i < n {
            assert(is_group(entries, parents, a[i]));
        } else {
            assert(is_group(entries, parents, b[i - n]));
        }
    }
    assert forall|i: int, j: int| 0 <= i < j < all.len() implies component(
        parents,
        (#[trigger] all[i]).start,
    ).disjoint(component(parents, (#[trigger] all[j]).start)) by {
        if j < n {
            assert(all[i] == a[i] && all[j] == a[j]);
        } else if i < n {
            assert(all[i] == a[i] && all[j] == b[j - n]);
        } else {
            assert(all[i] == b[i - n] && all[j] == b[j - n]);
        }
    }
    assert forall|k: K| in_groups(parents, a, k) || in_groups(parents, b, k) implies
        #[trigger] in_groups(parents, all, k) by {
        if in_groups(parents, a, k) {
            let i = choose|i: int|
                0 <= i < a.len() && component(parents, (#[trigger] a[i]).start).contains(k);
            assert(all[i] == a[i]);
        } else {
            let i = choose|i: int|
                0 <= i < b.len() && component(parents, (#[trigger] b[i]).start).contains(k);
            assert(all[n + i] == b[i]);
        }
    }
}

/// The groupings of two parts make up a grouping of the whole.
proof fn lemma_parts_grouped<K>(
    parts: (Map<K, TxFeeInfo>, Map<K, TxFeeInfo>),
    part_parents: (Map<K, Vec<K>>, Map<K, Vec<K>>),
    entries: Map<K, TxFeeInfo>,
    parents: Map<K, Vec<K>>,
    a: Seq<Group<K>>,
    b: Seq<Group<K>>,
)
    requires
        is_part(parts.0, part_parents.0, entries, parents),
        is_part(parts.1, part_parents.1, entries, parents),
        parts.0.dom().finite(),
        parts.1.dom().finite(),
        parts.0.dom().disjoint(parts.1.dom()),
        entries.dom() == parts.0.dom().union(parts.1.dom()),
        is_grouping(parts.0, part_parents.0, a),
        is_grouping(parts.1, part_parents.1, b),
    ensures
        is_grouping(entries, parents, a + b),
        grouped_rates(entries, parents, a + b) == grouped_rates(parts.0, part_parents.0, a)
            + grouped_rates(parts.1, part_parents.1, b),
{
    lemma_closed_holds_packages(parts.0, part_parents.0);
    lemma_closed_holds_packages(parts.1, part_parents.1);
    lemma_grouping_holds(parts.0, part_parents.0, a);
    lemma_grouping_holds(parts.1, part_parents.1, b);
    lemma_part_groups(parts.0, part_parents.0, entries, parents, a);
    lemma_part_groups(parts.1, part_parents.1, entries, parents, b);
    assert forall|i: int, j: int| 0 <= i < a.len() && 0 <= j < b.len() implies component(
        parents,
        (#[trigger] a[i]).start,
    ).disjoint(component(parents, (#[trigger] b[j]).start)) by {
        assert(component(parents, a[i].start).subset_of(parts.0.dom()));
        assert(component(parents, b[j].start).subset_of(parts.1.dom()));
    }
    lemma_groups_concat(entries, parents, a, b);
    lemma_grouped_concat(entries, parents, a, b);
    assert forall|k: K| #[trigger] entries.contains_key(k) implies in_groups(
        parents,
        a + b,
        k,
    ) by {
        assert(parts.0.contains_key(k) || parts.1.contains_key(k));
        if parts.0.contains_key(k) {
            assert(in_groups(part_parents.0, a, k));
        } else {
            assert(in_groups(part_parents.1, b, k));
        }
    }
    reveal(is_grouping);
}

/// Entries over which `parents` is closed hold whole packages.
proof fn lemma_closed_holds_packages<K>(entries: Map<K, TxFeeInfo>, parents: Map<K, Vec<K>>)
    requires
        closed_over(entries, parents),
    ensures
        holds_packages(entries, parents),
{
    assert forall|a: K, b: K| #[trigger]
        related(parents)(a, b) && entries.contains_key(a) implies entries.contains_key(b) by {
        assert(listed(parents, a).contains(b) || listed(parents, b).contains(a));
    }
}

/// Separate mempools are parts of the two put together.
proof fn lemma_union_parts<K>(
    parts: (Map<K, TxFeeInfo>, Map<K, TxFeeInfo>),
    part_parents: (Map<K, Vec<K>>, Map<K, Vec<K>>),
)
    requires
        are_unrelated(parts, part_parents),
    ensures
        is_part(
            parts.0,
            part_parents.0,
            parts.0.union_prefer_right(parts.1),
            part_parents.0.union_prefer_right(part_parents.1),
        ),
        is_part(
            parts.1,
            part_parents.1,
            parts.0.union_prefer_right(parts.1),
            part_parents.0.union_prefer_right(part_parents.1),
        ),
        closed_over(
            parts.0.union_prefer_right(parts.1),
            part_parents.0.union_prefer_right(part_parents.1),
        ),
{
    let parents = part_parents.0.union_prefer_right(part_parents.1);
    assert forall|a: K| #[trigger] listed(parents, a) == (if parts.1.contains_key(a) {
        listed(part_parents.1, a)
    } else {
        listed(part_parents.0, a)
    }) by {
        if part_parents.0.contains_key(a) {
            assert(parts.0.dom().contains(a));
        }
        if part_parents.1.contains_key(a) {
            assert(parts.1.dom().contains(a));
        }
    }
    assert forall|a: K, b: K|
        parts.0.contains_key(a) || parts.0.contains_key(b) implies (#[trigger] listed(
        parents,
        a,
    ).contains(b) <==> listed(part_parents.0, a).contains(b)) by {
        assert(parts.0.dom().contains(a) ==> !parts.1.dom().contains(a));
        if parts.1.contains_key(a) {
            assert(!listed(part_parents.0, a).contains(b));
            assert(parts.0.dom().contains(b) && !parts.1.dom().contains(b));
        }
    }
    assert forall|a: K, b: K|
        parts.1.contains_key(a) || parts.1.contains_key(b) implies (#[trigger] listed(
        parents,
        a,
    ).contains(b) <==> listed(part_parents.1, a).contains(b)) by {
        if !parts.1.contains_key(a) {
            assert(!listed(part_parents.1, a).contains(b));
            assert(parts.1.dom().contains(b) && !parts.0.dom().contains(b));
        }
    }
}

/// The groups that begin in a part.
pub open spec fn groups_within<K>(part: Map<K, TxFeeInfo>, groups: Seq<Group<K>>) -> Seq<Group<K>>
    decreases groups.len(),
{
    if groups.len() == 0 {
        Seq::empty()
    } else {
        let front = groups_within(part, groups.drop_last());
        if part.contains_key(groups.last().start) {
            front.push(groups.last())
        } else {
            front
        }
    }
}

/// The groups that begin in a part are groups of that part, and hold what the
/// groups of the whole hold of it.
proof fn lemma_groups_within<K>(
    part: Map<K, TxFeeInfo>,
    part_parents: Map<K, Vec<K>>,
    entries: Map<K, TxFeeInfo>,
    parents: Map<K, Vec<K>>,
    groups: Seq<Group<K>>,
)
    requires
        is_part(part, part_parents, entries, parents),
        part.dom().finite(),
        are_groups(entries, parents, groups),
    ensures
        are_groups(part, part_parents, groups_within(part, groups)),
        forall|k: K| #[trigger]
            in_groups(part_parents, groups_within(part, groups), k) ==> in_groups(
                parents,
                groups,
                k,
            ),
        forall|k: K|
            part.contains_key(k) && #[trigger] in_groups(parents, groups, k) ==> in_groups(
                part_parents,
                groups_within(part, groups),
                k,
            ),
    decreases groups.len(),
{
    if groups.len() > 0 {
        let n = groups.len() - 1;
        let front = groups.drop_last();
        let group = groups.last();
        let within = groups_within(part, front);
        lemma_groups_remove(entries, parents, groups, n);
        assert(groups.remove(n) =~= front);
        assert(groups[n] == group);
        lemma_groups_within(part, part_parents, entries, parents, front);
        assert(is_group(entries, parents, groups[n]));
        if part.contains_key(group.start) {
            lemma_part_group(part, part_parents, entries, parents, group);
            assert forall|k: K| component(part_parents, group.start).contains(k) implies !(
            #[trigger] in_groups(part_parents, within, k)) by {
                assert(!in_groups(parents, front, k));
            }
            lemma_groups_push(part, part_parents, within, group);
            assert forall|k: K| #[trigger]
                in_groups(part_parents, within.push(group), k) implies in_groups(
                parents,
                groups,
                k,
            ) by {
                if component(part_parents, group.start).contains(k) {
                    assert(component(parents, groups[n].start).contains(k));
                } else {
                    assert(in_groups(part_parents, within, k));
                    assert(in_groups(parents, front, k));
                }
            }
            assert forall|k: K|
                part.contains_key(k) && #[trigger] in_groups(parents, groups, k) implies in_groups(
                part_parents,
                within.push(group),
                k,
            ) by {
                if !component(parents, group.start).contains(k) {
                    assert(in_groups(parents, front, k));
                    assert(in_groups(part_parents, within, k));
                }
            }
        } else {
            assert forall|k: K|
                part.contains_key(k) && #[trigger] in_groups(parents, groups, k) implies in_groups(
                part_parents,
                within,
                k,
            ) by {
                if component(parents, group.start).contains(k) {
                    lemma_part_component(part, part_parents, entries, parents, k);
                    lemma_component_symmetric(parents, group.start, k);
                }
                assert(in_groups(parents, front, k));
            }
            assert forall|k: K| #[trigger] in_groups(part_parents, within, k) implies in_groups(
                parents,
                groups,
                k,
            ) by {
                assert(in_groups(parents, front, k));
            }
        }
    }
}

/// A package that holds `k` is the one that is found from `k`.
proof fn lemma_component_symmetric<K>(parents: Map<K, Vec<K>>, t: K, k: K)
    requires
        component(parents, t).contains(k),
    ensures
        component(parents, k).contains(t),
{
    lemma_reaches_self(related(parents), t);
    lemma_reaches_self(related(parents), k);
    lemma_components_meet(parents, t, k, k);
}

/// The groups of the whole count what those of two parts count between them.
proof fn lemma_grouped_within<K>(
    parts: (Map<K, TxFeeInfo>, Map<K, TxFeeInfo>),
    part_parents: (Map<K, Vec<K>>, Map<K, Vec<K>>),
    entries: Map<K, TxFeeInfo>,
    parents: Map<K, Vec<K>>,
    groups: Seq<Group<K>>,
)
    requires
        is_part(parts.0, part_parents.0, entries, parents),
        is_part(parts.1, part_parents.1, entries, parents),
        parts.0.dom().finite(),
        parts.1.dom().finite(),
        parts.0.dom().disjoint(parts.1.dom()),
        entries.dom() == parts.0.dom().union(parts.1.dom()),
        are_groups(entries, parents, groups),
    ensures
        grouped_rates(entries, parents, groups).to_multiset() == grouped_rates(
            parts.0,
            part_parents.0,
            groups_within(parts.0, groups),
        ).to_multiset().add(
            grouped_rates(
                parts.1,
                part_parents.1,
                groups_within(parts.1, groups),
            ).to_multiset(),
        ),
    decreases groups.len(),
{
    let (a, b) = (groups_within(parts.0, groups), groups_within(parts.1, groups));
    let rates_a = grouped_rates(parts.0, part_parents.0, a);
    let rates_b = grouped_rates(parts.1, part_parents.1, b);
    if groups.len() == 0 {
        vstd::seq_lib::lemma_multiset_commutative(rates_a, rates_b);
        assert(rates_a + rates_b =~= grouped_rates(entries, parents, groups));
    } else {
        let n = groups.len() - 1;
        let front = groups.drop_last();
        let group = groups.last();
        let own = group_rates(entries, parents, group);
        lemma_groups_remove(entries, parents, groups, n);
        assert(groups.remove(n) =~= front);
        lemma_grouped_within(parts, part_parents, entries, parents, front);
        assert(is_group(entries, parents, groups[n]));
        assert(entries.dom().contains(group.start));
        vstd::seq_lib::lemma_multiset_commutative(grouped_rates(entries, parents, front), own);
        if parts.0.dom().contains(group.start) {
            lemma_part_group(parts.0, part_parents.0, entries, parents, group);
            let within = groups_within(parts.0, front);
            assert(a.drop_last() =~= within);
            vstd::seq_lib::lemma_multiset_commutative(
                grouped_rates(parts.0, part_parents.0, within),
                own,
            );
        } else {
            lemma_part_group(parts.1, part_parents.1, entries, parents, group);
            let within = groups_within(parts.1, front);
            assert(b.drop_last() =~= within);
            vstd::seq_lib::lemma_multiset_commutative(
                grouped_rates(parts.1, part_parents.1, within),
                own,
            );
        }
        assert(grouped_rates(entries, parents, groups).to_multiset() =~= rates_a.to_multiset().add(
            rates_b.to_multiset(),
        ));
    }
}

/// Two mempools that have nothing to do with each other: their transactions are
/// distinct, and each lists parents among its own alone.
pub open spec fn are_unrelated<K>(
    parts: (Map<K, TxFeeInfo>, Map<K, TxFeeInfo>),
    part_parents: (Map<K, Vec<K>>, Map<K, Vec<K>>),
) -> bool {
    &&& parts.0.dom().disjoint(parts.1.dom())
    &&& closed_over(parts.0, part_parents.0)
    &&& closed_over(parts.1, part_parents.1)
    &&& part_parents.0.dom().subset_of(parts.0.dom())
    &&& part_parents.1.dom().subset_of(parts.1.dom())
}

/// Unrelated packages leave each other alone, also where candidates tie: in
/// whatever way two unrelated mempools are mined together, each is mined in a way
/// that it can be mined on its own, and the effective feerates are those of both.
pub proof fn lemma_unrelated_split<K>(
    parts: (Map<K, TxFeeInfo>, Map<K, TxFeeInfo>),
    part_parents: (Map<K, Vec<K>>, Map<K, Vec<K>>),
    groups: Seq<Group<K>>,
)
    requires
        parts.0.dom().finite(),
        parts.1.dom().finite(),
        are_unrelated(parts, part_parents),
        is_grouping(
            parts.0.union_prefer_right(parts.1),
            part_parents.0.union_prefer_right(part_parents.1),
            groups,
        ),
    ensures
        is_grouping(parts.0, part_parents.0, groups_within(parts.0, groups)),
        is_grouping(parts.1, part_parents.1, groups_within(parts.1, groups)),
        grouped_rates(
            parts.0.union_prefer_right(parts.1),
            part_parents.0.union_prefer_right(part_parents.1),
            groups,
        ).to_multiset() == grouped_rates(
            parts.0,
            part_parents.0,
            groups_within(parts.0, groups),
        ).to_multiset().add(
            grouped_rates(
                parts.1,
                part_parents.1,
                groups_within(parts.1, groups),
            ).to_multiset(),
        ),
{
    let entries = parts.0.union_prefer_right(parts.1);
    let parents = part_parents.0.union_prefer_right(part_parents.1);
    lemma_union_parts(parts, part_parents);
    lemma_closed_holds_packages(entries, parents);
    lemma_grouping_holds(entries, parents, groups);
    assert(entries.dom() =~= parts.0.dom().union(parts.1.dom()));
    lemma_groups_within(parts.0, part_parents.0, entries, parents, groups);
    lemma_groups_within(parts.1, part_parents.1, entries, parents, groups);
    lemma_grouped_within(parts, part_parents, entries, parents, groups);
    assert forall|k: K| #[trigger] parts.0.contains_key(k) implies in_groups(
        part_parents.0,
        groups_within(parts.0, groups),
        k,
    ) by {
        assert(in_groups(parents, groups, k));
    }
    assert forall|k: K| #[trigger] parts.1.contains_key(k) implies in_groups(
        part_parents.1,
        groups_within(parts.1, groups),
        k,
    ) by {
        assert(in_groups(parents, groups, k));
    }
    reveal(is_grouping);
}

/// Two unrelated mempools can be mined together in any way that each can be mined
/// on its own, and have the effective feerates of both then.
pub proof fn lemma_unrelated_joined<K>(
    parts: (Map<K, TxFeeInfo>, Map<K, TxFeeInfo>),
    part_parents: (Map<K, Vec<K>>, Map<K, Vec<K>>),
    a: Seq<Group<K>>,
    b: Seq<Group<K>>,
)
    requires
        parts.0.dom().finite(),
        parts.1.dom().finite(),
        are_unrelated(parts, part_parents),
        is_grouping(parts.0, part_parents.0, a),
        is_grouping(parts.1, part_parents.1, b),
    ensures
        is_grouping(
            parts.0.union_prefer_right(parts.1),
            part_parents.0.union_prefer_right(part_parents.1),
            a + b,
        ),
        grouped_rates(
            parts.0.union_prefer_right(parts.1),
            part_parents.0.union_prefer_right(part_parents.1),
            a + b,
        ) == grouped_rates(parts.0, part_parents.0, a) + grouped_rates(
            parts.1,
            part_parents.1,
            b,
        ),
{
    let entries = parts.0.union_prefer_right(parts.1);
    let parents = part_parents.0.union_prefer_right(part_parents.1);
    lemma_union_parts(parts, part_parents);
    assert(entries.dom() =~= parts.0.dom().union(parts.1.dom()));
    lemma_parts_grouped(parts, part_parents, entries, parents, a, b);
}

/// Where no candidates tie, two unrelated mempools put together have the
/// effective feerates that each has on its own.
pub proof fn lemma_unrelated_apart<K>(
    parts: (Map<K, TxFeeInfo>, Map<K, TxFeeInfo>),
    part_parents: (Map<K, Vec<K>>, Map<K, Vec<K>>),
    a: Seq<Group<K>>,
    b: Seq<Group<K>>,
    groups: Seq<Group<K>>,
)
    requires
        parts.0.dom().finite(),
        parts.1.dom().finite(),
        are_unrelated(parts, part_parents),
        untied_relatives(
            parts.0.union_prefer_right(parts.1),
            part_parents.0.union_prefer_right(part_parents.1),
        ),
        is_grouping(parts.0, part_parents.0, a),
        is_grouping(parts.1, part_parents.1, b),
        is_grouping(
            parts.0.union_prefer_right(parts.1),
            part_parents.0.union_prefer_right(part_parents.1),
            groups,
        ),
    ensures
        grouped_rates(
            parts.0.union_prefer_right(parts.1),
            part_parents.0.union_prefer_right(part_parents.1),
            groups,
        ).to_multiset() == grouped_rates(parts.0, part_parents.0, a).to_multiset().add(
            grouped_rates(parts.1, part_parents.1, b).to_multiset(),
        ),
{
    let entries = parts.0.union_prefer_right(parts.1);
    let parents = part_parents.0.union_prefer_right(part_parents.1);
    lemma_union_parts(parts, part_parents);
    lemma_closed_holds_packages(entries, parents);
    lemma_unrelated_joined(parts, part_parents, a, b);
    lemma_rates_determined(entries, parents, groups, a + b);
    vstd::seq_lib::lemma_multiset_commutative(
        grouped_rates(parts.0, part_parents.0, a),
        grouped_rates(parts.1, part_parents.1, b),
    );
}

} // verus!
