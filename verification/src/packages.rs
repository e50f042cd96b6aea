//! Packages of related mempool transactions and their effective feerates.
//!
//! A transaction that spends an output of another one can only be mined after
//! it. A package is therefore mined as a whole, at its aggregate feerate.
use crate::feerate::FeeRate;
use crate::fees::TxFeeInfo;
use crate::graph::{
    expanded, lemma_closed_holds_reachable, lemma_reaches_self, lemma_reaches_step,
    lemma_search_end, lemma_search_extend, lemma_search_pop, lemma_search_start,
    lemma_seq_total, lemma_total_concat, lemma_total_remove, lemma_total_subset, lemma_total_union,
    reach_set, reaches, searching, seq_total, total,
};
use crate::histogram::entry_vsize;
use std::collections::{HashMap, HashSet};
use std::hash::Hash;
use vstd::prelude::*;
use vstd::std_specs::hash::obeys_key_model;
use vstd::std_specs::iter::IteratorSpec;

verus! {

broadcast use vstd::std_specs::hash::group_hash_axioms;

/// What `links` lists for `k`: nothing where it has no entry.
pub open spec fn listed<K>(links: Map<K, Vec<K>>, k: K) -> Seq<K> {
    if links.contains_key(k) {
        links[k]@
    } else {
        Seq::empty()
    }
}

/// A step from a transaction to one of its parents.
pub open spec fn parent_step<K>(parents: Map<K, Vec<K>>) -> spec_fn(K, K) -> bool {
    |a: K, b: K| listed(parents, a).contains(b)
}

/// `t` and all of its transitive ancestors that are still in `remaining`, also
/// those beyond an ancestor that is not.
pub open spec fn ancestors<K>(parents: Map<K, Vec<K>>, remaining: Set<K>, t: K) -> Set<K> {
    Set::new(
        |a: K| a == t || (remaining.contains(a) && reaches(parent_step(parents), t, a)),
    )
}

/// No ancestor of `t` that has left `remaining` has an ancestor that is still in
/// it: parents have left before their children.
pub open spec fn parents_left_first<K>(
    parents: Map<K, Vec<K>>,
    remaining: Set<K>,
    t: K,
) -> bool {
    forall|a: K, b: K|
        #![trigger reaches(parent_step(parents), t, a), reaches(parent_step(parents), a, b)]
        a != t && !remaining.contains(a) && reaches(parent_step(parents), t, a) && reaches(
            parent_step(parents),
            a,
            b,
        ) ==> !remaining.contains(b)
}

/// Each member but the first is listed as a parent of an earlier one.
pub open spec fn children_first<K>(parents: Map<K, Vec<K>>, package: Seq<K>) -> bool {
    forall|i: int|
        0 < i < package.len() ==> has_child_before(parents, package, #[trigger] package[i], i)
}

/// One of the first `i` members lists `k` as a parent.
pub open spec fn has_child_before<K>(
    parents: Map<K, Vec<K>>,
    package: Seq<K>,
    k: K,
    i: int,
) -> bool {
    exists|j: int|
        0 <= j < i && j < package.len() && listed(parents, #[trigger] package[j]).contains(k)
}

/// The ancestor package of `txid`: itself plus all of its transitive ancestors
/// that are still in `remaining`, each once and `txid` first. Where parents leave
/// `remaining` before their children, a member comes after one of its children.
pub fn ancestor_package<K: Copy + Eq + Hash>(
    txid: K,
    parents: &HashMap<K, Vec<K>>,
    remaining: &HashSet<K>,
) -> (package: Vec<K>)
    requires
        obeys_key_model::<K>(),
    ensures
        package@.no_duplicates(),
        package@.to_set() == ancestors(parents@, remaining@, txid),
        package@.len() > 0,
        package@[0] == txid,
        parents_left_first(parents@, remaining@, txid) ==> children_first(parents@, package@),
{
    let ghost step = parent_step(parents@);
    let ghost universe = all_listed(parents@).insert(txid);
    let ghost mut walked: Seq<K> = Seq::empty();
    let mut package: Vec<K> = Vec::new();
    let mut seen: HashSet<K> = HashSet::new();
    let mut queue: Vec<K> = Vec::new();
    queue.push(txid);
    seen.insert(txid);
    proof {
        lemma_all_listed_finite(parents@, parents@.dom());
        lemma_search_start(step, txid);
        assert(queue@ =~= seq![txid]);
        assert(queue@[0] == txid);
    }
    while queue.len() > 0
        invariant
            obeys_key_model::<K>(),
            step == parent_step(parents@),
            universe == all_listed(parents@).insert(txid),
            universe.finite(),
            searching(step, txid, walked, queue@),
            expanded(step, walked, walked, queue@),
            forall|k: K| #[trigger] seen@.contains(k) <==> walked.contains(k) || queue@.contains(k),
            forall|k: K| #![auto] walked.contains(k) || queue@.contains(k) ==> universe.contains(k),
            forall|k: K| #[trigger] queue@.contains(k) && k != txid ==> listed_by(
                parents@,
                walked,
                k,
            ),
            package_so_far(parents@, remaining@, txid, walked, package@),
        decreases universe.len() - walked.len(),
    {
        let ghost walked0 = walked;
        let ghost queue0 = queue@;
        let ghost package0 = package@;
        let t: K = queue[queue.len() - 1];
        queue.pop();
        proof {
            assert(queue0.contains(t));
            lemma_search_pop(step, txid, walked0, queue0);
            assert(queue@ =~= queue0.drop_last());
            walked = walked.push(t);
            lemma_push_contains(walked0, t);
            lemma_listed_within(walked, universe);
            lemma_package_walk(parents@, remaining@, txid, walked0, package0, t);
        }
        proof {
            if package0.len() > 0 {
                assert(package0.contains(package0[0]));
            }
        }
        // An ancestor that has left is passed through, not counted.
        if package.is_empty() || remaining.contains(&t) {
            package.push(t);
        }
        if let Some(list) = parents.get(&t) {
            let ghost queue1 = queue@;
            let ghost seen1 = seen@;
            queue_unvisited(list, &mut seen, &mut queue);
            proof {
                let fresh = queue@.skip(queue1.len() as int);
                lemma_queue_relatives(
                    step,
                    (txid, t),
                    (walked0, walked),
                    queue1,
                    listed(parents@, t),
                    fresh,
                    (Set::empty(), seen1),
                );
            }
        }
        proof {
            assert forall|a: K, b: K| walked.contains(a) && #[trigger] step(a, b) implies walked.contains(
                b,
            ) || queue@.contains(b) by {
                assert(walked0.contains(a) || a == t);
            }
            assert forall|k: K| #![auto] walked.contains(k) || queue@.contains(k) implies universe.contains(
                k,
            ) by {
                assert(reaches(step, txid, k));
                lemma_closed_holds_reachable(step, universe, txid, k);
            }
            assert forall|k: K| #[trigger] queue@.contains(k) && k != txid implies listed_by(
                parents@,
                walked,
                k,
            ) by {
                if queue0.contains(k) {
                    let w = choose|w: K| walked0.contains(w) && #[trigger] listed(
                        parents@,
                        w,
                    ).contains(k);
                    assert(walked.contains(w));
                } else {
                    assert(walked.contains(t) && listed(parents@, t).contains(k));
                }
            }
        }
    }
    proof {
        assert(queue@ =~= Seq::empty());
        lemma_search_end(step, txid, walked);
        assert forall|k: K| package@.contains(k) <==> ancestors(
            parents@,
            remaining@,
            txid,
        ).contains(k) by {
            assert(walked.to_set().contains(k) <==> reach_set(step, txid).contains(k));
            lemma_reaches_self(step, txid);
        }
        assert(package@.to_set() =~= ancestors(parents@, remaining@, txid));
    }
    package
}

/// Something in `walked` lists `k` as a parent.
spec fn listed_by<K>(parents: Map<K, Vec<K>>, walked: Seq<K>, k: K) -> bool {
    exists|w: K| walked.contains(w) && #[trigger] listed(parents, w).contains(k)
}

/// The part of an ancestor package among the transactions that have been walked.
spec fn package_so_far<K>(
    parents: Map<K, Vec<K>>,
    remaining: Set<K>,
    txid: K,
    walked: Seq<K>,
    package: Seq<K>,
) -> bool {
    &&& package.no_duplicates()
    &&& forall|k: K| #[trigger]
        package.contains(k) <==> walked.contains(k) && (k == txid || remaining.contains(k))
    &&& walked.len() > 0 ==> package.len() > 0 && package[0] == txid
    &&& parents_left_first(parents, remaining, txid) ==> children_first(parents, package)
}

/// Walking on to `t` extends the package by it, where it belongs to it.
proof fn lemma_package_walk<K>(
    parents: Map<K, Vec<K>>,
    remaining: Set<K>,
    txid: K,
    walked: Seq<K>,
    package: Seq<K>,
    t: K,
)
    requires
        package_so_far(parents, remaining, txid, walked, package),
        !walked.contains(t),
        walked.len() == 0 ==> t == txid,
        walked.len() > 0 ==> t != txid && listed_by(parents, walked, t),
        forall|k: K| walked.contains(k) ==> #[trigger] reaches(parent_step(parents), txid, k),
    ensures
        package_so_far(
            parents,
            remaining,
            txid,
            walked.push(t),
            if t == txid || remaining.contains(t) {
                package.push(t)
            } else {
                package
            },
        ),
{
    lemma_push_contains(walked, t);
    if t == txid || remaining.contains(t) {
        let more = package.push(t);
        lemma_push_contains(package, t);
        assert(more.no_duplicates()) by {
            assert forall|i: int, j: int| 0 <= i < j < more.len() implies more[i] != more[j] by {
                if j == package.len() {
                    assert(package.contains(package[i]));
                }
            }
        }
        if walked.len() == 0 {
            if package.len() > 0 {
                assert(package.contains(package[0]));
            }
        } else if parents_left_first(parents, remaining, txid) {
            let w = choose|w: K| walked.contains(w) && #[trigger] listed(parents, w).contains(t);
            let step = parent_step(parents);
            lemma_reaches_self(step, w);
            assert(step(w, t));
            lemma_reaches_step(step, w, w, t);
            assert(reaches(step, txid, w) && reaches(step, w, t));
            assert(package.contains(w));
            let at = choose|at: int| 0 <= at < package.len() && package[at] == w;
            assert(children_first(parents, more)) by {
                assert forall|i: int| 0 < i < more.len() implies has_child_before(
                    parents,
                    more,
                    #[trigger] more[i],
                    i,
                ) by {
                    if i < package.len() {
                        assert(has_child_before(parents, package, package[i], i));
                        let j = choose|j: int|
                            0 <= j < i && j < package.len() && listed(
                                parents,
                                #[trigger] package[j],
                            ).contains(package[i]);
                        assert(listed(parents, more[j]).contains(more[i]));
                    } else {
                        assert(listed(parents, more[at]).contains(more[i]));
                    }
                }
            }
        }
    }
}

/// A step to a parent or a child that `visited` does not hold.
pub open spec fn relative_step<K>(
    parents: Map<K, Vec<K>>,
    children: Map<K, Vec<K>>,
    visited: Set<K>,
) -> spec_fn(K, K) -> bool {
    |a: K, b: K|
        (listed(parents, a).contains(b) || listed(children, a).contains(b)) && !visited.contains(b)
}

/// Collects the connected package that contains `start`, walking both parent
/// and child edges. Its members are added to `visited`, so that each package is
/// processed once.
pub fn collect_cluster<K: Copy + Eq + Hash>(
    start: K,
    parents: &HashMap<K, Vec<K>>,
    children: &HashMap<K, Vec<K>>,
    visited: &mut HashSet<K>,
) -> (cluster: Vec<K>)
    requires
        obeys_key_model::<K>(),
    ensures
        cluster@.no_duplicates(),
        cluster@.to_set() == reach_set(
            relative_step(parents@, children@, old(visited)@),
            start,
        ),
        cluster@.len() > 0,
        cluster@[0] == start,
        final(visited)@ == old(visited)@.union(cluster@.to_set()),
{
    let ghost visited0 = visited@;
    let ghost step = relative_step(parents@, children@, visited0);
    let ghost universe = all_listed(parents@).union(all_listed(children@)).insert(start);
    let mut cluster: Vec<K> = Vec::new();
    let mut queue: Vec<K> = Vec::new();
    queue.push(start);
    visited.insert(start);
    proof {
        lemma_all_listed_finite(parents@, parents@.dom());
        lemma_all_listed_finite(children@, children@.dom());
        lemma_search_start(step, start);
        assert(queue@ =~= seq![start]);
        assert(queue@[0] == start);
    }
    while queue.len() > 0
        invariant
            obeys_key_model::<K>(),
            step == relative_step(parents@, children@, visited0),
            universe == all_listed(parents@).union(all_listed(children@)).insert(start),
            universe.finite(),
            searching(step, start, cluster@, queue@),
            expanded(step, cluster@, cluster@, queue@),
            forall|k: K| #[trigger]
                visited@.contains(k) <==> visited0.contains(k) || cluster@.contains(k)
                    || queue@.contains(k),
            forall|k: K| #![auto] cluster@.contains(k) || queue@.contains(k) ==> universe.contains(k),
        decreases universe.len() - cluster@.len(),
    {
        let ghost cluster0 = cluster@;
        let ghost queue0 = queue@;
        let t: K = queue[queue.len() - 1];
        queue.pop();
        cluster.push(t);
        proof {
            lemma_search_pop(step, start, cluster0, queue0);
            assert(queue@ =~= queue0.drop_last());
            lemma_listed_within(cluster@, universe);
            assert(cluster@.last() == t);
            assert(cluster@.contains(t));
        }
        if let Some(list) = parents.get(&t) {
            let ghost queue1 = queue@;
            let ghost visited1 = visited@;
            queue_unvisited(list, visited, &mut queue);
            proof {
                let fresh = queue@.skip(queue1.len() as int);
                lemma_queue_relatives(
                    step,
                    (start, t),
                    (cluster0, cluster@),
                    queue1,
                    listed(parents@, t),
                    fresh,
                    (visited0, visited1),
                );
            }
        }
        if let Some(list) = children.get(&t) {
            let ghost queue1 = queue@;
            let ghost visited1 = visited@;
            queue_unvisited(list, visited, &mut queue);
            proof {
                let fresh = queue@.skip(queue1.len() as int);
                lemma_queue_relatives(
                    step,
                    (start, t),
                    (cluster0, cluster@),
                    queue1,
                    listed(children@, t),
                    fresh,
                    (visited0, visited1),
                );
            }
        }
        proof {
            assert forall|a: K, b: K|
                cluster@.contains(a) && #[trigger] step(a, b) implies cluster@.contains(b)
                || queue@.contains(b) by {
                lemma_push_contains(cluster0, t);
                assert(cluster0.contains(a) || a == t);
            }
            assert forall|k: K| #![auto]
                cluster@.contains(k) || queue@.contains(k) implies universe.contains(k) by {
                assert(reaches(step, start, k));
                lemma_closed_holds_reachable(step, universe, start, k);
            }
        }
    }
    proof {
        assert(queue@ =~= Seq::empty());
        lemma_search_end(step, start, cluster@);
        assert(visited@ =~= visited0.union(cluster@.to_set()));
    }
    cluster
}

/// Queueing the unvisited relatives of `t` keeps the state of the search for a
/// cluster, and all of those relatives have been found then.
proof fn lemma_queue_relatives<K>(
    step: spec_fn(K, K) -> bool,
    nodes: (K, K),
    done: (Seq<K>, Seq<K>),
    queue: Seq<K>,
    list: Seq<K>,
    fresh: Seq<K>,
    visited: (Set<K>, Set<K>),
)
    requires
        searching(step, nodes.0, done.1, queue),
        expanded(step, done.0, done.1, queue),
        done.1.contains(nodes.1),
        is_unvisited(list, visited.1, fresh),
        forall|k: K| #[trigger]
            visited.1.contains(k) <==> visited.0.contains(k) || done.1.contains(k)
                || queue.contains(k),
        forall|b: K| #[trigger]
            list.contains(b) && !visited.0.contains(b) ==> step(nodes.1, b),
    ensures
        searching(step, nodes.0, done.1, queue + fresh),
        expanded(step, done.0, done.1, queue + fresh),
        forall|x: K| (queue + fresh).contains(x) <==> queue.contains(x) || fresh.contains(x),
        forall|k: K| #[trigger]
            visited.1.union(list.to_set()).contains(k) <==> visited.0.contains(k)
                || done.1.contains(k) || (queue + fresh).contains(k),
        forall|b: K| #[trigger]
            list.contains(b) && !visited.0.contains(b) ==> done.1.contains(b) || (queue
                + fresh).contains(b),
{
    assert forall|k: K| #[trigger] fresh.contains(k) implies !done.1.contains(k)
        && !queue.contains(k) && reaches(step, nodes.0, k) by {
        assert(!visited.1.contains(k));
        assert(step(nodes.1, k));
        lemma_reaches_step(step, nodes.0, nodes.1, k);
    }
    lemma_search_extend(step, nodes.0, done.1, queue, done.0, fresh);
    assert forall|k: K| #[trigger]
        visited.1.union(list.to_set()).contains(k) implies visited.0.contains(k)
        || done.1.contains(k) || (queue + fresh).contains(k) by {
        if !visited.1.contains(k) {
            assert(list.contains(k));
            assert(fresh.contains(k));
        }
    }
    assert forall|b: K| #[trigger] list.contains(b) && !visited.0.contains(b) implies done.1.contains(
        b,
    ) || (queue + fresh).contains(b) by {
        assert(visited.1.union(list.to_set()).contains(b));
    }
}

/// The items of `list` that `visited` does not hold, each once.
pub open spec fn is_unvisited<K>(list: Seq<K>, visited: Set<K>, fresh: Seq<K>) -> bool {
    &&& fresh.no_duplicates()
    &&& forall|k: K| #[trigger] fresh.contains(k) <==> list.contains(k) && !visited.contains(k)
}

/// Appends to `queue` what `list` holds and `visited` does not, and marks it.
fn queue_unvisited<K: Copy + Eq + Hash>(
    list: &Vec<K>,
    visited: &mut HashSet<K>,
    queue: &mut Vec<K>,
)
    requires
        obeys_key_model::<K>(),
    ensures
        final(queue)@.len() >= old(queue)@.len(),
        final(queue)@ == old(queue)@ + final(queue)@.skip(old(queue)@.len() as int),
        is_unvisited(list@, old(visited)@, final(queue)@.skip(old(queue)@.len() as int)),
        final(visited)@ == old(visited)@.union(list@.to_set()),
{
    let ghost visited0 = visited@;
    let ghost queue0 = queue@;
    let ghost mut fresh: Seq<K> = Seq::empty();
    assert(list@.take(0).to_set() =~= Set::<K>::empty());
    assert(visited@ =~= visited0.union(list@.take(0).to_set()));
    assert(queue@ =~= queue0 + fresh);
    let mut i: usize = 0;
    while i < list.len()
        invariant
            obeys_key_model::<K>(),
            i <= list@.len(),
            queue@ == queue0 + fresh,
            is_unvisited(list@.take(i as int), visited0, fresh),
            visited@ == visited0.union(list@.take(i as int).to_set()),
        decreases list@.len() - i,
    {
        let k: K = list[i];
        let ghost before = list@.take(i as int);
        let ghost after = list@.take(i + 1);
        proof {
            assert(after =~= before.push(k));
            lemma_push_contains(before, k);
        }
        if visited.insert(k) {
            proof {
                assert(!before.contains(k));
                lemma_push_contains(fresh, k);
                assert forall|a: int, b: int| 0 <= a < b < fresh.push(k).len() implies fresh.push(
                    k,
                )[a] != fresh.push(k)[b] by {
                    if b == fresh.len() {
                        assert(fresh.contains(fresh[a]));
                    }
                }
                assert((queue0 + fresh).push(k) =~= queue0 + fresh.push(k));
                fresh = fresh.push(k);
            }
            queue.push(k);
        }
        proof {
            assert(visited@ =~= visited0.union(after.to_set()));
        }
        i = i + 1;
    }
    proof {
        assert(list@.take(list@.len() as int) =~= list@);
        assert(queue@.skip(queue0.len() as int) =~= fresh);
    }
}

/// What a sequence holds after a push.
proof fn lemma_push_contains<K>(s: Seq<K>, k: K)
    ensures
        forall|x: K| #[trigger] s.push(k).contains(x) <==> s.contains(x) || x == k,
{
    assert forall|x: K| #[trigger] s.push(k).contains(x) <==> s.contains(x) || x == k by {
        if s.contains(x) {
            let i = choose|i: int| 0 <= i < s.len() && s[i] == x;
            assert(s.push(k)[i] == x);
        }
        if x == k {
            assert(s.push(k)[s.len() as int] == x);
        }
    }
}

/// Everything that `links` lists for some key.
spec fn all_listed<K>(links: Map<K, Vec<K>>) -> Set<K> {
    listed_under(links, links.dom())
}

/// Everything that `links` lists for a key in `keys`.
spec fn listed_under<K>(links: Map<K, Vec<K>>, keys: Set<K>) -> Set<K> {
    Set::new(|b: K| exists|a: K| keys.contains(a) && #[trigger] listed(links, a).contains(b))
}

/// Lists for finitely many keys hold finitely many items.
proof fn lemma_all_listed_finite<K>(links: Map<K, Vec<K>>, keys: Set<K>)
    requires
        keys.finite(),
    ensures
        listed_under(links, keys).finite(),
    decreases keys.len(),
{
    if keys.is_empty() {
        assert(listed_under(links, keys) =~= Set::empty());
    } else {
        let a = keys.choose();
        lemma_all_listed_finite(links, keys.remove(a));
        vstd::seq_lib::seq_to_set_is_finite(listed(links, a));
        assert(listed_under(links, keys) =~= listed_under(links, keys.remove(a)).union(
            listed(links, a).to_set(),
        )) by {
            assert forall|b: K| listed_under(links, keys).contains(b) implies listed_under(
                links,
                keys.remove(a),
            ).contains(b) || listed(links, a).contains(b) by {
                let c = choose|c: K| keys.contains(c) && #[trigger] listed(links, c).contains(b);
                if c != a {
                    assert(keys.remove(a).contains(c));
                }
            }
        }
    }
}

/// The fee of a transaction.
pub open spec fn fee_of<K>(entries: Map<K, TxFeeInfo>) -> spec_fn(K) -> nat {
    |k: K| entries[k].fee as nat
}

/// The virtual size of a transaction.
pub open spec fn vsize_of<K>(entries: Map<K, TxFeeInfo>) -> spec_fn(K) -> nat {
    |k: K| entries[k].vsize as nat
}

/// The aggregate feerate of a set of transactions.
pub open spec fn set_rate<K>(entries: Map<K, TxFeeInfo>, s: Set<K>) -> int {
    FeeRate::of(total(fee_of(entries), s), total(vsize_of(entries), s))
}

/// `chunk` lists an ancestor package within `remaining` that takes up space, and
/// no transaction in `remaining` has such a package with a higher aggregate
/// feerate.
pub open spec fn is_best_package<K>(
    entries: Map<K, TxFeeInfo>,
    parents: Map<K, Vec<K>>,
    remaining: Set<K>,
    chunk: Seq<K>,
) -> bool {
    &&& chunk.len() > 0
    &&& chunk.no_duplicates()
    &&& remaining.contains(chunk[0])
    &&& chunk.to_set() == ancestors(parents, remaining, chunk[0])
    &&& total(vsize_of(entries), chunk.to_set()) > 0
    &&& forall|t: K| #[trigger]
        remaining.contains(t) && total(vsize_of(entries), ancestors(parents, remaining, t)) > 0
            ==> set_rate(entries, ancestors(parents, remaining, t)) <= set_rate(
            entries,
            chunk.to_set(),
        )
}

/// What is left of `cluster` once the chunks have been mined.
pub open spec fn left_after<K>(cluster: Set<K>, chunks: Seq<Seq<K>>) -> Set<K>
    decreases chunks.len(),
{
    if chunks.len() == 0 {
        cluster
    } else {
        left_after(cluster, chunks.drop_last()).difference(chunks.last().to_set())
    }
}

/// Each chunk is the best package of what the earlier ones have left.
pub open spec fn mined_in_order<K>(
    entries: Map<K, TxFeeInfo>,
    parents: Map<K, Vec<K>>,
    cluster: Set<K>,
    chunks: Seq<Seq<K>>,
) -> bool
    decreases chunks.len(),
{
    chunks.len() > 0 ==> {
        &&& mined_in_order(entries, parents, cluster, chunks.drop_last())
        &&& is_best_package(
            entries,
            parents,
            left_after(cluster, chunks.drop_last()),
            chunks.last(),
        )
    }
}

/// The members of a chunk, each at the feerate of the whole.
pub open spec fn chunk_rates<K>(entries: Map<K, TxFeeInfo>, chunk: Seq<K>) -> Seq<(FeeRate, u64)> {
    let rate = FeeRate { bits: set_rate(entries, chunk.to_set()) as u64 };
    Seq::new(chunk.len(), |i: int| (rate, entries[chunk[i]].vsize))
}

/// The members of all chunks, one chunk after the other.
pub open spec fn mined_rates<K>(entries: Map<K, TxFeeInfo>, chunks: Seq<Seq<K>>) -> Seq<
    (FeeRate, u64),
>
    decreases chunks.len(),
{
    if chunks.len() == 0 {
        Seq::empty()
    } else {
        mined_rates(entries, chunks.drop_last()) + chunk_rates(entries, chunks.last())
    }
}

/// `chunks` take `cluster` apart, best package first.
pub open spec fn mines_out<K>(
    entries: Map<K, TxFeeInfo>,
    parents: Map<K, Vec<K>>,
    cluster: Set<K>,
    chunks: Seq<Seq<K>>,
) -> bool {
    &&& mined_in_order(entries, parents, cluster, chunks)
    &&& left_after(cluster, chunks).is_empty()
}

/// Some transaction of `s` takes up space.
pub open spec fn has_size<K>(entries: Map<K, TxFeeInfo>, s: Set<K>) -> bool {
    exists|t: K| #[trigger] s.contains(t) && entries[t].vsize > 0
}

/// However far `cluster` has been mined, best package first, what is left of it
/// takes up space: a next package can be picked until nothing is left.
pub open spec fn never_stuck<K>(
    entries: Map<K, TxFeeInfo>,
    parents: Map<K, Vec<K>>,
    cluster: Set<K>,
) -> bool {
    forall|chunks: Seq<Seq<K>>| #[trigger]
        mined_in_order(entries, parents, cluster, chunks) ==> left_after(cluster, chunks).is_empty()
            || has_size(entries, left_after(cluster, chunks))
}

/// Where every transaction takes up space, a cluster can be mined to the end.
pub proof fn lemma_never_stuck<K>(
    entries: Map<K, TxFeeInfo>,
    parents: Map<K, Vec<K>>,
    cluster: Set<K>,
)
    requires
        forall|k: K| #[trigger] cluster.contains(k) ==> entries[k].vsize > 0,
    ensures
        never_stuck(entries, parents, cluster),
{
    assert forall|chunks: Seq<Seq<K>>| #[trigger]
        mined_in_order(entries, parents, cluster, chunks) implies left_after(
        cluster,
        chunks,
    ).is_empty() || has_size(entries, left_after(cluster, chunks)) by {
        let left = left_after(cluster, chunks);
        lemma_left_within(cluster, chunks);
        if !left.is_empty() {
            assert(left.contains(left.choose()));
        }
    }
}

/// What is left of a cluster is part of it.
pub proof fn lemma_left_within<K>(cluster: Set<K>, chunks: Seq<Seq<K>>)
    ensures
        left_after(cluster, chunks).subset_of(cluster),
    decreases chunks.len(),
{
    if chunks.len() > 0 {
        lemma_left_within(cluster, chunks.drop_last());
    }
}

/// The fee data of a set of transactions is present, and adds up within 64 bits.
pub open spec fn addable<K>(entries: Map<K, TxFeeInfo>, s: Set<K>) -> bool {
    &&& forall|k: K| #[trigger] s.contains(k) ==> entries.contains_key(k)
    &&& total(fee_of(entries), s) <= u64::MAX
    &&& total(vsize_of(entries), s) <= u64::MAX
}

/// The ancestor package of each transaction in `s` can be added up.
pub open spec fn addable_packages<K>(
    entries: Map<K, TxFeeInfo>,
    parents: Map<K, Vec<K>>,
    s: Set<K>,
) -> bool {
    forall|t: K| #[trigger] s.contains(t) ==> addable(entries, ancestors(parents, s, t))
}

/// Resolves effective feerates within a single connected package by repeatedly
/// mining the sub-package with the best remaining ancestor feerate.
pub fn chunk_cluster<K: Copy + Eq + Hash>(
    cluster: &[K],
    entries: &HashMap<K, TxFeeInfo>,
    parents: &HashMap<K, Vec<K>>,
    result: &mut Vec<(FeeRate, u64)>,
)
    requires
        obeys_key_model::<K>(),
        addable_packages(entries@, parents@, cluster@.to_set()),
        never_stuck(entries@, parents@, cluster@.to_set()),
    ensures
        exists|chunks: Seq<Seq<K>>| #[trigger]
            mines_out(entries@, parents@, cluster@.to_set(), chunks) && final(result)@ == old(
                result,
            )@ + mined_rates(entries@, chunks),
        forall|i: int|
            old(result)@.len() <= i < final(result)@.len() ==> (
            #[trigger] final(result)@[i]).0.wf(),
{
    let ghost result0 = result@;
    let ghost whole = cluster@.to_set();
    let mut remaining: HashSet<K> = HashSet::new();
    let mut i: usize = 0;
    assert(cluster@.take(0).to_set() =~= Set::<K>::empty());
    while i < cluster.len()
        invariant
            obeys_key_model::<K>(),
            i <= cluster@.len(),
            remaining@ == cluster@.take(i as int).to_set(),
        decreases cluster@.len() - i,
    {
        let k: K = cluster[i];
        remaining.insert(k);
        proof {
            lemma_push_contains(cluster@.take(i as int), k);
            assert(cluster@.take(i + 1) =~= cluster@.take(i as int).push(k));
            assert(remaining@ =~= cluster@.take(i + 1).to_set());
        }
        i = i + 1;
    }
    let ghost mut chunks: Seq<Seq<K>> = Seq::empty();
    proof {
        assert(cluster@.take(cluster@.len() as int) =~= cluster@);
        vstd::seq_lib::seq_to_set_is_finite(cluster@);
        assert(result@ =~= result0 + mined_rates(entries@, chunks));
    }
    while !remaining.is_empty()
        invariant
            obeys_key_model::<K>(),
            addable_packages(entries@, parents@, whole),
            never_stuck(entries@, parents@, whole),
            whole.finite(),
            remaining@.subset_of(whole),
            remaining@ == left_after(whole, chunks),
            mined_in_order(entries@, parents@, whole, chunks),
            result@ == result0 + mined_rates(entries@, chunks),
            forall|i: int|
                result0.len() <= i < result@.len() ==> (#[trigger] result@[i]).0.wf(),
        decreases remaining@.len(),
    {
        let ghost left = remaining@;
        proof {
            lemma_addable_packages_subset(entries@, parents@, remaining@, whole);
        }
        let (rate, package): (FeeRate, Vec<K>) = best_package(entries, parents, &remaining);
        let ghost before = result@;
        let mut i: usize = 0;
        while i < package.len()
            invariant
                obeys_key_model::<K>(),
                i <= package@.len(),
                forall|k: K| #[trigger] package@.contains(k) ==> entries@.contains_key(k),
                rate.wf(),
                rate.bits == set_rate(entries@, package@.to_set()),
                remaining@ == left.difference(package@.take(i as int).to_set()),
                result@ == before + chunk_rates(entries@, package@).take(i as int),
                forall|i: int|
                    result0.len() <= i < result@.len() ==> (#[trigger] result@[i]).0.wf(),
            decreases package@.len() - i,
        {
            let t: K = package[i];
            assert(package@.contains(t));
            let info: &TxFeeInfo = entries.get(&t).unwrap();
            result.push((rate, info.vsize));
            remaining.remove(&t);
            proof {
                lemma_push_contains(package@.take(i as int), t);
                assert(package@.take(i + 1) =~= package@.take(i as int).push(t));
                assert(remaining@ =~= left.difference(package@.take(i + 1).to_set()));
                assert(chunk_rates(entries@, package@).take(i + 1) =~= chunk_rates(
                    entries@,
                    package@,
                ).take(i as int).push((rate, info.vsize)));
                assert(result@ =~= before + chunk_rates(entries@, package@).take(i + 1));
            }
            i = i + 1;
        }
        proof {
            let more = chunks.push(package@);
            assert(more.drop_last() =~= chunks);
            assert(package@.take(package@.len() as int) =~= package@);
            assert(chunk_rates(entries@, package@).take(package@.len() as int) =~= chunk_rates(
                entries@,
                package@,
            ));
            assert(result@ =~= result0 + mined_rates(entries@, more));
            assert(package@.contains(package@[0]));
            assert(left.contains(package@[0]) && !remaining@.contains(package@[0]));
            vstd::set_lib::lemma_set_subset_finite(whole, left);
            vstd::set_lib::lemma_len_subset(remaining@, left.remove(package@[0]));
            chunks = more;
        }
    }
    assert(mines_out(entries@, parents@, whole, chunks));
}

/// The sub-package with the highest aggregate feerate, and that feerate.
fn best_package<K: Copy + Eq + Hash>(
    entries: &HashMap<K, TxFeeInfo>,
    parents: &HashMap<K, Vec<K>>,
    remaining: &HashSet<K>,
) -> (r: (FeeRate, Vec<K>))
    requires
        obeys_key_model::<K>(),
        addable_packages(entries@, parents@, remaining@),
        has_size(entries@, remaining@),
    ensures
        is_best_package(entries@, parents@, remaining@, r.1@),
        r.0.wf(),
        r.0.bits == set_rate(entries@, r.1@.to_set()),
        forall|k: K| #[trigger]
            r.1@.contains(k) ==> remaining@.contains(k) && entries@.contains_key(k),
{
    let mut best: Option<(FeeRate, Vec<K>)> = None;
    for txid in it: remaining.iter()
        invariant
            obeys_key_model::<K>(),
            addable_packages(entries@, parents@, remaining@),
            it.seq().unref().to_set() == remaining@,
            best is None ==> forall|j: int|
                0 <= j < it.index() ==> total(
                    vsize_of(entries@),
                    ancestors(parents@, remaining@, *#[trigger] it.seq()[j]),
                ) == 0,
            best matches Some(b) ==> {
                &&& b.1@.len() > 0
                &&& b.1@.no_duplicates()
                &&& remaining@.contains(b.1@[0])
                &&& b.1@.to_set() == ancestors(parents@, remaining@, b.1@[0])
                &&& total(vsize_of(entries@), b.1@.to_set()) > 0
                &&& b.0.wf()
                &&& b.0.bits == set_rate(entries@, b.1@.to_set())
                &&& forall|j: int|
                    0 <= j < it.index() && total(
                        vsize_of(entries@),
                        ancestors(parents@, remaining@, *#[trigger] it.seq()[j]),
                    ) > 0 ==> set_rate(
                        entries@,
                        ancestors(parents@, remaining@, *it.seq()[j]),
                    ) <= b.0.bits
            },
    {
        let t: K = *txid;
        let package: Vec<K> = ancestor_package(t, parents, remaining);
        proof {
            assert(t == *it.seq()[it.index() as int]);
            assert(it.seq().unref()[it.index() as int] == t);
            assert(it.seq().unref().contains(t));
            assert(remaining@.contains(t));
            vstd::seq_lib::seq_to_set_is_finite(package@);
        }
        let (fee, vsize): (u64, u64) = package_totals(entries, &package);
        if vsize > 0 {
            let rate: FeeRate = FeeRate::new(fee, vsize);
            let better: bool = match &best {
                None => true,
                Some(b) => rate.bits > b.0.bits,
            };
            if better {
                best = Some((rate, package));
            }
        }
    }
    proof {
        let t = choose|t: K| #[trigger] remaining@.contains(t) && entries@[t].vsize > 0;
        let package = ancestors(parents@, remaining@, t);
        lemma_hash_set_finite(*remaining);
        lemma_ancestors_within(parents@, remaining@, t);
        vstd::set_lib::lemma_set_subset_finite(remaining@, package);
        lemma_total_remove(vsize_of(entries@), package, t);
    }
    let found: (FeeRate, Vec<K>) = best.unwrap();
    proof {
        lemma_ancestors_within(parents@, remaining@, found.1@[0]);
        assert forall|k: K| #[trigger] found.1@.contains(k) implies remaining@.contains(k)
            && entries@.contains_key(k) by {
            assert(found.1@.to_set().contains(k));
        }
    }
    found
}

/// The fees and the virtual sizes of the transactions that `package` lists,
/// added up.
fn package_totals<K: Copy + Eq + Hash>(
    entries: &HashMap<K, TxFeeInfo>,
    package: &Vec<K>,
) -> (r: (u64, u64))
    requires
        obeys_key_model::<K>(),
        package@.no_duplicates(),
        addable(entries@, package@.to_set()),
    ensures
        r.0 == total(fee_of(entries@), package@.to_set()),
        r.1 == total(vsize_of(entries@), package@.to_set()),
{
    let mut fee: u64 = 0;
    let mut vsize: u64 = 0;
    let mut i: usize = 0;
    while i < package.len()
        invariant
            obeys_key_model::<K>(),
            package@.no_duplicates(),
            addable(entries@, package@.to_set()),
            i <= package@.len(),
            fee == seq_total(fee_of(entries@), package@.take(i as int)),
            vsize == seq_total(vsize_of(entries@), package@.take(i as int)),
        decreases package@.len() - i,
    {
        let t: K = package[i];
        assert(package@.contains(t));
        assert(package@.to_set().contains(t));
        let info: &TxFeeInfo = entries.get(&t).unwrap();
        proof {
            let next = package@.take(i + 1);
            assert(next.drop_last() =~= package@.take(i as int));
            assert forall|k: K| next.to_set().contains(k) implies package@.to_set().contains(k) by {
                let j = choose|j: int| 0 <= j < next.len() && next[j] == k;
                assert(package@[j] == k);
            }
            lemma_seq_total(fee_of(entries@), next);
            lemma_seq_total(vsize_of(entries@), next);
            lemma_total_subset(fee_of(entries@), next.to_set(), package@.to_set());
            lemma_total_subset(vsize_of(entries@), next.to_set(), package@.to_set());
        }
        fee = fee + info.fee;
        vsize = vsize + info.vsize;
        i = i + 1;
    }
    proof {
        assert(package@.take(package@.len() as int) =~= package@);
        lemma_seq_total(fee_of(entries@), package@);
        lemma_seq_total(vsize_of(entries@), package@);
    }
    (fee, vsize)
}

/// The ancestor package of a member of a set lies in that set.
pub proof fn lemma_ancestors_within<K>(parents: Map<K, Vec<K>>, remaining: Set<K>, t: K)
    requires
        remaining.contains(t),
    ensures
        ancestors(parents, remaining, t).subset_of(remaining),
{
}

/// Packages within a set are no larger than those within a larger one.
proof fn lemma_addable_packages_subset<K>(
    entries: Map<K, TxFeeInfo>,
    parents: Map<K, Vec<K>>,
    small: Set<K>,
    large: Set<K>,
)
    requires
        large.finite(),
        small.subset_of(large),
        forall|t: K| #[trigger]
            small.contains(t) ==> addable(entries, ancestors(parents, large, t)),
    ensures
        addable_packages(entries, parents, small),
{
    assert forall|t: K| #[trigger] small.contains(t) implies addable(
        entries,
        ancestors(parents, small, t),
    ) by {
        let a = ancestors(parents, small, t);
        let b = ancestors(parents, large, t);
        lemma_ancestors_within(parents, large, t);
        vstd::set_lib::lemma_set_subset_finite(large, b);
        lemma_total_subset(fee_of(entries), a, b);
        lemma_total_subset(vsize_of(entries), a, b);
    }
}

/// One of the two transactions spends an output of the other.
pub open spec fn related<K>(parents: Map<K, Vec<K>>) -> spec_fn(K, K) -> bool {
    |a: K, b: K| listed(parents, a).contains(b) || listed(parents, b).contains(a)
}

/// The connected package that contains `t`.
pub open spec fn component<K>(parents: Map<K, Vec<K>>, t: K) -> Set<K> {
    reach_set(related(parents), t)
}

/// `t` has neither parents nor children.
pub open spec fn is_lone<K>(parents: Map<K, Vec<K>>, t: K) -> bool {
    forall|b: K| !(#[trigger] related(parents)(t, b))
}

/// A connected package, by one of its members, and the chunks that take it apart.
pub struct Group<K> {
    pub start: K,
    pub chunks: Seq<Seq<K>>,
}

/// A package of more than one transaction is mined best sub-package first.
pub open spec fn is_group<K>(
    entries: Map<K, TxFeeInfo>,
    parents: Map<K, Vec<K>>,
    group: Group<K>,
) -> bool {
    &&& entries.contains_key(group.start)
    &&& !is_lone(parents, group.start) ==> mines_out(
        entries,
        parents,
        component(parents, group.start),
        group.chunks,
    )
}

/// The effective feerates within a package: a lone transaction keeps its own.
pub open spec fn group_rates<K>(
    entries: Map<K, TxFeeInfo>,
    parents: Map<K, Vec<K>>,
    group: Group<K>,
) -> Seq<(FeeRate, u64)> {
    if is_lone(parents, group.start) {
        let own = entries[group.start];
        seq![(own.fee_per_vbyte, own.vsize)]
    } else {
        mined_rates(entries, group.chunks)
    }
}

/// The effective feerates of several packages, one package after the other.
pub open spec fn grouped_rates<K>(
    entries: Map<K, TxFeeInfo>,
    parents: Map<K, Vec<K>>,
    groups: Seq<Group<K>>,
) -> Seq<(FeeRate, u64)>
    decreases groups.len(),
{
    if groups.len() == 0 {
        Seq::empty()
    } else {
        grouped_rates(entries, parents, groups.drop_last()) + group_rates(
            entries,
            parents,
            groups.last(),
        )
    }
}

/// Some group holds `k`.
pub open spec fn in_groups<K>(parents: Map<K, Vec<K>>, groups: Seq<Group<K>>, k: K) -> bool {
    exists|i: int|
        0 <= i < groups.len() && component(parents, (#[trigger] groups[i]).start).contains(k)
}

/// Separate groups, each a connected package.
pub open spec fn are_groups<K>(
    entries: Map<K, TxFeeInfo>,
    parents: Map<K, Vec<K>>,
    groups: Seq<Group<K>>,
) -> bool {
    &&& forall|i: int|
        0 <= i < groups.len() ==> is_group(entries, parents, #[trigger] groups[i])
    &&& forall|i: int, j: int|
        0 <= i < j < groups.len() ==> component(
            parents,
            (#[trigger] groups[i]).start,
        ).disjoint(component(parents, (#[trigger] groups[j]).start))
}

/// Each transaction of `entries` is in one of separate groups.
#[verifier::opaque]
pub open spec fn is_grouping<K>(
    entries: Map<K, TxFeeInfo>,
    parents: Map<K, Vec<K>>,
    groups: Seq<Group<K>>,
) -> bool {
    &&& are_groups(entries, parents, groups)
    &&& forall|k: K| #[trigger] entries.contains_key(k) ==> in_groups(parents, groups, k)
}

/// `entries` holds, with each transaction, the whole package that it is in.
pub open spec fn holds_packages<K>(
    entries: Map<K, TxFeeInfo>,
    parents: Map<K, Vec<K>>,
) -> bool {
    forall|a: K, b: K| #[trigger]
        related(parents)(a, b) && entries.contains_key(a) ==> entries.contains_key(b)
}

/// Each transaction that has relatives heads a package that can be added up.
pub open spec fn addable_relatives<K>(
    entries: Map<K, TxFeeInfo>,
    parents: Map<K, Vec<K>>,
) -> bool {
    forall|t: K| #[trigger]
        entries.contains_key(t) && !is_lone(parents, t) ==> addable(
            entries,
            ancestors(parents, entries.dom(), t),
        )
}

/// The package of each transaction that has relatives can be mined to the end.
pub open spec fn minable_relatives<K>(
    entries: Map<K, TxFeeInfo>,
    parents: Map<K, Vec<K>>,
) -> bool {
    forall|t: K| #[trigger]
        entries.contains_key(t) && !is_lone(parents, t) ==> never_stuck(
            entries,
            parents,
            component(parents, t),
        )
}

/// Where every transaction takes up space, the packages of all can be mined to the
/// end.
pub proof fn lemma_minable<K>(entries: Map<K, TxFeeInfo>, parents: Map<K, Vec<K>>)
    requires
        holds_packages(entries, parents),
        forall|k: K| #[trigger] entries.contains_key(k) ==> entries[k].vsize > 0,
    ensures
        minable_relatives(entries, parents),
{
    assert forall|t: K| #[trigger]
        entries.contains_key(t) && !is_lone(parents, t) implies never_stuck(
        entries,
        parents,
        component(parents, t),
    ) by {
        let cluster = component(parents, t);
        assert forall|k: K| #[trigger] cluster.contains(k) implies entries[k].vsize > 0 by {
            lemma_closed_holds_reachable(related(parents), entries.dom(), t, k);
            assert(entries.contains_key(k));
        }
        lemma_never_stuck(entries, parents, cluster);
    }
}

/// Each transaction has a feerate that is a finite number.
pub open spec fn finite_rates<K>(entries: Map<K, TxFeeInfo>) -> bool {
    forall|k: K| #[trigger] entries.contains_key(k) ==> entries[k].fee_per_vbyte.wf()
}

/// Assigns every transaction an effective (package-aware) feerate, returned as
/// `(effective_feerate, vsize)` pairs.
///
/// Transactions with no in-mempool relatives keep their own feerate. The rest
/// are split into connected packages and resolved per package by greedily
/// selecting the sub-package with the best ancestor feerate and assigning each
/// of its members that package feerate. The order of the packages is left open.
pub fn effective_feerates<K: Copy + Eq + Hash>(
    entries: &HashMap<K, TxFeeInfo>,
    parents: &HashMap<K, Vec<K>>,
) -> (result: Vec<(FeeRate, u64)>)
    requires
        obeys_key_model::<K>(),
        addable_relatives(entries@, parents@),
        holds_packages(entries@, parents@),
        minable_relatives(entries@, parents@),
    ensures
        exists|groups: Seq<Group<K>>| #[trigger]
            is_grouping(entries@, parents@, groups) && result@ == grouped_rates(
                entries@,
                parents@,
                groups,
            ),
        finite_rates(entries@) ==> forall|i: int|
            0 <= i < result@.len() ==> (#[trigger] result@[i]).0.wf(),
{
    let children: HashMap<K, Vec<K>> = invert(parents);
    let mut result: Vec<(FeeRate, u64)> = Vec::new();
    let mut visited: HashSet<K> = HashSet::new();
    let ghost mut groups: Seq<Group<K>> = Seq::empty();
    assert(result@ =~= grouped_rates(entries@, parents@, groups));
    for pair in it: entries.iter()
        invariant
            obeys_key_model::<K>(),
            addable_relatives(entries@, parents@),
            holds_packages(entries@, parents@),
            minable_relatives(entries@, parents@),
            inverts(parents@, children@),
            it.seq() == vstd::std_specs::hash::spec_hash_map_iter(entries).remaining(),
            are_groups(entries@, parents@, groups),
            result@ == grouped_rates(entries@, parents@, groups),
            finite_rates(entries@) ==> forall|i: int|
                0 <= i < result@.len() ==> (#[trigger] result@[i]).0.wf(),
            forall|k: K| #[trigger] visited@.contains(k) <==> in_groups(parents@, groups, k),
            forall|j: int| 0 <= j < it.index() ==> visited@.contains(*(#[trigger] it.seq()[j]).0),
    {
        let txid: K = *pair.0;
        let feeinfo: &TxFeeInfo = pair.1;
        if !visited.contains(&txid) {
            let has_parents: bool = match parents.get(&txid) {
                Some(list) => list.len() > 0,
                None => false,
            };
            let has_children: bool = match children.get(&txid) {
                Some(list) => list.len() > 0,
                None => false,
            };
            let ghost visited0 = visited@;
            let ghost group: Group<K>;
            proof {
                assert(entries@.contains_key(*it.seq()[it.index() as int].0));
                assert forall|a: K, b: K|
                    visited@.contains(a) && #[trigger] related(parents@)(a, b) implies visited@.contains(
                    b,
                ) by {
                    lemma_groups_closed(parents@, groups, a, b);
                }
                lemma_component(parents@, children@, visited@, txid);
                lemma_lone(parents@, children@, txid);
            }
            if !has_parents && !has_children {
                // Singleton: not part of any package, mined at its own feerate.
                visited.insert(txid);
                result.push((feeinfo.fee_per_vbyte, feeinfo.vsize));
                proof {
                    group = Group { start: txid, chunks: Seq::empty() };
                }
            } else {
                let cluster: Vec<K> = collect_cluster(txid, parents, &children, &mut visited);
                let ghost result0 = result@;
                proof {
                    assert forall|k: K| component(parents@, txid).contains(k) implies entries@.contains_key(
                        k,
                    ) by {
                        lemma_closed_holds_reachable(related(parents@), entries@.dom(), txid, k);
                    }
                    assert forall|t: K| #[trigger] cluster@.to_set().contains(t) implies addable(
                        entries@,
                        ancestors(parents@, entries@.dom(), t),
                    ) by {
                        lemma_component_not_lone(parents@, txid, t);
                    }
                    lemma_addable_packages_subset(
                        entries@,
                        parents@,
                        cluster@.to_set(),
                        entries@.dom(),
                    );
                }
                chunk_cluster(cluster.as_slice(), entries, parents, &mut result);
                proof {
                    let chunks = choose|chunks: Seq<Seq<K>>| #[trigger]
                        mines_out(entries@, parents@, cluster@.to_set(), chunks) && result@
                            == result0 + mined_rates(entries@, chunks);
                    group = Group { start: txid, chunks };
                }
            }
            proof {
                let more = groups.push(group);
                assert(more.drop_last() =~= groups);
                lemma_groups_push(entries@, parents@, groups, group);
                assert(result@ =~= grouped_rates(entries@, parents@, more));
                lemma_reaches_self(related(parents@), txid);
                groups = more;
            }
        }
    }
    proof {
        assert forall|k: K| #[trigger] entries@.contains_key(k) implies in_groups(
            parents@,
            groups,
            k,
        ) by {
            assert(visited@.contains(k));
        }
        reveal(is_grouping);
        assert(is_grouping(entries@, parents@, groups));
    }
    result
}

/// The groups hold, with each transaction, all of its relatives.
proof fn lemma_groups_closed<K>(parents: Map<K, Vec<K>>, groups: Seq<Group<K>>, a: K, b: K)
    requires
        in_groups(parents, groups, a),
        related(parents)(a, b),
    ensures
        in_groups(parents, groups, b),
{
    let i = choose|i: int|
        0 <= i < groups.len() && component(parents, (#[trigger] groups[i]).start).contains(a);
    lemma_reaches_step(related(parents), groups[i].start, a, b);
    assert(component(parents, groups[i].start).contains(b));
}

/// Adding a group that is separate from the others.
pub proof fn lemma_groups_push<K>(
    entries: Map<K, TxFeeInfo>,
    parents: Map<K, Vec<K>>,
    groups: Seq<Group<K>>,
    group: Group<K>,
)
    requires
        are_groups(entries, parents, groups),
        is_group(entries, parents, group),
        forall|k: K|
            component(parents, group.start).contains(k) ==> !(#[trigger] in_groups(
                parents,
                groups,
                k,
            )),
    ensures
        are_groups(entries, parents, groups.push(group)),
        forall|k: K| #[trigger]
            in_groups(parents, groups.push(group), k) <==> in_groups(parents, groups, k)
                || component(parents, group.start).contains(k),
{
    let more = groups.push(group);
    assert forall|k: K| #[trigger] in_groups(parents, more, k) <==> in_groups(parents, groups, k)
        || component(parents, group.start).contains(k) by {
        if in_groups(parents, groups, k) {
            let i = choose|i: int|
                0 <= i < groups.len() && component(parents, (#[trigger] groups[i]).start).contains(
                    k,
                );
            assert(component(parents, more[i].start).contains(k));
        }
        if in_groups(parents, more, k) {
            let i = choose|i: int|
                0 <= i < more.len() && component(parents, (#[trigger] more[i]).start).contains(k);
            if i < groups.len() {
                assert(component(parents, groups[i].start).contains(k));
            }
        }
        if component(parents, group.start).contains(k) {
            assert(more[groups.len() as int] == group);
        }
    }
    assert forall|i: int, j: int| 0 <= i < j < more.len() implies component(
        parents,
        (#[trigger] more[i]).start,
    ).disjoint(component(parents, (#[trigger] more[j]).start)) by {
        if j == groups.len() {
            assert forall|k: K| component(parents, groups[i].start).contains(k) implies !component(
                parents,
                group.start,
            ).contains(k) by {
                assert(in_groups(parents, groups, k));
            }
        }
    }
}

/// A search that leaves out whole packages finds the package that it starts in.
proof fn lemma_component<K>(
    parents: Map<K, Vec<K>>,
    children: Map<K, Vec<K>>,
    visited: Set<K>,
    t: K,
)
    requires
        inverts(parents, children),
        !visited.contains(t),
        forall|a: K, b: K|
            visited.contains(a) && #[trigger] related(parents)(a, b) ==> visited.contains(b),
    ensures
        reach_set(relative_step(parents, children, visited), t) == component(parents, t),
        forall|k: K| #[trigger] component(parents, t).contains(k) ==> !visited.contains(k),
{
    let step = relative_step(parents, children, visited);
    let found = reach_set(step, t);
    let whole = component(parents, t);
    let outside = Set::new(|k: K| !visited.contains(k));
    lemma_reaches_self(step, t);
    lemma_reaches_self(related(parents), t);
    assert forall|x: K, y: K| #[trigger] step(x, y) implies related(parents)(x, y) by {
        assert(listed(children, x).contains(y) <==> listed(parents, y).contains(x));
    }
    assert forall|k: K| found.contains(k) implies outside.contains(k) by {
        lemma_closed_holds_reachable(step, outside, t, k);
    }
    assert forall|x: K, y: K| whole.contains(x) && #[trigger] step(x, y) implies whole.contains(
        y,
    ) by {
        lemma_reaches_step(related(parents), t, x, y);
    }
    assert forall|k: K| found.contains(k) implies whole.contains(k) by {
        lemma_closed_holds_reachable(step, whole, t, k);
    }
    assert forall|x: K, y: K| found.contains(x) && #[trigger] related(parents)(x, y) implies found.contains(
        y,
    ) by {
        if visited.contains(y) {
            assert(related(parents)(y, x));
        }
        assert(listed(children, x).contains(y) <==> listed(parents, y).contains(x));
        assert(step(x, y));
        lemma_reaches_step(step, t, x, y);
    }
    assert forall|k: K| whole.contains(k) implies found.contains(k) by {
        lemma_closed_holds_reachable(related(parents), found, t, k);
    }
    assert(found =~= whole);
}

/// No member of a package of several is without relatives.
pub proof fn lemma_component_not_lone<K>(parents: Map<K, Vec<K>>, t: K, k: K)
    requires
        !is_lone(parents, t),
        component(parents, t).contains(k),
    ensures
        !is_lone(parents, k),
{
    let step = related(parents);
    let s = Set::new(|x: K| !is_lone(parents, x));
    assert forall|x: K, y: K| s.contains(x) && #[trigger] step(x, y) implies s.contains(y) by {
        assert(related(parents)(y, x));
    }
    lemma_closed_holds_reachable(step, s, t, k);
}

/// A transaction without parents and children is a package of its own.
proof fn lemma_lone<K>(parents: Map<K, Vec<K>>, children: Map<K, Vec<K>>, t: K)
    requires
        inverts(parents, children),
    ensures
        is_lone(parents, t) <==> listed(parents, t).len() == 0 && listed(children, t).len() == 0,
        is_lone(parents, t) ==> component(parents, t) == set![t],
{
    if listed(parents, t).len() > 0 {
        assert(listed(parents, t).contains(listed(parents, t)[0]));
        assert(related(parents)(t, listed(parents, t)[0]));
    }
    if listed(children, t).len() > 0 {
        assert(listed(children, t).contains(listed(children, t)[0]));
        assert(related(parents)(t, listed(children, t)[0]));
    }
    if listed(parents, t).len() == 0 && listed(children, t).len() == 0 {
        assert forall|b: K| !(#[trigger] related(parents)(t, b)) by {
            assert(listed(children, t).contains(b) <==> listed(parents, b).contains(t));
        }
    }
    if is_lone(parents, t) {
        lemma_lone_component(parents, t);
    }
}

/// A transaction with neither parents nor children is a package of its own.
pub proof fn lemma_lone_component<K>(parents: Map<K, Vec<K>>, t: K)
    requires
        is_lone(parents, t),
    ensures
        component(parents, t) == set![t],
{
    lemma_reaches_self(related(parents), t);
    assert forall|k: K| component(parents, t).contains(k) implies k == t by {
        lemma_closed_holds_reachable(related(parents), set![t], t, k);
    }
    assert(component(parents, t) =~= set![t]);
}

/// `children` lists for each transaction those that list it as a parent.
spec fn inverts<K>(parents: Map<K, Vec<K>>, children: Map<K, Vec<K>>) -> bool {
    forall|p: K, c: K| #[trigger]
        listed(children, p).contains(c) <==> listed(parents, c).contains(p)
}

/// Reverse adjacency, so that packages can be discovered from any member, not
/// just the leaves.
fn invert<K: Copy + Eq + Hash>(parents: &HashMap<K, Vec<K>>) -> (children: HashMap<K, Vec<K>>)
    requires
        obeys_key_model::<K>(),
    ensures
        inverts(parents@, children@),
{
    let mut children: HashMap<K, Vec<K>> = HashMap::new();
    for pair in it: parents.iter()
        invariant
            obeys_key_model::<K>(),
            it.seq() == vstd::std_specs::hash::spec_hash_map_iter(parents).remaining(),
            it.seq().no_duplicates(),
            forall|p: K, c: K| #[trigger]
                listed(children@, p).contains(c) <==> (exists|j: int|
                    0 <= j < it.index() && *(#[trigger] it.seq()[j]).0 == c && it.seq()[j].1@.contains(
                        p,
                    )),
    {
        let txid: K = *pair.0;
        let ps: &Vec<K> = pair.1;
        let ghost children0 = children@;
        let mut i: usize = 0;
        while i < ps.len()
            invariant
                obeys_key_model::<K>(),
                i <= ps@.len(),
                forall|p: K, c: K| #[trigger]
                    listed(children@, p).contains(c) <==> listed(children0, p).contains(c) || (c
                        == txid && ps@.take(i as int).contains(p)),
            decreases ps@.len() - i,
        {
            let p: K = ps[i];
            let ghost children1 = children@;
            let mut list: Vec<K> = match children.remove(&p) {
                Some(list) => list,
                None => Vec::new(),
            };
            let ghost list1 = list@;
            list.push(txid);
            children.insert(p, list);
            proof {
                assert(list1 =~= listed(children1, p));
                lemma_push_contains(list1, txid);
                lemma_push_contains(ps@.take(i as int), p);
                assert(ps@.take(i + 1) =~= ps@.take(i as int).push(p));
                assert forall|q: K, c: K| #[trigger]
                    listed(children@, q).contains(c) <==> listed(children0, q).contains(c) || (c
                        == txid && ps@.take(i + 1).contains(q)) by {
                    if q != p {
                        assert(listed(children@, q) == listed(children1, q));
                    }
                    assert(listed(children1, q).contains(c) <==> listed(children0, q).contains(c)
                        || (c == txid && ps@.take(i as int).contains(q)));
                }
            }
            i = i + 1;
        }
        proof {
            assert(ps@.take(ps@.len() as int) =~= ps@);
        }
    }
    children
}

/// Effective feerates count the virtual size of every transaction exactly once.
pub proof fn lemma_vsize_conserved<K>(
    entries: Map<K, TxFeeInfo>,
    parents: Map<K, Vec<K>>,
    groups: Seq<Group<K>>,
)
    requires
        entries.dom().finite(),
        holds_packages(entries, parents),
        is_grouping(entries, parents, groups),
    ensures
        seq_total(entry_vsize(), grouped_rates(entries, parents, groups)) == total(
            vsize_of(entries),
            entries.dom(),
        ),
{
    reveal(is_grouping);
    lemma_groups_total(entries, parents, groups);
    assert(covered(parents, groups) =~= entries.dom());
}

/// A transaction with neither parents nor children is counted at its own feerate.
pub proof fn lemma_lone_keeps_own<K>(
    entries: Map<K, TxFeeInfo>,
    parents: Map<K, Vec<K>>,
    groups: Seq<Group<K>>,
    k: K,
)
    requires
        is_grouping(entries, parents, groups),
        entries.contains_key(k),
        is_lone(parents, k),
    ensures
        grouped_rates(entries, parents, groups).contains(
            (entries[k].fee_per_vbyte, entries[k].vsize),
        ),
{
    reveal(is_grouping);
    assert(in_groups(parents, groups, k));
    let i = choose|i: int|
        0 <= i < groups.len() && component(parents, (#[trigger] groups[i]).start).contains(k);
    let start = groups[i].start;
    if start != k {
        let others = Set::new(|x: K| x != k);
        assert forall|x: K, y: K|
            others.contains(x) && #[trigger] related(parents)(x, y) implies others.contains(y) by {
            if y == k {
                assert(related(parents)(k, x));
            }
        }
        lemma_closed_holds_reachable(related(parents), others, start, k);
    }
    lemma_group_counted(entries, parents, groups, i, 0);
}

/// What a package is counted at is part of the whole.
proof fn lemma_group_counted<K>(
    entries: Map<K, TxFeeInfo>,
    parents: Map<K, Vec<K>>,
    groups: Seq<Group<K>>,
    i: int,
    j: int,
)
    requires
        0 <= i < groups.len(),
        0 <= j < group_rates(entries, parents, groups[i]).len(),
    ensures
        grouped_rates(entries, parents, groups).contains(
            group_rates(entries, parents, groups[i])[j],
        ),
    decreases groups.len(),
{
    let front = groups.drop_last();
    let before = grouped_rates(entries, parents, front);
    let all = grouped_rates(entries, parents, groups);
    let rate = group_rates(entries, parents, groups[i])[j];
    if i < groups.len() - 1 {
        assert(front[i] == groups[i]);
        lemma_group_counted(entries, parents, front, i, j);
        let at = choose|at: int| 0 <= at < before.len() && before[at] == rate;
        assert(all[at] == rate);
    } else {
        assert(groups[i] == groups.last());
        assert(all[before.len() + j] == rate);
    }
}

/// What the groups hold between them.
spec fn covered<K>(parents: Map<K, Vec<K>>, groups: Seq<Group<K>>) -> Set<K> {
    Set::new(|k: K| in_groups(parents, groups, k))
}

/// Separate groups count what they hold between them once.
proof fn lemma_groups_total<K>(
    entries: Map<K, TxFeeInfo>,
    parents: Map<K, Vec<K>>,
    groups: Seq<Group<K>>,
)
    requires
        entries.dom().finite(),
        holds_packages(entries, parents),
        are_groups(entries, parents, groups),
    ensures
        covered(parents, groups).subset_of(entries.dom()),
        seq_total(entry_vsize(), grouped_rates(entries, parents, groups)) == total(
            vsize_of(entries),
            covered(parents, groups),
        ),
    decreases groups.len(),
{
    if groups.len() == 0 {
        assert(covered(parents, groups) =~= Set::empty());
    } else {
        let front = groups.drop_last();
        let group = groups.last();
        let whole = component(parents, group.start);
        assert(front.push(group) =~= groups);
        assert(is_group(entries, parents, groups[groups.len() - 1]));
        assert(are_groups(entries, parents, front)) by {
            assert forall|i: int| 0 <= i < front.len() implies is_group(
                entries,
                parents,
                #[trigger] front[i],
            ) by {
                assert(front[i] == groups[i]);
            }
            assert forall|i: int, j: int| 0 <= i < j < front.len() implies component(
                parents,
                (#[trigger] front[i]).start,
            ).disjoint(component(parents, (#[trigger] front[j]).start)) by {
                assert(front[i] == groups[i] && front[j] == groups[j]);
            }
        }
        lemma_groups_total(entries, parents, front);
        assert forall|k: K| whole.contains(k) implies !(#[trigger] in_groups(parents, front, k))
            && entries.contains_key(k) by {
            if in_groups(parents, front, k) {
                let i = choose|i: int|
                    0 <= i < front.len() && component(
                        parents,
                        (#[trigger] front[i]).start,
                    ).contains(k);
                assert(front[i] == groups[i]);
                assert(groups[groups.len() - 1] == group);
                assert(component(parents, groups[i].start).disjoint(whole));
            }
            lemma_closed_holds_reachable(related(parents), entries.dom(), group.start, k);
        }
        lemma_groups_push(entries, parents, front, group);
        assert(covered(parents, groups) =~= covered(parents, front).union(whole));
        vstd::set_lib::lemma_set_subset_finite(entries.dom(), covered(parents, front));
        vstd::set_lib::lemma_set_subset_finite(entries.dom(), whole);
        lemma_total_union(vsize_of(entries), covered(parents, front), whole);
        lemma_total_concat(
            entry_vsize(),
            grouped_rates(entries, parents, front),
            group_rates(entries, parents, group),
        );
        if is_lone(parents, group.start) {
            lemma_lone_component(parents, group.start);
            let own = group_rates(entries, parents, group);
            assert(seq_total(entry_vsize(), own.drop_last()) == 0);
            assert(whole.remove(group.start) =~= Set::empty());
            lemma_total_remove(vsize_of(entries), whole, group.start);
        } else {
            lemma_mined_total(entries, parents, whole, group.chunks);
            assert(left_after(whole, group.chunks) =~= Set::empty());
        }
    }
}

/// What has been mined and what is left make up the cluster.
proof fn lemma_mined_total<K>(
    entries: Map<K, TxFeeInfo>,
    parents: Map<K, Vec<K>>,
    cluster: Set<K>,
    chunks: Seq<Seq<K>>,
)
    requires
        cluster.finite(),
        mined_in_order(entries, parents, cluster, chunks),
    ensures
        left_after(cluster, chunks).subset_of(cluster),
        seq_total(entry_vsize(), mined_rates(entries, chunks)) + total(
            vsize_of(entries),
            left_after(cluster, chunks),
        ) == total(vsize_of(entries), cluster),
    decreases chunks.len(),
{
    if chunks.len() > 0 {
        let front = chunks.drop_last();
        let chunk = chunks.last();
        let left = left_after(cluster, front);
        let rest = left_after(cluster, chunks);
        lemma_mined_total(entries, parents, cluster, front);
        lemma_ancestors_within(parents, left, chunk[0]);
        vstd::set_lib::lemma_set_subset_finite(cluster, left);
        vstd::seq_lib::seq_to_set_is_finite(chunk);
        assert(left =~= rest.union(chunk.to_set()));
        lemma_total_union(vsize_of(entries), rest, chunk.to_set());
        lemma_total_concat(
            entry_vsize(),
            mined_rates(entries, front),
            chunk_rates(entries, chunk),
        );
        lemma_chunk_total(entries, chunk, chunk_rates(entries, chunk));
        lemma_seq_total(vsize_of(entries), chunk);
    }
}

/// The members of a chunk are counted at their own sizes.
proof fn lemma_chunk_total<K>(
    entries: Map<K, TxFeeInfo>,
    chunk: Seq<K>,
    rates: Seq<(FeeRate, u64)>,
)
    requires
        rates.len() == chunk.len(),
        forall|i: int| 0 <= i < chunk.len() ==> (#[trigger] rates[i]).1 == entries[chunk[i]].vsize,
    ensures
        seq_total(entry_vsize(), rates) == seq_total(vsize_of(entries), chunk),
    decreases chunk.len(),
{
    if chunk.len() > 0 {
        assert(rates.last() == rates[rates.len() - 1]);
        lemma_chunk_total(entries, chunk.drop_last(), rates.drop_last());
    }
}

/// A hash set is finite.
proof fn lemma_hash_set_finite<K>(s: HashSet<K>)
    ensures
        s@.finite(),
{
    vstd::seq_lib::seq_to_set_is_finite(
        vstd::std_specs::hash::spec_hash_keys_iter(&s).remaining().unref(),
    );
}

/// A sequence without duplicates is no longer than a set that holds its items.
proof fn lemma_listed_within<K>(s: Seq<K>, u: Set<K>)
    requires
        s.no_duplicates(),
        u.finite(),
        forall|k: K| s.contains(k) ==> u.contains(k),
    ensures
        s.len() <= u.len(),
{
    s.unique_seq_to_set();
    assert(s.to_set().subset_of(u));
    vstd::set_lib::lemma_len_subset(s.to_set(), u);
}

} // verus!
