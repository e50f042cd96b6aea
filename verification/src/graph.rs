//! Reachability in a graph given by a step relation, and finite sums.
use vstd::prelude::*;

verus! {

/// Each node of `path` is one step away from the one before it.
pub open spec fn is_path<K>(step: spec_fn(K, K) -> bool, path: Seq<K>) -> bool
    decreases path.len(),
{
    path.len() >= 2 ==> {
        &&& step(path[path.len() - 2], path.last())
        &&& is_path(step, path.drop_last())
    }
}

/// There is a path from `a` to `b`, possibly of no step at all.
pub open spec fn reaches<K>(step: spec_fn(K, K) -> bool, a: K, b: K) -> bool {
    exists|path: Seq<K>|
        path.len() > 0 && path[0] == a && path.last() == b && #[trigger] is_path(step, path)
}

/// Everything that can be reached from `a`.
pub open spec fn reach_set<K>(step: spec_fn(K, K) -> bool, a: K) -> Set<K> {
    Set::new(|b: K| reaches(step, a, b))
}

/// Each node reaches itself.
pub proof fn lemma_reaches_self<K>(step: spec_fn(K, K) -> bool, a: K)
    ensures
        reaches(step, a, a),
{
    assert(is_path(step, seq![a]));
}

/// A path can be extended by a step.
pub proof fn lemma_reaches_step<K>(step: spec_fn(K, K) -> bool, a: K, b: K, c: K)
    requires
        reaches(step, a, b),
        step(b, c),
    ensures
        reaches(step, a, c),
{
    let path = choose|path: Seq<K>|
        path.len() > 0 && path[0] == a && path.last() == b && #[trigger] is_path(step, path);
    let longer = path.push(c);
    assert(longer.drop_last() =~= path);
    assert(is_path(step, longer));
}

/// A set that holds `a` and is closed under `step` holds all that `a` reaches.
pub proof fn lemma_closed_holds_reachable<K>(step: spec_fn(K, K) -> bool, s: Set<K>, a: K, b: K)
    requires
        s.contains(a),
        forall|x: K, y: K| s.contains(x) && #[trigger] step(x, y) ==> s.contains(y),
        reaches(step, a, b),
    ensures
        s.contains(b),
{
    let path = choose|path: Seq<K>|
        path.len() > 0 && path[0] == a && path.last() == b && #[trigger] is_path(step, path);
    lemma_closed_holds_path(step, s, path);
}

/// A closed set that holds the start of a path holds its end.
proof fn lemma_closed_holds_path<K>(step: spec_fn(K, K) -> bool, s: Set<K>, path: Seq<K>)
    requires
        path.len() > 0,
        s.contains(path[0]),
        forall|x: K, y: K| s.contains(x) && #[trigger] step(x, y) ==> s.contains(y),
        is_path(step, path),
    ensures
        s.contains(path.last()),
    decreases path.len(),
{
    if path.len() >= 2 {
        lemma_closed_holds_path(step, s, path.drop_last());
        assert(path.drop_last().last() == path[path.len() - 2]);
    }
}

/// Steps that agree on a closed set reach the same from within it.
pub proof fn lemma_reaches_agree<K>(
    step: spec_fn(K, K) -> bool,
    other: spec_fn(K, K) -> bool,
    s: Set<K>,
    a: K,
    b: K,
)
    requires
        s.contains(a),
        forall|x: K, y: K|
            s.contains(x) && #[trigger] step(x, y) ==> s.contains(y) && other(x, y),
        reaches(step, a, b),
    ensures
        reaches(other, a, b),
        s.contains(b),
{
    let found = Set::new(|x: K| s.contains(x) && reaches(other, a, x));
    lemma_reaches_self(other, a);
    assert forall|x: K, y: K| found.contains(x) && #[trigger] step(x, y) implies found.contains(
        y,
    ) by {
        lemma_reaches_step(other, a, x, y);
    }
    lemma_closed_holds_reachable(step, found, a, b);
}

/// State of a search from `start`: `done` has been expanded or is about to be,
/// `queue` waits; nothing occurs twice and everything found is reachable.
pub open spec fn searching<K>(
    step: spec_fn(K, K) -> bool,
    start: K,
    done: Seq<K>,
    queue: Seq<K>,
) -> bool {
    &&& done.no_duplicates()
    &&& queue.no_duplicates()
    &&& forall|k: K| done.contains(k) ==> !queue.contains(k)
    &&& if done.len() == 0 {
        queue == seq![start]
    } else {
        done[0] == start
    }
    &&& forall|k: K| done.contains(k) || queue.contains(k) ==> #[trigger] reaches(step, start, k)
}

/// Each step out of `from` leads to something that the search has found.
pub open spec fn expanded<K>(
    step: spec_fn(K, K) -> bool,
    from: Seq<K>,
    done: Seq<K>,
    queue: Seq<K>,
) -> bool {
    forall|a: K, b: K|
        from.contains(a) && #[trigger] step(a, b) ==> done.contains(b) || queue.contains(b)
}

/// A search starts with its first node queued.
pub proof fn lemma_search_start<K>(step: spec_fn(K, K) -> bool, start: K)
    ensures
        searching(step, start, Seq::empty(), seq![start]),
        expanded(step, Seq::empty(), Seq::empty(), seq![start]),
{
    lemma_reaches_self(step, start);
}

/// Taking the last node off the queue keeps the search state.
pub proof fn lemma_search_pop<K>(
    step: spec_fn(K, K) -> bool,
    start: K,
    done: Seq<K>,
    queue: Seq<K>,
)
    requires
        searching(step, start, done, queue),
        expanded(step, done, done, queue),
        queue.len() > 0,
    ensures
        searching(step, start, done.push(queue.last()), queue.drop_last()),
        expanded(step, done, done.push(queue.last()), queue.drop_last()),
        forall|k: K|
            done.contains(k) || queue.contains(k) <==> done.push(queue.last()).contains(k)
                || queue.drop_last().contains(k),
{
    let t = queue.last();
    let done1 = done.push(t);
    let queue1 = queue.drop_last();
    assert(queue.contains(t));
    assert forall|k: K| done1.contains(k) <==> done.contains(k) || k == t by {
        if done.contains(k) {
            let i = choose|i: int| 0 <= i < done.len() && done[i] == k;
            assert(done1[i] == k);
        }
        if k == t {
            assert(done1[done.len() as int] == k);
        }
    }
    assert forall|k: K| queue1.contains(k) <==> queue.contains(k) && k != t by {
        if queue.contains(k) && k != t {
            let i = choose|i: int| 0 <= i < queue.len() && queue[i] == k;
            assert(queue1[i] == k);
        }
        if queue1.contains(k) {
            let i = choose|i: int| 0 <= i < queue1.len() && queue1[i] == k;
            assert(queue[i] == k);
        }
    }
    assert(done1.no_duplicates()) by {
        assert forall|i: int, j: int| 0 <= i < j < done1.len() implies done1[i] != done1[j] by {
            if j == done.len() {
                assert(done.contains(done[i]));
            }
        }
    }
}

/// Queueing a node that is reachable and new keeps the search state.
pub proof fn lemma_search_push<K>(
    step: spec_fn(K, K) -> bool,
    start: K,
    done: Seq<K>,
    queue: Seq<K>,
    from: Seq<K>,
    k: K,
)
    requires
        searching(step, start, done, queue),
        expanded(step, from, done, queue),
        done.len() > 0,
        !done.contains(k),
        !queue.contains(k),
        reaches(step, start, k),
    ensures
        searching(step, start, done, queue.push(k)),
        expanded(step, from, done, queue.push(k)),
        forall|x: K| queue.push(k).contains(x) <==> queue.contains(x) || x == k,
{
    let queue1 = queue.push(k);
    assert forall|x: K| queue1.contains(x) <==> queue.contains(x) || x == k by {
        if queue.contains(x) {
            let i = choose|i: int| 0 <= i < queue.len() && queue[i] == x;
            assert(queue1[i] == x);
        }
        if x == k {
            assert(queue1[queue.len() as int] == x);
        }
    }
    assert forall|i: int, j: int| 0 <= i < j < queue1.len() implies queue1[i] != queue1[j] by {
        if j == queue.len() {
            assert(queue.contains(queue[i]));
        }
    }
}

/// Queueing several nodes that are reachable and new keeps the search state.
pub proof fn lemma_search_extend<K>(
    step: spec_fn(K, K) -> bool,
    start: K,
    done: Seq<K>,
    queue: Seq<K>,
    from: Seq<K>,
    fresh: Seq<K>,
)
    requires
        searching(step, start, done, queue),
        expanded(step, from, done, queue),
        done.len() > 0,
        fresh.no_duplicates(),
        forall|k: K| #[trigger]
            fresh.contains(k) ==> !done.contains(k) && !queue.contains(k) && reaches(
                step,
                start,
                k,
            ),
    ensures
        searching(step, start, done, queue + fresh),
        expanded(step, from, done, queue + fresh),
        forall|x: K| (queue + fresh).contains(x) <==> queue.contains(x) || fresh.contains(x),
    decreases fresh.len(),
{
    if fresh.len() == 0 {
        assert(queue + fresh =~= queue);
    } else {
        let k = fresh.last();
        let front = fresh.drop_last();
        assert(fresh.contains(k));
        assert forall|x: K| #[trigger] front.contains(x) implies fresh.contains(x) && x != k by {
            let i = choose|i: int| 0 <= i < front.len() && front[i] == x;
            assert(fresh[i] == x);
        }
        assert forall|x: K| #[trigger] fresh.contains(x) implies front.contains(x) || x == k by {
            let i = choose|i: int| 0 <= i < fresh.len() && fresh[i] == x;
            if i < front.len() {
                assert(front[i] == x);
            }
        }
        lemma_search_extend(step, start, done, queue, from, front);
        lemma_search_push(step, start, done, queue + front, from, k);
        assert((queue + front).push(k) =~= queue + fresh);
    }
}

/// Once the queue is empty, the search has found exactly what `start` reaches.
pub proof fn lemma_search_end<K>(step: spec_fn(K, K) -> bool, start: K, done: Seq<K>)
    requires
        searching(step, start, done, Seq::empty()),
        expanded(step, done, done, Seq::empty()),
    ensures
        done.len() > 0,
        done[0] == start,
        done.no_duplicates(),
        done.to_set() == reach_set(step, start),
{
    if done.len() == 0 {
        assert(seq![start].len() == 1);
    }
    assert(done.contains(start));
    assert forall|k: K| reaches(step, start, k) implies done.contains(k) by {
        lemma_closed_holds_reachable(step, done.to_set(), start, k);
    }
    assert(done.to_set() =~= reach_set(step, start));
}

/// The sum of `f` over the members of a finite set.
pub open spec fn total<K>(f: spec_fn(K) -> nat, s: Set<K>) -> nat
    decreases s.len(),
    when s.finite()
{
    if s.is_empty() {
        0
    } else {
        let k = s.choose();
        f(k) + total(f, s.remove(k))
    }
}

/// The sum of `f` over the items of a sequence.
pub open spec fn seq_total<K>(f: spec_fn(K) -> nat, s: Seq<K>) -> nat
    decreases s.len(),
{
    if s.len() == 0 {
        0
    } else {
        seq_total(f, s.drop_last()) + f(s.last())
    }
}

/// Any member of a set can be split off its sum.
pub proof fn lemma_total_remove<K>(f: spec_fn(K) -> nat, s: Set<K>, k: K)
    requires
        s.finite(),
        s.contains(k),
    ensures
        total(f, s) == f(k) + total(f, s.remove(k)),
    decreases s.len(),
{
    let c = s.choose();
    if c != k {
        lemma_total_remove(f, s.remove(c), k);
        lemma_total_remove(f, s.remove(k), c);
        assert(s.remove(c).remove(k) =~= s.remove(k).remove(c));
    }
}

/// Sums that agree on each member of a set agree on the set.
pub proof fn lemma_total_agree<K>(f: spec_fn(K) -> nat, g: spec_fn(K) -> nat, s: Set<K>)
    requires
        s.finite(),
        forall|k: K| #[trigger] s.contains(k) ==> f(k) == g(k),
    ensures
        total(f, s) == total(g, s),
    decreases s.len(),
{
    if !s.is_empty() {
        let k = s.choose();
        assert(s.contains(k));
        assert forall|x: K| #[trigger] s.remove(k).contains(x) implies f(x) == g(x) by {
            assert(s.contains(x));
        }
        lemma_total_agree(f, g, s.remove(k));
    }
}

/// A subset has at most the sum of the whole.
pub proof fn lemma_total_subset<K>(f: spec_fn(K) -> nat, a: Set<K>, b: Set<K>)
    requires
        b.finite(),
        a.subset_of(b),
    ensures
        a.finite(),
        total(f, a) <= total(f, b),
    decreases b.len(),
{
    vstd::set_lib::lemma_set_subset_finite(b, a);
    if !b.is_empty() {
        let k = b.choose();
        lemma_total_subset(f, a.remove(k), b.remove(k));
        if a.contains(k) {
            lemma_total_remove(f, a, k);
        } else {
            assert(a.remove(k) =~= a);
        }
    } else {
        assert(a =~= b);
    }
}

/// Disjoint sums add up.
pub proof fn lemma_total_union<K>(f: spec_fn(K) -> nat, a: Set<K>, b: Set<K>)
    requires
        a.finite(),
        b.finite(),
        a.disjoint(b),
    ensures
        total(f, a.union(b)) == total(f, a) + total(f, b),
    decreases a.len(),
{
    if a.is_empty() {
        assert(a.union(b) =~= b);
    } else {
        let k = a.choose();
        lemma_total_union(f, a.remove(k), b);
        lemma_total_remove(f, a.union(b), k);
        assert(a.union(b).remove(k) =~= a.remove(k).union(b));
    }
}

/// A sequence without duplicates has the sum of the set of its items.
pub proof fn lemma_seq_total<K>(f: spec_fn(K) -> nat, s: Seq<K>)
    requires
        s.no_duplicates(),
    ensures
        s.to_set().finite(),
        seq_total(f, s) == total(f, s.to_set()),
    decreases s.len(),
{
    vstd::seq_lib::seq_to_set_is_finite(s);
    if s.len() == 0 {
        assert(s.to_set() =~= Set::empty());
    } else {
        let front = s.drop_last();
        lemma_seq_total(f, front);
        assert(s.contains(s.last()));
        assert(s.to_set().remove(s.last()) =~= front.to_set()) by {
            assert forall|k: K| s.to_set().remove(s.last()).contains(k) implies front.contains(
                k,
            ) by {
                let i = choose|i: int| 0 <= i < s.len() && s[i] == k;
                assert(front[i] == k);
            }
            assert forall|k: K| front.contains(k) implies s.to_set().remove(s.last()).contains(
                k,
            ) by {
                let i = choose|i: int| 0 <= i < front.len() && front[i] == k;
                assert(s[i] == k);
            }
        }
        lemma_total_remove(f, s.to_set(), s.last());
    }
}

/// The sum over two parts is the sum of their sums.
pub proof fn lemma_total_concat<T>(f: spec_fn(T) -> nat, a: Seq<T>, b: Seq<T>)
    ensures
        seq_total(f, a + b) == seq_total(f, a) + seq_total(f, b),
    decreases b.len(),
{
    if b.len() == 0 {
        assert(a + b =~= a);
    } else {
        assert((a + b).drop_last() =~= a + b.drop_last());
        lemma_total_concat(f, a, b.drop_last());
    }
}

} // verus!
