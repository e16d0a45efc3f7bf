//! Stable ranking by descending integer keys: the order in which the crawler
//! follows links and the dashboard lists its busiest domains and clusters.
use vstd::prelude::*;

verus! {

/// Position `a` ranks ahead of position `b`: a larger key, or an equal key
/// and an earlier position (what a stable sort by descending key gives).
pub open spec fn outranks(keys: Seq<int>, a: int, b: int) -> bool {
    keys[a] > keys[b] || (keys[a] == keys[b] && a < b)
}

/// `order` lists `k` distinct positions of `keys` in ranking order, each
/// ahead of every position it leaves out.
pub open spec fn top_ranked(keys: Seq<int>, order: Seq<int>, k: nat) -> bool {
    &&& order.len() == k
    &&& forall|p: int| 0 <= p < k ==> 0 <= #[trigger] order[p] < keys.len()
    &&& forall|p: int, q: int|
        0 <= p < q < k ==> outranks(keys, #[trigger] order[p], #[trigger] order[q])
    &&& forall|p: int, j: int|
        #![trigger outranks(keys, order[p], j)]
        #![trigger order[p], order.contains(j)]
        0 <= p < k && 0 <= j < keys.len() && !order.contains(j) ==> outranks(keys, order[p], j)
}

/// The keys as mathematical integers.
pub open spec fn key_ints(keys: Seq<u64>) -> Seq<int> {
    keys.map_values(|x: u64| x as int)
}

/// Positions as mathematical integers.
pub open spec fn positions(order: Seq<usize>) -> Seq<int> {
    order.map_values(|i: usize| i as int)
}

/// The smaller of two counts.
pub open spec fn min_len(a: nat, b: nat) -> nat {
    if a < b {
        a
    } else {
        b
    }
}

/// `s` without repeats, each item kept where it first occurs.
pub open spec fn distinct<T>(s: Seq<T>) -> Seq<T>
    decreases s.len(),
{
    if s.len() == 0 {
        Seq::empty()
    } else {
        let prior = distinct(s.drop_last());
        if prior.contains(s.last()) {
            prior
        } else {
            prior.push(s.last())
        }
    }
}

/// How many times `x` occurs in `s`.
pub open spec fn occurrences<T>(s: Seq<T>, x: T) -> nat
    decreases s.len(),
{
    if s.len() == 0 {
        0
    } else {
        occurrences(s.drop_last(), x) + if s.last() == x {
            1nat
        } else {
            0nat
        }
    }
}

/// The occurrence count of each distinct item, in order of first occurrence.
pub open spec fn tally_keys<T>(s: Seq<T>) -> Seq<int> {
    distinct(s).map_values(|x: T| occurrences(s, x) as int)
}

/// An item that does not occur has no occurrences; none occurs more often
/// than the sequence is long.
pub proof fn lemma_occurrences<T>(s: Seq<T>, x: T)
    ensures
        !s.contains(x) ==> occurrences(s, x) == 0,
        occurrences(s, x) <= s.len(),
    decreases s.len(),
{
    if s.len() > 0 {
        lemma_occurrences(s.drop_last(), x);
        if !s.contains(x) {
            assert forall|k: int| 0 <= k < s.drop_last().len() implies s.drop_last()[k] != x by {
                assert(s[k] == s.drop_last()[k]);
            }
            assert(s[s.len() - 1] == s.last());
        }
    }
}

/// The distinct items hold each item of the input exactly once.
pub proof fn lemma_distinct<T>(s: Seq<T>)
    ensures
        distinct(s).no_duplicates(),
        forall|x: T| distinct(s).contains(x) <==> s.contains(x),
    decreases s.len(),
{
    if s.len() > 0 {
        let init = s.drop_last();
        lemma_distinct(init);
        let prior = distinct(init);
        let x = s.last();
        assert forall|y: T| distinct(s).contains(y) <==> s.contains(y) by {
            if s.contains(y) {
                let k = choose|k: int| 0 <= k < s.len() && s[k] == y;
                if k < init.len() {
                    assert(init[k] == s[k]);
                    assert(init.contains(y));
                    assert(prior.contains(y));
                    let j = choose|j: int| 0 <= j < prior.len() && prior[j] == y;
                    if !prior.contains(x) {
                        assert(prior.push(x)[j] == y);
                        assert(distinct(s).contains(y));
                    }
                } else {
                    assert(y == x);
                    if !prior.contains(x) {
                        assert(prior.push(x)[prior.len() as int] == x);
                        assert(distinct(s).contains(y));
                    }
                }
            }
            if distinct(s).contains(y) {
                let j = choose|j: int| 0 <= j < distinct(s).len() && distinct(s)[j] == y;
                if prior.contains(x) {
                    assert(prior.contains(y));
                } else if j < prior.len() {
                    assert(prior.push(x)[j] == prior[j]);
                    assert(prior.contains(y));
                } else {
                    assert(y == x);
                }
                if prior.contains(y) {
                    assert(init.contains(y));
                    let k = choose|k: int| 0 <= k < init.len() && init[k] == y;
                    assert(init[k] == s[k]);
                    assert(s.contains(y));
                } else {
                    assert(s[s.len() - 1] == y);
                    assert(s.contains(y));
                }
            }
        }
        if !prior.contains(x) {
            assert forall|i: int, j: int|
                0 <= i < j < prior.push(x).len() implies #[trigger] prior.push(x)[i]
                != #[trigger] prior.push(x)[j] by {
                assert(prior.push(x)[i] == prior[i]);
                if j < prior.len() {
                    assert(prior.push(x)[j] == prior[j]);
                }
            }
        }
    }
}

/// No position outranks itself, and of two distinct positions exactly one
/// outranks the other.
pub proof fn lemma_outranks_strict(keys: Seq<int>, a: int, b: int)
    ensures
        !outranks(keys, a, a),
        a != b ==> (outranks(keys, a, b) <==> !outranks(keys, b, a)),
{
}

/// Positions agree up to `p` in two rankings of the same keys.
proof fn lemma_ranked_prefix(keys: Seq<int>, o1: Seq<int>, o2: Seq<int>, k: nat, p: int)
    requires
        top_ranked(keys, o1, k),
        top_ranked(keys, o2, k),
        0 <= p < k,
    ensures
        forall|q: int| 0 <= q <= p ==> #[trigger] o1[q] == o2[q],
    decreases p,
{
    if p > 0 {
        lemma_ranked_prefix(keys, o1, o2, k, p - 1);
    }
    let a = o1[p];
    let b = o2[p];
    if a != b {
        // `b` sits after `p` in `o1`, or is missing from it: either way `a` outranks `b`.
        if o1.contains(b) {
            let q = choose|q: int| 0 <= q < o1.len() && o1[q] == b;
            if q < p {
                assert(o2[q] == b);
                assert(outranks(keys, o2[q], o2[p]));
            }
            if q > p {
                assert(outranks(keys, o1[p], o1[q]));
            }
        } else {
            assert(outranks(keys, o1[p], b));
        }
        if o2.contains(a) {
            let q = choose|q: int| 0 <= q < o2.len() && o2[q] == a;
            if q < p {
                assert(o1[q] == a);
                assert(outranks(keys, o1[q], o1[p]));
            }
            if q > p {
                assert(outranks(keys, o2[p], o2[q]));
            }
        } else {
            assert(outranks(keys, o2[p], a));
        }
        assert(outranks(keys, a, b) && outranks(keys, b, a));
    }
}

/// A ranking is determined by its keys and length: two top rankings of the
/// same keys with the same length are the same sequence.
pub proof fn lemma_top_ranked_unique(keys: Seq<int>, o1: Seq<int>, o2: Seq<int>, k: nat)
    requires
        top_ranked(keys, o1, k),
        top_ranked(keys, o2, k),
    ensures
        o1 == o2,
{
    if k > 0 {
        lemma_ranked_prefix(keys, o1, o2, k, k - 1);
    }
    assert(o1 =~= o2);
}

/// Fewer than `n` entries cannot hold every index below `n`.
proof fn lemma_missing_index(order: Seq<int>, n: int)
    requires
        order.len() < n,
    ensures
        exists|t: int| 0 <= t < n && !order.contains(t),
{
    if forall|t: int| 0 <= t < n ==> order.contains(t) {
        let range = vstd::set_lib::set_int_range(0, n);
        vstd::set_lib::lemma_int_range(0, n);
        order.lemma_cardinality_of_set();
        vstd::seq_lib::seq_to_set_is_finite(order);
        assert(range.subset_of(order.to_set()));
        vstd::set_lib::lemma_len_subset(range, order.to_set());
    }
}

/// The positions of the `k` largest keys (all of them when there are fewer),
/// largest first, equal keys in the order they came.
pub fn rank_top(keys: &Vec<u64>, k: usize) -> (r: Vec<usize>)
    ensures
        r@.len() == min_len(k as nat, keys@.len()),
        top_ranked(key_ints(keys@), positions(r@), r@.len()),
{
    let n = keys.len();
    let limit = if k < n {
        k
    } else {
        n
    };
    let ghost ks = key_ints(keys@);
    let mut chosen: Vec<bool> = Vec::new();
    let mut i: usize = 0;
    while i < n
        invariant
            0 <= i <= n,
            n == keys@.len(),
            chosen@.len() == i,
            forall|t: int| 0 <= t < i ==> !#[trigger] chosen@[t],
        decreases n - i,
    {
        chosen.push(false);
        i += 1;
    }
    let mut out: Vec<usize> = Vec::new();
    let ghost mut order: Seq<int> = Seq::empty();
    let mut round: usize = 0;
    while round < limit
        invariant
            0 <= round <= limit <= n,
            n == keys@.len(),
            ks == key_ints(keys@),
            chosen@.len() == n,
            forall|t: int| 0 <= t < n ==> (#[trigger] chosen@[t] <==> order.contains(t)),
            positions(out@) == order,
            top_ranked(ks, order, round as nat),
        decreases limit - round,
    {
        let mut best: usize = n;
        let mut j: usize = 0;
        while j < n
            invariant
                0 <= j <= n,
                n == keys@.len(),
                ks == key_ints(keys@),
                chosen@.len() == n,
                order.len() == round < n,
                forall|t: int| 0 <= t < n ==> (#[trigger] chosen@[t] <==> order.contains(t)),
                best == n || (best < j && !chosen@[best as int]),
                forall|m: int|
                    0 <= m < j && !#[trigger] chosen@[m] ==> best < n && (m == best || outranks(
                        ks,
                        best as int,
                        m,
                    )),
            decreases n - j,
        {
            if !chosen[j] {
                if best == n || keys[j] > keys[best] {
                    best = j;
                }
            }
            j += 1;
        }
        assert(best < n) by {
            if best == n {
                lemma_missing_index(order, n as int);
                let t = choose|t: int| 0 <= t < n && !order.contains(t);
                assert(!chosen@[t]);
            }
        }
        let ghost old_order = order;
        let ghost old_chosen = chosen@;
        chosen.set(best, true);
        out.push(best);
        proof {
            order = order.push(best as int);
            assert(positions(out@) =~= order);
            assert forall|t: int| #[trigger] order.contains(t) <==> (old_order.contains(t) || t
                == best) by {
                if t == best {
                    assert(order[round as int] == t);
                }
                if old_order.contains(t) {
                    let p = choose|p: int| 0 <= p < old_order.len() && old_order[p] == t;
                    assert(order[p] == t);
                }
                if order.contains(t) && t != best {
                    let p = choose|p: int| 0 <= p < order.len() && order[p] == t;
                    assert(old_order[p] == t);
                }
            }
            assert forall|t: int| 0 <= t < n implies (#[trigger] chosen@[t] <==> order.contains(
                t,
            )) by {
                assert(old_chosen[t] <==> old_order.contains(t));
            }
            assert forall|p: int, q: int| 0 <= p < q < round + 1 implies outranks(
                ks,
                #[trigger] order[p],
                #[trigger] order[q],
            ) by {
                if q == round {
                    assert(!old_order.contains(best as int));
                    assert(outranks(ks, old_order[p], best as int));
                } else {
                    assert(outranks(ks, old_order[p], old_order[q]));
                }
            }
            assert forall|p: int, t: int|
                0 <= p < round + 1 && 0 <= t < ks.len() && !order.contains(
                    t,
                ) implies #[trigger] outranks(ks, order[p], t) by {
                assert(!old_order.contains(t));
                if p == round {
                    assert(!old_chosen[t]);
                } else {
                    assert(outranks(ks, old_order[p], t));
                }
            }
            assert(top_ranked(ks, order, (round + 1) as nat));
        }
        round += 1;
    }
    out
}

} // verus!
