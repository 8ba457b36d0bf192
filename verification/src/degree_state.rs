//! Sparse directed support state for the fixed-degree MCMC.
//!
//! Keeps the edge list (for O(1) uniform sampling) together with, per
//! source node, a map from target to position in the list (for O(1)
//! membership tests and swap-removal) and the out-degree of every node.
use std::collections::HashMap;
use vstd::prelude::*;
use crate::text::{concat_str, decimal, decimal_chars};

verus! {

broadcast use {vstd::std_specs::hash::group_hash_axioms, vstd::seq_lib::group_seq_properties};

/// Endpoint of an ordered pair: the source when `src` is true, else the target.
pub open spec fn endpoint(e: (u64, u64), src: bool) -> u64 {
    if src {
        e.0
    } else {
        e.1
    }
}

/// Number of ordered pairs in `edges` whose source (`src == true`) or
/// target (`src == false`) is `v`.
pub open spec fn count_at(edges: Seq<(u64, u64)>, src: bool, v: int) -> nat
    decreases edges.len(),
{
    if edges.len() == 0 {
        0
    } else {
        count_at(edges.drop_last(), src, v) + if endpoint(edges.last(), src) == v {
            1nat
        } else {
            0nat
        }
    }
}

/// Out-degree of node `v` in the edge list.
pub open spec fn out_count(edges: Seq<(u64, u64)>, v: int) -> nat {
    count_at(edges, true, v)
}

/// In-degree of node `v` in the edge list.
pub open spec fn in_count(edges: Seq<(u64, u64)>, v: int) -> nat {
    count_at(edges, false, v)
}

/// A simple directed support on `n` nodes: no repeated pair, endpoints in
/// range, and no self-loop unless self-loops are allowed.
pub open spec fn simple_support(edges: Seq<(u64, u64)>, n: nat, self_loops: bool) -> bool {
    &&& edges.no_duplicates()
    &&& forall|k: int|
        0 <= k < edges.len() ==> #[trigger] edges[k].0 < n && edges[k].1 < n && (self_loops
            || edges[k].0 != edges[k].1)
}

/// `edges` is a simple support whose out- and in-degrees are exactly
/// `out_degrees` and `in_degrees`.
pub open spec fn realizes(
    edges: Seq<(u64, u64)>,
    out_degrees: Seq<u32>,
    in_degrees: Seq<u32>,
    self_loops: bool,
) -> bool {
    &&& out_degrees.len() == in_degrees.len()
    &&& simple_support(edges, out_degrees.len() as nat, self_loops)
    &&& forall|v: int|
        0 <= v < out_degrees.len() ==> #[trigger] out_count(edges, v) == out_degrees[v]
            && in_count(edges, v) == in_degrees[v]
}

/// Some simple support realizes the degree sequences.
pub open spec fn degree_realizable(out_degrees: Seq<u32>, in_degrees: Seq<u32>, self_loops: bool) -> bool {
    exists|edges: Seq<(u64, u64)>| realizes(edges, out_degrees, in_degrees, self_loops)
}

/// Removing position `i` by moving the last element into its place.
pub open spec fn swap_remove_seq<A>(s: Seq<A>, i: int) -> Seq<A> {
    if i == s.len() - 1 {
        s.drop_last()
    } else {
        s.drop_last().update(i, s.last())
    }
}

/// Appending one pair adds one to the count of its endpoint.
pub proof fn lemma_count_push(edges: Seq<(u64, u64)>, e: (u64, u64), src: bool, v: int)
    ensures
        count_at(edges.push(e), src, v) == count_at(edges, src, v) + if endpoint(e, src) == v {
            1nat
        } else {
            0nat
        },
{
    assert(edges.push(e).drop_last() =~= edges);
}

/// Replacing one pair moves one unit of count from its old to its new endpoint.
pub proof fn lemma_count_update(edges: Seq<(u64, u64)>, i: int, e: (u64, u64), src: bool, v: int)
    requires
        0 <= i < edges.len(),
    ensures
        count_at(edges.update(i, e), src, v) + (if endpoint(edges[i], src) == v {
            1int
        } else {
            0int
        }) == count_at(edges, src, v) + (if endpoint(e, src) == v {
            1int
        } else {
            0int
        }),
    decreases edges.len(),
{
    if i == edges.len() - 1 {
        assert(edges.update(i, e).drop_last() =~= edges.drop_last());
    } else {
        lemma_count_update(edges.drop_last(), i, e, src, v);
        assert(edges.update(i, e).drop_last() =~= edges.drop_last().update(i, e));
    }
}

/// Swap-removing position `i` removes one unit of count from its endpoint.
pub proof fn lemma_count_swap_remove(edges: Seq<(u64, u64)>, i: int, src: bool, v: int)
    requires
        0 <= i < edges.len(),
    ensures
        count_at(swap_remove_seq(edges, i), src, v) + (if endpoint(edges[i], src) == v {
            1int
        } else {
            0int
        }) == count_at(edges, src, v),
{
    if i < edges.len() - 1 {
        lemma_count_update(edges.drop_last(), i, edges.last(), src, v);
    }
}

/// Counts never exceed the length.
pub proof fn lemma_count_bounded(edges: Seq<(u64, u64)>, src: bool, v: int)
    ensures
        count_at(edges, src, v) <= edges.len(),
    decreases edges.len(),
{
    if edges.len() > 0 {
        lemma_count_bounded(edges.drop_last(), src, v);
    }
}

/// Swap-removal keeps exactly the other elements.
pub proof fn lemma_swap_remove_contains<A>(s: Seq<A>, i: int, x: A)
    requires
        0 <= i < s.len(),
        s.no_duplicates(),
    ensures
        swap_remove_seq(s, i).contains(x) <==> (s.contains(x) && x != s[i]),
        swap_remove_seq(s, i).no_duplicates(),
        swap_remove_seq(s, i).len() == s.len() - 1,
{
    let r = swap_remove_seq(s, i);
    if s.contains(x) && x != s[i] {
        let k = choose|k: int| 0 <= k < s.len() && s[k] == x;
        if k == s.len() - 1 {
            if i < s.len() - 1 {
                assert(r[i] == x);
            }
        } else {
            assert(r[k] == x);
        }
    }
    if r.contains(x) {
        let k = choose|k: int| 0 <= k < r.len() && r[k] == x;
        if i < s.len() - 1 && k == i {
            assert(s[s.len() - 1] == x);
        } else {
            assert(s[k] == x);
        }
    }
}

/// Inserting a pair that is not in the support and then removing it gives
/// back the support exactly: the pair sits last, so the swap-removal drops
/// it and moves nothing.
pub proof fn lemma_insert_then_remove(edges: Seq<(u64, u64)>, pair: (u64, u64), i: int)
    requires
        !edges.contains(pair),
        0 <= i < edges.len() + 1,
        edges.push(pair)[i] == pair,
    ensures
        swap_remove_seq(edges.push(pair), i) == edges,
{
    if i < edges.len() {
        assert(edges[i] == pair);
        assert(edges.contains(pair));
    }
    assert(edges.push(pair).drop_last() =~= edges);
}

/// Sparse state for a directed simple graph support.
#[derive(Clone, Debug)]
pub struct DegreeSupportState {
    pub node_count: usize,
    pub edges: Vec<(u64, u64)>,
    /// Per source node: target -> position of the pair in `edges`.
    pub positions: Vec<HashMap<u64, usize>>,
    /// Per node: current out-degree.
    pub out_counts: Vec<usize>,
}

impl DegreeSupportState {
    /// Consistency of the edge list with the position maps and out-degrees.
    pub open spec fn wf(&self) -> bool {
        &&& self.positions@.len() == self.node_count
        &&& self.out_counts@.len() == self.node_count
        &&& self.edges@.no_duplicates()
        &&& forall|k: int|
            0 <= k < self.edges@.len() ==> #[trigger] self.edges@[k].0 < self.node_count
                && self.edges@[k].1 < self.node_count
        &&& forall|k: int|
            0 <= k < self.edges@.len() ==> #[trigger] self.positions@[self.edges@[k].0 as int]@.contains_key(
                self.edges@[k].1,
            ) && self.positions@[self.edges@[k].0 as int]@[self.edges@[k].1] == k
        &&& forall|s: int, t: u64|
            0 <= s < self.node_count && #[trigger] self.positions@[s]@.contains_key(t) ==> {
                let idx = self.positions@[s]@[t] as int;
                &&& 0 <= idx < self.edges@.len()
                &&& self.edges@[idx] == (s as u64, t)
            }
        &&& forall|s: int|
            0 <= s < self.node_count ==> #[trigger] self.out_counts@[s] == out_count(
                self.edges@,
                s,
            )
    }

    /// Short description: node count and edge count.
    pub fn to_string(&self) -> (s: String)
        ensures
            s@ == "DegreeSupportState(n="@ + decimal_chars(self.node_count as nat) + ", E="@
                + decimal_chars(self.edges@.len()) + ")"@,
    {
        let a = concat_str("DegreeSupportState(n=", decimal(self.node_count as u64).as_str());
        let b = concat_str(a.as_str(), ", E=");
        let c = concat_str(b.as_str(), decimal(self.edges.len() as u64).as_str());
        concat_str(c.as_str(), ")")
    }

    /// Create a new support state from a list of edges.
    ///
    /// The edges must form a simple directed graph on `node_count` nodes
    /// (no repeated pair, no self-loop unless `self_loops`).
    pub fn new(node_count: usize, edges: Vec<(u64, u64)>, self_loops: bool) -> (s: Self)
        requires
            simple_support(edges@, node_count as nat, self_loops),
        ensures
            s.wf(),
            s.node_count == node_count,
            s.edges@ == edges@,
    {
        let mut positions: Vec<HashMap<u64, usize>> = Vec::new();
        let mut out_counts: Vec<usize> = Vec::new();
        let mut r: usize = 0;
        while r < node_count
            invariant
                r <= node_count,
                positions@.len() == r,
                out_counts@.len() == r,
                forall|a: int| 0 <= a < r ==> (#[trigger] positions@[a])@ == Map::<u64, usize>::empty(),
                forall|a: int| 0 <= a < r ==> #[trigger] out_counts@[a] == 0,
            decreases node_count - r,
        {
            positions.push(HashMap::new());
            out_counts.push(0);
            r = r + 1;
        }
        let mut idx: usize = 0;
        while idx < edges.len()
            invariant
                idx <= edges@.len(),
                simple_support(edges@, node_count as nat, self_loops),
                positions@.len() == node_count,
                out_counts@.len() == node_count,
                forall|k: int|
                    0 <= k < idx ==> #[trigger] positions@[edges@[k].0 as int]@.contains_key(
                        edges@[k].1,
                    ) && positions@[edges@[k].0 as int]@[edges@[k].1] == k,
                forall|s: int, t: u64|
                    0 <= s < node_count && #[trigger] positions@[s]@.contains_key(t) ==> {
                        let p = positions@[s]@[t] as int;
                        &&& 0 <= p < idx
                        &&& edges@[p] == (s as u64, t)
                    },
                forall|s: int|
                    0 <= s < node_count ==> #[trigger] out_counts@[s] == out_count(
                        edges@.take(idx as int),
                        s,
                    ),
            decreases edges@.len() - idx,
        {
            let (src, tgt) = edges[idx];
            let su = src as usize;
            proof {
                assert(edges@[idx as int].0 < node_count);
                assert(edges@.take(idx + 1).drop_last() =~= edges@.take(idx as int));
                lemma_count_bounded(edges@.take(idx as int), true, su as int);
                assert forall|s: int| 0 <= s < node_count implies #[trigger] out_count(
                    edges@.take(idx + 1),
                    s,
                ) == out_count(edges@.take(idx as int), s) + if s == su {
                    1int
                } else {
                    0int
                } by {
                    lemma_count_push(edges@.take(idx as int), edges@[idx as int], true, s);
                    assert(edges@.take(idx as int).push(edges@[idx as int]) =~= edges@.take(idx + 1));
                }
                if positions@[su as int]@.contains_key(tgt) {
                    let p = positions@[su as int]@[tgt] as int;
                    assert(edges@[p] == edges@[idx as int]);
                }
            }
            positions[su].insert(tgt, idx);
            out_counts.set(su, out_counts[su] + 1);
            idx = idx + 1;
        }
        assert(edges@.take(idx as int) =~= edges@);
        DegreeSupportState { node_count, edges, positions, out_counts }
    }

    /// Number of edges in the current support.
    pub fn edge_count(&self) -> (m: usize)
        ensures
            m == self.edges@.len(),
    {
        self.edges.len()
    }

    /// Whether an ordered pair is currently occupied.
    pub fn contains(&self, pair: &(u64, u64)) -> (r: bool)
        requires
            self.wf(),
        ensures
            r == self.edges@.contains(*pair),
    {
        let (s, t) = *pair;
        if s >= self.node_count as u64 {
            proof {
                if self.edges@.contains(*pair) {
                    let k = choose|k: int| 0 <= k < self.edges@.len() && self.edges@[k] == *pair;
                    assert(self.edges@[k].0 < self.node_count);
                }
            }
            return false;
        }
        let r = self.positions[s as usize].contains_key(&t);
        proof {
            if r {
                let p = self.positions@[s as int]@[t] as int;
                assert(self.edges@[p] == *pair);
            }
            if self.edges@.contains(*pair) {
                let k = choose|k: int| 0 <= k < self.edges@.len() && self.edges@[k] == *pair;
                assert(self.positions@[self.edges@[k].0 as int]@.contains_key(self.edges@[k].1));
            }
        }
        r
    }

    /// Add an ordered pair to the support.
    pub fn insert(&mut self, pair: (u64, u64))
        requires
            old(self).wf(),
            !old(self).edges@.contains(pair),
            old(self).edges@.len() < usize::MAX,
            pair.0 < old(self).node_count,
            pair.1 < old(self).node_count,
        ensures
            final(self).wf(),
            final(self).node_count == old(self).node_count,
            final(self).edges@ == old(self).edges@.push(pair),
    {
        let idx = self.edges.len();
        let ghost old_edges = self.edges@;
        let su = pair.0 as usize;
        proof {
            lemma_count_bounded(old_edges, true, su as int);
            if self.positions@[su as int]@.contains_key(pair.1) {
                let p = self.positions@[su as int]@[pair.1] as int;
                assert(old_edges[p] == pair);
            }
        }
        self.edges.push(pair);
        self.positions[su].insert(pair.1, idx);
        self.out_counts.set(su, self.out_counts[su] + 1);
        proof {
            assert forall|s: int| 0 <= s < self.node_count implies #[trigger] self.out_counts@[s]
                == out_count(self.edges@, s) by {
                lemma_count_push(old_edges, pair, true, s);
            }
            assert forall|a: int, b: int| 0 <= a < b < self.edges@.len() implies self.edges@[a]
                != self.edges@[b] by {
                if b == idx {
                    assert(old_edges.contains(self.edges@[a]));
                }
            }
        }
    }

    /// Remove an ordered pair from the support (swap-remove).
    pub fn remove(&mut self, pair: &(u64, u64))
        requires
            old(self).wf(),
            old(self).edges@.contains(*pair),
        ensures
            final(self).wf(),
            final(self).node_count == old(self).node_count,
            exists|i: int|
                0 <= i < old(self).edges@.len() && old(self).edges@[i] == *pair
                    && final(self).edges@ == swap_remove_seq(old(self).edges@, i),
    {
        let ghost old_edges = self.edges@;
        let ghost old_pos = self.positions@;
        let (s, t) = *pair;
        let su = s as usize;
        proof {
            let k = choose|k: int| 0 <= k < old_edges.len() && old_edges[k] == *pair;
            assert(self.positions@[old_edges[k].0 as int]@.contains_key(old_edges[k].1));
        }
        let idx: usize = match self.positions[su].remove(&t) {
            Some(i) => i,
            None => {
                proof {
                    assert(false);
                }
                0
            },
        };
        assert(old_edges[idx as int] == *pair);
        let ghost pos1 = self.positions@;
        assert(forall|x: int| 0 <= x < self.node_count && x != su ==> pos1[x] == old_pos[x]);
        assert(pos1[su as int]@ == old_pos[su as int]@.remove(t));
        let last = match self.edges.pop() {
            Some(e) => e,
            None => {
                proof {
                    assert(false);
                }
                (0, 0)
            },
        };
        if idx < self.edges.len() {
            self.edges.set(idx, last);
            let lu = last.0 as usize;
            assert(old_edges[old_edges.len() - 1] == last);
            assert(lu < self.node_count);
            self.positions[lu].insert(last.1, idx);
        }
        proof {
            lemma_count_bounded(old_edges, true, su as int);
            assert(out_count(old_edges, su as int) >= 1) by {
                lemma_count_swap_remove(old_edges, idx as int, true, su as int);
            }
        }
        self.out_counts.set(su, self.out_counts[su] - 1);
        proof {
            let n = self.edges@;
            assert(n =~= swap_remove_seq(old_edges, idx as int));
            lemma_swap_remove_contains(old_edges, idx as int, *pair);
            assert forall|v: int| 0 <= v < self.node_count implies #[trigger] self.out_counts@[v]
                == out_count(n, v) by {
                lemma_count_swap_remove(old_edges, idx as int, true, v);
            }
            assert forall|k: int| 0 <= k < n.len() implies #[trigger] self.positions@[n[k].0 as int]@.contains_key(
                n[k].1,
            ) && self.positions@[n[k].0 as int]@[n[k].1] == k by {
                if k == idx {
                    assert(n[k] == last);
                } else {
                    let e = old_edges[k];
                    assert(n[k] == e);
                    assert(e != old_edges[idx as int]);
                    assert(old_pos[e.0 as int]@.contains_key(e.1) && old_pos[e.0 as int]@[e.1] == k);
                    assert(pos1[e.0 as int]@.contains_key(e.1) && pos1[e.0 as int]@[e.1] == k);
                    if idx < n.len() {
                        assert(e != last);
                    }
                }
            }
            assert forall|a: int, b: u64|
                0 <= a < self.node_count && #[trigger] self.positions@[a]@.contains_key(b) implies {
                let p = self.positions@[a]@[b] as int;
                &&& 0 <= p < n.len()
                &&& n[p] == (a as u64, b)
            } by {
                if idx < n.len() && a == last.0 && b == last.1 {
                } else {
                    let p = self.positions@[a]@[b] as int;
                    assert(old(self).positions@[a]@.contains_key(b));
                    assert(old_edges[p] == (a as u64, b));
                    if p == old_edges.len() - 1 {
                        assert(old_edges[p] == last);
                    }
                    assert(p != idx);
                }
            }
            assert forall|k: int| 0 <= k < n.len() implies #[trigger] n[k].0 < self.node_count
                && n[k].1 < self.node_count by {
                let j = if k == idx {
                    old_edges.len() - 1
                } else {
                    k
                };
                assert(n[k] == old_edges[j]);
                assert(old(self).edges@[j].0 < self.node_count && old(self).edges@[j].1 < self.node_count);
            }
        }
    }

    /// Current out-degree of a node.
    pub fn out_degree(&self, node: usize) -> (d: usize)
        requires
            self.wf(),
            node < self.node_count,
        ensures
            d == out_count(self.edges@, node as int),
    {
        self.out_counts[node]
    }

    /// In-degree of a node, computed by scanning the edge list.
    pub fn in_degree(&self, node: usize) -> (d: usize)
        ensures
            d == in_count(self.edges@, node as int),
    {
        let mut d: usize = 0;
        let mut k: usize = 0;
        while k < self.edges.len()
            invariant
                k <= self.edges@.len(),
                d == in_count(self.edges@.take(k as int), node as int),
            decreases self.edges@.len() - k,
        {
            proof {
                assert(self.edges@.take(k + 1).drop_last() =~= self.edges@.take(k as int));
                lemma_count_bounded(self.edges@.take(k as int), false, node as int);
            }
            if self.edges[k].1 as usize == node && self.edges[k].1 == node as u64 {
                d = d + 1;
            }
            k = k + 1;
        }
        assert(self.edges@.take(k as int) =~= self.edges@);
        d
    }

    /// The full out-degree sequence (each degree truncated to `u32`).
    pub fn out_degree_sequence(&self) -> (seq: Vec<u32>)
        requires
            self.wf(),
        ensures
            seq@.len() == self.node_count,
            forall|v: int|
                0 <= v < self.node_count ==> #[trigger] seq@[v] == (out_count(self.edges@, v) as u32),
            self.edges@.len() <= u32::MAX ==> crate::seqs::seq_sum_u32(seq@) == self.edges@.len(),
    {
        let mut seq: Vec<u32> = Vec::new();
        let mut v: usize = 0;
        while v < self.node_count
            invariant
                self.wf(),
                v <= self.node_count,
                seq@.len() == v,
                forall|a: int|
                    0 <= a < v ==> #[trigger] seq@[a] == (out_count(self.edges@, a) as u32),
            decreases self.node_count - v,
        {
            seq.push(self.out_counts[v] as u32);
            v = v + 1;
        }
        proof {
            if self.edges@.len() <= u32::MAX {
                let n = self.node_count as nat;
                assert forall|k: int| 0 <= k < self.edges@.len() implies #[trigger] endpoint(
                    self.edges@[k],
                    true,
                ) < n by {
                    assert(self.edges@.contains(self.edges@[k]));
                }
                lemma_node_sum_total(self.edges@, true, n);
                assert forall|a: int| 0 <= a < n implies #[trigger] seq@[a] == count_at(
                    self.edges@,
                    true,
                    a,
                ) by {
                    lemma_count_bounded(self.edges@, true, a);
                }
                lemma_node_sum_counts(self.edges@, true, seq@, n as int);
                assert(seq@.take(n as int) =~= seq@);
            }
        }
        seq
    }

    /// Consistency validation. Every check it makes holds of a well-formed
    /// state, so on such states it has no effect.
    pub fn debug_validate(&self)
        requires
            self.wf(),
    {
    }
}

/// Number of `w` in `[0, k)` satisfying `p`.
pub open spec fn count_true(p: spec_fn(int) -> bool, k: int) -> nat
    decreases k,
{
    if k <= 0 {
        0
    } else {
        count_true(p, k - 1) + if p(k - 1) {
            1nat
        } else {
            0nat
        }
    }
}

/// The ordered pair with `node` on the given side and `w` on the other.
pub open spec fn oriented(node: int, w: int, src: bool) -> (u64, u64) {
    if src {
        (node as u64, w as u64)
    } else {
        (w as u64, node as u64)
    }
}

/// Predicates that agree on `[0, k)` count alike.
pub proof fn lemma_count_true_ext(p: spec_fn(int) -> bool, q: spec_fn(int) -> bool, k: int)
    requires
        forall|w: int| 0 <= w < k ==> #[trigger] p(w) == q(w),
    ensures
        count_true(p, k) == count_true(q, k),
    decreases k,
{
    if k > 0 {
        lemma_count_true_ext(p, q, k - 1);
    }
}

/// Adding one point `w0` inside `[0, k)` to a predicate adds one to its count.
pub proof fn lemma_count_true_add_one(p: spec_fn(int) -> bool, q: spec_fn(int) -> bool, w0: int, k: int)
    requires
        forall|w: int| 0 <= w < k ==> #[trigger] p(w) == (q(w) || w == w0),
        !q(w0),
        0 <= w0 < k,
    ensures
        count_true(p, k) == count_true(q, k) + 1,
    decreases k,
{
    if w0 == k - 1 {
        lemma_count_true_ext(p, q, k - 1);
    } else {
        lemma_count_true_add_one(p, q, w0, k - 1);
    }
}

/// Counting a conjunction with a negated sub-predicate subtracts.
pub proof fn lemma_count_true_minus(a: spec_fn(int) -> bool, b: spec_fn(int) -> bool, k: int)
    requires
        forall|w: int| 0 <= w < k && #[trigger] b(w) ==> a(w),
    ensures
        count_true(|w: int| a(w) && !b(w), k) == count_true(a, k) - count_true(b, k),
        count_true(b, k) <= count_true(a, k),
    decreases k,
{
    if k > 0 {
        lemma_count_true_minus(a, b, k - 1);
    }
}

/// Counting the pairs allowed by the self-loop policy in one row or column.
pub proof fn lemma_count_true_policy(node: int, n: int, self_loops: bool)
    requires
        0 <= node < n,
    ensures
        count_true(|w: int| self_loops || w != node, n) == n - if self_loops {
            0int
        } else {
            1int
        },
    decreases n,
{
    let p = |w: int| self_loops || w != node;
    if n - 1 == node {
        lemma_count_true_all(p, n - 1);
    } else {
        lemma_count_true_policy(node, n - 1, self_loops);
    }
}

/// A predicate true on all of `[0, k)` counts `k`.
pub proof fn lemma_count_true_all(p: spec_fn(int) -> bool, k: int)
    requires
        forall|w: int| 0 <= w < k ==> #[trigger] p(w),
        k >= 0,
    ensures
        count_true(p, k) == k,
    decreases k,
{
    if k > 0 {
        lemma_count_true_all(p, k - 1);
    }
}

/// In a simple support, the out-degree (in-degree) of a node equals the
/// number of nodes it has a pair to (from).
pub proof fn lemma_count_at_is_row_count(edges: Seq<(u64, u64)>, n: nat, node: int, src: bool)
    requires
        edges.no_duplicates(),
        forall|k: int| 0 <= k < edges.len() ==> #[trigger] edges[k].0 < n && edges[k].1 < n,
        0 <= node < n,
        n <= u64::MAX,
    ensures
        count_at(edges, src, node) == count_true(|w: int| edges.contains(oriented(node, w, src)), n as int),
    decreases edges.len(),
{
    let p = |w: int| edges.contains(oriented(node, w, src));
    if edges.len() == 0 {
        lemma_count_true_ext(p, |w: int| false, n as int);
        lemma_count_true_zero(n as int);
    } else {
        let rest = edges.drop_last();
        let e = edges.last();
        assert forall|k: int| 0 <= k < rest.len() implies #[trigger] rest[k].0 < n && rest[k].1 < n by {
            assert(rest[k] == edges[k]);
        }
        lemma_count_at_is_row_count(rest, n, node, src);
        let q = |w: int| rest.contains(oriented(node, w, src));
        assert(!rest.contains(e)) by {
            if rest.contains(e) {
                let k = choose|k: int| 0 <= k < rest.len() && rest[k] == e;
                assert(edges[k] == edges[edges.len() - 1]);
            }
        }
        assert(edges[edges.len() - 1].0 < n && edges[edges.len() - 1].1 < n);
        if endpoint(e, src) == node {
            let w0: int = if src {
                e.1 as int
            } else {
                e.0 as int
            };
            assert(oriented(node, w0, src) == e);
            assert forall|w: int| 0 <= w < n implies #[trigger] p(w) == (q(w) || w == w0) by {
                assert(edges =~= rest.push(e));
                if w != w0 {
                    assert(oriented(node, w, src) != e);
                }
            }
            lemma_count_true_add_one(p, q, w0, n as int);
        } else {
            assert forall|w: int| 0 <= w < n implies #[trigger] p(w) == q(w) by {
                assert(edges =~= rest.push(e));
                assert(oriented(node, w, src) != e);
            }
            lemma_count_true_ext(p, q, n as int);
        }
    }
}

/// The empty predicate counts zero.
pub proof fn lemma_count_true_zero(k: int)
    ensures
        count_true(|w: int| false, k) == 0,
    decreases k,
{
    if k > 0 {
        lemma_count_true_zero(k - 1);
    }
}

/// Sum of the per-node counts over nodes `[0, k)`.
pub open spec fn node_sum(edges: Seq<(u64, u64)>, src: bool, k: int) -> nat
    decreases k,
{
    if k <= 0 {
        0
    } else {
        node_sum(edges, src, k - 1) + count_at(edges, src, k - 1)
    }
}

/// Appending a pair raises the node sum by one if its endpoint is counted.
pub proof fn lemma_node_sum_push(edges: Seq<(u64, u64)>, e: (u64, u64), src: bool, k: int)
    ensures
        node_sum(edges.push(e), src, k) == node_sum(edges, src, k) + if 0 <= endpoint(e, src) < k {
            1nat
        } else {
            0nat
        },
    decreases k,
{
    if k > 0 {
        lemma_node_sum_push(edges, e, src, k - 1);
        lemma_count_push(edges, e, src, k - 1);
    }
}

/// With every endpoint in `[0, n)`, the per-node counts add up to the length.
pub proof fn lemma_node_sum_total(edges: Seq<(u64, u64)>, src: bool, n: nat)
    requires
        forall|k: int| 0 <= k < edges.len() ==> #[trigger] endpoint(edges[k], src) < n,
    ensures
        node_sum(edges, src, n as int) == edges.len(),
    decreases edges.len(),
{
    if edges.len() == 0 {
        lemma_node_sum_empty(src, n as int);
    } else {
        let rest = edges.drop_last();
        assert forall|k: int| 0 <= k < rest.len() implies #[trigger] endpoint(rest[k], src) < n by {
            assert(rest[k] == edges[k]);
        }
        lemma_node_sum_total(rest, src, n);
        assert(endpoint(edges[edges.len() - 1], src) < n);
        lemma_node_sum_push(rest, edges.last(), src, n as int);
        assert(rest.push(edges.last()) =~= edges);
    }
}

/// Node sums are prefix sums of any sequence listing the per-node counts.
proof fn lemma_node_sum_counts(edges: Seq<(u64, u64)>, src: bool, s: Seq<u32>, k: int)
    requires
        0 <= k <= s.len(),
        forall|v: int| 0 <= v < k ==> #[trigger] s[v] == count_at(edges, src, v),
    ensures
        node_sum(edges, src, k) == crate::seqs::seq_sum_u32(s.take(k)),
    decreases k,
{
    if k > 0 {
        lemma_node_sum_counts(edges, src, s, k - 1);
        assert(s.take(k).drop_last() =~= s.take(k - 1));
    }
}

/// The empty support has node sum zero.
pub proof fn lemma_node_sum_empty(src: bool, k: int)
    ensures
        node_sum(Seq::<(u64, u64)>::empty(), src, k) == 0,
    decreases k,
{
    if k > 0 {
        lemma_node_sum_empty(src, k - 1);
    }
}

/// A realized support has exactly `sum(out_degrees)` pairs.
pub proof fn lemma_realized_edge_count(
    edges: Seq<(u64, u64)>,
    out_degrees: Seq<u32>,
    in_degrees: Seq<u32>,
    self_loops: bool,
)
    requires
        realizes(edges, out_degrees, in_degrees, self_loops),
    ensures
        edges.len() == crate::seqs::seq_sum_u32(out_degrees),
{
    let n = out_degrees.len();
    assert forall|k: int| 0 <= k < edges.len() implies #[trigger] endpoint(edges[k], true) < n by {
        assert(edges[k].0 < n);
    }
    lemma_node_sum_total(edges, true, n);
    lemma_node_sum_matches(edges, out_degrees, in_degrees, self_loops, n as int);
    assert(out_degrees.take(n as int) =~= out_degrees);
}

/// Node sums of a realized support are prefix sums of the out-degrees.
proof fn lemma_node_sum_matches(
    edges: Seq<(u64, u64)>,
    out_degrees: Seq<u32>,
    in_degrees: Seq<u32>,
    self_loops: bool,
    k: int,
)
    requires
        realizes(edges, out_degrees, in_degrees, self_loops),
        0 <= k <= out_degrees.len(),
    ensures
        node_sum(edges, true, k) == crate::seqs::seq_sum_u32(out_degrees.take(k)),
    decreases k,
{
    if k > 0 {
        lemma_node_sum_matches(edges, out_degrees, in_degrees, self_loops, k - 1);
        assert(out_degrees.take(k).drop_last() =~= out_degrees.take(k - 1));
        assert(out_count(edges, k - 1) == out_degrees[k - 1]);
    }
}

} // verus!
