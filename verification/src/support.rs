//! Directed fixed-degree supports: greedy construction, the directed
//! double-edge switch, the switch chain and the one-shot support sampler.
use rand::rngs::StdRng;
use vstd::prelude::*;

use crate::degree_state::{
    count_at, count_true, in_count, lemma_count_at_is_row_count, lemma_count_bounded,
    lemma_count_push, lemma_count_swap_remove, lemma_count_true_ext, lemma_count_true_minus,
    lemma_count_true_policy, lemma_realized_edge_count, lemma_swap_remove_contains, oriented,
    out_count,
    realizes, simple_support, swap_remove_seq, DegreeSupportState,
};
use crate::fixed_kt::{
    classify_heterogeneity, complement_degrees, heterogeneity_class, max_allowed_degree,
    maybe_complement, seq_max_u32, DegreeHeterogeneity, FixedDegreeDiagnostics, FixedKTError,
    RepresentationMode,
};
use crate::rng::{random_below, random_u64, rng_from_seed};
use crate::text::{num_msg, push_num};
use crate::seqs::{
    copy_slice, lemma_seq_sum_u32_element, lemma_seq_sum_u32_nonneg, lemma_seq_sum_u32_update,
    lemma_seq_sum_u32_zero, seq_sum_u32,
};

verus! {

broadcast use vstd::seq_lib::group_seq_properties;

/// Whether `(s, t)` is admissible under an optional admissible-pair list
/// (no list means every pair is admissible).
pub open spec fn admits(admissible_pairs: Option<&[(u64, u64)]>, s: u64, t: u64) -> bool {
    match admissible_pairs {
        None => true,
        Some(ap) => ap@.contains((s, t)),
    }
}

/// Membership test against an optional admissible-pair list.
pub fn is_admissible_pair(admissible_pairs: Option<&[(u64, u64)]>, s: u64, t: u64) -> (r: bool)
    ensures
        r == admits(admissible_pairs, s, t),
{
    match admissible_pairs {
        None => true,
        Some(ap) => {
            let mut k: usize = 0;
            while k < ap.len()
                invariant
                    admissible_pairs == Some(ap),
                    k <= ap@.len(),
                    forall|q: int| 0 <= q < k ==> ap@[q] != (s, t),
                decreases ap@.len() - k,
            {
                if ap[k].0 == s && ap[k].1 == t {
                    assert(ap@[k as int] == (s, t));
                    return true;
                }
                k = k + 1;
            }
            false
        },
    }
}

/// Index of the first largest element of a non-empty sequence.
fn first_max(s: &Vec<u32>) -> (r: usize)
    requires
        s@.len() > 0,
    ensures
        r < s@.len(),
        forall|k: int| 0 <= k < s@.len() ==> s@[k] <= s@[r as int],
        forall|k: int| 0 <= k < r ==> s@[k] < s@[r as int],
{
    let mut best: usize = 0;
    let mut i: usize = 1;
    while i < s.len()
        invariant
            1 <= i <= s@.len(),
            best < i,
            forall|k: int| 0 <= k < i ==> s@[k] <= s@[best as int],
            forall|k: int| 0 <= k < best ==> s@[k] < s@[best as int],
        decreases s@.len() - i,
    {
        if s[i] > s[best] {
            best = i;
        }
        i = i + 1;
    }
    best
}

/// Every candidate target satisfies `p`, and no target repeats.
pub open spec fn candidates_ok(c: Seq<(u32, usize)>, p: spec_fn(usize) -> bool) -> bool {
    &&& forall|k: int| 0 <= k < c.len() ==> #[trigger] p(c[k].1)
    &&& forall|a: int, b: int|
        #![trigger c[a].1, c[b].1]
        0 <= a < c.len() && 0 <= b < c.len() && a != b ==> c[a].1 != c[b].1
}

/// Exchange two candidates.
fn swap_candidates(c: &mut Vec<(u32, usize)>, a: usize, b: usize, Ghost(p): Ghost<
    spec_fn(usize) -> bool,
>)
    requires
        a < old(c)@.len(),
        b < old(c)@.len(),
        candidates_ok(old(c)@, p),
    ensures
        final(c)@ == old(c)@.update(a as int, old(c)@[b as int]).update(b as int, old(c)@[a as int]),
        final(c)@.len() == old(c)@.len(),
        candidates_ok(final(c)@, p),
{
    let ghost o = c@;
    let x = c[a];
    let y = c[b];
    c.set(a, y);
    c.set(b, x);
    let ghost m = c@;
    assert forall|k: int| 0 <= k < m.len() implies #[trigger] p(m[k].1) by {
        if k == a {
            assert(p(o[b as int].1));
        } else if k == b {
            assert(p(o[a as int].1));
        } else {
            assert(p(o[k].1));
        }
    }
    assert forall|i: int, j: int|
        #![trigger m[i].1, m[j].1]
        0 <= i < m.len() && 0 <= j < m.len() && i != j implies m[i].1 != m[j].1 by {
        let oi = if i == a {
            b as int
        } else if i == b {
            a as int
        } else {
            i
        };
        let oj = if j == a {
            b as int
        } else if j == b {
            a as int
        } else {
            j
        };
        assert(m[i] == o[oi]);
        assert(m[j] == o[oj]);
        assert(o[oi].1 != o[oj].1);
    }
}

/// Candidate `x` comes before `y`: a larger remaining in-degree first, the
/// lower node index on ties.
pub open spec fn cand_before(x: (u32, usize), y: (u32, usize)) -> bool {
    x.0 > y.0 || (x.0 == y.0 && x.1 < y.1)
}

/// The candidates' node indices strictly increase.
pub open spec fn increasing_targets(c: Seq<(u32, usize)>) -> bool {
    forall|a: int, b: int| 0 <= a < b < c.len() ==> #[trigger] c[a].1 < #[trigger] c[b].1
}

/// Stable insertion sort of the candidates by decreasing first component:
/// the result is a permutation of the input, and candidates listed by
/// increasing node index come out in [`cand_before`] order.
fn sort_candidates_desc(c: &mut Vec<(u32, usize)>, Ghost(p): Ghost<spec_fn(usize) -> bool>)
    requires
        candidates_ok(old(c)@, p),
    ensures
        final(c)@.len() == old(c)@.len(),
        candidates_ok(final(c)@, p),
        final(c)@.to_multiset() == old(c)@.to_multiset(),
        forall|a: int, b: int| 0 <= a < b < final(c)@.len() ==> final(c)@[a].0 >= final(c)@[b].0,
        increasing_targets(old(c)@) ==> forall|a: int, b: int|
            0 <= a < b < final(c)@.len() ==> cand_before(final(c)@[a], final(c)@[b]),
{
    let ghost o = c@;
    let ghost inc = increasing_targets(o);
    let len = c.len();
    let mut i: usize = 1;
    while i < len
        invariant
            1 <= i,
            i <= len || len == 0,
            o.len() == len,
            c@.len() == len,
            inc == increasing_targets(o),
            candidates_ok(c@, p),
            c@.to_multiset() == o.to_multiset(),
            forall|a: int, b: int| 0 <= a < b < i && b < len ==> c@[a].0 >= c@[b].0,
            inc ==> forall|a: int, b: int|
                0 <= a < b < i && b < len ==> cand_before(c@[a], c@[b]),
            forall|t: int| i <= t < len ==> #[trigger] c@[t] == o[t],
            inc && i < len ==> forall|a: int| 0 <= a < i ==> #[trigger] c@[a].1 < o[i as int].1,
        decreases len - i,
    {
        let ghost x = o[i as int];
        let mut j: usize = i;
        while j > 0 && c[j - 1].0 < c[j].0
            invariant
                1 <= i < len,
                j <= i,
                o.len() == len,
                c@.len() == len,
                inc == increasing_targets(o),
                x == o[i as int],
                candidates_ok(c@, p),
                c@.to_multiset() == o.to_multiset(),
                c@[j as int] == x,
                forall|t: int| i < t < len ==> #[trigger] c@[t] == o[t],
                forall|a: int, b: int|
                    0 <= a < b <= i && a != j && b != j ==> c@[a].0 >= c@[b].0,
                forall|b: int| j < b <= i ==> x.0 > #[trigger] c@[b].0,
                inc ==> forall|a: int, b: int|
                    0 <= a < b <= i && a != j && b != j ==> cand_before(c@[a], c@[b]),
                inc ==> forall|t: int| 0 <= t <= i && t != j ==> #[trigger] c@[t].1 < x.1,
            decreases j,
        {
            let ghost before = c@;
            proof {
                lemma_swap_to_multiset(c@, (j - 1) as int, j as int);
            }
            swap_candidates(c, j - 1, j, Ghost(p));
            proof {
                let jj = j as int;
                assert forall|a: int, b: int|
                    0 <= a < b <= i && a != jj - 1 && b != jj - 1 implies c@[a].0 >= c@[b].0 by {
                    let oa = if a == jj { jj - 1 } else { a };
                    let ob = if b == jj { jj - 1 } else { b };
                    assert(c@[a] == before[oa]);
                    assert(c@[b] == before[ob]);
                    if oa != jj && ob != jj {
                        if oa < ob {
                        } else {
                        }
                    }
                }
                if inc {
                    assert forall|a: int, b: int|
                        0 <= a < b <= i && a != jj - 1 && b != jj - 1 implies cand_before(
                        c@[a],
                        c@[b],
                    ) by {
                        let oa = if a == jj { jj - 1 } else { a };
                        let ob = if b == jj { jj - 1 } else { b };
                        assert(c@[a] == before[oa]);
                        assert(c@[b] == before[ob]);
                    }
                    assert forall|t: int| 0 <= t <= i && t != jj - 1 implies #[trigger] c@[t].1
                        < x.1 by {
                        if t == jj {
                            assert(c@[t] == before[jj - 1]);
                        } else {
                            assert(c@[t] == before[t]);
                        }
                    }
                }
                assert forall|b: int| jj - 1 < b <= i implies x.0 > #[trigger] c@[b].0 by {
                    if b == jj {
                        assert(c@[b] == before[jj - 1]);
                    } else {
                        assert(c@[b] == before[b]);
                    }
                }
                assert forall|t: int| i < t < len implies #[trigger] c@[t] == o[t] by {
                    assert(c@[t] == before[t]);
                }
            }
            j = j - 1;
        }
        proof {
            let jj = j as int;
            assert forall|a: int, b: int| 0 <= a < b < i + 1 && b < len implies c@[a].0
                >= c@[b].0 by {
                if b == jj && a < jj - 1 {
                    assert(c@[a].0 >= c@[jj - 1].0);
                }
            }
            if inc {
                assert forall|a: int, b: int| 0 <= a < b < i + 1 && b < len implies cand_before(
                    c@[a],
                    c@[b],
                ) by {
                    if b == jj {
                        assert(cand_before(c@[jj - 1], c@[jj]));
                        if a < jj - 1 {
                            assert(cand_before(c@[a], c@[jj - 1]));
                        }
                    }
                }
                if i + 1 < len {
                    assert(o[i as int].1 < o[i + 1].1);
                    assert forall|a: int| 0 <= a < i + 1 implies #[trigger] c@[a].1 < o[i + 1].1 by {
                        if a != jj {
                            assert(c@[a].1 < x.1);
                        }
                    }
                }
            }
        }
        i = i + 1;
    }
}

/// Exchanging two entries keeps the multiset of entries.
proof fn lemma_swap_to_multiset<A>(s: Seq<A>, a: int, b: int)
    requires
        0 <= a < s.len(),
        0 <= b < s.len(),
    ensures
        s.update(a, s[b]).update(b, s[a]).to_multiset() == s.to_multiset(),
{
    broadcast use vstd::multiset::group_multiset_axioms;

    let x = s[a];
    let y = s[b];
    if a != b {
        vstd::seq_lib::to_multiset_update(s, a, y);
        vstd::seq_lib::to_multiset_update(s.update(a, y), b, x);
        vstd::seq_lib::to_multiset_contains(s, x);
        assert(s.contains(x));
        let m = s.to_multiset();
        assert(m.insert(y).remove(x).insert(x).remove(y) =~= m);
    } else {
        assert(s.update(a, y).update(b, x) =~= s);
    }
}

/// Shuffle uniformly (Fisher-Yates) within every run of equal first
/// components; the runs themselves stay in place.
///
/// The result is a permutation of the candidates in which every position
/// keeps its first component.
fn shuffle_ties(c: &mut Vec<(u32, usize)>, rng: &mut StdRng, Ghost(p): Ghost<spec_fn(usize) -> bool>)
    requires
        candidates_ok(old(c)@, p),
    ensures
        final(c)@.len() == old(c)@.len(),
        candidates_ok(final(c)@, p),
        final(c)@.to_multiset() == old(c)@.to_multiset(),
        forall|k: int| 0 <= k < final(c)@.len() ==> #[trigger] final(c)@[k].0 == old(c)@[k].0,
{
    let ghost o = c@;
    let len = c.len();
    let mut i: usize = 0;
    while i < len
        invariant
            i <= len,
            c@.len() == len,
            o.len() == len,
            candidates_ok(c@, p),
            c@.to_multiset() == o.to_multiset(),
            forall|k: int| 0 <= k < len ==> #[trigger] c@[k].0 == o[k].0,
        decreases len - i,
    {
        let mut j: usize = i;
        while j < len && c[j].0 == c[i].0
            invariant
                i < len,
                i <= j <= len,
                c@.len() == len,
                forall|t: int| i <= t < j ==> #[trigger] c@[t].0 == c@[i as int].0,
            decreases len - j,
        {
            j = j + 1;
        }
        if j - i > 1 {
            let ghost run = c@[i as int].0;
            let mut k: usize = j - i - 1;
            while k >= 1
                invariant
                    i + k < j <= len,
                    c@.len() == len,
                    o.len() == len,
                    candidates_ok(c@, p),
                    c@.to_multiset() == o.to_multiset(),
                    forall|t: int| 0 <= t < len ==> #[trigger] c@[t].0 == o[t].0,
                    forall|t: int| i <= t < j ==> #[trigger] c@[t].0 == run,
                decreases k,
            {
                let idx = random_below(rng, k + 1);
                let ghost before = c@;
                proof {
                    lemma_swap_to_multiset(c@, (i + k) as int, (i + idx) as int);
                    assert(before[(i + k) as int].0 == run);
                    assert(before[(i + idx) as int].0 == run);
                }
                swap_candidates(c, i + k, i + idx, Ghost(p));
                proof {
                    assert forall|t: int| 0 <= t < len implies #[trigger] c@[t].0 == o[t].0 by {
                        assert(before[t].0 == o[t].0);
                    }
                    assert forall|t: int| i <= t < j implies #[trigger] c@[t].0 == run by {
                        assert(before[t].0 == run);
                    }
                }
                k = k - 1;
            }
        }
        if j == i {
            j = j + 1;
        }
        i = j;
    }
}

/// Index of the first largest element (0 for an empty sequence).
pub open spec fn spec_first_max(s: Seq<u32>) -> int
    decreases s.len(),
{
    if s.len() <= 1 {
        0
    } else {
        let m = spec_first_max(s.drop_last());
        if s.last() > s[m] {
            s.len() - 1
        } else {
            m
        }
    }
}

/// `r` indexes a largest element, and every earlier element is smaller.
pub open spec fn is_first_max(s: Seq<u32>, r: int) -> bool {
    &&& 0 <= r < s.len()
    &&& forall|k: int| 0 <= k < s.len() ==> #[trigger] s[k] <= s[r]
    &&& forall|k: int| 0 <= k < r ==> #[trigger] s[k] < s[r]
}

/// [`spec_first_max`] is a first largest element, and the only one.
pub proof fn lemma_first_max(s: Seq<u32>)
    requires
        s.len() > 0,
    ensures
        is_first_max(s, spec_first_max(s)),
        forall|r: int| #[trigger] is_first_max(s, r) ==> r == spec_first_max(s),
    decreases s.len(),
{
    if s.len() > 1 {
        let t = s.drop_last();
        lemma_first_max(t);
        assert forall|k: int| 0 <= k < t.len() implies #[trigger] s[k] == t[k] by {}
    }
    let f = spec_first_max(s);
    assert forall|r: int| #[trigger] is_first_max(s, r) implies r == f by {
        if r < f {
            assert(s[r] < s[f]);
        } else if r > f {
            assert(s[f] < s[r]);
        }
    }
}

/// Whether `w` is a candidate target of source `u` in the deterministic
/// greedy pass: some in-degree left, allowed by the self-loop policy, and
/// admissible.
pub open spec fn greedy_cand(
    in_rem: Seq<u32>,
    u: int,
    w: int,
    self_loops: bool,
    adm: spec_fn(u64, u64) -> bool,
) -> bool {
    0 <= w < in_rem.len() && in_rem[w] > 0 && (self_loops || u != w) && adm(u as u64, w as u64)
}

/// Number of candidate targets of `u` among `[0, k)`.
pub open spec fn greedy_cand_count(
    in_rem: Seq<u32>,
    u: int,
    self_loops: bool,
    adm: spec_fn(u64, u64) -> bool,
    k: int,
) -> nat
    decreases k,
{
    if k <= 0 {
        0
    } else {
        greedy_cand_count(in_rem, u, self_loops, adm, k - 1) + if greedy_cand(
            in_rem,
            u,
            k - 1,
            self_loops,
            adm,
        ) {
            1nat
        } else {
            0nat
        }
    }
}

/// Target `w` is preferred to `q`: more remaining in-degree, or the lower
/// index on ties.
pub open spec fn key_before(in_rem: Seq<u32>, w: int, q: int) -> bool {
    in_rem[w] > in_rem[q] || (in_rem[w] == in_rem[q] && w < q)
}

/// The preferred candidate target of `u` among `[0, k)` not yet `taken`.
pub open spec fn greedy_best(
    in_rem: Seq<u32>,
    u: int,
    self_loops: bool,
    adm: spec_fn(u64, u64) -> bool,
    taken: Seq<int>,
    k: int,
) -> Option<int>
    decreases k,
{
    if k <= 0 {
        None
    } else {
        let prev = greedy_best(in_rem, u, self_loops, adm, taken, k - 1);
        let w = k - 1;
        if greedy_cand(in_rem, u, w, self_loops, adm) && !taken.contains(w) {
            match prev {
                None => Some(w),
                Some(q) => if key_before(in_rem, w, q) {
                    Some(w)
                } else {
                    Some(q)
                },
            }
        } else {
            prev
        }
    }
}

/// The first `d` targets the deterministic pass gives `u`, in order.
pub open spec fn greedy_picks(
    in_rem: Seq<u32>,
    u: int,
    self_loops: bool,
    adm: spec_fn(u64, u64) -> bool,
    d: nat,
) -> Seq<int>
    decreases d,
{
    if d == 0 {
        Seq::empty()
    } else {
        let prev = greedy_picks(in_rem, u, self_loops, adm, (d - 1) as nat);
        match greedy_best(in_rem, u, self_loops, adm, prev, in_rem.len() as int) {
            Some(x) => prev.push(x),
            None => prev,
        }
    }
}

/// Remaining in-degrees after `u` takes its `d` targets.
pub open spec fn greedy_next_in(
    in_rem: Seq<u32>,
    u: int,
    self_loops: bool,
    adm: spec_fn(u64, u64) -> bool,
    d: nat,
) -> Seq<u32> {
    Seq::new(
        in_rem.len(),
        |v: int|
            if greedy_picks(in_rem, u, self_loops, adm, d).contains(v) {
                (in_rem[v] - 1) as u32
            } else {
                in_rem[v]
            },
    )
}

/// The deterministic greedy pass succeeds: repeatedly the first node with
/// the largest remaining out-degree takes that many targets, preferring
/// larger remaining in-degrees and then lower indices, among the nodes
/// with in-degree left that the self-loop policy and `adm` allow; the pass
/// fails when a node has too few such targets or in-degree is left over.
pub open spec fn greedy_pass_ok(
    out_rem: Seq<u32>,
    in_rem: Seq<u32>,
    self_loops: bool,
    adm: spec_fn(u64, u64) -> bool,
) -> bool
    decreases seq_sum_u32(out_rem),
{
    if out_rem.len() == 0 {
        true
    } else {
        let u = spec_first_max(out_rem);
        let d = out_rem[u];
        if d == 0 {
            forall|v: int| 0 <= v < in_rem.len() ==> in_rem[v] == 0
        } else if greedy_cand_count(in_rem, u, self_loops, adm, in_rem.len() as int) < d {
            false
        } else {
            proof {
                lemma_first_max(out_rem);
                lemma_seq_sum_u32_update(out_rem, u, 0);
                lemma_seq_sum_u32_nonneg(out_rem.update(u, 0));
            }
            greedy_pass_ok(
                out_rem.update(u, 0),
                greedy_next_in(in_rem, u, self_loops, adm, d as nat),
                self_loops,
                adm,
            )
        }
    }
}

/// What [`greedy_best`] returns is an untaken candidate below `k`.
proof fn lemma_greedy_best_sound(
    in_rem: Seq<u32>,
    u: int,
    self_loops: bool,
    adm: spec_fn(u64, u64) -> bool,
    taken: Seq<int>,
    k: int,
)
    ensures
        greedy_best(in_rem, u, self_loops, adm, taken, k) matches Some(q) ==> 0 <= q < k
            && greedy_cand(in_rem, u, q, self_loops, adm) && !taken.contains(q),
    decreases k,
{
    if k > 0 {
        lemma_greedy_best_sound(in_rem, u, self_loops, adm, taken, k - 1);
    }
}

/// An untaken candidate preferred to every other untaken candidate below
/// `k` is what [`greedy_best`] returns.
proof fn lemma_greedy_best_unique(
    in_rem: Seq<u32>,
    u: int,
    self_loops: bool,
    adm: spec_fn(u64, u64) -> bool,
    taken: Seq<int>,
    k: int,
    x: int,
)
    requires
        0 <= x < k,
        greedy_cand(in_rem, u, x, self_loops, adm),
        !taken.contains(x),
        forall|w: int|
            0 <= w < k && w != x && greedy_cand(in_rem, u, w, self_loops, adm) && !taken.contains(w)
                ==> key_before(in_rem, x, w),
    ensures
        greedy_best(in_rem, u, self_loops, adm, taken, k) == Some(x),
    decreases k,
{
    lemma_greedy_best_sound(in_rem, u, self_loops, adm, taken, k - 1);
    if x < k - 1 {
        lemma_greedy_best_unique(in_rem, u, self_loops, adm, taken, k - 1, x);
    }
}

/// Admissibility by an optional pair list, as a predicate.
pub open spec fn admits_fn(admissible_pairs: Option<&[(u64, u64)]>) -> spec_fn(u64, u64) -> bool {
    |s: u64, t: u64| admits(admissible_pairs, s, t)
}

/// A node without out-pairs is the source of no pair.
proof fn lemma_zero_out_absent(edges: Seq<(u64, u64)>, u: u64, x: u64)
    requires
        out_count(edges, u as int) == 0,
    ensures
        !edges.contains((u, x)),
    decreases edges.len(),
{
    if edges.len() > 0 {
        lemma_zero_out_absent(edges.drop_last(), u, x);
        if edges.contains((u, x)) {
            let q = choose|q: int| 0 <= q < edges.len() && edges[q] == (u, x);
            if q < edges.len() - 1 {
                assert(edges.drop_last()[q] == (u, x));
            }
        }
    }
}

/// Sorted candidates of the deterministic pass for source `u`: the
/// candidates of [`greedy_cand`] exactly, each once, keyed by their
/// remaining in-degree, in [`cand_before`] order.
pub open spec fn sorted_cands_ok(
    c: Seq<(u32, usize)>,
    in_rem: Seq<u32>,
    u: int,
    self_loops: bool,
    adm: spec_fn(u64, u64) -> bool,
) -> bool {
    &&& forall|k: int|
        0 <= k < c.len() ==> #[trigger] c[k].0 == in_rem[c[k].1 as int] && greedy_cand(
            in_rem,
            u,
            c[k].1 as int,
            self_loops,
            adm,
        )
    &&& forall|w: int|
        #![trigger greedy_cand(in_rem, u, w, self_loops, adm)]
        greedy_cand(in_rem, u, w, self_loops, adm) ==> exists|k: int|
            0 <= k < c.len() && c[k].1 == w
    &&& forall|a: int, b: int| 0 <= a < b < c.len() ==> cand_before(c[a], c[b])
}

/// The first `idx` sorted candidates are the deterministic pass's first
/// `idx` picks; so are the first `idx + 1`.
proof fn lemma_greedy_pick_step(
    c: Seq<(u32, usize)>,
    in_rem: Seq<u32>,
    u: int,
    self_loops: bool,
    adm: spec_fn(u64, u64) -> bool,
    idx: int,
)
    requires
        sorted_cands_ok(c, in_rem, u, self_loops, adm),
        0 <= idx < c.len(),
        greedy_picks(in_rem, u, self_loops, adm, idx as nat) == Seq::new(
            idx as nat,
            |k: int| c[k].1 as int,
        ),
    ensures
        greedy_picks(in_rem, u, self_loops, adm, (idx + 1) as nat) == Seq::new(
            (idx + 1) as nat,
            |k: int| c[k].1 as int,
        ),
{
    let taken = greedy_picks(in_rem, u, self_loops, adm, idx as nat);
    let x = c[idx].1 as int;
    assert(c[idx].0 == in_rem[x] && greedy_cand(in_rem, u, x, self_loops, adm));
    assert(!taken.contains(x)) by {
        if taken.contains(x) {
            let j = choose|j: int| 0 <= j < taken.len() && taken[j] == x;
            assert(cand_before(c[j], c[idx]));
        }
    }
    assert forall|w: int|
        0 <= w < in_rem.len() && w != x && greedy_cand(in_rem, u, w, self_loops, adm)
            && !taken.contains(w) implies key_before(in_rem, x, w) by {
        let m = choose|m: int| 0 <= m < c.len() && c[m].1 == w;
        assert(c[m].0 == in_rem[c[m].1 as int]);
        if m < idx {
            assert(taken[m] == w);
        } else {
            assert(m != idx);
            assert(cand_before(c[idx], c[m]));
        }
    }
    lemma_greedy_best_unique(in_rem, u, self_loops, adm, taken, in_rem.len() as int, x);
    assert(greedy_picks(in_rem, u, self_loops, adm, (idx + 1) as nat) == taken.push(x));
    assert(taken.push(x) =~= Seq::new((idx + 1) as nat, |k: int| c[k].1 as int));
}

/// Every out- and in-degree is zero: the empty support realizes the pair.
pub open spec fn all_zero_degrees(out_degrees: Seq<u32>, in_degrees: Seq<u32>) -> bool {
    forall|v: int| 0 <= v < out_degrees.len() ==> out_degrees[v] == 0 && in_degrees[v] == 0
}

/// A construction state: remaining degrees plus edges placed so far.
pub open spec fn construction_ok(
    edges: Seq<(u64, u64)>,
    out_rem: Seq<u32>,
    in_rem: Seq<u32>,
    out_degrees: Seq<u32>,
    in_degrees: Seq<u32>,
) -> bool {
    &&& out_rem.len() == out_degrees.len()
    &&& in_rem.len() == in_degrees.len()
    &&& forall|v: int|
        0 <= v < out_degrees.len() ==> #[trigger] out_rem[v] + out_count(edges, v)
            == out_degrees[v]
    &&& forall|v: int|
        0 <= v < out_degrees.len() ==> #[trigger] out_rem[v] == 0 || out_count(edges, v) == 0
    &&& forall|v: int|
        0 <= v < in_degrees.len() ==> #[trigger] in_rem[v] + in_count(edges, v) == in_degrees[v]
}

/// Every placed pair respects the self-loop policy and the admissibility test.
pub open spec fn placed_ok<F: Fn(u64, u64) -> bool>(
    edges: Seq<(u64, u64)>,
    self_loops: bool,
    is_admissible: F,
) -> bool {
    forall|k: int|
        0 <= k < edges.len() ==> (self_loops || #[trigger] edges[k].0 != edges[k].1)
            && is_admissible.ensures((edges[k].0, edges[k].1), true)
}

/// One construction attempt: repeatedly give the node with the largest
/// remaining out-degree (lowest index on ties) its targets among the nodes
/// with the largest remaining in-degrees, skipping self-loops (unless
/// allowed), occupied and inadmissible pairs. With a generator, targets of
/// equal remaining in-degree are shuffled first.
///
/// On success the support realizes the degree sequences exactly.
fn try_construct<F: Fn(u64, u64) -> bool>(
    out_degrees: &[u32],
    in_degrees: &[u32],
    self_loops: bool,
    rng: Option<&mut StdRng>,
    is_admissible: &F,
    Ghost(adm): Ghost<spec_fn(u64, u64) -> bool>,
) -> (r: Result<DegreeSupportState, FixedKTError>)
    requires
        out_degrees@.len() == in_degrees@.len(),
        seq_sum_u32(out_degrees@) < usize::MAX,
        forall|s: u64, t: u64| is_admissible.requires((s, t)),
        rng is None ==> forall|s: u64, t: u64, b: bool|
            #[trigger] is_admissible.ensures((s, t), b) ==> b == adm(s, t),
    ensures
        r matches Ok(state) ==> {
            &&& state.wf()
            &&& state.node_count == out_degrees@.len()
            &&& realizes(state.edges@, out_degrees@, in_degrees@, self_loops)
            &&& placed_ok(state.edges@, self_loops, *is_admissible)
        },
        r matches Err(e) ==> e is InitializationFailed,
        all_zero_degrees(out_degrees@, in_degrees@) ==> r is Ok,
        rng is None && greedy_pass_ok(out_degrees@, in_degrees@, self_loops, adm) ==> r is Ok,
{
    let ghost owed = rng is None && greedy_pass_ok(out_degrees@, in_degrees@, self_loops, adm);
    let n = out_degrees.len();
    let mut out_rem = copy_slice(out_degrees);
    let mut in_rem = copy_slice(in_degrees);
    let mut state = DegreeSupportState::new(n, Vec::new(), self_loops);
    let mut generator = rng;
    proof {
        assert forall|v: int| 0 <= v < n implies #[trigger] out_count(state.edges@, v) == 0
            && in_count(state.edges@, v) == 0 by {
            assert(state.edges@ =~= Seq::<(u64, u64)>::empty());
        }
        lemma_seq_sum_u32_nonneg(out_degrees@);
    }
    loop
        invariant
            state.wf(),
            state.node_count == n,
            n == out_degrees@.len(),
            n == in_degrees@.len(),
            seq_sum_u32(out_degrees@) < usize::MAX,
            forall|s: u64, t: u64| is_admissible.requires((s, t)),
            construction_ok(state.edges@, out_rem@, in_rem@, out_degrees@, in_degrees@),
            placed_ok(state.edges@, self_loops, *is_admissible),
            state.edges@.len() + seq_sum_u32(out_rem@) == seq_sum_u32(out_degrees@),
            owed ==> generator is None,
            owed == (rng is None && greedy_pass_ok(out_degrees@, in_degrees@, self_loops, adm)),
            owed ==> forall|s: u64, t: u64, b: bool|
                #[trigger] is_admissible.ensures((s, t), b) ==> b == adm(s, t),
            owed ==> greedy_pass_ok(out_rem@, in_rem@, self_loops, adm),
        ensures
            forall|v: int| 0 <= v < n ==> #[trigger] out_rem@[v] == 0,
        decreases seq_sum_u32(out_rem@),
    {
        if n == 0 {
            break;
        }
        let u = first_max(&out_rem);
        proof {
            lemma_first_max(out_rem@);
            assert(is_first_max(out_rem@, u as int));
        }
        let d_out = out_rem[u];
        if d_out == 0 {
            break;
        }
        let uu = u as u64;
        let ghost in_snapshot = in_rem@;
        let ghost edges_snapshot = state.edges@;
        let ghost p = |v: usize|
            v < n && in_snapshot[v as int] > 0 && (self_loops || u != v)
                && !edges_snapshot.contains((uu, v as u64)) && is_admissible.ensures(
                (uu, v as u64),
                true,
            );
        proof {
            if owed {
                assert(out_rem@[u as int] > 0);
            }
        }
        // Collect candidate targets.
        let mut cands: Vec<(u32, usize)> = Vec::new();
        let mut v: usize = 0;
        while v < n
            invariant
                v <= n,
                n == in_rem@.len(),
                state.wf(),
                state.node_count == n,
                forall|s: u64, t: u64| is_admissible.requires((s, t)),
                in_rem@ == in_snapshot,
                state.edges@ == edges_snapshot,
                p == (|w: usize|
                    w < n && in_snapshot[w as int] > 0 && (self_loops || u != w)
                        && !edges_snapshot.contains((uu, w as u64)) && is_admissible.ensures(
                        (uu, w as u64),
                        true,
                    )),
                forall|k: int| 0 <= k < cands@.len() ==> #[trigger] p(cands@[k].1),
                forall|k: int| 0 <= k < cands@.len() ==> #[trigger] cands@[k].1 < v,
                forall|a: int, b: int|
                    #![trigger cands@[a].1, cands@[b].1]
                    0 <= a < b < cands@.len() ==> cands@[a].1 < cands@[b].1,
                forall|k: int|
                    0 <= k < cands@.len() ==> #[trigger] cands@[k].0 == in_snapshot[cands@[k].1 as int],
                u < n,
                uu == u,
                owed ==> out_count(edges_snapshot, u as int) == 0,
                owed ==> forall|s: u64, t: u64, b: bool|
                    #[trigger] is_admissible.ensures((s, t), b) ==> b == adm(s, t),
                owed ==> cands@.len() == greedy_cand_count(
                    in_snapshot,
                    u as int,
                    self_loops,
                    adm,
                    v as int,
                ),
                owed ==> forall|k: int|
                    0 <= k < cands@.len() ==> greedy_cand(
                        in_snapshot,
                        u as int,
                        #[trigger] cands@[k].1 as int,
                        self_loops,
                        adm,
                    ),
                owed ==> forall|w: int|
                    0 <= w < v && #[trigger] greedy_cand(in_snapshot, u as int, w, self_loops, adm)
                        ==> exists|k: int| 0 <= k < cands@.len() && cands@[k].1 == w,
            decreases n - v,
        {
            let ghost cands_before = cands@;
            proof {
                if owed {
                    lemma_zero_out_absent(edges_snapshot, uu, v as u64);
                }
            }
            if in_rem[v] > 0 && (self_loops || u != v) {
                let pair = (uu, v as u64);
                if !state.contains(&pair) {
                    if is_admissible(uu, v as u64) {
                        cands.push((in_rem[v], v));
                    }
                }
            }
            proof {
                if owed {
                    assert forall|w: int|
                        0 <= w < v + 1 && #[trigger] greedy_cand(
                            in_snapshot,
                            u as int,
                            w,
                            self_loops,
                            adm,
                        ) implies exists|k: int| 0 <= k < cands@.len() && cands@[k].1 == w by {
                        if w == v {
                            assert(cands@[cands@.len() - 1].1 == w);
                        } else {
                            let k = choose|k: int| 0 <= k < cands_before.len() && cands_before[k].1 == w;
                            assert(cands@[k] == cands_before[k]);
                        }
                    }
                }
            }
            v = v + 1;
        }
        proof {
            assert forall|a: int, b: int|
                #![trigger cands@[a].1, cands@[b].1]
                0 <= a < cands@.len() && 0 <= b < cands@.len() && a != b implies cands@[a].1
                != cands@[b].1 by {
                if a < b {
                } else {
                }
            }
        }
        proof {
            if owed {
                assert(u as int == spec_first_max(out_rem@));
                assert(in_rem@ == in_snapshot);
                assert(greedy_cand_count(in_snapshot, u as int, self_loops, adm, n as int) >= d_out);
            }
        }
        if cands.len() < d_out as usize {
            let mut m = num_msg("node ", u as u64, " needs ");
            push_num(&mut m, d_out as u64, " distinct targets, found ");
            push_num(&mut m, cands.len() as u64, "");
            return Err(FixedKTError::InitializationFailed(m));
        }
        let ghost pre = cands@;
        proof {
            assert(increasing_targets(pre));
        }
        sort_candidates_desc(&mut cands, Ghost(p));
        match generator {
            Some(ref mut g) => {
                shuffle_ties(&mut cands, *g, Ghost(p));
            },
            None => {},
        }
        proof {
            if owed {
                broadcast use vstd::seq_lib::to_multiset_contains;

                let c = cands@;
                assert forall|k: int| 0 <= k < c.len() implies #[trigger] c[k].0 == in_snapshot[c[k].1
                    as int] && greedy_cand(in_snapshot, u as int, c[k].1 as int, self_loops, adm) by {
                    assert(c.contains(c[k]));
                    assert(c.to_multiset().count(c[k]) > 0);
                    assert(pre.to_multiset().count(c[k]) > 0);
                    let k2 = choose|k2: int| 0 <= k2 < pre.len() && pre[k2] == c[k];
                    assert(pre[k2].0 == in_snapshot[pre[k2].1 as int]);
                }
                assert forall|w: int|
                    #![trigger greedy_cand(in_snapshot, u as int, w, self_loops, adm)]
                    greedy_cand(in_snapshot, u as int, w, self_loops, adm) implies exists|k: int|
                        0 <= k < c.len() && c[k].1 == w by {
                    let k2 = choose|k2: int| 0 <= k2 < pre.len() && pre[k2].1 == w;
                    assert(pre.contains(pre[k2]));
                    assert(pre.to_multiset().count(pre[k2]) > 0);
                    assert(c.to_multiset().count(pre[k2]) > 0);
                    let k = choose|k: int| 0 <= k < c.len() && c[k] == pre[k2];
                    assert(c[k].1 == w);
                }
                assert(sorted_cands_ok(c, in_snapshot, u as int, self_loops, adm));
                assert(greedy_picks(in_snapshot, u as int, self_loops, adm, 0) =~= Seq::new(
                    0,
                    |k: int| c[k].1 as int,
                ));
            }
        }
        // Take the first `d_out` candidates.
        let ghost base_len = state.edges@.len();
        let ghost out_rem_snapshot = out_rem@;
        proof {
            lemma_seq_sum_u32_element(out_rem@, u as int);
            assert(out_count(state.edges@, u as int) == 0);
            assert forall|k: int| 0 <= k < cands@.len() implies !state.edges@.contains(
                (uu, #[trigger] cands@[k].1 as u64),
            ) && in_rem@[cands@[k].1 as int] == in_snapshot[cands@[k].1 as int] by {
                assert(p(cands@[k].1));
            }
        }
        let mut idx: usize = 0;
        while idx < d_out as usize
            invariant
                idx <= d_out as usize,
                d_out as usize <= cands@.len(),
                u < n,
                uu == u,
                d_out == out_rem@[u as int],
                out_rem@ == out_rem_snapshot,
                d_out > 0,
                state.wf(),
                state.node_count == n,
                n == out_degrees@.len(),
                n == in_degrees@.len(),
                in_rem@.len() == n,
                out_rem@.len() == n,
                candidates_ok(cands@, p),
                p == (|w: usize|
                    w < n && in_snapshot[w as int] > 0 && (self_loops || u != w)
                        && !edges_snapshot.contains((uu, w as u64)) && is_admissible.ensures(
                        (uu, w as u64),
                        true,
                    )),
                state.edges@.len() >= edges_snapshot.len(),
                forall|k: int|
                    idx <= k < cands@.len() ==> #[trigger] in_rem@[cands@[k].1 as int]
                        == in_snapshot[cands@[k].1 as int],
                forall|k: int|
                    idx <= k < cands@.len() ==> !state.edges@.contains(
                        (uu, #[trigger] cands@[k].1 as u64),
                    ),
                state.edges@.len() == base_len + idx,
                base_len + seq_sum_u32(out_rem@) == seq_sum_u32(out_degrees@),
                seq_sum_u32(out_degrees@) < usize::MAX,
                d_out <= seq_sum_u32(out_rem@),
                out_count(state.edges@, u as int) == idx,
                forall|w: int|
                    0 <= w < n && w != u ==> #[trigger] out_rem@[w] + out_count(state.edges@, w)
                        == out_degrees@[w],
                forall|w: int|
                    0 <= w < n && w != u ==> #[trigger] out_rem@[w] == 0 || out_count(
                        state.edges@,
                        w,
                    ) == 0,
                out_rem@[u as int] == out_degrees@[u as int],
                forall|w: int|
                    0 <= w < n ==> #[trigger] in_rem@[w] + in_count(state.edges@, w)
                        == in_degrees@[w],
                placed_ok(state.edges@, self_loops, *is_admissible),
                in_rem@.len() == in_snapshot.len(),
                owed ==> sorted_cands_ok(cands@, in_snapshot, u as int, self_loops, adm),
                owed ==> greedy_picks(in_snapshot, u as int, self_loops, adm, idx as nat) == Seq::new(
                    idx as nat,
                    |k: int| cands@[k].1 as int,
                ),
                owed ==> forall|x: int|
                    0 <= x < n ==> #[trigger] in_rem@[x] == if (exists|k: int|
                        0 <= k < idx && cands@[k].1 == x) {
                        (in_snapshot[x] - 1) as u32
                    } else {
                        in_snapshot[x]
                    },
            decreases d_out as usize - idx,
        {
            let w = cands[idx].1;
            let pair = (uu, w as u64);
            proof {
                if owed {
                    lemma_greedy_pick_step(cands@, in_snapshot, u as int, self_loops, adm, idx as int);
                }
            }
            proof {
                assert(p(cands@[idx as int].1));
            }
            let ghost before = state.edges@;
            let ghost in_before = in_rem@;
            assert(in_before[w as int] == in_snapshot[w as int]);
            assert(in_before[w as int] + in_count(before, w as int) == in_degrees@[w as int]);
            state.insert(pair);
            in_rem.set(w, in_rem[w] - 1);
            proof {
                let after = state.edges@;
                assert(in_rem@ == in_before.update(w as int, (in_before[w as int] - 1) as u32));
                assert forall|x: int| 0 <= x < n implies #[trigger] out_count(after, x)
                    == out_count(before, x) + if x == u {
                    1int
                } else {
                    0int
                } && in_count(after, x) == in_count(before, x) + if x == w {
                    1int
                } else {
                    0int
                } by {
                    lemma_count_push(before, pair, true, x);
                    lemma_count_push(before, pair, false, x);
                }
                assert forall|k: int|
                    idx + 1 <= k < cands@.len() implies #[trigger] in_rem@[cands@[k].1 as int]
                        == in_snapshot[cands@[k].1 as int] by {
                    assert(cands@[k].1 != cands@[idx as int].1);
                    assert(in_before[cands@[k].1 as int] == in_snapshot[cands@[k].1 as int]);
                    assert(p(cands@[k].1));
                    assert(in_rem@[cands@[k].1 as int] == in_before[cands@[k].1 as int]);
                }
                assert forall|x: int| 0 <= x < n implies #[trigger] in_rem@[x] + in_count(after, x)
                    == in_degrees@[x] by {
                    assert(in_before[x] + in_count(before, x) == in_degrees@[x]);
                    lemma_count_push(before, pair, false, x);
                }
                assert forall|k: int| idx + 1 <= k < cands@.len() implies !after.contains(
                    (uu, #[trigger] cands@[k].1 as u64),
                ) by {
                    assert(cands@[k].1 != cands@[idx as int].1);
                    assert(before.contains((uu, cands@[k].1 as u64)) == false);
                }
                assert forall|k: int| 0 <= k < after.len() implies (self_loops
                    || #[trigger] after[k].0 != after[k].1) && is_admissible.ensures(
                    (after[k].0, after[k].1),
                    true,
                ) by {
                    if k < before.len() {
                        assert(after[k] == before[k]);
                    }
                }
                if owed {
                    assert forall|x: int| 0 <= x < n implies #[trigger] in_rem@[x] == if (exists|
                        k: int,
                    | 0 <= k < idx + 1 && cands@[k].1 == x) {
                        (in_snapshot[x] - 1) as u32
                    } else {
                        in_snapshot[x]
                    } by {
                        if x == w as int {
                            assert(cands@[idx as int].1 == x);
                            if exists|k: int| 0 <= k < idx && cands@[k].1 == x {
                                let k = choose|k: int| 0 <= k < idx && cands@[k].1 == x;
                                assert(cands@[k].1 != cands@[idx as int].1);
                            }
                        } else {
                            assert(in_rem@[x] == in_before[x]);
                            if exists|k: int| 0 <= k < idx + 1 && cands@[k].1 == x {
                                let k = choose|k: int| 0 <= k < idx + 1 && cands@[k].1 == x;
                                assert(k != idx);
                            }
                        }
                    }
                }
            }
            idx = idx + 1;
        }
        out_rem.set(u, 0);
        proof {
            lemma_seq_sum_u32_update(out_rem_snapshot, u as int, 0);
            assert(out_rem@ =~= out_rem_snapshot.update(u as int, 0));
            if owed {
                let picks = greedy_picks(in_snapshot, u as int, self_loops, adm, d_out as nat);
                assert(in_rem@ =~= greedy_next_in(in_snapshot, u as int, self_loops, adm, d_out as nat))
                    by {
                    assert forall|x: int| 0 <= x < n implies in_rem@[x] == greedy_next_in(
                        in_snapshot,
                        u as int,
                        self_loops,
                        adm,
                        d_out as nat,
                    )[x] by {
                        if picks.contains(x) {
                            let j = choose|j: int| 0 <= j < picks.len() && picks[j] == x;
                            assert(cands@[j].1 == x);
                        }
                        if exists|k: int| 0 <= k < d_out && cands@[k].1 == x {
                            let k = choose|k: int| 0 <= k < d_out && cands@[k].1 == x;
                            assert(picks[k] == x);
                        }
                    }
                }
                assert(greedy_pass_ok(out_rem@, in_rem@, self_loops, adm));
            }
        }
    }
    // Every out-degree is placed; check the in-degrees.
    proof {
        assert forall|v: int| 0 <= v < n implies #[trigger] out_rem@[v] == 0 by {
            if n > 0 {
            }
        }
    }
    proof {
        if all_zero_degrees(out_degrees@, in_degrees@) {
            assert forall|w: int| 0 <= w < n implies #[trigger] in_rem@[w] == 0 by {
                assert(in_rem@[w] + in_count(state.edges@, w) == in_degrees@[w]);
            }
        }
    }
    proof {
        if owed && n > 0 {
            lemma_first_max(out_rem@);
            assert(out_rem@[spec_first_max(out_rem@)] == 0);
        }
    }
    let mut v: usize = 0;
    while v < n
        invariant
            v <= n,
            in_rem@.len() == n,
            forall|w: int| 0 <= w < v ==> #[trigger] in_rem@[w] == 0,
            all_zero_degrees(out_degrees@, in_degrees@) ==> forall|w: int|
                0 <= w < n ==> #[trigger] in_rem@[w] == 0,
            owed ==> forall|w: int| 0 <= w < n ==> #[trigger] in_rem@[w] == 0,
            owed == (rng is None && greedy_pass_ok(out_degrees@, in_degrees@, self_loops, adm)),
        decreases n - v,
    {
        if in_rem[v] > 0 {
            let mut m = num_msg("node ", v as u64, " has residual in-degree ");
            push_num(&mut m, in_rem[v] as u64, " after construction");
            return Err(FixedKTError::InitializationFailed(m));
        }
        v = v + 1;
    }
    proof {
        assert forall|w: int| 0 <= w < n implies #[trigger] out_count(state.edges@, w)
            == out_degrees@[w] && in_count(state.edges@, w) == in_degrees@[w] by {
            assert(in_rem@[w] == 0);
            assert(out_rem@[w] == 0);
        }
        assert forall|k: int| 0 <= k < state.edges@.len() implies #[trigger] state.edges@[k].0 < n
            && state.edges@[k].1 < n && (self_loops || state.edges@[k].0 != state.edges@[k].1) by {
        }
        assert(simple_support(state.edges@, n as nat, self_loops));
        assert(realizes(state.edges@, out_degrees@, in_degrees@, self_loops));
        assert(placed_ok(state.edges@, self_loops, *is_admissible));
    }
    Ok(state)
}

/// Maximum number of randomized retries after the deterministic attempt.
pub const MAX_RETRIES: usize = 20;

/// Build one feasible directed support graph with the greedy constructor:
/// first with deterministic tie-breaking, then with up to [`MAX_RETRIES`]
/// randomized attempts driven by a generator seeded with 42.
///
/// Every support returned realizes the degree sequences exactly, respects
/// the self-loop policy and uses only admissible pairs. Whenever the
/// deterministic first attempt succeeds ([`greedy_pass_ok`]), a support is
/// returned.
pub fn greedy_directed_initialize(
    out_degrees: &[u32],
    in_degrees: &[u32],
    self_loops: bool,
    admissible_pairs: Option<&[(u64, u64)]>,
) -> (r: Result<DegreeSupportState, FixedKTError>)
    requires
        out_degrees@.len() == in_degrees@.len(),
        seq_sum_u32(out_degrees@) < usize::MAX,
    ensures
        r matches Ok(state) ==> {
            &&& state.wf()
            &&& state.node_count == out_degrees@.len()
            &&& realizes(state.edges@, out_degrees@, in_degrees@, self_loops)
            &&& forall|k: int|
                0 <= k < state.edges@.len() ==> admits(
                    admissible_pairs,
                    #[trigger] state.edges@[k].0,
                    state.edges@[k].1,
                )
        },
        r matches Err(e) ==> e is InitializationFailed,
        all_zero_degrees(out_degrees@, in_degrees@) ==> r is Ok,
        greedy_pass_ok(out_degrees@, in_degrees@, self_loops, admits_fn(admissible_pairs)) ==> r is Ok,
{
    let is_admissible = |s: u64, t: u64| -> (b: bool)
        ensures
            b == admits(admissible_pairs, s, t),
        { is_admissible_pair(admissible_pairs, s, t) };
    let first = try_construct(
        out_degrees,
        in_degrees,
        self_loops,
        None,
        &is_admissible,
        Ghost(admits_fn(admissible_pairs)),
    );
    if let Ok(state) = first {
        proof {
            assert forall|k: int| 0 <= k < state.edges@.len() implies admits(
                admissible_pairs,
                #[trigger] state.edges@[k].0,
                state.edges@[k].1,
            ) by {
                assert(is_admissible.ensures((state.edges@[k].0, state.edges@[k].1), true));
            }
        }
        return Ok(state);
    }
    let mut rng = rng_from_seed(42);
    let mut attempt: usize = 0;
    while attempt < MAX_RETRIES
        invariant
            out_degrees@.len() == in_degrees@.len(),
            seq_sum_u32(out_degrees@) < usize::MAX,
            forall|s: u64, t: u64| is_admissible.requires((s, t)),
            forall|s: u64, t: u64, b: bool|
                is_admissible.ensures((s, t), b) ==> b == admits(admissible_pairs, s, t),
        decreases MAX_RETRIES - attempt,
    {
        let seed = random_u64(&mut rng);
        let mut attempt_rng = rng_from_seed(seed);
        let res = try_construct(
            out_degrees,
            in_degrees,
            self_loops,
            Some(&mut attempt_rng),
            &is_admissible,
            Ghost(admits_fn(admissible_pairs)),
        );
        if let Ok(state) = res {
            proof {
                assert forall|k: int| 0 <= k < state.edges@.len() implies admits(
                    admissible_pairs,
                    #[trigger] state.edges@[k].0,
                    state.edges@[k].1,
                ) by {
                    assert(is_admissible.ensures((state.edges@[k].0, state.edges@[k].1), true));
                }
            }
            return Ok(state);
        }
        attempt = attempt + 1;
    }
    Err(
        FixedKTError::InitializationFailed(
            num_msg("could not construct support after ", MAX_RETRIES as u64, " attempts"),
        ),
    )
}

/// Build one feasible directed support graph from a caller-supplied
/// admissibility predicate and the caller's generator: tie-breaking is
/// randomized from the first (and only) attempt.
pub fn greedy_directed_initialize_with_admissibility<F: Fn(u64, u64) -> bool>(
    out_degrees: &[u32],
    in_degrees: &[u32],
    self_loops: bool,
    rng: &mut StdRng,
    is_admissible: F,
) -> (r: Result<DegreeSupportState, FixedKTError>)
    requires
        out_degrees@.len() == in_degrees@.len(),
        seq_sum_u32(out_degrees@) < usize::MAX,
        forall|s: u64, t: u64| is_admissible.requires((s, t)),
    ensures
        r matches Ok(state) ==> {
            &&& state.wf()
            &&& state.node_count == out_degrees@.len()
            &&& realizes(state.edges@, out_degrees@, in_degrees@, self_loops)
            &&& forall|k: int|
                0 <= k < state.edges@.len() ==> is_admissible.ensures(
                    (#[trigger] state.edges@[k].0, state.edges@[k].1),
                    true,
                )
        },
        r matches Err(e) ==> e is InitializationFailed,
{
    try_construct(
        out_degrees,
        in_degrees,
        self_loops,
        Some(rng),
        &is_admissible,
        Ghost(|s: u64, t: u64| true),
    )
}

/// Equality of two ordered pairs.
fn same_pair(p: (u64, u64), q: (u64, u64)) -> (r: bool)
    ensures
        r == (p == q),
{
    p.0 == q.0 && p.1 == q.1
}

/// Outcome of a single switch step.
#[derive(Clone, Copy, Debug, PartialEq, Eq, Structural)]
pub enum SwitchOutcome {
    /// The switch was applied.
    Switched,
    /// The proposal was invalid and the state was held.
    Hold,
}

/// No pair of the list is a self-loop.
pub open spec fn loop_free(edges: Seq<(u64, u64)>) -> bool {
    forall|k: int| 0 <= k < edges.len() ==> #[trigger] edges[k].0 != edges[k].1
}

/// Every pair of the list is admissible.
pub open spec fn all_admitted(edges: Seq<(u64, u64)>, admissible_pairs: Option<&[(u64, u64)]>) -> bool {
    forall|k: int|
        0 <= k < edges.len() ==> admits(admissible_pairs, #[trigger] edges[k].0, edges[k].1)
}

/// Both supports have the same out- and in-degree at every node.
pub open spec fn same_degrees(a: Seq<(u64, u64)>, b: Seq<(u64, u64)>) -> bool {
    forall|v: int| #[trigger] out_count(a, v) == out_count(b, v) && in_count(a, v) == in_count(b, v)
}

/// `after` is `before` with the pairs at positions `i != j` rewired:
/// `a -> b`, `c -> d` become `a -> d`, `c -> b`.
pub open spec fn rewired(before: Seq<(u64, u64)>, after: Seq<(u64, u64)>, i: int, j: int) -> bool {
    &&& 0 <= i < before.len()
    &&& 0 <= j < before.len()
    &&& i != j
    &&& forall|p: (u64, u64)|
        #[trigger] after.contains(p) <==> ((before.contains(p) && p != before[i] && p != before[j])
            || p == (before[i].0, before[j].1) || p == (before[j].0, before[i].1))
}

/// A rewiring that a switch step carries out: the two new pairs differ, and
/// each new pair that was already present is one of the two pairs removed.
pub open spec fn proper_switch(before: Seq<(u64, u64)>, after: Seq<(u64, u64)>, i: int, j: int) -> bool {
    let c1 = (before[i].0, before[j].1);
    let c2 = (before[j].0, before[i].1);
    &&& rewired(before, after, i, j)
    &&& c1 != c2
    &&& before.contains(c1) ==> c1 == before[i] || c1 == before[j]
    &&& before.contains(c2) ==> c2 == before[i] || c2 == before[j]
}

/// Every switch can be undone: rewiring the two new pairs of a proper switch
/// back is again a proper switch, and it restores the starting pairs.
pub proof fn lemma_switch_reversible(before: Seq<(u64, u64)>, after: Seq<(u64, u64)>, i: int, j: int)
    requires
        before.no_duplicates(),
        proper_switch(before, after, i, j),
    ensures
        exists|i2: int, j2: int| #[trigger] proper_switch(after, before, i2, j2),
{
    let e1 = before[i];
    let e2 = before[j];
    let c1 = (e1.0, e2.1);
    let c2 = (e2.0, e1.1);
    assert(after.contains(c1));
    assert(after.contains(c2));
    let i2 = choose|x: int| 0 <= x < after.len() && after[x] == c1;
    let j2 = choose|x: int| 0 <= x < after.len() && after[x] == c2;
    assert(e1 != e2);
    assert(before.contains(e1)) by {
        assert(before[i] == e1);
    }
    assert(before.contains(e2)) by {
        assert(before[j] == e2);
    }
    assert forall|p: (u64, u64)| #[trigger] before.contains(p) <==> ((after.contains(p) && p
        != after[i2] && p != after[j2]) || p == (after[i2].0, after[j2].1) || p == (
    after[j2].0, after[i2].1)) by {
        if before.contains(p) && p != e1 && p != e2 {
            assert(after.contains(p));
        }
    }
    assert(proper_switch(after, before, i2, j2));
}

/// Effect of a swap-removal of the pair `e` on counts and membership.
proof fn lemma_after_remove(before: Seq<(u64, u64)>, after: Seq<(u64, u64)>, e: (u64, u64))
    requires
        before.no_duplicates(),
        exists|x: int| 0 <= x < before.len() && before[x] == e && after == swap_remove_seq(before, x),
    ensures
        forall|v: int|
            #[trigger] out_count(after, v) + (if e.0 == v {
                1int
            } else {
                0int
            }) == out_count(before, v),
        forall|v: int|
            #[trigger] in_count(after, v) + (if e.1 == v {
                1int
            } else {
                0int
            }) == in_count(before, v),
        forall|p: (u64, u64)| #[trigger] after.contains(p) <==> (before.contains(p) && p != e),
        after.no_duplicates(),
        after.len() == before.len() - 1,
{
    let x = choose|x: int| 0 <= x < before.len() && before[x] == e && after == swap_remove_seq(before, x);
    lemma_swap_remove_contains(before, x, e);
    assert forall|v: int| #[trigger] out_count(after, v) + (if e.0 == v {
        1int
    } else {
        0int
    }) == out_count(before, v) by {
        lemma_count_swap_remove(before, x, true, v);
    }
    assert forall|v: int| #[trigger] in_count(after, v) + (if e.1 == v {
        1int
    } else {
        0int
    }) == in_count(before, v) by {
        lemma_count_swap_remove(before, x, false, v);
    }
    assert forall|p: (u64, u64)| #[trigger] after.contains(p) <==> (before.contains(p) && p != e) by {
        lemma_swap_remove_contains(before, x, p);
    }
}

/// Net effect of the four updates of an applied switch.
proof fn lemma_rewire(
    e0: Seq<(u64, u64)>,
    e1: Seq<(u64, u64)>,
    e2: Seq<(u64, u64)>,
    e3: Seq<(u64, u64)>,
    e4: Seq<(u64, u64)>,
    i: int,
    j: int,
    self_loops: bool,
    admissible_pairs: Option<&[(u64, u64)]>,
)
    requires
        0 <= i < e0.len(),
        0 <= j < e0.len(),
        i != j,
        e0.no_duplicates(),
        forall|v: int|
            #[trigger] out_count(e1, v) + (if e0[i].0 == v {
                1int
            } else {
                0int
            }) == out_count(e0, v),
        forall|v: int|
            #[trigger] in_count(e1, v) + (if e0[i].1 == v {
                1int
            } else {
                0int
            }) == in_count(e0, v),
        forall|p: (u64, u64)| #[trigger] e1.contains(p) <==> (e0.contains(p) && p != e0[i]),
        forall|v: int|
            #[trigger] out_count(e2, v) + (if e0[j].0 == v {
                1int
            } else {
                0int
            }) == out_count(e1, v),
        forall|v: int|
            #[trigger] in_count(e2, v) + (if e0[j].1 == v {
                1int
            } else {
                0int
            }) == in_count(e1, v),
        forall|p: (u64, u64)| #[trigger] e2.contains(p) <==> (e1.contains(p) && p != e0[j]),
        e3 == e2.push((e0[i].0, e0[j].1)),
        e4 == e3.push((e0[j].0, e0[i].1)),
        !self_loops ==> e0[i].0 != e0[j].1 && e0[j].0 != e0[i].1,
        admissible_pairs is Some ==> admits(admissible_pairs, e0[i].0, e0[j].1) && admits(
            admissible_pairs,
            e0[j].0,
            e0[i].1,
        ),
    ensures
        same_degrees(e4, e0),
        rewired(e0, e4, i, j),
        !self_loops && loop_free(e0) ==> loop_free(e4),
        all_admitted(e0, admissible_pairs) ==> all_admitted(e4, admissible_pairs),
{
    let c1 = (e0[i].0, e0[j].1);
    let c2 = (e0[j].0, e0[i].1);
    assert forall|v: int| #[trigger] out_count(e4, v) == out_count(e0, v) && in_count(e4, v)
        == in_count(e0, v) by {
        lemma_count_push(e2, c1, true, v);
        lemma_count_push(e2, c1, false, v);
        lemma_count_push(e3, c2, true, v);
        lemma_count_push(e3, c2, false, v);
        assert(out_count(e1, v) + (if e0[i].0 == v { 1int } else { 0int }) == out_count(e0, v));
        assert(in_count(e1, v) + (if e0[i].1 == v { 1int } else { 0int }) == in_count(e0, v));
        assert(out_count(e2, v) + (if e0[j].0 == v { 1int } else { 0int }) == out_count(e1, v));
        assert(in_count(e2, v) + (if e0[j].1 == v { 1int } else { 0int }) == in_count(e1, v));
    }
    assert forall|p: (u64, u64)| #[trigger] e4.contains(p) <==> ((e0.contains(p) && p != e0[i] && p
        != e0[j]) || p == c1 || p == c2) by {
        assert(e3.contains(p) <==> (e2.contains(p) || p == c1));
        assert(e4.contains(p) <==> (e3.contains(p) || p == c2));
        assert(e1.contains(p) <==> (e0.contains(p) && p != e0[i]));
        assert(e2.contains(p) <==> (e1.contains(p) && p != e0[j]));
    }
    if !self_loops && loop_free(e0) {
        assert forall|k: int| 0 <= k < e4.len() implies #[trigger] e4[k].0 != e4[k].1 by {
            assert(e4.contains(e4[k]));
            if e4[k] != c1 && e4[k] != c2 {
                let q = choose|q: int| 0 <= q < e0.len() && e0[q] == e4[k];
                assert(e0[q].0 != e0[q].1);
            }
        }
    }
    if all_admitted(e0, admissible_pairs) {
        assert forall|k: int| 0 <= k < e4.len() implies admits(
            admissible_pairs,
            #[trigger] e4[k].0,
            e4[k].1,
        ) by {
            assert(e4.contains(e4[k]));
            if e4[k] != c1 && e4[k] != c2 {
                let q = choose|q: int| 0 <= q < e0.len() && e0[q] == e4[k];
                assert(admits(admissible_pairs, e0[q].0, e0[q].1));
            } else {
                if admissible_pairs is None {
                }
            }
        }
    }
}

/// Whether the switch of the pairs at positions `i` and `j` (`a -> b`,
/// `c -> d` into `a -> d`, `c -> b`) is carried out: it creates no
/// forbidden self-loop, its two new pairs differ, it changes something,
/// neither new pair duplicates a pair that stays, and both new pairs are
/// admissible.
pub open spec fn switch_allowed(
    edges: Seq<(u64, u64)>,
    i: int,
    j: int,
    self_loops: bool,
    admissible_pairs: Option<&[(u64, u64)]>,
) -> bool {
    let e1 = edges[i];
    let e2 = edges[j];
    let c1 = (e1.0, e2.1);
    let c2 = (e2.0, e1.1);
    &&& self_loops || (e1.0 != e2.1 && e2.0 != e1.1)
    &&& c1 != c2
    &&& !(c1 == e1 && c2 == e2)
    &&& edges.contains(c1) ==> c1 == e1 || c1 == e2
    &&& edges.contains(c2) ==> c2 == e1 || c2 == e2
    &&& admits(admissible_pairs, c1.0, c1.1)
    &&& admits(admissible_pairs, c2.0, c2.1)
}

/// The pairs after the switch at positions `i` and `j`: when
/// [`switch_allowed`], both pairs are swap-removed (first `i`, then the
/// second pair where it now stands) and `a -> d`, `c -> b` appended;
/// otherwise nothing changes.
pub open spec fn switch_result(
    edges: Seq<(u64, u64)>,
    i: int,
    j: int,
    self_loops: bool,
    admissible_pairs: Option<&[(u64, u64)]>,
) -> Seq<(u64, u64)> {
    if switch_allowed(edges, i, j, self_loops, admissible_pairs) {
        let e1 = edges[i];
        let e2 = edges[j];
        let first = swap_remove_seq(edges, i);
        let j2 = if j == edges.len() - 1 {
            i
        } else {
            j
        };
        swap_remove_seq(first, j2).push((e1.0, e2.1)).push((e2.0, e1.1))
    } else {
        edges
    }
}

/// Apply the switch proposal at the drawn positions `i != j`: carried out
/// exactly when [`switch_allowed`] holds, giving [`switch_result`].
pub fn apply_switch(
    state: &mut DegreeSupportState,
    i: usize,
    j: usize,
    self_loops: bool,
    admissible_pairs: Option<&[(u64, u64)]>,
) -> (o: SwitchOutcome)
    requires
        old(state).wf(),
        i < old(state).edges@.len(),
        j < old(state).edges@.len(),
        i != j,
    ensures
        final(state).wf(),
        final(state).node_count == old(state).node_count,
        final(state).edges@.len() == old(state).edges@.len(),
        same_degrees(final(state).edges@, old(state).edges@),
        o == SwitchOutcome::Switched <==> switch_allowed(
            old(state).edges@,
            i as int,
            j as int,
            self_loops,
            admissible_pairs,
        ),
        final(state).edges@ == switch_result(
            old(state).edges@,
            i as int,
            j as int,
            self_loops,
            admissible_pairs,
        ),
        o == SwitchOutcome::Switched ==> proper_switch(
            old(state).edges@,
            final(state).edges@,
            i as int,
            j as int,
        ),
        !self_loops && loop_free(old(state).edges@) ==> loop_free(final(state).edges@),
        all_admitted(old(state).edges@, admissible_pairs) ==> all_admitted(
            final(state).edges@,
            admissible_pairs,
        ),
{
    let len = state.edge_count();
    proof {
        assert(len == old(state).edges@.len());
    }
    let edge_1 = state.edges[i];
    let edge_2 = state.edges[j];
    let ghost start = state.edges@;
    let (a, b) = edge_1;
    let (c, d) = edge_2;
    let cand_1 = (a, d);
    let cand_2 = (c, b);
    if !self_loops && (a == d || c == b) {
        proof {
            assert(!switch_allowed(start, i as int, j as int, self_loops, admissible_pairs));
        }
        return SwitchOutcome::Hold;
    }
    if same_pair(cand_1, cand_2) {
        proof {
            assert(!switch_allowed(start, i as int, j as int, self_loops, admissible_pairs));
        }
        return SwitchOutcome::Hold;
    }
    if same_pair(cand_1, edge_1) && same_pair(cand_2, edge_2) {
        proof {
            assert(!switch_allowed(start, i as int, j as int, self_loops, admissible_pairs));
        }
        return SwitchOutcome::Hold;
    }
    if state.contains(&cand_1) && !same_pair(cand_1, edge_1) && !same_pair(cand_1, edge_2) {
        proof {
            assert(!switch_allowed(start, i as int, j as int, self_loops, admissible_pairs));
        }
        return SwitchOutcome::Hold;
    }
    if state.contains(&cand_2) && !same_pair(cand_2, edge_1) && !same_pair(cand_2, edge_2) {
        proof {
            assert(!switch_allowed(start, i as int, j as int, self_loops, admissible_pairs));
        }
        return SwitchOutcome::Hold;
    }
    if admissible_pairs.is_some() {
        if !is_admissible_pair(admissible_pairs, cand_1.0, cand_1.1) || !is_admissible_pair(
            admissible_pairs,
            cand_2.0,
            cand_2.1,
        ) {
            proof {
            assert(!switch_allowed(start, i as int, j as int, self_loops, admissible_pairs));
        }
        return SwitchOutcome::Hold;
        }
    }
    let ghost e0 = state.edges@;
    proof {
        assert(e0[i as int] != e0[j as int]);
        assert(e0.contains(edge_1));
        assert(e0.contains(edge_2));
        assert(e0[i as int].0 < state.node_count && e0[j as int].1 < state.node_count);
        assert(e0[j as int].0 < state.node_count && e0[i as int].1 < state.node_count);
    }
    state.remove(&edge_1);
    let ghost e1 = state.edges@;
    proof {
        lemma_after_remove(e0, e1, edge_1);
        let x = choose|x: int| 0 <= x < e0.len() && e0[x] == edge_1 && e1 == swap_remove_seq(e0, x);
        assert(x == i);
        let j2 = if j == e0.len() - 1 { i as int } else { j as int };
        assert(e1[j2] == edge_2);
    }
    state.remove(&edge_2);
    let ghost e2 = state.edges@;
    proof {
        let j2 = if j == e0.len() - 1 { i as int } else { j as int };
        let y = choose|y: int| 0 <= y < e1.len() && e1[y] == edge_2 && e2 == swap_remove_seq(e1, y);
        assert(y == j2);
        lemma_after_remove(e1, e2, edge_2);
        assert(!e2.contains(cand_1));
    }
    state.insert(cand_1);
    let ghost e3 = state.edges@;
    proof {
        assert(e3.contains(cand_2) <==> (e2.contains(cand_2) || cand_2 == cand_1));
    }
    state.insert(cand_2);
    let ghost e4 = state.edges@;
    proof {
        lemma_rewire(e0, e1, e2, e3, e4, i as int, j as int, self_loops, admissible_pairs);
        assert(proper_switch(e0, e4, i as int, j as int));
        assert(switch_allowed(e0, i as int, j as int, self_loops, admissible_pairs));
        assert(e4 == switch_result(e0, i as int, j as int, self_loops, admissible_pairs));
    }
    SwitchOutcome::Switched
}

/// One drawn switch proposal: the two positions picked.
pub type SwitchDraw = (int, int);

/// A proposal the step can draw on `m` pairs: two distinct positions (any
/// draw when there are fewer than two pairs, which are held).
pub open spec fn switch_draw_ok(m: int, d: SwitchDraw) -> bool {
    m >= 2 ==> 0 <= d.0 < m && 0 <= d.1 < m && d.0 != d.1
}

/// Whether the drawn proposal is carried out on `edges`.
pub open spec fn switch_accepts(
    edges: Seq<(u64, u64)>,
    d: SwitchDraw,
    self_loops: bool,
    admissible_pairs: Option<&[(u64, u64)]>,
) -> bool {
    edges.len() >= 2 && switch_allowed(edges, d.0, d.1, self_loops, admissible_pairs)
}

/// The pairs after one drawn proposal: [`switch_result`] for two or more
/// pairs, no change otherwise.
pub open spec fn switch_step_result(
    edges: Seq<(u64, u64)>,
    d: SwitchDraw,
    self_loops: bool,
    admissible_pairs: Option<&[(u64, u64)]>,
) -> Seq<(u64, u64)> {
    if edges.len() >= 2 {
        switch_result(edges, d.0, d.1, self_loops, admissible_pairs)
    } else {
        edges
    }
}

/// The pairs after a sequence of drawn proposals, in order.
pub open spec fn apply_switch_draws(
    edges: Seq<(u64, u64)>,
    ds: Seq<SwitchDraw>,
    self_loops: bool,
    admissible_pairs: Option<&[(u64, u64)]>,
) -> Seq<(u64, u64)>
    decreases ds.len(),
{
    if ds.len() == 0 {
        edges
    } else {
        switch_step_result(
            apply_switch_draws(edges, ds.drop_last(), self_loops, admissible_pairs),
            ds.last(),
            self_loops,
            admissible_pairs,
        )
    }
}

/// How many proposals of the sequence are carried out.
pub open spec fn switches_accepted(
    edges: Seq<(u64, u64)>,
    ds: Seq<SwitchDraw>,
    self_loops: bool,
    admissible_pairs: Option<&[(u64, u64)]>,
) -> int
    decreases ds.len(),
{
    if ds.len() == 0 {
        0
    } else {
        switches_accepted(edges, ds.drop_last(), self_loops, admissible_pairs) + if switch_accepts(
            apply_switch_draws(edges, ds.drop_last(), self_loops, admissible_pairs),
            ds.last(),
            self_loops,
            admissible_pairs,
        ) {
            1int
        } else {
            0int
        }
    }
}

/// Every proposal of the sequence can be drawn on `m` pairs.
pub open spec fn switch_draws_ok(m: int, ds: Seq<SwitchDraw>) -> bool {
    forall|k: int| 0 <= k < ds.len() ==> #[trigger] switch_draw_ok(m, ds[k])
}

/// `v` is what `n` drawn switch proposals make of `init`, `accepted` of
/// them carried out.
pub open spec fn switch_chain_result(
    init: Seq<(u64, u64)>,
    n: int,
    self_loops: bool,
    admissible_pairs: Option<&[(u64, u64)]>,
    v: Seq<(u64, u64)>,
    accepted: int,
) -> bool {
    exists|ds: Seq<SwitchDraw>|
        ds.len() == n && #[trigger] switch_draws_ok(init.len() as int, ds) && v == apply_switch_draws(
            init,
            ds,
            self_loops,
            admissible_pairs,
        ) && accepted == switches_accepted(init, ds, self_loops, admissible_pairs)
}

/// Appending one proposal.
proof fn lemma_switch_draws_push(
    init: Seq<(u64, u64)>,
    ds: Seq<SwitchDraw>,
    d: SwitchDraw,
    self_loops: bool,
    admissible_pairs: Option<&[(u64, u64)]>,
)
    requires
        switch_draws_ok(init.len() as int, ds),
        switch_draw_ok(init.len() as int, d),
    ensures
        switch_draws_ok(init.len() as int, ds.push(d)),
        apply_switch_draws(init, ds.push(d), self_loops, admissible_pairs) == switch_step_result(
            apply_switch_draws(init, ds, self_loops, admissible_pairs),
            d,
            self_loops,
            admissible_pairs,
        ),
        switches_accepted(init, ds.push(d), self_loops, admissible_pairs) == switches_accepted(
            init,
            ds,
            self_loops,
            admissible_pairs,
        ) + if switch_accepts(
            apply_switch_draws(init, ds, self_loops, admissible_pairs),
            d,
            self_loops,
            admissible_pairs,
        ) {
            1int
        } else {
            0int
        },
{
    let e = ds.push(d);
    assert(e.drop_last() =~= ds);
    assert forall|k: int| 0 <= k < e.len() implies #[trigger] switch_draw_ok(init.len() as int, e[k]) by {
        if k < ds.len() {
            assert(e[k] == ds[k]);
        }
    }
}

/// Running two proposal sequences one after the other.
proof fn lemma_switch_draws_concat(
    init: Seq<(u64, u64)>,
    ds1: Seq<SwitchDraw>,
    ds2: Seq<SwitchDraw>,
    self_loops: bool,
    admissible_pairs: Option<&[(u64, u64)]>,
)
    requires
        switch_draws_ok(init.len() as int, ds1),
        switch_draws_ok(init.len() as int, ds2),
    ensures
        switch_draws_ok(init.len() as int, ds1 + ds2),
        apply_switch_draws(init, ds1 + ds2, self_loops, admissible_pairs) == apply_switch_draws(
            apply_switch_draws(init, ds1, self_loops, admissible_pairs),
            ds2,
            self_loops,
            admissible_pairs,
        ),
        switches_accepted(init, ds1 + ds2, self_loops, admissible_pairs) == switches_accepted(
            init,
            ds1,
            self_loops,
            admissible_pairs,
        ) + switches_accepted(
            apply_switch_draws(init, ds1, self_loops, admissible_pairs),
            ds2,
            self_loops,
            admissible_pairs,
        ),
    decreases ds2.len(),
{
    if ds2.len() == 0 {
        assert(ds1 + ds2 =~= ds1);
    } else {
        let front = ds2.drop_last();
        assert forall|k: int| 0 <= k < front.len() implies #[trigger] switch_draw_ok(
            init.len() as int,
            front[k],
        ) by {
            assert(front[k] == ds2[k]);
        }
        lemma_switch_draws_concat(init, ds1, front, self_loops, admissible_pairs);
        assert(switch_draw_ok(init.len() as int, ds2[ds2.len() - 1]));
        lemma_switch_draws_push(init, ds1 + front, ds2.last(), self_loops, admissible_pairs);
        assert((ds1 + front).push(ds2.last()) =~= ds1 + ds2);
    }
}

/// Perform one directed double-edge switch step.
///
/// Picks two distinct pairs `a -> b`, `c -> d` uniformly and proposes
/// `a -> d`, `c -> b`. The proposal is held when it would create a
/// forbidden self-loop, duplicate a pair, change nothing, or leave the
/// admissible pairs. Out- and in-degrees are preserved in every case.
///
/// With fewer than two pairs the state is held. Otherwise the two distinct
/// positions drawn are handed to [`apply_switch`]: the new pairs are
/// [`switch_step_result`] of that draw.
pub fn directed_switch_step(
    state: &mut DegreeSupportState,
    self_loops: bool,
    rng: &mut StdRng,
    admissible_pairs: Option<&[(u64, u64)]>,
) -> (o: SwitchOutcome)
    requires
        old(state).wf(),
    ensures
        final(state).wf(),
        final(state).node_count == old(state).node_count,
        final(state).edges@.len() == old(state).edges@.len(),
        same_degrees(final(state).edges@, old(state).edges@),
        o == SwitchOutcome::Hold ==> final(state).edges@ == old(state).edges@,
        o == SwitchOutcome::Switched ==> exists|i: int, j: int|
            #[trigger] proper_switch(old(state).edges@, final(state).edges@, i, j),
        !self_loops && loop_free(old(state).edges@) ==> loop_free(final(state).edges@),
        all_admitted(old(state).edges@, admissible_pairs) ==> all_admitted(
            final(state).edges@,
            admissible_pairs,
        ),
        old(state).edges@.len() < 2 ==> o == SwitchOutcome::Hold,
        exists|d: SwitchDraw|
            #[trigger] switch_draw_ok(old(state).edges@.len() as int, d) && final(state).edges@
                == switch_step_result(old(state).edges@, d, self_loops, admissible_pairs) && (o
                == SwitchOutcome::Switched <==> switch_accepts(
                old(state).edges@,
                d,
                self_loops,
                admissible_pairs,
            )),
{
    let m = state.edge_count();
    if m < 2 {
        proof {
            assert(switch_draw_ok(m as int, (0int, 0int)));
        }
        return SwitchOutcome::Hold;
    }
    let i = random_below(rng, m);
    let mut j = random_below(rng, m - 1);
    if j >= i {
        j = j + 1;
    }
    let ghost start = state.edges@;
    let o = apply_switch(state, i, j, self_loops, admissible_pairs);
    proof {
        if o == SwitchOutcome::Switched {
            assert(proper_switch(start, state.edges@, i as int, j as int));
        }
        assert(switch_allowed(start, i as int, j as int, self_loops, admissible_pairs) == (o
            == SwitchOutcome::Switched));
        assert(switch_draw_ok(m as int, (i as int, j as int)));
    }
    o
}

/// Whether `(i, j)` is allowed by the self-loop policy.
pub open spec fn policy_allows(i: int, j: int, self_loops: bool) -> bool {
    self_loops || i != j
}

/// Degree of a node in the complement of a support.
pub open spec fn complement_degree(n: nat, self_loops: bool, d: nat) -> int {
    n - (if self_loops {
        0int
    } else {
        1int
    }) - d
}

/// Replace a support by its complement: every ordered pair of `[0, n)²`
/// allowed by the self-loop policy and absent from the support.
pub fn invert_complement(state: &mut DegreeSupportState, self_loops: bool)
    requires
        old(state).wf(),
        simple_support(old(state).edges@, old(state).node_count as nat, self_loops),
        old(state).node_count * old(state).node_count < usize::MAX,
    ensures
        final(state).wf(),
        final(state).node_count == old(state).node_count,
        simple_support(final(state).edges@, final(state).node_count as nat, self_loops),
        forall|i: int, j: int|
            #![trigger final(state).edges@.contains((i as u64, j as u64))]
            0 <= i < old(state).node_count && 0 <= j < old(state).node_count ==> (
            final(state).edges@.contains((i as u64, j as u64)) <==> (policy_allows(
                i,
                j,
                self_loops,
            ) && !old(state).edges@.contains((i as u64, j as u64)))),
        forall|v: int|
            0 <= v < old(state).node_count ==> #[trigger] out_count(final(state).edges@, v)
                == complement_degree(
                old(state).node_count as nat,
                self_loops,
                out_count(old(state).edges@, v),
            ),
        forall|v: int|
            0 <= v < old(state).node_count ==> #[trigger] in_count(final(state).edges@, v)
                == complement_degree(
                old(state).node_count as nat,
                self_loops,
                in_count(old(state).edges@, v),
            ),
{
    let n = state.node_count;
    let ghost old_edges = state.edges@;
    let mut new_edges: Vec<(u64, u64)> = Vec::new();
    let mut i: usize = 0;
    while i < n
        invariant
            i <= n,
            n == state.node_count,
            state.wf(),
            state.edges@ == old_edges,
            n * n < usize::MAX,
            new_edges@.len() <= i * n,
            new_edges@.no_duplicates(),
            forall|p: (u64, u64)|
                #[trigger] new_edges@.contains(p) <==> (p.0 < i && p.1 < n && policy_allows(
                    p.0 as int,
                    p.1 as int,
                    self_loops,
                ) && !old_edges.contains(p)),
        decreases n - i,
    {
        let mut j: usize = 0;
        while j < n
            invariant
                i < n,
                j <= n,
                n == state.node_count,
                state.wf(),
                state.edges@ == old_edges,
                n * n < usize::MAX,
                new_edges@.len() <= i * n + j,
                new_edges@.no_duplicates(),
                forall|p: (u64, u64)|
                    #[trigger] new_edges@.contains(p) <==> (((p.0 < i && p.1 < n) || (p.0 == i
                        && p.1 < j)) && policy_allows(p.0 as int, p.1 as int, self_loops)
                        && !old_edges.contains(p)),
            decreases n - j,
        {
            let pair = (i as u64, j as u64);
            if (self_loops || i != j) && !state.contains(&pair) {
                assert(!new_edges@.contains(pair));
                assert(i * n + j < n * n) by (nonlinear_arith)
                    requires
                        i < n,
                        j < n,
                ;
                new_edges.push(pair);
            }
            j = j + 1;
        }
        assert(i * n + n == (i + 1) * n) by (nonlinear_arith);
        i = i + 1;
    }
    proof {
        assert forall|k: int| 0 <= k < new_edges@.len() implies #[trigger] new_edges@[k].0 < n
            && new_edges@[k].1 < n && (self_loops || new_edges@[k].0 != new_edges@[k].1) by {
            assert(new_edges@.contains(new_edges@[k]));
        }
    }
    let ghost ne = new_edges@;
    *state = DegreeSupportState::new(n, new_edges, self_loops);
    proof {
        assert forall|v: int| 0 <= v < n implies #[trigger] out_count(ne, v) == complement_degree(
            n as nat,
            self_loops,
            out_count(old_edges, v),
        ) by {
            lemma_complement_count(old_edges, ne, n as nat, v, self_loops, true);
        }
        assert forall|v: int| 0 <= v < n implies #[trigger] in_count(ne, v) == complement_degree(
            n as nat,
            self_loops,
            in_count(old_edges, v),
        ) by {
            lemma_complement_count(old_edges, ne, n as nat, v, self_loops, false);
        }
    }
}

/// Degree of a node in the complement support.
proof fn lemma_complement_count(
    old_edges: Seq<(u64, u64)>,
    new_edges: Seq<(u64, u64)>,
    n: nat,
    v: int,
    self_loops: bool,
    src: bool,
)
    requires
        simple_support(old_edges, n, self_loops),
        simple_support(new_edges, n, self_loops),
        0 <= v < n,
        n <= u64::MAX,
        forall|p: (u64, u64)|
            #[trigger] new_edges.contains(p) <==> (p.0 < n && p.1 < n && policy_allows(
                p.0 as int,
                p.1 as int,
                self_loops,
            ) && !old_edges.contains(p)),
    ensures
        count_at(new_edges, src, v) == complement_degree(n, self_loops, count_at(old_edges, src, v)),
{
    lemma_count_at_is_row_count(old_edges, n, v, src);
    lemma_count_at_is_row_count(new_edges, n, v, src);
    let a = |w: int| self_loops || w != v;
    let b = |w: int| old_edges.contains(oriented(v, w, src));
    let pn = |w: int| new_edges.contains(oriented(v, w, src));
    assert forall|w: int| 0 <= w < n && #[trigger] b(w) implies a(w) by {
        let k = choose|k: int| 0 <= k < old_edges.len() && old_edges[k] == oriented(v, w, src);
        assert(old_edges[k].0 != old_edges[k].1 || self_loops);
    }
    lemma_count_true_minus(a, b, n as int);
    assert forall|w: int| 0 <= w < n implies #[trigger] pn(w) == (a(w) && !b(w)) by {
        let p = oriented(v, w, src);
        assert(new_edges.contains(p) <==> (p.0 < n && p.1 < n && policy_allows(
            p.0 as int,
            p.1 as int,
            self_loops,
        ) && !old_edges.contains(p)));
    }
    lemma_count_true_ext(pn, |w: int| a(w) && !b(w), n as int);
    lemma_count_true_policy(v, n as int, self_loops);
}

/// MCMC configuration for the fixed-degree support sampler.
#[derive(Clone, Debug)]
pub struct FixedDegreeMcmcConfig {
    /// Number of sweeps for burn-in.
    pub burn_in_sweeps: usize,
    /// Number of sweeps between output samples.
    pub sweeps_per_sample: usize,
    /// Optional override for proposals per sweep.  `None` means auto.
    pub proposals_per_sweep: Option<usize>,
    /// Seed for the generator.
    pub seed: u64,
    /// Whether self-loops are admissible in the support.
    pub self_loops: bool,
}

impl FixedDegreeMcmcConfig {
    /// Default configuration for a heterogeneity class: 20/5, 50/10 and
    /// 100/20 burn-in/thinning sweeps for light, heterogeneous and
    /// hub-dominated sequences; seed 0, automatic sweep length, no self-loops.
    pub fn default_for_heterogeneity(het: &DegreeHeterogeneity) -> (c: Self)
        ensures
            c.burn_in_sweeps == (match *het {
                DegreeHeterogeneity::Light => 20usize,
                DegreeHeterogeneity::Heterogeneous => 50usize,
                DegreeHeterogeneity::HubDominated => 100usize,
            }),
            c.sweeps_per_sample == (match *het {
                DegreeHeterogeneity::Light => 5usize,
                DegreeHeterogeneity::Heterogeneous => 10usize,
                DegreeHeterogeneity::HubDominated => 20usize,
            }),
            c.seed == 0,
            c.proposals_per_sweep.is_none(),
            !c.self_loops,
    {
        match het {
            DegreeHeterogeneity::Light => FixedDegreeMcmcConfig {
                burn_in_sweeps: 20,
                sweeps_per_sample: 5,
                seed: 0,
                proposals_per_sweep: None,
                self_loops: false,
            },
            DegreeHeterogeneity::Heterogeneous => FixedDegreeMcmcConfig {
                burn_in_sweeps: 50,
                sweeps_per_sample: 10,
                seed: 0,
                proposals_per_sweep: None,
                self_loops: false,
            },
            DegreeHeterogeneity::HubDominated => FixedDegreeMcmcConfig {
                burn_in_sweeps: 100,
                sweeps_per_sample: 20,
                seed: 0,
                proposals_per_sweep: None,
                self_loops: false,
            },
        }
    }
}

impl Default for FixedDegreeMcmcConfig {
    /// 50 burn-in sweeps, 10 thinning sweeps, seed 0, automatic sweep
    /// length, no self-loops.
    fn default() -> (c: Self)
        ensures
            c.burn_in_sweeps == 50,
            c.sweeps_per_sample == 10,
            c.seed == 0,
            c.proposals_per_sweep.is_none(),
            !c.self_loops,
    {
        FixedDegreeMcmcConfig {
            burn_in_sweeps: 50,
            sweeps_per_sample: 10,
            seed: 0,
            proposals_per_sweep: None,
            self_loops: false,
        }
    }
}

/// Persistent MCMC chain for fixed-degree support sampling.
pub struct FixedDegreeChain {
    pub state: DegreeSupportState,
    pub diagnostics: FixedDegreeDiagnostics,
    pub config: FixedDegreeMcmcConfig,
}

/// `max(x, 1)`.
pub open spec fn at_least_one(x: int) -> int {
    if x >= 1 {
        x
    } else {
        1
    }
}

impl FixedDegreeChain {
    /// The chain's state is consistent and its acceptance counter is
    /// bounded by its proposal counter.
    pub open spec fn valid(&self) -> bool {
        &&& self.state.wf()
        &&& self.diagnostics.mcmc.accepted <= self.diagnostics.mcmc.proposals
    }

    /// `self` is reachable from `prev` by switch steps: same node set, edge
    /// count and degrees; self-loop freedom (when forbidden) and
    /// admissibility kept; configuration and the non-proposal counters
    /// unchanged.
    pub open spec fn evolved_from(
        &self,
        prev: &FixedDegreeChain,
        admissible_pairs: Option<&[(u64, u64)]>,
    ) -> bool {
        &&& self.valid()
        &&& self.state.node_count == prev.state.node_count
        &&& self.state.edges@.len() == prev.state.edges@.len()
        &&& same_degrees(self.state.edges@, prev.state.edges@)
        &&& (!prev.config.self_loops && loop_free(prev.state.edges@) ==> loop_free(
            self.state.edges@,
        ))
        &&& (all_admitted(prev.state.edges@, admissible_pairs) ==> all_admitted(
            self.state.edges@,
            admissible_pairs,
        ))
        &&& self.config == prev.config
        &&& self.diagnostics.representation == prev.diagnostics.representation
        &&& self.diagnostics.heterogeneity == prev.diagnostics.heterogeneity
        &&& self.diagnostics.mcmc.held == prev.diagnostics.mcmc.held
        &&& self.diagnostics.mcmc.metropolis_rejected == prev.diagnostics.mcmc.metropolis_rejected
        &&& self.diagnostics.self_loop_holds == prev.diagnostics.self_loop_holds
        &&& self.diagnostics.duplicate_holds == prev.diagnostics.duplicate_holds
        &&& self.diagnostics.no_op_holds == prev.diagnostics.no_op_holds
    }

    /// Proposals in one sweep: one per edge (at least one).
    pub open spec fn sweep_len(&self) -> int {
        at_least_one(self.state.edges@.len() as int)
    }

    /// Create a new chain from a pre-built support state.
    pub fn new(state: DegreeSupportState, config: FixedDegreeMcmcConfig) -> (c: Self)
        ensures
            c.state == state,
            c.config == config,
            c.diagnostics.mcmc.is_zero(),
            c.diagnostics.representation == RepresentationMode::Direct,
            c.diagnostics.heterogeneity == DegreeHeterogeneity::Light,
            c.diagnostics.self_loop_holds == 0,
            c.diagnostics.duplicate_holds == 0,
            c.diagnostics.no_op_holds == 0,
    {
        FixedDegreeChain { state, diagnostics: FixedDegreeDiagnostics::new(), config }
    }

    /// Perform one MCMC step (one directed double-edge switch proposal).
    pub fn step(&mut self, rng: &mut StdRng, admissible_pairs: Option<&[(u64, u64)]>) -> (o:
        SwitchOutcome)
        requires
            old(self).valid(),
            old(self).diagnostics.mcmc.proposals < u64::MAX,
        ensures
            final(self).evolved_from(old(self), admissible_pairs),
            final(self).diagnostics.mcmc.proposals == old(self).diagnostics.mcmc.proposals + 1,
            final(self).diagnostics.mcmc.accepted == old(self).diagnostics.mcmc.accepted + if o
                == SwitchOutcome::Switched {
                1int
            } else {
                0int
            },
            o == SwitchOutcome::Hold ==> final(self).state.edges@ == old(self).state.edges@,
            exists|d: SwitchDraw|
                #[trigger] switch_draw_ok(old(self).state.edges@.len() as int, d) && final(self).state.edges@
                    == switch_step_result(
                    old(self).state.edges@,
                    d,
                    old(self).config.self_loops,
                    admissible_pairs,
                ) && (o == SwitchOutcome::Switched <==> switch_accepts(
                    old(self).state.edges@,
                    d,
                    old(self).config.self_loops,
                    admissible_pairs,
                )),
    {
        self.diagnostics.mcmc.proposals = self.diagnostics.mcmc.proposals + 1;
        let outcome = directed_switch_step(
            &mut self.state,
            self.config.self_loops,
            rng,
            admissible_pairs,
        );
        match outcome {
            SwitchOutcome::Switched => {
                self.diagnostics.mcmc.accepted = self.diagnostics.mcmc.accepted + 1;
            },
            SwitchOutcome::Hold => {},
        }
        outcome
    }

    /// Perform one sweep: one proposal per edge (at least one). The new
    /// support is what that many drawn proposals make of the old one, and
    /// the acceptance counter grows by the number carried out.
    pub fn sweep(&mut self, rng: &mut StdRng, admissible_pairs: Option<&[(u64, u64)]>)
        requires
            old(self).valid(),
            old(self).diagnostics.mcmc.proposals + old(self).sweep_len() <= u64::MAX,
        ensures
            final(self).evolved_from(old(self), admissible_pairs),
            final(self).diagnostics.mcmc.proposals == old(self).diagnostics.mcmc.proposals + old(
                self,
            ).sweep_len(),
            switch_chain_result(
                old(self).state.edges@,
                old(self).sweep_len(),
                old(self).config.self_loops,
                admissible_pairs,
                final(self).state.edges@,
                final(self).diagnostics.mcmc.accepted - old(self).diagnostics.mcmc.accepted,
            ),
    {
        let m = if self.state.edge_count() >= 1 {
            self.state.edge_count()
        } else {
            1
        };
        let ghost start = *self;
        let ghost sl = start.config.self_loops;
        let ghost mut ds: Seq<SwitchDraw> = Seq::empty();
        let mut k: usize = 0;
        while k < m
            invariant
                k <= m,
                m == start.sweep_len(),
                sl == start.config.self_loops,
                self.evolved_from(&start, admissible_pairs),
                self.diagnostics.mcmc.proposals == start.diagnostics.mcmc.proposals + k,
                start.diagnostics.mcmc.proposals + m <= u64::MAX,
                ds.len() == k,
                switch_draws_ok(start.state.edges@.len() as int, ds),
                self.state.edges@ == apply_switch_draws(start.state.edges@, ds, sl, admissible_pairs),
                self.diagnostics.mcmc.accepted == start.diagnostics.mcmc.accepted + switches_accepted(
                    start.state.edges@,
                    ds,
                    sl,
                    admissible_pairs,
                ),
            decreases m - k,
        {
            let ghost before = self.state.edges@;
            let o = self.step(rng, admissible_pairs);
            proof {
                let d = choose|d: SwitchDraw|
                    #[trigger] switch_draw_ok(before.len() as int, d) && self.state.edges@
                        == switch_step_result(before, d, sl, admissible_pairs) && (o
                        == SwitchOutcome::Switched <==> switch_accepts(before, d, sl, admissible_pairs));
                lemma_switch_draws_push(start.state.edges@, ds, d, sl, admissible_pairs);
                ds = ds.push(d);
            }
            k = k + 1;
        }
        proof {
            assert(switch_draws_ok(start.state.edges@.len() as int, ds));
        }
    }

    /// Run `max(burn_in_sweeps, 1)` sweeps.
    pub fn burn_in(&mut self, rng: &mut StdRng, admissible_pairs: Option<&[(u64, u64)]>)
        requires
            old(self).valid(),
            old(self).diagnostics.mcmc.proposals + at_least_one(
                old(self).config.burn_in_sweeps as int,
            ) * old(self).sweep_len() <= u64::MAX,
        ensures
            final(self).evolved_from(old(self), admissible_pairs),
            final(self).diagnostics.mcmc.proposals == old(self).diagnostics.mcmc.proposals
                + at_least_one(old(self).config.burn_in_sweeps as int) * old(self).sweep_len(),
            switch_chain_result(
                old(self).state.edges@,
                at_least_one(old(self).config.burn_in_sweeps as int) * old(self).sweep_len(),
                old(self).config.self_loops,
                admissible_pairs,
                final(self).state.edges@,
                final(self).diagnostics.mcmc.accepted - old(self).diagnostics.mcmc.accepted,
            ),
    {
        let sweeps = if self.config.burn_in_sweeps >= 1 {
            self.config.burn_in_sweeps
        } else {
            1
        };
        self.run_sweeps(sweeps, rng, admissible_pairs);
    }

    /// Run `sweeps` sweeps.
    fn run_sweeps(&mut self, sweeps: usize, rng: &mut StdRng, admissible_pairs: Option<&[(u64, u64)]>)
        requires
            old(self).valid(),
            old(self).diagnostics.mcmc.proposals + sweeps * old(self).sweep_len() <= u64::MAX,
        ensures
            final(self).evolved_from(old(self), admissible_pairs),
            final(self).diagnostics.mcmc.proposals == old(self).diagnostics.mcmc.proposals + sweeps
                * old(self).sweep_len(),
            switch_chain_result(
                old(self).state.edges@,
                sweeps * old(self).sweep_len(),
                old(self).config.self_loops,
                admissible_pairs,
                final(self).state.edges@,
                final(self).diagnostics.mcmc.accepted - old(self).diagnostics.mcmc.accepted,
            ),
    {
        let ghost start = *self;
        let ghost m = start.sweep_len();
        let ghost sl = start.config.self_loops;
        let ghost mut ds: Seq<SwitchDraw> = Seq::empty();
        let mut k: usize = 0;
        while k < sweeps
            invariant
                k <= sweeps,
                m == start.sweep_len(),
                m >= 1,
                sl == start.config.self_loops,
                self.evolved_from(&start, admissible_pairs),
                self.sweep_len() == m,
                self.diagnostics.mcmc.proposals == start.diagnostics.mcmc.proposals + k * m,
                start.diagnostics.mcmc.proposals + sweeps * m <= u64::MAX,
                ds.len() == k * m,
                switch_draws_ok(start.state.edges@.len() as int, ds),
                self.state.edges@ == apply_switch_draws(start.state.edges@, ds, sl, admissible_pairs),
                self.diagnostics.mcmc.accepted == start.diagnostics.mcmc.accepted + switches_accepted(
                    start.state.edges@,
                    ds,
                    sl,
                    admissible_pairs,
                ),
            decreases sweeps - k,
        {
            assert(k * m + m == (k + 1) * m) by (nonlinear_arith);
            assert((k + 1) * m <= sweeps * m) by (nonlinear_arith)
                requires
                    k + 1 <= sweeps,
                    m >= 1,
            ;
            let ghost before = *self;
            self.sweep(rng, admissible_pairs);
            proof {
                let ds2 = choose|ds2: Seq<SwitchDraw>|
                    ds2.len() == m && #[trigger] switch_draws_ok(before.state.edges@.len() as int, ds2)
                        && self.state.edges@ == apply_switch_draws(
                        before.state.edges@,
                        ds2,
                        sl,
                        admissible_pairs,
                    ) && self.diagnostics.mcmc.accepted - before.diagnostics.mcmc.accepted
                        == switches_accepted(before.state.edges@, ds2, sl, admissible_pairs);
                lemma_switch_draws_concat(start.state.edges@, ds, ds2, sl, admissible_pairs);
                ds = ds + ds2;
            }
            k = k + 1;
        }
        proof {
            assert(switch_draws_ok(start.state.edges@.len() as int, ds));
        }
    }

    /// Run `max(sweeps_per_sample, 1)` thinning sweeps and return the
    /// current support.
    pub fn sample_support(&mut self, rng: &mut StdRng, admissible_pairs: Option<&[(u64, u64)]>)
        -> (edges: &[(u64, u64)])
        requires
            old(self).valid(),
            old(self).diagnostics.mcmc.proposals + at_least_one(
                old(self).config.sweeps_per_sample as int,
            ) * old(self).sweep_len() <= u64::MAX,
        ensures
            final(self).evolved_from(old(self), admissible_pairs),
            final(self).diagnostics.mcmc.proposals == old(self).diagnostics.mcmc.proposals
                + at_least_one(old(self).config.sweeps_per_sample as int) * old(self).sweep_len(),
            switch_chain_result(
                old(self).state.edges@,
                at_least_one(old(self).config.sweeps_per_sample as int) * old(self).sweep_len(),
                old(self).config.self_loops,
                admissible_pairs,
                final(self).state.edges@,
                final(self).diagnostics.mcmc.accepted - old(self).diagnostics.mcmc.accepted,
            ),
            edges@ == final(self).state.edges@,
    {
        let sweeps = if self.config.sweeps_per_sample >= 1 {
            self.config.sweeps_per_sample
        } else {
            1
        };
        self.run_sweeps(sweeps, rng, admissible_pairs);
        self.state.edges.as_slice()
    }
}

/// Degree bounds under which a complement round trip restores the degrees.
pub open spec fn degrees_within(out_degrees: Seq<u32>, in_degrees: Seq<u32>, self_loops: bool) -> bool {
    let max_allowed = max_allowed_degree(out_degrees.len(), self_loops);
    &&& out_degrees.len() <= u32::MAX
    &&& forall|v: int| 0 <= v < out_degrees.len() ==> #[trigger] out_degrees[v] <= max_allowed
    &&& forall|v: int| 0 <= v < in_degrees.len() ==> #[trigger] in_degrees[v] <= max_allowed
}

/// Largest out- or in-degree.
pub open spec fn max_degree(out_degrees: Seq<u32>, in_degrees: Seq<u32>) -> int {
    if seq_max_u32(out_degrees) >= seq_max_u32(in_degrees) {
        seq_max_u32(out_degrees) as int
    } else {
        seq_max_u32(in_degrees) as int
    }
}

/// Whether the complement representation is used for these degrees.
pub open spec fn uses_complement(out_degrees: Seq<u32>, self_loops: bool) -> bool {
    seq_sum_u32(complement_degrees(out_degrees, max_allowed_degree(out_degrees.len(), self_loops)))
        < seq_sum_u32(out_degrees)
}

/// The degree pair the support sampler builds greedily: the complement pair
/// when it has fewer edges, the given pair otherwise.
pub open spec fn support_work_pair(out_degrees: Seq<u32>, in_degrees: Seq<u32>, self_loops: bool) -> (
    Seq<u32>,
    Seq<u32>,
) {
    let ma = max_allowed_degree(out_degrees.len(), self_loops);
    if uses_complement(out_degrees, self_loops) {
        (complement_degrees(out_degrees, ma), complement_degrees(in_degrees, ma))
    } else {
        (out_degrees, in_degrees)
    }
}

/// Two stretches of drawn proposals, one after the other, are one stretch.
proof fn lemma_switch_chain_join(
    init: Seq<(u64, u64)>,
    mid: Seq<(u64, u64)>,
    v: Seq<(u64, u64)>,
    n1: int,
    n2: int,
    a1: int,
    a2: int,
    self_loops: bool,
    admissible_pairs: Option<&[(u64, u64)]>,
)
    requires
        switch_chain_result(init, n1, self_loops, admissible_pairs, mid, a1),
        switch_chain_result(mid, n2, self_loops, admissible_pairs, v, a2),
        mid.len() == init.len(),
    ensures
        switch_chain_result(init, n1 + n2, self_loops, admissible_pairs, v, a1 + a2),
{
    let ds1 = choose|ds1: Seq<SwitchDraw>|
        ds1.len() == n1 && #[trigger] switch_draws_ok(init.len() as int, ds1) && mid
            == apply_switch_draws(init, ds1, self_loops, admissible_pairs) && a1 == switches_accepted(
            init,
            ds1,
            self_loops,
            admissible_pairs,
        );
    let ds2 = choose|ds2: Seq<SwitchDraw>|
        ds2.len() == n2 && #[trigger] switch_draws_ok(mid.len() as int, ds2) && v
            == apply_switch_draws(mid, ds2, self_loops, admissible_pairs) && a2 == switches_accepted(
            mid,
            ds2,
            self_loops,
            admissible_pairs,
        );
    lemma_switch_draws_concat(init, ds1, ds2, self_loops, admissible_pairs);
    assert(switch_draws_ok(init.len() as int, ds1 + ds2));
}

/// Proposals the support sampler draws from a start of `e` pairs:
/// `max(burn_in, 1) + max(thinning, 1)` sweeps of `max(e, 1)` each.
pub open spec fn support_chain_len(config: FixedDegreeMcmcConfig, e: int) -> int {
    (at_least_one(config.burn_in_sweeps as int) + at_least_one(config.sweeps_per_sample as int))
        * at_least_one(e)
}

/// `v` is a support the sampler can return for the degrees under `config`:
/// some simple support of admissible pairs realizing [`support_work_pair`],
/// after [`support_chain_len`] drawn switch proposals (`accepted` of them
/// carried out), and then, when [`uses_complement`], replaced by its
/// complement.
pub open spec fn degree_support_sample_of(
    out_degrees: Seq<u32>,
    in_degrees: Seq<u32>,
    self_loops: bool,
    config: FixedDegreeMcmcConfig,
    admissible_pairs: Option<&[(u64, u64)]>,
    v: Seq<(u64, u64)>,
    accepted: int,
) -> bool {
    let n = out_degrees.len();
    let work = support_work_pair(out_degrees, in_degrees, self_loops);
    exists|init: Seq<(u64, u64)>, pre: Seq<(u64, u64)>|
        {
            &&& realizes(init, work.0, work.1, self_loops)
            &&& all_admitted(init, admissible_pairs)
            &&& #[trigger] switch_chain_result(
                init,
                support_chain_len(config, init.len() as int),
                self_loops,
                admissible_pairs,
                pre,
                accepted,
            )
            &&& if uses_complement(out_degrees, self_loops) {
                forall|i: int, j: int|
                    0 <= i < n && 0 <= j < n ==> (v.contains((i as u64, j as u64)) <==> (
                    policy_allows(i, j, self_loops) && !pre.contains((i as u64, j as u64))))
            } else {
                v == pre
            }
        }
}

/// One-shot support sampling: classify the degree sequences, pick the direct
/// or complement representation (whichever has fewer edges), build a
/// support greedily, run `max(burn_in, 1)` burn-in sweeps and
/// `max(sweeps_per_sample, 1)` thinning sweeps of directed switches with a
/// generator seeded from `config.seed`, and map a complement back.
///
/// A direct-mode support realizes the degrees exactly and uses only
/// admissible pairs; a complement-mode support does whenever every degree
/// is at most the largest admissible degree. Every returned support is what
/// [`support_chain_len`] drawn switch proposals make of a greedy support
/// ([`degree_support_sample_of`]), and the proposal counter says how many
/// were drawn. Fails only on an empty sequence or when no support could be
/// built; succeeds whenever the deterministic greedy pass on
/// [`support_work_pair`] does.
#[verifier::spinoff_prover]
pub fn sample_fixed_degree_support(
    out_degrees: &[u32],
    in_degrees: &[u32],
    self_loops: bool,
    config: &FixedDegreeMcmcConfig,
    admissible_pairs: Option<&[(u64, u64)]>,
) -> (r: Result<(DegreeSupportState, FixedDegreeDiagnostics), FixedKTError>)
    requires
        out_degrees@.len() == in_degrees@.len(),
        out_degrees@.len() > 0 ==> (self_loops || (out_degrees@.len() as u32) >= 1),
        seq_sum_u32(out_degrees@) < usize::MAX,
        out_degrees@.len() * out_degrees@.len() < usize::MAX,
        (at_least_one(config.burn_in_sweeps as int) + at_least_one(
            config.sweeps_per_sample as int,
        )) * (seq_sum_u32(out_degrees@) + 1) <= u64::MAX,
    ensures
        out_degrees@.len() == 0 ==> (r matches Err(e) && e is InvalidResidual),
        out_degrees@.len() > 0 && all_zero_degrees(out_degrees@, in_degrees@) ==> r is Ok,
        out_degrees@.len() > 0 && greedy_pass_ok(
            support_work_pair(out_degrees@, in_degrees@, self_loops).0,
            support_work_pair(out_degrees@, in_degrees@, self_loops).1,
            self_loops,
            admits_fn(admissible_pairs),
        ) ==> r is Ok,
        r matches Err(e) ==> (out_degrees@.len() == 0 && e is InvalidResidual) || e is InitializationFailed,
        r matches Ok((state, diag)) ==> {
            &&& state.wf()
            &&& state.node_count == out_degrees@.len()
            &&& simple_support(state.edges@, out_degrees@.len() as nat, self_loops)
            &&& diag.heterogeneity == heterogeneity_class(
                seq_sum_u32(out_degrees@),
                max_degree(out_degrees@, in_degrees@),
            )
            &&& diag.representation == (if uses_complement(out_degrees@, self_loops) {
                RepresentationMode::Complement
            } else {
                RepresentationMode::Direct
            })
            &&& diag.representation == RepresentationMode::Direct ==> realizes(
                state.edges@,
                out_degrees@,
                in_degrees@,
                self_loops,
            ) && all_admitted(state.edges@, admissible_pairs)
            &&& degrees_within(out_degrees@, in_degrees@, self_loops) ==> realizes(
                state.edges@,
                out_degrees@,
                in_degrees@,
                self_loops,
            )
            &&& diag.mcmc.proposals == support_chain_len(
                *config,
                seq_sum_u32(support_work_pair(out_degrees@, in_degrees@, self_loops).0),
            )
            &&& degree_support_sample_of(
                out_degrees@,
                in_degrees@,
                self_loops,
                *config,
                admissible_pairs,
                state.edges@,
                diag.mcmc.accepted as int,
            )
        },
{
    let n = out_degrees.len();
    if n == 0 {
        return Err(FixedKTError::InvalidResidual("empty degree sequence".to_owned()));
    }
    let het = classify_heterogeneity(out_degrees, in_degrees);
    proof {
        let ma = max_allowed_degree(n as nat, self_loops);
        assert(0 <= ma <= n);
        assert(n * ma <= n * n) by (nonlinear_arith)
            requires
                0 <= ma <= n,
        ;
    }
    let (work_out, work_in, repr, work_e) = maybe_complement(out_degrees, in_degrees, self_loops);
    proof {
        lemma_seq_sum_u32_nonneg(out_degrees@);
        if all_zero_degrees(out_degrees@, in_degrees@) {
            lemma_seq_sum_u32_zero(out_degrees@);
            lemma_seq_sum_u32_nonneg(
                complement_degrees(out_degrees@, max_allowed_degree(n as nat, self_loops)),
            );
            assert(work_out@ == out_degrees@ && work_in@ == in_degrees@);
        }
        assert(work_out@.len() == n);
        assert(work_in@.len() == n) by {
            if repr == RepresentationMode::Complement {
            }
        }
    }
    let state = greedy_directed_initialize(
        work_out.as_slice(),
        work_in.as_slice(),
        self_loops,
        admissible_pairs,
    )?;
    proof {
        lemma_realized_edge_count(state.edges@, work_out@, work_in@, self_loops);
    }
    let effective_config = FixedDegreeMcmcConfig {
        burn_in_sweeps: config.burn_in_sweeps,
        sweeps_per_sample: config.sweeps_per_sample,
        seed: config.seed,
        proposals_per_sweep: None,
        self_loops,
    };
    let mut chain = FixedDegreeChain::new(state, effective_config);
    chain.diagnostics.representation = repr;
    chain.diagnostics.heterogeneity = het;
    let ghost start = chain;
    let mut rng = rng_from_seed(config.seed);
    proof {
        let b = at_least_one(config.burn_in_sweeps as int);
        let t = at_least_one(config.sweeps_per_sample as int);
        let m = chain.sweep_len();
        let bound = seq_sum_u32(out_degrees@) + 1;
        assert(m <= bound);
        assert(b * m + t * m <= (b + t) * bound) by (nonlinear_arith)
            requires
                1 <= m <= bound,
                b >= 1,
                t >= 1,
        ;
        assert(b * m >= 0) by (nonlinear_arith)
            requires
                m >= 1,
                b >= 1,
        ;
    }
    chain.burn_in(&mut rng, admissible_pairs);
    let ghost mid = chain;
    chain.sample_support(&mut rng, admissible_pairs);
    let FixedDegreeChain { state: mut final_state, diagnostics, config: _ } = chain;
    let ghost pre = final_state.edges@;
    proof {
        let m = start.sweep_len();
        let b = at_least_one(config.burn_in_sweeps as int);
        let t = at_least_one(config.sweeps_per_sample as int);
        lemma_switch_chain_join(
            start.state.edges@,
            mid.state.edges@,
            pre,
            b * m,
            t * m,
            mid.diagnostics.mcmc.accepted - start.diagnostics.mcmc.accepted,
            diagnostics.mcmc.accepted - mid.diagnostics.mcmc.accepted,
            self_loops,
            admissible_pairs,
        );
        assert(b * m + t * m == support_chain_len(*config, start.state.edges@.len() as int))
            by (nonlinear_arith)
            requires
                m == at_least_one(start.state.edges@.len() as int),
                support_chain_len(*config, start.state.edges@.len() as int) == (b + t) * m,
        ;
        assert(start.state.edges@.len() == seq_sum_u32(work_out@));
        assert(switch_chain_result(
            start.state.edges@,
            support_chain_len(*config, start.state.edges@.len() as int),
            self_loops,
            admissible_pairs,
            pre,
            diagnostics.mcmc.accepted as int,
        ));
    }
    proof {
        assert(final_state.node_count == n);
        assert(final_state.wf());
        assert(same_degrees(pre, start.state.edges@));
        assert(loop_free(start.state.edges@) || self_loops) by {
            if !self_loops {
                assert forall|k: int| 0 <= k < start.state.edges@.len() implies #[trigger]
                    start.state.edges@[k].0 != start.state.edges@[k].1 by {
                    assert(start.state.edges@[k].0 < n);
                }
            }
        }
        if !self_loops {
            assert(loop_free(pre));
        }
        assert forall|k: int| 0 <= k < pre.len() implies #[trigger] pre[k].0 < n && pre[k].1 < n
            && (self_loops || pre[k].0 != pre[k].1) by {
            assert(final_state.edges@[k].0 < final_state.node_count);
            if !self_loops {
                assert(pre[k].0 != pre[k].1);
            }
        }
        assert(simple_support(pre, n as nat, self_loops));
        assert forall|v: int| 0 <= v < n implies #[trigger] out_count(pre, v) == work_out@[v]
            && in_count(pre, v) == work_in@[v] by {
            assert(out_count(pre, v) == out_count(start.state.edges@, v));
        }
        if repr == RepresentationMode::Direct {
            assert(work_out@ == out_degrees@);
            assert(work_in@ == in_degrees@);
            assert(realizes(pre, out_degrees@, in_degrees@, self_loops));
        }
    }
    if repr == RepresentationMode::Complement {
        invert_complement(&mut final_state, self_loops);
        proof {
            let work = support_work_pair(out_degrees@, in_degrees@, self_loops);
            assert(uses_complement(out_degrees@, self_loops));
            assert(work.0 == work_out@ && work.1 == work_in@);
            assert(realizes(start.state.edges@, work.0, work.1, self_loops));
            assert(forall|i: int, j: int|
                0 <= i < n && 0 <= j < n ==> (final_state.edges@.contains((i as u64, j as u64)) <==> (
                policy_allows(i, j, self_loops) && !pre.contains((i as u64, j as u64)))));
            assert(degree_support_sample_of(
                out_degrees@,
                in_degrees@,
                self_loops,
                *config,
                admissible_pairs,
                final_state.edges@,
                diagnostics.mcmc.accepted as int,
            ));
            let ma = max_allowed_degree(n as nat, self_loops);
            if degrees_within(out_degrees@, in_degrees@, self_loops) {
                assert(ma == n - (if self_loops { 0int } else { 1int }));
                assert forall|v: int| 0 <= v < n implies #[trigger] out_count(
                    final_state.edges@,
                    v,
                ) == out_degrees@[v] && in_count(final_state.edges@, v) == in_degrees@[v] by {
                    assert(out_degrees@[v] <= ma);
                    assert(in_degrees@[v] <= ma);
                    assert(work_out@[v] == ma - out_degrees@[v]);
                    assert(work_in@[v] == ma - in_degrees@[v]);
                    assert(out_count(final_state.edges@, v) == complement_degree(
                        n as nat,
                        self_loops,
                        out_count(pre, v),
                    ));
                    assert(in_count(final_state.edges@, v) == complement_degree(
                        n as nat,
                        self_loops,
                        in_count(pre, v),
                    ));
                }
            }
        }
    }
    proof {
        assert(final_state.wf());
        assert(final_state.node_count == n);
        assert(simple_support(final_state.edges@, n as nat, self_loops));
        assert(diagnostics.heterogeneity == heterogeneity_class(
            seq_sum_u32(out_degrees@),
            max_degree(out_degrees@, in_degrees@),
        ));
        assert(diagnostics.representation == (if uses_complement(out_degrees@, self_loops) {
            RepresentationMode::Complement
        } else {
            RepresentationMode::Direct
        }));
        assert(diagnostics.representation == RepresentationMode::Direct ==> realizes(
            final_state.edges@,
            out_degrees@,
            in_degrees@,
            self_loops,
        ) && all_admitted(final_state.edges@, admissible_pairs));
        assert(degrees_within(out_degrees@, in_degrees@, self_loops) ==> realizes(
            final_state.edges@,
            out_degrees@,
            in_degrees@,
            self_loops,
        ));
        let work = support_work_pair(out_degrees@, in_degrees@, self_loops);
        assert(work.0 == work_out@ && work.1 == work_in@);
        assert(realizes(start.state.edges@, work.0, work.1, self_loops));
        assert(all_admitted(start.state.edges@, admissible_pairs));
        if repr == RepresentationMode::Direct {
            assert(!uses_complement(out_degrees@, self_loops));
            assert(final_state.edges@ == pre);
        }
        assert(switch_chain_result(
            start.state.edges@,
            support_chain_len(*config, start.state.edges@.len() as int),
            self_loops,
            admissible_pairs,
            pre,
            diagnostics.mcmc.accepted as int,
        ));
        assert(degree_support_sample_of(
            out_degrees@,
            in_degrees@,
            self_loops,
            *config,
            admissible_pairs,
            final_state.edges@,
            diagnostics.mcmc.accepted as int,
        ));
    }
    Ok((final_state, diagnostics))
}

} // verus!
