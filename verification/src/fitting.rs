//! Integer bookkeeping of the fitting routines: fit errors, problem sizes
//! and node-count inference.
use vstd::prelude::*;

verus! {

/// Errors of the edges-events fit.
#[derive(Clone, Copy, Debug, PartialEq, Eq, Structural)]
pub enum EdgesEventsFitError {
    /// `E == 0`: no occupied pairs.
    ZeroEdges,
    /// `T < E`: every occupied pair needs at least one event.
    EventsBelowEdges,
    /// `E > n_pairs`: more occupied pairs than candidate pairs.
    EdgesAbovePairs,
    /// `T/E > M` for Binomial(M) or `T/E` outside the family support.
    MeanOutOfSupport,
}

impl EdgesEventsFitError {
    /// Human-readable description of the error.
    pub fn to_string(&self) -> (s: String)
        ensures
            s@ == (match self {
                EdgesEventsFitError::ZeroEdges => "total edges must be positive"@,
                EdgesEventsFitError::EventsBelowEdges => "total events must be at least total edges"@,
                EdgesEventsFitError::EdgesAbovePairs => "total edges cannot exceed the number of candidate pairs"@,
                EdgesEventsFitError::MeanOutOfSupport => "T/E conditional mean is outside the family occupation support"@,
            }),
    {
        match self {
            EdgesEventsFitError::ZeroEdges => "total edges must be positive".to_owned(),
            EdgesEventsFitError::EventsBelowEdges => "total events must be at least total edges".to_owned(),
            EdgesEventsFitError::EdgesAbovePairs => "total edges cannot exceed the number of candidate pairs".to_owned(),
            EdgesEventsFitError::MeanOutOfSupport => "T/E conditional mean is outside the family occupation support".to_owned(),
        }
    }
}

/// Size of a W fitting problem as handed to a conic solver.
#[derive(Clone, Copy, Debug, PartialEq, Eq, Structural)]
pub struct WProblemMetrics {
    pub variables: usize,
    pub auxiliary_variables: usize,
    pub exponential_cones: usize,
    pub power_cones: usize,
    pub linear_constraints: usize,
    pub sparse_nonzeros: usize,
}

/// Number of candidate ordered pairs on `n` nodes.
pub open spec fn spec_pair_count(n: int, self_loops: bool) -> int {
    if self_loops {
        n * n
    } else {
        n * (if n >= 1 { n - 1 } else { 0 })
    }
}

/// Number of candidate ordered pairs: `n^2` with self-loops, `n (n - 1)`
/// without.
pub fn pair_count(n: usize, self_loops: bool) -> (p: usize)
    requires
        n * n <= usize::MAX,
    ensures
        p == spec_pair_count(n as int, self_loops),
{
    if self_loops {
        n * n
    } else {
        let m: usize = if n >= 1 {
            n - 1
        } else {
            0
        };
        proof {
            assert(n * m <= n * n) by (nonlinear_arith)
                requires
                    m <= n,
            ;
        }
        n * m
    }
}

/// Problem size of the W strength-degree fit: `4 N` variables, one
/// auxiliary per candidate pair, two linear constraints and `4 N` nonzeros
/// per pair.
pub fn w_strength_degree_metrics(n: usize, self_loops: bool) -> (m: WProblemMetrics)
    requires
        n * n <= usize::MAX,
        4 * n * spec_pair_count(n as int, self_loops) <= usize::MAX,
    ensures
        m.variables == 4 * n,
        m.auxiliary_variables == spec_pair_count(n as int, self_loops),
        m.exponential_cones == 0,
        m.power_cones == 0,
        m.linear_constraints == 2,
        m.sparse_nonzeros == 4 * n * spec_pair_count(n as int, self_loops),
{
    let pairs = pair_count(n, self_loops);
    proof {
        assert(4 * n <= 4 * n * pairs || pairs == 0) by (nonlinear_arith)
            requires
                pairs >= 0,
        ;
        assert(4 * n <= usize::MAX) by (nonlinear_arith)
            requires
                n * n <= usize::MAX,
                n >= 0,
        ;
    }
    WProblemMetrics {
        variables: 4 * n,
        auxiliary_variables: pairs,
        exponential_cones: 0,
        power_cones: 0,
        linear_constraints: 2,
        sparse_nonzeros: 4 * n * pairs,
    }
}

/// Largest entry of a sequence plus one (zero when empty).
pub open spec fn bound_of(s: Seq<u64>) -> int
    decreases s.len(),
{
    if s.len() == 0 {
        0
    } else {
        let rest = bound_of(s.drop_last());
        if s.last() + 1 > rest {
            s.last() + 1
        } else {
            rest
        }
    }
}

/// Largest node count implied by a sequence length and known pair
/// coordinates: `max(seq_len, max(src) + 1, max(tgt) + 1)`.
pub open spec fn spec_infer_n(seq_len: int, known_src: Seq<u64>, known_tgt: Seq<u64>) -> int {
    let a = bound_of(known_src);
    let b = bound_of(known_tgt);
    let m = if a >= b { a } else { b };
    if seq_len >= m { seq_len } else { m }
}

/// Largest entry plus one, zero for an empty slice.
fn bound_of_slice(s: &[u64]) -> (r: usize)
    requires
        forall|k: int| 0 <= k < s@.len() ==> #[trigger] s@[k] < usize::MAX,
    ensures
        r == bound_of(s@),
{
    let mut r: usize = 0;
    let mut k: usize = 0;
    while k < s.len()
        invariant
            k <= s@.len(),
            forall|q: int| 0 <= q < s@.len() ==> #[trigger] s@[q] < usize::MAX,
            r == bound_of(s@.take(k as int)),
        decreases s@.len() - k,
    {
        proof {
            assert(s@.take(k + 1).drop_last() =~= s@.take(k as int));
        }
        let c = s[k] as usize + 1;
        if c > r {
            r = c;
        }
        k = k + 1;
    }
    proof {
        assert(s@.take(s@.len() as int) =~= s@);
    }
    r
}

/// Infer the node count from a strength/degree sequence length and the
/// coordinates of known pairs.
pub fn infer_n(seq_len: usize, known_src: &[u64], known_tgt: &[u64]) -> (n: usize)
    requires
        forall|k: int| 0 <= k < known_src@.len() ==> #[trigger] known_src@[k] < usize::MAX,
        forall|k: int| 0 <= k < known_tgt@.len() ==> #[trigger] known_tgt@[k] < usize::MAX,
    ensures
        n == spec_infer_n(seq_len as int, known_src@, known_tgt@),
{
    let a = bound_of_slice(known_src);
    let b = bound_of_slice(known_tgt);
    let mut n = seq_len;
    if a > n {
        n = a;
    }
    if b > n {
        n = b;
    }
    n
}

} // verus!
