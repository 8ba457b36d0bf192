//! Sparse pair mask: the set of ordered node pairs excluded from fitting
//! and sampling (the diagonal when self-loops are forbidden, plus the
//! explicitly known pairs).
//!
//! Memory is O(N + K) where K is the number of known pairs.
use std::collections::HashSet;
use vstd::prelude::*;

verus! {

broadcast use {vstd::std_specs::hash::group_hash_axioms, vstd::seq_lib::group_seq_properties};

/// Abstract content of a [`PairMask`].
pub struct PairMaskView {
    /// Number of nodes.
    pub n: nat,
    /// Whether self-loops are allowed (if not, the diagonal is masked).
    pub self_loops: bool,
    /// Explicitly masked off-policy pairs `(i, j)`, all inside `[0, n)²`.
    pub explicit: Set<(int, int)>,
    /// Pairs recorded in the per-row / per-column masked index lists.
    pub listed: Set<(int, int)>,
    /// The recorded number of free (non-masked) pairs.
    pub n_free: nat,
}

impl PairMaskView {
    /// Whether `(i, j)` is masked.
    pub open spec fn is_masked(self, i: int, j: int) -> bool {
        (!self.self_loops && i == j) || self.explicit.contains((i, j))
    }

    /// Number of masked pairs implied by the policy and the explicit set.
    pub open spec fn masked_count(self) -> int {
        self.explicit.len() + if self.self_loops {
            0int
        } else {
            self.n as int
        }
    }

    /// The recorded free count is `n²` minus the masked pairs (clamped at 0).
    pub open spec fn free_count_consistent(self) -> bool {
        self.n_free == sat_sub((self.n * self.n) as int, self.policy_masked().len() as int)
    }

    /// Pairs masked by the policy and explicit set, restricted to `[0, n)²`.
    pub open spec fn policy_masked(self) -> Set<(int, int)> {
        Set::new(
            |p: (int, int)|
                0 <= p.0 < self.n && 0 <= p.1 < self.n && self.is_masked(p.0, p.1),
        )
    }
}

/// The masked pairs of a view with a finite explicit set form a finite set.
proof fn lemma_policy_masked_finite(v: PairMaskView)
    requires
        v.explicit.finite(),
    ensures
        v.policy_masked().finite(),
{
    let diag = diagonal_below(v.n as int);
    lemma_diagonal_finite(v.n as int);
    assert(v.policy_masked().subset_of(v.explicit + diag));
    vstd::set_lib::lemma_len_subset(v.policy_masked(), v.explicit + diag);
}

/// The diagonal pairs `(i, i)` with `0 <= i < n`.
spec fn diagonal_below(n: int) -> Set<(int, int)> {
    Set::new(|p: (int, int)| 0 <= p.0 < n && p.0 == p.1)
}

proof fn lemma_diagonal_finite(n: int)
    ensures
        diagonal_below(n).finite(),
    decreases n,
{
    if n <= 0 {
        assert(diagonal_below(n) =~= Set::empty());
    } else {
        lemma_diagonal_finite(n - 1);
        assert(diagonal_below(n) =~= diagonal_below(n - 1).insert((n - 1, n - 1)));
    }
}

/// Whether `p` lies in `[0, n)²`.
pub open spec fn in_square(p: (int, int), n: nat) -> bool {
    0 <= p.0 < n && 0 <= p.1 < n
}

/// `a - b` clamped at zero.
pub open spec fn sat_sub(a: int, b: int) -> int {
    if a >= b {
        a - b
    } else {
        0
    }
}

/// Sparse representation of excluded (masked) node pairs.
///
/// A pair `(i, j)` is masked if `!self_loops && i == j`, or if it was
/// explicitly added (at construction or via [`PairMask::add`]).
#[derive(Clone)]
pub struct PairMask {
    n: usize,
    self_loops: bool,
    /// Per row `i`: explicitly masked columns.
    explicit_rows: Vec<HashSet<usize>>,
    /// Per column: list of masked row indices (including diagonal).
    masked_rows: Vec<Vec<usize>>,
    /// Per row: list of masked column indices (including diagonal).
    masked_cols: Vec<Vec<usize>>,
    /// Total number of free (non-masked) pairs.
    n_free: usize,
    explicit: Ghost<Set<(int, int)>>,
    listed: Ghost<Set<(int, int)>>,
}

/// No index list repeats an entry.
pub open spec fn lists_distinct(lists: Seq<Vec<usize>>) -> bool {
    forall|a: int| 0 <= a < lists.len() ==> (#[trigger] lists[a])@.no_duplicates()
}

/// Appending an absent entry to one list keeps every list free of repeats.
proof fn lemma_push_distinct(before: Seq<Vec<usize>>, after: Seq<Vec<usize>>, k: int, x: usize)
    requires
        lists_distinct(before),
        0 <= k < before.len(),
        after.len() == before.len(),
        !before[k]@.contains(x),
        after[k]@ == before[k]@.push(x),
        forall|a: int| 0 <= a < before.len() && a != k ==> #[trigger] after[a]@ == before[a]@,
    ensures
        lists_distinct(after),
{
    assert forall|a: int| 0 <= a < after.len() implies (#[trigger] after[a])@.no_duplicates() by {
        if a == k {
            let s = before[k]@;
            assert forall|p: int, q: int|
                0 <= p < s.push(x).len() && 0 <= q < s.push(x).len() && p != q implies s.push(x)[p]
                != s.push(x)[q] by {
                if p < s.len() && q < s.len() {
                } else if p == s.len() {
                    assert(s.push(x)[q] == s[q]);
                } else {
                    assert(s.push(x)[p] == s[p]);
                }
            }
        } else {
            assert(after[a]@ == before[a]@);
        }
    }
}

impl View for PairMask {
    type V = PairMaskView;

    closed spec fn view(&self) -> PairMaskView {
        PairMaskView {
            n: self.n as nat,
            self_loops: self.self_loops,
            explicit: self.explicit@,
            listed: self.listed@,
            n_free: self.n_free as nat,
        }
    }
}

impl PairMask {
    /// Internal consistency of the representation.
    pub closed spec fn wf(&self) -> bool {
        &&& lists_distinct(self.masked_rows@)
        &&& lists_distinct(self.masked_cols@)
        &&& forall|p: (int, int)| #[trigger]
            self.listed@.contains(p) <==> (in_square(p, self.n as nat) && ((!self.self_loops && p.0
                == p.1) || self.explicit@.contains(p)))
        &&& self.explicit_rows@.len() == self.n
        &&& self.masked_rows@.len() == self.n
        &&& self.masked_cols@.len() == self.n
        &&& self.explicit@.finite()
        &&& self.listed@.finite()
        &&& forall|p: (int, int)| #[trigger]
            self.explicit@.contains(p) ==> in_square(p, self.n as nat)
        &&& forall|p: (int, int)| #[trigger]
            self.listed@.contains(p) ==> in_square(p, self.n as nat)
        &&& !self.self_loops ==> forall|p: (int, int)| #[trigger]
            self.explicit@.contains(p) ==> p.0 != p.1
        &&& forall|i: int, j: usize|
            0 <= i < self.n ==> (#[trigger] self.explicit_rows@[i]@.contains(j)
                <==> self.explicit@.contains((i, j as int)))
        &&& forall|i: int, j: usize|
            0 <= i < self.n ==> (#[trigger] self.masked_cols@[i]@.contains(j)
                <==> self.listed@.contains((i, j as int)))
        &&& forall|j: int, i: usize|
            0 <= j < self.n ==> (#[trigger] self.masked_rows@[j]@.contains(i)
                <==> self.listed@.contains((i as int, j)))
    }

    /// The recorded list of masked row indices of column `j`, in order.
    pub closed spec fn rows_list(&self, j: int) -> Seq<usize> {
        self.masked_rows@[j]@
    }

    /// The recorded list of masked column indices of row `i`, in order.
    pub closed spec fn cols_list(&self, i: int) -> Seq<usize> {
        self.masked_cols@[i]@
    }

    /// Create a mask from self-loop policy and explicit known pairs.
    ///
    /// Known pairs come as parallel arrays (paired up to the shorter one);
    /// pairs outside `[0, n)²` are ignored, and diagonal pairs are already
    /// masked when self-loops are forbidden.
    pub fn new(n: usize, self_loops: bool, known_src: &[u64], known_tgt: &[u64]) -> (m: Self)
        requires
            n * n <= usize::MAX,
        ensures
            m.wf(),
            m@.n == n,
            m@.self_loops == self_loops,
            forall|i: int, j: int|
                #![trigger m@.explicit.contains((i, j))]
                m@.explicit.contains((i, j)) <==> (0 <= i < n && 0 <= j < n && (self_loops || i
                    != j) && exists|k: int|
                    0 <= k < known_src@.len() && k < known_tgt@.len() && known_src@[k] == i
                        && known_tgt@[k] == j),
            m@.listed == m@.policy_masked(),
            m@.n_free == sat_sub(n * n, m@.masked_count()),
            m@.free_count_consistent(),
    {
        let mut explicit_rows: Vec<HashSet<usize>> = Vec::new();
        let mut masked_rows: Vec<Vec<usize>> = Vec::new();
        let mut masked_cols: Vec<Vec<usize>> = Vec::new();
        let ghost mut diag: Set<(int, int)> = Set::empty();
        let mut r: usize = 0;
        while r < n
            invariant
                r <= n,
                explicit_rows@.len() == r,
                masked_rows@.len() == r,
                masked_cols@.len() == r,
                forall|i: int| 0 <= i < r ==> (#[trigger] explicit_rows@[i])@ == Set::<usize>::empty(),
                diag.finite(),
                diag.len() == if self_loops {
                    0
                } else {
                    r as int
                },
                forall|p: (int, int)|
                    #![trigger diag.contains(p)]
                    diag.contains(p) <==> (!self_loops && 0 <= p.0 < r && p.0 == p.1),
                forall|i: int|
                    0 <= i < r ==> (#[trigger] masked_rows@[i])@ == (if self_loops {
                        Seq::<usize>::empty()
                    } else {
                        seq![i as usize]
                    }),
                forall|i: int|
                    0 <= i < r ==> (#[trigger] masked_cols@[i])@ == (if self_loops {
                        Seq::<usize>::empty()
                    } else {
                        seq![i as usize]
                    }),
            decreases n - r,
        {
            explicit_rows.push(HashSet::new());
            let mut rows: Vec<usize> = Vec::new();
            let mut cols: Vec<usize> = Vec::new();
            if !self_loops {
                rows.push(r);
                cols.push(r);
            }
            masked_rows.push(rows);
            masked_cols.push(cols);
            proof {
                if !self_loops {
                    diag = diag.insert((r as int, r as int));
                }
            }
            r = r + 1;
        }
        proof {
            assert forall|a: int| 0 <= a < masked_rows@.len() implies (
            #[trigger] masked_rows@[a])@.no_duplicates() by {
                if !self_loops {
                    assert(masked_rows@[a]@ == seq![a as usize]);
                }
            }
            assert forall|a: int| 0 <= a < masked_cols@.len() implies (
            #[trigger] masked_cols@[a])@.no_duplicates() by {
                if !self_loops {
                    assert(masked_cols@[a]@ == seq![a as usize]);
                }
            }
        }
        let ghost mut explicit: Set<(int, int)> = Set::empty();
        let mut count: usize = 0;
        let mut k: usize = 0;
        while k < known_src.len() && k < known_tgt.len()
            invariant
                k <= known_src@.len(),
                k <= known_tgt@.len(),
                explicit_rows@.len() == n,
                masked_rows@.len() == n,
                masked_cols@.len() == n,
                explicit.finite(),
                diag.finite(),
                lists_distinct(masked_rows@),
                lists_distinct(masked_cols@),
                diag.len() == if self_loops {
                    0
                } else {
                    n as int
                },
                count == explicit.len(),
                count <= k,
                forall|p: (int, int)|
                    #![trigger diag.contains(p)]
                    diag.contains(p) <==> (!self_loops && 0 <= p.0 < n && p.0 == p.1),
                forall|i: int, j: int|
                    #![trigger explicit.contains((i, j))]
                    explicit.contains((i, j)) <==> (0 <= i < n && 0 <= j < n && (self_loops || i
                        != j) && exists|q: int|
                        0 <= q < k && known_src@[q] == i && known_tgt@[q] == j),
                forall|i: int, j: usize|
                    0 <= i < n ==> (#[trigger] explicit_rows@[i]@.contains(j)
                        <==> explicit.contains((i, j as int))),
                forall|i: int, j: usize|
                    0 <= i < n ==> (#[trigger] masked_cols@[i]@.contains(j) <==> (
                    explicit.contains((i, j as int)) || diag.contains((i, j as int)))),
                forall|j: int, i: usize|
                    0 <= j < n ==> (#[trigger] masked_rows@[j]@.contains(i) <==> (
                    explicit.contains((i as int, j)) || diag.contains((i as int, j)))),
            decreases known_src@.len() - k,
        {
            let s = known_src[k];
            let t = known_tgt[k];
            if s < n as u64 && t < n as u64 {
                let si = s as usize;
                let ti = t as usize;
                if self_loops || si != ti {
                    let ghost rows0 = masked_rows@;
                    let ghost cols0 = masked_cols@;
                    let fresh = explicit_rows[si].insert(ti);
                    if fresh {
                        proof {
                            assert(!rows0[ti as int]@.contains(si));
                            assert(!cols0[si as int]@.contains(ti));
                        }
                        masked_rows[ti].push(si);
                        masked_cols[si].push(ti);
                        proof {
                            lemma_push_distinct(rows0, masked_rows@, ti as int, si);
                            lemma_push_distinct(cols0, masked_cols@, si as int, ti);
                            explicit = explicit.insert((si as int, ti as int));
                        }
                        count = count + 1;
                    }
                }
            }
            proof {
                assert forall|i: int, j: int|
                    #![trigger explicit.contains((i, j))]
                    explicit.contains((i, j)) <==> (0 <= i < n && 0 <= j < n && (self_loops || i
                        != j) && exists|q: int|
                        0 <= q < k + 1 && known_src@[q] == i && known_tgt@[q] == j) by {
                    if exists|q: int| 0 <= q < k + 1 && known_src@[q] == i && known_tgt@[q] == j {
                        let q = choose|q: int|
                            0 <= q < k + 1 && known_src@[q] == i && known_tgt@[q] == j;
                        if q < k {
                        }
                    }
                }
            }
            k = k + 1;
        }
        let ghost listed = explicit.union(diag);
        let diag_count: usize = if self_loops {
            0
        } else {
            n
        };
        let n_masked = diag_count.saturating_add(count);
        let n_free = (n * n).saturating_sub(n_masked);
        let m = PairMask {
            n,
            self_loops,
            explicit_rows,
            masked_rows,
            masked_cols,
            n_free,
            explicit: Ghost(explicit),
            listed: Ghost(listed),
        };
        proof {
            assert forall|p: (int, int)| #[trigger] explicit.contains(p) implies in_square(
                p,
                n as nat,
            ) && (self_loops || p.0 != p.1) by {
                assert(explicit.contains((p.0, p.1)));
            }
            assert forall|p: (int, int)| #[trigger]
                m@.listed.contains(p) <==> m@.policy_masked().contains(p) by {
                if explicit.contains(p) {
                    assert(explicit.contains((p.0, p.1)));
                }
                if in_square(p, n as nat) && m@.is_masked(p.0, p.1) {
                    assert(explicit.contains((p.0, p.1)) || diag.contains(p));
                }
            }
            assert(m@.listed =~= m@.policy_masked());
            assert(explicit.disjoint(diag)) by {
                assert forall|p: (int, int)| explicit.contains(p) implies !diag.contains(p) by {
                    assert(explicit.contains((p.0, p.1)));
                }
            }
            vstd::set_lib::lemma_set_disjoint_lens(explicit, diag);
            assert(explicit + diag == listed);
        }
        m
    }

    /// Create a mask from self-loop policy only (no known pairs).
    pub fn from_self_loops(n: usize, self_loops: bool) -> (m: Self)
        requires
            n * n <= usize::MAX,
        ensures
            m.wf(),
            m@.n == n,
            m@.self_loops == self_loops,
            m@.explicit == Set::<(int, int)>::empty(),
            m@.listed == m@.policy_masked(),
            m@.n_free == n * n - (if self_loops {
                0
            } else {
                n
            }),
            m@.free_count_consistent(),
    {
        let empty: Vec<u64> = Vec::new();
        let m = Self::new(n, self_loops, empty.as_slice(), empty.as_slice());
        assert(m@.explicit =~= Set::<(int, int)>::empty());
        proof {
            if !self_loops {
                assert(n <= n * n) by (nonlinear_arith)
                    requires
                        n * n <= usize::MAX,
                ;
            }
        }
        m
    }

    /// Build a mask from a dense row-major boolean matrix: exactly the pairs
    /// where `dense[i * n + j]` is `true` are masked, and every `true` entry
    /// counts as masked in `n_free`.
    ///
    /// Self-loops are forbidden exactly when the whole diagonal is marked
    /// (and `n > 0`); otherwise the marked diagonal pairs are recorded as
    /// explicit pairs.
    pub fn from_dense(n: usize, dense: &[bool]) -> (m: Self)
        requires
            n * n <= usize::MAX,
            dense@.len() >= n * n,
        ensures
            m.wf(),
            m@.n == n,
            m@.self_loops == !(n > 0 && forall|k: int| 0 <= k < n ==> #[trigger] dense@[k * n + k]),
            forall|i: int, j: int|
                #![trigger m@.listed.contains((i, j))]
                m@.listed.contains((i, j)) <==> (0 <= i < n && 0 <= j < n && dense@[i * n + j]),
            forall|i: int, j: int|
                #![trigger m@.explicit.contains((i, j))]
                m@.explicit.contains((i, j)) <==> (m@.listed.contains((i, j)) && (i != j
                    || m@.self_loops)),
            forall|i: int, j: int|
                0 <= i < n && 0 <= j < n ==> #[trigger] m@.is_masked(i, j) == dense@[i * n + j],
            m@.n_free == n * n - m@.listed.len(),
    {
        let mut full_diag = n > 0;
        let mut k: usize = 0;
        while k < n
            invariant
                k <= n,
                n * n <= usize::MAX,
                dense@.len() >= n * n,
                full_diag == (n > 0 && forall|a: int| 0 <= a < k ==> #[trigger] dense@[a * n + a]),
            decreases n - k,
        {
            assert(k * n + k < n * n) by (nonlinear_arith)
                requires
                    k < n,
            ;
            if !dense[k * n + k] {
                full_diag = false;
            }
            k = k + 1;
        }
        let self_loops = !full_diag;
        let mut explicit_rows: Vec<HashSet<usize>> = Vec::new();
        let mut masked_rows: Vec<Vec<usize>> = Vec::new();
        let mut masked_cols: Vec<Vec<usize>> = Vec::new();
        let mut r: usize = 0;
        while r < n
            invariant
                r <= n,
                explicit_rows@.len() == r,
                masked_rows@.len() == r,
                masked_cols@.len() == r,
                forall|a: int| 0 <= a < r ==> (#[trigger] explicit_rows@[a])@ == Set::<usize>::empty(),
                forall|a: int| 0 <= a < r ==> (#[trigger] masked_rows@[a])@ == Seq::<usize>::empty(),
                forall|a: int| 0 <= a < r ==> (#[trigger] masked_cols@[a])@ == Seq::<usize>::empty(),
            decreases n - r,
        {
            explicit_rows.push(HashSet::new());
            masked_rows.push(Vec::new());
            masked_cols.push(Vec::new());
            r = r + 1;
        }
        proof {
            assert forall|a: int| 0 <= a < masked_rows@.len() implies (
            #[trigger] masked_rows@[a])@.no_duplicates() by {
                assert(masked_rows@[a]@ == Seq::<usize>::empty());
            }
            assert forall|a: int| 0 <= a < masked_cols@.len() implies (
            #[trigger] masked_cols@[a])@.no_duplicates() by {
                assert(masked_cols@[a]@ == Seq::<usize>::empty());
            }
        }
        let ghost mut listed: Set<(int, int)> = Set::empty();
        let ghost mut explicit: Set<(int, int)> = Set::empty();
        let mut n_masked: usize = 0;
        let mut i: usize = 0;
        while i < n
            invariant
                i <= n,
                n * n <= usize::MAX,
                dense@.len() >= n * n,
                explicit_rows@.len() == n,
                masked_rows@.len() == n,
                masked_cols@.len() == n,
                listed.finite(),
                explicit.finite(),
                lists_distinct(masked_rows@),
                lists_distinct(masked_cols@),
                n_masked == listed.len(),
                n_masked <= i * n,
                forall|a: int, b: int|
                    #![trigger listed.contains((a, b))]
                    listed.contains((a, b)) <==> (0 <= a < i && 0 <= b < n && dense@[a * n + b]),
                forall|p: (int, int)| #[trigger]
                    listed.contains(p) ==> in_square(p, n as nat),
                self_loops == !(n > 0 && forall|a: int| 0 <= a < n ==> #[trigger] dense@[a * n + a]),
                forall|p: (int, int)| #[trigger]
                    explicit.contains(p) <==> (listed.contains(p) && (p.0 != p.1 || self_loops)),
                forall|a: int, b: usize|
                    0 <= a < n ==> (#[trigger] explicit_rows@[a]@.contains(b)
                        <==> explicit.contains((a, b as int))),
                forall|a: int, b: usize|
                    0 <= a < n ==> (#[trigger] masked_cols@[a]@.contains(b)
                        <==> listed.contains((a, b as int))),
                forall|b: int, a: usize|
                    0 <= b < n ==> (#[trigger] masked_rows@[b]@.contains(a)
                        <==> listed.contains((a as int, b))),
            decreases n - i,
        {
            let mut j: usize = 0;
            while j < n
                invariant
                    i < n,
                    j <= n,
                    n * n <= usize::MAX,
                    dense@.len() >= n * n,
                    explicit_rows@.len() == n,
                    masked_rows@.len() == n,
                    masked_cols@.len() == n,
                    listed.finite(),
                    explicit.finite(),
                    lists_distinct(masked_rows@),
                    lists_distinct(masked_cols@),
                    n_masked == listed.len(),
                    n_masked <= i * n + j,
                    forall|a: int, b: int|
                        #![trigger listed.contains((a, b))]
                        listed.contains((a, b)) <==> (((0 <= a < i && 0 <= b < n) || (a == i && 0
                            <= b < j)) && dense@[a * n + b]),
                    forall|p: (int, int)| #[trigger]
                        listed.contains(p) ==> in_square(p, n as nat),
                    self_loops == !(n > 0 && forall|a: int| 0 <= a < n ==> #[trigger] dense@[a
                        * n + a]),
                    forall|p: (int, int)| #[trigger]
                        explicit.contains(p) <==> (listed.contains(p) && (p.0 != p.1
                            || self_loops)),
                    forall|a: int, b: usize|
                        0 <= a < n ==> (#[trigger] explicit_rows@[a]@.contains(b)
                            <==> explicit.contains((a, b as int))),
                    forall|a: int, b: usize|
                        0 <= a < n ==> (#[trigger] masked_cols@[a]@.contains(b)
                            <==> listed.contains((a, b as int))),
                    forall|b: int, a: usize|
                        0 <= b < n ==> (#[trigger] masked_rows@[b]@.contains(a)
                            <==> listed.contains((a as int, b))),
                decreases n - j,
            {
                assert(i * n + j < n * n) by (nonlinear_arith)
                    requires
                        i < n,
                        j < n,
                ;
                if dense[i * n + j] {
                    assert(!listed.contains((i as int, j as int)));
                    proof {
                        listed = listed.insert((i as int, j as int));
                        if i != j || self_loops {
                            explicit = explicit.insert((i as int, j as int));
                        }
                    }
                    n_masked = n_masked + 1;
                    if i != j || self_loops {
                        explicit_rows[i].insert(j);
                    }
                    let ghost rows0 = masked_rows@;
                    let ghost cols0 = masked_cols@;
                    proof {
                        assert(!rows0[j as int]@.contains(i));
                        assert(!cols0[i as int]@.contains(j));
                    }
                    masked_rows[j].push(i);
                    masked_cols[i].push(j);
                    proof {
                        lemma_push_distinct(rows0, masked_rows@, j as int, i);
                        lemma_push_distinct(cols0, masked_cols@, i as int, j);
                    }
                }
                j = j + 1;
            }
            assert(i * n + n == (i + 1) * n) by (nonlinear_arith);
            i = i + 1;
        }
        if n > 0 {
            assert(n * n >= 1) by (nonlinear_arith)
                requires
                    n > 0,
            ;
        }
        let n_free = (n * n) - n_masked;
        proof {
            assert forall|a: int, b: int| 0 <= a < n && 0 <= b < n implies (!self_loops && a == b)
                || explicit.contains((a, b)) <==> dense@[a * n + b] by {
                assert(listed.contains((a, b)) == dense@[a * n + b]);
                if !self_loops && a == b {
                    assert(dense@[a * n + a]);
                }
            }
        }
        PairMask {
            n,
            self_loops,
            explicit_rows,
            masked_rows,
            masked_cols,
            n_free,
            explicit: Ghost(explicit),
            listed: Ghost(listed),
        }
    }

    /// Dense row-major boolean form: entry `i * n + j` is `true` iff `(i, j)`
    /// is masked.
    pub fn to_dense(&self) -> (d: Vec<bool>)
        requires
            self.wf(),
            self@.n * self@.n <= usize::MAX,
        ensures
            d@.len() == self@.n * self@.n,
            forall|i: int, j: int|
                0 <= i < self@.n && 0 <= j < self@.n ==> #[trigger] d@[i * self@.n + j]
                    == self@.is_masked(i, j),
    {
        let n = self.n;
        let mut d: Vec<bool> = Vec::new();
        let mut i: usize = 0;
        while i < n
            invariant
                self.wf(),
                n == self.n,
                n * n <= usize::MAX,
                i <= n,
                d@.len() == i * n,
                forall|a: int, b: int|
                    0 <= a < i && 0 <= b < n ==> #[trigger] d@[a * n + b] == self@.is_masked(a, b),
            decreases n - i,
        {
            let mut j: usize = 0;
            while j < n
                invariant
                    self.wf(),
                    n == self.n,
                    n * n <= usize::MAX,
                    i < n,
                    j <= n,
                    d@.len() == i * n + j,
                    forall|a: int, b: int|
                        ((0 <= a < i && 0 <= b < n) || (a == i && 0 <= b < j)) ==> #[trigger] d@[a
                            * n + b] == self@.is_masked(a, b),
                decreases n - j,
            {
                assert(i * n + j < n * n) by (nonlinear_arith)
                    requires
                        i < n,
                        j < n,
                ;
                let v = self.is_masked(i, j);
                let ghost old_d = d@;
                d.push(v);
                assert forall|a: int, b: int|
                    ((0 <= a < i && 0 <= b < n) || (a == i && 0 <= b < j + 1)) implies #[trigger] d@[a
                        * n + b] == self@.is_masked(a, b) by {
                    if a == i && b == j {
                    } else {
                        assert(a * n + b < i * n + j) by (nonlinear_arith)
                            requires
                                (0 <= a < i && 0 <= b < n) || (a == i && 0 <= b < j),
                        ;
                        assert(d@[a * n + b] == old_d[a * n + b]);
                    }
                }
                j = j + 1;
            }
            assert(i * n + n == (i + 1) * n) by (nonlinear_arith);
            i = i + 1;
        }
        d
    }

    /// Add a masked pair. Returns `true` iff the pair was newly added: it lies
    /// in `[0, n)²`, is not already masked by the self-loop policy, and was
    /// not explicitly masked before.
    pub fn add(&mut self, i: usize, j: usize) -> (added: bool)
        requires
            old(self).wf(),
            (i < old(self)@.n && j < old(self)@.n && (old(self)@.self_loops || i != j)
                && !old(self)@.explicit.contains((i as int, j as int))) ==> old(self)@.n_free > 0,
        ensures
            final(self).wf(),
            added == (i < old(self)@.n && j < old(self)@.n && (old(self)@.self_loops || i != j)
                && !old(self)@.explicit.contains((i as int, j as int))),
            added ==> final(self)@ == (PairMaskView {
                n: old(self)@.n,
                self_loops: old(self)@.self_loops,
                explicit: old(self)@.explicit.insert((i as int, j as int)),
                listed: old(self)@.listed.insert((i as int, j as int)),
                n_free: (old(self)@.n_free - 1) as nat,
            }),
            !added ==> final(self)@ == old(self)@,
            old(self)@.free_count_consistent() ==> final(self)@.free_count_consistent(),
            forall|k: int|
                0 <= k < old(self)@.n ==> #[trigger] final(self).rows_list(k) == if added && k
                    == j {
                    old(self).rows_list(k).push(i)
                } else {
                    old(self).rows_list(k)
                },
            forall|k: int|
                0 <= k < old(self)@.n ==> #[trigger] final(self).cols_list(k) == if added && k
                    == i {
                    old(self).cols_list(k).push(j)
                } else {
                    old(self).cols_list(k)
                },
    {
        if i >= self.n || j >= self.n {
            return false;
        }
        if !self.self_loops && i == j {
            return false;
        }
        let ghost rows0 = self.masked_rows@;
        let ghost cols0 = self.masked_cols@;
        if self.explicit_rows[i].insert(j) {
            proof {
                assert(!rows0[j as int]@.contains(i));
                assert(!cols0[i as int]@.contains(j));
            }
            self.masked_rows[j].push(i);
            self.masked_cols[i].push(j);
            self.n_free = self.n_free - 1;
            proof {
                lemma_push_distinct(rows0, self.masked_rows@, j as int, i);
                lemma_push_distinct(cols0, self.masked_cols@, i as int, j);
                let ghost before = old(self)@;
                self.explicit@ = self.explicit@.insert((i as int, j as int));
                self.listed@ = self.listed@.insert((i as int, j as int));
                assert(self@.policy_masked() =~= before.policy_masked().insert(
                    (i as int, j as int),
                ));
                lemma_policy_masked_finite(before);
                assert(!before.policy_masked().contains((i as int, j as int)));
                assert(self@.policy_masked().len() == before.policy_masked().len() + 1);
            }
            true
        } else {
            false
        }
    }

    /// Whether pair `(i, j)` is masked (excluded).
    pub fn is_masked(&self, i: usize, j: usize) -> (r: bool)
        requires
            self.wf(),
        ensures
            r == (i < self@.n && self@.is_masked(i as int, j as int)) || (i >= self@.n
                && !self@.self_loops && i == j),
    {
        if !self.self_loops && i == j {
            return true;
        }
        if i >= self.n {
            return false;
        }
        self.explicit_rows[i].contains(&j)
    }

    /// Number of nodes.
    pub fn n(&self) -> (r: usize)
        ensures
            r == self@.n,
    {
        self.n
    }

    /// Whether self-loops are allowed.
    pub fn self_loops(&self) -> (r: bool)
        ensures
            r == self@.self_loops,
    {
        self.self_loops
    }

    /// Total number of free (non-masked) pairs.
    pub fn n_free(&self) -> (r: usize)
        ensures
            r == self@.n_free,
    {
        self.n_free
    }

    /// Masked row indices recorded for column `j`.
    pub fn masked_rows_in_col(&self, j: usize) -> (r: &[usize])
        requires
            self.wf(),
            j < self@.n,
        ensures
            forall|i: usize| r@.contains(i) <==> self@.listed.contains((i as int, j as int)),
            r@.no_duplicates(),
            r@ == self.rows_list(j as int),
    {
        self.masked_rows[j].as_slice()
    }

    /// Masked column indices recorded for row `i`.
    pub fn masked_cols_in_row(&self, i: usize) -> (r: &[usize])
        requires
            self.wf(),
            i < self@.n,
        ensures
            forall|j: usize| r@.contains(j) <==> self@.listed.contains((i as int, j as int)),
            r@.no_duplicates(),
            r@ == self.cols_list(i as int),
    {
        self.masked_cols[i].as_slice()
    }
}


/// Dense round trip: rebuilding a mask from its dense form masks exactly the
/// same pairs and records the same free count.
///
/// `m` is a mask whose free count is consistent (as [`PairMask::new`] and
/// [`PairMask::add`] keep it), `d` its dense form as [`PairMask::to_dense`]
/// states it, and `r` a mask over `d` as [`PairMask::from_dense`] states it.
pub proof fn lemma_dense_roundtrip(m: &PairMask, d: Seq<bool>, r: &PairMask)
    requires
        m.wf(),
        m@.free_count_consistent(),
        d.len() == m@.n * m@.n,
        forall|i: int, j: int|
            0 <= i < m@.n && 0 <= j < m@.n ==> #[trigger] d[i * m@.n + j] == m@.is_masked(i, j),
        r@.n == m@.n,
        forall|i: int, j: int|
            #![trigger r@.listed.contains((i, j))]
            r@.listed.contains((i, j)) <==> (0 <= i < m@.n && 0 <= j < m@.n && d[i * m@.n + j]),
        forall|i: int, j: int|
            0 <= i < m@.n && 0 <= j < m@.n ==> #[trigger] r@.is_masked(i, j) == d[i * m@.n + j],
        r@.n_free == r@.n * r@.n - r@.listed.len(),
    ensures
        forall|i: int, j: int|
            0 <= i < m@.n && 0 <= j < m@.n ==> #[trigger] r@.is_masked(i, j) == m@.is_masked(i, j),
        r@.n_free == m@.n_free,
{
    let n: int = m@.n as int;
    assert forall|i: int, j: int| 0 <= i < n && 0 <= j < n implies #[trigger] r@.is_masked(i, j)
        == m@.is_masked(i, j) by {
        assert(d[i * n + j] == m@.is_masked(i, j));
        assert(r@.is_masked(i, j) == d[i * n + j]);
    }
    assert(r@.listed =~= m@.policy_masked()) by {
        assert forall|p: (int, int)| r@.listed.contains(p) <==> m@.policy_masked().contains(p) by {
            if in_square(p, m@.n) {
                assert(d[p.0 * n + p.1] == m@.is_masked(p.0, p.1));
            }
            assert(r@.listed.contains((p.0, p.1)) == r@.listed.contains(p));
        }
    }
}

} // verus!
