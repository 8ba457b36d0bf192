//! Fixed-total occupation sampling: `E` positive occupations summing to `T`.
//!
//! The pair-Gibbs chain redraws the split of two uniformly chosen cells; it
//! preserves the total, positivity and the B capacity. Memory is O(E).
use rand::rngs::StdRng;
use vstd::prelude::*;

use crate::model::family::OccupationFamily;
use crate::mcmc::{McmcConfig, McmcCounters};
use crate::rng::{random_below, random_u64, rng_from_seed};
use crate::support::at_least_one;
use crate::seqs::{copy_slice, lemma_seq_sum_nonneg, lemma_seq_sum_update, seq_sum};
use crate::uniform_edges::shuffle_slice;
use vstd::seq_lib::to_multiset_contains;
use crate::OccNum;
use crate::text::{concat_str, num_msg, push_num};

verus! {

/// Errors produced by the fixed-total occupation sampler.
#[derive(Clone, Debug, PartialEq, Eq)]
pub enum FixedTotalError {
    /// The residual problem is infeasible (e.g., T < E, B capacity exceeded).
    InvalidResidual(String),
}

impl FixedTotalError {
    /// Human-readable description of the error.
    pub fn to_string(&self) -> (s: String)
        ensures
            s@ == (match self {
                FixedTotalError::InvalidResidual(m) => "invalid residual fixed-total problem: "@ + m@,
            }),
    {
        match self {
            FixedTotalError::InvalidResidual(m) => concat_str("invalid residual fixed-total problem: ", m.as_str()),
        }
    }
}

/// Every occupation is at least one and, for a bounded family, at most its
/// layer count.
pub open spec fn occupations_ok(occ: Seq<OccNum>, family: OccupationFamily) -> bool {
    forall|k: int|
        0 <= k < occ.len() ==> #[trigger] occ[k] >= 1 && (family.spec_max_occupation() matches Some(
            m,
        ) ==> occ[k] <= m)
}

/// Occupation vector for a fixed-total problem: `t_e >= 1`, `sum t_e = T`.
#[derive(Clone, Debug)]
pub struct FixedTotalState {
    occupations: Vec<OccNum>,
    total: OccNum,
}

impl View for FixedTotalState {
    type V = Seq<OccNum>;

    closed spec fn view(&self) -> Seq<OccNum> {
        self.occupations@
    }
}

impl FixedTotalState {
    /// The stored total equals the sum and every occupation is positive.
    pub closed spec fn wf(&self) -> bool {
        &&& self.total == seq_sum(self.occupations@)
        &&& forall|k: int| 0 <= k < self.occupations@.len() ==> #[trigger] self.occupations@[k] >= 1
    }

    /// The total occupation as a mathematical integer.
    pub open spec fn spec_total(&self) -> int {
        seq_sum(self@)
    }

    /// Create a state from a positive occupation vector.
    pub fn new(occupations: Vec<OccNum>) -> (s: Self)
        requires
            forall|k: int| 0 <= k < occupations@.len() ==> #[trigger] occupations@[k] >= 1,
            seq_sum(occupations@) <= u64::MAX,
        ensures
            s.wf(),
            s@ == occupations@,
    {
        let total = crate::seqs::sum_u64(occupations.as_slice());
        FixedTotalState { occupations, total }
    }

    /// Number of occupied cells `E`.
    pub fn len(&self) -> (n: usize)
        ensures
            n == self@.len(),
    {
        self.occupations.len()
    }

    /// Whether the state is empty (`E = 0`).
    pub fn is_empty(&self) -> (b: bool)
        ensures
            b == (self@.len() == 0),
    {
        self.occupations.len() == 0
    }

    /// Total occupation `T`.
    pub fn total(&self) -> (t: OccNum)
        requires
            self.wf(),
        ensures
            t == self.spec_total(),
    {
        self.total
    }

    /// Occupation of cell `idx`.
    pub fn get(&self, idx: usize) -> (t: OccNum)
        requires
            idx < self@.len(),
        ensures
            t == self@[idx as int],
    {
        self.occupations[idx]
    }

    /// The occupation vector.
    pub fn occupations(&self) -> (s: &[OccNum])
        ensures
            s@ == self@,
    {
        self.occupations.as_slice()
    }

    /// Write a new split `(a, b)` into the distinct cells `i` and `j`; the
    /// split keeps the pair's sum, so the total is unchanged.
    pub fn set_pair(&mut self, i: usize, j: usize, a: OccNum, b: OccNum)
        requires
            old(self).wf(),
            i < old(self)@.len(),
            j < old(self)@.len(),
            i != j,
            a >= 1,
            b >= 1,
            a + b == old(self)@[i as int] + old(self)@[j as int],
        ensures
            final(self).wf(),
            final(self)@ == old(self)@.update(i as int, a).update(j as int, b),
            final(self).spec_total() == old(self).spec_total(),
    {
        let ghost o = self.occupations@;
        self.occupations.set(i, a);
        self.occupations.set(j, b);
        proof {
            lemma_seq_sum_update(o, i as int, a);
            lemma_seq_sum_update(o.update(i as int, a), j as int, b);
        }
    }
}

/// Persistent pair-Gibbs chain for a fixed-total occupation vector.
pub struct FixedTotalChain {
    /// Current occupation state.
    pub state: FixedTotalState,
    /// Family law used by the conditionals.
    pub family: OccupationFamily,
    /// Burn-in / thinning configuration.
    pub config: McmcConfig,
    /// Proposal and acceptance counters.
    pub counters: McmcCounters,
}

/// Each of two cells is at most their sum, which is at most the total.
proof fn lemma_pair_sum_bounded(s: Seq<u64>, i: int, j: int)
    requires
        0 <= i < s.len(),
        0 <= j < s.len(),
        i != j,
    ensures
        s[i] + s[j] <= seq_sum(s),
{
    lemma_seq_sum_update(s, i, 0);
    lemma_seq_sum_update(s.update(i, 0), j, 0);
    lemma_seq_sum_nonneg(s.update(i, 0).update(j, 0));
}

/// A valid split of `q` for the family: two positive parts summing to `q`,
/// each within the family's cap whenever two capped cells can hold `q`.
pub open spec fn split_ok(family: OccupationFamily, q: int, r: (OccNum, OccNum)) -> bool {
    &&& r.0 >= 1
    &&& r.1 >= 1
    &&& r.0 + r.1 == q
    &&& (family.spec_max_occupation() matches Some(m) ==> (q <= 2 * m ==> r.0 <= m && r.1 <= m))
}

/// `split` draws a split of any `q >= 2` from a random word `w`, and every
/// split it returns is valid for the family.
///
/// Drawing from the exact two-cell conditional of the family makes each
/// step of the chain below a Gibbs update.
pub open spec fn is_split_sampler<S: Fn(OccNum, u64) -> (OccNum, OccNum)>(
    split: S,
    family: OccupationFamily,
) -> bool {
    &&& forall|q: OccNum, w: u64| q >= 2 ==> #[trigger] split.requires((q, w))
    &&& forall|q: OccNum, w: u64, r: (OccNum, OccNum)|
        q >= 2 && #[trigger] split.ensures((q, w), r) ==> split_ok(family, q as int, r)
}

/// One drawn pair-Gibbs move: the two cells, the random word handed to the
/// split law, and the split it returned.
pub type GibbsDraw = (int, int, u64, (OccNum, OccNum));

/// The state after one drawn move: the two cells take the split (no change
/// with fewer than two cells).
pub open spec fn apply_gibbs_draw(s: Seq<OccNum>, d: GibbsDraw) -> Seq<OccNum> {
    if s.len() >= 2 {
        s.update(d.0, d.3.0).update(d.1, d.3.1)
    } else {
        s
    }
}

/// The state after a sequence of drawn moves, in order.
pub open spec fn apply_gibbs_draws(s: Seq<OccNum>, ds: Seq<GibbsDraw>) -> Seq<OccNum>
    decreases ds.len(),
{
    if ds.len() == 0 {
        s
    } else {
        apply_gibbs_draw(apply_gibbs_draws(s, ds.drop_last()), ds.last())
    }
}

/// A drawn move is one the chain can make from `s`: two distinct cells, and
/// a split that `split` may return for their sum and the word.
pub open spec fn gibbs_draw_ok<S: Fn(OccNum, u64) -> (OccNum, OccNum)>(
    split: S,
    s: Seq<OccNum>,
    d: GibbsDraw,
) -> bool {
    s.len() >= 2 ==> {
        &&& 0 <= d.0 < s.len()
        &&& 0 <= d.1 < s.len()
        &&& d.0 != d.1
        &&& split.ensures(((s[d.0] + s[d.1]) as u64, d.2), d.3)
    }
}

/// Every move of the sequence is one the chain can make from the state the
/// earlier moves reached.
pub open spec fn gibbs_draws_ok<S: Fn(OccNum, u64) -> (OccNum, OccNum)>(
    split: S,
    s: Seq<OccNum>,
    ds: Seq<GibbsDraw>,
) -> bool {
    forall|k: int|
        0 <= k < ds.len() ==> #[trigger] gibbs_draw_ok(split, apply_gibbs_draws(s, ds.take(k)), ds[k])
}

/// `v` is what `n` pair-Gibbs moves drawn under `split` make of `init`.
pub open spec fn gibbs_chain_result<S: Fn(OccNum, u64) -> (OccNum, OccNum)>(
    split: S,
    init: Seq<OccNum>,
    n: int,
    v: Seq<OccNum>,
) -> bool {
    exists|ds: Seq<GibbsDraw>|
        ds.len() == n && #[trigger] gibbs_draws_ok(split, init, ds) && v == apply_gibbs_draws(init, ds)
}

/// Appending one valid move.
proof fn lemma_gibbs_draws_push<S: Fn(OccNum, u64) -> (OccNum, OccNum)>(
    split: S,
    s: Seq<OccNum>,
    ds: Seq<GibbsDraw>,
    d: GibbsDraw,
)
    requires
        gibbs_draws_ok(split, s, ds),
        gibbs_draw_ok(split, apply_gibbs_draws(s, ds), d),
    ensures
        gibbs_draws_ok(split, s, ds.push(d)),
        apply_gibbs_draws(s, ds.push(d)) == apply_gibbs_draw(apply_gibbs_draws(s, ds), d),
{
    let e = ds.push(d);
    assert(e.drop_last() =~= ds);
    assert forall|k: int| 0 <= k < e.len() implies #[trigger] gibbs_draw_ok(
        split,
        apply_gibbs_draws(s, e.take(k)),
        e[k],
    ) by {
        if k < ds.len() {
            assert(e.take(k) =~= ds.take(k));
            assert(gibbs_draw_ok(split, apply_gibbs_draws(s, ds.take(k)), ds[k]));
        } else {
            assert(e.take(k) =~= ds);
        }
    }
}

/// Running two valid move sequences one after the other.
proof fn lemma_gibbs_draws_concat<S: Fn(OccNum, u64) -> (OccNum, OccNum)>(
    split: S,
    s: Seq<OccNum>,
    ds1: Seq<GibbsDraw>,
    ds2: Seq<GibbsDraw>,
)
    requires
        gibbs_draws_ok(split, s, ds1),
        gibbs_draws_ok(split, apply_gibbs_draws(s, ds1), ds2),
    ensures
        gibbs_draws_ok(split, s, ds1 + ds2),
        apply_gibbs_draws(s, ds1 + ds2) == apply_gibbs_draws(apply_gibbs_draws(s, ds1), ds2),
    decreases ds2.len(),
{
    if ds2.len() == 0 {
        assert(ds1 + ds2 =~= ds1);
    } else {
        let front = ds2.drop_last();
        let mid = apply_gibbs_draws(s, ds1);
        assert forall|k: int| 0 <= k < front.len() implies #[trigger] gibbs_draw_ok(
            split,
            apply_gibbs_draws(mid, front.take(k)),
            front[k],
        ) by {
            assert(front.take(k) =~= ds2.take(k));
            assert(gibbs_draw_ok(split, apply_gibbs_draws(mid, ds2.take(k)), ds2[k]));
        }
        lemma_gibbs_draws_concat(split, s, ds1, front);
        assert(ds2.take(front.len() as int) =~= front);
        assert(gibbs_draw_ok(split, apply_gibbs_draws(mid, front), ds2.last()));
        lemma_gibbs_draws_push(split, s, ds1 + front, ds2.last());
        assert((ds1 + front).push(ds2.last()) =~= ds1 + ds2);
    }
}

/// With fewer than two cells no move changes anything, and any moves are
/// valid.
proof fn lemma_gibbs_draws_small<S: Fn(OccNum, u64) -> (OccNum, OccNum)>(
    split: S,
    s: Seq<OccNum>,
    ds: Seq<GibbsDraw>,
)
    requires
        s.len() < 2,
    ensures
        apply_gibbs_draws(s, ds) == s,
        gibbs_draws_ok(split, s, ds),
    decreases ds.len(),
{
    if ds.len() > 0 {
        lemma_gibbs_draws_small(split, s, ds.drop_last());
    }
    assert forall|k: int| 0 <= k < ds.len() implies #[trigger] gibbs_draw_ok(
        split,
        apply_gibbs_draws(s, ds.take(k)),
        ds[k],
    ) by {
        lemma_gibbs_draws_small(split, s, ds.take(k));
    }
}

impl FixedTotalChain {
    /// The state is consistent, respects the family's bounds, and no more
    /// steps were accepted than proposed.
    pub open spec fn valid(&self) -> bool {
        &&& self.state.wf()
        &&& occupations_ok(self.state@, self.family)
        &&& self.counters.accepted <= self.counters.proposals
    }

    /// `self` is reachable from `prev` by pair-Gibbs steps: same number of
    /// cells and total, bounds kept, family and configuration unchanged,
    /// and the held and rejected counters untouched.
    pub open spec fn evolved_from(&self, prev: &FixedTotalChain) -> bool {
        &&& self.valid()
        &&& self.state@.len() == prev.state@.len()
        &&& self.state.spec_total() == prev.state.spec_total()
        &&& self.family == prev.family
        &&& self.config == prev.config
        &&& self.counters.held == prev.counters.held
        &&& self.counters.metropolis_rejected == prev.counters.metropolis_rejected
    }

    /// Steps in one sweep: the configured override, or one per cell (at
    /// least one).
    pub open spec fn spec_sweep_len(&self) -> int {
        match self.config.proposals_per_sweep {
            Some(p) => p as int,
            None => if self.state@.len() >= 1 {
                self.state@.len() as int
            } else {
                1int
            },
        }
    }

    /// Create a chain from an existing feasible state.
    pub fn new(state: FixedTotalState, family: OccupationFamily, config: McmcConfig) -> (c: Self)
        ensures
            c.state == state,
            c.family == family,
            c.config == config,
            c.counters.is_zero(),
    {
        FixedTotalChain { state, family, config, counters: McmcCounters::new() }
    }

    /// One pair-Gibbs move with drawn values: redraw the split of cells `i`
    /// and `j` with `split` on the word `w`, and return the split taken.
    pub fn gibbs_move<S: Fn(OccNum, u64) -> (OccNum, OccNum)>(
        &mut self,
        i: usize,
        j: usize,
        w: u64,
        split: &S,
    ) -> (r: (OccNum, OccNum))
        requires
            old(self).valid(),
            i < old(self).state@.len(),
            j < old(self).state@.len(),
            i != j,
            is_split_sampler(*split, old(self).family),
        ensures
            final(self).evolved_from(old(self)),
            final(self).counters == old(self).counters,
            gibbs_draw_ok(*split, old(self).state@, (i as int, j as int, w, r)),
            final(self).state@ == apply_gibbs_draw(old(self).state@, (i as int, j as int, w, r)),
    {
        proof {
            lemma_pair_sum_bounded(self.state@, i as int, j as int);
            assert(self.state@[i as int] >= 1 && self.state@[j as int] >= 1);
        }
        let q = self.state.get(i) + self.state.get(j);
        let (a, b) = split(q, w);
        proof {
            assert(split_ok(self.family, q as int, (a, b)));
            if let Some(m) = self.family.spec_max_occupation() {
                assert(self.state@[i as int] <= m && self.state@[j as int] <= m);
            }
        }
        let ghost before = self.state@;
        self.state.set_pair(i, j, a, b);
        proof {
            assert forall|k: int| 0 <= k < self.state@.len() implies #[trigger] self.state@[k] >= 1 && (
            self.family.spec_max_occupation() matches Some(m) ==> self.state@[k] <= m) by {
                if k != i && k != j {
                    assert(self.state@[k] == before[k]);
                }
            }
        }
        (a, b)
    }

    /// One pair-Gibbs step: choose two distinct cells uniformly and redraw
    /// their split with `split` ([`Self::gibbs_move`]). Always accepted; with
    /// fewer than two cells only the proposal is counted.
    pub fn step<S: Fn(OccNum, u64) -> (OccNum, OccNum)>(&mut self, rng: &mut StdRng, split: &S)
        requires
            old(self).valid(),
            old(self).counters.proposals < u64::MAX,
            is_split_sampler(*split, old(self).family),
        ensures
            final(self).evolved_from(old(self)),
            final(self).counters.proposals == old(self).counters.proposals + 1,
            final(self).counters.accepted == old(self).counters.accepted + if old(self).state@.len()
                >= 2 {
                1int
            } else {
                0int
            },
            old(self).state@.len() < 2 ==> final(self).state@ == old(self).state@,
            exists|d: GibbsDraw|
                #[trigger] gibbs_draw_ok(*split, old(self).state@, d) && final(self).state@
                    == apply_gibbs_draw(old(self).state@, d),
    {
        self.counters.proposals = self.counters.proposals + 1;
        let e = self.state.len();
        if e < 2 {
            proof {
                let d: GibbsDraw = (0, 0, 0, (0, 0));
                assert(gibbs_draw_ok(*split, self.state@, d));
            }
            return;
        }
        let i = random_below(rng, e);
        let mut j = random_below(rng, e - 1);
        if j >= i {
            j = j + 1;
        }
        let w = random_u64(rng);
        let ghost before = self.state@;
        let r = self.gibbs_move(i, j, w, split);
        self.counters.accepted = self.counters.accepted + 1;
        proof {
            assert(gibbs_draw_ok(*split, before, (i as int, j as int, w, r)));
        }
    }

    /// Accepted steps in `n` steps: all of them with two or more cells, none
    /// otherwise.
    pub open spec fn accepted_in(&self, n: int) -> int {
        if self.state@.len() >= 2 {
            n
        } else {
            0
        }
    }

    /// One sweep: [`Self::spec_sweep_len`] pair-Gibbs steps. The new state
    /// is what that many drawn moves make of the old one.
    pub fn sweep<S: Fn(OccNum, u64) -> (OccNum, OccNum)>(&mut self, rng: &mut StdRng, split: &S)
        requires
            old(self).valid(),
            old(self).counters.proposals + old(self).spec_sweep_len() <= u64::MAX,
            is_split_sampler(*split, old(self).family),
        ensures
            final(self).evolved_from(old(self)),
            final(self).counters.proposals == old(self).counters.proposals + old(self).spec_sweep_len(),
            final(self).counters.accepted == old(self).counters.accepted + old(self).accepted_in(
                old(self).spec_sweep_len(),
            ),
            gibbs_chain_result(*split, old(self).state@, old(self).spec_sweep_len(), final(self).state@),
    {
        let m = self.sweep_len();
        let ghost start = *self;
        let ghost mut ds: Seq<GibbsDraw> = Seq::empty();
        let mut k: usize = 0;
        while k < m
            invariant
                k <= m,
                m == start.spec_sweep_len(),
                self.evolved_from(&start),
                self.counters.proposals == start.counters.proposals + k,
                self.counters.accepted == start.counters.accepted + start.accepted_in(k as int),
                start.counters.proposals + m <= u64::MAX,
                is_split_sampler(*split, start.family),
                ds.len() == k,
                gibbs_draws_ok(*split, start.state@, ds),
                self.state@ == apply_gibbs_draws(start.state@, ds),
            decreases m - k,
        {
            let ghost before = self.state@;
            self.step(rng, split);
            proof {
                let d = choose|d: GibbsDraw|
                    #[trigger] gibbs_draw_ok(*split, before, d) && self.state@ == apply_gibbs_draw(
                        before,
                        d,
                    );
                lemma_gibbs_draws_push(*split, start.state@, ds, d);
                ds = ds.push(d);
            }
            k = k + 1;
        }
        proof {
            assert(gibbs_draws_ok(*split, start.state@, ds));
        }
    }

    /// Run `sweeps` sweeps.
    fn run_sweeps<S: Fn(OccNum, u64) -> (OccNum, OccNum)>(&mut self, sweeps: usize, rng: &mut StdRng, split: &S)
        requires
            old(self).valid(),
            old(self).counters.proposals + sweeps * old(self).spec_sweep_len() <= u64::MAX,
            is_split_sampler(*split, old(self).family),
        ensures
            final(self).evolved_from(old(self)),
            final(self).counters.proposals == old(self).counters.proposals + sweeps * old(
                self,
            ).spec_sweep_len(),
            final(self).counters.accepted == old(self).counters.accepted + old(self).accepted_in(
                sweeps * old(self).spec_sweep_len(),
            ),
            gibbs_chain_result(
                *split,
                old(self).state@,
                sweeps * old(self).spec_sweep_len(),
                final(self).state@,
            ),
    {
        let ghost start = *self;
        let ghost m = start.spec_sweep_len();
        let ghost mut ds: Seq<GibbsDraw> = Seq::empty();
        let mut k: usize = 0;
        while k < sweeps
            invariant
                k <= sweeps,
                m == start.spec_sweep_len(),
                m >= 0,
                self.evolved_from(&start),
                self.spec_sweep_len() == m,
                self.counters.proposals == start.counters.proposals + k * m,
                self.counters.accepted == start.counters.accepted + start.accepted_in(k * m),
                start.counters.proposals + sweeps * m <= u64::MAX,
                is_split_sampler(*split, start.family),
                ds.len() == k * m,
                gibbs_draws_ok(*split, start.state@, ds),
                self.state@ == apply_gibbs_draws(start.state@, ds),
            decreases sweeps - k,
        {
            assert(k * m + m == (k + 1) * m) by (nonlinear_arith);
            assert((k + 1) * m <= sweeps * m) by (nonlinear_arith)
                requires
                    k + 1 <= sweeps,
                    m >= 0,
            ;
            let ghost before = self.state@;
            self.sweep(rng, split);
            proof {
                let ds2 = choose|ds2: Seq<GibbsDraw>|
                    ds2.len() == m && #[trigger] gibbs_draws_ok(*split, before, ds2) && self.state@
                        == apply_gibbs_draws(before, ds2);
                lemma_gibbs_draws_concat(*split, start.state@, ds, ds2);
                ds = ds + ds2;
            }
            k = k + 1;
        }
        proof {
            assert(gibbs_draws_ok(*split, start.state@, ds));
        }
    }

    /// Run `max(burn_in_sweeps, 1)` sweeps.
    pub fn burn_in<S: Fn(OccNum, u64) -> (OccNum, OccNum)>(&mut self, rng: &mut StdRng, split: &S)
        requires
            old(self).valid(),
            old(self).counters.proposals + at_least_one(old(self).config.burn_in_sweeps as int) * old(
                self,
            ).spec_sweep_len() <= u64::MAX,
            is_split_sampler(*split, old(self).family),
        ensures
            final(self).evolved_from(old(self)),
            final(self).counters.proposals == old(self).counters.proposals + at_least_one(
                old(self).config.burn_in_sweeps as int,
            ) * old(self).spec_sweep_len(),
            final(self).counters.accepted == old(self).counters.accepted + old(self).accepted_in(
                at_least_one(old(self).config.burn_in_sweeps as int) * old(self).spec_sweep_len(),
            ),
            gibbs_chain_result(
                *split,
                old(self).state@,
                at_least_one(old(self).config.burn_in_sweeps as int) * old(self).spec_sweep_len(),
                final(self).state@,
            ),
    {
        let sweeps = if self.config.burn_in_sweeps >= 1 {
            self.config.burn_in_sweeps
        } else {
            1
        };
        self.run_sweeps(sweeps, rng, split);
    }

    /// Run `max(sweeps_per_sample, 1)` thinning sweeps and return a copy of
    /// the current occupation vector.
    pub fn sample<S: Fn(OccNum, u64) -> (OccNum, OccNum)>(&mut self, rng: &mut StdRng, split: &S) -> (v: Vec<
        OccNum,
    >)
        requires
            old(self).valid(),
            old(self).counters.proposals + at_least_one(old(self).config.sweeps_per_sample as int) * old(
                self,
            ).spec_sweep_len() <= u64::MAX,
            is_split_sampler(*split, old(self).family),
        ensures
            final(self).evolved_from(old(self)),
            final(self).counters.proposals == old(self).counters.proposals + at_least_one(
                old(self).config.sweeps_per_sample as int,
            ) * old(self).spec_sweep_len(),
            final(self).counters.accepted == old(self).counters.accepted + old(self).accepted_in(
                at_least_one(old(self).config.sweeps_per_sample as int) * old(self).spec_sweep_len(),
            ),
            gibbs_chain_result(
                *split,
                old(self).state@,
                at_least_one(old(self).config.sweeps_per_sample as int) * old(self).spec_sweep_len(),
                final(self).state@,
            ),
            v@ == final(self).state@,
    {
        let sweeps = if self.config.sweeps_per_sample >= 1 {
            self.config.sweeps_per_sample
        } else {
            1
        };
        self.run_sweeps(sweeps, rng, split);
        copy_slice(self.state.occupations())
    }

    /// Number of pair-Gibbs steps in one sweep: the configured override, or
    /// the number of cells (at least one).
    pub fn sweep_len(&self) -> (m: usize)
        ensures
            m == self.spec_sweep_len(),
    {
        let e = if self.state.len() >= 1 {
            self.state.len()
        } else {
            1
        };
        match self.config.proposals_per_sweep {
            Some(p) => p,
            None => e,
        }
    }
}

/// The residual problem `(E, T)` is infeasible for the family: no cells
/// but a positive total, fewer events than cells, or (for B) more events
/// than the layer capacity `M * E`.
pub open spec fn residual_infeasible(family: OccupationFamily, e: nat, t: int) -> bool {
    ||| e == 0 && t != 0
    ||| t < e
    ||| (family.spec_max_occupation() matches Some(m) && t > m * e)
}

/// The balanced fill of `T` events over `E` cells: every cell holds
/// `1 + (T - E) / E`, and the first `(T - E) mod E` cells one more.
pub open spec fn balanced_fill(e: nat, t: int) -> Seq<OccNum> {
    let r = t - e;
    Seq::new(e, |k: int| (1 + r / (e as int) + if k < r % (e as int) { 1int } else { 0int }) as OccNum)
}

/// The balanced fill spreads the events as evenly as possible: every cell
/// holds at least one event and no two cells differ by more than one.
pub proof fn lemma_balanced_fill_even(e: nat, t: int)
    requires
        e >= 1,
        t >= e,
        t <= u64::MAX,
    ensures
        balanced_fill(e, t).len() == e,
        forall|k: int| 0 <= k < e ==> #[trigger] balanced_fill(e, t)[k] >= 1,
        forall|k: int, j: int|
            0 <= k < e && 0 <= j < e ==> #[trigger] balanced_fill(e, t)[k] <= #[trigger] balanced_fill(
                e,
                t,
            )[j] + 1,
{
    let r = t - e;
    let q = r / (e as int);
    let rem = r % (e as int);
    lemma_balanced_arith(e as int, t, 0);
    assert(q <= r) by (nonlinear_arith)
        requires
            e >= 1,
            r >= 0,
            q == r / (e as int),
    ;
    assert forall|k: int| 0 <= k < e implies #[trigger] balanced_fill(e, t)[k] == 1 + q + if k < rem {
        1int
    } else {
        0int
    } by {}
}

/// Arithmetic facts behind the balanced fill: `E` cells of `1 + q` plus
/// `rem` extra events sum to `T`, and with a layer cap `M` and `T <= M E`
/// no cell exceeds `M`.
proof fn lemma_balanced_arith(e: int, t: int, m: int)
    requires
        e >= 1,
        t >= e,
    ensures
        e * (1 + (t - e) / e) + (t - e) % e == t,
        0 <= (t - e) % e < e,
        (t - e) / e >= 0,
        m >= 0 && t <= m * e ==> 1 + (t - e) / e <= m,
        m >= 0 && t <= m * e && (t - e) % e > 0 ==> 2 + (t - e) / e <= m,
{
    let r = t - e;
    let q = r / e;
    let rem = r % e;
    vstd::arithmetic::div_mod::lemma_fundamental_div_mod(r, e);
    assert(0 <= rem < e) by (nonlinear_arith)
        requires
            e >= 1,
            rem == r % e,
    ;
    assert(q >= 0) by (nonlinear_arith)
        requires
            e >= 1,
            r >= 0,
            q == r / e,
    ;
    assert(e * (1 + q) == e + e * q) by (nonlinear_arith);
    if m >= 0 && t <= m * e {
        assert(1 + q <= m && (rem > 0 ==> 2 + q <= m)) by (nonlinear_arith)
            requires
                e >= 1,
                r == e * q + rem,
                0 <= rem < e,
                q >= 0,
                r + e <= m * e,
                m >= 0,
        ;
    }
}

/// Every element of a sequence occurs in any sequence with the same
/// multiset.
proof fn lemma_same_multiset_bounds(a: Seq<OccNum>, b: Seq<OccNum>, lo: int, hi: int)
    requires
        a.to_multiset() == b.to_multiset(),
        forall|k: int| 0 <= k < b.len() ==> lo <= #[trigger] b[k] <= hi,
    ensures
        forall|k: int| 0 <= k < a.len() ==> lo <= #[trigger] a[k] <= hi,
{
    assert forall|k: int| 0 <= k < a.len() implies lo <= #[trigger] a[k] <= hi by {
        let x = a[k];
        assert(a.contains(x));
        to_multiset_contains(a, x);
        to_multiset_contains(b, x);
        assert(b.contains(x));
        let j = choose|j: int| 0 <= j < b.len() && b[j] == x;
        assert(lo <= b[j] <= hi);
    }
}

/// Build a balanced feasible occupation vector: `E` positive values
/// summing to `T` within the family's cap, arranged in random order.
///
/// All cells start at `1`; the residual `R = T - E` is spread as `R / E`
/// to every cell plus one to `R mod E` cells; the vector is then shuffled.
pub fn initialize_balanced(family: OccupationFamily, e: usize, t: OccNum, rng: &mut StdRng) -> (r:
    Result<Vec<OccNum>, FixedTotalError>)
    ensures
        r is Err <==> residual_infeasible(family, e as nat, t as int),
        r matches Ok(v) ==> {
            &&& v@.len() == e
            &&& v@.to_multiset() == balanced_fill(e as nat, t as int).to_multiset()
            &&& seq_sum(v@) == t
            &&& occupations_ok(v@, family)
        },
{
    if e == 0 {
        if t == 0 {
            let v: Vec<OccNum> = Vec::new();
            proof {
                assert(v@ =~= balanced_fill(0, 0));
            }
            return Ok(v);
        } else {
            return Err(FixedTotalError::InvalidResidual("zero edges but total occupation > 0".to_owned()));
        }
    }
    let e64 = e as OccNum;
    if t < e64 {
        let mut m = num_msg("total occupation ", t, " < edge count ");
        push_num(&mut m, e64, " (each edge needs ≥1 event)");
        return Err(FixedTotalError::InvalidResidual(m));
    }
    if let Some(max) = family.max_occupation() {
        // The capacity `M * E`, saturated at the largest `u64`.
        if let Some(capacity) = max.checked_mul(e64) {
            if t > capacity {
                let mut m = num_msg("total occupation ", t, " exceeds B capacity ");
                push_num(&mut m, max, " × ");
                push_num(&mut m, e64, " = ");
                push_num(&mut m, capacity, "");
                return Err(FixedTotalError::InvalidResidual(m));
            }
        }
        proof {
            assert(t <= max * e64);
        }
    }
    let ghost m: int = match family.spec_max_occupation() {
        Some(m) => m as int,
        None => t as int,
    };
    proof {
        assert(t <= m * e) by (nonlinear_arith)
            requires
                e >= 1,
                family.spec_max_occupation() is None ==> m == t,
                family.spec_max_occupation() matches Some(mm) ==> m == mm && t <= mm * e,
        ;
        lemma_balanced_arith(e as int, t as int, m);
    }
    let residual = t - e64;
    let q = residual / e64;
    let rem = residual % e64;
    let ghost fill = balanced_fill(e as nat, t as int);
    let mut occ: Vec<OccNum> = Vec::new();
    let mut k: usize = 0;
    while k < e
        invariant
            k <= e,
            e >= 1,
            e64 == e,
            residual == t - e,
            q == (t - e) / (e as int),
            rem == (t - e) % (e as int),
            0 <= rem < e,
            fill == balanced_fill(e as nat, t as int),
            fill.len() == e,
            occ@ == fill.take(k as int),
            seq_sum(occ@) == k * (1 + q) + if k <= rem { k as int } else { rem as int },
            e * (1 + q) + rem == t,
        decreases e - k,
    {
        let x: OccNum = if (k as OccNum) < rem {
            2 + q
        } else {
            1 + q
        };
        proof {
            assert(k * (1 + q) + (1 + q) <= e * (1 + q)) by (nonlinear_arith)
                requires
                    k < e,
                    q >= 0,
            ;
            assert(occ@.push(x).drop_last() =~= occ@);
            assert(fill.take(k + 1) =~= fill.take(k as int).push(x));
            assert(k * (1 + q) + (1 + q) == (k + 1) * (1 + q)) by (nonlinear_arith);
        }
        occ.push(x);
        k = k + 1;
    }
    proof {
        assert(occ@ =~= fill);
        assert forall|j: int| 0 <= j < fill.len() implies 1 <= #[trigger] fill[j] <= m by {}
    }
    let ghost before = occ@;
    shuffle_slice(&mut occ, rng);
    proof {
        lemma_same_multiset_bounds(occ@, before, 1, m);
    }
    Ok(occ)
}

/// Steps per sweep of a fresh chain over `e` cells: the configured
/// override, or one per cell (at least one).
pub open spec fn gibbs_sweep_len(config: McmcConfig, e: int) -> int {
    match config.proposals_per_sweep {
        Some(p) => p as int,
        None => if e >= 1 {
            e
        } else {
            1int
        },
    }
}

/// `v` is a fixed-total sample for `(E, T)` under `config`: some arrangement
/// of the balanced fill, after `(max(burn_in, 1) + max(thinning, 1))` sweeps
/// of [`gibbs_sweep_len`] pair-Gibbs moves drawn under `split`.
pub open spec fn fixed_total_sample_of<S: Fn(OccNum, u64) -> (OccNum, OccNum)>(
    split: S,
    e: nat,
    t: int,
    config: McmcConfig,
    v: Seq<OccNum>,
) -> bool {
    exists|init: Seq<OccNum>|
        init.len() == e && init.to_multiset() == balanced_fill(e, t).to_multiset()
            && #[trigger] gibbs_chain_result(
            split,
            init,
            (at_least_one(config.burn_in_sweeps as int) + at_least_one(
                config.sweeps_per_sample as int,
            )) * gibbs_sweep_len(config, e as int),
            v,
        )
}

/// One-shot fixed-total sampling: build the balanced initial vector with a
/// generator seeded from `config.seed`, then (for two or more cells) run
/// `max(burn_in_sweeps, 1)` burn-in sweeps and `max(sweeps_per_sample, 1)`
/// thinning sweeps of the pair-Gibbs chain and return its state.
///
/// Fails exactly on infeasible residual problems; every returned vector has
/// `E` positive entries summing to `T` within the family's cap, and is what
/// the drawn Gibbs moves make of an arrangement of the balanced fill
/// ([`fixed_total_sample_of`]).
pub fn sample_fixed_total<S: Fn(OccNum, u64) -> (OccNum, OccNum)>(
    family: OccupationFamily,
    e: usize,
    t: OccNum,
    config: &McmcConfig,
    split: &S,
) -> (r: Result<Vec<OccNum>, FixedTotalError>)
    requires
        is_split_sampler(*split, family),
        (at_least_one(config.burn_in_sweeps as int) + at_least_one(config.sweeps_per_sample as int))
            * gibbs_sweep_len(*config, e as int) <= u64::MAX,
    ensures
        r is Err <==> residual_infeasible(family, e as nat, t as int),
        r matches Ok(v) ==> {
            &&& v@.len() == e
            &&& seq_sum(v@) == t
            &&& occupations_ok(v@, family)
            &&& fixed_total_sample_of(*split, e as nat, t as int, *config, v@)
        },
{
    let ghost n_moves = (at_least_one(config.burn_in_sweeps as int) + at_least_one(
        config.sweeps_per_sample as int,
    )) * gibbs_sweep_len(*config, e as int);
    let mut rng = rng_from_seed(config.seed);
    let occ = initialize_balanced(family, e, t, &mut rng)?;
    if e <= 1 {
        proof {
            assert(n_moves >= 0) by (nonlinear_arith)
                requires
                    n_moves == (at_least_one(config.burn_in_sweeps as int) + at_least_one(
                        config.sweeps_per_sample as int,
                    )) * gibbs_sweep_len(*config, e as int),
                    at_least_one(config.burn_in_sweeps as int) >= 1,
                    at_least_one(config.sweeps_per_sample as int) >= 1,
                    gibbs_sweep_len(*config, e as int) >= 0,
            ;
            let ds = Seq::new(n_moves as nat, |k: int| (0int, 0int, 0u64, (0u64, 0u64)));
            lemma_gibbs_draws_small(*split, occ@, ds);
            assert(gibbs_chain_result(*split, occ@, n_moves, occ@));
        }
        return Ok(occ);
    }
    let cfg = McmcConfig {
        burn_in_sweeps: config.burn_in_sweeps,
        sweeps_per_sample: config.sweeps_per_sample,
        proposals_per_sweep: config.proposals_per_sweep,
        seed: config.seed,
    };
    let mut chain = FixedTotalChain::new(FixedTotalState::new(occ), family, cfg);
    proof {
        let b = at_least_one(config.burn_in_sweeps as int);
        let s = at_least_one(config.sweeps_per_sample as int);
        let m = chain.spec_sweep_len();
        assert(m == gibbs_sweep_len(*config, e as int));
        assert(b * m + s * m == (b + s) * m) by (nonlinear_arith);
        assert(b * m >= 0 && s * m >= 0) by (nonlinear_arith)
            requires
                b >= 1,
                s >= 1,
                m >= 0,
        ;
    }
    let ghost init = chain.state@;
    chain.burn_in(&mut rng, split);
    let ghost mid = chain.state@;
    let v = chain.sample(&mut rng, split);
    proof {
        let m = gibbs_sweep_len(*config, e as int);
        let b = at_least_one(config.burn_in_sweeps as int);
        let s = at_least_one(config.sweeps_per_sample as int);
        let ds1 = choose|ds1: Seq<GibbsDraw>|
            ds1.len() == b * m && #[trigger] gibbs_draws_ok(*split, init, ds1) && mid
                == apply_gibbs_draws(init, ds1);
        let ds2 = choose|ds2: Seq<GibbsDraw>|
            ds2.len() == s * m && #[trigger] gibbs_draws_ok(*split, mid, ds2) && v@
                == apply_gibbs_draws(mid, ds2);
        lemma_gibbs_draws_concat(*split, init, ds1, ds2);
        assert(gibbs_draws_ok(*split, init, ds1 + ds2));
        assert(gibbs_chain_result(*split, init, n_moves, v@));
    }
    Ok(v)
}

} // verus!
