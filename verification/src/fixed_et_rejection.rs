//! Rejection samplers for positive occupation vectors of a fixed total.
//!
//! Each attempt draws an unconstrained configuration uniformly at random and
//! is accepted when every entry is positive, so an accepted vector follows
//! the family's occupancy law conditioned on positivity:
//!
//! * ME: `T` events thrown uniformly into `E` boxes (multinomial).
//! * B: `T` of the `E M` binary cells chosen uniformly, counted per row of
//!   `M` cells (the `M E - T` holes are chosen instead when that is fewer).
//! * W: a uniform weak composition of `T` into `E M` boxes (stars and bars),
//!   summed per group of `M` boxes.
use rand::rngs::StdRng;
use vstd::arithmetic::div_mod::{
    lemma_fundamental_div_mod, lemma_fundamental_div_mod_converse_div, lemma_mod_pos_bound,
};
use vstd::prelude::*;
use vstd::set_lib::{lemma_int_range, lemma_len_subset, set_int_range};

use crate::rng::random_below;
use crate::seqs::{lemma_seq_sum_element, lemma_seq_sum_update, seq_sum, sort_block};
use crate::uniform_edges::{distinct_indices, sample_uniform_support};
use crate::OccNum;

verus! {

/// `c` has `e` entries summing to `t`, each of them positive.
pub open spec fn positive_occupations(c: Seq<OccNum>, e: int, t: int) -> bool {
    &&& c.len() == e
    &&& seq_sum(c) == t
    &&& forall|i: int| 0 <= i < c.len() ==> #[trigger] c[i] >= 1
}

/// Number of positive entries of `s`.
pub open spec fn count_positive(s: Seq<OccNum>) -> nat
    decreases s.len(),
{
    if s.len() == 0 {
        0
    } else {
        count_positive(s.drop_last()) + if s.last() > 0 {
            1nat
        } else {
            0nat
        }
    }
}

/// The `m` cells `m r .. m r + m` of row `r`.
pub open spec fn row_cells(r: int, m: int) -> Set<int> {
    set_int_range(m * r, m * r + m)
}

/// Every later entry exceeds every earlier one.
pub open spec fn strictly_increasing(s: Seq<u64>) -> bool {
    forall|x: int, y: int| 0 <= x < y < s.len() ==> s[x] < s[y]
}

proof fn lemma_count_positive_update(s: Seq<OccNum>, i: int, v: OccNum)
    requires
        0 <= i < s.len(),
    ensures
        count_positive(s.update(i, v)) == count_positive(s) - (if s[i] > 0 {
            1int
        } else {
            0int
        }) + (if v > 0 {
            1int
        } else {
            0int
        }),
    decreases s.len(),
{
    if i == s.len() - 1 {
        assert(s.update(i, v).drop_last() =~= s.drop_last());
    } else {
        lemma_count_positive_update(s.drop_last(), i, v);
        assert(s.update(i, v).drop_last() =~= s.drop_last().update(i, v));
    }
}

proof fn lemma_count_positive_bound(s: Seq<OccNum>)
    ensures
        count_positive(s) <= s.len(),
        count_positive(s) == s.len() ==> forall|i: int| 0 <= i < s.len() ==> #[trigger] s[i] > 0,
    decreases s.len(),
{
    if s.len() > 0 {
        lemma_count_positive_bound(s.drop_last());
        if count_positive(s) == s.len() {
            assert forall|i: int| 0 <= i < s.len() implies #[trigger] s[i] > 0 by {
                if i < s.len() - 1 {
                    assert(s[i] == s.drop_last()[i]);
                }
            }
        }
    }
}

/// A sequence of positive entries sums to at least its length.
proof fn lemma_positive_sum_lower(s: Seq<OccNum>)
    requires
        forall|i: int| 0 <= i < s.len() ==> #[trigger] s[i] >= 1,
    ensures
        seq_sum(s) >= s.len(),
    decreases s.len(),
{
    if s.len() > 0 {
        assert forall|i: int| 0 <= i < s.drop_last().len() implies #[trigger] s.drop_last()[i]
            >= 1 by {
            assert(s.drop_last()[i] == s[i]);
        }
        lemma_positive_sum_lower(s.drop_last());
    }
}

/// A one-entry sequence sums to its entry.
proof fn lemma_single_sum(s: Seq<OccNum>)
    requires
        s.len() == 1,
    ensures
        seq_sum(s) == s[0],
{
    reveal_with_fuel(seq_sum, 2);
}

/// Cell `c < e m` lies in row `c / m`, which is below `e`, and in no other row.
proof fn lemma_cell_row(c: int, m: int, e: int)
    requires
        0 <= c,
        c < e * m,
        m > 0,
    ensures
        0 <= c / m < e,
        row_cells(c / m, m).contains(c),
        forall|r: int| #[trigger] row_cells(r, m).contains(c) ==> r == c / m,
{
    lemma_fundamental_div_mod(c, m);
    lemma_mod_pos_bound(c, m);
    let q = c / m;
    let rem = c % m;
    assert(0 <= q < e) by (nonlinear_arith)
        requires
            c == m * q + rem,
            0 <= rem < m,
            0 <= c,
            c < e * m,
            m > 0,
    ;
    assert forall|r: int| #[trigger] row_cells(r, m).contains(c) implies r == q by {
        assert(m * r <= c < m * r + m);
        assert(c == r * m + (c - m * r)) by (nonlinear_arith);
        lemma_fundamental_div_mod_converse_div(c, m, r, c - m * r);
    }
}

/// Adding a cell `c` that is not yet used: its row held fewer than `m` used
/// cells, gains one, and every other row is unchanged.
proof fn lemma_add_cell(used: Set<int>, c: int, m: int, e: int)
    requires
        used.finite(),
        !used.contains(c),
        0 <= c,
        c < e * m,
        m > 0,
    ensures
        0 <= c / m < e,
        used.intersect(row_cells(c / m, m)).len() < m,
        forall|r: int|
            #![trigger used.insert(c).intersect(row_cells(r, m))]
            used.insert(c).intersect(row_cells(r, m)).len() == used.intersect(row_cells(r, m)).len()
                + (if r == c / m {
                1int
            } else {
                0int
            }),
{
    lemma_cell_row(c, m, e);
    let row = c / m;
    let here = used.intersect(row_cells(row, m));
    lemma_int_range(m * row, m * row + m);
    lemma_len_subset(here, row_cells(row, m));
    lemma_len_subset(here.insert(c), row_cells(row, m));
    assert forall|r: int|
        #![trigger used.insert(c).intersect(row_cells(r, m))]
        used.insert(c).intersect(row_cells(r, m)).len() == used.intersect(row_cells(r, m)).len()
            + (if r == c / m {
            1int
        } else {
            0int
        }) by {
        lemma_int_range(m * r, m * r + m);
        lemma_len_subset(used.intersect(row_cells(r, m)), row_cells(r, m));
        if r == row {
            assert(used.insert(c).intersect(row_cells(r, m)) =~= here.insert(c));
        } else {
            assert(!row_cells(r, m).contains(c));
            assert(used.insert(c).intersect(row_cells(r, m)) =~= used.intersect(row_cells(r, m)));
        }
    }
}

/// Each row meets the used cells in at most `m` cells.
proof fn lemma_row_capacity(used: Set<int>, r: int, m: int)
    requires
        m >= 0,
    ensures
        used.intersect(row_cells(r, m)).len() <= m,
{
    lemma_int_range(m * r, m * r + m);
    lemma_len_subset(used.intersect(row_cells(r, m)), row_cells(r, m));
}

/// Later entries of a strictly increasing sequence exceed earlier ones by at
/// least the distance between them.
proof fn lemma_increasing_gap(s: Seq<u64>, a: int, b: int)
    requires
        0 <= a <= b < s.len(),
        strictly_increasing(s),
    ensures
        s[b] - s[a] >= b - a,
    decreases b - a,
{
    if a < b {
        lemma_increasing_gap(s, a, b - 1);
        assert(s[b - 1] < s[b]);
    }
}

/// `e` copies of `value`.
fn constant_occupations(value: OccNum, e: usize) -> (v: Vec<OccNum>)
    ensures
        v@.len() == e,
        forall|i: int| 0 <= i < e ==> #[trigger] v@[i] == value,
        seq_sum(v@) == e * value,
        count_positive(v@) == if value > 0 {
            e as int
        } else {
            0
        },
{
    let mut v: Vec<OccNum> = Vec::new();
    let mut i: usize = 0;
    while i < e
        invariant
            i <= e,
            v@.len() == i,
            forall|k: int| 0 <= k < i ==> #[trigger] v@[k] == value,
            seq_sum(v@) == i * value,
            count_positive(v@) == if value > 0 {
                i as int
            } else {
                0
            },
        decreases e - i,
    {
        let ghost before = v@;
        v.push(value);
        proof {
            assert(v@.drop_last() =~= before);
            assert((i + 1) * value == i * value + value) by (nonlinear_arith);
        }
        i = i + 1;
    }
    v
}

/// Whether every entry is positive.
fn all_positive(c: &Vec<OccNum>) -> (b: bool)
    ensures
        b <==> forall|i: int| 0 <= i < c@.len() ==> #[trigger] c@[i] > 0,
{
    let mut i: usize = 0;
    while i < c.len()
        invariant
            i <= c@.len(),
            forall|k: int| 0 <= k < i ==> #[trigger] c@[k] > 0,
        decreases c@.len() - i,
    {
        if c[i] == 0 {
            return false;
        }
        i = i + 1;
    }
    true
}

/// Count the chosen `cells` (distinct, each below `e m`) row by row, rows
/// holding `m` cells each; also return how many rows were hit.
fn tally_rows(cells: &Vec<usize>, m: usize, e: usize) -> (res: (Vec<OccNum>, usize))
    requires
        m > 0 || cells@.len() == 0,
        distinct_indices(cells@, e * m, cells@.len() as int),
    ensures
        res.0@.len() == e,
        seq_sum(res.0@) == cells@.len(),
        forall|r: int| 0 <= r < e ==> #[trigger] res.0@[r] <= m,
        res.1 == count_positive(res.0@),
{
    let mut counts = constant_occupations(0, e);
    let mut occupied: usize = 0;
    let ghost mut used: Set<int> = Set::empty();
    let mut j: usize = 0;
    proof {
        assert forall|r: int| 0 <= r < e implies #[trigger] counts@[r] == used.intersect(
            row_cells(r, m as int),
        ).len() by {
            assert(used.intersect(row_cells(r, m as int)) =~= Set::empty());
        }
    }
    while j < cells.len()
        invariant
            m > 0 || cells@.len() == 0,
            distinct_indices(cells@, e * m, cells@.len() as int),
            j <= cells@.len(),
            counts@.len() == e,
            seq_sum(counts@) == j,
            occupied == count_positive(counts@),
            used.finite(),
            forall|x: int| #[trigger] used.contains(x) ==> exists|k: int| 0 <= k < j && cells@[k] == x,
            forall|r: int|
                0 <= r < e ==> #[trigger] counts@[r] == used.intersect(row_cells(r, m as int)).len(),
        decreases cells@.len() - j,
    {
        let cell = cells[j];
        proof {
            if used.contains(cell as int) {
                let k = choose|k: int| 0 <= k < j && cells@[k] == cell as int;
                assert(cells@[k] != cells@[j as int]);
            }
            lemma_add_cell(used, cell as int, m as int, e as int);
        }
        let row = cell / m;
        proof {
            lemma_count_positive_bound(counts@);
            lemma_count_positive_update(counts@, row as int, (counts@[row as int] + 1) as u64);
            lemma_seq_sum_update(counts@, row as int, (counts@[row as int] + 1) as u64);
        }
        if counts[row] == 0 {
            occupied = occupied + 1;
        }
        counts.set(row, counts[row] + 1);
        proof {
            let ghost before = used;
            used = used.insert(cell as int);
            assert forall|x: int| #[trigger] used.contains(x) implies exists|k: int|
                0 <= k < j + 1 && cells@[k] == x by {
                if x == cell as int {
                    assert(cells@[j as int] == x);
                } else {
                    assert(before.contains(x));
                }
            }
            assert forall|r: int| 0 <= r < e implies #[trigger] counts@[r] == used.intersect(
                row_cells(r, m as int),
            ).len() by {
                assert(before.insert(cell as int).intersect(row_cells(r, m as int)).len()
                    == before.intersect(row_cells(r, m as int)).len() + (if r == row {
                    1int
                } else {
                    0int
                }));
            }
        }
        j = j + 1;
    }
    proof {
        assert forall|r: int| 0 <= r < e implies #[trigger] counts@[r] <= m by {
            lemma_row_capacity(used, r, m as int);
        }
    }
    (counts, occupied)
}

/// Start every row of `m` cells full and remove the `holes` (distinct, each
/// below `e m`): each entry is what is left of its row.
fn carve_rows(holes: &Vec<usize>, m: usize, e: usize) -> (counts: Vec<OccNum>)
    requires
        m > 0,
        distinct_indices(holes@, e * m, holes@.len() as int),
    ensures
        counts@.len() == e,
        seq_sum(counts@) == e * m - holes@.len(),
        forall|r: int| 0 <= r < e ==> #[trigger] counts@[r] <= m,
        holes@.len() == 0 ==> forall|r: int| 0 <= r < e ==> #[trigger] counts@[r] == m,
{
    let mut counts = constant_occupations(m as OccNum, e);
    let ghost mut used: Set<int> = Set::empty();
    let mut j: usize = 0;
    proof {
        assert forall|r: int| 0 <= r < e implies #[trigger] counts@[r] + used.intersect(
            row_cells(r, m as int),
        ).len() == m by {
            assert(used.intersect(row_cells(r, m as int)) =~= Set::empty());
        }
    }
    while j < holes.len()
        invariant
            m > 0,
            distinct_indices(holes@, e * m, holes@.len() as int),
            j <= holes@.len(),
            counts@.len() == e,
            seq_sum(counts@) == e * m - j,
            used.finite(),
            forall|x: int| #[trigger] used.contains(x) ==> exists|k: int| 0 <= k < j && holes@[k] == x,
            forall|r: int|
                0 <= r < e ==> #[trigger] counts@[r] + used.intersect(row_cells(r, m as int)).len()
                    == m,
        decreases holes@.len() - j,
    {
        let hole = holes[j];
        proof {
            if used.contains(hole as int) {
                let k = choose|k: int| 0 <= k < j && holes@[k] == hole as int;
                assert(holes@[k] != holes@[j as int]);
            }
            lemma_add_cell(used, hole as int, m as int, e as int);
        }
        let row = hole / m;
        proof {
            assert(counts@[row as int] + used.intersect(row_cells(row as int, m as int)).len()
                == m);
            lemma_seq_sum_update(counts@, row as int, (counts@[row as int] - 1) as u64);
        }
        counts.set(row, counts[row] - 1);
        proof {
            let ghost before = used;
            used = used.insert(hole as int);
            assert forall|x: int| #[trigger] used.contains(x) implies exists|k: int|
                0 <= k < j + 1 && holes@[k] == x by {
                if x == hole as int {
                    assert(holes@[j as int] == x);
                } else {
                    assert(before.contains(x));
                }
            }
            assert forall|r: int| 0 <= r < e implies #[trigger] counts@[r] + used.intersect(
                row_cells(r, m as int),
            ).len() == m by {
                assert(before.insert(hole as int).intersect(row_cells(r, m as int)).len()
                    == before.intersect(row_cells(r, m as int)).len() + (if r == row {
                    1int
                } else {
                    0int
                }));
            }
        }
        j = j + 1;
    }
    proof {
        if holes@.len() == 0 {
            assert forall|r: int| 0 <= r < e implies #[trigger] counts@[r] == m by {
                assert(used.intersect(row_cells(r, m as int)) =~= Set::empty());
            }
        }
    }
    counts
}

/// Sample a uniform subset of `T` of the `E M` binary cells and count it per
/// row of `M` cells; accept when no row is empty. Holes are sampled instead
/// when `T > E M / 2`. Gives up after `max_attempts` rejected draws.
///
/// An accepted vector has `E` entries in `1..=M` summing to `T`; nothing can
/// be accepted when `T < E`, and the full table `T = E M` (with `M >= 1`) is
/// accepted at the first attempt.
pub fn try_b_subset_rejection(
    m: OccNum,
    t: OccNum,
    e: usize,
    max_attempts: usize,
    rng: &mut StdRng,
) -> (r: Result<Vec<OccNum>, ()>)
    requires
        m <= usize::MAX,
        e * m <= usize::MAX,
        t <= e * m,
    ensures
        r matches Ok(c) ==> positive_occupations(c@, e as int, t as int) && forall|i: int|
            0 <= i < c@.len() ==> #[trigger] c@[i] <= m,
        (max_attempts == 0 || t < e) ==> r is Err,
        (max_attempts > 0 && m >= 1 && t == e * m) ==> r is Ok,
{
    let m_u = m as usize;
    proof {
        assert(e * m_u <= usize::MAX);
    }
    let total_cells = e * m_u;
    let t_u = t as usize;
    let use_complement = t_u > total_cells / 2;
    proof {
        if m >= 1 && e >= 1 {
            assert(total_cells >= 1) by (nonlinear_arith)
                requires
                    total_cells == e * m_u,
                    m_u >= 1,
                    e >= 1,
            ;
        }
    }
    let mut attempt: usize = 0;
    while attempt < max_attempts
        invariant
            (m >= 1 && e >= 1) ==> total_cells >= 1,
            m_u == m,
            total_cells == e * m,
            t_u == t,
            t <= e * m,
            use_complement == (t_u > total_cells / 2),
            (m >= 1 && t == e * m) ==> attempt == 0,
        decreases max_attempts - attempt,
    {
        if use_complement {
            proof {
                assert(m_u > 0) by (nonlinear_arith)
                    requires
                        total_cells == e * m_u,
                        total_cells > 0,
                ;
            }
            let holes = sample_uniform_support(total_cells, total_cells - t_u, rng);
            let counts = carve_rows(&holes, m_u, e);
            if all_positive(&counts) {
                proof {
                    lemma_positive_sum_lower(counts@);
                }
                return Ok(counts);
            }
        } else {
            let cells = sample_uniform_support(total_cells, t_u, rng);
            proof {
                assert(m_u > 0 || cells@.len() == 0) by (nonlinear_arith)
                    requires
                        total_cells == e * m_u,
                        cells@.len() <= total_cells,
                ;
            }
            let (counts, occupied) = tally_rows(&cells, m_u, e);
            if occupied == e {
                proof {
                    lemma_count_positive_bound(counts@);
                    lemma_positive_sum_lower(counts@);
                }
                return Ok(counts);
            }
        }
        attempt = attempt + 1;
    }
    Err(())
}

/// The distinct positions `ix`, each below `bound`, in increasing order.
fn sorted_positions(ix: &Vec<usize>, bound: usize) -> (s: Vec<u64>)
    requires
        distinct_indices(ix@, bound as int, ix@.len() as int),
    ensures
        s@.len() == ix@.len(),
        strictly_increasing(s@),
        forall|k: int| 0 <= k < s@.len() ==> #[trigger] s@[k] < bound,
{
    let mut s: Vec<u64> = Vec::new();
    let mut k: usize = 0;
    while k < ix.len()
        invariant
            distinct_indices(ix@, bound as int, ix@.len() as int),
            k <= ix@.len(),
            s@.len() == k,
            forall|i: int| 0 <= i < k ==> #[trigger] s@[i] == ix@[i],
        decreases ix@.len() - k,
    {
        s.push(ix[k] as u64);
        k = k + 1;
    }
    let ghost unsorted = s@;
    proof {
        assert(unsorted.no_duplicates()) by {
            assert forall|a: int, b: int|
                0 <= a < unsorted.len() && 0 <= b < unsorted.len() && a != b implies unsorted[a]
                != unsorted[b] by {
                if a < b {
                    assert(ix@[a] != ix@[b]);
                } else {
                    assert(ix@[b] != ix@[a]);
                }
            }
        }
        unsorted.lemma_multiset_has_no_duplicates();
    }
    sort_block(&mut s);
    proof {
        broadcast use vstd::seq_lib::to_multiset_contains;

        s@.lemma_multiset_has_no_duplicates_conv();
        assert forall|k: int| 0 <= k < s@.len() implies #[trigger] s@[k] < bound by {
            let x = s@[k];
            assert(s@.contains(x));
            assert(s@.to_multiset().count(x) > 0);
            assert(unsorted.to_multiset().count(x) > 0);
            let i = choose|i: int| 0 <= i < unsorted.len() && unsorted[i] == x;
            assert(ix@[i] < bound);
        }
        assert forall|x: int, y: int| 0 <= x < y < s@.len() implies s@[x] < s@[y] by {
            assert(s@[x] <= s@[y]);
            assert(s@[x] != s@[y]);
        }
    }
    s
}

/// Stars and bars, separator form: `seps` are the `E M - 1` increasing bar
/// positions in a string of `len` cells. Box `b` holds the stars between bar
/// `b - 1` and bar `b` (the last box those after the last bar); boxes are
/// summed in groups of `m`.
fn separator_counts(seps: &Vec<u64>, m: usize, e: usize, len: usize) -> (occ: Vec<OccNum>)
    requires
        m > 0,
        seps@.len() + 1 == e * m,
        strictly_increasing(seps@),
        forall|k: int| 0 <= k < seps@.len() ==> #[trigger] seps@[k] < len,
    ensures
        occ@.len() == e,
        seq_sum(occ@) == len - seps@.len(),
{
    let mut occ = constant_occupations(0, e);
    let mut next_start: u64 = 0;
    let mut idx: usize = 0;
    while idx < seps.len()
        invariant
            m > 0,
            seps@.len() + 1 == e * m,
            strictly_increasing(seps@),
            forall|k: int| 0 <= k < seps@.len() ==> #[trigger] seps@[k] < len,
            idx <= seps@.len(),
            occ@.len() == e,
            idx <= next_start <= len,
            idx < seps@.len() ==> next_start <= seps@[idx as int],
            seq_sum(occ@) == next_start - idx,
        decreases seps@.len() - idx,
    {
        let b = seps[idx];
        let x = b - next_start;
        proof {
            lemma_cell_row(idx as int, m as int, e as int);
        }
        let g = idx / m;
        proof {
            lemma_seq_sum_element(occ@, g as int);
            lemma_seq_sum_update(occ@, g as int, (occ@[g as int] + x) as u64);
            if idx + 1 < seps@.len() {
                assert(seps@[idx as int] < seps@[idx + 1]);
            }
        }
        occ.set(g, occ[g] + x);
        next_start = b + 1;
        idx = idx + 1;
    }
    let x_last = len as u64 - next_start;
    proof {
        lemma_cell_row(seps@.len() as int, m as int, e as int);
    }
    let g_last = seps.len() / m;
    proof {
        lemma_seq_sum_element(occ@, g_last as int);
        lemma_seq_sum_update(occ@, g_last as int, (occ@[g_last as int] + x_last) as u64);
    }
    occ.set(g_last, occ[g_last] + x_last);
    occ
}

/// Stars and bars, star form: `stars` are the `T` increasing star positions
/// in a string of `len = T + E M - 1` cells. Star `i` falls in box
/// `stars[i] - i` (the bars before it); boxes are summed in groups of `m`.
fn star_counts(stars: &Vec<u64>, m: usize, e: usize, len: usize) -> (occ: Vec<OccNum>)
    requires
        m > 0,
        len + 1 == stars@.len() + e * m,
        strictly_increasing(stars@),
        forall|k: int| 0 <= k < stars@.len() ==> #[trigger] stars@[k] < len,
    ensures
        occ@.len() == e,
        seq_sum(occ@) == stars@.len(),
{
    let mut occ = constant_occupations(0, e);
    let mut i: usize = 0;
    while i < stars.len()
        invariant
            m > 0,
            len + 1 == stars@.len() + e * m,
            strictly_increasing(stars@),
            forall|k: int| 0 <= k < stars@.len() ==> #[trigger] stars@[k] < len,
            i <= stars@.len(),
            occ@.len() == e,
            seq_sum(occ@) == i,
        decreases stars@.len() - i,
    {
        let s = stars[i];
        proof {
            lemma_increasing_gap(stars@, 0, i as int);
            lemma_increasing_gap(stars@, i as int, stars@.len() - 1);
        }
        let seg = s - i as u64;
        proof {
            lemma_cell_row(seg as int, m as int, e as int);
        }
        let g = (seg / m as u64) as usize;
        proof {
            lemma_seq_sum_element(occ@, g as int);
            lemma_seq_sum_update(occ@, g as int, (occ@[g as int] + 1) as u64);
        }
        occ.set(g, occ[g] + 1);
        i = i + 1;
    }
    occ
}

/// Sample a uniform weak composition of `T` into `E M` boxes (stars and
/// bars), sum it per group of `M` boxes and accept when no group is empty.
/// The bars are sampled when there are at most `T` of them, the stars
/// otherwise. Gives up after `max_attempts` rejected draws.
///
/// An accepted vector has `E` positive entries summing to `T`; nothing can
/// be accepted when `T < E`, and a single group (`E = 1`) with `T >= 1`
/// is accepted at the first attempt.
pub fn try_w_weak_composition_rejection(
    m: OccNum,
    t: OccNum,
    e: usize,
    max_attempts: usize,
    rng: &mut StdRng,
) -> (r: Result<Vec<OccNum>, ()>)
    requires
        m >= 1,
        e >= 1,
        m <= usize::MAX,
        t + e * m <= usize::MAX,
    ensures
        r matches Ok(c) ==> positive_occupations(c@, e as int, t as int),
        (max_attempts == 0 || t < e) ==> r is Err,
        (max_attempts > 0 && e == 1 && t >= 1) ==> r is Ok,
{
    let m_u = m as usize;
    let t_u = t as usize;
    proof {
        assert(1 <= e * m_u <= usize::MAX) by (nonlinear_arith)
            requires
                m_u >= 1,
                e >= 1,
                t + e * m_u <= usize::MAX,
        ;
    }
    let k = e * m_u;
    let total_len = t_u + k - 1;
    let n_sep = k - 1;
    let mut attempt: usize = 0;
    while attempt < max_attempts
        invariant
            m_u == m,
            m_u >= 1,
            t_u == t,
            k == e * m_u,
            k >= 1,
            total_len == t_u + k - 1,
            n_sep == k - 1,
            (e == 1 && t >= 1) ==> attempt == 0,
        decreases max_attempts - attempt,
    {
        let occupations = if n_sep <= t_u {
            let separators = sample_uniform_support(total_len, n_sep, rng);
            let sorted = sorted_positions(&separators, total_len);
            separator_counts(&sorted, m_u, e, total_len)
        } else {
            let stars = sample_uniform_support(total_len, t_u, rng);
            let sorted = sorted_positions(&stars, total_len);
            star_counts(&sorted, m_u, e, total_len)
        };
        proof {
            if e == 1 {
                lemma_single_sum(occupations@);
            }
        }
        if all_positive(&occupations) {
            proof {
                lemma_positive_sum_lower(occupations@);
            }
            return Ok(occupations);
        }
        attempt = attempt + 1;
    }
    Err(())
}

/// Throw `T` events uniformly into `E` boxes and accept when every box is
/// occupied. Gives up after `max_attempts` rejected draws.
///
/// An accepted vector has `E` positive entries summing to `T`; nothing can
/// be accepted when `T < E`. No boxes and no events (`E = T = 0`), and a
/// single box with `T >= 1`, are accepted at the first attempt.
pub fn try_multinomial_rejection(t: OccNum, e: usize, max_attempts: usize, rng: &mut StdRng) -> (r:
    Result<Vec<OccNum>, ()>)
    requires
        t <= usize::MAX,
        e > 0 || t == 0,
    ensures
        r matches Ok(c) ==> positive_occupations(c@, e as int, t as int),
        (max_attempts == 0 || t < e) ==> r is Err,
        (max_attempts > 0 && ((e == 0 && t == 0) || (e == 1 && t >= 1))) ==> r is Ok,
{
    let t_u = t as usize;
    let mut attempt: usize = 0;
    while attempt < max_attempts
        invariant
            t_u == t,
            e > 0 || t == 0,
            ((e == 0 && t == 0) || (e == 1 && t >= 1)) ==> attempt == 0,
        decreases max_attempts - attempt,
    {
        let mut counts = constant_occupations(0, e);
        let mut occupied: usize = 0;
        let mut d: usize = 0;
        while d < t_u
            invariant
                t_u == t,
                e > 0 || t == 0,
                d <= t_u,
                counts@.len() == e,
                seq_sum(counts@) == d,
                occupied == count_positive(counts@),
            decreases t_u - d,
        {
            let j = random_below(rng, e);
            proof {
                lemma_count_positive_bound(counts@);
                lemma_seq_sum_element(counts@, j as int);
                lemma_count_positive_update(counts@, j as int, (counts@[j as int] + 1) as u64);
                lemma_seq_sum_update(counts@, j as int, (counts@[j as int] + 1) as u64);
            }
            if counts[j] == 0 {
                occupied = occupied + 1;
            }
            counts.set(j, counts[j] + 1);
            d = d + 1;
        }
        proof {
            if e == 1 {
                lemma_single_sum(counts@);
                reveal_with_fuel(count_positive, 2);
                assert(count_positive(counts@) == if counts@[0] > 0 {
                    1nat
                } else {
                    0nat
                });
            }
        }
        if occupied == e {
            proof {
                lemma_count_positive_bound(counts@);
                lemma_positive_sum_lower(counts@);
            }
            return Ok(counts);
        }
        attempt = attempt + 1;
    }
    Err(())
}

} // verus!
