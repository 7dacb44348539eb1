//! Periodic square-lattice geometry and the spec-level observable sums.
//!
//! A lattice of side `n` is a flat sequence of `n*n` tick angles in row-major
//! order (site `(i, j)` at index `i*n + j`), with periodic wraparound on both
//! axes. The bond sum counts every nearest-neighbor bond exactly once, via
//! each site's right and down neighbor; the cosine and sine sums are the raw
//! magnetization components. The update lemmas here say exactly how those
//! sums change when a single site changes, which is what lets the engine
//! maintain them incrementally and still prove that they always equal a full
//! recomputation.

use vstd::prelude::*;
use vstd::arithmetic::div_mod::{lemma_fundamental_div_mod, lemma_fundamental_div_mod_converse,
    lemma_mod_bound};
use crate::fxp::{cos_q30_spec, sub_ticks_spec, sinq_spec, sin_q30_spec, qmul_spec, Q30,
    add_ticks_spec};

verus! {

/// Largest supported lattice side: keeps n*n and every observable sum well
/// inside the machine integer ranges used by the engine.
pub const MAX_SIDE: usize = 4096;

/// Row-major index of the right periodic neighbor.
pub open spec fn right_of_spec(n: int, idx: int) -> int {
    (idx / n) * n + (idx % n + 1) % n
}

/// Row-major index of the left periodic neighbor.
pub open spec fn left_of_spec(n: int, idx: int) -> int {
    (idx / n) * n + (idx % n + n - 1) % n
}

/// Row-major index of the down periodic neighbor.
pub open spec fn down_of_spec(n: int, idx: int) -> int {
    ((idx / n + 1) % n) * n + idx % n
}

/// Row-major index of the up periodic neighbor.
pub open spec fn up_of_spec(n: int, idx: int) -> int {
    ((idx / n + n - 1) % n) * n + idx % n
}

/// Row and column decomposition of a flat index.
pub proof fn lemma_rowcol(n: int, idx: int)
    requires
        1 <= n,
        0 <= idx < n * n,
    ensures
        0 <= idx % n < n,
        0 <= idx / n < n,
        idx == (idx / n) * n + idx % n,
{
    lemma_fundamental_div_mod(idx, n);
    lemma_mod_bound(idx, n);
    assert((idx / n) * n == n * (idx / n)) by (nonlinear_arith);
    assert(0 <= idx / n < n) by (nonlinear_arith)
        requires
            1 <= n,
            0 <= idx < n * n,
            idx == (idx / n) * n + idx % n,
            0 <= idx % n < n,
    ;
}

/// A flat index rebuilt from a valid row and column has that row and column.
pub proof fn lemma_rowcol_converse(n: int, r: int, c: int)
    requires
        1 <= n,
        0 <= r < n,
        0 <= c < n,
    ensures
        0 <= r * n + c < n * n,
        (r * n + c) / n == r,
        (r * n + c) % n == c,
{
    lemma_fundamental_div_mod_converse(r * n + c, n, r, c);
    assert(0 <= r * n + c < n * n) by (nonlinear_arith)
        requires
            1 <= n,
            0 <= r < n,
            0 <= c < n,
    ;
}

/// Stepping a coordinate forward then backward (or backward then forward)
/// around the periodic axis returns to the start.
proof fn lemma_mod_cycle(c: int, n: int)
    requires
        1 <= n,
        0 <= c < n,
    ensures
        0 <= (c + 1) % n < n,
        0 <= (c + n - 1) % n < n,
        ((c + 1) % n + n - 1) % n == c,
        ((c + n - 1) % n + 1) % n == c,
{
    if c + 1 < n {
        lemma_fundamental_div_mod_converse(c + 1, n, 0, c + 1);
        lemma_fundamental_div_mod_converse(c + 1 + n - 1, n, 1, c);
    } else {
        lemma_fundamental_div_mod_converse(c + 1, n, 1, 0);
        lemma_fundamental_div_mod_converse(n - 1, n, 0, n - 1);
    }
    if c >= 1 {
        lemma_fundamental_div_mod_converse(c + n - 1, n, 1, c - 1);
        lemma_fundamental_div_mod_converse(c - 1 + 1, n, 0, c);
    } else {
        lemma_fundamental_div_mod_converse(c + n - 1, n, 0, n - 1);
        lemma_fundamental_div_mod_converse(n - 1 + 1, n, 1, 0);
    }
}

/// The four neighbor maps send valid indices to valid indices, and the
/// left/right and up/down maps are mutually inverse, so `right_of(i) == k`
/// exactly when `i == left_of(k)`, and likewise for the vertical pair.
pub proof fn lemma_neighbors(n: int, idx: int)
    requires
        1 <= n,
        0 <= idx < n * n,
    ensures
        0 <= right_of_spec(n, idx) < n * n,
        0 <= left_of_spec(n, idx) < n * n,
        0 <= down_of_spec(n, idx) < n * n,
        0 <= up_of_spec(n, idx) < n * n,
        left_of_spec(n, right_of_spec(n, idx)) == idx,
        right_of_spec(n, left_of_spec(n, idx)) == idx,
        up_of_spec(n, down_of_spec(n, idx)) == idx,
        down_of_spec(n, up_of_spec(n, idx)) == idx,
{
    let r = idx / n;
    let c = idx % n;
    lemma_rowcol(n, idx);
    lemma_mod_cycle(c, n);
    lemma_mod_cycle(r, n);
    lemma_rowcol_converse(n, r, (c + 1) % n);
    lemma_rowcol_converse(n, r, (c + n - 1) % n);
    lemma_rowcol_converse(n, (r + 1) % n, c);
    lemma_rowcol_converse(n, (r + n - 1) % n, c);
    lemma_rowcol_converse(n, r, c);
}

/// If `right_of(i) == k` then `i == left_of(k)`, and conversely; likewise for
/// up and down. This is what confines a single-site change to three sites'
/// bond terms.
pub proof fn lemma_neighbor_inverse(n: int, i: int, k: int)
    requires
        1 <= n,
        0 <= i < n * n,
        0 <= k < n * n,
    ensures
        (right_of_spec(n, i) == k) == (i == left_of_spec(n, k)),
        (down_of_spec(n, i) == k) == (i == up_of_spec(n, k)),
{
    lemma_neighbors(n, i);
    lemma_neighbors(n, k);
}

/// Sum of Q30 cosines over the first `k` sites.
pub open spec fn cos_sum_to(s: Seq<u32>, k: int) -> int
    decreases k,
{
    if k <= 0 {
        0
    } else {
        cos_sum_to(s, k - 1) + cos_q30_spec(s[k - 1] as int)
    }
}

/// Raw x magnetization component: the sum of Q30 cosines over all sites.
pub open spec fn cos_sum(s: Seq<u32>) -> int {
    cos_sum_to(s, s.len() as int)
}

/// Sum of Q30 sines over the first `k` sites.
pub open spec fn sin_sum_to(s: Seq<u32>, k: int) -> int
    decreases k,
{
    if k <= 0 {
        0
    } else {
        sin_sum_to(s, k - 1) + sin_q30_spec(s[k - 1] as int)
    }
}

/// Raw y magnetization component: the sum of Q30 sines over all sites.
pub open spec fn sin_sum(s: Seq<u32>) -> int {
    sin_sum_to(s, s.len() as int)
}

/// The two bonds a site owns in the single-counting scheme: cosine of the
/// angle difference to its right neighbor and to its down neighbor.
pub open spec fn site_bond_spec(s: Seq<u32>, n: int, idx: int) -> int {
    cos_q30_spec(sub_ticks_spec(s[idx] as int, s[right_of_spec(n, idx)] as int)) + cos_q30_spec(
        sub_ticks_spec(s[idx] as int, s[down_of_spec(n, idx)] as int),
    )
}

/// Bond-cosine sum over the first `k` sites.
pub open spec fn bond_sum_to(s: Seq<u32>, n: int, k: int) -> int
    decreases k,
{
    if k <= 0 {
        0
    } else {
        bond_sum_to(s, n, k - 1) + site_bond_spec(s, n, k - 1)
    }
}

/// Total bond-cosine sum: every nearest-neighbor bond counted exactly once.
pub open spec fn bond_sum(s: Seq<u32>, n: int) -> int {
    bond_sum_to(s, n, n * n)
}

/// The quarter-wave sine lies in [0, Q30] on its whole domain.
pub proof fn lemma_sinq_bounds(x: int)
    requires
        0 <= x <= Q30,
    ensures
        0 <= sinq_spec(x) <= Q30,
{
    let t2 = qmul_spec(x, x);
    assert(0 <= t2 <= Q30) by (nonlinear_arith)
        requires
            0 <= x <= 0x4000_0000,
            t2 == (x * x) / 0x4000_0000,
    ;
    let u = qmul_spec(t2, crate::fxp::SIN_C3 as int);
    assert(0 <= u <= crate::fxp::SIN_C3) by (nonlinear_arith)
        requires
            0 <= t2 <= 0x4000_0000,
            u == (t2 * (crate::fxp::SIN_C3 as int)) / 0x4000_0000,
    ;
    let v = crate::fxp::SIN_C2 - u;
    let w = qmul_spec(t2, v);
    assert(0 <= w <= v) by (nonlinear_arith)
        requires
            0 <= t2 <= 0x4000_0000,
            0 <= v <= 0x4000_0000,
            w == (t2 * v) / 0x4000_0000,
    ;
    let y = crate::fxp::SIN_A1 - w;
    let z = qmul_spec(x, y);
    assert(0 <= z) by (nonlinear_arith)
        requires
            0 <= x,
            0 <= y,
            z == (x * y) / 0x4000_0000,
    ;
}

/// The sine of any tick angle lies in [-Q30, Q30].
pub proof fn lemma_sin_bounds(a: int)
    requires
        0 <= a < 0x1_0000_0000,
    ensures
        -(Q30 as int) <= sin_q30_spec(a) <= Q30,
{
    let q = a / 0x4000_0000;
    let x = a % 0x4000_0000;
    if q == 0 || q == 2 {
        lemma_sinq_bounds(x);
    } else {
        lemma_sinq_bounds(0x4000_0000 - x);
    }
}

/// The cosine of any tick angle lies in [-Q30, Q30].
pub proof fn lemma_cos_bounds(a: int)
    requires
        0 <= a < 0x1_0000_0000,
    ensures
        -(Q30 as int) <= cos_q30_spec(a) <= Q30,
{
    lemma_mod_bound(a + 0x4000_0000, 0x1_0000_0000);
    lemma_sin_bounds(add_ticks_spec(a, 0x4000_0000));
}

/// Each site's bond term lies in [-2*Q30, 2*Q30].
pub proof fn lemma_site_bond_bounds(s: Seq<u32>, n: int, idx: int)
    requires
        1 <= n,
        s.len() == n * n,
        0 <= idx < n * n,
    ensures
        -2 * (Q30 as int) <= site_bond_spec(s, n, idx) <= 2 * (Q30 as int),
{
    lemma_neighbors(n, idx);
    lemma_mod_bound(s[idx] + 0x1_0000_0000 - s[right_of_spec(n, idx)], 0x1_0000_0000);
    lemma_mod_bound(s[idx] + 0x1_0000_0000 - s[down_of_spec(n, idx)], 0x1_0000_0000);
    lemma_cos_bounds(sub_ticks_spec(s[idx] as int, s[right_of_spec(n, idx)] as int));
    lemma_cos_bounds(sub_ticks_spec(s[idx] as int, s[down_of_spec(n, idx)] as int));
}

/// The cosine sum over k sites is bounded by k*Q30 in magnitude.
pub proof fn lemma_cos_sum_to_bounds(s: Seq<u32>, k: int)
    requires
        0 <= k <= s.len(),
    ensures
        -k * (Q30 as int) <= cos_sum_to(s, k) <= k * (Q30 as int),
    decreases k,
{
    if k > 0 {
        lemma_cos_sum_to_bounds(s, k - 1);
        lemma_mod_bound(s[k - 1] + 0x4000_0000, 0x1_0000_0000);
        lemma_cos_bounds(s[k - 1] as int);
    }
}

/// The sine sum over k sites is bounded by k*Q30 in magnitude.
pub proof fn lemma_sin_sum_to_bounds(s: Seq<u32>, k: int)
    requires
        0 <= k <= s.len(),
    ensures
        -k * (Q30 as int) <= sin_sum_to(s, k) <= k * (Q30 as int),
    decreases k,
{
    if k > 0 {
        lemma_sin_sum_to_bounds(s, k - 1);
        lemma_sin_bounds(s[k - 1] as int);
    }
}

/// The bond sum over k sites is bounded by 2*k*Q30 in magnitude.
pub proof fn lemma_bond_sum_to_bounds(s: Seq<u32>, n: int, k: int)
    requires
        1 <= n,
        s.len() == n * n,
        0 <= k <= n * n,
    ensures
        -2 * k * (Q30 as int) <= bond_sum_to(s, n, k) <= 2 * k * (Q30 as int),
    decreases k,
{
    if k > 0 {
        lemma_bond_sum_to_bounds(s, n, k - 1);
        lemma_site_bond_bounds(s, n, k - 1);
    }
}

/// Changing one site shifts the cosine sum by exactly that site's change.
pub proof fn lemma_cos_sum_update(s: Seq<u32>, k: int, v: u32, m: int)
    requires
        0 <= k < s.len(),
        0 <= m <= s.len(),
    ensures
        cos_sum_to(s.update(k as int, v), m) == cos_sum_to(s, m) + if k < m {
            cos_q30_spec(v as int) - cos_q30_spec(s[k] as int)
        } else {
            0
        },
    decreases m,
{
    if m > 0 {
        lemma_cos_sum_update(s, k, v, m - 1);
    }
}

/// Changing one site shifts the sine sum by exactly that site's change.
pub proof fn lemma_sin_sum_update(s: Seq<u32>, k: int, v: u32, m: int)
    requires
        0 <= k < s.len(),
        0 <= m <= s.len(),
    ensures
        sin_sum_to(s.update(k as int, v), m) == sin_sum_to(s, m) + if k < m {
            sin_q30_spec(v as int) - sin_q30_spec(s[k] as int)
        } else {
            0
        },
    decreases m,
{
    if m > 0 {
        lemma_sin_sum_update(s, k, v, m - 1);
    }
}

/// A site whose own angle and both owned-bond neighbors are unaffected by a
/// single-site update keeps its bond term.
pub proof fn lemma_site_bond_unchanged(s: Seq<u32>, n: int, k: int, v: u32, i: int)
    requires
        1 <= n,
        s.len() == n * n,
        0 <= k < n * n,
        0 <= i < n * n,
        i != k,
        i != left_of_spec(n, k),
        i != up_of_spec(n, k),
    ensures
        site_bond_spec(s.update(k, v), n, i) == site_bond_spec(s, n, i),
{
    lemma_neighbors(n, i);
    lemma_neighbor_inverse(n, i, k);
}

/// The exact change of the total bond sum under a single-site update: only
/// the updated site and the sites owning a bond into it (its left and up
/// neighbors, deduplicated for degenerate small lattices) change their terms.
pub open spec fn bond_delta_spec(s: Seq<u32>, n: int, k: int, v: u32) -> int {
    let s2 = s.update(k, v);
    let l = left_of_spec(n, k);
    let u = up_of_spec(n, k);
    (site_bond_spec(s2, n, k) - site_bond_spec(s, n, k)) + (if l != k {
        site_bond_spec(s2, n, l) - site_bond_spec(s, n, l)
    } else {
        0
    }) + (if u != k && u != l {
        site_bond_spec(s2, n, u) - site_bond_spec(s, n, u)
    } else {
        0
    })
}

proof fn lemma_bond_sum_update_to(s: Seq<u32>, n: int, k: int, v: u32, m: int)
    requires
        1 <= n,
        s.len() == n * n,
        0 <= k < n * n,
        0 <= m <= n * n,
    ensures
        bond_sum_to(s.update(k, v), n, m) == bond_sum_to(s, n, m) + (if k < m {
            site_bond_spec(s.update(k, v), n, k) - site_bond_spec(s, n, k)
        } else {
            0
        }) + (if left_of_spec(n, k) != k && left_of_spec(n, k) < m {
            site_bond_spec(s.update(k, v), n, left_of_spec(n, k)) - site_bond_spec(
                s,
                n,
                left_of_spec(n, k),
            )
        } else {
            0
        }) + (if up_of_spec(n, k) != k && up_of_spec(n, k) != left_of_spec(n, k) && up_of_spec(
            n,
            k,
        ) < m {
            site_bond_spec(s.update(k, v), n, up_of_spec(n, k)) - site_bond_spec(
                s,
                n,
                up_of_spec(n, k),
            )
        } else {
            0
        }),
    decreases m,
{
    lemma_neighbors(n, k);
    if m > 0 {
        lemma_bond_sum_update_to(s, n, k, v, m - 1);
        let i = m - 1;
        if i != k && i != left_of_spec(n, k) && i != up_of_spec(n, k) {
            lemma_site_bond_unchanged(s, n, k, v, i);
        }
    }
}

/// How many entries of a boolean sequence are true; the termination measure
/// of the cluster flood fills.
pub open spec fn count_true(s: Seq<bool>) -> int
    decreases s.len(),
{
    if s.len() == 0 {
        0
    } else {
        count_true(s.drop_last()) + if s.last() {
            1int
        } else {
            0int
        }
    }
}

/// The true-count lies between zero and the length.
pub proof fn lemma_count_true_bounds(s: Seq<bool>)
    ensures
        0 <= count_true(s) <= s.len(),
    decreases s.len(),
{
    if s.len() > 0 {
        lemma_count_true_bounds(s.drop_last());
    }
}

/// Setting a false entry to true raises the true-count by exactly one.
pub proof fn lemma_count_true_set(s: Seq<bool>, i: int)
    requires
        0 <= i < s.len(),
        !s[i],
    ensures
        count_true(s.update(i, true)) == count_true(s) + 1,
    decreases s.len(),
{
    let t = s.update(i, true);
    if i == s.len() - 1 {
        assert(t.drop_last() =~= s.drop_last());
    } else {
        assert(t.drop_last() =~= s.drop_last().update(i, true));
        lemma_count_true_set(s.drop_last(), i);
    }
}

/// A side within `MAX_SIDE` keeps the site count within 2^24.
pub proof fn lemma_side_sq_bound(n: int)
    by (nonlinear_arith)
    requires
        1 <= n <= 4096,
    ensures
        1 <= n * n <= 16777216,
{
}

/// Right periodic neighbor of a flat index.
pub fn right_of(n: usize, idx: usize) -> (r: usize)
    requires
        1 <= n <= MAX_SIDE,
        idx < n * n,
    ensures
        r as int == right_of_spec(n as int, idx as int),
        r < n * n,
{
    proof {
        lemma_side_sq_bound(n as int);
        lemma_rowcol(n as int, idx as int);
        lemma_neighbors(n as int, idx as int);
        lemma_mod_cycle(idx as int % n as int, n as int);
        lemma_rowcol_converse(n as int, idx as int / n as int, (idx as int % n as int + 1) % n as int);
    }
    let row = idx / n;
    let col = idx % n;
    row * n + (col + 1) % n
}

/// Left periodic neighbor of a flat index.
pub fn left_of(n: usize, idx: usize) -> (r: usize)
    requires
        1 <= n <= MAX_SIDE,
        idx < n * n,
    ensures
        r as int == left_of_spec(n as int, idx as int),
        r < n * n,
{
    proof {
        lemma_side_sq_bound(n as int);
        lemma_rowcol(n as int, idx as int);
        lemma_neighbors(n as int, idx as int);
        lemma_mod_cycle(idx as int % n as int, n as int);
        lemma_rowcol_converse(
            n as int,
            idx as int / n as int,
            (idx as int % n as int + n as int - 1) % n as int,
        );
    }
    let row = idx / n;
    let col = idx % n;
    row * n + (col + n - 1) % n
}

/// Down periodic neighbor of a flat index.
pub fn down_of(n: usize, idx: usize) -> (r: usize)
    requires
        1 <= n <= MAX_SIDE,
        idx < n * n,
    ensures
        r as int == down_of_spec(n as int, idx as int),
        r < n * n,
{
    proof {
        lemma_side_sq_bound(n as int);
        lemma_rowcol(n as int, idx as int);
        lemma_neighbors(n as int, idx as int);
        lemma_mod_cycle(idx as int / n as int, n as int);
        lemma_rowcol_converse(n as int, (idx as int / n as int + 1) % n as int, idx as int % n as int);
    }
    let row = idx / n;
    let col = idx % n;
    ((row + 1) % n) * n + col
}

/// Up periodic neighbor of a flat index.
pub fn up_of(n: usize, idx: usize) -> (r: usize)
    requires
        1 <= n <= MAX_SIDE,
        idx < n * n,
    ensures
        r as int == up_of_spec(n as int, idx as int),
        r < n * n,
{
    proof {
        lemma_side_sq_bound(n as int);
        lemma_rowcol(n as int, idx as int);
        lemma_neighbors(n as int, idx as int);
        lemma_mod_cycle(idx as int / n as int, n as int);
        lemma_rowcol_converse(
            n as int,
            (idx as int / n as int + n as int - 1) % n as int,
            idx as int % n as int,
        );
    }
    let row = idx / n;
    let col = idx % n;
    ((row + n - 1) % n) * n + col
}

/// The total bond sum of a single-site update differs from the original by
/// exactly `bond_delta_spec`.
pub proof fn lemma_bond_sum_update(s: Seq<u32>, n: int, k: int, v: u32)
    requires
        1 <= n,
        s.len() == n * n,
        0 <= k < n * n,
    ensures
        bond_sum(s.update(k, v), n) == bond_sum(s, n) + bond_delta_spec(s, n, k, v),
{
    lemma_neighbors(n, k);
    lemma_bond_sum_update_to(s, n, k, v, n * n);
}

} // verus!
