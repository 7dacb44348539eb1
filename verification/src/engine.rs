//! The XY-model engine: lattice state, cached observables and counters.
//!
//! The engine owns the lattice (a flat vector of tick angles), the model
//! parameters (temperature, coupling and field, all Q30 fixed-point), the
//! PRNG stream and the acceptance counters. The well-formedness invariant
//! `wf` states that the three cached raw sums (bond cosines and the two
//! magnetization components) are *exactly* the sums recomputed from the
//! current lattice; every operation preserves it, so a resynchronization
//! provably changes nothing, and the energy and magnetization accessors are
//! provably equal to a from-scratch recomputation at all times.

use vstd::prelude::*;
use rand::rngs::SmallRng;
use vstd::arithmetic::div_mod::{lemma_fundamental_div_mod_converse, lemma_div_is_ordered_by_denominator};
use crate::fxp::{Q30, cos_q30, sin_q30, cos_q30_spec, sin_q30_spec, sub_ticks, sub_ticks_spec,
    exp_nq30, exp_nq30_spec, lemma_exp_at_zero, isqrt_u128, floor_sqrt, is_floor_sqrt,
    lemma_floor_sqrt_unique, EXP_CUT};
use crate::grid::{MAX_SIDE, bond_sum, cos_sum, sin_sum, bond_sum_to, cos_sum_to, sin_sum_to,
    site_bond_spec, bond_delta_spec, right_of_spec, down_of_spec, left_of_spec, up_of_spec,
    right_of, down_of, left_of, up_of, lemma_neighbors, lemma_side_sq_bound,
    lemma_bond_sum_to_bounds, lemma_cos_sum_to_bounds, lemma_sin_sum_to_bounds,
    lemma_site_bond_bounds, lemma_bond_sum_update, lemma_cos_sum_update, lemma_sin_sum_update,
    lemma_cos_bounds, lemma_sin_bounds};
use crate::rng::{rng_from_seed, rng_from_entropy, rng_below, rng_next_u32};

verus! {

/// Why construction was refused.
#[derive(Clone, Copy, Debug, PartialEq, Eq, Structural)]
pub enum ConfigError {
    /// The lattice side was zero.
    SideZero,
    /// The lattice side exceeded `MAX_SIDE`.
    SideTooLarge,
    /// The temperature was not a positive value.
    TemperatureNotPositive,
}

/// Truncating (toward zero) signed division.
pub open spec fn div_trunc(a: int, b: int) -> int {
    if a >= 0 {
        a / b
    } else {
        -((-a) / b)
    }
}

/// Per-spin energy in Q30: (-J * bond_sum - H * cos_sum) / (Q30 * n * n).
/// The raw sums are Q30-scaled, so the numerator is Q60-scaled and one Q30
/// factor cancels in the division.
pub open spec fn energy_q30_spec(s: Seq<u32>, n: int, j: int, h: int) -> int {
    div_trunc(-j * bond_sum(s, n) - h * cos_sum(s), 0x4000_0000 * (n * n))
}

/// Per-spin magnetization magnitude in Q30: the floor square root of the sum
/// of squared raw components, divided by the site count. The root of the
/// Q30-scaled components is itself Q30-scaled.
pub open spec fn mag_q30_spec(s: Seq<u32>, n: int) -> int {
    floor_sqrt(cos_sum(s) * cos_sum(s) + sin_sum(s) * sin_sum(s)) / (n * n)
}

/// The Metropolis acceptance decision on a lattice-level energy change `de`
/// (Q30), temperature `temp` (Q30) and uniform draw `u` in [0, Q30):
/// accept every non-increase; at positive temperature accept an increase
/// when the draw falls below exp(-de/T); at temperature zero (or below,
/// which only `set_temp` can produce) reject every increase, bypassing the
/// exponential entirely.
pub open spec fn accept_spec(de: int, temp: int, u: int) -> bool {
    de <= 0 || (temp > 0 && u < exp_nq30_spec((de * 0x4000_0000) / temp))
}

/// The lattice-level energy change (Q60 scale) of replacing site `k`'s angle
/// with `v`: the coupling times the exact bond-sum change plus the field
/// times the cosine-sum change, with the Hamiltonian's signs.
pub open spec fn attempt_de_q60_spec(s: Seq<u32>, n: int, j: int, h: int, k: int, v: u32) -> int {
    -j * bond_delta_spec(s, n, k, v) - h * (cos_q30_spec(v as int) - cos_q30_spec(s[k] as int))
}

/// The same energy change brought back to Q30 scale, truncated toward zero.
pub open spec fn attempt_de_q30_spec(s: Seq<u32>, n: int, j: int, h: int, k: int, v: u32) -> int {
    div_trunc(attempt_de_q60_spec(s, n, j, h, k, v), 0x4000_0000)
}

/// The Metropolis-Hastings simulation engine for the 2D XY model.
pub struct XY {
    n: usize,
    spins: Vec<u32>,
    temp: i64,
    j: i64,
    h: i64,
    accepted: u64,
    attempted: u64,
    rng: SmallRng,
    bond_acc: i64,
    mx_acc: i64,
    my_acc: i64,
}

impl XY {
    /// Lattice side length.
    pub closed spec fn side(self) -> int {
        self.n as int
    }

    /// The stored tick angles, row-major.
    pub closed spec fn angles(self) -> Seq<u32> {
        self.spins@
    }

    /// Temperature, Q30.
    pub closed spec fn temp_q(self) -> int {
        self.temp as int
    }

    /// Coupling J, Q30.
    pub closed spec fn coupling_q(self) -> int {
        self.j as int
    }

    /// External field H, Q30.
    pub closed spec fn field_q(self) -> int {
        self.h as int
    }

    /// Accepted-move counter.
    pub closed spec fn acc_count(self) -> int {
        self.accepted as int
    }

    /// Attempted-move counter.
    pub closed spec fn att_count(self) -> int {
        self.attempted as int
    }

    /// Well-formedness: a valid side, a full lattice, and cached raw sums
    /// that exactly equal a full recomputation from the current lattice.
    pub closed spec fn wf(self) -> bool {
        &&& 1 <= self.n <= MAX_SIDE
        &&& self.spins@.len() == (self.n as int) * (self.n as int)
        &&& self.bond_acc as int == bond_sum(self.spins@, self.n as int)
        &&& self.mx_acc as int == cos_sum(self.spins@)
        &&& self.my_acc as int == sin_sum(self.spins@)
    }

    /// Everything except the lattice, the counters and the PRNG position:
    /// side and parameters.
    pub open spec fn same_config(self, other: XY) -> bool {
        &&& self.side() == other.side()
        &&& self.temp_q() == other.temp_q()
        &&& self.coupling_q() == other.coupling_q()
        &&& self.field_q() == other.field_q()
    }
}

/// The shape of a well-formed engine, for external verified clients: a
/// positive side within `MAX_SIDE`, and exactly one stored angle per site.
pub proof fn lemma_wf_shape(e: XY)
    requires
        e.wf(),
    ensures
        1 <= e.side() <= MAX_SIDE as int,
        e.angles().len() == e.side() * e.side(),
{
}

/// Negation distributes over a product.
pub proof fn lemma_neg_mul(a: int, b: int)
    by (nonlinear_arith)
    ensures
        (-a) * b == -(a * b),
{
}

/// The product of two values is bounded by the product of their bounds.
pub proof fn lemma_mul_bounds(a: int, b: int, am: int, bm: int)
    by (nonlinear_arith)
    requires
        -am <= a <= am,
        -bm <= b <= bm,
        0 <= am,
        0 <= bm,
    ensures
        -(am * bm) <= a * b <= am * bm,
{
}

/// One site's two-bond term, read from the live lattice.
fn site_term(spins: &Vec<u32>, n: usize, idx: usize) -> (r: i64)
    requires
        1 <= n <= MAX_SIDE,
        spins@.len() == (n as int) * (n as int),
        idx < n * n,
    ensures
        r as int == site_bond_spec(spins@, n as int, idx as int),
        -2 * (Q30 as int) <= r as int <= 2 * (Q30 as int),
{
    proof {
        lemma_side_sq_bound(n as int);
        lemma_neighbors(n as int, idx as int);
    }
    let ri = right_of(n, idx);
    let di = down_of(n, idx);
    let a = spins[idx];
    let c1 = cos_q30(sub_ticks(a, spins[ri]));
    let c2 = cos_q30(sub_ticks(a, spins[di]));
    c1 + c2
}

/// The element of the lattice-with-one-substitution at `pos`.
fn get_sub(spins: &Vec<u32>, k: usize, v: u32, pos: usize) -> (r: u32)
    requires
        k < spins@.len(),
        pos < spins@.len(),
    ensures
        r == spins@.update(k as int, v)[pos as int],
{
    if pos == k {
        v
    } else {
        spins[pos]
    }
}

/// One site's two-bond term, read as if site `k` held `v`.
fn site_term_with(spins: &Vec<u32>, n: usize, k: usize, v: u32, idx: usize) -> (r: i64)
    requires
        1 <= n <= MAX_SIDE,
        spins@.len() == (n as int) * (n as int),
        k < n * n,
        idx < n * n,
    ensures
        r as int == site_bond_spec(spins@.update(k as int, v), n as int, idx as int),
        -2 * (Q30 as int) <= r as int <= 2 * (Q30 as int),
{
    proof {
        lemma_side_sq_bound(n as int);
        lemma_neighbors(n as int, idx as int);
        lemma_site_bond_bounds(spins@.update(k as int, v), n as int, idx as int);
    }
    let ri = right_of(n, idx);
    let di = down_of(n, idx);
    let a = get_sub(spins, k, v, idx);
    let c1 = cos_q30(sub_ticks(a, get_sub(spins, k, v, ri)));
    let c2 = cos_q30(sub_ticks(a, get_sub(spins, k, v, di)));
    c1 + c2
}

/// The exact bond-sum change of writing `v` into site `k`.
fn bond_delta(spins: &Vec<u32>, n: usize, k: usize, v: u32) -> (r: i64)
    requires
        1 <= n <= MAX_SIDE,
        spins@.len() == (n as int) * (n as int),
        k < n * n,
    ensures
        r as int == bond_delta_spec(spins@, n as int, k as int, v),
        -12 * (Q30 as int) <= r as int <= 12 * (Q30 as int),
{
    proof {
        lemma_side_sq_bound(n as int);
        lemma_neighbors(n as int, k as int);
    }
    let l = left_of(n, k);
    let u = up_of(n, k);
    let mut d: i64 = site_term_with(spins, n, k, v, k) - site_term(spins, n, k);
    if l != k {
        d = d + (site_term_with(spins, n, k, v, l) - site_term(spins, n, l));
    }
    if u != k && u != l {
        d = d + (site_term_with(spins, n, k, v, u) - site_term(spins, n, u));
    }
    d
}

/// Full recomputation of the bond-cosine sum.
fn compute_bond_sum(spins: &Vec<u32>, n: usize) -> (r: i64)
    requires
        1 <= n <= MAX_SIDE,
        spins@.len() == (n as int) * (n as int),
    ensures
        r as int == bond_sum(spins@, n as int),
{
    proof {
        lemma_side_sq_bound(n as int);
    }
    let total = n * n;
    let mut acc: i64 = 0;
    let mut i: usize = 0;
    while i < total
        invariant
            1 <= n <= MAX_SIDE,
            spins@.len() == (n as int) * (n as int),
            total == n * n,
            (n as int) * (n as int) <= 16777216,
            i <= total,
            acc as int == bond_sum_to(spins@, n as int, i as int),
        decreases total - i,
    {
        proof {
            lemma_bond_sum_to_bounds(spins@, n as int, i as int);
            lemma_site_bond_bounds(spins@, n as int, i as int);
        }
        acc = acc + site_term(spins, n, i);
        i = i + 1;
    }
    acc
}

/// Full recomputation of the raw magnetization components.
fn compute_mag_sums(spins: &Vec<u32>, n: usize) -> (r: (i64, i64))
    requires
        1 <= n <= MAX_SIDE,
        spins@.len() == (n as int) * (n as int),
    ensures
        r.0 as int == cos_sum(spins@),
        r.1 as int == sin_sum(spins@),
{
    proof {
        lemma_side_sq_bound(n as int);
    }
    let total = n * n;
    let mut cx: i64 = 0;
    let mut sy: i64 = 0;
    let mut i: usize = 0;
    while i < total
        invariant
            1 <= n <= MAX_SIDE,
            spins@.len() == (n as int) * (n as int),
            total == n * n,
            (n as int) * (n as int) <= 16777216,
            i <= total,
            cx as int == cos_sum_to(spins@, i as int),
            sy as int == sin_sum_to(spins@, i as int),
        decreases total - i,
    {
        proof {
            lemma_cos_sum_to_bounds(spins@, i as int);
            lemma_sin_sum_to_bounds(spins@, i as int);
            lemma_cos_bounds(spins@[i as int] as int);
            lemma_sin_bounds(spins@[i as int] as int);
        }
        cx = cx + cos_q30(spins[i]);
        sy = sy + sin_q30(spins[i]);
        i = i + 1;
    }
    (cx, sy)
}

impl XY {
    fn from_parts(n: usize, temp: i64, j: i64, h: i64, mut rng: SmallRng) -> (r: XY)
        requires
            1 <= n <= MAX_SIDE,
        ensures
            r.wf(),
            r.side() == n,
            r.temp_q() == temp,
            r.coupling_q() == j,
            r.field_q() == h,
            r.acc_count() == 0,
            r.att_count() == 0,
    {
        proof {
            lemma_side_sq_bound(n as int);
        }
        let total = n * n;
        let mut spins: Vec<u32> = Vec::new();
        let mut i: usize = 0;
        while i < total
            invariant
                i <= total,
                spins@.len() == i,
            decreases total - i,
        {
            spins.push(rng_next_u32(&mut rng));
            i = i + 1;
        }
        let bond_acc = compute_bond_sum(&spins, n);
        let (mx_acc, my_acc) = compute_mag_sums(&spins, n);
        XY { n, spins, temp, j, h, accepted: 0, attempted: 0, rng, bond_acc, mx_acc, my_acc }
    }

    /// Build an engine with a lattice of independently drawn random angles,
    /// seeding the PRNG from the operating system's entropy source (which,
    /// like every consumer of that source, aborts if the source fails).
    /// Construction fails exactly on a zero or oversized side or a
    /// non-positive temperature.
    pub fn new(n: usize, temp: i64, j: i64, h: i64) -> (r: Result<XY, ConfigError>)
        ensures
            n == 0 ==> r == Result::<XY, ConfigError>::Err(ConfigError::SideZero),
            n > MAX_SIDE ==> r == Result::<XY, ConfigError>::Err(ConfigError::SideTooLarge),
            1 <= n <= MAX_SIDE && temp <= 0 ==> r == Result::<XY, ConfigError>::Err(
                ConfigError::TemperatureNotPositive,
            ),
            1 <= n <= MAX_SIDE && temp > 0 ==> r is Ok && {
                let e = r->Ok_0;
                &&& e.wf()
                &&& e.side() == n
                &&& e.temp_q() == temp
                &&& e.coupling_q() == j
                &&& e.field_q() == h
                &&& e.acc_count() == 0
                &&& e.att_count() == 0
                &&& e.angles().len() == (n as int) * (n as int)
            },
    {
        if n == 0 {
            return Err(ConfigError::SideZero);
        }
        if n > MAX_SIDE {
            return Err(ConfigError::SideTooLarge);
        }
        if temp <= 0 {
            return Err(ConfigError::TemperatureNotPositive);
        }
        Ok(Self::from_parts(n, temp, j, h, rng_from_entropy()))
    }

    /// Build an engine as `new` does, but with the PRNG seeded from `seed`,
    /// for reproducible runs.
    pub fn new_seeded(n: usize, temp: i64, j: i64, h: i64, seed: u64) -> (r: Result<
        XY,
        ConfigError,
    >)
        ensures
            n == 0 ==> r == Result::<XY, ConfigError>::Err(ConfigError::SideZero),
            n > MAX_SIDE ==> r == Result::<XY, ConfigError>::Err(ConfigError::SideTooLarge),
            1 <= n <= MAX_SIDE && temp <= 0 ==> r == Result::<XY, ConfigError>::Err(
                ConfigError::TemperatureNotPositive,
            ),
            1 <= n <= MAX_SIDE && temp > 0 ==> r is Ok && {
                let e = r->Ok_0;
                &&& e.wf()
                &&& e.side() == n
                &&& e.temp_q() == temp
                &&& e.coupling_q() == j
                &&& e.field_q() == h
                &&& e.acc_count() == 0
                &&& e.att_count() == 0
                &&& e.angles().len() == (n as int) * (n as int)
            },
    {
        if n == 0 {
            return Err(ConfigError::SideZero);
        }
        if n > MAX_SIDE {
            return Err(ConfigError::SideTooLarge);
        }
        if temp <= 0 {
            return Err(ConfigError::TemperatureNotPositive);
        }
        Ok(Self::from_parts(n, temp, j, h, rng_from_seed(seed)))
    }

    /// Accepted-move counter.
    pub fn accepted(&self) -> (r: u64)
        ensures
            r as int == self.acc_count(),
    {
        self.accepted
    }

    /// Attempted-move counter.
    pub fn attempted(&self) -> (r: u64)
        ensures
            r as int == self.att_count(),
    {
        self.attempted
    }

    /// A copy of the stored tick angles, for external rendering; the engine's
    /// own lattice cannot be mutated through it.
    pub fn spins_snapshot(&self) -> (r: Vec<u32>)
        requires
            self.wf(),
        ensures
            r@ == self.angles(),
    {
        proof {
            lemma_side_sq_bound(self.n as int);
        }
        let total = self.n * self.n;
        let mut out: Vec<u32> = Vec::new();
        let mut i: usize = 0;
        while i < total
            invariant
                i <= total,
                total == self.spins@.len(),
                self.spins@.len() == (self.n as int) * (self.n as int),
                self.n * self.n == total,
                out@ == self.spins@.subrange(0, i as int),
            decreases total - i,
        {
            out.push(self.spins[i]);
            proof {
                assert(out@ =~= self.spins@.subrange(0, i + 1));
            }
            i = i + 1;
        }
        proof {
            assert(out@ =~= self.spins@);
        }
        out
    }

    /// Recompute the cached sums from the lattice and store them. Because
    /// the well-formedness invariant already ties the cache to the lattice
    /// exactly, this provably changes nothing: the cached observables always
    /// match a full recomputation.
    pub fn resync(&mut self)
        requires
            old(self).wf(),
        ensures
            final(self).wf(),
            final(self).angles() == old(self).angles(),
            final(self).same_config(*old(self)),
            final(self).acc_count() == old(self).acc_count(),
            final(self).att_count() == old(self).att_count(),
    {
        self.sync_caches();
    }

    /// Recompute and store the cached sums; establishes well-formedness from
    /// the lattice alone, whatever the caches held before.
    fn sync_caches(&mut self)
        requires
            1 <= old(self).n <= MAX_SIDE,
            old(self).spins@.len() == (old(self).n as int) * (old(self).n as int),
        ensures
            final(self).wf(),
            final(self).spins@ == old(self).spins@,
            final(self).n == old(self).n,
            final(self).temp == old(self).temp,
            final(self).j == old(self).j,
            final(self).h == old(self).h,
            final(self).accepted == old(self).accepted,
            final(self).attempted == old(self).attempted,
    {
        let bond_acc = compute_bond_sum(&self.spins, self.n);
        let (mx_acc, my_acc) = compute_mag_sums(&self.spins, self.n);
        self.bond_acc = bond_acc;
        self.mx_acc = mx_acc;
        self.my_acc = my_acc;
    }

    /// Set the temperature. Only future acceptance tests are affected, so no
    /// recomputation is needed.
    pub fn set_temp(&mut self, temp: i64)
        requires
            old(self).wf(),
        ensures
            final(self).wf(),
            final(self).temp_q() == temp,
            final(self).angles() == old(self).angles(),
            final(self).side() == old(self).side(),
            final(self).coupling_q() == old(self).coupling_q(),
            final(self).field_q() == old(self).field_q(),
            final(self).acc_count() == old(self).acc_count(),
            final(self).att_count() == old(self).att_count(),
    {
        self.temp = temp;
    }

    /// Set the coupling J. The parameter changes the Hamiltonian, so the
    /// cached energy data is fully recomputed.
    pub fn set_j(&mut self, j: i64)
        requires
            old(self).wf(),
        ensures
            final(self).wf(),
            final(self).coupling_q() == j,
            final(self).angles() == old(self).angles(),
            final(self).side() == old(self).side(),
            final(self).temp_q() == old(self).temp_q(),
            final(self).field_q() == old(self).field_q(),
            final(self).acc_count() == old(self).acc_count(),
            final(self).att_count() == old(self).att_count(),
    {
        self.j = j;
        self.resync();
    }

    /// Set the external field H. The parameter changes the Hamiltonian, so
    /// the cached energy data is fully recomputed.
    pub fn set_h(&mut self, h: i64)
        requires
            old(self).wf(),
        ensures
            final(self).wf(),
            final(self).field_q() == h,
            final(self).angles() == old(self).angles(),
            final(self).side() == old(self).side(),
            final(self).temp_q() == old(self).temp_q(),
            final(self).coupling_q() == old(self).coupling_q(),
            final(self).acc_count() == old(self).acc_count(),
            final(self).att_count() == old(self).att_count(),
    {
        self.h = h;
        self.resync();
    }

    /// Per-spin energy in Q30, assembled from the cached raw sums; provably
    /// equal to a full recomputation from the current lattice and the
    /// current parameters.
    pub fn energy(&self) -> (r: i128)
        requires
            self.wf(),
        ensures
            r as int == energy_q30_spec(
                self.angles(),
                self.side(),
                self.coupling_q(),
                self.field_q(),
            ),
    {
        proof {
            lemma_side_sq_bound(self.n as int);
            lemma_bond_sum_to_bounds(self.spins@, self.n as int, (self.n as int) * (self.n as int));
            lemma_cos_sum_to_bounds(self.spins@, self.spins@.len() as int);
            lemma_mul_bounds(
                self.j as int,
                self.bond_acc as int,
                0x8000_0000_0000_0000,
                0x80_0000_0000_0000,
            );
            lemma_mul_bounds(
                self.h as int,
                self.mx_acc as int,
                0x8000_0000_0000_0000,
                0x40_0000_0000_0000,
            );
        }
        let pj: i128 = (self.j as i128) * (self.bond_acc as i128);
        let ph: i128 = (self.h as i128) * (self.mx_acc as i128);
        let num: i128 = -pj - ph;
        proof {
            lemma_neg_mul(self.j as int, self.bond_acc as int);
            assert(num as int == -(self.coupling_q()) * bond_sum(self.spins@, self.n as int)
                - self.field_q() * cos_sum(self.spins@));
        }
        let den: u128 = (Q30 as u128) * ((self.n * self.n) as u128);
        let mag: u128 = if num >= 0 {
            num as u128
        } else {
            (-num) as u128
        };
        proof {
            lemma_div_is_ordered_by_denominator(mag as int, 1, den as int);
        }
        let q: i128 = (mag / den) as i128;
        if num >= 0 {
            q
        } else {
            -q
        }
    }

    /// Per-spin magnetization magnitude in Q30: exactly the floor square
    /// root of the sum of squared cached components, divided by the site
    /// count, and provably equal to the same quantity recomputed from the
    /// lattice.
    pub fn magnetization(&self) -> (r: u64)
        requires
            self.wf(),
        ensures
            r as int == mag_q30_spec(self.angles(), self.side()),
    {
        proof {
            lemma_side_sq_bound(self.n as int);
            lemma_cos_sum_to_bounds(self.spins@, self.spins@.len() as int);
            lemma_sin_sum_to_bounds(self.spins@, self.spins@.len() as int);
        }
        let mxa: u128 = if self.mx_acc >= 0 {
            self.mx_acc as u128
        } else {
            (-self.mx_acc) as u128
        };
        let mya: u128 = if self.my_acc >= 0 {
            self.my_acc as u128
        } else {
            (-self.my_acc) as u128
        };
        proof {
            lemma_mul_bounds(mxa as int, mxa as int, 0x40_0000_0000_0000, 0x40_0000_0000_0000);
            lemma_mul_bounds(mya as int, mya as int, 0x40_0000_0000_0000, 0x40_0000_0000_0000);
            assert((mxa as int) * (mxa as int) == (self.mx_acc as int) * (self.mx_acc as int))
                by (nonlinear_arith)
                requires
                    mxa as int == self.mx_acc as int || mxa as int == -(self.mx_acc as int),
            ;
            assert((mya as int) * (mya as int) == (self.my_acc as int) * (self.my_acc as int))
                by (nonlinear_arith)
                requires
                    mya as int == self.my_acc as int || mya as int == -(self.my_acc as int),
            ;
        }
        let s: u128 = mxa * mxa + mya * mya;
        let root = isqrt_u128(s);
        proof {
            assert(root as int <= 0x100_0000_0000_0000) by (nonlinear_arith)
                requires
                    (root as int) * (root as int) <= s as int,
                    s as int <= 2 * 0x40_0000_0000_0000 * 0x40_0000_0000_0000,
            ;
            lemma_div_is_ordered_by_denominator(root as int, 1, (self.n as int) * (self.n as int));
        }
        let nn: u128 = (self.n * self.n) as u128;
        (root / nn) as u64
    }

    /// Reset the acceptance statistics and resynchronize the observables;
    /// the lattice itself is untouched.
    pub fn reset_data(&mut self)
        requires
            old(self).wf(),
        ensures
            final(self).wf(),
            final(self).acc_count() == 0,
            final(self).att_count() == old(self).att_count(),
            final(self).angles() == old(self).angles(),
            final(self).same_config(*old(self)),
    {
        self.accepted = 0;
        self.resync();
    }
}

/// The x component of a site's local field: the external field H plus the
/// four periodic neighbor cosines, Q30.
pub open spec fn local_hx_spec(s: Seq<u32>, n: int, h: int, idx: int) -> int {
    h + cos_q30_spec(s[up_of_spec(n, idx)] as int) + cos_q30_spec(s[down_of_spec(n, idx)] as int)
        + cos_q30_spec(s[left_of_spec(n, idx)] as int) + cos_q30_spec(
        s[right_of_spec(n, idx)] as int,
    )
}

/// The y component of a site's local field: the four periodic neighbor
/// sines, Q30.
pub open spec fn local_hy_spec(s: Seq<u32>, n: int, idx: int) -> int {
    sin_q30_spec(s[up_of_spec(n, idx)] as int) + sin_q30_spec(s[down_of_spec(n, idx)] as int)
        + sin_q30_spec(s[left_of_spec(n, idx)] as int) + sin_q30_spec(
        s[right_of_spec(n, idx)] as int,
    )
}

/// The overrelaxation update of one site: its spin reflected across the
/// direction of its instantaneous local field.
#[verifier::opaque]
pub open spec fn overrelax_site_spec(s: Seq<u32>, n: int, h: int, idx: int) -> int {
    crate::fxp::reflect_axis_spec(
        s[idx] as int,
        crate::fxp::atan2_ticks_spec(local_hy_spec(s, n, idx), local_hx_spec(s, n, h, idx)),
    )
}

/// The deterministic overrelaxation raster sweep applied to the first `k`
/// sites. Each site reads the live, partially updated lattice: the update is
/// sequential, not synchronous, which is why the sweep is a fold and not a
/// map (a synchronous sweep would need a double buffer).
pub open spec fn overrelax_prefix_spec(s: Seq<u32>, n: int, h: int, k: int) -> Seq<u32>
    decreases k,
{
    if k <= 0 {
        s
    } else {
        let prev = overrelax_prefix_spec(s, n, h, k - 1);
        prev.update(k - 1, overrelax_site_spec(prev, n, h, k - 1) as u32)
    }
}

/// The sweep preserves the lattice length.
#[verifier::rlimit(100)]
pub proof fn lemma_overrelax_prefix_len(s: Seq<u32>, n: int, h: int, k: int)
    requires
        k <= s.len(),
    ensures
        overrelax_prefix_spec(s, n, h, k).len() == s.len(),
    decreases k,
{
    if k > 0 {
        lemma_overrelax_prefix_len(s, n, h, k - 1);
    }
}

impl XY {
    /// One overrelaxation sweep: deterministic, rejection-free, no
    /// randomness. Every site in raster order is reflected across its local
    /// field direction (neighbors plus the external field along +x), which
    /// conserves its alignment energy with that instantaneous field. The
    /// counters are untouched; the observables are fully resynchronized
    /// afterward, since the sequential sweep leaves any incremental cache
    /// stale.
    pub fn overrelaxation_step(&mut self)
        requires
            old(self).wf(),
        ensures
            final(self).wf(),
            final(self).same_config(*old(self)),
            final(self).att_count() == old(self).att_count(),
            final(self).acc_count() == old(self).acc_count(),
            final(self).angles() == overrelax_prefix_spec(
                old(self).angles(),
                old(self).side(),
                old(self).field_q(),
                old(self).side() * old(self).side(),
            ),
    {
        proof {
            lemma_side_sq_bound(self.n as int);
        }
        let n = self.n;
        let h = self.h;
        let total = n * n;
        let mut i: usize = 0;
        while i < total
            invariant
                1 <= n <= MAX_SIDE,
                n == self.side(),
                self.same_config(*old(self)),
                h == self.h,
                h as int == old(self).field_q(),
                total == n * n,
                (n as int) * (n as int) <= 16777216,
                i <= total,
                old(self).angles().len() == (n as int) * (n as int),
                self.spins@.len() == (n as int) * (n as int),
                self.spins@ == overrelax_prefix_spec(
                    old(self).angles(),
                    n as int,
                    h as int,
                    i as int,
                ),
                self.att_count() == old(self).att_count(),
                self.acc_count() == old(self).acc_count(),
            decreases total - i,
        {
            let ui = up_of(n, i);
            let di = down_of(n, i);
            let li = left_of(n, i);
            let ri = right_of(n, i);
            let hx: i128 = h as i128 + cos_q30(self.spins[ui]) as i128 + cos_q30(
                self.spins[di],
            ) as i128 + cos_q30(self.spins[li]) as i128 + cos_q30(self.spins[ri]) as i128;
            let hy: i128 = sin_q30(self.spins[ui]) as i128 + sin_q30(self.spins[di]) as i128
                + sin_q30(self.spins[li]) as i128 + sin_q30(self.spins[ri]) as i128;
            let axis = crate::fxp::atan2_ticks(hy, hx);
            let theta = self.spins[i];
            let newv = crate::fxp::reflect_axis(theta, axis);
            self.spins[i] = newv;
            proof {
                reveal(overrelax_site_spec);
                let prev = overrelax_prefix_spec(old(self).angles(), n as int, h as int, i as int);
                vstd::arithmetic::div_mod::lemma_mod_bound(
                    crate::fxp::add_ticks_spec(axis as int, axis as int) + 0x1_0000_0000
                        - theta as int,
                    0x1_0000_0000,
                );
                assert(newv as int == overrelax_site_spec(prev, n as int, h as int, i as int));
                assert(self.spins@ =~= overrelax_prefix_spec(
                    old(self).angles(),
                    n as int,
                    h as int,
                    i + 1,
                ));
            }
            i = i + 1;
        }
        self.sync_caches();
    }
}

/// Decide Metropolis acceptance from the Q30 energy change `de`, the Q30
/// temperature and a uniform draw `u` in [0, Q30).
pub fn metro_accept(de: i128, temp: i64, u: u64) -> (r: bool)
    requires
        u < Q30,
        -0x1_0000_0000_0000_0000_0000_0000 <= de <= 0x1_0000_0000_0000_0000_0000_0000,
    ensures
        r == accept_spec(de as int, temp as int, u as int),
{
    if de <= 0 {
        return true;
    }
    if temp <= 0 {
        return false;
    }
    proof {
        assert((de as u128) * (Q30 as u128) <= 0x1_0000_0000_0000_0000_0000_0000 * 0x4000_0000)
            by (nonlinear_arith)
            requires
                de as u128 <= 0x1_0000_0000_0000_0000_0000_0000,
        ;
    }
    let num: u128 = (de as u128) * (Q30 as u128);
    let ratio: u128 = num / (temp as u128);
    let e = exp_nq30(ratio);
    u < e
}

/// At zero temperature (and below, which only `set_temp` can produce) the
/// Metropolis rule accepts exactly the moves that do not increase the
/// energy; the exponential is bypassed entirely.
pub proof fn lemma_zero_temperature(de: int, temp: int, u: int)
    requires
        temp <= 0,
    ensures
        accept_spec(de, temp, u) == (de <= 0),
{
}

/// The high-temperature limit: once the temperature dominates the energy
/// change (de * Q30 < T), the acceptance probability is exactly one and
/// every move is accepted, whatever the draw.
pub proof fn lemma_high_temperature(de: int, temp: int, u: int)
    requires
        0 <= de,
        temp > 0,
        de * 0x4000_0000 < temp,
        0 <= u < Q30,
    ensures
        accept_spec(de, temp, u),
{
    lemma_fundamental_div_mod_converse(de * 0x4000_0000, temp, 0, de * 0x4000_0000);
    lemma_exp_at_zero();
}

/// The low-temperature limit: once an energy increase reaches 32
/// temperatures, the acceptance probability is exactly zero and the move is
/// rejected, whatever the draw.
pub proof fn lemma_low_temperature(de: int, temp: int, u: int)
    requires
        temp > 0,
        de >= 32 * temp,
        0 <= u,
    ensures
        !accept_spec(de, temp, u),
{
    assert(de * 0x4000_0000 >= (32 * 0x4000_0000) * temp) by (nonlinear_arith)
        requires
            de >= 32 * temp,
            temp > 0,
    ;
    assert(((32 * 0x4000_0000) * temp) / temp == 32 * 0x4000_0000) by {
        vstd::arithmetic::div_mod::lemma_div_by_multiple(32int * 0x4000_0000, temp);
    }
    vstd::arithmetic::div_mod::lemma_div_is_ordered(
        (32 * 0x4000_0000) * temp,
        de * 0x4000_0000,
        temp,
    );
    assert((de * 0x4000_0000) / temp >= EXP_CUT);
    assert(de > 0) by (nonlinear_arith)
        requires
            de >= 32 * temp,
            temp > 0,
    ;
}

/// The exact Q30 energy change of writing `v` into site `k`, together with
/// the exact raw-sum deltas that realize it.
#[verifier::rlimit(100)]
fn compute_attempt_de(spins: &Vec<u32>, n: usize, j: i64, h: i64, k: usize, v: u32) -> (r: (
    i128,
    i64,
    i64,
    i64,
))
    requires
        1 <= n <= MAX_SIDE,
        spins@.len() == (n as int) * (n as int),
        k < n * n,
    ensures
        r.0 as int == attempt_de_q30_spec(spins@, n as int, j as int, h as int, k as int, v),
        r.1 as int == bond_delta_spec(spins@, n as int, k as int, v),
        r.2 as int == cos_q30_spec(v as int) - cos_q30_spec(spins@[k as int] as int),
        r.3 as int == sin_q30_spec(v as int) - sin_q30_spec(spins@[k as int] as int),
        -0x1_0000_0000_0000_0000_0000_0000 <= r.0 <= 0x1_0000_0000_0000_0000_0000_0000,
{
    proof {
        lemma_side_sq_bound(n as int);
    }
    let db = bond_delta(spins, n, k, v);
    let theta_old = spins[k];
    let dmx = cos_q30(v) - cos_q30(theta_old);
    let dmy = sin_q30(v) - sin_q30(theta_old);
    proof {
        lemma_mul_bounds(j as int, db as int, 0x8000_0000_0000_0000, 12int * 0x4000_0000);
        lemma_mul_bounds(h as int, dmx as int, 0x8000_0000_0000_0000, 2int * 0x4000_0000);
    }
    let pj: i128 = (j as i128) * (db as i128);
    let ph: i128 = (h as i128) * (dmx as i128);
    let num: i128 = -pj - ph;
    proof {
        lemma_neg_mul(j as int, db as int);
        assert(num as int == attempt_de_q60_spec(
            spins@,
            n as int,
            j as int,
            h as int,
            k as int,
            v,
        ));
    }
    let mag: u128 = if num >= 0 {
        num as u128
    } else {
        (-num) as u128
    };
    proof {
        lemma_div_is_ordered_by_denominator(mag as int, 1, Q30 as int);
    }
    let q: i128 = (mag / (Q30 as u128)) as i128;
    let de: i128 = if num >= 0 {
        q
    } else {
        -q
    };
    (de, db, dmx, dmy)
}

impl XY {
    /// One Metropolis single-site attempt, fully determined by the chosen
    /// site, the proposed angle and the uniform draw `u`: the exact energy
    /// change is computed from the cached-sum deltas, the Metropolis rule
    /// decides, and on acceptance the angle is written and the cached sums
    /// are shifted by exactly their recomputed change. The attempt counter
    /// is not touched here; `metropolis_step` accounts a full sweep at once.
    #[verifier::rlimit(100)]
    pub fn metropolis_attempt(&mut self, site: usize, proposal: u32, u: u64)
        requires
            old(self).wf(),
            (site as int) < old(self).side() * old(self).side(),
            u < Q30,
            old(self).acc_count() < 0xFFFF_FFFF_FFFF_FFFF,
        ensures
            final(self).wf(),
            final(self).same_config(*old(self)),
            final(self).att_count() == old(self).att_count(),
            final(self).angles().len() == old(self).angles().len(),
            ({
                let de = attempt_de_q30_spec(
                    old(self).angles(),
                    old(self).side(),
                    old(self).coupling_q(),
                    old(self).field_q(),
                    site as int,
                    proposal,
                );
                if accept_spec(de, old(self).temp_q(), u as int) {
                    final(self).angles() == old(self).angles().update(site as int, proposal)
                        && final(self).acc_count() == old(self).acc_count() + 1
                } else {
                    final(self).angles() == old(self).angles() && final(self).acc_count() == old(
                        self,
                    ).acc_count()
                }
            }),
    {
        proof {
            lemma_side_sq_bound(self.n as int);
        }
        let (de, db, dmx, dmy) = compute_attempt_de(
            &self.spins,
            self.n,
            self.j,
            self.h,
            site,
            proposal,
        );
        if metro_accept(de, self.temp, u) {
            proof {
                let s0 = self.spins@;
                let nn = (self.n as int) * (self.n as int);
                lemma_bond_sum_update(s0, self.n as int, site as int, proposal);
                lemma_cos_sum_update(s0, site as int, proposal, s0.len() as int);
                lemma_sin_sum_update(s0, site as int, proposal, s0.len() as int);
                lemma_bond_sum_to_bounds(s0, self.n as int, nn);
                lemma_cos_sum_to_bounds(s0, s0.len() as int);
                lemma_sin_sum_to_bounds(s0, s0.len() as int);
                lemma_bond_sum_to_bounds(s0.update(site as int, proposal), self.n as int, nn);
                lemma_cos_sum_to_bounds(s0.update(site as int, proposal), s0.len() as int);
                lemma_sin_sum_to_bounds(s0.update(site as int, proposal), s0.len() as int);
            }
            let nb = self.bond_acc + db;
            let nmx = self.mx_acc + dmx;
            let nmy = self.my_acc + dmy;
            self.spins[site] = proposal;
            self.bond_acc = nb;
            self.mx_acc = nmx;
            self.my_acc = nmy;
            self.accepted = self.accepted + 1;
        }
    }

    /// One Metropolis sweep: exactly side*side independent attempts at
    /// uniformly random sites (with replacement, not raster order), each
    /// proposing a fully independent random angle. The attempt counter grows
    /// by exactly side*side whatever the per-attempt outcomes; the accepted
    /// counter grows by at most that.
    pub fn metropolis_step(&mut self)
        requires
            old(self).wf(),
            old(self).att_count() + old(self).side() * old(self).side() <= 0xFFFF_FFFF_FFFF_FFFF,
            old(self).acc_count() + old(self).side() * old(self).side() <= 0xFFFF_FFFF_FFFF_FFFF,
        ensures
            final(self).wf(),
            final(self).same_config(*old(self)),
            final(self).att_count() == old(self).att_count() + old(self).side() * old(self).side(),
            old(self).acc_count() <= final(self).acc_count(),
            final(self).acc_count() <= old(self).acc_count() + old(self).side() * old(self).side(),
            final(self).angles().len() == old(self).angles().len(),
    {
        proof {
            lemma_side_sq_bound(self.n as int);
        }
        let n = self.n;
        let total = n * n;
        self.attempted = self.attempted + total as u64;
        let mut t: usize = 0;
        while t < total
            invariant
                self.wf(),
                self.same_config(*old(self)),
                self.side() == old(self).side(),
                1 <= n <= MAX_SIDE,
                n == self.side(),
                total == n * n,
                (n as int) * (n as int) <= 16777216,
                t <= total,
                self.att_count() == old(self).att_count() + total,
                old(self).acc_count() <= self.acc_count(),
                self.acc_count() <= old(self).acc_count() + t,
                old(self).acc_count() + total <= 0xFFFF_FFFF_FFFF_FFFF,
            decreases total - t,
        {
            let i = rng_below(&mut self.rng, n as u64) as usize;
            let jj = rng_below(&mut self.rng, n as u64) as usize;
            proof {
                crate::grid::lemma_rowcol_converse(n as int, i as int, jj as int);
            }
            let site = i * n + jj;
            let proposal = rng_next_u32(&mut self.rng);
            let u = rng_below(&mut self.rng, Q30);
            self.metropolis_attempt(site, proposal, u);
            t = t + 1;
        }
    }

    /// One Metropolis reflection sweep: a single random reflection axis is
    /// drawn for the whole call; every site, in raster order, proposes its
    /// reflection across that axis and is accepted per-site by the same
    /// Metropolis rule, against the live (sequentially updated) neighbors.
    /// Only the accepted counter moves, as each site's proposal is the
    /// deterministic reflection rather than an independent attempt.
    #[verifier::rlimit(100)]
    pub fn metropolis_reflection_step(&mut self)
        requires
            old(self).wf(),
            old(self).acc_count() + old(self).side() * old(self).side() <= 0xFFFF_FFFF_FFFF_FFFF,
        ensures
            final(self).wf(),
            final(self).same_config(*old(self)),
            final(self).att_count() == old(self).att_count(),
            old(self).acc_count() <= final(self).acc_count(),
            final(self).acc_count() <= old(self).acc_count() + old(self).side() * old(self).side(),
            final(self).angles().len() == old(self).angles().len(),
            exists|phi: u32| #[trigger] axis_reflected_subset(
                final(self).angles(),
                old(self).angles(),
                phi,
            ),
    {
        proof {
            lemma_side_sq_bound(self.n as int);
        }
        let n = self.n;
        let total = n * n;
        let phi = rng_next_u32(&mut self.rng);
        let mut idx: usize = 0;
        while idx < total
            invariant
                self.wf(),
                self.same_config(*old(self)),
                1 <= n <= MAX_SIDE,
                n == self.side(),
                total == n * n,
                (n as int) * (n as int) <= 16777216,
                idx <= total,
                old(self).angles().len() == (n as int) * (n as int),
                self.att_count() == old(self).att_count(),
                old(self).acc_count() <= self.acc_count(),
                self.acc_count() <= old(self).acc_count() + idx,
                old(self).acc_count() + total <= 0xFFFF_FFFF_FFFF_FFFF,
                forall|t: int|
                    idx <= t < total ==> (#[trigger] self.angles()[t]) == old(self).angles()[t],
                forall|t: int|
                    0 <= t < idx ==> (#[trigger] self.angles()[t]) == old(self).angles()[t]
                        || self.angles()[t] as int == crate::fxp::reflect_axis_spec(
                        old(self).angles()[t] as int,
                        phi as int,
                    ),
            decreases total - idx,
        {
            let theta = self.spins[idx];
            let prop = crate::fxp::reflect_axis(theta, phi);
            proof {
                assert(self.angles()[idx as int] == old(self).angles()[idx as int]);
                assert(prop as int == crate::fxp::reflect_axis_spec(
                    old(self).angles()[idx as int] as int,
                    phi as int,
                ));
            }
            let ghost prev = self.angles();
            let u = rng_below(&mut self.rng, Q30);
            self.metropolis_attempt(idx, prop, u);
            proof {
                assert forall|t: int| idx + 1 <= t < total implies (#[trigger] self.angles()[t])
                    == old(self).angles()[t] by {
                    assert(self.angles()[t] == prev[t]);
                }
                assert forall|t: int| 0 <= t < idx + 1 implies (#[trigger] self.angles()[t])
                    == old(self).angles()[t] || self.angles()[t] as int
                    == crate::fxp::reflect_axis_spec(
                    old(self).angles()[t] as int,
                    phi as int,
                ) by {
                    if t < idx {
                        assert(self.angles()[t] == prev[t]);
                    }
                }
            }
            idx = idx + 1;
        }
        proof {
            assert(axis_reflected_subset(self.angles(), old(self).angles(), phi));
        }
    }
}

/// The Q30 probability of keeping a bond between two sites whose pre-move
/// angles have axis-projections `ci` and `cj` (Q30 cosines of phi - theta):
/// 1 - exp(min(0, -(2J/T) ci cj)). At non-positive temperature the zero-
/// temperature limit is taken: probability one when the product term is
/// positive, zero otherwise, bypassing the exponential. The external field
/// plays no part here: both cluster algorithms deliberately omit it from the
/// bond probability.
pub open spec fn bond_threshold_spec(j: int, temp: int, ci: int, cj: int) -> int {
    let num = 2 * j * ci * cj;
    if temp > 0 {
        if num > 0 {
            0x4000_0000 - exp_nq30_spec(num / (0x4000_0000 * temp))
        } else {
            0
        }
    } else {
        if num > 0 {
            0x4000_0000
        } else {
            0
        }
    }
}

/// The bond-keep threshold, against which a uniform draw in [0, Q30) is
/// compared.
fn bond_threshold(j: i64, temp: i64, ci: i64, cj: i64) -> (r: u64)
    requires
        -(Q30 as i64) <= ci <= Q30 as i64,
        -(Q30 as i64) <= cj <= Q30 as i64,
    ensures
        r as int == bond_threshold_spec(j as int, temp as int, ci as int, cj as int),
        r <= Q30,
{
    proof {
        lemma_mul_bounds(ci as int, cj as int, 0x4000_0000, 0x4000_0000);
        lemma_mul_bounds(
            2 * (j as int),
            (ci as int) * (cj as int),
            0x1_0000_0000_0000_0000,
            0x4000_0000int * 0x4000_0000,
        );
        assert((2 * (j as int)) * ((ci as int) * (cj as int)) == 2 * (j as int) * (ci as int) * (
        cj as int)) by (nonlinear_arith);
    }
    let a: i128 = (ci as i128) * (cj as i128);
    let b: i128 = 2 * (j as i128);
    let num: i128 = b * a;
    if temp > 0 {
        if num > 0 {
            let den: i128 = (Q30 as i128) * (temp as i128);
            proof {
                assert(den > 0) by (nonlinear_arith)
                    requires
                        den == 0x4000_0000 * (temp as int),
                        temp > 0,
                ;
            }
            let m: u128 = (num as u128) / (den as u128);
            Q30 - exp_nq30(m)
        } else {
            0
        }
    } else {
        if num > 0 {
            Q30
        } else {
            0
        }
    }
}

/// Every site either keeps its angle or is reflected across the axis `phi`:
/// what any single cluster move does to the lattice.
pub open spec fn reflected_subset(new_s: Seq<u32>, old_s: Seq<u32>, phi: u32) -> bool {
    new_s.len() == old_s.len() && forall|i: int|
        0 <= i < new_s.len() ==> new_s[i] == old_s[i] || new_s[i] as int
            == #[trigger] crate::fxp::reflect_cluster_spec(old_s[i] as int, phi as int)
}

/// Every site either keeps its angle or carries the axis reflection
/// 2*phi - theta of its pre-sweep angle: what a reflection sweep does to the
/// lattice. The per-site reflection reads the live lattice, but a site's own
/// angle is unread before its raster visit, so the reflected value is that
/// of the pre-sweep angle exactly.
pub open spec fn axis_reflected_subset(new_s: Seq<u32>, old_s: Seq<u32>, phi: u32) -> bool {
    new_s.len() == old_s.len() && forall|i: int|
        0 <= i < new_s.len() ==> new_s[i] == old_s[i] || new_s[i] as int
            == #[trigger] crate::fxp::reflect_axis_spec(old_s[i] as int, phi as int)
}

/// The cluster-growth state: every visited site has been reflected exactly
/// once from its pre-move angle, every unvisited site is untouched.
pub open spec fn cluster_state_ok(s: Seq<u32>, orig: Seq<u32>, visited: Seq<bool>, phi: u32) -> bool {
    &&& s.len() == orig.len()
    &&& visited.len() == orig.len()
    &&& forall|i: int|
        0 <= i < orig.len() ==> (if visited[i] {
            (#[trigger] s[i]) as int == crate::fxp::reflect_cluster_spec(
                orig[i] as int,
                phi as int,
            )
        } else {
            s[i] == orig[i]
        })
}

impl XY {
    /// Consider admitting the neighbor `nb` of an in-cluster site with
    /// axis-projection `ci` into the Wolff cluster: if it is unvisited, draw
    /// once and admit it with the bond-keep probability computed from the
    /// pre-move angles; on admission it is marked, recorded and reflected
    /// immediately.
    fn wolff_try_add(
        &mut self,
        visited: &mut Vec<bool>,
        cluster: &mut Vec<usize>,
        orig: &Vec<u32>,
        phi: u32,
        ci: i64,
        nb: usize,
    )
        requires
            orig@.len() == old(self).spins@.len(),
            old(visited)@.len() == orig@.len(),
            (nb as int) < orig@.len(),
            -(Q30 as i64) <= ci <= Q30 as i64,
            cluster_state_ok(old(self).spins@, orig@, old(visited)@, phi),
        ensures
            final(self).n == old(self).n,
            final(self).temp == old(self).temp,
            final(self).j == old(self).j,
            final(self).h == old(self).h,
            final(self).accepted == old(self).accepted,
            final(self).attempted == old(self).attempted,
            final(self).spins@.len() == old(self).spins@.len(),
            final(visited)@.len() == old(visited)@.len(),
            cluster_state_ok(final(self).spins@, orig@, final(visited)@, phi),
            forall|t: int| 0 <= t < old(visited)@.len() && old(visited)@[t] ==> final(visited)@[t],
            forall|t: int|
                0 <= t < old(cluster)@.len() ==> final(cluster)@[t] == old(cluster)@[t],
            (final(cluster)@ == old(cluster)@ && final(visited)@ == old(visited)@) || ({
                &&& final(cluster)@.len() == old(cluster)@.len() + 1
                &&& (final(cluster)@.last() as int) < orig@.len()
                &&& crate::grid::count_true(final(visited)@) == crate::grid::count_true(
                    old(visited)@,
                ) + 1
            }),
    {
        if !visited[nb] {
            let u = rng_below(&mut self.rng, Q30);
            self.wolff_admit(visited, cluster, orig, phi, ci, nb, u);
        }
    }

    /// Decide one Wolff admission from the drawn uniform `u`: the unvisited
    /// neighbor `nb` joins the cluster exactly when `u` falls below the
    /// bond-keep threshold computed from the pre-move angles; on admission
    /// it is recorded, marked visited and reflected at once, and otherwise
    /// nothing changes. This is the function that pins what each value of
    /// the draw does.
    fn wolff_admit(
        &mut self,
        visited: &mut Vec<bool>,
        cluster: &mut Vec<usize>,
        orig: &Vec<u32>,
        phi: u32,
        ci: i64,
        nb: usize,
        u: u64,
    )
        requires
            orig@.len() == old(self).spins@.len(),
            old(visited)@.len() == orig@.len(),
            (nb as int) < orig@.len(),
            !old(visited)@[nb as int],
            -(Q30 as i64) <= ci <= Q30 as i64,
            cluster_state_ok(old(self).spins@, orig@, old(visited)@, phi),
        ensures
            final(self).n == old(self).n,
            final(self).temp == old(self).temp,
            final(self).j == old(self).j,
            final(self).h == old(self).h,
            final(self).accepted == old(self).accepted,
            final(self).attempted == old(self).attempted,
            final(self).spins@.len() == old(self).spins@.len(),
            final(visited)@.len() == old(visited)@.len(),
            cluster_state_ok(final(self).spins@, orig@, final(visited)@, phi),
            forall|t: int| 0 <= t < old(visited)@.len() && old(visited)@[t] ==> final(visited)@[t],
            forall|t: int|
                0 <= t < old(cluster)@.len() ==> final(cluster)@[t] == old(cluster)@[t],
            ({
                let cj = cos_q30_spec(sub_ticks_spec(phi as int, orig@[nb as int] as int));
                if (u as int) < bond_threshold_spec(
                    old(self).j as int,
                    old(self).temp as int,
                    ci as int,
                    cj,
                ) {
                    &&& final(cluster)@ == old(cluster)@.push(nb)
                    &&& final(visited)@ == old(visited)@.update(nb as int, true)
                    &&& forall|t: int|
                        0 <= t < orig@.len() && t != nb ==> (#[trigger] final(self).spins@[t])
                            == old(self).spins@[t]
                    &&& final(self).spins@[nb as int] as int == crate::fxp::reflect_cluster_spec(
                        orig@[nb as int] as int,
                        phi as int,
                    )
                    &&& crate::grid::count_true(final(visited)@) == crate::grid::count_true(
                        old(visited)@,
                    ) + 1
                } else {
                    &&& final(cluster)@ == old(cluster)@
                    &&& final(visited)@ == old(visited)@
                    &&& final(self).spins@ == old(self).spins@
                }
            }),
    {
        let thj = orig[nb];
        let cj = cos_q30(sub_ticks(phi, thj));
        let thr = bond_threshold(self.j, self.temp, ci, cj);
        if u < thr {
            proof {
                crate::grid::lemma_count_true_set(visited@, nb as int);
            }
            cluster.push(nb);
            let nv = crate::fxp::reflect_cluster(thj, phi);
            visited[nb] = true;
            self.spins[nb] = nv;
        }
    }

    /// One Wolff single-cluster update with the given reflection axis and
    /// seed site: the cluster grows by stochastic flood fill over the
    /// 4-neighbor graph, with bond probabilities computed from the pre-move
    /// angles (kept in a separate snapshot, never from the live, possibly
    /// already-reflected lattice); every admitted site is reflected exactly
    /// once, and the move is accepted unconditionally. The attempt and
    /// accept counters each grow by exactly one, whatever the cluster size.
    pub fn wolff_core(&mut self, phi: u32, seed: usize)
        requires
            old(self).wf(),
            (seed as int) < old(self).side() * old(self).side(),
            old(self).att_count() < 0xFFFF_FFFF_FFFF_FFFF,
            old(self).acc_count() < 0xFFFF_FFFF_FFFF_FFFF,
        ensures
            final(self).wf(),
            final(self).same_config(*old(self)),
            final(self).att_count() == old(self).att_count() + 1,
            final(self).acc_count() == old(self).acc_count() + 1,
            final(self).angles().len() == old(self).angles().len(),
            reflected_subset(final(self).angles(), old(self).angles(), phi),
            final(self).angles()[seed as int] as int == crate::fxp::reflect_cluster_spec(
                old(self).angles()[seed as int] as int,
                phi as int,
            ),
    {
        proof {
            lemma_side_sq_bound(self.n as int);
        }
        let n = self.n;
        let total = n * n;
        let orig = self.spins_snapshot();
        let mut visited: Vec<bool> = Vec::new();
        let mut i: usize = 0;
        while i < total
            invariant
                i <= total,
                visited@.len() == i,
                crate::grid::count_true(visited@) == 0,
                forall|t: int| 0 <= t < i ==> !visited@[t],
            decreases total - i,
        {
            proof {
                assert(visited@.push(false).drop_last() =~= visited@);
            }
            visited.push(false);
            i = i + 1;
        }
        let mut cluster: Vec<usize> = Vec::new();
        proof {
            crate::grid::lemma_count_true_set(visited@, seed as int);
        }
        cluster.push(seed);
        let th0 = orig[seed];
        visited[seed] = true;
        self.spins[seed] = crate::fxp::reflect_cluster(th0, phi);
        let mut pos: usize = 0;
        while pos < cluster.len()
            invariant
                1 <= n <= MAX_SIDE,
                total == n * n,
                (n as int) * (n as int) <= 16777216,
                orig@ == old(self).angles(),
                orig@.len() == total,
                self.spins@.len() == total,
                visited@.len() == total,
                self.n == old(self).n,
                n == self.side(),
                self.same_config(*old(self)),
                self.att_count() == old(self).att_count(),
                self.acc_count() == old(self).acc_count(),
                cluster_state_ok(self.spins@, orig@, visited@, phi),
                visited@[seed as int],
                (seed as int) < total,
                pos <= cluster@.len(),
                cluster@.len() <= crate::grid::count_true(visited@),
                forall|t: int| 0 <= t < cluster@.len() ==> (#[trigger] cluster@[t]) < total,
            decreases 5 * (total - crate::grid::count_true(visited@)) + cluster@.len() - pos,
        {
            proof {
                crate::grid::lemma_count_true_bounds(visited@);
            }
            let site = cluster[pos];
            let thi = orig[site];
            let ci = cos_q30(sub_ticks(phi, thi));
            proof {
                lemma_neighbors(n as int, site as int);
            }
            let nb0 = right_of(n, site);
            let nb1 = left_of(n, site);
            let nb2 = down_of(n, site);
            let nb3 = up_of(n, site);
            self.wolff_try_add(&mut visited, &mut cluster, &orig, phi, ci, nb0);
            self.wolff_try_add(&mut visited, &mut cluster, &orig, phi, ci, nb1);
            self.wolff_try_add(&mut visited, &mut cluster, &orig, phi, ci, nb2);
            self.wolff_try_add(&mut visited, &mut cluster, &orig, phi, ci, nb3);
            proof {
                crate::grid::lemma_count_true_bounds(visited@);
            }
            pos = pos + 1;
        }
        self.attempted = self.attempted + 1;
        self.accepted = self.accepted + 1;
        self.sync_caches();
    }

    /// One Wolff update with a random axis and a random seed site.
    #[verifier::rlimit(100)]
    pub fn wolff_step(&mut self)
        requires
            old(self).wf(),
            old(self).att_count() < 0xFFFF_FFFF_FFFF_FFFF,
            old(self).acc_count() < 0xFFFF_FFFF_FFFF_FFFF,
        ensures
            final(self).wf(),
            final(self).same_config(*old(self)),
            final(self).att_count() == old(self).att_count() + 1,
            final(self).acc_count() == old(self).acc_count() + 1,
            final(self).angles().len() == old(self).angles().len(),
            exists|phi: u32| #[trigger] reflected_subset(
                final(self).angles(),
                old(self).angles(),
                phi,
            ),
    {
        proof {
            lemma_side_sq_bound(self.n as int);
        }
        let n = self.n;
        let phi = rng_next_u32(&mut self.rng);
        let i0 = rng_below(&mut self.rng, n as u64) as usize;
        let j0 = rng_below(&mut self.rng, n as u64) as usize;
        proof {
            crate::grid::lemma_rowcol_converse(n as int, i0 as int, j0 as int);
        }
        let seed = i0 * n + j0;
        self.wolff_core(phi, seed);
        proof {
            assert(reflected_subset(self.angles(), old(self).angles(), phi));
        }
    }
}

/// The per-cluster coherence of a Swendsen-Wang move: each site's fate is
/// decided by its cluster's coin alone, so sites of one cluster are
/// reflected, or kept, together.
pub open spec fn sw_flip_consistent(
    new_s: Seq<u32>,
    old_s: Seq<u32>,
    ids: Seq<usize>,
    fl: Seq<bool>,
    phi: u32,
) -> bool {
    &&& new_s.len() == old_s.len()
    &&& ids.len() == old_s.len()
    &&& forall|i: int| 0 <= i < ids.len() ==> (#[trigger] ids[i] as int) < fl.len()
    &&& forall|i: int|
        0 <= i < new_s.len() ==> (#[trigger] new_s[i]) as int == (if fl[ids[i] as int] {
            crate::fxp::reflect_cluster_spec(old_s[i] as int, phi as int)
        } else {
            old_s[i] as int
        })
}

impl XY {
    /// Consider adding the neighbor `nb` of an in-cluster site with
    /// axis-projection `ci` to the cluster `cid` being grown: if it belongs
    /// to no cluster yet, draw once and admit it with the bond-keep
    /// probability computed from the fixed pre-sweep snapshot. Sites already
    /// assigned are never reassigned.
    fn sw_try_add(
        &mut self,
        assigned: &mut Vec<bool>,
        ids: &mut Vec<usize>,
        stack: &mut Vec<usize>,
        orig: &Vec<u32>,
        phi: u32,
        ci: i64,
        cid: usize,
        nb: usize,
    )
        requires
            old(assigned)@.len() == orig@.len(),
            old(ids)@.len() == orig@.len(),
            (nb as int) < orig@.len(),
            -(Q30 as i64) <= ci <= Q30 as i64,
            1 <= cid,
            forall|t: int|
                0 <= t < orig@.len() ==> ((#[trigger] old(assigned)@[t]) <==> 1 <= old(ids)@[t]),
            forall|t: int| 0 <= t < orig@.len() ==> (#[trigger] old(ids)@[t]) <= cid,
            forall|t: int| 0 <= t < old(stack)@.len() ==> (#[trigger] old(stack)@[t] as int) < orig@.len(),
        ensures
            final(self).n == old(self).n,
            final(self).spins@ == old(self).spins@,
            final(self).temp == old(self).temp,
            final(self).j == old(self).j,
            final(self).h == old(self).h,
            final(self).accepted == old(self).accepted,
            final(self).attempted == old(self).attempted,
            final(assigned)@.len() == old(assigned)@.len(),
            final(ids)@.len() == old(ids)@.len(),
            forall|t: int|
                0 <= t < orig@.len() ==> ((#[trigger] final(assigned)@[t]) <==> 1 <= final(ids)@[t]),
            forall|t: int| 0 <= t < orig@.len() ==> (#[trigger] final(ids)@[t]) <= cid,
            forall|t: int|
                0 <= t < orig@.len() && old(assigned)@[t] ==> (#[trigger] final(assigned)@[t])
                    && final(ids)@[t] == old(ids)@[t],
            forall|t: int|
                0 <= t < old(stack)@.len() ==> (#[trigger] final(stack)@[t]) == old(stack)@[t],
            forall|t: int|
                0 <= t < final(stack)@.len() ==> (#[trigger] final(stack)@[t] as int)
                    < orig@.len(),
            (final(stack)@ == old(stack)@ && final(assigned)@ == old(assigned)@ && final(ids)@
                == old(ids)@) || ({
                &&& final(stack)@.len() == old(stack)@.len() + 1
                &&& crate::grid::count_true(final(assigned)@) == crate::grid::count_true(
                    old(assigned)@,
                ) + 1
            }),
    {
        if !assigned[nb] {
            let u = rng_below(&mut self.rng, Q30);
            self.sw_admit(assigned, ids, stack, orig, phi, ci, cid, nb, u);
        }
    }

    /// Decide one Swendsen-Wang admission from the drawn uniform `u`: the
    /// still-unassigned neighbor `nb` joins cluster `cid` exactly when `u`
    /// falls below the bond-keep threshold computed from the fixed pre-sweep
    /// snapshot; on admission it is assigned and queued, and otherwise
    /// nothing changes. This is the function that pins what each value of
    /// the draw does.
    fn sw_admit(
        &mut self,
        assigned: &mut Vec<bool>,
        ids: &mut Vec<usize>,
        stack: &mut Vec<usize>,
        orig: &Vec<u32>,
        phi: u32,
        ci: i64,
        cid: usize,
        nb: usize,
        u: u64,
    )
        requires
            old(assigned)@.len() == orig@.len(),
            old(ids)@.len() == orig@.len(),
            (nb as int) < orig@.len(),
            !old(assigned)@[nb as int],
            -(Q30 as i64) <= ci <= Q30 as i64,
            1 <= cid,
            forall|t: int|
                0 <= t < orig@.len() ==> ((#[trigger] old(assigned)@[t]) <==> 1 <= old(ids)@[t]),
            forall|t: int| 0 <= t < orig@.len() ==> (#[trigger] old(ids)@[t]) <= cid,
            forall|t: int|
                0 <= t < old(stack)@.len() ==> (#[trigger] old(stack)@[t] as int) < orig@.len(),
        ensures
            final(self).n == old(self).n,
            final(self).spins@ == old(self).spins@,
            final(self).temp == old(self).temp,
            final(self).j == old(self).j,
            final(self).h == old(self).h,
            final(self).accepted == old(self).accepted,
            final(self).attempted == old(self).attempted,
            final(assigned)@.len() == old(assigned)@.len(),
            final(ids)@.len() == old(ids)@.len(),
            forall|t: int|
                0 <= t < orig@.len() ==> ((#[trigger] final(assigned)@[t]) <==> 1 <= final(ids)@[t]),
            forall|t: int| 0 <= t < orig@.len() ==> (#[trigger] final(ids)@[t]) <= cid,
            forall|t: int|
                0 <= t < orig@.len() && old(assigned)@[t] ==> (#[trigger] final(assigned)@[t])
                    && final(ids)@[t] == old(ids)@[t],
            forall|t: int|
                0 <= t < old(stack)@.len() ==> (#[trigger] final(stack)@[t]) == old(stack)@[t],
            forall|t: int|
                0 <= t < final(stack)@.len() ==> (#[trigger] final(stack)@[t] as int)
                    < orig@.len(),
            ({
                let cj = cos_q30_spec(sub_ticks_spec(phi as int, orig@[nb as int] as int));
                if (u as int) < bond_threshold_spec(
                    old(self).j as int,
                    old(self).temp as int,
                    ci as int,
                    cj,
                ) {
                    &&& final(stack)@ == old(stack)@.push(nb)
                    &&& final(assigned)@ == old(assigned)@.update(nb as int, true)
                    &&& final(ids)@ == old(ids)@.update(nb as int, cid)
                    &&& crate::grid::count_true(final(assigned)@) == crate::grid::count_true(
                        old(assigned)@,
                    ) + 1
                } else {
                    &&& final(stack)@ == old(stack)@
                    &&& final(assigned)@ == old(assigned)@
                    &&& final(ids)@ == old(ids)@
                }
            }),
    {
        let thj = orig[nb];
        let cj = cos_q30(sub_ticks(phi, thj));
        let thr = bond_threshold(self.j, self.temp, ci, cj);
        if u < thr {
            proof {
                crate::grid::lemma_count_true_set(assigned@, nb as int);
            }
            ids[nb] = cid;
            assigned[nb] = true;
            stack.push(nb);
        }
    }

    /// One Swendsen-Wang multi-cluster update with the given reflection
    /// axis. The whole lattice is partitioned into clusters by the same
    /// stochastic bond rule as the Wolff move, referencing only the fixed
    /// pre-sweep snapshot of angles; afterwards every cluster independently
    /// flips a fair coin to decide whether all its members are reflected.
    /// Returns the partition: every site carries exactly one cluster id,
    /// at least 1 (0 is reserved for "unassigned" and never survives), and
    /// an assigned site is never reassigned. The counters each grow by one,
    /// whatever the cluster count.
    pub fn swendsen_wang_core(&mut self, phi: u32) -> (ids: Vec<usize>)
        requires
            old(self).wf(),
            old(self).att_count() < 0xFFFF_FFFF_FFFF_FFFF,
            old(self).acc_count() < 0xFFFF_FFFF_FFFF_FFFF,
        ensures
            final(self).wf(),
            final(self).same_config(*old(self)),
            final(self).att_count() == old(self).att_count() + 1,
            final(self).acc_count() == old(self).acc_count() + 1,
            final(self).angles().len() == old(self).angles().len(),
            ids@.len() == old(self).angles().len(),
            forall|i: int| 0 <= i < ids@.len() ==> 1 <= (#[trigger] ids@[i]),
            reflected_subset(final(self).angles(), old(self).angles(), phi),
            exists|fl: Seq<bool>| #[trigger] sw_flip_consistent(
                final(self).angles(),
                old(self).angles(),
                ids@,
                fl,
                phi,
            ),
    {
        proof {
            lemma_side_sq_bound(self.n as int);
        }
        let n = self.n;
        let total = n * n;
        let orig = self.spins_snapshot();
        let mut ids: Vec<usize> = Vec::new();
        let mut assigned: Vec<bool> = Vec::new();
        let mut i: usize = 0;
        while i < total
            invariant
                i <= total,
                ids@.len() == i,
                assigned@.len() == i,
                crate::grid::count_true(assigned@) == 0,
                forall|t: int| 0 <= t < i ==> !(#[trigger] assigned@[t]),
                forall|t: int| 0 <= t < i ==> (#[trigger] ids@[t]) == 0,
            decreases total - i,
        {
            proof {
                assert(assigned@.push(false).drop_last() =~= assigned@);
            }
            ids.push(0);
            assigned.push(false);
            i = i + 1;
        }
        let mut next_id: usize = 1;
        let mut idx: usize = 0;
        while idx < total
            invariant
                1 <= n <= MAX_SIDE,
                total == n * n,
                (n as int) * (n as int) <= 16777216,
                orig@ == old(self).angles(),
                orig@.len() == total,
                ids@.len() == total,
                assigned@.len() == total,
                self.spins@ == orig@,
                self.n == old(self).n,
                n == self.side(),
                self.same_config(*old(self)),
                self.att_count() == old(self).att_count(),
                self.acc_count() == old(self).acc_count(),
                idx <= total,
                1 <= next_id,
                next_id - 1 <= crate::grid::count_true(assigned@),
                forall|t: int|
                    0 <= t < total ==> ((#[trigger] assigned@[t]) <==> 1 <= ids@[t]),
                forall|t: int| 0 <= t < total ==> (#[trigger] ids@[t]) < next_id,
                forall|t: int| 0 <= t < idx ==> (#[trigger] assigned@[t]),
            decreases total - idx,
        {
            proof {
                crate::grid::lemma_count_true_bounds(assigned@);
            }
            if ids[idx] == 0 {
                let cid = next_id;
                let mut stack: Vec<usize> = Vec::new();
                proof {
                    crate::grid::lemma_count_true_set(assigned@, idx as int);
                }
                ids[idx] = cid;
                assigned[idx] = true;
                stack.push(idx);
                while stack.len() > 0
                    invariant
                        1 <= n <= MAX_SIDE,
                        total == n * n,
                        (n as int) * (n as int) <= 16777216,
                        orig@ == old(self).angles(),
                        orig@.len() == total,
                        ids@.len() == total,
                        assigned@.len() == total,
                        self.spins@ == orig@,
                        self.n == old(self).n,
                        n == self.side(),
                        self.same_config(*old(self)),
                        self.att_count() == old(self).att_count(),
                        self.acc_count() == old(self).acc_count(),
                        idx < total,
                        1 <= cid,
                        cid == next_id,
                        next_id <= crate::grid::count_true(assigned@),
                        forall|t: int|
                            0 <= t < total ==> ((#[trigger] assigned@[t]) <==> 1 <= ids@[t]),
                        forall|t: int| 0 <= t < total ==> (#[trigger] ids@[t]) <= cid,
                        forall|t: int| 0 <= t < idx ==> (#[trigger] assigned@[t]),
                        assigned@[idx as int],
                        forall|t: int|
                            0 <= t < stack@.len() ==> (#[trigger] stack@[t] as int) < total,
                    decreases 5 * (total - crate::grid::count_true(assigned@)) + stack@.len(),
                {
                    proof {
                        crate::grid::lemma_count_true_bounds(assigned@);
                    }
                    let site_opt = stack.pop();
                    let site = site_opt.unwrap();
                    let thi = orig[site];
                    let ci = cos_q30(sub_ticks(phi, thi));
                    proof {
                        lemma_neighbors(n as int, site as int);
                    }
                    let nb0 = right_of(n, site);
                    let nb1 = left_of(n, site);
                    let nb2 = down_of(n, site);
                    let nb3 = up_of(n, site);
                    self.sw_try_add(&mut assigned, &mut ids, &mut stack, &orig, phi, ci, cid, nb0);
                    self.sw_try_add(&mut assigned, &mut ids, &mut stack, &orig, phi, ci, cid, nb1);
                    self.sw_try_add(&mut assigned, &mut ids, &mut stack, &orig, phi, ci, cid, nb2);
                    self.sw_try_add(&mut assigned, &mut ids, &mut stack, &orig, phi, ci, cid, nb3);
                    proof {
                        crate::grid::lemma_count_true_bounds(assigned@);
                    }
                }
                next_id = next_id + 1;
            }
            idx = idx + 1;
        }
        proof {
            assert forall|t: int| 0 <= t < total implies 1 <= (#[trigger] ids@[t]) < next_id by {
                assert(assigned@[t]);
            }
        }
        let mut flips: Vec<bool> = Vec::new();
        flips.push(false);
        let mut c: usize = 1;
        while c < next_id
            invariant
                flips@.len() == c,
                1 <= c <= next_id,
                1 <= n <= MAX_SIDE,
                total == n * n,
                (n as int) * (n as int) <= 16777216,
                orig@ == old(self).angles(),
                orig@.len() == total,
                ids@.len() == total,
                self.spins@ == orig@,
                self.n == old(self).n,
                n == self.side(),
                self.same_config(*old(self)),
                self.att_count() == old(self).att_count(),
                self.acc_count() == old(self).acc_count(),
                forall|t: int| 0 <= t < total ==> 1 <= (#[trigger] ids@[t]) < next_id,
            decreases next_id - c,
        {
            let u = rng_below(&mut self.rng, Q30);
            flips.push(u < Q30 / 2);
            c = c + 1;
        }
        let mut k: usize = 0;
        while k < total
            invariant
                1 <= n <= MAX_SIDE,
                total == n * n,
                (n as int) * (n as int) <= 16777216,
                orig@ == old(self).angles(),
                orig@.len() == total,
                ids@.len() == total,
                flips@.len() == next_id,
                self.spins@.len() == total,
                self.n == old(self).n,
                n == self.side(),
                self.same_config(*old(self)),
                self.att_count() == old(self).att_count(),
                self.acc_count() == old(self).acc_count(),
                k <= total,
                forall|t: int| 0 <= t < total ==> 1 <= (#[trigger] ids@[t]) < next_id,
                forall|t: int|
                    0 <= t < k ==> (#[trigger] self.spins@[t]) as int == (if flips@[ids@[t] as int] {
                        crate::fxp::reflect_cluster_spec(orig@[t] as int, phi as int)
                    } else {
                        orig@[t] as int
                    }),
                forall|t: int| k <= t < total ==> (#[trigger] self.spins@[t]) == orig@[t],
            decreases total - k,
        {
            let cidx = ids[k];
            if flips[cidx] {
                let nv = crate::fxp::reflect_cluster(orig[k], phi);
                self.spins[k] = nv;
            } else {
                let ov = orig[k];
                self.spins[k] = ov;
            }
            k = k + 1;
        }
        self.attempted = self.attempted + 1;
        self.accepted = self.accepted + 1;
        self.sync_caches();
        proof {
            assert(sw_flip_consistent(self.spins@, orig@, ids@, flips@, phi));
        }
        ids
    }

    /// One Swendsen-Wang update with a random reflection axis.
    #[verifier::rlimit(100)]
    pub fn swendsen_wang_step(&mut self)
        requires
            old(self).wf(),
            old(self).att_count() < 0xFFFF_FFFF_FFFF_FFFF,
            old(self).acc_count() < 0xFFFF_FFFF_FFFF_FFFF,
        ensures
            final(self).wf(),
            final(self).same_config(*old(self)),
            final(self).att_count() == old(self).att_count() + 1,
            final(self).acc_count() == old(self).acc_count() + 1,
            final(self).angles().len() == old(self).angles().len(),
            exists|phi: u32| #[trigger] reflected_subset(
                final(self).angles(),
                old(self).angles(),
                phi,
            ),
    {
        let phi = rng_next_u32(&mut self.rng);
        let _ids = self.swendsen_wang_core(phi);
        proof {
            assert(reflected_subset(self.angles(), old(self).angles(), phi));
        }
    }
}

} // verus!
