//! Thermalisation and measurement of lattices at one temperature.
//!
//! Samples are recorded as exact integers: the bond sum `B` and the
//! magnetisation `M` of the lattice, from which the energy is
//! `E = -J * B - H * M`. A [`Moments`] value keeps the sums that the
//! estimators (means and population variances) are built from.
use vstd::prelude::*;
use crate::lattice::{count_negated, AcceptanceTable, Lattice, LatticeView, MAX_SIDE, RULE_COUNT};
use crate::params::InitialState;

verus! {

/// Largest magnitude of a recorded value.
pub const SAMPLE_BOUND: i64 = 0x8000_0000;

/// Largest number of samples one [`Moments`] value takes.
pub const MAX_SAMPLES: u64 = 0x8000_0000;

/// Square of [`SAMPLE_BOUND`].
pub const SQUARE_BOUND: i128 = 0x4000_0000_0000_0000;

pub open spec fn seq_sum(xs: Seq<int>) -> int
    decreases xs.len(),
{
    if xs.len() == 0 {
        0
    } else {
        seq_sum(xs.drop_last()) + xs.last()
    }
}

pub open spec fn seq_sum_sq(xs: Seq<int>) -> int
    decreases xs.len(),
{
    if xs.len() == 0 {
        0
    } else {
        seq_sum_sq(xs.drop_last()) + xs.last() * xs.last()
    }
}

pub open spec fn seq_sum_abs(xs: Seq<int>) -> int
    decreases xs.len(),
{
    if xs.len() == 0 {
        0
    } else {
        seq_sum_abs(xs.drop_last()) + if xs.last() < 0 {
            -xs.last()
        } else {
            xs.last()
        }
    }
}

pub open spec fn seq_sum_prod(xs: Seq<int>, ys: Seq<int>) -> int
    decreases xs.len(),
{
    if xs.len() == 0 || ys.len() == 0 {
        0
    } else {
        seq_sum_prod(xs.drop_last(), ys.drop_last()) + xs.last() * ys.last()
    }
}

/// `n * sum(x^2) - sum(x)^2`, which is `n^2` times the population variance.
pub open spec fn spread(xs: Seq<int>) -> int {
    xs.len() * seq_sum_sq(xs) - seq_sum(xs) * seq_sum(xs)
}

/// `n * sum(x * y) - sum(x) * sum(y)`, which is `n^2` times the population
/// covariance.
pub open spec fn cross_spread(xs: Seq<int>, ys: Seq<int>) -> int {
    xs.len() * seq_sum_prod(xs, ys) - seq_sum(xs) * seq_sum(ys)
}

/// The samples `a * x + b * y`.
pub open spec fn combine(xs: Seq<int>, ys: Seq<int>, a: int, b: int) -> Seq<int> {
    Seq::new(xs.len(), |i: int| a * xs[i] + b * ys[i])
}

proof fn lemma_combine_sums(xs: Seq<int>, ys: Seq<int>, a: int, b: int)
    requires
        xs.len() == ys.len(),
    ensures
        seq_sum(combine(xs, ys, a, b)) == a * seq_sum(xs) + b * seq_sum(ys),
        seq_sum_sq(combine(xs, ys, a, b)) == a * a * seq_sum_sq(xs) + 2 * a * b * seq_sum_prod(
            xs,
            ys,
        ) + b * b * seq_sum_sq(ys),
    decreases xs.len(),
{
    let c = combine(xs, ys, a, b);
    if xs.len() > 0 {
        let xp = xs.drop_last();
        let yp = ys.drop_last();
        lemma_combine_sums(xp, yp, a, b);
        assert(c.drop_last() =~= combine(xp, yp, a, b));
        let x = xs.last();
        let y = ys.last();
        assert(c.last() == a * x + b * y);
        let sx = seq_sum(xp);
        let sy = seq_sum(yp);
        assert(a * sx + b * sy + (a * x + b * y) == a * (sx + x) + b * (sy + y)) by (nonlinear_arith);
        let qx = seq_sum_sq(xp);
        let qy = seq_sum_sq(yp);
        let pxy = seq_sum_prod(xp, yp);
        let u = a * x;
        let v = b * y;
        assert((u + v) * (u + v) == u * u + 2 * (u * v) + v * v) by (nonlinear_arith);
        assert(u * u == (a * a) * (x * x)) by (nonlinear_arith)
            requires
                u == a * x,
        ;
        assert(v * v == (b * b) * (y * y)) by (nonlinear_arith)
            requires
                v == b * y,
        ;
        assert(u * v == (a * b) * (x * y)) by (nonlinear_arith)
            requires
                u == a * x,
                v == b * y,
        ;
        let aa = a * a;
        let bb = b * b;
        let ab = a * b;
        assert(aa * qx + aa * (x * x) == aa * (qx + x * x)) by (nonlinear_arith);
        assert(bb * qy + bb * (y * y) == bb * (qy + y * y)) by (nonlinear_arith);
        assert(2 * ab * pxy + 2 * (ab * (x * y)) == 2 * ab * (pxy + x * y)) by (nonlinear_arith);
        lemma_coefficients(a, b, qx, qy, pxy);
        lemma_coefficients(a, b, qx + x * x, qy + y * y, pxy + x * y);
    } else {
        assert(c.len() == 0);
    }
}

proof fn lemma_coefficients(a: int, b: int, p: int, q: int, r: int)
    ensures
        a * a * p == (a * a) * p,
        b * b * q == (b * b) * q,
        2 * a * b * r == 2 * (a * b) * r,
{
    assert(2 * a * b * r == 2 * (a * b) * r) by (nonlinear_arith);
}

proof fn lemma_spread_expand(n: int, sx: int, sy: int, qx: int, qy: int, pxy: int, a: int, b: int)
    ensures
        n * (a * a * qx + 2 * a * b * pxy + b * b * qy) - (a * sx + b * sy) * (a * sx + b * sy) == a
            * a * (n * qx - sx * sx) + 2 * a * b * (n * pxy - sx * sy) + b * b * (n * qy - sy * sy),
{
    let aa = a * a;
    let bb = b * b;
    let ab = a * b;
    lemma_coefficients(a, b, qx, qy, pxy);
    assert(n * (aa * qx + 2 * ab * pxy + bb * qy) == n * (aa * qx) + n * (2 * ab * pxy) + n * (bb
        * qy)) by (nonlinear_arith);
    assert(n * (aa * qx) == aa * (n * qx)) by (nonlinear_arith);
    assert(n * (2 * ab * pxy) == 2 * ab * (n * pxy)) by (nonlinear_arith);
    assert(n * (bb * qy) == bb * (n * qy)) by (nonlinear_arith);
    let u = a * sx;
    let v = b * sy;
    assert((u + v) * (u + v) == u * u + 2 * (u * v) + v * v) by (nonlinear_arith);
    assert(u * u == aa * (sx * sx)) by (nonlinear_arith)
        requires
            u == a * sx,
            aa == a * a,
    ;
    assert(v * v == bb * (sy * sy)) by (nonlinear_arith)
        requires
            v == b * sy,
            bb == b * b,
    ;
    assert(u * v == ab * (sx * sy)) by (nonlinear_arith)
        requires
            u == a * sx,
            v == b * sy,
            ab == a * b,
    ;
    assert(aa * (n * qx) - aa * (sx * sx) == aa * (n * qx - sx * sx)) by (nonlinear_arith);
    assert(2 * ab * (n * pxy) - 2 * (ab * (sx * sy)) == 2 * ab * (n * pxy - sx * sy))
        by (nonlinear_arith);
    assert(bb * (n * qy) - bb * (sy * sy) == bb * (n * qy - sy * sy)) by (nonlinear_arith);
    lemma_coefficients(a, b, n * qx - sx * sx, n * qy - sy * sy, n * pxy - sx * sy);
}

/// The variance of any integer combination `a * x + b * y` of two sample
/// series is never negative: `a^2 * spread(x) + 2ab * cross_spread(x, y) +
/// b^2 * spread(y) >= 0`. With `x` the bond sums, `y` the magnetisations,
/// `a = -J` and `b = -H` in common integer units, this is `n^2` times the
/// energy variance behind the heat capacity.
pub proof fn lemma_combined_spread_nonnegative(xs: Seq<int>, ys: Seq<int>, a: int, b: int)
    requires
        xs.len() == ys.len(),
    ensures
        a * a * spread(xs) + 2 * a * b * cross_spread(xs, ys) + b * b * spread(ys) >= 0,
{
    let c = combine(xs, ys, a, b);
    lemma_combine_sums(xs, ys, a, b);
    lemma_spread_nonnegative(c);
    lemma_spread_expand(
        xs.len() as int,
        seq_sum(xs),
        seq_sum(ys),
        seq_sum_sq(xs),
        seq_sum_sq(ys),
        seq_sum_prod(xs, ys),
        a,
        b,
    );
    assert(c.len() == xs.len());
}

/// Number of steps `k` in `0..n` with `k % stride == 0`: the steps at which
/// a sample is recorded.
pub open spec fn recorded_steps(n: int, stride: int) -> int
    decreases n,
{
    if n <= 0 {
        0
    } else {
        recorded_steps(n - 1, stride) + if (n - 1) % stride == 0 {
            1int
        } else {
            0int
        }
    }
}

proof fn lemma_spread_step(n: int, q: int, s: int, x: int)
    requires
        n > 0,
        n * q - s * s >= 0,
    ensures
        (n + 1) * (q + x * x) - (s + x) * (s + x) >= 0,
{
    let sx = s * x;
    let xx = x * x;
    let nsx = n * sx;
    let nxx = n * xx;
    let nnxx = n * nxx;
    assert((s - n * x) * (s - n * x) == s * s - 2 * nsx + nnxx) by (nonlinear_arith)
        requires
            sx == s * x,
            xx == x * x,
            nsx == n * sx,
            nxx == n * xx,
            nnxx == n * nxx,
    ;
    assert((s - n * x) * (s - n * x) >= 0) by (nonlinear_arith);
    assert(n * (q - 2 * sx + nxx) == n * q - 2 * nsx + nnxx) by (nonlinear_arith)
        requires
            nsx == n * sx,
            nnxx == n * nxx,
    ;
    let t = q - 2 * sx + nxx;
    assert(n * t >= 0);
    assert(t >= 0) by (nonlinear_arith)
        requires
            n > 0,
            n * t >= 0,
    ;
    assert((n + 1) * (q + xx) == n * q + nxx + q + xx) by (nonlinear_arith)
        requires
            nxx == n * xx,
    ;
    assert((s + x) * (s + x) == s * s + 2 * sx + xx) by (nonlinear_arith)
        requires
            sx == s * x,
            xx == x * x,
    ;
}

/// A population variance is never negative: `n * sum(x^2) >= sum(x)^2`.
pub proof fn lemma_spread_nonnegative(xs: Seq<int>)
    ensures
        spread(xs) >= 0,
    decreases xs.len(),
{
    if xs.len() > 0 {
        let ys = xs.drop_last();
        let x = xs.last();
        lemma_spread_nonnegative(ys);
        let n = ys.len() as int;
        let s = seq_sum(ys);
        let q = seq_sum_sq(ys);
        assert(spread(xs) == (n + 1) * (q + x * x) - (s + x) * (s + x));
        if n == 0 {
            assert(ys.len() == 0);
            assert(s == 0 && q == 0);
            assert((0 + 1) * (0 + x * x) - (0 + x) * (0 + x) == 0) by (nonlinear_arith);
        } else {
            assert((n + 1) * (q + x * x) - (s + x) * (s + x) >= 0) by (nonlinear_arith)
                requires
                    n > 0,
                    n * q - s * s >= 0,
            {
                lemma_spread_step(n, q, s, x);
            }
        }
    }
}

/// What a [`Moments`] value stands for: the recorded bond sums and
/// magnetisations, in order.
pub ghost struct SampleLog {
    pub bond_sums: Seq<int>,
    pub magnetizations: Seq<int>,
}

/// Exact running sums over recorded `(B, M)` samples.
pub struct Moments {
    count: u64,
    sum_b: i128,
    sum_b2: i128,
    sum_m: i128,
    sum_m2: i128,
    sum_abs_m: i128,
    sum_bm: i128,
    log: Ghost<SampleLog>,
}

impl View for Moments {
    type V = SampleLog;

    closed spec fn view(&self) -> SampleLog {
        self.log@
    }
}

impl Moments {
    pub closed spec fn wf(&self) -> bool {
        let b = self.log@.bond_sums;
        let m = self.log@.magnetizations;
        &&& b.len() == self.count
        &&& m.len() == self.count
        &&& self.count <= MAX_SAMPLES
        &&& forall|k: int|
            0 <= k < b.len() ==> -SAMPLE_BOUND <= #[trigger] b[k] <= SAMPLE_BOUND
        &&& forall|k: int|
            0 <= k < m.len() ==> -SAMPLE_BOUND <= #[trigger] m[k] <= SAMPLE_BOUND
        &&& self.sum_b == seq_sum(b)
        &&& self.sum_b2 == seq_sum_sq(b)
        &&& self.sum_m == seq_sum(m)
        &&& self.sum_m2 == seq_sum_sq(m)
        &&& self.sum_abs_m == seq_sum_abs(m)
        &&& self.sum_bm == seq_sum_prod(b, m)
        &&& -self.count * SAMPLE_BOUND <= self.sum_b <= self.count * SAMPLE_BOUND
        &&& -self.count * SAMPLE_BOUND <= self.sum_m <= self.count * SAMPLE_BOUND
        &&& 0 <= self.sum_abs_m <= self.count * SAMPLE_BOUND
        &&& 0 <= self.sum_b2 <= self.count * SQUARE_BOUND
        &&& 0 <= self.sum_m2 <= self.count * SQUARE_BOUND
        &&& -self.count * SQUARE_BOUND <= self.sum_bm <= self.count * (
        SQUARE_BOUND)
    }

    /// No samples yet.
    pub fn new() -> (r: Moments)
        ensures
            r.wf(),
            r@.bond_sums == Seq::<int>::empty(),
            r@.magnetizations == Seq::<int>::empty(),
    {
        Moments {
            count: 0,
            sum_b: 0,
            sum_b2: 0,
            sum_m: 0,
            sum_m2: 0,
            sum_abs_m: 0,
            sum_bm: 0,
            log: Ghost(SampleLog { bond_sums: Seq::empty(), magnetizations: Seq::empty() }),
        }
    }

    /// Records one sample.
    pub fn record(&mut self, b: i64, m: i64)
        requires
            old(self).wf(),
            old(self)@.bond_sums.len() < MAX_SAMPLES,
            -SAMPLE_BOUND <= b <= SAMPLE_BOUND,
            -SAMPLE_BOUND <= m <= SAMPLE_BOUND,
        ensures
            final(self).wf(),
            final(self)@.bond_sums == old(self)@.bond_sums.push(b as int),
            final(self)@.magnetizations == old(self)@.magnetizations.push(m as int),
    {
        let ghost old_log = self.log@;
        let bb = b as i128;
        let mm = m as i128;
        proof {
            assert(bb * bb <= SQUARE_BOUND && bb * bb >= 0) by (nonlinear_arith)
                requires
                    -SAMPLE_BOUND <= bb <= SAMPLE_BOUND,
            ;
            assert(mm * mm <= SQUARE_BOUND && mm * mm >= 0) by (nonlinear_arith)
                requires
                    -SAMPLE_BOUND <= mm <= SAMPLE_BOUND,
            ;
            assert(-SQUARE_BOUND <= bb * mm <= SQUARE_BOUND)
                by (nonlinear_arith)
                requires
                    -SAMPLE_BOUND <= bb <= SAMPLE_BOUND,
                    -SAMPLE_BOUND <= mm <= SAMPLE_BOUND,
            ;
        }
        self.count = self.count + 1;
        self.sum_b = self.sum_b + bb;
        self.sum_b2 = self.sum_b2 + bb * bb;
        self.sum_m = self.sum_m + mm;
        self.sum_m2 = self.sum_m2 + mm * mm;
        self.sum_abs_m = self.sum_abs_m + if mm < 0 {
            -mm
        } else {
            mm
        };
        self.sum_bm = self.sum_bm + bb * mm;
        self.log = Ghost(
            SampleLog {
                bond_sums: old_log.bond_sums.push(b as int),
                magnetizations: old_log.magnetizations.push(m as int),
            },
        );
        proof {
            let nb = self.log@.bond_sums;
            let nm = self.log@.magnetizations;
            assert(nb.drop_last() =~= old_log.bond_sums);
            assert(nm.drop_last() =~= old_log.magnetizations);
            assert forall|k: int| 0 <= k < nb.len() implies -SAMPLE_BOUND <= #[trigger] nb[k]
                <= SAMPLE_BOUND by {
                if k < nb.len() - 1 {
                    assert(nb[k] == old_log.bond_sums[k]);
                }
            }
            assert forall|k: int| 0 <= k < nm.len() implies -SAMPLE_BOUND <= #[trigger] nm[k]
                <= SAMPLE_BOUND by {
                if k < nm.len() - 1 {
                    assert(nm[k] == old_log.magnetizations[k]);
                }
            }
        }
    }

    /// Number of samples.
    pub fn count(&self) -> (r: u64)
        requires
            self.wf(),
        ensures
            r == self@.bond_sums.len(),
            r == self@.magnetizations.len(),
    {
        self.count
    }

    /// Sum of the bond sums `B`.
    pub fn sum_bond(&self) -> (r: i128)
        requires
            self.wf(),
        ensures
            r == seq_sum(self@.bond_sums),
    {
        self.sum_b
    }

    /// Sum of `B * B`.
    pub fn sum_bond_sq(&self) -> (r: i128)
        requires
            self.wf(),
        ensures
            r == seq_sum_sq(self@.bond_sums),
    {
        self.sum_b2
    }

    /// Sum of the magnetisations `M`.
    pub fn sum_mag(&self) -> (r: i128)
        requires
            self.wf(),
        ensures
            r == seq_sum(self@.magnetizations),
    {
        self.sum_m
    }

    /// Sum of `M * M`.
    pub fn sum_mag_sq(&self) -> (r: i128)
        requires
            self.wf(),
        ensures
            r == seq_sum_sq(self@.magnetizations),
    {
        self.sum_m2
    }

    /// Sum of `|M|`.
    pub fn sum_abs_mag(&self) -> (r: i128)
        requires
            self.wf(),
        ensures
            r == seq_sum_abs(self@.magnetizations),
    {
        self.sum_abs_m
    }

    /// Sum of `B * M`.
    pub fn sum_bond_mag(&self) -> (r: i128)
        requires
            self.wf(),
        ensures
            r == seq_sum_prod(self@.bond_sums, self@.magnetizations),
    {
        self.sum_bm
    }

    /// `n * sum(B^2) - sum(B)^2`: `n^2` times the population variance of `B`;
    /// never negative.
    pub fn bond_spread(&self) -> (r: i128)
        requires
            self.wf(),
        ensures
            r == spread(self@.bond_sums),
            r >= 0,
    {
        proof {
            lemma_spread_nonnegative(self@.bond_sums);
            assert(0 <= self.count * self.sum_b2 <= MAX_SAMPLES * (MAX_SAMPLES * (SAMPLE_BOUND
                * SAMPLE_BOUND))) by (nonlinear_arith)
                requires
                    0 <= self.count <= MAX_SAMPLES,
                    0 <= self.sum_b2 <= self.count * SQUARE_BOUND,
            ;
            assert(0 <= self.sum_b * self.sum_b <= (MAX_SAMPLES * SAMPLE_BOUND) * (MAX_SAMPLES
                * SAMPLE_BOUND)) by (nonlinear_arith)
                requires
                    0 <= self.count <= MAX_SAMPLES,
                    -self.count * SAMPLE_BOUND <= self.sum_b <= self.count * SAMPLE_BOUND,
            ;
        }
        self.count as i128 * self.sum_b2 - self.sum_b * self.sum_b
    }

    /// `n * sum(B * M) - sum(B) * sum(M)`: `n^2` times the population
    /// covariance of `B` and `M`.
    pub fn cross_spread(&self) -> (r: i128)
        requires
            self.wf(),
        ensures
            r == cross_spread(self@.bond_sums, self@.magnetizations),
    {
        proof {
            assert(-(MAX_SAMPLES * (MAX_SAMPLES * SQUARE_BOUND)) <= self.count * self.sum_bm
                <= MAX_SAMPLES * (MAX_SAMPLES * SQUARE_BOUND)) by (nonlinear_arith)
                requires
                    0 <= self.count <= MAX_SAMPLES,
                    -self.count * SQUARE_BOUND <= self.sum_bm <= self.count * SQUARE_BOUND,
            ;
            assert(-((MAX_SAMPLES * SAMPLE_BOUND) * (MAX_SAMPLES * SAMPLE_BOUND)) <= self.sum_b
                * self.sum_m <= (MAX_SAMPLES * SAMPLE_BOUND) * (MAX_SAMPLES * SAMPLE_BOUND))
                by (nonlinear_arith)
                requires
                    0 <= self.count <= MAX_SAMPLES,
                    -self.count * SAMPLE_BOUND <= self.sum_b <= self.count * SAMPLE_BOUND,
                    -self.count * SAMPLE_BOUND <= self.sum_m <= self.count * SAMPLE_BOUND,
            ;
        }
        assert(MAX_SAMPLES * SAMPLE_BOUND == 0x4000_0000_0000_0000);
        assert((MAX_SAMPLES * SAMPLE_BOUND) * (MAX_SAMPLES * SAMPLE_BOUND)
            == 0x1000_0000_0000_0000_0000_0000_0000_0000) by (nonlinear_arith);
        assert(MAX_SAMPLES * (MAX_SAMPLES * SQUARE_BOUND) == 0x1000_0000_0000_0000_0000_0000_0000_0000);
        self.count as i128 * self.sum_bm - self.sum_b * self.sum_m
    }

    /// `n * sum(M^2) - sum(M)^2`: `n^2` times the population variance of `M`;
    /// never negative.
    pub fn mag_spread(&self) -> (r: i128)
        requires
            self.wf(),
        ensures
            r == spread(self@.magnetizations),
            r >= 0,
    {
        proof {
            lemma_spread_nonnegative(self@.magnetizations);
            assert(0 <= self.count * self.sum_m2 <= MAX_SAMPLES * (MAX_SAMPLES * (SAMPLE_BOUND
                * SAMPLE_BOUND))) by (nonlinear_arith)
                requires
                    0 <= self.count <= MAX_SAMPLES,
                    0 <= self.sum_m2 <= self.count * SQUARE_BOUND,
            ;
            assert(0 <= self.sum_m * self.sum_m <= (MAX_SAMPLES * SAMPLE_BOUND) * (MAX_SAMPLES
                * SAMPLE_BOUND)) by (nonlinear_arith)
                requires
                    0 <= self.count <= MAX_SAMPLES,
                    -self.count * SAMPLE_BOUND <= self.sum_m <= self.count * SAMPLE_BOUND,
            ;
        }
        self.count as i128 * self.sum_m2 - self.sum_m * self.sum_m
    }
}

proof fn lemma_recorded_steps_step(n: int, stride: int)
    requires
        n >= 0,
    ensures
        recorded_steps(n + 1, stride) == recorded_steps(n, stride) + if n % stride == 0 {
            1int
        } else {
            0int
        },
        recorded_steps(n, stride) <= n,
    decreases n,
{
    if n > 0 {
        lemma_recorded_steps_step(n - 1, stride);
    }
}

/// `(b, m)` is the bond sum and magnetisation of some configuration with the
/// side and couplings of `v0`: a sample of a lattice whose spins alone move.
pub open spec fn sample_of(v0: LatticeView, b: int, m: int) -> bool {
    exists|v: LatticeView|
        v.wf() && v.size == v0.size && v.right == v0.right && v.down == v0.down && b
            == v.bond_sum() && m == v.magnetization()
}

/// Runs `therm_steps` passes of `L * L` Metropolis trials, then `mc_steps`
/// further passes, recording the bond sum and magnetisation after every pass
/// whose index is a multiple of `stride`.
pub fn sample_lattice(
    lattice: &mut Lattice,
    table: &AcceptanceTable,
    therm_steps: usize,
    mc_steps: usize,
    stride: usize,
    rng: &mut rand::rngs::StdRng,
) -> (r: Moments)
    requires
        old(lattice)@.wf(),
        table@.len() == RULE_COUNT,
        stride >= 1,
        mc_steps <= MAX_SAMPLES,
    ensures
        final(lattice)@.wf(),
        final(lattice)@.size == old(lattice)@.size,
        r.wf(),
        r@.bond_sums.len() == recorded_steps(mc_steps as int, stride as int),
        forall|k: int|
            0 <= k < r@.bond_sums.len() ==> -(2 * (old(lattice)@.size * old(lattice)@.size))
                <= #[trigger] r@.bond_sums[k] <= 2 * (old(lattice)@.size * old(lattice)@.size),
        forall|k: int|
            0 <= k < r@.magnetizations.len() ==> -(old(lattice)@.size * old(lattice)@.size)
                <= #[trigger] r@.magnetizations[k] <= old(lattice)@.size * old(lattice)@.size,
        r@.magnetizations.len() == r@.bond_sums.len(),
        final(lattice)@.right == old(lattice)@.right,
        final(lattice)@.down == old(lattice)@.down,
        final(lattice).trials() == old(lattice).trials() + (therm_steps + mc_steps) * (old(
            lattice,
        )@.size * old(lattice)@.size),
        forall|k: int|
            0 <= k < r@.bond_sums.len() ==> sample_of(
                old(lattice)@,
                #[trigger] r@.bond_sums[k],
                r@.magnetizations[k],
            ),
{
    let ghost v0 = lattice@;
    let ghost t0 = lattice.trials();
    let l = lattice.size();
    let ghost sz = l as int;
    proof {
        crate::lattice::lemma_grid_fits(sz);
    }
    let per_pass = l * l;
    let mut pass: usize = 0;
    while pass < therm_steps
        invariant
            pass <= therm_steps,
            per_pass == sz * sz,
            lattice.trials() == t0 + pass * per_pass,
            lattice@.wf(),
            lattice@.size == sz,
            lattice@.right == v0.right,
            lattice@.down == v0.down,
            v0.wf(),
            v0.size == sz,
            table@.len() == RULE_COUNT,
        decreases therm_steps - pass,
    {
        let ghost base = lattice.trials();
        let mut t: usize = 0;
        while t < per_pass
            invariant
                t <= per_pass,
                lattice.trials() == base + t,
                lattice@.wf(),
                lattice@.size == sz,
                lattice@.right == v0.right,
                lattice@.down == v0.down,
            lattice@.right == v0.right,
            lattice@.down == v0.down,
            v0.wf(),
            v0.size == sz,
                table@.len() == RULE_COUNT,
            decreases per_pass - t,
        {
            lattice.metropolis_step(table, rng);
            t = t + 1;
        }
        proof {
            assert((pass + 1) * per_pass == pass * per_pass + per_pass) by (nonlinear_arith);
        }
        pass = pass + 1;
    }
    let mut moments = Moments::new();
    let mut step: usize = 0;
    while step < mc_steps
        invariant
            per_pass == sz * sz,
            lattice.trials() == t0 + (therm_steps + step) * per_pass,
            lattice@.wf(),
            lattice@.size == sz,
            lattice@.right == v0.right,
            lattice@.down == v0.down,
            v0.wf(),
            v0.size == sz,
            table@.len() == RULE_COUNT,
            sz * sz <= MAX_SIDE * MAX_SIDE,
            step <= mc_steps,
            stride >= 1,
            mc_steps <= MAX_SAMPLES,
            moments.wf(),
            moments@.bond_sums.len() == recorded_steps(step as int, stride as int),
            forall|k: int|
                0 <= k < moments@.bond_sums.len() ==> -(2 * (sz * sz)) <= #[trigger] moments@.bond_sums[k]
                    <= 2 * (sz * sz),
            forall|k: int|
                0 <= k < moments@.magnetizations.len() ==> -(sz * sz)
                    <= #[trigger] moments@.magnetizations[k] <= sz * sz,
            moments@.magnetizations.len() == moments@.bond_sums.len(),
            forall|k: int|
                0 <= k < moments@.bond_sums.len() ==> sample_of(
                    v0,
                    #[trigger] moments@.bond_sums[k],
                    moments@.magnetizations[k],
                ),
        decreases mc_steps - step,
    {
        let ghost base = lattice.trials();
        let mut t: usize = 0;
        while t < per_pass
            invariant
                t <= per_pass,
                lattice.trials() == base + t,
                lattice@.wf(),
                lattice@.size == sz,
                lattice@.right == v0.right,
                lattice@.down == v0.down,
            lattice@.right == v0.right,
            lattice@.down == v0.down,
            v0.wf(),
            v0.size == sz,
                table@.len() == RULE_COUNT,
            decreases per_pass - t,
        {
            lattice.metropolis_step(table, rng);
            t = t + 1;
        }
        proof {
            lemma_recorded_steps_step(step as int, stride as int);
        }
        if step % stride == 0 {
            let b = lattice.bond_sum();
            let m = lattice.total_magnetization();
            let ghost before = moments@;
            assert(MAX_SIDE * MAX_SIDE == 0x4000_0000);
            moments.record(b, m);
            proof {
                assert forall|k: int| 0 <= k < moments@.bond_sums.len() implies -(2 * (sz * sz))
                    <= #[trigger] moments@.bond_sums[k] <= 2 * (sz * sz) by {
                    if k < before.bond_sums.len() {
                        assert(moments@.bond_sums[k] == before.bond_sums[k]);
                    }
                }
                assert forall|k: int| 0 <= k < moments@.magnetizations.len() implies -(sz * sz)
                    <= #[trigger] moments@.magnetizations[k] <= sz * sz by {
                    if k < before.magnetizations.len() {
                        assert(moments@.magnetizations[k] == before.magnetizations[k]);
                    }
                }
                let v = lattice@;
                assert(v.wf() && v.size == v0.size && v.right == v0.right && v.down == v0.down
                    && b as int == v.bond_sum() && m as int == v.magnetization());
                assert(sample_of(v0, b as int, m as int));
                assert forall|k: int| 0 <= k < moments@.bond_sums.len() implies sample_of(
                    v0,
                    #[trigger] moments@.bond_sums[k],
                    moments@.magnetizations[k],
                ) by {
                    if k < before.bond_sums.len() {
                        assert(moments@.bond_sums[k] == before.bond_sums[k]);
                        assert(moments@.magnetizations[k] == before.magnetizations[k]);
                    }
                }
            }
        }
        proof {
            assert((therm_steps + step + 1) * per_pass == (therm_steps + step) * per_pass
                + per_pass) by (nonlinear_arith);
        }
        step = step + 1;
    }
    moments
}

/// `(b, m)` is the bond sum and magnetisation of some configuration of side
/// `size` with `target` negated couplings.
pub open spec fn sample_in(size: int, target: int, b: int, m: int) -> bool {
    exists|v: LatticeView|
        v.wf() && v.size == size && count_negated(v.right + v.down) == target && b == v.bond_sum()
            && m == v.magnetization()
}

/// What one realisation's samples are: `count` pairs, each the bond sum and
/// magnetisation of a lattice of side `size` with `min(negated, 2 * size^2)`
/// negated couplings, within the bounds those imply.
pub open spec fn realization_ok(log: SampleLog, size: int, negated: int, count: int) -> bool {
    let target = if negated <= 2 * (size * size) {
        negated
    } else {
        2 * (size * size)
    };
    &&& log.bond_sums.len() == count
    &&& log.magnetizations.len() == count
    &&& forall|k: int|
        0 <= k < count ==> -(2 * (size * size)) <= #[trigger] log.bond_sums[k] <= 2 * (size * size)
    &&& forall|k: int|
        0 <= k < count ==> -(size * size) <= #[trigger] log.magnetizations[k] <= size * size
    &&& forall|k: int|
        0 <= k < count ==> sample_in(size, target, #[trigger] log.bond_sums[k], log.magnetizations[k])
}

/// For every realisation that [`measure_realizations`] returns, the spreads
/// behind the susceptibility (`M`) and behind the heat capacity (energy
/// `a * B + b * M`, for any integer couplings `a`, `b`) are never negative.
pub proof fn lemma_realization_spreads_nonnegative(log: SampleLog, size: int, negated: int, count: int, a: int, b: int)
    requires
        realization_ok(log, size, negated, count),
    ensures
        spread(log.magnetizations) >= 0,
        a * a * spread(log.bond_sums) + 2 * a * b * cross_spread(log.bond_sums, log.magnetizations)
            + b * b * spread(log.magnetizations) >= 0,
{
    lemma_spread_nonnegative(log.magnetizations);
    lemma_combined_spread_nonnegative(log.bond_sums, log.magnetizations, a, b);
}

/// Samples `max(sample_count, 1)` independent disorder realisations at one
/// temperature: each starts from a fresh lattice in state `init` with
/// `min(negated, 2 * L * L)` negated couplings, and is thermalised and sampled
/// as in [`sample_lattice`].
pub fn measure_realizations(
    size: usize,
    init: InitialState,
    negated: usize,
    therm_steps: usize,
    mc_steps: usize,
    stride: usize,
    sample_count: usize,
    table: &AcceptanceTable,
    rng: &mut rand::rngs::StdRng,
) -> (r: Vec<Moments>)
    requires
        1 <= size <= MAX_SIDE,
        table@.len() == RULE_COUNT,
        stride >= 1,
        mc_steps <= MAX_SAMPLES,
    ensures
        r@.len() == if sample_count == 0 {
            1
        } else {
            sample_count as int
        },
        forall|k: int|
            0 <= k < r@.len() ==> (#[trigger] r@[k]).wf() && realization_ok(
                r@[k]@,
                size as int,
                negated as int,
                recorded_steps(mc_steps as int, stride as int),
            ),
{
    let samples = if sample_count == 0 {
        1
    } else {
        sample_count
    };
    let mut out: Vec<Moments> = Vec::new();
    let mut k: usize = 0;
    while k < samples
        invariant
            k <= samples,
            out@.len() == k,
            1 <= size <= MAX_SIDE,
            table@.len() == RULE_COUNT,
            stride >= 1,
            mc_steps <= MAX_SAMPLES,
            forall|q: int|
                0 <= q < out@.len() ==> (#[trigger] out@[q]).wf() && realization_ok(
                    out@[q]@,
                    size as int,
                    negated as int,
                    recorded_steps(mc_steps as int, stride as int),
                ),
        decreases samples - k,
    {
        let mut lattice = Lattice::new(size, init, negated, rng);
        let ghost v0 = lattice@;
        let m = sample_lattice(&mut lattice, table, therm_steps, mc_steps, stride, rng);
        proof {
            let target = if negated <= 2 * (size * size) {
                negated as int
            } else {
                2 * (size * size)
            };
            assert forall|q: int| 0 <= q < m@.bond_sums.len() implies sample_in(
                size as int,
                target,
                #[trigger] m@.bond_sums[q],
                m@.magnetizations[q],
            ) by {
                assert(sample_of(v0, m@.bond_sums[q], m@.magnetizations[q]));
                let v = choose|v: LatticeView|
                    v.wf() && v.size == v0.size && v.right == v0.right && v.down == v0.down
                        && m@.bond_sums[q] == v.bond_sum() && m@.magnetizations[q]
                        == v.magnetization();
                assert(v.wf() && v.size == size && count_negated(v.right + v.down) == target
                    && m@.bond_sums[q] == v.bond_sum() && m@.magnetizations[q] == v.magnetization());
            }
        }
        let ghost before = out@;
        out.push(m);
        proof {
            assert forall|q: int| 0 <= q < out@.len() implies (#[trigger] out@[q]).wf()
                && realization_ok(
                out@[q]@,
                size as int,
                negated as int,
                recorded_steps(mc_steps as int, stride as int),
            ) by {
                if q < before.len() {
                    assert(out@[q] == before[q]);
                }
            }
        }
        k = k + 1;
    }
    out
}

} // verus!
