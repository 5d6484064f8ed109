//! Identities between the energy functions of a lattice.
use vstd::prelude::*;
use crate::lattice::{all_unit, count_negated, sum_range, LatticeView};

verus! {

proof fn lemma_mod_cases(n: int, k: int)
    requires
        0 <= k < n,
    ensures
        k % n == k,
        (k + n) % n == k,
        n % n == 0,
{
    vstd::arithmetic::div_mod::lemma_small_mod(k as nat, n as nat);
    vstd::arithmetic::div_mod::lemma_mod_add_multiples_vanish(k, n);
    vstd::arithmetic::div_mod::lemma_mod_self_0(n);
}

proof fn lemma_sum_congr(f: spec_fn(int) -> int, g: spec_fn(int) -> int, n: int)
    requires
        forall|k: int| 0 <= k < n ==> #[trigger] f(k) == g(k),
    ensures
        sum_range(f, n) == sum_range(g, n),
    decreases n,
{
    if n > 0 {
        lemma_sum_congr(f, g, n - 1);
    }
}

proof fn lemma_sum_add(h: spec_fn(int) -> int, f: spec_fn(int) -> int, g: spec_fn(int) -> int, n: int)
    requires
        forall|k: int| 0 <= k < n ==> #[trigger] h(k) == f(k) + g(k),
    ensures
        sum_range(h, n) == sum_range(f, n) + sum_range(g, n),
    decreases n,
{
    if n > 0 {
        lemma_sum_add(h, f, g, n - 1);
    }
}

proof fn lemma_sum_const(f: spec_fn(int) -> int, c: int, n: int)
    requires
        0 <= n,
        forall|k: int| 0 <= k < n ==> #[trigger] f(k) == c,
    ensures
        sum_range(f, n) == n * c,
    decreases n,
{
    if n > 0 {
        lemma_sum_const(f, c, n - 1);
        assert(sum_range(f, n) == sum_range(f, n - 1) + f(n - 1));
        assert(f(n - 1) == c);
        assert(n * c == (n - 1) * c + c) by (nonlinear_arith);
    } else {
        assert(n * c == 0) by (nonlinear_arith)
            requires
                n == 0,
        ;
    }
}

proof fn lemma_sum_peel_first(f: spec_fn(int) -> int, n: int)
    requires
        n >= 1,
    ensures
        sum_range(f, n) == f(0) + sum_range(|k: int| f(k + 1), n - 1),
    decreases n,
{
    let f1 = |k: int| f(k + 1);
    if n > 1 {
        lemma_sum_peel_first(f, n - 1);
        assert(sum_range(f1, n - 1) == sum_range(f1, n - 2) + f1(n - 2));
        assert(sum_range(f, n) == sum_range(f, n - 1) + f(n - 1));
    } else {
        assert(sum_range(f, 1) == sum_range(f, 0) + f(0));
        assert(sum_range(f1, 0) == 0);
    }
}

/// Summing `f` over a cyclic shift by one of `0..n` gives the plain sum.
proof fn lemma_sum_rotate(f: spec_fn(int) -> int, g: spec_fn(int) -> int, n: int)
    requires
        n >= 1,
        forall|k: int| 0 <= k < n ==> #[trigger] g(k) == f((k + n - 1) % n),
    ensures
        sum_range(g, n) == sum_range(f, n),
{
    lemma_sum_peel_first(g, n);
    let g1 = |k: int| g(k + 1);
    assert forall|k: int| 0 <= k < n - 1 implies #[trigger] g1(k) == f(k) by {
        assert(g(k + 1) == f((k + 1 + n - 1) % n));
        assert((k + 1 + n - 1) % n == k) by {
            assert(k + 1 + n - 1 == k + n);
            lemma_mod_cases(n, k);
        }
    }
    lemma_sum_congr(g1, f, n - 1);
    lemma_mod_cases(n, n - 1);
    assert((0 + n - 1) % n == n - 1);
}

impl LatticeView {
    /// Contribution of the bond to the right of `(i, j)`.
    pub open spec fn right_part(&self, i: int, j: int) -> int {
        self.spin(i, j) * (self.right_bond(i, j) * self.spin(i, self.after(j)))
    }

    /// Contribution of the bond below `(i, j)`.
    pub open spec fn down_part(&self, i: int, j: int) -> int {
        self.spin(i, j) * (self.down_bond(i, j) * self.spin(self.after(i), j))
    }

    pub open spec fn right_parts(&self, i: int) -> spec_fn(int) -> int {
        |j: int| self.right_part(i, j)
    }

    pub open spec fn down_parts(&self, i: int) -> spec_fn(int) -> int {
        |j: int| self.down_part(i, j)
    }

    pub open spec fn right_row_sums(&self) -> spec_fn(int) -> int {
        |i: int| sum_range(self.right_parts(i), self.size)
    }

    pub open spec fn down_row_sums(&self) -> spec_fn(int) -> int {
        |i: int| sum_range(self.down_parts(i), self.size)
    }

    pub open spec fn coupling_row(&self, i: int) -> spec_fn(int) -> int {
        |j: int| self.coupling(i, j)
    }

    pub open spec fn coupling_rows(&self) -> spec_fn(int) -> int {
        |i: int| sum_range(self.coupling_row(i), self.size)
    }

    /// Sum of the site couplings over all sites.
    pub open spec fn coupling_total(&self) -> int {
        sum_range(self.coupling_rows(), self.size)
    }

    /// The energy sum of the same spins with every coupling `+J`: each
    /// nearest-neighbour pair counted once.
    pub open spec fn ferromagnetic_sum(&self) -> int {
        sum_range(
            |i: int| sum_range(|j: int| self.spin(i, j) * (self.spin(i, self.after(j)) + self.spin(self.after(i), j)), self.size),
            self.size,
        )
    }
}

proof fn lemma_site_split(v: LatticeView, i: int, j: int)
    requires
        v.wf(),
        0 <= i < v.size,
        0 <= j < v.size,
    ensures
        v.owned_bonds(i, j) == v.right_part(i, j) + v.down_part(i, j),
        v.coupling(i, j) == v.right_part(i, j) + v.down_part(i, j) + v.down_part(v.before(i), j)
            + v.right_part(i, v.before(j)),
{
    let n = v.size;
    let bi = v.before(i);
    let bj = v.before(j);
    assert(v.after(bi) == i) by {
        if i == 0 {
            lemma_mod_cases(n, n - 1);
            assert((0 + n - 1) % n == n - 1);
            assert((n - 1 + 1) % n == 0);
        } else {
            lemma_mod_cases(n, i - 1);
            lemma_mod_cases(n, i);
            assert((i + n - 1) % n == i - 1) by {
                assert(i + n - 1 == (i - 1) + n);
            }
        }
    }
    assert(v.after(bj) == j) by {
        if j == 0 {
            lemma_mod_cases(n, n - 1);
            assert((0 + n - 1) % n == n - 1);
            assert((n - 1 + 1) % n == 0);
        } else {
            lemma_mod_cases(n, j - 1);
            lemma_mod_cases(n, j);
            assert((j + n - 1) % n == j - 1) by {
                assert(j + n - 1 == (j - 1) + n);
            }
        }
    }
    let s = v.spin(i, j);
    let a = v.down_bond(bi, j);
    let b = v.spin(bi, j);
    let c = v.down_bond(i, j);
    let d = v.spin(v.after(i), j);
    let e = v.right_bond(i, bj);
    let f = v.spin(i, bj);
    let g = v.right_bond(i, j);
    let h = v.spin(i, v.after(j));
    assert(s * (a * b + c * d + e * f + g * h) == s * (g * h) + s * (c * d) + b * (a * s) + f * (e
        * s)) by (nonlinear_arith);
    assert(s * (g * h + c * d) == s * (g * h) + s * (c * d)) by (nonlinear_arith);
}

/// Adding up the site couplings counts every bond twice: the sum over all
/// sites of `coupling(i, j)` is twice `bond_sum`. With `E_site = -J * coupling
/// - H * spin`, the site energies add up to `2 * (E + H * M) - H * M`, so the
/// total energy counts each bond once.
pub proof fn lemma_site_couplings_count_bonds_twice(v: LatticeView)
    requires
        v.wf(),
    ensures
        v.coupling_total() == 2 * v.bond_sum(),
{
    let n = v.size;
    assert forall|i: int| 0 <= i < n implies #[trigger] v.coupling_rows()(i) == v.right_row_sums()(i)
        + v.right_row_sums()(i) + v.down_row_sums()(i) + v.down_row_sums()(v.before(i)) by {
        let bi = v.before(i);
        let shifted_right = |j: int| v.right_part(i, v.before(j));
        let shifted_down = v.down_parts(bi);
        let rd = |j: int| v.right_part(i, j) + v.down_part(i, j);
        let rds = |j: int| v.right_part(i, j) + v.down_part(i, j) + v.down_part(bi, j);
        assert forall|j: int| 0 <= j < n implies #[trigger] v.coupling_row(i)(j) == rds(j)
            + shifted_right(j) by {
            lemma_site_split(v, i, j);
        }
        lemma_sum_add(v.coupling_row(i), rds, shifted_right, n);
        lemma_sum_add(rds, rd, shifted_down, n);
        lemma_sum_add(rd, v.right_parts(i), v.down_parts(i), n);
        lemma_sum_rotate(v.right_parts(i), shifted_right, n);
        assert(0 <= bi < n);
    }
    let r2 = |i: int| v.right_row_sums()(i) + v.right_row_sums()(i);
    let r2d = |i: int| r2(i) + v.down_row_sums()(i);
    let shifted = |i: int| v.down_row_sums()(v.before(i));
    assert forall|i: int| 0 <= i < n implies #[trigger] v.coupling_rows()(i) == r2d(i) + shifted(i) by {
    }
    lemma_sum_add(v.coupling_rows(), r2d, shifted, n);
    lemma_sum_add(r2d, r2, v.down_row_sums(), n);
    lemma_sum_add(r2, v.right_row_sums(), v.right_row_sums(), n);
    lemma_sum_rotate(v.down_row_sums(), shifted, n);
    assert forall|i: int| 0 <= i < n implies #[trigger] v.owned_rows()(i) == v.right_row_sums()(i)
        + v.down_row_sums()(i) by {
        assert forall|j: int| 0 <= j < n implies #[trigger] v.owned_row(i)(j) == v.right_parts(i)(j)
            + v.down_parts(i)(j) by {
            lemma_site_split(v, i, j);
        }
        lemma_sum_add(v.owned_row(i), v.right_parts(i), v.down_parts(i), n);
    }
    lemma_sum_add(v.owned_rows(), v.right_row_sums(), v.down_row_sums(), n);
}

/// A coupling sequence without negated entries holds only `+1`.
pub proof fn lemma_no_negated_all_positive(s: Seq<i8>)
    requires
        all_unit(s),
        count_negated(s) == 0,
    ensures
        forall|k: int| 0 <= k < s.len() ==> #[trigger] s[k] == 1,
    decreases s.len(),
{
    if s.len() > 0 {
        let t = s.drop_last();
        assert forall|k: int| 0 <= k < t.len() implies (#[trigger] t[k] == 1 || t[k] == -1) by {
            assert(t[k] == s[k]);
        }
        lemma_no_negated_all_positive(t);
        assert forall|k: int| 0 <= k < s.len() implies #[trigger] s[k] == 1 by {
            if k < s.len() - 1 {
                assert(s[k] == t[k]);
            }
        }
    }
}

/// Without disorder (no negated coupling) every coupling is `+J`, and the
/// energy sum is that of the plain ferromagnetic Ising model.
pub proof fn lemma_no_disorder_is_ferromagnetic(v: LatticeView)
    requires
        v.wf(),
        count_negated(v.right + v.down) == 0,
    ensures
        forall|k: int| 0 <= k < v.size * v.size ==> #[trigger] v.right[k] == 1 && v.down[k] == 1,
        v.bond_sum() == v.ferromagnetic_sum(),
{
    let n = v.size;
    let both = v.right + v.down;
    assert forall|k: int| 0 <= k < both.len() implies (#[trigger] both[k] == 1 || both[k] == -1) by {
        if k < v.right.len() {
            assert(both[k] == v.right[k]);
        } else {
            assert(both[k] == v.down[k - v.right.len()]);
        }
    }
    lemma_no_negated_all_positive(both);
    assert forall|k: int| 0 <= k < n * n implies #[trigger] v.right[k] == 1 && v.down[k] == 1 by {
        assert(both[k] == v.right[k]);
        assert(both[k + n * n] == v.down[k]);
    }
    let ferro_row = |i: int| sum_range(|j: int| v.spin(i, j) * (v.spin(i, v.after(j)) + v.spin(v.after(i), j)), n);
    assert forall|i: int| 0 <= i < n implies #[trigger] v.owned_rows()(i) == ferro_row(i) by {
        let fr = |j: int| v.spin(i, j) * (v.spin(i, v.after(j)) + v.spin(v.after(i), j));
        assert forall|j: int| 0 <= j < n implies #[trigger] v.owned_row(i)(j) == fr(j) by {
            crate::lattice::lemma_index_in_grid(n, i, j);
            assert(v.right[v.index(i, j)] == 1 && v.down[v.index(i, j)] == 1);
        }
        lemma_sum_congr(v.owned_row(i), fr, n);
    }
    lemma_sum_congr(v.owned_rows(), ferro_row, n);
}

/// A lattice with every spin `+1` and no negated coupling is fully
/// magnetised (`M = L * L`) and in its ground state: every site has coupling
/// `4`, so reversing any one spin changes the energy by `8 * J` at zero field,
/// never lowering it for `J >= 0`.
pub proof fn lemma_all_up_ground_state(v: LatticeView)
    requires
        v.wf(),
        count_negated(v.right + v.down) == 0,
        forall|k: int| 0 <= k < v.size * v.size ==> #[trigger] v.spins[k] == 1,
    ensures
        v.magnetization() == v.size * v.size,
        forall|i: int, j: int| 0 <= i < v.size && 0 <= j < v.size ==> #[trigger] v.coupling(i, j) == 4,
{
    let n = v.size;
    lemma_no_disorder_is_ferromagnetic(v);
    assert forall|i: int, j: int| 0 <= i < n && 0 <= j < n implies #[trigger] v.spin(i, j) == 1
        && v.right_bond(i, j) == 1 && v.down_bond(i, j) == 1 by {
        crate::lattice::lemma_index_in_grid(n, i, j);
    }
    assert forall|i: int, j: int| 0 <= i < n && 0 <= j < n implies #[trigger] v.coupling(i, j) == 4 by {
        assert(0 <= v.before(i) < n && 0 <= v.after(i) < n);
        assert(0 <= v.before(j) < n && 0 <= v.after(j) < n);
        assert(v.spin(v.before(i), j) == 1);
        assert(v.spin(v.after(i), j) == 1);
        assert(v.spin(i, v.before(j)) == 1);
        assert(v.spin(i, v.after(j)) == 1);
        assert(v.down_bond(v.before(i), j) == 1);
        assert(v.right_bond(i, v.before(j)) == 1);
    }
    assert forall|i: int| 0 <= i < n implies #[trigger] v.spin_rows()(i) == n by {
        assert forall|j: int| 0 <= j < n implies #[trigger] v.spin_row(i)(j) == 1 by {}
        lemma_sum_const(v.spin_row(i), 1, n);
    }
    lemma_sum_const(v.spin_rows(), n, n);
}

} // verus!
