//! The square lattice of spins with quenched ±J bond disorder.
//!
//! Couplings are stored as signs (`+1` for `+J`, `-1` for `-J`), so every
//! energy here is an integer in units of `J`: the energy of a configuration is
//! `-J * bond_sum - H * magnetization`.
use vstd::prelude::*;
use crate::params::InitialState;
use crate::rng::{next_u64, shuffle_flags, uniform_index};

verus! {

/// Largest accepted side length: it keeps every index, energy and moment sum
/// within the machine integers used for them.
pub const MAX_SIDE: usize = 32768;

/// Raw draws below this value (after dropping the 11 low bits) stand for a
/// uniform number below one half.
pub const HALF_OF_53_BITS: u64 = 0x10_0000_0000_0000;

/// Sum of `f(0) + ... + f(n - 1)`.
pub open spec fn sum_range(f: spec_fn(int) -> int, n: int) -> int
    decreases n,
{
    if n <= 0 {
        0
    } else {
        sum_range(f, n - 1) + f(n - 1)
    }
}

/// The coupling sign that a disorder flag stands for.
pub open spec fn bond_of(negated: bool) -> i8 {
    if negated {
        -1i8
    } else {
        1i8
    }
}

/// The entries of `s` that are `true`.
pub open spec fn count_true(s: Seq<bool>) -> nat
    decreases s.len(),
{
    if s.len() == 0 {
        0
    } else {
        count_true(s.drop_last()) + if s.last() {
            1nat
        } else {
            0nat
        }
    }
}

/// The negated couplings (`-1` entries) of `s`.
pub open spec fn count_negated(s: Seq<i8>) -> nat
    decreases s.len(),
{
    if s.len() == 0 {
        0
    } else {
        count_negated(s.drop_last()) + if s.last() == -1 {
            1nat
        } else {
            0nat
        }
    }
}

pub open spec fn all_unit(s: Seq<i8>) -> bool {
    forall|k: int| 0 <= k < s.len() ==> (#[trigger] s[k] == 1 || s[k] == -1)
}

/// The mathematical content of a lattice: side length, spins and the
/// right-hand and downward coupling of every site, all stored row by row.
pub ghost struct LatticeView {
    pub size: int,
    pub spins: Seq<i8>,
    pub right: Seq<i8>,
    pub down: Seq<i8>,
}

impl LatticeView {
    pub open spec fn wf(&self) -> bool {
        &&& 1 <= self.size <= MAX_SIDE
        &&& self.spins.len() == self.size * self.size
        &&& self.right.len() == self.size * self.size
        &&& self.down.len() == self.size * self.size
        &&& all_unit(self.spins)
        &&& all_unit(self.right)
        &&& all_unit(self.down)
    }

    pub open spec fn index(&self, i: int, j: int) -> int {
        i * self.size + j
    }

    pub open spec fn spin(&self, i: int, j: int) -> int {
        self.spins[self.index(i, j)] as int
    }

    /// Coupling sign of the bond from `(i, j)` to its right neighbour.
    pub open spec fn right_bond(&self, i: int, j: int) -> int {
        self.right[self.index(i, j)] as int
    }

    /// Coupling sign of the bond from `(i, j)` to the neighbour below it.
    pub open spec fn down_bond(&self, i: int, j: int) -> int {
        self.down[self.index(i, j)] as int
    }

    /// Periodic predecessor of a row or column index.
    pub open spec fn before(&self, i: int) -> int {
        (i + self.size - 1) % self.size
    }

    /// Periodic successor of a row or column index.
    pub open spec fn after(&self, i: int) -> int {
        (i + 1) % self.size
    }

    /// `spin * (sum of coupling * neighbour)` over the four bonds of `(i, j)`;
    /// the site's energy is `-J * coupling - H * spin`.
    pub open spec fn coupling(&self, i: int, j: int) -> int {
        let up = self.before(i);
        let dn = self.after(i);
        let lf = self.before(j);
        let rt = self.after(j);
        self.spin(i, j) * (self.down_bond(up, j) * self.spin(up, j) + self.down_bond(i, j)
            * self.spin(dn, j) + self.right_bond(i, lf) * self.spin(i, lf) + self.right_bond(i, j)
            * self.spin(i, rt))
    }

    /// The two bonds that site `(i, j)` owns: to its right and below.
    pub open spec fn owned_bonds(&self, i: int, j: int) -> int {
        self.spin(i, j) * (self.right_bond(i, j) * self.spin(i, self.after(j)) + self.down_bond(
            i,
            j,
        ) * self.spin(self.after(i), j))
    }

    pub open spec fn owned_row(&self, i: int) -> spec_fn(int) -> int {
        |j: int| self.owned_bonds(i, j)
    }

    pub open spec fn owned_rows(&self) -> spec_fn(int) -> int {
        |i: int| sum_range(self.owned_row(i), self.size)
    }

    /// Sum of `coupling * spin * neighbour` over every bond, each counted once;
    /// the energy is `-J * bond_sum - H * magnetization`.
    pub open spec fn bond_sum(&self) -> int {
        sum_range(self.owned_rows(), self.size)
    }

    pub open spec fn spin_row(&self, i: int) -> spec_fn(int) -> int {
        |j: int| self.spin(i, j)
    }

    pub open spec fn spin_rows(&self) -> spec_fn(int) -> int {
        |i: int| sum_range(self.spin_row(i), self.size)
    }

    /// Sum of all spins.
    pub open spec fn magnetization(&self) -> int {
        sum_range(self.spin_rows(), self.size)
    }

    /// The configuration with the spin at `(i, j)` reversed.
    pub open spec fn flipped(&self, i: int, j: int) -> LatticeView {
        LatticeView {
            spins: self.spins.update(self.index(i, j), (-self.spins[self.index(i, j)]) as i8),
            ..*self
        }
    }
}

pub proof fn lemma_index_in_grid(size: int, i: int, j: int)
    requires
        0 <= i < size,
        0 <= j < size,
    ensures
        0 <= i * size + j < size * size,
        0 <= i * size <= i * size + j,
{
    assert(0 <= i * size + j < size * size) by (nonlinear_arith)
        requires
            0 <= i < size,
            0 <= j < size,
    ;
    assert(0 <= i * size) by (nonlinear_arith)
        requires
            0 <= i < size,
    ;
}

pub proof fn lemma_grid_fits(size: int)
    requires
        1 <= size <= MAX_SIDE,
    ensures
        size <= size * size <= MAX_SIDE * MAX_SIDE,
{
    assert(size <= size * size <= MAX_SIDE * MAX_SIDE) by (nonlinear_arith)
        requires
            1 <= size <= MAX_SIDE,
    ;
}

/// Every spin and coupling of a well-formed lattice is `+1` or `-1`.
pub proof fn lemma_site_units(v: LatticeView, i: int, j: int)
    requires
        v.wf(),
        0 <= i < v.size,
        0 <= j < v.size,
    ensures
        v.spin(i, j) == 1 || v.spin(i, j) == -1,
        v.right_bond(i, j) == 1 || v.right_bond(i, j) == -1,
        v.down_bond(i, j) == 1 || v.down_bond(i, j) == -1,
{
    lemma_index_in_grid(v.size, i, j);
    assert(v.spins[v.index(i, j)] == 1 || v.spins[v.index(i, j)] == -1);
    assert(v.right[v.index(i, j)] == 1 || v.right[v.index(i, j)] == -1);
    assert(v.down[v.index(i, j)] == 1 || v.down[v.index(i, j)] == -1);
}

proof fn lemma_unit_product(a: int, b: int)
    requires
        a == 1 || a == -1,
        b == 1 || b == -1,
    ensures
        a * b == 1 || a * b == -1,
{
    if a == 1 {
    } else {
    }
}

proof fn lemma_unit_scale(s: int, x: int, b: int)
    requires
        s == 1 || s == -1,
        -b <= x <= b,
    ensures
        -b <= s * x <= b,
{
    if s == 1 {
    } else {
    }
}

/// A configuration of spins and couplings on an `L` by `L` torus.
pub struct Lattice {
    size: usize,
    spins: Vec<i8>,
    right: Vec<i8>,
    down: Vec<i8>,
    trials: Ghost<nat>,
}

impl View for Lattice {
    type V = LatticeView;

    closed spec fn view(&self) -> LatticeView {
        LatticeView { size: self.size as int, spins: self.spins@, right: self.right@, down: self.down@ }
    }
}

fn all_unit_vec(v: &Vec<i8>) -> (r: bool)
    ensures
        r == all_unit(v@),
{
    let mut k: usize = 0;
    while k < v.len()
        invariant
            k <= v.len(),
            forall|m: int| 0 <= m < k ==> (#[trigger] v@[m] == 1 || v@[m] == -1),
        decreases v.len() - k,
    {
        if v[k] != 1 && v[k] != -1 {
            return false;
        }
        k = k + 1;
    }
    true
}

/// Disorder flags before shuffling: the first `target` of `total` are set.
pub open spec fn initial_flags(total: int, target: int) -> Seq<bool> {
    Seq::new(total as nat, |k: int| k < target)
}

proof fn lemma_count_true_prefix(total: int, target: int)
    requires
        0 <= target <= total,
    ensures
        count_true(initial_flags(total, target)) == target,
    decreases total,
{
    if total > 0 {
        let s = initial_flags(total, target);
        assert(s.drop_last() =~= initial_flags(total - 1, if target == total {
            total - 1
        } else {
            target
        }));
        if target == total {
            lemma_count_true_prefix(total - 1, total - 1);
        } else {
            lemma_count_true_prefix(total - 1, target);
        }
    }
}

proof fn lemma_count_true_multiset(s: Seq<bool>)
    ensures
        count_true(s) == s.to_multiset().count(true),
    decreases s.len(),
{
    broadcast use vstd::multiset::group_multiset_axioms;
    broadcast use vstd::seq_lib::to_multiset_build;

    if s.len() == 0 {
        s.to_multiset_ensures();
        assert(!s.contains(true));
    } else {
        lemma_count_true_multiset(s.drop_last());
        assert(s =~= s.drop_last().push(s.last()));
        assert(s.to_multiset() =~= s.drop_last().to_multiset().insert(s.last()));
    }
}

proof fn lemma_count_negated_of_flags(f: Seq<bool>)
    ensures
        count_negated(f.map_values(|b: bool| bond_of(b))) == count_true(f),
    decreases f.len(),
{
    if f.len() > 0 {
        lemma_count_negated_of_flags(f.drop_last());
        assert(f.map_values(|b: bool| bond_of(b)).drop_last() =~= f.drop_last().map_values(
            |b: bool| bond_of(b),
        ));
    }
}

/// Draws the couplings of a lattice with side `size`: of its `2 * (size * size)`
/// bonds, exactly `min(negated, 2 * (size * size))` chosen by a uniform shuffle
/// are `-J`; the first `size * size` flags give the right-hand bonds, the rest
/// the downward bonds.
pub fn build_bonds(size: usize, negated: usize, rng: &mut rand::rngs::StdRng) -> (r: (
    Vec<i8>,
    Vec<i8>,
))
    requires
        1 <= size <= MAX_SIDE,
    ensures
        r.0@.len() == size * size,
        r.1@.len() == size * size,
        all_unit(r.0@),
        all_unit(r.1@),
        count_negated(r.0@ + r.1@) == if negated <= 2 * (size * size) {
            negated as int
        } else {
            2 * (size * size)
        },
        negated == 0 ==> forall|k: int| 0 <= k < size * size ==> #[trigger] r.0@[k] == 1 && r.1@[k] == 1,
{
    proof {
        assert(size * size <= MAX_SIDE * MAX_SIDE) by (nonlinear_arith)
            requires
                1 <= size <= MAX_SIDE,
        ;
    }
    let n = size * size;
    let total = 2 * n;
    let target = if negated > total {
        total
    } else {
        negated
    };
    let mut flags: Vec<bool> = Vec::new();
    let mut k: usize = 0;
    while k < total
        invariant
            k <= total,
            flags@ =~= initial_flags(total as int, target as int).take(k as int),
        decreases total - k,
    {
        flags.push(k < target);
        k = k + 1;
    }
    let ghost before = flags@;
    proof {
        assert(before =~= initial_flags(total as int, target as int));
        lemma_count_true_prefix(total as int, target as int);
        lemma_count_true_multiset(before);
    }
    shuffle_flags(&mut flags, rng);
    let mut right: Vec<i8> = Vec::new();
    let mut down: Vec<i8> = Vec::new();
    let mut k: usize = 0;
    while k < n
        invariant
            k <= n,
            total == 2 * n,
            flags@.len() == total,
            right@ =~= flags@.take(k as int).map_values(|b: bool| bond_of(b)),
        decreases n - k,
    {
        right.push(if flags[k] { -1i8 } else { 1i8 });
        k = k + 1;
    }
    let mut k: usize = n;
    while k < total
        invariant
            n <= k <= total,
            total == 2 * n,
            flags@.len() == total,
            down@ =~= flags@.subrange(n as int, k as int).map_values(|b: bool| bond_of(b)),
        decreases total - k,
    {
        down.push(if flags[k] { -1i8 } else { 1i8 });
        k = k + 1;
    }
    proof {
        assert(right@ + down@ =~= flags@.map_values(|b: bool| bond_of(b)));
        lemma_count_negated_of_flags(flags@);
        lemma_count_true_multiset(flags@);
        assert(count_true(flags@) == count_true(before));
        assert(count_true(before) == target);
        assert(count_negated(right@ + down@) == target);
        if negated == 0 {
            let both = right@ + down@;
            assert forall|k: int| 0 <= k < both.len() implies (#[trigger] both[k] == 1 || both[k]
                == -1) by {
                if k < n {
                    assert(both[k] == right@[k]);
                } else {
                    assert(both[k] == down@[k - n]);
                }
            }
            crate::energy_laws::lemma_no_negated_all_positive(both);
            assert forall|k: int| 0 <= k < n implies #[trigger] right@[k] == 1 && down@[k] == 1 by {
                assert(both[k] == right@[k]);
                assert(both[k + n] == down@[k]);
            }
        }
    }
    (right, down)
}

/// Sum of a sequence of counts.
pub open spec fn count_total(s: Seq<usize>) -> int
    decreases s.len(),
{
    if s.len() == 0 {
        0
    } else {
        count_total(s.drop_last()) + s.last()
    }
}

proof fn lemma_count_total_bump(s: Seq<usize>, k: int, v: usize)
    requires
        0 <= k < s.len(),
        v == s[k] + 1,
    ensures
        count_total(s.update(k, v)) == count_total(s) + 1,
    decreases s.len(),
{
    let t = s.update(k, v);
    if k < s.len() - 1 {
        assert(t.drop_last() =~= s.drop_last().update(k, v));
        lemma_count_total_bump(s.drop_last(), k, v);
    } else {
        assert(t.drop_last() =~= s.drop_last());
    }
}

proof fn lemma_count_total_zero(s: Seq<usize>)
    requires
        forall|k: int| 0 <= k < s.len() ==> #[trigger] s[k] == 0,
    ensures
        count_total(s) == 0,
    decreases s.len(),
{
    if s.len() > 0 {
        lemma_count_total_zero(s.drop_last());
    }
}

proof fn lemma_count_negated_concat(a: Seq<i8>, b: Seq<i8>)
    ensures
        count_negated(a + b) == count_negated(a) + count_negated(b),
    decreases b.len(),
{
    if b.len() == 0 {
        assert(a + b =~= a);
    } else {
        lemma_count_negated_concat(a, b.drop_last());
        assert((a + b).drop_last() =~= a + b.drop_last());
    }
}

/// For each bond position, in how many of `max(samples, 1)` independent
/// disorder draws (see [`build_bonds`]) that bond is `-J`: right-hand bonds
/// first, then downward bonds, each row by row.
pub fn bond_negation_counts(size: usize, negated: usize, samples: usize, rng: &mut rand::rngs::StdRng) -> (r: (
    Vec<usize>,
    Vec<usize>,
))
    requires
        1 <= size <= MAX_SIDE,
    ensures
        r.0@.len() == size * size,
        r.1@.len() == size * size,
        forall|k: int| 0 <= k < size * size ==> #[trigger] r.0@[k] <= if samples == 0 {
            1
        } else {
            samples as int
        },
        forall|k: int| 0 <= k < size * size ==> #[trigger] r.1@[k] <= if samples == 0 {
            1
        } else {
            samples as int
        },
        count_total(r.0@) + count_total(r.1@) == (if samples == 0 {
            1
        } else {
            samples as int
        }) * (if negated <= 2 * (size * size) {
            negated as int
        } else {
            2 * (size * size)
        }),
{
    proof {
        lemma_grid_fits(size as int);
    }
    let ghost target: int = if negated <= 2 * (size * size) {
        negated as int
    } else {
        2 * (size * size)
    };
    let n = size * size;
    let rounds = if samples == 0 {
        1
    } else {
        samples
    };
    let mut right_counts: Vec<usize> = vec![0; n];
    let mut down_counts: Vec<usize> = vec![0; n];
    proof {
        lemma_count_total_zero(right_counts@);
        lemma_count_total_zero(down_counts@);
    }
    let mut s: usize = 0;
    while s < rounds
        invariant
            s <= rounds,
            1 <= size <= MAX_SIDE,
            n == size * size,
            right_counts@.len() == n,
            down_counts@.len() == n,
            forall|k: int| 0 <= k < n ==> #[trigger] right_counts@[k] <= s,
            forall|k: int| 0 <= k < n ==> #[trigger] down_counts@[k] <= s,
            count_total(right_counts@) + count_total(down_counts@) == s * target,
            target == if negated <= 2 * (size * size) {
                negated as int
            } else {
                2 * (size * size)
            },
        decreases rounds - s,
    {
        let (right, down) = build_bonds(size, negated, rng);
        proof {
            assert(right@.take(0) =~= Seq::<i8>::empty());
            assert(down@.take(0) =~= Seq::<i8>::empty());
        }
        let mut k: usize = 0;
        while k < n
            invariant
                k <= n,
                s < rounds,
                right@.len() == n,
                down@.len() == n,
                right_counts@.len() == n,
                down_counts@.len() == n,
                forall|q: int| 0 <= q < n ==> #[trigger] right_counts@[q] <= s + if q < k {
                    1int
                } else {
                    0int
                },
                forall|q: int| 0 <= q < n ==> #[trigger] down_counts@[q] <= s + if q < k {
                    1int
                } else {
                    0int
                },
                count_total(right_counts@) + count_total(down_counts@) == s * target
                    + count_negated(right@.take(k as int)) + count_negated(down@.take(k as int)),
                count_negated(right@ + down@) == target,
            decreases n - k,
        {
            proof {
                assert(right@.take(k + 1).drop_last() =~= right@.take(k as int));
                assert(down@.take(k + 1).drop_last() =~= down@.take(k as int));
            }
            if right[k] == -1 {
                let c = right_counts[k];
                proof {
                    lemma_count_total_bump(right_counts@, k as int, (c + 1) as usize);
                }
                right_counts.set(k, c + 1);
            }
            if down[k] == -1 {
                let c = down_counts[k];
                proof {
                    lemma_count_total_bump(down_counts@, k as int, (c + 1) as usize);
                }
                down_counts.set(k, c + 1);
            }
            k = k + 1;
        }
        proof {
            assert(right@.take(n as int) =~= right@);
            assert(down@.take(n as int) =~= down@);
            lemma_count_negated_concat(right@, down@);
            assert(s * target + target == (s + 1) * target) by (nonlinear_arith);
        }
        s = s + 1;
    }
    (right_counts, down_counts)
}

/// Outcome of a trial flip, chosen from the flip's energy change `dE`.
#[derive(Clone, Copy, Debug, PartialEq, Eq, Structural)]
pub struct FlipRule {
    /// `dE > 0`: the flip is accepted only with probability `exp(-dE / T)`.
    pub uphill: bool,
    /// For an uphill flip, a raw 64-bit draw `x` accepts when
    /// `(x >> 11) < threshold`, that is when the uniform number
    /// `(x >> 11) / 2^53` lies below `threshold / 2^53`.
    pub threshold: u64,
}

/// Whether a trial flip under `rule` is kept, given the raw draw.
pub open spec fn accepts(rule: FlipRule, draw: u64) -> bool {
    !rule.uphill || (draw >> 11u64) < rule.threshold
}

/// Number of entries of an acceptance table: couplings `-4..=4`, two spin signs.
pub const RULE_COUNT: usize = 18;

/// Position of the rule for a site with the given coupling and spin.
pub open spec fn rule_index(coupling: int, spin: int) -> int {
    (coupling + 4) * 2 + if spin > 0 {
        1int
    } else {
        0int
    }
}

/// The flip rules of one temperature, field and coupling strength, one per
/// combination of a site's coupling (`-4..=4`) and spin sign.
pub struct AcceptanceTable {
    rules: Vec<FlipRule>,
}

impl View for AcceptanceTable {
    type V = Seq<FlipRule>;

    closed spec fn view(&self) -> Seq<FlipRule> {
        self.rules@
    }
}

impl AcceptanceTable {
    pub open spec fn rule(&self, coupling: int, spin: int) -> FlipRule {
        self@[rule_index(coupling, spin)]
    }

    /// A table from rules listed by coupling `-4..=4` and, within each,
    /// spin `-1` then `+1`; `None` unless exactly that many are given.
    pub fn from_rules(rules: Vec<FlipRule>) -> (r: Option<AcceptanceTable>)
        ensures
            r is Some <==> rules@.len() == RULE_COUNT,
            r matches Some(t) ==> t@ == rules@,
    {
        if rules.len() == RULE_COUNT {
            Some(AcceptanceTable { rules })
        } else {
            None
        }
    }

    pub fn rule_for(&self, coupling: i32, spin: i8) -> (r: FlipRule)
        requires
            self@.len() == RULE_COUNT,
            -4 <= coupling <= 4,
        ensures
            r == self.rule(coupling as int, spin as int),
    {
        let idx: usize = ((coupling + 4) * 2) as usize + if spin > 0 {
            1usize
        } else {
            0usize
        };
        self.rules[idx]
    }
}

/// Whether a trial flip under `rule` is kept, given a raw 64-bit draw.
pub fn flip_accepted(rule: FlipRule, draw: u64) -> (r: bool)
    ensures
        r == accepts(rule, draw),
{
    !rule.uphill || (draw >> 11u64) < rule.threshold
}

impl Lattice {
    /// Number of Metropolis trials made on this lattice since it was built.
    pub closed spec fn trials(&self) -> nat {
        self.trials@
    }

    /// A lattice from its parts, all stored row by row; `None` unless the
    /// side lies in `1..=MAX_SIDE`, every vector has `size * size` entries and
    /// every entry is `+1` or `-1`.
    pub fn from_parts(size: usize, spins: Vec<i8>, right: Vec<i8>, down: Vec<i8>) -> (r: Option<
        Lattice,
    >)
        ensures
            r is Some <==> (LatticeView {
                size: size as int,
                spins: spins@,
                right: right@,
                down: down@,
            }).wf(),
            r matches Some(l) ==> l@ == (LatticeView {
                size: size as int,
                spins: spins@,
                right: right@,
                down: down@,
            }),
    {
        if size < 1 || size > MAX_SIDE {
            return None;
        }
        proof {
            assert(size * size <= MAX_SIDE * MAX_SIDE) by (nonlinear_arith)
                requires
                    1 <= size <= MAX_SIDE,
            ;
        }
        let n = size * size;
        if spins.len() != n || right.len() != n || down.len() != n {
            return None;
        }
        if !all_unit_vec(&spins) || !all_unit_vec(&right) || !all_unit_vec(&down) {
            return None;
        }
        Some(Lattice { size, spins, right, down, trials: Ghost(0) })
    }

    /// A lattice with every spin set to `value` and disorder drawn as in
    /// [`build_bonds`].
    fn uniform(size: usize, value: i8, negated: usize, rng: &mut rand::rngs::StdRng) -> (r:
        Lattice)
        requires
            1 <= size <= MAX_SIDE,
            value == 1 || value == -1,
        ensures
            r@.wf(),
            r@.size == size,
            forall|k: int| 0 <= k < size * size ==> #[trigger] r@.spins[k] == value,
            count_negated(r@.right + r@.down) == if negated <= 2 * (size * size) {
                negated as int
            } else {
                2 * (size * size)
            },
    {
        proof {
            assert(size * size <= MAX_SIDE * MAX_SIDE) by (nonlinear_arith)
                requires
                    1 <= size <= MAX_SIDE,
            ;
        }
        let n = size * size;
        let spins = vec![value; n];
        let (right, down) = build_bonds(size, negated, rng);
        Lattice { size, spins, right, down, trials: Ghost(0) }
    }

    /// Every spin `+1`; exactly `min(negated, 2 * (size * size))` bonds are `-J`.
    pub fn new_all_up(size: usize, negated: usize, rng: &mut rand::rngs::StdRng) -> (r: Lattice)
        requires
            1 <= size <= MAX_SIDE,
        ensures
            r@.wf(),
            r@.size == size,
            forall|k: int| 0 <= k < size * size ==> #[trigger] r@.spins[k] == 1,
            count_negated(r@.right + r@.down) == if negated <= 2 * (size * size) {
                negated as int
            } else {
                2 * (size * size)
            },
    {
        Lattice::uniform(size, 1, negated, rng)
    }

    /// Every spin `-1`; exactly `min(negated, 2 * (size * size))` bonds are `-J`.
    pub fn new_all_down(size: usize, negated: usize, rng: &mut rand::rngs::StdRng) -> (r: Lattice)
        requires
            1 <= size <= MAX_SIDE,
        ensures
            r@.wf(),
            r@.size == size,
            forall|k: int| 0 <= k < size * size ==> #[trigger] r@.spins[k] == -1,
            count_negated(r@.right + r@.down) == if negated <= 2 * (size * size) {
                negated as int
            } else {
                2 * (size * size)
            },
    {
        Lattice::uniform(size, -1, negated, rng)
    }

    /// Independent fair spins, each `-1` when its uniform draw lies below one
    /// half, drawn before the couplings; exactly `min(negated, 2 * (size * size))`
    /// bonds are `-J`.
    pub fn new_random(size: usize, negated: usize, rng: &mut rand::rngs::StdRng) -> (r: Lattice)
        requires
            1 <= size <= MAX_SIDE,
        ensures
            r@.wf(),
            r@.size == size,
            count_negated(r@.right + r@.down) == if negated <= 2 * (size * size) {
                negated as int
            } else {
                2 * (size * size)
            },
    {
        proof {
            assert(size * size <= MAX_SIDE * MAX_SIDE) by (nonlinear_arith)
                requires
                    1 <= size <= MAX_SIDE,
            ;
        }
        let n = size * size;
        let mut spins: Vec<i8> = Vec::new();
        let mut k: usize = 0;
        while k < n
            invariant
                k <= n,
                spins@.len() == k,
                all_unit(spins@),
            decreases n - k,
        {
            let draw = next_u64(rng);
            spins.push(if (draw >> 11u64) < HALF_OF_53_BITS { -1i8 } else { 1i8 });
            k = k + 1;
        }
        let (right, down) = build_bonds(size, negated, rng);
        Lattice { size, spins, right, down, trials: Ghost(0) }
    }

    /// A lattice started in the given initial state.
    pub fn new(size: usize, init: InitialState, negated: usize, rng: &mut rand::rngs::StdRng) -> (r:
        Lattice)
        requires
            1 <= size <= MAX_SIDE,
        ensures
            r@.wf(),
            r@.size == size,
            init == InitialState::AllUp ==> forall|k: int|
                0 <= k < size * size ==> #[trigger] r@.spins[k] == 1,
            init == InitialState::AllDown ==> forall|k: int|
                0 <= k < size * size ==> #[trigger] r@.spins[k] == -1,
            count_negated(r@.right + r@.down) == if negated <= 2 * (size * size) {
                negated as int
            } else {
                2 * (size * size)
            },
    {
        match init {
            InitialState::Random => Lattice::new_random(size, negated, rng),
            InitialState::AllUp => Lattice::new_all_up(size, negated, rng),
            InitialState::AllDown => Lattice::new_all_down(size, negated, rng),
        }
    }

    pub fn size(&self) -> (r: usize)
        ensures
            r == self@.size,
    {
        self.size
    }

    pub fn spin(&self, i: usize, j: usize) -> (r: i8)
        requires
            self@.wf(),
            i < self@.size,
            j < self@.size,
        ensures
            r == self@.spin(i as int, j as int),
    {
        proof {
            lemma_grid_fits(self.size as int);
            lemma_index_in_grid(self.size as int, i as int, j as int);
        }
        self.spins[i * self.size + j]
    }

    pub fn right_bond(&self, i: usize, j: usize) -> (r: i8)
        requires
            self@.wf(),
            i < self@.size,
            j < self@.size,
        ensures
            r == self@.right_bond(i as int, j as int),
    {
        proof {
            lemma_grid_fits(self.size as int);
            lemma_index_in_grid(self.size as int, i as int, j as int);
        }
        self.right[i * self.size + j]
    }

    pub fn down_bond(&self, i: usize, j: usize) -> (r: i8)
        requires
            self@.wf(),
            i < self@.size,
            j < self@.size,
        ensures
            r == self@.down_bond(i as int, j as int),
    {
        proof {
            lemma_grid_fits(self.size as int);
            lemma_index_in_grid(self.size as int, i as int, j as int);
        }
        self.down[i * self.size + j]
    }
    /// The site's coupling sum (see [`LatticeView::coupling`]); its energy is
    /// `-J * coupling - H * spin`, and reversing the spin changes the total
    /// energy by `2 * J * coupling + 2 * H * spin`.
    pub fn site_coupling(&self, i: usize, j: usize) -> (r: i32)
        requires
            self@.wf(),
            i < self@.size,
            j < self@.size,
        ensures
            r == self@.coupling(i as int, j as int),
            -4 <= r <= 4,
    {
        let l = self.size;
        let up = (i + l - 1) % l;
        let dn = (i + 1) % l;
        let lf = (j + l - 1) % l;
        let rt = (j + 1) % l;
        let s = self.spin(i, j) as i32;
        let bu = self.down_bond(up, j) as i32;
        let su = self.spin(up, j) as i32;
        let bd = self.down_bond(i, j) as i32;
        let sd = self.spin(dn, j) as i32;
        let bl = self.right_bond(i, lf) as i32;
        let sl = self.spin(i, lf) as i32;
        let br = self.right_bond(i, j) as i32;
        let sr = self.spin(i, rt) as i32;
        proof {
            let v = self@;
            lemma_site_units(v, up as int, j as int);
            lemma_site_units(v, i as int, j as int);
            lemma_site_units(v, dn as int, j as int);
            lemma_site_units(v, i as int, lf as int);
            lemma_site_units(v, i as int, rt as int);
            lemma_unit_product(bu as int, su as int);
            lemma_unit_product(bd as int, sd as int);
            lemma_unit_product(bl as int, sl as int);
            lemma_unit_product(br as int, sr as int);
        }
        let a = bu * su;
        let b = bd * sd;
        let c = bl * sl;
        let d = br * sr;
        proof {
            lemma_unit_scale(s as int, (a + b + c + d) as int, 4);
        }
        s * (a + b + c + d)
    }

    /// Contribution of the two bonds owned by `(i, j)`, to its right and below.
    fn owned_bonds(&self, i: usize, j: usize) -> (r: i64)
        requires
            self@.wf(),
            i < self@.size,
            j < self@.size,
        ensures
            r == self@.owned_bonds(i as int, j as int),
            -2 <= r <= 2,
    {
        let l = self.size;
        let dn = (i + 1) % l;
        let rt = (j + 1) % l;
        let s = self.spin(i, j) as i64;
        let br = self.right_bond(i, j) as i64;
        let sr = self.spin(i, rt) as i64;
        let bd = self.down_bond(i, j) as i64;
        let sd = self.spin(dn, j) as i64;
        proof {
            let v = self@;
            lemma_site_units(v, i as int, j as int);
            lemma_site_units(v, dn as int, j as int);
            lemma_site_units(v, i as int, rt as int);
            lemma_unit_product(br as int, sr as int);
            lemma_unit_product(bd as int, sd as int);
        }
        let a = br * sr;
        let b = bd * sd;
        proof {
            lemma_unit_scale(s as int, (a + b) as int, 2);
        }
        s * (a + b)
    }

    /// Sum over every bond, each counted once, of `coupling * spin * neighbour`;
    /// the total energy is `-J * bond_sum - H * total_magnetization`.
    pub fn bond_sum(&self) -> (r: i64)
        requires
            self@.wf(),
        ensures
            r == self@.bond_sum(),
            -(2 * (self@.size * self@.size)) <= r <= 2 * (self@.size * self@.size),
    {
        let l = self.size;
        proof {
            lemma_grid_fits(l as int);
        }
        let mut acc: i64 = 0;
        let mut i: usize = 0;
        while i < l
            invariant
                self@.wf(),
                l == self@.size,
                i <= l,
                acc == sum_range(self@.owned_rows(), i as int),
                -(2 * (i * l)) <= acc <= 2 * (i * l),
                l * l <= MAX_SIDE * MAX_SIDE,
            decreases l - i,
        {
            let mut row: i64 = 0;
            let mut j: usize = 0;
            while j < l
                invariant
                    self@.wf(),
                    l == self@.size,
                    i < l,
                    j <= l,
                    row == sum_range(self@.owned_row(i as int), j as int),
                    -2 * j <= row <= 2 * j,
                decreases l - j,
            {
                let e = self.owned_bonds(i, j);
                row = row + e;
                j = j + 1;
            }
            proof {
                assert((i + 1) * l == i * l + l) by (nonlinear_arith);
                assert((i + 1) * l <= l * l) by (nonlinear_arith)
                    requires
                        i < l,
                ;
            }
            acc = acc + row;
            i = i + 1;
        }
        acc
    }

    /// Sum of all spins.
    pub fn total_magnetization(&self) -> (r: i64)
        requires
            self@.wf(),
        ensures
            r == self@.magnetization(),
            -(self@.size * self@.size) <= r <= self@.size * self@.size,
    {
        let l = self.size;
        proof {
            lemma_grid_fits(l as int);
        }
        let mut acc: i64 = 0;
        let mut i: usize = 0;
        while i < l
            invariant
                self@.wf(),
                l == self@.size,
                i <= l,
                acc == sum_range(self@.spin_rows(), i as int),
                -(i * l) <= acc <= i * l,
                l * l <= MAX_SIDE * MAX_SIDE,
            decreases l - i,
        {
            let mut row: i64 = 0;
            let mut j: usize = 0;
            while j < l
                invariant
                    self@.wf(),
                    l == self@.size,
                    i < l,
                    j <= l,
                    row == sum_range(self@.spin_row(i as int), j as int),
                    -j <= row <= j,
                decreases l - j,
            {
                let s = self.spin(i, j) as i64;
                proof {
                    lemma_grid_fits(l as int);
                    lemma_index_in_grid(l as int, i as int, j as int);
                    let v = self@;
                    assert(v.spins[v.index(i as int, j as int)] == 1 || v.spins[v.index(i as int, j as int)] == -1);
                }
                row = row + s;
                j = j + 1;
            }
            proof {
                assert((i + 1) * l == i * l + l) by (nonlinear_arith);
                assert((i + 1) * l <= l * l) by (nonlinear_arith)
                    requires
                        i < l,
                ;
            }
            acc = acc + row;
            i = i + 1;
        }
        acc
    }

    /// Reverses the spin at `(i, j)`.
    pub fn flip(&mut self, i: usize, j: usize)
        requires
            old(self)@.wf(),
            i < old(self)@.size,
            j < old(self)@.size,
        ensures
            final(self)@ == old(self)@.flipped(i as int, j as int),
            final(self)@.wf(),
            final(self).trials() == old(self).trials(),
    {
        proof {
            lemma_grid_fits(self.size as int);
            lemma_index_in_grid(self.size as int, i as int, j as int);
        }
        let k = i * self.size + j;
        let s = self.spins[k];
        proof {
            assert(self.spins@[k as int] == 1 || self.spins@[k as int] == -1);
        }
        self.spins.set(k, -s);
    }

    /// One Metropolis trial at `(i, j)`: the spin is reversed when the rule of
    /// the site's coupling and spin accepts the raw draw, and left as it was
    /// otherwise.
    pub fn metropolis_update(&mut self, i: usize, j: usize, table: &AcceptanceTable, draw: u64)
        requires
            old(self)@.wf(),
            i < old(self)@.size,
            j < old(self)@.size,
            table@.len() == RULE_COUNT,
        ensures
            final(self)@.wf(),
            final(self)@.size == old(self)@.size,
            final(self)@.right == old(self)@.right,
            final(self)@.down == old(self)@.down,
            final(self).trials() == old(self).trials(),
            final(self)@ == if accepts(
                table.rule(old(self)@.coupling(i as int, j as int), old(self)@.spin(i as int, j as int)),
                draw,
            ) {
                old(self)@.flipped(i as int, j as int)
            } else {
                old(self)@
            },
    {
        let c = self.site_coupling(i, j);
        let s = self.spin(i, j);
        let rule = table.rule_for(c, s);
        if flip_accepted(rule, draw) {
            self.flip(i, j);
        }
    }

    /// One Metropolis trial at a uniformly drawn site: row then column are
    /// drawn, and a raw draw for acceptance follows only for an uphill flip.
    /// A flip whose rule is not uphill (`dE <= 0`) is always kept.
    pub fn metropolis_step(&mut self, table: &AcceptanceTable, rng: &mut rand::rngs::StdRng)
        requires
            old(self)@.wf(),
            table@.len() == RULE_COUNT,
        ensures
            final(self)@.wf(),
            final(self)@.size == old(self)@.size,
            final(self)@.right == old(self)@.right,
            final(self)@.down == old(self)@.down,
            final(self).trials() == old(self).trials() + 1,
            exists|i: int, j: int|
                0 <= i < old(self)@.size && 0 <= j < old(self)@.size && (final(self)@ == old(
                    self,
                )@.flipped(i, j) || final(self)@ == old(self)@) && (!table.rule(
                    old(self)@.coupling(i, j),
                    old(self)@.spin(i, j),
                ).uphill ==> final(self)@ == old(self)@.flipped(i, j)),
    {
        let i = uniform_index(rng, self.size);
        let j = uniform_index(rng, self.size);
        let c = self.site_coupling(i, j);
        let s = self.spin(i, j);
        let rule = table.rule_for(c, s);
        let draw: u64 = if rule.uphill {
            next_u64(rng)
        } else {
            0
        };
        self.metropolis_update(i, j, table, draw);
        self.trials = Ghost(self.trials@ + 1);
        assert(0 <= i < old(self)@.size && 0 <= j < old(self)@.size && (self@ == old(
            self,
        )@.flipped(i as int, j as int) || self@ == old(self)@) && (!table.rule(
            old(self)@.coupling(i as int, j as int),
            old(self)@.spin(i as int, j as int),
        ).uphill ==> self@ == old(self)@.flipped(i as int, j as int)));
    }
}

} // verus!
