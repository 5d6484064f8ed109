use ising_monte_carlo::lattice::{AcceptanceTable, FlipRule, Lattice, RULE_COUNT};
use ising_monte_carlo::params::InitialState;
use ising_monte_carlo::sampling::{measure_realizations, sample_lattice, Moments};
use rand::rngs::StdRng;
use rand::SeedableRng;

#[test]
fn moments_sum_samples_exactly() {
    let mut m = Moments::new();
    m.record(-8, 4);
    m.record(-4, -2);
    m.record(0, 0);
    assert_eq!(m.count(), 3);
    assert_eq!(m.sum_bond(), -12);
    assert_eq!(m.sum_bond_sq(), 80);
    assert_eq!(m.sum_mag(), 2);
    assert_eq!(m.sum_mag_sq(), 20);
    assert_eq!(m.sum_abs_mag(), 6);
    assert_eq!(m.sum_bond_mag(), -24);
    // 3 * 80 - 144 and 3 * 20 - 4
    assert_eq!(m.bond_spread(), 96);
    assert_eq!(m.mag_spread(), 56);
    // 3 * (-24) - (-12) * 2
    assert_eq!(m.cross_spread(), -48);
    // energy with J = 1, H = 1: E = -B - M; its spread is 96 + 2 * (-48) + 56
    let e: Vec<i128> = vec![8 - 4, 4 + 2, 0];
    let (s, q) = (e.iter().sum::<i128>(), e.iter().map(|x| x * x).sum::<i128>());
    assert_eq!(3 * q - s * s, 96 - 96 + 56);
}

#[test]
fn spreads_are_never_negative() {
    let mut m = Moments::new();
    assert_eq!(m.bond_spread(), 0);
    for k in 0..50i64 {
        m.record((k * 37) % 11 - 5, 3);
        assert!(m.bond_spread() >= 0);
        assert_eq!(m.mag_spread(), 0);
    }
}

#[test]
fn samples_every_stride_steps() {
    let mut rng = StdRng::seed_from_u64(4);
    let table = AcceptanceTable::from_rules(vec![FlipRule { uphill: true, threshold: 0 }; RULE_COUNT])
        .unwrap();
    let mut l = Lattice::new_all_up(3, 0, &mut rng);
    let m = sample_lattice(&mut l, &table, 2, 10, 3, &mut rng);
    assert_eq!(m.count(), 4);
    // no flip is ever accepted: every sample is the ground state
    assert_eq!(m.sum_bond(), 4 * 18);
    assert_eq!(m.sum_mag(), 4 * 9);
    assert_eq!(m.mag_spread(), 0);
}

#[test]
fn at_least_one_realisation_is_measured() {
    let mut rng = StdRng::seed_from_u64(8);
    let table = AcceptanceTable::from_rules(vec![FlipRule { uphill: false, threshold: 0 }; RULE_COUNT])
        .unwrap();
    let r = measure_realizations(2, InitialState::AllDown, 0, 1, 4, 1, 0, &table, &mut rng);
    assert_eq!(r.len(), 1);
    assert_eq!(r[0].count(), 4);
    let r = measure_realizations(2, InitialState::Random, 3, 1, 5, 2, 3, &table, &mut rng);
    assert_eq!(r.len(), 3);
    assert!(r.iter().all(|m| m.count() == 3));
}
