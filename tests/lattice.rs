use ising_monte_carlo::lattice::{AcceptanceTable, FlipRule, Lattice, RULE_COUNT};
use ising_monte_carlo::lattice::{build_bonds, flip_accepted};
use rand::rngs::StdRng;
use rand::{RngCore, SeedableRng};

fn rules(uphill: bool, threshold: u64) -> AcceptanceTable {
    AcceptanceTable::from_rules(vec![FlipRule { uphill, threshold }; RULE_COUNT]).unwrap()
}

fn energy(l: &Lattice, j: f64, h: f64) -> f64 {
    -j * l.bond_sum() as f64 - h * l.total_magnetization() as f64
}

#[test]
fn all_up_lattice_is_fully_magnetised_ground_state() {
    let mut rng = StdRng::seed_from_u64(7);
    let l = Lattice::new_all_up(2, 0, &mut rng);
    assert_eq!(l.total_magnetization(), 4);
    assert_eq!(l.bond_sum(), 8);
    assert_eq!(energy(&l, 1.0, 0.0), -8.0);
    for i in 0..2 {
        for j in 0..2 {
            let c = l.site_coupling(i, j);
            assert_eq!(c, 4);
            // dE of reversing the spin: 2 * J * coupling + 2 * H * spin
            let de = 2.0 * 1.0 * c as f64 + 2.0 * 0.0 * l.spin(i, j) as f64;
            assert!(de >= 0.0);
        }
    }
}

#[test]
fn no_disorder_gives_ferromagnetic_energy() {
    let mut rng = StdRng::seed_from_u64(11);
    let l = Lattice::new_random(5, 0, &mut rng);
    let n = 5;
    let mut ferro: i64 = 0;
    for i in 0..n {
        for j in 0..n {
            assert_eq!(l.right_bond(i, j), 1);
            assert_eq!(l.down_bond(i, j), 1);
            let s = l.spin(i, j) as i64;
            ferro += s * l.spin(i, (j + 1) % n) as i64 + s * l.spin((i + 1) % n, j) as i64;
        }
    }
    assert_eq!(l.bond_sum(), ferro);
}

#[test]
fn site_couplings_count_each_bond_twice_on_two_by_two() {
    // spins  + -      right bonds  + -      down bonds  - +
    //        + +                   - +                  + +
    let l = Lattice::from_parts(2, vec![1, -1, 1, 1], vec![1, -1, -1, 1], vec![-1, 1, 1, 1])
        .unwrap();
    // Bonds owned by each site: (0,0): right +1*(+1)(-1) = -1, down -1*(+1)(+1) = -1;
    // (0,1): right -1*(-1)(+1) = 1, down 1*(-1)(+1) = -1; (1,0): right -1*(1)(1) = -1,
    // down 1*(1)(1) = 1; (1,1): right 1*(1)(1) = 1, down 1*(1)(-1) = -1.
    assert_eq!(l.bond_sum(), -2);
    let mut total = 0;
    for i in 0..2 {
        for j in 0..2 {
            total += l.site_coupling(i, j);
        }
    }
    assert_eq!(total, -4);
    assert_eq!(total as i64, 2 * l.bond_sum());
    assert_eq!(l.total_magnetization(), 2);
    // (0,0): up/down neighbour (1,0) through bonds +1 and -1, left/right
    // neighbour (0,1) through bonds -1 and +1: 1 - 1 + 1 - 1 = 0.
    assert_eq!(l.site_coupling(0, 0), 0);
    assert_eq!(l.site_coupling(0, 1), -2);
    assert_eq!(l.site_coupling(1, 1), -2);
}

#[test]
fn from_parts_rejects_bad_input() {
    assert!(Lattice::from_parts(0, vec![], vec![], vec![]).is_none());
    assert!(Lattice::from_parts(2, vec![1, 1, 1], vec![1; 4], vec![1; 4]).is_none());
    assert!(Lattice::from_parts(2, vec![1, 0, 1, 1], vec![1; 4], vec![1; 4]).is_none());
    assert!(Lattice::from_parts(2, vec![1; 4], vec![1; 4], vec![1; 4]).is_some());
}

#[test]
fn bonds_negate_exactly_the_requested_count() {
    let mut rng = StdRng::seed_from_u64(3);
    let (right, down) = build_bonds(3, 5, &mut rng);
    assert_eq!(right.len(), 9);
    assert_eq!(down.len(), 9);
    let neg = right.iter().chain(down.iter()).filter(|&&b| b == -1).count();
    assert_eq!(neg, 5);
    let (right, down) = build_bonds(3, 100, &mut rng);
    assert!(right.iter().chain(down.iter()).all(|&b| b == -1));
    let (right, down) = build_bonds(4, 0, &mut rng);
    assert!(right.iter().chain(down.iter()).all(|&b| b == 1));
}

#[test]
fn initial_states_set_spins() {
    let mut rng = StdRng::seed_from_u64(5);
    let up = Lattice::new(3, ising_monte_carlo::params::InitialState::AllUp, 0, &mut rng);
    assert_eq!(up.total_magnetization(), 9);
    let down = Lattice::new_all_down(3, 0, &mut rng);
    assert_eq!(down.total_magnetization(), -9);
    let random = Lattice::new_random(8, 0, &mut rng);
    let m = random.total_magnetization();
    assert!(m > -64 && m < 64);
}

#[test]
fn downhill_flip_is_always_accepted() {
    let mut rng = StdRng::seed_from_u64(9);
    let mut l = Lattice::new_all_up(3, 0, &mut rng);
    let table = rules(false, 0);
    for draw in [0u64, 1, u64::MAX] {
        let before = l.spin(1, 2);
        l.metropolis_update(1, 2, &table, draw);
        assert_eq!(l.spin(1, 2), -before);
    }
    let m = l.total_magnetization();
    l.metropolis_step(&table, &mut rng);
    assert_ne!(l.total_magnetization(), m);
}

#[test]
fn uphill_flip_follows_threshold() {
    let mut rng = StdRng::seed_from_u64(9);
    let mut l = Lattice::new_all_up(3, 0, &mut rng);
    l.metropolis_update(0, 0, &rules(true, 0), 0);
    assert_eq!(l.spin(0, 0), 1);
    l.metropolis_update(0, 0, &rules(true, 1 << 53), u64::MAX);
    assert_eq!(l.spin(0, 0), -1);
    let rule = FlipRule { uphill: true, threshold: 10 };
    assert!(flip_accepted(rule, 9 << 11));
    assert!(!flip_accepted(rule, 10 << 11));
    assert!(flip_accepted(FlipRule { uphill: false, threshold: 0 }, u64::MAX));
}

#[test]
fn uphill_acceptance_frequency_matches_boltzmann_factor() {
    let mut rng = StdRng::seed_from_u64(2024);
    let (de, t) = (4.0f64, 2.0f64);
    let p = (-de / t).exp();
    let rule = FlipRule { uphill: true, threshold: (p * (1u64 << 53) as f64).ceil() as u64 };
    let trials = 200_000;
    let mut accepted = 0;
    for _ in 0..trials {
        if flip_accepted(rule, rng.next_u64()) {
            accepted += 1;
        }
    }
    let freq = accepted as f64 / trials as f64;
    assert!((freq - p).abs() < 0.005, "frequency {} vs {}", freq, p);
}

#[test]
fn table_requires_every_rule() {
    assert!(AcceptanceTable::from_rules(vec![FlipRule { uphill: false, threshold: 0 }; 17]).is_none());
    let t = rules(true, 5);
    assert_eq!(t.rule_for(-4, -1), FlipRule { uphill: true, threshold: 5 });
}

#[test]
fn flip_reverses_one_spin() {
    let mut rng = StdRng::seed_from_u64(1);
    let mut l = Lattice::new_all_up(4, 0, &mut rng);
    l.flip(2, 3);
    assert_eq!(l.spin(2, 3), -1);
    assert_eq!(l.total_magnetization(), 14);
    assert_eq!(l.site_coupling(2, 3), -4);
    assert_eq!(l.size(), 4);
}

#[test]
fn negation_counts_add_up_over_samples() {
    let mut rng = StdRng::seed_from_u64(21);
    let (right, down) = ising_monte_carlo::lattice::bond_negation_counts(3, 4, 5, &mut rng);
    assert_eq!(right.len(), 9);
    assert_eq!(down.len(), 9);
    assert!(right.iter().chain(down.iter()).all(|&c| c <= 5));
    assert_eq!(right.iter().chain(down.iter()).sum::<usize>(), 5 * 4);
    let (right, down) = ising_monte_carlo::lattice::bond_negation_counts(2, 100, 0, &mut rng);
    assert!(right.iter().chain(down.iter()).all(|&c| c == 1));
}
