use xy_model::engine::{metro_accept, ConfigError, XY};
use xy_model::fxp::{cos_q30, isqrt_u128, reflect_cluster, sin_q30, sub_ticks, Q30};
use xy_model::grid::{down_of, right_of};

const ONE: i64 = Q30 as i64;

/// Recompute the per-spin energy (Q30) from a snapshot, independently of the
/// engine's caches, with the same exact integer arithmetic.
fn energy_from_snapshot(spins: &[u32], n: usize, j: i64, h: i64) -> i128 {
    let mut bond: i128 = 0;
    let mut mx: i128 = 0;
    for idx in 0..n * n {
        let a = spins[idx];
        let r = spins[right_of(n, idx)];
        let d = spins[down_of(n, idx)];
        bond += cos_q30(sub_ticks(a, r)) as i128 + cos_q30(sub_ticks(a, d)) as i128;
        mx += cos_q30(a) as i128;
    }
    let num = -(j as i128) * bond - (h as i128) * mx;
    let den = (Q30 as i128) * ((n * n) as i128);
    if num >= 0 {
        num / den
    } else {
        -((-num) / den)
    }
}

/// Recompute the per-spin magnetization magnitude (Q30) from a snapshot.
fn magnetization_from_snapshot(spins: &[u32], n: usize) -> u64 {
    let mut mx: i128 = 0;
    let mut my: i128 = 0;
    for &a in spins {
        mx += cos_q30(a) as i128;
        my += sin_q30(a) as i128;
    }
    let s = (mx * mx + my * my) as u128;
    (isqrt_u128(s) / ((n * n) as u128)) as u64
}

#[test]
fn construction_validates_configuration() {
    assert_eq!(XY::new(0, ONE, ONE, 0).err(), Some(ConfigError::SideZero));
    assert_eq!(XY::new(5000, ONE, ONE, 0).err(), Some(ConfigError::SideTooLarge));
    assert_eq!(
        XY::new_seeded(4, 0, ONE, 0, 1).err(),
        Some(ConfigError::TemperatureNotPositive)
    );
    assert_eq!(
        XY::new_seeded(4, -ONE, ONE, 0, 1).err(),
        Some(ConfigError::TemperatureNotPositive)
    );
    let e = XY::new_seeded(4, ONE, ONE, 0, 1).unwrap();
    assert_eq!(e.accepted(), 0);
    assert_eq!(e.attempted(), 0);
    assert_eq!(e.spins_snapshot().len(), 16);
}

#[test]
fn metropolis_scenario_small_lattice() {
    // N = 4, J = 1, H = 0, T = 1, fixed seed; 100 sweeps.
    let mut e = XY::new_seeded(4, ONE, ONE, 0, 42).unwrap();
    for _ in 0..100 {
        e.metropolis_step();
    }
    assert_eq!(e.attempted(), 1600);
    assert!(e.accepted() <= 1600);
    // The cached energy equals a full recomputation exactly.
    let snap = e.spins_snapshot();
    assert_eq!(e.energy(), energy_from_snapshot(&snap, 4, ONE, 0));
    let before = e.energy();
    e.resync();
    assert_eq!(e.energy(), before);
}

#[test]
fn resync_equivalence_is_exact() {
    let mut e = XY::new_seeded(6, ONE, ONE, ONE / 4, 7).unwrap();
    for _ in 0..5 {
        e.metropolis_step();
        e.metropolis_reflection_step();
    }
    let energy = e.energy();
    let mag = e.magnetization();
    let snap = e.spins_snapshot();
    assert_eq!(energy, energy_from_snapshot(&snap, 6, ONE, ONE / 4));
    assert_eq!(mag, magnetization_from_snapshot(&snap, 6));
    e.resync();
    assert_eq!(e.energy(), energy);
    assert_eq!(e.magnetization(), mag);
}

#[test]
fn magnitude_identity_holds_exactly() {
    let mut e = XY::new_seeded(8, ONE, ONE, 0, 3).unwrap();
    e.metropolis_step();
    e.wolff_step();
    let snap = e.spins_snapshot();
    assert_eq!(e.magnetization(), magnetization_from_snapshot(&snap, 8));
    // Unit spins: the mean magnetization magnitude cannot exceed one (up to
    // the cubic kernel's tolerance).
    assert!((e.magnetization() as i64) <= ONE + ONE / 1000);
}

#[test]
fn seeded_runs_are_bit_identical() {
    let mut a = XY::new_seeded(6, ONE, ONE, ONE / 8, 99).unwrap();
    let mut b = XY::new_seeded(6, ONE, ONE, ONE / 8, 99).unwrap();
    assert_eq!(a.spins_snapshot(), b.spins_snapshot());
    for _ in 0..3 {
        a.metropolis_step();
        b.metropolis_step();
        a.overrelaxation_step();
        b.overrelaxation_step();
        a.metropolis_reflection_step();
        b.metropolis_reflection_step();
        a.wolff_step();
        b.wolff_step();
        a.swendsen_wang_step();
        b.swendsen_wang_step();
    }
    assert_eq!(a.spins_snapshot(), b.spins_snapshot());
    assert_eq!(a.accepted(), b.accepted());
    assert_eq!(a.attempted(), b.attempted());
    assert_eq!(a.energy(), b.energy());
    assert_eq!(a.magnetization(), b.magnetization());
}

#[test]
fn angles_always_map_into_one_turn() {
    let two_pi = std::f64::consts::PI * 2.0;
    let mut e = XY::new_seeded(5, ONE, ONE, 0, 11).unwrap();
    e.metropolis_step();
    e.overrelaxation_step();
    e.metropolis_reflection_step();
    e.wolff_step();
    e.swendsen_wang_step();
    for t in e.spins_snapshot() {
        let angle = t as f64 / 4294967296.0 * two_pi;
        assert!((0.0..two_pi).contains(&angle));
    }
}

#[test]
fn acceptance_decision_at_zero_temperature() {
    // At T = 0 the rule accepts exactly the non-increasing moves and never
    // touches the exponential.
    assert!(metro_accept(0, 0, 0));
    assert!(metro_accept(-12345, 0, Q30 - 1));
    assert!(!metro_accept(1, 0, 0));
    assert!(!metro_accept(1_000_000, -5, 0));
}

#[test]
fn acceptance_decision_in_temperature_limits() {
    // Far below the temperature, an increase is always accepted.
    assert!(metro_accept(1, i64::MAX, Q30 - 1));
    // Thirty-two temperatures of increase are never accepted.
    assert!(!metro_accept(1000 * ONE as i128, ONE, 0));
}

#[test]
fn high_temperature_acceptance_rate_tends_to_one() {
    let hot = ONE * 1_000_000;
    let mut e = XY::new_seeded(8, hot, ONE, 0, 5).unwrap();
    for _ in 0..20 {
        e.metropolis_step();
    }
    let rate = e.accepted() as f64 / e.attempted() as f64;
    assert!(rate > 0.99, "hot acceptance rate {rate}");
}

#[test]
fn low_temperature_acceptance_rate_drops() {
    // T ~ 1e-9: after the lattice has cooled, random fresh angles are almost
    // always uphill and rejected.
    let mut e = XY::new_seeded(8, 1, ONE, 0, 6).unwrap();
    for _ in 0..30 {
        e.metropolis_step();
    }
    e.reset_data();
    let before = e.attempted();
    for _ in 0..10 {
        e.metropolis_step();
    }
    let rate = e.accepted() as f64 / (e.attempted() - before) as f64;
    assert!(rate < 0.5, "cold acceptance rate {rate}");
}

#[test]
fn overrelaxation_conserves_energy_approximately() {
    let mut e = XY::new_seeded(8, ONE, ONE, 0, 12).unwrap();
    let e0 = e.energy();
    for _ in 0..20 {
        e.overrelaxation_step();
    }
    let drift = (e.energy() - e0).abs();
    // The reflection conserves energy exactly in real arithmetic; the cubic
    // kernel leaves a small numerical drift.
    assert!(drift < (ONE / 16) as i128, "energy drift {drift}");
    assert_eq!(e.accepted(), 0);
    assert_eq!(e.attempted(), 0);
}

#[test]
fn cluster_counters_move_by_one_per_call() {
    let mut e = XY::new_seeded(6, ONE, ONE, 0, 21).unwrap();
    e.wolff_step();
    assert_eq!(e.attempted(), 1);
    assert_eq!(e.accepted(), 1);
    e.swendsen_wang_step();
    assert_eq!(e.attempted(), 2);
    assert_eq!(e.accepted(), 2);
}

#[test]
fn swendsen_wang_partition_is_exclusive_and_coherent() {
    let mut e = XY::new_seeded(8, ONE, ONE, 0, 33).unwrap();
    let before = e.spins_snapshot();
    let phi: u32 = 0x7312_9A4B;
    let ids = e.swendsen_wang_core(phi);
    let after = e.spins_snapshot();
    assert_eq!(ids.len(), 64);
    // Every site belongs to exactly one real cluster: id 0 never survives.
    assert!(ids.iter().all(|&c| c >= 1));
    // All members of one cluster are reflected, or kept, together.
    let max_id = *ids.iter().max().unwrap();
    for c in 1..=max_id {
        let mut any_changed = false;
        let mut any_kept = false;
        for i in 0..64 {
            if ids[i] == c {
                if after[i] == before[i] {
                    any_kept = true;
                } else {
                    assert_eq!(after[i], reflect_cluster(before[i], phi));
                    any_changed = true;
                }
            }
        }
        assert!(!(any_changed && any_kept), "cluster {c} split its decision");
    }
}

#[test]
fn wolff_reflects_the_seed_site() {
    let mut e = XY::new_seeded(6, ONE, ONE, 0, 44).unwrap();
    let before = e.spins_snapshot();
    let phi: u32 = 0x0BAD_F00D;
    e.wolff_core(phi, 17);
    let after = e.spins_snapshot();
    assert_eq!(after[17], reflect_cluster(before[17], phi));
    for i in 0..36 {
        assert!(after[i] == before[i] || after[i] == reflect_cluster(before[i], phi));
    }
}

#[test]
fn attempt_with_unchanged_proposal_is_always_accepted() {
    // Proposing a site's own angle changes no energy, so the Metropolis rule
    // must accept it, and the lattice must stay bit-identical.
    let mut e = XY::new_seeded(4, ONE, ONE, ONE / 3, 77).unwrap();
    let snap = e.spins_snapshot();
    e.metropolis_attempt(9, snap[9], 0);
    assert_eq!(e.accepted(), 1);
    assert_eq!(e.attempted(), 0);
    assert_eq!(e.spins_snapshot(), snap);
}

#[test]
fn setters_and_reset_behave() {
    let mut e = XY::new_seeded(4, ONE, ONE, ONE / 2, 55).unwrap();
    e.metropolis_step();
    let energy = e.energy();
    e.set_temp(ONE * 10);
    assert_eq!(e.energy(), energy, "temperature must not touch the energy");
    e.set_h(0);
    e.set_j(0);
    assert_eq!(e.energy(), 0, "zero coupling and field mean zero energy");
    let attempted = e.attempted();
    let mag = e.magnetization();
    let snap = e.spins_snapshot();
    e.reset_data();
    assert_eq!(e.accepted(), 0);
    assert_eq!(e.attempted(), attempted);
    assert_eq!(e.magnetization(), mag);
    assert_eq!(e.spins_snapshot(), snap);
}
