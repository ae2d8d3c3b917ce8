use drone_fleet_ternary::conservation::REACHABLE;
use drone_fleet_ternary::{
    ArithOp, ConservationVerifier, DroneState, DroneWorldCRDT, PheromoneField, Scalar, Target,
    Timestamp, VerificationResult,
};

fn s(v: f32) -> Scalar {
    Scalar { bits: v.to_bits() }
}

fn f(x: Scalar) -> f32 {
    f32::from_bits(x.bits)
}

fn ieee(op: ArithOp) -> Scalar {
    s(match op {
        ArithOp::Add(a, b) => f(a) + f(b),
        ArithOp::Sub(a, b) => f(a) - f(b),
        ArithOp::Mul(a, b) => f(a) * f(b),
        ArithOp::Div(a, b) => f(a) / f(b),
        ArithOp::Sqrt(a) => f(a).sqrt(),
        ArithOp::Count(n) => n as f32,
    })
}

fn make_targets(n: usize) -> Vec<Target> {
    (0..n as u32)
        .map(|i| Target {
            id: i,
            x: s(i as f32 / n as f32),
            y: s(0.5),
            priority: s(1.0),
            covered: false,
        })
        .collect()
}

fn drone(drone_id: u32, active_target: Option<u32>, weight_version: u32) -> DroneState {
    DroneState {
        drone_id,
        x: s(0.0),
        y: s(0.0),
        battery_soc: s(1.0),
        active_target,
        weight_version,
    }
}

/// A field of `n` targets with no pheromone left, the first `covered` of them covered.
fn spent_field(n: usize, covered: usize) -> PheromoneField {
    let mut field = PheromoneField::new(make_targets(n), s(1.0));
    field.tick(&ieee);
    for i in 0..covered {
        field.cover(&ieee, i);
    }
    field
}

fn check(min: f32, field: &PheromoneField, world: &DroneWorldCRDT) -> VerificationResult {
    ConservationVerifier::new(s(min)).verify(&ieee, field, world)
}

#[test]
fn conservation_ok_with_full_coverage() {
    let targets = make_targets(4);
    let mut field = PheromoneField::new(targets, s(0.05));
    for i in 0..4 {
        field.cover(&ieee, i);
    }
    let world = DroneWorldCRDT::default();
    let v = ConservationVerifier::new(s(0.5));
    assert_eq!(v.verify(&ieee, &field, &world), VerificationResult::Conserved);
}

#[test]
fn conservation_detects_coverage_deficit() {
    // All pheromone evaporated, nothing covered, no drones assigned.
    let targets = make_targets(10);
    let mut field = PheromoneField::new(targets, s(1.0));
    for _ in 0..50 {
        field.tick(&ieee);
    }
    let world = DroneWorldCRDT::default();
    let v = ConservationVerifier::new(s(0.8));
    let result = v.verify(&ieee, &field, &world);
    assert!(matches!(result, VerificationResult::CoverageDeficit { .. }));
    assert_eq!(result, VerificationResult::CoverageDeficit { uncovered: 10, total: 10 });
}

#[test]
fn conservation_detects_version_split_brain() {
    let field = PheromoneField::new(make_targets(2), s(0.05));
    let mut world = DroneWorldCRDT::default();
    // Two drones with different weight versions after a partial hotswap.
    let s1 = DroneState {
        drone_id: 0,
        x: s(0.0),
        y: s(0.0),
        battery_soc: s(1.0),
        active_target: None,
        weight_version: 1,
    };
    let s2 = DroneState {
        drone_id: 1,
        x: s(1.0),
        y: s(1.0),
        battery_soc: s(1.0),
        active_target: None,
        weight_version: 2,
    };
    world.upsert(s1, Timestamp(100));
    world.upsert(s2, Timestamp(100));
    let v = ConservationVerifier::new(s(0.0));
    assert_eq!(
        v.verify(&ieee, &field, &world),
        VerificationResult::VersionSplitBrain { versions_seen: 2 }
    );
}

#[test]
fn reachable_is_the_number_it_names() {
    assert_eq!(REACHABLE, 0.05f32.to_bits());
    assert_eq!(ConservationVerifier::new(s(0.4)).min_coverage_fraction, s(0.4));
}

#[test]
fn without_targets_no_coverage_is_owed() {
    let field = PheromoneField::new(Vec::new(), s(0.05));
    let mut world = DroneWorldCRDT::default();
    assert_eq!(check(1.0, &field, &world), VerificationResult::Conserved);
    world.upsert(drone(0, None, 1), Timestamp(1));
    world.upsert(drone(1, None, 1), Timestamp(1));
    assert_eq!(check(1.0, &field, &world), VerificationResult::Conserved);
    // Neither by a unit that makes everything short.
    let stuck = |_op: ArithOp| s(0.5);
    let verifier = ConservationVerifier::new(s(1.0));
    assert_eq!(verifier.verify(&stuck, &field, &world), VerificationResult::Conserved);
}

#[test]
fn without_targets_a_split_brain_is_still_seen() {
    let field = PheromoneField::new(Vec::new(), s(0.05));
    let mut world = DroneWorldCRDT::default();
    world.upsert(drone(0, None, 1), Timestamp(1));
    world.upsert(drone(1, None, 2), Timestamp(1));
    assert!(!world.weight_version_consistent());
    assert_eq!(
        check(1.0, &field, &world),
        VerificationResult::VersionSplitBrain { versions_seen: 2 }
    );
}

#[test]
fn without_targets_every_claim_overflows() {
    let field = PheromoneField::new(Vec::new(), s(0.05));
    let mut world = DroneWorldCRDT::default();
    world.upsert(drone(0, Some(0), 1), Timestamp(1));
    assert_eq!(check(0.0, &field, &world), VerificationResult::AssignmentOverflow);
}

#[test]
fn a_covered_target_does_not_hide_a_lost_one() {
    // The first target is covered and still smells; the second has nothing.
    let mut targets = make_targets(2);
    targets[0].covered = true;
    targets[1].priority = s(0.0);
    let field = PheromoneField::new(targets, s(0.05));
    let mut world = DroneWorldCRDT::default();
    let deficit = VerificationResult::CoverageDeficit { uncovered: 1, total: 2 };
    assert_eq!(check(1.0, &field, &world), deficit);
    // A drone on the covered target does not help, one on the lost target does.
    world.upsert(drone(0, Some(0), 1), Timestamp(1));
    assert_eq!(check(1.0, &field, &world), deficit);
    world.upsert(drone(0, Some(1), 1), Timestamp(2));
    assert_eq!(check(1.0, &field, &world), VerificationResult::Conserved);
}

#[test]
fn a_claim_on_no_target_accounts_for_none() {
    let mut targets = make_targets(2);
    targets[1].id = 9;
    for t in targets.iter_mut() {
        t.priority = s(0.0);
    }
    let field = PheromoneField::new(targets, s(0.05));
    let mut world = DroneWorldCRDT::default();
    // Ids 4 and 5 lie below the largest id, but no target has them.
    world.upsert(drone(0, Some(4), 1), Timestamp(1));
    world.upsert(drone(1, Some(5), 1), Timestamp(1));
    assert_eq!(check(1.0, &field, &world), VerificationResult::AssignmentOverflow);
    world.upsert(drone(0, Some(0), 1), Timestamp(2));
    assert_eq!(check(1.0, &field, &world), VerificationResult::AssignmentOverflow);
    world.upsert(drone(1, Some(9), 1), Timestamp(2));
    assert_eq!(check(1.0, &field, &world), VerificationResult::Conserved);
}

#[test]
fn more_claims_than_targets_are_found_out() {
    let mut targets = make_targets(1);
    targets[0].id = 10;
    let field = PheromoneField::new(targets, s(0.05));
    let mut world = DroneWorldCRDT::default();
    world.upsert(drone(0, Some(3), 1), Timestamp(1));
    world.upsert(drone(1, Some(4), 1), Timestamp(1));
    assert_eq!(check(0.0, &field, &world), VerificationResult::AssignmentOverflow);
    world.upsert(drone(0, Some(10), 1), Timestamp(2));
    world.upsert(drone(1, Some(10), 1), Timestamp(2));
    assert_eq!(check(0.0, &field, &world), VerificationResult::Conserved);
}

#[test]
fn a_level_that_is_missing_accounts_for_nothing() {
    let mut field = PheromoneField::new(make_targets(2), s(0.05));
    field.pheromone.pop();
    let world = DroneWorldCRDT::default();
    assert_eq!(check(0.5, &field, &world), VerificationResult::Conserved);
    assert_eq!(
        check(1.0, &field, &world),
        VerificationResult::CoverageDeficit { uncovered: 2, total: 2 }
    );
}

#[test]
fn a_full_check_passes_exactly_where_no_target_is_lost() {
    // Every way for three targets to be covered, within reach or claimed.
    for state in 0u32..512 {
        let mut targets = make_targets(3);
        let mut world = DroneWorldCRDT::default();
        let mut lost = 0;
        for i in 0..3 {
            let bits = (state >> (3 * i)) & 7;
            targets[i].covered = bits & 1 != 0;
            targets[i].priority = s(if bits & 2 != 0 { 0.5 } else { 0.05 });
            if bits & 4 != 0 {
                world.upsert(drone(i as u32, Some(i as u32), 1), Timestamp(1));
            }
            if bits == 0 {
                lost += 1;
            }
        }
        let covered = targets.iter().filter(|t| t.covered).count();
        let field = PheromoneField::new(targets, s(0.05));
        let expected = if lost == 0 {
            VerificationResult::Conserved
        } else {
            VerificationResult::CoverageDeficit { uncovered: 3 - covered, total: 3 }
        };
        assert_eq!(check(1.0, &field, &world), expected);
    }
}

#[test]
fn single_precision_treats_one_as_one() {
    for n in [0u64, 1, 2, 3, 1000, 16_777_215, 16_777_216] {
        assert_eq!(f(ieee(ArithOp::Count(n))) as u64, n);
    }
    // Beyond 2^24 counts are rounded.
    assert_eq!(f(ieee(ArithOp::Count(16_777_217))), 16_777_216.0);
    let numbers = [0.0f32, f32::from_bits(1), f32::MIN_POSITIVE, 0.3, 1.0, 1.5, 2.0, 3.0, f32::MAX];
    for b in numbers {
        assert_eq!(ieee(ArithOp::Mul(s(b), s(1.0))), s(b));
        for a in numbers {
            if a < b {
                assert!(f(ieee(ArithOp::Div(s(a), s(b)))) < 1.0);
            }
        }
        if b > 0.0 {
            let just_below = f32::from_bits(b.to_bits() - 1);
            assert!(f(ieee(ArithOp::Div(s(just_below), s(b)))) < 1.0);
        }
    }
}

#[test]
fn claims_beyond_the_targets_overflow() {
    let field = PheromoneField::new(make_targets(3), s(0.05));
    let mut world = DroneWorldCRDT::default();
    world.upsert(drone(0, Some(2), 1), Timestamp(1));
    assert_eq!(check(0.5, &field, &world), VerificationResult::Conserved);
    world.upsert(drone(1, Some(3), 1), Timestamp(1));
    assert_eq!(check(0.5, &field, &world), VerificationResult::AssignmentOverflow);
    // An overflow is reported before a split brain.
    world.upsert(drone(2, None, 2), Timestamp(1));
    assert_eq!(check(0.5, &field, &world), VerificationResult::AssignmentOverflow);
}

#[test]
fn only_ids_of_targets_may_be_claimed() {
    let ids = [40u32, 7, u32::MAX];
    for claim in [0u32, 6, 7, 8, 39, 40, 41, u32::MAX - 1, u32::MAX] {
        let mut targets = make_targets(3);
        for (t, &id) in targets.iter_mut().zip(ids.iter()) {
            t.id = id;
        }
        let field = PheromoneField::new(targets, s(0.05));
        let mut world = DroneWorldCRDT::default();
        world.upsert(drone(0, Some(claim), 1), Timestamp(1));
        let expected = if ids.contains(&claim) {
            VerificationResult::Conserved
        } else {
            VerificationResult::AssignmentOverflow
        };
        assert_eq!(check(0.0, &field, &world), expected);
    }
}

#[test]
fn the_required_number_is_rounded_up() {
    // Half of five targets is two and a half: three must be accounted for.
    let world = DroneWorldCRDT::default();
    assert_eq!(
        check(0.5, &spent_field(5, 2), &world),
        VerificationResult::CoverageDeficit { uncovered: 3, total: 5 }
    );
    assert_eq!(check(0.5, &spent_field(5, 3), &world), VerificationResult::Conserved);
    // Half of four is two.
    assert_eq!(
        check(0.5, &spent_field(4, 1), &world),
        VerificationResult::CoverageDeficit { uncovered: 3, total: 4 }
    );
    assert_eq!(check(0.5, &spent_field(4, 2), &world), VerificationResult::Conserved);
}

#[test]
fn assigned_and_reachable_targets_count() {
    let mut world = DroneWorldCRDT::default();
    world.upsert(drone(0, Some(0), 1), Timestamp(1));
    // Two drones on one target count once.
    world.upsert(drone(1, Some(0), 1), Timestamp(1));
    assert_eq!(
        check(0.5, &spent_field(4, 0), &world),
        VerificationResult::CoverageDeficit { uncovered: 4, total: 4 }
    );
    world.upsert(drone(1, Some(1), 1), Timestamp(2));
    assert_eq!(check(0.5, &spent_field(4, 0), &world), VerificationResult::Conserved);

    let none = DroneWorldCRDT::default();
    let mut targets = make_targets(4);
    for (i, t) in targets.iter_mut().enumerate() {
        t.priority = s(if i < 2 { 0.06 } else { 0.05 });
    }
    let field = PheromoneField::new(targets, s(0.05));
    assert_eq!(check(0.5, &field, &none), VerificationResult::Conserved);
    assert_eq!(
        check(0.75, &field, &none),
        VerificationResult::CoverageDeficit { uncovered: 4, total: 4 }
    );
}

#[test]
fn a_deficit_is_reported_before_a_split_brain() {
    let mut world = DroneWorldCRDT::default();
    world.upsert(drone(0, None, 1), Timestamp(1));
    world.upsert(drone(1, None, 2), Timestamp(1));
    world.upsert(drone(2, None, 3), Timestamp(1));
    assert_eq!(
        check(0.5, &spent_field(4, 1), &world),
        VerificationResult::CoverageDeficit { uncovered: 3, total: 4 }
    );
    assert_eq!(
        check(0.5, &spent_field(4, 2), &world),
        VerificationResult::VersionSplitBrain { versions_seen: 3 }
    );
}

#[test]
fn a_fraction_that_is_no_number_asks_for_nothing() {
    let world = DroneWorldCRDT::default();
    assert_eq!(check(f32::NAN, &spent_field(4, 0), &world), VerificationResult::Conserved);
    assert_eq!(check(-1.0, &spent_field(4, 0), &world), VerificationResult::Conserved);
    assert_eq!(
        check(f32::INFINITY, &spent_field(4, 4), &world),
        VerificationResult::CoverageDeficit { uncovered: 0, total: 4 }
    );
}

#[test]
fn accounting_for_more_never_brings_a_deficit() {
    let world = DroneWorldCRDT::default();
    for n in 1..12 {
        let mut passed = false;
        for covered in 0..=n {
            let result = check(0.7, &spent_field(n, covered), &world);
            let passes = result == VerificationResult::Conserved;
            assert!(passes || !passed);
            passed = passes;
        }
        assert!(passed);
    }
}
