use drone_fleet_ternary::mission::{
    CLEAR_SKY, CLIMB, CRITICAL_CHARGE, CRUISE_SPEED, DRAIN, EVAPORATION, LOW_CHARGE,
    MISSION_WEIGHTS_VERSION, REACH, STEP,
};
use drone_fleet_ternary::{
    run_mission, ArithOp, DroneVote, DroneWarp, FleetDirective, MissionReport, Scalar, Target,
};

fn s(v: f32) -> Scalar {
    Scalar { bits: v.to_bits() }
}

fn f(x: Scalar) -> f32 {
    f32::from_bits(x.bits)
}

fn ieee(op: ArithOp) -> Scalar {
    s(match op {
        ArithOp::Add(a, b) => f(a) + f(b),
        ArithOp::Sub(a, b) => f(a) - f(b),
        ArithOp::Mul(a, b) => f(a) * f(b),
        ArithOp::Div(a, b) => f(a) / f(b),
        ArithOp::Sqrt(a) => f(a).sqrt(),
        ArithOp::Count(n) => n as f32,
    })
}

fn target(id: u32, x: f32, y: f32) -> Target {
    Target { id, x: s(x), y: s(y), priority: s(1.0), covered: false }
}

#[test]
fn mission_makes_progress() {
    let targets: Vec<Target> = (0..5u32).map(|i| target(i, i as f32 * 0.2, 0.5)).collect();
    let report = run_mission(&ieee, 8, targets, 30);
    // A fleet of 8 drones should cover at least 1 target in 30 ticks.
    assert!(report.final_covered >= 1, "expected at least 1 covered, got {}", report.final_covered);
    assert!(report.coverage_per_tick.len() <= 30);
    println!(
        "Mission: {}/{} covered in {} ticks, battery: {:.0}%",
        report.final_covered,
        report.n_targets,
        report.ticks_elapsed,
        f(report.mean_battery) * 100.0
    );
}

#[test]
fn mission_coverage_is_monotonically_nondecreasing() {
    let targets: Vec<Target> = (0..4u32).map(|i| target(i, i as f32 * 0.25, 0.5)).collect();
    let report = run_mission(&ieee, 4, targets, 20);
    for window in report.coverage_per_tick.windows(2) {
        assert!(window[1] >= window[0], "coverage decreased: {} to {}", window[0], window[1]);
    }
}

#[test]
fn mission_constants_are_the_numbers_they_name() {
    assert_eq!(EVAPORATION, 0.05f32.to_bits());
    assert_eq!(CLEAR_SKY, 0.8f32.to_bits());
    assert_eq!(CRUISE_SPEED, 0.3f32.to_bits());
    assert_eq!(STEP, 0.15f32.to_bits());
    assert_eq!(CLIMB, 0.5f32.to_bits());
    assert_eq!(DRAIN, 0.02f32.to_bits());
    assert_eq!(REACH, 0.2f32.to_bits());
    assert_eq!(CRITICAL_CHARGE, 0.1f32.to_bits());
    assert_eq!(LOW_CHARGE, 0.3f32.to_bits());
    assert_eq!(MISSION_WEIGHTS_VERSION, 1);
}

#[test]
fn a_known_mission_takes_its_known_course() {
    let targets: Vec<Target> = (0..5u32).map(|i| target(i, i as f32 * 0.2, 0.5)).collect();
    let report = run_mission(&ieee, 8, targets, 30);
    let mut coverage = vec![0, 0, 0, 0, 1];
    coverage.resize(30, 2);
    assert_eq!(report.coverage_per_tick, coverage);
    assert_eq!(report.directives, vec![FleetDirective::ContinueMission; 30]);
    assert_eq!(report.n_drones, 8);
    assert_eq!(report.n_targets, 5);
    assert_eq!(report.ticks_elapsed, 30);
    assert_eq!(report.final_covered, 2);
    assert_eq!(f(report.coverage_fraction), 2.0f32 / 5.0);
    // Thirty ticks cost each drone 0.6 of its charge.
    assert!((f(report.mean_battery) - 0.4).abs() < 1.0e-5);
}

#[test]
fn a_mission_ends_once_all_targets_are_covered() {
    let report = run_mission(&ieee, 2, vec![target(0, 0.0, 0.1)], 5);
    assert_eq!(report.ticks_elapsed, 1);
    assert_eq!(report.coverage_per_tick, vec![1]);
    assert_eq!(report.directives, vec![FleetDirective::ContinueMission]);
    assert_eq!(f(report.coverage_fraction), 1.0);
    // The very first report comes at time zero and leaves the deployment entry in place.
    assert_eq!(f(report.mean_battery), (1.0f32 + (1.0f32 - 0.02f32)) / 2.0);
}

#[test]
fn a_mission_regroups_and_then_aborts_as_batteries_run_low() {
    let report = run_mission(&ieee, 1, vec![target(0, 5.0, 5.0)], 100);
    assert_eq!(report.ticks_elapsed, 46);
    let mut directives = vec![FleetDirective::ContinueMission; 35];
    directives.resize(45, FleetDirective::Regroup);
    directives.push(FleetDirective::AbortReturn);
    assert_eq!(report.directives, directives);
    assert_eq!(report.final_covered, 0);
    assert_eq!(report.coverage_per_tick, vec![0; 46]);
}

#[test]
fn a_mission_without_drones_aborts_at_once() {
    let report = run_mission(&ieee, 0, vec![target(0, 0.5, 0.5)], 10);
    assert_eq!(report.ticks_elapsed, 1);
    assert_eq!(report.directives, vec![FleetDirective::AbortReturn]);
    assert_eq!(f(report.mean_battery), 1.0);
}

#[test]
fn a_mission_without_targets_ends_after_a_tick() {
    let report = run_mission(&ieee, 3, Vec::new(), 10);
    assert_eq!(report.ticks_elapsed, 1);
    assert_eq!(report.coverage_per_tick, vec![0]);
    assert!(f(report.coverage_fraction).is_nan());
}

#[test]
fn a_mission_without_ticks_reports_the_deployment() {
    let mut covered = target(1, 0.5, 0.5);
    covered.covered = true;
    let report = run_mission(&ieee, 3, vec![target(0, 0.5, 0.5), covered], 0);
    assert_eq!(report.ticks_elapsed, 0);
    assert!(report.coverage_per_tick.is_empty());
    assert!(report.directives.is_empty());
    assert_eq!(report.final_covered, 1);
    assert_eq!(f(report.coverage_fraction), 0.5);
    assert_eq!(f(report.mean_battery), 1.0);
}

/// The same mission in plain floating point: coverage per tick, directives, mean battery.
fn flown_in_floats(
    n: usize,
    places: &[(f32, f32, f32)],
    ticks: usize,
) -> (Vec<usize>, Vec<FleetDirective>, f32) {
    let mut covered = vec![false; places.len()];
    let mut levels: Vec<f32> = places.iter().map(|p| p.2).collect();
    let mut xs: Vec<f32> = (0..n).map(|i| i as f32 / n as f32).collect();
    let mut ys = vec![0.0f32; n];
    let mut charge = vec![1.0f32; n];
    let mut known = vec![1.0f32; n];
    let mut coverage = Vec::new();
    let mut directives = Vec::new();
    for tick in 0..ticks {
        for level in levels.iter_mut() {
            *level = (*level * (1.0 - 0.05)).max(0.0);
        }
        for i in 0..n {
            let best = (0..places.len())
                .filter(|&j| !covered[j] && levels[j] > 0.01)
                .max_by(|&a, &b| levels[a].partial_cmp(&levels[b]).unwrap());
            let bearing = match best {
                None => 0.0f32,
                Some(j) => {
                    let dx = places[j].0 - xs[i];
                    let dy = places[j].1 - ys[i];
                    (dx / (dx * dx + dy * dy).sqrt().max(0.001)).clamp(-1.0, 1.0)
                }
            };
            // The sky is clear: only a target to the left keeps a drone from advancing.
            if bearing >= -0.15 {
                xs[i] += bearing * 0.15;
                ys[i] += 0.15 * 0.5;
            }
            xs[i] = xs[i].clamp(0.0, 1.0);
            ys[i] = ys[i].clamp(0.0, 1.0);
            charge[i] = (charge[i] - 0.02).max(0.0);
            if let Some(j) = best {
                let dx = places[j].0 - xs[i];
                let dy = places[j].1 - ys[i];
                if (dx * dx + dy * dy).sqrt() < 0.2 {
                    covered[j] = true;
                    levels[j] *= 0.6;
                }
            }
            if tick > 0 || i > 0 {
                known[i] = charge[i];
            }
        }
        let mut warp = DroneWarp::new(0, n);
        for (i, &c) in charge.iter().enumerate() {
            let vote = if c < 0.1 {
                DroneVote::AbortReturn
            } else if c < 0.3 {
                DroneVote::Regroup
            } else {
                DroneVote::ContinueMission
            };
            warp.set_vote(i, vote);
        }
        let directive = warp.execute_ballot();
        directives.push(directive);
        let count = covered.iter().filter(|&&c| c).count();
        coverage.push(count);
        if directive == FleetDirective::AbortReturn || count == places.len() {
            break;
        }
    }
    let mean = if n == 0 { 1.0 } else { known.iter().sum::<f32>() / n as f32 };
    (coverage, directives, mean)
}

fn compare_with_floats(n: usize, places: &[(f32, f32, f32)], ticks: usize) -> MissionReport {
    let targets: Vec<Target> = places
        .iter()
        .enumerate()
        .map(|(i, p)| Target {
            id: i as u32,
            x: s(p.0),
            y: s(p.1),
            priority: s(p.2),
            covered: false,
        })
        .collect();
    let report = run_mission(&ieee, n, targets, ticks);
    let (coverage, directives, mean) = flown_in_floats(n, places, ticks);
    assert_eq!(report.coverage_per_tick, coverage);
    assert_eq!(report.directives, directives);
    assert!((f(report.mean_battery) - mean).abs() < 1.0e-5);
    report
}

#[test]
fn missions_fly_as_in_plain_floats() {
    let row: Vec<(f32, f32, f32)> = (0..6).map(|i| (i as f32 * 0.17, 0.4, 1.0)).collect();
    for n in [1, 2, 3, 5, 8, 20, 32, 40] {
        compare_with_floats(n, &row, 60);
    }
    let scattered = vec![
        (0.9, 0.1, 0.3),
        (0.2, 0.8, 0.9),
        (0.5, 0.5, 0.5),
        (0.7, 0.3, 0.7),
        (1.0, 1.0, 0.02),
        (0.95, 0.6, 1.0),
    ];
    for n in [1, 4, 9, 16, 33] {
        let report = compare_with_floats(n, &scattered, 50);
        assert!(report.final_covered <= report.n_targets);
    }
}

#[test]
fn the_same_mission_flies_the_same_way_twice() {
    let targets = || (0..5u32).map(|i| target(i, i as f32 * 0.2, 0.5)).collect::<Vec<Target>>();
    let one = run_mission(&ieee, 8, targets(), 30);
    let two = run_mission(&ieee, 8, targets(), 30);
    assert_eq!(one.coverage_per_tick, two.coverage_per_tick);
    assert_eq!(one.directives, two.directives);
    assert_eq!(one.coverage_fraction, two.coverage_fraction);
    assert_eq!(one.ticks_elapsed, two.ticks_elapsed);
}

#[test]
fn a_mission_works_with_whatever_its_unit_answers() {
    // A unit that answers everything with one: no drone ever gets near a target.
    let stuck = |_op: ArithOp| s(1.0);
    let report = run_mission(&stuck, 2, vec![target(0, 0.0, 0.0)], 3);
    assert_eq!(report.coverage_per_tick, vec![0, 0, 0]);
    assert_eq!(report.directives, vec![FleetDirective::ContinueMission; 3]);
    // One that answers with zero drains every battery at once, and covers at once.
    let idle = |_op: ArithOp| s(0.0);
    let report = run_mission(&idle, 2, vec![target(0, 0.0, 0.0)], 3);
    assert_eq!(report.directives, vec![FleetDirective::AbortReturn]);
    assert_eq!(report.final_covered, 0);
}

#[test]
fn a_tick_covers_at_most_one_target_per_drone() {
    // Nine targets in one spot, one of them covered from the start.
    for n in 1..5usize {
        let mut targets: Vec<Target> = (0..9u32).map(|i| target(i, 0.3, 0.1)).collect();
        targets[3].covered = true;
        let report = run_mission(&ieee, n, targets, 30);
        let mut before = 1;
        for &now in report.coverage_per_tick.iter() {
            assert!(before <= now && now <= before + n);
            before = now;
        }
        assert!(report.final_covered <= 9);
    }
}

#[test]
fn fewer_ticks_cut_a_mission_off() {
    let targets = || (0..5u32).map(|i| target(i, i as f32 * 0.2, 0.5)).collect::<Vec<Target>>();
    let long = run_mission(&ieee, 8, targets(), 60);
    assert!(long.ticks_elapsed < 60);
    for ticks in 0..60 {
        let short = run_mission(&ieee, 8, targets(), ticks);
        assert_eq!(short.ticks_elapsed, ticks.min(long.ticks_elapsed));
        assert_eq!(short.coverage_per_tick[..], long.coverage_per_tick[..short.ticks_elapsed]);
        assert_eq!(short.directives[..], long.directives[..short.ticks_elapsed]);
        assert!(short.final_covered <= long.final_covered);
    }
}
