use drone_fleet_ternary::arith::add_up;
use drone_fleet_ternary::pheromone::{
    levels_above, measure, DAMPENING, FAINT, NEAREST, VISIT_SHARE,
};
use drone_fleet_ternary::{ArithOp, PheromoneField, Scalar, Target};

fn s(v: f32) -> Scalar {
    Scalar { bits: v.to_bits() }
}

fn f(x: Scalar) -> f32 {
    f32::from_bits(x.bits)
}

fn ieee(op: ArithOp) -> Scalar {
    s(match op {
        ArithOp::Add(a, b) => f(a) + f(b),
        ArithOp::Sub(a, b) => f(a) - f(b),
        ArithOp::Mul(a, b) => f(a) * f(b),
        ArithOp::Div(a, b) => f(a) / f(b),
        ArithOp::Sqrt(a) => f(a).sqrt(),
        ArithOp::Count(n) => n as f32,
    })
}

fn target(id: u32, x: f32, y: f32, priority: f32) -> Target {
    Target { id, x: s(x), y: s(y), priority: s(priority), covered: false }
}

fn make_targets(n: usize) -> Vec<Target> {
    (0..n as u32).map(|i| target(i, i as f32 / n as f32, 0.5, 1.0)).collect()
}

#[test]
fn pheromone_evaporates_over_ticks() {
    let mut field = PheromoneField::new(make_targets(4), s(0.1));
    let initial: f32 = f(field.total_pheromone(&ieee));
    field.tick(&ieee);
    assert!(f(field.total_pheromone(&ieee)) < initial);
}

#[test]
fn pheromone_dampens_on_cover() {
    let mut field = PheromoneField::new(make_targets(4), s(0.05));
    let before = f(field.pheromone_at(0));
    field.cover(&ieee, 0);
    assert!(f(field.pheromone_at(0)) < before);
    assert!(field.targets[0].covered);
}

#[test]
fn pheromone_gradient_points_to_strongest() {
    let targets = vec![target(0, 0.1, 0.5, 0.1), target(1, 0.9, 0.5, 0.9)];
    let field = PheromoneField::new(targets, s(0.05));
    let (idx, _bearing) = field.sample_gradient(&ieee, s(0.5), s(0.5)).unwrap();
    assert_eq!(idx, 1, "gradient should point to higher-pheromone target");
}

#[test]
fn covered_targets_excluded_from_gradient() {
    let mut field = PheromoneField::new(make_targets(3), s(0.05));
    field.cover(&ieee, 0);
    field.cover(&ieee, 1);
    // Only target 2 remains.
    let (idx, _) = field.sample_gradient(&ieee, s(0.0), s(0.0)).unwrap();
    assert_eq!(idx, 2);
}

#[test]
fn pheromone_constants_are_the_numbers_they_name() {
    assert_eq!(FAINT, 0.01f32.to_bits());
    assert_eq!(DAMPENING, 0.6f32.to_bits());
    assert_eq!(VISIT_SHARE, 0.3f32.to_bits());
    assert_eq!(NEAREST, 0.001f32.to_bits());
}

#[test]
fn a_new_field_holds_the_priorities() {
    let targets = vec![target(7, 0.1, 0.2, 0.4), target(9, 0.3, 0.4, 0.9)];
    let field = PheromoneField::new(targets, s(0.25));
    assert_eq!(f(field.pheromone_at(0)), 0.4);
    assert_eq!(f(field.pheromone_at(1)), 0.9);
    assert_eq!(f(field.pheromone_at(2)), 0.0);
    assert_eq!(f(field.evaporation_rate), 0.25);
    assert_eq!(f(field.dampening), 0.6);
    assert_eq!(field.targets[1].id, 9);
    assert_eq!(field.covered_count(), 0);
}

#[test]
fn a_tick_multiplies_by_what_stays() {
    let targets = vec![target(0, 0.0, 0.0, 0.8), target(1, 0.0, 0.0, 0.0125)];
    let mut field = PheromoneField::new(targets, s(0.25));
    assert_eq!(field.tick(&ieee), 1);
    assert_eq!(f(field.pheromone_at(0)), 0.8f32 * 0.75);
    assert_eq!(f(field.pheromone_at(1)), 0.0125f32 * 0.75);
    assert_eq!(field.tick(&ieee), 1);
    assert_eq!(f(field.pheromone_at(0)), 0.8f32 * 0.75 * 0.75);
}

#[test]
fn pheromone_never_drops_below_zero() {
    // A rate above one, and a level that is no number.
    let targets = vec![target(0, 0.0, 0.0, 0.5), target(1, 0.0, 0.0, f32::NAN)];
    let mut field = PheromoneField::new(targets, s(1.5));
    assert_eq!(field.tick(&ieee), 0);
    assert_eq!(field.pheromone_at(0), s(0.0));
    assert_eq!(field.pheromone_at(1), s(0.0));
}

#[test]
fn a_tick_counts_covered_targets_too() {
    let mut field = PheromoneField::new(make_targets(2), s(0.05));
    field.cover(&ieee, 0);
    assert_eq!(field.tick(&ieee), 2);
}

#[test]
fn the_later_of_two_equal_levels_wins() {
    let field = PheromoneField::new(make_targets(4), s(0.05));
    assert_eq!(field.sample_gradient(&ieee, s(0.0), s(0.0)).unwrap().0, 3);
    let targets =
        vec![target(0, 0.0, 0.0, 0.5), target(1, 0.0, 0.0, 0.5), target(2, 0.0, 0.0, 0.4)];
    let field = PheromoneField::new(targets, s(0.05));
    assert_eq!(field.sample_gradient(&ieee, s(0.0), s(0.0)).unwrap().0, 1);
}

#[test]
fn faint_pheromone_cannot_be_followed() {
    let field = PheromoneField::new(vec![target(0, 0.5, 0.5, 0.01)], s(0.05));
    assert_eq!(field.sample_gradient(&ieee, s(0.0), s(0.0)), None);
    let field = PheromoneField::new(vec![target(0, 0.5, 0.5, 0.011)], s(0.05));
    assert!(field.sample_gradient(&ieee, s(0.0), s(0.0)).is_some());
    let field = PheromoneField::new(Vec::new(), s(0.05));
    assert_eq!(field.sample_gradient(&ieee, s(0.0), s(0.0)), None);
    let field = PheromoneField::new(vec![target(0, 0.5, 0.5, f32::NAN)], s(0.05));
    assert_eq!(field.sample_gradient(&ieee, s(0.0), s(0.0)), None);
}

#[test]
fn bearings_are_offset_over_distance() {
    let field = PheromoneField::new(vec![target(0, 3.0, 4.0, 1.0)], s(0.05));
    let bearing = |x: f32, y: f32| f(field.sample_gradient(&ieee, s(x), s(y)).unwrap().1);
    assert_eq!(bearing(0.0, 0.0), 3.0f32 / 5.0);
    assert_eq!(bearing(6.0, 0.0), -3.0f32 / 5.0);
    assert_eq!(bearing(0.0, 4.0), 1.0);
    assert_eq!(bearing(9.0, 4.0), -1.0);
    assert_eq!(bearing(3.0, 0.0), 0.0);
    // On the spot the distance counts as 0.001.
    assert_eq!(bearing(3.0, 4.0), 0.0);
}

#[test]
fn a_target_nearer_than_a_millimetre_bears_less() {
    let field = PheromoneField::new(vec![target(0, 0.0005, 0.0, 1.0)], s(0.05));
    let (_, bearing) = field.sample_gradient(&ieee, s(0.0), s(0.0)).unwrap();
    assert_eq!(f(bearing), 0.0005f32 / 0.001);
}

#[test]
fn offsets_and_distances_are_measured() {
    let t = target(0, 3.0, 4.0, 1.0);
    let (dx, dist) = measure(&ieee, &t, s(0.0), s(0.0));
    assert_eq!((f(dx), f(dist)), (3.0, 5.0));
    let (dx, dist) = measure(&ieee, &t, s(4.0), s(4.0));
    assert_eq!((f(dx), f(dist)), (-1.0, 1.0));
}

#[test]
fn covering_dampens_to_six_tenths_and_counts_once() {
    let mut field = PheromoneField::new(make_targets(3), s(0.05));
    field.cover(&ieee, 1);
    assert_eq!(f(field.pheromone_at(1)), 0.6);
    assert_eq!(f(field.pheromone_at(0)), 1.0);
    assert_eq!(field.covered_count(), 1);
    field.cover(&ieee, 1);
    assert_eq!(f(field.pheromone_at(1)), 0.6f32 * 0.6);
    assert_eq!(field.covered_count(), 1);
    field.cover(&ieee, 3);
    assert_eq!(field.covered_count(), 1);
    field.cover(&ieee, 0);
    field.cover(&ieee, 2);
    assert_eq!(field.covered_count(), 3);
    assert_eq!(field.sample_gradient(&ieee, s(0.0), s(0.0)), None);
}

#[test]
fn visiting_weakens_open_targets_only() {
    let mut field = PheromoneField::new(make_targets(2), s(0.05));
    field.visit(&ieee, 0);
    let factor = 1.0f32 - 0.6f32 * 0.3f32;
    assert_eq!(f(field.pheromone_at(0)), factor);
    assert!(!field.targets[0].covered);
    field.visit(&ieee, 0);
    assert_eq!(f(field.pheromone_at(0)), factor * factor);
    field.cover(&ieee, 1);
    let residual = field.pheromone_at(1);
    field.visit(&ieee, 1);
    assert_eq!(field.pheromone_at(1), residual);
    field.visit(&ieee, 2);
    assert_eq!(field.pheromone.len(), 2);
}

#[test]
fn a_visit_sends_others_elsewhere() {
    let mut field = PheromoneField::new(make_targets(2), s(0.05));
    assert_eq!(field.sample_gradient(&ieee, s(0.0), s(0.0)).unwrap().0, 1);
    field.visit(&ieee, 1);
    assert_eq!(field.sample_gradient(&ieee, s(0.0), s(0.0)).unwrap().0, 0);
}

#[test]
fn levels_are_added_up_from_the_left() {
    let field = PheromoneField::new(
        vec![target(0, 0.0, 0.0, 0.1), target(1, 0.0, 0.0, 0.2), target(2, 0.0, 0.0, 0.7)],
        s(0.05),
    );
    assert_eq!(f(field.total_pheromone(&ieee)), 0.1f32 + 0.2f32 + 0.7f32);
    let field = PheromoneField::new(Vec::new(), s(0.05));
    assert_eq!(f(field.total_pheromone(&ieee)), 0.0);
    // A large first term swallows the small ones that follow.
    let terms = vec![s(16_777_216.0), s(1.0), s(1.0)];
    assert_eq!(f(add_up(&ieee, &terms)), 16_777_216.0);
    let terms = vec![s(1.0), s(1.0), s(16_777_216.0)];
    assert_eq!(f(add_up(&ieee, &terms)), 16_777_218.0);
}

#[test]
fn levels_above_a_threshold_are_counted() {
    let levels = vec![s(0.05), s(0.06), s(f32::NAN), s(f32::INFINITY), s(-1.0)];
    assert_eq!(levels_above(&levels, s(0.05)), 2);
    assert_eq!(levels_above(&levels, s(-2.0)), 4);
    assert_eq!(levels_above(&Vec::new(), s(0.0)), 0);
}

#[test]
fn a_copied_field_lives_on_its_own() {
    let mut field = PheromoneField::new(make_targets(2), s(0.05));
    let copy = field.clone();
    field.cover(&ieee, 0);
    assert_eq!(copy.covered_count(), 0);
    assert_eq!(f(copy.pheromone_at(0)), 1.0);
    assert_eq!(copy.dampening, field.dampening);
    assert_eq!(copy.evaporation_rate, field.evaporation_rate);
}
