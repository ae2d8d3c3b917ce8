use drone_fleet_ternary::{ArithOp, DroneState, DroneWorldCRDT, Scalar, Timestamp};

fn s(v: f32) -> Scalar {
    Scalar { bits: v.to_bits() }
}

fn f(x: Scalar) -> f32 {
    f32::from_bits(x.bits)
}

fn ieee(op: ArithOp) -> Scalar {
    s(match op {
        ArithOp::Add(a, b) => f(a) + f(b),
        ArithOp::Sub(a, b) => f(a) - f(b),
        ArithOp::Mul(a, b) => f(a) * f(b),
        ArithOp::Div(a, b) => f(a) / f(b),
        ArithOp::Sqrt(a) => f(a).sqrt(),
        ArithOp::Count(n) => n as f32,
    })
}

fn state(
    drone_id: u32,
    x: f32,
    y: f32,
    battery: f32,
    active_target: Option<u32>,
    weight_version: u32,
) -> DroneState {
    DroneState { drone_id, x: s(x), y: s(y), battery_soc: s(battery), active_target, weight_version }
}

fn at(id: u32, x: f32) -> DroneState {
    state(id, x, 0.0, 1.0, None, 1)
}

/// The x coordinate of each of the first ten drones that is known.
fn picture(world: &DroneWorldCRDT) -> Vec<Option<f32>> {
    (0..10).map(|id| world.get(id).map(|d| f(d.x))).collect()
}

fn world_of(updates: &[(u32, f32, u64)]) -> DroneWorldCRDT {
    let mut world = DroneWorldCRDT::default();
    for &(id, x, ts) in updates {
        world.upsert(at(id, x), Timestamp(ts));
    }
    world
}

#[test]
fn crdt_lww_keeps_later_timestamp() {
    let mut world = DroneWorldCRDT::default();
    let state_v1 = state(0, 0.1, 0.2, 0.9, None, 1);
    let state_v2 = state(0, 0.5, 0.5, 0.7, Some(3), 1);

    world.upsert(state_v1, Timestamp(100));
    world.upsert(state_v2, Timestamp(200));

    let known = world.get(0).unwrap();
    assert_eq!(f(known.x), 0.5);
    assert_eq!(known.active_target, Some(3));
}

#[test]
fn crdt_older_update_does_not_overwrite() {
    let mut world = DroneWorldCRDT::default();
    let new_state = state(1, 0.8, 0.8, 0.5, Some(7), 2);
    let old_state = state(1, 0.1, 0.1, 0.9, None, 1);

    world.upsert(new_state, Timestamp(500));
    world.upsert(old_state, Timestamp(100));

    let known = world.get(1).unwrap();
    assert_eq!(f(known.x), 0.8);
}

#[test]
fn crdt_merge_converges() {
    let mut world_a = DroneWorldCRDT::default();
    let mut world_b = DroneWorldCRDT::default();

    let s1 = state(0, 0.1, 0.1, 1.0, None, 1);
    let s2 = state(1, 0.9, 0.9, 0.8, Some(2), 1);

    world_a.upsert(s1, Timestamp(100));
    world_b.upsert(s2, Timestamp(200));

    world_a.merge(&world_b);

    assert_eq!(world_a.drone_count(), 2);
    assert!(world_a.get(1).is_some());
}

#[test]
fn the_first_of_two_equally_recent_updates_stays() {
    let world = world_of(&[(3, 0.25, 7), (3, 0.75, 7)]);
    assert_eq!(f(world.get(3).unwrap().x), 0.25);
    // That holds for time zero as well.
    let world = world_of(&[(3, 0.25, 0), (3, 0.75, 0)]);
    assert_eq!(f(world.get(3).unwrap().x), 0.25);
    let world = world_of(&[(3, 0.25, 0), (3, 0.75, 1)]);
    assert_eq!(f(world.get(3).unwrap().x), 0.75);
}

#[test]
fn unknown_drones_are_not_found() {
    let world = world_of(&[(3, 0.25, 7)]);
    assert!(world.get(2).is_none());
    assert_eq!(world.drone_count(), 1);
    assert_eq!(DroneWorldCRDT::default().drone_count(), 0);
}

#[test]
fn timestamps_order_by_time() {
    assert!(Timestamp(2) > Timestamp(1));
    assert_eq!(Timestamp(2), Timestamp(2));
}

const LEFT: [(u32, f32, u64); 4] = [(0, 0.1, 10), (1, 0.2, 20), (2, 0.3, 30), (5, 0.5, 0)];
const RIGHT: [(u32, f32, u64); 4] = [(0, 0.6, 11), (1, 0.7, 19), (4, 0.8, 1), (6, 0.9, 0)];
const THIRD: [(u32, f32, u64); 3] = [(1, 0.15, 21), (4, 0.25, 2), (7, 0.35, 3)];

#[test]
fn merging_keeps_the_more_recent_entries() {
    let mut left = world_of(&LEFT);
    left.merge(&world_of(&RIGHT));
    assert_eq!(
        picture(&left),
        vec![
            Some(0.6),
            Some(0.2),
            Some(0.3),
            None,
            Some(0.8),
            Some(0.5),
            Some(0.9),
            None,
            None,
            None
        ]
    );
}

#[test]
fn merging_works_in_either_direction() {
    let mut left = world_of(&LEFT);
    left.merge(&world_of(&RIGHT));
    let mut right = world_of(&RIGHT);
    right.merge(&world_of(&LEFT));
    assert_eq!(picture(&left), picture(&right));
}

#[test]
fn merging_can_be_grouped_in_any_way() {
    let mut one = world_of(&LEFT);
    one.merge(&world_of(&RIGHT));
    one.merge(&world_of(&THIRD));
    let mut rest = world_of(&RIGHT);
    rest.merge(&world_of(&THIRD));
    let mut other = world_of(&LEFT);
    other.merge(&rest);
    assert_eq!(picture(&one), picture(&other));
    assert_eq!(one.drone_count(), 7);
}

#[test]
fn merging_again_changes_nothing() {
    let mut once = world_of(&LEFT);
    once.merge(&world_of(&RIGHT));
    let seen = picture(&once);
    once.merge(&world_of(&RIGHT));
    assert_eq!(picture(&once), seen);
    let mut twin = world_of(&LEFT);
    twin.merge(&world_of(&LEFT));
    assert_eq!(picture(&twin), picture(&world_of(&LEFT)));
}

#[test]
fn equally_recent_states_keep_their_side() {
    let mut left = world_of(&[(0, 0.1, 5)]);
    let mut right = world_of(&[(0, 0.9, 5)]);
    left.merge(&world_of(&[(0, 0.9, 5)]));
    right.merge(&world_of(&[(0, 0.1, 5)]));
    assert_eq!(f(left.get(0).unwrap().x), 0.1);
    assert_eq!(f(right.get(0).unwrap().x), 0.9);
}

#[test]
fn a_merged_entry_brings_its_time_along() {
    let mut left = world_of(&[]);
    left.merge(&world_of(&[(0, 0.4, 50)]));
    left.upsert(at(0, 0.9), Timestamp(49));
    assert_eq!(f(left.get(0).unwrap().x), 0.4);
    left.upsert(at(0, 0.9), Timestamp(51));
    assert_eq!(f(left.get(0).unwrap().x), 0.9);
}

#[test]
fn an_update_is_a_small_merge() {
    let mut updated = world_of(&LEFT);
    updated.upsert(at(1, 0.77), Timestamp(21));
    let mut merged = world_of(&LEFT);
    merged.merge(&world_of(&[(1, 0.77, 21)]));
    assert_eq!(picture(&updated), picture(&merged));
}

#[test]
fn updates_arrive_in_any_order() {
    let there = world_of(&[(0, 0.1, 1), (1, 0.2, 1), (0, 0.3, 2)]);
    let back = world_of(&[(0, 0.3, 2), (1, 0.2, 1), (0, 0.1, 1)]);
    assert_eq!(picture(&there), picture(&back));
}

#[test]
fn mean_battery_averages_all_drones() {
    let mut world = DroneWorldCRDT::default();
    assert_eq!(f(world.mean_battery(&ieee)), 1.0);
    world.upsert(state(0, 0.0, 0.0, 0.5, None, 1), Timestamp(1));
    assert_eq!(f(world.mean_battery(&ieee)), 0.5);
    world.upsert(state(1, 0.0, 0.0, 0.25, None, 1), Timestamp(1));
    world.upsert(state(2, 0.0, 0.0, 0.75, None, 1), Timestamp(1));
    world.upsert(state(3, 0.0, 0.0, 0.125, None, 1), Timestamp(1));
    assert_eq!(f(world.mean_battery(&ieee)), 1.625 / 4.0);
}

#[test]
fn versions_are_consistent_until_one_differs() {
    let mut world = DroneWorldCRDT::default();
    assert!(world.weight_version_consistent());
    assert_eq!(world.weight_versions().len(), 0);
    for id in 0..5 {
        world.upsert(state(id, 0.0, 0.0, 1.0, None, 4), Timestamp(1));
    }
    assert!(world.weight_version_consistent());
    assert_eq!(world.weight_versions().len(), 1);
    world.upsert(state(3, 0.0, 0.0, 1.0, None, 5), Timestamp(2));
    assert!(!world.weight_version_consistent());
    let seen = world.weight_versions();
    assert_eq!(seen.len(), 2);
    assert!(seen.contains(&4) && seen.contains(&5));
}

#[test]
fn assignments_are_listed_once() {
    let mut world = DroneWorldCRDT::default();
    world.upsert(state(0, 0.0, 0.0, 1.0, Some(8), 1), Timestamp(1));
    world.upsert(state(1, 0.0, 0.0, 1.0, None, 1), Timestamp(1));
    world.upsert(state(2, 0.0, 0.0, 1.0, Some(8), 1), Timestamp(1));
    world.upsert(state(3, 0.0, 0.0, 1.0, Some(9), 1), Timestamp(1));
    let targets = world.assigned_targets();
    assert_eq!(targets.len(), 2);
    assert!(targets.contains(&8) && targets.contains(&9));
}
