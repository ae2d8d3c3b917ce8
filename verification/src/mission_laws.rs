//! What holds of every mission, whatever its floating-point unit answers.
use crate::arith::{
    answers, counts_exactly, quotients_stay_positive, steady, sums_to, treats_one_as_one, ArithOp,
};
use crate::conservation::{overclaimed, verdict, VerificationResult};
use crate::mission::{
    coverage_recorded, deployed, drained, drone_stepped, fleet_directive, fleet_votes, heading,
    mission_flown, mission_over, mission_reading, mission_reported, mission_under_way,
    mission_weights, moved, picked, report_time, stationed, steered, tick_leads, tick_turns,
    ticked, turn_leads, turn_taken, vote_for, worked, FleetView, MissionReport, CLEAR_SKY, CLIMB,
    CRITICAL_CHARGE, CRUISE_SPEED, DRAIN, EVAPORATION, LOW_CHARGE, MISSION_WEIGHTS_VERSION, REACH,
    STEP,
};
use crate::nav::{
    hidden_layer, network_action, sensed, sensing_is_reproducible, sign_of, weighted_sum,
    DroneAction, SensorReading, DEAD_BAND, MINUS_DEAD_BAND, NEUTRAL_CLEARANCE,
};
use crate::pheromone::{
    attractive, bearings_are_reproducible, bears, coverage_is_bounded, coverage_is_monotone,
    covered_in, covered_targets_are_counted, covering_counts_once,
    evaporation_is_reproducible, field_evaporated, measured, measuring_is_reproducible,
    most_attractive, most_attractive_is_unique, with_covered, Target, DAMPENING, FAINT,
};
use crate::scalar::{comparison_is_numeric, Scalar, ONE, ZERO};
use crate::ternary::{weight_at, Trit};
use crate::warp::{tallies_count_threads, DroneVote, FleetDirective};
use crate::world::{assigned, drones_at, mean_takes_in_every_drone_once, versions};
use vstd::arithmetic::power2::{lemma2_to64, lemma_pow2_adds, lemma_pow2_pos, pow2};
use vstd::prelude::*;
use vstd::set_lib::FiniteRange;

verus! {

/// The targets `after` are the targets `before`, some more of them covered.
pub open spec fn targets_kept(before: Seq<Target>, after: Seq<Target>) -> bool {
    &&& after.len() == before.len()
    &&& forall|j: int|
        0 <= j < before.len() ==> {
            &&& #[trigger] after[j] == (Target { covered: after[j].covered, ..before[j] })
            &&& before[j].covered ==> after[j].covered
        }
}

proof fn lemma_targets_kept_transitive(a: Seq<Target>, b: Seq<Target>, c: Seq<Target>)
    requires
        targets_kept(a, b),
        targets_kept(b, c),
    ensures
        targets_kept(a, c),
{
    assert forall|j: int| 0 <= j < a.len() implies {
        &&& #[trigger] c[j] == (Target { covered: c[j].covered, ..a[j] })
        &&& a[j].covered ==> c[j].covered
    } by {
        assert(b[j] == (Target { covered: b[j].covered, ..a[j] }));
    }
}

proof fn lemma_turn_keeps_targets<U: Fn(ArithOp) -> Scalar>(
    unit: U,
    weights: Seq<Trit>,
    version: u32,
    tick: int,
    i: int,
    before: FleetView,
    after: FleetView,
)
    requires
        0 <= i < before.batteries.len(),
        drone_stepped(unit, weights, version, tick, i, before, after),
    ensures
        targets_kept(before.targets, after.targets),
        after.batteries.len() == before.batteries.len(),
{
}

proof fn lemma_turns_keep_targets<U: Fn(ArithOp) -> Scalar>(
    unit: U,
    weights: Seq<Trit>,
    version: u32,
    tick: int,
    before: FleetView,
    turns: Seq<FleetView>,
    k: int,
)
    requires
        tick_turns(unit, weights, version, tick, before, turns),
        0 <= k < turns.len() <= before.batteries.len() + 1,
    ensures
        targets_kept(before.targets, turns[k].targets),
        turns[k].batteries.len() == before.batteries.len(),
    decreases k,
{
    if k > 0 {
        lemma_turns_keep_targets(unit, weights, version, tick, before, turns, k - 1);
        let earlier = turns[k - 1];
        assert(turn_leads(unit, weights, version, tick, turns, k - 1));
        lemma_turn_keeps_targets(unit, weights, version, tick, k - 1, earlier, turns[k]);
        lemma_targets_kept_transitive(before.targets, earlier.targets, turns[k].targets);
    }
}

/// A tick neither adds, drops nor changes a target, except that it may cover it; what is
/// covered stays covered. The number of drones stays the same.
pub proof fn tick_keeps_targets<U: Fn(ArithOp) -> Scalar>(
    unit: U,
    weights: Seq<Trit>,
    version: u32,
    tick: int,
    before: FleetView,
    after: FleetView,
)
    requires
        ticked(unit, weights, version, tick, before, after),
    ensures
        targets_kept(before.targets, after.targets),
        after.batteries.len() == before.batteries.len(),
{
    let turns = choose|turns: Seq<FleetView>|
        {
            &&& #[trigger] tick_turns(unit, weights, version, tick, before, turns)
            &&& turns.len() == before.batteries.len() + 1
            &&& after == turns.last()
        };
    lemma_turns_keep_targets(
        unit,
        weights,
        version,
        tick,
        before,
        turns,
        turns.len() - 1,
    );
}

/// `fleets[t + 1]` keeps the targets and the drones of `fleets[t]`.
spec fn keeps_targets_at(fleets: Seq<FleetView>, t: int) -> bool {
    &&& targets_kept(fleets[t].targets, fleets[t + 1].targets)
    &&& fleets[t + 1].batteries.len() == fleets[t].batteries.len()
}

/// A chain of fleets, each keeping the targets of the one before it, keeps them
/// throughout.
proof fn lemma_chain_keeps_targets(fleets: Seq<FleetView>, from: int, to: int)
    requires
        0 <= from <= to < fleets.len(),
        forall|t: int| 0 <= t < fleets.len() - 1 ==> #[trigger] keeps_targets_at(fleets, t),
    ensures
        targets_kept(fleets[from].targets, fleets[to].targets),
        fleets[to].batteries.len() == fleets[from].batteries.len(),
    decreases to - from,
{
    if from < to {
        lemma_chain_keeps_targets(fleets, from, to - 1);
        assert(keeps_targets_at(fleets, to - 1));
        lemma_targets_kept_transitive(
            fleets[from].targets,
            fleets[to - 1].targets,
            fleets[to].targets,
        );
    }
}

/// From one tick to a later one no target is added, dropped or changed, except that more
/// of them may be covered. The number of drones stays the same.
pub proof fn mission_keeps_targets<U: Fn(ArithOp) -> Scalar>(
    unit: U,
    n_drones: usize,
    targets: Seq<Target>,
    fleets: Seq<FleetView>,
    from: int,
    to: int,
)
    requires
        mission_under_way(unit, n_drones, targets, fleets),
        0 <= from <= to < fleets.len(),
    ensures
        targets_kept(fleets[from].targets, fleets[to].targets),
        targets_kept(targets, fleets[to].targets),
        fleets[to].batteries.len() == n_drones,
{
    assert forall|t: int| 0 <= t < fleets.len() - 1 implies #[trigger] keeps_targets_at(
        fleets,
        t,
    ) by {
        assert(tick_leads(unit, fleets, t));
        tick_keeps_targets(
            unit,
            mission_weights(),
            MISSION_WEIGHTS_VERSION,
            t,
            fleets[t],
            fleets[t + 1],
        );
    }
    lemma_chain_keeps_targets(fleets, from, to);
    lemma_chain_keeps_targets(fleets, 0, to);
}

/// Coverage never goes down during a mission, never lies below what was covered before it,
/// and never exceeds the number of targets.
pub proof fn coverage_never_decreases<U: Fn(ArithOp) -> Scalar>(
    unit: U,
    n_drones: usize,
    targets: Seq<Target>,
    fleets: Seq<FleetView>,
    coverage: Seq<usize>,
    earlier: int,
    later: int,
)
    requires
        mission_under_way(unit, n_drones, targets, fleets),
        coverage_recorded(fleets, coverage),
        0 <= earlier <= later < coverage.len(),
    ensures
        covered_in(targets) <= coverage[earlier],
        coverage[earlier] <= coverage[later],
        coverage[later] <= targets.len(),
{
    mission_keeps_targets(unit, n_drones, targets, fleets, 0, earlier + 1);
    coverage_is_monotone(targets, fleets[earlier + 1].targets);
    mission_keeps_targets(unit, n_drones, targets, fleets, earlier + 1, later + 1);
    coverage_is_monotone(fleets[earlier + 1].targets, fleets[later + 1].targets);
    coverage_is_bounded(fleets[later + 1].targets);
}

proof fn lemma_turn_covers_at_most_one<U: Fn(ArithOp) -> Scalar>(
    unit: U,
    weights: Seq<Trit>,
    version: u32,
    tick: int,
    i: int,
    before: FleetView,
    after: FleetView,
)
    requires
        drone_stepped(unit, weights, version, tick, i, before, after),
    ensures
        covered_in(after.targets) <= covered_in(before.targets) + 1,
{
    let (choice, action) = choose|choice: Option<(int, Scalar)>, action: DroneAction| #[trigger]
        turn_taken(unit, weights, version, tick, i, choice, action, before, after);
    if let Some((idx, _)) = choice {
        covering_counts_once(before.targets, idx);
    }
}

proof fn lemma_turns_cover_at_most_one_each<U: Fn(ArithOp) -> Scalar>(
    unit: U,
    weights: Seq<Trit>,
    version: u32,
    tick: int,
    before: FleetView,
    turns: Seq<FleetView>,
    k: int,
)
    requires
        tick_turns(unit, weights, version, tick, before, turns),
        0 <= k < turns.len(),
    ensures
        covered_in(turns[k].targets) <= covered_in(before.targets) + k,
    decreases k,
{
    if k > 0 {
        lemma_turns_cover_at_most_one_each(unit, weights, version, tick, before, turns, k - 1);
        assert(turn_leads(unit, weights, version, tick, turns, k - 1));
        lemma_turn_covers_at_most_one(
            unit,
            weights,
            version,
            tick,
            k - 1,
            turns[k - 1],
            turns[k],
        );
    }
}

/// Each drone covers at most one target per tick.
pub proof fn tick_covers_at_most_one_target_per_drone<U: Fn(ArithOp) -> Scalar>(
    unit: U,
    weights: Seq<Trit>,
    version: u32,
    tick: int,
    before: FleetView,
    after: FleetView,
)
    requires
        ticked(unit, weights, version, tick, before, after),
    ensures
        covered_in(before.targets) <= covered_in(after.targets) <= covered_in(before.targets)
            + before.batteries.len(),
{
    let turns = choose|turns: Seq<FleetView>|
        {
            &&& #[trigger] tick_turns(unit, weights, version, tick, before, turns)
            &&& turns.len() == before.batteries.len() + 1
            &&& after == turns.last()
        };
    lemma_turns_cover_at_most_one_each(
        unit,
        weights,
        version,
        tick,
        before,
        turns,
        turns.len() - 1,
    );
    tick_keeps_targets(unit, weights, version, tick, before, after);
    coverage_is_monotone(before.targets, after.targets);
}

/// From one tick to the next, and from the start to the first, coverage grows by no more
/// than the number of drones.
pub proof fn coverage_grows_by_at_most_the_fleet<U: Fn(ArithOp) -> Scalar>(
    unit: U,
    n_drones: usize,
    targets: Seq<Target>,
    fleets: Seq<FleetView>,
    coverage: Seq<usize>,
    t: int,
)
    requires
        mission_under_way(unit, n_drones, targets, fleets),
        coverage_recorded(fleets, coverage),
        0 <= t < coverage.len(),
    ensures
        coverage[t] <= (if t == 0 {
            covered_in(targets) as int
        } else {
            coverage[t - 1] as int
        }) + n_drones,
{
    mission_keeps_targets(unit, n_drones, targets, fleets, 0, t);
    assert(tick_leads(unit, fleets, t));
    tick_covers_at_most_one_target_per_drone(
        unit,
        mission_weights(),
        MISSION_WEIGHTS_VERSION,
        t,
        fleets[t],
        fleets[t + 1],
    );
    assert(coverage[t] == covered_in(fleets[t + 1].targets));
    if t > 0 {
        assert(coverage[t - 1] == covered_in(fleets[t - 1 + 1].targets));
    }
}

/// `fleet` knows exactly its `n` drones, each under its own id and with the same weights,
/// and each assigned only to a target that exists.
pub open spec fn in_touch(fleet: FleetView, n: int, version: u32) -> bool {
    &&& forall|id: u32| #[trigger] fleet.world.contains_key(id) <==> id < n
    &&& forall|id: u32| #[trigger]
        fleet.world.contains_key(id) ==> {
            &&& fleet.world[id].0.drone_id == id
            &&& fleet.world[id].0.weight_version == version
            &&& fleet.world[id].0.active_target matches Some(claim) ==> exists|j: int|
                0 <= j < fleet.targets.len() && (#[trigger] fleet.targets[j]).id == claim
        }
}

proof fn lemma_turn_stays_in_touch<U: Fn(ArithOp) -> Scalar>(
    unit: U,
    weights: Seq<Trit>,
    version: u32,
    tick: int,
    i: int,
    before: FleetView,
    after: FleetView,
)
    requires
        drone_stepped(unit, weights, version, tick, i, before, after),
        0 <= i < before.batteries.len() <= u32::MAX,
        in_touch(before, before.batteries.len() as int, version),
    ensures
        in_touch(after, before.batteries.len() as int, version),
        after.batteries.len() == before.batteries.len(),
{
    lemma_turn_keeps_targets(unit, weights, version, tick, i, before, after);
    let (choice, action) = choose|choice: Option<(int, Scalar)>, action: DroneAction| #[trigger]
        turn_taken(unit, weights, version, tick, i, choice, action, before, after);
    assert forall|id: u32| #[trigger] after.world.contains_key(id) implies {
        &&& after.world[id].0.drone_id == id
        &&& after.world[id].0.weight_version == version
        &&& after.world[id].0.active_target matches Some(claim) ==> exists|j: int|
            0 <= j < after.targets.len() && (#[trigger] after.targets[j]).id == claim
    } by {
        if before.world.contains_key(id) && after.world[id] == before.world[id] {
            if let Some(claim) = before.world[id].0.active_target {
                let j = choose|j: int|
                    0 <= j < before.targets.len() && (#[trigger] before.targets[j]).id == claim;
                assert(after.targets[j] == (Target {
                    covered: after.targets[j].covered,
                    ..before.targets[j]
                }));
                assert(after.targets[j].id == claim);
            }
        }
    }
}

proof fn lemma_turns_stay_in_touch<U: Fn(ArithOp) -> Scalar>(
    unit: U,
    weights: Seq<Trit>,
    version: u32,
    tick: int,
    before: FleetView,
    turns: Seq<FleetView>,
    k: int,
)
    requires
        tick_turns(unit, weights, version, tick, before, turns),
        0 <= k < turns.len() <= before.batteries.len() + 1,
        before.batteries.len() <= u32::MAX,
        in_touch(before, before.batteries.len() as int, version),
    ensures
        in_touch(turns[k], before.batteries.len() as int, version),
        turns[k].batteries.len() == before.batteries.len(),
    decreases k,
{
    if k > 0 {
        lemma_turns_stay_in_touch(unit, weights, version, tick, before, turns, k - 1);
        let earlier = turns[k - 1];
        assert(turn_leads(unit, weights, version, tick, turns, k - 1));
        lemma_turn_stays_in_touch(unit, weights, version, tick, k - 1, earlier, turns[k]);
    } else {
        assert(turns[0].targets == before.targets && turns[0].world == before.world);
    }
}

/// A tick keeps the fleet in touch.
pub proof fn tick_stays_in_touch<U: Fn(ArithOp) -> Scalar>(
    unit: U,
    weights: Seq<Trit>,
    version: u32,
    tick: int,
    before: FleetView,
    after: FleetView,
)
    requires
        ticked(unit, weights, version, tick, before, after),
        before.batteries.len() <= u32::MAX,
        in_touch(before, before.batteries.len() as int, version),
    ensures
        in_touch(after, before.batteries.len() as int, version),
        after.batteries.len() == before.batteries.len(),
{
    let turns = choose|turns: Seq<FleetView>|
        {
            &&& #[trigger] tick_turns(unit, weights, version, tick, before, turns)
            &&& turns.len() == before.batteries.len() + 1
            &&& after == turns.last()
        };
    lemma_turns_stay_in_touch(
        unit,
        weights,
        version,
        tick,
        before,
        turns,
        turns.len() - 1,
    );
}

/// At every point of a mission the fleet knows exactly its drones, all with the same
/// weights and with targets that exist.
pub proof fn mission_stays_in_touch<U: Fn(ArithOp) -> Scalar>(
    unit: U,
    n_drones: usize,
    targets: Seq<Target>,
    fleets: Seq<FleetView>,
    t: int,
)
    requires
        mission_under_way(unit, n_drones, targets, fleets),
        n_drones <= u32::MAX,
        0 <= t < fleets.len(),
    ensures
        in_touch(fleets[t], n_drones as int, MISSION_WEIGHTS_VERSION),
        fleets[t].batteries.len() == n_drones,
    decreases t,
{
    if t > 0 {
        mission_stays_in_touch(unit, n_drones, targets, fleets, t - 1);
        let before = fleets[t - 1];
        assert(tick_leads(unit, fleets, t - 1));
        tick_stays_in_touch(
            unit,
            mission_weights(),
            MISSION_WEIGHTS_VERSION,
            t - 1,
            before,
            fleets[t],
        );
    }
}

/// A mission never brings its own conservation check to report a split brain or a claim on
/// a target that does not exist.
pub proof fn mission_never_splits_or_overclaims<U: Fn(ArithOp) -> Scalar>(
    unit: U,
    n_drones: usize,
    targets: Seq<Target>,
    fleets: Seq<FleetView>,
    t: int,
    min: Scalar,
    result: VerificationResult,
)
    requires
        mission_under_way(unit, n_drones, targets, fleets),
        n_drones <= u32::MAX,
        0 <= t < fleets.len(),
        verdict(unit, min, fleets[t].targets, fleets[t].levels, fleets[t].world, result),
    ensures
        result is Conserved || result is CoverageDeficit,
{
    mission_stays_in_touch(unit, n_drones, targets, fleets, t);
    let fleet = fleets[t];
    let world = fleet.world;
    assert(!overclaimed(fleet.targets, world)) by {
        if overclaimed(fleet.targets, world) {
            let claim = choose|claim: u32| #[trigger]
                assigned(world).contains(claim) && forall|i: int|
                    0 <= i < fleet.targets.len() ==> claim != (#[trigger] fleet.targets[i]).id;
            let id = choose|id: u32| #[trigger]
                world.contains_key(id) && world[id].0.active_target == Some(claim);
            let j = choose|j: int|
                0 <= j < fleet.targets.len() && (#[trigger] fleet.targets[j]).id == claim;
            assert(fleet.targets[j].id == claim);
        }
    }
    if versions(world).len() > 1 {
        let seen = versions(world);
        assert forall|v: u32| #[trigger] seen.contains(v) implies v == MISSION_WEIGHTS_VERSION by {
            let id = choose|id: u32| #[trigger]
                world.contains_key(id) && world[id].0.weight_version == v;
            assert(world.contains_key(id));
        }
        assert(seen.subset_of(set![MISSION_WEIGHTS_VERSION]));
        vstd::set_lib::lemma_len_subset(seen, set![MISSION_WEIGHTS_VERSION]);
    }
}

/// On a mission a drone advances where clearance and bearing together favour it and
/// holds otherwise; it never brakes.
pub proof fn mission_network_advances_or_holds(inputs: Seq<int>)
    requires
        inputs.len() == 4,
    ensures
        network_action(mission_weights(), inputs) == (if sign_of(inputs[0]) + sign_of(inputs[1])
            > 0 {
            DroneAction::Advance
        } else {
            DroneAction::Hold
        }),
{
    let weights = mission_weights();
    let hidden = hidden_layer(weights, inputs);
    assert forall|h: int| 0 <= h < 8 implies #[trigger] hidden[h] == (if h < 4 {
        sign_of(inputs[1])
    } else {
        sign_of(inputs[0])
    }) by {
        lemma_mission_hidden_sum(inputs, h);
    }
    lemma_mission_score(hidden, 0);
    lemma_mission_score(hidden, 1);
    lemma_mission_score(hidden, 2);
    assert(hidden[0] + hidden[1] + hidden[2] + hidden[3] == 4 * sign_of(inputs[1]));
    assert(hidden[4] + hidden[5] + hidden[6] + hidden[7] == 4 * sign_of(inputs[0]));
}

proof fn lemma_times_trit(t: Trit, x: int)
    ensures
        t.value() * x == (match t {
            Trit::Neg => -x,
            Trit::Zero => 0,
            Trit::Pos => x,
        }),
{
    assert(1 * x == x && 0 * x == 0 && (-1) * x == -x) by (nonlinear_arith);
}

/// A hidden unit of the mission's network sums up a single input.
proof fn lemma_mission_hidden_sum(inputs: Seq<int>, h: int)
    requires
        inputs.len() == 4,
        0 <= h < 8,
    ensures
        weighted_sum(mission_weights(), 4 * h, inputs, 4) == (if h < 4 {
            inputs[1]
        } else {
            inputs[0]
        }),
{
    let weights = mission_weights();
    reveal_with_fuel(weighted_sum, 5);
    lemma_times_trit(weight_at(weights, 4 * h), inputs[0]);
    lemma_times_trit(weight_at(weights, 4 * h + 1), inputs[1]);
    lemma_times_trit(weight_at(weights, 4 * h + 2), inputs[2]);
    lemma_times_trit(weight_at(weights, 4 * h + 3), inputs[3]);
}

/// An output of the mission's network adds up all hidden units, or none.
proof fn lemma_mission_score(hidden: Seq<int>, output: int)
    requires
        hidden.len() == 8,
        0 <= output < 3,
    ensures
        weighted_sum(mission_weights(), 32 + 8 * output, hidden, 8) == (if output == 2 {
            hidden[0] + hidden[1] + hidden[2] + hidden[3] + hidden[4] + hidden[5] + hidden[6]
                + hidden[7]
        } else {
            0
        }),
{
    let weights = mission_weights();
    let from = 32 + 8 * output;
    reveal_with_fuel(weighted_sum, 9);
    lemma_times_trit(weight_at(weights, from), hidden[0]);
    lemma_times_trit(weight_at(weights, from + 1), hidden[1]);
    lemma_times_trit(weight_at(weights, from + 2), hidden[2]);
    lemma_times_trit(weight_at(weights, from + 3), hidden[3]);
    lemma_times_trit(weight_at(weights, from + 4), hidden[4]);
    lemma_times_trit(weight_at(weights, from + 5), hidden[5]);
    lemma_times_trit(weight_at(weights, from + 6), hidden[6]);
    lemma_times_trit(weight_at(weights, from + 7), hidden[7]);
}

/// A mission that ends before its last tick ends for a reason: its last directive is to
/// abort, or all targets are covered.
pub proof fn early_end_has_a_reason<U: Fn(ArithOp) -> Scalar>(
    unit: U,
    n_drones: usize,
    targets: Seq<Target>,
    ticks: int,
    fleets: Seq<FleetView>,
    report: MissionReport,
)
    requires
        mission_flown(unit, n_drones, targets, ticks, fleets),
        mission_reported(unit, n_drones, targets, fleets, report),
    ensures
        report.ticks_elapsed <= ticks,
        report.coverage_per_tick@.len() == report.ticks_elapsed,
        report.directives@.len() == report.ticks_elapsed,
        report.final_covered <= report.n_targets,
        report.ticks_elapsed > 0 ==> report.final_covered == report.coverage_per_tick@.last(),
        report.ticks_elapsed < ticks ==> {
            ||| report.directives@.last() == FleetDirective::AbortReturn
            ||| report.final_covered == report.n_targets
        },
{
    mission_keeps_targets(unit, n_drones, targets, fleets, 0, fleets.len() - 1);
    coverage_is_bounded(fleets.last().targets);
    if report.ticks_elapsed > 0 {
        let last = report.ticks_elapsed - 1;
        assert(report.directives@[last] == fleet_directive(fleets[last + 1].batteries));
        assert(report.coverage_per_tick@[last] == covered_in(fleets[last + 1].targets));
    }
}

/// After its turn a drone is not outside the unit square, and its charge is a number and
/// not negative. A coordinate that is no number stays one.
pub proof fn drones_stay_in_bounds<U: Fn(ArithOp) -> Scalar>(
    unit: U,
    weights: Seq<Trit>,
    version: u32,
    tick: int,
    i: int,
    before: FleetView,
    after: FleetView,
)
    requires
        drone_stepped(unit, weights, version, tick, i, before, after),
    ensures
        !(Scalar { bits: ZERO }).above(after.xs[i]) && !after.xs[i].above(Scalar { bits: ONE }),
        !(Scalar { bits: ZERO }).above(after.ys[i]) && !after.ys[i].above(Scalar { bits: ONE }),
        !after.batteries[i].is_nan() && !(Scalar { bits: ZERO }).above(after.batteries[i]),
{
}

/// What the fleet knows of drone `id` is where that drone is and how much charge it has,
/// as it reported in the given tick.
pub open spec fn reported_in(fleet: FleetView, tick: int, id: u32) -> bool {
    &&& fleet.world.contains_key(id)
    &&& fleet.world[id].1.0 == report_time(tick, id as int)
    &&& fleet.world[id].0.x == fleet.xs[id as int]
    &&& fleet.world[id].0.y == fleet.ys[id as int]
    &&& fleet.world[id].0.battery_soc == fleet.batteries[id as int]
}

/// A fleet of `n` drones that knows drone `id` from a time no later than `time`.
spec fn known_since(fleet: FleetView, n: int, id: u32, time: int) -> bool {
    &&& fleet.xs.len() == n
    &&& fleet.ys.len() == n
    &&& fleet.batteries.len() == n
    &&& fleet.world.contains_key(id)
    &&& fleet.world[id].1.0 <= time
}

proof fn lemma_turn_reports<U: Fn(ArithOp) -> Scalar>(
    unit: U,
    weights: Seq<Trit>,
    version: u32,
    tick: int,
    n: int,
    i: int,
    before: FleetView,
    after: FleetView,
    id: u32,
)
    requires
        drone_stepped(unit, weights, version, tick, i, before, after),
        0 <= i < n <= u32::MAX,
        id < n,
        0 <= report_time(tick, i) <= u64::MAX,
        known_since(before, n, id, report_time(tick, id as int)),
    ensures
        known_since(after, n, id, report_time(tick, id as int)),
        i != id ==> after.world[id] == before.world[id] && after.xs[id as int]
            == before.xs[id as int] && after.ys[id as int] == before.ys[id as int]
            && after.batteries[id as int] == before.batteries[id as int],
        i == id && before.world[id].1.0 < report_time(tick, i) ==> reported_in(after, tick, id),
{
}

proof fn lemma_turns_report<U: Fn(ArithOp) -> Scalar>(
    unit: U,
    weights: Seq<Trit>,
    version: u32,
    tick: int,
    n: int,
    before: FleetView,
    turns: Seq<FleetView>,
    k: int,
    id: u32,
)
    requires
        tick_turns(unit, weights, version, tick, before, turns),
        0 <= k < turns.len() <= n + 1,
        id < n <= u32::MAX,
        forall|i: int| 0 <= i < n ==> 0 <= #[trigger] report_time(tick, i) <= u64::MAX,
        known_since(before, n, id, report_time(tick, id as int)),
    ensures
        known_since(turns[k], n, id, report_time(tick, id as int)),
        id >= k ==> turns[k].world[id] == before.world[id],
        id < k && before.world[id].1.0 < report_time(tick, id as int) ==> reported_in(
            turns[k],
            tick,
            id,
        ),
    decreases k,
{
    if k > 0 {
        lemma_turns_report(unit, weights, version, tick, n, before, turns, k - 1, id);
        let earlier = turns[k - 1];
        assert(report_time(tick, k - 1) <= u64::MAX);
        assert(turn_leads(unit, weights, version, tick, turns, k - 1));
        lemma_turn_reports(unit, weights, version, tick, n, k - 1, earlier, turns[k], id);
    }
}

proof fn lemma_tick_reports<U: Fn(ArithOp) -> Scalar>(
    unit: U,
    weights: Seq<Trit>,
    version: u32,
    tick: int,
    n: int,
    before: FleetView,
    after: FleetView,
    id: u32,
)
    requires
        ticked(unit, weights, version, tick, before, after),
        id < n <= u32::MAX,
        forall|i: int| 0 <= i < n ==> 0 <= #[trigger] report_time(tick, i) <= u64::MAX,
        known_since(before, n, id, report_time(tick, id as int)),
    ensures
        known_since(after, n, id, report_time(tick, id as int)),
        before.world[id].1.0 < report_time(tick, id as int) ==> reported_in(after, tick, id),
{
    let turns = choose|turns: Seq<FleetView>|
        {
            &&& #[trigger] tick_turns(unit, weights, version, tick, before, turns)
            &&& turns.len() == before.batteries.len() + 1
            &&& after == turns.last()
        };
    lemma_turns_report(
        unit,
        weights,
        version,
        tick,
        n,
        before,
        turns,
        turns.len() - 1,
        id,
    );
}

proof fn lemma_mission_reports<U: Fn(ArithOp) -> Scalar>(
    unit: U,
    n_drones: usize,
    targets: Seq<Target>,
    fleets: Seq<FleetView>,
    t: int,
    id: u32,
)
    requires
        mission_under_way(unit, n_drones, targets, fleets),
        id < n_drones <= u32::MAX,
        forall|tick: int, i: int|
            0 <= tick < fleets.len() - 1 && 0 <= i < n_drones ==> #[trigger] report_time(tick, i)
                <= u64::MAX,
        0 <= t < fleets.len(),
    ensures
        t == 0 ==> known_since(fleets[t], n_drones as int, id, 0),
        t > 0 ==> known_since(fleets[t], n_drones as int, id, report_time(t - 1, id as int)),
        t > 0 && report_time(t - 1, id as int) > 0 ==> reported_in(fleets[t], t - 1, id),
    decreases t,
{
    if t > 0 {
        lemma_mission_reports(unit, n_drones, targets, fleets, t - 1, id);
        let before = fleets[t - 1];
        assert forall|i: int| 0 <= i < n_drones implies 0 <= #[trigger] report_time(t - 1, i)
            <= u64::MAX by {}
        assert(tick_leads(unit, fleets, t - 1));
        lemma_tick_reports(
            unit,
            mission_weights(),
            MISSION_WEIGHTS_VERSION,
            t - 1,
            n_drones as int,
            before,
            fleets[t],
            id,
        );
    }
}

/// After every tick the fleet knows where each drone is and how much charge it has. The
/// one exception is the very first report, by drone 0 at time 0: it is no later than
/// what is known from the deployment.
pub proof fn mission_reports_are_current<U: Fn(ArithOp) -> Scalar>(
    unit: U,
    n_drones: usize,
    targets: Seq<Target>,
    fleets: Seq<FleetView>,
    tick: int,
    id: u32,
)
    requires
        mission_under_way(unit, n_drones, targets, fleets),
        id < n_drones <= u32::MAX,
        forall|t: int, i: int|
            0 <= t < fleets.len() - 1 && 0 <= i < n_drones ==> #[trigger] report_time(t, i)
                <= u64::MAX,
        0 <= tick < fleets.len() - 1,
        tick > 0 || id > 0,
    ensures
        reported_in(fleets[tick + 1], tick, id),
{
    lemma_mission_reports(unit, n_drones, targets, fleets, tick + 1, id);
}

proof fn lemma_picks_agree<U: Fn(ArithOp) -> Scalar>(
    unit: U,
    targets: Seq<Target>,
    levels: Seq<Scalar>,
    x: Scalar,
    y: Scalar,
    left: Option<(int, Scalar)>,
    right: Option<(int, Scalar)>,
)
    requires
        steady(unit),
        picked(unit, targets, levels, x, y, left),
        picked(unit, targets, levels, x, y, right),
    ensures
        left == right,
{
    if let Some((i, a)) = left {
        assert(attractive(targets, levels, i));
        if let Some((j, b)) = right {
            most_attractive_is_unique(targets, levels, i, j);
            bearings_are_reproducible(unit, targets[i], x, y, a, b);
        }
    } else if let Some((j, b)) = right {
        assert(attractive(targets, levels, j));
    }
}

proof fn lemma_steering_agrees<U: Fn(ArithOp) -> Scalar>(
    unit: U,
    weights: Seq<Trit>,
    bearing: Scalar,
    battery: Scalar,
    left: DroneAction,
    right: DroneAction,
)
    requires
        steady(unit),
        steered(unit, weights, bearing, battery, left),
        steered(unit, weights, bearing, battery, right),
    ensures
        left == right,
{
    let reading = mission_reading(bearing, battery);
    let a = choose|inputs: Seq<int>| #[trigger]
        sensed(unit, reading, inputs) && left == network_action(weights, inputs);
    let b = choose|inputs: Seq<int>| #[trigger]
        sensed(unit, reading, inputs) && right == network_action(weights, inputs);
    sensing_is_reproducible(unit, reading, a, b);
}

proof fn lemma_moves_agree<U: Fn(ArithOp) -> Scalar>(
    unit: U,
    action: DroneAction,
    bearing: Scalar,
    x: Scalar,
    y: Scalar,
    left: (Scalar, Scalar),
    right: (Scalar, Scalar),
)
    requires
        steady(unit),
        moved(unit, action, bearing, x, y, left.0, left.1),
        moved(unit, action, bearing, x, y, right.0, right.1),
    ensures
        left == right,
{
}

proof fn lemma_work_agrees<U: Fn(ArithOp) -> Scalar>(
    unit: U,
    targets: Seq<Target>,
    levels: Seq<Scalar>,
    choice: Option<(int, Scalar)>,
    x: Scalar,
    y: Scalar,
    left: (Seq<Target>, Seq<Scalar>),
    right: (Seq<Target>, Seq<Scalar>),
)
    requires
        steady(unit),
        worked(unit, targets, levels, choice, x, y, left.0, left.1),
        worked(unit, targets, levels, choice, x, y, right.0, right.1),
    ensures
        left == right,
{
    if let Some((idx, _)) = choice {
        assert forall|a: (Scalar, Scalar), b: (Scalar, Scalar)| #[trigger]
            measured(unit, targets[idx], x, y, a.0, a.1) && #[trigger] measured(
                unit,
                targets[idx],
                x,
                y,
                b.0,
                b.1,
            ) implies a == b by {
            measuring_is_reproducible(unit, targets[idx], x, y, a, b);
        }
    }
}

proof fn lemma_turns_agree<U: Fn(ArithOp) -> Scalar>(
    unit: U,
    weights: Seq<Trit>,
    version: u32,
    tick: int,
    i: int,
    before: FleetView,
    left: FleetView,
    right: FleetView,
)
    requires
        steady(unit),
        drone_stepped(unit, weights, version, tick, i, before, left),
        drone_stepped(unit, weights, version, tick, i, before, right),
    ensures
        left == right,
{
    let (c1, a1) = choose|choice: Option<(int, Scalar)>, action: DroneAction| #[trigger]
        turn_taken(unit, weights, version, tick, i, choice, action, before, left);
    let (c2, a2) = choose|choice: Option<(int, Scalar)>, action: DroneAction| #[trigger]
        turn_taken(unit, weights, version, tick, i, choice, action, before, right);
    let x = before.xs[i];
    let y = before.ys[i];
    lemma_picks_agree(unit, before.targets, before.levels, x, y, c1, c2);
    lemma_steering_agrees(unit, weights, heading(c1), before.batteries[i], a1, a2);
    let there = (left.xs[i], left.ys[i]);
    lemma_moves_agree(unit, a1, heading(c1), x, y, there, (right.xs[i], right.ys[i]));
    assert(left.batteries[i] == right.batteries[i]);
    lemma_work_agrees(
        unit,
        before.targets,
        before.levels,
        c1,
        there.0,
        there.1,
        (left.targets, left.levels),
        (right.targets, right.levels),
    );
}

proof fn lemma_tick_turns_agree<U: Fn(ArithOp) -> Scalar>(
    unit: U,
    weights: Seq<Trit>,
    version: u32,
    tick: int,
    before: FleetView,
    left: Seq<FleetView>,
    right: Seq<FleetView>,
    k: int,
)
    requires
        steady(unit),
        tick_turns(unit, weights, version, tick, before, left),
        tick_turns(unit, weights, version, tick, before, right),
        0 <= k < left.len(),
        left.len() == right.len(),
    ensures
        left[k] == right[k],
    decreases k,
{
    if k > 0 {
        lemma_tick_turns_agree(unit, weights, version, tick, before, left, right, k - 1);
        assert(turn_leads(unit, weights, version, tick, left, k - 1));
        assert(turn_leads(unit, weights, version, tick, right, k - 1));
        lemma_turns_agree(
            unit,
            weights,
            version,
            tick,
            k - 1,
            left[k - 1],
            left[k],
            right[k],
        );
    } else {
        evaporation_is_reproducible(
            unit,
            Scalar { bits: EVAPORATION },
            before.levels,
            left[0].levels,
            right[0].levels,
        );
    }
}

/// With a steady unit a tick takes the same fleet to one fleet.
pub proof fn tick_is_reproducible<U: Fn(ArithOp) -> Scalar>(
    unit: U,
    weights: Seq<Trit>,
    version: u32,
    tick: int,
    before: FleetView,
    left: FleetView,
    right: FleetView,
)
    requires
        steady(unit),
        ticked(unit, weights, version, tick, before, left),
        ticked(unit, weights, version, tick, before, right),
    ensures
        left == right,
{
    let a = choose|turns: Seq<FleetView>|
        {
            &&& #[trigger] tick_turns(unit, weights, version, tick, before, turns)
            &&& turns.len() == before.batteries.len() + 1
            &&& left == turns.last()
        };
    let b = choose|turns: Seq<FleetView>|
        {
            &&& #[trigger] tick_turns(unit, weights, version, tick, before, turns)
            &&& turns.len() == before.batteries.len() + 1
            &&& right == turns.last()
        };
    lemma_tick_turns_agree(unit, weights, version, tick, before, a, b, a.len() - 1);
}

proof fn lemma_deployments_agree<U: Fn(ArithOp) -> Scalar>(
    unit: U,
    n_drones: usize,
    targets: Seq<Target>,
    left: FleetView,
    right: FleetView,
)
    requires
        steady(unit),
        deployed(unit, n_drones, targets, left),
        deployed(unit, n_drones, targets, right),
    ensures
        left == right,
{
    assert forall|i: int| 0 <= i < left.xs.len() implies #[trigger] left.xs[i] == right.xs[i] by {
        assert(stationed(unit, i, n_drones as int, left.xs[i]));
        assert(stationed(unit, i, n_drones as int, right.xs[i]));
    }
    assert(left.xs =~= right.xs);
    assert(left.world =~= right.world);
}

proof fn lemma_missions_agree<U: Fn(ArithOp) -> Scalar>(
    unit: U,
    n_drones: usize,
    targets: Seq<Target>,
    left: Seq<FleetView>,
    right: Seq<FleetView>,
    t: int,
)
    requires
        steady(unit),
        mission_under_way(unit, n_drones, targets, left),
        mission_under_way(unit, n_drones, targets, right),
        0 <= t < left.len(),
        t < right.len(),
    ensures
        left[t] == right[t],
    decreases t,
{
    if t > 0 {
        lemma_missions_agree(unit, n_drones, targets, left, right, t - 1);
        assert(tick_leads(unit, left, t - 1));
        assert(tick_leads(unit, right, t - 1));
        tick_is_reproducible(
            unit,
            mission_weights(),
            MISSION_WEIGHTS_VERSION,
            t - 1,
            left[t - 1],
            left[t],
            right[t],
        );
    } else {
        lemma_deployments_agree(unit, n_drones, targets, left[0], right[0]);
    }
}

/// With a steady unit the same mission takes the same course every time: no part of it is
/// left to chance.
pub proof fn mission_is_reproducible<U: Fn(ArithOp) -> Scalar>(
    unit: U,
    n_drones: usize,
    targets: Seq<Target>,
    ticks: int,
    left: Seq<FleetView>,
    right: Seq<FleetView>,
)
    requires
        steady(unit),
        mission_flown(unit, n_drones, targets, ticks, left),
        mission_flown(unit, n_drones, targets, ticks, right),
    ensures
        left == right,
{
    if left.len() < right.len() {
        lemma_missions_agree(unit, n_drones, targets, left, right, left.len() - 1);
        assert(!mission_over(right[left.len() - 1]));
    }
    if right.len() < left.len() {
        lemma_missions_agree(unit, n_drones, targets, left, right, right.len() - 1);
        assert(!mission_over(left[right.len() - 1]));
    }
    assert forall|t: int| 0 <= t < left.len() implies #[trigger] left[t] == right[t] by {
        lemma_missions_agree(unit, n_drones, targets, left, right, t);
    }
    assert(left =~= right);
}

/// With a steady unit two reports on the same mission agree, save for the mean battery:
/// the order in which it adds up the drones is open, and rounding depends on it.
pub proof fn reports_are_reproducible<U: Fn(ArithOp) -> Scalar>(
    unit: U,
    n_drones: usize,
    targets: Seq<Target>,
    fleets: Seq<FleetView>,
    left: MissionReport,
    right: MissionReport,
)
    requires
        steady(unit),
        mission_reported(unit, n_drones, targets, fleets, left),
        mission_reported(unit, n_drones, targets, fleets, right),
    ensures
        left.n_drones == right.n_drones,
        left.n_targets == right.n_targets,
        left.ticks_elapsed == right.ticks_elapsed,
        left.final_covered == right.final_covered,
        left.coverage_fraction == right.coverage_fraction,
        left.coverage_per_tick@ == right.coverage_per_tick@,
        left.directives@ == right.directives@,
{
    assert forall|t: int| 0 <= t < left.coverage_per_tick@.len() implies #[trigger]
    left.coverage_per_tick@[t] == right.coverage_per_tick@[t] by {
        assert(right.coverage_per_tick@[t] == covered_in(fleets[t + 1].targets));
    }
    assert(left.coverage_per_tick@ =~= right.coverage_per_tick@);
    assert forall|t: int| 0 <= t < left.directives@.len() implies #[trigger] left.directives@[t]
        == right.directives@[t] by {
        assert(right.directives@[t] == fleet_directive(fleets[t + 1].batteries));
    }
    assert(left.directives@ =~= right.directives@);
}

/// Whatever the unit answers, a mission cut off after fewer ticks is a mission over that
/// many ticks: the number of ticks decides only where a mission is cut off.
pub proof fn cutting_a_mission_off_leaves_a_mission<U: Fn(ArithOp) -> Scalar>(
    unit: U,
    n_drones: usize,
    targets: Seq<Target>,
    fewer: int,
    more: int,
    fleets: Seq<FleetView>,
)
    requires
        0 <= fewer <= more,
        mission_flown(unit, n_drones, targets, more, fleets),
    ensures
        mission_flown(
            unit,
            n_drones,
            targets,
            fewer,
            fleets.take(
                if fewer + 1 <= fleets.len() {
                    fewer + 1
                } else {
                    fleets.len() as int
                },
            ),
        ),
{
    let kept = if fewer + 1 <= fleets.len() {
        fewer + 1
    } else {
        fleets.len() as int
    };
    let cut = fleets.take(kept);
    assert forall|t: int| 0 <= t < cut.len() - 1 implies #[trigger] tick_leads(unit, cut, t) by {
        assert(tick_leads(unit, fleets, t));
    }
    assert forall|t: int| 1 <= t < cut.len() - 1 implies !mission_over(#[trigger] cut[t]) by {
        assert(!mission_over(fleets[t]));
    }
    assert(cut[0] == fleets[0]);
    assert(cut.last() == fleets[kept - 1]);
}

/// With a steady unit the number of ticks only cuts a mission off: a mission over fewer
/// ticks takes the same course as one over more, up to where it ends.
pub proof fn shorter_mission_is_a_prefix<U: Fn(ArithOp) -> Scalar>(
    unit: U,
    n_drones: usize,
    targets: Seq<Target>,
    fewer: int,
    more: int,
    short: Seq<FleetView>,
    long: Seq<FleetView>,
)
    requires
        steady(unit),
        fewer <= more,
        mission_flown(unit, n_drones, targets, fewer, short),
        mission_flown(unit, n_drones, targets, more, long),
    ensures
        short.len() <= long.len(),
        short == long.take(short.len() as int),
        short.len() - 1 == (if fewer <= long.len() - 1 {
            fewer
        } else {
            long.len() - 1
        }),
{
    if long.len() < short.len() {
        lemma_missions_agree(unit, n_drones, targets, short, long, long.len() - 1);
        assert(!mission_over(short[long.len() - 1]));
    }
    if short.len() < long.len() {
        lemma_missions_agree(unit, n_drones, targets, short, long, short.len() - 1);
        if short.len() <= fewer {
            assert(!mission_over(long[short.len() - 1]));
        }
    }
    assert forall|t: int| 0 <= t < short.len() implies #[trigger] short[t] == long[t] by {
        lemma_missions_agree(unit, n_drones, targets, short, long, t);
    }
    assert(short =~= long.take(short.len() as int));
}

/// With a steady unit the records of a mission over fewer ticks are those of the same
/// mission over more ticks, cut off: it lasts as long, or as long as it may, and covers no
/// more targets.
pub proof fn shorter_report_is_a_prefix<U: Fn(ArithOp) -> Scalar>(
    unit: U,
    n_drones: usize,
    targets: Seq<Target>,
    fewer: int,
    more: int,
    short_fleets: Seq<FleetView>,
    long_fleets: Seq<FleetView>,
    short: MissionReport,
    long: MissionReport,
)
    requires
        steady(unit),
        fewer <= more,
        mission_flown(unit, n_drones, targets, fewer, short_fleets),
        mission_flown(unit, n_drones, targets, more, long_fleets),
        mission_reported(unit, n_drones, targets, short_fleets, short),
        mission_reported(unit, n_drones, targets, long_fleets, long),
    ensures
        short.ticks_elapsed == (if fewer <= long.ticks_elapsed {
            fewer
        } else {
            long.ticks_elapsed as int
        }),
        short.coverage_per_tick@ == long.coverage_per_tick@.take(short.ticks_elapsed as int),
        short.directives@ == long.directives@.take(short.ticks_elapsed as int),
        short.final_covered <= long.final_covered,
{
    shorter_mission_is_a_prefix(
        unit,
        n_drones,
        targets,
        fewer,
        more,
        short_fleets,
        long_fleets,
    );
    let n = short.ticks_elapsed as int;
    assert forall|t: int| 0 <= t < n implies #[trigger] short.coverage_per_tick@[t]
        == long.coverage_per_tick@[t] by {
        assert(short_fleets[t + 1] == long_fleets[t + 1]);
        assert(long.coverage_per_tick@[t] == covered_in(long_fleets[t + 1].targets));
    }
    assert(short.coverage_per_tick@ =~= long.coverage_per_tick@.take(n));
    assert forall|t: int| 0 <= t < n implies #[trigger] short.directives@[t]
        == long.directives@[t] by {
        assert(short_fleets[t + 1] == long_fleets[t + 1]);
        assert(long.directives@[t] == fleet_directive(long_fleets[t + 1].batteries));
    }
    assert(short.directives@ =~= long.directives@.take(n));
    assert(short_fleets.last() == long_fleets[n]);
    mission_keeps_targets(unit, n_drones, targets, long_fleets, n, long_fleets.len() - 1);
    coverage_is_monotone(long_fleets[n].targets, long_fleets.last().targets);
}

/// No mission flies on once it is over: before its last tick there is neither a directive to
/// abort nor full coverage. With no tick to fly, nothing is flown; otherwise at least one is.
pub proof fn no_mission_flies_on<U: Fn(ArithOp) -> Scalar>(
    unit: U,
    n_drones: usize,
    targets: Seq<Target>,
    ticks: int,
    fleets: Seq<FleetView>,
    report: MissionReport,
)
    requires
        mission_flown(unit, n_drones, targets, ticks, fleets),
        mission_reported(unit, n_drones, targets, fleets, report),
    ensures
        ticks > 0 ==> report.ticks_elapsed > 0,
        forall|t: int|
            0 <= t < report.ticks_elapsed - 1 ==> #[trigger] report.directives@[t]
                != FleetDirective::AbortReturn,
        forall|t: int|
            0 <= t < report.ticks_elapsed - 1 ==> #[trigger] report.coverage_per_tick@[t]
                < report.n_targets,
{
    assert forall|t: int| 0 <= t < report.ticks_elapsed - 1 implies #[trigger]
    report.directives@[t] != FleetDirective::AbortReturn by {
        assert(!mission_over(fleets[t + 1]));
    }
    assert forall|t: int| 0 <= t < report.ticks_elapsed - 1 implies #[trigger]
    report.coverage_per_tick@[t] < report.n_targets by {
        assert(!mission_over(fleets[t + 1]));
        mission_keeps_targets(unit, n_drones, targets, fleets, 0, t + 1);
        coverage_is_bounded(fleets[t + 1].targets);
    }
}

/// A fleet without drones aborts after its first tick, and its mean battery is one.
pub proof fn fleet_without_drones_aborts<U: Fn(ArithOp) -> Scalar>(
    unit: U,
    targets: Seq<Target>,
    ticks: int,
    fleets: Seq<FleetView>,
    report: MissionReport,
)
    requires
        mission_flown(unit, 0, targets, ticks, fleets),
        mission_reported(unit, 0, targets, fleets, report),
    ensures
        ticks > 0 ==> report.directives@ == seq![FleetDirective::AbortReturn],
        report.mean_battery == (Scalar { bits: ONE }),
{
    mission_stays_in_touch(unit, 0, targets, fleets, fleets.len() - 1);
    assert(fleets.last().world.dom() =~= Set::empty());
    if ticks > 0 {
        no_mission_flies_on(unit, 0, targets, ticks, fleets, report);
        mission_keeps_targets(unit, 0, targets, fleets, 0, 1);
        assert(report.directives@[0] == fleet_directive(fleets[1].batteries));
        assert(report.directives@[0] == FleetDirective::AbortReturn);
        assert(report.directives@ =~= seq![FleetDirective::AbortReturn]);
    }
}

/// The share of covered targets follows from the two numbers in the report and from nothing
/// else: with a steady unit, two missions that report the same number of covered targets out
/// of the same number of targets report the same fraction, however they went and ended.
pub proof fn equal_coverage_means_equal_fraction<U: Fn(ArithOp) -> Scalar>(
    unit: U,
    left_drones: usize,
    left_targets: Seq<Target>,
    left_fleets: Seq<FleetView>,
    left: MissionReport,
    right_drones: usize,
    right_targets: Seq<Target>,
    right_fleets: Seq<FleetView>,
    right: MissionReport,
)
    requires
        steady(unit),
        mission_reported(unit, left_drones, left_targets, left_fleets, left),
        mission_reported(unit, right_drones, right_targets, right_fleets, right),
        left.final_covered == right.final_covered,
        left.n_targets == right.n_targets,
    ensures
        left.coverage_fraction == right.coverage_fraction,
{
}

/// Whatever the directives, a mission that covers a target reports a positive fraction, and
/// one that does not cover all of them reports less than one. The unit must hold both counts
/// without rounding, keep quotients positive and treat one as one.
pub proof fn fraction_tells_of_coverage<U: Fn(ArithOp) -> Scalar>(
    unit: U,
    n_drones: usize,
    targets: Seq<Target>,
    fleets: Seq<FleetView>,
    report: MissionReport,
)
    requires
        mission_reported(unit, n_drones, targets, fleets, report),
        counts_exactly(unit, report.final_covered as nat),
        counts_exactly(unit, report.n_targets as nat),
        quotients_stay_positive(unit),
        treats_one_as_one(unit),
        report.final_covered <= report.n_targets,
    ensures
        report.final_covered > 0 ==> report.coverage_fraction.above(Scalar { bits: ZERO }),
        report.final_covered < report.n_targets ==> (Scalar { bits: ONE }).above(
            report.coverage_fraction,
        ),
{
    let one = Scalar { bits: ONE };
    let zero = Scalar { bits: ZERO };
    let (covered_n, targets_n) = choose|covered_n: Scalar, targets_n: Scalar|
        {
            &&& #[trigger] answers(unit, ArithOp::Count(report.final_covered as u64), covered_n)
            &&& #[trigger] answers(unit, ArithOp::Count(report.n_targets as u64), targets_n)
            &&& answers(unit, ArithOp::Div(covered_n, targets_n), report.coverage_fraction)
        };
    let covered = report.final_covered as int;
    let total = report.n_targets as int;
    lemma_one_in_units();
    assert(covered_n.units() == covered * pow2(149));
    assert(targets_n.units() == total * pow2(149));
    assert(covered >= 1 ==> covered * pow2(149) >= pow2(149)) by (nonlinear_arith)
        requires
            pow2(149) > 0,
    ;
    assert(0 <= covered * pow2(149) && (covered < total ==> covered * pow2(149) < total * pow2(
        149,
    )) && covered * pow2(149) <= total * pow2(149)) by (nonlinear_arith)
        requires
            0 <= covered <= total,
            pow2(149) > 0,
    ;
    comparison_is_numeric(one, covered_n);
    comparison_is_numeric(targets_n, zero);
    comparison_is_numeric(targets_n, covered_n);
}

proof fn lemma_one_in_units()
    ensures
        (Scalar { bits: ONE }).units() == pow2(149),
        (Scalar { bits: ZERO }).units() == 0,
        pow2(149) > 0,
{
    lemma2_to64();
    lemma_pow2_adds(23, 126);
    lemma_pow2_pos(149);
}

/// What a drone votes, by its charge: to abort below 0.1, to regroup below 0.3, otherwise to
/// go on. More charge never makes for a graver vote.
pub proof fn votes_follow_the_charge(less: Scalar, more: Scalar)
    ensures
        vote_for(more) == DroneVote::AbortReturn <==> (Scalar { bits: CRITICAL_CHARGE }).above(
            more,
        ),
        vote_for(more) == DroneVote::Regroup <==> !(Scalar { bits: CRITICAL_CHARGE }).above(more)
            && (Scalar { bits: LOW_CHARGE }).above(more),
        more.above(less) && vote_for(more) == DroneVote::AbortReturn ==> vote_for(less)
            == DroneVote::AbortReturn,
        more.above(less) && vote_for(less) == DroneVote::ContinueMission ==> vote_for(more)
            == DroneVote::ContinueMission,
{
}

/// The drones among the first 32 whose charge is critical.
pub open spec fn critical_drones(batteries: Seq<Scalar>) -> Set<int> {
    Set::new(
        |i: int|
            0 <= i < 32 && i < batteries.len() && (Scalar { bits: CRITICAL_CHARGE }).above(
                batteries[i],
            ),
    )
}

/// The drones among the first 32 whose charge is low but not critical.
pub open spec fn low_drones(batteries: Seq<Scalar>) -> Set<int> {
    Set::new(
        |i: int|
            0 <= i < 32 && i < batteries.len() && !(Scalar { bits: CRITICAL_CHARGE }).above(
                batteries[i],
            ) && (Scalar { bits: LOW_CHARGE }).above(batteries[i]),
    )
}

/// The drones among the first 32 whose charge is not low.
pub open spec fn charged_drones(batteries: Seq<Scalar>) -> Set<int> {
    Set::new(
        |i: int|
            0 <= i < 32 && i < batteries.len() && !(Scalar { bits: CRITICAL_CHARGE }).above(
                batteries[i],
            ) && !(Scalar { bits: LOW_CHARGE }).above(batteries[i]),
    )
}

/// A fleet's directive follows from the charges of its first 32 drones: an abort exactly where
/// a third of them are critical, otherwise a regroup exactly where more are low than charged.
pub proof fn directives_follow_the_charges(batteries: Seq<Scalar>)
    ensures
        ({
            let n: int = if batteries.len() <= 32 {
                batteries.len() as int
            } else {
                32
            };
            let abort = 3 * critical_drones(batteries).len() >= n;
            let more_low = low_drones(batteries).len() > charged_drones(batteries).len();
            &&& fleet_directive(batteries) == FleetDirective::AbortReturn <==> abort
            &&& fleet_directive(batteries) == FleetDirective::Regroup <==> !abort && more_low
            &&& fleet_directive(batteries) == FleetDirective::ContinueMission <==> !abort
                && !more_low
        }),
{
    let votes = fleet_votes(batteries);
    tallies_count_threads(votes, DroneVote::AbortReturn);
    tallies_count_threads(votes, DroneVote::Regroup);
    tallies_count_threads(votes, DroneVote::ContinueMission);
    assert(critical_drones(batteries) =~= Set::new(
        |i: int| 0 <= i < votes.len() && votes[i] == DroneVote::AbortReturn,
    ));
    assert(low_drones(batteries) =~= Set::new(
        |i: int| 0 <= i < votes.len() && votes[i] == DroneVote::Regroup,
    ));
    assert(charged_drones(batteries) =~= Set::new(
        |i: int| 0 <= i < votes.len() && votes[i] == DroneVote::ContinueMission,
    ));
}

/// A report records, tick by tick, the number of places at which a covered target stands and
/// the directive of the fleet after that tick.
pub proof fn records_are_those_of_the_fleet<U: Fn(ArithOp) -> Scalar>(
    unit: U,
    n_drones: usize,
    targets: Seq<Target>,
    fleets: Seq<FleetView>,
    report: MissionReport,
    t: int,
)
    requires
        mission_reported(unit, n_drones, targets, fleets, report),
        0 <= t < fleets.len() - 1,
    ensures
        report.coverage_per_tick@.len() == fleets.len() - 1,
        report.directives@.len() == fleets.len() - 1,
        report.ticks_elapsed == fleets.len() - 1,
        ({
            let covered = fleets[t + 1].targets;
            report.coverage_per_tick@[t] == Set::new(
                |i: int| 0 <= i < covered.len() && covered[i].covered,
            ).len()
        }),
        report.directives@[t] == fleet_directive(fleets[t + 1].batteries),
        ({
            let covered = fleets.last().targets;
            report.final_covered == Set::new(
                |i: int| 0 <= i < covered.len() && covered[i].covered,
            ).len()
        }),
{
    covered_targets_are_counted(fleets[t + 1].targets);
    covered_targets_are_counted(fleets.last().targets);
    assert(report.coverage_per_tick@[t] == covered_in(fleets[t + 1].targets));
    assert(report.directives@[t] == fleet_directive(fleets[t + 1].batteries));
}

/// A mission is over exactly where the fleet is told to abort or every target is covered.
pub proof fn missions_end_with_an_abort_or_full_coverage(fleet: FleetView)
    ensures
        mission_over(fleet) <==> fleet_directive(fleet.batteries) == FleetDirective::AbortReturn
            || forall|i: int|
            0 <= i < fleet.targets.len() ==> (#[trigger] fleet.targets[i]).covered,
{
    coverage_is_bounded(fleet.targets);
}

/// A turn is one drone's: the others stay where they are, keep their charge, and what is known
/// of them stays the same.
pub proof fn turn_concerns_one_drone<U: Fn(ArithOp) -> Scalar>(
    unit: U,
    weights: Seq<Trit>,
    version: u32,
    tick: int,
    i: int,
    before: FleetView,
    after: FleetView,
    other: int,
    id: u32,
)
    requires
        drone_stepped(unit, weights, version, tick, i, before, after),
        0 <= i <= u32::MAX,
        other != i,
        id != i,
        i < before.batteries.len(),
        0 <= other < before.batteries.len(),
        before.xs.len() == before.batteries.len(),
        before.ys.len() == before.batteries.len(),
    ensures
        after.xs[other] == before.xs[other],
        after.ys[other] == before.ys[other],
        after.batteries[other] == before.batteries[other],
        after.world.contains_key(id) <==> before.world.contains_key(id),
        after.world[id] == before.world[id],
{
}

/// `after` is what is left of the charge `before`: the unit's difference from what a tick
/// costs, and zero where that is not positive.
pub open spec fn charge_left<U: Fn(ArithOp) -> Scalar>(
    unit: U,
    before: Scalar,
    after: Scalar,
) -> bool {
    exists|rest: Scalar|
        {
            &&& #[trigger] answers(unit, ArithOp::Sub(before, Scalar { bits: DRAIN }), rest)
            &&& rest.above(Scalar { bits: ZERO }) ==> after == rest
            &&& !rest.above(Scalar { bits: ZERO }) ==> after == (Scalar { bits: ZERO })
        }
}

proof fn lemma_turns_drain<U: Fn(ArithOp) -> Scalar>(
    unit: U,
    weights: Seq<Trit>,
    version: u32,
    tick: int,
    before: FleetView,
    turns: Seq<FleetView>,
    k: int,
    i: int,
)
    requires
        tick_turns(unit, weights, version, tick, before, turns),
        0 <= k < turns.len() <= before.batteries.len() + 1,
        0 <= i < before.batteries.len(),
    ensures
        turns[k].batteries.len() == before.batteries.len(),
        i >= k ==> turns[k].batteries[i] == before.batteries[i],
        i < k ==> charge_left(unit, before.batteries[i], turns[k].batteries[i]),
    decreases k,
{
    if k > 0 {
        lemma_turns_drain(unit, weights, version, tick, before, turns, k - 1, i);
        assert(turn_leads(unit, weights, version, tick, turns, k - 1));
        let earlier = turns[k - 1];
        let now = turns[k];
        assert(drained(unit, earlier.batteries[k - 1], now.batteries[k - 1]));
    }
}

/// Each drone spends the charge of one turn per tick, whatever it does in that turn.
pub proof fn charge_drains_once_per_tick<U: Fn(ArithOp) -> Scalar>(
    unit: U,
    weights: Seq<Trit>,
    version: u32,
    tick: int,
    before: FleetView,
    after: FleetView,
    i: int,
)
    requires
        ticked(unit, weights, version, tick, before, after),
        0 <= i < before.batteries.len(),
    ensures
        after.batteries.len() == before.batteries.len(),
        charge_left(unit, before.batteries[i], after.batteries[i]),
{
    let turns = choose|turns: Seq<FleetView>|
        {
            &&& #[trigger] tick_turns(unit, weights, version, tick, before, turns)
            &&& turns.len() == before.batteries.len() + 1
            &&& after == turns.last()
        };
    lemma_turns_drain(
        unit,
        weights,
        version,
        tick,
        before,
        turns,
        turns.len() - 1,
        i,
    );
}

/// A turn covers what it reaches and nothing else: where a target is followed, it is covered
/// exactly where it lies nearer than 0.2 to where the drone ends up; where none is followed,
/// none is covered.
pub proof fn turn_covers_what_it_reaches<U: Fn(ArithOp) -> Scalar>(
    unit: U,
    weights: Seq<Trit>,
    version: u32,
    tick: int,
    i: int,
    before: FleetView,
    after: FleetView,
    idx: int,
    dx: Scalar,
    dist: Scalar,
)
    requires
        steady(unit),
        drone_stepped(unit, weights, version, tick, i, before, after),
    ensures
        (forall|j: int| !attractive(before.targets, before.levels, j)) ==> after.targets
            == before.targets && after.levels == before.levels,
        most_attractive(before.targets, before.levels, idx) && measured(
            unit,
            before.targets[idx],
            after.xs[i],
            after.ys[i],
            dx,
            dist,
        ) ==> {
            &&& (Scalar { bits: REACH }).above(dist) ==> after.targets == with_covered(
                before.targets,
                idx,
            ) && after.levels == before.levels.update(idx, after.levels[idx]) && answers(
                unit,
                ArithOp::Mul(before.levels[idx], Scalar { bits: DAMPENING }),
                after.levels[idx],
            )
            &&& !(Scalar { bits: REACH }).above(dist) ==> after.targets == before.targets
                && after.levels == before.levels
        },
{
    let (choice, action) = choose|choice: Option<(int, Scalar)>, action: DroneAction| #[trigger]
        turn_taken(unit, weights, version, tick, i, choice, action, before, after);
    if let Some((chosen, _)) = choice {
        assert(attractive(before.targets, before.levels, chosen));
        if most_attractive(before.targets, before.levels, idx) {
            most_attractive_is_unique(before.targets, before.levels, idx, chosen);
            assert forall|a: (Scalar, Scalar), b: (Scalar, Scalar)| #[trigger]
                measured(unit, before.targets[idx], after.xs[i], after.ys[i], a.0, a.1)
                    && #[trigger] measured(
                    unit,
                    before.targets[idx],
                    after.xs[i],
                    after.ys[i],
                    b.0,
                    b.1,
                ) implies a == b by {
                measuring_is_reproducible(
                    unit,
                    before.targets[idx],
                    after.xs[i],
                    after.ys[i],
                    a,
                    b,
                );
            }
            let (dx1, dist1) = choose|dx1: Scalar, dist1: Scalar|
                {
                    &&& #[trigger] measured(
                        unit,
                        before.targets[idx],
                        after.xs[i],
                        after.ys[i],
                        dx1,
                        dist1,
                    )
                    &&& if (Scalar { bits: REACH }).above(dist1) && !before.targets[idx].covered {
                        &&& after.targets == with_covered(before.targets, idx)
                        &&& after.levels == before.levels.update(idx, after.levels[idx])
                        &&& answers(
                            unit,
                            ArithOp::Mul(before.levels[idx], Scalar { bits: DAMPENING }),
                            after.levels[idx],
                        )
                    } else {
                        &&& after.targets == before.targets
                        &&& after.levels == before.levels
                    }
                };
            if measured(unit, before.targets[idx], after.xs[i], after.ys[i], dx, dist) {
                measuring_is_reproducible(
                    unit,
                    before.targets[idx],
                    after.xs[i],
                    after.ys[i],
                    (dx, dist),
                    (dx1, dist1),
                );
            }
        }
    } else if most_attractive(before.targets, before.levels, idx) {
        assert(attractive(before.targets, before.levels, idx));
    }
}

/// Drone `i` of `fleet` is nearer than 0.2 to the target `t`, as the unit measures it.
pub open spec fn within_reach<U: Fn(ArithOp) -> Scalar>(
    unit: U,
    fleet: FleetView,
    i: int,
    t: Target,
) -> bool {
    exists|dx: Scalar, dist: Scalar| #[trigger]
        measured(unit, t, fleet.xs[i], fleet.ys[i], dx, dist) && (Scalar { bits: REACH }).above(
            dist,
        )
}

/// What a tick does to the target `j`, after the first `k` turns: its level is what evaporation
/// left of it, unless it was covered in that tick; then it was dampened once, by a drone within
/// reach.
spec fn target_worked<U: Fn(ArithOp) -> Scalar>(
    unit: U,
    before: FleetView,
    evaporated: Seq<Scalar>,
    fleet: FleetView,
    k: int,
    j: int,
) -> bool {
    if fleet.targets[j].covered == before.targets[j].covered {
        fleet.levels[j] == evaporated[j]
    } else {
        &&& !before.targets[j].covered
        &&& evaporated[j].above(Scalar { bits: FAINT })
        &&& answers(
            unit,
            ArithOp::Mul(evaporated[j], Scalar { bits: DAMPENING }),
            fleet.levels[j],
        )
        &&& exists|i: int| 0 <= i < k && #[trigger] within_reach(unit, fleet, i, before.targets[j])
    }
}

proof fn lemma_turn_works<U: Fn(ArithOp) -> Scalar>(
    unit: U,
    weights: Seq<Trit>,
    version: u32,
    tick: int,
    n: int,
    k: int,
    start: FleetView,
    evaporated: Seq<Scalar>,
    before: FleetView,
    after: FleetView,
    j: int,
)
    requires
        drone_stepped(unit, weights, version, tick, k, before, after),
        targets_kept(start.targets, before.targets),
        0 <= k < n,
        before.xs.len() == n,
        before.ys.len() == n,
        before.levels.len() == start.targets.len(),
        0 <= j < start.targets.len(),
        target_worked(unit, start, evaporated, before, k, j),
    ensures
        after.xs.len() == n,
        after.ys.len() == n,
        after.levels.len() == start.targets.len(),
        target_worked(unit, start, evaporated, after, k + 1, j),
{
    let (choice, action) = choose|choice: Option<(int, Scalar)>, action: DroneAction| #[trigger]
        turn_taken(unit, weights, version, tick, k, choice, action, before, after);
    assert(before.targets[j] == (Target {
        covered: before.targets[j].covered,
        ..start.targets[j]
    }));
    if before.targets[j].covered != start.targets[j].covered {
        let i = choose|i: int|
            0 <= i < k && #[trigger] within_reach(unit, before, i, start.targets[j]);
        assert(after.xs[i] == before.xs[i] && after.ys[i] == before.ys[i]);
        assert(within_reach(unit, after, i, start.targets[j]));
        if let Some((idx, _)) = choice {
            assert(attractive(before.targets, before.levels, idx));
            assert(idx != j);
        }
    } else if let Some((idx, _)) = choice {
        assert(attractive(before.targets, before.levels, idx));
        if idx == j && after.targets[j].covered != start.targets[j].covered {
            assert(before.targets[j] == start.targets[j]);
            assert(within_reach(unit, after, k, start.targets[j]));
        }
    }
}

proof fn lemma_turns_work<U: Fn(ArithOp) -> Scalar>(
    unit: U,
    weights: Seq<Trit>,
    version: u32,
    tick: int,
    before: FleetView,
    turns: Seq<FleetView>,
    k: int,
    j: int,
)
    requires
        tick_turns(unit, weights, version, tick, before, turns),
        0 <= k < turns.len() <= before.batteries.len() + 1,
        before.xs.len() == before.batteries.len(),
        before.ys.len() == before.batteries.len(),
        before.levels.len() == before.targets.len(),
        0 <= j < before.targets.len(),
    ensures
        turns[k].xs.len() == before.batteries.len(),
        turns[k].ys.len() == before.batteries.len(),
        turns[k].levels.len() == before.targets.len(),
        target_worked(unit, before, turns[0].levels, turns[k], k, j),
    decreases k,
{
    if k > 0 {
        lemma_turns_work(unit, weights, version, tick, before, turns, k - 1, j);
        lemma_turns_keep_targets(unit, weights, version, tick, before, turns, k - 1);
        assert(turn_leads(unit, weights, version, tick, turns, k - 1));
        lemma_turn_works(
            unit,
            weights,
            version,
            tick,
            before.batteries.len() as int,
            k - 1,
            before,
            turns[0].levels,
            turns[k - 1],
            turns[k],
            j,
        );
    }
}

/// What a tick does to a target. All pheromone evaporates first. A target that is not covered
/// in that tick keeps what evaporation left. One that is covered was open, its pheromone could
/// be followed, it is dampened once, and some drone ends the tick within reach of it.
pub proof fn tick_covers_only_what_drones_reach<U: Fn(ArithOp) -> Scalar>(
    unit: U,
    weights: Seq<Trit>,
    version: u32,
    tick: int,
    before: FleetView,
    after: FleetView,
    j: int,
)
    requires
        ticked(unit, weights, version, tick, before, after),
        before.xs.len() == before.batteries.len(),
        before.ys.len() == before.batteries.len(),
        before.levels.len() == before.targets.len(),
        0 <= j < before.targets.len(),
    ensures
        after.levels.len() == before.levels.len(),
        exists|evaporated: Seq<Scalar>|
            {
                &&& #[trigger] field_evaporated(
                    unit,
                    Scalar { bits: EVAPORATION },
                    before.levels,
                    evaporated,
                )
                &&& after.targets[j].covered == before.targets[j].covered ==> after.levels[j]
                    == evaporated[j]
                &&& after.targets[j].covered != before.targets[j].covered ==> {
                    &&& !before.targets[j].covered
                    &&& evaporated[j].above(Scalar { bits: FAINT })
                    &&& answers(
                        unit,
                        ArithOp::Mul(evaporated[j], Scalar { bits: DAMPENING }),
                        after.levels[j],
                    )
                    &&& exists|i: int|
                        0 <= i < before.batteries.len() && #[trigger] within_reach(
                            unit,
                            after,
                            i,
                            before.targets[j],
                        )
                }
            },
{
    let turns = choose|turns: Seq<FleetView>|
        {
            &&& #[trigger] tick_turns(unit, weights, version, tick, before, turns)
            &&& turns.len() == before.batteries.len() + 1
            &&& after == turns.last()
        };
    lemma_turns_work(
        unit,
        weights,
        version,
        tick,
        before,
        turns,
        turns.len() - 1,
        j,
    );
    assert(field_evaporated(
        unit,
        Scalar { bits: EVAPORATION },
        before.levels,
        turns[0].levels,
    ));
}

/// Under a clear sky only a target well to the left keeps a drone on a mission from advancing;
/// it then holds. It never avoids anything.
pub proof fn mission_drones_advance_unless_the_target_is_left<U: Fn(ArithOp) -> Scalar>(
    unit: U,
    bearing: Scalar,
    battery: Scalar,
    action: DroneAction,
)
    requires
        steered(unit, mission_weights(), bearing, battery, action),
        forall|d: Scalar| #[trigger]
            answers(
                unit,
                ArithOp::Sub(Scalar { bits: CLEAR_SKY }, Scalar { bits: NEUTRAL_CLEARANCE }),
                d,
            ) ==> d.above(Scalar { bits: DEAD_BAND }),
    ensures
        (Scalar { bits: MINUS_DEAD_BAND }).above(bearing) ==> action == DroneAction::Hold,
        !(Scalar { bits: MINUS_DEAD_BAND }).above(bearing) ==> action == DroneAction::Advance,
{
    let inputs = choose|inputs: Seq<int>| #[trigger]
        sensed(unit, mission_reading(bearing, battery), inputs) && action == network_action(
            mission_weights(),
            inputs,
        );
    mission_network_advances_or_holds(inputs);
}

/// `now` is `moved` brought back to between zero and one.
pub open spec fn kept_inside(moved: Scalar, now: Scalar) -> bool {
    &&& (Scalar { bits: ZERO }).above(moved) ==> now == (Scalar { bits: ZERO })
    &&& moved.above(Scalar { bits: ONE }) ==> now == (Scalar { bits: ONE })
    &&& !(Scalar { bits: ZERO }).above(moved) && !moved.above(Scalar { bits: ONE }) ==> now
        == moved
}

/// Where an action takes a drone: advancing adds the bearing times 0.15 across and 0.15 times
/// 0.5 upward, avoiding takes the bearing times 0.15 back, holding moves nothing; all within
/// the unit square.
pub proof fn moves_follow_the_action<U: Fn(ArithOp) -> Scalar>(
    unit: U,
    action: DroneAction,
    bearing: Scalar,
    x: Scalar,
    y: Scalar,
    x1: Scalar,
    y1: Scalar,
    aside: Scalar,
    climb: Scalar,
    right: Scalar,
    left: Scalar,
    up: Scalar,
)
    requires
        steady(unit),
        moved(unit, action, bearing, x, y, x1, y1),
        answers(unit, ArithOp::Mul(bearing, Scalar { bits: STEP }), aside),
        answers(unit, ArithOp::Mul(Scalar { bits: STEP }, Scalar { bits: CLIMB }), climb),
        answers(unit, ArithOp::Add(x, aside), right),
        answers(unit, ArithOp::Sub(x, aside), left),
        answers(unit, ArithOp::Add(y, climb), up),
    ensures
        kept_inside(
            match action {
                DroneAction::Advance => right,
                DroneAction::AvoidObstacle => left,
                DroneAction::Hold => x,
            },
            x1,
        ),
        kept_inside(
            match action {
                DroneAction::Advance => up,
                _ => y,
            },
            y1,
        ),
{
}

/// What a drone follows: the strongest open target under its bearing, or nothing, straight
/// ahead.
pub open spec fn follows<U: Fn(ArithOp) -> Scalar>(
    unit: U,
    fleet: FleetView,
    i: int,
    followed: Option<int>,
    bearing: Scalar,
) -> bool {
    match followed {
        Some(idx) => most_attractive(fleet.targets, fleet.levels, idx) && bears(
            unit,
            fleet.targets[idx],
            fleet.xs[i],
            fleet.ys[i],
            bearing,
        ),
        None => bearing == (Scalar { bits: ZERO }) && forall|j: int|
            !attractive(fleet.targets, fleet.levels, j),
    }
}

/// A turn in full, for a steady unit: the drone steers by the bearing of what it follows from
/// where it stands and by its own charge, moves as its action says, and reports where it ends
/// up, its charge, its weights, and the id of the target that it followed.
pub proof fn turn_follows_and_reports<U: Fn(ArithOp) -> Scalar>(
    unit: U,
    weights: Seq<Trit>,
    version: u32,
    tick: int,
    i: int,
    before: FleetView,
    after: FleetView,
    followed: Option<int>,
    bearing: Scalar,
    inputs: Seq<int>,
)
    requires
        steady(unit),
        drone_stepped(unit, weights, version, tick, i, before, after),
        0 <= i <= u32::MAX,
        0 <= report_time(tick, i) <= u64::MAX,
        follows(unit, before, i, followed, bearing),
        sensed(
            unit,
            (SensorReading {
                obstacle_clearance: Scalar { bits: CLEAR_SKY },
                target_bearing: bearing,
                battery_soc: before.batteries[i],
                speed: Scalar { bits: CRUISE_SPEED },
            }),
            inputs,
        ),
    ensures
        moved(
            unit,
            network_action(weights, inputs),
            bearing,
            before.xs[i],
            before.ys[i],
            after.xs[i],
            after.ys[i],
        ),
        !(before.world.contains_key(i as u32) && before.world[i as u32].1.0 >= tick * 1000 + i)
            ==> {
            &&& after.world.contains_key(i as u32)
            &&& after.world[i as u32].1.0 == tick * 1000 + i
            &&& after.world[i as u32].0.drone_id == i
            &&& after.world[i as u32].0.x == after.xs[i]
            &&& after.world[i as u32].0.y == after.ys[i]
            &&& after.world[i as u32].0.battery_soc == after.batteries[i]
            &&& after.world[i as u32].0.weight_version == version
            &&& after.world[i as u32].0.active_target == (match followed {
                Some(idx) => Some(before.targets[idx].id),
                None => None,
            })
        },
{
    let (choice, action) = choose|choice: Option<(int, Scalar)>, action: DroneAction| #[trigger]
        turn_taken(unit, weights, version, tick, i, choice, action, before, after);
    let expected = match followed {
        Some(idx) => Some((idx, bearing)),
        None => None,
    };
    let x = before.xs[i];
    let y = before.ys[i];
    assert(picked(unit, before.targets, before.levels, x, y, expected));
    lemma_picks_agree(unit, before.targets, before.levels, x, y, choice, expected);
    let meant = network_action(weights, inputs);
    assert(sensed(unit, mission_reading(bearing, before.batteries[i]), inputs));
    assert(steered(unit, weights, bearing, before.batteries[i], meant));
    lemma_steering_agrees(unit, weights, bearing, before.batteries[i], action, meant);
    if let Some(idx) = followed {
        assert(attractive(before.targets, before.levels, idx));
    }
}

/// A fleet is deployed along the lower edge: drone `i` of `n` at the unit's quotient of `i` and
/// `n`, fully charged, known to the fleet from time zero with the mission's weights and without
/// a target. Every target starts with its priority as its level.
pub proof fn fleet_is_deployed_evenly<U: Fn(ArithOp) -> Scalar>(
    unit: U,
    n_drones: usize,
    targets: Seq<Target>,
    fleet: FleetView,
    i: int,
    place: Scalar,
    n: Scalar,
    j: int,
)
    requires
        steady(unit),
        deployed(unit, n_drones, targets, fleet),
        0 <= i < n_drones <= u32::MAX,
        answers(unit, ArithOp::Count(i as u64), place),
        answers(unit, ArithOp::Count(n_drones as u64), n),
        0 <= j < targets.len(),
    ensures
        answers(unit, ArithOp::Div(place, n), fleet.xs[i]),
        fleet.ys[i] == (Scalar { bits: ZERO }),
        fleet.batteries[i] == (Scalar { bits: ONE }),
        fleet.xs.len() == n_drones,
        fleet.ys.len() == n_drones,
        fleet.batteries.len() == n_drones,
        fleet.targets == targets,
        fleet.levels.len() == targets.len(),
        fleet.levels[j] == targets[j].priority,
        fleet.world.contains_key(i as u32),
        fleet.world[i as u32].1.0 == 0,
        fleet.world[i as u32].0.drone_id == i,
        fleet.world[i as u32].0.x == fleet.xs[i],
        fleet.world[i as u32].0.y == fleet.ys[i],
        fleet.world[i as u32].0.battery_soc == fleet.batteries[i],
        fleet.world[i as u32].0.active_target is None,
        fleet.world[i as u32].0.weight_version == MISSION_WEIGHTS_VERSION,
{
    assert(stationed(unit, i, n_drones as int, fleet.xs[i]));
}

proof fn lemma_turns_leave_recent_entry<U: Fn(ArithOp) -> Scalar>(
    unit: U,
    weights: Seq<Trit>,
    version: u32,
    tick: int,
    before: FleetView,
    turns: Seq<FleetView>,
    k: int,
    id: u32,
)
    requires
        tick_turns(unit, weights, version, tick, before, turns),
        0 <= k < turns.len() <= u32::MAX + 1,
        forall|i: int| 0 <= i < turns.len() - 1 ==> 0 <= #[trigger] report_time(tick, i) <= u64::MAX,
        before.world.contains_key(id),
        before.world[id].1.0 >= report_time(tick, id as int),
    ensures
        turns[k].world.contains_key(id),
        turns[k].world[id] == before.world[id],
    decreases k,
{
    if k > 0 {
        lemma_turns_leave_recent_entry(
            unit,
            weights,
            version,
            tick,
            before,
            turns,
            k - 1,
            id,
        );
        assert(turn_leads(unit, weights, version, tick, turns, k - 1));
        assert(report_time(tick, k - 1) <= u64::MAX);
    }
}

/// The charge that the fleet knows of drone `id` at the end of a mission: what the drone has.
/// After a single tick drone 0 is known as deployed, since its first report comes at time zero.
pub open spec fn known_charge(fleets: Seq<FleetView>, id: u32) -> Scalar {
    if fleets.len() == 2 && id == 0 {
        Scalar { bits: ONE }
    } else {
        fleets.last().batteries[id as int]
    }
}

proof fn lemma_known_charge<U: Fn(ArithOp) -> Scalar>(
    unit: U,
    n_drones: usize,
    targets: Seq<Target>,
    fleets: Seq<FleetView>,
    id: u32,
)
    requires
        mission_under_way(unit, n_drones, targets, fleets),
        id < n_drones <= u32::MAX,
        forall|t: int, i: int|
            0 <= t < fleets.len() - 1 && 0 <= i < n_drones ==> #[trigger] report_time(t, i)
                <= u64::MAX,
    ensures
        fleets.last().world.contains_key(id),
        fleets.last().world[id].0.battery_soc == known_charge(fleets, id),
{
    let last = fleets.len() - 1;
    if last == 0 {
    } else if last == 1 && id == 0 {
        let before = fleets[0];
        assert(tick_leads(unit, fleets, 0));
        let turns = choose|turns: Seq<FleetView>|
            {
                &&& #[trigger] tick_turns(
                    unit,
                    mission_weights(),
                    MISSION_WEIGHTS_VERSION,
                    0,
                    before,
                    turns,
                )
                &&& turns.len() == before.batteries.len() + 1
                &&& fleets[1] == turns.last()
            };
        assert forall|i: int| 0 <= i < turns.len() - 1 implies 0 <= #[trigger] report_time(0, i)
            <= u64::MAX by {}
        lemma_turns_leave_recent_entry(
            unit,
            mission_weights(),
            MISSION_WEIGHTS_VERSION,
            0,
            before,
            turns,
            turns.len() - 1,
            id,
        );
    } else {
        mission_reports_are_current(unit, n_drones, targets, fleets, last - 1, id);
        assert(reported_in(fleets[last - 1 + 1], last - 1, id));
    }
}

/// The mean battery of a report is the unit's quotient of a sum of charges and of the number of
/// drones. The charge of every drone goes into that sum once: each level occurs in it as often
/// as there are drones known to have it.
pub proof fn mean_battery_is_that_of_the_fleet<U: Fn(ArithOp) -> Scalar>(
    unit: U,
    n_drones: usize,
    targets: Seq<Target>,
    fleets: Seq<FleetView>,
    report: MissionReport,
)
    requires
        mission_under_way(unit, n_drones, targets, fleets),
        mission_reported(unit, n_drones, targets, fleets, report),
        0 < n_drones <= u32::MAX,
        forall|t: int, i: int|
            0 <= t < fleets.len() - 1 && 0 <= i < n_drones ==> #[trigger] report_time(t, i)
                <= u64::MAX,
    ensures
        exists|terms: Seq<Scalar>, total: Scalar, n: Scalar|
            {
                &&& terms.len() == n_drones
                &&& forall|v: Scalar| #[trigger]
                    terms.to_multiset().count(v) == Set::new(
                        |id: u32| id < n_drones && known_charge(fleets, id) == v,
                    ).len()
                &&& #[trigger] sums_to(unit, terms, total)
                &&& #[trigger] answers(unit, ArithOp::Count(n_drones as u64), n)
                &&& answers(unit, ArithOp::Div(total, n), report.mean_battery)
            },
{
    let world = fleets.last().world;
    let last = fleets.len() - 1;
    mission_stays_in_touch(unit, n_drones, targets, fleets, last);
    mean_takes_in_every_drone_once(unit, world, report.mean_battery);
    u32::range_properties(0, n_drones as u32);
    assert(world.dom() =~= u32::range_set(0, n_drones as u32)) by {
        assert forall|id: u32| world.dom().contains(id) <==> u32::range_set(
            0,
            n_drones as u32,
        ).contains(id) by {
            assert(world.contains_key(id) <==> id < n_drones);
        }
    }
    assert forall|v: Scalar| #[trigger] drones_at(world, v) == Set::new(
        |id: u32| id < n_drones && known_charge(fleets, id) == v,
    ) by {
        assert forall|id: u32| drones_at(world, v).contains(id) <==> id < n_drones
            && known_charge(fleets, id) == v by {
            assert(world.contains_key(id) <==> id < n_drones);
            if id < n_drones {
                lemma_known_charge(unit, n_drones, targets, fleets, id);
            }
        }
        assert(drones_at(world, v) =~= Set::new(
            |id: u32| id < n_drones && known_charge(fleets, id) == v,
        ));
    }
    let (terms, total, n) = choose|terms: Seq<Scalar>, total: Scalar, n: Scalar|
        {
            &&& forall|v: Scalar| #[trigger]
                terms.to_multiset().count(v) == drones_at(world, v).len()
            &&& terms.len() == world.dom().len()
            &&& #[trigger] sums_to(unit, terms, total)
            &&& #[trigger] answers(unit, ArithOp::Count(world.dom().len() as u64), n)
            &&& answers(unit, ArithOp::Div(total, n), report.mean_battery)
        };
    assert forall|v: Scalar| #[trigger] terms.to_multiset().count(v) == Set::new(
        |id: u32| id < n_drones && known_charge(fleets, id) == v,
    ).len() by {
        assert(drones_at(world, v) == Set::new(
            |id: u32| id < n_drones && known_charge(fleets, id) == v,
        ));
    }
}

/// A tick is evaporation and then one turn of every drone, in the order of their ids: there are
/// fleets in between, one per turn, each led to the next by the turn of the next drone.
pub proof fn drones_take_turns_in_order<U: Fn(ArithOp) -> Scalar>(
    unit: U,
    weights: Seq<Trit>,
    version: u32,
    tick: int,
    before: FleetView,
    after: FleetView,
)
    requires
        ticked(unit, weights, version, tick, before, after),
    ensures
        exists|turns: Seq<FleetView>|
            {
                &&& turns.len() == before.batteries.len() + 1
                &&& turns[0].targets == before.targets
                &&& turns[0].world == before.world
                &&& turns[0].xs == before.xs
                &&& turns[0].ys == before.ys
                &&& turns[0].batteries == before.batteries
                &&& field_evaporated(
                    unit,
                    Scalar { bits: EVAPORATION },
                    before.levels,
                    turns[0].levels,
                )
                &&& #[trigger] turns.last() == after
                &&& forall|i: int, next: int|
                    0 <= i < before.batteries.len() && next == i + 1 ==> drone_stepped(
                        unit,
                        weights,
                        version,
                        tick,
                        i,
                        #[trigger] turns[i],
                        #[trigger] turns[next],
                    )
            },
{
    let turns = choose|turns: Seq<FleetView>|
        {
            &&& #[trigger] tick_turns(unit, weights, version, tick, before, turns)
            &&& turns.len() == before.batteries.len() + 1
            &&& after == turns.last()
        };
    assert forall|i: int, next: int|
        0 <= i < before.batteries.len() && next == i + 1 implies drone_stepped(
        unit,
        weights,
        version,
        tick,
        i,
        #[trigger] turns[i],
        #[trigger] turns[next],
    ) by {
        assert(turn_leads(unit, weights, version, tick, turns, i));
    }
    assert(turns.last() == after);
}

/// A mission starts with the deployed fleet and goes on tick by tick, with the mission's weights
/// and the ticks numbered from zero, and it flies all its ticks unless it is over before.
pub proof fn missions_go_tick_by_tick<U: Fn(ArithOp) -> Scalar>(
    unit: U,
    n_drones: usize,
    targets: Seq<Target>,
    ticks: int,
    fleets: Seq<FleetView>,
    t: int,
)
    requires
        mission_flown(unit, n_drones, targets, ticks, fleets),
        0 <= t < fleets.len() - 1,
    ensures
        deployed(unit, n_drones, targets, fleets[0]),
        ticked(
            unit,
            mission_weights(),
            MISSION_WEIGHTS_VERSION,
            t,
            fleets[t],
            fleets[t + 1],
        ),
        t > 0 ==> !mission_over(fleets[t]),
        fleets.len() <= ticks + 1,
        !mission_over(fleets.last()) ==> fleets.len() == ticks + 1,
{
    assert(tick_leads(unit, fleets, t));
}

/// The weights of a mission: one each for the bearing into the first four hidden units, one each
/// for the clearance into the other four, and one each from all eight into advancing.
pub proof fn mission_weights_drive_advancing(h: int, i: int, output: int)
    requires
        0 <= h < 8,
        0 <= i < 4,
        0 <= output < 3,
    ensures
        mission_weights().len() == 56,
        weight_at(mission_weights(), 4 * h + i).value() == (if (h < 4 && i == 1) || (h >= 4 && i
            == 0) {
            1int
        } else {
            0
        }),
        weight_at(mission_weights(), 32 + 8 * output + h).value() == (if output == 2 {
            1int
        } else {
            0
        }),
{
}

} // verus!
