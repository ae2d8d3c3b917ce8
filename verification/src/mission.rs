//! A whole mission: drones sense, steer, cover targets, report and vote, tick by tick.
use crate::arith::{answers, compute, takes_all, ArithOp};
use crate::conservation::ConservationVerifier;
use crate::mission_laws::{
    coverage_grows_by_at_most_the_fleet, coverage_never_decreases, early_end_has_a_reason,
    fleet_without_drones_aborts, no_mission_flies_on,
};
use crate::nav::{network_action, sensed, DroneAction, SensorReading, TernaryNavNet};
use crate::pheromone::{
    attractive, bears, covered_in, covered_targets_are_counted, field_evaporated, measure,
    measured, most_attractive, with_covered, PheromoneField, Target, DAMPENING,
};
use crate::scalar::{Scalar, ONE, ZERO};
use crate::ternary::Trit;
use crate::warp::{ballot_outcome, polled, DroneVote, DroneWarp, FleetDirective};
use crate::world::{averages, upserted, DroneState, DroneWorldCRDT, Timestamp};
use vstd::prelude::*;

verus! {

/// Bit pattern of 0.05: the share of the pheromone that evaporates per tick.
pub const EVAPORATION: u32 = 0x3d4c_cccd;

/// Bit pattern of 0.8: the obstacle clearance under a clear sky.
pub const CLEAR_SKY: u32 = 0x3f4c_cccd;

/// Bit pattern of 0.3: the speed at which drones cruise.
pub const CRUISE_SPEED: u32 = 0x3e99_999a;

/// Bit pattern of 0.15: how far a drone moves per tick at full bearing.
pub const STEP: u32 = 0x3e19_999a;

/// Bit pattern of 0.5: the share of a step that an advance climbs.
pub const CLIMB: u32 = 0x3f00_0000;

/// Bit pattern of 0.02: the charge that a tick costs.
pub const DRAIN: u32 = 0x3ca3_d70a;

/// Bit pattern of 0.2: how near a drone must be to cover a target.
pub const REACH: u32 = 0x3e4c_cccd;

/// Bit pattern of 0.1: below this charge a drone votes to abort.
pub const CRITICAL_CHARGE: u32 = 0x3dcc_cccd;

/// Bit pattern of 0.3: below this charge a drone votes to regroup.
pub const LOW_CHARGE: u32 = 0x3e99_999a;

/// The version of the weights that a mission flies with.
pub const MISSION_WEIGHTS_VERSION: u32 = 1;

/// The fleet between two steps of a mission.
pub struct FleetView {
    pub targets: Seq<Target>,
    /// The pheromone level of each target.
    pub levels: Seq<Scalar>,
    /// What the fleet knows of its drones.
    pub world: Map<u32, (DroneState, Timestamp)>,
    /// The position and the charge of each drone.
    pub xs: Seq<Scalar>,
    pub ys: Seq<Scalar>,
    pub batteries: Seq<Scalar>,
}

/// The weights that a mission flies with, biased toward advancing: the first four hidden
/// units follow the bearing, the other four the obstacle clearance, and all eight drive
/// the output that advances.
pub open spec fn mission_weights() -> Seq<Trit> {
    Seq::new(
        56,
        |i: int|
            if (i < 16 && i % 4 == 1) || (16 <= i < 32 && i % 4 == 0) || i >= 48 {
                Trit::Pos
            } else {
                Trit::Zero
            },
    )
}

/// `choice` is what a drone at `(x, y)` heads for: the most attractive target and its
/// bearing, or nothing where no target is attractive.
pub open spec fn picked<U: Fn(ArithOp) -> Scalar>(
    unit: U,
    targets: Seq<Target>,
    levels: Seq<Scalar>,
    x: Scalar,
    y: Scalar,
    choice: Option<(int, Scalar)>,
) -> bool {
    match choice {
        None => forall|i: int| !attractive(targets, levels, i),
        Some((idx, bearing)) => {
            &&& most_attractive(targets, levels, idx)
            &&& bears(unit, targets[idx], x, y, bearing)
        },
    }
}

/// The bearing of a choice; straight ahead where there is none.
pub open spec fn heading(choice: Option<(int, Scalar)>) -> Scalar {
    match choice {
        None => Scalar { bits: ZERO },
        Some((_, bearing)) => bearing,
    }
}

/// What a drone senses on a mission.
pub open spec fn mission_reading(bearing: Scalar, battery: Scalar) -> SensorReading {
    SensorReading {
        obstacle_clearance: Scalar { bits: CLEAR_SKY },
        target_bearing: bearing,
        battery_soc: battery,
        speed: Scalar { bits: CRUISE_SPEED },
    }
}

/// `action` is what the network makes of a drone's reading.
pub open spec fn steered<U: Fn(ArithOp) -> Scalar>(
    unit: U,
    weights: Seq<Trit>,
    bearing: Scalar,
    battery: Scalar,
    action: DroneAction,
) -> bool {
    exists|inputs: Seq<int>| #[trigger]
        sensed(unit, mission_reading(bearing, battery), inputs) && action == network_action(
            weights,
            inputs,
        )
}

/// A coordinate brought back into the unit square.
pub open spec fn confined(coordinate: Scalar) -> Scalar {
    coordinate.limited(Scalar { bits: ZERO }, Scalar { bits: ONE })
}

/// `(x1, y1)` is where `action` takes a drone from `(x, y)`.
pub open spec fn moved<U: Fn(ArithOp) -> Scalar>(
    unit: U,
    action: DroneAction,
    bearing: Scalar,
    x: Scalar,
    y: Scalar,
    x1: Scalar,
    y1: Scalar,
) -> bool {
    match action {
        DroneAction::Advance => exists|
            aside: Scalar,
            across: Scalar,
            climb: Scalar,
            up: Scalar,
        |
            {
                &&& #[trigger] answers(
                    unit,
                    ArithOp::Mul(bearing, Scalar { bits: STEP }),
                    aside,
                )
                &&& #[trigger] answers(unit, ArithOp::Add(x, aside), across)
                &&& #[trigger] answers(
                    unit,
                    ArithOp::Mul(Scalar { bits: STEP }, Scalar { bits: CLIMB }),
                    climb,
                )
                &&& #[trigger] answers(unit, ArithOp::Add(y, climb), up)
                &&& x1 == confined(across)
                &&& y1 == confined(up)
            },
        DroneAction::AvoidObstacle => exists|aside: Scalar, across: Scalar|
            {
                &&& #[trigger] answers(
                    unit,
                    ArithOp::Mul(bearing, Scalar { bits: STEP }),
                    aside,
                )
                &&& #[trigger] answers(unit, ArithOp::Sub(x, aside), across)
                &&& x1 == confined(across)
                &&& y1 == confined(y)
            },
        DroneAction::Hold => x1 == confined(x) && y1 == confined(y),
    }
}

/// `after` is the charge that a tick leaves of `before`, never below zero.
pub open spec fn drained<U: Fn(ArithOp) -> Scalar>(unit: U, before: Scalar, after: Scalar) -> bool {
    exists|rest: Scalar| #[trigger]
        answers(unit, ArithOp::Sub(before, Scalar { bits: DRAIN }), rest) && after
            == rest.raised_to(Scalar { bits: ZERO })
}

/// `targets1` and `levels1` are what is left after a drone at `(x, y)` covers its choice
/// if that is open and within reach.
pub open spec fn worked<U: Fn(ArithOp) -> Scalar>(
    unit: U,
    targets: Seq<Target>,
    levels: Seq<Scalar>,
    choice: Option<(int, Scalar)>,
    x: Scalar,
    y: Scalar,
    targets1: Seq<Target>,
    levels1: Seq<Scalar>,
) -> bool {
    match choice {
        None => targets1 == targets && levels1 == levels,
        Some((idx, _)) => exists|dx: Scalar, dist: Scalar|
            {
                &&& #[trigger] measured(unit, targets[idx], x, y, dx, dist)
                &&& if (Scalar { bits: REACH }).above(dist) && !targets[idx].covered {
                    &&& targets1 == with_covered(targets, idx)
                    &&& levels1 == levels.update(idx, levels1[idx])
                    &&& answers(
                        unit,
                        ArithOp::Mul(levels[idx], Scalar { bits: DAMPENING }),
                        levels1[idx],
                    )
                } else {
                    &&& targets1 == targets
                    &&& levels1 == levels
                }
            },
    }
}

/// What drone `i` broadcasts.
pub open spec fn broadcast_state(
    i: int,
    x: Scalar,
    y: Scalar,
    battery: Scalar,
    choice: Option<(int, Scalar)>,
    targets: Seq<Target>,
    version: u32,
) -> DroneState {
    DroneState {
        drone_id: i as u32,
        x,
        y,
        battery_soc: battery,
        active_target: match choice {
            None => None,
            Some((idx, _)) => Some(targets[idx].id),
        },
        weight_version: version,
    }
}

/// The time at which drone `i` reports in a tick.
pub open spec fn report_time(tick: int, i: int) -> int {
    tick * 1000 + i
}

/// Drone `i` takes its turn, heading for `choice` and doing `action`: it moves, drains its
/// battery, covers what it reaches and reports.
pub open spec fn turn_taken<U: Fn(ArithOp) -> Scalar>(
    unit: U,
    weights: Seq<Trit>,
    version: u32,
    tick: int,
    i: int,
    choice: Option<(int, Scalar)>,
    action: DroneAction,
    before: FleetView,
    after: FleetView,
) -> bool {
    &&& picked(unit, before.targets, before.levels, before.xs[i], before.ys[i], choice)
    &&& steered(unit, weights, heading(choice), before.batteries[i], action)
    &&& moved(
        unit,
        action,
        heading(choice),
        before.xs[i],
        before.ys[i],
        after.xs[i],
        after.ys[i],
    )
    &&& drained(unit, before.batteries[i], after.batteries[i])
    &&& worked(
        unit,
        before.targets,
        before.levels,
        choice,
        after.xs[i],
        after.ys[i],
        after.targets,
        after.levels,
    )
    &&& after.xs == before.xs.update(i, after.xs[i])
    &&& after.ys == before.ys.update(i, after.ys[i])
    &&& after.batteries == before.batteries.update(i, after.batteries[i])
    &&& after.world == upserted(
        before.world,
        broadcast_state(
            i,
            after.xs[i],
            after.ys[i],
            after.batteries[i],
            choice,
            after.targets,
            version,
        ),
        Timestamp(report_time(tick, i) as u64),
    )
}

/// `after` is the fleet `before` once drone `i` has taken its turn.
pub open spec fn drone_stepped<U: Fn(ArithOp) -> Scalar>(
    unit: U,
    weights: Seq<Trit>,
    version: u32,
    tick: int,
    i: int,
    before: FleetView,
    after: FleetView,
) -> bool {
    exists|choice: Option<(int, Scalar)>, action: DroneAction| #[trigger]
        turn_taken(unit, weights, version, tick, i, choice, action, before, after)
}

/// `after` is the fleet `before` once the pheromone has evaporated by a tick.
pub open spec fn fleet_evaporated<U: Fn(ArithOp) -> Scalar>(
    unit: U,
    before: FleetView,
    after: FleetView,
) -> bool {
    &&& field_evaporated(unit, Scalar { bits: EVAPORATION }, before.levels, after.levels)
    &&& after == (FleetView { levels: after.levels, ..before })
}

/// `turns[i]` leads to `turns[i + 1]` by the turn of drone `i`.
pub open spec fn turn_leads<U: Fn(ArithOp) -> Scalar>(
    unit: U,
    weights: Seq<Trit>,
    version: u32,
    tick: int,
    turns: Seq<FleetView>,
    i: int,
) -> bool {
    drone_stepped(unit, weights, version, tick, i, turns[i], turns[i + 1])
}

/// `turns` leads through a tick: evaporation first, then every drone in turn.
pub open spec fn tick_turns<U: Fn(ArithOp) -> Scalar>(
    unit: U,
    weights: Seq<Trit>,
    version: u32,
    tick: int,
    before: FleetView,
    turns: Seq<FleetView>,
) -> bool {
    &&& turns.len() >= 1
    &&& fleet_evaporated(unit, before, turns[0])
    &&& forall|i: int|
        0 <= i < turns.len() - 1 ==> #[trigger] turn_leads(unit, weights, version, tick, turns, i)
}

/// `after` is the fleet `before` once a tick is over.
pub open spec fn ticked<U: Fn(ArithOp) -> Scalar>(
    unit: U,
    weights: Seq<Trit>,
    version: u32,
    tick: int,
    before: FleetView,
    after: FleetView,
) -> bool {
    exists|turns: Seq<FleetView>|
        {
            &&& #[trigger] tick_turns(unit, weights, version, tick, before, turns)
            &&& turns.len() == before.batteries.len() + 1
            &&& after == turns.last()
        }
}

/// What a drone with the given charge votes for.
pub open spec fn vote_for(battery: Scalar) -> DroneVote {
    if (Scalar { bits: CRITICAL_CHARGE }).above(battery) {
        DroneVote::AbortReturn
    } else if (Scalar { bits: LOW_CHARGE }).above(battery) {
        DroneVote::Regroup
    } else {
        DroneVote::ContinueMission
    }
}

/// The votes of the first 32 drones.
pub open spec fn fleet_votes(batteries: Seq<Scalar>) -> Seq<DroneVote> {
    Seq::new(
        if batteries.len() <= 32 {
            batteries.len()
        } else {
            32
        },
        |i: int| vote_for(batteries[i]),
    )
}

/// The directive that the fleet votes itself.
pub open spec fn fleet_directive(batteries: Seq<Scalar>) -> FleetDirective {
    ballot_outcome(fleet_votes(batteries))
}

/// A mission ends with an abort, or with all targets covered.
pub open spec fn mission_over(fleet: FleetView) -> bool {
    ||| fleet_directive(fleet.batteries) == FleetDirective::AbortReturn
    ||| covered_in(fleet.targets) == fleet.targets.len()
}

/// `x` is where drone `i` of `n` starts.
pub open spec fn stationed<U: Fn(ArithOp) -> Scalar>(unit: U, i: int, n: int, x: Scalar) -> bool {
    exists|place: Scalar, fleet: Scalar|
        {
            &&& #[trigger] answers(unit, ArithOp::Count(i as u64), place)
            &&& #[trigger] answers(unit, ArithOp::Count(n as u64), fleet)
            &&& answers(unit, ArithOp::Div(place, fleet), x)
        }
}

/// What is known of drone `id` before the first tick.
pub open spec fn initial_entry(id: u32, x: Scalar) -> (DroneState, Timestamp) {
    (
        DroneState {
            drone_id: id,
            x,
            y: Scalar { bits: ZERO },
            battery_soc: Scalar { bits: ONE },
            active_target: None,
            weight_version: MISSION_WEIGHTS_VERSION,
        },
        Timestamp(0),
    )
}

/// `fleet` is a fleet of `n_drones` before the first tick: spread along the lower edge,
/// fully charged, known to each other. Drone ids are 32 bits wide.
pub open spec fn deployed<U: Fn(ArithOp) -> Scalar>(
    unit: U,
    n_drones: usize,
    targets: Seq<Target>,
    fleet: FleetView,
) -> bool {
    &&& fleet.targets == targets
    &&& fleet.levels == targets.map_values(|t: Target| t.priority)
    &&& fleet.xs.len() == n_drones as u32
    &&& forall|i: int|
        0 <= i < fleet.xs.len() ==> stationed(unit, i, n_drones as int, #[trigger] fleet.xs[i])
    &&& fleet.ys == Seq::new(n_drones as nat, |i: int| Scalar { bits: ZERO })
    &&& fleet.batteries == Seq::new(n_drones as nat, |i: int| Scalar { bits: ONE })
    &&& fleet.world == Map::new(
        |id: u32| id < n_drones as u32,
        |id: u32| initial_entry(id, fleet.xs[id as int]),
    )
}

/// What came of a mission.
#[derive(Debug)]
pub struct MissionReport {
    pub n_drones: usize,
    pub n_targets: usize,
    pub ticks_elapsed: usize,
    pub final_covered: usize,
    pub coverage_fraction: Scalar,
    pub coverage_per_tick: Vec<usize>,
    pub directives: Vec<FleetDirective>,
    pub mean_battery: Scalar,
}

/// `fleets[t]` leads to `fleets[t + 1]` by tick `t`.
pub open spec fn tick_leads<U: Fn(ArithOp) -> Scalar>(
    unit: U,
    fleets: Seq<FleetView>,
    t: int,
) -> bool {
    ticked(unit, mission_weights(), MISSION_WEIGHTS_VERSION, t, fleets[t], fleets[t + 1])
}

/// `fleets` leads through a mission so far: the deployed fleet, then the fleet after each
/// tick. The mission was not over before the last of these ticks.
pub open spec fn mission_under_way<U: Fn(ArithOp) -> Scalar>(
    unit: U,
    n_drones: usize,
    targets: Seq<Target>,
    fleets: Seq<FleetView>,
) -> bool {
    &&& fleets.len() >= 1
    &&& deployed(unit, n_drones, targets, fleets[0])
    &&& forall|t: int| 0 <= t < fleets.len() - 1 ==> #[trigger] tick_leads(unit, fleets, t)
    &&& forall|t: int| 1 <= t < fleets.len() - 1 ==> !mission_over(#[trigger] fleets[t])
}

/// `fleets` leads through a whole mission: up to the first tick after which it is over,
/// or to the last of `ticks`.
pub open spec fn mission_flown<U: Fn(ArithOp) -> Scalar>(
    unit: U,
    n_drones: usize,
    targets: Seq<Target>,
    ticks: int,
    fleets: Seq<FleetView>,
) -> bool {
    &&& mission_under_way(unit, n_drones, targets, fleets)
    &&& fleets.len() <= ticks + 1
    &&& fleets.len() <= ticks ==> fleets.len() > 1 && mission_over(fleets.last())
}

/// `coverage` holds the number of covered targets after each tick.
pub open spec fn coverage_recorded(fleets: Seq<FleetView>, coverage: Seq<usize>) -> bool {
    &&& coverage.len() == fleets.len() - 1
    &&& forall|t: int|
        0 <= t < coverage.len() ==> #[trigger] coverage[t] == covered_in(fleets[t + 1].targets)
}

/// `directives` holds the fleet's directive after each tick.
pub open spec fn directives_recorded(
    fleets: Seq<FleetView>,
    directives: Seq<FleetDirective>,
) -> bool {
    &&& directives.len() == fleets.len() - 1
    &&& forall|t: int|
        0 <= t < directives.len() ==> #[trigger] directives[t] == fleet_directive(
            fleets[t + 1].batteries,
        )
}

/// `fraction` is the share of `n_targets` that `covered` makes up.
pub open spec fn share_covered<U: Fn(ArithOp) -> Scalar>(
    unit: U,
    covered: int,
    n_targets: int,
    fraction: Scalar,
) -> bool {
    exists|covered_n: Scalar, targets_n: Scalar|
        {
            &&& #[trigger] answers(unit, ArithOp::Count(covered as u64), covered_n)
            &&& #[trigger] answers(unit, ArithOp::Count(n_targets as u64), targets_n)
            &&& answers(unit, ArithOp::Div(covered_n, targets_n), fraction)
        }
}

/// `report` is the report on the mission that `fleets` leads through.
pub open spec fn mission_reported<U: Fn(ArithOp) -> Scalar>(
    unit: U,
    n_drones: usize,
    targets: Seq<Target>,
    fleets: Seq<FleetView>,
    report: MissionReport,
) -> bool {
    &&& report.n_drones == n_drones
    &&& report.n_targets == targets.len()
    &&& report.ticks_elapsed == fleets.len() - 1
    &&& coverage_recorded(fleets, report.coverage_per_tick@)
    &&& directives_recorded(fleets, report.directives@)
    &&& report.final_covered == covered_in(fleets.last().targets)
    &&& share_covered(
        unit,
        report.final_covered as int,
        report.n_targets as int,
        report.coverage_fraction,
    )
    &&& averages(unit, fleets.last().world, report.mean_battery)
}

/// The fleet as a mission holds it.
struct Fleet {
    field: PheromoneField,
    world: DroneWorldCRDT,
    xs: Vec<Scalar>,
    ys: Vec<Scalar>,
    batteries: Vec<Scalar>,
}

impl View for Fleet {
    type V = FleetView;

    closed spec fn view(&self) -> FleetView {
        FleetView {
            targets: self.field.targets@,
            levels: self.field.pheromone@,
            world: self.world@,
            xs: self.xs@,
            ys: self.ys@,
            batteries: self.batteries@,
        }
    }
}

impl Fleet {
    /// A fleet of `n` drones on a mission.
    spec fn on_mission(self, n: nat) -> bool {
        &&& self.field.pheromone@.len() == self.field.targets@.len()
        &&& self.field.evaporation_rate == (Scalar { bits: EVAPORATION })
        &&& self.field.dampening == (Scalar { bits: DAMPENING })
        &&& self.xs@.len() == n
        &&& self.ys@.len() == n
        &&& self.batteries@.len() == n
    }

    /// One drone's turn.
    fn step_drone<U: Fn(ArithOp) -> Scalar>(
        &mut self,
        unit: &U,
        net: &TernaryNavNet,
        tick: usize,
        i: usize,
    )
        requires
            takes_all(*unit),
            old(self).on_mission(old(self).batteries@.len()),
            i < old(self).batteries@.len() <= u32::MAX,
            report_time(tick as int, i as int) <= u64::MAX,
        ensures
            final(self).on_mission(old(self).batteries@.len()),
            drone_stepped(
                *unit,
                net.weights@,
                net.weights.version,
                tick as int,
                i as int,
                old(self)@,
                final(self)@,
            ),
    {
        let x = self.xs[i];
        let y = self.ys[i];
        let battery = self.batteries[i];
        let picked_target = self.field.sample_gradient(unit, x, y);
        let (bearing, target) = match picked_target {
            None => (Scalar { bits: ZERO }, None),
            Some((idx, bearing)) => (bearing, Some(idx)),
        };
        let ghost choice: Option<(int, Scalar)> = match picked_target {
            None => None,
            Some((idx, b)) => Some((idx as int, b)),
        };
        assert(picked(*unit, self@.targets, self@.levels, x, y, choice));
        let sensor = SensorReading {
            obstacle_clearance: Scalar { bits: CLEAR_SKY },
            target_bearing: bearing,
            battery_soc: battery,
            speed: Scalar { bits: CRUISE_SPEED },
        };
        let action = net.infer(unit, &sensor);
        assert(bearing == heading(choice));
        assert(sensor == mission_reading(bearing, battery));
        assert(steered(*unit, net.weights@, heading(choice), battery, action));
        let (x1, y1) = move_drone(unit, action, bearing, x, y);
        self.xs.set(i, x1);
        self.ys.set(i, y1);
        let rest = compute(unit, ArithOp::Sub(battery, Scalar { bits: DRAIN }));
        let battery1 = rest.at_least(Scalar { bits: ZERO });
        self.batteries.set(i, battery1);
        let mut active_target: Option<u32> = None;
        if let Some(idx) = target {
            let (_dx, dist) = measure(unit, &self.field.targets[idx], x1, y1);
            if (Scalar { bits: REACH }).exceeds(dist) && !self.field.targets[idx].covered {
                self.field.cover(unit, idx);
            }
            active_target = Some(self.field.targets[idx].id);
        }
        assert(worked(
            *unit,
            old(self)@.targets,
            old(self)@.levels,
            choice,
            x1,
            y1,
            self@.targets,
            self@.levels,
        ));
        let state = DroneState {
            drone_id: i as u32,
            x: x1,
            y: y1,
            battery_soc: battery1,
            active_target,
            weight_version: net.weights.version,
        };
        self.world.upsert(state, Timestamp(tick as u64 * 1000 + i as u64));
        proof {
            let before = old(self)@;
            let after = self@;
            assert(after.xs =~= before.xs.update(i as int, after.xs[i as int]));
            assert(after.ys =~= before.ys.update(i as int, after.ys[i as int]));
            assert(after.batteries =~= before.batteries.update(
                i as int,
                after.batteries[i as int],
            ));
            assert(state == broadcast_state(
                i as int,
                x1,
                y1,
                battery1,
                choice,
                after.targets,
                net.weights.version,
            ));
            assert(turn_taken(
                *unit,
                net.weights@,
                net.weights.version,
                tick as int,
                i as int,
                choice,
                action,
                before,
                after,
            ));
        }
    }

    /// One tick: the pheromone evaporates, then every drone takes its turn.
    fn run_tick<U: Fn(ArithOp) -> Scalar>(&mut self, unit: &U, net: &TernaryNavNet, tick: usize)
        requires
            takes_all(*unit),
            old(self).on_mission(old(self).batteries@.len()),
            old(self).batteries@.len() <= u32::MAX,
            forall|i: int|
                0 <= i < old(self).batteries@.len() ==> #[trigger] report_time(tick as int, i)
                    <= u64::MAX,
        ensures
            final(self).on_mission(old(self).batteries@.len()),
            ticked(
                *unit,
                net.weights@,
                net.weights.version,
                tick as int,
                old(self)@,
                final(self)@,
            ),
    {
        let n_drones: usize = self.batteries.len();
        let ghost before = self@;
        self.field.tick(unit);
        let ghost mut turns: Seq<FleetView> = seq![self@];
        let mut i: usize = 0;
        while i < n_drones
            invariant
                takes_all(*unit),
                i <= n_drones <= u32::MAX,
                self.on_mission(n_drones as nat),
                forall|k: int|
                    0 <= k < n_drones ==> #[trigger] report_time(tick as int, k) <= u64::MAX,
                turns.len() == i + 1,
                turns.last() == self@,
                tick_turns(
                    *unit,
                    net.weights@,
                    net.weights.version,
                    tick as int,
                    before,
                    turns,
                ),
            decreases n_drones - i,
        {
            let ghost so_far = turns;
            assert(report_time(tick as int, i as int) <= u64::MAX);
            self.step_drone(unit, net, tick, i);
            proof {
                turns = so_far.push(self@);
                assert forall|k: int| 0 <= k < turns.len() - 1 implies #[trigger] turn_leads(
                    *unit,
                    net.weights@,
                    net.weights.version,
                    tick as int,
                    turns,
                    k,
                ) by {
                    if k < so_far.len() - 1 {
                        assert(turn_leads(
                            *unit,
                            net.weights@,
                            net.weights.version,
                            tick as int,
                            so_far,
                            k,
                        ));
                    }
                }
            }
            i = i + 1;
        }
    }
}

/// Moves a drone by one action.
fn move_drone<U: Fn(ArithOp) -> Scalar>(
    unit: &U,
    action: DroneAction,
    bearing: Scalar,
    x: Scalar,
    y: Scalar,
) -> (r: (Scalar, Scalar))
    requires
        takes_all(*unit),
    ensures
        moved(*unit, action, bearing, x, y, r.0, r.1),
{
    let zero = Scalar { bits: ZERO };
    let one = Scalar { bits: ONE };
    match action {
        DroneAction::Advance => {
            let aside = compute(unit, ArithOp::Mul(bearing, Scalar { bits: STEP }));
            let across = compute(unit, ArithOp::Add(x, aside));
            let climb = compute(
                unit,
                ArithOp::Mul(Scalar { bits: STEP }, Scalar { bits: CLIMB }),
            );
            let up = compute(unit, ArithOp::Add(y, climb));
            (across.clamp(zero, one), up.clamp(zero, one))
        },
        DroneAction::AvoidObstacle => {
            let aside = compute(unit, ArithOp::Mul(bearing, Scalar { bits: STEP }));
            let across = compute(unit, ArithOp::Sub(x, aside));
            (across.clamp(zero, one), y.clamp(zero, one))
        },
        DroneAction::Hold => (x.clamp(zero, one), y.clamp(zero, one)),
    }
}

/// Lets the first 32 drones vote by their charge.
fn poll_fleet(batteries: &Vec<Scalar>) -> (directive: FleetDirective)
    ensures
        directive == fleet_directive(batteries@),
{
    let warp_size: usize = if batteries.len() <= 32 { batteries.len() } else { 32 };
    let mut warp = DroneWarp::new(0, warp_size);
    let mut i: usize = 0;
    while i < warp_size
        invariant
            i <= warp_size <= batteries@.len(),
            warp_size <= 32,
            warp.votes@.len() == warp_size,
            warp.cycles == 0,
            forall|k: int| 0 <= k < i ==> #[trigger] warp.votes@[k] == vote_for(batteries@[k]),
        decreases warp_size - i,
    {
        let vote: DroneVote = if (Scalar { bits: CRITICAL_CHARGE }).exceeds(batteries[i]) {
            DroneVote::AbortReturn
        } else if (Scalar { bits: LOW_CHARGE }).exceeds(batteries[i]) {
            DroneVote::Regroup
        } else {
            DroneVote::ContinueMission
        };
        warp.set_vote(i, vote);
        i = i + 1;
    }
    assert(polled(warp.votes@) =~= fleet_votes(batteries@));
    warp.execute_ballot()
}

/// The network that a mission flies with.
fn mission_net() -> (net: TernaryNavNet)
    ensures
        net.weights@ == mission_weights(),
        net.weights.version == MISSION_WEIGHTS_VERSION,
{
    let mut trits: [Trit; 56] = [Trit::Zero; 56];
    let mut i: usize = 0;
    while i < 56
        invariant
            i <= 56,
            forall|k: int| 0 <= k < i ==> #[trigger] trits@[k] == mission_weights()[k],
        decreases 56 - i,
    {
        let driven: bool = (i < 16 && i % 4 == 1) || (16 <= i && i < 32 && i % 4 == 0) || i >= 48;
        if driven {
            trits[i] = Trit::Pos;
        } else {
            trits[i] = Trit::Zero;
        }
        i = i + 1;
    }
    assert(trits@ =~= mission_weights());
    TernaryNavNet::new(&trits, MISSION_WEIGHTS_VERSION)
}

/// Deploys a fleet.
fn deploy<U: Fn(ArithOp) -> Scalar>(unit: &U, n_drones: usize, targets: Vec<Target>) -> (fleet:
    Fleet)
    requires
        takes_all(*unit),
    ensures
        deployed(*unit, n_drones, targets@, fleet@),
        n_drones <= u32::MAX ==> fleet.on_mission(n_drones as nat),
{
    let field = PheromoneField::new(targets, Scalar { bits: EVAPORATION });
    let n_ids: u32 = n_drones as u32;
    let mut xs: Vec<Scalar> = Vec::new();
    let mut world = DroneWorldCRDT::default();
    let mut id: u32 = 0;
    assert(world@ =~= Map::new(
        |k: u32| k < 0u32,
        |k: u32| initial_entry(k, xs@[k as int]),
    ));
    while id < n_ids
        invariant
            takes_all(*unit),
            id <= n_ids,
            xs@.len() == id,
            forall|k: int|
                0 <= k < id ==> stationed(*unit, k, n_drones as int, #[trigger] xs@[k]),
            world@ == Map::new(|k: u32| k < id, |k: u32| initial_entry(k, xs@[k as int])),
        decreases n_ids - id,
    {
        let ghost before = xs@;
        let place = compute(unit, ArithOp::Count(id as u64));
        let drones = compute(unit, ArithOp::Count(n_drones as u64));
        let x = compute(unit, ArithOp::Div(place, drones));
        xs.push(x);
        world.upsert(
            DroneState {
                drone_id: id,
                x,
                y: Scalar { bits: ZERO },
                battery_soc: Scalar { bits: ONE },
                active_target: None,
                weight_version: MISSION_WEIGHTS_VERSION,
            },
            Timestamp(0),
        );
        id = id + 1;
        assert(world@ =~= Map::new(|k: u32| k < id, |k: u32| initial_entry(k, xs@[k as int])));
    }
    let mut ys: Vec<Scalar> = Vec::new();
    let mut batteries: Vec<Scalar> = Vec::new();
    let mut i: usize = 0;
    while i < n_drones
        invariant
            i <= n_drones,
            ys@ == Seq::new(i as nat, |k: int| Scalar { bits: ZERO }),
            batteries@ == Seq::new(i as nat, |k: int| Scalar { bits: ONE }),
        decreases n_drones - i,
    {
        ys.push(Scalar { bits: ZERO });
        batteries.push(Scalar { bits: ONE });
        i = i + 1;
        assert(ys@ =~= Seq::new(i as nat, |k: int| Scalar { bits: ZERO }));
        assert(batteries@ =~= Seq::new(i as nat, |k: int| Scalar { bits: ONE }));
    }
    Fleet { field, world, xs, ys, batteries }
}

/// A mission under way, with its records.
#[verifier::opaque]
spec fn mission_logged<U: Fn(ArithOp) -> Scalar>(
    unit: U,
    n_drones: usize,
    targets: Seq<Target>,
    fleets: Seq<FleetView>,
    coverage: Seq<usize>,
    directives: Seq<FleetDirective>,
) -> bool {
    &&& mission_under_way(unit, n_drones, targets, fleets)
    &&& coverage_recorded(fleets, coverage)
    &&& directives_recorded(fleets, directives)
}

proof fn lemma_log_starts<U: Fn(ArithOp) -> Scalar>(
    unit: U,
    n_drones: usize,
    targets: Seq<Target>,
    fleet: FleetView,
)
    requires
        deployed(unit, n_drones, targets, fleet),
    ensures
        mission_logged(unit, n_drones, targets, seq![fleet], seq![], seq![]),
{
    reveal(mission_logged);
}

proof fn lemma_mission_extends<U: Fn(ArithOp) -> Scalar>(
    unit: U,
    n_drones: usize,
    targets: Seq<Target>,
    fleets: Seq<FleetView>,
    next: FleetView,
)
    requires
        mission_under_way(unit, n_drones, targets, fleets),
        ticked(
            unit,
            mission_weights(),
            MISSION_WEIGHTS_VERSION,
            fleets.len() - 1,
            fleets.last(),
            next,
        ),
        fleets.len() > 1 ==> !mission_over(fleets.last()),
    ensures
        mission_under_way(unit, n_drones, targets, fleets.push(next)),
{
    let more = fleets.push(next);
    assert forall|t: int| 0 <= t < more.len() - 1 implies #[trigger] tick_leads(unit, more, t) by {
        if t < fleets.len() - 1 {
            assert(tick_leads(unit, fleets, t));
        }
    }
    assert forall|t: int| 1 <= t < more.len() - 1 implies !mission_over(#[trigger] more[t]) by {
        assert(more[t] == fleets[t]);
    }
    assert(more[0] == fleets[0]);
}

proof fn lemma_records_extend(
    fleets: Seq<FleetView>,
    coverage: Seq<usize>,
    directives: Seq<FleetDirective>,
    next: FleetView,
    covered: usize,
    directive: FleetDirective,
)
    requires
        fleets.len() >= 1,
        coverage_recorded(fleets, coverage),
        directives_recorded(fleets, directives),
        covered == covered_in(next.targets),
        directive == fleet_directive(next.batteries),
    ensures
        coverage_recorded(fleets.push(next), coverage.push(covered)),
        directives_recorded(fleets.push(next), directives.push(directive)),
{
    let more = fleets.push(next);
    assert forall|t: int| 0 <= t < coverage.push(covered).len() implies #[trigger] coverage.push(
        covered,
    )[t] == covered_in(more[t + 1].targets) by {
        if t < coverage.len() {
            assert(coverage[t] == covered_in(fleets[t + 1].targets));
        }
    }
    assert forall|t: int| 0 <= t < directives.push(directive).len() implies #[trigger]
    directives.push(directive)[t] == fleet_directive(more[t + 1].batteries) by {
        if t < directives.len() {
            assert(directives[t] == fleet_directive(fleets[t + 1].batteries));
        }
    }
}

proof fn lemma_log_extends<U: Fn(ArithOp) -> Scalar>(
    unit: U,
    n_drones: usize,
    targets: Seq<Target>,
    fleets: Seq<FleetView>,
    coverage: Seq<usize>,
    directives: Seq<FleetDirective>,
    next: FleetView,
    covered: usize,
    directive: FleetDirective,
)
    requires
        mission_logged(unit, n_drones, targets, fleets, coverage, directives),
        ticked(
            unit,
            mission_weights(),
            MISSION_WEIGHTS_VERSION,
            fleets.len() - 1,
            fleets.last(),
            next,
        ),
        fleets.len() > 1 ==> !mission_over(fleets.last()),
        covered == covered_in(next.targets),
        directive == fleet_directive(next.batteries),
    ensures
        mission_logged(
            unit,
            n_drones,
            targets,
            fleets.push(next),
            coverage.push(covered),
            directives.push(directive),
        ),
{
    reveal(mission_logged);
    lemma_mission_extends(unit, n_drones, targets, fleets, next);
    lemma_records_extend(fleets, coverage, directives, next, covered, directive);
}

impl Fleet {
    /// Flies one tick and records what comes of it. Says whether the mission is over.
    fn fly_tick<U: Fn(ArithOp) -> Scalar>(
        &mut self,
        unit: &U,
        net: &TernaryNavNet,
        verifier: &ConservationVerifier,
        tick: usize,
        coverage: &mut Vec<usize>,
        directives: &mut Vec<FleetDirective>,
        Ghost(n_drones): Ghost<usize>,
        Ghost(targets): Ghost<Seq<Target>>,
        Ghost(fleets): Ghost<Seq<FleetView>>,
    ) -> (over: bool)
        requires
            takes_all(*unit),
            net.weights@ == mission_weights(),
            net.weights.version == MISSION_WEIGHTS_VERSION,
            n_drones <= u32::MAX,
            old(self).on_mission(n_drones as nat),
            forall|i: int|
                0 <= i < n_drones ==> #[trigger] report_time(tick as int, i) <= u64::MAX,
            mission_logged(
                *unit,
                n_drones,
                targets,
                fleets,
                old(coverage)@,
                old(directives)@,
            ),
            fleets.len() == tick + 1,
            fleets.last() == old(self)@,
            tick > 0 ==> !mission_over(old(self)@),
        ensures
            final(self).on_mission(n_drones as nat),
            mission_logged(
                *unit,
                n_drones,
                targets,
                fleets.push(final(self)@),
                final(coverage)@,
                final(directives)@,
            ),
            over == mission_over(final(self)@),
    {
        self.run_tick(unit, net, tick);
        let directive = poll_fleet(&self.batteries);
        directives.push(directive);
        let covered: usize = self.field.covered_count();
        coverage.push(covered);
        proof {
            lemma_log_extends(
                *unit,
                n_drones,
                targets,
                fleets,
                old(coverage)@,
                old(directives)@,
                self@,
                covered,
                directive,
            );
        }
        // The verdict would gate a hotswap; a mission without one only takes it.
        let _verdict = verifier.verify(unit, &self.field, &self.world);
        directive == FleetDirective::AbortReturn || covered == self.field.targets.len()
    }
}

/// Runs a mission of `n_drones` over `targets` for at most `ticks` ticks. Once covered,
/// targets stay covered: coverage never goes down from one tick to the next. Nor does it
/// grow by more than one target per drone.
pub fn run_mission<U: Fn(ArithOp) -> Scalar>(
    unit: &U,
    n_drones: usize,
    targets: Vec<Target>,
    ticks: usize,
) -> (report: MissionReport)
    requires
        takes_all(*unit),
        ticks > 0 ==> n_drones <= u32::MAX,
        forall|t: int, i: int|
            0 <= t < ticks && 0 <= i < n_drones ==> #[trigger] report_time(t, i) <= u64::MAX,
    ensures
        exists|fleets: Seq<FleetView>|
            {
                &&& #[trigger] mission_flown(
                    *unit,
                    n_drones,
                    targets@,
                    ticks as int,
                    fleets,
                )
                &&& mission_reported(*unit, n_drones, targets@, fleets, report)
            },
        forall|earlier: int, later: int|
            0 <= earlier <= later < report.coverage_per_tick@.len()
                ==> #[trigger] report.coverage_per_tick@[earlier]
                <= #[trigger] report.coverage_per_tick@[later],
        report.final_covered <= report.n_targets,
        report.n_drones == n_drones,
        report.n_targets == targets@.len(),
        report.ticks_elapsed <= ticks,
        report.ticks_elapsed == report.coverage_per_tick@.len(),
        report.ticks_elapsed == report.directives@.len(),
        ticks > 0 ==> report.ticks_elapsed > 0,
        report.ticks_elapsed == 0 ==> report.final_covered == Set::new(
            |i: int| 0 <= i < targets@.len() && targets@[i].covered,
        ).len(),
        report.ticks_elapsed > 0 ==> report.final_covered == report.coverage_per_tick@.last(),
        exists|covered_n: Scalar, targets_n: Scalar|
            {
                &&& #[trigger] answers(
                    *unit,
                    ArithOp::Count(report.final_covered as u64),
                    covered_n,
                )
                &&& #[trigger] answers(*unit, ArithOp::Count(report.n_targets as u64), targets_n)
                &&& answers(
                    *unit,
                    ArithOp::Div(covered_n, targets_n),
                    report.coverage_fraction,
                )
            },
        forall|t: int|
            0 <= t < report.ticks_elapsed - 1 ==> #[trigger] report.directives@[t]
                != FleetDirective::AbortReturn,
        forall|t: int|
            0 <= t < report.ticks_elapsed - 1 ==> #[trigger] report.coverage_per_tick@[t]
                < report.n_targets,
        report.ticks_elapsed < ticks ==> {
            ||| report.directives@.last() == FleetDirective::AbortReturn
            ||| report.final_covered == report.n_targets
        },
        n_drones == 0 && ticks > 0 ==> report.directives@ == seq![FleetDirective::AbortReturn],
        n_drones == 0 ==> report.mean_battery == (Scalar { bits: ONE }),
        report.coverage_per_tick@.len() > 0 ==> covered_in(targets@)
            <= report.coverage_per_tick@[0] <= covered_in(targets@) + n_drones,
        forall|t: int, next: int|
            0 <= t && next == t + 1 && next < report.coverage_per_tick@.len()
                ==> #[trigger] report.coverage_per_tick@[next]
                <= #[trigger] report.coverage_per_tick@[t] + n_drones,
{
    let n_targets: usize = targets.len();
    let mut fleet = deploy(unit, n_drones, targets);
    let net = mission_net();
    let verifier = ConservationVerifier::new(Scalar { bits: ZERO });
    let mut coverage_per_tick: Vec<usize> = Vec::new();
    let mut directives: Vec<FleetDirective> = Vec::new();
    let ghost mut fleets: Seq<FleetView> = seq![fleet@];
    proof {
        lemma_log_starts(*unit, n_drones, targets@, fleet@);
    }
    let mut tick: usize = 0;
    let mut over: bool = false;
    while tick < ticks && !over
        invariant
            takes_all(*unit),
            ticks > 0 ==> n_drones <= u32::MAX,
            ticks > 0 ==> fleet.on_mission(n_drones as nat),
            forall|t: int, i: int|
                0 <= t < ticks && 0 <= i < n_drones ==> #[trigger] report_time(t, i) <= u64::MAX,
            net.weights@ == mission_weights(),
            net.weights.version == MISSION_WEIGHTS_VERSION,
            tick <= ticks,
            fleets.len() == tick + 1,
            fleets.last() == fleet@,
            mission_logged(
                *unit,
                n_drones,
                targets@,
                fleets,
                coverage_per_tick@,
                directives@,
            ),
            tick > 0 ==> over == mission_over(fleet@),
            over ==> tick > 0,
        decreases ticks - tick,
    {
        over = fleet.fly_tick(
            unit,
            &net,
            &verifier,
            tick,
            &mut coverage_per_tick,
            &mut directives,
            Ghost(n_drones),
            Ghost(targets@),
            Ghost(fleets),
        );
        proof {
            fleets = fleets.push(fleet@);
        }
        tick = tick + 1;
    }
    let final_covered: usize = fleet.field.covered_count();
    let covered_n = compute(unit, ArithOp::Count(final_covered as u64));
    let targets_n = compute(unit, ArithOp::Count(n_targets as u64));
    let coverage_fraction = compute(unit, ArithOp::Div(covered_n, targets_n));
    let mean_battery = fleet.world.mean_battery(unit);
    let report = MissionReport {
        n_drones,
        n_targets,
        ticks_elapsed: tick,
        final_covered,
        coverage_fraction,
        coverage_per_tick,
        directives,
        mean_battery,
    };
    reveal(mission_logged);
    assert(mission_flown(*unit, n_drones, targets@, ticks as int, fleets));
    assert(mission_reported(*unit, n_drones, targets@, fleets, report));
    proof {
        let coverage = report.coverage_per_tick@;
        early_end_has_a_reason(*unit, n_drones, targets@, ticks as int, fleets, report);
        no_mission_flies_on(*unit, n_drones, targets@, ticks as int, fleets, report);
        covered_targets_are_counted(targets@);
        if n_drones == 0 {
            fleet_without_drones_aborts(*unit, targets@, ticks as int, fleets, report);
        }
        assert forall|earlier: int, later: int|
            0 <= earlier <= later < coverage.len() implies #[trigger] coverage[earlier]
            <= #[trigger] coverage[later] by {
            coverage_never_decreases(
                *unit,
                n_drones,
                targets@,
                fleets,
                coverage,
                earlier,
                later,
            );
        }
        if coverage.len() > 0 {
            coverage_never_decreases(*unit, n_drones, targets@, fleets, coverage, 0, 0);
            coverage_grows_by_at_most_the_fleet(*unit, n_drones, targets@, fleets, coverage, 0);
        }
        assert forall|t: int, next: int|
            0 <= t && next == t + 1 && next < coverage.len() implies #[trigger] coverage[next]
            <= #[trigger] coverage[t] + n_drones by {
            coverage_grows_by_at_most_the_fleet(
                *unit,
                n_drones,
                targets@,
                fleets,
                coverage,
                next,
            );
        }
    }
    report
}

} // verus!
