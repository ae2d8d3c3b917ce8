//! What callers get of the operations, told by arguments and results, and how calls relate.
//!
//! A law here speaks of calls: `call_ensures(f, args, r)` says that `f`, called with `args`,
//! may return `r`. A reference that is changed stands for its value before and after.
use crate::arith::{
    add_up, answers, compute, factors_shrink, is_level, is_share, steady, sum_grows_term_by_term,
    sum_of_nothing_is_zero, sums_are_reproducible, sums_to, ArithOp,
};
use crate::conservation::{
    accounted_targets_are_counted, stray_claims_are_those_of_drones, ConservationVerifier,
    VerificationResult, REACHABLE,
};
use crate::mission::{mission_flown, mission_reported, run_mission, FleetView, MissionReport};
use crate::mission_laws::{
    equal_coverage_means_equal_fraction, mission_is_reproducible, reports_are_reproducible,
    shorter_report_is_a_prefix,
};
use crate::nav::{
    negated, negated_networks_steer_alike, network_action, quantize, quantize_i32, sensed,
    DroneAction, SensorReading, TernaryNavNet, DEAD_BAND, MINUS_DEAD_BAND,
};
use crate::pheromone::{
    bears, covered_in, covering_counts_once, decays, field_evaporated, levels_above, measure,
    measured, nothing_to_follow, visits_weaken, PheromoneField, Target, DAMPENING, FAINT,
    VISIT_SHARE,
};
use crate::scalar::{comparison_is_numeric, Scalar, MINUS_ONE, ONE, ZERO};
use crate::ternary::{Trit, WeightBank};
use crate::warp::{polled, unanimous_ballot_is_followed, DroneVote, DroneWarp, FleetDirective};
use crate::world::{
    consistency_is_one_version, drones_at, mean_takes_in_every_drone_once, pictures_are_finite,
    versions, DroneState, DroneWorldCRDT, Timestamp,
};
use std::collections::HashSet;
use vstd::arithmetic::power2::pow2;
use vstd::prelude::*;

verus! {

// Numbers.

/// Comparing two finite numbers compares their values. Nothing exceeds what is no number, and
/// what is no number exceeds nothing.
pub proof fn exceeding_is_numeric(a: Scalar, b: Scalar, r: bool)
    requires
        call_ensures(Scalar::exceeds, (a, b), r),
    ensures
        a.is_finite() && b.is_finite() ==> (r <==> a.units() > b.units()),
        a.is_nan() || b.is_nan() ==> !r,
        !a.is_nan() && !b.is_nan() ==> (r <==> a.rank() > b.rank()),
{
    if a.is_finite() && b.is_finite() {
        comparison_is_numeric(a, b);
    }
}

/// Raising a number to a floor gives the larger of the two, the floor where there is no number
/// or no difference.
pub proof fn raising_gives_the_larger(a: Scalar, floor: Scalar, r: Scalar, exceeds: bool)
    requires
        call_ensures(Scalar::at_least, (a, floor), r),
        call_ensures(Scalar::exceeds, (a, floor), exceeds),
    ensures
        exceeds ==> r == a,
        !exceeds ==> r == floor,
{
}

/// Clamping gives the limit that a number crosses, and otherwise the number itself.
pub proof fn clamping_gives_the_crossed_limit(
    a: Scalar,
    low: Scalar,
    high: Scalar,
    r: Scalar,
    below: bool,
    above: bool,
)
    requires
        call_ensures(Scalar::clamp, (a, low, high), r),
        call_ensures(Scalar::exceeds, (low, a), below),
        call_ensures(Scalar::exceeds, (a, high), above),
    ensures
        below ==> r == low,
        !below && above ==> r == high,
        !below && !above ==> r == a,
{
}

/// Comparing a finite number with a count compares its value with that count.
pub proof fn exceeding_a_count_is_numeric(a: Scalar, n: u128, r: bool)
    requires
        call_ensures(Scalar::exceeds_count, (a, n), r),
    ensures
        a.is_finite() ==> (r <==> a.units() > n * pow2(149)),
        !a.is_finite() ==> (r <==> !a.is_nan() && a.rank() > 0),
{
}

/// A request is answered by the unit that it is made to.
pub proof fn requests_are_answered_by_the_unit<U: Fn(ArithOp) -> Scalar>(
    unit: U,
    op: ArithOp,
    r: Scalar,
)
    requires
        call_ensures(compute::<U>, (&unit, op), r),
    ensures
        call_ensures(unit, (op,), r),
{
}

/// Adding up one more term adds it to what the other terms add up to.
pub proof fn adding_up_goes_term_by_term<U: Fn(ArithOp) -> Scalar>(
    unit: U,
    terms: Vec<Scalar>,
    more: Vec<Scalar>,
    term: Scalar,
    total: Scalar,
    longer_total: Scalar,
)
    requires
        steady(unit),
        more@ == terms@.push(term),
        call_ensures(add_up::<U>, (&unit, &terms), total),
        call_ensures(add_up::<U>, (&unit, &more), longer_total),
    ensures
        answers(unit, ArithOp::Add(total, term), longer_total),
        terms@.len() == 0 ==> total == (Scalar { bits: ZERO }),
{
    sum_grows_term_by_term(unit, terms@, term, longer_total);
    let before = choose|before: Scalar| #[trigger]
        sums_to(unit, terms@, before) && answers(unit, ArithOp::Add(before, term), longer_total);
    sums_are_reproducible(unit, terms@, before, total);
    if terms@.len() == 0 {
        assert(terms@ =~= Seq::empty());
        sum_of_nothing_is_zero(unit, total);
    }
}

// Weights.

/// The bits of a weight read back as that weight, and its number is its code less one; of a
/// byte only the low two bits count, and both of them set stand for no weight.
pub proof fn trits_read_back(
    t: Trit,
    bits: u8,
    number: i8,
    back: Option<Trit>,
    b: u8,
    r: Option<Trit>,
)
    requires
        call_ensures(Trit::to_bits, (t,), bits),
        call_ensures(Trit::to_i8, (t,), number),
        call_ensures(Trit::from_bits, (bits,), back),
        call_ensures(Trit::from_bits, (b,), r),
    ensures
        back == Some(t),
        number == bits - 1,
        number == t.value(),
        r is None <==> b % 4 == 3,
        b % 4 == bits ==> r == Some(t),
{
}

/// A packed bank gives back every weight that was packed, and zero past the end.
pub proof fn packed_weights_read_back(
    trits: &[Trit],
    version: u32,
    bank: WeightBank,
    idx: usize,
    t: Trit,
    n: usize,
    used: usize,
)
    requires
        call_ensures(WeightBank::pack, (trits, version), bank),
        call_ensures(WeightBank::get, (&bank, idx), t),
        call_ensures(WeightBank::len, (&bank,), n),
        call_ensures(WeightBank::bytes_used, (&bank,), used),
    ensures
        idx < trits@.len() ==> t == trits@[idx as int],
        idx >= trits@.len() ==> t == Trit::Zero,
        n == trits@.len(),
        bank.version == version,
        used % 4 == 0,
        trits@.len() <= 4 * used < trits@.len() + 16,
{
}

/// Four-byte weights would take four bytes each.
pub proof fn unpacked_weights_take_four_bytes(bank: WeightBank, n: usize, bytes: usize)
    requires
        call_ensures(WeightBank::len, (&bank,), n),
        call_ensures(WeightBank::bytes_fp32_equivalent, (&bank,), bytes),
    ensures
        bytes == 4 * n,
{
}

// Navigation.

/// The sign of a sum decides the action, and the opposite sum calls for the opposite action.
pub proof fn signs_decide_actions(
    sum: i32,
    action: DroneAction,
    opposite: i32,
    opposite_action: DroneAction,
)
    requires
        call_ensures(DroneAction::from_trit_sum, (sum,), action),
        call_ensures(DroneAction::from_trit_sum, (opposite,), opposite_action),
        opposite == -sum,
    ensures
        action == DroneAction::Advance <==> sum > 0,
        action == DroneAction::AvoidObstacle <==> sum < 0,
        action == DroneAction::Hold <==> sum == 0,
        action == DroneAction::Advance <==> opposite_action == DroneAction::AvoidObstacle,
        action == DroneAction::Hold <==> opposite_action == DroneAction::Hold,
{
}

/// Readings are thresholded to one of three values: plus one above 0.15, minus one below -0.15,
/// otherwise zero. A larger reading never gives less. Sums are thresholded at zero.
pub proof fn thresholds_are_applied(x: Scalar, q: i8, y: Scalar, r: i8, sum: i32, p: i8)
    requires
        call_ensures(quantize, (x,), q),
        call_ensures(quantize, (y,), r),
        call_ensures(quantize_i32, (sum,), p),
    ensures
        -1 <= q <= 1,
        q == 1 <==> x.above(Scalar { bits: DEAD_BAND }),
        q == -1 <==> (Scalar { bits: MINUS_DEAD_BAND }).above(x),
        x.above(y) ==> q >= r,
        -1 <= p <= 1,
        p == 1 <==> sum > 0,
        p == -1 <==> sum < 0,
{
}

/// A network acts on four inputs by its own 56 weights alone, whatever their version: what it
/// does is the action with the highest of its three scores.
pub proof fn networks_act_by_their_weights(
    trits: [Trit; 56],
    version: u32,
    net: TernaryNavNet,
    inputs: [i8; 4],
    action: DroneAction,
)
    requires
        call_ensures(TernaryNavNet::new, (&trits, version), net),
        call_ensures(TernaryNavNet::forward, (&net, &inputs), action),
    ensures
        net.weights@ == trits@,
        net.weights.version == version,
        action == network_action(trits@, inputs@.map_values(|x: i8| x as int)),
{
}

/// A network acts on a reading as it acts on what it senses of that reading.
pub proof fn networks_infer_from_what_they_sense<U: Fn(ArithOp) -> Scalar>(
    unit: U,
    net: TernaryNavNet,
    s: SensorReading,
    action: DroneAction,
)
    requires
        call_ensures(TernaryNavNet::infer::<U>, (&net, &unit, &s), action),
    ensures
        exists|inputs: Seq<int>| #[trigger]
            sensed(unit, s, inputs) && action == network_action(net.weights@, inputs),
{
}

/// A network and its negative make the same of a reading.
pub proof fn negated_networks_infer_alike<U: Fn(ArithOp) -> Scalar>(
    unit: U,
    left: TernaryNavNet,
    right: TernaryNavNet,
    s: SensorReading,
    left_action: DroneAction,
    right_action: DroneAction,
)
    requires
        steady(unit),
        negated(left.weights@, right.weights@),
        call_ensures(TernaryNavNet::infer::<U>, (&left, &unit, &s), left_action),
        call_ensures(TernaryNavNet::infer::<U>, (&right, &unit, &s), right_action),
    ensures
        left_action == right_action,
{
    negated_networks_steer_alike(
        unit,
        s,
        left.weights@,
        right.weights@,
        left_action,
        right_action,
    );
}

// Pheromone.

/// A new field holds the given targets, and the level of each is its priority; past the last
/// target the level is zero.
pub proof fn new_fields_hold_the_priorities(
    targets: Vec<Target>,
    rate: Scalar,
    field: PheromoneField,
    idx: usize,
    level: Scalar,
)
    requires
        call_ensures(PheromoneField::new, (targets, rate), field),
        call_ensures(PheromoneField::pheromone_at, (&field, idx), level),
    ensures
        field.targets@ == targets@,
        field.pheromone@.len() == targets@.len(),
        field.evaporation_rate == rate,
        field.dampening == (Scalar { bits: DAMPENING }),
        idx < targets@.len() ==> level == targets@[idx as int].priority,
        idx >= targets@.len() ==> level == (Scalar { bits: ZERO }),
{
}

/// A tick changes levels only: each becomes what evaporation leaves of it, and the number of
/// levels above 0.01 is returned. With a unit and a rate that shrink, none grows.
pub proof fn ticks_evaporate<U: Fn(ArithOp) -> Scalar>(
    unit: U,
    field: &mut PheromoneField,
    active: usize,
    counted: usize,
    i: int,
)
    requires
        call_ensures(PheromoneField::tick::<U>, (field, &unit), active),
        call_ensures(
            levels_above,
            (&final(field).pheromone, Scalar { bits: FAINT }),
            counted,
        ),
        0 <= i < old(field).pheromone@.len(),
    ensures
        active == counted,
        field_evaporated(
            unit,
            old(field).evaporation_rate,
            old(field).pheromone@,
            final(field).pheromone@,
        ),
        final(field).targets == old(field).targets,
        final(field).evaporation_rate == old(field).evaporation_rate,
        final(field).dampening == old(field).dampening,
        is_level(final(field).pheromone@[i]),
        factors_shrink(unit) && decays(unit, old(field).evaporation_rate) && is_level(
            old(field).pheromone@[i],
        ) ==> !final(field).pheromone@[i].above(old(field).pheromone@[i]),
{
}

/// Levels above a threshold are counted place by place.
pub proof fn levels_are_counted_place_by_place(levels: Vec<Scalar>, threshold: Scalar, n: usize)
    requires
        call_ensures(levels_above, (&levels, threshold), n),
    ensures
        n == Set::new(|i: int| 0 <= i < levels@.len() && levels@[i].above(threshold)).len(),
{
}

/// A measurement gives the horizontal offset and the distance.
pub proof fn measuring_gives_offset_and_distance<U: Fn(ArithOp) -> Scalar>(
    unit: U,
    t: Target,
    x: Scalar,
    y: Scalar,
    r: (Scalar, Scalar),
)
    requires
        call_ensures(measure::<U>, (&unit, &t, x, y), r),
    ensures
        measured(unit, t, x, y, r.0, r.1),
        answers(unit, ArithOp::Sub(t.x, x), r.0),
{
}

/// A drone follows the strongest open target whose level lies above 0.01, the last of equally
/// strong ones, under its bearing; it follows none exactly where there is no such target.
pub proof fn drones_follow_the_strongest<U: Fn(ArithOp) -> Scalar>(
    unit: U,
    field: PheromoneField,
    x: Scalar,
    y: Scalar,
    r: Option<(usize, Scalar)>,
    j: int,
)
    requires
        call_ensures(PheromoneField::sample_gradient::<U>, (&field, &unit, x, y), r),
        0 <= j < field.targets@.len(),
        !field.targets@[j].covered,
        j < field.pheromone@.len(),
    ensures
        r is None ==> !field.pheromone@[j].above(Scalar { bits: FAINT }),
        r is Some ==> exists|i: int|
            0 <= i < field.targets@.len() && !(#[trigger] field.targets@[i]).covered
                && field.pheromone@[i].above(Scalar { bits: FAINT }),
        r matches Some((idx, bearing)) ==> {
            &&& idx < field.targets@.len()
            &&& !field.targets@[idx as int].covered
            &&& field.pheromone@[idx as int].above(Scalar { bits: FAINT })
            &&& !field.pheromone@[j].above(field.pheromone@[idx as int])
            &&& j > idx && field.pheromone@[j].above(Scalar { bits: FAINT })
                ==> field.pheromone@[idx as int].above(field.pheromone@[j])
            &&& bears(unit, field.targets@[idx as int], x, y, bearing)
            &&& !(Scalar { bits: MINUS_ONE }).above(bearing)
            &&& !bearing.above(Scalar { bits: ONE })
        },
{
    assert(r is None <==> nothing_to_follow(field.targets@, field.pheromone@));
}

/// Covering a target counts it once, dampens it by the field's factor, concerns no other
/// target, and no drone follows it any more. With a unit and a factor that shrink, no level
/// grows.
pub proof fn covering_takes_a_target_out<U: Fn(ArithOp) -> Scalar>(
    unit: U,
    field: &mut PheromoneField,
    target_idx: usize,
    before: usize,
    after: usize,
    x: Scalar,
    y: Scalar,
    r: Option<(usize, Scalar)>,
    j: int,
)
    requires
        target_idx < old(field).targets@.len() ==> target_idx < old(field).pheromone@.len(),
        call_ensures(PheromoneField::covered_count, (&*old(field),), before),
        call_ensures(PheromoneField::cover::<U>, (field, &unit, target_idx), ()),
        call_ensures(PheromoneField::covered_count, (&*final(field),), after),
        call_ensures(
            PheromoneField::sample_gradient::<U>,
            (&*final(field), &unit, x, y),
            r,
        ),
        0 <= j < old(field).targets@.len(),
        0 <= j < old(field).pheromone@.len(),
    ensures
        final(field).targets@.len() == old(field).targets@.len(),
        target_idx < old(field).targets@.len() ==> {
            &&& after == before + (if old(field).targets@[target_idx as int].covered {
                0int
            } else {
                1
            })
            &&& final(field).targets@[target_idx as int].covered
            &&& answers(
                unit,
                ArithOp::Mul(old(field).pheromone@[target_idx as int], old(field).dampening),
                final(field).pheromone@[target_idx as int],
            )
            &&& r matches Some((idx, _)) ==> idx != target_idx
        },
        target_idx >= old(field).targets@.len() ==> after == before,
        j != target_idx ==> final(field).targets@[j] == old(field).targets@[j]
            && final(field).pheromone@[j] == old(field).pheromone@[j],
        factors_shrink(unit) && is_share(old(field).dampening) && is_level(
            old(field).pheromone@[j],
        ) ==> !final(field).pheromone@[j].above(old(field).pheromone@[j]),
        final(field).evaporation_rate == old(field).evaporation_rate,
        final(field).dampening == old(field).dampening,
{
    if target_idx < old(field).targets@.len() {
        covering_counts_once(old(field).targets@, target_idx as int);
    }
}

/// Visiting changes the level of an open target only, and covers nothing. What is left of that
/// level is its product with one less 0.3 times the dampening; with a unit and a dampening that
/// shrink, no level grows.
pub proof fn visiting_weakens_open_targets<U: Fn(ArithOp) -> Scalar>(
    unit: U,
    field: &mut PheromoneField,
    target_idx: usize,
    loss: Scalar,
    factor: Scalar,
    j: int,
)
    requires
        steady(unit),
        call_ensures(PheromoneField::visit::<U>, (field, &unit, target_idx), ()),
        answers(
            unit,
            ArithOp::Mul(old(field).dampening, Scalar { bits: VISIT_SHARE }),
            loss,
        ),
        answers(unit, ArithOp::Sub(Scalar { bits: ONE }, loss), factor),
        0 <= j < old(field).targets@.len(),
        0 <= j < old(field).pheromone@.len(),
        target_idx < old(field).pheromone@.len(),
    ensures
        final(field).targets == old(field).targets,
        final(field).evaporation_rate == old(field).evaporation_rate,
        final(field).dampening == old(field).dampening,
        final(field).pheromone@.len() == old(field).pheromone@.len(),
        j == target_idx && !old(field).targets@[j].covered ==> answers(
            unit,
            ArithOp::Mul(old(field).pheromone@[j], factor),
            final(field).pheromone@[j],
        ),
        j != target_idx || old(field).targets@[j].covered ==> final(field).pheromone@[j]
            == old(field).pheromone@[j],
        factors_shrink(unit) && visits_weaken(unit, old(field).dampening) && is_level(
            old(field).pheromone@[j],
        ) ==> !final(field).pheromone@[j].above(old(field).pheromone@[j]),
{
}

/// Covered targets are counted place by place, and the total is the sum of all levels from the
/// first to the last.
pub proof fn fields_are_counted_and_added_up<U: Fn(ArithOp) -> Scalar>(
    unit: U,
    field: PheromoneField,
    n: usize,
    total: Scalar,
)
    requires
        call_ensures(PheromoneField::covered_count, (&field,), n),
        call_ensures(PheromoneField::total_pheromone::<U>, (&field, &unit), total),
    ensures
        n == Set::new(
            |i: int| 0 <= i < field.targets@.len() && field.targets@[i].covered,
        ).len(),
        sums_to(unit, field.pheromone@, total),
{
}

// Ballots.

/// A new warp has as many threads as asked for, 32 at most, and all vote to go on: its first
/// ballot says so, unless it has no threads.
pub proof fn new_warps_go_on(
    warp_id: u32,
    size: usize,
    fresh: DroneWarp,
    warp: &mut DroneWarp,
    directive: FleetDirective,
    i: int,
)
    requires
        call_ensures(DroneWarp::new, (warp_id, size), fresh),
        *old(warp) == fresh,
        call_ensures(DroneWarp::execute_ballot, (warp,), directive),
    ensures
        fresh.warp_id == warp_id,
        fresh.cycles == 0,
        fresh.last_directive is None,
        fresh.votes@.len() == (if size <= 32 {
            size as int
        } else {
            32
        }),
        0 <= i < fresh.votes@.len() ==> fresh.votes@[i] == DroneVote::ContinueMission,
        size > 0 ==> directive == FleetDirective::ContinueMission,
        size == 0 ==> directive == FleetDirective::AbortReturn,
{
    let votes = fresh.votes@;
    assert(polled(votes) =~= votes);
    if size > 0 {
        unanimous_ballot_is_followed(votes, DroneVote::ContinueMission);
    }
}

/// A vote is cast in one thread, if it exists, and nothing else changes.
pub proof fn votes_are_cast_in_one_thread(
    warp: &mut DroneWarp,
    thread: usize,
    vote: DroneVote,
    i: int,
)
    requires
        call_ensures(DroneWarp::set_vote, (warp, thread, vote), ()),
        0 <= i < old(warp).votes@.len(),
    ensures
        final(warp).votes@.len() == old(warp).votes@.len(),
        i == thread ==> final(warp).votes@[i] == vote,
        i != thread ==> final(warp).votes@[i] == old(warp).votes@[i],
        final(warp).warp_id == old(warp).warp_id,
        final(warp).cycles == old(warp).cycles,
        final(warp).last_directive == old(warp).last_directive,
{
}

/// A ballot is decided by the numbers of votes among the first 32 threads, costs 16 cycles, and
/// leaves the votes as they are.
pub proof fn ballots_follow_the_votes(warp: &mut DroneWarp, directive: FleetDirective)
    requires
        call_ensures(DroneWarp::execute_ballot, (warp,), directive),
    ensures
        ({
            let n: int = if old(warp).votes@.len() <= 32 {
                old(warp).votes@.len() as int
            } else {
                32
            };
            let votes = old(warp).votes@.take(n).to_multiset();
            let abort = 3 * votes.count(DroneVote::AbortReturn) >= n;
            let more_regroup = votes.count(DroneVote::Regroup) > votes.count(
                DroneVote::ContinueMission,
            );
            &&& directive == FleetDirective::AbortReturn <==> abort
            &&& directive == FleetDirective::Regroup <==> !abort && more_regroup
            &&& directive == FleetDirective::ContinueMission <==> !abort && !more_regroup
        }),
        final(warp).last_directive == Some(directive),
        final(warp).cycles == old(warp).cycles + 16,
        final(warp).votes@ == old(warp).votes@,
        final(warp).warp_id == old(warp).warp_id,
{
}

/// Votes stand for weights: going on for plus one, regrouping for zero, aborting for minus one.
pub proof fn votes_stand_for_weights(vote: DroneVote, t: Trit)
    requires
        call_ensures(DroneVote::to_trit, (vote,), t),
    ensures
        t.value() == 1 <==> vote == DroneVote::ContinueMission,
        t.value() == 0 <==> vote == DroneVote::Regroup,
        t.value() == -1 <==> vote == DroneVote::AbortReturn,
{
}

// The picture of the fleet.

/// A drone's update is what a read of that drone then gives back, unless a state as recent was
/// known; reads of other drones stay the same, and one drone more is known exactly where it was
/// not known before.
pub proof fn reads_give_back_the_latest_write(
    world: &mut DroneWorldCRDT,
    state: DroneState,
    ts: Timestamp,
    id: u32,
    before: Option<&DroneState>,
    after: Option<&DroneState>,
    count_before: usize,
    count_after: usize,
)
    requires
        call_ensures(DroneWorldCRDT::get, (&*old(world), id), before),
        call_ensures(DroneWorldCRDT::drone_count, (&*old(world),), count_before),
        call_ensures(DroneWorldCRDT::upsert, (world, state, ts), ()),
        call_ensures(DroneWorldCRDT::get, (&*final(world), id), after),
        call_ensures(DroneWorldCRDT::drone_count, (&*final(world),), count_after),
    ensures
        id != state.drone_id ==> after == before,
        id == state.drone_id && before is None ==> after == Some(&state) && count_after
            == count_before + 1,
        id == state.drone_id && before is Some ==> count_after == count_before,
        id == state.drone_id && before is Some && old(world)@[id].1.0 < ts.0 ==> after == Some(
            &state,
        ),
        id == state.drone_id && before is Some && old(world)@[id].1.0 >= ts.0 ==> after == before,
{
    pictures_are_finite(old(world)@);
    pictures_are_finite(final(world)@);
    if old(world)@.contains_key(state.drone_id) {
        assert(final(world)@.dom() =~= old(world)@.dom());
    } else {
        assert(final(world)@.dom() =~= old(world)@.dom().insert(state.drone_id));
    }
}

/// After a merge, a read gives back the more recent of the two states, the own one where both
/// are equally recent; a drone is known exactly where one side knew it.
pub proof fn merged_reads_give_back_the_more_recent(
    world: &mut DroneWorldCRDT,
    other: DroneWorldCRDT,
    id: u32,
    own: Option<&DroneState>,
    theirs: Option<&DroneState>,
    after: Option<&DroneState>,
)
    requires
        call_ensures(DroneWorldCRDT::get, (&*old(world), id), own),
        call_ensures(DroneWorldCRDT::get, (&other, id), theirs),
        call_ensures(DroneWorldCRDT::merge, (world, &other), ()),
        call_ensures(DroneWorldCRDT::get, (&*final(world), id), after),
    ensures
        own is None ==> after == theirs,
        theirs is None ==> after == own,
        own is Some && theirs is Some && old(world)@[id].1.0 >= other@[id].1.0 ==> after == own,
        own is Some && theirs is Some && old(world)@[id].1.0 < other@[id].1.0 ==> after == theirs,
{
}

/// An empty picture knows no drone.
pub proof fn empty_pictures_know_nobody(
    world: DroneWorldCRDT,
    id: u32,
    r: Option<&DroneState>,
    count: usize,
)
    requires
        call_ensures(DroneWorldCRDT::default, (), world),
        call_ensures(DroneWorldCRDT::get, (&world, id), r),
        call_ensures(DroneWorldCRDT::drone_count, (&world,), count),
    ensures
        r is None,
        count == 0,
{
}

/// Drones are counted once each: those of which a read gives back a state.
pub proof fn drones_are_counted_once(
    world: DroneWorldCRDT,
    count: usize,
    id: u32,
    r: Option<&DroneState>,
)
    requires
        call_ensures(DroneWorldCRDT::drone_count, (&world,), count),
        call_ensures(DroneWorldCRDT::get, (&world, id), r),
    ensures
        r is Some <==> world@.contains_key(id),
        r matches Some(state) ==> *state == world@[id].0,
        count == Set::new(|k: u32| world@.contains_key(k)).len(),
{
    assert(world@.dom() =~= Set::new(|k: u32| world@.contains_key(k)));
}

/// Versions are consistent exactly where at most one is in use; claims and versions in use are
/// those that reads of single drones show.
pub proof fn consistency_is_what_reads_show(
    world: DroneWorldCRDT,
    consistent: bool,
    versions: HashSet<u32>,
    targets: HashSet<u32>,
    id: u32,
    r: Option<&DroneState>,
)
    requires
        call_ensures(DroneWorldCRDT::weight_version_consistent, (&world,), consistent),
        call_ensures(DroneWorldCRDT::weight_versions, (&world,), versions),
        call_ensures(DroneWorldCRDT::assigned_targets, (&world,), targets),
        call_ensures(DroneWorldCRDT::get, (&world, id), r),
    ensures
        consistent <==> versions@.len() <= 1,
        r matches Some(state) ==> {
            &&& versions@.contains(state.weight_version)
            &&& state.active_target matches Some(target) ==> targets@.contains(target)
        },
        forall|version: u32| #[trigger]
            versions@.contains(version) ==> exists|k: u32| #[trigger]
                world@.contains_key(k) && world@[k].0.weight_version == version,
        forall|target: u32| #[trigger]
            targets@.contains(target) ==> exists|k: u32| #[trigger]
                world@.contains_key(k) && world@[k].0.active_target == Some(target),
{
    consistency_is_one_version(world@);
}

/// The mean battery takes in every known drone once, and is one where none is known.
pub proof fn means_take_in_every_drone<U: Fn(ArithOp) -> Scalar>(
    unit: U,
    world: DroneWorldCRDT,
    mean: Scalar,
    count: usize,
)
    requires
        call_ensures(DroneWorldCRDT::mean_battery::<U>, (&world, &unit), mean),
        call_ensures(DroneWorldCRDT::drone_count, (&world,), count),
    ensures
        count == 0 ==> mean == (Scalar { bits: ONE }),
        count > 0 ==> exists|terms: Seq<Scalar>, total: Scalar, n: Scalar|
            {
                &&& forall|v: Scalar| #[trigger]
                    terms.to_multiset().count(v) == drones_at(world@, v).len()
                &&& terms.len() == count
                &&& #[trigger] sums_to(unit, terms, total)
                &&& #[trigger] answers(unit, ArithOp::Count(count as u64), n)
                &&& answers(unit, ArithOp::Div(total, n), mean)
            },
{
    mean_takes_in_every_drone_once(unit, world@, mean);
}

// The conservation check.

/// The places at which a target is covered, has pheromone above 0.05 or is assigned to a drone.
pub open spec fn kept_places(field: PheromoneField, world: DroneWorldCRDT) -> Set<int> {
    Set::new(
        |i: int|
            0 <= i < field.targets@.len() && (field.targets@[i].covered || (i
                < field.pheromone@.len() && field.pheromone@[i].above(
                Scalar { bits: REACHABLE },
            )) || exists|id: u32| #[trigger]
                world@.contains_key(id) && world@[id].0.active_target == Some(
                    field.targets@[i].id,
                )),
    )
}

/// A check reports, in this order: a claim on a target that does not exist; too few targets
/// kept, by the unit's numbers; more than one weight version; or that all is well.
pub proof fn checks_report_what_is_wrong<U: Fn(ArithOp) -> Scalar>(
    unit: U,
    min: Scalar,
    verifier: ConservationVerifier,
    field: PheromoneField,
    world: DroneWorldCRDT,
    result: VerificationResult,
    consistent: bool,
    covered: usize,
    covered_n: Scalar,
    total_n: Scalar,
    fraction: Scalar,
    required: Scalar,
)
    requires
        steady(unit),
        call_ensures(ConservationVerifier::new, (min,), verifier),
        call_ensures(
            ConservationVerifier::verify::<U>,
            (&verifier, &unit, &field, &world),
            result,
        ),
        call_ensures(DroneWorldCRDT::weight_version_consistent, (&world,), consistent),
        call_ensures(PheromoneField::covered_count, (&field,), covered),
        answers(unit, ArithOp::Count(covered as u64), covered_n),
        answers(unit, ArithOp::Count(field.targets@.len() as u64), total_n),
        answers(unit, ArithOp::Div(covered_n, total_n), fraction),
        answers(unit, ArithOp::Mul(total_n, min), required),
    ensures
        ({
            let stray = exists|id: u32| #[trigger]
                world@.contains_key(id) && (world@[id].0.active_target matches Some(claim)
                    && forall|i: int|
                    0 <= i < field.targets@.len() ==> (#[trigger] field.targets@[i]).id != claim);
            let short = field.targets@.len() > 0 && min.above(fraction) && required.above_count(
                kept_places(field, world).len() as int,
            );
            &&& result is AssignmentOverflow <==> stray
            &&& result is CoverageDeficit <==> !stray && short
            &&& result is VersionSplitBrain <==> !stray && !short && !consistent
            &&& result is Conserved <==> !stray && !short && consistent
            &&& result matches VerificationResult::CoverageDeficit { uncovered, total } ==> {
                &&& total == field.targets@.len()
                &&& uncovered == total - covered
            }
            &&& result matches VerificationResult::VersionSplitBrain { versions_seen } ==> {
                &&& versions_seen >= 2
                &&& versions_seen == Set::new(
                    |version: u32|
                        exists|id: u32| #[trigger]
                            world@.contains_key(id) && world@[id].0.weight_version == version,
                ).len()
            }
        }),
{
    accounted_targets_are_counted(field.targets@, field.pheromone@, world@);
    consistency_is_one_version(world@);
    stray_claims_are_those_of_drones(field.targets@, world@);
    assert(versions(world@) =~= Set::new(
        |version: u32|
            exists|id: u32| #[trigger]
                world@.contains_key(id) && world@[id].0.weight_version == version,
    ));
}

// Copies.

/// Copies are copies: of weights, networks and fields.
pub proof fn copies_are_copies(
    bank: WeightBank,
    bank_copy: WeightBank,
    net: TernaryNavNet,
    net_copy: TernaryNavNet,
    field: PheromoneField,
    field_copy: PheromoneField,
)
    requires
        call_ensures(WeightBank::clone, (&bank,), bank_copy),
        call_ensures(TernaryNavNet::clone, (&net,), net_copy),
        call_ensures(PheromoneField::clone, (&field,), field_copy),
    ensures
        bank_copy@ == bank@,
        bank_copy.version == bank.version,
        net_copy.weights@ == net.weights@,
        net_copy.weights.version == net.weights.version,
        field_copy.targets@ == field.targets@,
        field_copy.pheromone@ == field.pheromone@,
        field_copy.evaporation_rate == field.evaporation_rate,
        field_copy.dampening == field.dampening,
{
}

/// Two banks compare equal exactly where they were packed from the same weights under the same
/// version.
pub proof fn packed_banks_compare_by_value(
    left: &[Trit],
    left_version: u32,
    left_bank: WeightBank,
    right: &[Trit],
    right_version: u32,
    right_bank: WeightBank,
    equal: bool,
)
    requires
        call_ensures(WeightBank::pack, (left, left_version), left_bank),
        call_ensures(WeightBank::pack, (right, right_version), right_bank),
        call_ensures(WeightBank::eq, (&left_bank, &right_bank), equal),
    ensures
        equal <==> left@ == right@ && left_version == right_version,
{
}

// Missions.

/// Two missions, with whatever drones, targets and ticks: where both cover as many targets out
/// of as many, both report the same fraction.
pub proof fn missions_with_equal_coverage_report_equal_fractions<U: Fn(ArithOp) -> Scalar>(
    unit: U,
    left_drones: usize,
    left_targets: Vec<Target>,
    left_ticks: usize,
    left: MissionReport,
    right_drones: usize,
    right_targets: Vec<Target>,
    right_ticks: usize,
    right: MissionReport,
)
    requires
        steady(unit),
        call_ensures(run_mission::<U>, (&unit, left_drones, left_targets, left_ticks), left),
        call_ensures(
            run_mission::<U>,
            (&unit, right_drones, right_targets, right_ticks),
            right,
        ),
        left.final_covered == right.final_covered,
        left.n_targets == right.n_targets,
    ensures
        left.coverage_fraction == right.coverage_fraction,
{
    let a = choose|fleets: Seq<FleetView>|
        {
            &&& #[trigger] mission_flown(
                unit,
                left_drones,
                left_targets@,
                left_ticks as int,
                fleets,
            )
            &&& mission_reported(unit, left_drones, left_targets@, fleets, left)
        };
    let b = choose|fleets: Seq<FleetView>|
        {
            &&& #[trigger] mission_flown(
                unit,
                right_drones,
                right_targets@,
                right_ticks as int,
                fleets,
            )
            &&& mission_reported(unit, right_drones, right_targets@, fleets, right)
        };
    equal_coverage_means_equal_fraction(
        unit,
        left_drones,
        left_targets@,
        a,
        left,
        right_drones,
        right_targets@,
        b,
        right,
    );
}

/// Fewer ticks only cut a mission off: its records are the first records of the longer mission.
/// With as many ticks, both missions report the same.
pub proof fn ticks_only_cut_missions_off<U: Fn(ArithOp) -> Scalar>(
    unit: U,
    n_drones: usize,
    targets: Vec<Target>,
    fewer: usize,
    more: usize,
    short: MissionReport,
    long: MissionReport,
)
    requires
        steady(unit),
        fewer <= more,
        call_ensures(run_mission::<U>, (&unit, n_drones, targets, fewer), short),
        call_ensures(run_mission::<U>, (&unit, n_drones, targets, more), long),
    ensures
        short.ticks_elapsed == (if fewer <= long.ticks_elapsed {
            fewer
        } else {
            long.ticks_elapsed
        }),
        short.coverage_per_tick@ == long.coverage_per_tick@.take(short.ticks_elapsed as int),
        short.directives@ == long.directives@.take(short.ticks_elapsed as int),
        short.final_covered <= long.final_covered,
        fewer == more ==> short.final_covered == long.final_covered && short.coverage_fraction
            == long.coverage_fraction,
{
    let a = choose|fleets: Seq<FleetView>|
        {
            &&& #[trigger] mission_flown(unit, n_drones, targets@, fewer as int, fleets)
            &&& mission_reported(unit, n_drones, targets@, fleets, short)
        };
    let b = choose|fleets: Seq<FleetView>|
        {
            &&& #[trigger] mission_flown(unit, n_drones, targets@, more as int, fleets)
            &&& mission_reported(unit, n_drones, targets@, fleets, long)
        };
    shorter_report_is_a_prefix(
        unit,
        n_drones,
        targets@,
        fewer as int,
        more as int,
        a,
        b,
        short,
        long,
    );
    if fewer == more {
        mission_is_reproducible(unit, n_drones, targets@, fewer as int, a, b);
        reports_are_reproducible(unit, n_drones, targets@, a, short, long);
    }
}

/// A report tells of the mission that was flown: its own numbers agree with each other, with the
/// arguments, and with when missions end.
pub proof fn reports_agree_with_themselves<U: Fn(ArithOp) -> Scalar>(
    unit: U,
    n_drones: usize,
    targets: Vec<Target>,
    ticks: usize,
    report: MissionReport,
    t: int,
)
    requires
        call_ensures(run_mission::<U>, (&unit, n_drones, targets, ticks), report),
        0 <= t < report.ticks_elapsed,
    ensures
        exists|fleets: Seq<FleetView>|
            {
                &&& #[trigger] mission_flown(unit, n_drones, targets@, ticks as int, fleets)
                &&& mission_reported(unit, n_drones, targets@, fleets, report)
            },
        report.n_drones == n_drones,
        report.n_targets == targets@.len(),
        report.ticks_elapsed <= ticks,
        report.coverage_per_tick@.len() == report.ticks_elapsed,
        report.directives@.len() == report.ticks_elapsed,
        report.final_covered == report.coverage_per_tick@.last(),
        covered_in(targets@) <= report.coverage_per_tick@[t] <= report.final_covered,
        report.final_covered <= report.n_targets,
        t < report.ticks_elapsed - 1 ==> report.directives@[t] != FleetDirective::AbortReturn
            && report.coverage_per_tick@[t] < report.n_targets,
        report.ticks_elapsed < ticks ==> report.directives@.last() == FleetDirective::AbortReturn
            || report.final_covered == report.n_targets,
        exists|covered_n: Scalar, targets_n: Scalar|
            {
                &&& #[trigger] answers(
                    unit,
                    ArithOp::Count(report.final_covered as u64),
                    covered_n,
                )
                &&& #[trigger] answers(unit, ArithOp::Count(report.n_targets as u64), targets_n)
                &&& answers(unit, ArithOp::Div(covered_n, targets_n), report.coverage_fraction)
            },
{
    let coverage = report.coverage_per_tick@;
    assert(coverage[0] <= coverage[t]);
    assert(coverage[t] <= coverage[report.ticks_elapsed - 1]);
}

} // verus!
