//! The safety gate around a weight hotswap: targets must stay accounted for.
use crate::arith::{
    answers, compute, counts_exactly, steady, takes_all, treats_one_as_one, ArithOp,
};
use crate::pheromone::{
    covered_in, covered_targets_are_counted, with_covered, PheromoneField, Target,
};
use crate::scalar::{comparison_is_numeric, Scalar, ONE};
use crate::world::{
    assigned, consistency_is_one_version, versions, DroneState, DroneWorldCRDT, Timestamp,
};
use std::collections::HashSet;
use vstd::arithmetic::power2::{lemma_pow2_pos, pow2};
use vstd::prelude::*;
use vstd::seq_lib::seq_to_set_is_finite;
use vstd::set_lib::lemma_len_subset;

verus! {

/// Bit pattern of 0.05: a target with more pheromone than this can still be reached.
pub const REACHABLE: u32 = 0x3d4c_cccd;

/// What a conservation check finds.
#[derive(Debug, Clone, Copy, PartialEq, Eq, Structural)]
pub enum VerificationResult {
    /// Every check holds.
    Conserved,
    /// Too few targets are accounted for.
    CoverageDeficit { uncovered: usize, total: usize },
    /// Drones claim more targets than exist: some claimed id is that of no target.
    AssignmentOverflow,
    /// Weight versions are inconsistent after a hotswap.
    VersionSplitBrain { versions_seen: usize },
}

/// Some drone is assigned a target id that does not exist.
pub open spec fn overclaimed(
    targets: Seq<Target>,
    entries: Map<u32, (DroneState, Timestamp)>,
) -> bool {
    exists|claim: u32| #[trigger]
        assigned(entries).contains(claim) && forall|i: int|
            0 <= i < targets.len() ==> claim != (#[trigger] targets[i]).id
}

/// Whether some claim is the id of no target.
fn has_stray_claim(targets: &Vec<Target>, claims: &HashSet<u32>) -> (stray: bool)
    ensures
        stray == exists|claim: u32| #[trigger]
            claims@.contains(claim) && forall|i: int|
                0 <= i < targets@.len() ==> claim != (#[trigger] targets@[i]).id,
{
    let mut ids: HashSet<u32> = HashSet::new();
    let mut i: usize = 0;
    while i < targets.len()
        invariant
            i <= targets@.len(),
            forall|k: int| 0 <= k < i ==> ids@.contains((#[trigger] targets@[k]).id),
            forall|id: u32| #[trigger]
                ids@.contains(id) ==> exists|k: int|
                    0 <= k < targets@.len() && (#[trigger] targets@[k]).id == id,
        decreases targets@.len() - i,
    {
        ids.insert(targets[i].id);
        i = i + 1;
    }
    let mut stray: bool = false;
    for claim in it: claims.iter()
        invariant
            stray ==> exists|c: u32| #[trigger] claims@.contains(c) && !ids@.contains(c),
            !stray ==> forall|k: int|
                0 <= k < it.index() ==> ids@.contains(*(#[trigger] it.seq()[k])),
    {
        if !ids.contains(claim) {
            assert(claims@.contains(*claim));
            stray = true;
        }
    }
    stray
}

/// The target at `i` is not lost: it is covered, or its pheromone keeps it within reach,
/// or it is among the claims of the drones.
pub open spec fn accounted_for(
    targets: Seq<Target>,
    levels: Seq<Scalar>,
    claims: Set<u32>,
    i: int,
) -> bool {
    ||| targets[i].covered
    ||| i < levels.len() && levels[i].above(Scalar { bits: REACHABLE })
    ||| claims.contains(targets[i].id)
}

/// How many targets are covered, within reach or claimed, each counted once.
pub open spec fn accounted_with(
    targets: Seq<Target>,
    levels: Seq<Scalar>,
    claims: Set<u32>,
) -> nat
    decreases targets.len(),
{
    if targets.len() == 0 {
        0
    } else {
        accounted_with(targets.drop_last(), levels, claims) + (if accounted_for(
            targets,
            levels,
            claims,
            targets.len() - 1,
        ) {
            1nat
        } else {
            0
        })
    }
}

/// How many targets are accounted for: covered, within reach of the pheromone, or
/// assigned to a drone.
pub open spec fn accounted(
    targets: Seq<Target>,
    levels: Seq<Scalar>,
    entries: Map<u32, (DroneState, Timestamp)>,
) -> nat {
    accounted_with(targets, levels, assigned(entries))
}

/// Counts the targets that are covered, within reach or claimed.
fn count_accounted(field: &PheromoneField, claims: &HashSet<u32>) -> (n: usize)
    ensures
        n == accounted_with(field.targets@, field.pheromone@, claims@),
        n == Set::new(
            |i: int|
                0 <= i < field.targets@.len() && (field.targets@[i].covered || (i
                    < field.pheromone@.len() && field.pheromone@[i].above(
                    Scalar { bits: REACHABLE },
                )) || claims@.contains(field.targets@[i].id)),
        ).len(),
{
    let mut n: usize = 0;
    let mut i: usize = 0;
    assert(field.targets@.take(0) =~= Seq::<Target>::empty());
    while i < field.targets.len()
        invariant
            i <= field.targets@.len(),
            n == accounted_with(field.targets@.take(i as int), field.pheromone@, claims@),
            n <= i,
        decreases field.targets@.len() - i,
    {
        assert(field.targets@.take(i + 1).drop_last() =~= field.targets@.take(i as int));
        if field.targets[i].covered || (i < field.pheromone.len() && field.pheromone[i].exceeds(
            Scalar { bits: REACHABLE },
        )) || claims.contains(&field.targets[i].id) {
            n = n + 1;
        }
        i = i + 1;
    }
    assert(field.targets@.take(i as int) =~= field.targets@);
    proof {
        lemma_accounted_with_is_a_count(field.targets@, field.pheromone@, claims@);
    }
    n
}

/// `short` says whether `covered` and `accounted` fall short of the fraction `min` of
/// `total`: the covered fraction lies below `min`, and `accounted` lies below `total`
/// times `min`, that is, below its ceiling. Of no targets nothing can fall short.
pub open spec fn falls_short<U: Fn(ArithOp) -> Scalar>(
    unit: U,
    min: Scalar,
    covered: nat,
    accounted: nat,
    total: nat,
    short: bool,
) -> bool {
    if total == 0 {
        !short
    } else {
        exists|covered_n: Scalar, total_n: Scalar, fraction: Scalar, required: Scalar|
            {
                &&& #[trigger] answers(unit, ArithOp::Count(covered as u64), covered_n)
                &&& #[trigger] answers(unit, ArithOp::Count(total as u64), total_n)
                &&& #[trigger] answers(unit, ArithOp::Div(covered_n, total_n), fraction)
                &&& #[trigger] answers(unit, ArithOp::Mul(total_n, min), required)
                &&& short == (min.above(fraction) && required.above_count(accounted as int))
            }
    }
}

/// `result` is the verdict on the given targets, pheromone levels and drones. A claim
/// on no target is reported first, then a deficit, then a split brain.
pub open spec fn verdict<U: Fn(ArithOp) -> Scalar>(
    unit: U,
    min: Scalar,
    targets: Seq<Target>,
    levels: Seq<Scalar>,
    entries: Map<u32, (DroneState, Timestamp)>,
    result: VerificationResult,
) -> bool {
    if overclaimed(targets, entries) {
        result == VerificationResult::AssignmentOverflow
    } else {
        exists|short: bool|
            {
                &&& #[trigger] falls_short(
                    unit,
                    min,
                    covered_in(targets),
                    accounted(targets, levels, entries),
                    targets.len(),
                    short,
                )
                &&& if short {
                    &&& result matches VerificationResult::CoverageDeficit { uncovered, total }
                    &&& uncovered == targets.len() - covered_in(targets)
                    &&& total == targets.len()
                } else if versions(entries).len() > 1 {
                    &&& result matches VerificationResult::VersionSplitBrain { versions_seen }
                    &&& versions_seen == versions(entries).len()
                } else {
                    result == VerificationResult::Conserved
                }
            }
    }
}

/// Checks the fleet before and after a weight hotswap.
///
/// The required fraction of all targets must be covered, still within reach, or assigned
/// to a drone; no drone may be assigned a target id that does not exist; and all drones
/// must run the same weights, whether or not there are targets.
#[derive(Debug, Clone, Copy)]
pub struct ConservationVerifier {
    pub min_coverage_fraction: Scalar,
}

impl ConservationVerifier {
    pub fn new(min_coverage_fraction: Scalar) -> (verifier: Self)
        ensures
            verifier.min_coverage_fraction == min_coverage_fraction,
    {
        ConservationVerifier { min_coverage_fraction }
    }

    /// Gives the verdict on a field and the drones working it.
    pub fn verify<U: Fn(ArithOp) -> Scalar>(
        &self,
        unit: &U,
        field: &PheromoneField,
        world: &DroneWorldCRDT,
    ) -> (result: VerificationResult)
        requires
            takes_all(*unit),
        ensures
            verdict(
                *unit,
                self.min_coverage_fraction,
                field.targets@,
                field.pheromone@,
                world@,
                result,
            ),
            result is AssignmentOverflow <==> exists|id: u32| #[trigger]
                world@.contains_key(id) && (world@[id].0.active_target matches Some(claim)
                    && forall|i: int|
                    0 <= i < field.targets@.len() ==> (#[trigger] field.targets@[i]).id != claim),
            result matches VerificationResult::CoverageDeficit { uncovered, total } ==> {
                &&& total == field.targets@.len()
                &&& uncovered == total - Set::new(
                    |i: int| 0 <= i < field.targets@.len() && field.targets@[i].covered,
                ).len()
            },
            result is Conserved ==> forall|a: u32, b: u32| #[trigger]
                world@.contains_key(a) && #[trigger] world@.contains_key(b)
                    ==> world@[a].0.weight_version == world@[b].0.weight_version,
            result matches VerificationResult::VersionSplitBrain { versions_seen } ==> {
                &&& versions_seen == versions(world@).len()
                &&& versions_seen >= 2
            },
    {
        proof {
            consistency_is_one_version(world@);
            covered_targets_are_counted(field.targets@);
            stray_claims_are_those_of_drones(field.targets@, world@);
        }
        let total: usize = field.targets.len();
        let covered: usize = field.covered_count();
        let claims = world.assigned_targets();
        if has_stray_claim(&field.targets, &claims) {
            return VerificationResult::AssignmentOverflow;
        }
        let counted: usize = count_accounted(field, &claims);
        let short: bool = total > 0 && {
            let covered_n = compute(unit, ArithOp::Count(covered as u64));
            let total_n = compute(unit, ArithOp::Count(total as u64));
            let fraction = compute(unit, ArithOp::Div(covered_n, total_n));
            let required = compute(unit, ArithOp::Mul(total_n, self.min_coverage_fraction));
            self.min_coverage_fraction.exceeds(fraction) && required.exceeds_count(counted as u128)
        };
        assert(falls_short(
            *unit,
            self.min_coverage_fraction,
            covered_in(field.targets@),
            accounted(field.targets@, field.pheromone@, world@),
            field.targets@.len(),
            short,
        ));
        if short {
            return VerificationResult::CoverageDeficit { uncovered: total - covered, total };
        }
        let seen = world.weight_versions();
        if seen.len() > 1 {
            return VerificationResult::VersionSplitBrain { versions_seen: seen.len() };
        }
        VerificationResult::Conserved
    }
}

/// A fleet that passes the check runs one weight version, and none of its drones is
/// assigned a target id that does not exist.
pub proof fn passing_means_no_split_brain<U: Fn(ArithOp) -> Scalar>(
    unit: U,
    min: Scalar,
    targets: Seq<Target>,
    levels: Seq<Scalar>,
    entries: Map<u32, (DroneState, Timestamp)>,
)
    requires
        verdict(unit, min, targets, levels, entries, VerificationResult::Conserved),
    ensures
        !overclaimed(targets, entries),
        forall|a: u32, b: u32| #[trigger]
            entries.contains_key(a) && #[trigger] entries.contains_key(b)
                ==> entries[a].0.weight_version == entries[b].0.weight_version,
{
    consistency_is_one_version(entries);
}

/// A fleet whose drones run different weights never passes the check.
pub proof fn split_brain_never_passes<U: Fn(ArithOp) -> Scalar>(
    unit: U,
    min: Scalar,
    targets: Seq<Target>,
    levels: Seq<Scalar>,
    entries: Map<u32, (DroneState, Timestamp)>,
    a: u32,
    b: u32,
)
    requires
        entries.contains_key(a),
        entries.contains_key(b),
        entries[a].0.weight_version != entries[b].0.weight_version,
    ensures
        !verdict(unit, min, targets, levels, entries, VerificationResult::Conserved),
{
    consistency_is_one_version(entries);
}

/// A split brain is reported only where drones run different weights, with the number of
/// versions in use.
pub proof fn split_brain_counts_the_versions<U: Fn(ArithOp) -> Scalar>(
    unit: U,
    min: Scalar,
    targets: Seq<Target>,
    levels: Seq<Scalar>,
    entries: Map<u32, (DroneState, Timestamp)>,
    versions_seen: usize,
)
    requires
        verdict(
            unit,
            min,
            targets,
            levels,
            entries,
            (VerificationResult::VersionSplitBrain { versions_seen }),
        ),
    ensures
        versions_seen >= 2,
        versions_seen == versions(entries).len(),
        exists|a: u32, b: u32| #[trigger]
            entries.contains_key(a) && #[trigger] entries.contains_key(b)
                && entries[a].0.weight_version != entries[b].0.weight_version,
{
    consistency_is_one_version(entries);
}

proof fn lemma_accounted_prefix(targets: Seq<Target>, levels: Seq<Scalar>, claims: Set<u32>)
    requires
        targets.len() > 0,
    ensures
        forall|i: int|
            0 <= i < targets.len() - 1 ==> #[trigger] accounted_for(
                targets.drop_last(),
                levels,
                claims,
                i,
            ) == accounted_for(targets, levels, claims, i),
{
    assert forall|i: int| 0 <= i < targets.len() - 1 implies #[trigger] accounted_for(
        targets.drop_last(),
        levels,
        claims,
        i,
    ) == accounted_for(targets, levels, claims, i) by {
        assert(targets.drop_last()[i] == targets[i]);
    }
}

proof fn lemma_accounted_with(targets: Seq<Target>, levels: Seq<Scalar>, claims: Set<u32>)
    ensures
        covered_in(targets) <= accounted_with(targets, levels, claims) <= targets.len(),
        accounted_with(targets, levels, claims) == targets.len() <==> forall|i: int|
            0 <= i < targets.len() ==> #[trigger] accounted_for(targets, levels, claims, i),
    decreases targets.len(),
{
    if targets.len() > 0 {
        let rest = targets.drop_last();
        lemma_accounted_with(rest, levels, claims);
        lemma_accounted_prefix(targets, levels, claims);
        if accounted_with(targets, levels, claims) == targets.len() {
            assert forall|i: int| 0 <= i < targets.len() implies #[trigger] accounted_for(
                targets,
                levels,
                claims,
                i,
            ) by {
                if i < rest.len() {
                    assert(accounted_for(rest, levels, claims, i));
                }
            }
        }
        if forall|i: int|
            0 <= i < targets.len() ==> #[trigger] accounted_for(targets, levels, claims, i) {
            assert forall|i: int| 0 <= i < rest.len() implies #[trigger] accounted_for(
                rest,
                levels,
                claims,
                i,
            ) by {
                assert(accounted_for(targets, levels, claims, i));
            }
            assert(accounted_for(targets, levels, claims, targets.len() - 1));
        }
    }
}

/// Drones that claim more targets than exist are always found out, whatever the ids.
pub proof fn more_claims_than_targets_overflow<U: Fn(ArithOp) -> Scalar>(
    unit: U,
    min: Scalar,
    targets: Seq<Target>,
    levels: Seq<Scalar>,
    entries: Map<u32, (DroneState, Timestamp)>,
    result: VerificationResult,
)
    requires
        assigned(entries).len() > targets.len(),
        verdict(unit, min, targets, levels, entries, result),
    ensures
        result == VerificationResult::AssignmentOverflow,
{
    let ids = targets.map_values(|t: Target| t.id);
    if !overclaimed(targets, entries) {
        assert forall|claim: u32| #[trigger] assigned(entries).contains(claim) implies ids.to_set()
            .contains(claim) by {
            let i = choose|i: int| 0 <= i < targets.len() && (#[trigger] targets[i]).id == claim;
            assert(ids[i] == claim);
        }
        assert(assigned(entries).subset_of(ids.to_set()));
        ids.lemma_cardinality_of_set();
        seq_to_set_is_finite(ids);
        lemma_len_subset(assigned(entries), ids.to_set());
    }
}

/// Each target is accounted for at most once: the number of targets accounted for lies
/// between the covered ones and all of them, and it is all of them exactly where no target
/// is lost.
pub proof fn nothing_is_lost_where_all_are_accounted_for(
    targets: Seq<Target>,
    levels: Seq<Scalar>,
    entries: Map<u32, (DroneState, Timestamp)>,
)
    ensures
        covered_in(targets) <= accounted(targets, levels, entries) <= targets.len(),
        accounted(targets, levels, entries) == targets.len() <==> forall|i: int|
            0 <= i < targets.len() ==> #[trigger] accounted_for(
                targets,
                levels,
                assigned(entries),
                i,
            ),
{
    lemma_accounted_with(targets, levels, assigned(entries));
}

/// A fleet that passes the check accounts for the required fraction of its targets.
pub proof fn passing_means_targets_accounted_for<U: Fn(ArithOp) -> Scalar>(
    unit: U,
    min: Scalar,
    targets: Seq<Target>,
    levels: Seq<Scalar>,
    entries: Map<u32, (DroneState, Timestamp)>,
)
    requires
        verdict(unit, min, targets, levels, entries, VerificationResult::Conserved),
    ensures
        falls_short(
            unit,
            min,
            covered_in(targets),
            accounted(targets, levels, entries),
            targets.len(),
            false,
        ),
{
}

/// A fleet that passes the check for all of its targets has lost none of them: each is
/// covered, within reach or assigned. The unit must hold both counts without rounding and
/// must treat one as one, as single precision does for up to 2^24 targets.
pub proof fn full_check_loses_no_target<U: Fn(ArithOp) -> Scalar>(
    unit: U,
    targets: Seq<Target>,
    levels: Seq<Scalar>,
    entries: Map<u32, (DroneState, Timestamp)>,
)
    requires
        targets.len() <= u64::MAX,
        counts_exactly(unit, targets.len()),
        counts_exactly(unit, covered_in(targets)),
        treats_one_as_one(unit),
        verdict(
            unit,
            Scalar { bits: ONE },
            targets,
            levels,
            entries,
            VerificationResult::Conserved,
        ),
    ensures
        forall|i: int|
            0 <= i < targets.len() ==> #[trigger] accounted_for(
                targets,
                levels,
                assigned(entries),
                i,
            ),
{
    let covered = covered_in(targets);
    let counted = accounted(targets, levels, entries);
    let total = targets.len();
    let one = Scalar { bits: ONE };
    nothing_is_lost_where_all_are_accounted_for(targets, levels, entries);
    if counted < total {
        let (covered_n, total_n, fraction, required) = choose|
            covered_n: Scalar,
            total_n: Scalar,
            fraction: Scalar,
            required: Scalar,
        |
            {
                &&& #[trigger] answers(unit, ArithOp::Count(covered as u64), covered_n)
                &&& #[trigger] answers(unit, ArithOp::Count(total as u64), total_n)
                &&& #[trigger] answers(unit, ArithOp::Div(covered_n, total_n), fraction)
                &&& #[trigger] answers(unit, ArithOp::Mul(total_n, one), required)
                &&& false == (one.above(fraction) && required.above_count(counted as int))
            };
        lemma_pow2_pos(149);
        assert(covered * pow2(149) < total * pow2(149) && counted * pow2(149) < total * pow2(149)
            && covered * pow2(149) >= 0) by (nonlinear_arith)
            requires
                covered <= counted < total,
                pow2(149) > 0,
        ;
        comparison_is_numeric(total_n, covered_n);
        assert(required == total_n);
        assert(one.above(fraction));
        assert(required.above_count(counted as int));
    }
}

/// A deficit is reported only where too few targets are accounted for, and its numbers
/// are those of the open targets and of all targets.
pub proof fn deficit_counts_the_open_targets<U: Fn(ArithOp) -> Scalar>(
    unit: U,
    min: Scalar,
    targets: Seq<Target>,
    levels: Seq<Scalar>,
    entries: Map<u32, (DroneState, Timestamp)>,
    uncovered: usize,
    total: usize,
)
    requires
        verdict(
            unit,
            min,
            targets,
            levels,
            entries,
            (VerificationResult::CoverageDeficit { uncovered, total }),
        ),
    ensures
        falls_short(
            unit,
            min,
            covered_in(targets),
            accounted(targets, levels, entries),
            targets.len(),
            true,
        ),
        total == targets.len(),
        total > 0,
        uncovered + covered_in(targets) == total,
{
}

/// With a steady unit the same fleet gets one verdict.
pub proof fn verdict_is_reproducible<U: Fn(ArithOp) -> Scalar>(
    unit: U,
    min: Scalar,
    targets: Seq<Target>,
    levels: Seq<Scalar>,
    entries: Map<u32, (DroneState, Timestamp)>,
    left: VerificationResult,
    right: VerificationResult,
)
    requires
        steady(unit),
        verdict(unit, min, targets, levels, entries, left),
        verdict(unit, min, targets, levels, entries, right),
    ensures
        left == right,
{
}

/// Accounting for more targets never turns a sufficient coverage into a deficit.
pub proof fn accounting_for_more_never_hurts<U: Fn(ArithOp) -> Scalar>(
    unit: U,
    min: Scalar,
    covered: nat,
    fewer: nat,
    more: nat,
    total: nat,
)
    requires
        fewer <= more,
        falls_short(unit, min, covered, fewer, total, false),
    ensures
        falls_short(unit, min, covered, more, total, false),
{
    if total > 0 {
        let (covered_n, total_n, fraction, required) = choose|
            covered_n: Scalar,
            total_n: Scalar,
            fraction: Scalar,
            required: Scalar,
        |
            {
                &&& #[trigger] answers(unit, ArithOp::Count(covered as u64), covered_n)
                &&& #[trigger] answers(unit, ArithOp::Count(total as u64), total_n)
                &&& #[trigger] answers(unit, ArithOp::Div(covered_n, total_n), fraction)
                &&& #[trigger] answers(unit, ArithOp::Mul(total_n, min), required)
                &&& false == (min.above(fraction) && required.above_count(fewer as int))
            };
        lemma_pow2_pos(149);
        assert(fewer * pow2(149) <= more * pow2(149)) by (nonlinear_arith)
            requires
                fewer <= more,
                pow2(149) > 0,
        ;
        assert(required.above_count(more as int) ==> required.above_count(fewer as int));
    }
}

/// Drones claim a target that does not exist exactly where some drone is on an id that no
/// target has.
pub proof fn stray_claims_are_those_of_drones(
    targets: Seq<Target>,
    entries: Map<u32, (DroneState, Timestamp)>,
)
    ensures
        overclaimed(targets, entries) <==> exists|id: u32| #[trigger]
            entries.contains_key(id) && (entries[id].0.active_target matches Some(claim)
                && forall|i: int|
                0 <= i < targets.len() ==> (#[trigger] targets[i]).id != claim),
{
    if overclaimed(targets, entries) {
        let claim = choose|claim: u32| #[trigger]
            assigned(entries).contains(claim) && forall|i: int|
                0 <= i < targets.len() ==> claim != (#[trigger] targets[i]).id;
        let id = choose|id: u32| #[trigger]
            entries.contains_key(id) && entries[id].0.active_target == Some(claim);
        assert(entries.contains_key(id));
    }
    if exists|id: u32| #[trigger]
        entries.contains_key(id) && (entries[id].0.active_target matches Some(claim)
            && forall|i: int|
            0 <= i < targets.len() ==> (#[trigger] targets[i]).id != claim) {
        let id = choose|id: u32| #[trigger]
            entries.contains_key(id) && (entries[id].0.active_target matches Some(claim)
                && forall|i: int|
                0 <= i < targets.len() ==> (#[trigger] targets[i]).id != claim);
        let claim = entries[id].0.active_target->0;
        assert(assigned(entries).contains(claim));
    }
}

proof fn lemma_accounted_with_is_a_count(
    targets: Seq<Target>,
    levels: Seq<Scalar>,
    claims: Set<u32>,
)
    ensures
        ({
            let places = Set::new(
                |i: int|
                    0 <= i < targets.len() && (targets[i].covered || (i < levels.len()
                        && levels[i].above(Scalar { bits: REACHABLE })) || claims.contains(
                        targets[i].id,
                    )),
            );
            places.finite() && accounted_with(targets, levels, claims) == places.len()
        }),
    decreases targets.len(),
{
    let places = Set::new(
        |i: int|
            0 <= i < targets.len() && (targets[i].covered || (i < levels.len() && levels[i].above(
                Scalar { bits: REACHABLE },
            )) || claims.contains(targets[i].id)),
    );
    if targets.len() == 0 {
        assert(places =~= Set::empty());
    } else {
        let rest = targets.drop_last();
        let fewer = Set::new(
            |i: int|
                0 <= i < rest.len() && (rest[i].covered || (i < levels.len() && levels[i].above(
                    Scalar { bits: REACHABLE },
                )) || claims.contains(rest[i].id)),
        );
        lemma_accounted_with_is_a_count(rest, levels, claims);
        let last = targets.len() - 1;
        if accounted_for(targets, levels, claims, last) {
            assert(places =~= fewer.insert(last));
        } else {
            assert(places =~= fewer);
        }
    }
}

/// The number of targets accounted for is the number of places at which a target stands that
/// is covered, has pheromone above 0.05, or is assigned to a drone.
pub proof fn accounted_targets_are_counted(
    targets: Seq<Target>,
    levels: Seq<Scalar>,
    entries: Map<u32, (DroneState, Timestamp)>,
)
    ensures
        ({
            let places = Set::new(
                |i: int|
                    0 <= i < targets.len() && (targets[i].covered || (i < levels.len()
                        && levels[i].above(Scalar { bits: REACHABLE })) || exists|id: u32|
                        #[trigger]
                        entries.contains_key(id) && entries[id].0.active_target == Some(
                            targets[i].id,
                        )),
            );
            places.finite() && accounted(targets, levels, entries) == places.len()
        }),
{
    let claims = assigned(entries);
    lemma_accounted_with_is_a_count(targets, levels, claims);
    assert(Set::new(
        |i: int|
            0 <= i < targets.len() && (targets[i].covered || (i < levels.len() && levels[i].above(
                Scalar { bits: REACHABLE },
            )) || claims.contains(targets[i].id)),
    ) =~= Set::new(
        |i: int|
            0 <= i < targets.len() && (targets[i].covered || (i < levels.len() && levels[i].above(
                Scalar { bits: REACHABLE },
            )) || exists|id: u32| #[trigger]
                entries.contains_key(id) && entries[id].0.active_target == Some(targets[i].id)),
    ));
}

/// Accounting is additive, target by target: covering a lost target, or raising its level
/// above 0.05, accounts for one target more, whatever the others are and wherever they stand.
/// Covering a target that is accounted for changes nothing.
pub proof fn one_more_target_counts_one_more(
    targets: Seq<Target>,
    levels: Seq<Scalar>,
    entries: Map<u32, (DroneState, Timestamp)>,
    i: int,
    level: Scalar,
)
    requires
        0 <= i < targets.len(),
    ensures
        ({
            let kept = targets[i].covered || (i < levels.len() && levels[i].above(
                Scalar { bits: REACHABLE },
            )) || assigned(entries).contains(targets[i].id);
            &&& accounted(with_covered(targets, i), levels, entries) == accounted(
                targets,
                levels,
                entries,
            ) + (if kept {
                0nat
            } else {
                1
            })
            &&& i < levels.len() && level.above(Scalar { bits: REACHABLE }) ==> accounted(
                targets,
                levels.update(i, level),
                entries,
            ) == accounted(targets, levels, entries) + (if kept {
                0nat
            } else {
                1
            })
        }),
{
    let claims = assigned(entries);
    let covered = with_covered(targets, i);
    let raised = levels.update(i, level);
    let reach = Scalar { bits: REACHABLE };
    lemma_accounted_with_is_a_count(targets, levels, claims);
    lemma_accounted_with_is_a_count(covered, levels, claims);
    let before = Set::new(
        |k: int|
            0 <= k < targets.len() && (targets[k].covered || (k < levels.len() && levels[k].above(
                Scalar { bits: REACHABLE },
            )) || claims.contains(targets[k].id)),
    );
    let after = Set::new(
        |k: int|
            0 <= k < covered.len() && (covered[k].covered || (k < levels.len() && levels[k].above(
                Scalar { bits: REACHABLE },
            )) || claims.contains(covered[k].id)),
    );
    assert(after =~= before.insert(i));
    if i < levels.len() && level.above(reach) {
        lemma_accounted_with_is_a_count(targets, raised, claims);
        let lifted = Set::new(
            |k: int|
                0 <= k < targets.len() && (targets[k].covered || (k < raised.len()
                    && raised[k].above(Scalar { bits: REACHABLE })) || claims.contains(
                    targets[k].id,
                )),
        );
        assert(lifted =~= before.insert(i));
    }
}

/// When a deficit is owed, by the unit's numbers: the covered fraction lies below the required
/// one, and the targets accounted for lie below the required fraction of all targets. A unit
/// that answers each request in one way leaves no choice.
pub proof fn deficits_follow_the_numbers<U: Fn(ArithOp) -> Scalar>(
    unit: U,
    min: Scalar,
    targets: Seq<Target>,
    levels: Seq<Scalar>,
    entries: Map<u32, (DroneState, Timestamp)>,
    result: VerificationResult,
    covered_n: Scalar,
    total_n: Scalar,
    fraction: Scalar,
    required: Scalar,
)
    requires
        steady(unit),
        verdict(unit, min, targets, levels, entries, result),
        targets.len() > 0,
        result !is AssignmentOverflow,
        answers(
            unit,
            ArithOp::Count(
                Set::new(|i: int| 0 <= i < targets.len() && targets[i].covered).len() as u64,
            ),
            covered_n,
        ),
        answers(unit, ArithOp::Count(targets.len() as u64), total_n),
        answers(unit, ArithOp::Div(covered_n, total_n), fraction),
        answers(unit, ArithOp::Mul(total_n, min), required),
    ensures
        result is CoverageDeficit <==> min.above(fraction) && required.above_count(
            accounted(targets, levels, entries) as int,
        ),
        result !is CoverageDeficit ==> (result is VersionSplitBrain <==> versions(entries).len()
            > 1),
{
    covered_targets_are_counted(targets);
}

/// A fleet that accounts for the required number is never told of a deficit.
pub proof fn enough_is_enough<U: Fn(ArithOp) -> Scalar>(
    unit: U,
    min: Scalar,
    targets: Seq<Target>,
    levels: Seq<Scalar>,
    entries: Map<u32, (DroneState, Timestamp)>,
    result: VerificationResult,
)
    requires
        verdict(unit, min, targets, levels, entries, result),
        forall|total_n: Scalar, required: Scalar| #[trigger]
            answers(unit, ArithOp::Count(targets.len() as u64), total_n) && #[trigger] answers(
                unit,
                ArithOp::Mul(total_n, min),
                required,
            ) ==> !required.above_count(accounted(targets, levels, entries) as int),
    ensures
        result !is CoverageDeficit,
{
}

/// A check for all targets passes wherever it should: no target is lost, no claim is stray,
/// and one version is in use. The unit must hold the number of targets without rounding and
/// must treat one as one.
pub proof fn full_check_passes_where_no_target_is_lost<U: Fn(ArithOp) -> Scalar>(
    unit: U,
    targets: Seq<Target>,
    levels: Seq<Scalar>,
    entries: Map<u32, (DroneState, Timestamp)>,
    result: VerificationResult,
)
    requires
        counts_exactly(unit, targets.len()),
        treats_one_as_one(unit),
        verdict(unit, Scalar { bits: ONE }, targets, levels, entries, result),
        !overclaimed(targets, entries),
        forall|i: int|
            0 <= i < targets.len() ==> #[trigger] accounted_for(
                targets,
                levels,
                assigned(entries),
                i,
            ),
        forall|a: u32, b: u32| #[trigger]
            entries.contains_key(a) && #[trigger] entries.contains_key(b)
                ==> entries[a].0.weight_version == entries[b].0.weight_version,
    ensures
        result is Conserved,
{
    nothing_is_lost_where_all_are_accounted_for(targets, levels, entries);
    consistency_is_one_version(entries);
    enough_is_enough(unit, Scalar { bits: ONE }, targets, levels, entries, result);
}

} // verus!
