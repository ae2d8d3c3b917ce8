//! The fleet's shared picture of its drones: last writer wins, drone by drone.
use crate::arith::{add_up, answers, compute, sums_to, takes_all, ArithOp};
use crate::scalar::{Scalar, ONE};
use std::collections::{HashMap, HashSet};
use vstd::prelude::*;
use vstd::set_lib::lemma_set_subset_finite;

verus! {

/// Per-drone state broadcast to the fleet.
#[derive(Debug, Clone, Copy)]
pub struct DroneState {
    pub drone_id: u32,
    pub x: Scalar,
    pub y: Scalar,
    pub battery_soc: Scalar,
    pub active_target: Option<u32>,
    pub weight_version: u32,
}

/// A Lamport timestamp.
#[derive(Debug, Clone, Copy, PartialEq, Eq, PartialOrd, Ord)]
pub struct Timestamp(pub u64);

/// `entries` once a state written at `ts` has been recorded under `id`: it replaces
/// nothing that is as recent.
pub open spec fn recorded(
    entries: Map<u32, (DroneState, Timestamp)>,
    id: u32,
    state: DroneState,
    ts: Timestamp,
) -> Map<u32, (DroneState, Timestamp)> {
    if entries.contains_key(id) && entries[id].1.0 >= ts.0 {
        entries
    } else {
        entries.insert(id, (state, ts))
    }
}

/// `entries` once a drone's own update has been recorded.
pub open spec fn upserted(
    entries: Map<u32, (DroneState, Timestamp)>,
    state: DroneState,
    ts: Timestamp,
) -> Map<u32, (DroneState, Timestamp)> {
    recorded(entries, state.drone_id, state, ts)
}

/// The join of two pictures: drone by drone the more recent entry, the one of `left`
/// where both are equally recent.
pub open spec fn joined(
    left: Map<u32, (DroneState, Timestamp)>,
    right: Map<u32, (DroneState, Timestamp)>,
) -> Map<u32, (DroneState, Timestamp)> {
    Map::new(
        |id: u32| left.contains_key(id) || right.contains_key(id),
        |id: u32|
            if !left.contains_key(id) || (right.contains_key(id) && right[id].1.0
                > left[id].1.0) {
                right[id]
            } else {
                left[id]
            },
    )
}

/// `order` lists the drones of `entries`, each once.
pub open spec fn lists(order: Seq<u32>, entries: Map<u32, (DroneState, Timestamp)>) -> bool {
    &&& order.no_duplicates()
    &&& order.to_set() == entries.dom()
}

/// The batteries of the listed drones, in order.
pub open spec fn batteries_of(
    order: Seq<u32>,
    entries: Map<u32, (DroneState, Timestamp)>,
) -> Seq<Scalar> {
    order.map_values(|id: u32| entries[id].0.battery_soc)
}

/// `mean` is the average battery: 1.0 where there is no drone, otherwise the sum over
/// the drones, in some order, divided by their number.
pub open spec fn averages<U: Fn(ArithOp) -> Scalar>(
    unit: U,
    entries: Map<u32, (DroneState, Timestamp)>,
    mean: Scalar,
) -> bool {
    if entries.dom().len() == 0 {
        mean == (Scalar { bits: ONE })
    } else {
        exists|order: Seq<u32>, total: Scalar, n: Scalar|
            {
                &&& lists(order, entries)
                &&& #[trigger] sums_to(unit, batteries_of(order, entries), total)
                &&& #[trigger] answers(unit, ArithOp::Count(entries.dom().len() as u64), n)
                &&& answers(unit, ArithOp::Div(total, n), mean)
            }
    }
}

/// The targets that some drone is assigned to.
pub open spec fn assigned(entries: Map<u32, (DroneState, Timestamp)>) -> Set<u32> {
    Set::new(
        |target: u32|
            exists|id: u32| #[trigger]
                entries.contains_key(id) && entries[id].0.active_target == Some(target),
    )
}

/// The weight versions that some drone runs.
pub open spec fn versions(entries: Map<u32, (DroneState, Timestamp)>) -> Set<u32> {
    Set::new(
        |version: u32|
            exists|id: u32| #[trigger]
                entries.contains_key(id) && entries[id].0.weight_version == version,
    )
}

/// Last-writer-wins register per drone.
#[derive(Debug)]
pub struct DroneWorldCRDT {
    entries: HashMap<u32, (DroneState, Timestamp)>,
}

impl View for DroneWorldCRDT {
    type V = Map<u32, (DroneState, Timestamp)>;

    /// The latest known state of each drone, with the time it was written.
    closed spec fn view(&self) -> Map<u32, (DroneState, Timestamp)> {
        self.entries@
    }
}

impl Default for DroneWorldCRDT {
    /// A picture without drones.
    fn default() -> (world: Self)
        ensures
            world@ == Map::<u32, (DroneState, Timestamp)>::empty(),
    {
        DroneWorldCRDT { entries: HashMap::new() }
    }
}

impl DroneWorldCRDT {
    fn record(&mut self, id: u32, state: DroneState, ts: Timestamp)
        ensures
            final(self)@ == recorded(old(self)@, id, state, ts),
    {
        let newer: bool = match self.entries.get(&id) {
            None => true,
            Some(entry) => ts.0 > entry.1.0,
        };
        if newer {
            self.entries.insert(id, (state, ts));
        }
    }

    /// Records a drone's update unless a state as recent is known.
    pub fn upsert(&mut self, state: DroneState, ts: Timestamp)
        ensures
            final(self)@ == upserted(old(self)@, state, ts),
            final(self)@.contains_key(state.drone_id),
            old(self)@.contains_key(state.drone_id) && old(self)@[state.drone_id].1.0 >= ts.0
                ==> final(self)@[state.drone_id] == old(self)@[state.drone_id],
            !(old(self)@.contains_key(state.drone_id) && old(self)@[state.drone_id].1.0 >= ts.0)
                ==> final(self)@[state.drone_id] == (state, ts),
            forall|id: u32|
                id != state.drone_id ==> (#[trigger] final(self)@.contains_key(id) <==> old(
                    self,
                )@.contains_key(id)) && final(self)@[id] == old(self)@[id],
    {
        self.record(state.drone_id, state, ts);
    }

    /// Joins another picture into this one, keeping the more recent entry per drone.
    pub fn merge(&mut self, other: &DroneWorldCRDT)
        ensures
            final(self)@ == joined(old(self)@, other@),
            forall|id: u32| #[trigger]
                final(self)@.contains_key(id) <==> old(self)@.contains_key(id)
                    || other@.contains_key(id),
            forall|id: u32|
                old(self)@.contains_key(id) && (other@.contains_key(id) ==> old(self)@[id].1.0
                    >= other@[id].1.0) ==> #[trigger] final(self)@[id] == old(self)@[id],
            forall|id: u32|
                other@.contains_key(id) && (old(self)@.contains_key(id) ==> old(self)@[id].1.0
                    < other@[id].1.0) ==> #[trigger] final(self)@[id] == other@[id],
    {
        let ghost before = self@;
        let ghost mut done: Map<u32, (DroneState, Timestamp)> = Map::empty();
        assert(self@ =~= joined(before, done));
        for item in it: other.entries.iter()
            invariant
                self@ == joined(before, done),
                forall|id: u32| #[trigger] done.contains_key(id) ==> other@.contains_key(id)
                    && other@[id] == done[id],
                forall|k: int| 0 <= k < it.index() ==> done.contains_key(*(#[trigger] it.seq()[k]).0),
        {
            let (id, entry) = item;
            self.record(*id, entry.0, entry.1);
            proof {
                done = done.insert(*id, *entry);
                assert(self@ =~= joined(before, done));
            }
        }
        assert(done =~= other@);
    }

    /// The latest known state of a drone.
    pub fn get(&self, drone_id: u32) -> (state: Option<&DroneState>)
        ensures
            match state {
                Some(s) => self@.contains_key(drone_id) && *s == self@[drone_id].0,
                None => !self@.contains_key(drone_id),
            },
    {
        match self.entries.get(&drone_id) {
            Some(entry) => Some(&entry.0),
            None => None,
        }
    }

    /// The number of drones known.
    pub fn drone_count(&self) -> (n: usize)
        ensures
            n == self@.dom().len(),
    {
        self.entries.len()
    }

    /// Average battery across all known drones; 1.0 where none is known.
    pub fn mean_battery<U: Fn(ArithOp) -> Scalar>(&self, unit: &U) -> (mean: Scalar)
        requires
            takes_all(*unit),
        ensures
            averages(*unit, self@, mean),
    {
        let count: usize = self.entries.len();
        if count == 0 {
            return Scalar { bits: ONE };
        }
        let mut levels: Vec<Scalar> = Vec::new();
        let ghost mut order: Seq<u32> = Seq::empty();
        let ghost mut done: Set<u32> = Set::empty();
        assert(order.to_set() =~= done);
        for item in it: self.entries.iter()
            invariant
                it.seq().no_duplicates(),
                order.len() == it.index(),
                order.no_duplicates(),
                levels@ == batteries_of(order, self@),
                order.to_set() == done,
                forall|id: u32| #[trigger] done.contains(id) ==> self@.contains_key(id),
                forall|k: int| 0 <= k < it.index() ==> done.contains(*(#[trigger] it.seq()[k]).0),
                forall|k: int| 0 <= k < it.index() ==> order[k] == *(#[trigger] it.seq()[k]).0,
        {
            let (id, entry) = item;
            let ghost listed = order;
            levels.push(entry.0.battery_soc);
            proof {
                assert(self@.contains_key(*id) && self@[*id] == *entry);
                assert forall|k: int| 0 <= k < it.index() implies listed[k] != *id by {
                    let earlier = it.seq()[k];
                    assert(self@[*earlier.0] == *earlier.1);
                }
                order = listed.push(*id);
                done = done.insert(*id);
                listed.lemma_push_to_set_commute(*id);
                assert(levels@ =~= batteries_of(order, self@));
            }
        }
        assert(done =~= self@.dom());
        let total = add_up(unit, &levels);
        let n = compute(unit, ArithOp::Count(count as u64));
        compute(unit, ArithOp::Div(total, n))
    }

    /// Whether all drones run the same weight version.
    pub fn weight_version_consistent(&self) -> (r: bool)
        ensures
            r == (forall|a: u32, b: u32| #[trigger]
                self@.contains_key(a) && #[trigger] self@.contains_key(b)
                    ==> self@[a].0.weight_version == self@[b].0.weight_version),
    {
        let mut first: Option<u32> = None;
        for item in it: self.entries.iter()
            invariant
                it.index() == 0 ==> first is None,
                it.index() > 0 ==> first is Some,
                forall|k: int|
                    0 <= k < it.index() ==> Some((#[trigger] it.seq()[k]).1.0.weight_version)
                        == first,
        {
            let (id, entry) = item;
            assert(self@.contains_key(*id) && self@[*id] == *entry);
            match first {
                None => {
                    first = Some(entry.0.weight_version);
                },
                Some(version) => {
                    if entry.0.weight_version != version {
                        proof {
                            let other = *it.seq()[0].0;
                            assert(self@.contains_key(other));
                        }
                        return false;
                    }
                },
            }
        }
        true
    }

    /// The targets that drones are assigned to.
    pub fn assigned_targets(&self) -> (targets: HashSet<u32>)
        ensures
            targets@ == assigned(self@),
            forall|target: u32| #[trigger]
                targets@.contains(target) <==> exists|id: u32| #[trigger]
                    self@.contains_key(id) && self@[id].0.active_target == Some(target),
    {
        let mut targets: HashSet<u32> = HashSet::new();
        for item in it: self.entries.iter()
            invariant
                forall|target: u32| #[trigger]
                    targets@.contains(target) ==> assigned(self@).contains(target),
                forall|k: int|
                    0 <= k < it.index() ==> ((#[trigger] it.seq()[k]).1.0.active_target matches Some(
                        target,
                    ) ==> targets@.contains(target)),
        {
            let (id, entry) = item;
            assert(self@.contains_key(*id) && self@[*id] == *entry);
            if let Some(target) = entry.0.active_target {
                targets.insert(target);
            }
        }
        assert(targets@ =~= assigned(self@));
        targets
    }

    /// The weight versions that drones run.
    pub fn weight_versions(&self) -> (seen: HashSet<u32>)
        ensures
            seen@ == versions(self@),
            forall|version: u32| #[trigger]
                seen@.contains(version) <==> exists|id: u32| #[trigger]
                    self@.contains_key(id) && self@[id].0.weight_version == version,
    {
        let mut seen: HashSet<u32> = HashSet::new();
        for item in it: self.entries.iter()
            invariant
                forall|version: u32| #[trigger]
                    seen@.contains(version) ==> versions(self@).contains(version),
                forall|k: int|
                    0 <= k < it.index() ==> seen@.contains(
                        (#[trigger] it.seq()[k]).1.0.weight_version,
                    ),
        {
            let (id, entry) = item;
            assert(self@.contains_key(*id) && self@[*id] == *entry);
            seen.insert(entry.0.weight_version);
        }
        assert(seen@ =~= versions(self@));
        seen
    }
}

/// No drone has two equally recent but different states.
pub open spec fn unambiguous(
    left: Map<u32, (DroneState, Timestamp)>,
    right: Map<u32, (DroneState, Timestamp)>,
) -> bool {
    forall|id: u32| #[trigger]
        left.contains_key(id) && #[trigger] right.contains_key(id) && left[id].1.0
            == right[id].1.0 ==> left[id] == right[id]
}

/// Every entry is kept under the id of its own drone.
pub open spec fn filed_by_drone(entries: Map<u32, (DroneState, Timestamp)>) -> bool {
    forall|id: u32| #[trigger] entries.contains_key(id) ==> entries[id].0.drone_id == id
}

/// Joining a picture with itself changes nothing.
pub proof fn join_is_idempotent(world: Map<u32, (DroneState, Timestamp)>)
    ensures
        joined(world, world) == world,
{
    assert(joined(world, world) =~= world);
}

/// Joining the same picture once more changes nothing.
pub proof fn repeated_join_changes_nothing(
    left: Map<u32, (DroneState, Timestamp)>,
    right: Map<u32, (DroneState, Timestamp)>,
)
    ensures
        joined(joined(left, right), right) == joined(left, right),
{
    assert(joined(joined(left, right), right) =~= joined(left, right));
}

/// Joins can be grouped in any way.
pub proof fn join_is_associative(
    a: Map<u32, (DroneState, Timestamp)>,
    b: Map<u32, (DroneState, Timestamp)>,
    c: Map<u32, (DroneState, Timestamp)>,
)
    ensures
        joined(joined(a, b), c) == joined(a, joined(b, c)),
{
    assert(joined(joined(a, b), c) =~= joined(a, joined(b, c)));
}

/// The order of a join does not matter as long as the two pictures do not hold
/// different states with the same timestamp: both sides of an exchange then agree.
pub proof fn join_is_commutative(
    left: Map<u32, (DroneState, Timestamp)>,
    right: Map<u32, (DroneState, Timestamp)>,
)
    requires
        unambiguous(left, right),
    ensures
        joined(left, right) == joined(right, left),
{
    assert(joined(left, right) =~= joined(right, left));
}

/// A join keeps every drone, takes its state from one of the two sides, and never goes
/// back in time. Of two equally recent states it keeps the one of the left side.
pub proof fn join_keeps_the_latest(
    left: Map<u32, (DroneState, Timestamp)>,
    right: Map<u32, (DroneState, Timestamp)>,
    id: u32,
)
    ensures
        joined(left, right).contains_key(id) <==> left.contains_key(id) || right.contains_key(id),
        left.contains_key(id) ==> joined(left, right)[id].1.0 >= left[id].1.0,
        right.contains_key(id) ==> joined(left, right)[id].1.0 >= right[id].1.0,
        joined(left, right).contains_key(id) ==> {
            ||| left.contains_key(id) && joined(left, right)[id] == left[id]
            ||| right.contains_key(id) && joined(left, right)[id] == right[id]
        },
        left.contains_key(id) && (right.contains_key(id) ==> left[id].1.0 >= right[id].1.0)
            ==> joined(left, right)[id] == left[id],
        right.contains_key(id) && (left.contains_key(id) ==> left[id].1.0 < right[id].1.0)
            ==> joined(left, right)[id] == right[id],
{
}

/// An update is a join with the picture that holds nothing else.
pub proof fn upsert_is_a_join(
    world: Map<u32, (DroneState, Timestamp)>,
    state: DroneState,
    ts: Timestamp,
)
    ensures
        upserted(world, state, ts) == joined(world, map![state.drone_id => (state, ts)]),
{
    assert(upserted(world, state, ts) =~= joined(world, map![state.drone_id => (state, ts)]));
}

/// An update that is later than what is known of its drone is what a read then gives
/// back; one that is not later leaves everything as it was.
pub proof fn later_update_wins(
    world: Map<u32, (DroneState, Timestamp)>,
    state: DroneState,
    ts: Timestamp,
)
    ensures
        !world.contains_key(state.drone_id) || ts.0 > world[state.drone_id].1.0 ==> {
            &&& upserted(world, state, ts).contains_key(state.drone_id)
            &&& upserted(world, state, ts)[state.drone_id] == (state, ts)
        },
        world.contains_key(state.drone_id) && ts.0 <= world[state.drone_id].1.0 ==> upserted(
            world,
            state,
            ts,
        ) == world,
        forall|id: u32|
            id != state.drone_id ==> (#[trigger] upserted(world, state, ts).contains_key(id)
                <==> world.contains_key(id)) && upserted(world, state, ts)[id] == world[id],
{
}

/// Two updates can arrive in either order, unless they are equally recent updates of
/// the same drone.
pub proof fn updates_commute(
    world: Map<u32, (DroneState, Timestamp)>,
    first: DroneState,
    first_ts: Timestamp,
    second: DroneState,
    second_ts: Timestamp,
)
    requires
        first.drone_id != second.drone_id || first_ts.0 != second_ts.0,
    ensures
        upserted(upserted(world, first, first_ts), second, second_ts) == upserted(
            upserted(world, second, second_ts),
            first,
            first_ts,
        ),
{
    assert(upserted(upserted(world, first, first_ts), second, second_ts) =~= upserted(
        upserted(world, second, second_ts),
        first,
        first_ts,
    ));
}

/// Updates and joins keep every entry under the id of its own drone.
pub proof fn entries_stay_filed(
    left: Map<u32, (DroneState, Timestamp)>,
    right: Map<u32, (DroneState, Timestamp)>,
    state: DroneState,
    ts: Timestamp,
)
    requires
        filed_by_drone(left),
        filed_by_drone(right),
    ensures
        filed_by_drone(Map::<u32, (DroneState, Timestamp)>::empty()),
        filed_by_drone(upserted(left, state, ts)),
        filed_by_drone(joined(left, right)),
{
    assert forall|id: u32| #[trigger] joined(left, right).contains_key(id) implies joined(
        left,
        right,
    )[id].0.drone_id == id by {
        if left.contains_key(id) {
            assert(left[id].0.drone_id == id);
        }
        if right.contains_key(id) {
            assert(right[id].0.drone_id == id);
        }
    }
    assert forall|id: u32| #[trigger] upserted(left, state, ts).contains_key(id) implies upserted(
        left,
        state,
        ts,
    )[id].0.drone_id == id by {
        if id != state.drone_id {
            assert(left.contains_key(id));
        }
    }
}

/// There are only so many 32-bit ids.
proof fn lemma_ids_are_finite(ids: Set<u32>)
    ensures
        ids.finite(),
{
    broadcast use vstd::set_lib::full_set_properties;

    lemma_set_subset_finite(Set::<u32>::full(), ids);
}

/// However a fleet's picture came about, it holds finitely many drones, which claim
/// finitely many targets and run finitely many versions.
pub proof fn pictures_are_finite(world: Map<u32, (DroneState, Timestamp)>)
    ensures
        world.dom().finite(),
        assigned(world).finite(),
        versions(world).finite(),
{
    lemma_ids_are_finite(world.dom());
    lemma_ids_are_finite(assigned(world));
    lemma_ids_are_finite(versions(world));
}

/// All drones run the same weights exactly where at most one version is in use.
pub proof fn consistency_is_one_version(world: Map<u32, (DroneState, Timestamp)>)
    ensures
        versions(world).finite(),
        versions(world).len() <= 1 <==> (forall|a: u32, b: u32| #[trigger]
            world.contains_key(a) && #[trigger] world.contains_key(b)
                ==> world[a].0.weight_version == world[b].0.weight_version),
{
    let seen = versions(world);
    lemma_ids_are_finite(seen);
    if seen.len() <= 1 {
        assert forall|a: u32, b: u32| #[trigger]
            world.contains_key(a) && #[trigger] world.contains_key(
                b,
            ) implies world[a].0.weight_version == world[b].0.weight_version by {
            let va = world[a].0.weight_version;
            let vb = world[b].0.weight_version;
            assert(seen.contains(va));
            assert(seen.contains(vb));
            if va != vb {
                assert(seen.remove(va).contains(vb));
                assert(seen.remove(va).remove(vb).len() == seen.len() - 2);
            }
        }
    }
    if forall|a: u32, b: u32| #[trigger]
        world.contains_key(a) && #[trigger] world.contains_key(b)
            ==> world[a].0.weight_version == world[b].0.weight_version {
        if seen.len() > 0 {
            let v = seen.choose();
            assert(seen.contains(v));
            assert(seen =~= set![v]);
        }
    }
}

/// A target is assigned exactly where some drone is on it, and a version is in use exactly
/// where some drone runs it.
pub proof fn claims_and_versions_are_those_of_drones(
    world: Map<u32, (DroneState, Timestamp)>,
    target: u32,
    version: u32,
)
    ensures
        assigned(world).contains(target) <==> exists|id: u32| #[trigger]
            world.contains_key(id) && world[id].0.active_target == Some(target),
        versions(world).contains(version) <==> exists|id: u32| #[trigger]
            world.contains_key(id) && world[id].0.weight_version == version,
{
}

/// The drones with the battery level `v`.
pub open spec fn drones_at(
    world: Map<u32, (DroneState, Timestamp)>,
    v: Scalar,
) -> Set<u32> {
    Set::new(|id: u32| world.contains_key(id) && world[id].0.battery_soc == v)
}

proof fn lemma_listed_levels(
    order: Seq<u32>,
    world: Map<u32, (DroneState, Timestamp)>,
    v: Scalar,
)
    requires
        order.no_duplicates(),
    ensures
        batteries_of(order, world).to_multiset().count(v) == Set::new(
            |id: u32| order.contains(id) && world[id].0.battery_soc == v,
        ).len(),
    decreases order.len(),
{
    broadcast use vstd::seq_lib::group_to_multiset_ensures;

    let listed = Set::new(|id: u32| order.contains(id) && world[id].0.battery_soc == v);
    if order.len() == 0 {
        assert(listed =~= Set::empty());
        assert(batteries_of(order, world) =~= Seq::empty());
    } else {
        let rest = order.drop_last();
        let last = order.last();
        let fewer = Set::new(|id: u32| rest.contains(id) && world[id].0.battery_soc == v);
        lemma_listed_levels(rest, world, v);
        lemma_ids_are_finite(fewer);
        assert(batteries_of(order, world) =~= batteries_of(rest, world).push(
            world[last].0.battery_soc,
        ));
        assert(!rest.contains(last));
        assert forall|id: u32| #[trigger] order.contains(id) <==> rest.contains(id) || id
            == last by {
            if order.contains(id) {
                let k = choose|k: int| 0 <= k < order.len() && order[k] == id;
                if k < rest.len() {
                    assert(rest[k] == id);
                }
            }
            if rest.contains(id) {
                let k = choose|k: int| 0 <= k < rest.len() && rest[k] == id;
                assert(order[k] == id);
            }
            assert(order[order.len() - 1] == last);
        }
        if world[last].0.battery_soc == v {
            assert(listed =~= fewer.insert(last));
        } else {
            assert(listed =~= fewer);
        }
    }
}

/// A mean battery is the unit's quotient of a sum over all drones and of their number. Every
/// drone's charge goes into that sum once: each level occurs in it as often as there are
/// drones with that level. Without drones the mean is one.
pub proof fn mean_takes_in_every_drone_once<U: Fn(ArithOp) -> Scalar>(
    unit: U,
    world: Map<u32, (DroneState, Timestamp)>,
    mean: Scalar,
)
    requires
        averages(unit, world, mean),
    ensures
        world.dom().len() == 0 ==> mean == (Scalar { bits: ONE }),
        world.dom().len() > 0 ==> exists|terms: Seq<Scalar>, total: Scalar, n: Scalar|
            {
                &&& forall|v: Scalar| #[trigger]
                    terms.to_multiset().count(v) == drones_at(world, v).len()
                &&& terms.len() == world.dom().len()
                &&& #[trigger] sums_to(unit, terms, total)
                &&& #[trigger] answers(unit, ArithOp::Count(world.dom().len() as u64), n)
                &&& answers(unit, ArithOp::Div(total, n), mean)
            },
{
    if world.dom().len() > 0 {
        let (order, total, n) = choose|order: Seq<u32>, total: Scalar, n: Scalar|
            {
                &&& lists(order, world)
                &&& #[trigger] sums_to(unit, batteries_of(order, world), total)
                &&& #[trigger] answers(unit, ArithOp::Count(world.dom().len() as u64), n)
                &&& answers(unit, ArithOp::Div(total, n), mean)
            };
        let terms = batteries_of(order, world);
        assert forall|v: Scalar| #[trigger] terms.to_multiset().count(v) == drones_at(
            world,
            v,
        ).len() by {
            lemma_listed_levels(order, world, v);
            assert(drones_at(world, v) =~= Set::new(
                |id: u32| order.contains(id) && world[id].0.battery_soc == v,
            )) by {
                assert forall|id: u32| order.contains(id) <==> world.contains_key(id) by {
                    assert(order.to_set().contains(id) <==> world.dom().contains(id));
                }
            }
        }
        order.unique_seq_to_set();
        assert(sums_to(unit, terms, total));
    }
}

/// Means are averages of batteries: two pictures with the same batteries, drone by drone, have
/// the same means, whatever else they hold.
pub proof fn mean_depends_on_batteries_only<U: Fn(ArithOp) -> Scalar>(
    unit: U,
    left: Map<u32, (DroneState, Timestamp)>,
    right: Map<u32, (DroneState, Timestamp)>,
    mean: Scalar,
)
    requires
        left.dom() == right.dom(),
        forall|id: u32| #[trigger]
            left.contains_key(id) ==> left[id].0.battery_soc == right[id].0.battery_soc,
        averages(unit, left, mean),
    ensures
        averages(unit, right, mean),
{
    if left.dom().len() > 0 {
        let (order, total, n) = choose|order: Seq<u32>, total: Scalar, n: Scalar|
            {
                &&& lists(order, left)
                &&& #[trigger] sums_to(unit, batteries_of(order, left), total)
                &&& #[trigger] answers(unit, ArithOp::Count(left.dom().len() as u64), n)
                &&& answers(unit, ArithOp::Div(total, n), mean)
            };
        assert forall|k: int| 0 <= k < order.len() implies #[trigger] batteries_of(order, left)[k]
            == batteries_of(order, right)[k] by {
            assert(order.to_set().contains(order[k]));
            assert(left.contains_key(order[k]));
        }
        assert(batteries_of(order, left) =~= batteries_of(order, right));
        assert(lists(order, right));
    }
}

} // verus!
