# drone_fleet_ternary

Autonomous coordination of a drone fleet, verified with Verus: ternary navigation networks,
stigmergic task allocation, warp votes, a last-writer-wins picture of the fleet, and a
conservation check around weight hotswaps.

## Layout

- `src/scalar.rs`: single-precision numbers as bit patterns, and their order.
- `src/arith.rs`: requests to a floating-point unit, and sums made of its answers.
- `src/ternary.rs`: weights in {-1, 0, +1}, packed 16 to a word.
- `src/nav.rs`: the two-layer network that steers a drone.
- `src/pheromone.rs`: targets, their pheromone, and how drones pick among them.
- `src/warp.rs`: ballots over up to 32 drones.
- `src/world.rs`: the latest known state of each drone, and joins of such pictures.
- `src/conservation.rs`: the check that targets stay accounted for.
- `src/mission.rs`: a whole mission, tick by tick.
- `src/mission_laws.rs`: what holds of every mission.
- `app/lib.rs`: the same interface in `f32`, with the machine's floating-point unit.

## Floating point

The library compares numbers itself, in integers, and proves that the comparison is the
numeric one. It does not compute with them: every sum, product, quotient, root and
conversion of a count is a request (`ArithOp`) to a unit that the caller hands in as a
function. Contracts say which requests are made, on which numbers, and what is made of the
answers; they hold for every unit. With a unit that answers the same request in the same
way each time, the contracts leave one outcome: a mission is reproducible down to its
report, save for the rounding of the mean battery, which is summed in no fixed order.

## Decisions

- A fleet aborts where at least a third of its drones vote to abort; threads of a warp
  without a drone have no vote. A warp without drones aborts.
- The conservation check asks for the ceiling of the required fraction of the targets. It
  counts each target once, whether it is covered, within reach of its pheromone, assigned
  to a drone, or several of these; asked for all targets, it passes only where none is
  lost. Drones must run one weight version even where there are no targets, and a drone
  that is assigned an id that no target has makes the check fail.
- Weight banks are values: unused bits are zero, and two banks are equal exactly where they
  hold the same weights under the same version.
- Of two states of a drone with the same timestamp, the one already known stays. Joins are
  idempotent and associative without condition, and commutative where the two sides do not
  hold different states with the same timestamp.
