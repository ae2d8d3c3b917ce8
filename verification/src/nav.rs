//! Per-drone navigation: a two-layer ternary network over four sensors.
use crate::arith::{answers, compute, steady, takes_all, ArithOp};
use crate::scalar::Scalar;
use crate::ternary::{weight_at, Trit, WeightBank};
use vstd::prelude::*;

verus! {

/// Bit pattern of 0.15: readings this close to neutral count as neutral.
pub const DEAD_BAND: u32 = 0x3e19_999a;

/// Bit pattern of -0.15.
pub const MINUS_DEAD_BAND: u32 = 0xbe19_999a;

/// Bit pattern of 0.3: neutral obstacle clearance.
pub const NEUTRAL_CLEARANCE: u32 = 0x3e99_999a;

/// Bit pattern of 0.25: neutral battery charge.
pub const NEUTRAL_BATTERY: u32 = 0x3e80_0000;

/// Bit pattern of 0.1: neutral speed.
pub const NEUTRAL_SPEED: u32 = 0x3dcc_cccd;

/// Sensor input to the navigation network.
#[derive(Debug, Clone, Copy)]
pub struct SensorReading {
    /// Closest obstacle distance, 0.0 (touching) to 1.0 (clear).
    pub obstacle_clearance: Scalar,
    /// Signed bearing to the highest-pheromone target: -1.0 (left) to +1.0 (right).
    pub target_bearing: Scalar,
    /// Battery state of charge, 0.0 to 1.0.
    pub battery_soc: Scalar,
    /// Current ground speed, 0.0 to 1.0 (normalised).
    pub speed: Scalar,
}

/// Output of the navigation network.
#[derive(Debug, Clone, Copy, PartialEq, Eq, Structural)]
pub enum DroneAction {
    /// Hard left or brake.
    AvoidObstacle,
    /// Maintain position or orbit.
    Hold,
    /// Move toward the target bearing.
    Advance,
}

impl DroneAction {
    /// The action that a signed sum calls for: its sign decides.
    pub fn from_trit_sum(sum: i32) -> (action: Self)
        ensures
            sum < 0 ==> action == DroneAction::AvoidObstacle,
            sum == 0 ==> action == DroneAction::Hold,
            sum > 0 ==> action == DroneAction::Advance,
    {
        if sum < 0 {
            DroneAction::AvoidObstacle
        } else if sum > 0 {
            DroneAction::Advance
        } else {
            DroneAction::Hold
        }
    }
}

pub open spec fn sign_of(x: int) -> int {
    if x > 0 {
        1
    } else if x < 0 {
        -1
    } else {
        0
    }
}

/// A reading thresholded to -1, 0 or +1.
pub open spec fn quantized(x: Scalar) -> int {
    if x.above(Scalar { bits: DEAD_BAND }) {
        1
    } else if (Scalar { bits: MINUS_DEAD_BAND }).above(x) {
        -1
    } else {
        0
    }
}

/// Thresholds a reading: +1 above 0.15, -1 below -0.15, otherwise 0.
pub fn quantize(x: Scalar) -> (q: i8)
    ensures
        q == quantized(x),
        q == 1 <==> x.above(Scalar { bits: DEAD_BAND }),
        q == -1 <==> (Scalar { bits: MINUS_DEAD_BAND }).above(x),
        q == 0 <==> !x.above(Scalar { bits: DEAD_BAND }) && !(Scalar {
            bits: MINUS_DEAD_BAND,
        }).above(x),
{
    if x.exceeds(Scalar { bits: DEAD_BAND }) {
        1
    } else if (Scalar { bits: MINUS_DEAD_BAND }).exceeds(x) {
        -1
    } else {
        0
    }
}

/// Thresholds an accumulated sum at zero.
pub fn quantize_i32(x: i32) -> (q: i8)
    ensures
        q == sign_of(x as int),
        q == 1 <==> x > 0,
        q == -1 <==> x < 0,
        q == 0 <==> x == 0,
{
    if x > 0 {
        1
    } else if x < 0 {
        -1
    } else {
        0
    }
}

/// The sum of the first `n` inputs, each times its weight; the weights start at `from`.
pub open spec fn weighted_sum(weights: Seq<Trit>, from: int, inputs: Seq<int>, n: nat) -> int
    decreases n,
{
    if n == 0 {
        0
    } else {
        weighted_sum(weights, from, inputs, (n - 1) as nat) + weight_at(
            weights,
            from + n - 1,
        ).value() * inputs[n - 1]
    }
}

/// The first layer: the signs of eight sums over the four inputs.
pub open spec fn hidden_layer(weights: Seq<Trit>, inputs: Seq<int>) -> Seq<int> {
    Seq::new(8, |h: int| sign_of(weighted_sum(weights, 4 * h, inputs, 4)))
}

/// The score of one of the three outputs: a sum over the eight hidden units.
pub open spec fn score(weights: Seq<Trit>, inputs: Seq<int>, output: int) -> int {
    weighted_sum(weights, 32 + 8 * output, hidden_layer(weights, inputs), 8)
}

/// The action with the highest score. Holding wins every tie that it takes part in;
/// advancing wins over avoiding.
pub open spec fn best_action(avoid: int, hold: int, advance: int) -> DroneAction {
    if hold >= avoid && hold >= advance {
        DroneAction::Hold
    } else if advance >= avoid {
        DroneAction::Advance
    } else {
        DroneAction::AvoidObstacle
    }
}

/// What the network makes of four inputs.
pub open spec fn network_action(weights: Seq<Trit>, inputs: Seq<int>) -> DroneAction {
    best_action(
        score(weights, inputs, 0),
        score(weights, inputs, 1),
        score(weights, inputs, 2),
    )
}

/// `inputs` is what the network sees of the reading `s`: each sensor's distance from
/// neutral, as `unit` computes it, thresholded. The bearing is neutral at zero.
pub open spec fn sensed<U: Fn(ArithOp) -> Scalar>(
    unit: U,
    s: SensorReading,
    inputs: Seq<int>,
) -> bool {
    exists|clearance: Scalar, battery: Scalar, speed: Scalar|
        {
            &&& #[trigger] answers(
                unit,
                ArithOp::Sub(s.obstacle_clearance, Scalar { bits: NEUTRAL_CLEARANCE }),
                clearance,
            )
            &&& #[trigger] answers(
                unit,
                ArithOp::Sub(s.battery_soc, Scalar { bits: NEUTRAL_BATTERY }),
                battery,
            )
            &&& #[trigger] answers(
                unit,
                ArithOp::Sub(s.speed, Scalar { bits: NEUTRAL_SPEED }),
                speed,
            )
            &&& inputs == seq![
                quantized(clearance),
                quantized(s.target_bearing),
                quantized(battery),
                quantized(speed),
            ]
        }
}

/// A two-layer ternary network for drone navigation.
///
/// Layer 1: 4 inputs, 8 hidden units, 32 weights.
/// Layer 2: 8 hidden units, 3 outputs (avoid, hold, advance), 24 weights.
#[derive(Debug)]
pub struct TernaryNavNet {
    pub weights: WeightBank,
}

impl Clone for TernaryNavNet {
    fn clone(&self) -> (copy: Self)
        ensures
            copy.weights@ == self.weights@,
            copy.weights.version == self.weights.version,
            copy.weights.packed.canonical(),
    {
        TernaryNavNet { weights: self.weights.clone() }
    }
}

impl TernaryNavNet {
    pub const LAYER1_WEIGHTS: usize = 32;

    pub const LAYER2_WEIGHTS: usize = 24;

    pub const TOTAL_WEIGHTS: usize = 56;

    /// Builds a network from its 56 weights.
    pub fn new(trits: &[Trit; 56], version: u32) -> (net: Self)
        ensures
            net.weights@ == trits@,
            net.weights.version == version,
            net.weights.packed.canonical(),
    {
        TernaryNavNet { weights: WeightBank::pack(trits.as_slice(), version) }
    }

    /// The sum of `inputs`, each times its weight; the weights start at `from`.
    fn accumulate(&self, from: usize, inputs: &[i8]) -> (sum: i32)
        requires
            from + inputs@.len() <= usize::MAX,
            inputs@.len() <= 8,
        ensures
            sum == weighted_sum(
                self.weights@,
                from as int,
                inputs@.map_values(|x: i8| x as int),
                inputs@.len(),
            ),
    {
        let ghost xs = inputs@.map_values(|x: i8| x as int);
        let mut acc: i32 = 0;
        let mut i: usize = 0;
        while i < inputs.len()
            invariant
                i <= inputs@.len(),
                inputs@.len() <= 8,
                from + inputs@.len() <= usize::MAX,
                xs == inputs@.map_values(|x: i8| x as int),
                acc == weighted_sum(self.weights@, from as int, xs, i as nat),
                -128 * i <= acc <= 128 * i,
            decreases inputs@.len() - i,
        {
            let w: i8 = self.weights.get(from + i).to_i8();
            let x: i8 = inputs[i];
            assert(-128 <= w * x <= 128) by (nonlinear_arith)
                requires
                    -1 <= w <= 1,
                    -128 <= x <= 128,
            ;
            acc = acc + w as i32 * x as i32;
            i = i + 1;
        }
        acc
    }

    /// The network proper: from four inputs to an action, in integers only.
    pub fn forward(&self, inputs: &[i8; 4]) -> (action: DroneAction)
        ensures
            action == network_action(self.weights@, inputs@.map_values(|x: i8| x as int)),
    {
        let ghost xs = inputs@.map_values(|x: i8| x as int);
        let mut hidden: [i8; 8] = [0; 8];
        let mut h: usize = 0;
        while h < 8
            invariant
                h <= 8,
                xs == inputs@.map_values(|x: i8| x as int),
                forall|k: int|
                    0 <= k < h ==> #[trigger] hidden@[k] == sign_of(
                        weighted_sum(self.weights@, 4 * k, xs, 4),
                    ),
            decreases 8 - h,
        {
            let acc: i32 = self.accumulate(h * 4, inputs.as_slice());
            hidden[h] = quantize_i32(acc);
            h = h + 1;
        }
        assert(hidden@.map_values(|x: i8| x as int) =~= hidden_layer(self.weights@, xs));
        let avoid: i32 = self.accumulate(Self::LAYER1_WEIGHTS, hidden.as_slice());
        let hold: i32 = self.accumulate(Self::LAYER1_WEIGHTS + 8, hidden.as_slice());
        let advance: i32 = self.accumulate(Self::LAYER1_WEIGHTS + 16, hidden.as_slice());
        if hold >= avoid && hold >= advance {
            DroneAction::Hold
        } else if advance >= avoid {
            DroneAction::Advance
        } else {
            DroneAction::AvoidObstacle
        }
    }

    /// From a sensor reading to an action.
    pub fn infer<U: Fn(ArithOp) -> Scalar>(&self, unit: &U, s: &SensorReading) -> (action:
        DroneAction)
        requires
            takes_all(*unit),
        ensures
            exists|inputs: Seq<int>| #[trigger]
                sensed(*unit, *s, inputs) && action == network_action(self.weights@, inputs),
    {
        let clearance = compute(
            unit,
            ArithOp::Sub(s.obstacle_clearance, Scalar { bits: NEUTRAL_CLEARANCE }),
        );
        let battery = compute(unit, ArithOp::Sub(s.battery_soc, Scalar { bits: NEUTRAL_BATTERY }));
        let speed = compute(unit, ArithOp::Sub(s.speed, Scalar { bits: NEUTRAL_SPEED }));
        let inputs: [i8; 4] = [
            quantize(clearance),
            quantize(s.target_bearing),
            quantize(battery),
            quantize(speed),
        ];
        assert(inputs@.map_values(|x: i8| x as int) =~= seq![
            quantized(clearance),
            quantized(s.target_bearing),
            quantized(battery),
            quantized(speed),
        ]);
        assert(sensed(*unit, *s, inputs@.map_values(|x: i8| x as int)));
        self.forward(&inputs)
    }
}

proof fn lemma_weighted_sum_bounded(weights: Seq<Trit>, from: int, inputs: Seq<int>, n: nat)
    requires
        n <= inputs.len(),
        forall|i: int| 0 <= i < n ==> -1 <= #[trigger] inputs[i] <= 1,
    ensures
        -n <= weighted_sum(weights, from, inputs, n) <= n,
    decreases n,
{
    if n > 0 {
        lemma_weighted_sum_bounded(weights, from, inputs, (n - 1) as nat);
        let w = weight_at(weights, from + n - 1).value();
        let x = inputs[n - 1];
        assert(-1 <= w * x <= 1) by (nonlinear_arith)
            requires
                -1 <= w <= 1,
                -1 <= x <= 1,
        ;
    }
}

proof fn lemma_weighted_sum_zero(weights: Seq<Trit>, from: int, inputs: Seq<int>, n: nat)
    requires
        forall|i: int| #[trigger] weight_at(weights, i) == Trit::Zero,
    ensures
        weighted_sum(weights, from, inputs, n) == 0,
    decreases n,
{
    if n > 0 {
        lemma_weighted_sum_zero(weights, from, inputs, (n - 1) as nat);
        assert(weight_at(weights, from + n - 1) == Trit::Zero);
        assert(0 * inputs[n - 1] == 0) by (nonlinear_arith);
    }
}

proof fn lemma_weighted_sum_agrees(
    left: Seq<Trit>,
    right: Seq<Trit>,
    from: int,
    inputs: Seq<int>,
    n: nat,
)
    requires
        0 <= from,
        from + n <= 56,
        forall|i: int|
            0 <= i < 56 ==> #[trigger] weight_at(left, i) == weight_at(right, i),
    ensures
        weighted_sum(left, from, inputs, n) == weighted_sum(right, from, inputs, n),
    decreases n,
{
    if n > 0 {
        lemma_weighted_sum_agrees(left, right, from, inputs, (n - 1) as nat);
        assert(weight_at(left, from + n - 1) == weight_at(right, from + n - 1));
    }
}

/// Each weight of `right` is the negative of the weight of `left` at the same place.
pub open spec fn negated(left: Seq<Trit>, right: Seq<Trit>) -> bool {
    forall|i: int|
        0 <= i < 56 ==> #[trigger] weight_at(right, i).value() == -weight_at(left, i).value()
}

proof fn lemma_weighted_sum_negated(
    left: Seq<Trit>,
    right: Seq<Trit>,
    from: int,
    inputs: Seq<int>,
    n: nat,
)
    requires
        0 <= from,
        from + n <= 56,
        negated(left, right),
    ensures
        weighted_sum(right, from, inputs, n) == -weighted_sum(left, from, inputs, n),
    decreases n,
{
    if n > 0 {
        lemma_weighted_sum_negated(left, right, from, inputs, (n - 1) as nat);
        let w = weight_at(left, from + n - 1).value();
        let x = inputs[n - 1];
        assert(weight_at(right, from + n - 1).value() == -w);
        assert((-w) * x == -(w * x)) by (nonlinear_arith);
    }
}

proof fn lemma_weighted_sum_doubly_negated(
    left: Seq<Trit>,
    right: Seq<Trit>,
    from: int,
    inputs: Seq<int>,
    opposite: Seq<int>,
    n: nat,
)
    requires
        0 <= from,
        from + n <= 56,
        negated(left, right),
        forall|i: int| 0 <= i < n ==> #[trigger] opposite[i] == -inputs[i],
    ensures
        weighted_sum(right, from, opposite, n) == weighted_sum(left, from, inputs, n),
    decreases n,
{
    if n > 0 {
        lemma_weighted_sum_doubly_negated(
            left,
            right,
            from,
            inputs,
            opposite,
            (n - 1) as nat,
        );
        let w = weight_at(left, from + n - 1).value();
        let x = inputs[n - 1];
        assert(weight_at(right, from + n - 1).value() == -w);
        assert(opposite[n - 1] == -x);
        assert((-w) * (-x) == w * x) by (nonlinear_arith);
    }
}

/// On thresholded inputs no sum of the first layer leaves -4..=4 and no score leaves
/// -8..=8: eight-bit accumulators suffice.
pub proof fn sums_fit_in_a_byte(weights: Seq<Trit>, inputs: Seq<int>, h: int, output: int)
    requires
        inputs.len() == 4,
        forall|i: int| 0 <= i < 4 ==> -1 <= #[trigger] inputs[i] <= 1,
    ensures
        -4 <= weighted_sum(weights, 4 * h, inputs, 4) <= 4,
        -8 <= score(weights, inputs, output) <= 8,
{
    lemma_weighted_sum_bounded(weights, 4 * h, inputs, 4);
    lemma_weighted_sum_bounded(
        weights,
        32 + 8 * output,
        hidden_layer(weights, inputs),
        8,
    );
}

/// What the network sees of any reading is thresholded.
pub proof fn sensed_inputs_are_thresholded<U: Fn(ArithOp) -> Scalar>(
    unit: U,
    s: SensorReading,
    inputs: Seq<int>,
)
    requires
        sensed(unit, s, inputs),
    ensures
        inputs.len() == 4,
        forall|i: int| 0 <= i < 4 ==> -1 <= #[trigger] inputs[i] <= 1,
{
}

/// With a steady unit the network sees the same of the same reading.
pub proof fn sensing_is_reproducible<U: Fn(ArithOp) -> Scalar>(
    unit: U,
    s: SensorReading,
    left: Seq<int>,
    right: Seq<int>,
)
    requires
        steady(unit),
        sensed(unit, s, left),
        sensed(unit, s, right),
    ensures
        left == right,
{
}

/// A network whose weights are all zero holds, whatever it senses.
pub proof fn idle_network_holds(weights: Seq<Trit>, inputs: Seq<int>)
    requires
        forall|i: int| 0 <= i < weights.len() ==> #[trigger] weights[i] == Trit::Zero,
    ensures
        network_action(weights, inputs) == DroneAction::Hold,
{
    assert forall|i: int| #[trigger] weight_at(weights, i) == Trit::Zero by {}
    let hidden = hidden_layer(weights, inputs);
    lemma_weighted_sum_zero(weights, 32, hidden, 8);
    lemma_weighted_sum_zero(weights, 40, hidden, 8);
    lemma_weighted_sum_zero(weights, 48, hidden, 8);
}

/// Holding wins every tie for the highest score that it takes part in.
pub proof fn holding_wins_ties(weights: Seq<Trit>, inputs: Seq<int>)
    requires
        score(weights, inputs, 1) >= score(weights, inputs, 0),
        score(weights, inputs, 1) >= score(weights, inputs, 2),
    ensures
        network_action(weights, inputs) == DroneAction::Hold,
{
}

/// The chosen action has the highest score.
pub proof fn chosen_action_scores_highest(weights: Seq<Trit>, inputs: Seq<int>)
    ensures
        ({
            let chosen = match network_action(weights, inputs) {
                DroneAction::AvoidObstacle => score(weights, inputs, 0),
                DroneAction::Hold => score(weights, inputs, 1),
                DroneAction::Advance => score(weights, inputs, 2),
            };
            &&& chosen >= score(weights, inputs, 0)
            &&& chosen >= score(weights, inputs, 1)
            &&& chosen >= score(weights, inputs, 2)
        }),
{
}

/// Two weight banks that agree on the network's 56 weights steer alike.
pub proof fn only_network_weights_matter(left: Seq<Trit>, right: Seq<Trit>, inputs: Seq<int>)
    requires
        forall|i: int|
            0 <= i < 56 ==> #[trigger] weight_at(left, i) == weight_at(right, i),
    ensures
        network_action(left, inputs) == network_action(right, inputs),
{
    assert forall|h: int| 0 <= h < 8 implies #[trigger] hidden_layer(left, inputs)[h]
        == hidden_layer(right, inputs)[h] by {
        lemma_weighted_sum_agrees(left, right, 4 * h, inputs, 4);
    }
    assert(hidden_layer(left, inputs) =~= hidden_layer(right, inputs));
    let hidden = hidden_layer(left, inputs);
    lemma_weighted_sum_agrees(left, right, 32, hidden, 8);
    lemma_weighted_sum_agrees(left, right, 40, hidden, 8);
    lemma_weighted_sum_agrees(left, right, 48, hidden, 8);
}

/// Negating every weight of both layers changes nothing: each hidden unit flips, each score
/// stays, and so does the action.
pub proof fn negating_all_weights_changes_nothing(
    left: Seq<Trit>,
    right: Seq<Trit>,
    inputs: Seq<int>,
)
    requires
        negated(left, right),
    ensures
        forall|h: int|
            0 <= h < 8 ==> #[trigger] hidden_layer(right, inputs)[h] == -hidden_layer(
                left,
                inputs,
            )[h],
        forall|output: int|
            0 <= output < 3 ==> #[trigger] score(right, inputs, output) == score(
                left,
                inputs,
                output,
            ),
        network_action(right, inputs) == network_action(left, inputs),
{
    let hidden = hidden_layer(left, inputs);
    let flipped = hidden_layer(right, inputs);
    assert forall|h: int| 0 <= h < 8 implies #[trigger] flipped[h] == -hidden[h] by {
        lemma_weighted_sum_negated(left, right, 4 * h, inputs, 4);
    }
    assert forall|output: int| 0 <= output < 3 implies #[trigger] score(right, inputs, output)
        == score(left, inputs, output) by {
        lemma_weighted_sum_doubly_negated(
            left,
            right,
            32 + 8 * output,
            hidden,
            flipped,
            8,
        );
    }
    assert(score(right, inputs, 0) == score(left, inputs, 0));
    assert(score(right, inputs, 1) == score(left, inputs, 1));
    assert(score(right, inputs, 2) == score(left, inputs, 2));
}

/// With a steady unit a network and its negative make the same of every reading, whatever
/// their versions.
pub proof fn negated_networks_steer_alike<U: Fn(ArithOp) -> Scalar>(
    unit: U,
    s: SensorReading,
    left: Seq<Trit>,
    right: Seq<Trit>,
    left_action: DroneAction,
    right_action: DroneAction,
)
    requires
        steady(unit),
        negated(left, right),
        exists|inputs: Seq<int>| #[trigger]
            sensed(unit, s, inputs) && left_action == network_action(left, inputs),
        exists|inputs: Seq<int>| #[trigger]
            sensed(unit, s, inputs) && right_action == network_action(right, inputs),
    ensures
        left_action == right_action,
{
    let a = choose|inputs: Seq<int>| #[trigger]
        sensed(unit, s, inputs) && left_action == network_action(left, inputs);
    let b = choose|inputs: Seq<int>| #[trigger]
        sensed(unit, s, inputs) && right_action == network_action(right, inputs);
    sensing_is_reproducible(unit, s, a, b);
    negating_all_weights_changes_nothing(left, right, a);
}

/// The sign of a number: what it is for positive, negative and no numbers.
pub proof fn signs_are_signs(x: int)
    ensures
        sign_of(x) == 1 <==> x > 0,
        sign_of(x) == -1 <==> x < 0,
        sign_of(x) == 0 <==> x == 0,
        sign_of(-x) == -sign_of(x),
{
}

/// A larger reading is never thresholded to less. The dead band itself, its ends and what is
/// no number count as neutral, and everything outside does not.
pub proof fn thresholding_is_monotone(x: Scalar, y: Scalar)
    ensures
        x.above(y) ==> quantized(x) >= quantized(y),
        quantized(x) == 0 <==> !x.above(Scalar { bits: DEAD_BAND }) && !(Scalar {
            bits: MINUS_DEAD_BAND,
        }).above(x),
        quantized(x) > 0 ==> quantized(x) == 1 && x.above(Scalar { bits: DEAD_BAND }),
        quantized(x) < 0 ==> quantized(x) == -1 && (Scalar { bits: MINUS_DEAD_BAND }).above(x),
        x.is_nan() ==> quantized(x) == 0,
{
}

/// The network has four inputs, and each sees its own sensor: the clearance, the bearing,
/// the battery and the speed, in this order, the bearing as it is and the others as the
/// unit's difference from neutral.
pub proof fn each_sensor_feeds_its_own_input<U: Fn(ArithOp) -> Scalar>(
    unit: U,
    s: SensorReading,
    inputs: Seq<int>,
)
    requires
        sensed(unit, s, inputs),
    ensures
        inputs.len() == 4,
        exists|d: Scalar| #[trigger]
            answers(
                unit,
                ArithOp::Sub(s.obstacle_clearance, Scalar { bits: NEUTRAL_CLEARANCE }),
                d,
            ) && inputs[0] == quantized(d),
        inputs[1] == quantized(s.target_bearing),
        exists|d: Scalar| #[trigger]
            answers(unit, ArithOp::Sub(s.battery_soc, Scalar { bits: NEUTRAL_BATTERY }), d)
                && inputs[2] == quantized(d),
        exists|d: Scalar| #[trigger]
            answers(unit, ArithOp::Sub(s.speed, Scalar { bits: NEUTRAL_SPEED }), d) && inputs[3]
                == quantized(d),
{
}

/// Each hidden unit is the sign of the dot product of the four inputs with its four weights.
pub proof fn hidden_units_are_dot_products(weights: Seq<Trit>, inputs: Seq<int>, h: int)
    requires
        0 <= h < 8,
    ensures
        hidden_layer(weights, inputs).len() == 8,
        hidden_layer(weights, inputs)[h] == sign_of(
            weight_at(weights, 4 * h).value() * inputs[0]
                + weight_at(weights, 4 * h + 1).value() * inputs[1]
                + weight_at(weights, 4 * h + 2).value() * inputs[2]
                + weight_at(weights, 4 * h + 3).value() * inputs[3],
        ),
{
    reveal_with_fuel(weighted_sum, 5);
}

/// Each of the three scores is the dot product of all eight hidden units with that output's
/// eight weights.
pub proof fn scores_are_dot_products(weights: Seq<Trit>, inputs: Seq<int>, output: int)
    requires
        0 <= output < 3,
    ensures
        ({
            let hidden = hidden_layer(weights, inputs);
            score(weights, inputs, output) == weight_at(weights, 32 + 8 * output).value() * hidden[0]
                + weight_at(weights, 32 + 8 * output + 1).value() * hidden[1]
                + weight_at(weights, 32 + 8 * output + 2).value() * hidden[2]
                + weight_at(weights, 32 + 8 * output + 3).value() * hidden[3]
                + weight_at(weights, 32 + 8 * output + 4).value() * hidden[4]
                + weight_at(weights, 32 + 8 * output + 5).value() * hidden[5]
                + weight_at(weights, 32 + 8 * output + 6).value() * hidden[6]
                + weight_at(weights, 32 + 8 * output + 7).value() * hidden[7]
        }),
{
    reveal_with_fuel(weighted_sum, 9);
}

proof fn lemma_weighted_sum_differs_at(
    left: Seq<Trit>,
    right: Seq<Trit>,
    from: int,
    inputs: Seq<int>,
    n: nat,
    at: int,
)
    requires
        forall|i: int| i != at ==> #[trigger] weight_at(left, i) == weight_at(right, i),
    ensures
        weighted_sum(left, from, inputs, n) - weighted_sum(right, from, inputs, n) == (if from
            <= at < from + n {
            (weight_at(left, at).value() - weight_at(right, at).value()) * inputs[at - from]
        } else {
            0
        }),
    decreases n,
{
    if n > 0 {
        lemma_weighted_sum_differs_at(left, right, from, inputs, (n - 1) as nat, at);
        let last = from + n - 1;
        if last == at {
            let a = weight_at(left, at).value();
            let b = weight_at(right, at).value();
            let x = inputs[n - 1];
            assert((a - b) * x == a * x - b * x) by (nonlinear_arith);
        } else {
            assert(weight_at(left, last) == weight_at(right, last));
        }
    }
}

/// Every weight of the second layer counts: where two banks differ only in the weight between
/// hidden unit `h` and output `o`, the scores of that output differ by the difference of the
/// weights times the hidden unit, and the other scores agree.
pub proof fn every_output_weight_counts(
    left: Seq<Trit>,
    right: Seq<Trit>,
    inputs: Seq<int>,
    o: int,
    h: int,
    other: int,
)
    requires
        0 <= o < 3,
        0 <= h < 8,
        0 <= other < 3,
        forall|i: int| i != 32 + 8 * o + h ==> #[trigger] weight_at(left, i) == weight_at(right, i),
    ensures
        hidden_layer(left, inputs) == hidden_layer(right, inputs),
        score(left, inputs, o) - score(right, inputs, o) == (weight_at(
            left,
            32 + 8 * o + h,
        ).value() - weight_at(right, 32 + 8 * o + h).value()) * hidden_layer(left, inputs)[h],
        other != o ==> score(left, inputs, other) == score(right, inputs, other),
{
    let at = 32 + 8 * o + h;
    assert forall|k: int| 0 <= k < 8 implies #[trigger] hidden_layer(left, inputs)[k]
        == hidden_layer(right, inputs)[k] by {
        lemma_weighted_sum_differs_at(left, right, 4 * k, inputs, 4, at);
    }
    let hidden = hidden_layer(left, inputs);
    assert(hidden =~= hidden_layer(right, inputs));
    lemma_weighted_sum_differs_at(left, right, 32 + 8 * o, hidden, 8, at);
    lemma_weighted_sum_differs_at(left, right, 32 + 8 * other, hidden, 8, at);
}

/// Every weight of the first layer counts, for its own hidden unit only: where two banks
/// differ only in the weight between input `i` and hidden unit `h`, the sum behind that unit
/// differs by the difference of the weights times the input, and the other units agree.
pub proof fn every_hidden_weight_counts(
    left: Seq<Trit>,
    right: Seq<Trit>,
    inputs: Seq<int>,
    h: int,
    i: int,
    other: int,
)
    requires
        0 <= h < 8,
        0 <= i < 4,
        0 <= other < 8,
        forall|k: int| k != 4 * h + i ==> #[trigger] weight_at(left, k) == weight_at(right, k),
    ensures
        exists|sum: int|
            {
                &&& hidden_layer(right, inputs)[h] == #[trigger] sign_of(sum)
                &&& hidden_layer(left, inputs)[h] == sign_of(
                    sum + (weight_at(left, 4 * h + i).value() - weight_at(
                        right,
                        4 * h + i,
                    ).value()) * inputs[i],
                )
            },
        other != h ==> hidden_layer(left, inputs)[other] == hidden_layer(right, inputs)[other],
{
    let at = 4 * h + i;
    lemma_weighted_sum_differs_at(left, right, 4 * h, inputs, 4, at);
    lemma_weighted_sum_differs_at(left, right, 4 * other, inputs, 4, at);
    let sum = weighted_sum(right, 4 * h, inputs, 4);
    assert(hidden_layer(right, inputs)[h] == sign_of(sum));
}

/// Without weights in the second layer every score is zero, and the network holds.
pub proof fn no_output_weights_hold(weights: Seq<Trit>, inputs: Seq<int>, output: int)
    requires
        forall|i: int| 32 <= i < 56 ==> #[trigger] weight_at(weights, i).value() == 0,
        0 <= output < 3,
    ensures
        score(weights, inputs, output) == 0,
        network_action(weights, inputs) == DroneAction::Hold,
{
    let hidden = hidden_layer(weights, inputs);
    lemma_output_without_weights(weights, hidden, 0, 8);
    lemma_output_without_weights(weights, hidden, 1, 8);
    lemma_output_without_weights(weights, hidden, 2, 8);
}

proof fn lemma_output_without_weights(
    weights: Seq<Trit>,
    hidden: Seq<int>,
    output: int,
    n: nat,
)
    requires
        forall|i: int| 32 <= i < 56 ==> #[trigger] weight_at(weights, i).value() == 0,
        0 <= output < 3,
        n <= 8,
    ensures
        weighted_sum(weights, 32 + 8 * output, hidden, n) == 0,
    decreases n,
{
    if n > 0 {
        lemma_output_without_weights(weights, hidden, output, (n - 1) as nat);
        assert(weight_at(weights, 32 + 8 * output + n - 1).value() == 0);
        assert(0 * hidden[n - 1] == 0) by (nonlinear_arith);
    }
}

/// What the network does, by its three scores: it holds where no other score is higher;
/// otherwise it advances where avoiding does not score higher; otherwise it avoids.
pub proof fn scores_decide_the_action(weights: Seq<Trit>, inputs: Seq<int>)
    ensures
        ({
            let avoid = score(weights, inputs, 0);
            let hold = score(weights, inputs, 1);
            let advance = score(weights, inputs, 2);
            let action = network_action(weights, inputs);
            &&& action == DroneAction::Hold <==> hold >= avoid && hold >= advance
            &&& action == DroneAction::Advance <==> advance > hold && advance >= avoid
            &&& action == DroneAction::AvoidObstacle <==> avoid > hold && avoid > advance
        }),
{
}

} // verus!
