use drone_fleet_ternary::nav::{
    quantize, quantize_i32, DEAD_BAND, MINUS_DEAD_BAND, NEUTRAL_BATTERY, NEUTRAL_CLEARANCE,
    NEUTRAL_SPEED,
};
use drone_fleet_ternary::{
    ArithOp, DroneAction, Scalar, SensorReading, TernaryNavNet, Trit, WeightBank,
};

fn s(v: f32) -> Scalar {
    Scalar { bits: v.to_bits() }
}

fn ieee(op: ArithOp) -> Scalar {
    let f = |x: Scalar| f32::from_bits(x.bits);
    s(match op {
        ArithOp::Add(a, b) => f(a) + f(b),
        ArithOp::Sub(a, b) => f(a) - f(b),
        ArithOp::Mul(a, b) => f(a) * f(b),
        ArithOp::Div(a, b) => f(a) / f(b),
        ArithOp::Sqrt(a) => f(a).sqrt(),
        ArithOp::Count(n) => n as f32,
    })
}

fn reading(clearance: f32, bearing: f32, battery: f32, speed: f32) -> SensorReading {
    SensorReading {
        obstacle_clearance: s(clearance),
        target_bearing: s(bearing),
        battery_soc: s(battery),
        speed: s(speed),
    }
}

fn advance_biased_net() -> TernaryNavNet {
    let mut trits = [Trit::Zero; 56];
    for i in 0..4 {
        trits[i * 4 + 1] = Trit::Pos;
    }
    for h in 0..8 {
        trits[32 + 2 * 8 + h] = Trit::Pos;
    }
    TernaryNavNet::new(&trits, 1)
}

#[test]
fn nav_advances_toward_target() {
    let net = advance_biased_net();
    // Target to the right.
    let sensor = reading(0.9, 0.8, 0.8, 0.3);
    assert_eq!(net.infer(&ieee, &sensor), DroneAction::Advance);
}

#[test]
fn nav_avoids_obstacle_when_sensor_triggers() {
    let mut trits = [Trit::Zero; 56];
    // Obstacle clearance (input 0), inverted, drives the hidden units.
    for h in 0..4 {
        trits[h * 4] = Trit::Neg;
    }
    // The hidden units drive avoidance (output 0).
    for h in 0..4 {
        trits[32 + h] = Trit::Pos;
    }
    let net = TernaryNavNet::new(&trits, 2);
    // Obstacle right in front.
    let sensor = reading(0.0, 0.0, 0.8, 0.3);
    assert_eq!(net.infer(&ieee, &sensor), DroneAction::AvoidObstacle);
}

#[test]
fn nav_holds_with_all_zero_weights() {
    let trits = [Trit::Zero; 56];
    let net = TernaryNavNet::new(&trits, 0);
    let sensor = reading(0.5, 0.5, 0.5, 0.5);
    // All outputs are tied at zero.
    assert_eq!(net.infer(&ieee, &sensor), DroneAction::Hold);
}

#[test]
fn weight_hotswap_changes_behavior() {
    let advance_net = advance_biased_net();
    let mut avoid_trits = [Trit::Zero; 56];
    for h in 0..4 {
        avoid_trits[h * 4] = Trit::Neg;
    }
    for h in 0..4 {
        avoid_trits[32 + h] = Trit::Pos;
    }
    let avoid_net = TernaryNavNet::new(&avoid_trits, 2);

    let sensor = reading(0.0, 0.8, 0.8, 0.3);
    let before = advance_net.infer(&ieee, &sensor);
    let after = avoid_net.infer(&ieee, &sensor);
    assert_ne!(before, after, "hotswap should change behavior on identical sensor input");
    assert_eq!(before, DroneAction::Advance);
    assert_eq!(after, DroneAction::AvoidObstacle);
    assert_eq!(avoid_net.weights.version, 2);
}

#[test]
fn neutral_points_are_the_numbers_they_name() {
    assert_eq!(DEAD_BAND, 0.15f32.to_bits());
    assert_eq!(MINUS_DEAD_BAND, (-0.15f32).to_bits());
    assert_eq!(NEUTRAL_CLEARANCE, 0.3f32.to_bits());
    assert_eq!(NEUTRAL_BATTERY, 0.25f32.to_bits());
    assert_eq!(NEUTRAL_SPEED, 0.1f32.to_bits());
}

#[test]
fn readings_are_thresholded_at_the_dead_band() {
    assert_eq!(quantize(s(0.15)), 0);
    assert_eq!(quantize(s(-0.15)), 0);
    assert_eq!(quantize(s(f32::from_bits(0.15f32.to_bits() + 1))), 1);
    assert_eq!(quantize(s(f32::from_bits((-0.15f32).to_bits() + 1))), -1);
    assert_eq!(quantize(s(0.0)), 0);
    assert_eq!(quantize(s(1.0)), 1);
    assert_eq!(quantize(s(-1.0)), -1);
    assert_eq!(quantize(s(f32::NAN)), 0);
    assert_eq!(quantize(s(f32::INFINITY)), 1);
    assert_eq!(quantize_i32(-7), -1);
    assert_eq!(quantize_i32(0), 0);
    assert_eq!(quantize_i32(i32::MAX), 1);
    assert_eq!(quantize_i32(i32::MIN), -1);
}

#[test]
fn signed_sums_name_actions() {
    assert_eq!(DroneAction::from_trit_sum(-3), DroneAction::AvoidObstacle);
    assert_eq!(DroneAction::from_trit_sum(i32::MIN), DroneAction::AvoidObstacle);
    assert_eq!(DroneAction::from_trit_sum(0), DroneAction::Hold);
    assert_eq!(DroneAction::from_trit_sum(1), DroneAction::Advance);
    assert_eq!(DroneAction::from_trit_sum(i32::MAX), DroneAction::Advance);
}

/// A network that scores every output by the same input, with the given signs.
fn scoring_net(avoid: Trit, hold: Trit, advance: Trit) -> TernaryNavNet {
    let mut trits = [Trit::Zero; 56];
    trits[0] = Trit::Pos;
    trits[32] = avoid;
    trits[40] = hold;
    trits[48] = advance;
    TernaryNavNet::new(&trits, 1)
}

#[test]
fn ties_are_broken_toward_holding_and_then_advancing() {
    let inputs = [1i8, 0, 0, 0];
    let net = scoring_net(Trit::Pos, Trit::Pos, Trit::Pos);
    assert_eq!(net.forward(&inputs), DroneAction::Hold);
    let net = scoring_net(Trit::Pos, Trit::Zero, Trit::Pos);
    assert_eq!(net.forward(&inputs), DroneAction::Advance);
    let net = scoring_net(Trit::Pos, Trit::Zero, Trit::Zero);
    assert_eq!(net.forward(&inputs), DroneAction::AvoidObstacle);
    let net = scoring_net(Trit::Zero, Trit::Zero, Trit::Pos);
    assert_eq!(net.forward(&inputs), DroneAction::Advance);
    let net = scoring_net(Trit::Neg, Trit::Neg, Trit::Neg);
    assert_eq!(net.forward(&inputs), DroneAction::Hold);
    let net = scoring_net(Trit::Neg, Trit::Pos, Trit::Zero);
    assert_eq!(net.forward(&inputs), DroneAction::Hold);
}

#[test]
fn hidden_units_saturate() {
    // One hidden unit sums four inputs to 4, another sees a single input; both count 1.
    let mut trits = [Trit::Zero; 56];
    for i in 0..4 {
        trits[i] = Trit::Pos;
    }
    trits[4] = Trit::Pos;
    trits[8] = Trit::Pos;
    trits[32] = Trit::Pos;
    trits[48 + 1] = Trit::Pos;
    trits[48 + 2] = Trit::Pos;
    let net = TernaryNavNet::new(&trits, 1);
    // Avoid scores 1 and advance 2.
    assert_eq!(net.forward(&[1, 1, 1, 1]), DroneAction::Advance);
    assert_eq!(net.forward(&[-1, -1, -1, -1]), DroneAction::Hold);
}

#[test]
fn each_sensor_reaches_its_own_input() {
    for input in 0..4 {
        let mut trits = [Trit::Zero; 56];
        trits[input] = Trit::Pos;
        trits[48] = Trit::Pos;
        let net = TernaryNavNet::new(&trits, 1);
        let neutral = reading(0.3, 0.0, 0.25, 0.1);
        assert_eq!(net.infer(&ieee, &neutral), DroneAction::Hold);
        let excited = match input {
            0 => reading(0.5, 0.0, 0.25, 0.1),
            1 => reading(0.3, 0.2, 0.25, 0.1),
            2 => reading(0.3, 0.0, 0.45, 0.1),
            _ => reading(0.3, 0.0, 0.25, 0.3),
        };
        assert_eq!(net.infer(&ieee, &excited), DroneAction::Advance);
    }
}

#[test]
fn inference_asks_for_three_differences() {
    let asked = std::cell::RefCell::new(Vec::new());
    let unit = |op: ArithOp| {
        asked.borrow_mut().push(op);
        ieee(op)
    };
    let net = advance_biased_net();
    net.infer(&unit, &reading(0.9, 0.8, 0.7, 0.6));
    assert_eq!(
        asked.into_inner(),
        vec![
            ArithOp::Sub(s(0.9), s(0.3)),
            ArithOp::Sub(s(0.7), s(0.25)),
            ArithOp::Sub(s(0.6), s(0.1)),
        ]
    );
}

#[test]
fn weights_beyond_the_network_do_not_steer() {
    let mut longer = vec![Trit::Zero; 80];
    let mut trits = [Trit::Zero; 56];
    trits[1] = Trit::Pos;
    trits[48] = Trit::Pos;
    longer[..56].copy_from_slice(&trits);
    for t in longer[56..].iter_mut() {
        *t = Trit::Neg;
    }
    let exact = TernaryNavNet::new(&trits, 1);
    let padded = TernaryNavNet { weights: WeightBank::pack(&longer, 1) };
    // Missing weights read as zero.
    let short = TernaryNavNet { weights: WeightBank::pack(&trits[..49], 1) };
    for a in -1i8..=1 {
        for b in -1i8..=1 {
            let inputs = [a, b, 1, -1];
            assert_eq!(exact.forward(&inputs), padded.forward(&inputs));
            assert_eq!(exact.forward(&inputs), short.forward(&inputs));
        }
    }
}

#[test]
fn a_copied_network_steers_alike() {
    let net = advance_biased_net();
    let copy = net.clone();
    assert_eq!(copy.weights, net.weights);
    assert_eq!(copy.forward(&[0, 1, 0, 0]), DroneAction::Advance);
    assert_eq!(TernaryNavNet::LAYER1_WEIGHTS, 32);
    assert_eq!(TernaryNavNet::LAYER2_WEIGHTS, 24);
    assert_eq!(TernaryNavNet::TOTAL_WEIGHTS, 56);
    assert_eq!(net.weights.len(), TernaryNavNet::TOTAL_WEIGHTS);
}

#[test]
fn negating_all_weights_steers_alike() {
    for seed in 0..50usize {
        let mut trits = [Trit::Zero; 56];
        let mut opposite = [Trit::Zero; 56];
        for i in 0..56 {
            let (t, o) = match (seed * 31 + i * i * 7 + i * seed) % 3 {
                0 => (Trit::Neg, Trit::Pos),
                1 => (Trit::Zero, Trit::Zero),
                _ => (Trit::Pos, Trit::Neg),
            };
            trits[i] = t;
            opposite[i] = o;
        }
        let net = TernaryNavNet::new(&trits, 1);
        let negative = TernaryNavNet::new(&opposite, 2);
        for k in 0..81 {
            let level = |n: i32| (n % 3 - 1) as f32;
            let sensor = reading(level(k), level(k / 3), level(k / 9), level(k / 27));
            assert_eq!(net.infer(&ieee, &sensor), negative.infer(&ieee, &sensor));
        }
    }
}
