use drone_fleet_ternary::{Trit, WeightBank};

#[test]
fn trit_roundtrip() {
    for t in [Trit::Neg, Trit::Zero, Trit::Pos] {
        assert_eq!(Trit::from_bits(t.to_bits()), Some(t));
    }
    assert_eq!(Trit::from_bits(0b11), None);
}

#[test]
fn trit_i8_values() {
    assert_eq!(Trit::Neg.to_i8(), -1);
    assert_eq!(Trit::Zero.to_i8(), 0);
    assert_eq!(Trit::Pos.to_i8(), 1);
}

#[test]
fn weight_bank_density() {
    let trits = vec![Trit::Pos; 56];
    let bank = WeightBank::pack(&trits, 1);
    // 56 trits at 2 bits each fill 14 bytes: 4 words, 16 bytes.
    assert_eq!(bank.bytes_used(), 16);
    // At four bytes each they would take 56 * 4 = 224 bytes.
    assert_eq!(bank.bytes_fp32_equivalent(), 224);
    assert!(bank.bytes_used() < bank.bytes_fp32_equivalent());
}

#[test]
fn weight_bank_random_access() {
    let mut trits = [Trit::Zero; 56];
    trits[0] = Trit::Neg;
    trits[15] = Trit::Pos;
    trits[55] = Trit::Neg;
    let bank = WeightBank::pack(&trits, 1);
    assert_eq!(bank.get(0), Trit::Neg);
    assert_eq!(bank.get(15), Trit::Pos);
    assert_eq!(bank.get(55), Trit::Neg);
    assert_eq!(bank.get(10), Trit::Zero);
}

#[test]
fn trit_codes_use_two_bits() {
    assert_eq!(Trit::Neg.to_bits(), 0b00);
    assert_eq!(Trit::Zero.to_bits(), 0b01);
    assert_eq!(Trit::Pos.to_bits(), 0b10);
    // Higher bits do not matter.
    assert_eq!(Trit::from_bits(0b1111_1100), Some(Trit::Neg));
    assert_eq!(Trit::from_bits(0b0000_0101), Some(Trit::Zero));
    assert_eq!(Trit::from_bits(0b1000_0010), Some(Trit::Pos));
    assert_eq!(Trit::from_bits(0b0100_0111), None);
}

#[test]
fn packing_gives_back_every_weight() {
    for n in [0usize, 1, 2, 15, 16, 17, 31, 32, 33, 56, 100] {
        let trits: Vec<Trit> = (0..n)
            .map(|i| match (i * i + n) % 3 {
                0 => Trit::Neg,
                1 => Trit::Zero,
                _ => Trit::Pos,
            })
            .collect();
        let bank = WeightBank::pack(&trits, 9);
        assert_eq!(bank.len(), n);
        assert_eq!(bank.version, 9);
        for (i, &t) in trits.iter().enumerate() {
            assert_eq!(bank.get(i), t);
        }
        assert_eq!(bank.get(n), Trit::Zero);
        assert_eq!(bank.get(usize::MAX), Trit::Zero);
        assert_eq!(bank.bytes_used(), (n + 15) / 16 * 4);
    }
}

#[test]
fn full_words_are_sixteen_times_as_dense() {
    let bank = WeightBank::pack(&[Trit::Neg; 64], 1);
    assert_eq!(bank.bytes_used(), 16);
    assert_eq!(bank.bytes_fp32_equivalent(), 16 * bank.bytes_used());
}

#[test]
fn banks_compare_by_weights_and_version() {
    let bank = WeightBank::pack(&[Trit::Pos, Trit::Neg], 1);
    assert_eq!(bank.clone(), bank);
    assert_eq!(WeightBank::pack(&[Trit::Pos, Trit::Neg], 1), bank);
    assert_ne!(WeightBank::pack(&[Trit::Pos, Trit::Neg], 2), bank);
    assert_ne!(WeightBank::pack(&[Trit::Pos, Trit::Zero], 1), bank);
    // A weight that reads as -1 is not the same as no weight.
    assert_ne!(WeightBank::pack(&[Trit::Pos], 1), bank);
}

#[test]
fn unused_bits_decide_nothing() {
    for n in 0..40 {
        for m in 0..40 {
            let left = WeightBank::pack(&vec![Trit::Neg; n], 3);
            let right = WeightBank::pack(&vec![Trit::Neg; m], 3);
            assert_eq!(left == right, n == m);
            assert!(left.clone() == left);
        }
    }
    assert_ne!(WeightBank::pack(&[Trit::Neg], 1), WeightBank::pack(&[], 1));
    let mut trits = vec![Trit::Pos; 20];
    let bank = WeightBank::pack(&trits, 1);
    for i in 0..20 {
        trits[i] = Trit::Zero;
        assert_ne!(WeightBank::pack(&trits, 1), bank);
        trits[i] = Trit::Pos;
    }
    assert_eq!(WeightBank::pack(&trits, 1), bank);
}
