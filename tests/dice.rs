use aos_stats::bignat::BigNat;
use aos_stats::combat_stats::Characteristic;
use aos_stats::dice::{DiceRoll, DiceRollParseError};
use aos_stats::probability::Probability;

fn big_to_f64(b: &BigNat) -> f64 {
    let mut v = 0.0;
    for limb in b.limbs().iter().rev() {
        v = v * 4294967296.0 + *limb as f64;
    }
    v
}

fn prob_f64(p: &Probability) -> f64 {
    big_to_f64(&p.numerator) / 6f64.powi(p.exponent as i32)
}

fn close(a: f64, b: f64) -> bool {
    (a - b).abs() < 1e-12
}

#[test]
fn d6_is_uniform_over_six_faces() {
    let r = DiceRoll::D6.values_and_probas();
    assert_eq!(r.len(), 6);
    for (i, (value, p)) in r.iter().enumerate() {
        assert_eq!(*value, i as u64 + 1);
        assert!(close(prob_f64(p), 1.0 / 6.0));
    }
}

#[test]
fn two_d6_sum_distribution() {
    let r = DiceRoll::ND6(2).values_and_probas();
    assert_eq!(r.len(), 11);
    let find = |v: u64| r.iter().find(|(x, _)| *x == v).map(|(_, p)| prob_f64(p)).unwrap();
    assert!(close(find(7), 6.0 / 36.0));
    assert!(close(find(2), 1.0 / 36.0));
    assert!(close(find(12), 1.0 / 36.0));
    assert!(close(find(6), 5.0 / 36.0));
}

#[test]
fn d3_plus_bonus_shifts_values() {
    let r = DiceRoll::D3Plus(2).values_and_probas();
    let values: Vec<u64> = r.iter().map(|(v, _)| *v).collect();
    assert_eq!(values, vec![3, 4, 5]);
    for (_, p) in r.iter() {
        assert!(close(prob_f64(p), 1.0 / 3.0));
    }
}

#[test]
fn nd3_plus_distribution() {
    let r = DiceRoll::ND3Plus(2, 1).values_and_probas();
    let got: Vec<(u64, f64)> = r.iter().map(|(v, p)| (*v, prob_f64(p))).collect();
    let want = [(3, 1.0 / 9.0), (4, 2.0 / 9.0), (5, 3.0 / 9.0), (6, 2.0 / 9.0), (7, 1.0 / 9.0)];
    assert_eq!(got.len(), want.len());
    for (g, w) in got.iter().zip(want.iter()) {
        assert_eq!(g.0, w.0);
        assert!(close(g.1, w.1));
    }
}

#[test]
fn zero_dice_is_certain_zero() {
    let r = DiceRoll::ND6(0).values_and_probas();
    assert_eq!(r.len(), 1);
    assert_eq!(r[0].0, 0);
    assert!(close(prob_f64(&r[0].1), 1.0));
}

#[test]
fn every_roll_sums_to_one() {
    let rolls = [
        DiceRoll::D6,
        DiceRoll::D3,
        DiceRoll::ND6(3),
        DiceRoll::ND3(4),
        DiceRoll::D6Plus(1),
        DiceRoll::D3Plus(5),
        DiceRoll::ND3Plus(2, 2),
        DiceRoll::ND6Plus(5, 3),
    ];
    for roll in rolls.iter() {
        let total: f64 = roll.values_and_probas().iter().map(|(_, p)| prob_f64(p)).sum();
        assert!((total - 1.0).abs() < 1e-9);
    }
}

#[test]
fn characteristic_value_is_certain() {
    let r = Characteristic::Value(4).values_and_probas();
    assert_eq!(r.len(), 1);
    assert_eq!(r[0].0, 4);
    assert!(close(prob_f64(&r[0].1), 1.0));
}

#[test]
fn parses_notations() {
    assert_eq!(DiceRoll::from_str("D6".to_string()), Ok(DiceRoll::D6));
    assert_eq!(DiceRoll::from_str("1D6".to_string()), Ok(DiceRoll::D6));
    assert_eq!(DiceRoll::from_str("D3".to_string()), Ok(DiceRoll::D3));
    assert_eq!(DiceRoll::from_str("2D6".to_string()), Ok(DiceRoll::ND6(2)));
    assert_eq!(DiceRoll::from_str("4D3".to_string()), Ok(DiceRoll::ND3(4)));
    assert_eq!(DiceRoll::from_str("D6+1".to_string()), Ok(DiceRoll::D6Plus(1)));
    assert_eq!(DiceRoll::from_str("D3+2".to_string()), Ok(DiceRoll::D3Plus(2)));
    assert_eq!(DiceRoll::from_str("3D3+2".to_string()), Ok(DiceRoll::ND3Plus(3, 2)));
    assert_eq!(DiceRoll::from_str("2D6+10".to_string()), Ok(DiceRoll::ND6Plus(2, 10)));
    assert_eq!(DiceRoll::from_str("2D6+0".to_string()), Ok(DiceRoll::ND6(2)));
    assert_eq!(DiceRoll::from_str("0D6".to_string()), Ok(DiceRoll::ND6(0)));
}

#[test]
fn refuses_bad_face_count() {
    assert_eq!(DiceRoll::from_str("D4".to_string()), Err(DiceRollParseError::InvalidFaceNumber));
    assert_eq!(DiceRoll::from_str("2D8+1".to_string()), Err(DiceRollParseError::InvalidFaceNumber));
}

#[test]
fn refuses_malformed_notation() {
    let bad = ["", "D", "6", "2X6", "D6+", "D6+x", "d6", "D12", "2D6 ", " D6", "D6+1+2", "99999999999D6", "D6+99999999999"];
    for text in bad.iter() {
        assert_eq!(DiceRoll::from_str(text.to_string()), Err(DiceRollParseError::InvalidFormat), "{}", text);
    }
}

#[test]
fn bignat_arithmetic() {
    let a = BigNat::from_u64(u64::MAX);
    let b = BigNat::from_u64(3);
    let s = a.add(&b);
    assert_eq!(s.limbs().clone(), vec![2, 0, 1]);
    let p = a.mul(&a);
    // (2^64 - 1)^2 = 2^128 - 2^65 + 1
    assert_eq!(p.limbs().clone(), vec![1, 0, 0xffff_fffe, 0xffff_ffff]);
    assert_eq!(BigNat::zero().limbs().len(), 0);
    let c = BigNat::from_u64(7).mul_limb(6);
    assert!(close(big_to_f64(&c), 42.0));
}
