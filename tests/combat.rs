use aos_stats::bignat::BigNat;
use aos_stats::combat_stats::{AttackStats, Characteristic, DefenseStats, RollModifier};
use aos_stats::combat_tree::{compute_damages, CombatConfig, CombatError, CombatNode, CombatStatus, CombatTree};
use aos_stats::dice::DiceRoll;
use aos_stats::partitions::{generate_partitions, generate_partitions_probabilities};
use aos_stats::probability::Probability;
use aos_stats::rules::{HitRule, Rule, WardRule};
use statrs::distribution::{Binomial, Discrete};

fn big_to_f64(b: &BigNat) -> f64 {
    let mut v = 0.0;
    for limb in b.limbs().iter().rev() {
        v = v * 4294967296.0 + *limb as f64;
    }
    v
}

fn prob_f64(p: &Probability) -> f64 {
    big_to_f64(&p.numerator) / 6f64.powi(p.exponent as i32)
}

fn close(a: f64, b: f64) -> bool {
    (a - b).abs() < 1e-12
}

fn config(attacks: Characteristic, to_hit: u32, to_wound: u32, rend: u32, damages: Characteristic, to_save: u32, ward: Option<u32>) -> CombatConfig {
    CombatConfig::new(
        AttackStats::new(attacks, to_hit, to_wound, rend, damages),
        DefenseStats::new(to_save, ward),
    )
}

fn full_sequence() -> Vec<Rule> {
    vec![Rule::AttackCharacteristic, Rule::Hit, Rule::Wound, Rule::Save, Rule::Damages, Rule::Ward]
}

fn distribution(cfg: CombatConfig, rules: &Vec<Rule>) -> Vec<(u32, f64)> {
    compute_damages(cfg, rules).unwrap().iter().map(|(d, p)| (*d, prob_f64(p))).collect()
}

#[test]
fn partitions_of_two_into_three() {
    let parts = generate_partitions(3, 2);
    let want: Vec<Vec<u32>> = vec![
        vec![0, 0, 2],
        vec![0, 1, 1],
        vec![0, 2, 0],
        vec![1, 0, 1],
        vec![1, 1, 0],
        vec![2, 0, 0],
    ];
    assert_eq!(parts, want);
}

#[test]
fn partition_count_is_binomial() {
    // C(n + k - 1, k - 1) for n = 5, k = 4: C(8, 3) = 56
    assert_eq!(generate_partitions(4, 5).len(), 56);
    assert_eq!(generate_partitions(1, 7), vec![vec![7]]);
    assert_eq!(generate_partitions(3, 0), vec![vec![0, 0, 0]]);
}

#[test]
fn partition_weights_sum_to_total_power() {
    let weights = vec![BigNat::from_u64(1), BigNat::from_u64(2), BigNat::from_u64(3)];
    let parts = generate_partitions_probabilities(4, &weights);
    let total: f64 = parts.iter().map(|(_, w)| big_to_f64(w)).sum();
    assert!(close(total, 1296.0));
    // [1, 1, 2]: 4! / (1! 1! 2!) * 1 * 2 * 9 = 12 * 18 = 216
    let w = parts.iter().find(|(c, _)| *c == vec![1, 1, 2]).unwrap();
    assert!(close(big_to_f64(&w.1), 216.0));
}

#[test]
fn modifiers_are_clamped() {
    let m = RollModifier::new(2, -3, -3);
    assert_eq!(m.apply_to_hit_modifier(3), 4);
    assert_eq!(m.apply_to_wound_modifier(3), 2);
    assert_eq!(m.apply_to_save_modifier(4), 1);
    assert_eq!(RollModifier::new(0, 0, -9).apply_to_save_modifier(2), 0);
    assert_eq!(RollModifier::new(0, 0, 5).apply_to_save_modifier(2), 3);
    assert_eq!(RollModifier::new_null().apply_to_hit_modifier(5), 5);
    let sum = RollModifier::new(1, 0, -1).add(RollModifier::new(1, 2, 3));
    assert_eq!(sum, RollModifier::new(2, 2, 2));
    let mut acc = RollModifier::new_null();
    acc.add_assign(RollModifier::new(-1, 1, 0));
    assert_eq!(acc, RollModifier::new(-1, 1, 0));
}

#[test]
fn with_ward_zero_means_none() {
    let d = DefenseStats::new(4, Some(5));
    assert_eq!(d.with_ward(0).ward, None);
    assert_eq!(d.with_ward(6).ward, Some(6));
    assert_eq!(d.with_to_save(3).to_save, 3);
}

#[test]
fn hit_count_is_binomial() {
    let cfg = config(Characteristic::Value(5), 4, 4, 0, Characteristic::Value(1), 4, None);
    let mut tree = CombatTree::new(cfg);
    tree.build(&vec![Rule::AttackCharacteristic, HitRule.rule()]).unwrap();
    let mut by_hits = [0.0f64; 6];
    for leaf in tree.leaves().iter() {
        assert_eq!(leaf.status.attacks, 0);
        by_hits[leaf.status.hits as usize] += prob_f64(&leaf.probability);
    }
    assert!(close(by_hits[5], 0.03125));
    let binomial = Binomial::new(0.5, 5).unwrap();
    for k in 0..6 {
        assert!(close(by_hits[k], binomial.pmf(k as u64)));
    }
}

#[test]
fn single_attack_full_chain() {
    let cfg = config(Characteristic::Value(1), 4, 4, 0, Characteristic::Value(1), 4, None);
    let d = distribution(cfg, &full_sequence());
    assert_eq!(d.len(), 2);
    assert_eq!(d[0].0, 0);
    assert_eq!(d[1].0, 1);
    assert!(close(d[0].1, 7.0 / 8.0));
    assert!(close(d[1].1, 1.0 / 8.0));
    assert!(close(d[0].1 + d[1].1, 1.0));
}

#[test]
fn ward_on_three_damage_is_binomial() {
    let cfg = config(Characteristic::Value(1), 4, 4, 0, Characteristic::Value(1), 4, Some(5));
    let node = CombatNode::new(CombatStatus::new_with_values(0, 0, 0, 0, 3), Probability::one());
    let children = WardRule.rule().apply(&node, &cfg).unwrap();
    let mut by_damage = [0.0f64; 4];
    for c in children.iter() {
        by_damage[c.status.damages as usize] += prob_f64(&c.probability);
    }
    let warded = Binomial::new(2.0 / 6.0, 3).unwrap();
    for saved in 0..4u64 {
        assert!(close(by_damage[3 - saved as usize], warded.pmf(saved)));
    }
    assert!(close(by_damage[3], 8.0 / 27.0));
    assert!(close(by_damage[0], 1.0 / 27.0));
}

#[test]
fn ward_without_threshold_keeps_leaf() {
    let cfg = config(Characteristic::Value(1), 4, 4, 0, Characteristic::Value(1), 4, None);
    let node = CombatNode::new(CombatStatus::new_with_values(0, 0, 0, 0, 3), Probability::one());
    assert_eq!(Rule::Ward.apply(&node, &cfg).unwrap().len(), 0);
    let mut tree = CombatTree::new(cfg);
    tree.build(&vec![Rule::Ward]).unwrap();
    assert_eq!(tree.leaves().len(), 1);
    assert!(close(prob_f64(&tree.leaves()[0].probability), 1.0));
}

#[test]
fn critical_hit_variants() {
    // to-hit 7: only a six (critical) does anything
    let cfg = config(Characteristic::Value(1), 7, 4, 0, Characteristic::Value(1), 7, None);
    let root = CombatNode::new(CombatStatus::new_with_values(1, 0, 0, 0, 0), Probability::one());
    let double = Rule::CritDoubleHit.apply(&root, &cfg).unwrap();
    let hit2: f64 = double.iter().filter(|c| c.status.hits == 2).map(|c| prob_f64(&c.probability)).sum();
    assert!(close(hit2, 1.0 / 6.0));
    let mortal = Rule::CritMortalWound.apply(&root, &cfg).unwrap();
    let mw: f64 = mortal.iter().filter(|c| c.status.mortal_wounds == 1 && c.status.hits == 0).map(|c| prob_f64(&c.probability)).sum();
    assert!(close(mw, 1.0 / 6.0));
    let auto = Rule::CritAutoWound.apply(&root, &cfg).unwrap();
    let aw: f64 = auto.iter().filter(|c| c.status.wounds == 1 && c.status.hits == 0).map(|c| prob_f64(&c.probability)).sum();
    assert!(close(aw, 1.0 / 6.0));
    let plain = Rule::Hit.apply(&root, &cfg).unwrap();
    let h: f64 = plain.iter().filter(|c| c.status.hits == 1).map(|c| prob_f64(&c.probability)).sum();
    assert!(close(h, 1.0 / 6.0));
}

#[test]
fn mortal_wounds_skip_wound_and_save() {
    // every hit roll misses except a six, which is a mortal wound; saves always succeed
    let cfg = config(Characteristic::Value(1), 7, 2, 0, Characteristic::Value(2), 2, None);
    let seq = vec![Rule::AttackCharacteristic, Rule::CritMortalWound, Rule::Wound, Rule::Save, Rule::Damages];
    let d = distribution(cfg, &seq);
    assert_eq!(d.len(), 2);
    assert_eq!(d[1].0, 2);
    assert!(close(d[1].1, 1.0 / 6.0));
}

#[test]
fn random_damage_sums_dice() {
    // two wounds, nothing saves, D3 damage each
    let cfg = config(Characteristic::Value(0), 4, 4, 0, Characteristic::DiceRoll(DiceRoll::D3), 7, None);
    let node = CombatNode::new(CombatStatus::new_with_values(0, 0, 2, 0, 0), Probability::one());
    let children = Rule::Damages.apply(&node, &cfg).unwrap();
    let mut by_damage = [0.0f64; 7];
    for c in children.iter() {
        assert_eq!(c.status.wounds, 0);
        by_damage[c.status.damages as usize] += prob_f64(&c.probability);
    }
    let want = [0.0, 0.0, 1.0 / 9.0, 2.0 / 9.0, 3.0 / 9.0, 2.0 / 9.0, 1.0 / 9.0];
    for k in 0..7 {
        assert!(close(by_damage[k], want[k]));
    }
}

#[test]
fn random_attacks_follow_the_die() {
    let cfg = config(Characteristic::DiceRoll(DiceRoll::D3Plus(1)), 4, 4, 0, Characteristic::Value(1), 4, None);
    let root = CombatNode::new(CombatStatus::new(), Probability::one());
    let children = Rule::AttackCharacteristic.apply(&root, &cfg).unwrap();
    let attacks: Vec<u32> = children.iter().map(|c| c.status.attacks).collect();
    assert_eq!(attacks, vec![2, 3, 4]);
    for c in children.iter() {
        assert!(close(prob_f64(&c.probability), 1.0 / 3.0));
    }
}

#[test]
fn rend_and_save_modifier() {
    // save 4+ with rend 1 needs 5+: saved with 2/6; a +1 save modifier brings it back to 4+
    let cfg = config(Characteristic::Value(1), 4, 4, 1, Characteristic::Value(1), 4, None);
    let node = CombatNode::new(CombatStatus::new_with_values(0, 0, 1, 0, 0), Probability::one());
    let children = Rule::Save.apply(&node, &cfg).unwrap();
    let unsaved: f64 = children.iter().filter(|c| c.status.wounds == 1).map(|c| prob_f64(&c.probability)).sum();
    assert!(close(unsaved, 4.0 / 6.0));
    let modded = CombatConfig::new_with_modifiers(cfg.attack_stats, cfg.defense_stats, RollModifier::new(0, 0, 1));
    let children = Rule::Save.apply(&node, &modded).unwrap();
    let unsaved: f64 = children.iter().filter(|c| c.status.wounds == 1).map(|c| prob_f64(&c.probability)).sum();
    assert!(close(unsaved, 3.0 / 6.0));
}

#[test]
fn distribution_sums_to_one_and_is_sorted() {
    let cfg = config(
        Characteristic::DiceRoll(DiceRoll::ND3(2)),
        3,
        4,
        1,
        Characteristic::DiceRoll(DiceRoll::D3),
        4,
        Some(6),
    );
    let d = distribution(cfg, &full_sequence());
    let total: f64 = d.iter().map(|(_, p)| *p).sum();
    assert!((total - 1.0).abs() < 1e-9);
    for w in d.windows(2) {
        assert!(w[0].0 < w[1].0);
    }
}

#[test]
fn repeated_runs_agree() {
    let cfg = config(Characteristic::Value(3), 3, 4, 0, Characteristic::DiceRoll(DiceRoll::D6), 5, Some(5));
    let a = compute_damages(cfg, &full_sequence()).unwrap();
    let b = compute_damages(cfg, &full_sequence()).unwrap();
    assert_eq!(a.len(), b.len());
    for (x, y) in a.iter().zip(b.iter()) {
        assert_eq!(x.0, y.0);
        assert_eq!(x.1.exponent, y.1.exponent);
        assert_eq!(x.1.numerator.limbs(), y.1.numerator.limbs());
    }
}

#[test]
fn oversized_damage_is_an_error() {
    let cfg = config(Characteristic::Value(2), 1, 1, 0, Characteristic::Value(u32::MAX), 7, None);
    let node = CombatNode::new(CombatStatus::new_with_values(0, 0, 2, 0, 0), Probability::one());
    assert!(matches!(Rule::Damages.apply(&node, &cfg), Err(CombatError::Overflow)));
}

#[test]
fn builders_replace_one_field() {
    let a = AttackStats::new(Characteristic::Value(2), 3, 4, 1, Characteristic::Value(1));
    assert_eq!(a.with_attacks(Characteristic::Value(5)).attacks, Characteristic::Value(5));
    assert_eq!(a.with_to_hit(2).to_hit, 2);
    assert_eq!(a.with_to_wound(5).to_wound, 5);
    assert_eq!(a.with_rend(2).rend, 2);
    assert_eq!(a.with_damages(Characteristic::DiceRoll(DiceRoll::D3)).damages, Characteristic::DiceRoll(DiceRoll::D3));
    assert_eq!(a.with_rend(2).to_hit, 3);
    let s = CombatStatus::new().with_attacks(1).with_hits(2).with_wounds(3).with_mortal_wounds(4).with_damages(5);
    assert_eq!(s, CombatStatus::new_with_values(1, 2, 3, 4, 5));
}

#[test]
fn tree_keeps_expanded_nodes() {
    let cfg = config(Characteristic::Value(2), 4, 4, 0, Characteristic::Value(1), 4, None);
    let mut tree = CombatTree::new(cfg);
    assert_eq!(tree.len(), 1);
    tree.build(&vec![Rule::AttackCharacteristic, Rule::Hit]).unwrap();
    // root, one child with two attacks, then the C(4, 2) = 6 splits of two dice in three
    assert_eq!(tree.len(), 8);
    assert_eq!(tree.node(0).children, vec![1]);
    assert_eq!(tree.node(1).status.attacks, 2);
    assert_eq!(tree.node(1).children.len(), 6);
    assert_eq!(tree.leaves().len(), 6);
    let total: f64 = tree.leaves().iter().map(|leaf| prob_f64(&leaf.probability)).sum();
    assert!(close(total, 1.0));
}

#[test]
fn hit_rules_add_to_existing_pools() {
    // to-hit 7: only a six (critical) succeeds
    let cfg = config(Characteristic::Value(1), 7, 4, 0, Characteristic::Value(1), 7, None);
    let node = CombatNode::new(CombatStatus::new_with_values(1, 2, 3, 4, 5), Probability::one());
    let crit = |rule: Rule| {
        let children = rule.apply(&node, &cfg).unwrap();
        let six: Vec<CombatStatus> = children.iter().filter(|c| close(prob_f64(&c.probability), 1.0 / 6.0)).map(|c| c.status).collect();
        assert_eq!(six.len(), 1);
        assert!(children.iter().all(|c| c.children.is_empty()));
        six[0]
    };
    assert_eq!(crit(Rule::Hit), CombatStatus::new_with_values(0, 3, 3, 4, 5));
    assert_eq!(crit(Rule::CritDoubleHit), CombatStatus::new_with_values(0, 4, 3, 4, 5));
    assert_eq!(crit(Rule::CritMortalWound), CombatStatus::new_with_values(0, 2, 3, 5, 5));
    assert_eq!(crit(Rule::CritAutoWound), CombatStatus::new_with_values(0, 2, 4, 4, 5));
}

#[test]
fn hit_count_overflow_is_an_error() {
    let cfg = config(Characteristic::Value(1), 1, 4, 0, Characteristic::Value(1), 7, None);
    let node = CombatNode::new(CombatStatus::new_with_values(1, u32::MAX, 0, 0, 0), Probability::one());
    assert!(matches!(Rule::Hit.apply(&node, &cfg), Err(CombatError::Overflow)));
}
