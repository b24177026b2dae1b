//! Attacker and defender characteristics, and roll modifiers.
use crate::dice::{lemma_roll_weights_total, roll_weights_upto, sum_ways, DiceRoll};
use crate::partitions::power;
use crate::probability::Probability;
use vstd::prelude::*;

verus! {

/// A game quantity: a fixed number, or the result of a dice roll.
#[derive(Clone, Copy, Debug, PartialEq, Eq, Structural)]
pub enum Characteristic {
    Value(u32),
    DiceRoll(DiceRoll),
}

impl Characteristic {
    /// How many values the characteristic can take.
    pub open spec fn outcome_count(self) -> nat {
        match self {
            Characteristic::Value(_) => 1,
            Characteristic::DiceRoll(d) => (d.dice_count() * (d.faces() - 1) + 1) as nat,
        }
    }

    /// The `i`-th value the characteristic can take, lowest first.
    pub open spec fn outcome_value(self, i: int) -> int {
        match self {
            Characteristic::Value(v) => v as int,
            Characteristic::DiceRoll(d) => d.dice_count() + i + d.bonus(),
        }
    }

    /// The probability of the `i`-th value, times `6^outcome_exponent()`.
    pub open spec fn outcome_weight(self, i: int) -> nat {
        match self {
            Characteristic::Value(_) => 1,
            Characteristic::DiceRoll(d) => sum_ways(d.faces(), d.dice_count(), d.dice_count() + i),
        }
    }

    /// The power of six below every outcome weight.
    pub open spec fn outcome_exponent(self) -> nat {
        match self {
            Characteristic::Value(_) => 0,
            Characteristic::DiceRoll(d) => d.dice_count(),
        }
    }

    /// Every value the characteristic can take, lowest first, each with its probability.
    pub fn values_and_probas(&self) -> (r: Vec<(u64, Probability)>)
        ensures
            r@.len() == self.outcome_count(),
            forall|i: int|
                0 <= i < r@.len() ==> (#[trigger] r@[i]).0 == self.outcome_value(i)
                    && r@[i].1.numerator@ == self.outcome_weight(i) && r@[i].1.exponent
                    == self.outcome_exponent(),
    {
        match self {
            Characteristic::Value(value) => {
                let mut r: Vec<(u64, Probability)> = Vec::new();
                r.push((*value as u64, Probability::one()));
                r
            },
            Characteristic::DiceRoll(dice) => dice.values_and_probas(),
        }
    }
}

/// The weights of the first `k` values of a characteristic, summed.
pub open spec fn outcome_weights_upto(ch: Characteristic, k: nat) -> nat
    decreases k,
{
    if k == 0 {
        0
    } else {
        outcome_weights_upto(ch, (k - 1) as nat) + ch.outcome_weight(k - 1)
    }
}

/// The probabilities of the values of a characteristic add up to one: their weights add
/// up to six to the power of the exponent below them.
pub proof fn lemma_outcome_weights_total(ch: Characteristic)
    ensures
        outcome_weights_upto(ch, ch.outcome_count()) == power(6, ch.outcome_exponent()),
{
    match ch {
        Characteristic::Value(_) => {
            assert(outcome_weights_upto(ch, 0) == 0);
            assert(power(6, 0) == 1);
        },
        Characteristic::DiceRoll(d) => {
            lemma_dice_weights_upto(d, ch.outcome_count());
            lemma_roll_weights_total(d.faces(), d.dice_count());
        },
    }
}

proof fn lemma_dice_weights_upto(d: DiceRoll, k: nat)
    ensures
        outcome_weights_upto(Characteristic::DiceRoll(d), k) == roll_weights_upto(d.faces(), d.dice_count(), k),
    decreases k,
{
    if k > 0 {
        lemma_dice_weights_upto(d, (k - 1) as nat);
    }
}

/// What the attacker brings: number of attacks, thresholds, rend and damage per wound.
#[derive(Clone, Copy, Debug, PartialEq, Eq, Structural)]
pub struct AttackStats {
    pub attacks: Characteristic,
    pub to_hit: u32,
    pub to_wound: u32,
    pub rend: u32,
    pub damages: Characteristic,
}

impl AttackStats {
    pub fn new(
        attacks: Characteristic,
        to_hit: u32,
        to_wound: u32,
        rend: u32,
        damages: Characteristic,
    ) -> (r: AttackStats)
        ensures
            r == (AttackStats { attacks, to_hit, to_wound, rend, damages }),
    {
        AttackStats { attacks, to_hit, to_wound, rend, damages }
    }

    pub fn with_attacks(&self, value: Characteristic) -> (r: AttackStats)
        ensures
            r == (AttackStats { attacks: value, ..*self }),
    {
        AttackStats { attacks: value, ..*self }
    }

    pub fn with_damages(&self, value: Characteristic) -> (r: AttackStats)
        ensures
            r == (AttackStats { damages: value, ..*self }),
    {
        AttackStats { damages: value, ..*self }
    }

    pub fn with_to_hit(&self, value: u32) -> (r: AttackStats)
        ensures
            r == (AttackStats { to_hit: value, ..*self }),
    {
        AttackStats { to_hit: value, ..*self }
    }

    pub fn with_to_wound(&self, value: u32) -> (r: AttackStats)
        ensures
            r == (AttackStats { to_wound: value, ..*self }),
    {
        AttackStats { to_wound: value, ..*self }
    }

    pub fn with_rend(&self, value: u32) -> (r: AttackStats)
        ensures
            r == (AttackStats { rend: value, ..*self }),
    {
        AttackStats { rend: value, ..*self }
    }
}

/// What the defender brings: a save threshold and an optional ward threshold.
#[derive(Clone, Copy, Debug, PartialEq, Eq, Structural)]
pub struct DefenseStats {
    pub to_save: u32,
    pub ward: Option<u32>,
}

impl DefenseStats {
    pub fn new(to_save: u32, ward: Option<u32>) -> (r: DefenseStats)
        ensures
            r == (DefenseStats { to_save, ward }),
    {
        DefenseStats { to_save, ward }
    }

    pub fn with_to_save(&self, value: u32) -> (r: DefenseStats)
        ensures
            r == (DefenseStats { to_save: value, ward: self.ward }),
    {
        DefenseStats { to_save: value, ward: self.ward }
    }

    /// A ward threshold of zero means that no ward applies.
    pub fn with_ward(&self, value: u32) -> (r: DefenseStats)
        ensures
            r.to_save == self.to_save,
            r.ward == (if value > 0 { Some(value) } else { None::<u32> }),
    {
        if value > 0 {
            DefenseStats { to_save: self.to_save, ward: Some(value) }
        } else {
            DefenseStats { to_save: self.to_save, ward: None }
        }
    }
}

/// The modifier once brought within `[low, high]`.
pub open spec fn clamped(modifier: int, low: int, high: int) -> int {
    if modifier < low {
        low
    } else if modifier > high {
        high
    } else {
        modifier
    }
}

/// A roll after its clamped modifier, never below zero.
pub open spec fn modified_roll(value: int, modifier: int, low: int, high: int) -> int {
    let v = value + clamped(modifier, low, high);
    if v < 0 {
        0
    } else {
        v
    }
}

/// Signed adjustments to the hit, wound and save rolls.
#[derive(Clone, Copy, Debug, PartialEq, Eq, Structural)]
pub struct RollModifier {
    pub to_hit: i32,
    pub to_wound: i32,
    pub to_save: i32,
}

impl RollModifier {
    pub fn new(to_hit: i32, to_wound: i32, to_save: i32) -> (r: RollModifier)
        ensures
            r == (RollModifier { to_hit, to_wound, to_save }),
    {
        RollModifier { to_hit, to_wound, to_save }
    }

    pub fn new_null() -> (r: RollModifier)
        ensures
            r == (RollModifier { to_hit: 0, to_wound: 0, to_save: 0 }),
    {
        RollModifier { to_hit: 0, to_wound: 0, to_save: 0 }
    }

    fn apply_modifier(value: u32, modifier: i32, limit_low: i32, limit_high: i32) -> (r: u32)
        requires
            limit_low <= limit_high,
            value + clamped(modifier as int, limit_low as int, limit_high as int) <= u32::MAX,
        ensures
            r == modified_roll(value as int, modifier as int, limit_low as int, limit_high as int),
    {
        let m: i64 = if modifier < limit_low {
            limit_low as i64
        } else if modifier > limit_high {
            limit_high as i64
        } else {
            modifier as i64
        };
        let v: i64 = value as i64 + m;
        if v < 0 {
            0
        } else {
            v as u32
        }
    }

    /// The hit roll after its modifier, clamped to one step either way.
    pub fn apply_to_hit_modifier(&self, value: u32) -> (r: u32)
        requires
            value + clamped(self.to_hit as int, -1, 1) <= u32::MAX,
        ensures
            r == modified_roll(value as int, self.to_hit as int, -1, 1),
    {
        RollModifier::apply_modifier(value, self.to_hit, -1, 1)
    }

    /// The wound roll after its modifier, clamped to one step either way.
    pub fn apply_to_wound_modifier(&self, value: u32) -> (r: u32)
        requires
            value + clamped(self.to_wound as int, -1, 1) <= u32::MAX,
        ensures
            r == modified_roll(value as int, self.to_wound as int, -1, 1),
    {
        RollModifier::apply_modifier(value, self.to_wound, -1, 1)
    }

    /// The save roll after its own modifier: at most one step up, any number down.
    pub fn apply_to_save_modifier(&self, value: u32) -> (r: u32)
        requires
            value + clamped(self.to_save as int, i32::MIN as int, 1) <= u32::MAX,
        ensures
            r == modified_roll(value as int, self.to_save as int, i32::MIN as int, 1),
    {
        RollModifier::apply_modifier(value, self.to_save, i32::MIN, 1)
    }

    /// Two modifiers combined: each adjustment is the sum of both.
    pub fn add(self, other: RollModifier) -> (r: RollModifier)
        requires
            i32::MIN <= self.to_hit + other.to_hit <= i32::MAX,
            i32::MIN <= self.to_wound + other.to_wound <= i32::MAX,
            i32::MIN <= self.to_save + other.to_save <= i32::MAX,
        ensures
            r.to_hit == self.to_hit + other.to_hit,
            r.to_wound == self.to_wound + other.to_wound,
            r.to_save == self.to_save + other.to_save,
    {
        RollModifier {
            to_hit: self.to_hit + other.to_hit,
            to_wound: self.to_wound + other.to_wound,
            to_save: self.to_save + other.to_save,
        }
    }

    /// Adds another modifier into this one.
    pub fn add_assign(&mut self, other: RollModifier)
        requires
            i32::MIN <= old(self).to_hit + other.to_hit <= i32::MAX,
            i32::MIN <= old(self).to_wound + other.to_wound <= i32::MAX,
            i32::MIN <= old(self).to_save + other.to_save <= i32::MAX,
        ensures
            final(self).to_hit == old(self).to_hit + other.to_hit,
            final(self).to_wound == old(self).to_wound + other.to_wound,
            final(self).to_save == old(self).to_save + other.to_save,
    {
        self.to_hit = self.to_hit + other.to_hit;
        self.to_wound = self.to_wound + other.to_wound;
        self.to_save = self.to_save + other.to_save;
    }
}

} // verus!
