//! The resolution rules: each turns one weighted node into weighted children.
use crate::bignat::BigNat;
use crate::combat_stats::{
    lemma_outcome_weights_total, modified_roll, outcome_weights_upto, Characteristic,
};
use crate::combat_tree::{CombatConfig, CombatError, CombatNode, CombatStatus, NodeModel};
use crate::partitions::{
    compositions, generate_partitions_probabilities, lemma_compositions_shape,
    lemma_power_multiplies, lemma_split_weights_total, lemma_weight_sum_last, partition_weight,
    power, splits_weight, total, values, weight_sum,
};
use crate::probability::Probability;
use vstd::prelude::*;

verus! {

/// One step of the resolution.
#[derive(Clone, Copy, Debug, PartialEq, Eq, Structural)]
pub enum Rule {
    /// Rolls the attacker's number of attacks.
    AttackCharacteristic,
    /// Rolls to hit; a six is a hit like any other success. Hits add to those already there.
    Hit,
    /// Rolls to wound, one roll per hit; wounds add to those already there.
    Wound,
    /// Rolls to save, one roll per wound; each save removes a wound.
    Save,
    /// Turns wounds and mortal wounds into damage.
    Damages,
    /// Rolls a ward save per point of damage, when a ward is configured.
    Ward,
    /// Rolls to hit; a six is a mortal wound instead of a hit.
    CritMortalWound,
    /// Rolls to hit; a six is a wound instead of a hit.
    CritAutoWound,
    /// Rolls to hit; a six counts as two hits.
    CritDoubleHit,
}

/// The pools of a status, as unbounded integers.
pub struct StatusModel {
    pub attacks: int,
    pub hits: int,
    pub wounds: int,
    pub mortal_wounds: int,
    pub damages: int,
}

pub open spec fn model_of(st: CombatStatus) -> StatusModel {
    StatusModel {
        attacks: st.attacks as int,
        hits: st.hits as int,
        wounds: st.wounds as int,
        mortal_wounds: st.mortal_wounds as int,
        damages: st.damages as int,
    }
}

pub open spec fn fits(m: StatusModel) -> bool {
    &&& 0 <= m.attacks <= u32::MAX
    &&& 0 <= m.hits <= u32::MAX
    &&& 0 <= m.wounds <= u32::MAX
    &&& 0 <= m.mortal_wounds <= u32::MAX
    &&& 0 <= m.damages <= u32::MAX
}

pub open spec fn status_of(m: StatusModel) -> CombatStatus {
    CombatStatus {
        attacks: m.attacks as u32,
        hits: m.hits as u32,
        wounds: m.wounds as u32,
        mortal_wounds: m.mortal_wounds as u32,
        damages: m.damages as u32,
    }
}

/// The rules that roll to hit, and share one partition of each die into critical,
/// success and failure.
pub open spec fn is_hit_rule(rule: Rule) -> bool {
    rule is Hit || rule is CritMortalWound || rule is CritAutoWound || rule is CritDoubleHit
}

/// Whether a die showing `f` passes the rule's test.
pub open spec fn passes(rule: Rule, cfg: CombatConfig, f: int) -> bool {
    if is_hit_rule(rule) {
        modified_roll(f, cfg.modifier.to_hit as int, -1, 1) >= cfg.attack_stats.to_hit
    } else if rule is Wound {
        modified_roll(f, cfg.modifier.to_wound as int, -1, 1) >= cfg.attack_stats.to_wound
    } else if rule is Save {
        modified_roll(f, cfg.modifier.to_save as int, i32::MIN as int, 1)
            >= cfg.defense_stats.to_save + cfg.attack_stats.rend
    } else if rule is Ward {
        match cfg.defense_stats.ward {
            Some(w) => f >= w,
            None => false,
        }
    } else {
        false
    }
}

/// How many of the faces `2..=hi` pass the rule's test (a one always fails).
pub open spec fn passing_faces(rule: Rule, cfg: CombatConfig, hi: int) -> nat
    decreases hi,
{
    if hi < 2 {
        0
    } else {
        passing_faces(rule, cfg, hi - 1) + if passes(rule, cfg, hi) {
            1nat
        } else {
            0nat
        }
    }
}

/// The weights, out of six, of the outcomes of one die of a test: for the hit rules a
/// six (critical), a success on two to five, and a failure; for the others a success
/// and a failure.
pub open spec fn trial_weights(rule: Rule, cfg: CombatConfig) -> Seq<nat> {
    if is_hit_rule(rule) {
        let s = passing_faces(rule, cfg, 5);
        seq![1nat, s, (5 - s) as nat]
    } else {
        let s = passing_faces(rule, cfg, 6);
        seq![s, (6 - s) as nat]
    }
}

/// How many dice the rule rolls at a node.
pub open spec fn trial_count(rule: Rule, st: CombatStatus) -> int {
    match rule {
        Rule::AttackCharacteristic => 0,
        Rule::Wound => st.hits as int,
        Rule::Save => st.wounds as int,
        Rule::Ward => st.damages as int,
        Rule::Damages => st.wounds + st.mortal_wounds,
        _ => st.attacks as int,
    }
}

/// The status after a test whose dice fell as `c` (counts per outcome of `trial_weights`).
pub open spec fn tested_status(rule: Rule, st: CombatStatus, c: Seq<u32>) -> StatusModel {
    let m = model_of(st);
    match rule {
        Rule::Hit => StatusModel { attacks: 0, hits: st.hits + c[0] + c[1], ..m },
        Rule::CritMortalWound => StatusModel {
            attacks: 0,
            hits: st.hits + c[1],
            mortal_wounds: st.mortal_wounds + c[0],
            ..m
        },
        Rule::CritAutoWound => StatusModel {
            attacks: 0,
            hits: st.hits + c[1],
            wounds: st.wounds + c[0],
            ..m
        },
        Rule::CritDoubleHit => StatusModel { attacks: 0, hits: st.hits + 2 * c[0] + c[1], ..m },
        Rule::Wound => StatusModel { hits: 0, wounds: st.wounds + c[0], ..m },
        Rule::Save => StatusModel { hits: 0, wounds: st.wounds - c[0], ..m },
        _ => StatusModel { damages: st.damages - c[0], ..m },
    }
}

/// The sum of `v[i] * c[i]`.
pub open spec fn dot(v: Seq<int>, c: Seq<u32>) -> int
    decreases c.len(),
{
    if c.len() == 0 {
        0
    } else {
        dot(v, c.drop_last()) + v[c.len() - 1] * c.last()
    }
}

/// The values a characteristic can take, lowest first.
pub open spec fn outcome_values(ch: Characteristic) -> Seq<int> {
    Seq::new(ch.outcome_count(), |i: int| ch.outcome_value(i))
}

/// The weights of the values a characteristic can take.
pub open spec fn outcome_weights(ch: Characteristic) -> Seq<nat> {
    Seq::new(ch.outcome_count(), |i: int| ch.outcome_weight(i))
}

/// The status, unbounded, and weight of each child the rule makes of a node with status
/// `st`, in order. The weight of a child, divided by `6^exponent_increase`, is the
/// probability of going from the node to the child.
pub open spec fn outcomes(rule: Rule, cfg: CombatConfig, st: CombatStatus) -> Seq<(StatusModel, nat)> {
    let m = model_of(st);
    let n = trial_count(rule, st);
    match rule {
        Rule::AttackCharacteristic => {
            let ch = cfg.attack_stats.attacks;
            Seq::new(
                ch.outcome_count(),
                |i: int| (StatusModel { attacks: ch.outcome_value(i), ..m }, ch.outcome_weight(i)),
            )
        },
        Rule::Damages => match cfg.attack_stats.damages {
            Characteristic::Value(v) => seq![
                (StatusModel { wounds: 0, mortal_wounds: 0, damages: v * n, ..m }, 1nat),
            ],
            Characteristic::DiceRoll(_) => {
                let ch = cfg.attack_stats.damages;
                compositions(ch.outcome_count(), n as nat).map_values(
                    |c: Seq<u32>|
                        (
                            StatusModel {
                                wounds: 0,
                                mortal_wounds: 0,
                                damages: dot(outcome_values(ch), c),
                                ..m
                            },
                            partition_weight(c, outcome_weights(ch)),
                        ),
                )
            },
        },
        Rule::Ward if cfg.defense_stats.ward is None => seq![],
        _ => {
            let w = trial_weights(rule, cfg);
            compositions(w.len(), n as nat).map_values(
                |c: Seq<u32>| (tested_status(rule, st, c), partition_weight(c, w)),
            )
        },
    }
}

/// How much the exponent of six below the probability grows from a node to its children.
pub open spec fn exponent_increase(rule: Rule, cfg: CombatConfig, st: CombatStatus) -> nat {
    match rule {
        Rule::AttackCharacteristic => cfg.attack_stats.attacks.outcome_exponent(),
        Rule::Damages => (cfg.attack_stats.damages.outcome_exponent() * trial_count(rule, st)) as nat,
        Rule::Ward if cfg.defense_stats.ward is None => 0,
        _ => trial_count(rule, st) as nat,
    }
}

/// The child of `node` with the outcome `o`, at exponent `e`.
pub open spec fn child_node(node: NodeModel, e: nat, o: (StatusModel, nat)) -> NodeModel {
    NodeModel { status: status_of(o.0), numerator: node.numerator * o.1, exponent: e }
}

/// The children the rule makes of `node`, or `None` where a pool or the exponent would
/// not fit its integer type.
pub open spec fn child_models(rule: Rule, cfg: CombatConfig, node: NodeModel) -> Option<Seq<NodeModel>> {
    let st = node.status;
    let e = node.exponent + exponent_increase(rule, cfg, st);
    let cands = outcomes(rule, cfg, st);
    if trial_count(rule, st) <= u32::MAX && e <= u64::MAX && forall|i: int|
        0 <= i < cands.len() ==> fits(#[trigger] cands[i].0) {
        Some(cands.map_values(|o: (StatusModel, nat)| child_node(node, e, o)))
    } else {
        None
    }
}

/// The models of a list of nodes.
pub open spec fn views(v: Seq<CombatNode>) -> Seq<NodeModel> {
    v.map_values(|n: CombatNode| n@)
}

/// Whether a die showing `f` passes the rule's test.
fn passes_exec(rule: Rule, cfg: &CombatConfig, f: u32) -> (r: bool)
    requires
        1 <= f <= 6,
    ensures
        r == passes(rule, *cfg, f as int),
{
    match rule {
        Rule::Hit | Rule::CritMortalWound | Rule::CritAutoWound | Rule::CritDoubleHit => {
            cfg.modifier.apply_to_hit_modifier(f) >= cfg.attack_stats.to_hit
        },
        Rule::Wound => cfg.modifier.apply_to_wound_modifier(f) >= cfg.attack_stats.to_wound,
        Rule::Save => {
            let threshold: u64 = cfg.defense_stats.to_save as u64 + cfg.attack_stats.rend as u64;
            cfg.modifier.apply_to_save_modifier(f) as u64 >= threshold
        },
        Rule::Ward => match cfg.defense_stats.ward {
            Some(w) => f >= w,
            None => false,
        },
        _ => false,
    }
}

/// How many of the faces `2..=hi` pass the rule's test.
fn passing_faces_exec(rule: Rule, cfg: &CombatConfig, hi: u32) -> (r: u32)
    requires
        1 <= hi <= 6,
    ensures
        r == passing_faces(rule, *cfg, hi as int),
        r <= hi,
{
    let mut count: u32 = 0;
    let mut f: u32 = 2;
    while f <= hi
        invariant
            2 <= f <= hi + 1,
            hi <= 6,
            count == passing_faces(rule, *cfg, f - 1),
            count <= f - 1,
        decreases hi + 1 - f,
    {
        if passes_exec(rule, cfg, f) {
            count = count + 1;
        }
        f = f + 1;
    }
    count
}

/// `trial_weights` as numbers.
fn trial_weights_exec(rule: Rule, cfg: &CombatConfig) -> (r: Vec<BigNat>)
    ensures
        values(r@) == trial_weights(rule, *cfg),
{
    let mut r: Vec<BigNat> = Vec::new();
    if is_hit(rule) {
        let s = passing_faces_exec(rule, cfg, 5);
        r.push(BigNat::from_u64(1));
        r.push(BigNat::from_u64(s as u64));
        r.push(BigNat::from_u64((5 - s) as u64));
    } else {
        let s = passing_faces_exec(rule, cfg, 6);
        r.push(BigNat::from_u64(s as u64));
        r.push(BigNat::from_u64((6 - s) as u64));
    }
    assert(values(r@) =~= trial_weights(rule, *cfg));
    r
}

fn is_hit(rule: Rule) -> (r: bool)
    ensures
        r == is_hit_rule(rule),
{
    match rule {
        Rule::Hit | Rule::CritMortalWound | Rule::CritAutoWound | Rule::CritDoubleHit => true,
        _ => false,
    }
}

/// How many dice a test rule rolls at a node.
fn test_count(rule: Rule, st: CombatStatus) -> (r: u32)
    requires
        !(rule is AttackCharacteristic),
        !(rule is Damages),
    ensures
        r == trial_count(rule, st),
{
    match rule {
        Rule::Wound => st.hits,
        Rule::Save => st.wounds,
        Rule::Ward => st.damages,
        _ => st.attacks,
    }
}

/// The status after a test whose dice fell as `c`, if every pool fits.
fn tested_child(rule: Rule, st: CombatStatus, c: &Vec<u32>) -> (r: Option<CombatStatus>)
    requires
        !(rule is AttackCharacteristic),
        !(rule is Damages),
        c@.len() == (if is_hit_rule(rule) { 3int } else { 2int }),
        total(c@) == trial_count(rule, st),
    ensures
        r == (if fits(tested_status(rule, st, c@)) {
            Some(status_of(tested_status(rule, st, c@)))
        } else {
            None::<CombatStatus>
        }),
{
    proof {
        let c1 = c@.drop_first();
        assert(total(c@) == c@[0] + total(c1));
        if c1.len() > 0 {
            assert(total(c1) == c1[0] + total(c1.drop_first()));
            assert(c1[0] == c@[1]);
        }
    }
    let ghost m = tested_status(rule, st, c@);
    match rule {
        Rule::Hit => {
            let hits: u64 = st.hits as u64 + c[0] as u64 + c[1] as u64;
            if hits > u32::MAX as u64 {
                None
            } else {
                Some(CombatStatus { attacks: 0, hits: hits as u32, ..st })
            }
        },
        Rule::CritMortalWound => {
            let hits: u64 = st.hits as u64 + c[1] as u64;
            let mortal_wounds: u64 = st.mortal_wounds as u64 + c[0] as u64;
            if hits > u32::MAX as u64 || mortal_wounds > u32::MAX as u64 {
                None
            } else {
                Some(CombatStatus { attacks: 0, hits: hits as u32, mortal_wounds: mortal_wounds as u32, ..st })
            }
        },
        Rule::CritAutoWound => {
            let hits: u64 = st.hits as u64 + c[1] as u64;
            let wounds: u64 = st.wounds as u64 + c[0] as u64;
            if hits > u32::MAX as u64 || wounds > u32::MAX as u64 {
                None
            } else {
                Some(CombatStatus { attacks: 0, hits: hits as u32, wounds: wounds as u32, ..st })
            }
        },
        Rule::CritDoubleHit => {
            let hits: u64 = st.hits as u64 + 2 * (c[0] as u64) + c[1] as u64;
            if hits > u32::MAX as u64 {
                None
            } else {
                Some(CombatStatus { attacks: 0, hits: hits as u32, ..st })
            }
        },
        Rule::Wound => {
            let wounds: u64 = st.wounds as u64 + c[0] as u64;
            if wounds > u32::MAX as u64 {
                None
            } else {
                Some(CombatStatus { hits: 0, wounds: wounds as u32, ..st })
            }
        },
        Rule::Save => Some(CombatStatus { hits: 0, wounds: st.wounds - c[0], ..st }),
        _ => Some(CombatStatus { damages: st.damages - c[0], ..st }),
    }
}

/// What a rule's application returns, against what `child_models` says: the children,
/// each without children of its own yet, or an error.
pub open spec fn applied(r: Result<Vec<CombatNode>, CombatError>, expected: Option<Seq<NodeModel>>) -> bool {
    match expected {
        Some(s) => r is Ok && views(r->Ok_0@) == s && forall|i: int|
            0 <= i < r->Ok_0@.len() ==> (#[trigger] r->Ok_0@[i]).children@.len() == 0,
        None => r is Err,
    }
}

/// A test rule (hit, wound, save or ward with a ward configured) applied to a node.
fn apply_test(rule: Rule, node: &CombatNode, cfg: &CombatConfig) -> (r: Result<Vec<CombatNode>, CombatError>)
    requires
        !(rule is AttackCharacteristic),
        !(rule is Damages),
        !(rule is Ward && cfg.defense_stats.ward is None),
    ensures
        applied(r, child_models(rule, *cfg, node@)),
{
    let st = node.status;
    let n = test_count(rule, st);
    let inc = n as u64;
    if node.probability.exponent > u64::MAX - inc {
        return Err(CombatError::Overflow);
    }
    let e = node.probability.exponent + inc;
    let weights = trial_weights_exec(rule, cfg);
    let parts = generate_partitions_probabilities(n, &weights);
    let ghost w = trial_weights(rule, *cfg);
    let ghost comps = compositions(w.len(), n as nat);
    let ghost cands = outcomes(rule, *cfg, st);
    proof {
        lemma_compositions_shape(w.len(), n as nat);
        assert(cands == comps.map_values(
            |c: Seq<u32>| (tested_status(rule, st, c), partition_weight(c, w)),
        ));
        assert(exponent_increase(rule, *cfg, st) == n);
    }
    let mut out: Vec<CombatNode> = Vec::new();
    let mut i: usize = 0;
    while i < parts.len()
        invariant
            parts@.len() == comps.len(),
            cands.len() == comps.len(),
            w == values(weights@),
            forall|j: int|
                0 <= j < parts@.len() ==> (#[trigger] parts@[j]).0@ == comps[j]
                    && parts@[j].1@ == partition_weight(parts@[j].0@, w),
            forall|j: int|
                0 <= j < comps.len() ==> (#[trigger] comps[j]).len() == w.len() && total(comps[j])
                    == n,
            forall|j: int|
                0 <= j < cands.len() ==> #[trigger] cands[j] == (tested_status(rule, st, comps[j]),
                partition_weight(comps[j], w)),
            w.len() == (if is_hit_rule(rule) { 3int } else { 2int }),
            n == trial_count(rule, st),
            st == node.status,
            cands == outcomes(rule, *cfg, st),
            e == node@.exponent + exponent_increase(rule, *cfg, st),
            !(rule is AttackCharacteristic),
            !(rule is Damages),
            i <= parts@.len(),
            out@.len() == i,
            forall|j: int| 0 <= j < out@.len() ==> (#[trigger] out@[j]).children@.len() == 0,
            forall|j: int| 0 <= j < i ==> fits(#[trigger] cands[j].0),
            forall|j: int| 0 <= j < i ==> #[trigger] out@[j]@ == child_node(node@, e as nat, cands[j]),
        decreases parts@.len() - i,
    {
        let c = &parts[i].0;
        let pw = &parts[i].1;
        match tested_child(rule, st, c) {
            None => {
                proof {
                    assert(c@ == comps[i as int]);
                    assert(cands[i as int].0 == tested_status(rule, st, c@));
                    assert(!fits(cands[i as int].0));
                    assert(node@.status == st);
                    assert(child_models(rule, *cfg, node@) is None);
                }
                return Err(CombatError::Overflow);
            },
            Some(child) => {
                let num = node.probability.numerator.mul(pw);
                out.push(CombatNode { status: child, probability: Probability { numerator: num, exponent: e }, children: Vec::new() });
            },
        }
        i = i + 1;
    }
    proof {
        let expected = cands.map_values(|o: (StatusModel, nat)| child_node(node@, e as nat, o));
        assert(views(out@) =~= expected);
    }
    Ok(out)
}

/// The number of attacks rolled at a node.
fn apply_attacks(node: &CombatNode, cfg: &CombatConfig) -> (r: Result<Vec<CombatNode>, CombatError>)
    ensures
        applied(r, child_models(Rule::AttackCharacteristic, *cfg, node@)),
{
    let rule = Rule::AttackCharacteristic;
    let st = node.status;
    let ch = cfg.attack_stats.attacks;
    let inc: u64 = match ch {
        Characteristic::Value(_) => 0,
        Characteristic::DiceRoll(d) => d.count() as u64,
    };
    if node.probability.exponent > u64::MAX - inc {
        return Err(CombatError::Overflow);
    }
    let e = node.probability.exponent + inc;
    let outs = ch.values_and_probas();
    let ghost cands = outcomes(rule, *cfg, st);
    let mut out: Vec<CombatNode> = Vec::new();
    let mut i: usize = 0;
    while i < outs.len()
        invariant
            outs@.len() == ch.outcome_count(),
            forall|j: int|
                0 <= j < outs@.len() ==> (#[trigger] outs@[j]).0 == ch.outcome_value(j)
                    && outs@[j].1.numerator@ == ch.outcome_weight(j) && outs@[j].1.exponent
                    == ch.outcome_exponent(),
            ch == cfg.attack_stats.attacks,
            cands == outcomes(rule, *cfg, st),
            cands.len() == outs@.len(),
            st == node.status,
            rule == Rule::AttackCharacteristic,
            e == node@.exponent + exponent_increase(rule, *cfg, st),
            i <= outs@.len(),
            out@.len() == i,
            forall|j: int| 0 <= j < out@.len() ==> (#[trigger] out@[j]).children@.len() == 0,
            forall|j: int| 0 <= j < i ==> fits(#[trigger] cands[j].0),
            forall|j: int| 0 <= j < i ==> #[trigger] out@[j]@ == child_node(node@, e as nat, cands[j]),
        decreases outs@.len() - i,
    {
        let v = outs[i].0;
        if v > u32::MAX as u64 {
            proof {
                assert(!fits(cands[i as int].0));
                assert(child_models(rule, *cfg, node@) is None);
            }
            return Err(CombatError::Overflow);
        }
        let num = node.probability.numerator.mul(&outs[i].1.numerator);
        out.push(CombatNode { status: st.with_attacks(v as u32), probability: Probability { numerator: num, exponent: e }, children: Vec::new() });
        i = i + 1;
    }
    proof {
        let expected = cands.map_values(|o: (StatusModel, nat)| child_node(node@, e as nat, o));
        assert(views(out@) =~= expected);
    }
    Ok(out)
}

proof fn lemma_dot_prefix(v: Seq<int>, c: Seq<u32>, i: int)
    requires
        0 <= i <= c.len(),
        forall|j: int| 0 <= j < v.len() ==> #[trigger] v[j] >= 0,
        v.len() >= c.len(),
    ensures
        0 <= dot(v, c.subrange(0, i)) <= dot(v, c),
    decreases c.len() - i,
{
    lemma_dot_nonneg(v, c.subrange(0, i));
    if i < c.len() {
        lemma_dot_prefix(v, c, i + 1);
        let u = c.subrange(0, i + 1);
        assert(u.drop_last() =~= c.subrange(0, i));
        assert(v[i] * u.last() >= 0) by (nonlinear_arith)
            requires v[i] >= 0, u.last() >= 0;
    } else {
        assert(c.subrange(0, i) =~= c);
    }
}

proof fn lemma_dot_nonneg(v: Seq<int>, c: Seq<u32>)
    requires
        forall|j: int| 0 <= j < v.len() ==> #[trigger] v[j] >= 0,
        v.len() >= c.len(),
    ensures
        dot(v, c) >= 0,
    decreases c.len(),
{
    if c.len() > 0 {
        lemma_dot_nonneg(v, c.drop_last());
        let k = c.len() - 1;
        assert(v[k] * c.last() >= 0) by (nonlinear_arith)
            requires v[k] >= 0, c.last() >= 0;
    }
}

/// The values of a list of numbers, as integers.
pub open spec fn ints(v: Seq<u64>) -> Seq<int> {
    v.map_values(|x: u64| x as int)
}

/// The total damage of a split of wounds among damage values, if it fits in 32 bits.
fn dot_exec(vals: &Vec<u64>, c: &Vec<u32>) -> (r: Option<u32>)
    requires
        vals@.len() == c@.len(),
    ensures
        r == (if dot(ints(vals@), c@) <= u32::MAX {
            Some(dot(ints(vals@), c@) as u32)
        } else {
            None::<u32>
        }),
{
    let ghost v = ints(vals@);
    let mut acc: u64 = 0;
    let mut i: usize = 0;
    proof {
        assert forall|j: int| 0 <= j < v.len() implies #[trigger] v[j] >= 0 by {}
        lemma_dot_prefix(v, c@, 0);
        assert(c@.subrange(0, 0).len() == 0);
    }
    while i < c.len()
        invariant
            v == ints(vals@),
            vals@.len() == c@.len(),
            i <= c@.len(),
            acc <= u32::MAX,
            acc == dot(v, c@.subrange(0, i as int)),
        decreases c@.len() - i,
    {
        let ci = c[i];
        let vi = vals[i];
        proof {
            let u = c@.subrange(0, i + 1);
            assert(u.drop_last() =~= c@.subrange(0, i as int));
            assert(dot(v, u) == acc + vi * ci);
            assert forall|j: int| 0 <= j < v.len() implies #[trigger] v[j] >= 0 by {}
            lemma_dot_prefix(v, c@, i + 1);
        }
        if ci != 0 {
            if vi > u32::MAX as u64 {
                proof {
                    assert(vi * ci >= vi) by (nonlinear_arith)
                        requires ci >= 1, vi >= 0;
                }
                return None;
            }
            proof {
                assert(vi * ci <= 0xffff_ffff * 0xffff_ffff) by (nonlinear_arith)
                    requires vi <= 0xffff_ffff, ci <= 0xffff_ffff;
            }
            acc = acc + vi * (ci as u64);
            if acc > u32::MAX as u64 {
                return None;
            }
        } else {
            assert(vi * ci == 0) by (nonlinear_arith)
                requires ci == 0;
        }
        i = i + 1;
    }
    assert(c@.subrange(0, i as int) =~= c@);
    Some(acc as u32)
}

/// Wounds and mortal wounds turned into damage at a node.
fn apply_damages(node: &CombatNode, cfg: &CombatConfig) -> (r: Result<Vec<CombatNode>, CombatError>)
    ensures
        applied(r, child_models(Rule::Damages, *cfg, node@)),
{
    let rule = Rule::Damages;
    let st = node.status;
    let n64: u64 = st.wounds as u64 + st.mortal_wounds as u64;
    if n64 > u32::MAX as u64 {
        return Err(CombatError::Overflow);
    }
    let n = n64 as u32;
    let ghost cands = outcomes(rule, *cfg, st);
    match cfg.attack_stats.damages {
        Characteristic::Value(v) => {
            proof {
                assert(v as u64 * n64 <= 0xffff_ffff * 0xffff_ffff) by (nonlinear_arith)
                    requires v <= 0xffff_ffff, n64 <= 0xffff_ffff;
            }
            let dmg: u64 = v as u64 * n64;
            if dmg > u32::MAX as u64 {
                proof {
                    assert(!fits(cands[0].0));
                }
                return Err(CombatError::Overflow);
            }
            let child = CombatStatus { wounds: 0, mortal_wounds: 0, damages: dmg as u32, ..st };
            let num = node.probability.numerator.copy();
            let mut out: Vec<CombatNode> = Vec::new();
            out.push(CombatNode { status: child, probability: Probability { numerator: num, exponent: node.probability.exponent }, children: Vec::new() });
            proof {
                let e = node@.exponent + exponent_increase(rule, *cfg, st);
                assert(e == node@.exponent);
                let expected = cands.map_values(|o: (StatusModel, nat)| child_node(node@, e, o));
                assert(node@.numerator * 1nat == node@.numerator);
                assert(out@[0].children@.len() == 0);
                assert(views(out@) =~= expected);
            }
            Ok(out)
        },
        Characteristic::DiceRoll(d) => {
            let ch = cfg.attack_stats.damages;
            let count = d.count() as u64;
            proof {
                assert(count * n64 <= 0xffff_ffff * 0xffff_ffff) by (nonlinear_arith)
                    requires count <= 0xffff_ffff, n64 <= 0xffff_ffff;
            }
            let inc: u64 = count * n64;
            if node.probability.exponent > u64::MAX - inc {
                return Err(CombatError::Overflow);
            }
            let e = node.probability.exponent + inc;
            let outs = ch.values_and_probas();
            let mut weights: Vec<BigNat> = Vec::new();
            let mut vals: Vec<u64> = Vec::new();
            let mut k: usize = 0;
            while k < outs.len()
                invariant
                    outs@.len() == ch.outcome_count(),
                    forall|j: int|
                        0 <= j < outs@.len() ==> (#[trigger] outs@[j]).0 == ch.outcome_value(j)
                            && outs@[j].1.numerator@ == ch.outcome_weight(j),
                    k <= outs@.len(),
                    weights@.len() == k,
                    vals@.len() == k,
                    forall|j: int| 0 <= j < k ==> (#[trigger] weights@[j])@ == ch.outcome_weight(j),
                    forall|j: int| 0 <= j < k ==> #[trigger] vals@[j] == ch.outcome_value(j),
                decreases outs@.len() - k,
            {
                weights.push(outs[k].1.numerator.copy());
                vals.push(outs[k].0);
                k = k + 1;
            }
            let ghost w = outcome_weights(ch);
            let ghost vv = outcome_values(ch);
            assert(values(weights@) =~= w);
            assert(ints(vals@) =~= vv);
            let parts = generate_partitions_probabilities(n, &weights);
            let ghost comps = compositions(w.len(), n as nat);
            proof {
                lemma_compositions_shape(w.len(), n as nat);
            }
            let mut out: Vec<CombatNode> = Vec::new();
            let mut i: usize = 0;
            while i < parts.len()
                invariant
                    parts@.len() == comps.len(),
                    cands == outcomes(rule, *cfg, st),
                    cands.len() == comps.len(),
                    ch == cfg.attack_stats.damages,
                    ch is DiceRoll,
                    w == values(weights@),
                    vv == ints(vals@),
                    vals@.len() == w.len(),
                    forall|j: int|
                        0 <= j < parts@.len() ==> (#[trigger] parts@[j]).0@ == comps[j]
                            && parts@[j].1@ == partition_weight(parts@[j].0@, w),
                    forall|j: int|
                        0 <= j < comps.len() ==> (#[trigger] comps[j]).len() == w.len(),
                    forall|j: int|
                        0 <= j < cands.len() ==> #[trigger] cands[j] == (StatusModel {
                            wounds: 0,
                            mortal_wounds: 0,
                            damages: dot(vv, comps[j]),
                            ..model_of(st)
                        }, partition_weight(comps[j], w)),
                    st == node.status,
                    e == node@.exponent + exponent_increase(rule, *cfg, st),
                    i <= parts@.len(),
                    out@.len() == i,
                    forall|j: int| 0 <= j < out@.len() ==> (#[trigger] out@[j]).children@.len() == 0,
            forall|j: int| 0 <= j < out@.len() ==> (#[trigger] out@[j]).children@.len() == 0,
                    forall|j: int| 0 <= j < i ==> fits(#[trigger] cands[j].0),
                    forall|j: int| 0 <= j < i ==> #[trigger] out@[j]@ == child_node(node@, e as nat, cands[j]),
                decreases parts@.len() - i,
            {
                let c = &parts[i].0;
                let pw = &parts[i].1;
                match dot_exec(&vals, c) {
                    None => {
                        proof {
                            assert(c@ == comps[i as int]);
                            assert(!fits(cands[i as int].0));
                            assert(child_models(rule, *cfg, node@) is None);
                        }
                        return Err(CombatError::Overflow);
                    },
                    Some(dmg) => {
                        proof {
                            assert(c@ == comps[i as int]);
                            assert forall|j: int| 0 <= j < vv.len() implies #[trigger] vv[j] >= 0 by {}
                            lemma_dot_nonneg(vv, c@);
                        }
                        let num = node.probability.numerator.mul(pw);
                        let child = CombatStatus { wounds: 0, mortal_wounds: 0, damages: dmg, ..st };
                        out.push(CombatNode { status: child, probability: Probability { numerator: num, exponent: e }, children: Vec::new() });
                    },
                }
                i = i + 1;
            }
            proof {
                let expected = cands.map_values(|o: (StatusModel, nat)| child_node(node@, e as nat, o));
                assert(views(out@) =~= expected);
            }
            Ok(out)
        },
    }
}

impl Rule {
    /// The children of `node` under this rule: exactly `child_models`, or an error where a
    /// pool or the exponent would outgrow its integer type.
    pub fn apply(&self, node: &CombatNode, config: &CombatConfig) -> (r: Result<Vec<CombatNode>, CombatError>)
        ensures
            applied(r, child_models(*self, *config, node@)),
    {
        let rule = *self;
        match rule {
            Rule::AttackCharacteristic => apply_attacks(node, config),
            Rule::Damages => apply_damages(node, config),
            Rule::Ward => match config.defense_stats.ward {
                None => {
                    let out: Vec<CombatNode> = Vec::new();
                    proof {
                        let st = node.status;
                        let e = node@.exponent + exponent_increase(rule, *config, st);
                        let cands = outcomes(rule, *config, st);
                        assert(cands.len() == 0);
                        let expected = cands.map_values(|o: (StatusModel, nat)| child_node(node@, e, o));
                        assert(views(out@) =~= expected);
                    }
                    Ok(out)
                },
                Some(_) => apply_test(rule, node, config),
            },
            _ => apply_test(rule, node, config),
        }
    }
}

/// Rolls the attacker's number of attacks.
#[derive(Clone, Copy, Debug, PartialEq, Eq, Structural)]
pub struct AttackCharacteristicRule;

/// Rolls to hit.
#[derive(Clone, Copy, Debug, PartialEq, Eq, Structural)]
pub struct HitRule;

/// Rolls to wound.
#[derive(Clone, Copy, Debug, PartialEq, Eq, Structural)]
pub struct WoundRule;

/// Rolls to save.
#[derive(Clone, Copy, Debug, PartialEq, Eq, Structural)]
pub struct SaveRule;

/// Turns wounds into damage.
#[derive(Clone, Copy, Debug, PartialEq, Eq, Structural)]
pub struct DamagesRule;

/// Rolls ward saves against damage.
#[derive(Clone, Copy, Debug, PartialEq, Eq, Structural)]
pub struct WardRule;

/// Rolls to hit, a six being a mortal wound.
#[derive(Clone, Copy, Debug, PartialEq, Eq, Structural)]
pub struct CritMortalWoundRule;

/// Rolls to hit, a six being a wound.
#[derive(Clone, Copy, Debug, PartialEq, Eq, Structural)]
pub struct CritAutoWoundRule;

/// Rolls to hit, a six being two hits.
#[derive(Clone, Copy, Debug, PartialEq, Eq, Structural)]
pub struct CritDoubleHitRule;

impl AttackCharacteristicRule {
    pub fn rule(&self) -> (r: Rule)
        ensures
            r == Rule::AttackCharacteristic,
    {
        Rule::AttackCharacteristic
    }
}

impl HitRule {
    pub fn rule(&self) -> (r: Rule)
        ensures
            r == Rule::Hit,
    {
        Rule::Hit
    }
}

impl WoundRule {
    pub fn rule(&self) -> (r: Rule)
        ensures
            r == Rule::Wound,
    {
        Rule::Wound
    }
}

impl SaveRule {
    pub fn rule(&self) -> (r: Rule)
        ensures
            r == Rule::Save,
    {
        Rule::Save
    }
}

impl DamagesRule {
    pub fn rule(&self) -> (r: Rule)
        ensures
            r == Rule::Damages,
    {
        Rule::Damages
    }
}

impl WardRule {
    pub fn rule(&self) -> (r: Rule)
        ensures
            r == Rule::Ward,
    {
        Rule::Ward
    }
}

impl CritMortalWoundRule {
    pub fn rule(&self) -> (r: Rule)
        ensures
            r == Rule::CritMortalWound,
    {
        Rule::CritMortalWound
    }
}

impl CritAutoWoundRule {
    pub fn rule(&self) -> (r: Rule)
        ensures
            r == Rule::CritAutoWound,
    {
        Rule::CritAutoWound
    }
}

impl CritDoubleHitRule {
    pub fn rule(&self) -> (r: Rule)
        ensures
            r == Rule::CritDoubleHit,
    {
        Rule::CritDoubleHit
    }
}

/// The weights of a list of outcomes, summed.
pub open spec fn outcome_weight_total(cands: Seq<(StatusModel, nat)>) -> nat
    decreases cands.len(),
{
    if cands.len() == 0 {
        0
    } else {
        outcome_weight_total(cands.drop_last()) + cands.last().1
    }
}

proof fn lemma_passing_faces_bound(rule: Rule, cfg: CombatConfig, hi: int)
    requires
        hi >= 1,
    ensures
        passing_faces(rule, cfg, hi) <= hi - 1,
    decreases hi,
{
    if hi >= 2 {
        lemma_passing_faces_bound(rule, cfg, hi - 1);
    }
}

proof fn lemma_weights_match(cands: Seq<(StatusModel, nat)>, comps: Seq<Seq<u32>>, w: Seq<nat>)
    requires
        cands.len() == comps.len(),
        forall|i: int| 0 <= i < cands.len() ==> #[trigger] cands[i].1 == partition_weight(comps[i], w),
    ensures
        outcome_weight_total(cands) == splits_weight(comps, w),
    decreases cands.len(),
{
    if cands.len() > 0 {
        let c2 = cands.drop_last();
        let p2 = comps.drop_last();
        assert forall|i: int| 0 <= i < c2.len() implies #[trigger] c2[i].1 == partition_weight(p2[i], w) by {
            assert(c2[i] == cands[i]);
        }
        lemma_weights_match(c2, p2, w);
        assert(cands.last().1 == partition_weight(comps.last(), w)) by {
            assert(cands[cands.len() - 1].1 == partition_weight(comps[comps.len() - 1], w));
        }
    }
}

proof fn lemma_weights_upto(cands: Seq<(StatusModel, nat)>, ch: Characteristic)
    requires
        forall|i: int| 0 <= i < cands.len() ==> #[trigger] cands[i].1 == ch.outcome_weight(i),
    ensures
        outcome_weight_total(cands) == outcome_weights_upto(ch, cands.len()),
    decreases cands.len(),
{
    if cands.len() > 0 {
        let c2 = cands.drop_last();
        assert forall|i: int| 0 <= i < c2.len() implies #[trigger] c2[i].1 == ch.outcome_weight(i) by {
            assert(c2[i] == cands[i]);
        }
        lemma_weights_upto(c2, ch);
        assert(cands.last().1 == ch.outcome_weight(cands.len() - 1)) by {
            assert(cands[cands.len() - 1].1 == ch.outcome_weight(cands.len() - 1));
        }
    }
}

proof fn lemma_outcome_weights_sum(ch: Characteristic, k: nat)
    requires
        k <= ch.outcome_count(),
    ensures
        weight_sum(outcome_weights(ch).subrange(0, k as int)) == outcome_weights_upto(ch, k),
    decreases k,
{
    let s = outcome_weights(ch).subrange(0, k as int);
    if k == 0 {
        assert(s.len() == 0);
    } else {
        lemma_outcome_weights_sum(ch, (k - 1) as nat);
        lemma_weight_sum_last(s);
        assert(s.drop_last() =~= outcome_weights(ch).subrange(0, k - 1));
        assert(s.last() == ch.outcome_weight(k - 1));
    }
}

/// The weights of a rule's outcomes at a node add up to `6^exponent_increase`: the
/// probabilities of going to each child add up to one.
pub proof fn lemma_outcomes_total(rule: Rule, cfg: CombatConfig, st: CombatStatus)
    requires
        !(rule is Ward && cfg.defense_stats.ward is None),
        trial_count(rule, st) <= u32::MAX,
    ensures
        outcome_weight_total(outcomes(rule, cfg, st)) == power(6, exponent_increase(rule, cfg, st)),
{
    let cands = outcomes(rule, cfg, st);
    let n = trial_count(rule, st) as nat;
    match rule {
        Rule::AttackCharacteristic => {
            let ch = cfg.attack_stats.attacks;
            lemma_weights_upto(cands, ch);
            lemma_outcome_weights_total(ch);
        },
        Rule::Damages => match cfg.attack_stats.damages {
            Characteristic::Value(v) => {
                let c0 = cands.drop_last();
                assert(c0.len() == 0);
                assert(outcome_weight_total(c0) == 0);
                assert(cfg.attack_stats.damages.outcome_exponent() == 0);
                assert(exponent_increase(rule, cfg, st) == 0);
                assert(power(6, 0) == 1);
            },
            Characteristic::DiceRoll(d) => {
                let ch = cfg.attack_stats.damages;
                let w = outcome_weights(ch);
                let comps = compositions(w.len(), n);
                lemma_weights_match(cands, comps, w);
                lemma_split_weights_total(n, w);
                lemma_outcome_weights_sum(ch, ch.outcome_count());
                assert(w.subrange(0, w.len() as int) =~= w);
                lemma_outcome_weights_total(ch);
                lemma_power_multiplies(6, ch.outcome_exponent(), n);
            },
        },
        _ => {
            let w = trial_weights(rule, cfg);
            let comps = compositions(w.len(), n);
            lemma_weights_match(cands, comps, w);
            lemma_split_weights_total(n, w);
            if is_hit_rule(rule) {
                lemma_passing_faces_bound(rule, cfg, 5);
                let s = passing_faces(rule, cfg, 5);
                let w1 = w.drop_first();
                let w2 = w1.drop_first();
                let w3 = w2.drop_first();
                assert(w3.len() == 0);
                assert(weight_sum(w3) == 0);
                assert(weight_sum(w2) == w2[0] + weight_sum(w3));
                assert(weight_sum(w1) == w1[0] + weight_sum(w2));
                assert(weight_sum(w) == w[0] + weight_sum(w1));
                assert(weight_sum(w) == 1 + s + (5 - s));
            } else {
                lemma_passing_faces_bound(rule, cfg, 6);
                let s = passing_faces(rule, cfg, 6);
                let w1 = w.drop_first();
                let w2 = w1.drop_first();
                assert(w2.len() == 0);
                assert(weight_sum(w2) == 0);
                assert(weight_sum(w1) == w1[0] + weight_sum(w2));
                assert(weight_sum(w) == w[0] + weight_sum(w1));
                assert(weight_sum(w) == s + (6 - s));
            }
        },
    }
}

} // verus!
