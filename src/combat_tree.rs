//! The state of one branch of a combat, the configuration that rules read, and the
//! probability tree that rules grow, down to the distribution of damage.
use crate::bignat::BigNat;
use crate::combat_stats::{AttackStats, DefenseStats, RollModifier};
use crate::partitions::{big_pow, lemma_power_adds, power};
use crate::probability::Probability;
use crate::rules::{
    applied, child_models, child_node, exponent_increase, lemma_outcomes_total, outcome_weight_total,
    outcomes, views, Rule, StatusModel,
};
use vstd::prelude::*;

verus! {

/// The pools flowing through the resolution at one node.
#[derive(Clone, Copy, Debug, PartialEq, Eq, Structural)]
pub struct CombatStatus {
    pub attacks: u32,
    pub hits: u32,
    pub wounds: u32,
    pub mortal_wounds: u32,
    pub damages: u32,
}

impl CombatStatus {
    /// Every pool empty.
    pub fn new() -> (r: CombatStatus)
        ensures
            r == (CombatStatus { attacks: 0, hits: 0, wounds: 0, mortal_wounds: 0, damages: 0 }),
    {
        CombatStatus { attacks: 0, hits: 0, wounds: 0, mortal_wounds: 0, damages: 0 }
    }

    pub fn new_with_values(attacks: u32, hits: u32, wounds: u32, mortal_wounds: u32, damages: u32) -> (r: CombatStatus)
        ensures
            r == (CombatStatus { attacks, hits, wounds, mortal_wounds, damages }),
    {
        CombatStatus { attacks, hits, wounds, mortal_wounds, damages }
    }

    pub fn with_attacks(&self, attacks: u32) -> (r: CombatStatus)
        ensures
            r == (CombatStatus { attacks, ..*self }),
    {
        CombatStatus { attacks, ..*self }
    }

    pub fn with_hits(&self, hits: u32) -> (r: CombatStatus)
        ensures
            r == (CombatStatus { hits, ..*self }),
    {
        CombatStatus { hits, ..*self }
    }

    pub fn with_wounds(&self, wounds: u32) -> (r: CombatStatus)
        ensures
            r == (CombatStatus { wounds, ..*self }),
    {
        CombatStatus { wounds, ..*self }
    }

    pub fn with_mortal_wounds(&self, mortal_wounds: u32) -> (r: CombatStatus)
        ensures
            r == (CombatStatus { mortal_wounds, ..*self }),
    {
        CombatStatus { mortal_wounds, ..*self }
    }

    pub fn with_damages(&self, damages: u32) -> (r: CombatStatus)
        ensures
            r == (CombatStatus { damages, ..*self }),
    {
        CombatStatus { damages, ..*self }
    }
}

/// Names of the pools of a `CombatStatus`.
#[derive(Clone, Copy, Debug, PartialEq, Eq, Structural)]
pub enum CombatStatusAttribute {
    Attacks,
    Hits,
    Wounds,
    MortalWounds,
    Damages,
}

/// Everything the rules read: both sides' characteristics and the roll modifiers.
#[derive(Clone, Copy, Debug, PartialEq, Eq, Structural)]
pub struct CombatConfig {
    pub attack_stats: AttackStats,
    pub defense_stats: DefenseStats,
    pub modifier: RollModifier,
}

impl CombatConfig {
    /// A configuration without roll modifiers.
    pub fn new(attack_stats: AttackStats, defense_stats: DefenseStats) -> (r: CombatConfig)
        ensures
            r == (CombatConfig {
                attack_stats,
                defense_stats,
                modifier: RollModifier { to_hit: 0, to_wound: 0, to_save: 0 },
            }),
    {
        CombatConfig { attack_stats, defense_stats, modifier: RollModifier::new_null() }
    }

    pub fn new_with_modifiers(
        attack_stats: AttackStats,
        defense_stats: DefenseStats,
        modifier: RollModifier,
    ) -> (r: CombatConfig)
        ensures
            r == (CombatConfig { attack_stats, defense_stats, modifier }),
    {
        CombatConfig { attack_stats, defense_stats, modifier }
    }
}

/// Why a distribution could not be computed.
#[derive(Clone, Copy, Debug, PartialEq, Eq, Structural)]
pub enum CombatError {
    /// A pool outgrew 32 bits, or a probability's exponent outgrew 64 bits.
    Overflow,
}

/// One weighted branch: a status reached with a probability, and the positions of its
/// children in the tree that holds it.
pub struct CombatNode {
    pub status: CombatStatus,
    pub probability: Probability,
    pub children: Vec<usize>,
}

/// What a node stands for: its status, and its probability as `numerator / 6^exponent`.
pub struct NodeModel {
    pub status: CombatStatus,
    pub numerator: nat,
    pub exponent: nat,
}

impl View for CombatNode {
    type V = NodeModel;

    open spec fn view(&self) -> NodeModel {
        NodeModel {
            status: self.status,
            numerator: self.probability.numerator@,
            exponent: self.probability.exponent as nat,
        }
    }
}

impl CombatNode {
    /// A node without children.
    pub fn new(status: CombatStatus, probability: Probability) -> (r: CombatNode)
        ensures
            r.status == status,
            r.probability.numerator@ == probability.numerator@,
            r.probability.exponent == probability.exponent,
            r.children@.len() == 0,
    {
        CombatNode { status, probability, children: Vec::new() }
    }

    /// Records the node at position `index` of the tree as the last child.
    pub fn add_child(&mut self, index: usize)
        ensures
            final(self)@ == old(self)@,
            final(self).children@ == old(self).children@.push(index),
    {
        self.children.push(index);
    }
}

/// The leaves after `rule` is applied to each of `leaves` in order: a leaf is replaced by
/// its children, and stays when the rule gives it none; `None` on overflow.
pub open spec fn expand(rule: Rule, cfg: CombatConfig, leaves: Seq<NodeModel>) -> Option<Seq<NodeModel>>
    decreases leaves.len(),
{
    if leaves.len() == 0 {
        Some(seq![])
    } else {
        match (expand(rule, cfg, leaves.drop_last()), child_models(rule, cfg, leaves.last())) {
            (Some(a), Some(ch)) => Some(
                a + if ch.len() == 0 {
                    seq![leaves.last()]
                } else {
                    ch
                },
            ),
            _ => None,
        }
    }
}

proof fn lemma_expand_none(rule: Rule, cfg: CombatConfig, l: Seq<NodeModel>, j: int)
    requires
        0 <= j <= l.len(),
        expand(rule, cfg, l.subrange(0, j)) is None,
    ensures
        expand(rule, cfg, l) is None,
    decreases l.len() - j,
{
    if j < l.len() {
        let pre = l.subrange(0, j + 1);
        assert(pre.drop_last() =~= l.subrange(0, j));
        lemma_expand_none(rule, cfg, l, j + 1);
    } else {
        assert(l.subrange(0, j) =~= l);
    }
}

proof fn lemma_expand_prefix_none(rule: Rule, cfg: CombatConfig, l: Seq<NodeModel>, i: int)
    requires
        0 <= i < l.len(),
        child_models(rule, cfg, l[i]) is None,
    ensures
        expand(rule, cfg, l) is None,
{
    let pre = l.subrange(0, i + 1);
    assert(pre.drop_last() =~= l.subrange(0, i));
    assert(pre.last() == l[i]);
    lemma_expand_none(rule, cfg, l, i + 1);
}

proof fn lemma_expand_some(rule: Rule, cfg: CombatConfig, l: Seq<NodeModel>)
    ensures
        (forall|t: int| 0 <= t < l.len() ==> #[trigger] child_models(rule, cfg, l[t]) is Some) ==> expand(rule, cfg, l) is Some,
    decreases l.len(),
{
    if l.len() > 0 {
        lemma_expand_some(rule, cfg, l.drop_last());
        if forall|t: int| 0 <= t < l.len() ==> #[trigger] child_models(rule, cfg, l[t]) is Some {
            assert forall|t: int| 0 <= t < l.drop_last().len() implies #[trigger] child_models(rule, cfg, l.drop_last()[t]) is Some by {
                assert(l.drop_last()[t] == l[t]);
            }
            assert(child_models(rule, cfg, l[l.len() - 1]) is Some);
        }
    }
}

/// The leaves after each rule of `rules` in turn.
pub open spec fn run(rules: Seq<Rule>, cfg: CombatConfig, leaves: Seq<NodeModel>) -> Option<Seq<NodeModel>>
    decreases rules.len(),
{
    if rules.len() == 0 {
        Some(leaves)
    } else {
        match run(rules.drop_last(), cfg, leaves) {
            Some(l) => expand(rules.last(), cfg, l),
            None => None,
        }
    }
}

proof fn lemma_run_none(rules: Seq<Rule>, cfg: CombatConfig, leaves: Seq<NodeModel>, j: int)
    requires
        0 <= j <= rules.len(),
        run(rules.subrange(0, j), cfg, leaves) is None,
    ensures
        run(rules, cfg, leaves) is None,
    decreases rules.len() - j,
{
    if j < rules.len() {
        let pre = rules.subrange(0, j + 1);
        assert(pre.drop_last() =~= rules.subrange(0, j));
        lemma_run_none(rules, cfg, leaves, j + 1);
    } else {
        assert(rules.subrange(0, j) =~= rules);
    }
}

/// The root: every pool empty, probability one.
pub open spec fn root_model() -> NodeModel {
    NodeModel {
        status: CombatStatus { attacks: 0, hits: 0, wounds: 0, mortal_wounds: 0, damages: 0 },
        numerator: 1,
        exponent: 0,
    }
}

/// The largest exponent among `l`, zero for none.
pub open spec fn max_exponent(l: Seq<NodeModel>) -> nat
    decreases l.len(),
{
    if l.len() == 0 {
        0
    } else if max_exponent(l.drop_last()) >= l.last().exponent {
        max_exponent(l.drop_last())
    } else {
        l.last().exponent
    }
}

/// The probability of `n`, as a numerator over `6^e`.
pub open spec fn scaled(n: NodeModel, e: nat) -> nat {
    n.numerator * power(6, (e - n.exponent) as nat)
}

/// The total probability, as a numerator over `6^e`, of the leaves of `l` with damage `d`.
pub open spec fn mass(l: Seq<NodeModel>, d: u32, e: nat) -> nat
    decreases l.len(),
{
    if l.len() == 0 {
        0
    } else {
        mass(l.drop_last(), d, e) + if l.last().status.damages == d {
            scaled(l.last(), e)
        } else {
            0
        }
    }
}

/// Whether some leaf of `l` has damage `d`.
pub open spec fn has_damage(l: Seq<NodeModel>, d: u32) -> bool {
    exists|i: int| 0 <= i < l.len() && #[trigger] l[i].status.damages == d
}

/// `r` lists, by strictly increasing damage, each damage that some leaf of `l` has, with
/// the total probability of those leaves as a numerator over `6^e`.
pub open spec fn grouped_at(r: Seq<(u32, Probability)>, l: Seq<NodeModel>, e: nat) -> bool {
    &&& forall|i: int, j: int| 0 <= i < j < r.len() ==> r[i].0 < r[j].0
    &&& forall|i: int|
        0 <= i < r.len() ==> (#[trigger] r[i]).1.exponent == e && r[i].1.numerator@ == mass(
            l,
            r[i].0,
            e,
        )
    &&& forall|d: u32| has_damage(l, d) <==> exists|i: int| 0 <= i < r.len() && #[trigger] r[i].0 == d
}

/// The damage distribution of the leaves `l`, over the largest exponent among them.
pub open spec fn grouped(r: Seq<(u32, Probability)>, l: Seq<NodeModel>) -> bool {
    grouped_at(r, l, max_exponent(l))
}

proof fn lemma_max_exponent(l: Seq<NodeModel>)
    ensures
        forall|i: int| 0 <= i < l.len() ==> (#[trigger] l[i]).exponent <= max_exponent(l),
        l.len() > 0 ==> exists|i: int| 0 <= i < l.len() && (#[trigger] l[i]).exponent == max_exponent(l),
    decreases l.len(),
{
    if l.len() > 0 {
        lemma_max_exponent(l.drop_last());
        assert forall|i: int| 0 <= i < l.len() implies (#[trigger] l[i]).exponent <= max_exponent(l) by {
            if i < l.len() - 1 {
                assert(l[i] == l.drop_last()[i]);
            }
        }
        if max_exponent(l.drop_last()) >= l.last().exponent && l.len() > 1 {
            let j = choose|j: int| 0 <= j < l.drop_last().len() && (#[trigger] l.drop_last()[j]).exponent == max_exponent(l.drop_last());
            assert(l[j] == l.drop_last()[j]);
        } else {
            assert(l[l.len() - 1] == l.last());
        }
    }
}

/// The models of the nodes at positions `ids` of `nodes`.
pub open spec fn models_at(ids: Seq<usize>, nodes: Seq<CombatNode>) -> Seq<NodeModel> {
    ids.map_values(|i: usize| nodes[i as int]@)
}

proof fn lemma_models_at_stable(ids: Seq<usize>, a: Seq<CombatNode>, b: Seq<CombatNode>)
    requires
        a.len() <= b.len(),
        forall|j: int| 0 <= j < a.len() ==> (#[trigger] b[j])@ == a[j]@,
        forall|j: int| 0 <= j < ids.len() ==> (#[trigger] ids[j]) < a.len(),
    ensures
        models_at(ids, b) == models_at(ids, a),
{
    assert(models_at(ids, b) =~= models_at(ids, a)) by {
        assert forall|j: int| 0 <= j < ids.len() implies models_at(ids, b)[j] == models_at(ids, a)[j] by {
            assert(b[ids[j] as int]@ == a[ids[j] as int]@);
        }
    }
}

proof fn lemma_models_at_push(ids: Seq<usize>, nodes: Seq<CombatNode>, i: usize)
    ensures
        models_at(ids.push(i), nodes) == models_at(ids, nodes).push(nodes[i as int]@),
{
    assert(models_at(ids.push(i), nodes) =~= models_at(ids, nodes).push(nodes[i as int]@));
}

/// The positions `n0, n0 + 1, ..., n0 + k - 1`.
pub open spec fn fresh(n0: nat, k: nat) -> Seq<usize> {
    Seq::new(k, |t: int| (n0 + t) as usize)
}

/// Every child of a node comes after it, and is a node of `nodes`.
pub open spec fn links_ok(nodes: Seq<CombatNode>) -> bool {
    forall|j: int, t: int|
        0 <= j < nodes.len() && 0 <= t < nodes[j].children@.len() ==> j < #[trigger] nodes[j].children@[t] < nodes.len()
}

/// The children of node `j`, if it has any, carry together exactly its probability.
pub open spec fn conserves(nodes: Seq<CombatNode>, j: int) -> bool {
    let ch = models_at(nodes[j].children@, nodes);
    ch.len() == 0 || (max_exponent(ch) >= nodes[j]@.exponent && total_mass(ch, max_exponent(ch))
        == scaled(nodes[j]@, max_exponent(ch)))
}

/// Every node's children carry its probability.
pub open spec fn all_conserve(nodes: Seq<CombatNode>) -> bool {
    forall|j: int| 0 <= j < nodes.len() ==> #[trigger] conserves(nodes, j)
}

/// Appends `children` to `nodes` as the children of node `idx`, and their positions to
/// `next`.
fn attach(nodes: &mut Vec<CombatNode>, idx: usize, children: Vec<CombatNode>, next: &mut Vec<usize>)
    requires
        idx < old(nodes)@.len(),
        old(nodes)@[idx as int].children@.len() == 0,
        links_ok(old(nodes)@),
        all_conserve(old(nodes)@),
        children@.len() > 0,
        forall|t: int| 0 <= t < children@.len() ==> (#[trigger] children@[t]).children@.len() == 0,
        max_exponent(views(children@)) >= old(nodes)@[idx as int]@.exponent,
        total_mass(views(children@), max_exponent(views(children@))) == scaled(
            old(nodes)@[idx as int]@,
            max_exponent(views(children@)),
        ),
    ensures
        final(nodes)@.len() == old(nodes)@.len() + children@.len(),
        forall|j: int| 0 <= j < old(nodes)@.len() && j != idx ==> #[trigger] final(nodes)@[j] == old(nodes)@[j],
        final(nodes)@[idx as int]@ == old(nodes)@[idx as int]@,
        final(nodes)@[idx as int].children@ == fresh(old(nodes)@.len(), children@.len()),
        forall|t: int| 0 <= t < children@.len() ==> #[trigger] fresh(old(nodes)@.len(), children@.len())[t] == old(nodes)@.len() + t,
        models_at(fresh(old(nodes)@.len(), children@.len()), final(nodes)@) == views(children@),
        forall|j: int| old(nodes)@.len() <= j < final(nodes)@.len() ==> (#[trigger] final(nodes)@[j]).children@.len() == 0,
        final(next)@ == old(next)@ + fresh(old(nodes)@.len(), children@.len()),
        links_ok(final(nodes)@),
        all_conserve(final(nodes)@),
{
    let ghost n0 = nodes@.len();
    let ghost start = nodes@;
    let ghost next0 = next@;
    let ghost ch = views(children@);
    let ghost k = children@.len();
    let mut children = children;
    let mut rev: Vec<CombatNode> = Vec::new();
    while children.len() > 0
        invariant
            views(children@) == ch.subrange(0, children@.len() as int),
            forall|t: int| 0 <= t < children@.len() ==> (#[trigger] children@[t]).children@.len() == 0,
            rev@.len() + children@.len() == k,
            k == ch.len(),
            forall|t: int| 0 <= t < rev@.len() ==> #[trigger] rev@[t]@ == ch[k - 1 - t] && rev@[t].children@.len() == 0,
        decreases children@.len(),
    {
        let c = children.pop().unwrap();
        proof {
            let m = children@.len() as int;
            assert(views(children@.push(c)) == ch.subrange(0, m + 1));
            assert(views(children@.push(c))[m] == c@);
            assert(views(children@) =~= ch.subrange(0, m));
        }
        rev.push(c);
    }
    let mut parent = CombatNode::new(nodes[idx].status, nodes[idx].probability.copy());
    while rev.len() > 0
        invariant
            k == ch.len(),
            rev@.len() <= k,
            forall|t: int| 0 <= t < rev@.len() ==> #[trigger] rev@[t]@ == ch[k - 1 - t] && rev@[t].children@.len() == 0,
            nodes@.len() == n0 + (k - rev@.len()),
            n0 == start.len(),
            idx < n0,
            forall|j: int| 0 <= j < n0 ==> #[trigger] nodes@[j] == start[j],
            forall|j: int| n0 <= j < nodes@.len() ==> (#[trigger] nodes@[j])@ == ch[j - n0] && nodes@[j].children@.len() == 0,
            parent@ == start[idx as int]@,
            parent.children@ == fresh(n0, (k - rev@.len()) as nat),
            forall|t: int| 0 <= t < parent.children@.len() ==> #[trigger] parent.children@[t] == n0 + t,
            next@ == next0 + fresh(n0, (k - rev@.len()) as nat),
        decreases rev@.len(),
    {
        let c = rev.pop().unwrap();
        let id = nodes.len();
        let ghost done = (k - rev@.len() - 1) as nat;
        nodes.push(c);
        next.push(id);
        parent.add_child(id);
        proof {
            assert(fresh(n0, (done + 1) as nat) =~= fresh(n0, done).push(id));
        }
    }
    let ghost before_set = nodes@;
    nodes.set(idx, parent);
    proof {
        let f = fresh(n0, k);
        let fin = nodes@;
        assert(fin[idx as int].children@ == f);
        assert forall|t: int| 0 <= t < k implies #[trigger] f[t] == n0 + t by {
            assert(fin[idx as int].children@[t] == n0 + t);
        }
        assert(models_at(f, fin) =~= ch) by {
            assert forall|t: int| 0 <= t < k implies models_at(f, fin)[t] == ch[t] by {
                assert(f[t] == n0 + t);
                assert(fin[n0 + t] == before_set[n0 + t]);
                assert(models_at(f, fin)[t] == fin[f[t] as int]@);
            }
        }
        assert forall|j: int, t: int|
            0 <= j < fin.len() && 0 <= t < fin[j].children@.len() implies j < #[trigger] fin[j].children@[t] < fin.len() by {
            if j < n0 && j != idx {
                assert(fin[j] == start[j]);
                assert(start[j].children@[t] == fin[j].children@[t]);
            } else if j == idx {
                assert(fin[j].children@[t] == f[t]);
                assert(f[t] == n0 + t);
            } else {
                assert(fin[j] == before_set[j]);
            }
        }
        assert forall|j: int| 0 <= j < fin.len() implies #[trigger] conserves(fin, j) by {
            if j < n0 && j != idx {
                assert(fin[j] == start[j]);
                assert(conserves(start, j));
                let cs = start[j].children@;
                assert forall|a: int| 0 <= a < cs.len() implies (#[trigger] cs[a]) < n0 by {
                    assert(j < start[j].children@[a] < start.len());
                }
                assert forall|a: int| 0 <= a < n0 implies (#[trigger] fin[a])@ == start[a]@ by {
                    if a != idx {
                        assert(fin[a] == start[a]);
                    }
                }
                lemma_models_at_stable(cs, start, fin);
            } else if j == idx {
                assert(fin[j].children@ == f);
            } else {
                assert(fin[j] == before_set[j]);
                assert(fin[j].children@.len() == 0);
                assert(models_at(fin[j].children@, fin).len() == 0);
            }
        }
    }
}

/// A probability tree: every node it ever held, in the order they were made, the root
/// first; each node lists the positions of its children. The leaves are the nodes that
/// the last rule left without children.
pub struct CombatTree {
    config: CombatConfig,
    nodes: Vec<CombatNode>,
    leaves: Vec<usize>,
}

impl CombatTree {
    /// The configuration the rules read.
    pub closed spec fn spec_config(&self) -> CombatConfig {
        self.config
    }

    /// The models of the leaves, in order.
    pub closed spec fn leaf_models(&self) -> Seq<NodeModel> {
        models_at(self.leaves@, self.nodes@)
    }

    /// How many nodes the tree holds.
    pub closed spec fn node_count(&self) -> nat {
        self.nodes@.len()
    }

    /// The nodes, in the order they were made.
    pub closed spec fn spec_nodes(&self) -> Seq<CombatNode> {
        self.nodes@
    }

    /// The tree is well formed: the leaves are distinct nodes without children, every
    /// child comes after its parent, and the children of every node carry together exactly
    /// its probability.
    pub closed spec fn wf(&self) -> bool {
        &&& forall|j: int|
            0 <= j < self.leaves@.len() ==> (#[trigger] self.leaves@[j]) < self.nodes@.len()
                && self.nodes@[self.leaves@[j] as int].children@.len() == 0
        &&& forall|a: int, b: int| 0 <= a < b < self.leaves@.len() ==> self.leaves@[a] != self.leaves@[b]
        &&& links_ok(self.nodes@)
        &&& all_conserve(self.nodes@)
    }

    /// Node `j` of `self` is node `j` of `before` with the same status and probability,
    /// and has the same children, or had none.
    pub closed spec fn grows(&self, before: &CombatTree) -> bool {
        &&& before.nodes@.len() <= self.nodes@.len()
        &&& forall|j: int|
            0 <= j < before.nodes@.len() ==> (#[trigger] self.nodes@[j])@ == before.nodes@[j]@ && (
            self.nodes@[j].children@ == before.nodes@[j].children@
                || before.nodes@[j].children@.len() == 0)
    }

    /// A tree of one node, the root.
    pub fn new(config: CombatConfig) -> (r: CombatTree)
        ensures
            r.wf(),
            r.spec_config() == config,
            r.leaf_models() == seq![root_model()],
            r.node_count() == 1,
    {
        let mut nodes: Vec<CombatNode> = Vec::new();
        nodes.push(CombatNode::new(CombatStatus::new(), Probability::one()));
        let mut leaves: Vec<usize> = Vec::new();
        leaves.push(0);
        let r = CombatTree { config, nodes, leaves };
        assert(r.leaf_models() =~= seq![root_model()]);
        assert(conserves(r.nodes@, 0));
        r
    }

    /// Applies one rule to every leaf: a leaf gets the rule's children as its own, and
    /// stays a leaf when the rule gives it none. Nodes already in the tree keep their
    /// status and probability, and only leaves gain children, all of them new nodes. On an
    /// error the tree is unchanged.
    pub fn apply_rule(&mut self, rule: Rule) -> (r: Result<(), CombatError>)
        requires
            old(self).wf(),
        ensures
            final(self).wf(),
            final(self).spec_config() == old(self).spec_config(),
            final(self).grows(old(self)),
            forall|j: int|
                0 <= j < old(self).node_count() && final(self).spec_nodes()[j].children@
                    != old(self).spec_nodes()[j].children@ ==> forall|t: int|
                    0 <= t < final(self).spec_nodes()[j].children@.len() ==> old(self).node_count()
                        <= #[trigger] final(self).spec_nodes()[j].children@[t],
            match expand(rule, old(self).spec_config(), old(self).leaf_models()) {
                Some(l) => r is Ok && final(self).leaf_models() == l,
                None => r is Err && *final(self) == *old(self),
            },
    {
        let ghost old_leaves = self.leaf_models();
        let ghost old_nodes = self.nodes@;
        let ghost n_old = self.nodes@.len();
        let ghost cfg = self.config;
        let ghost nl = self.leaves@.len();
        let mut results: Vec<Vec<CombatNode>> = Vec::new();
        let mut i: usize = 0;
        while i < self.leaves.len()
            invariant
                i <= nl,
                nl == self.leaves@.len(),
                old_leaves == models_at(self.leaves@, self.nodes@),
                old_leaves == old(self).leaf_models(),
                self == old(self),
                cfg == self.config,
                self.wf(),
                results@.len() == i,
                forall|t: int| 0 <= t < i ==> #[trigger] child_models(rule, cfg, old_leaves[t]) is Some
                    && views(results@[t]@) == child_models(rule, cfg, old_leaves[t])->Some_0
                    && forall|u: int| 0 <= u < results@[t]@.len() ==> (#[trigger] results@[t]@[u]).children@.len() == 0,
            decreases nl - i,
        {
            let idx = self.leaves[i];
            let res = rule.apply(&self.nodes[idx], &self.config);
            proof {
                let pre = old_leaves.subrange(0, i + 1);
                assert(pre.drop_last() =~= old_leaves.subrange(0, i as int));
                assert(old_leaves[i as int] == self.nodes@[idx as int]@);
            }
            match res {
                Err(e) => {
                    proof {
                        lemma_expand_prefix_none(rule, cfg, old_leaves, i as int);
                    }
                    return Err(e);
                },
                Ok(children) => {
                    results.push(children);
                },
            }
            i = i + 1;
        }
        proof {
            lemma_expand_some(rule, cfg, old_leaves);
        }
        let mut pending: Vec<Vec<CombatNode>> = Vec::new();
        while results.len() > 0
            invariant
                pending@.len() + results@.len() == nl,
                forall|t: int| 0 <= t < results@.len() ==> #[trigger] child_models(rule, cfg, old_leaves[t]) is Some
                    && views(results@[t]@) == child_models(rule, cfg, old_leaves[t])->Some_0
                    && forall|u: int| 0 <= u < results@[t]@.len() ==> (#[trigger] results@[t]@[u]).children@.len() == 0,
                forall|t: int| 0 <= t < pending@.len() ==> #[trigger] child_models(rule, cfg, old_leaves[nl - 1 - t]) is Some
                    && views(pending@[t]@) == child_models(rule, cfg, old_leaves[nl - 1 - t])->Some_0
                    && forall|u: int| 0 <= u < pending@[t]@.len() ==> (#[trigger] pending@[t]@[u]).children@.len() == 0,
            decreases results@.len(),
        {
            let r0 = results.pop().unwrap();
            pending.push(r0);
        }
        let mut next: Vec<usize> = Vec::new();
        let mut i: usize = 0;
        assert(old_leaves.subrange(0, 0) =~= Seq::<NodeModel>::empty());
        assert(models_at(next@, self.nodes@) =~= Seq::<NodeModel>::empty());
        while i < self.leaves.len()
            invariant
                i <= nl,
                nl == self.leaves@.len(),
                self.leaves@ == old(self).leaves@,
                self.config == old(self).config,
                cfg == self.config,
                old_leaves == models_at(self.leaves@, old_nodes),
                old_nodes == old(self).nodes@,
                n_old == old_nodes.len(),
                old(self).wf(),
                n_old <= self.nodes@.len(),
                forall|j: int| 0 <= j < n_old ==> (#[trigger] self.nodes@[j])@ == old_nodes[j]@ && (
                    self.nodes@[j].children@ == old_nodes[j].children@ || (old_nodes[j].children@.len() == 0
                        && forall|t: int| 0 <= t < self.nodes@[j].children@.len() ==> n_old <= #[trigger] self.nodes@[j].children@[t])),
                forall|j: int| n_old <= j < self.nodes@.len() ==> (#[trigger] self.nodes@[j]).children@.len() == 0,
                links_ok(self.nodes@),
                all_conserve(self.nodes@),
                forall|j: int| i <= j < nl ==> (#[trigger] self.nodes@[self.leaves@[j] as int]).children@.len() == 0,
                forall|j: int| 0 <= j < next@.len() ==> (#[trigger] next@[j]) < self.nodes@.len()
                    && self.nodes@[next@[j] as int].children@.len() == 0
                    && (next@[j] >= n_old || exists|a: int| 0 <= a < i && self.leaves@[a] == next@[j]),
                forall|a: int, b: int| 0 <= a < b < next@.len() ==> next@[a] != next@[b],
                pending@.len() == nl - i,
                forall|t: int| 0 <= t < pending@.len() ==> #[trigger] child_models(rule, cfg, old_leaves[nl - 1 - t]) is Some
                    && views(pending@[t]@) == child_models(rule, cfg, old_leaves[nl - 1 - t])->Some_0
                    && forall|u: int| 0 <= u < pending@[t]@.len() ==> (#[trigger] pending@[t]@[u]).children@.len() == 0,
                expand(rule, cfg, old_leaves.subrange(0, i as int)) == Some(models_at(next@, self.nodes@)),
            decreases nl - i,
        {
            let children = pending.pop().unwrap();
            let idx = self.leaves[i];
            let ghost leaf = old_leaves[i as int];
            let ghost ch = child_models(rule, cfg, leaf)->Some_0;
            let ghost before = models_at(next@, self.nodes@);
            let ghost nodes_before = self.nodes@;
            let ghost next_before = next@;
            proof {
                assert(nl - 1 - (nl - i - 1) == i);
                let pre = old_leaves.subrange(0, i + 1);
                assert(pre.drop_last() =~= old_leaves.subrange(0, i as int));
                assert(pre.last() == leaf);
                assert(leaf == old_nodes[idx as int]@);
                assert(idx < n_old);
                assert(self.nodes@[idx as int]@ == leaf);
                assert(views(children@) == ch);
            }
            if children.len() == 0 {
                proof {
                    lemma_models_at_push(next@, self.nodes@, idx);
                }
                next.push(idx);
                proof {
                    assert(models_at(next@, self.nodes@) =~= before + seq![leaf]);
                    assert forall|a: int, b: int| 0 <= a < b < next@.len() implies next@[a] != next@[b] by {
                        if b == next@.len() - 1 && a < b {
                            if next_before[a] >= n_old {
                            } else {
                                let a2 = choose|a2: int| 0 <= a2 < i && self.leaves@[a2] == next_before[a];
                                assert(old(self).leaves@[a2] != old(self).leaves@[i as int]);
                            }
                        }
                    }
                }
            } else {
                let ghost e = leaf.exponent + exponent_increase(rule, cfg, leaf.status);
                proof {
                    lemma_children_conserve(rule, cfg, leaf, e);
                    lemma_max_exponent(ch);
                    let w = choose|w: int| 0 <= w < ch.len() && (#[trigger] ch[w]).exponent == max_exponent(ch);
                    assert(ch[w].exponent == e);
                    assert forall|t: int| 0 <= t < children@.len() implies (#[trigger] children@[t]).children@.len() == 0 by {
                        assert(pending@.len() == nl - i - 1);
                    }
                }
                attach(&mut self.nodes, idx, children, &mut next);
                proof {
                    let k = ch.len();
                    let f = fresh(nodes_before.len(), k);
                    let fin = self.nodes@;
                    assert forall|j: int| 0 <= j < nodes_before.len() implies (#[trigger] fin[j])@ == nodes_before[j]@ by {
                        if j != idx {
                            assert(fin[j] == nodes_before[j]);
                        }
                    }
                    assert forall|j: int| 0 <= j < next_before.len() implies (#[trigger] next_before[j]) < nodes_before.len() by {}
                    lemma_models_at_stable(next_before, nodes_before, fin);
                    assert(models_at(next@, fin) =~= models_at(next_before, fin) + models_at(f, fin));
                    assert(models_at(next@, fin) =~= before + ch);
                    assert forall|j: int| 0 <= j < next@.len() implies (#[trigger] next@[j]) < fin.len()
                        && fin[next@[j] as int].children@.len() == 0
                        && (next@[j] >= n_old || exists|a: int| 0 <= a < i + 1 && self.leaves@[a] == next@[j]) by {
                        if j < next_before.len() {
                            assert(next@[j] == next_before[j]);
                            if next_before[j] >= n_old {
                                assert(next_before[j] != idx);
                            } else {
                                let a2 = choose|a2: int| 0 <= a2 < i && self.leaves@[a2] == next_before[j];
                                assert(old(self).leaves@[a2] != old(self).leaves@[i as int]);
                            }
                            assert(fin[next@[j] as int] == nodes_before[next@[j] as int]);
                        } else {
                            assert(next@[j] == f[j - next_before.len()]);
                        }
                    }
                    assert forall|a: int, b: int| 0 <= a < b < next@.len() implies next@[a] != next@[b] by {
                        if b >= next_before.len() {
                            assert(next@[b] == f[b - next_before.len()]);
                            assert(next@[b] >= nodes_before.len());
                            if a >= next_before.len() {
                                assert(next@[a] == f[a - next_before.len()]);
                            }
                        }
                    }
                    assert forall|j: int| i + 1 <= j < nl implies (#[trigger] fin[self.leaves@[j] as int]).children@.len() == 0 by {
                        assert(old(self).leaves@[j] != old(self).leaves@[i as int]);
                        assert(self.leaves@[j] < n_old);
                        assert(fin[self.leaves@[j] as int] == nodes_before[self.leaves@[j] as int]);
                    }
                    assert forall|j: int| 0 <= j < n_old implies (#[trigger] fin[j])@ == old_nodes[j]@ && (
                        fin[j].children@ == old_nodes[j].children@ || (old_nodes[j].children@.len() == 0
                            && forall|t: int| 0 <= t < fin[j].children@.len() ==> n_old <= #[trigger] fin[j].children@[t])) by {
                        if j != idx {
                            assert(fin[j] == nodes_before[j]);
                        } else {
                            assert(old_nodes[j].children@.len() == 0);
                            assert forall|t: int| 0 <= t < fin[j].children@.len() implies n_old <= #[trigger] fin[j].children@[t] by {
                                assert(fin[j].children@[t] == f[t]);
                            }
                        }
                    }
                }
            }
            i = i + 1;
        }
        proof {
            assert(old_leaves.subrange(0, i as int) =~= old_leaves);
        }
        self.leaves = next;
        Ok(())
    }

    /// Applies each rule of `sequence` in turn to every leaf. Nodes already in the tree
    /// keep their status and probability and only gain children. On an error the leaves
    /// are those after the rules before the one that failed.
    pub fn build(&mut self, sequence: &Vec<Rule>) -> (r: Result<(), CombatError>)
        requires
            old(self).wf(),
        ensures
            final(self).wf(),
            final(self).spec_config() == old(self).spec_config(),
            final(self).grows(old(self)),
            match run(sequence@, old(self).spec_config(), old(self).leaf_models()) {
                Some(l) => r is Ok && final(self).leaf_models() == l,
                None => r is Err && exists|j: int|
                    0 <= j < sequence@.len() && run(sequence@.subrange(0, j), old(self).spec_config(), old(self).leaf_models())
                        == Some(final(self).leaf_models()) && #[trigger] run(sequence@.subrange(0, j + 1), old(self).spec_config(), old(self).leaf_models()) is None,
            },
    {
        let ghost start = self.leaf_models();
        let ghost cfg = self.config;
        let mut i: usize = 0;
        assert(run(sequence@.subrange(0, 0), cfg, start) == Some(start));
        while i < sequence.len()
            invariant
                self.wf(),
                cfg == self.config,
                cfg == old(self).config,
                start == old(self).leaf_models(),
                self.grows(old(self)),
                i <= sequence@.len(),
                run(sequence@.subrange(0, i as int), cfg, start) == Some(self.leaf_models()),
            decreases sequence@.len() - i,
        {
            let rule = sequence[i];
            let ghost prev = *self;
            let res = self.apply_rule(rule);
            proof {
                let pre = sequence@.subrange(0, i + 1);
                assert(pre.drop_last() =~= sequence@.subrange(0, i as int));
                assert(pre.last() == rule);
            }
            if res.is_err() {
                proof {
                    lemma_run_none(sequence@, cfg, start, i + 1);
                    assert(run(sequence@.subrange(0, i + 1), cfg, start) is None);
                }
                return res;
            }
            proof {
                assert forall|j: int| 0 <= j < old(self).nodes@.len() implies (#[trigger] self.nodes@[j])@ == old(self).nodes@[j]@ && (
                    self.nodes@[j].children@ == old(self).nodes@[j].children@ || old(self).nodes@[j].children@.len() == 0) by {
                    assert(prev.nodes@[j]@ == old(self).nodes@[j]@);
                    assert(self.nodes@[j]@ == prev.nodes@[j]@);
                }
            }
            i = i + 1;
        }
        assert(sequence@.subrange(0, i as int) =~= sequence@);
        Ok(())
    }

    /// In a well-formed tree, the children of every node carry together exactly its
    /// probability.
    pub proof fn lemma_tree_conserves(&self)
        requires
            self.wf(),
        ensures
            forall|j: int| 0 <= j < self.node_count() ==> #[trigger] conserves(self.spec_nodes(), j),
    {
    }

    /// The leaves, in order.
    pub fn leaves(&self) -> (r: Vec<&CombatNode>)
        requires
            self.wf(),
        ensures
            r@.len() == self.leaf_models().len(),
            forall|j: int| 0 <= j < r@.len() ==> (#[trigger] r@[j])@ == self.leaf_models()[j],
    {
        let mut out: Vec<&CombatNode> = Vec::new();
        let mut i: usize = 0;
        while i < self.leaves.len()
            invariant
                self.wf(),
                i <= self.leaves@.len(),
                out@.len() == i,
                forall|j: int| 0 <= j < i ==> (#[trigger] out@[j])@ == self.leaf_models()[j],
            decreases self.leaves@.len() - i,
        {
            out.push(&self.nodes[self.leaves[i]]);
            i = i + 1;
        }
        out
    }

    /// The node at position `index`: the root is at zero.
    pub fn node(&self, index: usize) -> (r: &CombatNode)
        requires
            index < self.node_count(),
        ensures
            *r == self.spec_nodes()[index as int],
    {
        &self.nodes[index]
    }

    /// How many nodes the tree holds.
    pub fn len(&self) -> (r: usize)
        ensures
            r == self.node_count(),
    {
        self.nodes.len()
    }

    /// The leaves grouped by damage, each damage with the total probability of its leaves,
    /// all over one power of six; sorted by damage.
    pub fn retrieve_damages_probas(&self) -> (r: Vec<(u32, Probability)>)
        requires
            self.wf(),
        ensures
            grouped(r@, self.leaf_models()),
    {
        let ghost l = self.leaf_models();
        let mut e: u64 = 0;
        let mut k: usize = 0;
        assert(l.subrange(0, 0) =~= Seq::<NodeModel>::empty());
        while k < self.leaves.len()
            invariant
                l == self.leaf_models(),
                l.len() == self.leaves@.len(),
                self.wf(),
                k <= l.len(),
                e == max_exponent(l.subrange(0, k as int)),
            decreases l.len() - k,
        {
            proof {
                let pre = l.subrange(0, k + 1);
                assert(pre.drop_last() =~= l.subrange(0, k as int));
            }
            let leaf = &self.nodes[self.leaves[k]];
            assert(l[k as int] == leaf@);
            if leaf.probability.exponent > e {
                e = leaf.probability.exponent;
            }
            k = k + 1;
        }
        proof {
            assert(l.subrange(0, k as int) =~= l);
            lemma_max_exponent(l);
        }
        let six = BigNat::from_u64(6);
        let mut out: Vec<(u32, Probability)> = Vec::new();
        let mut i: usize = 0;
        while i < self.leaves.len()
            invariant
                l == self.leaf_models(),
                l.len() == self.leaves@.len(),
                self.wf(),
                i <= l.len(),
                e == max_exponent(l),
                six@ == 6,
                forall|t: int| 0 <= t < l.len() ==> (#[trigger] l[t]).exponent <= e,
                grouped_at(out@, l.subrange(0, i as int), e as nat),
            decreases l.len() - i,
        {
            let leaf = &self.nodes[self.leaves[i]];
            let d = leaf.status.damages;
            assert(l[i as int] == leaf@);
            let factor = big_pow(&six, e - leaf.probability.exponent);
            let sc = leaf.probability.numerator.mul(&factor);
            let ghost pre = l.subrange(0, i as int);
            let ghost post = l.subrange(0, i + 1);
            proof {
                assert(post.drop_last() =~= pre);
                assert(post.last() == leaf@);
                assert(sc@ == scaled(leaf@, e as nat));
                assert forall|d2: u32| mass(post, d2, e as nat) == mass(pre, d2, e as nat) + if d2 == d {
                    scaled(leaf@, e as nat)
                } else {
                    0
                } by {}
                assert forall|d2: u32| has_damage(post, d2) <==> (has_damage(pre, d2) || d2 == d) by {
                    if has_damage(pre, d2) {
                        let t = choose|t: int| 0 <= t < pre.len() && #[trigger] pre[t].status.damages == d2;
                        assert(post[t] == pre[t]);
                    }
                    if d2 == d {
                        assert(post[i as int].status.damages == d);
                    }
                    if has_damage(post, d2) {
                        let t = choose|t: int| 0 <= t < post.len() && #[trigger] post[t].status.damages == d2;
                        if t < i {
                            assert(post[t] == pre[t]);
                        }
                    }
                }
            }
            let mut p: usize = 0;
            while p < out.len() && out[p].0 < d
                invariant
                    p <= out@.len(),
                    forall|q: int| 0 <= q < p ==> (#[trigger] out@[q]).0 < d,
                decreases out@.len() - p,
            {
                p = p + 1;
            }
            let ghost before = out@;
            if p < out.len() && out[p].0 == d {
                let sum = out[p].1.numerator.add(&sc);
                out.set(p, (d, Probability { numerator: sum, exponent: e }));
                proof {
                    assert forall|d2: u32| has_damage(post, d2) implies exists|j: int| 0 <= j < out@.len() && #[trigger] out@[j].0 == d2 by {
                        if has_damage(pre, d2) {
                            let j = choose|j: int| 0 <= j < before.len() && #[trigger] before[j].0 == d2;
                            assert(out@[j].0 == d2);
                        } else {
                            assert(out@[p as int].0 == d2);
                        }
                    }
                    assert forall|d2: u32| (exists|j: int| 0 <= j < out@.len() && #[trigger] out@[j].0 == d2) implies has_damage(post, d2) by {
                        let j = choose|j: int| 0 <= j < out@.len() && #[trigger] out@[j].0 == d2;
                        assert(before[j].0 == d2);
                    }
                }
            } else {
                proof {
                    assert(!has_damage(pre, d)) by {
                        if has_damage(pre, d) {
                            let j = choose|j: int| 0 <= j < before.len() && #[trigger] before[j].0 == d;
                            if j < p {
                                assert(before[j].0 < d);
                            } else if j > p {
                                assert(before[p as int].0 < before[j].0);
                                assert(before[p as int].0 > d);
                            }
                        }
                    }
                    assert(mass(pre, d, e as nat) == 0) by {
                        lemma_mass_absent(pre, d, e as nat);
                    }
                }
                out.insert(p, (d, Probability { numerator: sc, exponent: e }));
                proof {
                    assert forall|a: int, b: int| 0 <= a < b < out@.len() implies out@[a].0 < out@[b].0 by {
                        if a < p as int && b == p as int {
                        } else if a == p as int {
                            assert(out@[b] == before[b - 1]);
                            if b - 1 > p {
                                assert(before[p as int].0 < before[b - 1].0);
                            }
                            assert(before[p as int].0 > d);
                        } else if a < p as int && b > p as int {
                            assert(out@[b] == before[b - 1]);
                        } else if b < p as int {
                            assert(out@[a] == before[a]);
                            assert(out@[b] == before[b]);
                        } else {
                            assert(out@[a] == before[a - 1]);
                            assert(out@[b] == before[b - 1]);
                        }
                    }
                    assert forall|j: int| 0 <= j < out@.len() implies (#[trigger] out@[j]).1.exponent == e && out@[j].1.numerator@ == mass(post, out@[j].0, e as nat) by {
                        if j < p {
                            assert(out@[j] == before[j]);
                        } else if j > p {
                            assert(out@[j] == before[j - 1]);
                            assert(before[j - 1].0 != d);
                        }
                    }
                    assert forall|d2: u32| has_damage(post, d2) implies exists|j: int| 0 <= j < out@.len() && #[trigger] out@[j].0 == d2 by {
                        if has_damage(pre, d2) {
                            let j = choose|j: int| 0 <= j < before.len() && #[trigger] before[j].0 == d2;
                            if j < p {
                                assert(out@[j].0 == d2);
                            } else {
                                assert(out@[j + 1].0 == d2);
                            }
                        } else {
                            assert(out@[p as int].0 == d2);
                        }
                    }
                    assert forall|d2: u32| (exists|j: int| 0 <= j < out@.len() && #[trigger] out@[j].0 == d2) implies has_damage(post, d2) by {
                        let j = choose|j: int| 0 <= j < out@.len() && #[trigger] out@[j].0 == d2;
                        if j < p {
                            assert(before[j].0 == d2);
                        } else if j > p {
                            assert(before[j - 1].0 == d2);
                        }
                    }
                }
            }
            i = i + 1;
        }
        assert(l.subrange(0, i as int) =~= l);
        out
    }
}

proof fn lemma_mass_absent(l: Seq<NodeModel>, d: u32, e: nat)
    requires
        !has_damage(l, d),
    ensures
        mass(l, d, e) == 0,
    decreases l.len(),
{
    if l.len() > 0 {
        assert(!has_damage(l.drop_last(), d)) by {
            if has_damage(l.drop_last(), d) {
                let t = choose|t: int| 0 <= t < l.drop_last().len() && #[trigger] l.drop_last()[t].status.damages == d;
                assert(l[t] == l.drop_last()[t]);
            }
        }
        lemma_mass_absent(l.drop_last(), d, e);
        assert(l[l.len() - 1].status.damages != d);
    }
}

/// `r` is the damage distribution of the tree grown from the root by `rules`, or an error
/// exactly when that growth overflows.
pub open spec fn damages_result(config: CombatConfig, rules: Seq<Rule>, r: Result<Vec<(u32, Probability)>, CombatError>) -> bool {
    match run(rules, config, seq![root_model()]) {
        Some(l) => r is Ok && grouped(r->Ok_0@, l),
        None => r is Err,
    }
}

/// The damage distribution of a combat: the tree grown from the root by `sequence`, its
/// leaves grouped by damage.
pub fn compute_damages(config: CombatConfig, sequence: &Vec<Rule>) -> (r: Result<Vec<(u32, Probability)>, CombatError>)
    ensures
        damages_result(config, sequence@, r),
{
    let mut tree = CombatTree::new(config);
    match tree.build(sequence) {
        Ok(()) => Ok(tree.retrieve_damages_probas()),
        Err(e) => Err(e),
    }
}

/// The probabilities of the leaves `l` summed, as a numerator over `6^e`.
pub open spec fn total_mass(l: Seq<NodeModel>, e: nat) -> nat
    decreases l.len(),
{
    if l.len() == 0 {
        0
    } else {
        total_mass(l.drop_last(), e) + scaled(l.last(), e)
    }
}

proof fn lemma_total_mass_concat(a: Seq<NodeModel>, b: Seq<NodeModel>, e: nat)
    ensures
        total_mass(a + b, e) == total_mass(a, e) + total_mass(b, e),
    decreases b.len(),
{
    if b.len() == 0 {
        assert(a + b =~= a);
    } else {
        lemma_total_mass_concat(a, b.drop_last(), e);
        assert((a + b).drop_last() =~= a + b.drop_last());
        assert((a + b).last() == b.last());
    }
}

proof fn lemma_max_exponent_concat(a: Seq<NodeModel>, b: Seq<NodeModel>)
    ensures
        max_exponent(a + b) >= max_exponent(a),
        max_exponent(a + b) >= max_exponent(b),
        max_exponent(a + b) == max_exponent(a) || max_exponent(a + b) == max_exponent(b),
    decreases b.len(),
{
    if b.len() == 0 {
        assert(a + b =~= a);
    } else {
        lemma_max_exponent_concat(a, b.drop_last());
        assert((a + b).drop_last() =~= a + b.drop_last());
        assert((a + b).last() == b.last());
    }
}

proof fn lemma_children_mass(ch: Seq<NodeModel>, cands: Seq<(StatusModel, nat)>, num: nat, e: nat, big: nat)
    requires
        ch.len() == cands.len(),
        big >= e,
        forall|i: int| 0 <= i < ch.len() ==> (#[trigger] ch[i]).numerator == num * cands[i].1 && ch[i].exponent == e,
    ensures
        total_mass(ch, big) == num * outcome_weight_total(cands) * power(6, (big - e) as nat),
    decreases ch.len(),
{
    let p = power(6, (big - e) as nat);
    if ch.len() == 0 {
        assert(num * 0 * p == 0) by (nonlinear_arith);
    } else {
        let c2 = ch.drop_last();
        let k2 = cands.drop_last();
        assert forall|i: int| 0 <= i < c2.len() implies (#[trigger] c2[i]).numerator == num * k2[i].1 && c2[i].exponent == e by {
            assert(c2[i] == ch[i]);
            assert(k2[i] == cands[i]);
        }
        lemma_children_mass(c2, k2, num, e, big);
        let last = ch[ch.len() - 1];
        assert(last == ch.last());
        assert(last.numerator == num * cands[cands.len() - 1].1);
        let t = outcome_weight_total(k2);
        let x = cands.last().1;
        assert(num * t * p + (num * x) * p == num * (t + x) * p) by (nonlinear_arith);
    }
}

/// A node's children carry, together, exactly the node's probability.
pub proof fn lemma_children_conserve(rule: Rule, cfg: CombatConfig, node: NodeModel, big: nat)
    requires
        child_models(rule, cfg, node) is Some,
        child_models(rule, cfg, node)->Some_0.len() > 0,
        big >= node.exponent + exponent_increase(rule, cfg, node.status),
    ensures
        total_mass(child_models(rule, cfg, node)->Some_0, big) == scaled(node, big),
        forall|i: int| 0 <= i < child_models(rule, cfg, node)->Some_0.len() ==> (#[trigger] child_models(rule, cfg, node)->Some_0[i]).exponent == node.exponent + exponent_increase(rule, cfg, node.status),
{
    let st = node.status;
    let inc = exponent_increase(rule, cfg, st);
    let e = node.exponent + inc;
    let cands = outcomes(rule, cfg, st);
    let ch = child_models(rule, cfg, node)->Some_0;
    assert(ch == cands.map_values(|o: (StatusModel, nat)| child_node(node, e, o)));
    assert forall|i: int| 0 <= i < ch.len() implies (#[trigger] ch[i]).numerator == node.numerator * cands[i].1 && ch[i].exponent == e by {
        assert(ch[i] == child_node(node, e, cands[i]));
    }
    if rule is Ward && cfg.defense_stats.ward is None {
        assert(cands.len() == 0);
    }
    lemma_outcomes_total(rule, cfg, st);
    lemma_children_mass(ch, cands, node.numerator, e, big);
    lemma_power_adds(6, inc, (big - e) as nat);
    assert(inc + (big - e) as nat == (big - node.exponent) as nat);
    let a = power(6, inc);
    let b = power(6, (big - e) as nat);
    assert(node.numerator * a * b == node.numerator * (a * b)) by (nonlinear_arith);
}

/// Applying a rule to every leaf keeps the total probability of the leaves.
pub proof fn lemma_expand_conserves(rule: Rule, cfg: CombatConfig, leaves: Seq<NodeModel>, big: nat)
    requires
        expand(rule, cfg, leaves) is Some,
        big >= max_exponent(expand(rule, cfg, leaves)->Some_0),
    ensures
        total_mass(expand(rule, cfg, leaves)->Some_0, big) == total_mass(leaves, big),
        max_exponent(expand(rule, cfg, leaves)->Some_0) >= max_exponent(leaves),
    decreases leaves.len(),
{
    if leaves.len() > 0 {
        let init = leaves.drop_last();
        let last = leaves.last();
        let a = expand(rule, cfg, init)->Some_0;
        let ch = child_models(rule, cfg, last)->Some_0;
        let x = if ch.len() == 0 { seq![last] } else { ch };
        let l2 = expand(rule, cfg, leaves)->Some_0;
        assert(l2 == a + x);
        lemma_max_exponent_concat(a, x);
        lemma_expand_conserves(rule, cfg, init, big);
        lemma_total_mass_concat(a, x, big);
        lemma_max_exponent(x);
        if ch.len() == 0 {
            assert(x.drop_last().len() == 0);
            assert(total_mass(x.drop_last(), big) == 0);
            assert(x.last() == last);
            assert(total_mass(x, big) == scaled(last, big));
            assert(max_exponent(x) == last.exponent);
        } else {
            let e = last.exponent + exponent_increase(rule, cfg, last.status);
            assert(x[0].exponent <= max_exponent(x));
            lemma_children_conserve(rule, cfg, last, big);
            assert(x[0].exponent == e);
        }
    }
}

/// Applying rules in turn keeps the total probability of the leaves.
pub proof fn lemma_run_conserves(rules: Seq<Rule>, cfg: CombatConfig, leaves: Seq<NodeModel>, big: nat)
    requires
        run(rules, cfg, leaves) is Some,
        big >= max_exponent(run(rules, cfg, leaves)->Some_0),
    ensures
        total_mass(run(rules, cfg, leaves)->Some_0, big) == total_mass(leaves, big),
        max_exponent(run(rules, cfg, leaves)->Some_0) >= max_exponent(leaves),
    decreases rules.len(),
{
    if rules.len() > 0 {
        let mid = run(rules.drop_last(), cfg, leaves)->Some_0;
        lemma_expand_conserves(rules.last(), cfg, mid, big);
        lemma_run_conserves(rules.drop_last(), cfg, leaves, big);
    }
}

/// The leaves of a combat tree, however grown, have probabilities that add up to one.
pub proof fn lemma_leaves_total(rules: Seq<Rule>, cfg: CombatConfig)
    requires
        run(rules, cfg, seq![root_model()]) is Some,
    ensures
        total_mass(run(rules, cfg, seq![root_model()])->Some_0, max_exponent(run(rules, cfg, seq![root_model()])->Some_0)) == power(6, max_exponent(run(rules, cfg, seq![root_model()])->Some_0)),
{
    let l = run(rules, cfg, seq![root_model()])->Some_0;
    let big = max_exponent(l);
    lemma_run_conserves(rules, cfg, seq![root_model()], big);
    let r = seq![root_model()];
    assert(r.drop_last().len() == 0);
    assert(total_mass(r.drop_last(), big) == 0);
    assert(r.last() == root_model());
    assert(total_mass(r, big) == scaled(root_model(), big));
    assert(scaled(root_model(), big) == 1 * power(6, big));
}

/// The damages listed by a distribution.
pub open spec fn keys(r: Seq<(u32, Probability)>) -> Seq<u32> {
    r.map_values(|x: (u32, Probability)| x.0)
}

/// The numerators of a distribution, summed.
pub open spec fn distribution_total(r: Seq<(u32, Probability)>) -> nat
    decreases r.len(),
{
    if r.len() == 0 {
        0
    } else {
        distribution_total(r.drop_last()) + r.last().1.numerator@
    }
}

/// `mass(l, k, e)` summed over the damages `k` of `ks`.
pub open spec fn keys_mass(ks: Seq<u32>, l: Seq<NodeModel>, e: nat) -> nat
    decreases ks.len(),
{
    if ks.len() == 0 {
        0
    } else {
        keys_mass(ks.drop_last(), l, e) + mass(l, ks.last(), e)
    }
}

/// How many times `d` occurs in `ks`.
pub open spec fn occurrences(ks: Seq<u32>, d: u32) -> nat
    decreases ks.len(),
{
    if ks.len() == 0 {
        0
    } else {
        occurrences(ks.drop_last(), d) + if ks.last() == d {
            1nat
        } else {
            0nat
        }
    }
}

proof fn lemma_keys_mass_step(ks: Seq<u32>, l: Seq<NodeModel>, e: nat)
    requires
        l.len() > 0,
    ensures
        keys_mass(ks, l, e) == keys_mass(ks, l.drop_last(), e) + occurrences(ks, l.last().status.damages) * scaled(l.last(), e),
    decreases ks.len(),
{
    if ks.len() > 0 {
        lemma_keys_mass_step(ks.drop_last(), l, e);
        let d = l.last().status.damages;
        let o = occurrences(ks.drop_last(), d);
        let sc = scaled(l.last(), e);
        let ind: nat = if ks.last() == d { 1 } else { 0 };
        assert((o + ind) * sc == o * sc + ind * sc) by (nonlinear_arith);
        if ks.last() == d {
            assert(1 * sc == sc);
        } else {
            assert(0 * sc == 0);
        }
    } else {
        let d = l.last().status.damages;
        assert(0 * scaled(l.last(), e) == 0);
    }
}

proof fn lemma_occurrences_absent(ks: Seq<u32>, d: u32)
    requires
        forall|i: int| 0 <= i < ks.len() ==> ks[i] != d,
    ensures
        occurrences(ks, d) == 0,
    decreases ks.len(),
{
    if ks.len() > 0 {
        lemma_occurrences_absent(ks.drop_last(), d);
        assert(ks.last() == ks[ks.len() - 1]);
    }
}

proof fn lemma_occurrences_once(ks: Seq<u32>, d: u32)
    requires
        forall|i: int, j: int| 0 <= i < j < ks.len() ==> ks[i] != ks[j],
        exists|i: int| 0 <= i < ks.len() && ks[i] == d,
    ensures
        occurrences(ks, d) == 1,
    decreases ks.len(),
{
    let init = ks.drop_last();
    let n = ks.len() - 1;
    if ks[n] == d {
        assert forall|i: int| 0 <= i < init.len() implies init[i] != d by {
            assert(init[i] == ks[i]);
        }
        lemma_occurrences_absent(init, d);
    } else {
        let i = choose|i: int| 0 <= i < ks.len() && ks[i] == d;
        assert(init[i] == d);
        assert forall|a: int, b: int| 0 <= a < b < init.len() implies init[a] != init[b] by {
            assert(init[a] == ks[a] && init[b] == ks[b]);
        }
        lemma_occurrences_once(init, d);
    }
}

proof fn lemma_keys_mass_total(ks: Seq<u32>, l: Seq<NodeModel>, e: nat)
    requires
        forall|i: int, j: int| 0 <= i < j < ks.len() ==> ks[i] != ks[j],
        forall|d: u32| has_damage(l, d) ==> exists|i: int| 0 <= i < ks.len() && ks[i] == d,
    ensures
        keys_mass(ks, l, e) == total_mass(l, e),
    decreases l.len(),
{
    if l.len() == 0 {
        lemma_keys_mass_empty(ks, l, e);
    } else {
        let init = l.drop_last();
        assert forall|d: u32| has_damage(init, d) implies exists|i: int| 0 <= i < ks.len() && ks[i] == d by {
            let t = choose|t: int| 0 <= t < init.len() && #[trigger] init[t].status.damages == d;
            assert(l[t] == init[t]);
            assert(l[t].status.damages == d);
            assert(has_damage(l, d));
        }
        lemma_keys_mass_total(ks, init, e);
        lemma_keys_mass_step(ks, l, e);
        let d = l.last().status.damages;
        assert(l[l.len() - 1].status.damages == d);
        assert(has_damage(l, d));
        lemma_occurrences_once(ks, d);
        assert(1 * scaled(l.last(), e) == scaled(l.last(), e));
    }
}

proof fn lemma_keys_mass_empty(ks: Seq<u32>, l: Seq<NodeModel>, e: nat)
    requires
        l.len() == 0,
    ensures
        keys_mass(ks, l, e) == 0,
    decreases ks.len(),
{
    if ks.len() > 0 {
        lemma_keys_mass_empty(ks.drop_last(), l, e);
    }
}

proof fn lemma_distribution_keys(r: Seq<(u32, Probability)>, l: Seq<NodeModel>, e: nat)
    requires
        forall|i: int| 0 <= i < r.len() ==> (#[trigger] r[i]).1.numerator@ == mass(l, r[i].0, e),
    ensures
        distribution_total(r) == keys_mass(keys(r), l, e),
    decreases r.len(),
{
    if r.len() > 0 {
        let init = r.drop_last();
        assert forall|i: int| 0 <= i < init.len() implies (#[trigger] init[i]).1.numerator@ == mass(l, init[i].0, e) by {
            assert(init[i] == r[i]);
        }
        lemma_distribution_keys(init, l, e);
        assert(keys(r).drop_last() =~= keys(init));
        assert(keys(r).last() == r.last().0);
        assert(r.last() == r[r.len() - 1]);
    }
}

/// The probabilities of a combat's damage distribution add up to one: the numerators add
/// up to six to the power of the common exponent.
pub proof fn lemma_distribution_total(rules: Seq<Rule>, cfg: CombatConfig, r: Seq<(u32, Probability)>)
    requires
        run(rules, cfg, seq![root_model()]) is Some,
        grouped(r, run(rules, cfg, seq![root_model()])->Some_0),
    ensures
        distribution_total(r) == power(6, max_exponent(run(rules, cfg, seq![root_model()])->Some_0)),
        forall|i: int| 0 <= i < r.len() ==> (#[trigger] r[i]).1.exponent == max_exponent(run(rules, cfg, seq![root_model()])->Some_0),
{
    let l = run(rules, cfg, seq![root_model()])->Some_0;
    let e = max_exponent(l);
    let ks = keys(r);
    lemma_leaves_total(rules, cfg);
    lemma_distribution_keys(r, l, e);
    assert forall|i: int, j: int| 0 <= i < j < ks.len() implies ks[i] != ks[j] by {
        assert(r[i].0 < r[j].0);
    }
    assert forall|d: u32| has_damage(l, d) implies exists|i: int| 0 <= i < ks.len() && ks[i] == d by {
        let i = choose|i: int| 0 <= i < r.len() && #[trigger] r[i].0 == d;
        assert(ks[i] == d);
    }
    lemma_keys_mass_total(ks, l, e);
}

/// Whether `d` occurs in `k`.
pub open spec fn contains_key(k: Seq<u32>, d: u32) -> bool {
    exists|i: int| 0 <= i < k.len() && k[i] == d
}

proof fn lemma_sorted_keys_equal(k1: Seq<u32>, k2: Seq<u32>)
    requires
        forall|i: int, j: int| 0 <= i < j < k1.len() ==> k1[i] < k1[j],
        forall|i: int, j: int| 0 <= i < j < k2.len() ==> k2[i] < k2[j],
        forall|d: u32| #[trigger] contains_key(k1, d) <==> contains_key(k2, d),
    ensures
        k1 == k2,
    decreases k1.len() + k2.len(),
{
    if k1.len() == 0 {
        assert(k2.len() == 0) by {
            if k2.len() > 0 {
                assert(contains_key(k2, k2[0]));
                assert(contains_key(k1, k2[0]));
            }
        }
        assert(k1 =~= k2);
    } else {
        let m1 = k1[k1.len() - 1];
        assert(contains_key(k1, m1));
        assert(contains_key(k2, m1));
        let j = choose|j: int| 0 <= j < k2.len() && k2[j] == m1;
        let m2 = k2[k2.len() - 1];
        assert(contains_key(k2, m2));
        assert(contains_key(k1, m2));
        let i = choose|i: int| 0 <= i < k1.len() && k1[i] == m2;
        assert(m1 <= m2) by {
            if j < k2.len() - 1 {
                assert(k2[j] < k2[k2.len() - 1]);
            }
        }
        assert(m2 <= m1) by {
            if i < k1.len() - 1 {
                assert(k1[i] < k1[k1.len() - 1]);
            }
        }
        let a = k1.drop_last();
        let b = k2.drop_last();
        assert forall|d: u32| #[trigger] contains_key(a, d) <==> contains_key(b, d) by {
            if contains_key(a, d) {
                let i = choose|i: int| 0 <= i < a.len() && a[i] == d;
                assert(k1[i] == d);
                assert(contains_key(k1, d));
                assert(d < m1);
                let j = choose|j: int| 0 <= j < k2.len() && k2[j] == d;
                assert(j != k2.len() - 1);
                assert(b[j] == d);
            }
            if contains_key(b, d) {
                let j = choose|j: int| 0 <= j < b.len() && b[j] == d;
                assert(k2[j] == d);
                assert(contains_key(k2, d));
                assert(d < m2);
                assert(contains_key(k1, d));
                let i = choose|i: int| 0 <= i < k1.len() && k1[i] == d;
                assert(i != k1.len() - 1);
                assert(a[i] == d);
            }
        }
        lemma_sorted_keys_equal(a, b);
        assert(k1 =~= k2) by {
            assert forall|t: int| 0 <= t < k1.len() implies k1[t] == k2[t] by {
                if t < k1.len() - 1 {
                    assert(a[t] == b[t]);
                }
            }
        }
    }
}

/// The grouping of a set of leaves by damage is unique.
pub proof fn lemma_grouped_unique(r1: Seq<(u32, Probability)>, r2: Seq<(u32, Probability)>, l: Seq<NodeModel>)
    requires
        grouped(r1, l),
        grouped(r2, l),
    ensures
        r1.len() == r2.len(),
        forall|i: int| 0 <= i < r1.len() ==> (#[trigger] r1[i]).0 == r2[i].0 && r1[i].1.numerator@ == r2[i].1.numerator@ && r1[i].1.exponent == r2[i].1.exponent,
{
    let k1 = keys(r1);
    let k2 = keys(r2);
    assert forall|d: u32| #[trigger] contains_key(k1, d) <==> contains_key(k2, d) by {
        if contains_key(k1, d) {
            let i = choose|i: int| 0 <= i < k1.len() && k1[i] == d;
            assert(r1[i].0 == d);
            assert(has_damage(l, d));
            let j = choose|j: int| 0 <= j < r2.len() && #[trigger] r2[j].0 == d;
            assert(k2[j] == d);
        }
        if contains_key(k2, d) {
            let j = choose|j: int| 0 <= j < k2.len() && k2[j] == d;
            assert(r2[j].0 == d);
            assert(has_damage(l, d));
            let i = choose|i: int| 0 <= i < r1.len() && #[trigger] r1[i].0 == d;
            assert(k1[i] == d);
        }
    }
    assert forall|i: int, j: int| 0 <= i < j < k1.len() implies k1[i] < k1[j] by {
        assert(r1[i].0 < r1[j].0);
    }
    assert forall|i: int, j: int| 0 <= i < j < k2.len() implies k2[i] < k2[j] by {
        assert(r2[i].0 < r2[j].0);
    }
    lemma_sorted_keys_equal(k1, k2);
    assert forall|i: int| 0 <= i < r1.len() implies (#[trigger] r1[i]).0 == r2[i].0 && r1[i].1.numerator@ == r2[i].1.numerator@ && r1[i].1.exponent == r2[i].1.exponent by {
        assert(k1[i] == k2[i]);
    }
}

/// Computing a damage distribution twice from the same configuration and rules gives the
/// same result: both fail, or both give the same damages with the same probabilities.
pub proof fn lemma_compute_damages_deterministic(
    config: CombatConfig,
    rules: Seq<Rule>,
    r1: Result<Vec<(u32, Probability)>, CombatError>,
    r2: Result<Vec<(u32, Probability)>, CombatError>,
)
    requires
        damages_result(config, rules, r1),
        damages_result(config, rules, r2),
    ensures
        r1 is Ok <==> r2 is Ok,
        r1 is Ok ==> r1->Ok_0@.len() == r2->Ok_0@.len() && forall|i: int|
            0 <= i < r1->Ok_0@.len() ==> (#[trigger] r1->Ok_0@[i]).0 == r2->Ok_0@[i].0
                && r1->Ok_0@[i].1.numerator@ == r2->Ok_0@[i].1.numerator@
                && r1->Ok_0@[i].1.exponent == r2->Ok_0@[i].1.exponent,
{
    match run(rules, config, seq![root_model()]) {
        Some(l) => {
            lemma_grouped_unique(r1->Ok_0@, r2->Ok_0@, l);
        },
        None => {},
    }
}

} // verus!
