//! The placement planner: nobody chooses the mode by hand.
//!
//! Given a model and a snapshot of the fleet, [`plan`] decides:
//!
//! 1. **Does the model fit on one node?** If a node's weight budget holds the whole model, it runs
//!    as replicas on the best fitting nodes, and requests are spread over them.
//! 2. **Otherwise it is split.** Nodes are taken from the largest budget to the smallest until they
//!    together cover the weights plus a headroom, so that the ring is as short as can be; each
//!    then gets a contiguous range of layers in proportion to its budget.
//!
//! If even the whole fleet cannot hold the model, planning fails and says what is missing.

use crate::double::{lemma_headroom, lemma_headroom_exact, lemma_nothing_of, lemma_share_floor, lemma_share_monotone, lemma_share_of_nothing, lemma_share_parts, share, share_of, Double, Dyadic};
use crate::order::{best_first, is_ranking, lemma_all_kept, lemma_covers, lemma_filter_prefix, lemma_filter_step, lemma_first_are_most, lemma_kept_best_first, lemma_kept_positions, lemma_ranked_best_first, lemma_ranking_exists, lemma_sum_adds, lemma_sum_ranked, lemma_sum_remove, lemma_sum_step, lemma_sum_take, lemma_sum_update, precedes, rank_all, ranked, ranking, stands_before, sum, Ranked};
use crate::registry::ModelEntry;
use crate::text::{decimal, joined, texts, write_decimal};
use vstd::prelude::*;

verus! {

/// What a pipeline must offer beyond the raw weights (KV cache, activations, runtime), as a
/// factor: the bit pattern of the double nearest to 1.15. A ring is only accepted once its
/// combined budget reaches `weight_mb` times this.
pub const PIPELINE_HEADROOM: u64 = 0x3ff2_6666_6666_6666;

/// How a model is run.
#[derive(Debug, Clone, Copy, PartialEq, Eq, Structural)]
pub enum Mode {
    /// Whole-model copies; requests are spread over them.
    Replica,
    /// One model split into a ring of layer ranges.
    Pipeline,
}

/// One node's contribution, as far as planning reads it.
#[derive(Debug, Clone, PartialEq)]
pub struct NodeCap {
    pub node_id: String,
    /// MB of model weights that this node will hold resident.
    pub budget_mb: u64,
    pub cpu_cores: u32,
    pub has_gpu: bool,
    /// How proven a host the node is, such as the number of jobs it has settled.
    pub history: u64,
}

impl NodeCap {
    /// What a ring takes nodes by.
    pub fn capacity(&self) -> (res: Capacity)
        ensures
            res == capacity_of(*self),
    {
        Capacity { budget_mb: self.budget_mb, has_gpu: self.has_gpu, history: self.history }
    }

    /// What nodes are ranked by: a GPU first, then the budget, then the history. Higher is better.
    pub fn rank_key(&self) -> (res: (bool, u64, u64))
        ensures
            res == (self.has_gpu, self.budget_mb, self.history),
    {
        (self.has_gpu, self.budget_mb, self.history)
    }
}

impl Ranked for NodeCap {
    open spec fn rank(&self) -> (int, int, int) {
        (
            if self.has_gpu {
                0
            } else {
                1
            },
            -(self.budget_mb as int),
            -(self.history as int),
        )
    }

    fn outranks(&self, other: &Self) -> (res: bool) {
        let (gpu, budget, history) = self.rank_key();
        let (other_gpu, other_budget, other_history) = other.rank_key();
        if gpu != other_gpu {
            gpu
        } else if budget != other_budget {
            budget > other_budget
        } else {
            history > other_history
        }
    }
}

/// What a ring takes nodes by: the budget first, then a GPU, then the history.
#[derive(Debug, Clone, Copy)]
pub struct Capacity {
    pub budget_mb: u64,
    pub has_gpu: bool,
    pub history: u64,
}

impl Ranked for Capacity {
    open spec fn rank(&self) -> (int, int, int) {
        (
            -(self.budget_mb as int),
            if self.has_gpu {
                0
            } else {
                1
            },
            -(self.history as int),
        )
    }

    fn outranks(&self, other: &Self) -> (res: bool) {
        if self.budget_mb != other.budget_mb {
            self.budget_mb > other.budget_mb
        } else if self.has_gpu != other.has_gpu {
            self.has_gpu
        } else {
            self.history > other.history
        }
    }
}

/// What a ring takes `node` by.
pub open spec fn capacity_of(node: NodeCap) -> Capacity {
    Capacity { budget_mb: node.budget_mb, has_gpu: node.has_gpu, history: node.history }
}

/// What a ring takes the nodes by.
pub open spec fn capacities(nodes: Seq<NodeCap>) -> Seq<Capacity> {
    nodes.map_values(|n: NodeCap| capacity_of(n))
}

/// One contiguous pipeline stage: the layers `layer_lo..=layer_hi` run on `node_id`.
#[derive(Debug, Clone, PartialEq)]
pub struct Stage {
    pub node_id: String,
    pub layer_lo: u32,
    pub layer_hi: u32,
    /// Object id of this stage's weight shard; none until shards are published.
    pub weight_shard_cid: Option<String>,
}

impl Stage {
    /// How many layers the stage runs. A range that ends before it begins counts as one.
    pub fn layer_count(&self) -> (res: u32)
        requires
            self.layer_hi - self.layer_lo < u32::MAX,
        ensures
            res == (if self.layer_hi >= self.layer_lo {
                self.layer_hi - self.layer_lo + 1
            } else {
                1
            }),
    {
        self.layer_hi.saturating_sub(self.layer_lo) + 1
    }
}

/// A complete plan for serving one model.
#[derive(Debug, Clone, PartialEq)]
pub struct Placement {
    pub model_id: String,
    pub mode: Mode,
    /// In replica mode, the nodes that each hold the whole model.
    pub replicas: Vec<String>,
    /// In pipeline mode, the ring of stages; stage 0 runs layer 0.
    pub stages: Vec<Stage>,
}

/// The stages cover the layers from `from` up to `to` in order, with no gap and no overlap.
pub open spec fn tiles(stages: Seq<Stage>, from: int, to: int) -> bool
    decreases stages.len(),
{
    if stages.len() == 0 {
        from == to
    } else {
        &&& stages[0].layer_lo == from
        &&& stages[0].layer_lo <= stages[0].layer_hi
        &&& tiles(stages.skip(1), stages[0].layer_hi + 1, to)
    }
}

impl Placement {
    /// The nodes that take part, in order.
    pub open spec fn node_ids(&self) -> Seq<Seq<char>> {
        match self.mode {
            Mode::Replica => texts(self.replicas@),
            Mode::Pipeline => self.stages@.map_values(|s: Stage| s.node_id@),
        }
    }

    /// The nodes that take part, in order.
    pub fn nodes(&self) -> (res: Vec<&str>)
        ensures
            res@.map_values(|s: &str| s@) == self.node_ids(),
    {
        let mut res: Vec<&str> = Vec::new();
        match self.mode {
            Mode::Replica => {
                let mut i: usize = 0;
                while i < self.replicas.len()
                    invariant
                        i == res@.len() <= self.replicas@.len(),
                        forall|j: int| 0 <= j < i ==> (#[trigger] res@[j])@ == self.replicas@[j]@,
                    decreases self.replicas@.len() - i,
                {
                    res.push(self.replicas[i].as_str());
                    i = i + 1;
                }
            },
            Mode::Pipeline => {
                let mut i: usize = 0;
                while i < self.stages.len()
                    invariant
                        i == res@.len() <= self.stages@.len(),
                        forall|j: int|
                            0 <= j < i ==> (#[trigger] res@[j])@ == self.stages@[j].node_id@,
                    decreases self.stages@.len() - i,
                {
                    res.push(self.stages[i].node_id.as_str());
                    i = i + 1;
                }
            },
        }
        assert(res@.map_values(|s: &str| s@) =~= self.node_ids());
        res
    }

    /// In pipeline mode: the stages cover `0..total_layers` with no gap and no overlap.
    pub fn pipeline_is_contiguous(&self, total_layers: u32) -> (res: bool)
        ensures
            res == (self.mode == Mode::Pipeline ==> tiles(self.stages@, 0, total_layers as int)),
    {
        if self.mode != Mode::Pipeline {
            return true;
        }
        let mut next: u64 = 0;
        let mut i: usize = 0;
        assert(self.stages@.skip(0) =~= self.stages@);
        while i < self.stages.len()
            invariant
                i <= self.stages@.len(),
                self.mode == Mode::Pipeline,
                tiles(self.stages@, 0, total_layers as int) == tiles(
                    self.stages@.skip(i as int),
                    next as int,
                    total_layers as int,
                ),
            decreases self.stages@.len() - i,
        {
            let stage = &self.stages[i];
            let ghost left = self.stages@.skip(i as int);
            assert(left[0] == self.stages@[i as int]);
            if stage.layer_lo as u64 != next || stage.layer_hi < stage.layer_lo {
                return false;
            }
            assert(left.skip(1) =~= self.stages@.skip(i + 1));
            next = stage.layer_hi as u64 + 1;
            i = i + 1;
        }
        next == total_layers as u64
    }
}

/// Knobs for [`plan`].
#[derive(Debug, Clone)]
pub struct PlanOpts {
    /// How many whole-model replicas to place; at least one and at most as many as fit.
    pub desired_replicas: usize,
    /// Split the model even if it would fit a single node.
    pub force_pipeline: bool,
}

impl Default for PlanOpts {
    fn default() -> (res: Self)
        ensures
            res.desired_replicas == 1,
            !res.force_pipeline,
    {
        PlanOpts { desired_replicas: 1, force_pipeline: false }
    }
}

/// The budgets of `nodes` together, in MB.
pub open spec fn total_budget(nodes: Seq<NodeCap>) -> nat {
    sum(nodes.map_values(|n: NodeCap| n.budget_mb as nat))
}

/// A stage's share of the layers that are handed out by budget: whole layers, and what remains
/// of a layer in units of `2^-120`.
#[derive(Debug, Clone, Copy)]
pub struct Quota {
    pub whole: u32,
    pub rest: u128,
}

impl Ranked for Quota {
    open spec fn rank(&self) -> (int, int, int) {
        (-(self.rest as int), 0, 0)
    }

    fn outranks(&self, other: &Self) -> (res: bool) {
        self.rest > other.rest
    }
}

/// What shares are taken of: nothing counts as one.
pub open spec fn divisor(total: nat) -> nat {
    if total == 0 {
        1
    } else {
        total
    }
}

/// The share of `layers` that goes with `budget` out of `total`.
pub open spec fn quota(layers: nat, budget: nat, total: nat) -> Quota {
    let ideal = share(layers, budget, divisor(total));
    Quota { whole: ideal.floor() as u32, rest: ideal.fraction() as u128 }
}

/// The quotas of `nodes` in what is left of `layers` once every node has got one.
pub open spec fn quotas(layers: nat, nodes: Seq<NodeCap>) -> Seq<Quota> {
    nodes.map_values(
        |n: NodeCap|
            quota((layers - nodes.len()) as nat, n.budget_mb as nat, total_budget(nodes)),
    )
}

/// How many of the quotas do not come out whole.
pub open spec fn uneven(list: Seq<Quota>) -> nat {
    sum(list.map_values(uneven_one()))
}

/// One for a quota that does not come out whole.
pub open spec fn uneven_one() -> spec_fn(Quota) -> nat {
    |q: Quota|
        if q.rest > 0 {
            1
        } else {
            0
        }
}

/// The whole layers of the quotas together.
pub open spec fn whole_layers(list: Seq<Quota>) -> nat {
    sum(list.map_values(|q: Quota| q.whole as nat))
}

/// What the node at `place` gets when `left` layers are dealt out one by one, round and round
/// among `n` nodes.
pub open spec fn dealt(left: nat, n: nat, place: int) -> nat {
    left / n + if place < left % n {
        1nat
    } else {
        0
    }
}

/// How many layers each of `nodes` runs: one to start with, the whole layers of its quota, and
/// its part of those left over, which are dealt out to the largest remainders first.
pub open spec fn layer_counts(layers: nat, nodes: Seq<NodeCap>) -> Seq<nat> {
    let list = quotas(layers, nodes);
    let left = (layers - nodes.len() - whole_layers(list)) as nat;
    Seq::new(
        nodes.len(),
        |i: int|
            1 + list[i].whole as nat + dealt(left, nodes.len(), ranking(list).index_of(i)),
    )
}

/// `stages` is `layers` split over `nodes`, in their order.
pub open spec fn is_ring(stages: Seq<Stage>, layers: nat, nodes: Seq<NodeCap>) -> bool {
    &&& stages.len() == nodes.len()
    &&& forall|i: int|
        #![trigger stages[i]]
        0 <= i < stages.len() ==> {
            &&& stages[i].node_id@ == nodes[i].node_id@
            &&& stages[i].layer_lo == sum(layer_counts(layers, nodes).take(i))
            &&& stages[i].layer_hi + 1 == sum(layer_counts(layers, nodes).take(i + 1))
            &&& stages[i].weight_shard_cid is None
        }
}

/// A number of layers within a billionth of a share of all of them is no more than all of them.
proof fn lemma_no_more_than_all(f: nat, t: nat, layers: nat, part: nat)
    requires
        f * t * 0x4_0000_0000_0000 <= layers * part * 0x4_0000_0000_0001,
        part <= t,
        0 < t,
        layers < 0x4_0000_0000_0000,
    ensures
        f <= layers,
{
    assert(layers * part <= layers * t) by (nonlinear_arith)
        requires
            part <= t,
            layers >= 0,
    ;
    if f >= layers + 1 {
        assert(f * t >= (layers + 1) * t) by (nonlinear_arith)
            requires
                f >= layers + 1,
                t > 0,
        ;
        assert((layers + 1) * t == layers * t + t) by (nonlinear_arith);
        assert(layers * t < 0x4_0000_0000_0000 * t) by (nonlinear_arith)
            requires
                layers < 0x4_0000_0000_0000,
                t > 0,
        ;
    }
}

/// A quota is no more than all the layers, and it is off by less than one from the exact share,
/// but for the rounding of the arithmetic; one that comes out whole is not off otherwise.
proof fn lemma_quota(layers: nat, budget: nat, total: nat)
    requires
        layers <= u32::MAX,
        budget <= total <= u64::MAX,
    ensures
        ({
            let t = divisor(total);
            let q = quota(layers, budget, total);
            &&& share(layers, budget, t).floor() == q.whole
            &&& share(layers, budget, t).fraction() == q.rest
            &&& q.whole <= layers
            &&& q.whole * t * 0x4_0000_0000_0000 <= layers * budget * 0x4_0000_0000_0001
            &&& layers * budget * 0x3_ffff_ffff_ffff < (q.whole + 1) * t * 0x4_0000_0000_0000
            &&& q.rest > 0 ==> q.whole * t * 0x4_0000_0000_0000 < layers * budget
                * 0x4_0000_0000_0001
            &&& q.rest == 0 ==> layers * budget * 0x3_ffff_ffff_ffff <= q.whole * t
                * 0x4_0000_0000_0000
        }),
{
    let t = divisor(total);
    if budget == 0 {
        lemma_share_of_nothing(layers, t);
        assert(layers * 0 == 0);
        assert(0 * t == 0);
        assert(1 * t * 0x4_0000_0000_0000 > 0) by (nonlinear_arith)
            requires
                t > 0,
        ;
    } else {
        let f = share(layers, budget, t).floor();
        lemma_share_floor(layers, budget, t);
        lemma_share_parts(layers, budget, t);
        lemma_no_more_than_all(f, t, layers, budget);
    }
}

/// Over the first `k` nodes: their whole layers are at most their part of `layers`, and fall short
/// of it by at most one layer for each quota that does not come out whole.
proof fn lemma_whole_layers_so_far(layers: nat, nodes: Seq<NodeCap>, k: int)
    requires
        nodes.len() <= layers <= u32::MAX,
        total_budget(nodes) <= u64::MAX,
        0 <= k <= nodes.len(),
    ensures
        ({
            let t = divisor(total_budget(nodes));
            let w = (layers - nodes.len()) as nat;
            let b = total_budget(nodes.take(k));
            let f = whole_layers(quotas(layers, nodes).take(k));
            let u = uneven(quotas(layers, nodes).take(k));
            &&& f * t * 0x4_0000_0000_0000 <= w * b * 0x4_0000_0000_0001
            &&& w * b * 0x3_ffff_ffff_ffff <= (f + u) * t * 0x4_0000_0000_0000
            &&& u <= k
        }),
    decreases k,
{
    let t = divisor(total_budget(nodes));
    let w = (layers - nodes.len()) as nat;
    let list = quotas(layers, nodes);
    let budgets = nodes.map_values(|n: NodeCap| n.budget_mb as nat);
    let wholes = list.map_values(|q: Quota| q.whole as nat);
    let odd = list.map_values(uneven_one());
    assert(nodes.take(k).map_values(|n: NodeCap| n.budget_mb as nat) =~= budgets.take(k));
    assert(list.take(k).map_values(|q: Quota| q.whole as nat) =~= wholes.take(k));
    assert(list.take(k).map_values(uneven_one()) =~= odd.take(k));
    if k == 0 {
        assert(budgets.take(0) =~= Seq::<nat>::empty());
        assert(wholes.take(0) =~= Seq::<nat>::empty());
        assert(odd.take(0) =~= Seq::<nat>::empty());
        assert(w * 0 == 0);
        assert(0 * t == 0);
    } else {
        lemma_whole_layers_so_far(layers, nodes, k - 1);
        assert(nodes.take(k - 1).map_values(|n: NodeCap| n.budget_mb as nat) =~= budgets.take(
            k - 1,
        ));
        assert(list.take(k - 1).map_values(|q: Quota| q.whole as nat) =~= wholes.take(k - 1));
        assert(list.take(k - 1).map_values(uneven_one()) =~= odd.take(k - 1));
        lemma_sum_step(budgets, k - 1);
        lemma_sum_step(wholes, k - 1);
        lemma_sum_step(odd, k - 1);
        lemma_sum_take(budgets, k);
        let b0 = sum(budgets.take(k - 1));
        let f0 = sum(wholes.take(k - 1));
        let b = nodes[k - 1].budget_mb as nat;
        let f = list[k - 1].whole as nat;
        let u0 = sum(odd.take(k - 1));
        let u = odd[k - 1];
        lemma_quota(w, b, total_budget(nodes));
        assert((f0 + f) * t == f0 * t + f * t) by (nonlinear_arith);
        assert(w * (b0 + b) == w * b0 + w * b) by (nonlinear_arith);
        assert((f0 + u0) * t + (f + u) * t == (f0 + f + (u0 + u)) * t) by (nonlinear_arith);
    }
}

/// The whole layers of all the quotas leave at most one layer for each quota that does not come out
/// whole, if there is any budget.
proof fn lemma_whole_layers(layers: nat, nodes: Seq<NodeCap>)
    requires
        nodes.len() <= layers <= u32::MAX,
        total_budget(nodes) <= u64::MAX,
    ensures
        whole_layers(quotas(layers, nodes)) <= layers - nodes.len(),
        total_budget(nodes) > 0 ==> layers - nodes.len() - whole_layers(quotas(layers, nodes))
            <= uneven(quotas(layers, nodes)),
        uneven(quotas(layers, nodes)) <= nodes.len(),
{
    let t = divisor(total_budget(nodes));
    let w = (layers - nodes.len()) as nat;
    let b = total_budget(nodes);
    let f = whole_layers(quotas(layers, nodes));
    let u = uneven(quotas(layers, nodes));
    let n = nodes.len();
    lemma_whole_layers_so_far(layers, nodes, n as int);
    assert(nodes.take(n as int) =~= nodes);
    assert(quotas(layers, nodes).take(n as int) =~= quotas(layers, nodes));
    lemma_no_more_than_all(f, t, w, b);
    if b > 0 {
        if w > f + u {
            assert((f + u) * t <= (w - 1) * t) by (nonlinear_arith)
                requires
                    f + u <= w - 1,
                    t > 0,
            ;
            assert((w - 1) * t == w * t - t) by (nonlinear_arith);
            assert(w * t < 0x4_0000_0000_0000 * t) by (nonlinear_arith)
                requires
                    w < 0x4_0000_0000_0000,
                    t > 0,
            ;
        }
    }
}

/// Of ones and noughts, only noughts from `p` on, no more than `p` are ones.
proof fn lemma_sum_of_ones(list: Seq<nat>, p: int)
    requires
        0 <= p,
        forall|k: int| 0 <= k < list.len() ==> #[trigger] list[k] <= 1,
        forall|k: int| p <= k < list.len() ==> #[trigger] list[k] == 0,
    ensures
        sum(list) <= p,
        sum(list) <= list.len(),
    decreases list.len(),
{
    if list.len() > 0 {
        lemma_sum_of_ones(list.drop_last(), p);
    }
}

/// A quota that comes out whole ranks behind all those that do not.
proof fn lemma_whole_quota_ranks_last(list: Seq<Quota>, i: int)
    requires
        0 <= i < list.len(),
        list[i].rest == 0,
    ensures
        uneven(list) <= ranking(list).index_of(i) < list.len(),
{
    let order = ranking(list);
    lemma_ranking_of_quotas(list);
    lemma_ranking_exists(list);
    lemma_sum_ranked(list, uneven_one());
    let ones = ranked(list).map_values(uneven_one());
    assert(order.contains(i));
    let p = order.index_of(i);
    assert forall|k: int| p <= k < ones.len() implies #[trigger] ones[k] == 0 by {
        if k > p {
            assert(stands_before(list, order[p], order[k]));
        }
    }
    lemma_sum_of_ones(ones, p);
}

/// `base` after `k` layers have been dealt out, one by one, round and round in `order`.
spec fn with_dealt(base: Seq<nat>, order: Seq<int>, k: nat) -> Seq<nat> {
    Seq::new(base.len(), |i: int| base[i] + dealt(k, base.len(), order.index_of(i)))
}

/// Dealing one layer more gives it to the next in the round.
proof fn lemma_deal_one(base: Seq<nat>, order: Seq<int>, k: nat)
    requires
        base.len() > 0,
        order.len() == base.len(),
        order.no_duplicates(),
        forall|i: int| 0 <= i < order.len() ==> 0 <= #[trigger] order[i] < base.len(),
        forall|x: int| 0 <= x < base.len() ==> #[trigger] order.contains(x),
    ensures
        ({
            let next = order[(k % base.len()) as int];
            let before = with_dealt(base, order, k);
            &&& 0 <= k % base.len() < order.len()
            &&& with_dealt(base, order, k + 1) == before.update(next, before[next] + 1)
        }),
{
    let n = base.len();
    let place = (k % n) as int;
    let next = order[place];
    let before = with_dealt(base, order, k);
    let after = with_dealt(base, order, k + 1);
    vstd::arithmetic::div_mod::lemma_fundamental_div_mod(k as int, n as int);
    vstd::arithmetic::div_mod::lemma_mod_bound(k as int, n as int);
    if place + 1 < n {
        assert((k + 1) == (k / n) * n + (place + 1)) by (nonlinear_arith)
            requires
                k == n * (k / n) + place,
        ;
        vstd::arithmetic::div_mod::lemma_fundamental_div_mod_converse(
            (k + 1) as int,
            n as int,
            (k / n) as int,
            place + 1,
        );
    } else {
        assert((k + 1) == (k / n + 1) * n + 0) by (nonlinear_arith)
            requires
                k == n * (k / n) + place,
                place + 1 == n,
        ;
        vstd::arithmetic::div_mod::lemma_fundamental_div_mod_converse(
            (k + 1) as int,
            n as int,
            (k / n + 1) as int,
            0,
        );
    }
    assert forall|i: int| 0 <= i < n implies after[i] == before.update(
        next,
        before[next] + 1,
    )[i] by {
        assert(order.contains(i));
        let p = order.index_of(i);
        assert(order[p] == i);
        assert(order.index_of(next) == place);
    }
    assert(after =~= before.update(next, before[next] + 1));
}

/// Dealing out `k` layers adds `k` layers.
proof fn lemma_deal_all(base: Seq<nat>, order: Seq<int>, k: nat)
    requires
        base.len() > 0,
        order.len() == base.len(),
        order.no_duplicates(),
        forall|i: int| 0 <= i < order.len() ==> 0 <= #[trigger] order[i] < base.len(),
        forall|x: int| 0 <= x < base.len() ==> #[trigger] order.contains(x),
    ensures
        sum(with_dealt(base, order, k)) == sum(base) + k,
        with_dealt(base, order, 0) == base,
    decreases k,
{
    let n = base.len();
    assert forall|i: int| 0 <= i < n implies with_dealt(base, order, 0)[i] == base[i] by {
        assert(order.contains(i));
        assert(0nat / n == 0 && 0nat % n == 0) by (nonlinear_arith)
            requires
                n > 0,
        ;
        assert(order.index_of(i) >= 0);
    }
    assert(with_dealt(base, order, 0) =~= base);
    if k > 0 {
        let j = (k - 1) as nat;
        lemma_deal_all(base, order, j);
        lemma_deal_one(base, order, j);
        let before = with_dealt(base, order, j);
        let next = order[(j % n) as int];
        lemma_sum_update(before, next, before[next] + 1);
    }
}

/// One layer for each node, and the whole layers of its quota.
spec fn base_counts(list: Seq<Quota>) -> Seq<nat> {
    list.map_values(|q: Quota| 1 + q.whole as nat)
}

proof fn lemma_base_counts(list: Seq<Quota>)
    ensures
        sum(base_counts(list)) == list.len() + whole_layers(list),
    decreases list.len(),
{
    if list.len() > 0 {
        lemma_base_counts(list.drop_last());
        assert(base_counts(list).drop_last() =~= base_counts(list.drop_last()));
        let wholes = list.map_values(|q: Quota| q.whole as nat);
        assert(wholes.drop_last() =~= list.drop_last().map_values(|q: Quota| q.whole as nat));
    }
}

/// The ranking lists each position once.
proof fn lemma_ranking_of_quotas(list: Seq<Quota>)
    ensures
        ranking(list).len() == list.len(),
        ranking(list).no_duplicates(),
        forall|i: int| 0 <= i < list.len() ==> 0 <= #[trigger] ranking(list)[i] < list.len(),
        forall|x: int| 0 <= x < list.len() ==> #[trigger] ranking(list).contains(x),
{
    lemma_ranking_exists(list);
    lemma_covers(list, ranking(list));
}

/// Every layer runs on some node, and every node runs at least one.
pub proof fn lemma_counts_cover_layers(layers: nat, nodes: Seq<NodeCap>)
    requires
        0 < nodes.len() <= layers <= u32::MAX,
        total_budget(nodes) <= u64::MAX,
    ensures
        sum(layer_counts(layers, nodes)) == layers,
        layer_counts(layers, nodes).len() == nodes.len(),
        forall|i: int| 0 <= i < nodes.len() ==> #[trigger] layer_counts(layers, nodes)[i] >= 1,
{
    let list = quotas(layers, nodes);
    let left = (layers - nodes.len() - whole_layers(list)) as nat;
    lemma_whole_layers(layers, nodes);
    lemma_ranking_of_quotas(list);
    lemma_base_counts(list);
    lemma_deal_all(base_counts(list), ranking(list), left);
    assert(with_dealt(base_counts(list), ranking(list), left) =~= layer_counts(layers, nodes));
}

/// The quotas of the chosen nodes.
fn find_quotas(total_layers: u32, chosen: &[&NodeCap]) -> (res: Vec<Quota>)
    requires
        chosen@.len() <= total_layers,
        total_budget(chosen@.unref()) <= u64::MAX,
    ensures
        res@ == quotas(total_layers as nat, chosen@.unref()),
{
    let ghost nodes = chosen@.unref();
    let ghost budgets = nodes.map_values(|n: NodeCap| n.budget_mb as nat);
    let assignable: u32 = total_layers - chosen.len() as u32;
    let mut budget: u64 = 0;
    let mut i: usize = 0;
    while i < chosen.len()
        invariant
            i <= chosen@.len(),
            nodes == chosen@.unref(),
            budgets == nodes.map_values(|n: NodeCap| n.budget_mb as nat),
            total_budget(nodes) <= u64::MAX,
            budget == sum(budgets.take(i as int)),
        decreases chosen@.len() - i,
    {
        proof {
            lemma_sum_step(budgets, i as int);
            lemma_sum_take(budgets, i + 1);
        }
        budget = budget + chosen[i].budget_mb;
        i = i + 1;
    }
    assert(budgets.take(i as int) =~= budgets);
    let total: u64 = if budget == 0 {
        1
    } else {
        budget
    };
    let mut res: Vec<Quota> = Vec::new();
    let ghost list = quotas(total_layers as nat, nodes);
    i = 0;
    while i < chosen.len()
        invariant
            i <= chosen@.len(),
            chosen@.len() <= total_layers,
            assignable == total_layers - chosen@.len(),
            nodes == chosen@.unref(),
            budgets == nodes.map_values(|n: NodeCap| n.budget_mb as nat),
            total_budget(nodes) <= u64::MAX,
            total == divisor(total_budget(nodes)),
            list == quotas(total_layers as nat, nodes),
            res@ == list.take(i as int),
        decreases chosen@.len() - i,
    {
        proof {
            lemma_sum_step(budgets, i as int);
            lemma_sum_take(budgets, i + 1);
            lemma_quota(
                assignable as nat,
                nodes[i as int].budget_mb as nat,
                total_budget(nodes),
            );
        }
        let ideal = share_of(assignable, chosen[i].budget_mb, total);
        res.push(Quota { whole: ideal.floor() as u32, rest: ideal.fraction() });
        i = i + 1;
        assert(res@ =~= list.take(i as int));
    }
    assert(list.take(i as int) =~= list);
    res
}

/// How many layers each of the chosen nodes runs.
fn count_layers(total_layers: u32, chosen: &[&NodeCap]) -> (res: Vec<u32>)
    requires
        0 < chosen@.len() <= total_layers,
        total_budget(chosen@.unref()) <= u64::MAX,
    ensures
        res@.map_values(|c: u32| c as nat) == layer_counts(
            total_layers as nat,
            chosen@.unref(),
        ),
{
    let list = find_quotas(total_layers, chosen);
    let ghost nodes = chosen@.unref();
    let ghost base = base_counts(list@);
    let ghost order_of = ranking(list@);
    let ghost left = (total_layers - nodes.len() - whole_layers(list@)) as nat;
    proof {
        lemma_whole_layers(total_layers as nat, nodes);
        lemma_ranking_of_quotas(list@);
        lemma_base_counts(list@);
    }
    let mut counts: Vec<u32> = Vec::new();
    let mut leftover: u32 = total_layers;
    let mut i: usize = 0;
    while i < list.len()
        invariant
            i <= list@.len(),
            base == base_counts(list@),
            sum(base) <= total_layers,
            leftover == total_layers - sum(base.take(i as int)),
            counts@.map_values(|c: u32| c as nat) == base.take(i as int),
        decreases list@.len() - i,
    {
        proof {
            lemma_sum_step(base, i as int);
            lemma_sum_take(base, i + 1);
        }
        let count: u32 = list[i].whole + 1;
        counts.push(count);
        leftover = leftover - count;
        i = i + 1;
        assert(counts@.map_values(|c: u32| c as nat) =~= base.take(i as int));
    }
    assert(base.take(i as int) =~= base);
    let order = rank_all(list.as_slice());
    proof {
        lemma_deal_all(base, order_of, 0);
    }
    let n = order.len();
    let mut dealt_out: u32 = 0;
    while dealt_out < leftover
        invariant
            dealt_out <= leftover,
            n == order@.len() == base.len() == counts@.len(),
            n > 0,
            order_of == order@.map_values(|i: usize| i as int),
            order_of.len() == base.len(),
            order_of.no_duplicates(),
            forall|i: int| 0 <= i < order_of.len() ==> 0 <= #[trigger] order_of[i] < base.len(),
            forall|x: int| 0 <= x < base.len() ==> #[trigger] order_of.contains(x),
            sum(base) + leftover == total_layers,
            counts@.map_values(|c: u32| c as nat) == with_dealt(base, order_of, dealt_out as nat),
        decreases leftover - dealt_out,
    {
        let place: usize = (dealt_out as u64 % n as u64) as usize;
        let next = order[place];
        let ghost before = counts@.map_values(|c: u32| c as nat);
        proof {
            lemma_deal_one(base, order_of, dealt_out as nat);
            lemma_deal_all(base, order_of, dealt_out as nat);
            assert(order_of[place as int] == next);
            lemma_sum_remove(before, next as int);
            assert(before[next as int] == counts@[next as int]);
        }
        let count: u32 = counts[next] + 1;
        counts.set(next, count);
        dealt_out = dealt_out + 1;
        assert(counts@.map_values(|c: u32| c as nat) =~= before.update(
            next as int,
            (before[next as int] + 1) as nat,
        ));
    }
    assert(with_dealt(base, order_of, left) =~= layer_counts(total_layers as nat, nodes));
    counts
}

/// The stages of a ring tile the layers: stage 0 begins with layer 0, each stage begins where the
/// one before it ended, none is empty, and the last ends with the last layer.
pub proof fn lemma_ring_tiles(stages: Seq<Stage>, layers: nat, nodes: Seq<NodeCap>)
    requires
        0 < nodes.len() <= layers <= u32::MAX,
        total_budget(nodes) <= u64::MAX,
        is_ring(stages, layers, nodes),
    ensures
        tiles(stages, 0, layers as int),
{
    lemma_counts_cover_layers(layers, nodes);
    let counts = layer_counts(layers, nodes);
    assert(stages.skip(0) =~= stages);
    assert(counts.take(0) =~= Seq::<nat>::empty());
    lemma_ring_tiles_from(stages, layers, nodes, 0);
}

proof fn lemma_ring_tiles_from(stages: Seq<Stage>, layers: nat, nodes: Seq<NodeCap>, i: int)
    requires
        0 < nodes.len() <= layers <= u32::MAX,
        total_budget(nodes) <= u64::MAX,
        is_ring(stages, layers, nodes),
        0 <= i <= nodes.len(),
    ensures
        tiles(stages.skip(i), sum(layer_counts(layers, nodes).take(i)) as int, layers as int),
    decreases nodes.len() - i,
{
    let counts = layer_counts(layers, nodes);
    lemma_counts_cover_layers(layers, nodes);
    if i == nodes.len() {
        assert(counts.take(i) =~= counts);
    } else {
        let rest = stages.skip(i);
        assert(rest[0] == stages[i]);
        assert(rest.skip(1) =~= stages.skip(i + 1));
        lemma_sum_step(counts, i);
        assert(counts[i] >= 1);
        lemma_ring_tiles_from(stages, layers, nodes, i + 1);
    }
}

/// Splits `total_layers` over the chosen nodes: contiguous ranges in their order, each in
/// proportion to the node's budget and none empty. The layers that the proportions leave over go
/// to the largest remainders.
pub fn assign_layers(total_layers: u32, chosen: &[&NodeCap]) -> (res: Vec<Stage>)
    requires
        chosen@.len() <= total_layers,
        total_budget(chosen@.unref()) <= u64::MAX,
    ensures
        is_ring(res@, total_layers as nat, chosen@.unref()),
        chosen@.len() > 0 ==> tiles(res@, 0, total_layers as int),
{
    let mut stages: Vec<Stage> = Vec::new();
    if chosen.len() == 0 {
        return stages;
    }
    let ghost nodes = chosen@.unref();
    let ghost all = layer_counts(total_layers as nat, nodes);
    proof {
        lemma_counts_cover_layers(total_layers as nat, nodes);
    }
    let counts = count_layers(total_layers, chosen);
    let mut lo: u32 = 0;
    let mut i: usize = 0;
    assert(all.take(0) =~= Seq::<nat>::empty());
    while i < chosen.len()
        invariant
            i == stages@.len() <= chosen@.len(),
            nodes == chosen@.unref(),
            all == layer_counts(total_layers as nat, nodes),
            all.len() == nodes.len(),
            sum(all) == total_layers,
            forall|j: int| 0 <= j < all.len() ==> #[trigger] all[j] >= 1,
            counts@.map_values(|c: u32| c as nat) == all,
            lo == sum(all.take(i as int)),
            forall|j: int|
                #![trigger stages@[j]]
                0 <= j < i ==> {
                    &&& stages@[j].node_id@ == nodes[j].node_id@
                    &&& stages@[j].layer_lo == sum(all.take(j))
                    &&& stages@[j].layer_hi + 1 == sum(all.take(j + 1))
                    &&& stages@[j].weight_shard_cid is None
                },
        decreases chosen@.len() - i,
    {
        proof {
            lemma_sum_step(all, i as int);
            lemma_sum_take(all, i + 1);
            assert(all[i as int] == counts@[i as int]);
        }
        let next: u32 = lo + counts[i];
        stages.push(
            Stage {
                node_id: chosen[i].node_id.clone(),
                layer_lo: lo,
                layer_hi: next - 1,
                weight_shard_cid: None,
            },
        );
        lo = next;
        i = i + 1;
    }
    proof {
        lemma_ring_tiles(stages@, total_layers as nat, nodes);
    }
    stages
}

/// Why no placement was found.
#[derive(Debug, Clone, PartialEq)]
pub enum PlanError {
    /// The fleet is empty.
    NoCandidates { model_id: String },
    /// The whole fleet together cannot hold the model.
    FleetTooSmall { model_id: String, need_mb: u64, fleet_mb: u64, nodes: usize },
}

impl PlanError {
    pub open spec fn message(&self) -> Seq<char> {
        match self {
            PlanError::NoCandidates { model_id } => "no candidate nodes for model '"@ + model_id@
                + "'"@,
            PlanError::FleetTooSmall { model_id, need_mb, fleet_mb, nodes } => "model '"@
                + model_id@ + "' needs ~"@ + decimal(*need_mb as nat)
                + " MB (incl. headroom) but the whole fleet only offers "@ + decimal(
                *fleet_mb as nat,
            ) + " MB across "@ + decimal(*nodes as nat)
                + " nodes; add nodes or a smaller quant"@,
        }
    }

    pub fn to_string(&self) -> (res: String)
        ensures
            res@ == self.message(),
    {
        match self {
            PlanError::NoCandidates { model_id } => {
                let text = joined("no candidate nodes for model '", model_id.as_str());
                joined(text.as_str(), "'")
            },
            PlanError::FleetTooSmall { model_id, need_mb, fleet_mb, nodes } => {
                let mut text = joined("model '", model_id.as_str());
                text.append("' needs ~");
                text.append(write_decimal(*need_mb).as_str());
                text.append(" MB (incl. headroom) but the whole fleet only offers ");
                text.append(write_decimal(*fleet_mb).as_str());
                text.append(" MB across ");
                text.append(write_decimal(*nodes as u64).as_str());
                text.append(" nodes; add nodes or a smaller quant");
                text
            },
        }
    }
}

/// The nodes on which the whole model fits, best first.
pub open spec fn fitting(weight_mb: u64, nodes: Seq<NodeCap>) -> Seq<NodeCap> {
    ranked(nodes).filter(|n: NodeCap| weight_mb <= n.budget_mb)
}

/// The nodes, the one with the most capacity first.
pub open spec fn largest_first(nodes: Seq<NodeCap>) -> Seq<NodeCap> {
    ranking(capacities(nodes)).map_values(|i: int| nodes[i])
}

/// The nodes that offer anything, the one with the most capacity first.
pub open spec fn offering(nodes: Seq<NodeCap>) -> Seq<NodeCap> {
    largest_first(nodes).filter(|n: NodeCap| n.budget_mb > 0)
}

/// What a ring for weights of this size must offer, in MB: the weights with their headroom, in
/// double precision, rounded up.
pub open spec fn need_mb(weight_mb: u64) -> nat {
    let need = Dyadic::of_nat(weight_mb as nat).times(Dyadic::of_bits(PIPELINE_HEADROOM)).ceiling();
    if need <= u64::MAX {
        need
    } else {
        u64::MAX as nat
    }
}

/// How many nodes are taken, one after the other, until their budgets together reach `need`: at
/// least one, and all of them if they never do.
pub open spec fn covering(nodes: Seq<NodeCap>, need: nat) -> nat
    decreases nodes.len(),
{
    if nodes.len() == 0 {
        0
    } else if nodes[0].budget_mb >= need {
        1
    } else {
        1 + covering(nodes.skip(1), (need - nodes[0].budget_mb) as nat)
    }
}

/// The nodes that a split of `model` runs on, in order: as few of the largest as cover it, and
/// never more than it has layers.
pub open spec fn ring_nodes(model: ModelEntry, nodes: Seq<NodeCap>) -> Seq<NodeCap> {
    let enough = covering(offering(nodes), need_mb(model.weight_mb)) as int;
    offering(nodes).take(
        if enough <= model.layers {
            enough
        } else {
            model.layers as int
        },
    )
}

/// `model` is split rather than copied.
pub open spec fn splits(model: ModelEntry, nodes: Seq<NodeCap>, opts: PlanOpts) -> bool {
    opts.force_pipeline || fitting(model.weight_mb, nodes).len() == 0
}

/// How many copies are placed where `fit` nodes could hold one.
pub open spec fn replica_count(desired: usize, fit: nat) -> nat {
    if desired == 0 {
        1
    } else if desired <= fit {
        desired as nat
    } else {
        fit
    }
}

/// Putting the largest first keeps every node and adds none; budgets fall.
proof fn lemma_largest_first(nodes: Seq<NodeCap>)
    ensures
        ({
            let list = largest_first(nodes);
            let order = ranking(capacities(nodes));
            &&& is_ranking(capacities(nodes), order)
            &&& order.no_duplicates()
            &&& forall|x: int| 0 <= x < nodes.len() ==> #[trigger] order.contains(x)
            &&& list.len() == nodes.len()
            &&& best_first(capacities(list))
            &&& forall|i: int, j: int|
                0 <= i < j < list.len() ==> (#[trigger] list[i]).budget_mb >= (
                #[trigger] list[j]).budget_mb
            &&& forall|i: int| 0 <= i < list.len() ==> nodes.contains(#[trigger] list[i])
            &&& total_budget(list) == total_budget(nodes)
        }),
{
    let keys = capacities(nodes);
    let list = largest_first(nodes);
    let order = ranking(keys);
    let size = |c: Capacity| c.budget_mb as nat;
    let amount = |n: NodeCap| n.budget_mb as nat;
    lemma_ranking_exists(keys);
    lemma_covers(keys, order);
    lemma_ranked_best_first(keys);
    lemma_sum_ranked(keys, size);
    assert(ranked(keys) =~= capacities(list));
    assert(ranked(keys).map_values(size) =~= list.map_values(amount));
    assert(keys.map_values(size) =~= nodes.map_values(amount));
    assert forall|i: int, j: int| 0 <= i < j < list.len() implies (#[trigger] list[i]).budget_mb >= (
    #[trigger] list[j]).budget_mb by {
        assert(capacities(list)[i] == capacity_of(list[i]));
        assert(capacities(list)[j] == capacity_of(list[j]));
    }
}

/// Leaving out the nodes that offer nothing leaves out no budget.
proof fn lemma_offering(nodes: Seq<NodeCap>)
    ensures
        total_budget(offering(nodes)) == total_budget(nodes),
{
    let list = largest_first(nodes);
    lemma_largest_first(nodes);
    lemma_offering_so_far(list, list.len() as int);
    assert(list.take(list.len() as int) =~= list);
}

proof fn lemma_offering_so_far(list: Seq<NodeCap>, i: int)
    requires
        0 <= i <= list.len(),
    ensures
        total_budget(list.take(i).filter(|n: NodeCap| n.budget_mb > 0)) == total_budget(
            list.take(i),
        ),
    decreases i,
{
    let keep = |n: NodeCap| n.budget_mb > 0;
    let amount = |n: NodeCap| n.budget_mb as nat;
    if i == 0 {
        reveal(Seq::filter);
        assert(list.take(0).filter(keep) =~= list.take(0));
    } else {
        lemma_offering_so_far(list, i - 1);
        lemma_filter_step(list, keep, i - 1);
        lemma_sum_step(list.map_values(amount), i - 1);
        assert(list.take(i).map_values(amount) =~= list.map_values(amount).take(i));
        assert(list.take(i - 1).map_values(amount) =~= list.map_values(amount).take(i - 1));
        let before = list.take(i - 1).filter(keep);
        let x = list[i - 1];
        assert(before.push(x).map_values(amount).drop_last() =~= before.map_values(amount));
    }
}

/// The budgets of the first nodes together.
proof fn lemma_budget_step(nodes: Seq<NodeCap>, i: int)
    requires
        0 <= i < nodes.len(),
    ensures
        total_budget(nodes.take(i + 1)) == total_budget(nodes.take(i)) + nodes[i].budget_mb,
        total_budget(nodes.take(i + 1)) <= total_budget(nodes),
{
    let amount = |n: NodeCap| n.budget_mb as nat;
    let budgets = nodes.map_values(amount);
    assert(nodes.take(i + 1).map_values(amount) =~= budgets.take(i + 1));
    assert(nodes.take(i).map_values(amount) =~= budgets.take(i));
    lemma_sum_step(budgets, i);
    lemma_sum_take(budgets, i + 1);
}

/// The nodes at these positions.
fn in_order<'a>(nodes: &'a [NodeCap], order: &Vec<usize>) -> (res: Vec<&'a NodeCap>)
    requires
        forall|j: int| 0 <= j < order@.len() ==> 0 <= #[trigger] order@[j] < nodes@.len(),
    ensures
        res@.unref() == order@.map_values(|i: usize| i as int).map_values(|i: int| nodes@[i]),
{
    let mut res: Vec<&'a NodeCap> = Vec::new();
    let mut i: usize = 0;
    while i < order.len()
        invariant
            i == res@.len() <= order@.len(),
            forall|j: int| 0 <= j < order@.len() ==> 0 <= #[trigger] order@[j] < nodes@.len(),
            forall|j: int| 0 <= j < i ==> *(#[trigger] res@[j]) == nodes@[order@[j] as int],
        decreases order@.len() - i,
    {
        res.push(&nodes[order[i]]);
        i = i + 1;
    }
    assert(res@.unref() =~= order@.map_values(|i: usize| i as int).map_values(|i: int| nodes@[i]));
    res
}

/// Ranks the nodes.
fn rank_nodes<'a>(nodes: &'a [NodeCap]) -> (res: Vec<&'a NodeCap>)
    ensures
        res@.unref() == ranked(nodes@),
{
    in_order(nodes, &rank_all(nodes))
}

/// Puts the nodes with the most capacity first.
fn put_largest_first<'a>(nodes: &'a [NodeCap]) -> (res: Vec<&'a NodeCap>)
    ensures
        res@.unref() == largest_first(nodes@),
{
    let mut keys: Vec<Capacity> = Vec::new();
    let mut i: usize = 0;
    while i < nodes.len()
        invariant
            i == keys@.len() <= nodes@.len(),
            forall|j: int| 0 <= j < i ==> #[trigger] keys@[j] == capacity_of(nodes@[j]),
        decreases nodes@.len() - i,
    {
        keys.push(nodes[i].capacity());
        i = i + 1;
    }
    assert(keys@ =~= capacities(nodes@));
    in_order(nodes, &rank_all(keys.as_slice()))
}

/// The nodes of `best` on which the whole model fits.
fn keep_fitting<'a>(model: &ModelEntry, best: &Vec<&'a NodeCap>) -> (res: Vec<&'a NodeCap>)
    ensures
        res@.unref() == best@.unref().filter(|n: NodeCap| model.weight_mb <= n.budget_mb),
{
    let ghost all = best@.unref();
    let ghost keep = |n: NodeCap| model.weight_mb <= n.budget_mb;
    let mut res: Vec<&'a NodeCap> = Vec::new();
    let mut i: usize = 0;
    proof {
        reveal(Seq::filter);
        assert(res@.unref() =~= all.take(0).filter(keep));
    }
    while i < best.len()
        invariant
            i <= best@.len(),
            all == best@.unref(),
            keep == (|n: NodeCap| model.weight_mb <= n.budget_mb),
            res@.unref() == all.take(i as int).filter(keep),
        decreases best@.len() - i,
    {
        proof {
            lemma_filter_step(all, keep, i as int);
        }
        let ghost before = res@;
        if model.fits_single(best[i].budget_mb) {
            res.push(best[i]);
            assert(res@.unref() =~= before.unref().push(all[i as int]));
        }
        i = i + 1;
    }
    assert(all.take(i as int) =~= all);
    res
}

/// What a ring for the model must offer.
fn headroom_mb(weight_mb: u64) -> (res: u64)
    ensures
        res == need_mb(weight_mb),
{
    match Double::from_bits(PIPELINE_HEADROOM) {
        Some(factor) => Double::from_u64(weight_mb).times(factor).ceiling(),
        None => {
            assert(false);
            0
        },
    }
}

/// Takes nodes from `list` until they cover `need`.
fn choose_ring<'a>(list: &Vec<&'a NodeCap>, need: u64) -> (res: Vec<&'a NodeCap>)
    requires
        total_budget(list@.unref().filter(|n: NodeCap| n.budget_mb > 0)) <= u64::MAX,
    ensures
        ({
            let all = list@.unref().filter(|n: NodeCap| n.budget_mb > 0);
            &&& covering(all, need as nat) <= all.len()
            &&& res@.unref() == all.take(covering(all, need as nat) as int)
        }),
{
    let ghost keep = |n: NodeCap| n.budget_mb > 0;
    let ghost listed = list@.unref();
    let ghost all = listed.filter(keep);
    let mut res: Vec<&'a NodeCap> = Vec::new();
    let mut acc: u64 = 0;
    let mut i: usize = 0;
    proof {
        reveal(Seq::filter);
        assert(res@.unref() =~= listed.take(0).filter(keep));
        assert(all.skip(0) =~= all);
        assert(res@.unref() =~= all.take(0));
        assert(all.take(0).map_values(|n: NodeCap| n.budget_mb as nat) =~= Seq::<nat>::empty());
    }
    while i < list.len()
        invariant
            i <= list@.len(),
            keep == (|n: NodeCap| n.budget_mb > 0),
            listed == list@.unref(),
            all == listed.filter(keep),
            total_budget(all) <= u64::MAX,
            res@.len() <= all.len(),
            res@.unref() == listed.take(i as int).filter(keep),
            res@.unref() == all.take(res@.len() as int),
            acc == total_budget(all.take(res@.len() as int)),
            acc < need || res@.len() == 0,
            covering(all, need as nat) == res@.len() + covering(
                all.skip(res@.len() as int),
                (need - acc) as nat,
            ),
        decreases list@.len() - i,
    {
        proof {
            lemma_filter_step(listed, keep, i as int);
            lemma_filter_prefix(listed, keep, i + 1);
        }
        if list[i].budget_mb > 0 {
            let ghost c = res@.len() as int;
            let ghost before = res@;
            res.push(list[i]);
            proof {
                assert(res@.unref() =~= before.unref().push(listed[i as int]));
                assert(all[c] == all.take(c + 1)[c]);
                assert(all[c] == listed[i as int]);
                lemma_budget_step(all, c);
                assert(all.skip(c)[0] == all[c]);
                assert(all.skip(c).skip(1) =~= all.skip(c + 1));
            }
            acc = acc + list[i].budget_mb;
            if acc >= need {
                return res;
            }
        }
        i = i + 1;
    }
    proof {
        assert(listed.take(i as int) =~= listed);
        assert(all.take(res@.len() as int).len() == res@.len());
        assert(all.skip(res@.len() as int).len() == 0);
    }
    res
}

/// A placement can be looked for. Where the model is split, the budgets of the fleet must fit
/// together in 64 bits. Left out too is a split, on demand, of a model without weights over nodes
/// that offer nothing: there is no node to put its layers on.
pub open spec fn plannable(model: ModelEntry, nodes: Seq<NodeCap>, opts: PlanOpts) -> bool {
    nodes.len() > 0 && splits(model, nodes, opts) ==> {
        &&& total_budget(nodes) <= u64::MAX
        &&& total_budget(nodes) > 0 || need_mb(model.weight_mb) > 0 || model.layers == 0
    }
}

/// The budgets of the nodes together, in MB, if they fit in 64 bits.
fn add_budgets(nodes: &[NodeCap]) -> (res: Option<u64>)
    ensures
        match res {
            Some(mb) => mb == total_budget(nodes@),
            None => total_budget(nodes@) > u64::MAX,
        },
{
    let mut fleet: u64 = 0;
    let mut i: usize = 0;
    assert(nodes@.take(0).map_values(|n: NodeCap| n.budget_mb as nat) =~= Seq::<nat>::empty());
    while i < nodes.len()
        invariant
            i <= nodes@.len(),
            fleet == total_budget(nodes@.take(i as int)),
        decreases nodes@.len() - i,
    {
        proof {
            lemma_budget_step(nodes@, i as int);
        }
        match fleet.checked_add(nodes[i].budget_mb) {
            Some(more) => {
                fleet = more;
            },
            None => {
                return None;
            },
        }
        i = i + 1;
    }
    assert(nodes@.take(i as int) =~= nodes@);
    Some(fleet)
}

/// Whether a placement can be looked for with [`plan`].
pub fn can_plan(model: &ModelEntry, nodes: &[NodeCap], opts: &PlanOpts) -> (res: bool)
    ensures
        res == plannable(*model, nodes@, *opts),
{
    if nodes.len() == 0 {
        return true;
    }
    let best = rank_nodes(nodes);
    let fit = keep_fitting(model, &best);
    if !opts.force_pipeline && fit.len() > 0 {
        return true;
    }
    match add_budgets(nodes) {
        Some(fleet) => fleet > 0 || headroom_mb(model.weight_mb) > 0 || model.layers == 0,
        None => false,
    }
}

/// `result` is the placement of `model` on `nodes`, or why there is none.
pub open spec fn placed(
    model: ModelEntry,
    nodes: Seq<NodeCap>,
    opts: PlanOpts,
    result: Result<Placement, PlanError>,
) -> bool {
    match result {
        Ok(placement) => {
            &&& nodes.len() > 0
            &&& placement.model_id@ == model.id@
            &&& if splits(model, nodes, opts) {
                &&& total_budget(nodes) >= need_mb(model.weight_mb)
                &&& placement.mode == Mode::Pipeline
                &&& placement.replicas@.len() == 0
                &&& is_ring(placement.stages@, model.layers as nat, ring_nodes(model, nodes))
                &&& tiles(placement.stages@, 0, model.layers as int)
            } else {
                let fit = fitting(model.weight_mb, nodes);
                &&& placement.mode == Mode::Replica
                &&& placement.stages@.len() == 0
                &&& texts(placement.replicas@) == fit.take(
                    replica_count(opts.desired_replicas, fit.len()) as int,
                ).map_values(|n: NodeCap| n.node_id@)
            }
        },
        Err(PlanError::NoCandidates { model_id }) => {
            &&& nodes.len() == 0
            &&& model_id@ == model.id@
        },
        Err(PlanError::FleetTooSmall { model_id, need_mb: need, fleet_mb, nodes: count }) => {
            &&& nodes.len() > 0
            &&& splits(model, nodes, opts)
            &&& total_budget(nodes) < need_mb(model.weight_mb)
            &&& model_id@ == model.id@
            &&& need == need_mb(model.weight_mb)
            &&& fleet_mb == total_budget(nodes)
            &&& count == nodes.len()
        },
    }
}

/// Chooses a placement for `model` over a snapshot of the fleet.
pub fn plan(model: &ModelEntry, nodes: &[NodeCap], opts: &PlanOpts) -> (res: Result<
    Placement,
    PlanError,
>)
    requires
        plannable(*model, nodes@, *opts),
    ensures
        placed(*model, nodes@, *opts, res),
{
    if nodes.len() == 0 {
        return Err(PlanError::NoCandidates { model_id: model.id.clone() });
    }
    let best = rank_nodes(nodes);
    let fit = keep_fitting(model, &best);
    if !opts.force_pipeline && fit.len() > 0 {
        let take: usize = if opts.desired_replicas == 0 {
            1
        } else if opts.desired_replicas <= fit.len() {
            opts.desired_replicas
        } else {
            fit.len()
        };
        let mut replicas: Vec<String> = Vec::new();
        let mut i: usize = 0;
        while i < take
            invariant
                i == replicas@.len() <= take <= fit@.len(),
                forall|j: int| 0 <= j < i ==> (#[trigger] replicas@[j])@ == fit@[j].node_id@,
            decreases take - i,
        {
            replicas.push(fit[i].node_id.clone());
            i = i + 1;
        }
        assert(texts(replicas@) =~= fit@.unref().take(take as int).map_values(
            |n: NodeCap| n.node_id@,
        ));
        return Ok(
            Placement {
                model_id: model.id.clone(),
                mode: Mode::Replica,
                replicas,
                stages: Vec::new(),
            },
        );
    }
    let need = headroom_mb(model.weight_mb);
    let fleet: u64 = match add_budgets(nodes) {
        Some(fleet) => fleet,
        None => {
            assert(false);
            0
        },
    };
    if fleet < need {
        return Err(
            PlanError::FleetTooSmall {
                model_id: model.id.clone(),
                need_mb: need,
                fleet_mb: fleet,
                nodes: nodes.len(),
            },
        );
    }
    let ghost all = offering(nodes@);
    proof {
        lemma_offering(nodes@);
    }
    let mut chosen = choose_ring(&put_largest_first(nodes), need);
    let ghost enough = chosen@;
    if chosen.len() > model.layers as usize {
        chosen.truncate(model.layers as usize);
    }
    proof {
        assert(chosen@.unref() =~= ring_nodes(*model, nodes@));
        let c = chosen@.len() as int;
        assert(chosen@.unref() == all.take(c));
        if c > 0 {
            lemma_budget_step(all, c - 1);
        } else {
            assert(all.take(0).map_values(|n: NodeCap| n.budget_mb as nat) =~= Seq::<
                nat,
            >::empty());
            if model.layers > 0 {
                assert(all.len() == 0);
                assert(all.map_values(|n: NodeCap| n.budget_mb as nat) =~= Seq::<nat>::empty());
            }
        }
    }
    let stages = assign_layers(model.layers, chosen.as_slice());
    Ok(
        Placement {
            model_id: model.id.clone(),
            mode: Mode::Pipeline,
            replicas: Vec::new(),
            stages,
        },
    )
}

/// Covering stops as soon as it can: the nodes that it takes reach `need` if all nodes together do,
/// and without the last of them they do not.
pub proof fn lemma_covering(nodes: Seq<NodeCap>, need: nat)
    ensures
        covering(nodes, need) <= nodes.len(),
        nodes.len() > 0 ==> covering(nodes, need) > 0,
        total_budget(nodes) >= need ==> total_budget(nodes.take(covering(nodes, need) as int))
            >= need,
        covering(nodes, need) > 1 ==> total_budget(nodes.take(covering(nodes, need) - 1)) < need,
    decreases nodes.len(),
{
    let amount = |n: NodeCap| n.budget_mb as nat;
    let c = covering(nodes, need) as int;
    if nodes.len() > 0 {
        let rest = nodes.skip(1);
        let less = (need - nodes[0].budget_mb) as nat;
        lemma_budget_from(nodes, nodes.len() as int);
        assert(nodes.take(nodes.len() as int) =~= nodes);
        assert(rest.take(rest.len() as int) =~= rest);
        lemma_budget_from(nodes, 1);
        assert(rest.take(0).map_values(amount) =~= Seq::<nat>::empty());
        if nodes[0].budget_mb < need {
            lemma_covering(rest, less);
            lemma_budget_from(nodes, c);
            if c > 1 {
                lemma_budget_from(nodes, c - 1);
            }
        }
    } else {
        assert(nodes.take(0) =~= nodes);
    }
}

proof fn lemma_budget_from(nodes: Seq<NodeCap>, i: int)
    requires
        1 <= i <= nodes.len(),
    ensures
        total_budget(nodes.take(i)) == nodes[0].budget_mb + total_budget(nodes.skip(1).take(i - 1)),
    decreases i,
{
    let amount = |n: NodeCap| n.budget_mb as nat;
    lemma_budget_step(nodes, i - 1);
    if i == 1 {
        assert(nodes.take(0).map_values(amount) =~= Seq::<nat>::empty());
        assert(nodes.skip(1).take(0).map_values(amount) =~= Seq::<nat>::empty());
    } else {
        lemma_budget_from(nodes, i - 1);
        lemma_budget_step(nodes.skip(1), i - 2);
    }
}

/// The ring of a split: nodes of the fleet that offer something, the one with the most capacity
/// first, no more of them than layers. Where the layers do not cut it short, it covers the weights
/// with their headroom and would not without its last node; nor would any fewer nodes, see
/// [`lemma_fewer_nodes_fall_short`].
pub proof fn lemma_ring_is_minimal(model: ModelEntry, nodes: Seq<NodeCap>)
    requires
        total_budget(nodes) >= need_mb(model.weight_mb),
    ensures
        ({
            let ring = ring_nodes(model, nodes);
            let need = need_mb(model.weight_mb);
            &&& ring.len() <= model.layers
            &&& best_first(capacities(ring))
            &&& forall|i: int|
                0 <= i < ring.len() ==> nodes.contains(#[trigger] ring[i]) && ring[i].budget_mb > 0
            &&& covering(offering(nodes), need) <= model.layers ==> {
                &&& total_budget(ring) >= need
                &&& ring.len() > 1 ==> total_budget(ring.drop_last()) < need
            }
        }),
{
    let ring = ring_nodes(model, nodes);
    let all = offering(nodes);
    let list = largest_first(nodes);
    let keep = |n: NodeCap| n.budget_mb > 0;
    lemma_largest_first(nodes);
    lemma_offering_first(list);
    lemma_offering(nodes);
    lemma_covering(all, need_mb(model.weight_mb));
    assert forall|i: int| 0 <= i < ring.len() implies nodes.contains(#[trigger] ring[i])
        && ring[i].budget_mb > 0 by {
        assert(ring[i] == list[i]);
        list.lemma_filter_pred(keep, i);
        assert(keep(all[i]));
    }
    assert forall|i: int, j: int| 0 <= i < j < capacities(ring).len() implies !precedes(
        (#[trigger] capacities(ring)[j]).rank(),
        (#[trigger] capacities(ring)[i]).rank(),
    ) by {
        assert(capacities(ring)[i] == capacities(list)[i]);
        assert(capacities(ring)[j] == capacities(list)[j]);
    }
    if ring.len() > 0 {
        assert(ring.drop_last() =~= all.take(ring.len() - 1));
    }
}

/// Where budgets fall, the nodes that offer something stand at the beginning.
proof fn lemma_offering_first(list: Seq<NodeCap>)
    requires
        forall|i: int, j: int|
            0 <= i < j < list.len() ==> (#[trigger] list[i]).budget_mb >= (
            #[trigger] list[j]).budget_mb,
    ensures
        ({
            let some = list.filter(|n: NodeCap| n.budget_mb > 0);
            some.len() <= list.len() && some == list.take(some.len() as int)
        }),
    decreases list.len(),
{
    let keep = |n: NodeCap| n.budget_mb > 0;
    reveal(Seq::filter);
    if list.len() > 0 {
        let rest = list.drop_last();
        let some = rest.filter(keep);
        lemma_offering_first(rest);
        if list.last().budget_mb > 0 {
            lemma_all_kept(list, keep);
            assert(list.take(list.len() as int) =~= list);
        } else {
            assert(some =~= list.take(some.len() as int));
        }
    } else {
        assert(list.filter(keep) =~= list.take(0));
    }
}

/// The ring is as short as can be: fewer nodes, whichever are picked, do not reach what it must
/// offer.
pub proof fn lemma_fewer_nodes_fall_short(
    model: ModelEntry,
    nodes: Seq<NodeCap>,
    picked: Seq<int>,
)
    requires
        model.weight_mb > 0,
        picked.no_duplicates(),
        forall|k: int| 0 <= k < picked.len() ==> 0 <= #[trigger] picked[k] < nodes.len(),
        picked.len() < ring_nodes(model, nodes).len(),
    ensures
        total_budget(picked.map_values(|i: int| nodes[i])) < need_mb(model.weight_mb),
{
    let need = need_mb(model.weight_mb);
    let amount = |n: NodeCap| n.budget_mb as nat;
    let order = ranking(capacities(nodes));
    let list = largest_first(nodes);
    let some = offering(nodes);
    let budgets = list.map_values(amount);
    let k = picked.len() as int;
    lemma_largest_first(nodes);
    // Where the picked nodes stand when the largest come first.
    let places = picked.map_values(|i: int| order.index_of(i));
    assert forall|a: int| 0 <= a < places.len() implies 0 <= #[trigger] places[a] < budgets.len()
        && order[places[a]] == picked[a] by {
        assert(order.contains(picked[a]));
    }
    assert forall|a: int, b: int| 0 <= a < places.len() && 0 <= b < places.len() && a
        != b implies places[a] != places[b] by {
        assert(order[places[a]] == picked[a] && order[places[b]] == picked[b]);
    }
    lemma_first_are_most(budgets, places);
    assert(places.map_values(|i: int| budgets[i]) =~= picked.map_values(
        |i: int| nodes[i],
    ).map_values(amount)) by {
        assert forall|a: int| 0 <= a < places.len() implies budgets[#[trigger] places[a]]
            == nodes[picked[a]].budget_mb by {
            assert(order[places[a]] == picked[a]);
        }
    }
    // No more than the largest of those that offer something, which fall short without the last.
    lemma_offering_first(list);
    lemma_covering(some, need);
    let c = covering(some, need) as int;
    assert(list.take(k) =~= some.take(k));
    assert(budgets.take(k) =~= some.take(k).map_values(amount));
    let offered = some.map_values(amount);
    assert(offered.take(c - 1).take(k) =~= some.take(k).map_values(amount));
    assert(offered.take(c - 1) =~= some.take(c - 1).map_values(amount));
    lemma_sum_take(offered.take(c - 1), k);
    if k == 0 {
        assert(picked.map_values(|i: int| nodes[i]).map_values(amount) =~= Seq::<nat>::empty());
        lemma_need_is_something(model.weight_mb);
    }
}

/// Weights need something.
proof fn lemma_need_is_something(weight_mb: u64)
    requires
        weight_mb > 0,
    ensures
        need_mb(weight_mb) > 0,
{
    assert(Dyadic::of_bits(PIPELINE_HEADROOM) == Dyadic { m: 0x12_6666_6666_6666, e: -52 });
    lemma_headroom(weight_mb as nat);
}

/// Replicas go to the best of the nodes that hold the whole model: each chosen node does, and none
/// that does and was passed over outranks a chosen one.
pub proof fn lemma_replicas_are_best(weight_mb: u64, nodes: Seq<NodeCap>, count: nat)
    requires
        count <= fitting(weight_mb, nodes).len(),
    ensures
        ({
            let fit = fitting(weight_mb, nodes);
            &&& forall|n: NodeCap| #[trigger]
                fit.contains(n) <==> nodes.contains(n) && weight_mb <= n.budget_mb
            &&& forall|i: int, j: int|
                0 <= i < count <= j < fit.len() ==> !precedes(
                    (#[trigger] fit[j]).rank(),
                    (#[trigger] fit[i]).rank(),
                )
        }),
{
    lemma_kept_best_first(nodes, |n: NodeCap| weight_mb <= n.budget_mb);
}

/// Each stage has its exact share of the layers that are handed out by budget, rounded down or
/// up, but for a relative error of `2^-50` in the share; and one layer on top. A share that comes
/// out whole is not rounded up.
pub proof fn lemma_layers_in_proportion(layers: nat, nodes: Seq<NodeCap>, i: int)
    requires
        nodes.len() <= layers <= u32::MAX,
        0 < total_budget(nodes) <= u64::MAX,
        0 <= i < nodes.len(),
    ensures
        ({
            let handed_out = layers - nodes.len();
            let count = layer_counts(layers, nodes)[i];
            let budget = nodes[i].budget_mb;
            let total = total_budget(nodes);
            &&& (count - 2) * total * 0x4_0000_0000_0000 < handed_out * budget
                * 0x4_0000_0000_0001
            &&& handed_out * budget * 0x3_ffff_ffff_ffff < count * total * 0x4_0000_0000_0000
            &&& quotas(layers, nodes)[i].rest == 0 ==> count == 1 + quotas(layers, nodes)[i].whole
        }),
{
    let list = quotas(layers, nodes);
    let n = nodes.len();
    let w = (layers - n) as nat;
    let total = total_budget(nodes);
    let budgets = nodes.map_values(|n: NodeCap| n.budget_mb as nat);
    let left = (w - whole_layers(list)) as nat;
    let count = layer_counts(layers, nodes)[i];
    lemma_whole_layers(layers, nodes);
    lemma_ranking_of_quotas(list);
    lemma_sum_remove(budgets, i);
    lemma_quota(w, nodes[i].budget_mb as nat, total);
    let q = list[i].whole as nat;
    assert(ranking(list).contains(i));
    lemma_dealt_once(left, n, ranking(list).index_of(i));
    if list[i].rest == 0 {
        lemma_whole_quota_ranks_last(list, i);
        assert((count - 2) * total < q * total) by (nonlinear_arith)
            requires
                count - 2 < q,
                total > 0,
        ;
    } else {
        assert((count - 2) * total <= q * total) by (nonlinear_arith)
            requires
                count - 2 <= q,
                total > 0,
        ;
    }
    assert((q + 1) * total <= count * total) by (nonlinear_arith)
        requires
            q + 1 <= count,
            total > 0,
    ;
}

/// With no more layers left than nodes, a node is dealt one layer or none.
proof fn lemma_dealt_once(left: nat, n: nat, place: int)
    requires
        left <= n,
        0 < n,
        0 <= place < n,
    ensures
        dealt(left, n, place) == if place < left {
            1nat
        } else {
            0
        },
{
    if left < n {
        vstd::arithmetic::div_mod::lemma_fundamental_div_mod_converse(
            left as int,
            n as int,
            0,
            left as int,
        );
    } else {
        assert(left == 1 * n + 0);
        vstd::arithmetic::div_mod::lemma_fundamental_div_mod_converse(
            left as int,
            n as int,
            1,
            0,
        );
    }
}

/// A node with a budget at least as large runs at least as many layers: always if it stands
/// earlier in the ring, and otherwise unless the two shares come out equal.
pub proof fn lemma_more_budget_more_layers(layers: nat, nodes: Seq<NodeCap>, i: int, j: int)
    requires
        nodes.len() <= layers <= u32::MAX,
        total_budget(nodes) <= u64::MAX,
        0 <= i < nodes.len(),
        0 <= j < nodes.len(),
        nodes[i].budget_mb >= nodes[j].budget_mb,
        i <= j || quotas(layers, nodes)[i] != quotas(layers, nodes)[j],
    ensures
        layer_counts(layers, nodes)[i] >= layer_counts(layers, nodes)[j],
{
    let list = quotas(layers, nodes);
    let order = ranking(list);
    let n = nodes.len();
    let w = (layers - n) as nat;
    let total = total_budget(nodes);
    let budgets = nodes.map_values(|n: NodeCap| n.budget_mb as nat);
    let left = (w - whole_layers(list)) as nat;
    lemma_whole_layers(layers, nodes);
    lemma_ranking_of_quotas(list);
    lemma_ranking_exists(list);
    lemma_sum_remove(budgets, i);
    lemma_sum_remove(budgets, j);
    lemma_quota(w, nodes[i].budget_mb as nat, total);
    lemma_quota(w, nodes[j].budget_mb as nat, total);
    if nodes[j].budget_mb > 0 {
        lemma_share_monotone(w, nodes[j].budget_mb as nat, nodes[i].budget_mb as nat, total);
    } else {
        lemma_share_of_nothing(w, divisor(total));
    }
    assert(order.contains(i) && order.contains(j));
    let p = order.index_of(i);
    let q = order.index_of(j);
    if total > 0 {
        lemma_dealt_once(left, n, p);
        lemma_dealt_once(left, n, q);
    }
    if i != j && list[i].whole == list[j].whole {
        if q < p {
            assert(stands_before(list, order[q], order[p]));
        }
    }
}

/// Nodes with equal budgets run equally many layers, but for one, which goes to the earlier of
/// them.
pub proof fn lemma_equal_budgets_equal_layers(layers: nat, nodes: Seq<NodeCap>, i: int, j: int)
    requires
        nodes.len() <= layers <= u32::MAX,
        total_budget(nodes) <= u64::MAX,
        0 <= i <= j < nodes.len(),
        nodes[i].budget_mb == nodes[j].budget_mb,
    ensures
        ({
            let counts = layer_counts(layers, nodes);
            counts[j] <= counts[i] <= counts[j] + 1
        }),
{
    assert(quotas(layers, nodes)[i] == quotas(layers, nodes)[j]);
    lemma_more_budget_more_layers(layers, nodes, i, j);
}

/// What a ring must offer is 23 twentieths of the weights, rounded up, but for a relative error of
/// `2^-50`, and without error up to `2^40` MB; so a ring that offers it holds the weights. Weights
/// that leave no room for their headroom in 64 bits are left out.
pub proof fn lemma_need_has_headroom(weight_mb: u64)
    requires
        weight_mb < 0x8000_0000_0000_0000,
    ensures
        23 * weight_mb * 0x3_ffff_ffff_ffff <= 20 * need_mb(weight_mb) * 0x4_0000_0000_0000,
        weight_mb > 0 ==> 20 * (need_mb(weight_mb) - 1) * 0x4_0000_0000_0000 < 23 * weight_mb
            * 0x4_0000_0000_0001,
        need_mb(weight_mb) >= weight_mb,
        weight_mb <= 0x100_0000_0000 ==> need_mb(weight_mb) == (23 * weight_mb + 19) / 20,
{
    let factor = Dyadic { m: 0x12_6666_6666_6666, e: -52 };
    assert(Dyadic::of_bits(PIPELINE_HEADROOM) == factor);
    if weight_mb > 0 {
        lemma_headroom(weight_mb as nat);
        if weight_mb <= 0x100_0000_0000 {
            lemma_headroom_exact(weight_mb as nat);
        }
    } else {
        lemma_nothing_of(factor);
    }
}

/// How many layers each stage runs.
pub open spec fn stage_layers(stages: Seq<Stage>) -> Seq<nat> {
    stages.map_values(|s: Stage| (s.layer_hi - s.layer_lo + 1) as nat)
}

/// Stages that tile a range of layers run each of its layers once: their layers add up to it.
pub proof fn lemma_tiles_add_up(stages: Seq<Stage>, from: int, to: int)
    requires
        tiles(stages, from, to),
    ensures
        from + sum(stage_layers(stages)) == to,
        forall|i: int|
            0 <= i < stages.len() ==> from <= (#[trigger] stages[i]).layer_lo
                <= stages[i].layer_hi < to,
    decreases stages.len(),
{
    let counts = stage_layers(stages);
    if stages.len() > 0 {
        let rest = stages.skip(1);
        let next = stages[0].layer_hi + 1;
        lemma_tiles_add_up(rest, next, to);
        assert(counts.remove(0) =~= stage_layers(rest));
        lemma_sum_remove(counts, 0);
        assert forall|i: int| 0 <= i < stages.len() implies from <= (#[trigger] stages[i]).layer_lo
            <= stages[i].layer_hi < to by {
            if i > 0 {
                assert(rest[i - 1] == stages[i]);
            }
        }
    }
}

/// `id` is the id of a node of the fleet that offers at least `budget_mb`.
pub open spec fn offered_by(nodes: Seq<NodeCap>, id: Seq<char>, budget_mb: u64) -> bool {
    exists|n: NodeCap| #[trigger] nodes.contains(n) && n.node_id@ == id && n.budget_mb >= budget_mb
}

/// A placement holds the model. Every replica is on a node of the fleet that holds all of it; the
/// stages of a split are on nodes of the fleet that offer something, no more of them than layers,
/// and run every layer once; and where the layers do not cut the ring short, its nodes together
/// hold the weights.
pub proof fn lemma_placement_holds_the_model(
    model: ModelEntry,
    nodes: Seq<NodeCap>,
    opts: PlanOpts,
    placement: Placement,
)
    requires
        placed(model, nodes, opts, Ok(placement)),
    ensures
        forall|i: int|
            0 <= i < placement.replicas@.len() ==> offered_by(
                nodes,
                (#[trigger] placement.replicas@[i])@,
                model.weight_mb,
            ),
        forall|i: int|
            0 <= i < placement.stages@.len() ==> offered_by(
                nodes,
                (#[trigger] placement.stages@[i]).node_id@,
                1,
            ),
        placement.stages@.len() <= model.layers,
        placement.mode == Mode::Pipeline ==> sum(stage_layers(placement.stages@)) == model.layers,
        placement.mode == Mode::Pipeline && covering(offering(nodes), need_mb(model.weight_mb))
            <= model.layers && model.weight_mb < 0x8000_0000_0000_0000 ==> total_budget(
            ring_nodes(model, nodes),
        ) >= model.weight_mb,
{
    if splits(model, nodes, opts) {
        let ring = ring_nodes(model, nodes);
        lemma_ring_is_minimal(model, nodes);
        lemma_tiles_add_up(placement.stages@, 0, model.layers as int);
        assert forall|i: int| 0 <= i < placement.stages@.len() implies offered_by(
            nodes,
            (#[trigger] placement.stages@[i]).node_id@,
            1,
        ) by {
            assert(nodes.contains(ring[i]));
        }
        if model.weight_mb < 0x8000_0000_0000_0000 {
            lemma_need_has_headroom(model.weight_mb);
        }
    } else {
        let fit = fitting(model.weight_mb, nodes);
        let count = replica_count(opts.desired_replicas, fit.len());
        lemma_replicas_are_best(model.weight_mb, nodes, count);
        assert forall|i: int| 0 <= i < placement.replicas@.len() implies offered_by(
            nodes,
            (#[trigger] placement.replicas@[i])@,
            model.weight_mb,
        ) by {
            assert(texts(placement.replicas@)[i] == placement.replicas@[i]@);
            assert(texts(placement.replicas@).len() == placement.replicas@.len());
            assert(fit.contains(fit[i]));
        }
    }
}

/// Adding up budgets starts from nothing, and one node more adds its budget.
pub proof fn lemma_total_budget_adds(nodes: Seq<NodeCap>, node: NodeCap)
    ensures
        total_budget(Seq::empty()) == 0,
        total_budget(nodes.push(node)) == total_budget(nodes) + node.budget_mb,
{
    let amount = |n: NodeCap| n.budget_mb as nat;
    assert(Seq::<NodeCap>::empty().map_values(amount) =~= Seq::<nat>::empty());
    assert(nodes.push(node).map_values(amount) =~= nodes.map_values(amount).push(
        node.budget_mb as nat,
    ));
    lemma_sum_adds(nodes.map_values(amount), node.budget_mb as nat);
}

/// Each stage has one layer, the whole layers of its share, and at most one that was left over;
/// what was left over went to the larger remainders, and among equal ones to the earlier stage.
proof fn lemma_leftovers(layers: nat, nodes: Seq<NodeCap>, i: int, j: int)
    requires
        nodes.len() <= layers <= u32::MAX,
        0 < total_budget(nodes) <= u64::MAX,
        0 <= i < nodes.len(),
        0 <= j < nodes.len(),
    ensures
        ({
            let w = (layers - nodes.len()) as nat;
            let x = share(w, nodes[i].budget_mb as nat, total_budget(nodes));
            let y = share(w, nodes[j].budget_mb as nat, total_budget(nodes));
            let more = layer_counts(layers, nodes)[i] - 1 - x.floor();
            let less = layer_counts(layers, nodes)[j] - 1 - y.floor();
            &&& 0 <= more <= 1
            &&& more > less ==> x.fraction() > y.fraction() || x.fraction() == y.fraction() && i < j
        }),
{
    let list = quotas(layers, nodes);
    let order = ranking(list);
    let n = nodes.len();
    let w = (layers - n) as nat;
    let total = total_budget(nodes);
    let budgets = nodes.map_values(|n: NodeCap| n.budget_mb as nat);
    let left = (w - whole_layers(list)) as nat;
    lemma_whole_layers(layers, nodes);
    lemma_ranking_of_quotas(list);
    lemma_ranking_exists(list);
    lemma_sum_remove(budgets, i);
    lemma_sum_remove(budgets, j);
    lemma_quota(w, nodes[i].budget_mb as nat, total);
    lemma_quota(w, nodes[j].budget_mb as nat, total);
    assert(order.contains(i) && order.contains(j));
    let p = order.index_of(i);
    let q = order.index_of(j);
    lemma_dealt_once(left, n, p);
    lemma_dealt_once(left, n, q);
    if p < q {
        assert(stands_before(list, order[p], order[q]));
    }
}

/// How layers are split. The stages run on the chosen nodes, in their order, and their ranges run
/// from the first layer to the last without a gap. What is handed out beyond one layer each is in
/// proportion to the budgets: no stage is further from its share than the next whole number, a
/// larger budget never means fewer layers for the earlier of two, equal ones differ by at most one,
/// and what the whole shares leave over goes to the largest remainders.
pub proof fn lemma_split_is_fair(total_layers: u32, chosen: &[&NodeCap], stages: Vec<Stage>)
    requires
        chosen@.len() <= total_layers,
        total_budget(chosen@.unref()) <= u64::MAX,
        call_ensures(assign_layers, (total_layers, chosen), stages),
    ensures
        stages@.len() == chosen@.len(),
        forall|k: int|
            #![trigger stages@[k]]
            0 <= k < stages@.len() ==> {
                &&& stages@[k].node_id@ == chosen@[k].node_id@
                &&& stages@[k].layer_lo <= stages@[k].layer_hi
                &&& stages@[k].weight_shard_cid is None
                &&& k == 0 ==> stages@[k].layer_lo == 0
                &&& k + 1 < stages@.len() ==> stages@[k + 1].layer_lo == stages@[k].layer_hi + 1
                &&& k + 1 == stages@.len() ==> stages@[k].layer_hi + 1 == total_layers
            },
        total_budget(chosen@.unref()) > 0 ==> forall|k: int|
            #![trigger stages@[k]]
            0 <= k < stages@.len() ==> {
                let count = stages@[k].layer_hi - stages@[k].layer_lo + 1;
                let handed_out = total_layers - chosen@.len();
                let budget = chosen@[k].budget_mb;
                let total = total_budget(chosen@.unref());
                &&& (count - 2) * total * 0x4_0000_0000_0000 < handed_out * budget
                    * 0x4_0000_0000_0001
                &&& handed_out * budget * 0x3_ffff_ffff_ffff < count * total * 0x4_0000_0000_0000
            },
        total_budget(chosen@.unref()) > 0 ==> forall|i: int, j: int|
            #![trigger stages@[i], stages@[j]]
            0 <= i < stages@.len() && 0 <= j < stages@.len() ==> {
                let w = (total_layers - chosen@.len()) as nat;
                let total = total_budget(chosen@.unref());
                let x = share(w, chosen@[i].budget_mb as nat, total);
                let y = share(w, chosen@[j].budget_mb as nat, total);
                let more = stages@[i].layer_hi - stages@[i].layer_lo - x.floor();
                let less = stages@[j].layer_hi - stages@[j].layer_lo - y.floor();
                &&& 0 <= more <= 1
                &&& more > less ==> x.fraction() > y.fraction() || x.fraction() == y.fraction() && i
                    < j
            },
        forall|i: int, j: int|
            #![trigger stages@[i], stages@[j]]
            0 <= i < j < stages@.len() && chosen@[i].budget_mb >= chosen@[j].budget_mb ==> {
                let first = stages@[i].layer_hi - stages@[i].layer_lo;
                let second = stages@[j].layer_hi - stages@[j].layer_lo;
                &&& first >= second
                &&& chosen@[i].budget_mb == chosen@[j].budget_mb ==> first <= second + 1
            },
{
    let nodes = chosen@.unref();
    let layers = total_layers as nat;
    let counts = layer_counts(layers, nodes);
    if chosen@.len() > 0 {
        lemma_counts_cover_layers(layers, nodes);
        assert forall|k: int| 0 <= k < nodes.len() implies #[trigger] sum(counts.take(k + 1)) == sum(
            counts.take(k),
        ) + counts[k] && nodes[k] == *chosen@[k] by {
            lemma_sum_step(counts, k);
        }
        assert(counts.take(0) =~= Seq::<nat>::empty());
        assert(counts.take(nodes.len() as int) =~= counts);
        assert forall|k: int| 0 <= k < stages@.len() implies (#[trigger] stages@[k]).layer_hi
            - stages@[k].layer_lo + 1 == counts[k] && nodes[k] == *chosen@[k] by {
            assert(sum(counts.take(k + 1)) == sum(counts.take(k)) + counts[k]);
        }
        assert forall|k: int| 0 <= k < stages@.len() implies {
            &&& k == 0 ==> (#[trigger] stages@[k]).layer_lo == 0
            &&& k + 1 < stages@.len() ==> stages@[k + 1].layer_lo == stages@[k].layer_hi + 1
            &&& k + 1 == stages@.len() ==> stages@[k].layer_hi + 1 == total_layers
        } by {
            if k + 1 < stages@.len() {
                assert(stages@[k + 1].layer_lo == sum(counts.take(k + 1)));
            }
        }
        if total_budget(nodes) > 0 {
            assert forall|k: int| 0 <= k < stages@.len() implies {
                let count = (#[trigger] stages@[k]).layer_hi - stages@[k].layer_lo + 1;
                let handed_out = total_layers - chosen@.len();
                let budget = chosen@[k].budget_mb;
                let total = total_budget(nodes);
                &&& (count - 2) * total * 0x4_0000_0000_0000 < handed_out * budget
                    * 0x4_0000_0000_0001
                &&& handed_out * budget * 0x3_ffff_ffff_ffff < count * total * 0x4_0000_0000_0000
            } by {
                lemma_layers_in_proportion(layers, nodes, k);
            }
            assert forall|i: int, j: int|
                #![trigger stages@[i], stages@[j]]
                0 <= i < stages@.len() && 0 <= j < stages@.len() implies {
                let w = (total_layers - chosen@.len()) as nat;
                let total = total_budget(nodes);
                let x = share(w, chosen@[i].budget_mb as nat, total);
                let y = share(w, chosen@[j].budget_mb as nat, total);
                let more = stages@[i].layer_hi - stages@[i].layer_lo - x.floor();
                let less = stages@[j].layer_hi - stages@[j].layer_lo - y.floor();
                &&& 0 <= more <= 1
                &&& more > less ==> x.fraction() > y.fraction() || x.fraction() == y.fraction() && i
                    < j
            } by {
                lemma_leftovers(layers, nodes, i, j);
            }
        }
        assert forall|i: int, j: int|
            #![trigger stages@[i], stages@[j]]
            0 <= i < j < stages@.len() && chosen@[i].budget_mb >= chosen@[j].budget_mb implies {
            let first = stages@[i].layer_hi - stages@[i].layer_lo;
            let second = stages@[j].layer_hi - stages@[j].layer_lo;
            &&& first >= second
            &&& chosen@[i].budget_mb == chosen@[j].budget_mb ==> first <= second + 1
        } by {
            lemma_more_budget_more_layers(layers, nodes, i, j);
            if chosen@[i].budget_mb == chosen@[j].budget_mb {
                lemma_equal_budgets_equal_layers(layers, nodes, i, j);
            }
        }
    }
}

/// Where copies go. They stand on different nodes of the fleet, each of which holds the whole
/// model. No node that holds it and was passed over has a GPU where a chosen one has none, nor, with
/// GPUs alike, a larger budget, nor, with budgets alike too, a longer history; where all that is
/// alike, the node that is listed earlier was chosen. The copies are listed in the same order of
/// preference. There are as many as were asked for, and at least one, unless every node that holds
/// the model has one.
pub proof fn lemma_replicas_go_to_the_best(
    model: ModelEntry,
    nodes: &[NodeCap],
    opts: PlanOpts,
    placement: Placement,
) -> (picked: Seq<int>)
    requires
        call_ensures(plan, (&model, nodes, &opts), Ok(placement)),
        placement.mode == Mode::Replica,
    ensures
        placement.model_id@ == model.id@,
        placement.stages@.len() == 0,
        picked.no_duplicates(),
        picked.len() == placement.replicas@.len() > 0,
        forall|k: int|
            #![trigger picked[k]]
            0 <= k < picked.len() ==> {
                &&& 0 <= picked[k] < nodes@.len()
                &&& nodes@[picked[k]].budget_mb >= model.weight_mb
                &&& placement.replicas@[k]@ == nodes@[picked[k]].node_id@
            },
        forall|k: int, q: int|
            #![trigger picked[k], nodes@[q]]
            0 <= k < picked.len() && 0 <= q < nodes@.len() && !picked.contains(q)
                && nodes@[q].budget_mb >= model.weight_mb ==> {
                let c = nodes@[picked[k]];
                let p = nodes@[q];
                ||| c.has_gpu && !p.has_gpu
                ||| c.has_gpu == p.has_gpu && c.budget_mb > p.budget_mb
                ||| c.has_gpu == p.has_gpu && c.budget_mb == p.budget_mb && c.history > p.history
                ||| c.has_gpu == p.has_gpu && c.budget_mb == p.budget_mb && c.history == p.history
                    && picked[k] < q
            },
        forall|k: int, l: int|
            #![trigger picked[k], picked[l]]
            0 <= k < l < picked.len() ==> {
                let c = nodes@[picked[k]];
                let p = nodes@[picked[l]];
                ||| c.has_gpu && !p.has_gpu
                ||| c.has_gpu == p.has_gpu && c.budget_mb > p.budget_mb
                ||| c.has_gpu == p.has_gpu && c.budget_mb == p.budget_mb && c.history > p.history
                ||| c.has_gpu == p.has_gpu && c.budget_mb == p.budget_mb && c.history == p.history
                    && picked[k] < picked[l]
            },
        opts.desired_replicas > 0 ==> picked.len() <= opts.desired_replicas,
        opts.desired_replicas == 0 ==> picked.len() == 1,
        picked.len() < opts.desired_replicas ==> forall|q: int|
            0 <= q < nodes@.len() && (#[trigger] nodes@[q]).budget_mb >= model.weight_mb
                ==> picked.contains(q),
{
    let keep = |n: NodeCap| model.weight_mb <= n.budget_mb;
    let fit = fitting(model.weight_mb, nodes@);
    let places = lemma_kept_positions(nodes@, nodes@, keep);
    let count = replica_count(opts.desired_replicas, fit.len()) as int;
    assert(fit == places.map_values(|i: int| nodes@[i]));
    assert(count <= places.len());
    let picked = places.take(count);
    let shown = fit.take(count).map_values(|n: NodeCap| n.node_id@);
    assert(texts(placement.replicas@) == shown);
    assert(texts(placement.replicas@).len() == placement.replicas@.len());
    assert forall|k: int| 0 <= k < picked.len() implies 0 <= #[trigger] picked[k] < nodes@.len()
        && nodes@[picked[k]].budget_mb >= model.weight_mb && placement.replicas@[k]@
        == nodes@[picked[k]].node_id@ by {
        assert(picked[k] == places[k]);
        assert(keep(nodes@[places[k]]));
        assert(texts(placement.replicas@)[k] == shown[k]);
    }
    assert forall|k: int, l: int| 0 <= k < l < places.len() implies stands_before(
        nodes@,
        #[trigger] places[k],
        #[trigger] places[l],
    ) by {}
    assert forall|k: int, q: int|
        #![trigger picked[k], nodes@[q]]
        0 <= k < picked.len() && 0 <= q < nodes@.len() && !picked.contains(q)
            && nodes@[q].budget_mb >= model.weight_mb implies {
        let c = nodes@[picked[k]];
        let p = nodes@[q];
        ||| c.has_gpu && !p.has_gpu
        ||| c.has_gpu == p.has_gpu && c.budget_mb > p.budget_mb
        ||| c.has_gpu == p.has_gpu && c.budget_mb == p.budget_mb && c.history > p.history
        ||| c.has_gpu == p.has_gpu && c.budget_mb == p.budget_mb && c.history == p.history
            && picked[k] < q
    } by {
        assert(keep(nodes@[q]));
        assert(places.contains(q));
        let l = choose|l: int| 0 <= l < places.len() && places[l] == q;
        if l < count {
            assert(picked[l] == q);
        }
        assert(stands_before(nodes@, places[k], places[l]));
    }
    assert forall|k: int, l: int|
        #![trigger picked[k], picked[l]]
        0 <= k < l < picked.len() implies stands_before(nodes@, picked[k], picked[l]) by {
        assert(picked[k] == places[k] && picked[l] == places[l]);
    }
    if picked.len() < opts.desired_replicas {
        assert(count == places.len());
        assert(picked =~= places);
        assert forall|q: int|
            0 <= q < nodes@.len() && (#[trigger] nodes@[q]).budget_mb
                >= model.weight_mb implies picked.contains(q) by {
            assert(keep(nodes@[q]));
        }
    }
    picked
}

/// The positions of the nodes of a ring, in its order.
proof fn lemma_ring_places(model: ModelEntry, nodes: Seq<NodeCap>) -> (picked: Seq<int>)
    requires
        total_budget(nodes) >= need_mb(model.weight_mb),
    ensures
        picked.map_values(|i: int| nodes[i]) == ring_nodes(model, nodes),
        picked.len() == ring_nodes(model, nodes).len() <= model.layers,
        picked.no_duplicates(),
        forall|k: int|
            0 <= k < picked.len() ==> 0 <= #[trigger] picked[k] < nodes.len()
                && nodes[picked[k]].budget_mb > 0,
        forall|k: int, q: int|
            #![trigger picked[k], nodes[q]]
            0 <= k < picked.len() && 0 <= q < nodes.len() && !picked.contains(q) ==> {
                let c = nodes[picked[k]];
                let p = nodes[q];
                ||| c.budget_mb > p.budget_mb
                ||| c.budget_mb == p.budget_mb && c.has_gpu && !p.has_gpu
                ||| c.budget_mb == p.budget_mb && c.has_gpu == p.has_gpu && c.history > p.history
                ||| c.budget_mb == p.budget_mb && c.has_gpu == p.has_gpu && c.history == p.history
                    && picked[k] < q
            },
        forall|k: int, l: int|
            #![trigger picked[k], picked[l]]
            0 <= k < l < picked.len() ==> {
                let c = nodes[picked[k]];
                let p = nodes[picked[l]];
                ||| c.budget_mb > p.budget_mb
                ||| c.budget_mb == p.budget_mb && c.has_gpu && !p.has_gpu
                ||| c.budget_mb == p.budget_mb && c.has_gpu == p.has_gpu && c.history > p.history
                ||| c.budget_mb == p.budget_mb && c.has_gpu == p.has_gpu && c.history == p.history
                    && picked[k] < picked[l]
            },
        picked.len() < model.layers ==> total_budget(picked.map_values(|i: int| nodes[i]))
            >= need_mb(model.weight_mb),
        picked.len() > 1 ==> total_budget(picked.drop_last().map_values(|i: int| nodes[i]))
            < need_mb(model.weight_mb),
{
    let keep = |n: NodeCap| n.budget_mb > 0;
    let keys = capacities(nodes);
    let all = offering(nodes);
    let ring = ring_nodes(model, nodes);
    let places = lemma_kept_positions(keys, nodes, keep);
    let n = ring.len() as int;
    let need = need_mb(model.weight_mb);
    lemma_offering(nodes);
    lemma_covering(all, need);
    assert(all == places.map_values(|i: int| nodes[i]));
    let picked = places.take(n);
    assert(picked.map_values(|i: int| nodes[i]) =~= ring);
    assert forall|k: int| 0 <= k < picked.len() implies 0 <= #[trigger] picked[k] < nodes.len()
        && nodes[picked[k]].budget_mb > 0 by {
        assert(picked[k] == places[k]);
        assert(keep(nodes[places[k]]));
    }
    assert forall|k: int, l: int|
        #![trigger places[k], places[l]]
        0 <= k < l < places.len() implies {
        let c = nodes[places[k]];
        let p = nodes[places[l]];
        ||| c.budget_mb > p.budget_mb
        ||| c.budget_mb == p.budget_mb && c.has_gpu && !p.has_gpu
        ||| c.budget_mb == p.budget_mb && c.has_gpu == p.has_gpu && c.history > p.history
        ||| c.budget_mb == p.budget_mb && c.has_gpu == p.has_gpu && c.history == p.history
            && places[k] < places[l]
    } by {
        assert(stands_before(keys, places[k], places[l]));
        assert(keys[places[k]] == capacity_of(nodes[places[k]]));
        assert(keys[places[l]] == capacity_of(nodes[places[l]]));
    }
    assert forall|k: int, l: int|
        #![trigger picked[k], picked[l]]
        0 <= k < l < picked.len() implies picked[k] == places[k] && picked[l] == places[l] by {}
    assert forall|k: int, q: int|
        #![trigger picked[k], nodes[q]]
        0 <= k < picked.len() && 0 <= q < nodes.len() && !picked.contains(q) implies {
        let c = nodes[picked[k]];
        let p = nodes[q];
        ||| c.budget_mb > p.budget_mb
        ||| c.budget_mb == p.budget_mb && c.has_gpu && !p.has_gpu
        ||| c.budget_mb == p.budget_mb && c.has_gpu == p.has_gpu && c.history > p.history
        ||| c.budget_mb == p.budget_mb && c.has_gpu == p.has_gpu && c.history == p.history
            && picked[k] < q
    } by {
        assert(picked[k] == places[k]);
        if nodes[q].budget_mb > 0 {
            assert(keep(nodes[q]));
            assert(places.contains(q));
            let l = choose|l: int| 0 <= l < places.len() && places[l] == q;
            if l < n {
                assert(picked[l] == q);
            }
            assert(k < l);
        }
    }
    if picked.len() > 1 {
        let c = covering(all, need) as int;
        let amount = |n: NodeCap| n.budget_mb as nat;
        let offered = all.map_values(amount);
        assert(picked.drop_last().map_values(|i: int| nodes[i]) =~= all.take(n - 1));
        assert(offered.take(c - 1).take(n - 1) =~= all.take(n - 1).map_values(amount));
        assert(offered.take(c - 1) =~= all.take(c - 1).map_values(amount));
        lemma_sum_take(offered.take(c - 1), n - 1);
    }
    picked
}

/// The ranges of a ring run from the first layer to the last, in proportion to the budgets.
proof fn lemma_ring_ranges(stages: Seq<Stage>, layers: nat, ring: Seq<NodeCap>, k: int)
    requires
        is_ring(stages, layers, ring),
        ring.len() <= layers <= u32::MAX,
        0 < total_budget(ring) <= u64::MAX,
        0 <= k < ring.len(),
    ensures
        ({
            let s = stages[k];
            let count = s.layer_hi - s.layer_lo + 1;
            let handed_out = layers - ring.len();
            let budget = ring[k].budget_mb;
            let total = total_budget(ring);
            &&& s.layer_lo <= s.layer_hi
            &&& k == 0 ==> s.layer_lo == 0
            &&& k + 1 < stages.len() ==> stages[k + 1].layer_lo == s.layer_hi + 1
            &&& k + 1 == stages.len() ==> s.layer_hi + 1 == layers
            &&& (count - 2) * total * 0x4_0000_0000_0000 < handed_out * budget
                * 0x4_0000_0000_0001
            &&& handed_out * budget * 0x3_ffff_ffff_ffff < count * total * 0x4_0000_0000_0000
        }),
{
    let counts = layer_counts(layers, ring);
    lemma_counts_cover_layers(layers, ring);
    assert(counts.take(0) =~= Seq::<nat>::empty());
    assert(counts.take(ring.len() as int) =~= counts);
    lemma_sum_step(counts, k);
    lemma_layers_in_proportion(layers, ring, k);
    if k + 1 < stages.len() {
        assert(stages[k + 1].layer_lo == sum(counts.take(k + 1)));
    }
}

/// Where a split goes. Its stages stand on different nodes of the fleet, each of which offers
/// something, the largest budget first; with budgets alike a node with a GPU first, then one with a
/// longer history, then the one listed earlier; and no such node was passed over for one behind it.
/// There are no more stages than layers; unless there are as many, the nodes together offer what is
/// needed, and one stage fewer would not. The ranges run from the first layer to the last without a
/// gap, and no stage is further from its share of the layers than the next whole number.
pub proof fn lemma_stages_go_to_the_largest(
    model: ModelEntry,
    nodes: &[NodeCap],
    opts: PlanOpts,
    placement: Placement,
) -> (picked: Seq<int>)
    requires
        plannable(model, nodes@, opts),
        call_ensures(plan, (&model, nodes, &opts), Ok(placement)),
        placement.mode == Mode::Pipeline,
    ensures
        placement.model_id@ == model.id@,
        placement.replicas@.len() == 0,
        picked.no_duplicates(),
        picked.len() == placement.stages@.len() <= model.layers,
        forall|k: int|
            #![trigger picked[k]]
            0 <= k < picked.len() ==> {
                &&& 0 <= picked[k] < nodes@.len()
                &&& nodes@[picked[k]].budget_mb > 0
                &&& placement.stages@[k].node_id@ == nodes@[picked[k]].node_id@
            },
        forall|k: int, q: int|
            #![trigger picked[k], nodes@[q]]
            0 <= k < picked.len() && 0 <= q < nodes@.len() && !picked.contains(q) ==> {
                let c = nodes@[picked[k]];
                let p = nodes@[q];
                ||| c.budget_mb > p.budget_mb
                ||| c.budget_mb == p.budget_mb && c.has_gpu && !p.has_gpu
                ||| c.budget_mb == p.budget_mb && c.has_gpu == p.has_gpu && c.history > p.history
                ||| c.budget_mb == p.budget_mb && c.has_gpu == p.has_gpu && c.history == p.history
                    && picked[k] < q
            },
        forall|k: int, l: int|
            #![trigger picked[k], picked[l]]
            0 <= k < l < picked.len() ==> {
                let c = nodes@[picked[k]];
                let p = nodes@[picked[l]];
                ||| c.budget_mb > p.budget_mb
                ||| c.budget_mb == p.budget_mb && c.has_gpu && !p.has_gpu
                ||| c.budget_mb == p.budget_mb && c.has_gpu == p.has_gpu && c.history > p.history
                ||| c.budget_mb == p.budget_mb && c.has_gpu == p.has_gpu && c.history == p.history
                    && picked[k] < picked[l]
            },
        picked.len() < model.layers ==> total_budget(picked.map_values(|i: int| nodes@[i]))
            >= need_mb(model.weight_mb),
        picked.len() > 1 ==> total_budget(picked.drop_last().map_values(|i: int| nodes@[i]))
            < need_mb(model.weight_mb),
        forall|k: int|
            #![trigger placement.stages@[k]]
            0 <= k < placement.stages@.len() ==> {
                let s = placement.stages@[k];
                let count = s.layer_hi - s.layer_lo + 1;
                let handed_out = model.layers - picked.len();
                let budget = nodes@[picked[k]].budget_mb;
                let total = total_budget(picked.map_values(|i: int| nodes@[i]));
                &&& s.layer_lo <= s.layer_hi
                &&& k == 0 ==> s.layer_lo == 0
                &&& k + 1 < placement.stages@.len() ==> placement.stages@[k + 1].layer_lo
                    == s.layer_hi + 1
                &&& k + 1 == placement.stages@.len() ==> s.layer_hi + 1 == model.layers
                &&& (count - 2) * total * 0x4_0000_0000_0000 < handed_out * budget
                    * 0x4_0000_0000_0001
                &&& handed_out * budget * 0x3_ffff_ffff_ffff < count * total * 0x4_0000_0000_0000
            },
{
    let ring = ring_nodes(model, nodes@);
    let all = offering(nodes@);
    let picked = lemma_ring_places(model, nodes@);
    let n = ring.len() as int;
    assert forall|k: int| 0 <= k < picked.len() implies ring[k] == nodes@[#[trigger] picked[k]] by {
        assert(picked.map_values(|i: int| nodes@[i])[k] == nodes@[picked[k]]);
    }
    assert forall|k: int| 0 <= k < picked.len() implies placement.stages@[k].node_id@
        == nodes@[#[trigger] picked[k]].node_id@ by {
        assert(placement.stages@[k].node_id@ == ring[k].node_id@);
    }
    assert forall|k: int| 0 <= k < placement.stages@.len() implies {
        let s = #[trigger] placement.stages@[k];
        let count = s.layer_hi - s.layer_lo + 1;
        let handed_out = model.layers - picked.len();
        let budget = nodes@[picked[k]].budget_mb;
        let total = total_budget(picked.map_values(|i: int| nodes@[i]));
        &&& s.layer_lo <= s.layer_hi
        &&& k == 0 ==> s.layer_lo == 0
        &&& k + 1 < placement.stages@.len() ==> placement.stages@[k + 1].layer_lo == s.layer_hi + 1
        &&& k + 1 == placement.stages@.len() ==> s.layer_hi + 1 == model.layers
        &&& (count - 2) * total * 0x4_0000_0000_0000 < handed_out * budget * 0x4_0000_0000_0001
        &&& handed_out * budget * 0x3_ffff_ffff_ffff < count * total * 0x4_0000_0000_0000
    } by {
        let amount = |n: NodeCap| n.budget_mb as nat;
        lemma_offering(nodes@);
        lemma_covering(all, need_mb(model.weight_mb));
        assert(ring =~= all.take(n));
        lemma_budget_step(all, n - 1);
        lemma_sum_remove(ring.map_values(amount), k);
        assert(nodes@[picked[k]].budget_mb > 0);
        lemma_ring_ranges(placement.stages@, model.layers as nat, ring, k);
    }
    picked
}

/// Whether a model is copied, split or not placed. Without nodes there is none to place it on. It is
/// copied if some node holds it and a split is not forced. Else it is split if the nodes together
/// offer what is needed, and refused with what is missing if they do not.
pub proof fn lemma_when_a_model_is_placed(
    model: ModelEntry,
    nodes: &[NodeCap],
    opts: PlanOpts,
    res: Result<Placement, PlanError>,
)
    requires
        call_ensures(plan, (&model, nodes, &opts), res),
    ensures
        nodes@.len() == 0 <==> res matches Err(PlanError::NoCandidates { .. }),
        res matches Err(PlanError::NoCandidates { model_id }) ==> model_id@ == model.id@,
        nodes@.len() > 0 && !opts.force_pipeline && (exists|q: int|
            0 <= q < nodes@.len() && (#[trigger] nodes@[q]).budget_mb >= model.weight_mb) <==> res
            is Ok && res->Ok_0.mode == Mode::Replica,
        res is Ok && res->Ok_0.mode == Mode::Pipeline ==> total_budget(nodes@) >= need_mb(
            model.weight_mb,
        ),
        res matches Err(PlanError::FleetTooSmall { model_id, need_mb: need, fleet_mb, nodes: count })
            ==> {
            &&& model_id@ == model.id@
            &&& need == need_mb(model.weight_mb)
            &&& fleet_mb == total_budget(nodes@) < need
            &&& count == nodes@.len()
        },
{
    let keep = |n: NodeCap| model.weight_mb <= n.budget_mb;
    let fit = fitting(model.weight_mb, nodes@);
    lemma_kept_best_first(nodes@, keep);
    assert(fit.len() > 0 <==> exists|q: int|
        0 <= q < nodes@.len() && (#[trigger] nodes@[q]).budget_mb >= model.weight_mb) by {
        if fit.len() > 0 {
            assert(fit.contains(fit[0]));
            let q = choose|q: int| 0 <= q < nodes@.len() && nodes@[q] == fit[0];
            assert(nodes@[q].budget_mb >= model.weight_mb);
        }
        if exists|q: int|
            0 <= q < nodes@.len() && (#[trigger] nodes@[q]).budget_mb >= model.weight_mb {
            let q = choose|q: int|
                0 <= q < nodes@.len() && (#[trigger] nodes@[q]).budget_mb >= model.weight_mb;
            assert(nodes@.contains(nodes@[q]) && keep(nodes@[q]));
            assert(fit.contains(nodes@[q]));
        }
    }
}

/// The nodes of a placement are those of its replicas or its stages, in order; and a stage runs the
/// layers from its first to its last.
pub proof fn lemma_nodes_take_part(placement: Placement, res: Vec<&str>, stage: Stage, count: u32)
    requires
        call_ensures(Placement::nodes, (&placement,), res),
        call_ensures(Stage::layer_count, (&stage,), count),
    ensures
        placement.mode == Mode::Replica ==> res@.len() == placement.replicas@.len() && forall|i: int|
            0 <= i < res@.len() ==> (#[trigger] res@[i])@ == placement.replicas@[i]@,
        placement.mode == Mode::Pipeline ==> res@.len() == placement.stages@.len() && forall|i: int|
            0 <= i < res@.len() ==> (#[trigger] res@[i])@ == placement.stages@[i].node_id@,
        stage.layer_lo <= stage.layer_hi ==> stage.layer_lo + count == stage.layer_hi + 1,
        stage.layer_lo > stage.layer_hi ==> count == 1,
{
    let shown = res@.map_values(|s: &str| s@);
    assert(shown.len() == res@.len());
    assert forall|i: int| 0 <= i < res@.len() implies (#[trigger] res@[i])@ == shown[i] by {}
    if placement.mode == Mode::Replica {
        assert(texts(placement.replicas@).len() == placement.replicas@.len());
    }
}

proof fn lemma_tiles(stages: Seq<Stage>, from: int, to: int)
    ensures
        tiles(stages, from, to) <==> {
            &&& stages.len() == 0 ==> from == to
            &&& stages.len() > 0 ==> stages[0].layer_lo == from && stages.last().layer_hi + 1 == to
            &&& forall|i: int|
                0 <= i < stages.len() ==> (#[trigger] stages[i]).layer_lo <= stages[i].layer_hi
            &&& forall|i: int|
                #![trigger stages[i]]
                0 <= i < stages.len() - 1 ==> stages[i + 1].layer_lo == stages[i].layer_hi + 1
        },
    decreases stages.len(),
{
    if stages.len() > 0 {
        let rest = stages.skip(1);
        let next = stages[0].layer_hi + 1;
        lemma_tiles(rest, next, to);
        assert forall|i: int| 0 <= i < rest.len() implies #[trigger] rest[i] == stages[i + 1] by {}
        if rest.len() > 0 {
            assert(rest.last() == stages.last());
            assert(rest[0] == stages[1]);
        }
        if tiles(stages, from, to) {
            assert forall|i: int| 0 <= i < stages.len() implies (#[trigger] stages[i]).layer_lo
                <= stages[i].layer_hi by {
                if i > 0 {
                    assert(rest[i - 1].layer_lo <= rest[i - 1].layer_hi);
                }
            }
            assert forall|i: int|
                #![trigger stages[i]]
                0 <= i < stages.len() - 1 implies stages[i + 1].layer_lo == stages[i].layer_hi + 1 by {
                if i > 0 {
                    assert(rest[i - 1] == stages[i]);
                    assert(rest[(i - 1) + 1] == stages[i + 1]);
                }
            }
        }
        if {
            &&& stages[0].layer_lo == from && stages.last().layer_hi + 1 == to
            &&& forall|i: int|
                0 <= i < stages.len() ==> (#[trigger] stages[i]).layer_lo <= stages[i].layer_hi
            &&& forall|i: int|
                #![trigger stages[i]]
                0 <= i < stages.len() - 1 ==> stages[i + 1].layer_lo == stages[i].layer_hi + 1
        } {
            assert forall|i: int| 0 <= i < rest.len() implies (#[trigger] rest[i]).layer_lo
                <= rest[i].layer_hi by {
                assert(stages[i + 1].layer_lo <= stages[i + 1].layer_hi);
            }
            assert forall|i: int|
                #![trigger rest[i]]
                0 <= i < rest.len() - 1 implies rest[i + 1].layer_lo == rest[i].layer_hi + 1 by {
                assert(stages[(i + 1) + 1].layer_lo == stages[i + 1].layer_hi + 1);
                assert(rest[i + 1] == stages[(i + 1) + 1]);
            }
            assert(stages[0].layer_lo <= stages[0].layer_hi);
        }
    }
}

/// A ring is in order exactly if its first stage begins with layer 0, each other one with the layer
/// behind the last of the one before, and the last ends with the last layer; a stage does not end
/// before it begins. What is no ring is always in order.
pub proof fn lemma_contiguous_rings(placement: Placement, total_layers: u32, res: bool)
    requires
        call_ensures(Placement::pipeline_is_contiguous, (&placement, total_layers), res),
    ensures
        placement.mode == Mode::Replica ==> res,
        placement.mode == Mode::Pipeline ==> (res <==> {
            let stages = placement.stages@;
            &&& stages.len() == 0 ==> total_layers == 0
            &&& stages.len() > 0 ==> stages[0].layer_lo == 0 && stages.last().layer_hi + 1
                == total_layers
            &&& forall|i: int|
                0 <= i < stages.len() ==> (#[trigger] stages[i]).layer_lo <= stages[i].layer_hi
            &&& forall|i: int|
                #![trigger stages[i]]
                0 <= i < stages.len() - 1 ==> stages[i + 1].layer_lo == stages[i].layer_hi + 1
        }),
{
    lemma_tiles(placement.stages@, 0, total_layers as int);
}

/// A placement can be looked for wherever no split is called for, or the budgets of the fleet fit
/// together in 64 bits and there is something to split, or something to split it over.
pub proof fn lemma_what_can_be_planned(
    model: ModelEntry,
    nodes: &[NodeCap],
    opts: PlanOpts,
    res: bool,
)
    requires
        call_ensures(can_plan, (&model, nodes, &opts), res),
    ensures
        nodes@.len() == 0 ==> res,
        !opts.force_pipeline && (exists|q: int|
            0 <= q < nodes@.len() && (#[trigger] nodes@[q]).budget_mb >= model.weight_mb) ==> res,
        0 < total_budget(nodes@) <= u64::MAX ==> res,
        total_budget(nodes@) > u64::MAX && (opts.force_pipeline || (forall|q: int|
            0 <= q < nodes@.len() ==> (#[trigger] nodes@[q]).budget_mb < model.weight_mb)) ==> !res,
{
    let keep = |n: NodeCap| model.weight_mb <= n.budget_mb;
    let fit = fitting(model.weight_mb, nodes@);
    lemma_kept_best_first(nodes@, keep);
    if fit.len() > 0 {
        assert(fit.contains(fit[0]));
        let q = choose|q: int| 0 <= q < nodes@.len() && nodes@[q] == fit[0];
        assert(nodes@[q].budget_mb >= model.weight_mb);
    }
    if exists|q: int| 0 <= q < nodes@.len() && (#[trigger] nodes@[q]).budget_mb >= model.weight_mb {
        let q = choose|q: int|
            0 <= q < nodes@.len() && (#[trigger] nodes@[q]).budget_mb >= model.weight_mb;
        assert(nodes@.contains(nodes@[q]) && keep(nodes@[q]));
        assert(fit.contains(nodes@[q]));
    }
    if nodes@.len() == 0 {
        assert(nodes@ =~= Seq::<NodeCap>::empty());
        assert(nodes@.map_values(|n: NodeCap| n.budget_mb as nat) =~= Seq::<nat>::empty());
    }
}

/// A node is ranked by its GPU, its budget and its history; why a model is not placed is told with
/// the figures that stand against it.
pub proof fn lemma_figures_are_told(
    node: NodeCap,
    key: (bool, u64, u64),
    capacity: Capacity,
    e: PlanError,
    res: String,
)
    requires
        call_ensures(NodeCap::rank_key, (&node,), key),
        call_ensures(NodeCap::capacity, (&node,), capacity),
        call_ensures(PlanError::to_string, (&e,), res),
    ensures
        key.0 == node.has_gpu,
        key.1 == node.budget_mb,
        key.2 == node.history,
        capacity.has_gpu == node.has_gpu,
        capacity.budget_mb == node.budget_mb,
        capacity.history == node.history,
        e matches PlanError::NoCandidates { model_id } ==> res@ == "no candidate nodes for model '"@
            + model_id@ + "'"@,
        e matches PlanError::FleetTooSmall { model_id, need_mb: need, fleet_mb, nodes } ==> res@
            == "model '"@ + model_id@ + "' needs ~"@ + decimal(need as nat)
            + " MB (incl. headroom) but the whole fleet only offers "@ + decimal(fleet_mb as nat)
            + " MB across "@ + decimal(nodes as nat) + " nodes; add nodes or a smaller quant"@,
{
}

} // verus!
