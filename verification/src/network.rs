//! The mathematical model of a road network: nodes, undirected weighted
//! edges, walks, and the distance between two nodes.

use vstd::prelude::*;

verus! {

/// The distance reported when no walk joins two nodes, or when every walk
/// that joins them costs at least this much.
pub const UNREACHABLE: i32 = 2_147_483_647;

/// A point of the road network. Its identifier is all that routing reads.
#[derive(Clone, Copy, Debug)]
pub struct Node {
    pub id: i32,
}

/// A road between two nodes, usable in both directions at the same cost.
#[derive(Clone, Copy, Debug)]
pub struct Edge {
    pub node_a_id: i32,
    pub node_b_id: i32,
    pub weight: u32,
}

/// One edge taken in one direction.
pub struct Step {
    pub from: i32,
    pub to: i32,
    pub weight: u32,
}

/// What a graph is to its callers: the set of its node identifiers and the
/// edges in the order in which they were added.
pub struct Network {
    pub nodes: Set<i32>,
    pub edges: Seq<Edge>,
}

impl Edge {
    /// The step goes along this edge, in either direction, at the edge's weight.
    pub open spec fn carries(self, s: Step) -> bool {
        &&& self.weight == s.weight
        &&& (self.node_a_id == s.from && self.node_b_id == s.to) || (self.node_a_id == s.to
            && self.node_b_id == s.from)
    }
}

/// Total weight of a sequence of steps.
pub open spec fn cost(w: Seq<Step>) -> int
    decreases w.len(),
{
    if w.len() == 0 {
        0
    } else {
        cost(w.drop_last()) + w.last().weight
    }
}

impl Network {
    /// The network without nodes or edges.
    pub open spec fn empty() -> Network {
        Network { nodes: Set::empty(), edges: Seq::empty() }
    }

    /// Both ends of every edge are nodes of the network.
    pub open spec fn wf(self) -> bool {
        forall|k: int|
            0 <= k < self.edges.len() ==> self.nodes.contains((#[trigger] self.edges[k]).node_a_id)
                && self.nodes.contains(self.edges[k].node_b_id)
    }

    /// Some edge of the network carries the step.
    pub open spec fn has_step(self, s: Step) -> bool {
        exists|k: int| 0 <= k < self.edges.len() && (#[trigger] self.edges[k]).carries(s)
    }

    /// `w` leads from `from` to `to` along edges of the network. The empty
    /// walk leads from a node of the network to itself.
    pub open spec fn is_walk(self, w: Seq<Step>, from: i32, to: i32) -> bool
        decreases w.len(),
    {
        if w.len() == 0 {
            from == to && self.nodes.contains(from)
        } else {
            &&& self.has_step(w.last())
            &&& w.last().to == to
            &&& self.is_walk(w.drop_last(), from, w.last().from)
        }
    }

    /// Some walk leads from `a` to `b`.
    pub open spec fn connected(self, a: i32, b: i32) -> bool {
        exists|w: Seq<Step>| #[trigger] self.is_walk(w, a, b)
    }

    /// `d` is the least cost of a walk from `a` to `b`, capped at `UNREACHABLE`:
    /// below the cap some walk costs exactly `d`, and no walk costs less than `d`.
    pub open spec fn is_distance(self, a: i32, b: i32, d: int) -> bool {
        &&& 0 <= d <= UNREACHABLE
        &&& d < UNREACHABLE ==> exists|w: Seq<Step>| #[trigger] self.is_walk(w, a, b) && cost(w) == d
        &&& forall|w: Seq<Step>| #[trigger] self.is_walk(w, a, b) ==> cost(w) >= d
    }

    /// The distance from `a` to `b`: the one value that `is_distance` admits.
    pub open spec fn distance(self, a: i32, b: i32) -> int {
        choose|d: int| self.is_distance(a, b, d)
    }

    /// The same roads as `self`, none of them cheaper: same nodes, and edge by
    /// edge the same ends and a weight that is at least as large.
    pub open spec fn no_cheaper_than(self, base: Network) -> bool {
        &&& self.nodes == base.nodes
        &&& self.edges.len() == base.edges.len()
        &&& forall|k: int|
            0 <= k < self.edges.len() ==> {
                &&& (#[trigger] self.edges[k]).node_a_id == base.edges[k].node_a_id
                &&& self.edges[k].node_b_id == base.edges[k].node_b_id
                &&& self.edges[k].weight >= base.edges[k].weight
            }
    }
}

/// No sequence of steps has a negative cost.
pub proof fn lemma_cost_nonnegative(w: Seq<Step>)
    ensures
        cost(w) >= 0,
    decreases w.len(),
{
    if w.len() > 0 {
        lemma_cost_nonnegative(w.drop_last());
    }
}

/// Appending a step of the network to a walk gives a walk to the step's end,
/// at the walk's cost plus the step's weight.
pub proof fn lemma_extend_walk(net: Network, w: Seq<Step>, from: i32, s: Step)
    requires
        net.is_walk(w, from, s.from),
        net.has_step(s),
    ensures
        net.is_walk(w.push(s), from, s.to),
        cost(w.push(s)) == cost(w) + s.weight,
{
    assert(w.push(s).drop_last() =~= w);
}

/// A step of a network is a step of every network that has the same edges
/// and possibly more after them.
pub proof fn lemma_step_kept(net: Network, larger: Network, s: Step)
    requires
        net.has_step(s),
        net.edges.len() <= larger.edges.len(),
        forall|k: int| 0 <= k < net.edges.len() ==> #[trigger] larger.edges[k] == net.edges[k],
    ensures
        larger.has_step(s),
{
    let k = choose|k: int| 0 <= k < net.edges.len() && (#[trigger] net.edges[k]).carries(s);
    assert(larger.edges[k].carries(s));
}

/// A walk starts at a node of the network; in a well-formed network it also
/// ends at one.
pub proof fn lemma_walk_ends_are_nodes(net: Network, w: Seq<Step>, from: i32, to: i32)
    requires
        net.is_walk(w, from, to),
    ensures
        net.nodes.contains(from),
        net.wf() ==> net.nodes.contains(to),
    decreases w.len(),
{
    if w.len() > 0 {
        lemma_walk_ends_are_nodes(net, w.drop_last(), from, w.last().from);
        let k = choose|k: int| 0 <= k < net.edges.len() && (#[trigger] net.edges[k]).carries(w.last());
        assert(net.edges[k].carries(w.last()));
    }
}

/// Among the walks from `a` to `b` of cost at most `bound`, if there is one,
/// some walk has the least cost of all walks from `a` to `b`.
proof fn lemma_least_cost(net: Network, a: i32, b: i32, bound: int) -> (d: int)
    requires
        exists|w: Seq<Step>| #[trigger] net.is_walk(w, a, b) && cost(w) <= bound,
    ensures
        0 <= d <= bound,
        exists|w: Seq<Step>| #[trigger] net.is_walk(w, a, b) && cost(w) == d,
        forall|w: Seq<Step>| #[trigger] net.is_walk(w, a, b) ==> cost(w) >= d,
    decreases bound,
{
    let w0 = choose|w: Seq<Step>| #[trigger] net.is_walk(w, a, b) && cost(w) <= bound;
    lemma_cost_nonnegative(w0);
    if exists|w: Seq<Step>| #[trigger] net.is_walk(w, a, b) && cost(w) <= bound - 1 {
        let w1 = choose|w: Seq<Step>| #[trigger] net.is_walk(w, a, b) && cost(w) <= bound - 1;
        lemma_cost_nonnegative(w1);
        lemma_least_cost(net, a, b, bound - 1)
    } else {
        assert(net.is_walk(w0, a, b) && cost(w0) == bound);
        bound
    }
}

/// At most one value is the distance between two nodes.
pub proof fn lemma_distance_unique(net: Network, a: i32, b: i32, d1: int, d2: int)
    requires
        net.is_distance(a, b, d1),
        net.is_distance(a, b, d2),
    ensures
        d1 == d2,
{
    if d1 < d2 {
        let w = choose|w: Seq<Step>| #[trigger] net.is_walk(w, a, b) && cost(w) == d1;
        assert(net.is_walk(w, a, b));
    } else if d2 < d1 {
        let w = choose|w: Seq<Step>| #[trigger] net.is_walk(w, a, b) && cost(w) == d2;
        assert(net.is_walk(w, a, b));
    }
}

/// Every pair of nodes has a distance, and `distance` is that value.
pub proof fn lemma_distance_exists(net: Network, a: i32, b: i32)
    ensures
        net.is_distance(a, b, net.distance(a, b)),
{
    if exists|w: Seq<Step>| #[trigger] net.is_walk(w, a, b) && cost(w) <= UNREACHABLE - 1 {
        let d = lemma_least_cost(net, a, b, UNREACHABLE - 1);
        assert(net.is_distance(a, b, d));
    } else {
        assert(net.is_distance(a, b, UNREACHABLE as int));
    }
}

/// A value that meets `is_distance` is the distance.
pub proof fn lemma_distance_is(net: Network, a: i32, b: i32, d: int)
    requires
        net.is_distance(a, b, d),
    ensures
        net.distance(a, b) == d,
{
    lemma_distance_exists(net, a, b);
    lemma_distance_unique(net, a, b, d, net.distance(a, b));
}

/// The distance from a node of the network to itself is zero.
pub proof fn distance_to_self_is_zero(net: Network, x: i32)
    requires
        net.nodes.contains(x),
    ensures
        net.distance(x, x) == 0,
{
    let w = Seq::<Step>::empty();
    assert(net.is_walk(w, x, x) && cost(w) == 0);
    assert forall|v: Seq<Step>| #[trigger] net.is_walk(v, x, x) implies cost(v) >= 0 by {
        lemma_cost_nonnegative(v);
    }
    lemma_distance_is(net, x, x, 0);
}

/// A distance is never negative and never above `UNREACHABLE`. Between two
/// nodes that no walk joins it is `UNREACHABLE`; so it is when either of
/// them is not a node of the network.
pub proof fn distance_of_disconnected_is_unreachable(net: Network, a: i32, b: i32)
    ensures
        0 <= net.distance(a, b) <= UNREACHABLE,
        !net.connected(a, b) ==> net.distance(a, b) == UNREACHABLE,
        !net.nodes.contains(a) ==> net.distance(a, b) == UNREACHABLE,
        net.wf() && !net.nodes.contains(b) ==> net.distance(a, b) == UNREACHABLE,
{
    lemma_distance_exists(net, a, b);
    let d = net.distance(a, b);
    if d < UNREACHABLE {
        let w = choose|w: Seq<Step>| #[trigger] net.is_walk(w, a, b) && cost(w) == d;
        assert(net.connected(a, b));
        lemma_walk_ends_are_nodes(net, w, a, b);
    }
}

/// Putting a step of the network before a walk that starts where the step
/// ends gives a walk from the step's start, at the step's weight plus the
/// walk's cost.
proof fn lemma_prepend_step(net: Network, s: Step, w: Seq<Step>, to: i32)
    requires
        net.has_step(s),
        net.nodes.contains(s.from),
        net.is_walk(w, s.to, to),
    ensures
        net.is_walk(seq![s] + w, s.from, to),
        cost(seq![s] + w) == s.weight + cost(w),
    decreases w.len(),
{
    let whole = seq![s] + w;
    if w.len() == 0 {
        assert(whole.drop_last() =~= Seq::<Step>::empty());
        assert(net.is_walk(whole.drop_last(), s.from, s.from));
        assert(cost(whole.drop_last()) == 0);
    } else {
        assert(whole.drop_last() =~= seq![s] + w.drop_last());
        lemma_prepend_step(net, s, w.drop_last(), w.last().from);
    }
}

/// Roads carry traffic both ways: a walk taken backwards is a walk of the
/// same cost.
proof fn lemma_walk_back(net: Network, w: Seq<Step>, a: i32, b: i32) -> (back: Seq<Step>)
    requires
        net.wf(),
        net.is_walk(w, a, b),
    ensures
        net.is_walk(back, b, a),
        cost(back) == cost(w),
    decreases w.len(),
{
    if w.len() == 0 {
        w
    } else {
        let last = w.last();
        let k = choose|k: int| 0 <= k < net.edges.len() && (#[trigger] net.edges[k]).carries(last);
        let turned = Step { from: last.to, to: last.from, weight: last.weight };
        assert(net.edges[k].carries(turned));
        lemma_walk_ends_are_nodes(net, w, a, b);
        let rest = lemma_walk_back(net, w.drop_last(), a, last.from);
        lemma_prepend_step(net, turned, rest, a);
        seq![turned] + rest
    }
}

/// Distances do not depend on the direction: in a well-formed network it is
/// as far from `a` to `b` as from `b` to `a`.
pub proof fn distance_is_symmetric(net: Network, a: i32, b: i32)
    requires
        net.wf(),
    ensures
        net.distance(a, b) == net.distance(b, a),
{
    lemma_distance_exists(net, a, b);
    let d = net.distance(a, b);
    if d < UNREACHABLE {
        let w = choose|w: Seq<Step>| #[trigger] net.is_walk(w, a, b) && cost(w) == d;
        let back = lemma_walk_back(net, w, a, b);
        assert(net.is_walk(back, b, a) && cost(back) == d);
    }
    assert forall|v: Seq<Step>| #[trigger] net.is_walk(v, b, a) implies cost(v) >= d by {
        let forth = lemma_walk_back(net, v, b, a);
        assert(net.is_walk(forth, a, b));
    }
    lemma_distance_is(net, b, a, d);
}

/// A walk in a network whose roads are no cheaper than those of `base` has a
/// counterpart in `base` between the same nodes that costs no more.
proof fn lemma_cheaper_walk(net: Network, base: Network, w: Seq<Step>, a: i32, b: i32) -> (v: Seq<
    Step,
>)
    requires
        net.no_cheaper_than(base),
        net.is_walk(w, a, b),
    ensures
        base.is_walk(v, a, b),
        cost(v) <= cost(w),
    decreases w.len(),
{
    if w.len() == 0 {
        w
    } else {
        let s = w.last();
        let k = choose|k: int| 0 <= k < net.edges.len() && (#[trigger] net.edges[k]).carries(s);
        let t = Step { from: s.from, to: s.to, weight: base.edges[k].weight };
        assert(net.edges[k].weight >= base.edges[k].weight);
        assert(base.edges[k].carries(t));
        let head = lemma_cheaper_walk(net, base, w.drop_last(), a, s.from);
        lemma_extend_walk(base, head, a, t);
        head.push(t)
    }
}

/// Raising edge weights never lowers a distance: if `net` has the roads of
/// `base`, none of them cheaper, every distance in `net` is at least the
/// distance in `base`.
pub proof fn distance_monotone_in_weights(net: Network, base: Network, a: i32, b: i32)
    requires
        net.no_cheaper_than(base),
    ensures
        net.distance(a, b) >= base.distance(a, b),
{
    lemma_distance_exists(net, a, b);
    lemma_distance_exists(base, a, b);
    let d = net.distance(a, b);
    if d < UNREACHABLE {
        let w = choose|w: Seq<Step>| #[trigger] net.is_walk(w, a, b) && cost(w) == d;
        let v = lemma_cheaper_walk(net, base, w, a, b);
        assert(base.is_walk(v, a, b));
    }
}

} // verus!
