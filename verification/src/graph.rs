//! The in-memory road graph of one area and the shortest-path search on it.

use crate::network::{
    cost, distance_of_disconnected_is_unreachable, distance_to_self_is_zero, lemma_distance_is,
    lemma_extend_walk, lemma_step_kept, Edge, Network, Node, Step, UNREACHABLE,
};
use crate::queue::{Entry, MinQueue};
use std::collections::HashMap;
use vstd::multiset::Multiset;
use vstd::prelude::*;

verus! {

broadcast use vstd::std_specs::hash::group_hash_axioms;

/// An edge as one of its ends sees it: the position of the other end, and the weight.
#[derive(Clone, Copy)]
struct Arc {
    to: usize,
    weight: u32,
}

/// A search in progress, as its proof reads it: the tentative distance of
/// each position, which positions are settled, a walk that realises each
/// finite distance, and what the queue holds.
struct Search {
    dist: Seq<i32>,
    done: Seq<bool>,
    walks: Seq<Seq<Step>>,
    queue: Multiset<Entry>,
}

spec fn search_of(
    dist: Seq<i32>,
    done: Seq<bool>,
    walks: Seq<Seq<Step>>,
    queue: Multiset<Entry>,
) -> Search {
    Search { dist, done, walks, queue }
}

/// How many positions are not settled yet.
spec fn pending(done: Seq<bool>) -> nat
    decreases done.len(),
{
    if done.len() == 0 {
        0
    } else {
        pending(done.drop_last()) + if done.last() {
            0nat
        } else {
            1nat
        }
    }
}

/// Settling one position leaves one fewer pending.
proof fn lemma_pending_settle(done: Seq<bool>, u: int)
    requires
        0 <= u < done.len(),
        !done[u],
    ensures
        pending(done.update(u, true)) + 1 == pending(done),
    decreases done.len(),
{
    if u == done.len() - 1 {
        assert(done.update(u, true).drop_last() =~= done.drop_last());
    } else {
        assert(done.update(u, true).drop_last() =~= done.drop_last().update(u, true));
        lemma_pending_settle(done.drop_last(), u);
    }
}

/// A weighted undirected graph. Nodes are kept in the order in which they
/// first appeared; each has the list of arcs that leave it, filled as edges
/// are added, so that a search never has to scan the edges.
pub struct Graph {
    ids: Vec<i32>,
    index: HashMap<i32, usize>,
    adjacency: Vec<Vec<Arc>>,
    edges: Ghost<Seq<Edge>>,
}

impl View for Graph {
    type V = Network;

    closed spec fn view(&self) -> Network {
        Network { nodes: self.index@.dom(), edges: self.edges@ }
    }
}

impl Graph {
    /// Some arc from position `u` leads to position `v` at this weight.
    spec fn has_arc(&self, u: int, v: int, weight: u32) -> bool {
        exists|j: int|
            #![trigger self.adjacency@[u]@[j]]
            0 <= j < self.adjacency@[u]@.len() && self.adjacency@[u]@[j].to == v
                && self.adjacency@[u]@[j].weight == weight
    }

    /// An arc stays when the arc list it stands in only grows at its end.
    proof fn lemma_arc_kept(&self, later: &Graph, u: int, v: int, weight: u32)
        requires
            self.has_arc(u, v, weight),
            self.adjacency@[u]@.len() <= later.adjacency@[u]@.len(),
            forall|j: int|
                0 <= j < self.adjacency@[u]@.len() ==> #[trigger] later.adjacency@[u]@[j]
                    == self.adjacency@[u]@[j],
        ensures
            later.has_arc(u, v, weight),
    {
        let j = choose|j: int|
            #![trigger self.adjacency@[u]@[j]]
            0 <= j < self.adjacency@[u]@.len() && self.adjacency@[u]@[j].to == v
                && self.adjacency@[u]@[j].weight == weight;
        assert(later.adjacency@[u]@[j] == self.adjacency@[u]@[j]);
    }

    /// The `j`-th arc of position `u` points at a node and stands for an edge.
    spec fn arc_sound(&self, u: int, j: int) -> bool {
        let arc = self.adjacency@[u]@[j];
        &&& arc.to < self.ids@.len()
        &&& self@.has_step(
            Step { from: self.ids@[u], to: self.ids@[arc.to as int], weight: arc.weight },
        )
    }

    /// The `k`-th edge has both ends indexed and an arc in each direction.
    spec fn edge_present(&self, k: int) -> bool {
        let e = self.edges@[k];
        &&& self.index@.contains_key(e.node_a_id)
        &&& self.index@.contains_key(e.node_b_id)
        &&& self.has_arc(
            self.index@[e.node_a_id] as int,
            self.index@[e.node_b_id] as int,
            e.weight,
        )
        &&& self.has_arc(
            self.index@[e.node_b_id] as int,
            self.index@[e.node_a_id] as int,
            e.weight,
        )
    }

    /// The index and the node list are inverse to each other.
    spec fn index_agrees(&self) -> bool {
        &&& self.adjacency@.len() == self.ids@.len()
        &&& forall|id: i32| #[trigger]
            self.index@.contains_key(id) ==> self.index@[id] < self.ids@.len()
                && self.ids@[self.index@[id] as int] == id
        &&& forall|i: int|
            0 <= i < self.ids@.len() ==> self.index@.contains_key(#[trigger] self.ids@[i])
                && self.index@[self.ids@[i]] == i
    }

    /// What every operation keeps: the index matches the node list, and the
    /// arc lists hold exactly the edges, each in both directions.
    pub closed spec fn wf(&self) -> bool {
        &&& self.index_agrees()
        &&& forall|u: int, j: int|
            0 <= u < self.adjacency@.len() && 0 <= j < self.adjacency@[u]@.len()
                ==> #[trigger] self.arc_sound(u, j)
        &&& forall|k: int| 0 <= k < self.edges@.len() ==> #[trigger] self.edge_present(k)
    }

    /// In a well-formed graph both ends of every edge are nodes.
    pub proof fn lemma_view_wf(&self)
        requires
            self.wf(),
        ensures
            self@.wf(),
    {
        assert forall|k: int| 0 <= k < self@.edges.len() implies self@.nodes.contains(
            (#[trigger] self@.edges[k]).node_a_id,
        ) && self@.nodes.contains(self@.edges[k].node_b_id) by {
            assert(self.edge_present(k));
        }
    }

    /// A graph without nodes or edges.
    pub fn new() -> (g: Self)
        ensures
            g.wf(),
            g@ == Network::empty(),
    {
        let g = Graph {
            ids: Vec::new(),
            index: HashMap::new(),
            adjacency: Vec::new(),
            edges: Ghost(Seq::empty()),
        };
        assert(g@.nodes =~= Set::<i32>::empty());
        g
    }

    /// Position of a node, if the graph has it.
    fn position(&self, id: i32) -> (r: Option<usize>)
        requires
            self.wf(),
        ensures
            match r {
                Some(i) => self.index@.contains_key(id) && self.index@[id] == i && i
                    < self.ids@.len(),
                None => !self.index@.contains_key(id),
            },
    {
        match self.index.get(&id) {
            Some(i) => Some(*i),
            None => None,
        }
    }

    /// Whether the graph has a node with this identifier.
    pub fn contains_node(&self, id: i32) -> (b: bool)
        requires
            self.wf(),
        ensures
            b == self@.nodes.contains(id),
    {
        self.position(id).is_some()
    }

    /// Makes sure that a node with this identifier exists; gives its position.
    fn ensure(&mut self, id: i32) -> (i: usize)
        requires
            old(self).wf(),
        ensures
            final(self).wf(),
            final(self).index@ == old(self).index@.insert(id, i),
            final(self).edges@ == old(self).edges@,
            i < final(self).ids@.len(),
            old(self).ids@.len() <= final(self).ids@.len(),
            forall|u: int|
                0 <= u < old(self).adjacency@.len() ==> final(self).adjacency@[u]
                    == #[trigger] old(self).adjacency@[u],
            forall|u: int|
                old(self).adjacency@.len() <= u < final(self).adjacency@.len() ==> (
                #[trigger] final(self).adjacency@[u])@.len() == 0,
    {
        match self.position(id) {
            Some(i) => {
                assert(self.index@ =~= old(self).index@.insert(id, i));
                i
            },
            None => {
                let i = self.ids.len();
                self.index.insert(id, i);
                self.ids.push(id);
                self.adjacency.push(Vec::new());
                proof {
                    assert(self.index_agrees());
                    assert forall|u: int, j: int|
                        0 <= u < self.adjacency@.len() && 0 <= j
                            < self.adjacency@[u]@.len() implies #[trigger] self.arc_sound(u, j) by {
                        assert(u < old(self).adjacency@.len());
                        assert(self.adjacency@[u] == old(self).adjacency@[u]);
                        assert(old(self).arc_sound(u, j));
                        let arc = self.adjacency@[u]@[j];
                        lemma_step_kept(
                            old(self)@,
                            self@,
                            Step {
                                from: self.ids@[u],
                                to: self.ids@[arc.to as int],
                                weight: arc.weight,
                            },
                        );
                    }
                    assert forall|k: int| 0 <= k < self.edges@.len() implies #[trigger]
                        self.edge_present(k) by {
                        assert(old(self).edge_present(k));
                        let e = self.edges@[k];
                        let x = old(self).index@[e.node_a_id] as int;
                        let y = old(self).index@[e.node_b_id] as int;
                        assert(self.adjacency@[x] == old(self).adjacency@[x]);
                        assert(self.adjacency@[y] == old(self).adjacency@[y]);
                        old(self).lemma_arc_kept(self, x, y, e.weight);
                        old(self).lemma_arc_kept(self, y, x, e.weight);
                    }
                }
                i
            },
        }
    }

    /// Adds a node. Adding an identifier that the graph already has changes nothing.
    pub fn add_node(&mut self, node: Node)
        requires
            old(self).wf(),
        ensures
            final(self).wf(),
            final(self)@.nodes == old(self)@.nodes.insert(node.id),
            final(self)@.edges == old(self)@.edges,
    {
        let _ = self.ensure(node.id);
        assert(self@.nodes =~= old(self)@.nodes.insert(node.id));
    }

    /// Adds an edge, usable in both directions. An end that the graph does
    /// not have yet becomes a node. Several edges may join the same two nodes.
    pub fn add_edge(&mut self, edge: Edge)
        requires
            old(self).wf(),
        ensures
            final(self).wf(),
            final(self)@.nodes == old(self)@.nodes.insert(edge.node_a_id).insert(edge.node_b_id),
            final(self)@.edges == old(self)@.edges.push(edge),
    {
        let ghost start = *self;
        let _ = self.ensure(edge.node_a_id);
        let b = self.ensure(edge.node_b_id);
        let a = match self.position(edge.node_a_id) {
            Some(a) => a,
            None => b,
        };
        let toward = Arc { to: b, weight: edge.weight };
        let back = Arc { to: a, weight: edge.weight };
        let ghost before = *self;
        let ghost extended = self.edges@.push(edge);
        self.adjacency[a].push(toward);
        let ghost between = *self;
        self.adjacency[b].push(back);
        self.edges = Ghost(extended);
        proof {
            let last = before.edges@.len() as int;
            let n = before.ids@.len() as int;
            assert(self@.nodes =~= start@.nodes.insert(edge.node_a_id).insert(edge.node_b_id));
            assert(before.ids@[a as int] == edge.node_a_id);
            assert(before.index@.contains_key(edge.node_b_id) && before.index@[edge.node_b_id] == b);
            assert(before.ids@[b as int] == edge.node_b_id);
            assert(between.adjacency@[a as int]@ == before.adjacency@[a as int]@.push(toward));
            assert(self.adjacency@[b as int]@ == between.adjacency@[b as int]@.push(back));
            assert forall|u: int| 0 <= u < n && u != a implies between.adjacency@[u]
                == before.adjacency@[u] by {}
            assert forall|u: int| 0 <= u < n && u != b implies self.adjacency@[u]
                == between.adjacency@[u] by {}
            assert(self.index_agrees());
            assert(self@.edges[last] == edge);
            assert forall|u: int, j: int|
                0 <= u < self.adjacency@.len() && 0 <= j
                    < self.adjacency@[u]@.len() implies #[trigger] self.arc_sound(u, j) by {
                let arc = self.adjacency@[u]@[j];
                let s = Step { from: self.ids@[u], to: self.ids@[arc.to as int], weight: arc.weight };
                if j < before.adjacency@[u]@.len() {
                    assert(arc == before.adjacency@[u]@[j]);
                    assert(before.arc_sound(u, j));
                    lemma_step_kept(before@, self@, s);
                } else {
                    assert(u == a || u == b);
                    assert(arc == toward || arc == back);
                    assert(self@.edges[last].carries(s));
                }
            }
            assert forall|k: int| 0 <= k < self.edges@.len() implies #[trigger] self.edge_present(
                k,
            ) by {
                if k < last {
                    assert(before.edge_present(k));
                    let e = before.edges@[k];
                    let x = before.index@[e.node_a_id] as int;
                    let y = before.index@[e.node_b_id] as int;
                    before.lemma_arc_kept(self, x, y, e.weight);
                    before.lemma_arc_kept(self, y, x, e.weight);
                } else {
                    let i = self.adjacency@[a as int]@.len() - 1;
                    let j = self.adjacency@[b as int]@.len() - 1;
                    if a == b {
                        assert(self.adjacency@[a as int]@[i] == back);
                    } else {
                        assert(self.adjacency@[a as int]@[i] == toward);
                        assert(self.adjacency@[b as int]@[j] == back);
                    }
                }
            }
        }
    }
}

impl Graph {
    /// The first `upto` arcs of position `u` cannot improve the distance of their targets.
    spec fn respects(&self, dist: Seq<i32>, u: int, upto: int) -> bool {
        forall|j: int|
            0 <= j < upto ==> dist[(#[trigger] self.adjacency@[u]@[j]).to as int] <= dist[u]
                + self.adjacency@[u]@[j].weight
    }

    /// What holds of a search at every moment.
    spec fn search_base(&self, src: int, s: Search) -> bool {
        let n = self.ids@.len();
        &&& 0 <= src < n <= usize::MAX
        &&& s.dist.len() == n
        &&& s.done.len() == n
        &&& s.walks.len() == n
        &&& s.dist[src] == 0
        &&& forall|v: int| 0 <= v < n ==> 0 <= #[trigger] s.dist[v]
        &&& forall|v: int|
            0 <= v < n && (#[trigger] s.dist[v]) < UNREACHABLE ==> self@.is_walk(
                s.walks[v],
                self.ids@[src],
                self.ids@[v],
            ) && cost(s.walks[v]) == s.dist[v]
        &&& forall|v: int| 0 <= v < n && #[trigger] s.done[v] ==> s.dist[v] < UNREACHABLE
        &&& forall|u: int, v: int|
            #![trigger s.done[u], s.done[v]]
            0 <= u < n && 0 <= v < n && s.done[u] && !s.done[v] ==> s.dist[u] <= s.dist[v]
        &&& forall|v: int|
            0 <= v < n && !(#[trigger] s.done[v]) && s.dist[v] < UNREACHABLE ==> s.queue.count(
                Entry { key: s.dist[v], node: v as usize },
            ) > 0
        &&& forall|e: Entry| #[trigger]
            s.queue.count(e) > 0 ==> e.node < n && s.dist[e.node as int] <= e.key < UNREACHABLE
    }

    /// Between two settlings: every arc of a settled position is respected.
    spec fn search_inv(&self, src: int, s: Search) -> bool {
        &&& self.search_base(src, s)
        &&& forall|x: int|
            0 <= x < self.ids@.len() && #[trigger] s.done[x] ==> self.respects(
                s.dist,
                x,
                self.adjacency@[x]@.len() as int,
            )
    }

    /// While the arcs of the newly settled position `u` are tried: the first
    /// `upto` of them are respected, and no settled position is farther than `u`.
    spec fn relax_inv(&self, src: int, s: Search, u: int, upto: int) -> bool {
        let n = self.ids@.len();
        &&& self.search_base(src, s)
        &&& 0 <= u < n
        &&& s.done[u]
        &&& 0 <= upto <= self.adjacency@[u]@.len()
        &&& forall|x: int|
            0 <= x < n && x != u && #[trigger] s.done[x] ==> self.respects(
                s.dist,
                x,
                self.adjacency@[x]@.len() as int,
            )
        &&& self.respects(s.dist, u, upto)
        &&& forall|v: int| 0 <= v < n && #[trigger] s.done[v] ==> s.dist[v] <= s.dist[u]
    }

    /// The state in which a search starts.
    proof fn lemma_search_start(&self, src: int, s: Search)
        requires
            self.wf(),
            0 <= src < self.ids@.len() <= usize::MAX,
            s.dist == Seq::new(self.ids@.len(), |i: int| UNREACHABLE).update(src, 0i32),
            s.done == Seq::new(self.ids@.len(), |i: int| false),
            s.walks == Seq::new(self.ids@.len(), |i: int| Seq::<Step>::empty()),
            s.queue == Multiset::<Entry>::empty().insert(Entry { key: 0, node: src as usize }),
        ensures
            self.search_inv(src, s),
    {
        broadcast use vstd::multiset::group_multiset_axioms;

        assert(self.index@.contains_key(self.ids@[src]));
        assert(self@.is_walk(s.walks[src], self.ids@[src], self.ids@[src]));
    }

    /// An entry for a settled position can be dropped.
    proof fn lemma_discard_stale(&self, src: int, s: Search, e: Entry)
        requires
            self.search_inv(src, s),
            s.queue.count(e) > 0,
            s.done[e.node as int],
        ensures
            self.search_inv(src, search_of(s.dist, s.done, s.walks, s.queue.remove(e))),
    {
        broadcast use vstd::multiset::group_multiset_axioms;

    }

    /// The least entry, if its position is not settled, carries that
    /// position's tentative distance, and the position can be settled.
    proof fn lemma_settle(&self, src: int, s: Search, e: Entry)
        requires
            self.search_inv(src, s),
            s.queue.count(e) > 0,
            forall|x: Entry| s.queue.count(x) > 0 ==> e.key <= x.key,
            !s.done[e.node as int],
        ensures
            s.dist[e.node as int] == e.key,
            self.relax_inv(
                src,
                search_of(s.dist, s.done.update(e.node as int, true), s.walks, s.queue.remove(e)),
                e.node as int,
                0,
            ),
    {
        broadcast use vstd::multiset::group_multiset_axioms;

        let n = self.ids@.len();
        let u = e.node as int;
        let t = search_of(s.dist, s.done.update(u, true), s.walks, s.queue.remove(e));
        assert(s.dist[u] <= e.key < UNREACHABLE);
        assert(s.queue.count(Entry { key: s.dist[u], node: u as usize }) > 0);
        assert(s.dist[u] == e.key);
        assert forall|v: int| 0 <= v < n && !s.done[v] implies e.key <= #[trigger] s.dist[v] by {
            if s.dist[v] < UNREACHABLE {
                assert(s.queue.count(Entry { key: s.dist[v], node: v as usize }) > 0);
            }
        }
        assert forall|a: int, b: int|
            #![trigger t.done[a], t.done[b]]
            0 <= a < n && 0 <= b < n && t.done[a] && !t.done[b] implies t.dist[a]
            <= t.dist[b] by {
            assert(!s.done[b]);
            if a != u {
                assert(s.done[a]);
            }
        }
        assert forall|v: int|
            0 <= v < n && !(#[trigger] t.done[v]) && t.dist[v] < UNREACHABLE implies t.queue.count(
            Entry { key: t.dist[v], node: v as usize },
        ) > 0 by {
            assert(!s.done[v]);
        }
        assert forall|v: int| 0 <= v < n && #[trigger] t.done[v] implies t.dist[v]
            <= t.dist[u] by {
            if v != u {
                assert(s.done[v] && !s.done[u]);
            }
        }
        assert forall|x: int| 0 <= x < n && x != u && #[trigger] t.done[x] implies self.respects(
            t.dist,
            x,
            self.adjacency@[x]@.len() as int,
        ) by {
            assert(s.done[x]);
        }
        assert(self.search_base(src, t));
    }

    /// An arc of the settled position `u` that shortens the way to its
    /// target: the target takes the new distance, a walk through `u`, and a
    /// place in the queue.
    proof fn lemma_relax_improve(&self, src: int, s: Search, u: int, j: int)
        requires
            self.wf(),
            self.relax_inv(src, s, u, j),
            j < self.adjacency@[u]@.len(),
            s.dist[u] + self.adjacency@[u]@[j].weight < s.dist[self.adjacency@[u]@[j].to as int],
        ensures
            self.relax_inv(
                src,
                search_of(
                    s.dist.update(
                        self.adjacency@[u]@[j].to as int,
                        (s.dist[u] + self.adjacency@[u]@[j].weight) as i32,
                    ),
                    s.done,
                    s.walks.update(
                        self.adjacency@[u]@[j].to as int,
                        s.walks[u].push(
                            Step {
                                from: self.ids@[u],
                                to: self.ids@[self.adjacency@[u]@[j].to as int],
                                weight: self.adjacency@[u]@[j].weight,
                            },
                        ),
                    ),
                    s.queue.insert(
                        Entry {
                            key: (s.dist[u] + self.adjacency@[u]@[j].weight) as i32,
                            node: self.adjacency@[u]@[j].to,
                        },
                    ),
                ),
                u,
                j + 1,
            ),
    {
        broadcast use vstd::multiset::group_multiset_axioms;

        let n = self.ids@.len();
        let arc = self.adjacency@[u]@[j];
        let v = arc.to as int;
        let nd = (s.dist[u] + arc.weight) as i32;
        let step = Step { from: self.ids@[u], to: self.ids@[v], weight: arc.weight };
        let entry = Entry { key: nd, node: arc.to };
        let t = search_of(
            s.dist.update(v, nd),
            s.done,
            s.walks.update(v, s.walks[u].push(step)),
            s.queue.insert(entry),
        );
        assert(self.arc_sound(u, j));
        assert(nd == s.dist[u] + arc.weight);
        assert(!s.done[v]);
        lemma_extend_walk(self@, s.walks[u], self.ids@[src], step);
        assert forall|x: int| 0 <= x < n && (#[trigger] t.dist[x]) < UNREACHABLE implies self@.is_walk(
            t.walks[x],
            self.ids@[src],
            self.ids@[x],
        ) && cost(t.walks[x]) == t.dist[x] by {
            if x != v {
                assert(s.dist[x] < UNREACHABLE);
            }
        }
        assert forall|a: int, b: int|
            #![trigger t.done[a], t.done[b]]
            0 <= a < n && 0 <= b < n && t.done[a] && !t.done[b] implies t.dist[a]
            <= t.dist[b] by {
            assert(s.done[a] && !s.done[b]);
            assert(s.dist[a] <= s.dist[u]);
        }
        assert forall|x: int|
            0 <= x < n && !(#[trigger] t.done[x]) && t.dist[x] < UNREACHABLE implies t.queue.count(
            Entry { key: t.dist[x], node: x as usize },
        ) > 0 by {
            if x != v {
                assert(!s.done[x] && s.dist[x] < UNREACHABLE);
            }
        }
        assert forall|e: Entry| #[trigger] t.queue.count(e) > 0 implies e.node < n && t.dist[e.node as int]
            <= e.key < UNREACHABLE by {
            if e != entry {
                assert(s.queue.count(e) > 0);
            }
        }
        assert(self.search_base(src, t));
        assert forall|x: int| 0 <= x < n && x != u && #[trigger] t.done[x] implies self.respects(
            t.dist,
            x,
            self.adjacency@[x]@.len() as int,
        ) by {
            assert(s.done[x]);
            assert(self.respects(s.dist, x, self.adjacency@[x]@.len() as int));
            assert forall|i: int| 0 <= i < self.adjacency@[x]@.len() implies t.dist[(
            #[trigger] self.adjacency@[x]@[i]).to as int] <= t.dist[x]
                + self.adjacency@[x]@[i].weight by {
                assert(self.arc_sound(x, i));
            }
        }
        assert forall|i: int| 0 <= i < j + 1 implies t.dist[(#[trigger] self.adjacency@[u]@[i]).to as int]
            <= t.dist[u] + self.adjacency@[u]@[i].weight by {
            assert(self.arc_sound(u, i));
        }
    }

    /// An arc of the settled position `u` that shortens nothing.
    proof fn lemma_relax_keep(&self, src: int, s: Search, u: int, j: int)
        requires
            self.relax_inv(src, s, u, j),
            j < self.adjacency@[u]@.len(),
            s.dist[u] + self.adjacency@[u]@[j].weight >= s.dist[self.adjacency@[u]@[j].to as int],
        ensures
            self.relax_inv(src, s, u, j + 1),
    {
    }

    /// Once the queue is empty no walk beats a tentative distance.
    proof fn lemma_lower_bound(&self, src: int, s: Search, v: int, w: Seq<Step>)
        requires
            self.wf(),
            self.search_inv(src, s),
            s.queue.len() == 0,
            0 <= v < self.ids@.len(),
            self@.is_walk(w, self.ids@[src], self.ids@[v]),
        ensures
            cost(w) >= s.dist[v],
        decreases w.len(),
    {
        broadcast use vstd::multiset::group_multiset_axioms;

        if w.len() == 0 {
            assert(self.index@[self.ids@[src]] == src);
            assert(self.index@[self.ids@[v]] == v);
        } else {
            let last = w.last();
            let k = choose|k: int|
                0 <= k < self@.edges.len() && (#[trigger] self@.edges[k]).carries(last);
            assert(self.edge_present(k));
            assert(self.index@.contains_key(last.from));
            assert(self.index@.contains_key(last.to));
            let u = self.index@[last.from] as int;
            assert(self.index@[self.ids@[v]] == v);
            assert(self.has_arc(u, v, last.weight));
            let j = choose|j: int|
                #![trigger self.adjacency@[u]@[j]]
                0 <= j < self.adjacency@[u]@.len() && self.adjacency@[u]@[j].to == v
                    && self.adjacency@[u]@[j].weight == last.weight;
            self.lemma_lower_bound(src, s, u, w.drop_last());
            if s.dist[u] < UNREACHABLE {
                if !s.done[u] {
                    assert(s.queue.count(Entry { key: s.dist[u], node: u as usize }) > 0);
                }
                assert(s.done[u]);
                assert(self.respects(s.dist, u, self.adjacency@[u]@.len() as int));
                assert(self.adjacency@[u]@[j].to == v);
            }
        }
    }

    /// The least total weight of a walk from one node to another, capped at
    /// `UNREACHABLE`; `UNREACHABLE` when no walk joins them or when either is
    /// not a node of the graph. From a node to itself it is `0`.
    pub fn shortest_path(&self, from_node_id: i32, to_node_id: i32) -> (d: i32)
        requires
            self.wf(),
        ensures
            d == self@.distance(from_node_id, to_node_id),
            0 <= d <= UNREACHABLE,
            from_node_id == to_node_id && self@.nodes.contains(from_node_id) ==> d == 0,
            !self@.connected(from_node_id, to_node_id) ==> d == UNREACHABLE,
    {
        proof {
            self.lemma_view_wf();
            distance_of_disconnected_is_unreachable(self@, from_node_id, to_node_id);
            if from_node_id == to_node_id && self@.nodes.contains(from_node_id) {
                distance_to_self_is_zero(self@, from_node_id);
            }
        }
        let src = match self.position(from_node_id) {
            Some(i) => i,
            None => {
                return UNREACHABLE;
            },
        };
        let dst = match self.position(to_node_id) {
            Some(i) => i,
            None => {
                return UNREACHABLE;
            },
        };
        let n = self.ids.len();
        let mut dist: Vec<i32> = Vec::new();
        let mut done: Vec<bool> = Vec::new();
        let mut i: usize = 0;
        while i < n
            invariant
                i <= n,
                dist@ == Seq::new(i as nat, |k: int| UNREACHABLE),
                done@ == Seq::new(i as nat, |k: int| false),
            decreases n - i,
        {
            dist.push(UNREACHABLE);
            done.push(false);
            i += 1;
            assert(dist@ =~= Seq::new(i as nat, |k: int| UNREACHABLE));
            assert(done@ =~= Seq::new(i as nat, |k: int| false));
        }
        dist[src] = 0;
        let mut queue = MinQueue::new();
        queue.push(Entry { key: 0, node: src });
        let ghost mut walks: Seq<Seq<Step>> = Seq::new(n as nat, |k: int| Seq::<Step>::empty());
        proof {
            self.lemma_search_start(src as int, search_of(dist@, done@, walks, queue@));
        }
        while !queue.is_empty()
            invariant
                self.wf(),
                queue.wf(),
                n == self.ids@.len(),
                dist@.len() == n,
                done@.len() == n,
                self.search_inv(src as int, search_of(dist@, done@, walks, queue@)),
            decreases pending(done@), queue@.len(),
        {
            let ghost s = search_of(dist@, done@, walks, queue@);
            let e = queue.pop().unwrap();
            let u = e.node;
            assert(s.queue.count(e) > 0);
            assert(u < n);
            if done[u] {
                proof {
                    self.lemma_discard_stale(src as int, s, e);
                }
            } else {
                proof {
                    self.lemma_settle(src as int, s, e);
                    lemma_pending_settle(done@, u as int);
                }
                done[u] = true;
                let ghost settled = done@;
                let mut j: usize = 0;
                while j < self.adjacency[u].len()
                    invariant
                        self.wf(),
                        queue.wf(),
                        n == self.ids@.len(),
                        u < n,
                        dist@.len() == n,
                        done@ == settled,
                        dist@[u as int] == e.key,
                        self.relax_inv(
                            src as int,
                            search_of(dist@, done@, walks, queue@),
                            u as int,
                            j as int,
                        ),
                    decreases self.adjacency@[u as int]@.len() - j,
                {
                    let arc = self.adjacency[u][j];
                    assert(self.arc_sound(u as int, j as int));
                    let reached: i64 = e.key as i64 + arc.weight as i64;
                    if reached < dist[arc.to] as i64 {
                        proof {
                            self.lemma_relax_improve(
                                src as int,
                                search_of(dist@, done@, walks, queue@),
                                u as int,
                                j as int,
                            );
                            walks =
                            walks.update(
                                arc.to as int,
                                walks[u as int].push(
                                    Step {
                                        from: self.ids@[u as int],
                                        to: self.ids@[arc.to as int],
                                        weight: arc.weight,
                                    },
                                ),
                            );
                        }
                        dist[arc.to] = reached as i32;
                        queue.push(Entry { key: reached as i32, node: arc.to });
                    } else {
                        proof {
                            self.lemma_relax_keep(
                                src as int,
                                search_of(dist@, done@, walks, queue@),
                                u as int,
                                j as int,
                            );
                        }
                    }
                    j += 1;
                }
            }
        }
        let d = dist[dst];
        proof {
            let s = search_of(dist@, done@, walks, queue@);
            assert forall|w: Seq<Step>| #[trigger]
                self@.is_walk(w, from_node_id, to_node_id) implies cost(w) >= d by {
                self.lemma_lower_bound(src as int, s, dst as int, w);
            }
            if d < UNREACHABLE {
                assert(self@.is_walk(walks[dst as int], from_node_id, to_node_id));
            }
            lemma_distance_is(self@, from_node_id, to_node_id, d as int);
        }
        d
    }
}

} // verus!
