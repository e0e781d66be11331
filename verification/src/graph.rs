//! A graph of devices: who can send to whom, and at what cost.

use vstd::prelude::*;
use std::collections::HashSet;

verus! {

broadcast use vstd::std_specs::hash::group_hash_axioms;

/// The cost of the way to a node, as far as it is known.
#[derive(Clone, Copy, Debug, PartialEq, Eq, Structural)]
pub enum TentativeWeight {
    Infinite,
    Number(u32),
}

/// A number is less than a larger number, and than `Infinite`.
pub open spec fn weight_less(a: TentativeWeight, b: TentativeWeight) -> bool {
    match a {
        TentativeWeight::Infinite => false,
        TentativeWeight::Number(x) => match b {
            TentativeWeight::Infinite => true,
            TentativeWeight::Number(y) => x < y,
        },
    }
}

impl TentativeWeight {
    pub fn is_less_than(&self, other: &TentativeWeight) -> (less: bool)
        ensures
            less == weight_less(*self, *other),
    {
        match other {
            TentativeWeight::Infinite => match self {
                TentativeWeight::Infinite => false,
                _ => true,
            },
            TentativeWeight::Number(o) => match self {
                TentativeWeight::Infinite => false,
                TentativeWeight::Number(s) => *s < *o,
            },
        }
    }
}

/// A way to the node at place `node`, at the cost `weight`.
#[derive(Clone, Copy, Debug)]
pub struct Edge {
    pub weight: u32,
    pub node: usize,
}

/// The node that `min_index` names after the first `upto` of `nodes`: node 0, or the first
/// of these nodes with less weight than 0 and all nodes before it.
pub open spec fn least(weights: Seq<TentativeWeight>, nodes: Seq<usize>, upto: int) -> usize
    decreases upto,
{
    if upto <= 0 || upto > nodes.len() {
        0
    } else {
        let best = least(weights, nodes, upto - 1);
        let node = nodes[upto - 1];
        if node < weights.len() && weight_less(weights[node as int], weights[best as int]) {
            node
        } else {
            best
        }
    }
}

/// The node among `nodes` with the least weight, or node 0 where none has less.
pub fn min_index(weights: &Vec<TentativeWeight>, nodes: &Vec<usize>) -> (best: usize)
    requires
        weights@.len() > 0,
    ensures
        best == least(weights@, nodes@, nodes@.len() as int),
        best < weights@.len(),
        best == 0 || nodes@.contains(best),
        !weight_less(weights@[0], weights@[best as int]),
        forall|k: int|
            0 <= k < nodes@.len() && nodes@[k] < weights@.len() ==> !weight_less(
                weights@[(#[trigger] nodes@[k]) as int],
                weights@[best as int],
            ),
{
    let mut min_weight: (TentativeWeight, usize) = (weights[0], 0);
    let mut k: usize = 0;
    while k < nodes.len()
        invariant
            k <= nodes@.len(),
            weights@.len() > 0,
            min_weight.1 < weights@.len(),
            min_weight.1 == least(weights@, nodes@, k as int),
            min_weight.0 == weights@[min_weight.1 as int],
            min_weight.1 == 0 || nodes@.contains(min_weight.1),
            !weight_less(weights@[0], min_weight.0),
            forall|j: int|
                0 <= j < k && nodes@[j] < weights@.len() ==> !weight_less(
                    weights@[(#[trigger] nodes@[j]) as int],
                    min_weight.0,
                ),
        decreases nodes@.len() - k,
    {
        let node = nodes[k];
        if node < weights.len() {
            let n = weights[node];
            if n.is_less_than(&min_weight.0) {
                min_weight = (weights[node], node);
                assert(nodes@[k as int] == node);
            }
        }
        k += 1;
    }
    return min_weight.1;
}

/// The number of edges in all of `lists`.
pub open spec fn edge_total(lists: Seq<Vec<Edge>>) -> nat
    decreases lists.len(),
{
    if lists.len() == 0 {
        0
    } else {
        edge_total(lists.drop_last()) + lists.last()@.len()
    }
}

/// Where one list changes, the number of edges changes as its length does.
pub proof fn lemma_edge_total_changed(before: Seq<Vec<Edge>>, after: Seq<Vec<Edge>>, idx: int)
    requires
        0 <= idx < before.len(),
        after.len() == before.len(),
        forall|i: int| 0 <= i < before.len() && i != idx ==> after[i] == before[i],
    ensures
        edge_total(after) + before[idx]@.len() == edge_total(before) + after[idx]@.len(),
    decreases before.len(),
{
    if idx == before.len() - 1 {
        assert(after.drop_last() =~= before.drop_last());
    } else {
        lemma_edge_total_changed(before.drop_last(), after.drop_last(), idx);
    }
}

/// Lists without edges hold no edges.
pub proof fn lemma_edge_total_none(lists: Seq<Vec<Edge>>)
    requires
        forall|i: int| 0 <= i < lists.len() ==> (#[trigger] lists[i])@.len() == 0,
    ensures
        edge_total(lists) == 0,
    decreases lists.len(),
{
    if lists.len() > 0 {
        lemma_edge_total_none(lists.drop_last());
    }
}

/// The first place of `key` among `keys`.
pub open spec fn place_of(keys: Seq<u64>, key: u64) -> Option<usize> {
    if keys.contains(key) {
        Some((choose|i: int| is_first_place(keys, key, i)) as usize)
    } else {
        None
    }
}

/// `i` is the first place of `key` among `keys`.
pub open spec fn is_first_place(keys: Seq<u64>, key: u64, i: int) -> bool {
    &&& 0 <= i < keys.len()
    &&& keys[i] == key
    &&& forall|j: int| 0 <= j < i ==> keys[j] != key
}

/// There is one first place.
pub proof fn lemma_first_place(keys: Seq<u64>, key: u64, i: int)
    requires
        is_first_place(keys, key, i),
    ensures
        place_of(keys, key) == Some(i as usize),
        keys.contains(key),
{
    let first = choose|f: int| is_first_place(keys, key, f);
    if first < i {
        assert(keys[first] != key);
    }
    if i < first {
        assert(keys[i] != key);
    }
}

/// The edges that `set_edges` keeps of `edges`: those to a node of `keys`, each to the first
/// place of its node.
pub open spec fn kept_edges(keys: Seq<u64>, edges: Seq<(u32, u64)>) -> Seq<Edge>
    decreases edges.len(),
{
    if edges.len() == 0 {
        Seq::empty()
    } else {
        let before = kept_edges(keys, edges.drop_last());
        match place_of(keys, edges.last().1) {
            Some(to) => before.push(Edge { weight: edges.last().0, node: to }),
            None => before,
        }
    }
}

/// The cost of a way that goes on over an edge of weight `weight`; nothing where it grows
/// beyond `u32`.
pub open spec fn stepped(cost: TentativeWeight, weight: u32) -> Option<TentativeWeight> {
    match cost {
        TentativeWeight::Number(d) => if d + weight <= u32::MAX {
            Some(TentativeWeight::Number((d + weight) as u32))
        } else {
            None
        },
        TentativeWeight::Infinite => Some(TentativeWeight::Infinite),
    }
}

/// What a search knows: for every node the least cost found so far, and the node from which
/// it was reached at that cost.
pub ghost struct Search {
    pub distance: Seq<TentativeWeight>,
    pub parent: Seq<Option<usize>>,
}

/// What the search knows after it has looked at the first `upto` of the edges `edges` of
/// node `u`, which it has reached at the cost `cost`: a node to which an edge leads at less
/// cost than known has that cost, and `u` for its parent. Nothing where a cost grows beyond
/// `u32`.
pub open spec fn relaxed(
    edges: Seq<Edge>,
    cost: TentativeWeight,
    u: usize,
    known: Search,
    upto: int,
) -> Option<Search>
    decreases upto,
{
    if upto <= 0 || upto > edges.len() {
        Some(known)
    } else {
        match relaxed(edges, cost, u, known, upto - 1) {
            None => None,
            Some(so_far) => {
                let e = edges[upto - 1];
                match stepped(cost, e.weight) {
                    None => None,
                    Some(new) => if e.node < so_far.distance.len() && weight_less(
                        new,
                        so_far.distance[e.node as int],
                    ) {
                        Some(
                            Search {
                                distance: so_far.distance.update(e.node as int, new),
                                parent: so_far.parent.update(e.node as int, Some(u)),
                            },
                        )
                    } else {
                        Some(so_far)
                    },
                }
            },
        }
    }
}

/// What the search knows when it takes the node `dest` from the open ones. In every round
/// it takes from `open` the node at the place that `least` names, and looks at the edges of
/// that node. Nothing where no node is open any more, where `least` names no place among the
/// open nodes, or where a cost grows beyond `u32`.
pub open spec fn searched(lists: Seq<Seq<Edge>>, dest: usize, known: Search, open: Seq<usize>) -> Option<
    Search,
>
    decreases open.len(),
{
    if open.len() == 0 {
        None
    } else {
        let i = least(known.distance, open, open.len() as int);
        if i >= open.len() {
            None
        } else {
            let u = open[i as int];
            if u == dest {
                Some(known)
            } else if u >= lists.len() {
                None
            } else {
                match relaxed(
                    lists[u as int],
                    known.distance[u as int],
                    u,
                    known,
                    lists[u as int].len() as int,
                ) {
                    None => None,
                    Some(next) => searched(lists, dest, next, open.remove(i as int)),
                }
            }
        }
    }
}

/// The keys on the way back from node `p` to node `src` over the parents, behind `path`;
/// nothing where a node has no parent, or where the way takes more steps than there are nodes.
pub open spec fn traced(
    keys: Seq<u64>,
    parent: Seq<Option<usize>>,
    src: usize,
    p: usize,
    steps: int,
    path: Seq<u64>,
) -> Option<Seq<u64>>
    decreases keys.len() - steps,
{
    if p == src {
        Some(path)
    } else if steps >= keys.len() || p >= keys.len() || p >= parent.len() {
        None
    } else {
        match parent[p as int] {
            Some(next) => traced(keys, parent, src, next, steps + 1, path.push(keys[p as int])),
            None => None,
        }
    }
}

/// The places of `from` and `to` that a look through the first `upto` of `keys` finds: for
/// each the last place up to the one at which both are found.
pub open spec fn ends(keys: Seq<u64>, from: u64, to: u64, upto: int) -> (
    Option<usize>,
    Option<usize>,
)
    decreases upto,
{
    if upto <= 0 || upto > keys.len() {
        (None, None)
    } else {
        let (src, dest) = ends(keys, from, to, upto - 1);
        if src is Some && dest is Some {
            (src, dest)
        } else {
            (
                if keys[upto - 1] == from {
                    Some((upto - 1) as usize)
                } else {
                    src
                },
                if keys[upto - 1] == to {
                    Some((upto - 1) as usize)
                } else {
                    dest
                },
            )
        }
    }
}

/// The cost as a number: 0 for a cost that is not known.
pub open spec fn cost_of(cost: TentativeWeight) -> u32 {
    match cost {
        TentativeWeight::Number(n) => n,
        TentativeWeight::Infinite => 0,
    }
}

/// The way that the search finds from the node with the key `from` to the node with the key
/// `to`, with its cost: the search starts with the cost 0 for `from` and all nodes open, and
/// the way is traced back from `to` over the parents. Nothing where a key is not a node, where
/// the search does not take `to` from the open nodes, or where the way back does not reach
/// `from`.
pub open spec fn way(keys: Seq<u64>, lists: Seq<Seq<Edge>>, from: u64, to: u64) -> Option<
    (u32, Seq<u64>),
> {
    let (s, d) = ends(keys, from, to, keys.len() as int);
    if s is Some && d is Some {
        let src = s.unwrap();
        let dest = d.unwrap();
        let start = Search {
            distance: Seq::new(keys.len(), |i: int| TentativeWeight::Infinite).update(
                src as int,
                TentativeWeight::Number(0),
            ),
            parent: Seq::new(keys.len(), |i: int| None::<usize>),
        };
        match searched(lists, dest, start, Seq::new(keys.len(), |i: int| i as usize)) {
            None => None,
            Some(end) => match end.parent[dest as int] {
                None => None,
                Some(p) => match traced(keys, end.parent, src, p, 0, seq![keys[dest as int]]) {
                    None => None,
                    Some(back) => Some(
                        (cost_of(end.distance[dest as int]), back.push(keys[src as int]).reverse()),
                    ),
                },
            },
        }
    } else {
        None
    }
}

/// Once both places are found, they stay.
pub proof fn lemma_ends_stay(keys: Seq<u64>, from: u64, to: u64, a: int, b: int)
    requires
        0 <= a <= b <= keys.len(),
        ends(keys, from, to, a).0 is Some,
        ends(keys, from, to, a).1 is Some,
    ensures
        ends(keys, from, to, b) == ends(keys, from, to, a),
    decreases b - a,
{
    if a < b {
        lemma_ends_stay(keys, from, to, a, b - 1);
    }
}

/// Once a cost has grown beyond `u32`, the search knows nothing.
pub proof fn lemma_relaxed_none(
    edges: Seq<Edge>,
    cost: TentativeWeight,
    u: usize,
    known: Search,
    a: int,
    b: int,
)
    requires
        0 <= a <= b <= edges.len(),
        relaxed(edges, cost, u, known, a) is None,
    ensures
        relaxed(edges, cost, u, known, b) is None,
    decreases b - a,
{
    if a < b {
        lemma_relaxed_none(edges, cost, u, known, a, b - 1);
    }
}

pub struct InternetOfThings {
    adjacency_list: Vec<Vec<Edge>>,
    nodes: Vec<u64>,
}

impl InternetOfThings {
    /// The keys of the nodes.
    pub closed spec fn keys(&self) -> Seq<u64> {
        self.nodes@
    }

    /// The edges that leave the node at place `i`.
    pub closed spec fn edges_of(&self, i: int) -> Seq<Edge> {
        self.adjacency_list@[i]@
    }

    /// The edges of all nodes, node by node.
    pub closed spec fn edge_lists(&self) -> Seq<Seq<Edge>> {
        Seq::new(self.adjacency_list@.len(), |i: int| self.adjacency_list@[i]@)
    }

    /// Every node has its edges in the lists of all edges.
    pub proof fn lemma_edge_lists(&self)
        requires
            self.wf(),
        ensures
            self.edge_lists().len() == self.keys().len(),
            forall|i: int|
                0 <= i < self.keys().len() ==> #[trigger] self.edge_lists()[i] == self.edges_of(i),
    {
    }

    /// The number of all edges.
    pub closed spec fn edge_count(&self) -> nat {
        edge_total(self.adjacency_list@)
    }

    /// Every node has its list of edges, and every edge leads to a node.
    pub closed spec fn wf(&self) -> bool {
        &&& self.adjacency_list@.len() == self.nodes@.len()
        &&& forall|i: int, j: int|
            0 <= i < self.adjacency_list@.len() && 0 <= j < self.adjacency_list@[i]@.len() ==> (
            #[trigger] self.adjacency_list@[i]@[j]).node < self.nodes@.len()
    }

    /// An edge leads from a node with the key `a` to a node with the key `b`.
    pub open spec fn joined(&self, a: u64, b: u64) -> bool {
        exists|i: int, j: int|
            0 <= i < self.keys().len() && 0 <= j < self.edges_of(i).len() && self.keys()[i] == a
                && self.keys()[(#[trigger] self.edges_of(i)[j]).node as int] == b
    }

    /// The places that are reached from place `from` over at most `degree` edges, the first
    /// of them one of the first `upto` edges of `from`.
    pub open spec fn reach_via(&self, from: int, degree: nat, upto: int) -> Set<usize>
        decreases degree, upto,
    {
        if degree == 0 || upto <= 0 || upto > self.edges_of(from).len() {
            Set::empty()
        } else {
            let e = self.edges_of(from)[upto - 1];
            self.reach_via(from, degree, upto - 1).union(
                self.reach_via(
                    e.node as int,
                    (degree - 1) as nat,
                    self.edges_of(e.node as int).len() as int,
                ).insert(e.node),
            )
        }
    }

    /// The places that are reached from place `from` over at most `degree` edges.
    pub open spec fn reach(&self, from: int, degree: nat) -> Set<usize> {
        self.reach_via(from, degree, self.edges_of(from).len() as int)
    }

    /// A graph without nodes.
    pub fn new() -> (graph: InternetOfThings)
        ensures
            graph.wf(),
            graph.keys() == Seq::<u64>::empty(),
            graph.edge_count() == 0,
    {
        InternetOfThings { adjacency_list: Vec::new(), nodes: Vec::new() }
    }

    /// The first place of the node with the key `node`.
    pub fn get_node_index(&self, node: u64) -> (place: Option<usize>)
        ensures
            place == place_of(self.keys(), node),
            place matches Some(i) ==> i < self.keys().len() && self.keys()[i as int] == node,
    {
        let mut i: usize = 0;
        while i < self.nodes.len()
            invariant
                i <= self.nodes@.len(),
                forall|j: int| 0 <= j < i ==> self.nodes@[j] != node,
            decreases self.nodes@.len() - i,
        {
            if self.nodes[i] == node {
                proof {
                    lemma_first_place(self.nodes@, node, i as int);
                }
                return Some(i);
            }
            i += 1;
        }
        proof {
            if self.nodes@.contains(node) {
                let j = choose|j: int| 0 <= j < self.nodes@.len() && self.nodes@[j] == node;
                assert(self.nodes@[j] != node);
            }
        }
        None
    }

    /// The number of all edges, as far as a `u64` counts.
    pub fn edges(&self) -> (count: u64)
        ensures
            count == if self.edge_count() <= u64::MAX {
                self.edge_count()
            } else {
                u64::MAX as nat
            },
    {
        let mut total: u64 = 0;
        let mut i: usize = 0;
        while i < self.adjacency_list.len()
            invariant
                i <= self.adjacency_list@.len(),
                total == if edge_total(self.adjacency_list@.subrange(0, i as int)) <= u64::MAX {
                    edge_total(self.adjacency_list@.subrange(0, i as int))
                } else {
                    u64::MAX as nat
                },
            decreases self.adjacency_list@.len() - i,
        {
            proof {
                let next = self.adjacency_list@.subrange(0, i + 1);
                assert(next.drop_last() =~= self.adjacency_list@.subrange(0, i as int));
                lemma_edge_total_grows(self.adjacency_list@, i + 1);
            }
            total = total.saturating_add(self.adjacency_list[i].len() as u64);
            i += 1;
        }
        assert(self.adjacency_list@.subrange(0, i as int) =~= self.adjacency_list@);
        total
    }

    /// The number of nodes.
    pub fn nodes(&self) -> (count: usize)
        ensures
            count == self.keys().len(),
    {
        self.nodes.len()
    }

    /// Makes the graph one of the nodes `nodes`, without edges.
    pub fn set_nodes(&mut self, nodes: Vec<u64>)
        ensures
            final(self).wf(),
            final(self).keys() == nodes@,
            forall|i: int| 0 <= i < nodes@.len() ==> final(self).edges_of(i).len() == 0,
            final(self).edge_count() == 0,
    {
        self.nodes = nodes;
        let mut lists: Vec<Vec<Edge>> = Vec::new();
        let mut i: usize = 0;
        while i < self.nodes.len()
            invariant
                i <= self.nodes@.len(),
                lists@.len() == i,
                forall|j: int| 0 <= j < i ==> (#[trigger] lists@[j])@.len() == 0,
            decreases self.nodes@.len() - i,
        {
            lists.push(Vec::new());
            i += 1;
        }
        self.adjacency_list = lists;
        proof {
            lemma_edge_total_none(self.adjacency_list@);
        }
    }

    /// Gives the node with the key `from` the edges `edges`, each with its weight and the
    /// key of the node to which it leads; an edge to a key that the graph does not know
    /// is left out. A node that the graph does not know yet is added to it.
    pub fn set_edges(&mut self, from: u64, edges: Vec<(u32, u64)>)
        requires
            old(self).wf(),
        ensures
            final(self).wf(),
            match place_of(old(self).keys(), from) {
                Some(i) => final(self).keys() == old(self).keys() && final(self).edges_of(i as int)
                    == kept_edges(old(self).keys(), edges@) && forall|j: int|
                    0 <= j < old(self).keys().len() && j != i ==> final(self).edges_of(j) == old(self).edges_of(j),
                None => final(self).keys() == old(self).keys().push(from) && final(self).edges_of(
                    old(self).keys().len() as int,
                ) == kept_edges(old(self).keys(), edges@) && forall|j: int|
                    0 <= j < old(self).keys().len() ==> final(self).edges_of(j) == old(self).edges_of(j),
            },
            match place_of(old(self).keys(), from) {
                Some(i) => final(self).edge_count() + old(self).edges_of(i as int).len() == old(self).edge_count() + kept_edges(old(self).keys(), edges@).len(),
                None => final(self).edge_count() == old(self).edge_count() + kept_edges(
                    old(self).keys(),
                    edges@,
                ).len(),
            },
    {
        let mut kept: Vec<Edge> = Vec::new();
        let mut k: usize = 0;
        while k < edges.len()
            invariant
                k <= edges@.len(),
                kept@ == kept_edges(self.nodes@, edges@.subrange(0, k as int)),
                forall|j: int| 0 <= j < kept@.len() ==> (#[trigger] kept@[j]).node < self.nodes@.len(),
            decreases edges@.len() - k,
        {
            let e = edges[k];
            proof {
                let next = edges@.subrange(0, k + 1);
                assert(next.drop_last() =~= edges@.subrange(0, k as int));
                assert(next.last() == e);
            }
            if let Some(to) = self.get_node_index(e.1) {
                kept.push(Edge { weight: e.0, node: to })
            }
            k += 1;
        }
        assert(edges@.subrange(0, k as int) =~= edges@);
        match self.get_node_index(from) {
            Some(i) => {
                self.adjacency_list[i] = kept;
                proof {
                    lemma_edge_total_changed(
                        old(self).adjacency_list@,
                        self.adjacency_list@,
                        i as int,
                    );
                }
            },
            None => {
                self.nodes.push(from);
                self.adjacency_list.push(kept);
                proof {
                    assert(self.adjacency_list@.drop_last() =~= old(self).adjacency_list@);
                }
            },
        }
    }

    /// A way from the node with the key `from` to the node with the key `to`, with the cost
    /// that the search puts on it. The search goes on from the open node that `min_index`
    /// names, and gives up where that node cannot be taken from the open ones, where a cost
    /// grows beyond `u32`, or where the way back does not reach `from`.
    pub fn shortest_path(&self, from: u64, to: u64) -> (found: Option<(u32, Vec<u64>)>)
        requires
            self.wf(),
        ensures
            match found {
                Some((cost, path)) => self.way_between(from, to) == Some((cost, path@)),
                None => self.way_between(from, to) is None,
            },
            !self.keys().contains(from) || !self.keys().contains(to) ==> found is None,
            found matches Some((cost, path)) ==> path@.len() >= 2 && path@[0] == from
                && path@.last() == to && forall|k: int|
                0 <= k < path@.len() - 1 ==> self.joined(#[trigger] path@[k], path@[k + 1]),
    {
        let mut src: Option<usize> = None;
        let mut dest: Option<usize> = None;

        let mut i: usize = 0;
        while i < self.nodes.len()
            invariant_except_break
                !(src is Some && dest is Some),
                (src, dest) == ends(self.nodes@, from, to, i as int),
            invariant
                i <= self.nodes@.len(),
                src matches Some(s) ==> s < self.nodes@.len() && self.nodes@[s as int] == from,
                dest matches Some(d) ==> d < self.nodes@.len() && self.nodes@[d as int] == to,
                src is None ==> forall|j: int| 0 <= j < i ==> self.nodes@[j] != from,
                dest is None ==> forall|j: int| 0 <= j < i ==> self.nodes@[j] != to,
            ensures
                (src, dest) == ends(self.nodes@, from, to, self.nodes@.len() as int),
                src matches Some(s) ==> s < self.nodes@.len() && self.nodes@[s as int] == from,
                dest matches Some(d) ==> d < self.nodes@.len() && self.nodes@[d as int] == to,
                src is None ==> forall|j: int| 0 <= j < self.nodes@.len() ==> self.nodes@[j] != from,
                dest is None ==> forall|j: int| 0 <= j < self.nodes@.len() ==> self.nodes@[j] != to,
            decreases self.nodes@.len() - i,
        {
            if self.nodes[i] == from {
                src = Some(i);
            }
            if self.nodes[i] == to {
                dest = Some(i);
            }
            assert((src, dest) == ends(self.nodes@, from, to, i + 1));
            if src.is_some() && dest.is_some() {
                proof {
                    lemma_ends_stay(self.nodes@, from, to, i + 1, self.nodes@.len() as int);
                }
                break ;
            }
            i += 1;
        }
        if src.is_some() && dest.is_some() {
            let (src, dest) = (src.unwrap(), dest.unwrap());
            let n = self.nodes.len();

            let mut distance: Vec<TentativeWeight> = vec![TentativeWeight::Infinite; n];
            distance[src] = TentativeWeight::Number(0);

            let mut open: Vec<usize> = Vec::new();
            let mut o: usize = 0;
            while o < n
                invariant
                    o <= n,
                    open@.len() == o,
                    forall|j: int| 0 <= j < o ==> (#[trigger] open@[j]) == j,
                decreases n - o,
            {
                open.push(o);
                o += 1;
            }
            let mut parent: Vec<Option<usize>> = vec![None; n];
            let mut found = false;
            let ghost start = Search { distance: distance@, parent: parent@ };
            let ghost all = open@;
            proof {
                assert(distance@ =~= Seq::new(
                    self.nodes@.len(),
                    |i: int| TentativeWeight::Infinite,
                ).update(src as int, TentativeWeight::Number(0)));
                assert(parent@ =~= Seq::new(self.nodes@.len(), |i: int| None::<usize>));
                assert(open@ =~= Seq::new(self.nodes@.len(), |i: int| i as usize));
            }
            while !open.is_empty()
                invariant_except_break
                    !found,
                    searched(self.edge_lists(), dest, start, all) == searched(
                        self.edge_lists(),
                        dest,
                        Search { distance: distance@, parent: parent@ },
                        open@,
                    ),
                invariant
                    self.wf(),
                    n == self.nodes@.len(),
                    src < n,
                    dest < n,
                    distance@.len() == n,
                    parent@.len() == n,
                    self.way_between(from, to) is None <== searched(
                        self.edge_lists(),
                        dest,
                        start,
                        all,
                    ) is None,
                    forall|j: int| 0 <= j < open@.len() ==> (#[trigger] open@[j]) < n,
                    forall|v: int|
                        0 <= v < n ==> (#[trigger] parent@[v] matches Some(u) ==> self.leads(
                            u as int,
                            v,
                        )),
                ensures
                    distance@.len() == n,
                    parent@.len() == n,
                    found ==> searched(self.edge_lists(), dest, start, all) == Some(
                        Search { distance: distance@, parent: parent@ },
                    ),
                    !found ==> searched(self.edge_lists(), dest, start, all) is None,
                    forall|v: int|
                        0 <= v < n ==> (#[trigger] parent@[v] matches Some(u) ==> self.leads(
                            u as int,
                            v,
                        )),
                decreases open@.len(),
            {
                let ghost known = Search { distance: distance@, parent: parent@ };
                let ghost before = open@;
                let u = min_index(&distance, &open);
                if u >= open.len() {
                    return None;
                }
                let ghost at = u;
                let u = open.remove(u);

                if u == dest {
                    found = true;
                    break ;
                }
                let dist = distance[u];

                let mut k: usize = 0;
                while k < self.adjacency_list[u].len()
                    invariant
                        self.wf(),
                        n == self.nodes@.len(),
                        u < n,
                        k <= self.adjacency_list@[u as int]@.len(),
                        distance@.len() == n,
                        parent@.len() == n,
                        known.distance.len() == n,
                        dist == known.distance[u as int],
                        relaxed(self.adjacency_list@[u as int]@, dist, u, known, k as int) == Some(
                            Search { distance: distance@, parent: parent@ },
                        ),
                        at < before.len(),
                        before.len() > 0,
                        at == least(known.distance, before, before.len() as int),
                        u == before[at as int],
                        u != dest,
                        self.way_between(from, to) is None <== searched(
                            self.edge_lists(),
                            dest,
                            known,
                            before,
                        ) is None,
                        forall|v: int|
                            0 <= v < n ==> (#[trigger] parent@[v] matches Some(w) ==> self.leads(
                                w as int,
                                v,
                            )),
                    decreases self.adjacency_list@[u as int]@.len() - k,
                {
                    let e = self.adjacency_list[u][k];
                    assert(self.adjacency_list@[u as int]@[k as int].node < n);
                    let new_distance = match dist {
                        TentativeWeight::Number(d) => match d.checked_add(e.weight) {
                            Some(sum) => TentativeWeight::Number(sum),
                            None => {
                                proof {
                                    let edges = self.adjacency_list@[u as int]@;
                                    assert(relaxed(edges, dist, u, known, k + 1) is None);
                                    lemma_relaxed_none(
                                        edges,
                                        dist,
                                        u,
                                        known,
                                        k + 1,
                                        edges.len() as int,
                                    );
                                }
                                return None;
                            },
                        },
                        _ => TentativeWeight::Infinite,
                    };

                    let old_distance = distance[e.node];

                    if new_distance.is_less_than(&old_distance) {
                        distance[e.node] = new_distance;
                        parent[e.node] = Some(u);
                        assert(self.leads(u as int, e.node as int)) by {
                            assert(self.edges_of(u as int)[k as int].node == e.node);
                        }
                    }
                    k += 1;
                }
            }
            if found {
                let mut path: Vec<u64> = Vec::new();
                let mut p = match parent[dest] {
                    Some(p) => p,
                    None => {
                        return None;
                    },
                };
                path.push(self.nodes[dest]);
                let ghost mut last = dest;
                let ghost first = p;
                let mut steps: usize = 0;
                assert(self.leads(p as int, dest as int));
                assert(path@ =~= seq![self.nodes@[dest as int]]);
                while p != src
                    invariant
                        self.wf(),
                        n == self.nodes@.len(),
                        src < n,
                        p < n,
                        last < n,
                        steps <= n,
                        parent@.len() == n,
                        path@.len() >= 1,
                        path@[0] == to,
                        path@.last() == self.nodes@[last as int],
                        self.leads(p as int, last as int),
                        traced(
                            self.nodes@,
                            parent@,
                            src,
                            first,
                            0,
                            seq![self.nodes@[dest as int]],
                        ) == traced(self.nodes@, parent@, src, p, steps as int, path@),
                        self.way_between(from, to) is None <== traced(
                            self.nodes@,
                            parent@,
                            src,
                            first,
                            0,
                            seq![self.nodes@[dest as int]],
                        ) is None,
                        forall|k: int|
                            0 <= k < path@.len() - 1 ==> self.joined(
                                path@[k + 1],
                                #[trigger] path@[k],
                            ),
                        forall|v: int|
                            0 <= v < n ==> (#[trigger] parent@[v] matches Some(w) ==> self.leads(
                                w as int,
                                v,
                            )),
                    decreases n - steps,
                {
                    if steps >= n {
                        return None;
                    }
                    steps += 1;
                    proof {
                        self.lemma_leads_joined(p as int, last as int);
                    }
                    path.push(self.nodes[p]);
                    proof {
                        last = p;
                    }
                    p = match parent[p] {
                        Some(next) => next,
                        None => {
                            return None;
                        },
                    };
                }
                proof {
                    self.lemma_leads_joined(p as int, last as int);
                }
                path.push(self.nodes[src]);

                let path = reversed(&path);
                let cost = match distance[dest] {
                    TentativeWeight::Number(n) => n,
                    _ => 0,
                };
                Some((cost, path))
            } else {
                None
            }
        } else {
            proof {
                if src is None && self.keys().contains(from) {
                    let j = choose|j: int| 0 <= j < self.nodes@.len() && self.nodes@[j] == from;
                    assert(self.nodes@[j] != from);
                }
                if dest is None && self.keys().contains(to) {
                    let j = choose|j: int| 0 <= j < self.nodes@.len() && self.nodes@[j] == to;
                    assert(self.nodes@[j] != to);
                }
            }
            None
        }
    }

    /// The way that `shortest_path` finds between two keys: what the search finds over the
    /// keys and the edges of the graph.
    pub open spec fn way_between(&self, from: u64, to: u64) -> Option<(u32, Seq<u64>)> {
        way(self.keys(), self.edge_lists(), from, to)
    }

    /// An edge leads from place `u` to place `v`.
    pub closed spec fn leads(&self, u: int, v: int) -> bool {
        &&& 0 <= u < self.nodes@.len()
        &&& 0 <= v < self.nodes@.len()
        &&& exists|j: int|
            0 <= j < self.adjacency_list@[u]@.len() && (#[trigger] self.adjacency_list@[u]@[j]).node
                == v
    }

    /// Places that an edge joins hold keys that an edge joins.
    proof fn lemma_leads_joined(&self, u: int, v: int)
        requires
            self.leads(u, v),
        ensures
            self.joined(self.nodes@[u], self.nodes@[v]),
    {
        let j = choose|j: int|
            0 <= j < self.adjacency_list@[u]@.len() && (#[trigger] self.adjacency_list@[u]@[j]).node
                == v;
        assert(self.edges_of(u)[j].node == v);
    }

    /// The keys of the nodes that are reached from the node with the key `from` over at most
    /// `degree` edges.
    pub fn connected(&self, from: u64, degree: usize) -> (reached: Option<HashSet<u64>>)
        requires
            self.wf(),
        ensures
            reached is Some <==> self.keys().contains(from),
            reached matches Some(set) ==> forall|key: u64|
                set@.contains(key) <==> exists|p: usize|
                    #[trigger] self.reach(
                        place_of(self.keys(), from).unwrap() as int,
                        degree as nat,
                    ).contains(p) && p < self.keys().len() && self.keys()[p as int] == key,
    {
        match self.get_node_index(from) {
            Some(i) => {
                let places = self.connected_r(i, degree);
                let mut keys: HashSet<u64> = HashSet::new();
                let mut p: usize = 0;
                while p < self.nodes.len()
                    invariant
                        p <= self.nodes@.len(),
                        forall|key: u64|
                            keys@.contains(key) <==> exists|q: usize|
                                #[trigger] places@.contains(q) && q < p && self.nodes@[q as int]
                                    == key,
                    decreases self.nodes@.len() - p,
                {
                    if places.contains(&p) {
                        let ghost before = keys@;
                        keys.insert(self.nodes[p]);
                        proof {
                            assert forall|key: u64| keys@.contains(key) implies exists|q: usize|
                                #[trigger] places@.contains(q) && q < p + 1 && self.nodes@[q as int]
                                    == key by {
                                if before.contains(key) {
                                    let q = choose|q: usize|
                                        #[trigger] places@.contains(q) && q < p && self.nodes@[q as int]
                                            == key;
                                    assert(places@.contains(q) && q < p + 1);
                                } else {
                                    assert(places@.contains(p));
                                }
                            }
                        }
                    }
                    p += 1;
                }
                proof {
                    assert forall|key: u64| keys@.contains(key) <==> exists|q: usize|
                        #[trigger] self.reach(i as int, degree as nat).contains(q) && q
                            < self.keys().len() && self.keys()[q as int] == key by {
                        if keys@.contains(key) {
                            let q = choose|q: usize|
                                #[trigger] places@.contains(q) && q < p && self.nodes@[q as int]
                                    == key;
                            assert(self.reach(i as int, degree as nat).contains(q));
                        }
                    }
                }
                Some(keys)
            },
            None => None,
        }
    }

    /// The places that are reached from place `from` over at most `degree` edges.
    pub fn connected_r(&self, from: usize, degree: usize) -> (reached: HashSet<usize>)
        requires
            self.wf(),
            from < self.keys().len(),
        ensures
            reached@ == self.reach(from as int, degree as nat),
    {
        let mut reached: HashSet<usize> = HashSet::new();
        self.gather(from, degree, &mut reached);
        assert(reached@ =~= self.reach(from as int, degree as nat));
        reached
    }

    /// Puts into `reached` the places that are reached from `from` over at most `degree`
    /// edges.
    fn gather(&self, from: usize, degree: usize, reached: &mut HashSet<usize>)
        requires
            self.wf(),
            from < self.keys().len(),
        ensures
            final(reached)@ == old(reached)@.union(self.reach(from as int, degree as nat)),
        decreases degree,
    {
        if degree > 0 {
            let mut k: usize = 0;
            assert(reached@ =~= old(reached)@.union(self.reach_via(from as int, degree as nat, 0)));
            while k < self.adjacency_list[from].len()
                invariant
                    self.wf(),
                    degree > 0,
                    from < self.nodes@.len(),
                    k <= self.adjacency_list@[from as int]@.len(),
                    reached@ == old(reached)@.union(
                        self.reach_via(from as int, degree as nat, k as int),
                    ),
                decreases self.adjacency_list@[from as int]@.len() - k,
            {
                let e = self.adjacency_list[from][k];
                assert(self.adjacency_list@[from as int]@[k as int].node < self.nodes@.len());
                self.gather(e.node, degree - 1, reached);
                reached.insert(e.node);
                k += 1;
                assert(reached@ =~= old(reached)@.union(
                    self.reach_via(from as int, degree as nat, k as int),
                ));
            }
        } else {
            assert(reached@ =~= old(reached)@.union(self.reach(from as int, degree as nat)));
        }
    }
}

/// The total of a longer stretch of lists is that of the stretch before, and the last list.
proof fn lemma_edge_total_grows(lists: Seq<Vec<Edge>>, upto: int)
    requires
        0 < upto <= lists.len(),
    ensures
        edge_total(lists.subrange(0, upto)) == edge_total(lists.subrange(0, upto - 1)) + lists[upto
            - 1]@.len(),
        edge_total(lists.subrange(0, upto)) <= edge_total(lists),
    decreases lists.len() - upto,
{
    let part = lists.subrange(0, upto);
    assert(part.drop_last() =~= lists.subrange(0, upto - 1));
    assert(part.last() == lists[upto - 1]);
    if upto < lists.len() {
        lemma_edge_total_grows(lists, upto + 1);
    } else {
        assert(part =~= lists);
    }
}

/// The values of `values` from the last to the first.
pub fn reversed(values: &Vec<u64>) -> (turned: Vec<u64>)
    ensures
        turned@ == values@.reverse(),
{
    let mut turned: Vec<u64> = Vec::new();
    let mut i = values.len();
    while i > 0
        invariant
            i <= values@.len(),
            turned@.len() == values@.len() - i,
            forall|k: int| 0 <= k < turned@.len() ==> turned@[k] == values@[values@.len() - 1 - k],
        decreases i,
    {
        i -= 1;
        turned.push(values[i]);
    }
    assert(turned@ =~= values@.reverse());
    turned
}

} // verus!
