//! Directed graphs with at most one edge from one node to another.

use vstd::prelude::*;
use vstd::string::StringExecFns;
use crate::element::{Element, values_of};
use crate::rugraph::{
    IGraph, IDiGraph, NotFound, paths_of, lemma_index_of_unique, lemma_index_of_found,
};
use crate::search::{
    Adjacency, closed, reachable, trails, simple_trails, reaches, lift_trail, lift_trails,
    lemma_trails_simple, is_simple_trail, nodes_on,
};
use crate::dot::{ParseError, parse_chains, parsed_chains};

verus! {

/// What a directed graph is: the values of its nodes, in the order in which
/// they were added, and for each node the indices of the nodes that its
/// edges lead to, in the order in which the edges were added.
#[verifier::ext_equal]
pub struct DiGraphView<V> {
    pub nodes: Seq<V>,
    pub links: Seq<Seq<int>>,
}

impl<V> DiGraphView<V> {
    /// No value is a node twice, every edge leads to a node, and no node
    /// has two edges to the same node.
    pub open spec fn wf(self) -> bool {
        &&& self.nodes.no_duplicates()
        &&& self.links.len() == self.nodes.len()
        &&& closed(self.links)
        &&& forall|u: int| 0 <= u < self.links.len() ==> (#[trigger] self.links[u]).no_duplicates()
    }

    /// The graph without nodes.
    pub open spec fn empty() -> Self {
        DiGraphView { nodes: Seq::empty(), links: Seq::empty() }
    }

    pub open spec fn has_node(self, v: V) -> bool {
        self.nodes.contains(v)
    }

    /// The index of the node `v`.
    pub open spec fn index_of(self, v: V) -> int {
        self.nodes.index_of(v)
    }

    /// The graph with the node `v`, which comes last where it is new.
    pub open spec fn add_node(self, v: V) -> Self {
        if self.has_node(v) {
            self
        } else {
            DiGraphView { nodes: self.nodes.push(v), links: self.links.push(Seq::empty()) }
        }
    }

    /// An edge leads from `a` to `b`.
    pub open spec fn has_edge(self, a: V, b: V) -> bool {
        self.has_node(a) && self.has_node(b) && self.links[self.index_of(a)].contains(
            self.index_of(b),
        )
    }

    /// The graph with an edge from `a` to `b`: the last edge of `a` where it
    /// is new, and no change where `a` or `b` is no node or the edge is
    /// there already.
    pub open spec fn add_edge(self, a: V, b: V) -> Self {
        if !self.has_node(a) || !self.has_node(b) || self.has_edge(a, b) {
            self
        } else {
            DiGraphView {
                nodes: self.nodes,
                links: self.links.update(
                    self.index_of(a),
                    self.links[self.index_of(a)].push(self.index_of(b)),
                ),
            }
        }
    }

    /// The graph with an edge from `a` to `b` and, where `both` is set, one
    /// from `b` to `a` as well.
    pub open spec fn join(self, a: V, b: V, both: bool) -> Self {
        if both {
            self.add_edge(a, b).add_edge(b, a)
        } else {
            self.add_edge(a, b)
        }
    }

    /// Every edge has one in the other direction.
    pub open spec fn symmetric(self) -> bool {
        forall|a: V, b: V| #[trigger] self.has_edge(a, b) ==> self.has_edge(b, a)
    }

    /// The values of the nodes that the edges of `a` lead to.
    pub open spec fn neighbors(self, a: V) -> Seq<V> {
        if self.has_node(a) {
            self.links[self.index_of(a)].map_values(|j: int| self.nodes[j])
        } else {
            Seq::empty()
        }
    }

    /// Edges lead from `a` to `b`: one, or several in a row.
    pub open spec fn connected(self, a: V, b: V) -> bool {
        self.has_node(a) && self.has_node(b) && reachable(
            self.links,
            self.index_of(a),
            self.index_of(b),
        )
    }

    /// The values of the nodes that a trail from node `start` passes.
    pub open spec fn path(self, start: int, trail: Seq<(int, int)>) -> Seq<V> {
        nodes_on(self.links, start, trail).map_values(|x: int| self.nodes[x])
    }

    /// The simple paths from `a` to `b`, each as the values of its nodes, in
    /// the order of a depth-first search that takes the edges of each node
    /// in the order in which they were added.  A path has at least one edge
    /// and passes no node twice, so there is none from a node to itself.
    pub open spec fn simple_paths(self, a: V, b: V) -> Seq<Seq<V>> {
        if self.has_node(a) && self.has_node(b) {
            trails(self.links, self.index_of(a), self.index_of(b)).map_values(
                |t: Seq<(int, int)>| self.path(self.index_of(a), t),
            )
        } else {
            Seq::empty()
        }
    }

    /// Adding a node keeps the graph consistent.
    pub proof fn lemma_add_node_wf(self, v: V)
        requires
            self.wf(),
        ensures
            self.add_node(v).wf(),
    {
        if !self.has_node(v) {
            let g = self.add_node(v);
            assert forall|i: int, j: int| 0 <= i < g.nodes.len() && 0 <= j < g.nodes.len() && i
                != j implies g.nodes[i] != g.nodes[j] by {
                if i < self.nodes.len() && j < self.nodes.len() {
                } else if i < self.nodes.len() {
                    assert(self.nodes[i] == g.nodes[i]);
                } else {
                    assert(self.nodes[j] == g.nodes[j]);
                }
            }
            assert forall|u: int, k: int|
                0 <= u < g.links.len() && 0 <= k < g.links[u].len() implies 0
                <= #[trigger] g.links[u][k] < g.links.len() by {
                assert(g.links[u] == self.links[u]);
            }
            assert forall|u: int| 0 <= u < g.links.len() implies (
            #[trigger] g.links[u]).no_duplicates() by {
                if u < self.links.len() {
                    assert(g.links[u] == self.links[u]);
                }
            }
        }
    }

    /// An old node keeps its index when a node is added.
    pub proof fn lemma_add_node_index(self, v: V, x: V)
        requires
            self.wf(),
            self.has_node(x),
        ensures
            self.add_node(v).has_node(x),
            self.add_node(v).index_of(x) == self.index_of(x),
    {
        let g = self.add_node(v);
        self.lemma_add_node_wf(v);
        lemma_index_of_found(self.nodes, x);
        let i = self.index_of(x);
        assert(g.nodes[i] == x);
        lemma_index_of_unique(g.nodes, i);
    }

    /// Adding a node adds no edge and takes none away.
    pub proof fn lemma_add_node_has_edge(self, v: V, x: V, y: V)
        requires
            self.wf(),
        ensures
            self.add_node(v).has_edge(x, y) == self.has_edge(x, y),
    {
        if !self.has_node(v) {
            let g = self.add_node(v);
            let n = self.nodes.len() as int;
            self.lemma_add_node_wf(v);
            assert(g.nodes[n] == v);
            lemma_index_of_unique(g.nodes, n);
            if g.has_node(x) && g.has_node(y) {
                lemma_index_of_found(g.nodes, x);
                lemma_index_of_found(g.nodes, y);
                if x == v {
                    assert(g.links[n] =~= Seq::<int>::empty());
                    assert(!self.has_edge(x, y));
                } else {
                    let ix = g.index_of(x);
                    assert(self.nodes[ix] == x);
                    self.lemma_add_node_index(v, x);
                    assert(g.links[ix] == self.links[ix]);
                    if y == v {
                        if self.links[ix].contains(n) {
                            let k = choose|k: int|
                                0 <= k < self.links[ix].len() && self.links[ix][k] == n;
                            assert(self.links[ix][k] < self.links.len());
                        }
                        assert(!self.has_edge(x, y));
                    } else {
                        let iy = g.index_of(y);
                        assert(self.nodes[iy] == y);
                        self.lemma_add_node_index(v, y);
                    }
                }
            } else {
                if self.has_node(x) {
                    self.lemma_add_node_index(v, x);
                }
                if self.has_node(y) {
                    self.lemma_add_node_index(v, y);
                }
            }
        }
    }

    /// Adding an edge keeps the graph consistent.
    pub proof fn lemma_add_edge_wf(self, a: V, b: V)
        requires
            self.wf(),
        ensures
            self.add_edge(a, b).wf(),
    {
        if self.has_node(a) && self.has_node(b) && !self.has_edge(a, b) {
            let g = self.add_edge(a, b);
            let i = self.index_of(a);
            let j = self.index_of(b);
            lemma_index_of_found(self.nodes, a);
            lemma_index_of_found(self.nodes, b);
            let grown = self.links[i].push(j);
            assert(g.links[i] == grown);
            assert forall|u: int, k: int|
                0 <= u < g.links.len() && 0 <= k < g.links[u].len() implies 0
                <= #[trigger] g.links[u][k] < g.links.len() by {
                if u == i {
                    if k < self.links[i].len() {
                        assert(grown[k] == self.links[i][k]);
                    }
                } else {
                    assert(g.links[u] == self.links[u]);
                }
            }
            assert forall|u: int| 0 <= u < g.links.len() implies (
            #[trigger] g.links[u]).no_duplicates() by {
                if u == i {
                    assert(self.links[i].no_duplicates());
                    assert forall|x: int, y: int|
                        0 <= x < grown.len() && 0 <= y < grown.len() && x != y implies grown[x]
                        != grown[y] by {
                        if x < self.links[i].len() && y < self.links[i].len() {
                        } else if x < self.links[i].len() {
                            assert(self.links[i][x] == grown[x]);
                        } else {
                            assert(self.links[i][y] == grown[y]);
                        }
                    }
                } else {
                    assert(g.links[u] == self.links[u]);
                }
            }
        }
    }

    /// What edges a graph has after one was added.
    pub proof fn lemma_add_edge_has_edge(self, a: V, b: V, x: V, y: V)
        requires
            self.wf(),
        ensures
            self.add_edge(a, b).has_edge(x, y) == (self.has_edge(x, y) || (x == a && y == b
                && self.has_node(a) && self.has_node(b))),
    {
        if self.has_node(a) && self.has_node(b) && !self.has_edge(a, b) {
            let g = self.add_edge(a, b);
            let i = self.index_of(a);
            let j = self.index_of(b);
            lemma_index_of_found(self.nodes, a);
            lemma_index_of_found(self.nodes, b);
            let grown = self.links[i].push(j);
            assert(g.links[i] == grown);
            if self.has_node(x) && self.has_node(y) {
                let ix = self.index_of(x);
                let iy = self.index_of(y);
                lemma_index_of_found(self.nodes, x);
                lemma_index_of_found(self.nodes, y);
                if ix == i {
                    if grown.contains(iy) {
                        let k = choose|k: int| 0 <= k < grown.len() && grown[k] == iy;
                        if k < self.links[i].len() {
                            assert(self.links[i][k] == iy);
                        }
                    }
                    if self.links[i].contains(iy) {
                        let k = choose|k: int| 0 <= k < self.links[i].len() && self.links[i][k] == iy;
                        assert(grown[k] == iy);
                    }
                    if iy == j {
                        assert(grown[self.links[i].len() as int] == iy);
                    }
                } else {
                    assert(g.links[ix] == self.links[ix]);
                }
            }
        }
    }

    /// What edges a graph has after two nodes were joined.
    pub proof fn lemma_join_has_edge(self, a: V, b: V, both: bool, x: V, y: V)
        requires
            self.wf(),
        ensures
            self.join(a, b, both).wf(),
            self.join(a, b, both).nodes == self.nodes,
            self.join(a, b, both).has_edge(x, y) == (self.has_edge(x, y) || ((x == a && y == b || both
                && x == b && y == a) && self.has_node(a) && self.has_node(b))),
    {
        self.lemma_add_edge_wf(a, b);
        self.lemma_add_edge_has_edge(a, b, x, y);
        if both {
            self.add_edge(a, b).lemma_add_edge_wf(b, a);
            self.add_edge(a, b).lemma_add_edge_has_edge(b, a, x, y);
        }
    }

    /// Joining two nodes in both directions keeps the edges paired.
    pub proof fn lemma_join_symmetric(self, a: V, b: V)
        requires
            self.wf(),
            self.symmetric(),
        ensures
            self.join(a, b, true).symmetric(),
    {
        let g = self.join(a, b, true);
        assert forall|x: V, y: V| #[trigger] g.has_edge(x, y) implies g.has_edge(y, x) by {
            self.lemma_join_has_edge(a, b, true, x, y);
            self.lemma_join_has_edge(a, b, true, y, x);
        }
    }

    /// Adding a node keeps the edges paired.
    pub proof fn lemma_add_node_symmetric(self, v: V)
        requires
            self.wf(),
            self.symmetric(),
        ensures
            self.add_node(v).symmetric(),
    {
        let g = self.add_node(v);
        assert forall|x: V, y: V| #[trigger] g.has_edge(x, y) implies g.has_edge(y, x) by {
            self.lemma_add_node_has_edge(v, x, y);
            self.lemma_add_node_has_edge(v, y, x);
        }
    }
}

impl DiGraphView<Seq<char>> {
    /// The graph after the first `n` tokens of a chain: each token that is
    /// not empty is a node, and each token is joined to the one before it
    /// where that one is not empty.
    pub open spec fn with_tokens(self, tokens: Seq<Seq<char>>, n: int, both: bool) -> Self
        decreases n,
    {
        if n <= 0 {
            self
        } else {
            let before = self.with_tokens(tokens, n - 1, both);
            let token = tokens[n - 1];
            let named = if token.len() > 0 {
                before.add_node(token)
            } else {
                before
            };
            if n >= 2 && tokens[n - 2].len() > 0 {
                named.join(tokens[n - 2], token, both)
            } else {
                named
            }
        }
    }

    /// The graph after the first `m` chains.
    pub open spec fn with_chains(self, chains: Seq<Seq<Seq<char>>>, m: int, both: bool) -> Self
        decreases m,
    {
        if m <= 0 {
            self
        } else {
            self.with_chains(chains, m - 1, both).with_tokens(
                chains[m - 1],
                chains[m - 1].len() as int,
                both,
            )
        }
    }

    /// The graph that a list of chains describes.
    pub open spec fn from_chains(chains: Seq<Seq<Seq<char>>>, both: bool) -> Self {
        Self::empty().with_chains(chains, chains.len() as int, both)
    }
}

/// A node: its value and the indices of the nodes that its edges lead to.
pub struct Node<T> {
    elem: T,
    neighbors: Vec<usize>,
}

impl<T: Element> Node<T> {
    /// The value of the node.
    pub closed spec fn value(&self) -> T::V {
        self.elem@
    }

    /// The indices of the nodes that the edges of the node lead to.
    pub closed spec fn targets(&self) -> Seq<int> {
        Seq::new(self.neighbors@.len(), |k: int| self.neighbors@[k] as int)
    }

    /// A node without edges.
    pub fn new(elem: T) -> (node: Self)
        ensures
            node.value() == elem@,
            node.targets() == Seq::<int>::empty(),
    {
        let node = Node { elem: elem, neighbors: Vec::new() };
        assert(node.targets() =~= Seq::<int>::empty());
        node
    }
}

/// A directed graph with nodes of type `T`.
pub struct DiGraph<T> {
    nodes: Vec<Node<T>>,
}

impl<T: Element> View for DiGraph<T> {
    type V = DiGraphView<T::V>;

    closed spec fn view(&self) -> Self::V {
        DiGraphView {
            nodes: Seq::new(self.nodes@.len(), |i: int| self.nodes@[i].value()),
            links: Seq::new(self.nodes@.len(), |i: int| self.nodes@[i].targets()),
        }
    }
}

impl<T: Element> Adjacency for DiGraph<T> {
    open spec fn links(&self) -> Seq<Seq<int>> {
        self@.links
    }

    fn order(&self) -> (n: usize) {
        self.nodes.len()
    }

    fn degree(&self, u: usize) -> (d: usize) {
        self.nodes[u].neighbors.len()
    }

    fn target(&self, u: usize, k: usize) -> (v: usize) {
        self.nodes[u].neighbors[k]
    }
}

impl<T: Element> DiGraph<T> {
    /// The text of the `k`-th edge of node `u`.
    pub open spec fn statement(g: DiGraphView<T::V>, u: int, k: int) -> Seq<char> {
        T::text_of(g.nodes[u]) + " -> "@ + T::text_of(g.nodes[g.links[u][k]]) + ";\n"@
    }

    /// The text of the first `k` edges of node `u`.
    pub open spec fn node_statements(g: DiGraphView<T::V>, u: int, k: int) -> Seq<char>
        decreases k,
    {
        if k <= 0 {
            Seq::empty()
        } else {
            Self::node_statements(g, u, k - 1) + Self::statement(g, u, k - 1)
        }
    }

    /// The text of the edges of the first `u` nodes.
    pub open spec fn statements(g: DiGraphView<T::V>, u: int) -> Seq<char>
        decreases u,
    {
        if u <= 0 {
            Seq::empty()
        } else {
            Self::statements(g, u - 1) + Self::node_statements(
                g,
                u - 1,
                g.links[u - 1].len() as int,
            )
        }
    }

    /// The text of the graph: a heading with the name, one statement for
    /// each edge, node by node, and a closing line.
    pub open spec fn text(g: DiGraphView<T::V>, name: Seq<char>) -> Seq<char> {
        "digraph "@ + name + "{\n"@ + Self::statements(g, g.nodes.len() as int) + "}\n"@
    }

    /// A graph without nodes.
    pub fn new() -> (graph: Self)
        ensures
            graph@ == DiGraphView::<T::V>::empty(),
            graph.wf(),
    {
        let graph = DiGraph { nodes: Vec::new() };
        assert(graph@.nodes =~= Seq::<T::V>::empty());
        assert(graph@.links =~= Seq::<Seq<int>>::empty());
        graph
    }

    /// The place of the node with the value of `v`.
    fn find(&self, v: &T) -> (found: Option<usize>)
        ensures
            match found {
                Some(i) => i < self@.nodes.len() && self@.nodes[i as int] == v@ && self@.has_node(
                    v@,
                ) && (self@.wf() ==> i == self@.index_of(v@)),
                None => !self@.has_node(v@),
            },
    {
        let mut i: usize = 0;
        while i < self.nodes.len()
            invariant
                i <= self.nodes@.len(),
                forall|j: int| 0 <= j < i ==> self@.nodes[j] != v@,
            decreases self.nodes@.len() - i,
        {
            if self.nodes[i].elem.same(v) {
                proof {
                    assert(self@.nodes[i as int] == v@);
                    if self@.wf() {
                        lemma_index_of_unique(self@.nodes, i as int);
                    }
                }
                return Some(i);
            }
            i += 1;
        }
        None
    }

    /// The index of the node `from`, or `NotFound` where the graph has no
    /// such node.
    pub fn get_index_by_node_id(&self, from: T) -> (found: Result<usize, NotFound>)
        requires
            self.wf(),
        ensures
            match found {
                Ok(i) => self@.has_node(from@) && i == self@.index_of(from@),
                Err(_) => !self@.has_node(from@),
            },
    {
        match self.find(&from) {
            Some(i) => Ok(i),
            None => Err(NotFound),
        }
    }

    /// Tells whether node `i` has an edge to node `j`.
    fn has_arc(&self, i: usize, j: usize) -> (b: bool)
        requires
            i < self@.nodes.len(),
        ensures
            b == self@.links[i as int].contains(j as int),
    {
        let arcs = &self.nodes[i].neighbors;
        let mut k: usize = 0;
        while k < arcs.len()
            invariant
                i < self@.nodes.len(),
                arcs == &self.nodes@[i as int].neighbors,
                k <= arcs@.len(),
                forall|x: int| 0 <= x < k ==> self@.links[i as int][x] != j as int,
            decreases arcs@.len() - k,
        {
            if arcs[k] == j {
                assert(self@.links[i as int][k as int] == j as int);
                return true;
            }
            k += 1;
        }
        false
    }

    /// Adds the node `elem`, unless the graph has it already.
    pub fn insert(&mut self, elem: T)
        requires
            old(self).wf(),
        ensures
            final(self).wf(),
            final(self)@ == old(self)@.add_node(elem@),
    {
        proof {
            self@.lemma_add_node_wf(elem@);
        }
        match self.find(&elem) {
            Some(_) => {},
            None => {
                let node = Node::new(elem);
                self.nodes.push(node);
                assert(self@.nodes =~= old(self)@.nodes.push(elem@));
                assert(self@.links =~= old(self)@.links.push(Seq::empty()));
            },
        }
    }

    /// Adds an edge from `from` to `to`.  Nothing changes where one of the
    /// two is no node, or where the edge is there already.
    pub fn link(&mut self, from: &T, to: &T)
        requires
            old(self).wf(),
        ensures
            final(self).wf(),
            final(self)@ == old(self)@.add_edge(from@, to@),
    {
        proof {
            self@.lemma_add_edge_wf(from@, to@);
        }
        let i = match self.find(from) {
            Some(i) => i,
            None => { return ; },
        };
        let j = match self.find(to) {
            Some(j) => j,
            None => { return ; },
        };
        if self.has_arc(i, j) {
            return ;
        }
        self.nodes[i].neighbors.push(j);
        assert(self@.nodes =~= old(self)@.nodes);
        assert(self@.links[i as int] =~= old(self)@.links[i as int].push(j as int));
        assert(self@.links =~= old(self)@.links.update(
            i as int,
            old(self)@.links[i as int].push(j as int),
        ));
    }

    /// Tells whether an edge leads from `from` to `to`.
    pub fn has_link(&self, from: &T, to: &T) -> (b: bool)
        requires
            self.wf(),
        ensures
            b == self@.has_edge(from@, to@),
    {
        let i = match self.find(from) {
            Some(i) => i,
            None => { return false; },
        };
        let j = match self.find(to) {
            Some(j) => j,
            None => { return false; },
        };
        self.has_arc(i, j)
    }

    /// Tells whether edges lead from `from` to `to`.
    pub fn has_route(&self, from: &T, to: &T) -> (b: bool)
        requires
            self.wf(),
        ensures
            b == self@.connected(from@, to@),
    {
        let i = match self.find(from) {
            Some(i) => i,
            None => { return false; },
        };
        let j = match self.find(to) {
            Some(j) => j,
            None => { return false; },
        };
        reaches(self, i, j)
    }

    /// The values of the nodes of a trail from node `start`.
    fn nodes_along(&self, start: usize, trail: &Vec<(usize, usize)>) -> (path: Vec<T>)
        requires
            self.wf(),
            start < self@.nodes.len(),
            forall|q: int|
                0 <= q < trail@.len() ==> (#[trigger] trail@[q]).0 < self@.nodes.len()
                    && trail@[q].1 < self@.links[trail@[q].0 as int].len(),
        ensures
            values_of(path@) == self@.path(start as int, lift_trail(trail@)),
    {
        let mut path: Vec<T> = Vec::new();
        path.push(self.nodes[start].elem.duplicate());
        let ghost whole = self@.path(start as int, lift_trail(trail@));
        assert(values_of(path@) =~= whole.subrange(0, 1));
        let mut q: usize = 0;
        while q < trail.len()
            invariant
                self.wf(),
                forall|q: int|
                    0 <= q < trail@.len() ==> (#[trigger] trail@[q]).0 < self@.nodes.len()
                        && trail@[q].1 < self@.links[trail@[q].0 as int].len(),
                q <= trail@.len(),
                whole == self@.path(start as int, lift_trail(trail@)),
                values_of(path@) == whole.subrange(0, q + 1),
            decreases trail@.len() - q,
        {
            let e = trail[q];
            assert(trail@[q as int] == e);
            let v = self.nodes[e.0].neighbors[e.1];
            assert(self@.links[e.0 as int][e.1 as int] == v as int);
            let ghost before = values_of(path@);
            path.push(self.nodes[v].elem.duplicate());
            q += 1;
            assert(values_of(path@) =~= before.push(self@.nodes[v as int]));
            assert(values_of(path@) =~= whole.subrange(0, q + 1));
        }
        assert(whole.subrange(0, q + 1) =~= whole);
        path
    }

    /// Lists the simple paths from `from` to `to`.
    pub fn paths(&self, from: &T, to: &T) -> (paths: Vec<Vec<T>>)
        requires
            self.wf(),
        ensures
            paths_of(paths@) == self@.simple_paths(from@, to@),
    {
        let mut paths: Vec<Vec<T>> = Vec::new();
        let i = match self.find(from) {
            Some(i) => i,
            None => {
                assert(paths_of(paths@) =~= self@.simple_paths(from@, to@));
                return paths;
            },
        };
        let j = match self.find(to) {
            Some(j) => j,
            None => {
                assert(paths_of(paths@) =~= self@.simple_paths(from@, to@));
                return paths;
            },
        };
        let found = simple_trails(self, i, j);
        let ghost all = trails(self@.links, i as int, j as int);
        proof {
            lemma_trails_simple(self@.links, i as int, j as int);
        }
        let mut p: usize = 0;
        while p < found.len()
            invariant
                self.wf(),
                i < self@.nodes.len(),
                all == lift_trails(found@),
                forall|x: int|
                    0 <= x < all.len() ==> is_simple_trail(self@.links, i as int, #[trigger] all[x]),
                p <= found@.len(),
                paths_of(paths@) == all.subrange(0, p as int).map_values(
                    |t: Seq<(int, int)>| self@.path(i as int, t),
                ),
            decreases found@.len() - p,
        {
            let trail = &found[p];
            proof {
                let t = all[p as int];
                assert(t == lift_trail(trail@));
                assert(is_simple_trail(self@.links, i as int, t));
                assert forall|q: int| 0 <= q < trail@.len() implies (#[trigger] trail@[q]).0
                    < self@.nodes.len() && trail@[q].1 < self@.links[trail@[q].0 as int].len() by {
                    assert(t[q] == (trail@[q].0 as int, trail@[q].1 as int));
                }
            }
            let path = self.nodes_along(i, trail);
            let ghost before = paths_of(paths@);
            paths.push(path);
            p += 1;
            assert(paths_of(paths@) =~= before.push(self@.path(i as int, all[p - 1])));
            assert(paths_of(paths@) =~= all.subrange(0, p as int).map_values(
                |t: Seq<(int, int)>| self@.path(i as int, t),
            ));
        }
        assert(all.subrange(0, p as int) =~= all);
        paths
    }

    /// Lists the nodes that the edges of `from` lead to.
    pub fn neighbors(&self, from: &T) -> (neighbors: Vec<T>)
        requires
            self.wf(),
        ensures
            values_of(neighbors@) == self@.neighbors(from@),
    {
        let mut neighbors: Vec<T> = Vec::new();
        let i = match self.find(from) {
            Some(i) => i,
            None => {
                assert(values_of(neighbors@) =~= self@.neighbors(from@));
                return neighbors;
            },
        };
        let arcs = &self.nodes[i].neighbors;
        let mut k: usize = 0;
        while k < arcs.len()
            invariant
                self.wf(),
                i < self@.nodes.len(),
                i == self@.index_of(from@),
                self@.has_node(from@),
                arcs == &self.nodes@[i as int].neighbors,
                k <= arcs@.len(),
                values_of(neighbors@) == self@.neighbors(from@).subrange(0, k as int),
            decreases arcs@.len() - k,
        {
            let v = arcs[k];
            assert(self@.links[i as int][k as int] == v as int);
            let ghost before = values_of(neighbors@);
            neighbors.push(self.nodes[v].elem.duplicate());
            assert(values_of(neighbors@) =~= before.push(self@.neighbors(from@)[k as int]));
            k += 1;
            assert(values_of(neighbors@) =~= self@.neighbors(from@).subrange(0, k as int));
        }
        assert(self@.neighbors(from@).subrange(0, k as int) =~= self@.neighbors(from@));
        neighbors
    }
}

impl<T: Element> IGraph<T> for DiGraph<T> {
    open spec fn wf(&self) -> bool {
        self@.wf()
    }

    open spec fn values(&self) -> Seq<T::V> {
        self@.nodes
    }

    open spec fn linked(&self, from: T::V, to: T::V) -> bool {
        self@.has_edge(from, to)
    }

    open spec fn routed(&self, from: T::V, to: T::V) -> bool {
        self@.connected(from, to)
    }

    open spec fn dot_text(&self, name: Seq<char>) -> Seq<char> {
        Self::text(self@, name)
    }

    fn add_node(&mut self, elem: T)
        ensures
            final(self)@ == old(self)@.add_node(elem@),
    {
        self.insert(elem);
    }

    fn node_exists(&self, node: T) -> (b: bool) {
        match self.find(&node) {
            Some(_) => true,
            None => false,
        }
    }

    fn is_connected(&self, from: T, to: T) -> (b: bool) {
        self.has_route(&from, &to)
    }

    fn is_directly_connected(&self, from: T, to: T) -> (b: bool) {
        self.has_link(&from, &to)
    }

    fn to_dot_string(&self, graph_name: &str) -> (s: String) {
        let mut s = String::new();
        s.append("digraph ");
        s.append(graph_name);
        s.append("{\n");
        let ghost g = self@;
        let ghost head = "digraph "@ + graph_name@ + "{\n"@;
        assert(s@ =~= head);
        let mut u: usize = 0;
        while u < self.nodes.len()
            invariant
                self.wf(),
                g == self@,
                u <= self.nodes@.len(),
                s@ == head + Self::statements(g, u as int),
            decreases self.nodes@.len() - u,
        {
            let node = &self.nodes[u];
            let mut k: usize = 0;
            assert(s@ =~= head + Self::statements(g, u as int) + Self::node_statements(
                g,
                u as int,
                0,
            ));
            while k < node.neighbors.len()
                invariant
                    self.wf(),
                    g == self@,
                    u < self.nodes@.len(),
                    node == &self.nodes@[u as int],
                    k <= node.neighbors@.len(),
                    s@ == head + Self::statements(g, u as int) + Self::node_statements(
                        g,
                        u as int,
                        k as int,
                    ),
                decreases node.neighbors@.len() - k,
            {
                let v = node.neighbors[k];
                assert(g.links[u as int][k as int] == v as int);
                let ghost before = s@;
                s.append(node.elem.text().as_str());
                s.append(" -> ");
                s.append(self.nodes[v].elem.text().as_str());
                s.append(";\n");
                assert(s@ =~= before + Self::statement(g, u as int, k as int));
                k += 1;
                assert(s@ =~= head + Self::statements(g, u as int) + Self::node_statements(
                    g,
                    u as int,
                    k as int,
                ));
            }
            u += 1;
            assert(s@ =~= head + Self::statements(g, u as int));
        }
        s.append("}\n");
        s
    }

    fn is_empty(&self) -> (b: bool) {
        self.nodes.len() == 0
    }

    fn count_nodes(&self) -> (n: usize) {
        self.nodes.len()
    }

    fn get_nodes(&self) -> (nodes: Vec<T>) {
        let mut nodes: Vec<T> = Vec::new();
        let mut i: usize = 0;
        while i < self.nodes.len()
            invariant
                i <= self.nodes@.len(),
                values_of(nodes@) == self@.nodes.subrange(0, i as int),
            decreases self.nodes@.len() - i,
        {
            let ghost before = values_of(nodes@);
            nodes.push(self.nodes[i].elem.duplicate());
            assert(values_of(nodes@) =~= before.push(self@.nodes[i as int]));
            i += 1;
            assert(values_of(nodes@) =~= self@.nodes.subrange(0, i as int));
        }
        assert(self@.nodes.subrange(0, i as int) =~= self@.nodes);
        nodes
    }
}

impl<T: Element> IDiGraph<T> for DiGraph<T> {
    open spec fn successors(&self, from: T::V) -> Seq<T::V> {
        self@.neighbors(from)
    }

    open spec fn simple_paths(&self, from: T::V, to: T::V) -> Seq<Seq<T::V>> {
        self@.simple_paths(from, to)
    }

    fn add_edge(&mut self, from: T, to: T)
        ensures
            final(self)@ == old(self)@.add_edge(from@, to@),
    {
        proof {
            assert forall|a: T::V, b: T::V|
                old(self)@.add_edge(from@, to@).has_edge(a, b) == (old(self)@.has_edge(a, b) || (a
                    == from@ && b == to@ && old(self)@.has_node(from@) && old(self)@.has_node(
                    to@,
                ))) by {
                old(self)@.lemma_add_edge_has_edge(from@, to@, a, b);
            }
        }
        self.link(&from, &to);
    }

    fn all_simple_paths(&self, from: T, to: T) -> (paths: Vec<Vec<T>>) {
        self.paths(&from, &to)
    }

    fn get_neighbors(&self, from: T) -> (neighbors: Vec<T>) {
        self.neighbors(&from)
    }
}

impl DiGraph<String> {
    /// Builds the graph that a list of chains describes: each token that
    /// is not empty is a node, and each token is joined to the one before it
    /// where that one is not empty; in both directions where `both` is set.
    pub fn from_chains(chains: &Vec<Vec<String>>, both: bool) -> (graph: Self)
        ensures
            graph.wf(),
            graph@ == DiGraphView::from_chains(paths_of(chains@), both),
            both ==> graph@.symmetric(),
    {
        let mut graph = DiGraph::<String>::new();
        let ghost all = paths_of(chains@);
        let ghost none = DiGraphView::<Seq<char>>::empty();
        let mut m: usize = 0;
        while m < chains.len()
            invariant
                all == paths_of(chains@),
                none == DiGraphView::<Seq<char>>::empty(),
                m <= chains@.len(),
                graph.wf(),
                graph@ == none.with_chains(all, m as int, both),
                both ==> graph@.symmetric(),
            decreases chains@.len() - m,
        {
            let chain = &chains[m];
            let ghost start = graph@;
            let ghost tokens = all[m as int];
            assert(tokens == values_of(chain@));
            let mut q: usize = 0;
            while q < chain.len()
                invariant
                    tokens == values_of(chain@),
                    q <= chain@.len(),
                    graph.wf(),
                    graph@ == start.with_tokens(tokens, q as int, both),
                    both ==> graph@.symmetric(),
                decreases chain@.len() - q,
            {
                let token = &chain[q];
                assert(tokens[q as int] == token@);
                if !token.as_str().is_empty() {
                    proof {
                        if both {
                            graph@.lemma_add_node_symmetric(token@);
                        }
                    }
                    graph.insert(token.clone());
                }
                if q > 0 {
                    let prev = &chain[q - 1];
                    assert(tokens[q - 1] == prev@);
                    if !prev.as_str().is_empty() {
                        proof {
                            graph@.lemma_add_edge_wf(prev@, token@);
                            if both {
                                graph@.lemma_join_symmetric(prev@, token@);
                            }
                        }
                        graph.link(prev, token);
                        if both {
                            graph.link(token, prev);
                        }
                    }
                }
                q += 1;
            }
            m += 1;
        }
        graph
    }
}

/// Reads a directed graph from text.  Each name in a statement is a node,
/// and an edge leads to each name from the one before it in the statement.
/// The text is refused where it has no `{`, no `}`, or the two in the wrong
/// order.
pub fn digraph_from_dot_string(content: &String) -> (r: Result<DiGraph<String>, ParseError>)
    ensures
        match r {
            Ok(g) => {
                &&& g.wf()
                &&& parsed_chains(content@) matches Ok(chains)
                &&& g@ == DiGraphView::from_chains(chains, false)
            },
            Err(e) => parsed_chains(content@) == Err::<Seq<Seq<Seq<char>>>, ParseError>(e),
        },
{
    match parse_chains(content.as_str()) {
        Ok(chains) => Ok(DiGraph::from_chains(&chains, false)),
        Err(e) => Err(e),
    }
}

} // verus!
