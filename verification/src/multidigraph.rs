//! Directed graphs whose edges carry a label each, so that several edges
//! may join the same two nodes.

use vstd::prelude::*;
use vstd::string::StringExecFns;
use crate::element::{Element, values_of};
use crate::rugraph::{
    IGraph, IMultiDiGraph, NotFound, arcs_of, steps_of, step_paths_of, lemma_index_of_unique,
    lemma_index_of_found,
};
use crate::search::{
    Adjacency, closed, reachable, trails, simple_trails, reaches, lift_trail, lift_trails,
    lemma_trails_simple, is_simple_trail,
};
use crate::dot::{ParseError, parse_arcs, parsed_arcs};

verus! {

/// What a multi-edge graph is: the values of its nodes, in the order in
/// which they were added, and for each node the edges that leave it, each as
/// the index of the node it leads to and its label, in the order in which
/// they were added.
#[verifier::ext_equal]
pub struct MultiDiGraphView<V, L> {
    pub nodes: Seq<V>,
    pub links: Seq<Seq<(int, L)>>,
}

impl<V, L> MultiDiGraphView<V, L> {
    /// No value is a node twice, every edge leads to a node, and no node
    /// has two edges with the same destination and label.
    pub open spec fn wf(self) -> bool {
        &&& self.nodes.no_duplicates()
        &&& self.links.len() == self.nodes.len()
        &&& forall|u: int, k: int|
            0 <= u < self.links.len() && 0 <= k < self.links[u].len() ==> 0 <= (
            #[trigger] self.links[u][k]).0 < self.nodes.len()
        &&& forall|u: int| 0 <= u < self.links.len() ==> (#[trigger] self.links[u]).no_duplicates()
    }

    /// The graph without nodes.
    pub open spec fn empty() -> Self {
        MultiDiGraphView { nodes: Seq::empty(), links: Seq::empty() }
    }

    pub open spec fn has_node(self, v: V) -> bool {
        self.nodes.contains(v)
    }

    /// The index of the node `v`.
    pub open spec fn index_of(self, v: V) -> int {
        self.nodes.index_of(v)
    }

    /// The graph with the node `v`, which comes last where it is new.
    pub open spec fn add_node(self, v: V) -> Self {
        if self.has_node(v) {
            self
        } else {
            MultiDiGraphView { nodes: self.nodes.push(v), links: self.links.push(Seq::empty()) }
        }
    }

    /// An edge with the label `l` leads from `a` to `b`.
    pub open spec fn has_edge_by(self, a: V, b: V, l: L) -> bool {
        self.has_node(a) && self.has_node(b) && self.links[self.index_of(a)].contains(
            (self.index_of(b), l),
        )
    }

    /// An edge leads from `a` to `b`.
    pub open spec fn has_edge(self, a: V, b: V) -> bool {
        self.has_node(a) && self.has_node(b) && exists|k: int|
            0 <= k < self.links[self.index_of(a)].len() && (
            #[trigger] self.links[self.index_of(a)][k]).0 == self.index_of(b)
    }

    /// The graph with an edge from `a` to `b` under the label `l`: the last
    /// edge of `a` where it is new, and no change where `a` or `b` is no
    /// node or the edge is there already.
    pub open spec fn add_edge(self, a: V, b: V, l: L) -> Self {
        if !self.has_node(a) || !self.has_node(b) || self.has_edge_by(a, b, l) {
            self
        } else {
            MultiDiGraphView {
                nodes: self.nodes,
                links: self.links.update(
                    self.index_of(a),
                    self.links[self.index_of(a)].push((self.index_of(b), l)),
                ),
            }
        }
    }

    /// The edges that leave `a`, each as the value of the node it leads to
    /// and its label.
    pub open spec fn arcs(self, a: V) -> Seq<(V, L)> {
        if self.has_node(a) {
            self.links[self.index_of(a)].map_values(|e: (int, L)| (self.nodes[e.0], e.1))
        } else {
            Seq::empty()
        }
    }

    /// The successor lists without the labels.
    pub open spec fn targets(self) -> Seq<Seq<int>> {
        self.links.map_values(|s: Seq<(int, L)>| s.map_values(|e: (int, L)| e.0))
    }

    /// Edges lead from `a` to `b`: one, or several in a row.
    pub open spec fn connected(self, a: V, b: V) -> bool {
        self.has_node(a) && self.has_node(b) && reachable(
            self.targets(),
            self.index_of(a),
            self.index_of(b),
        )
    }

    /// The `k`-th edge of node `u` as source, destination and label.
    pub open spec fn step(self, e: (int, int)) -> (V, V, L) {
        (self.nodes[e.0], self.nodes[self.links[e.0][e.1].0], self.links[e.0][e.1].1)
    }

    pub open spec fn steps(self, t: Seq<(int, int)>) -> Seq<(V, V, L)> {
        t.map_values(|e: (int, int)| self.step(e))
    }

    /// The simple paths from `a` to `b`, in the order of a depth-first
    /// search that takes the edges of each node in the order in which they
    /// were added.  A path passes no node twice, so there is none from a
    /// node to itself.
    pub open spec fn simple_paths(self, a: V, b: V) -> Seq<Seq<(V, V, L)>> {
        if self.has_node(a) && self.has_node(b) {
            trails(self.targets(), self.index_of(a), self.index_of(b)).map_values(
                |t: Seq<(int, int)>| self.steps(t),
            )
        } else {
            Seq::empty()
        }
    }

    pub proof fn lemma_targets(self)
        requires
            self.wf(),
        ensures
            closed(self.targets()),
            self.targets().len() == self.nodes.len(),
            forall|u: int|
                0 <= u < self.nodes.len() ==> (#[trigger] self.targets()[u]).len()
                    == self.links[u].len(),
            forall|u: int, k: int|
                0 <= u < self.nodes.len() && 0 <= k < self.links[u].len()
                    ==> #[trigger] self.targets()[u][k] == self.links[u][k].0,
    {
        assert forall|u: int, k: int|
            0 <= u < self.targets().len() && 0 <= k < self.targets()[u].len() implies 0
            <= #[trigger] self.targets()[u][k] < self.targets().len() by {
            assert(self.targets()[u][k] == self.links[u][k].0);
        }
    }

    /// Adding a node keeps the graph consistent.
    pub proof fn lemma_add_node_wf(self, v: V)
        requires
            self.wf(),
        ensures
            self.add_node(v).wf(),
    {
        if !self.has_node(v) {
            let g = self.add_node(v);
            assert forall|i: int, j: int| 0 <= i < g.nodes.len() && 0 <= j < g.nodes.len() && i
                != j implies g.nodes[i] != g.nodes[j] by {
                if i < self.nodes.len() && j < self.nodes.len() {
                } else if i < self.nodes.len() {
                    assert(self.nodes[i] == g.nodes[i]);
                } else {
                    assert(self.nodes[j] == g.nodes[j]);
                }
            }
            assert forall|u: int, k: int|
                0 <= u < g.links.len() && 0 <= k < g.links[u].len() implies 0 <= (
            #[trigger] g.links[u][k]).0 < g.nodes.len() by {
                assert(g.links[u] == self.links[u]);
            }
            assert forall|u: int| 0 <= u < g.links.len() implies (
            #[trigger] g.links[u]).no_duplicates() by {
                if u < self.links.len() {
                    assert(g.links[u] == self.links[u]);
                }
            }
        }
    }

    /// Adding an edge keeps the graph consistent.
    pub proof fn lemma_add_edge_wf(self, a: V, b: V, l: L)
        requires
            self.wf(),
        ensures
            self.add_edge(a, b, l).wf(),
    {
        if self.has_node(a) && self.has_node(b) && !self.has_edge_by(a, b, l) {
            let g = self.add_edge(a, b, l);
            let i = self.index_of(a);
            let j = self.index_of(b);
            lemma_index_of_found(self.nodes, a);
            lemma_index_of_found(self.nodes, b);
            let grown = self.links[i].push((j, l));
            assert(g.links[i] == grown);
            assert forall|u: int, k: int|
                0 <= u < g.links.len() && 0 <= k < g.links[u].len() implies 0 <= (
            #[trigger] g.links[u][k]).0 < g.nodes.len() by {
                if u == i {
                    if k < self.links[i].len() {
                        assert(grown[k] == self.links[i][k]);
                    }
                } else {
                    assert(g.links[u] == self.links[u]);
                }
            }
            assert forall|u: int| 0 <= u < g.links.len() implies (
            #[trigger] g.links[u]).no_duplicates() by {
                if u == i {
                    assert(self.links[i].no_duplicates());
                    assert forall|x: int, y: int|
                        0 <= x < grown.len() && 0 <= y < grown.len() && x != y implies grown[x]
                        != grown[y] by {
                        if x < self.links[i].len() && y < self.links[i].len() {
                        } else if x < self.links[i].len() {
                            assert(self.links[i][x] == grown[x]);
                        } else {
                            assert(self.links[i][y] == grown[y]);
                        }
                    }
                } else {
                    assert(g.links[u] == self.links[u]);
                }
            }
        }
    }

    /// What edges a graph has after one was added.
    pub proof fn lemma_add_edge_has_edge_by(self, a: V, b: V, l: L, x: V, y: V, m: L)
        requires
            self.wf(),
        ensures
            self.add_edge(a, b, l).has_edge_by(x, y, m) == (self.has_edge_by(x, y, m) || (x == a
                && y == b && m == l && self.has_node(a) && self.has_node(b))),
    {
        if self.has_node(a) && self.has_node(b) && !self.has_edge_by(a, b, l) {
            let g = self.add_edge(a, b, l);
            let i = self.index_of(a);
            let j = self.index_of(b);
            lemma_index_of_found(self.nodes, a);
            lemma_index_of_found(self.nodes, b);
            let grown = self.links[i].push((j, l));
            assert(g.links[i] == grown);
            if self.has_node(x) && self.has_node(y) {
                let ix = self.index_of(x);
                let iy = self.index_of(y);
                lemma_index_of_found(self.nodes, x);
                lemma_index_of_found(self.nodes, y);
                if ix == i {
                    if grown.contains((iy, m)) {
                        let k = choose|k: int| 0 <= k < grown.len() && grown[k] == (iy, m);
                        if k < self.links[i].len() {
                            assert(self.links[i][k] == (iy, m));
                        }
                    }
                    if self.links[i].contains((iy, m)) {
                        let k = choose|k: int|
                            0 <= k < self.links[i].len() && self.links[i][k] == (iy, m);
                        assert(grown[k] == (iy, m));
                    }
                    if iy == j && m == l {
                        assert(grown[self.links[i].len() as int] == (iy, m));
                    }
                } else {
                    assert(g.links[ix] == self.links[ix]);
                }
            }
        }
    }
}

impl MultiDiGraphView<Seq<char>, Seq<char>> {
    /// The graph after the first `n` edges of a list: the two ends of each
    /// edge are nodes, the source first, and the edge joins them.
    pub open spec fn with_arcs(
        self,
        arcs: Seq<(Seq<char>, Seq<char>, Seq<char>)>,
        n: int,
    ) -> Self
        decreases n,
    {
        if n <= 0 {
            self
        } else {
            self.with_arcs(arcs, n - 1).add_node(arcs[n - 1].0).add_node(arcs[n - 1].1).add_edge(
                arcs[n - 1].0,
                arcs[n - 1].1,
                arcs[n - 1].2,
            )
        }
    }

    /// The graph that a list of edges describes.
    pub open spec fn from_arcs(arcs: Seq<(Seq<char>, Seq<char>, Seq<char>)>) -> Self {
        Self::empty().with_arcs(arcs, arcs.len() as int)
    }
}

/// An edge: the index of the node it leads to, and its label.
pub struct Edge<E> {
    node: usize,
    edge: E,
}

/// A node: its value and the edges that leave it.
pub struct MultiNode<T, E> {
    elem: T,
    neighbors: Vec<Edge<E>>,
}

impl<T: Element, E: Element> MultiNode<T, E> {
    /// The value of the node.
    pub closed spec fn value(&self) -> T::V {
        self.elem@
    }

    /// The edges that leave the node.
    pub closed spec fn arcs(&self) -> Seq<(int, E::V)> {
        Seq::new(
            self.neighbors@.len(),
            |k: int| (self.neighbors@[k].node as int, self.neighbors@[k].edge@),
        )
    }

    /// A node without edges.
    pub fn new(elem: T) -> (node: Self)
        ensures
            node.value() == elem@,
            node.arcs() == Seq::<(int, E::V)>::empty(),
    {
        let node = MultiNode { elem: elem, neighbors: Vec::new() };
        assert(node.arcs() =~= Seq::<(int, E::V)>::empty());
        node
    }
}

/// A directed graph with labelled edges.  The nodes are of type `T`, the
/// labels of type `E`.
pub struct MultiDiGraph<T, E> {
    nodes: Vec<MultiNode<T, E>>,
}

impl<T: Element, E: Element> View for MultiDiGraph<T, E> {
    type V = MultiDiGraphView<T::V, E::V>;

    closed spec fn view(&self) -> Self::V {
        MultiDiGraphView {
            nodes: Seq::new(self.nodes@.len(), |i: int| self.nodes@[i].value()),
            links: Seq::new(self.nodes@.len(), |i: int| self.nodes@[i].arcs()),
        }
    }
}

impl<T: Element, E: Element> Adjacency for MultiDiGraph<T, E> {
    open spec fn links(&self) -> Seq<Seq<int>> {
        self@.targets()
    }

    fn order(&self) -> (n: usize) {
        self.nodes.len()
    }

    fn degree(&self, u: usize) -> (d: usize) {
        self.nodes[u].neighbors.len()
    }

    fn target(&self, u: usize, k: usize) -> (v: usize) {
        self.nodes[u].neighbors[k].node
    }
}

impl<T: Element, E: Element> MultiDiGraph<T, E> {
    /// The text of the `k`-th edge of node `u`.
    pub open spec fn statement(g: MultiDiGraphView<T::V, E::V>, u: int, k: int) -> Seq<char> {
        T::text_of(g.nodes[u]) + " -> "@ + T::text_of(g.nodes[g.links[u][k].0]) + " [label=\""@
            + E::text_of(g.links[u][k].1) + "\"];\n"@
    }

    /// The text of the first `k` edges of node `u`.
    pub open spec fn node_statements(g: MultiDiGraphView<T::V, E::V>, u: int, k: int) -> Seq<char>
        decreases k,
    {
        if k <= 0 {
            Seq::empty()
        } else {
            Self::node_statements(g, u, k - 1) + Self::statement(g, u, k - 1)
        }
    }

    /// The text of the edges of the first `u` nodes.
    pub open spec fn statements(g: MultiDiGraphView<T::V, E::V>, u: int) -> Seq<char>
        decreases u,
    {
        if u <= 0 {
            Seq::empty()
        } else {
            Self::statements(g, u - 1) + Self::node_statements(
                g,
                u - 1,
                g.links[u - 1].len() as int,
            )
        }
    }

    /// The text of the graph: a heading with the name, one statement for
    /// each edge, node by node, and a closing line.
    pub open spec fn text(g: MultiDiGraphView<T::V, E::V>, name: Seq<char>) -> Seq<char> {
        "digraph "@ + name + "{\n"@ + Self::statements(g, g.nodes.len() as int) + "}\n"@
    }

    /// A graph without nodes.
    pub fn new() -> (graph: Self)
        ensures
            graph@ == MultiDiGraphView::<T::V, E::V>::empty(),
            graph.wf(),
    {
        let graph = MultiDiGraph { nodes: Vec::new() };
        assert(graph@.nodes =~= Seq::<T::V>::empty());
        assert(graph@.links =~= Seq::<Seq<(int, E::V)>>::empty());
        graph
    }

    /// The place of the node with the value of `v`.
    fn find(&self, v: &T) -> (found: Option<usize>)
        ensures
            match found {
                Some(i) => i < self@.nodes.len() && self@.nodes[i as int] == v@ && self@.has_node(
                    v@,
                ) && (self@.wf() ==> i == self@.index_of(v@)),
                None => !self@.has_node(v@),
            },
    {
        let mut i: usize = 0;
        while i < self.nodes.len()
            invariant
                i <= self.nodes@.len(),
                forall|j: int| 0 <= j < i ==> self@.nodes[j] != v@,
            decreases self.nodes@.len() - i,
        {
            if self.nodes[i].elem.same(v) {
                proof {
                    assert(self@.nodes[i as int] == v@);
                    if self@.wf() {
                        lemma_index_of_unique(self@.nodes, i as int);
                    }
                }
                return Some(i);
            }
            i += 1;
        }
        None
    }

    /// The index of the node `from`, or `NotFound` where the graph has no
    /// such node.
    pub fn get_index_by_node_id(&self, from: T) -> (found: Result<usize, NotFound>)
        requires
            self.wf(),
        ensures
            match found {
                Ok(i) => self@.has_node(from@) && i == self@.index_of(from@),
                Err(_) => !self@.has_node(from@),
            },
    {
        match self.find(&from) {
            Some(i) => Ok(i),
            None => Err(NotFound),
        }
    }

    /// Tells whether node `i` has an edge to node `j` with the label `edge`.
    fn has_arc(&self, i: usize, j: usize, edge: &E) -> (b: bool)
        requires
            i < self@.nodes.len(),
        ensures
            b == self@.links[i as int].contains((j as int, edge@)),
    {
        let arcs = &self.nodes[i].neighbors;
        let mut k: usize = 0;
        while k < arcs.len()
            invariant
                i < self@.nodes.len(),
                arcs == &self.nodes@[i as int].neighbors,
                k <= arcs@.len(),
                forall|x: int| 0 <= x < k ==> self@.links[i as int][x] != (j as int, edge@),
            decreases arcs@.len() - k,
        {
            if arcs[k].node == j && arcs[k].edge.same(edge) {
                assert(self@.links[i as int][k as int] == (j as int, edge@));
                return true;
            }
            k += 1;
        }
        false
    }

    /// The edges of a trail, each as source, destination and label.
    fn steps_along(&self, trail: &Vec<(usize, usize)>) -> (path: Vec<(T, T, E)>)
        requires
            self.wf(),
            forall|q: int|
                0 <= q < trail@.len() ==> (#[trigger] trail@[q]).0 < self@.nodes.len()
                    && trail@[q].1 < self@.links[trail@[q].0 as int].len(),
        ensures
            steps_of(path@) == self@.steps(lift_trail(trail@)),
    {
        let mut path: Vec<(T, T, E)> = Vec::new();
        let mut q: usize = 0;
        while q < trail.len()
            invariant
                self.wf(),
                forall|q: int|
                    0 <= q < trail@.len() ==> (#[trigger] trail@[q]).0 < self@.nodes.len()
                        && trail@[q].1 < self@.links[trail@[q].0 as int].len(),
                q <= trail@.len(),
                steps_of(path@) == self@.steps(lift_trail(trail@)).subrange(0, q as int),
            decreases trail@.len() - q,
        {
            let e = trail[q];
            let u = e.0;
            let k = e.1;
            assert(trail@[q as int] == e);
            let arc = &self.nodes[u].neighbors[k];
            assert(self@.links[u as int][k as int] == (arc.node as int, arc.edge@));
            let step = (
                self.nodes[u].elem.duplicate(),
                self.nodes[arc.node].elem.duplicate(),
                arc.edge.duplicate(),
            );
            let ghost before = steps_of(path@);
            path.push(step);
            q += 1;
            assert(steps_of(path@) =~= before.push(
                self@.step((u as int, k as int)),
            ));
            assert(steps_of(path@) =~= self@.steps(lift_trail(trail@)).subrange(0, q as int));
        }
        assert(self@.steps(lift_trail(trail@)).subrange(0, q as int) =~= self@.steps(
            lift_trail(trail@),
        ));
        path
    }
}

impl<T: Element, E: Element> IGraph<T> for MultiDiGraph<T, E> {
    open spec fn wf(&self) -> bool {
        self@.wf()
    }

    open spec fn values(&self) -> Seq<T::V> {
        self@.nodes
    }

    open spec fn linked(&self, from: T::V, to: T::V) -> bool {
        self@.has_edge(from, to)
    }

    open spec fn routed(&self, from: T::V, to: T::V) -> bool {
        self@.connected(from, to)
    }

    open spec fn dot_text(&self, name: Seq<char>) -> Seq<char> {
        Self::text(self@, name)
    }

    fn add_node(&mut self, elem: T)
        ensures
            final(self)@ == old(self)@.add_node(elem@),
    {
        proof {
            self@.lemma_add_node_wf(elem@);
        }
        match self.find(&elem) {
            Some(_) => {},
            None => {
                let node = MultiNode::new(elem);
                self.nodes.push(node);
                assert(self@.nodes =~= old(self)@.nodes.push(elem@));
                assert(self@.links =~= old(self)@.links.push(Seq::empty()));
            },
        }
    }

    fn node_exists(&self, node: T) -> (b: bool) {
        match self.find(&node) {
            Some(_) => true,
            None => false,
        }
    }

    fn is_connected(&self, from: T, to: T) -> (b: bool) {
        let i = match self.find(&from) {
            Some(i) => i,
            None => { return false; },
        };
        let j = match self.find(&to) {
            Some(j) => j,
            None => { return false; },
        };
        proof {
            self@.lemma_targets();
        }
        reaches(self, i, j)
    }

    fn is_directly_connected(&self, from: T, to: T) -> (b: bool) {
        let i = match self.find(&from) {
            Some(i) => i,
            None => { return false; },
        };
        let j = match self.find(&to) {
            Some(j) => j,
            None => { return false; },
        };
        let arcs = &self.nodes[i].neighbors;
        let mut k: usize = 0;
        while k < arcs.len()
            invariant
                i < self@.nodes.len(),
                i == self@.index_of(from@),
                j == self@.index_of(to@),
                self@.has_node(from@),
                self@.has_node(to@),
                arcs == &self.nodes@[i as int].neighbors,
                k <= arcs@.len(),
                forall|x: int| 0 <= x < k ==> (#[trigger] self@.links[i as int][x]).0 != j,
            decreases arcs@.len() - k,
        {
            if arcs[k].node == j {
                assert(self@.links[i as int][k as int].0 == j);
                return true;
            }
            k += 1;
        }
        false
    }

    fn to_dot_string(&self, graph_name: &str) -> (s: String) {
        let mut s = String::new();
        s.append("digraph ");
        s.append(graph_name);
        s.append("{\n");
        let ghost g = self@;
        let ghost head = "digraph "@ + graph_name@ + "{\n"@;
        assert(s@ =~= head);
        let mut u: usize = 0;
        while u < self.nodes.len()
            invariant
                self.wf(),
                g == self@,
                u <= self.nodes@.len(),
                s@ == head + Self::statements(g, u as int),
            decreases self.nodes@.len() - u,
        {
            let node = &self.nodes[u];
            let mut k: usize = 0;
            assert(s@ =~= head + Self::statements(g, u as int) + Self::node_statements(
                g,
                u as int,
                0,
            ));
            while k < node.neighbors.len()
                invariant
                    self.wf(),
                    g == self@,
                    u < self.nodes@.len(),
                    node == &self.nodes@[u as int],
                    k <= node.neighbors@.len(),
                    s@ == head + Self::statements(g, u as int) + Self::node_statements(
                        g,
                        u as int,
                        k as int,
                    ),
                decreases node.neighbors@.len() - k,
            {
                let arc = &node.neighbors[k];
                assert(g.links[u as int][k as int] == (arc.node as int, arc.edge@));
                let ghost before = s@;
                s.append(node.elem.text().as_str());
                s.append(" -> ");
                s.append(self.nodes[arc.node].elem.text().as_str());
                s.append(" [label=\"");
                s.append(arc.edge.text().as_str());
                s.append("\"];\n");
                assert(s@ =~= before + Self::statement(g, u as int, k as int));
                k += 1;
                assert(s@ =~= head + Self::statements(g, u as int) + Self::node_statements(
                    g,
                    u as int,
                    k as int,
                ));
            }
            u += 1;
            assert(s@ =~= head + Self::statements(g, u as int));
        }
        s.append("}\n");
        s
    }

    fn is_empty(&self) -> (b: bool) {
        self.nodes.len() == 0
    }

    fn count_nodes(&self) -> (n: usize) {
        self.nodes.len()
    }

    fn get_nodes(&self) -> (nodes: Vec<T>) {
        let mut nodes: Vec<T> = Vec::new();
        let mut i: usize = 0;
        while i < self.nodes.len()
            invariant
                i <= self.nodes@.len(),
                values_of(nodes@) == self@.nodes.subrange(0, i as int),
            decreases self.nodes@.len() - i,
        {
            let ghost before = values_of(nodes@);
            nodes.push(self.nodes[i].elem.duplicate());
            assert(values_of(nodes@) =~= before.push(self@.nodes[i as int]));
            i += 1;
            assert(values_of(nodes@) =~= self@.nodes.subrange(0, i as int));
        }
        assert(self@.nodes.subrange(0, i as int) =~= self@.nodes);
        nodes
    }
}

impl<T: Element, E: Element> IMultiDiGraph<T, E> for MultiDiGraph<T, E> {
    open spec fn linked_by(&self, from: T::V, to: T::V, label: E::V) -> bool {
        self@.has_edge_by(from, to, label)
    }

    open spec fn arcs(&self, from: T::V) -> Seq<(T::V, E::V)> {
        self@.arcs(from)
    }

    open spec fn simple_paths(&self, from: T::V, to: T::V) -> Seq<Seq<(T::V, T::V, E::V)>> {
        self@.simple_paths(from, to)
    }

    fn add_edge(&mut self, from: T, to: T, edge: E)
        ensures
            final(self)@ == old(self)@.add_edge(from@, to@, edge@),
    {
        proof {
            self@.lemma_add_edge_wf(from@, to@, edge@);
            assert forall|a: T::V, b: T::V, l: E::V|
                old(self)@.add_edge(from@, to@, edge@).has_edge_by(a, b, l) == (old(
                    self,
                )@.has_edge_by(a, b, l) || (a == from@ && b == to@ && l == edge@ && old(
                    self,
                )@.nodes.contains(from@) && old(self)@.nodes.contains(to@))) by {
                old(self)@.lemma_add_edge_has_edge_by(from@, to@, edge@, a, b, l);
            }
        }
        let i = match self.find(&from) {
            Some(i) => i,
            None => { return ; },
        };
        let j = match self.find(&to) {
            Some(j) => j,
            None => { return ; },
        };
        if self.has_arc(i, j, &edge) {
            return ;
        }
        let ghost label = edge@;
        self.nodes[i].neighbors.push(Edge { node: j, edge: edge });
        assert(self@.nodes =~= old(self)@.nodes);
        assert(self@.links[i as int] =~= old(self)@.links[i as int].push((j as int, label)));
        assert(self@.links =~= old(self)@.links.update(
            i as int,
            old(self)@.links[i as int].push((j as int, label)),
        ));
    }

    fn is_directly_connected_by(&self, from: T, to: T, edge: E) -> (b: bool) {
        let i = match self.find(&from) {
            Some(i) => i,
            None => { return false; },
        };
        let j = match self.find(&to) {
            Some(j) => j,
            None => { return false; },
        };
        self.has_arc(i, j, &edge)
    }

    fn all_simple_paths(&self, from: T, to: T) -> (paths: Vec<Vec<(T, T, E)>>) {
        let mut paths: Vec<Vec<(T, T, E)>> = Vec::new();
        let i = match self.find(&from) {
            Some(i) => i,
            None => {
                assert(step_paths_of(paths@) =~= self@.simple_paths(from@, to@));
                return paths;
            },
        };
        let j = match self.find(&to) {
            Some(j) => j,
            None => {
                assert(step_paths_of(paths@) =~= self@.simple_paths(from@, to@));
                return paths;
            },
        };
        proof {
            self@.lemma_targets();
        }
        let found = simple_trails(self, i, j);
        let ghost all = trails(self@.targets(), i as int, j as int);
        proof {
            lemma_trails_simple(self@.targets(), i as int, j as int);
        }
        let mut p: usize = 0;
        while p < found.len()
            invariant
                self.wf(),
                closed(self@.targets()),
                all == lift_trails(found@),
                forall|x: int|
                    0 <= x < all.len() ==> is_simple_trail(
                        self@.targets(),
                        i as int,
                        #[trigger] all[x],
                    ),
                p <= found@.len(),
                step_paths_of(paths@) == all.subrange(0, p as int).map_values(
                    |t: Seq<(int, int)>| self@.steps(t),
                ),
            decreases found@.len() - p,
        {
            let trail = &found[p];
            proof {
                self@.lemma_targets();
                let t = all[p as int];
                assert(t == lift_trail(trail@));
                assert(is_simple_trail(self@.targets(), i as int, t));
                assert forall|q: int| 0 <= q < trail@.len() implies (#[trigger] trail@[q]).0
                    < self@.nodes.len() && trail@[q].1 < self@.links[trail@[q].0 as int].len() by {
                    assert(t[q] == (trail@[q].0 as int, trail@[q].1 as int));
                    assert(self@.targets()[t[q].0].len() == self@.links[t[q].0].len());
                }
            }
            let path = self.steps_along(trail);
            let ghost before = step_paths_of(paths@);
            paths.push(path);
            p += 1;
            assert(step_paths_of(paths@) =~= before.push(self@.steps(all[p - 1])));
            assert(step_paths_of(paths@) =~= all.subrange(0, p as int).map_values(
                |t: Seq<(int, int)>| self@.steps(t),
            ));
        }
        assert(all.subrange(0, p as int) =~= all);
        paths
    }

    fn get_neighbors(&self, from: T) -> (neighbors: Vec<(T, E)>) {
        let mut neighbors: Vec<(T, E)> = Vec::new();
        let i = match self.find(&from) {
            Some(i) => i,
            None => {
                assert(arcs_of(neighbors@) =~= self@.arcs(from@));
                return neighbors;
            },
        };
        let arcs = &self.nodes[i].neighbors;
        let mut k: usize = 0;
        while k < arcs.len()
            invariant
                self.wf(),
                i < self@.nodes.len(),
                i == self@.index_of(from@),
                self@.has_node(from@),
                arcs == &self.nodes@[i as int].neighbors,
                k <= arcs@.len(),
                arcs_of(neighbors@) == self@.arcs(from@).subrange(0, k as int),
            decreases arcs@.len() - k,
        {
            let arc = &arcs[k];
            assert(self@.links[i as int][k as int] == (arc.node as int, arc.edge@));
            let ghost before = arcs_of(neighbors@);
            neighbors.push((self.nodes[arc.node].elem.duplicate(), arc.edge.duplicate()));
            assert(arcs_of(neighbors@) =~= before.push(self@.arcs(from@)[k as int]));
            k += 1;
            assert(arcs_of(neighbors@) =~= self@.arcs(from@).subrange(0, k as int));
        }
        assert(self@.arcs(from@).subrange(0, k as int) =~= self@.arcs(from@));
        neighbors
    }
}

/// Reads a graph with labelled edges from text.  Each statement names two
/// nodes and, in square brackets, the label of the edge from the first to
/// the second.  The text is refused where it has no `{`, no `}`, or the two
/// in the wrong order, and where a statement that is not empty has no `[`
/// or does not name two nodes in front of it.
pub fn multidigraph_from_dot_string(content: &String) -> (r: Result<
    MultiDiGraph<String, String>,
    ParseError,
>)
    ensures
        match r {
            Ok(g) => {
                &&& g.wf()
                &&& parsed_arcs(content@) matches Ok(arcs)
                &&& g@ == MultiDiGraphView::from_arcs(arcs)
            },
            Err(e) => parsed_arcs(content@) == Err::<
                Seq<(Seq<char>, Seq<char>, Seq<char>)>,
                ParseError,
            >(e),
        },
{
    let arcs = match parse_arcs(content.as_str()) {
        Ok(arcs) => arcs,
        Err(e) => { return Err(e); },
    };
    let mut graph = MultiDiGraph::<String, String>::new();
    let ghost all = steps_of(arcs@);
    let ghost none = MultiDiGraphView::<Seq<char>, Seq<char>>::empty();
    let mut n: usize = 0;
    while n < arcs.len()
        invariant
            all == steps_of(arcs@),
            none == MultiDiGraphView::<Seq<char>, Seq<char>>::empty(),
            n <= arcs@.len(),
            graph.wf(),
            graph@ == none.with_arcs(all, n as int),
        decreases arcs@.len() - n,
    {
        let arc = &arcs[n];
        assert(all[n as int] == (arc.0@, arc.1@, arc.2@));
        graph.add_node(arc.0.clone());
        graph.add_node(arc.1.clone());
        graph.add_edge(arc.0.clone(), arc.1.clone(), arc.2.clone());
        n += 1;
    }
    Ok(graph)
}

} // verus!
