//! Undirected graphs: every edge is kept in both directions.

use vstd::prelude::*;
use crate::element::{Element, values_of};
use crate::rugraph::{IGraph, IDiGraph, paths_of, lemma_index_of_found};
use crate::digraph::{DiGraph, DiGraphView};
use crate::dot::{ParseError, parse_chains, parsed_chains};
use crate::text::{chars_of, string_of, replace, replace_all};

verus! {

/// An undirected graph with nodes of type `T`, kept as a directed graph
/// that has each edge in both directions.
pub struct Graph<T> {
    digraph: DiGraph<T>,
}

impl<T: Element> View for Graph<T> {
    type V = DiGraphView<T::V>;

    /// The directed graph that holds the edges.
    closed spec fn view(&self) -> Self::V {
        self.digraph@
    }
}

impl<T: Element> Graph<T> {
    /// A graph without nodes.
    pub fn new() -> (graph: Self)
        ensures
            graph@ == DiGraphView::<T::V>::empty(),
            graph.wf(),
    {
        let graph = Graph { digraph: DiGraph::new() };
        assert(graph.digraph@.nodes.len() == 0);
        assert forall|a: T::V, b: T::V| #[trigger]
            graph.digraph@.has_edge(a, b) implies graph.digraph@.has_edge(b, a) by {
            if graph.digraph@.has_node(a) {
                lemma_index_of_found(graph.digraph@.nodes, a);
            }
        }
        graph
    }

    /// The text of the graph: that of the directed graph, with `graph` for
    /// each `digraph` and `--` for each `->`, wherever they stand.  Each
    /// edge is written twice, once from either end.
    pub open spec fn text(g: DiGraphView<T::V>, name: Seq<char>) -> Seq<char> {
        replace_all(
            replace_all(DiGraph::<T>::text(g, name), "digraph"@, "graph"@),
            "->"@,
            "--"@,
        )
    }
}

impl<T: Element> IGraph<T> for Graph<T> {
    open spec fn wf(&self) -> bool {
        self@.wf() && self@.symmetric()
    }

    open spec fn values(&self) -> Seq<T::V> {
        self@.nodes
    }

    open spec fn linked(&self, from: T::V, to: T::V) -> bool {
        self@.has_edge(from, to) || self@.has_edge(to, from)
    }

    open spec fn routed(&self, from: T::V, to: T::V) -> bool {
        self@.connected(from, to) || self@.connected(to, from)
    }

    open spec fn dot_text(&self, name: Seq<char>) -> Seq<char> {
        Self::text(self@, name)
    }

    fn add_node(&mut self, elem: T)
        ensures
            final(self)@ == old(self)@.add_node(elem@),
    {
        proof {
            self@.lemma_add_node_symmetric(elem@);
        }
        self.digraph.insert(elem);
    }

    fn node_exists(&self, node: T) -> (b: bool) {
        self.digraph.node_exists(node)
    }

    fn is_connected(&self, from: T, to: T) -> (b: bool) {
        self.digraph.has_route(&from, &to) || self.digraph.has_route(&to, &from)
    }

    fn is_directly_connected(&self, from: T, to: T) -> (b: bool) {
        self.digraph.has_link(&from, &to) || self.digraph.has_link(&to, &from)
    }

    fn to_dot_string(&self, graph_name: &str) -> (s: String) {
        let directed = self.digraph.to_dot_string(graph_name);
        proof {
            reveal_strlit("digraph");
            reveal_strlit("->");
        }
        let renamed = replace(&chars_of(directed.as_str()), &chars_of("digraph"), &chars_of("graph"));
        let undirected = replace(&renamed, &chars_of("->"), &chars_of("--"));
        string_of(&undirected)
    }

    fn is_empty(&self) -> (b: bool) {
        self.digraph.is_empty()
    }

    fn count_nodes(&self) -> (n: usize) {
        self.digraph.count_nodes()
    }

    fn get_nodes(&self) -> (nodes: Vec<T>) {
        self.digraph.get_nodes()
    }
}

impl<T: Element> IDiGraph<T> for Graph<T> {
    open spec fn successors(&self, from: T::V) -> Seq<T::V> {
        self@.neighbors(from)
    }

    open spec fn simple_paths(&self, from: T::V, to: T::V) -> Seq<Seq<T::V>> {
        self@.simple_paths(from, to)
    }

    /// Adds an edge between `from` and `to`, in both directions.
    fn add_edge(&mut self, from: T, to: T)
        ensures
            final(self)@ == old(self)@.join(from@, to@, true),
    {
        proof {
            self@.lemma_join_symmetric(from@, to@);
            assert forall|a: T::V, b: T::V|
                old(self)@.join(from@, to@, true).has_edge(a, b) == (old(self)@.has_edge(a, b) || ((
                a == from@ && b == to@ || a == to@ && b == from@) && old(self)@.has_node(from@)
                    && old(self)@.has_node(to@))) by {
                old(self)@.lemma_join_has_edge(from@, to@, true, a, b);
            }
            old(self)@.lemma_join_has_edge(from@, to@, true, from@, to@);
        }
        self.digraph.link(&from, &to);
        self.digraph.link(&to, &from);
    }

    fn all_simple_paths(&self, from: T, to: T) -> (paths: Vec<Vec<T>>) {
        self.digraph.paths(&from, &to)
    }

    fn get_neighbors(&self, from: T) -> (neighbors: Vec<T>) {
        self.digraph.neighbors(&from)
    }
}

/// Reads an undirected graph from text.  Each name in a statement is a
/// node, and each name is joined to the one before it in the statement.
/// The text is refused where it has no `{`, no `}`, or the two in the wrong
/// order.
pub fn graph_from_dot_string(content: &String) -> (r: Result<Graph<String>, ParseError>)
    ensures
        match r {
            Ok(g) => {
                &&& g.wf()
                &&& parsed_chains(content@) matches Ok(chains)
                &&& g@ == DiGraphView::from_chains(chains, true)
            },
            Err(e) => parsed_chains(content@) == Err::<Seq<Seq<Seq<char>>>, ParseError>(e),
        },
{
    match parse_chains(content.as_str()) {
        Ok(chains) => Ok(Graph { digraph: DiGraph::from_chains(&chains, true) }),
        Err(e) => Err(e),
    }
}

} // verus!
