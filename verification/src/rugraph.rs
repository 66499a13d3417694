//! The operations that the graphs have in common.

use vstd::prelude::*;
use crate::element::{Element, values_of};

verus! {

/// The answer of a lookup for a value that is no node of the graph.
#[derive(Debug)]
pub struct NotFound;

/// In a sequence without duplicates a value is found where it stands.
pub proof fn lemma_index_of_unique<A>(s: Seq<A>, i: int)
    requires
        s.no_duplicates(),
        0 <= i < s.len(),
    ensures
        s.contains(s[i]),
        s.index_of(s[i]) == i,
{
    let j = s.index_of(s[i]);
    assert(0 <= j < s.len() && s[j] == s[i]);
}

/// A value that a sequence holds is found at one of its places.
pub proof fn lemma_index_of_found<A>(s: Seq<A>, v: A)
    requires
        s.contains(v),
    ensures
        0 <= s.index_of(v) < s.len(),
        s[s.index_of(v)] == v,
{
}

/// The paths of a list, each as the sequence of the values of its nodes.
pub open spec fn paths_of<T: View>(paths: Seq<Vec<T>>) -> Seq<Seq<T::V>> {
    paths.map_values(|p: Vec<T>| values_of(p@))
}

/// A set of nodes, with the questions that every kind of graph answers.
pub trait IGraph<T: Element> {
    /// The graph is consistent: no value is a node twice, and every edge
    /// joins two nodes.
    spec fn wf(&self) -> bool;

    /// The values of the nodes, in the order in which they were added.
    spec fn values(&self) -> Seq<T::V>;

    /// An edge joins `from` to `to`.
    spec fn linked(&self, from: T::V, to: T::V) -> bool;

    /// Edges lead from `from` to `to`: one, or several in a row.
    spec fn routed(&self, from: T::V, to: T::V) -> bool;

    /// The text that describes the graph under the name `name`.
    spec fn dot_text(&self, name: Seq<char>) -> Seq<char>;

    /// Adds the node `elem`, unless the graph has it already.
    fn add_node(&mut self, elem: T)
        requires
            old(self).wf(),
        ensures
            final(self).wf(),
            final(self).values() == if old(self).values().contains(elem@) {
                old(self).values()
            } else {
                old(self).values().push(elem@)
            },
    ;

    /// Tells whether `node` is a node of the graph.
    fn node_exists(&self, node: T) -> (b: bool)
        requires
            self.wf(),
        ensures
            b == self.values().contains(node@),
    ;

    /// Tells whether edges lead from `from` to `to`.
    fn is_connected(&self, from: T, to: T) -> (b: bool)
        requires
            self.wf(),
        ensures
            b == self.routed(from@, to@),
    ;

    /// Tells whether an edge joins `from` to `to`.
    fn is_directly_connected(&self, from: T, to: T) -> (b: bool)
        requires
            self.wf(),
        ensures
            b == self.linked(from@, to@),
    ;

    /// The graph as text, under the name `graph_name`.
    fn to_dot_string(&self, graph_name: &str) -> (s: String)
        requires
            self.wf(),
        ensures
            s@ == self.dot_text(graph_name@),
    ;

    /// Tells whether the graph has no node.
    fn is_empty(&self) -> (b: bool)
        requires
            self.wf(),
        ensures
            b == (self.values().len() == 0),
    ;

    /// The number of nodes.
    fn count_nodes(&self) -> (n: usize)
        requires
            self.wf(),
        ensures
            n == self.values().len(),
    ;

    /// The nodes, in the order in which they were added.
    fn get_nodes(&self) -> (nodes: Vec<T>)
        requires
            self.wf(),
        ensures
            values_of(nodes@) == self.values(),
    ;
}

/// A graph whose edges carry no label.
pub trait IDiGraph<T: Element>: IGraph<T> {
    /// The nodes that the edges leaving `from` lead to, in the order in
    /// which the edges were added.
    spec fn successors(&self, from: T::V) -> Seq<T::V>;

    /// The simple paths from `from` to `to`, each as the values of its
    /// nodes, in the order of a depth-first search.
    spec fn simple_paths(&self, from: T::V, to: T::V) -> Seq<Seq<T::V>>;

    /// Adds an edge between two nodes.  Nothing changes where one of the two
    /// is no node, or where the edge is there already.
    fn add_edge(&mut self, from: T, to: T)
        requires
            old(self).wf(),
        ensures
            final(self).wf(),
            final(self).values() == old(self).values(),
            forall|a: T::V, b: T::V| old(self).linked(a, b) ==> final(self).linked(a, b),
            old(self).values().contains(from@) && old(self).values().contains(to@) ==> final(self).linked(from@, to@),
            forall|a: T::V, b: T::V|
                final(self).linked(a, b) && !old(self).linked(a, b) ==> (a == from@ && b == to@)
                    || (a == to@ && b == from@),
    ;

    /// Lists the simple paths from `from` to `to`.
    fn all_simple_paths(&self, from: T, to: T) -> (paths: Vec<Vec<T>>)
        requires
            self.wf(),
        ensures
            paths_of(paths@) == self.simple_paths(from@, to@),
    ;

    /// Lists the nodes that the edges leaving `from` lead to.
    fn get_neighbors(&self, from: T) -> (neighbors: Vec<T>)
        requires
            self.wf(),
        ensures
            values_of(neighbors@) == self.successors(from@),
    ;
}

/// The values of a list of labelled successors.
pub open spec fn arcs_of<T: View, E: View>(s: Seq<(T, E)>) -> Seq<(T::V, E::V)> {
    s.map_values(|p: (T, E)| (p.0@, p.1@))
}

/// The values of a path of labelled edges.
pub open spec fn steps_of<T: View, E: View>(s: Seq<(T, T, E)>) -> Seq<(T::V, T::V, E::V)> {
    s.map_values(|p: (T, T, E)| (p.0@, p.1@, p.2@))
}

/// The paths of a list, each as the values of its edges.
pub open spec fn step_paths_of<T: View, E: View>(paths: Seq<Vec<(T, T, E)>>) -> Seq<
    Seq<(T::V, T::V, E::V)>,
> {
    paths.map_values(|p: Vec<(T, T, E)>| steps_of(p@))
}

/// A graph whose edges carry a label each, so that several edges may join
/// the same two nodes.
pub trait IMultiDiGraph<T: Element, E: Element>: IGraph<T> {
    /// An edge with the label `label` joins `from` to `to`.
    spec fn linked_by(&self, from: T::V, to: T::V, label: E::V) -> bool;

    /// The edges leaving `from`, each as the node it leads to and its label,
    /// in the order in which they were added.
    spec fn arcs(&self, from: T::V) -> Seq<(T::V, E::V)>;

    /// The simple paths from `from` to `to`, each as its edges (source,
    /// destination, label), in the order of a depth-first search.
    spec fn simple_paths(&self, from: T::V, to: T::V) -> Seq<Seq<(T::V, T::V, E::V)>>;

    /// Adds an edge with a label between two nodes.  Nothing changes where
    /// one of the two is no node, or where the same edge with the same label
    /// is there already.
    fn add_edge(&mut self, from: T, to: T, edge: E)
        requires
            old(self).wf(),
        ensures
            final(self).wf(),
            final(self).values() == old(self).values(),
            forall|a: T::V, b: T::V, l: E::V|
                final(self).linked_by(a, b, l) == (old(self).linked_by(a, b, l) || (a == from@ && b
                    == to@ && l == edge@ && old(self).values().contains(from@) && old(self).values().contains(to@))),
    ;

    /// Tells whether an edge with the label `edge` joins `from` to `to`.
    fn is_directly_connected_by(&self, from: T, to: T, edge: E) -> (b: bool)
        requires
            self.wf(),
        ensures
            b == self.linked_by(from@, to@, edge@),
    ;

    /// Lists the simple paths from `from` to `to`.
    fn all_simple_paths(&self, from: T, to: T) -> (paths: Vec<Vec<(T, T, E)>>)
        requires
            self.wf(),
        ensures
            step_paths_of(paths@) == self.simple_paths(from@, to@),
    ;

    /// Lists the edges leaving `from`.
    fn get_neighbors(&self, from: T) -> (neighbors: Vec<(T, E)>)
        requires
            self.wf(),
        ensures
            arcs_of(neighbors@) == self.arcs(from@),
    ;
}

} // verus!
