//! What holds of every graph, whatever was done to it.

use vstd::prelude::*;
use crate::digraph::DiGraphView;
use crate::multidigraph::MultiDiGraphView;
use crate::rugraph::{lemma_index_of_unique, lemma_index_of_found};
use crate::search::{
    trails, nodes_on, tip, is_simple_trail, lemma_trails_simple, lemma_trail_in_range, target_of,
    lemma_trails_complete, lemma_reachable_iff_trails,
};

verus! {

/// Adding a node a second time changes nothing: the graph has as many nodes
/// after it as before.
pub proof fn lemma_add_node_twice<V>(g: DiGraphView<V>, v: V)
    ensures
        g.add_node(v).has_node(v),
        g.add_node(v).add_node(v) == g.add_node(v),
        g.add_node(v).add_node(v).nodes.len() == g.add_node(v).nodes.len(),
{
    if !g.has_node(v) {
        assert(g.nodes.push(v)[g.nodes.len() as int] == v);
    }
}

/// Adding a node to a graph with labelled edges a second time changes
/// nothing: the graph has as many nodes after it as before.
pub proof fn lemma_multi_add_node_twice<V, L>(g: MultiDiGraphView<V, L>, v: V)
    ensures
        g.add_node(v).has_node(v),
        g.add_node(v).add_node(v) == g.add_node(v),
        g.add_node(v).add_node(v).nodes.len() == g.add_node(v).nodes.len(),
{
    if !g.has_node(v) {
        assert(g.nodes.push(v)[g.nodes.len() as int] == v);
    }
}

/// An edge between two values of which one is no node is not added: the
/// graph stays as it is, in one direction and in both, and a value that is
/// no node has no neighbours after it.
pub proof fn lemma_add_edge_without_nodes<V>(g: DiGraphView<V>, a: V, b: V, both: bool)
    requires
        !g.has_node(a) || !g.has_node(b),
    ensures
        g.add_edge(a, b) == g,
        g.join(a, b, both) == g,
        !g.has_node(a) ==> g.join(a, b, both).neighbors(a) == Seq::<V>::empty(),
{
}

/// An edge with a label between two values of which one is no node is not
/// added: the graph stays as it is, and a value that is no node has no
/// neighbours after it.
pub proof fn lemma_multi_add_edge_without_nodes<V, L>(g: MultiDiGraphView<V, L>, a: V, b: V, l: L)
    requires
        !g.has_node(a) || !g.has_node(b),
    ensures
        g.add_edge(a, b, l) == g,
        !g.has_node(a) ==> g.add_edge(a, b, l).arcs(a) == Seq::<(V, L)>::empty(),
{
}

/// `p` leads from `a` to `b` along edges of `g`, has at least one edge and
/// passes no node twice.
pub open spec fn is_simple_path<V>(g: DiGraphView<V>, p: Seq<V>, a: V, b: V) -> bool {
    &&& p.len() >= 2
    &&& p[0] == a
    &&& p.last() == b
    &&& p.no_duplicates()
    &&& forall|i: int, j: int|
        0 <= i && j == i + 1 && j < p.len() ==> g.has_edge(#[trigger] p[i], #[trigger] p[j])
}

/// No listed path holds a node twice: each one leads from `a` to `b` along
/// edges of the graph, each node on it another one.
pub proof fn lemma_simple_paths_repeat_no_node<V>(g: DiGraphView<V>, a: V, b: V)
    requires
        g.wf(),
    ensures
        forall|x: int|
            0 <= x < g.simple_paths(a, b).len() ==> (
            #[trigger] g.simple_paths(a, b)[x]).no_duplicates(),
        forall|x: int|
            0 <= x < g.simple_paths(a, b).len() ==> is_simple_path(
                g,
                #[trigger] g.simple_paths(a, b)[x],
                a,
                b,
            ),
{
    if g.has_node(a) && g.has_node(b) {
        let ia = g.index_of(a);
        let ib = g.index_of(b);
        lemma_index_of_found(g.nodes, a);
        lemma_index_of_found(g.nodes, b);
        lemma_trails_simple(g.links, ia, ib);
        let all = trails(g.links, ia, ib);
        assert forall|x: int| 0 <= x < g.simple_paths(a, b).len() implies is_simple_path(
            g,
            #[trigger] g.simple_paths(a, b)[x],
            a,
            b,
        ) by {
            let t = all[x];
            let p = g.simple_paths(a, b)[x];
            let on = nodes_on(g.links, ia, t);
            assert(p == g.path(ia, t));
            assert(is_simple_trail(g.links, ia, t));
            lemma_trail_in_range(g.links, ia, t);
            assert(on[0] == ia);
            assert(on.last() == tip(g.links, ia, t));
            assert forall|i: int, j: int| 0 <= i < p.len() && 0 <= j < p.len() && i != j implies p[i]
                != p[j] by {
                assert(on[i] != on[j]);
                assert(0 <= on[i] < g.nodes.len());
                assert(0 <= on[j] < g.nodes.len());
            }
            assert forall|i: int, j: int| 0 <= i && j == i + 1 && j < p.len() implies g.has_edge(
                #[trigger] p[i],
                #[trigger] p[j],
            ) by {
                let e = t[i];
                assert(0 <= on[i] < g.nodes.len());
                assert(0 <= on[j] < g.nodes.len());
                assert(e.0 == on[i]);
                assert(on[j] == target_of(g.links, e));
                lemma_index_of_unique(g.nodes, on[i]);
                lemma_index_of_unique(g.nodes, on[j]);
                assert(g.links[e.0][e.1] == on[j]);
            }
        }
    }
}

/// The nodes that a path of labelled edges passes: the source of its first
/// edge, then the destination of each edge.
pub open spec fn stops<V, L>(p: Seq<(V, V, L)>) -> Seq<V> {
    seq![p[0].0] + p.map_values(|s: (V, V, L)| s.1)
}

/// `p` leads from `a` to `b` along edges of `g`, each one starting where the
/// one before it ends, has at least one edge and passes no node twice.
pub open spec fn is_simple_multi_path<V, L>(
    g: MultiDiGraphView<V, L>,
    p: Seq<(V, V, L)>,
    a: V,
    b: V,
) -> bool {
    &&& p.len() >= 1
    &&& p[0].0 == a
    &&& p.last().1 == b
    &&& stops(p).no_duplicates()
    &&& forall|i: int| 0 <= i < p.len() ==> g.has_edge_by((#[trigger] p[i]).0, p[i].1, p[i].2)
    &&& forall|i: int, j: int|
        0 <= i && j == i + 1 && j < p.len() ==> (#[trigger] p[i]).1 == (#[trigger] p[j]).0
}

/// No listed path of a graph with labelled edges passes a node twice: each
/// one leads from `a` to `b` along edges of the graph, each node on it
/// another one.
pub proof fn lemma_multi_simple_paths_repeat_no_node<V, L>(g: MultiDiGraphView<V, L>, a: V, b: V)
    requires
        g.wf(),
    ensures
        forall|x: int|
            0 <= x < g.simple_paths(a, b).len() ==> stops(
                #[trigger] g.simple_paths(a, b)[x],
            ).no_duplicates(),
        forall|x: int|
            0 <= x < g.simple_paths(a, b).len() ==> is_simple_multi_path(
                g,
                #[trigger] g.simple_paths(a, b)[x],
                a,
                b,
            ),
{
    if g.has_node(a) && g.has_node(b) {
        let ia = g.index_of(a);
        let ib = g.index_of(b);
        let links = g.targets();
        lemma_index_of_found(g.nodes, a);
        lemma_index_of_found(g.nodes, b);
        g.lemma_targets();
        lemma_trails_simple(links, ia, ib);
        let all = trails(links, ia, ib);
        assert forall|x: int| 0 <= x < g.simple_paths(a, b).len() implies is_simple_multi_path(
            g,
            #[trigger] g.simple_paths(a, b)[x],
            a,
            b,
        ) by {
            let t = all[x];
            let p = g.simple_paths(a, b)[x];
            let on = nodes_on(links, ia, t);
            let st = stops(p);
            assert(p == g.steps(t));
            assert(is_simple_trail(links, ia, t));
            lemma_trail_in_range(links, ia, t);
            assert(on[0] == ia);
            assert(on.last() == tip(links, ia, t));
            assert(t[0].0 == on[0]);
            assert forall|i: int| 0 <= i < st.len() implies st[i] == g.nodes[on[i]] by {
                if i > 0 {
                    let e = t[i - 1];
                    assert(on[i] == target_of(links, e));
                    assert(links[e.0][e.1] == g.links[e.0][e.1].0);
                }
            }
            assert forall|i: int, j: int| 0 <= i < st.len() && 0 <= j < st.len() && i != j implies st[i]
                != st[j] by {
                assert(on[i] != on[j]);
                assert(0 <= on[i] < g.nodes.len());
                assert(0 <= on[j] < g.nodes.len());
            }
            assert forall|i: int| 0 <= i < p.len() implies g.has_edge_by(
                (#[trigger] p[i]).0,
                p[i].1,
                p[i].2,
            ) by {
                let e = t[i];
                let arc = g.links[e.0][e.1];
                assert(0 <= on[i] < g.nodes.len());
                assert(e.0 == on[i]);
                assert(0 <= arc.0 < g.nodes.len());
                lemma_index_of_unique(g.nodes, e.0);
                lemma_index_of_unique(g.nodes, arc.0);
            }
            assert forall|i: int, j: int| 0 <= i && j == i + 1 && j < p.len() implies (
            #[trigger] p[i]).1 == (#[trigger] p[j]).0 by {
                let e = t[i];
                assert(t[j].0 == on[j]);
                assert(on[j] == target_of(links, e));
                assert(links[e.0][e.1] == g.links[e.0][e.1].0);
            }
            assert(p.last().1 == st[p.len() as int]);
        }
    }
}

/// A graph without labels lists every simple path from `a` to `b`, and
/// none twice.
pub proof fn lemma_simple_paths_complete<V>(g: DiGraphView<V>, a: V, b: V)
    requires
        g.wf(),
    ensures
        g.simple_paths(a, b).no_duplicates(),
        forall|p: Seq<V>|
            #![trigger is_simple_path(g, p, a, b)]
            is_simple_path(g, p, a, b) ==> g.simple_paths(a, b).contains(p),
{
    let listed = g.simple_paths(a, b);
    if g.has_node(a) && g.has_node(b) {
        let ia = g.index_of(a);
        let ib = g.index_of(b);
        lemma_index_of_found(g.nodes, a);
        lemma_index_of_found(g.nodes, b);
        lemma_trails_simple(g.links, ia, ib);
        lemma_trails_complete(g.links, ia, ib);
        let all = trails(g.links, ia, ib);
        assert forall|x: int, y: int|
            0 <= x < listed.len() && 0 <= y < listed.len() && x != y implies listed[x]
            != listed[y] by {
            let tx = all[x];
            let ty = all[y];
            assert(is_simple_trail(g.links, ia, tx));
            assert(is_simple_trail(g.links, ia, ty));
            lemma_trail_in_range(g.links, ia, tx);
            lemma_trail_in_range(g.links, ia, ty);
            let ox = nodes_on(g.links, ia, tx);
            let oy = nodes_on(g.links, ia, ty);
            assert(listed[x] == g.path(ia, tx));
            assert(listed[y] == g.path(ia, ty));
            if listed[x] == listed[y] {
                assert(tx.len() == ty.len()) by {
                    assert(g.path(ia, tx).len() == tx.len() + 1);
                    assert(g.path(ia, ty).len() == ty.len() + 1);
                }
                assert forall|i: int| 0 <= i <= tx.len() implies ox[i] == oy[i] by {
                    assert(g.path(ia, tx)[i] == g.nodes[ox[i]]);
                    assert(g.path(ia, ty)[i] == g.nodes[oy[i]]);
                    assert(0 <= ox[i] < g.nodes.len());
                    assert(0 <= oy[i] < g.nodes.len());
                }
                assert forall|i: int| 0 <= i < tx.len() implies tx[i] == ty[i] by {
                    assert(tx[i].0 == ox[i]);
                    assert(ty[i].0 == oy[i]);
                    assert(ox[i + 1] == target_of(g.links, tx[i]));
                    assert(oy[i + 1] == target_of(g.links, ty[i]));
                    assert(ox[i + 1] == oy[i + 1]);
                    assert(g.links[tx[i].0].no_duplicates());
                }
                assert(tx =~= ty);
                assert(all[x] != all[y]);
            }
        }
    }
    assert forall|p: Seq<V>|
        #![trigger is_simple_path(g, p, a, b)]
        is_simple_path(g, p, a, b) implies listed.contains(p) by {
        let n = p.len() as int;
        assert(g.has_edge(p[0], p[1]));
        assert(g.has_edge(p[n - 2], p[n - 1]));
        let ia = g.index_of(a);
        let ib = g.index_of(b);
        lemma_index_of_found(g.nodes, a);
        lemma_index_of_found(g.nodes, b);
        lemma_trails_complete(g.links, ia, ib);
        let all = trails(g.links, ia, ib);
        let t = Seq::new(
            (n - 1) as nat,
            |i: int|
                (
                    g.index_of(p[i]),
                    g.links[g.index_of(p[i])].index_of(g.index_of(p[i + 1])),
                ),
        );
        let on = nodes_on(g.links, ia, t);
        assert forall|i: int| 0 <= i < n implies g.has_node(#[trigger] p[i]) && 0 <= g.index_of(
            p[i],
        ) < g.nodes.len() && g.nodes[g.index_of(p[i])] == p[i] by {
            if i + 1 < n {
                assert(g.has_edge(p[i], p[i + 1]));
            } else {
                assert(g.has_edge(p[i - 1], p[i]));
            }
            lemma_index_of_found(g.nodes, p[i]);
        }
        assert forall|i: int| 0 <= i < n - 1 implies 0 <= (#[trigger] t[i]).1
            < g.links[t[i].0].len() && g.links[t[i].0][t[i].1] == g.index_of(p[i + 1]) by {
            assert(g.has_edge(p[i], p[i + 1]));
            lemma_index_of_found(g.links[g.index_of(p[i])], g.index_of(p[i + 1]));
        }
        assert forall|i: int| 0 <= i < n implies #[trigger] on[i] == g.index_of(p[i]) by {
            if i > 0 {
                assert(on[i] == target_of(g.links, t[i - 1]));
                assert(g.links[t[i - 1].0][t[i - 1].1] == g.index_of(p[i]));
            }
        }
        assert forall|i: int, j: int| 0 <= i < on.len() && 0 <= j < on.len() && i != j implies on[i]
            != on[j] by {
            assert(on[i] == g.index_of(p[i]));
            assert(on[j] == g.index_of(p[j]));
            assert(g.nodes[g.index_of(p[i])] == p[i]);
            assert(g.nodes[g.index_of(p[j])] == p[j]);
        }
        assert forall|i: int| 0 <= i < t.len() implies {
            &&& (#[trigger] t[i]).0 == on[i]
            &&& 0 <= t[i].0 < g.links.len()
            &&& 0 <= t[i].1 < g.links[t[i].0].len()
        } by {
            assert(on[i] == g.index_of(p[i]));
            assert(g.has_node(p[i]));
        }
        assert(is_simple_trail(g.links, ia, t));
        assert(on.last() == on[n - 1]);
        assert(tip(g.links, ia, t) == ib);
        assert(all.contains(t));
        let x = choose|x: int| 0 <= x < all.len() && all[x] == t;
        assert(g.path(ia, t) =~= p) by {
            assert forall|i: int| 0 <= i < n implies g.path(ia, t)[i] == p[i] by {
                assert(on[i] == g.index_of(p[i]));
                assert(g.has_node(p[i]));
            }
        }
        assert(listed[x] == p);
    }
}

/// A graph with labelled edges lists every simple path from `a` to `b`,
/// and none twice.
pub proof fn lemma_multi_simple_paths_complete<V, L>(g: MultiDiGraphView<V, L>, a: V, b: V)
    requires
        g.wf(),
    ensures
        g.simple_paths(a, b).no_duplicates(),
        forall|p: Seq<(V, V, L)>|
            #![trigger is_simple_multi_path(g, p, a, b)]
            is_simple_multi_path(g, p, a, b) ==> g.simple_paths(a, b).contains(p),
{
    let listed = g.simple_paths(a, b);
    let links = g.targets();
    g.lemma_targets();
    if g.has_node(a) && g.has_node(b) {
        let ia = g.index_of(a);
        let ib = g.index_of(b);
        lemma_index_of_found(g.nodes, a);
        lemma_index_of_found(g.nodes, b);
        lemma_trails_simple(links, ia, ib);
        lemma_trails_complete(links, ia, ib);
        let all = trails(links, ia, ib);
        assert forall|x: int, y: int|
            0 <= x < listed.len() && 0 <= y < listed.len() && x != y implies listed[x]
            != listed[y] by {
            let tx = all[x];
            let ty = all[y];
            assert(is_simple_trail(links, ia, tx));
            assert(is_simple_trail(links, ia, ty));
            assert(listed[x] == g.steps(tx));
            assert(listed[y] == g.steps(ty));
            if listed[x] == listed[y] {
                assert(tx.len() == ty.len()) by {
                    assert(g.steps(tx).len() == tx.len());
                    assert(g.steps(ty).len() == ty.len());
                }
                assert forall|i: int| 0 <= i < tx.len() implies tx[i] == ty[i] by {
                    let ex = tx[i];
                    let ey = ty[i];
                    assert(g.steps(tx)[i] == g.step(ex));
                    assert(g.steps(ty)[i] == g.step(ey));
                    assert(0 <= ex.0 < g.nodes.len());
                    assert(0 <= ey.0 < g.nodes.len());
                    assert(links[ex.0].len() == g.links[ex.0].len());
                    assert(links[ey.0].len() == g.links[ey.0].len());
                    assert(ex.0 == ey.0);
                    let lx = g.links[ex.0][ex.1];
                    let ly = g.links[ey.0][ey.1];
                    assert(0 <= lx.0 < g.nodes.len());
                    assert(0 <= ly.0 < g.nodes.len());
                    assert(lx.0 == ly.0);
                    assert(lx == ly);
                    assert(g.links[ex.0].no_duplicates());
                }
                assert(tx =~= ty);
                assert(all[x] != all[y]);
            }
        }
    }
    assert forall|p: Seq<(V, V, L)>|
        #![trigger is_simple_multi_path(g, p, a, b)]
        is_simple_multi_path(g, p, a, b) implies listed.contains(p) by {
        let n = p.len() as int;
        let st = stops(p);
        assert(g.has_edge_by(p[0].0, p[0].1, p[0].2));
        assert(g.has_edge_by(p[n - 1].0, p[n - 1].1, p[n - 1].2));
        let ia = g.index_of(a);
        let ib = g.index_of(b);
        lemma_index_of_found(g.nodes, a);
        lemma_index_of_found(g.nodes, b);
        lemma_trails_complete(links, ia, ib);
        let all = trails(links, ia, ib);
        let t = Seq::new(
            n as nat,
            |i: int|
                (
                    g.index_of(p[i].0),
                    g.links[g.index_of(p[i].0)].index_of((g.index_of(p[i].1), p[i].2)),
                ),
        );
        let on = nodes_on(links, ia, t);
        assert forall|i: int| 0 <= i < n implies {
            &&& 0 <= (#[trigger] t[i]).0 < g.nodes.len()
            &&& g.nodes[t[i].0] == p[i].0
            &&& 0 <= t[i].1 < g.links[t[i].0].len()
            &&& g.links[t[i].0][t[i].1] == (g.index_of(p[i].1), p[i].2)
            &&& 0 <= g.index_of(p[i].1) < g.nodes.len()
            &&& g.nodes[g.index_of(p[i].1)] == p[i].1
        } by {
            assert(g.has_edge_by(p[i].0, p[i].1, p[i].2));
            lemma_index_of_found(g.nodes, p[i].0);
            lemma_index_of_found(g.nodes, p[i].1);
            lemma_index_of_found(g.links[g.index_of(p[i].0)], (g.index_of(p[i].1), p[i].2));
        }
        assert forall|i: int| 0 <= i <= n implies 0 <= #[trigger] on[i] < g.nodes.len()
            && g.nodes[on[i]] == st[i] by {
            if i > 0 {
                let e = t[i - 1];
                assert(on[i] == target_of(links, e));
                assert(links[e.0][e.1] == g.links[e.0][e.1].0);
                assert(st[i] == p[i - 1].1);
            } else {
                assert(st[0] == p[0].0);
            }
        }
        assert forall|i: int, j: int| 0 <= i < on.len() && 0 <= j < on.len() && i != j implies on[i]
            != on[j] by {
            assert(g.nodes[on[i]] == st[i]);
            assert(g.nodes[on[j]] == st[j]);
        }
        assert forall|i: int| 0 <= i < t.len() implies {
            &&& (#[trigger] t[i]).0 == on[i]
            &&& 0 <= t[i].0 < links.len()
            &&& 0 <= t[i].1 < links[t[i].0].len()
        } by {
            assert(g.nodes[on[i]] == st[i]);
            assert(links[t[i].0].len() == g.links[t[i].0].len());
            if i > 0 {
                assert(p[i - 1].1 == p[i].0);
                assert(st[i] == p[i - 1].1);
            } else {
                assert(st[0] == p[0].0);
            }
            assert(g.nodes[t[i].0] == st[i]);
        }
        assert(is_simple_trail(links, ia, t));
        assert(on.last() == on[n]);
        assert(st[n] == p[n - 1].1);
        assert(tip(links, ia, t) == ib);
        assert(all.contains(t));
        let x = choose|x: int| 0 <= x < all.len() && all[x] == t;
        assert(g.steps(t) =~= p) by {
            assert forall|i: int| 0 <= i < n implies g.steps(t)[i] == p[i] by {
                assert(g.links[t[i].0][t[i].1] == (g.index_of(p[i].1), p[i].2));
            }
        }
        assert(listed[x] == p);
    }
}

/// Edges lead from one node to another one exactly where a simple path
/// does.
pub proof fn lemma_connected_iff_simple_path<V>(g: DiGraphView<V>, a: V, b: V)
    requires
        g.wf(),
        a != b,
    ensures
        g.connected(a, b) == (g.simple_paths(a, b).len() > 0),
{
    if g.has_node(a) && g.has_node(b) {
        lemma_index_of_found(g.nodes, a);
        lemma_index_of_found(g.nodes, b);
        lemma_reachable_iff_trails(g.links, g.index_of(a), g.index_of(b));
    }
}

/// In a graph with labelled edges, edges lead from one node to another one
/// exactly where a simple path does.
pub proof fn lemma_multi_connected_iff_simple_path<V, L>(g: MultiDiGraphView<V, L>, a: V, b: V)
    requires
        g.wf(),
        a != b,
    ensures
        g.connected(a, b) == (g.simple_paths(a, b).len() > 0),
{
    if g.has_node(a) && g.has_node(b) {
        lemma_index_of_found(g.nodes, a);
        lemma_index_of_found(g.nodes, b);
        g.lemma_targets();
        lemma_reachable_iff_trails(g.targets(), g.index_of(a), g.index_of(b));
    }
}

} // verus!
