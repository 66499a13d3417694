//! A graph of strings with labelled edges that is written as text and read
//! again.

use vstd::prelude::*;
use crate::multidigraph::{MultiDiGraph, MultiDiGraphView};
use crate::dot::{body_of, arc_of, arcs_upto, ends_of, label_cut, label_of, parsed_arcs, ParseError};
use crate::rugraph::lemma_index_of_found;
use crate::round_trip::{is_plain, no_braces};
use crate::text::{
    is_first, lemma_first_index, split, matches_at, trim, trim_start, trim_end,
    lemma_split_from_none, lemma_split_from_first, lemma_split_from_concat,
    lemma_trim_start_space, lemma_trim_end_space,
};

verus! {

/// A text without square bracket that opens.
pub open spec fn no_bracket(s: Seq<char>) -> bool {
    forall|i: int| 0 <= i < s.len() ==> #[trigger] s[i] != '['
}

/// A label that ends no statement and no text: without brace and without
/// semicolon.
pub open spec fn is_plain_label(l: Seq<char>) -> bool {
    forall|i: int| 0 <= i < l.len() ==> #[trigger] l[i] != '{' && l[i] != '}' && l[i] != ';'
}

/// The node `u` has an edge: one that leaves it or one that leads to it.
pub open spec fn has_some_arc(g: MultiDiGraphView<Seq<char>, Seq<char>>, u: int) -> bool {
    g.links[u].len() > 0 || exists|w: int, j: int|
        0 <= w < g.links.len() && 0 <= j < g.links[w].len() && (#[trigger] g.links[w][j]).0 == u
}

/// The names and labels of the graph come back from the text as they are.
pub open spec fn is_plain_graph(g: MultiDiGraphView<Seq<char>, Seq<char>>) -> bool {
    &&& forall|u: int|
        0 <= u < g.nodes.len() ==> is_plain(#[trigger] g.nodes[u]) && no_bracket(g.nodes[u])
    &&& forall|u: int, k: int|
        0 <= u < g.links.len() && 0 <= k < g.links[u].len() ==> is_plain_label(
            (#[trigger] g.links[u][k]).1,
        )
}

/// `(u, k)` stands for the edges of the nodes before `u` and the first `k`
/// edges of `u`.
spec fn is_prefix(g: MultiDiGraphView<Seq<char>, Seq<char>>, u: int, k: int) -> bool {
    &&& 0 <= u <= g.nodes.len()
    &&& 0 <= k
    &&& u < g.nodes.len() ==> k <= g.links[u].len()
    &&& u == g.nodes.len() ==> k == 0
}

/// The `j`-th edge of `w` is among those that `(u, k)` stands for.
spec fn in_prefix(g: MultiDiGraphView<Seq<char>, Seq<char>>, u: int, k: int, w: int, j: int) -> bool {
    &&& 0 <= w < g.nodes.len()
    &&& 0 <= j < g.links[w].len()
    &&& w < u || (w == u && j < k)
}

/// `v` is an end of one of the edges that `(u, k)` stands for.
spec fn is_end(g: MultiDiGraphView<Seq<char>, Seq<char>>, u: int, k: int, v: Seq<char>) -> bool {
    exists|w: int, j: int| #[trigger]
        in_prefix(g, u, k, w, j) && (v == g.nodes[w] || v == g.nodes[g.links[w][j].0])
}

/// The names of a statement, behind a line break.
spec fn names(g: MultiDiGraphView<Seq<char>, Seq<char>>, u: int, k: int) -> Seq<char> {
    seq!['\n'] + (g.nodes[u] + seq![' '] + seq!['-', '>'] + (seq![' '] + g.nodes[g.links[u][k].0]))
}

/// The statement of an edge without its semicolon, behind a line break.
spec fn line(g: MultiDiGraphView<Seq<char>, Seq<char>>, u: int, k: int) -> Seq<char> {
    names(g, u, k) + seq![' ', '[', 'l', 'a', 'b', 'e', 'l', '=', '"'] + g.links[u][k].1 + seq![
        '"',
        ']',
    ]
}

/// The edge that is read from a line.
spec fn arc(g: MultiDiGraphView<Seq<char>, Seq<char>>, u: int, k: int) -> (
    Seq<char>,
    Seq<char>,
    Seq<char>,
) {
    (g.nodes[u], g.nodes[g.links[u][k].0], label_of(line(g, u, k)))
}

/// The statements of a prefix, each behind a line break.
spec fn body(g: MultiDiGraphView<Seq<char>, Seq<char>>, u: int, k: int) -> Seq<char>
    decreases u, k,
{
    if u < 0 || u > g.nodes.len() {
        Seq::empty()
    } else if k > 0 {
        body(g, u, k - 1) + line(g, u, k - 1) + seq![';']
    } else if u > 0 {
        body(g, u - 1, g.links[u - 1].len() as int)
    } else {
        Seq::empty()
    }
}

/// The text of a prefix as the graph writes it.
spec fn written(g: MultiDiGraphView<Seq<char>, Seq<char>>, u: int, k: int) -> Seq<char> {
    MultiDiGraph::<String, String>::statements(g, u) + MultiDiGraph::<
        String,
        String,
    >::node_statements(g, u, k)
}

/// The lines of a prefix.
spec fn lines(g: MultiDiGraphView<Seq<char>, Seq<char>>, u: int, k: int) -> Seq<Seq<char>>
    decreases u, k,
{
    if u < 0 || u > g.nodes.len() {
        Seq::empty()
    } else if k > 0 {
        lines(g, u, k - 1).push(line(g, u, k - 1))
    } else if u > 0 {
        lines(g, u - 1, g.links[u - 1].len() as int)
    } else {
        Seq::empty()
    }
}

/// The edges that are read from the lines of a prefix.
spec fn arcs(g: MultiDiGraphView<Seq<char>, Seq<char>>, u: int, k: int) -> Seq<
    (Seq<char>, Seq<char>, Seq<char>),
>
    decreases u, k,
{
    if u < 0 || u > g.nodes.len() {
        Seq::empty()
    } else if k > 0 {
        arcs(g, u, k - 1).push(arc(g, u, k - 1))
    } else if u > 0 {
        arcs(g, u - 1, g.links[u - 1].len() as int)
    } else {
        Seq::empty()
    }
}

proof fn lemma_literals()
    ensures
        "digraph "@ == seq!['d', 'i', 'g', 'r', 'a', 'p', 'h', ' '],
        "{\n"@ == seq!['{', '\n'],
        "}\n"@ == seq!['}', '\n'],
        " -> "@ == seq![' ', '-', '>', ' '],
        " [label=\""@ == seq![' ', '[', 'l', 'a', 'b', 'e', 'l', '=', '"'],
        "\"];\n"@ == seq!['"', ']', ';', '\n'],
        ";"@ == seq![';'],
        "->"@ == seq!['-', '>'],
{
    reveal_strlit("digraph ");
    reveal_strlit("{\n");
    reveal_strlit("}\n");
    reveal_strlit(" -> ");
    reveal_strlit(" [label=\"");
    reveal_strlit("\"];\n");
    reveal_strlit(";");
    reveal_strlit("->");
    assert("digraph "@ =~= seq!['d', 'i', 'g', 'r', 'a', 'p', 'h', ' ']);
    assert("{\n"@ =~= seq!['{', '\n']);
    assert("}\n"@ =~= seq!['}', '\n']);
    assert(" -> "@ =~= seq![' ', '-', '>', ' ']);
    assert(" [label=\""@ =~= seq![' ', '[', 'l', 'a', 'b', 'e', 'l', '=', '"']);
    assert("\"];\n"@ =~= seq!['"', ']', ';', '\n']);
    assert(";"@ =~= seq![';']);
    assert("->"@ =~= seq!['-', '>']);
}

/// The written text of a prefix behind a line break is its statements, each
/// behind a line break, and a line break.
proof fn lemma_written(g: MultiDiGraphView<Seq<char>, Seq<char>>, u: int, k: int)
    requires
        is_prefix(g, u, k),
    ensures
        seq!['\n'] + written(g, u, k) == body(g, u, k) + seq!['\n'],
    decreases u, k,
{
    lemma_literals();
    if k > 0 {
        lemma_written(g, u, k - 1);
        let before = MultiDiGraph::<String, String>::statements(g, u) + MultiDiGraph::<
            String,
            String,
        >::node_statements(g, u, k - 1);
        let st = MultiDiGraph::<String, String>::statement(g, u, k - 1);
        assert(written(g, u, k) =~= before + st);
        assert(st =~= g.nodes[u] + seq![' ', '-', '>', ' '] + g.nodes[g.links[u][k - 1].0] + seq![
            ' ',
            '[',
            'l',
            'a',
            'b',
            'e',
            'l',
            '=',
            '"',
        ] + g.links[u][k - 1].1 + seq!['"', ']', ';', '\n']);
        assert(seq!['\n'] + (before + st) =~= (seq!['\n'] + before) + st);
        assert((body(g, u, k - 1) + seq!['\n']) + st =~= body(g, u, k - 1) + line(g, u, k - 1)
            + seq![';'] + seq!['\n']);
    } else if u > 0 {
        lemma_written(g, u - 1, g.links[u - 1].len() as int);
        assert(written(g, u, 0) =~= written(g, u - 1, g.links[u - 1].len() as int));
        assert(MultiDiGraph::<String, String>::node_statements(g, u, 0) =~= Seq::<char>::empty());
    } else {
        assert(written(g, 0, 0) =~= Seq::<char>::empty());
        assert(seq!['\n'] + written(g, u, k) =~= body(g, u, k) + seq!['\n']);
    }
}

/// The two names in front of the label are read as they were written.
proof fn lemma_names(g: MultiDiGraphView<Seq<char>, Seq<char>>, u: int, k: int)
    requires
        g.wf(),
        is_plain_graph(g),
        0 <= u < g.nodes.len(),
        0 <= k < g.links[u].len(),
    ensures
        split(trim(names(g, u, k)), seq!['-', '>']).len() == 2,
        trim(split(trim(names(g, u, k)), seq!['-', '>'])[0]) == g.nodes[u],
        trim(split(trim(names(g, u, k)), seq!['-', '>'])[1]) == g.nodes[g.links[u][k].0],
        no_braces(names(g, u, k)),
        no_bracket(names(g, u, k)),
        forall|i: int| 0 <= i < names(g, u, k).len() ==> names(g, u, k)[i] != ';',
{
    let x = g.nodes[u];
    let v = g.links[u][k].0;
    assert(0 <= v < g.nodes.len());
    let y = g.nodes[v];
    assert(is_plain(x) && no_bracket(x));
    assert(is_plain(y) && no_bracket(y));
    let a = x + seq![' '];
    let pat = seq!['-', '>'];
    let r = seq![' '] + y;
    let s = a + pat + r;
    let h = names(g, u, k);
    assert(h =~= seq!['\n'] + s);
    assert forall|i: int| 0 <= i < h.len() implies h[i] != '{' && h[i] != '}' && h[i] != ';'
        && h[i] != '[' by {
        if 1 <= i < 1 + x.len() {
            assert(h[i] == x[i - 1]);
        } else if i >= x.len() + 5 {
            assert(h[i] == y[i - x.len() - 5]);
        }
    }
    lemma_trim_start_space('\n', s);
    assert(s[0] == x[0]);
    assert(trim_start(s) == s);
    assert(s.last() == y.last());
    assert(trim_end(s) == s);
    assert(trim(h) == s);
    assert forall|i: int| 0 <= i < a.len() implies !matches_at(a + pat + r, pat, i) by {
        if i + 2 <= s.len() {
            assert(s.subrange(i, i + 2)[0] == s[i]);
            assert(s.subrange(i, i + 2)[1] == s[i + 1]);
            if i + 1 < x.len() {
                assert(s[i] == x[i]);
                assert(s[i + 1] == x[i + 1]);
            } else if i + 1 == x.len() {
                assert(s[i + 1] == ' ');
            } else {
                assert(s[i] == ' ');
            }
        }
    }
    lemma_split_from_first(a, pat, r, Seq::empty());
    assert forall|i: int| 0 <= i < r.len() implies !matches_at(r, pat, i) by {
        if i + 2 <= r.len() {
            assert(r.subrange(i, i + 2)[0] == r[i]);
            assert(r.subrange(i, i + 2)[1] == r[i + 1]);
            if i == 0 {
                assert(r[0] == ' ');
            } else {
                assert(r[i] == y[i - 1]);
                assert(r[i + 1] == y[i]);
            }
        }
    }
    lemma_split_from_none(r, pat, Seq::empty());
    let none = Seq::<char>::empty();
    assert(none + a =~= a);
    assert(none + r =~= r);
    assert(split(s, pat) =~= seq![a, r]);
    assert(a[0] == x[0]);
    assert(trim_start(a) == a);
    lemma_trim_end_space(x, ' ');
    assert(x.push(' ') =~= a);
    assert(trim_end(x) == x);
    assert(trim(a) == x);
    lemma_trim_start_space(' ', y);
    assert(trim_start(y) == y);
    assert(trim_end(y) == y);
    assert(trim(r) == y);
}

/// A line has neither brace nor semicolon, and the edge that is read from
/// it joins the nodes that it was written for.
proof fn lemma_line(g: MultiDiGraphView<Seq<char>, Seq<char>>, u: int, k: int)
    requires
        g.wf(),
        is_plain_graph(g),
        0 <= u < g.nodes.len(),
        0 <= k < g.links[u].len(),
    ensures
        no_braces(line(g, u, k)),
        line(g, u, k).len() > 0,
        forall|i: int| 0 <= i < line(g, u, k).len() ==> !matches_at(line(g, u, k), seq![';'], i),
        arc_of(line(g, u, k)) == Ok::<(Seq<char>, Seq<char>, Seq<char>), ParseError>(arc(g, u, k)),
{
    lemma_literals();
    lemma_names(g, u, k);
    let h = names(g, u, k);
    let opening = seq![' ', '[', 'l', 'a', 'b', 'e', 'l', '=', '"'];
    let label = g.links[u][k].1;
    assert(is_plain_label(label));
    let l = line(g, u, k);
    assert(l =~= h + opening + label + seq!['"', ']']);
    assert forall|i: int| 0 <= i < l.len() implies #[trigger] l[i] != '{' && l[i] != '}' && l[i]
        != ';' by {
        if i < h.len() {
            assert(l[i] == h[i]);
        } else if i < h.len() + 9 {
            assert(l[i] == opening[i - h.len()]);
        } else if i < h.len() + 9 + label.len() {
            assert(l[i] == label[i - h.len() - 9]);
        }
    }
    assert forall|i: int| 0 <= i < l.len() implies !matches_at(l, seq![';'], i) by {
        if i + 1 <= l.len() {
            assert(l.subrange(i, i + 1)[0] == l[i]);
        }
    }
    let at = h.len() as int + 1;
    assert(l[at] == '[');
    assert forall|i: int| 0 <= i < at implies l[i] != '[' by {
        if i < h.len() {
            assert(l[i] == h[i]);
        }
    }
    lemma_first_index(l, '[', at);
    assert(label_cut(l) == h.len());
    assert(l.subrange(0, h.len() as int) =~= h);
    assert(ends_of(l) == split(trim(h), seq!['-', '>']));
}

/// The statements of a prefix have no brace.
proof fn lemma_body_no_braces(g: MultiDiGraphView<Seq<char>, Seq<char>>, u: int, k: int)
    requires
        g.wf(),
        is_plain_graph(g),
        is_prefix(g, u, k),
    ensures
        no_braces(body(g, u, k)),
    decreases u, k,
{
    if k > 0 {
        lemma_body_no_braces(g, u, k - 1);
        lemma_line(g, u, k - 1);
        let b = body(g, u, k - 1);
        let l = line(g, u, k - 1);
        assert forall|i: int| 0 <= i < body(g, u, k).len() implies #[trigger] body(g, u, k)[i]
            != '{' && body(g, u, k)[i] != '}' by {
            if i < b.len() {
                assert(body(g, u, k)[i] == b[i]);
            } else if i < b.len() + l.len() {
                assert(body(g, u, k)[i] == l[i - b.len()]);
            }
        }
    } else if u > 0 {
        lemma_body_no_braces(g, u - 1, g.links[u - 1].len() as int);
    }
}

/// The edges of the first `n` statements do not depend on the statements
/// behind them.
proof fn lemma_arcs_upto_prefix(s1: Seq<Seq<char>>, s2: Seq<Seq<char>>, n: int)
    requires
        n <= s1.len(),
        n <= s2.len(),
        forall|i: int| 0 <= i < n ==> s1[i] == s2[i],
    ensures
        arcs_upto(s1, n) == arcs_upto(s2, n),
    decreases n,
{
    if n > 0 {
        lemma_arcs_upto_prefix(s1, s2, n - 1);
    }
}

/// The statements of a prefix fall into its lines and an empty piece, and
/// its lines are read as its edges.
proof fn lemma_body_lines(g: MultiDiGraphView<Seq<char>, Seq<char>>, u: int, k: int)
    requires
        g.wf(),
        is_plain_graph(g),
        is_prefix(g, u, k),
    ensures
        split(body(g, u, k), seq![';']) == lines(g, u, k).push(Seq::empty()),
        arcs_upto(lines(g, u, k), lines(g, u, k).len() as int) == Ok::<
            Seq<(Seq<char>, Seq<char>, Seq<char>)>,
            ParseError,
        >(arcs(g, u, k)),
    decreases u, k,
{
    let none = Seq::<char>::empty();
    let semi = seq![';'];
    if k > 0 {
        lemma_body_lines(g, u, k - 1);
        lemma_line(g, u, k - 1);
        let b = body(g, u, k - 1);
        let l = line(g, u, k - 1);
        let ls = lines(g, u, k - 1);
        assert(body(g, u, k) =~= b + (l + semi));
        lemma_split_from_concat(b, l + semi, ';', none);
        assert(ls.push(none).drop_last() =~= ls);
        assert(ls.push(none).last() == none);
        assert(l + semi =~= l + semi + none);
        assert forall|i: int| 0 <= i < l.len() implies !matches_at(l + semi + none, semi, i) by {
            let s = l + semi + none;
            if i + 1 <= s.len() {
                assert(s.subrange(i, i + 1)[0] == s[i]);
                assert(s[i] == l[i]);
                assert(!matches_at(l, semi, i));
                assert(l.subrange(i, i + 1) =~= seq![l[i]]);
            }
        }
        lemma_split_from_first(l, semi, none, none);
        assert(none + l =~= l);
        assert(split(body(g, u, k), semi) =~= ls + (seq![l] + seq![none]));
        assert(split(body(g, u, k), semi) =~= lines(g, u, k).push(none));
        lemma_arcs_upto_prefix(lines(g, u, k), ls, ls.len() as int);
        assert(lines(g, u, k)[ls.len() as int] == l);
    } else if u > 0 {
        lemma_body_lines(g, u - 1, g.links[u - 1].len() as int);
    } else {
        assert(body(g, 0, 0) =~= none);
        assert(split(none, semi) =~= seq![none]);
        assert(lines(g, 0, 0).push(none) =~= seq![none]);
    }
}

/// The graph of the first `n` edges does not depend on the edges behind
/// them.
proof fn lemma_with_arcs_prefix(
    h: MultiDiGraphView<Seq<char>, Seq<char>>,
    a1: Seq<(Seq<char>, Seq<char>, Seq<char>)>,
    a2: Seq<(Seq<char>, Seq<char>, Seq<char>)>,
    n: int,
)
    requires
        n <= a1.len(),
        n <= a2.len(),
        forall|i: int| 0 <= i < n ==> a1[i] == a2[i],
    ensures
        h.with_arcs(a1, n) == h.with_arcs(a2, n),
    decreases n,
{
    if n > 0 {
        lemma_with_arcs_prefix(h, a1, a2, n - 1);
    }
}

/// What nodes a graph has after one was added.
proof fn lemma_add_node_has_node(
    h: MultiDiGraphView<Seq<char>, Seq<char>>,
    v: Seq<char>,
    x: Seq<char>,
)
    ensures
        h.add_node(v).has_node(x) == (h.has_node(x) || x == v),
{
    if !h.has_node(v) {
        let g = h.add_node(v);
        if h.has_node(x) {
            let i = choose|i: int| 0 <= i < h.nodes.len() && h.nodes[i] == x;
            assert(g.nodes[i] == x);
        }
        if x == v {
            assert(g.nodes[h.nodes.len() as int] == x);
        }
        if g.has_node(x) {
            let i = choose|i: int| 0 <= i < g.nodes.len() && g.nodes[i] == x;
            if i < h.nodes.len() {
                assert(h.nodes[i] == x);
            }
        }
    }
}

/// The graph read from the edges of a prefix has the ends of its edges as
/// nodes, and no others.
proof fn lemma_arcs_nodes(g: MultiDiGraphView<Seq<char>, Seq<char>>, u: int, k: int)
    requires
        g.wf(),
        is_plain_graph(g),
        is_prefix(g, u, k),
    ensures
        MultiDiGraphView::from_arcs(arcs(g, u, k)).wf(),
        forall|v: Seq<char>|
            MultiDiGraphView::from_arcs(arcs(g, u, k)).has_node(v) == is_end(g, u, k, v),
    decreases u, k,
{
    let none = MultiDiGraphView::<Seq<char>, Seq<char>>::empty();
    let ps = arcs(g, u, k);
    let p = MultiDiGraphView::from_arcs(ps);
    if k > 0 {
        lemma_arcs_nodes(g, u, k - 1);
        let qs = arcs(g, u, k - 1);
        let q = MultiDiGraphView::from_arcs(qs);
        let one = arc(g, u, k - 1);
        let x = one.0;
        let y = one.1;
        assert(ps == qs.push(one));
        lemma_with_arcs_prefix(none, ps, qs, qs.len() as int);
        assert(ps[ps.len() - 1] == one);
        let q1 = q.add_node(x);
        let q2 = q1.add_node(y);
        assert(p == q2.add_edge(x, y, one.2));
        q.lemma_add_node_wf(x);
        q1.lemma_add_node_wf(y);
        q2.lemma_add_edge_wf(x, y, one.2);
        assert(p.nodes == q2.nodes);
        assert forall|v: Seq<char>| p.has_node(v) == is_end(g, u, k, v) by {
            lemma_add_node_has_node(q, x, v);
            lemma_add_node_has_node(q1, y, v);
            assert(q.has_node(v) == is_end(g, u, k - 1, v));
            if is_end(g, u, k - 1, v) {
                let (w, j) = choose|w: int, j: int| #[trigger]
                    in_prefix(g, u, k - 1, w, j) && (v == g.nodes[w] || v
                        == g.nodes[g.links[w][j].0]);
                assert(in_prefix(g, u, k, w, j));
            }
            if v == x || v == y {
                assert(in_prefix(g, u, k, u, k - 1));
            }
            if is_end(g, u, k, v) {
                let (w, j) = choose|w: int, j: int| #[trigger]
                    in_prefix(g, u, k, w, j) && (v == g.nodes[w] || v == g.nodes[g.links[w][j].0]);
                if w == u && j == k - 1 {
                } else {
                    assert(in_prefix(g, u, k - 1, w, j));
                }
            }
        }
    } else if u > 0 {
        let d = g.links[u - 1].len() as int;
        lemma_arcs_nodes(g, u - 1, d);
        assert forall|v: Seq<char>| p.has_node(v) == is_end(g, u, k, v) by {
            if is_end(g, u - 1, d, v) {
                let (w, j) = choose|w: int, j: int| #[trigger]
                    in_prefix(g, u - 1, d, w, j) && (v == g.nodes[w] || v
                        == g.nodes[g.links[w][j].0]);
                assert(in_prefix(g, u, 0, w, j));
            }
            if is_end(g, u, 0, v) {
                let (w, j) = choose|w: int, j: int| #[trigger]
                    in_prefix(g, u, 0, w, j) && (v == g.nodes[w] || v == g.nodes[g.links[w][j].0]);
                assert(in_prefix(g, u - 1, d, w, j));
            }
        }
    } else {
        assert(ps =~= Seq::empty());
        assert(p == none);
        assert forall|v: Seq<char>| p.has_node(v) == is_end(g, u, k, v) by {
            if is_end(g, 0, 0, v) {
                let (w, j) = choose|w: int, j: int| #[trigger]
                    in_prefix(g, 0, 0, w, j) && (v == g.nodes[w] || v == g.nodes[g.links[w][j].0]);
            }
        }
    }
}

/// A graph of strings with labelled edges that is written and read again
/// has the nodes that it had before, and as many, where the name of the
/// graph has no brace, each node is a plain name without `[`, no label has
/// a brace or a semicolon, and each node has an edge.  (A node without
/// edges is not written; a name that is not plain is read as another name,
/// or as several.)
pub proof fn lemma_multi_round_trip_nodes(
    g: MultiDiGraphView<Seq<char>, Seq<char>>,
    name: Seq<char>,
)
    requires
        g.wf(),
        no_braces(name),
        is_plain_graph(g),
        forall|u: int| 0 <= u < g.nodes.len() ==> has_some_arc(g, u),
    ensures
        parsed_arcs(MultiDiGraph::<String, String>::text(g, name)) is Ok,
        MultiDiGraphView::from_arcs(
            parsed_arcs(MultiDiGraph::<String, String>::text(g, name))->Ok_0,
        ).wf(),
        MultiDiGraphView::from_arcs(
            parsed_arcs(MultiDiGraph::<String, String>::text(g, name))->Ok_0,
        ).nodes.len() == g.nodes.len(),
        forall|v: Seq<char>|
            MultiDiGraphView::from_arcs(
                parsed_arcs(MultiDiGraph::<String, String>::text(g, name))->Ok_0,
            ).has_node(v) == g.has_node(v),
{
    lemma_literals();
    let n = g.nodes.len() as int;
    let text = MultiDiGraph::<String, String>::text(g, name);
    let head = "digraph "@ + name;
    let b = body(g, n, 0);
    lemma_written(g, n, 0);
    lemma_body_no_braces(g, n, 0);
    lemma_body_lines(g, n, 0);
    lemma_arcs_nodes(g, n, 0);
    assert(MultiDiGraph::<String, String>::node_statements(g, n, 0) =~= Seq::<char>::empty());
    assert(written(g, n, 0) =~= MultiDiGraph::<String, String>::statements(g, n));
    let st = MultiDiGraph::<String, String>::statements(g, n);
    assert(text =~= head + seq!['{'] + (seq!['\n'] + st) + seq!['}', '\n']);
    assert(text =~= head + seq!['{'] + b + seq!['\n'] + seq!['}', '\n']);
    let open = head.len() as int;
    let close = open + 1 + b.len() + 1;
    assert(text[open] == '{');
    assert(text[close] == '}');
    assert forall|i: int| 0 <= i < open implies text[i] != '{' by {
        assert(text[i] == head[i]);
        if i >= 8 {
            assert(head[i] == name[i - 8]);
        }
    }
    assert forall|i: int| 0 <= i < close implies text[i] != '}' by {
        if i < open {
            assert(text[i] == head[i]);
            if i >= 8 {
                assert(head[i] == name[i - 8]);
            }
        } else if open < i < open + 1 + b.len() {
            assert(text[i] == b[i - open - 1]);
        }
    }
    assert(is_first(text, '{', open));
    assert(is_first(text, '}', close));
    lemma_first_index(text, '{', open);
    lemma_first_index(text, '}', close);
    assert(text.subrange(open + 1, close - 1) =~= b);
    assert(body_of(text) == Ok::<Seq<char>, ParseError>(b));
    let ls = lines(g, n, 0);
    let all = ls.push(Seq::<char>::empty());
    let read_arcs = arcs(g, n, 0);
    lemma_arcs_upto_prefix(all, ls, ls.len() as int);
    assert(all[ls.len() as int].len() == 0);
    assert(arcs_upto(all, all.len() as int) == arcs_upto(all, ls.len() as int));
    assert(parsed_arcs(text) == Ok::<Seq<(Seq<char>, Seq<char>, Seq<char>)>, ParseError>(
        read_arcs,
    ));
    let read = MultiDiGraphView::from_arcs(read_arcs);
    assert forall|v: Seq<char>| read.has_node(v) == g.has_node(v) by {
        if g.has_node(v) {
            lemma_index_of_found(g.nodes, v);
            let u = g.index_of(v);
            assert(has_some_arc(g, u));
            if g.links[u].len() > 0 {
                assert(in_prefix(g, n, 0, u, 0));
            } else {
                let (w, j) = choose|w: int, j: int|
                    0 <= w < g.links.len() && 0 <= j < g.links[w].len() && (
                    #[trigger] g.links[w][j]).0 == u;
                assert(in_prefix(g, n, 0, w, j));
            }
            assert(is_end(g, n, 0, v));
        }
        if is_end(g, n, 0, v) {
            let (w, j) = choose|w: int, j: int| #[trigger]
                in_prefix(g, n, 0, w, j) && (v == g.nodes[w] || v == g.nodes[g.links[w][j].0]);
            assert(0 <= g.links[w][j].0 < g.nodes.len());
        }
    }
    assert forall|v: Seq<char>| read.nodes.to_set().contains(v) == g.nodes.to_set().contains(
        v,
    ) by {
        assert(read.has_node(v) == g.has_node(v));
    }
    assert(read.nodes.to_set() =~= g.nodes.to_set());
    read.nodes.unique_seq_to_set();
    g.nodes.unique_seq_to_set();
}

} // verus!
