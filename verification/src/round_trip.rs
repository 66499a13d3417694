//! A directed graph of strings that is written as text and read again.

use vstd::prelude::*;
use crate::digraph::{DiGraph, DiGraphView};
use crate::dot::{body_of, chains_of, tokens_of, parsed_chains, ParseError};
use crate::rugraph::{lemma_index_of_found, lemma_index_of_unique};
use crate::text::{
    is_space, is_first, lemma_first_index, split, split_from, matches_at, trim, trim_start,
    trim_end, lemma_split_from_none, lemma_split_from_first, lemma_split_from_concat,
    lemma_trim_start_space, lemma_trim_end_space,
};

verus! {

/// A name that the text form gives back as it is: not empty, without white
/// space at its ends, and without brace, semicolon or arrow in it.
pub open spec fn is_plain(v: Seq<char>) -> bool {
    &&& v.len() > 0
    &&& !is_space(v[0])
    &&& !is_space(v.last())
    &&& forall|i: int| 0 <= i < v.len() ==> #[trigger] v[i] != '{' && v[i] != '}' && v[i] != ';'
    &&& forall|i: int, j: int|
        #![trigger v[i], v[j]]
        0 <= i && j == i + 1 && j < v.len() ==> !(v[i] == '-' && v[j] == '>')
}

/// A braceless text.
pub open spec fn no_braces(s: Seq<char>) -> bool {
    forall|i: int| 0 <= i < s.len() ==> #[trigger] s[i] != '{' && s[i] != '}'
}

/// The node `u` has an edge: one that leaves it or one that leads to it.
pub open spec fn has_some_edge(g: DiGraphView<Seq<char>>, u: int) -> bool {
    g.links[u].len() > 0 || exists|w: int, j: int|
        0 <= w < g.links.len() && 0 <= j < g.links[w].len() && #[trigger] g.links[w][j] == u
}

/// `(u, k)` stands for the edges of the nodes before `u` and the first `k`
/// edges of `u`.
spec fn is_prefix(g: DiGraphView<Seq<char>>, u: int, k: int) -> bool {
    &&& 0 <= u <= g.nodes.len()
    &&& 0 <= k
    &&& u < g.nodes.len() ==> k <= g.links[u].len()
    &&& u == g.nodes.len() ==> k == 0
}

/// The `j`-th edge of `w` is among those that `(u, k)` stands for.
spec fn in_prefix(g: DiGraphView<Seq<char>>, u: int, k: int, w: int, j: int) -> bool {
    &&& 0 <= w < g.nodes.len()
    &&& 0 <= j < g.links[w].len()
    &&& w < u || (w == u && j < k)
}

/// `v` is an end of one of the edges that `(u, k)` stands for.
spec fn is_end(g: DiGraphView<Seq<char>>, u: int, k: int, v: Seq<char>) -> bool {
    exists|w: int, j: int| #[trigger]
        in_prefix(g, u, k, w, j) && (v == g.nodes[w] || v == g.nodes[g.links[w][j]])
}

/// One of the edges that `(u, k)` stands for leads from `x` to `y`.
spec fn is_link(g: DiGraphView<Seq<char>>, u: int, k: int, x: Seq<char>, y: Seq<char>) -> bool {
    exists|w: int, j: int| #[trigger]
        in_prefix(g, u, k, w, j) && x == g.nodes[w] && y == g.nodes[g.links[w][j]]
}

/// The statement of an edge without its semicolon, behind a line break.
spec fn line(g: DiGraphView<Seq<char>>, u: int, k: int) -> Seq<char> {
    seq!['\n'] + g.nodes[u] + seq![' '] + seq!['-', '>'] + (seq![' '] + g.nodes[g.links[u][k]])
}

/// The statements of a prefix, each behind a line break.
spec fn body(g: DiGraphView<Seq<char>>, u: int, k: int) -> Seq<char>
    decreases u, k,
{
    if u < 0 || u > g.nodes.len() {
        Seq::empty()
    } else if k > 0 {
        body(g, u, k - 1) + line(g, u, k - 1) + seq![';']
    } else if u > 0 {
        body(g, u - 1, g.links[u - 1].len() as int)
    } else {
        Seq::empty()
    }
}

/// The text of a prefix as the graph writes it.
spec fn written(g: DiGraphView<Seq<char>>, u: int, k: int) -> Seq<char> {
    DiGraph::<String>::statements(g, u) + DiGraph::<String>::node_statements(g, u, k)
}

/// The lines of a prefix.
spec fn lines(g: DiGraphView<Seq<char>>, u: int, k: int) -> Seq<Seq<char>>
    decreases u, k,
{
    if u < 0 || u > g.nodes.len() {
        Seq::empty()
    } else if k > 0 {
        lines(g, u, k - 1).push(line(g, u, k - 1))
    } else if u > 0 {
        lines(g, u - 1, g.links[u - 1].len() as int)
    } else {
        Seq::empty()
    }
}

/// The chains of a prefix: source and destination of each edge.
spec fn pairs(g: DiGraphView<Seq<char>>, u: int, k: int) -> Seq<Seq<Seq<char>>>
    decreases u, k,
{
    if u < 0 || u > g.nodes.len() {
        Seq::empty()
    } else if k > 0 {
        pairs(g, u, k - 1).push(seq![g.nodes[u], g.nodes[g.links[u][k - 1]]])
    } else if u > 0 {
        pairs(g, u - 1, g.links[u - 1].len() as int)
    } else {
        Seq::empty()
    }
}

proof fn lemma_literals()
    ensures
        "digraph "@ == seq!['d', 'i', 'g', 'r', 'a', 'p', 'h', ' '],
        "{\n"@ == seq!['{', '\n'],
        "}\n"@ == seq!['}', '\n'],
        " -> "@ == seq![' ', '-', '>', ' '],
        ";\n"@ == seq![';', '\n'],
        ";"@ == seq![';'],
        "->"@ == seq!['-', '>'],
{
    reveal_strlit("digraph ");
    reveal_strlit("{\n");
    reveal_strlit("}\n");
    reveal_strlit(" -> ");
    reveal_strlit(";\n");
    reveal_strlit(";");
    reveal_strlit("->");
    assert("digraph "@ =~= seq!['d', 'i', 'g', 'r', 'a', 'p', 'h', ' ']);
    assert("{\n"@ =~= seq!['{', '\n']);
    assert("}\n"@ =~= seq!['}', '\n']);
    assert(" -> "@ =~= seq![' ', '-', '>', ' ']);
    assert(";\n"@ =~= seq![';', '\n']);
    assert(";"@ =~= seq![';']);
    assert("->"@ =~= seq!['-', '>']);
}

/// The written text of a prefix behind a line break is its statements, each
/// behind a line break, and a line break.
proof fn lemma_written(g: DiGraphView<Seq<char>>, u: int, k: int)
    requires
        is_prefix(g, u, k),
    ensures
        seq!['\n'] + written(g, u, k) == body(g, u, k) + seq!['\n'],
    decreases u, k,
{
    lemma_literals();
    if k > 0 {
        lemma_written(g, u, k - 1);
        let before = DiGraph::<String>::statements(g, u) + DiGraph::<String>::node_statements(
            g,
            u,
            k - 1,
        );
        let st = DiGraph::<String>::statement(g, u, k - 1);
        assert(written(g, u, k) =~= before + st);
        assert(st =~= g.nodes[u] + seq![' ', '-', '>', ' '] + g.nodes[g.links[u][k - 1]] + seq![
            ';',
            '\n',
        ]);
        assert(seq!['\n'] + (before + st) =~= (seq!['\n'] + before) + st);
        assert((body(g, u, k - 1) + seq!['\n']) + st =~= body(g, u, k - 1) + line(g, u, k - 1)
            + seq![';'] + seq!['\n']);
    } else if u > 0 {
        lemma_written(g, u - 1, g.links[u - 1].len() as int);
        assert(written(g, u, 0) =~= written(g, u - 1, g.links[u - 1].len() as int));
        assert(DiGraph::<String>::node_statements(g, u, 0) =~= Seq::<char>::empty());
    } else {
        assert(written(g, 0, 0) =~= Seq::<char>::empty());
        assert(seq!['\n'] + written(g, u, k) =~= body(g, u, k) + seq!['\n']);
    }
}

/// A line has neither brace nor semicolon.
proof fn lemma_line(g: DiGraphView<Seq<char>>, u: int, k: int)
    requires
        g.wf(),
        forall|x: int| 0 <= x < g.nodes.len() ==> is_plain(#[trigger] g.nodes[x]),
        0 <= u < g.nodes.len(),
        0 <= k < g.links[u].len(),
    ensures
        no_braces(line(g, u, k)),
        forall|i: int| 0 <= i < line(g, u, k).len() ==> !matches_at(line(g, u, k), seq![';'], i),
        tokens_of(line(g, u, k)) == seq![g.nodes[u], g.nodes[g.links[u][k]]],
{
    lemma_literals();
    let x = g.nodes[u];
    let v = g.links[u][k];
    assert(0 <= v < g.nodes.len());
    let y = g.nodes[v];
    assert(is_plain(x));
    assert(is_plain(y));
    let l = line(g, u, k);
    let a = seq!['\n'] + x + seq![' '];
    let pat = seq!['-', '>'];
    let r = seq![' '] + y;
    assert(l =~= a + pat + r);
    assert forall|i: int| 0 <= i < l.len() implies #[trigger] l[i] != '{' && l[i] != '}' && l[i]
        != ';' by {
        if 1 <= i < 1 + x.len() {
            assert(l[i] == x[i - 1]);
        } else if i >= a.len() + 3 {
            assert(l[i] == y[i - a.len() - 3]);
        }
    }
    assert forall|i: int| 0 <= i < l.len() implies !matches_at(l, seq![';'], i) by {
        if i + 1 <= l.len() {
            assert(l.subrange(i, i + 1)[0] == l[i]);
        }
    }
    assert forall|i: int| 0 <= i < a.len() implies !matches_at(a + pat + r, pat, i) by {
        let s = a + pat + r;
        if i + 2 <= s.len() {
            assert(s.subrange(i, i + 2)[0] == s[i]);
            assert(s.subrange(i, i + 2)[1] == s[i + 1]);
            if i == 0 {
                assert(s[0] == '\n');
            } else if i < x.len() {
                assert(s[i] == x[i - 1]);
                assert(s[i + 1] == x[i]);
            } else if i == x.len() {
                assert(s[i + 1] == ' ');
            } else {
                assert(s[i] == ' ');
            }
        }
    }
    lemma_split_from_first(a, pat, r, Seq::empty());
    assert forall|i: int| 0 <= i < r.len() implies !matches_at(r, pat, i) by {
        if i + 2 <= r.len() {
            assert(r.subrange(i, i + 2)[0] == r[i]);
            assert(r.subrange(i, i + 2)[1] == r[i + 1]);
            if i == 0 {
                assert(r[0] == ' ');
            } else {
                assert(r[i] == y[i - 1]);
                assert(r[i + 1] == y[i]);
            }
        }
    }
    lemma_split_from_none(r, pat, Seq::empty());
    let none = Seq::<char>::empty();
    assert(none + a =~= a);
    assert(none + r =~= r);
    assert(split(l, pat) =~= seq![a, r]);
    // the white space around the names
    lemma_trim_start_space('\n', x + seq![' ']);
    assert(seq!['\n'] + (x + seq![' ']) =~= a);
    assert((x + seq![' '])[0] == x[0]);
    assert(trim_start(a) == x + seq![' ']);
    lemma_trim_end_space(x, ' ');
    assert(x.push(' ') =~= x + seq![' ']);
    assert(trim_end(x) == x);
    assert(trim(a) == x);
    lemma_trim_start_space(' ', y);
    assert(trim_start(y) == y);
    assert(trim_end(y) == y);
    assert(trim(r) == y);
    assert(tokens_of(l) =~= seq![x, y]);
}

/// The statements of a prefix have no brace.
proof fn lemma_body_no_braces(g: DiGraphView<Seq<char>>, u: int, k: int)
    requires
        g.wf(),
        forall|x: int| 0 <= x < g.nodes.len() ==> is_plain(#[trigger] g.nodes[x]),
        is_prefix(g, u, k),
    ensures
        no_braces(body(g, u, k)),
    decreases u, k,
{
    if k > 0 {
        lemma_body_no_braces(g, u, k - 1);
        lemma_line(g, u, k - 1);
        let b = body(g, u, k - 1);
        let l = line(g, u, k - 1);
        assert forall|i: int| 0 <= i < body(g, u, k).len() implies #[trigger] body(g, u, k)[i]
            != '{' && body(g, u, k)[i] != '}' by {
            if i < b.len() {
                assert(body(g, u, k)[i] == b[i]);
            } else if i < b.len() + l.len() {
                assert(body(g, u, k)[i] == l[i - b.len()]);
            }
        }
    } else if u > 0 {
        lemma_body_no_braces(g, u - 1, g.links[u - 1].len() as int);
    }
}

/// The statements of a prefix fall into its lines and an empty piece.
proof fn lemma_body_lines(g: DiGraphView<Seq<char>>, u: int, k: int)
    requires
        g.wf(),
        forall|x: int| 0 <= x < g.nodes.len() ==> is_plain(#[trigger] g.nodes[x]),
        is_prefix(g, u, k),
    ensures
        split(body(g, u, k), seq![';']) == lines(g, u, k).push(Seq::empty()),
        chains_of(body(g, u, k)) == pairs(g, u, k).push(seq![Seq::<char>::empty()]),
        pairs(g, u, k).len() == lines(g, u, k).len(),
    decreases u, k,
{
    lemma_literals();
    let none = Seq::<char>::empty();
    let semi = seq![';'];
    assert(trim(none) == none);
    lemma_split_from_none(none, seq!['-', '>'], none);
    assert(none + none =~= none);
    assert(tokens_of(none) =~= seq![none]);
    if k > 0 {
        lemma_body_lines(g, u, k - 1);
        lemma_line(g, u, k - 1);
        let b = body(g, u, k - 1);
        let l = line(g, u, k - 1);
        let ls = lines(g, u, k - 1);
        let ps = pairs(g, u, k - 1);
        assert(body(g, u, k) =~= b + (l + semi));
        lemma_split_from_concat(b, l + semi, ';', none);
        assert(ls.push(none).drop_last() =~= ls);
        assert(ls.push(none).last() == none);
        assert(l + semi =~= l + semi + none);
        assert forall|i: int| 0 <= i < l.len() implies !matches_at(l + semi + none, semi, i) by {
            let s = l + semi + none;
            if i + 1 <= s.len() {
                assert(s.subrange(i, i + 1)[0] == s[i]);
                assert(s[i] == l[i]);
                assert(!matches_at(l, semi, i));
                assert(l.subrange(i, i + 1) =~= seq![l[i]]);
            }
        }
        lemma_split_from_first(l, semi, none, none);
        assert(none + l =~= l);
        assert(split(body(g, u, k), semi) =~= ls + (seq![l] + seq![none]));
        assert(split(body(g, u, k), semi) =~= lines(g, u, k).push(none));
        assert(chains_of(body(g, u, k)) =~= pairs(g, u, k).push(seq![none])) by {
            let all = split(body(g, u, k), semi);
            let got = chains_of(body(g, u, k));
            let old_all = split(b, semi);
            assert(chains_of(b) == ps.push(seq![none]));
            assert(got.len() == ps.len() + 2);
            assert forall|i: int| 0 <= i < got.len() implies got[i] == pairs(g, u, k).push(
                seq![none],
            )[i] by {
                assert(got[i] == tokens_of(all[i]));
                if i < ps.len() {
                    assert(all[i] == old_all[i]);
                    assert(chains_of(b)[i] == tokens_of(old_all[i]));
                }
            }
        }
    } else if u > 0 {
        lemma_body_lines(g, u - 1, g.links[u - 1].len() as int);
    } else {
        assert(body(g, 0, 0) =~= none);
        assert(split(none, semi) =~= seq![none]);
        assert(lines(g, 0, 0).push(none) =~= seq![none]);
        assert(chains_of(none) =~= seq![seq![none]]);
        assert(pairs(g, 0, 0).push(seq![none]) =~= seq![seq![none]]);
    }
}

/// The graph of the first `m` chains does not depend on the chains behind
/// them.
proof fn lemma_with_chains_prefix(
    h: DiGraphView<Seq<char>>,
    c1: Seq<Seq<Seq<char>>>,
    c2: Seq<Seq<Seq<char>>>,
    m: int,
    both: bool,
)
    requires
        m <= c1.len(),
        m <= c2.len(),
        forall|i: int| 0 <= i < m ==> c1[i] == c2[i],
    ensures
        h.with_chains(c1, m, both) == h.with_chains(c2, m, both),
    decreases m,
{
    if m > 0 {
        lemma_with_chains_prefix(h, c1, c2, m - 1, both);
    }
}

/// What nodes a graph has after one was added.
proof fn lemma_add_node_has_node(h: DiGraphView<Seq<char>>, v: Seq<char>, x: Seq<char>)
    ensures
        h.add_node(v).has_node(x) == (h.has_node(x) || x == v),
{
    if !h.has_node(v) {
        let g = h.add_node(v);
        if h.has_node(x) {
            let i = choose|i: int| 0 <= i < h.nodes.len() && h.nodes[i] == x;
            assert(g.nodes[i] == x);
        }
        if x == v {
            assert(g.nodes[h.nodes.len() as int] == x);
        }
        if g.has_node(x) {
            let i = choose|i: int| 0 <= i < g.nodes.len() && g.nodes[i] == x;
            if i < h.nodes.len() {
                assert(h.nodes[i] == x);
            }
        }
    }
}

/// The graph read from the chains of a prefix has the ends of its edges as
/// nodes, and no others.
proof fn lemma_pairs_nodes(g: DiGraphView<Seq<char>>, u: int, k: int)
    requires
        g.wf(),
        forall|x: int| 0 <= x < g.nodes.len() ==> is_plain(#[trigger] g.nodes[x]),
        is_prefix(g, u, k),
    ensures
        DiGraphView::<Seq<char>>::empty().with_chains(
            pairs(g, u, k),
            pairs(g, u, k).len() as int,
            false,
        ).wf(),
        forall|v: Seq<char>|
            DiGraphView::<Seq<char>>::empty().with_chains(
                pairs(g, u, k),
                pairs(g, u, k).len() as int,
                false,
            ).has_node(v) == is_end(g, u, k, v),
        forall|x: Seq<char>, y: Seq<char>|
            DiGraphView::<Seq<char>>::empty().with_chains(
                pairs(g, u, k),
                pairs(g, u, k).len() as int,
                false,
            ).has_edge(x, y) == is_link(g, u, k, x, y),
    decreases u, k,
{
    let none = DiGraphView::<Seq<char>>::empty();
    let ps = pairs(g, u, k);
    let p = none.with_chains(ps, ps.len() as int, false);
    if k > 0 {
        lemma_pairs_nodes(g, u, k - 1);
        let qs = pairs(g, u, k - 1);
        let q = none.with_chains(qs, qs.len() as int, false);
        let x = g.nodes[u];
        let t = g.links[u][k - 1];
        assert(0 <= t < g.nodes.len());
        let y = g.nodes[t];
        assert(is_plain(x));
        assert(is_plain(y));
        let pair = seq![x, y];
        assert(ps == qs.push(pair));
        lemma_with_chains_prefix(none, ps, qs, qs.len() as int, false);
        assert(ps[ps.len() - 1] == pair);
        assert(p == q.with_tokens(pair, 2, false));
        reveal_with_fuel(DiGraphView::with_tokens, 3);
        let q1 = q.add_node(x);
        let q2 = q1.add_node(y);
        assert(q.with_tokens(pair, 1, false) == q1);
        assert(p == q2.add_edge(x, y));
        q.lemma_add_node_wf(x);
        q1.lemma_add_node_wf(y);
        q2.lemma_add_edge_wf(x, y);
        assert(p.nodes == q2.nodes);
        assert forall|v: Seq<char>| p.has_node(v) == is_end(g, u, k, v) by {
            lemma_add_node_has_node(q, x, v);
            lemma_add_node_has_node(q1, y, v);
            assert(q.has_node(v) == is_end(g, u, k - 1, v));
            if is_end(g, u, k - 1, v) {
                let (w, j) = choose|w: int, j: int| #[trigger]
                    in_prefix(g, u, k - 1, w, j) && (v == g.nodes[w] || v
                        == g.nodes[g.links[w][j]]);
                assert(in_prefix(g, u, k, w, j));
            }
            if v == x || v == y {
                assert(in_prefix(g, u, k, u, k - 1));
            }
            if is_end(g, u, k, v) {
                let (w, j) = choose|w: int, j: int| #[trigger]
                    in_prefix(g, u, k, w, j) && (v == g.nodes[w] || v == g.nodes[g.links[w][j]]);
                if w == u && j == k - 1 {
                } else {
                    assert(in_prefix(g, u, k - 1, w, j));
                }
            }
        }
        assert forall|a: Seq<char>, b: Seq<char>| p.has_edge(a, b) == is_link(g, u, k, a, b) by {
            q.lemma_add_node_has_edge(x, a, b);
            q1.lemma_add_node_has_edge(y, a, b);
            q2.lemma_add_edge_has_edge(x, y, a, b);
            lemma_add_node_has_node(q, x, x);
            lemma_add_node_has_node(q1, y, x);
            lemma_add_node_has_node(q1, y, y);
            assert(q.has_edge(a, b) == is_link(g, u, k - 1, a, b));
            if is_link(g, u, k - 1, a, b) {
                let (w, j) = choose|w: int, j: int| #[trigger]
                    in_prefix(g, u, k - 1, w, j) && a == g.nodes[w] && b == g.nodes[g.links[w][j]];
                assert(in_prefix(g, u, k, w, j));
            }
            if a == x && b == y {
                assert(in_prefix(g, u, k, u, k - 1));
            }
            if is_link(g, u, k, a, b) {
                let (w, j) = choose|w: int, j: int| #[trigger]
                    in_prefix(g, u, k, w, j) && a == g.nodes[w] && b == g.nodes[g.links[w][j]];
                if w == u && j == k - 1 {
                } else {
                    assert(in_prefix(g, u, k - 1, w, j));
                }
            }
        }
    } else if u > 0 {
        let d = g.links[u - 1].len() as int;
        lemma_pairs_nodes(g, u - 1, d);
        assert forall|a: Seq<char>, b: Seq<char>| p.has_edge(a, b) == is_link(g, u, k, a, b) by {
            if is_link(g, u - 1, d, a, b) {
                let (w, j) = choose|w: int, j: int| #[trigger]
                    in_prefix(g, u - 1, d, w, j) && a == g.nodes[w] && b == g.nodes[g.links[w][j]];
                assert(in_prefix(g, u, 0, w, j));
            }
            if is_link(g, u, 0, a, b) {
                let (w, j) = choose|w: int, j: int| #[trigger]
                    in_prefix(g, u, 0, w, j) && a == g.nodes[w] && b == g.nodes[g.links[w][j]];
                assert(in_prefix(g, u - 1, d, w, j));
            }
        }
        assert forall|v: Seq<char>| p.has_node(v) == is_end(g, u, k, v) by {
            if is_end(g, u - 1, d, v) {
                let (w, j) = choose|w: int, j: int| #[trigger]
                    in_prefix(g, u - 1, d, w, j) && (v == g.nodes[w] || v
                        == g.nodes[g.links[w][j]]);
                assert(in_prefix(g, u, 0, w, j));
            }
            if is_end(g, u, 0, v) {
                let (w, j) = choose|w: int, j: int| #[trigger]
                    in_prefix(g, u, 0, w, j) && (v == g.nodes[w] || v == g.nodes[g.links[w][j]]);
                assert(in_prefix(g, u - 1, d, w, j));
            }
        }
    } else {
        assert(ps =~= Seq::empty());
        assert(p == none);
        assert forall|v: Seq<char>| p.has_node(v) == is_end(g, u, k, v) by {
            if is_end(g, 0, 0, v) {
                let (w, j) = choose|w: int, j: int| #[trigger]
                    in_prefix(g, 0, 0, w, j) && (v == g.nodes[w] || v == g.nodes[g.links[w][j]]);
            }
        }
        assert forall|a: Seq<char>, b: Seq<char>| p.has_edge(a, b) == is_link(g, u, k, a, b) by {
            if is_link(g, 0, 0, a, b) {
                let (w, j) = choose|w: int, j: int| #[trigger]
                    in_prefix(g, 0, 0, w, j) && a == g.nodes[w] && b == g.nodes[g.links[w][j]];
            }
        }
    }
}

/// A directed graph of strings that is written and read again has the nodes
/// and the edges that it had before, and as many nodes, where the name of
/// the graph has no brace, each node is a plain name and each node has an
/// edge.  (A node without edges is not written; a name that is not plain is
/// read as another name, or as several.)
pub proof fn lemma_round_trip(g: DiGraphView<Seq<char>>, name: Seq<char>)
    requires
        g.wf(),
        no_braces(name),
        forall|u: int| 0 <= u < g.nodes.len() ==> is_plain(#[trigger] g.nodes[u]),
        forall|u: int| 0 <= u < g.nodes.len() ==> has_some_edge(g, u),
    ensures
        parsed_chains(DiGraph::<String>::text(g, name)) is Ok,
        DiGraphView::from_chains(
            parsed_chains(DiGraph::<String>::text(g, name))->Ok_0,
            false,
        ).wf(),
        DiGraphView::from_chains(
            parsed_chains(DiGraph::<String>::text(g, name))->Ok_0,
            false,
        ).nodes.len() == g.nodes.len(),
        forall|v: Seq<char>|
            DiGraphView::from_chains(
                parsed_chains(DiGraph::<String>::text(g, name))->Ok_0,
                false,
            ).has_node(v) == g.has_node(v),
        forall|x: Seq<char>, y: Seq<char>|
            DiGraphView::from_chains(
                parsed_chains(DiGraph::<String>::text(g, name))->Ok_0,
                false,
            ).has_edge(x, y) == g.has_edge(x, y),
{
    lemma_literals();
    let n = g.nodes.len() as int;
    let text = DiGraph::<String>::text(g, name);
    let head = "digraph "@ + name;
    let b = body(g, n, 0);
    lemma_written(g, n, 0);
    lemma_body_no_braces(g, n, 0);
    lemma_body_lines(g, n, 0);
    lemma_pairs_nodes(g, n, 0);
    assert(DiGraph::<String>::node_statements(g, n, 0) =~= Seq::<char>::empty());
    assert(written(g, n, 0) =~= DiGraph::<String>::statements(g, n));
    let st = DiGraph::<String>::statements(g, n);
    assert(text =~= head + seq!['{'] + (seq!['\n'] + st) + seq!['}', '\n']);
    assert(text =~= head + seq!['{'] + b + seq!['\n'] + seq!['}', '\n']);
    let open = head.len() as int;
    let close = open + 1 + b.len() + 1;
    assert(text[open] == '{');
    assert(text[close] == '}');
    assert forall|i: int| 0 <= i < open implies text[i] != '{' by {
        assert(text[i] == head[i]);
        if i >= 8 {
            assert(head[i] == name[i - 8]);
        }
    }
    assert forall|i: int| 0 <= i < close implies text[i] != '}' by {
        if i < open {
            assert(text[i] == head[i]);
            if i >= 8 {
                assert(head[i] == name[i - 8]);
            }
        } else if open < i < open + 1 + b.len() {
            assert(text[i] == b[i - open - 1]);
        }
    }
    assert(is_first(text, '{', open));
    assert(is_first(text, '}', close));
    lemma_first_index(text, '{', open);
    lemma_first_index(text, '}', close);
    assert(text.subrange(open + 1, close - 1) =~= b);
    assert(body_of(text) == Ok::<Seq<char>, ParseError>(b));
    let ps = pairs(g, n, 0);
    let chains = ps.push(seq![Seq::<char>::empty()]);
    assert(parsed_chains(text) == Ok::<Seq<Seq<Seq<char>>>, ParseError>(chains));
    let none = DiGraphView::<Seq<char>>::empty();
    let p = none.with_chains(ps, ps.len() as int, false);
    lemma_with_chains_prefix(none, chains, ps, ps.len() as int, false);
    reveal_with_fuel(DiGraphView::with_tokens, 2);
    let read = DiGraphView::from_chains(chains, false);
    assert(chains[chains.len() - 1] == seq![Seq::<char>::empty()]);
    assert(read == none.with_chains(chains, ps.len() as int, false).with_tokens(
        seq![Seq::<char>::empty()],
        1,
        false,
    ));
    assert(read == p);
    assert forall|v: Seq<char>| read.has_node(v) == g.has_node(v) by {
        if g.has_node(v) {
            lemma_index_of_found(g.nodes, v);
            let u = g.index_of(v);
            assert(has_some_edge(g, u));
            if g.links[u].len() > 0 {
                assert(in_prefix(g, n, 0, u, 0));
            } else {
                let (w, j) = choose|w: int, j: int|
                    0 <= w < g.links.len() && 0 <= j < g.links[w].len() && #[trigger] g.links[w][j]
                        == u;
                assert(in_prefix(g, n, 0, w, j));
            }
            assert(is_end(g, n, 0, v));
        }
        if is_end(g, n, 0, v) {
            let (w, j) = choose|w: int, j: int| #[trigger]
                in_prefix(g, n, 0, w, j) && (v == g.nodes[w] || v == g.nodes[g.links[w][j]]);
            assert(0 <= g.links[w][j] < g.nodes.len());
        }
    }
    assert forall|x: Seq<char>, y: Seq<char>| read.has_edge(x, y) == g.has_edge(x, y) by {
        if g.has_edge(x, y) {
            lemma_index_of_found(g.nodes, x);
            lemma_index_of_found(g.nodes, y);
            let w = g.index_of(x);
            lemma_index_of_found(g.links[w], g.index_of(y));
            let j = g.links[w].index_of(g.index_of(y));
            assert(in_prefix(g, n, 0, w, j));
            assert(is_link(g, n, 0, x, y));
        }
        if is_link(g, n, 0, x, y) {
            let (w, j) = choose|w: int, j: int| #[trigger]
                in_prefix(g, n, 0, w, j) && x == g.nodes[w] && y == g.nodes[g.links[w][j]];
            let t = g.links[w][j];
            assert(0 <= t < g.nodes.len());
            lemma_index_of_unique(g.nodes, w);
            lemma_index_of_unique(g.nodes, t);
            assert(g.links[w][j] == t);
        }
    }
    assert forall|v: Seq<char>| read.nodes.to_set().contains(v) == g.nodes.to_set().contains(
        v,
    ) by {
        assert(read.has_node(v) == g.has_node(v));
    }
    assert(read.nodes.to_set() =~= g.nodes.to_set());
    read.nodes.unique_seq_to_set();
    g.nodes.unique_seq_to_set();
}

} // verus!
