//! Searches over a graph whose nodes are numbered `0..n`.
//!
//! A graph is seen here as a sequence of successor lists: `links[u]` holds
//! the nodes that the edges leaving `u` lead to, in the order in which the
//! edges were added.  An edge is the pair `(u, k)`: the `k`-th edge leaving
//! `u`.  A trail is a sequence of edges, each one starting where the one
//! before it ended.

use vstd::prelude::*;

verus! {

/// Read access to the successor lists of a graph.
pub trait Adjacency {
    /// The successor lists, by node index.
    spec fn links(&self) -> Seq<Seq<int>>;

    /// Number of nodes.
    fn order(&self) -> (n: usize)
        ensures
            n == self.links().len(),
    ;

    /// Number of edges that leave `u`.
    fn degree(&self, u: usize) -> (d: usize)
        requires
            u < self.links().len(),
        ensures
            d == self.links()[u as int].len(),
    ;

    /// The node that the `k`-th edge leaving `u` leads to.
    fn target(&self, u: usize, k: usize) -> (v: usize)
        requires
            u < self.links().len(),
            k < self.links()[u as int].len(),
        ensures
            v == self.links()[u as int][k as int],
    ;
}

/// Every edge leads to a node of the graph.
pub open spec fn closed(links: Seq<Seq<int>>) -> bool {
    forall|u: int, k: int|
        0 <= u < links.len() && 0 <= k < links[u].len() ==> 0 <= #[trigger] links[u][k]
            < links.len()
}

/// An edge leads from `u` to `v`.
pub open spec fn has_link(links: Seq<Seq<int>>, u: int, v: int) -> bool {
    0 <= u < links.len() && links[u].contains(v)
}

/// Each node of `w` is joined to the next one by an edge.
pub open spec fn is_walk(links: Seq<Seq<int>>, w: Seq<int>) -> bool {
    forall|i: int, j: int|
        0 <= i && j == i + 1 && j < w.len() ==> has_link(links, #[trigger] w[i], #[trigger] w[j])
}

/// `to` can be reached from `from` along one edge or more.
pub open spec fn reachable(links: Seq<Seq<int>>, from: int, to: int) -> bool {
    exists|w: Seq<int>| #[trigger]
        is_walk(links, w) && w.len() >= 2 && w[0] == from && w.last() == to
}

/// An edge is a walk.
pub proof fn lemma_reachable_by_link(links: Seq<Seq<int>>, u: int, v: int)
    requires
        has_link(links, u, v),
    ensures
        reachable(links, u, v),
{
    let w = seq![u, v];
    assert(is_walk(links, w));
    assert(w[0] == u && w.last() == v);
}

/// A walk followed by an edge is a walk.
pub proof fn lemma_reachable_extend(links: Seq<Seq<int>>, from: int, u: int, v: int)
    requires
        reachable(links, from, u),
        has_link(links, u, v),
    ensures
        reachable(links, from, v),
{
    let w = choose|w: Seq<int>| #[trigger]
        is_walk(links, w) && w.len() >= 2 && w[0] == from && w.last() == u;
    let x = w.push(v);
    assert forall|i: int, j: int| 0 <= i && j == i + 1 && j < x.len() implies has_link(
        links,
        #[trigger] x[i],
        #[trigger] x[j],
    ) by {
        if j < w.len() {
            assert(x[i] == w[i] && x[j] == w[j]);
        } else {
            assert(x[i] == w.last() && x[j] == v);
        }
    }
    assert(is_walk(links, x));
    assert(x[0] == from && x.last() == v);
}

/// A walk that starts at `from` ends inside every set that holds the
/// successors of `from` and the successors of its own members.
pub proof fn lemma_walk_stays_inside(links: Seq<Seq<int>>, from: int, inside: Set<int>, w: Seq<int>)
    requires
        is_walk(links, w),
        w.len() >= 2,
        w[0] == from,
        forall|y: int| #[trigger] has_link(links, from, y) ==> inside.contains(y),
        forall|x: int, y: int|
            inside.contains(x) && #[trigger] has_link(links, x, y) ==> inside.contains(y),
    ensures
        inside.contains(w.last()),
    decreases w.len(),
{
    let last = w.len() - 1;
    assert(has_link(links, w[last - 1], w[last]));
    if w.len() > 2 {
        let p = w.drop_last();
        assert forall|i: int, j: int| 0 <= i && j == i + 1 && j < p.len() implies has_link(
            links,
            #[trigger] p[i],
            #[trigger] p[j],
        ) by {
            assert(p[i] == w[i] && p[j] == w[j]);
        }
        lemma_walk_stays_inside(links, from, inside, p);
        assert(p.last() == w[last - 1]);
    }
}

/// Number of entries of `marks` that are not set.
pub open spec fn unmarked(marks: Seq<bool>) -> nat
    decreases marks.len(),
{
    if marks.len() == 0 {
        0
    } else {
        unmarked(marks.drop_last()) + if marks.last() {
            0nat
        } else {
            1nat
        }
    }
}

proof fn lemma_mark_one(marks: Seq<bool>, i: int)
    requires
        0 <= i < marks.len(),
        !marks[i],
    ensures
        unmarked(marks.update(i, true)) + 1 == unmarked(marks),
    decreases marks.len(),
{
    let after = marks.update(i, true);
    if i == marks.len() - 1 {
        assert(after.drop_last() =~= marks.drop_last());
    } else {
        assert(after.drop_last() =~= marks.drop_last().update(i, true));
        lemma_mark_one(marks.drop_last(), i);
    }
}

/// `n` unset marks.
fn no_marks(n: usize) -> (marks: Vec<bool>)
    ensures
        marks@.len() == n,
        forall|i: int| 0 <= i < n ==> !marks@[i],
{
    let mut marks: Vec<bool> = Vec::new();
    while marks.len() < n
        invariant
            marks@.len() <= n,
            forall|i: int| 0 <= i < marks@.len() ==> !marks@[i],
        decreases n - marks@.len(),
    {
        marks.push(false);
    }
    marks
}

/// Looks at the successors of `u` in turn.  Stops with `true` at the first
/// one that is `to`; marks each other one that is new and queues it.
fn scan<G: Adjacency>(
    g: &G,
    u: usize,
    to: usize,
    seen: &mut Vec<bool>,
    pending: &mut Vec<usize>,
) -> (hit: bool)
    requires
        closed(g.links()),
        u < g.links().len(),
        old(seen)@.len() == g.links().len(),
    ensures
        hit == has_link(g.links(), u as int, to as int),
        final(seen)@.len() == old(seen)@.len(),
        forall|x: int| 0 <= x < old(seen)@.len() && old(seen)@[x] ==> final(seen)@[x],
        forall|x: int|
            0 <= x < old(seen)@.len() && #[trigger] final(seen)@[x] && !old(seen)@[x] ==> has_link(
                g.links(),
                u as int,
                x,
            ) && x != to && final(pending)@.contains(x as usize),
        !hit ==> forall|y: int| #[trigger]
            has_link(g.links(), u as int, y) ==> 0 <= y < final(seen)@.len() && final(seen)@[y],
        final(pending)@.len() >= old(pending)@.len(),
        final(pending)@.subrange(0, old(pending)@.len() as int) == old(pending)@,
        forall|i: int|
            old(pending)@.len() <= i < final(pending)@.len() ==> (#[trigger] final(pending)@[i])
                < final(seen)@.len() && final(seen)@[final(pending)@[i] as int],
        unmarked(final(seen)@) + final(pending)@.len() == unmarked(old(seen)@) + old(pending)@.len(),
{
    let d = g.degree(u);
    let mut k: usize = 0;
    while k < d
        invariant
            closed(g.links()),
            u < g.links().len(),
            d == g.links()[u as int].len(),
            k <= d,
            seen@.len() == old(seen)@.len(),
            seen@.len() == g.links().len(),
            forall|i: int|
                0 <= i < k ==> (#[trigger] g.links()[u as int][i]) != to && seen@[g.links()[u as int][i]],
            forall|x: int| 0 <= x < seen@.len() && old(seen)@[x] ==> seen@[x],
            forall|x: int|
                0 <= x < seen@.len() && #[trigger] seen@[x] && !old(seen)@[x] ==> has_link(
                    g.links(),
                    u as int,
                    x,
                ) && x != to && pending@.contains(x as usize),
            pending@.len() >= old(pending)@.len(),
            pending@.subrange(0, old(pending)@.len() as int) == old(pending)@,
            forall|i: int|
                old(pending)@.len() <= i < pending@.len() ==> (#[trigger] pending@[i]) < seen@.len()
                    && seen@[pending@[i] as int],
            unmarked(seen@) + pending@.len() == unmarked(old(seen)@) + old(pending)@.len(),
        decreases d - k,
    {
        let v = g.target(u, k);
        assert(g.links()[u as int][k as int] == v);
        if v == to {
            return true;
        }
        if !seen[v] {
            let ghost before = seen@;
            let ghost queue = pending@;
            proof {
                lemma_mark_one(seen@, v as int);
            }
            seen.set(v, true);
            pending.push(v);
            assert(pending@[queue.len() as int] == v);
            assert forall|x: int|
                0 <= x < seen@.len() && #[trigger] seen@[x] && !old(seen)@[x] implies has_link(
                g.links(),
                u as int,
                x,
            ) && x != to && pending@.contains(x as usize) by {
                if x == v {
                    assert(pending@[queue.len() as int] == x as usize);
                } else {
                    assert(before[x]);
                    let i = choose|i: int| 0 <= i < queue.len() && queue[i] == x as usize;
                    assert(pending@[i] == x as usize);
                }
            }
            assert(pending@.subrange(0, old(pending)@.len() as int) =~= queue.subrange(
                0,
                old(pending)@.len() as int,
            ));
        }
        k += 1;
    }
    assert forall|y: int| #[trigger] has_link(g.links(), u as int, y) implies 0 <= y
        < seen@.len() && seen@[y] && y != to by {
        let i = choose|i: int| 0 <= i < g.links()[u as int].len() && g.links()[u as int][i] == y;
        assert(g.links()[u as int][i] == y);
    }
    false
}

/// Tells whether `to` can be reached from `from` along one edge or more.
///
/// A node counts as reached from itself only where a cycle leads back to it.
pub fn reaches<G: Adjacency>(g: &G, from: usize, to: usize) -> (b: bool)
    requires
        closed(g.links()),
        from < g.links().len(),
    ensures
        b == reachable(g.links(), from as int, to as int),
{
    let n = g.order();
    let mut seen = no_marks(n);
    let mut pending: Vec<usize> = Vec::new();
    let ghost links = g.links();
    if scan(g, from, to, &mut seen, &mut pending) {
        proof {
            lemma_reachable_by_link(links, from as int, to as int);
        }
        return true;
    }
    let ghost mut expanded: Set<int> = Set::empty();
    assert forall|x: int| 0 <= x < n && seen@[x] implies reachable(links, from as int, x) by {
        lemma_reachable_by_link(links, from as int, x);
    }
    while pending.len() > 0
        invariant
            links == g.links(),
            closed(links),
            from < n,
            n == links.len(),
            seen@.len() == n,
            forall|i: int|
                0 <= i < pending@.len() ==> (#[trigger] pending@[i]) < n && seen@[pending@[i] as int],
            forall|x: int| 0 <= x < n && seen@[x] ==> reachable(links, from as int, x),
            forall|x: int|
                0 <= x < n && #[trigger] seen@[x] ==> expanded.contains(x) || pending@.contains(
                    x as usize,
                ),
            forall|x: int, y: int|
                expanded.contains(x) && #[trigger] has_link(links, x, y) ==> 0 <= y < n && seen@[y],
            forall|y: int| #[trigger] has_link(links, from as int, y) ==> 0 <= y < n && seen@[y],
            to < n ==> !seen@[to as int],
        decreases unmarked(seen@) + pending@.len(),
    {
        let ghost queue = pending@;
        let ghost before = seen@;
        let u = pending.pop().unwrap();
        let ghost rest = pending@;
        assert(u == queue[queue.len() - 1]);
        if scan(g, u, to, &mut seen, &mut pending) {
            proof {
                lemma_reachable_extend(links, from as int, u as int, to as int);
            }
            return true;
        }
        proof {
            expanded = expanded.insert(u as int);
            assert forall|x: int| 0 <= x < n && seen@[x] implies reachable(
                links,
                from as int,
                x,
            ) by {
                if !before[x] {
                    lemma_reachable_extend(links, from as int, u as int, x);
                }
            }
            assert forall|x: int| 0 <= x < n && #[trigger] seen@[x] implies expanded.contains(x)
                || pending@.contains(x as usize) by {
                if before[x] && x != u && !expanded.contains(x) {
                    let i = choose|i: int| 0 <= i < queue.len() && queue[i] == x as usize;
                    assert(rest[i] == x as usize);
                    assert(pending@.subrange(0, rest.len() as int)[i] == x as usize);
                    assert(pending@[i] == x as usize);
                }
            }
            assert forall|i: int| 0 <= i < pending@.len() implies (#[trigger] pending@[i]) < n
                && seen@[pending@[i] as int] by {
                if i < rest.len() {
                    assert(pending@.subrange(0, rest.len() as int)[i] == rest[i]);
                    assert(rest[i] == queue[i]);
                }
            }
        }
    }
    proof {
        if reachable(links, from as int, to as int) {
            let w = choose|w: Seq<int>| #[trigger]
                is_walk(links, w) && w.len() >= 2 && w[0] == from as int && w.last() == to as int;
            let inside = Set::new(|x: int| 0 <= x < n && seen@[x]);
            assert forall|x: int, y: int| inside.contains(x) && #[trigger] has_link(
                links,
                x,
                y,
            ) implies inside.contains(y) by {
                assert(seen@[x]);
                assert(expanded.contains(x) || pending@.contains(x as usize));
            }
            lemma_walk_stays_inside(links, from as int, inside, w);
            assert(inside.contains(to as int));
        }
    }
    false
}

/// The node that edge `e` leads to.
pub open spec fn target_of(links: Seq<Seq<int>>, e: (int, int)) -> int {
    links[e.0][e.1]
}

/// The nodes that a trail from `start` passes, `start` first.
pub open spec fn nodes_on(links: Seq<Seq<int>>, start: int, trail: Seq<(int, int)>) -> Seq<int> {
    seq![start] + trail.map_values(|e: (int, int)| target_of(links, e))
}

/// The node at which a trail from `start` ends.
pub open spec fn tip(links: Seq<Seq<int>>, start: int, trail: Seq<(int, int)>) -> int {
    nodes_on(links, start, trail).last()
}

/// `trail` is made of edges of the graph, the first leaving `start` and each
/// other one leaving the node that the one before it leads to.
pub open spec fn is_trail(links: Seq<Seq<int>>, start: int, trail: Seq<(int, int)>) -> bool {
    &&& 0 <= start < links.len()
    &&& forall|i: int|
        0 <= i < trail.len() ==> {
            &&& (#[trigger] trail[i]).0 == nodes_on(links, start, trail)[i]
            &&& 0 <= trail[i].0 < links.len()
            &&& 0 <= trail[i].1 < links[trail[i].0].len()
        }
}

/// A trail that passes no node twice.
pub open spec fn is_simple_trail(links: Seq<Seq<int>>, start: int, trail: Seq<(int, int)>) -> bool {
    is_trail(links, start, trail) && nodes_on(links, start, trail).no_duplicates()
}

/// The simple trails that end at `to` and continue `trail` by the `k`-th edge
/// leaving its tip or by a later one, in the order of a depth-first search:
/// first those through the `k`-th edge, then those through the edges after it.
pub open spec fn trails_via(
    links: Seq<Seq<int>>,
    start: int,
    trail: Seq<(int, int)>,
    to: int,
    k: int,
) -> Seq<Seq<(int, int)>>
    decreases links.len() - trail.len(), links[tip(links, start, trail)].len() - k,
{
    let u = tip(links, start, trail);
    if u < 0 || u >= links.len() || k < 0 || k >= links[u].len() || trail.len() >= links.len() {
        Seq::empty()
    } else {
        let v = links[u][k];
        let longer = trail.push((u, k));
        let through = if nodes_on(links, start, trail).contains(v) {
            Seq::empty()
        } else if v == to {
            seq![longer]
        } else {
            trails_via(links, start, longer, to, 0)
        };
        through + trails_via(links, start, trail, to, k + 1)
    }
}

/// The simple trails from `from` to `to`, in the order of a depth-first
/// search that takes the edges of each node in the order of its list.
pub open spec fn trails(links: Seq<Seq<int>>, from: int, to: int) -> Seq<Seq<(int, int)>> {
    trails_via(links, from, Seq::empty(), to, 0)
}

pub proof fn lemma_nodes_on_push(
    links: Seq<Seq<int>>,
    start: int,
    trail: Seq<(int, int)>,
    e: (int, int),
)
    ensures
        nodes_on(links, start, trail.push(e)) == nodes_on(links, start, trail).push(
            target_of(links, e),
        ),
        tip(links, start, trail.push(e)) == target_of(links, e),
{
    assert(nodes_on(links, start, trail.push(e)) =~= nodes_on(links, start, trail).push(
        target_of(links, e),
    ));
}

/// The nodes of a trail are nodes of the graph.
pub proof fn lemma_trail_in_range(links: Seq<Seq<int>>, start: int, trail: Seq<(int, int)>)
    requires
        closed(links),
        is_trail(links, start, trail),
    ensures
        forall|i: int|
            0 <= i <= trail.len() ==> 0 <= #[trigger] nodes_on(links, start, trail)[i]
                < links.len(),
{
    assert forall|i: int| 0 <= i <= trail.len() implies 0 <= #[trigger] nodes_on(
        links,
        start,
        trail,
    )[i] < links.len() by {
        if i > 0 {
            let e = trail[i - 1];
            assert(nodes_on(links, start, trail)[i] == links[e.0][e.1]);
        }
    }
}

/// A simple trail has fewer edges than the graph has nodes.
pub proof fn lemma_simple_trail_short(links: Seq<Seq<int>>, start: int, trail: Seq<(int, int)>)
    requires
        closed(links),
        is_simple_trail(links, start, trail),
    ensures
        trail.len() < links.len(),
{
    let nodes = nodes_on(links, start, trail);
    lemma_trail_in_range(links, start, trail);
    nodes.unique_seq_to_set();
    vstd::set_lib::lemma_int_range(0, links.len() as int);
    assert forall|x: int| nodes.to_set().contains(x) implies vstd::set_lib::set_int_range(
        0,
        links.len() as int,
    ).contains(x) by {
        let i = choose|i: int| 0 <= i < nodes.len() && nodes[i] == x;
        assert(nodes[i] == x);
    }
    vstd::set_lib::lemma_len_subset(
        nodes.to_set(),
        vstd::set_lib::set_int_range(0, links.len() as int),
    );
}

/// A simple trail stays one when it goes on, along an edge that leaves its
/// tip, to a node that it has not passed.
pub proof fn lemma_simple_trail_push(
    links: Seq<Seq<int>>,
    start: int,
    trail: Seq<(int, int)>,
    k: int,
)
    requires
        is_simple_trail(links, start, trail),
        0 <= tip(links, start, trail) < links.len(),
        0 <= k < links[tip(links, start, trail)].len(),
        !nodes_on(links, start, trail).contains(links[tip(links, start, trail)][k]),
    ensures
        is_simple_trail(links, start, trail.push((tip(links, start, trail), k))),
        tip(links, start, trail.push((tip(links, start, trail), k))) == links[tip(
            links,
            start,
            trail,
        )][k],
{
    let u = tip(links, start, trail);
    let longer = trail.push((u, k));
    let nodes = nodes_on(links, start, trail);
    lemma_nodes_on_push(links, start, trail, (u, k));
    assert forall|i: int| 0 <= i < longer.len() implies {
        &&& (#[trigger] longer[i]).0 == nodes_on(links, start, longer)[i]
        &&& 0 <= longer[i].0 < links.len()
        &&& 0 <= longer[i].1 < links[longer[i].0].len()
    } by {
        if i < trail.len() {
            assert(longer[i] == trail[i]);
            assert(nodes_on(links, start, longer)[i] == nodes[i]);
        }
    }
    let all = nodes.push(links[u][k]);
    assert forall|i: int, j: int| 0 <= i < all.len() && 0 <= j < all.len() && i != j implies all[i]
        != all[j] by {
        if i < nodes.len() && j < nodes.len() {
        } else if i < nodes.len() {
            assert(nodes[i] == all[i]);
        } else {
            assert(nodes[j] == all[j]);
        }
    }
}

/// An edge, a trail and a list of trails of the executable code as the
/// mathematical values that they stand for.
pub open spec fn lift_edge(e: (usize, usize)) -> (int, int) {
    (e.0 as int, e.1 as int)
}

pub open spec fn lift_trail(t: Seq<(usize, usize)>) -> Seq<(int, int)> {
    t.map_values(|e: (usize, usize)| lift_edge(e))
}

pub open spec fn lift_trails(ts: Seq<Vec<(usize, usize)>>) -> Seq<Seq<(int, int)>> {
    ts.map_values(|t: Vec<(usize, usize)>| lift_trail(t@))
}

fn copy_trail(trail: &Vec<(usize, usize)>) -> (copy: Vec<(usize, usize)>)
    ensures
        copy@ == trail@,
{
    let mut copy: Vec<(usize, usize)> = Vec::new();
    let mut i: usize = 0;
    while i < trail.len()
        invariant
            i <= trail@.len(),
            copy@ == trail@.subrange(0, i as int),
        decreases trail@.len() - i,
    {
        let e = trail[i];
        copy.push(e);
        i += 1;
        assert(copy@ =~= trail@.subrange(0, i as int));
    }
    assert(trail@.subrange(0, i as int) =~= trail@);
    copy
}

/// Depth-first search from the tip `u` of `trail`: adds to `found` every
/// simple trail to `to` that continues `trail`, and leaves `trail` and the
/// marks as they were.
fn dfs<G: Adjacency>(
    g: &G,
    start: usize,
    u: usize,
    to: usize,
    trail: &mut Vec<(usize, usize)>,
    on_trail: &mut Vec<bool>,
    found: &mut Vec<Vec<(usize, usize)>>,
)
    requires
        closed(g.links()),
        is_simple_trail(g.links(), start as int, lift_trail(old(trail)@)),
        u == tip(g.links(), start as int, lift_trail(old(trail)@)),
        old(on_trail)@.len() == g.links().len(),
        forall|x: int|
            0 <= x < g.links().len() ==> old(on_trail)@[x] == nodes_on(
                g.links(),
                start as int,
                lift_trail(old(trail)@),
            ).contains(x),
    ensures
        final(trail)@ == old(trail)@,
        final(on_trail)@ == old(on_trail)@,
        lift_trails(final(found)@) == lift_trails(old(found)@) + trails_via(
            g.links(),
            start as int,
            lift_trail(old(trail)@),
            to as int,
            0,
        ),
    decreases g.links().len() - old(trail)@.len(),
{
    let ghost links = g.links();
    let ghost t0 = lift_trail(trail@);
    let ghost f0 = lift_trails(found@);
    let ghost nodes = nodes_on(links, start as int, t0);
    proof {
        lemma_simple_trail_short(links, start as int, t0);
        lemma_trail_in_range(links, start as int, t0);
        assert(0 <= nodes[t0.len() as int] < links.len());
    }
    let d = g.degree(u);
    let mut k: usize = 0;
    while k < d
        invariant
            links == g.links(),
            closed(links),
            t0 == lift_trail(old(trail)@),
            nodes == nodes_on(links, start as int, t0),
            trail@ == old(trail)@,
            on_trail@ == old(on_trail)@,
            is_simple_trail(links, start as int, t0),
            u == tip(links, start as int, t0),
            u < links.len(),
            t0.len() < links.len(),
            on_trail@.len() == links.len(),
            forall|x: int| 0 <= x < links.len() ==> on_trail@[x] == nodes.contains(x),
            d == links[u as int].len(),
            k <= d,
            lift_trails(found@) + trails_via(links, start as int, t0, to as int, k as int) == f0
                + trails_via(links, start as int, t0, to as int, 0),
        decreases d - k,
    {
        let v = g.target(u, k);
        let ghost longer = t0.push((u as int, k as int));
        let ghost had = lift_trails(found@);
        let ghost rest = trails_via(links, start as int, t0, to as int, k as int + 1);
        assert(links[u as int][k as int] == v);
        if !on_trail[v] {
            proof {
                lemma_simple_trail_push(links, start as int, t0, k as int);
            }
            if v == to {
                let mut hit = copy_trail(trail);
                hit.push((u, k));
                assert(lift_trail(hit@) =~= longer);
                found.push(hit);
                assert(lift_trails(found@) =~= had.push(longer));
                assert(had.push(longer) + rest =~= had + (seq![longer] + rest));
            } else {
                trail.push((u, k));
                on_trail.set(v, true);
                assert(lift_trail(trail@) =~= longer);
                proof {
                    lemma_nodes_on_push(links, start as int, t0, (u as int, k as int));
                    assert forall|x: int| 0 <= x < links.len() implies on_trail@[x] == nodes_on(
                        links,
                        start as int,
                        longer,
                    ).contains(x) by {
                        let grown = nodes.push(v as int);
                        if x == v {
                            assert(grown[nodes.len() as int] == x);
                        } else if nodes.contains(x) {
                            let i = choose|i: int| 0 <= i < nodes.len() && nodes[i] == x;
                            assert(grown[i] == x);
                        }
                    }
                }
                dfs(g, start, v, to, trail, on_trail, found);
                trail.pop();
                on_trail.set(v, false);
                assert(trail@ =~= old(trail)@);
                assert(on_trail@ =~= old(on_trail)@);
                let ghost deeper = trails_via(links, start as int, longer, to as int, 0);
                assert((had + deeper) + rest =~= had + (deeper + rest));
            }
        }
        k += 1;
    }
    assert(trails_via(links, start as int, t0, to as int, d as int) =~= Seq::empty());
    assert(lift_trails(found@) + Seq::<Seq<(int, int)>>::empty() =~= lift_trails(found@));
}

/// Lists the simple trails from `from` to `to`, in the order of a
/// depth-first search that takes the edges of each node in the order of its
/// list.  Where `from` and `to` are one node the list is empty: a trail back
/// to its start would pass that node twice.
pub fn simple_trails<G: Adjacency>(g: &G, from: usize, to: usize) -> (found: Vec<
    Vec<(usize, usize)>,
>)
    requires
        closed(g.links()),
        from < g.links().len(),
    ensures
        lift_trails(found@) == trails(g.links(), from as int, to as int),
{
    let n = g.order();
    let mut on_trail = no_marks(n);
    on_trail.set(from, true);
    let mut trail: Vec<(usize, usize)> = Vec::new();
    let mut found: Vec<Vec<(usize, usize)>> = Vec::new();
    proof {
        let links = g.links();
        let t0 = lift_trail(trail@);
        assert(t0 =~= Seq::empty());
        let nodes = nodes_on(links, from as int, t0);
        assert(nodes =~= seq![from as int]);
        assert forall|x: int| 0 <= x < links.len() implies on_trail@[x] == nodes.contains(x) by {
            if x == from {
                assert(nodes[0] == x);
            }
        }
        assert(lift_trails(found@) =~= Seq::empty());
    }
    dfs(g, from, from, to, &mut trail, &mut on_trail, &mut found);
    assert(lift_trail(trail@) =~= Seq::empty());
    assert(Seq::<Seq<(int, int)>>::empty() + trails(g.links(), from as int, to as int) =~= trails(
        g.links(),
        from as int,
        to as int,
    ));
    found
}

/// Every trail of `trails_via` is simple, ends at `to` and continues `trail`.
pub proof fn lemma_trails_via_simple(
    links: Seq<Seq<int>>,
    start: int,
    trail: Seq<(int, int)>,
    to: int,
    k: int,
)
    requires
        closed(links),
        is_simple_trail(links, start, trail),
    ensures
        forall|i: int|
            0 <= i < trails_via(links, start, trail, to, k).len() ==> {
                let p = #[trigger] trails_via(links, start, trail, to, k)[i];
                &&& is_simple_trail(links, start, p)
                &&& tip(links, start, p) == to
                &&& p.len() > trail.len()
                &&& p.subrange(0, trail.len() as int) == trail
                &&& p[trail.len() as int].1 >= k
            },
    decreases links.len() - trail.len(), links[tip(links, start, trail)].len() - k,
{
    let u = tip(links, start, trail);
    let all = trails_via(links, start, trail, to, k);
    if u < 0 || u >= links.len() || k < 0 || k >= links[u].len() || trail.len() >= links.len() {
    } else {
        let v = links[u][k];
        let longer = trail.push((u, k));
        let rest = trails_via(links, start, trail, to, k + 1);
        lemma_trails_via_simple(links, start, trail, to, k + 1);
        if nodes_on(links, start, trail).contains(v) {
            assert(all =~= rest);
        } else {
            lemma_simple_trail_push(links, start, trail, k);
            assert(longer.subrange(0, trail.len() as int) =~= trail);
            if v == to {
                assert forall|i: int| 0 <= i < all.len() implies {
                    let p = #[trigger] all[i];
                    &&& is_simple_trail(links, start, p)
                    &&& tip(links, start, p) == to
                    &&& p.len() > trail.len()
                    &&& p.subrange(0, trail.len() as int) == trail
                    &&& p[trail.len() as int].1 >= k
                } by {
                    if i > 0 {
                        assert(all[i] == rest[i - 1]);
                    }
                }
            } else {
                let deeper = trails_via(links, start, longer, to, 0);
                lemma_trails_via_simple(links, start, longer, to, 0);
                assert forall|i: int| 0 <= i < all.len() implies {
                    let p = #[trigger] all[i];
                    &&& is_simple_trail(links, start, p)
                    &&& tip(links, start, p) == to
                    &&& p.len() > trail.len()
                    &&& p.subrange(0, trail.len() as int) == trail
                    &&& p[trail.len() as int].1 >= k
                } by {
                    if i < deeper.len() {
                        let p = deeper[i];
                        assert(all[i] == p);
                        assert(p.subrange(0, trail.len() as int) =~= p.subrange(
                            0,
                            longer.len() as int,
                        ).subrange(0, trail.len() as int));
                        assert(p.subrange(0, longer.len() as int)[trail.len() as int]
                            == p[trail.len() as int]);
                    } else {
                        assert(all[i] == rest[i - deeper.len()]);
                    }
                }
            }
        }
    }
}

/// Every listed trail leads from `from` to `to` along edges of the graph,
/// has at least one edge and passes no node twice.
pub proof fn lemma_trails_simple(links: Seq<Seq<int>>, from: int, to: int)
    requires
        closed(links),
        0 <= from < links.len(),
    ensures
        forall|i: int|
            0 <= i < trails(links, from, to).len() ==> {
                let p = #[trigger] trails(links, from, to)[i];
                &&& is_simple_trail(links, from, p)
                &&& tip(links, from, p) == to
                &&& p.len() > 0
            },
{
    let none = Seq::<(int, int)>::empty();
    assert(nodes_on(links, from, none) =~= seq![from]);
    lemma_trails_via_simple(links, from, none, to, 0);
}

/// A trail passes the nodes of its first edges first.
pub proof fn lemma_nodes_on_prefix(
    links: Seq<Seq<int>>,
    start: int,
    p: Seq<(int, int)>,
    m: int,
)
    requires
        0 <= m <= p.len(),
    ensures
        nodes_on(links, start, p.subrange(0, m)) == nodes_on(links, start, p).subrange(0, m + 1),
        tip(links, start, p.subrange(0, m)) == nodes_on(links, start, p)[m],
{
    assert(nodes_on(links, start, p.subrange(0, m)) =~= nodes_on(links, start, p).subrange(
        0,
        m + 1,
    ));
}

/// Every simple trail to `to` that continues `trail` by the `k`-th edge of
/// its tip or by a later one is among the trails of `trails_via`.
pub proof fn lemma_trails_via_complete(
    links: Seq<Seq<int>>,
    start: int,
    trail: Seq<(int, int)>,
    to: int,
    k: int,
    p: Seq<(int, int)>,
)
    requires
        closed(links),
        is_simple_trail(links, start, trail),
        is_simple_trail(links, start, p),
        tip(links, start, p) == to,
        p.len() > trail.len(),
        p.subrange(0, trail.len() as int) == trail,
        0 <= k <= p[trail.len() as int].1,
    ensures
        trails_via(links, start, trail, to, k).contains(p),
    decreases links.len() - trail.len(), links[tip(links, start, trail)].len() - k,
{
    let m = trail.len() as int;
    let u = tip(links, start, trail);
    let on = nodes_on(links, start, p);
    lemma_nodes_on_prefix(links, start, p, m);
    lemma_simple_trail_short(links, start, trail);
    lemma_trail_in_range(links, start, trail);
    let e = p[m];
    assert(e.0 == on[m]);
    assert(e.0 == u);
    assert(0 <= nodes_on(links, start, trail)[m] < links.len());
    let all = trails_via(links, start, trail, to, k);
    let v = links[u][k];
    let longer = trail.push((u, k));
    let rest = trails_via(links, start, trail, to, k + 1);
    let through = if nodes_on(links, start, trail).contains(v) {
        Seq::empty()
    } else if v == to {
        seq![longer]
    } else {
        trails_via(links, start, longer, to, 0)
    };
    assert(all == through + rest);
    if e.1 > k {
        lemma_trails_via_complete(links, start, trail, to, k + 1, p);
        let i = choose|i: int| 0 <= i < rest.len() && rest[i] == p;
        assert(all[through.len() + i] == p);
    } else {
        assert(e == (u, k));
        assert(p.subrange(0, m + 1) =~= longer);
        lemma_nodes_on_prefix(links, start, p, m + 1);
        assert(on[m + 1] == target_of(links, e));
        assert(!nodes_on(links, start, trail).contains(v)) by {
            if nodes_on(links, start, trail).contains(v) {
                let i = choose|i: int|
                    0 <= i < nodes_on(links, start, trail).len() && nodes_on(
                        links,
                        start,
                        trail,
                    )[i] == v;
                assert(on[i] == v);
                assert(on[m + 1] == v);
            }
        }
        if p.len() == m + 1 {
            assert(p =~= longer);
            assert(on.last() == on[m + 1]);
            assert(through[0] == p);
            assert(all[0] == p);
        } else {
            assert(on.last() == on[p.len() as int]);
            assert(on[m + 1] != on[p.len() as int]);
            lemma_simple_trail_push(links, start, trail, k);
            lemma_trails_via_complete(links, start, longer, to, 0, p);
            let i = choose|i: int| 0 <= i < through.len() && through[i] == p;
            assert(all[i] == p);
        }
    }
}

/// No trail is twice among the trails of `trails_via`.
pub proof fn lemma_trails_via_distinct(
    links: Seq<Seq<int>>,
    start: int,
    trail: Seq<(int, int)>,
    to: int,
    k: int,
)
    requires
        closed(links),
        is_simple_trail(links, start, trail),
    ensures
        trails_via(links, start, trail, to, k).no_duplicates(),
    decreases links.len() - trail.len(), links[tip(links, start, trail)].len() - k,
{
    let u = tip(links, start, trail);
    let m = trail.len() as int;
    let all = trails_via(links, start, trail, to, k);
    if u < 0 || u >= links.len() || k < 0 || k >= links[u].len() || trail.len() >= links.len() {
    } else {
        let v = links[u][k];
        let longer = trail.push((u, k));
        let rest = trails_via(links, start, trail, to, k + 1);
        lemma_trails_via_distinct(links, start, trail, to, k + 1);
        lemma_trails_via_simple(links, start, trail, to, k + 1);
        if nodes_on(links, start, trail).contains(v) {
            assert(all =~= rest);
        } else {
            lemma_simple_trail_push(links, start, trail, k);
            let through = if v == to {
                seq![longer]
            } else {
                trails_via(links, start, longer, to, 0)
            };
            if v != to {
                lemma_trails_via_distinct(links, start, longer, to, 0);
                lemma_trails_via_simple(links, start, longer, to, 0);
            }
            assert(all == through + rest);
            assert forall|i: int| 0 <= i < through.len() implies (#[trigger] through[i])[m] == (
                u,
                k,
            ) by {
                if v != to {
                    let p = through[i];
                    assert(p.subrange(0, longer.len() as int)[m] == p[m]);
                }
            }
            assert forall|i: int, j: int|
                0 <= i < all.len() && 0 <= j < all.len() && i != j implies all[i] != all[j] by {
                if i < through.len() && j < through.len() {
                    assert(all[i] == through[i] && all[j] == through[j]);
                } else if i >= through.len() && j >= through.len() {
                    assert(all[i] == rest[i - through.len()]);
                    assert(all[j] == rest[j - through.len()]);
                } else if i < through.len() {
                    assert(all[i] == through[i]);
                    assert(all[j] == rest[j - through.len()]);
                    assert(rest[j - through.len()][m].1 >= k + 1);
                } else {
                    assert(all[j] == through[j]);
                    assert(all[i] == rest[i - through.len()]);
                    assert(rest[i - through.len()][m].1 >= k + 1);
                }
            }
        }
    }
}

/// The listed trails are the simple trails from `from` to `to`: each of
/// those is listed, and none is listed twice.
pub proof fn lemma_trails_complete(links: Seq<Seq<int>>, from: int, to: int)
    requires
        closed(links),
        0 <= from < links.len(),
    ensures
        trails(links, from, to).no_duplicates(),
        forall|p: Seq<(int, int)>|
            #![trigger is_simple_trail(links, from, p)]
            is_simple_trail(links, from, p) && p.len() > 0 && tip(links, from, p) == to
                ==> trails(links, from, to).contains(p),
{
    let none = Seq::<(int, int)>::empty();
    assert(nodes_on(links, from, none) =~= seq![from]);
    lemma_trails_via_distinct(links, from, none, to, 0);
    assert forall|p: Seq<(int, int)>|
        #![trigger is_simple_trail(links, from, p)]
        is_simple_trail(links, from, p) && p.len() > 0 && tip(links, from, p) == to implies trails(
        links,
        from,
        to,
    ).contains(p) by {
        assert(p.subrange(0, 0) =~= none);
        lemma_trails_via_complete(links, from, none, to, 0, p);
    }
}

/// Where a walk leads from one node to another, a walk that passes no node
/// twice leads there too.
pub proof fn lemma_walk_without_repeats(links: Seq<Seq<int>>, w: Seq<int>) -> (s: Seq<int>)
    requires
        is_walk(links, w),
        w.len() >= 2,
        w[0] != w.last(),
    ensures
        is_walk(links, s),
        s.no_duplicates(),
        s.len() >= 2,
        s[0] == w[0],
        s.last() == w.last(),
    decreases w.len(),
{
    if w.no_duplicates() {
        w
    } else {
        let (i, j) = choose|i: int, j: int|
            0 <= i < w.len() && 0 <= j < w.len() && i != j && w[i] == w[j];
        let (lo, hi) = if i < j {
            (i, j)
        } else {
            (j, i)
        };
        let cut = w.subrange(0, lo) + w.subrange(hi, w.len() as int);
        assert(cut[0] == w[0]);
        assert(cut.last() == w.last());
        assert forall|x: int, y: int| 0 <= x && y == x + 1 && y < cut.len() implies has_link(
            links,
            #[trigger] cut[x],
            #[trigger] cut[y],
        ) by {
            if y < lo {
                assert(cut[x] == w[x] && cut[y] == w[y]);
            } else if x < lo {
                assert(cut[x] == w[lo - 1]);
                assert(cut[y] == w[hi]);
                assert(has_link(links, w[lo - 1], w[lo]));
            } else {
                assert(cut[x] == w[x - lo + hi]);
                assert(cut[y] == w[y - lo + hi]);
            }
        }
        lemma_walk_without_repeats(links, cut)
    }
}

/// One node can be reached from another exactly where a simple trail leads
/// from the one to the other.
pub proof fn lemma_reachable_iff_trails(links: Seq<Seq<int>>, from: int, to: int)
    requires
        closed(links),
        0 <= from < links.len(),
        from != to,
    ensures
        reachable(links, from, to) == (trails(links, from, to).len() > 0),
{
    lemma_trails_simple(links, from, to);
    lemma_trails_complete(links, from, to);
    let all = trails(links, from, to);
    if all.len() > 0 {
        let t = all[0];
        let on = nodes_on(links, from, t);
        assert(is_simple_trail(links, from, t));
        assert forall|i: int, j: int| 0 <= i && j == i + 1 && j < on.len() implies has_link(
            links,
            #[trigger] on[i],
            #[trigger] on[j],
        ) by {
            assert(t[i].0 == on[i]);
            assert(on[j] == target_of(links, t[i]));
        }
        assert(is_walk(links, on));
        assert(on[0] == from && on.last() == to);
    }
    if reachable(links, from, to) {
        let w = choose|w: Seq<int>| #[trigger]
            is_walk(links, w) && w.len() >= 2 && w[0] == from && w.last() == to;
        let s = lemma_walk_without_repeats(links, w);
        let t = Seq::new((s.len() - 1) as nat, |i: int| (s[i], links[s[i]].index_of(s[i + 1])));
        let on = nodes_on(links, from, t);
        assert forall|i: int| 0 <= i < t.len() implies 0 <= (#[trigger] t[i]).0 < links.len() && 0
            <= t[i].1 < links[t[i].0].len() && links[t[i].0][t[i].1] == s[i + 1] by {
            assert(has_link(links, s[i], s[i + 1]));
        }
        assert(on =~= s) by {
            assert forall|i: int| 0 <= i < s.len() implies on[i] == s[i] by {
                if i > 0 {
                    assert(on[i] == target_of(links, t[i - 1]));
                }
            }
        }
        assert(is_simple_trail(links, from, t));
        assert(tip(links, from, t) == to);
        assert(all.contains(t));
    }
}

} // verus!
