//! Passages between cells as a graph, and what it means for them to form a
//! forest or a spanning tree.

use crate::lattice::{lemma_rank_orders, Offset};
use vstd::prelude::*;

verus! {

/// Whether one of `edges` runs between `a` and `b`, in either direction.
pub open spec fn joined(edges: Seq<(Offset, Offset)>, a: Offset, b: Offset) -> bool {
    exists|k: int| 0 <= k < edges.len() && (#[trigger] edges[k] == (a, b) || edges[k] == (b, a))
}

/// Whether `route` is a route along `edges`: each cell of it is joined to the
/// next by one of the edges.
pub open spec fn routed(edges: Seq<(Offset, Offset)>, route: Seq<Offset>) -> bool {
    &&& route.len() > 0
    &&& forall|k: int| 0 <= k < route.len() - 1 ==> joined(edges, #[trigger] route[k], route[k + 1])
}

/// Whether some route along `edges` leads from `a` to `b`.
pub open spec fn connected(edges: Seq<(Offset, Offset)>, a: Offset, b: Offset) -> bool {
    exists|route: Seq<Offset>| #[trigger] routed(edges, route) && route.first() == a && route.last() == b
}

/// Whether `edges` hold no cycle: each edge joins two cells that the edges
/// before it do not connect.
pub open spec fn forest(edges: Seq<(Offset, Offset)>) -> bool {
    forall|k: int| 0 <= k < edges.len() ==> !connected(edges.take(k), (#[trigger] edges[k]).0, edges[k].1)
}

/// Whether `edges` connect every two of `cells`.
pub open spec fn spans(edges: Seq<(Offset, Offset)>, cells: Set<Offset>) -> bool {
    forall|a: Offset, b: Offset| cells.contains(a) && cells.contains(b) ==> #[trigger] connected(edges, a, b)
}

/// Every cell is connected to itself.
pub proof fn lemma_connected_self(edges: Seq<(Offset, Offset)>, a: Offset)
    ensures
        connected(edges, a, a),
{
    let route = seq![a];
    assert(routed(edges, route));
    assert(route.first() == a && route.last() == a);
}

/// Being joined does not depend on the direction.
pub proof fn lemma_joined_back(edges: Seq<(Offset, Offset)>, a: Offset, b: Offset)
    requires
        joined(edges, a, b),
    ensures
        joined(edges, b, a),
{
    let k = choose|k: int| 0 <= k < edges.len() && (#[trigger] edges[k] == (a, b) || edges[k] == (b, a));
    assert(edges[k] == (b, a) || edges[k] == (a, b));
}

/// A route can be walked backwards.
pub proof fn lemma_connected_back(edges: Seq<(Offset, Offset)>, a: Offset, b: Offset)
    requires
        connected(edges, a, b),
    ensures
        connected(edges, b, a),
{
    let route = choose|route: Seq<Offset>| #[trigger] routed(edges, route) && route.first() == a && route.last() == b;
    let back = route.reverse();
    assert forall|k: int| 0 <= k < back.len() - 1 implies joined(edges, #[trigger] back[k], back[k + 1]) by {
        let j = route.len() - 2 - k;
        assert(joined(edges, route[j], route[j + 1]));
        lemma_joined_back(edges, route[j], route[j + 1]);
        assert(back[k] == route[j + 1]);
        assert(back[k + 1] == route[j]);
    }
    assert(routed(edges, back));
    assert(back.first() == b && back.last() == a);
}

/// Two routes that meet make one route.
pub proof fn lemma_connected_on(edges: Seq<(Offset, Offset)>, a: Offset, b: Offset, c: Offset)
    requires
        connected(edges, a, b),
        connected(edges, b, c),
    ensures
        connected(edges, a, c),
{
    let first = choose|route: Seq<Offset>| #[trigger] routed(edges, route) && route.first() == a && route.last() == b;
    let second = choose|route: Seq<Offset>| #[trigger] routed(edges, route) && route.first() == b && route.last() == c;
    let whole = first + second.subrange(1, second.len() as int);
    assert forall|k: int| 0 <= k < whole.len() - 1 implies joined(edges, #[trigger] whole[k], whole[k + 1]) by {
        if k < first.len() - 1 {
            assert(joined(edges, first[k], first[k + 1]));
        } else {
            let j = k - first.len() + 1;
            assert(joined(edges, second[j], second[j + 1]));
            assert(whole[k] == second[j]);
            assert(whole[k + 1] == second[j + 1]);
        }
    }
    assert(routed(edges, whole));
    assert(whole.first() == a && whole.last() == c);
}

/// What is connected stays connected when an edge is added.
pub proof fn lemma_connected_still(edges: Seq<(Offset, Offset)>, edge: (Offset, Offset), a: Offset, b: Offset)
    requires
        connected(edges, a, b),
    ensures
        connected(edges.push(edge), a, b),
{
    let route = choose|route: Seq<Offset>| #[trigger] routed(edges, route) && route.first() == a && route.last() == b;
    let more = edges.push(edge);
    assert forall|k: int| 0 <= k < route.len() - 1 implies joined(more, #[trigger] route[k], route[k + 1]) by {
        assert(joined(edges, route[k], route[k + 1]));
        let j = choose|j: int| 0 <= j < edges.len() && (#[trigger] edges[j] == (route[k], route[k + 1]) || edges[j] == (route[k + 1], route[k]));
        assert(more[j] == edges[j]);
    }
    assert(routed(more, route));
}

/// An edge connects its two ends.
pub proof fn lemma_edge_connects(edges: Seq<(Offset, Offset)>, a: Offset, b: Offset)
    ensures
        connected(edges.push((a, b)), a, b),
{
    let more = edges.push((a, b));
    let route = seq![a, b];
    assert(more[edges.len() as int] == (a, b));
    assert forall|k: int| 0 <= k < route.len() - 1 implies joined(more, #[trigger] route[k], route[k + 1]) by {
        assert(route[0] == a && route[1] == b);
    }
    assert(routed(more, route));
    assert(route.first() == a && route.last() == b);
}

/// Where every edge joins two cells of one colour, cells that are connected
/// have one colour.
pub proof fn lemma_connected_alike(edges: Seq<(Offset, Offset)>, colour: spec_fn(Offset) -> int, a: Offset, b: Offset)
    requires
        forall|k: int| 0 <= k < edges.len() ==> colour((#[trigger] edges[k]).0) == colour(edges[k].1),
        connected(edges, a, b),
    ensures
        colour(a) == colour(b),
{
    let route = choose|route: Seq<Offset>| #[trigger] routed(edges, route) && route.first() == a && route.last() == b;
    lemma_route_alike(edges, colour, route, route.len() - 1);
}

proof fn lemma_route_alike(edges: Seq<(Offset, Offset)>, colour: spec_fn(Offset) -> int, route: Seq<Offset>, k: int)
    requires
        forall|k: int| 0 <= k < edges.len() ==> colour((#[trigger] edges[k]).0) == colour(edges[k].1),
        routed(edges, route),
        0 <= k < route.len(),
    ensures
        colour(route[0]) == colour(route[k]),
    decreases k,
{
    if k > 0 {
        lemma_route_alike(edges, colour, route, k - 1);
        assert(joined(edges, route[k - 1], route[k - 1 + 1]));
        let j = choose|j: int| 0 <= j < edges.len() && (#[trigger] edges[j] == (route[k - 1], route[k]) || edges[j] == (route[k], route[k - 1]));
        assert(colour(edges[j].0) == colour(edges[j].1));
    }
}

/// A forest stays a forest when an edge joins two cells that it does not
/// connect.
pub proof fn lemma_forest_grows(edges: Seq<(Offset, Offset)>, a: Offset, b: Offset)
    requires
        forest(edges),
        !connected(edges, a, b),
    ensures
        forest(edges.push((a, b))),
{
    let more = edges.push((a, b));
    assert forall|k: int| 0 <= k < more.len() implies !connected(more.take(k), (#[trigger] more[k]).0, more[k].1) by {
        if k < edges.len() {
            assert(more.take(k) =~= edges.take(k));
            assert(more[k] == edges[k]);
        } else {
            assert(more.take(k) =~= edges);
        }
    }
}

/// The colour of a cell that is a tree by itself: below zero, and another
/// for each cell.
pub open spec fn blank(o: Offset) -> int {
    -1 - (o.rank() + 0x8000_0000_0000_0000_0000_0000_0000_0000)
}

/// Blank colours tell cells apart.
pub proof fn lemma_blank_apart(a: Offset, b: Offset)
    ensures
        blank(a) < 0,
        blank(a) == blank(b) <==> a == b,
{
    lemma_rank_orders(a, b);
}

/// Whether `colour` tells the trees of the forest `edges` over `cells`
/// apart: the edges run between cells and hold no cycle, and two cells have
/// one colour exactly when the edges connect them.
pub open spec fn tinted(edges: Seq<(Offset, Offset)>, cells: Set<Offset>, colour: spec_fn(Offset) -> int) -> bool {
    &&& forest(edges)
    &&& forall|k: int| 0 <= k < edges.len() ==> {
        &&& cells.contains((#[trigger] edges[k]).0)
        &&& cells.contains(edges[k].1)
        &&& colour(edges[k].0) == colour(edges[k].1)
    }
    &&& forall|a: Offset, b: Offset|
        cells.contains(a) && cells.contains(b) && colour(a) == colour(b) ==> #[trigger] connected(edges, a, b)
}

/// Whether `palette` holds the colours of `cells` and no other, one for each
/// tree: together with the edges they are as many as `count`.
pub open spec fn counted(
    edges: Seq<(Offset, Offset)>,
    cells: Set<Offset>,
    colour: spec_fn(Offset) -> int,
    palette: Set<int>,
    count: nat,
) -> bool {
    &&& palette.finite()
    &&& forall|a: Offset| cells.contains(a) ==> palette.contains(#[trigger] colour(a))
    &&& forall|c: int| #[trigger] palette.contains(c) ==> exists|a: Offset| cells.contains(a) && colour(a) == c
    &&& palette.len() + edges.len() == count
}

/// `colour` with the colour `from` painted over by `to`.
pub open spec fn repainted(colour: spec_fn(Offset) -> int, from: int, to: int) -> spec_fn(Offset) -> int {
    |o: Offset|
        if colour(o) == from {
            to
        } else {
            colour(o)
        }
}

/// In a tinted forest, cells of different colours are not connected.
pub proof fn lemma_tinted_apart(edges: Seq<(Offset, Offset)>, cells: Set<Offset>, colour: spec_fn(Offset) -> int, a: Offset, b: Offset)
    requires
        tinted(edges, cells, colour),
        colour(a) != colour(b),
    ensures
        !connected(edges, a, b),
{
    if connected(edges, a, b) {
        lemma_connected_alike(edges, colour, a, b);
    }
}

/// An edge between two cells of different colours joins two trees into
/// one: the forest stays a forest, and it is tinted by painting the colour
/// of one tree over with that of the other.
pub proof fn lemma_join(
    edges: Seq<(Offset, Offset)>,
    cells: Set<Offset>,
    colour: spec_fn(Offset) -> int,
    a: Offset,
    b: Offset,
    from: int,
    to: int,
)
    requires
        tinted(edges, cells, colour),
        cells.contains(a),
        cells.contains(b),
        (from == colour(a) && to == colour(b)) || (from == colour(b) && to == colour(a)),
        from != to,
    ensures
        tinted(edges.push((a, b)), cells, repainted(colour, from, to)),
{
    let more = edges.push((a, b));
    let paint = repainted(colour, from, to);
    lemma_tinted_apart(edges, cells, colour, a, b);
    lemma_forest_grows(edges, a, b);
    assert forall|k: int| 0 <= k < more.len() implies {
        &&& cells.contains((#[trigger] more[k]).0)
        &&& cells.contains(more[k].1)
        &&& paint(more[k].0) == paint(more[k].1)
    } by {
        if k < edges.len() {
            assert(more[k] == edges[k]);
        }
    }
    lemma_edge_connects(edges, a, b);
    lemma_connected_back(more, a, b);
    assert forall|x: Offset, y: Offset| cells.contains(x) && cells.contains(y) && paint(x) == paint(y) implies #[trigger] connected(
        more,
        x,
        y,
    ) by {
        if colour(x) == colour(y) {
            assert(connected(edges, x, y));
            lemma_connected_still(edges, (a, b), x, y);
        } else {
            // one of the two was painted over: it hangs on one end of the
            // new edge, and the other cell on the other end
            let near_x = if colour(x) == colour(a) { a } else { b };
            let near_y = if colour(y) == colour(a) { a } else { b };
            assert(connected(edges, x, near_x));
            assert(connected(edges, near_y, y));
            lemma_connected_still(edges, (a, b), x, near_x);
            lemma_connected_still(edges, (a, b), near_y, y);
            lemma_connected_on(more, x, near_x, near_y);
            lemma_connected_on(more, x, near_y, y);
        }
    }
}

/// Joining two trees takes one colour out of the palette.
pub proof fn lemma_join_counted(
    edges: Seq<(Offset, Offset)>,
    cells: Set<Offset>,
    colour: spec_fn(Offset) -> int,
    palette: Set<int>,
    count: nat,
    a: Offset,
    b: Offset,
    from: int,
    to: int,
)
    requires
        counted(edges, cells, colour, palette, count),
        cells.contains(a),
        cells.contains(b),
        (from == colour(a) && to == colour(b)) || (from == colour(b) && to == colour(a)),
        from != to,
    ensures
        counted(edges.push((a, b)), cells, repainted(colour, from, to), palette.remove(from), count),
{
    let paint = repainted(colour, from, to);
    let fewer = palette.remove(from);
    assert(palette.contains(colour(a)) && palette.contains(colour(b)));
    assert forall|c: int| #[trigger] fewer.contains(c) implies exists|x: Offset| cells.contains(x) && paint(x) == c by {
        assert(palette.contains(c));
        let x = choose|x: Offset| cells.contains(x) && colour(x) == c;
        assert(paint(x) == c);
    }
    assert forall|x: Offset| cells.contains(x) implies fewer.contains(#[trigger] paint(x)) by {
        assert(palette.contains(colour(x)));
    }
}

/// Where a tinted forest connects all cells, the cells are one more than
/// the edges.
pub proof fn lemma_tree_count(
    edges: Seq<(Offset, Offset)>,
    cells: Set<Offset>,
    colour: spec_fn(Offset) -> int,
    palette: Set<int>,
    count: nat,
    root: Offset,
)
    requires
        tinted(edges, cells, colour),
        counted(edges, cells, colour, palette, count),
        cells.contains(root),
        spans(edges, cells),
    ensures
        edges.len() + 1 == count,
{
    assert forall|c: int| palette.contains(c) implies c == colour(root) by {
        let x = choose|x: Offset| cells.contains(x) && colour(x) == c;
        assert(connected(edges, x, root));
        lemma_connected_alike(edges, colour, x, root);
    }
    assert(palette.contains(colour(root)));
    assert(palette =~= set![colour(root)]);
}

} // verus!
