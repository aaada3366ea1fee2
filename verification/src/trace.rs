//! The walk through the outline as a mathematical function.
//!
//! The outline is a set of undrawn edges. A loop is traced from an edge by
//! always taking the first way on from the end of the last edge (straight,
//! then a left turn, then a right turn) until the walk is back where the loop
//! started; the places passed with more than one way on are remembered. The
//! loop is put into the walk at its insertion point. Then the first
//! remembered place that still has a way on starts the next loop, put in
//! right after that place; when none has, the walk jumps to the undrawn edge
//! of lowest rank and starts over there.

use vstd::prelude::*;
use crate::geometry::{Direction, Position};
use crate::graph::Graph;
use crate::walk::{EdgeId, MicroStep};

verus! {

/// The edges of a graph.
pub open spec fn edges_of(g: Graph) -> Set<EdgeId> {
    Set::new(|e: EdgeId| crate::walk::has_edge_id(g, e))
}

/// The edges of the outline of the set cells of a bitmap.
pub open spec fn outline_set(bits: Seq<bool>, width: int, height: int) -> Set<EdgeId> {
    Set::new(|e: EdgeId| crate::walk::boundary_edge(bits, width, height, e))
}

/// The edge that an oriented way names.
pub open spec fn way_edge(t: (int, int, Direction)) -> EdgeId {
    (t.2.is_horizontal(), t.0, t.1)
}

/// The position that an oriented way names.
pub open spec fn to_pos(t: (int, int, Direction)) -> Position {
    Position { row: t.0 as i16, col: t.1 as i16, dir: t.2 }
}

/// The first of the three ways on from the end of `pos` (straight, left
/// turn, right turn) whose edge is still undrawn.
pub open spec fn first_way_in(edges: Set<EdgeId>, pos: Position) -> Option<(int, int, Direction)> {
    if edges.contains(way_edge(pos.straight_spec())) {
        Some(pos.straight_spec())
    } else if edges.contains(way_edge(pos.left_spec())) {
        Some(pos.left_spec())
    } else if edges.contains(way_edge(pos.right_spec())) {
        Some(pos.right_spec())
    } else {
        None
    }
}

/// How many of the three ways on from the end of `pos` are undrawn.
pub open spec fn ways_in(edges: Set<EdgeId>, pos: Position) -> int {
    crate::graph::b2i(edges.contains(way_edge(pos.straight_spec()))) + crate::graph::b2i(
        edges.contains(way_edge(pos.left_spec())),
    ) + crate::graph::b2i(edges.contains(way_edge(pos.right_spec())))
}

/// The node, as a pen move stores it, where `p` starts.
pub open spec fn start_i16(p: Position) -> (i16, i16) {
    (p.start_spec().0 as i16, p.start_spec().1 as i16)
}

/// A loop traced on from `pos` until the walk is back at `start`: the edges
/// left undrawn, the lines of the loop, the places with more than one way on
/// (with the index at which a loop from there would be put in), and the fuel
/// left. Each line takes one unit of fuel.
#[verifier::opaque]
pub open spec fn trace_loop(
    edges: Set<EdgeId>,
    pos: Position,
    start: (int, int),
    insert: usize,
    lines: Seq<MicroStep>,
    alts: Seq<(usize, Position)>,
    fuel: nat,
) -> (Set<EdgeId>, Seq<MicroStep>, Seq<(usize, Position)>, nat)
    decreases fuel,
{
    let alts2 = if ways_in(edges, pos) >= 2 {
        alts.push((insert, pos))
    } else {
        alts
    };
    match first_way_in(edges, pos) {
        None => (edges, lines, alts2, fuel),
        Some(t) => {
            let p = to_pos(t);
            let edges2 = edges.remove(crate::walk::pos_edge(p));
            let lines2 = lines.push(MicroStep::Step(crate::euler::end_i16(p)));
            if fuel == 0 {
                (edges2, lines2, alts2, 0)
            } else if p.end_spec() == start {
                (edges2, lines2, alts2, (fuel - 1) as nat)
            } else {
                trace_loop(edges2, p, start, (insert + 1) as usize, lines2, alts2, (fuel - 1) as nat)
            }
        },
    }
}

/// The first remembered place that still has a way on, with the way.
#[verifier::opaque]
pub open spec fn first_alt(edges: Set<EdgeId>, alts: Seq<(usize, Position)>) -> Option<(usize, Position)>
    decreases alts.len(),
{
    if alts.len() == 0 {
        None
    } else {
        match first_way_in(edges, alts[0].1) {
            Some(t) => Some((alts[0].0, to_pos(t))),
            None => first_alt(edges, alts.drop_first()),
        }
    }
}

pub proof fn lemma_trace_fuel(
    edges: Set<EdgeId>,
    pos: Position,
    start: (int, int),
    insert: usize,
    lines: Seq<MicroStep>,
    alts: Seq<(usize, Position)>,
    fuel: nat,
)
    ensures
        trace_loop(edges, pos, start, insert, lines, alts, fuel).3 <= fuel,
    decreases fuel,
{
    reveal(trace_loop);
    let alts2 = if ways_in(edges, pos) >= 2 {
        alts.push((insert, pos))
    } else {
        alts
    };
    if let Some(t) = first_way_in(edges, pos) {
        let p = to_pos(t);
        if fuel > 0 && p.end_spec() != start {
            lemma_trace_fuel(
                edges.remove(crate::walk::pos_edge(p)),
                p,
                start,
                (insert + 1) as usize,
                lines.push(MicroStep::Step(crate::euler::end_i16(p))),
                alts2,
                (fuel - 1) as nat,
            );
        }
    }
}

/// A loop from `pos` put in at `insert`, then loops from the first
/// remembered place of each new loop that still has a way on, each put in
/// right after that place: the edges left, the walk, and the fuel left.
#[verifier::opaque]
pub open spec fn splice_loops(
    edges: Set<EdgeId>,
    elements: Seq<MicroStep>,
    pos: Position,
    insert: usize,
    fuel: nat,
) -> (Set<EdgeId>, Seq<MicroStep>, nat)
    decreases fuel,
{
    if fuel == 0 {
        (edges, elements, fuel)
    } else {
        let traced = trace_loop(
            edges.remove(crate::walk::pos_edge(pos)),
            pos,
            pos.start_spec(),
            (insert + 1) as usize,
            seq![MicroStep::Step(crate::euler::end_i16(pos))],
            Seq::empty(),
            (fuel - 1) as nat,
        );
        let elements2 = elements.take(insert as int) + traced.1 + elements.skip(insert as int);
        match first_alt(traced.0, traced.2) {
            Some((index, next)) => {
                proof {
                    lemma_trace_fuel(
                        edges.remove(crate::walk::pos_edge(pos)),
                        pos,
                        pos.start_spec(),
                        (insert + 1) as usize,
                        seq![MicroStep::Step(crate::euler::end_i16(pos))],
                        Seq::empty(),
                        (fuel - 1) as nat,
                    );
                }
                splice_loops(traced.0, elements2, next, index, traced.3)
            },
            None => (traced.0, elements2, traced.3),
        }
    }
}

pub proof fn lemma_splice_fuel(
    edges: Set<EdgeId>,
    elements: Seq<MicroStep>,
    pos: Position,
    insert: usize,
    fuel: nat,
)
    ensures
        fuel > 0 ==> splice_loops(edges, elements, pos, insert, fuel).2 < fuel,
    decreases fuel,
{
    reveal(splice_loops);
    if fuel > 0 {
        let traced = trace_loop(
            edges.remove(crate::walk::pos_edge(pos)),
            pos,
            pos.start_spec(),
            (insert + 1) as usize,
            seq![MicroStep::Step(crate::euler::end_i16(pos))],
            Seq::empty(),
            (fuel - 1) as nat,
        );
        lemma_trace_fuel(
            edges.remove(crate::walk::pos_edge(pos)),
            pos,
            pos.start_spec(),
            (insert + 1) as usize,
            seq![MicroStep::Step(crate::euler::end_i16(pos))],
            Seq::empty(),
            (fuel - 1) as nat,
        );
        let elements2 = elements.take(insert as int) + traced.1 + elements.skip(insert as int);
        match first_alt(traced.0, traced.2) {
            Some((index, next)) => {
                lemma_splice_fuel(traced.0, elements2, next, index, traced.3);
                assert(splice_loops(edges, elements, pos, insert, fuel) == splice_loops(
                    traced.0,
                    elements2,
                    next,
                    index,
                    traced.3,
                ));
            },
            None => {
                assert(splice_loops(edges, elements, pos, insert, fuel).2 == traced.3);
            },
        }
    }
}

/// The undrawn edge of lowest rank, if any.
#[verifier::opaque]
pub open spec fn first_edge(edges: Set<EdgeId>, width: int) -> Option<EdgeId> {
    if exists|e: EdgeId|
        #[trigger] edges.contains(e) && forall|f: EdgeId|
            edges.contains(f) ==> crate::walk::edge_rank(e, width) <= crate::walk::edge_rank(f, width) {
        Some(
            choose|e: EdgeId|
                #[trigger] edges.contains(e) && forall|f: EdgeId|
                    edges.contains(f) ==> crate::walk::edge_rank(e, width) <= crate::walk::edge_rank(
                        f,
                        width,
                    ),
        )
    } else {
        None
    }
}

/// The position that walks an edge rightwards or upwards.
pub open spec fn edge_pos(e: EdgeId) -> Position {
    Position {
        row: e.1 as i16,
        col: e.2 as i16,
        dir: if e.0 {
            Direction::Right
        } else {
            Direction::Up
        },
    }
}

/// Loops spliced in from `pos`, then, while undrawn edges are left, a jump
/// to the one of lowest rank and loops from there.
#[verifier::opaque]
pub open spec fn outer_walk(
    edges: Set<EdgeId>,
    elements: Seq<MicroStep>,
    pos: Position,
    insert: usize,
    width: int,
    fuel: nat,
) -> Seq<MicroStep>
    decreases fuel,
{
    if fuel == 0 {
        elements
    } else {
        let spliced = splice_loops(edges, elements, pos, insert, fuel);
        match first_edge(spliced.0, width) {
            None => spliced.1,
            Some(e) => {
                proof {
                    lemma_splice_fuel(edges, elements, pos, insert, fuel);
                }
                let next = edge_pos(e);
                outer_walk(
                    spliced.0,
                    spliced.1.push(MicroStep::Jump(start_i16(next))),
                    next,
                    (spliced.1.len() + 1) as usize,
                    width,
                    spliced.2,
                )
            },
        }
    }
}

/// The walk through the outline of the set cells of a `width` by `height`
/// bitmap: it starts along the outline edge of lowest rank. The fuel, one
/// more than twice the number of nodes, exceeds the number of edges, so it
/// never runs out before every edge is drawn.
pub open spec fn euler_walk(bits: Seq<bool>, width: int, height: int) -> Seq<MicroStep> {
    let edges = outline_set(bits, width, height);
    match first_edge(edges, width) {
        None => Seq::empty(),
        Some(e) => outer_walk(
            edges,
            Seq::empty(),
            edge_pos(e),
            0,
            width,
            (2 * ((width + 1) * (height + 1)) + 1) as nat,
        ),
    }
}

/// Taking an edge out of a graph takes it out of its edge set.
pub proof fn lemma_edges_without(g2: Graph, g: Graph, p: Position)
    requires
        g2.is_without(g, p),
    ensures
        edges_of(g2) == edges_of(g).remove(crate::walk::pos_edge(p)),
{
    assert forall|e: EdgeId| #[trigger] edges_of(g2).contains(e) == edges_of(g).remove(
        crate::walk::pos_edge(p),
    ).contains(e) by {
        assert(g2.h_edge(e.1, e.2) == (g.h_edge(e.1, e.2) && !(p.dir.is_horizontal() && e.1 == p.row
            && e.2 == p.col)));
        assert(g2.v_edge(e.1, e.2) == (g.v_edge(e.1, e.2) && !(!p.dir.is_horizontal() && e.1 == p.row
            && e.2 == p.col)));
    }
    assert(edges_of(g2) =~= edges_of(g).remove(crate::walk::pos_edge(p)));
}

/// The ways on in a graph are the ways on among its edges.
pub proof fn lemma_ways(g: Graph, pos: Position)
    ensures
        g.first_way(pos) == first_way_in(edges_of(g), pos),
        g.ways_on(pos) == ways_in(edges_of(g), pos),
{
}

/// The edges of a boundary graph are the outline edges.
pub proof fn lemma_boundary_edges(g: Graph, bits: Seq<bool>, width: int, height: int)
    requires
        g.is_boundary_of(bits, width, height),
    ensures
        edges_of(g) == outline_set(bits, width, height),
{
    assert forall|e: EdgeId| #[trigger] edges_of(g).contains(e) == outline_set(bits, width, height).contains(e) by {
        assert(g.h_edge(e.1, e.2) == (g.is_node(e.1, e.2) && crate::graph::filled(bits, width, height, e.1 - 1, e.2)
            != crate::graph::filled(bits, width, height, e.1, e.2)));
        assert(g.v_edge(e.1, e.2) == (g.is_node(e.1, e.2) && crate::graph::filled(bits, width, height, e.1, e.2 - 1)
            != crate::graph::filled(bits, width, height, e.1, e.2)));
    }
    assert(edges_of(g) =~= outline_set(bits, width, height));
}

/// A graph with no edges has no first edge.
pub proof fn lemma_no_first_edge(g: Graph)
    requires
        forall|r: int, c: int| !#[trigger] g.h_edge(r, c) && !g.v_edge(r, c),
    ensures
        first_edge(edges_of(g), g.w()) is None,
{
    reveal(first_edge);
    assert forall|e: EdgeId| !#[trigger] edges_of(g).contains(e) by {
        assert(!g.h_edge(e.1, e.2) && !g.v_edge(e.1, e.2));
    }
}

/// The edge at the lowest node index, horizontal first, is the first edge.
pub proof fn lemma_first_edge(g: Graph, p: Position)
    requires
        g.wf(),
        g.is_node(p.row as int, p.col as int),
        g.has_pos(p),
        p.dir == Direction::Right || p.dir == Direction::Up,
        p.dir == Direction::Right <==> g.h_edge(p.row as int, p.col as int),
        forall|rr: int, cc: int|
            g.is_node(rr, cc) && g.idx(rr, cc) < g.idx(p.row as int, p.col as int)
                ==> !#[trigger] g.h_edge(rr, cc) && !g.v_edge(rr, cc),
    ensures
        first_edge(edges_of(g), g.w()) == Some(crate::walk::pos_edge(p)),
        edge_pos(crate::walk::pos_edge(p)) == p,
{
    reveal(first_edge);
    let w = g.w();
    let e0 = crate::walk::pos_edge(p);
    let edges = edges_of(g);
    g.lemma_idx(p.row as int, p.col as int);
    assert(edges.contains(e0));
    assert forall|f: EdgeId| edges.contains(f) implies crate::walk::edge_rank(e0, w)
        <= crate::walk::edge_rank(f, w) by {
        assert(g.is_node(f.1, f.2));
        g.lemma_idx(f.1, f.2);
        let (i_f, i_p) = (g.idx(f.1, f.2), g.idx(p.row as int, p.col as int));
        assert(crate::walk::edge_rank(f, w) == 2 * i_f + if f.0 { 0int } else { 1int });
        assert(crate::walk::edge_rank(e0, w) == 2 * i_p + if e0.0 { 0int } else { 1int });
        if i_f < i_p {
            let (rr, cc) = (f.1, f.2);
            assert(g.is_node(rr, cc) && g.idx(rr, cc) < g.idx(p.row as int, p.col as int));
            assert(!g.h_edge(rr, cc));
            assert(!g.v_edge(rr, cc));
            assert(!edges.contains(f));
        } else if i_f == i_p {
            g.lemma_idx_injective(f.1, f.2, p.row as int, p.col as int);
            if f.0 && !e0.0 {
                assert(g.h_edge(p.row as int, p.col as int));
            }
        }
    }
    let m = choose|e: EdgeId|
        #[trigger] edges.contains(e) && forall|f: EdgeId|
            edges.contains(f) ==> crate::walk::edge_rank(e, w) <= crate::walk::edge_rank(f, w);
    assert(edges.contains(m) && forall|f: EdgeId|
        edges.contains(f) ==> crate::walk::edge_rank(m, w) <= crate::walk::edge_rank(f, w));
    assert(crate::walk::edge_rank(m, w) == crate::walk::edge_rank(e0, w));
    assert(g.is_node(m.1, m.2));
    g.lemma_idx(m.1, m.2);
    assert(m.0 == e0.0);
    assert(g.idx(m.1, m.2) == g.idx(p.row as int, p.col as int));
    g.lemma_idx_injective(m.1, m.2, p.row as int, p.col as int);
    assert(m == e0);
}

/// What the walk does once the loops from one start are spliced in: stop
/// when no edge is left, else jump to the undrawn edge of lowest rank and go
/// on from there.
pub open spec fn after_splice(spliced: (Set<EdgeId>, Seq<MicroStep>, nat), width: int) -> Seq<MicroStep> {
    match first_edge(spliced.0, width) {
        None => spliced.1,
        Some(e) => outer_walk(
            spliced.0,
            spliced.1.push(MicroStep::Jump(start_i16(edge_pos(e)))),
            edge_pos(e),
            (spliced.1.len() + 1) as usize,
            width,
            spliced.2,
        ),
    }
}

pub proof fn lemma_outer_unfold(
    edges: Set<EdgeId>,
    elements: Seq<MicroStep>,
    pos: Position,
    insert: usize,
    width: int,
    fuel: nat,
)
    requires
        fuel > 0,
    ensures
        outer_walk(edges, elements, pos, insert, width, fuel) == after_splice(
            splice_loops(edges, elements, pos, insert, fuel),
            width,
        ),
{
    reveal(outer_walk);
}

/// The first loop that `splice_loops` traces.
pub open spec fn first_loop(edges: Set<EdgeId>, pos: Position, insert: usize, fuel: nat) -> (
    Set<EdgeId>,
    Seq<MicroStep>,
    Seq<(usize, Position)>,
    nat,
) {
    trace_loop(
        edges.remove(crate::walk::pos_edge(pos)),
        pos,
        pos.start_spec(),
        (insert + 1) as usize,
        seq![MicroStep::Step(crate::euler::end_i16(pos))],
        Seq::empty(),
        (fuel - 1) as nat,
    )
}

/// One round of `splice_loops`: the first loop is put in, and the walk goes
/// on from the first remembered place that has a way on, if any.
pub proof fn lemma_splice_unfold(
    edges: Set<EdgeId>,
    elements: Seq<MicroStep>,
    pos: Position,
    insert: usize,
    fuel: nat,
)
    requires
        fuel > 0,
    ensures
        ({
            let traced = first_loop(edges, pos, insert, fuel);
            let elements2 = elements.take(insert as int) + traced.1 + elements.skip(insert as int);
            splice_loops(edges, elements, pos, insert, fuel) == match first_alt(traced.0, traced.2) {
                Some((index, next)) => splice_loops(traced.0, elements2, next, index, traced.3),
                None => (traced.0, elements2, traced.3),
            }
        }),
{
    reveal(splice_loops);
}

/// One line of `trace_loop`.
pub proof fn lemma_trace_unfold(
    edges: Set<EdgeId>,
    pos: Position,
    start: (int, int),
    insert: usize,
    lines: Seq<MicroStep>,
    alts: Seq<(usize, Position)>,
    fuel: nat,
    t: (int, int, Direction),
)
    requires
        fuel > 0,
        first_way_in(edges, pos) == Some(t),
    ensures
        ({
            let alts2 = if ways_in(edges, pos) >= 2 {
                alts.push((insert, pos))
            } else {
                alts
            };
            let p = to_pos(t);
            let edges2 = edges.remove(crate::walk::pos_edge(p));
            let lines2 = lines.push(MicroStep::Step(crate::euler::end_i16(p)));
            trace_loop(edges, pos, start, insert, lines, alts, fuel) == if p.end_spec() == start {
                (edges2, lines2, alts2, (fuel - 1) as nat)
            } else {
                trace_loop(edges2, p, start, (insert + 1) as usize, lines2, alts2, (fuel - 1) as nat)
            }
        }),
{
    reveal(trace_loop);
}

/// One remembered place of `first_alt`.
pub proof fn lemma_first_alt_unfold(edges: Set<EdgeId>, alts: Seq<(usize, Position)>)
    ensures
        alts.len() == 0 ==> first_alt(edges, alts) is None,
        alts.len() > 0 ==> first_alt(edges, alts) == match first_way_in(edges, alts[0].1) {
            Some(t) => Some((alts[0].0, to_pos(t))),
            None => first_alt(edges, alts.drop_first()),
        },
{
    reveal(first_alt);
}

} // verus!
