//! Pen moves through the grid and the edges that they draw.

use vstd::prelude::*;
use crate::geometry::Position;
use crate::graph::{filled, is_first_filled, Graph};

verus! {

/// One move of the pen: a jump to a node, or a line along one edge to a node.
#[derive(Clone, Copy, Debug, PartialEq, Eq)]
pub enum MicroStep {
    Jump((i16, i16)),
    Step((i16, i16)),
}

/// The node a micro step goes to.
pub open spec fn node_of(m: MicroStep) -> (int, int) {
    match m {
        MicroStep::Jump(n) => (n.0 as int, n.1 as int),
        MicroStep::Step(n) => (n.0 as int, n.1 as int),
    }
}

/// An edge of the grid: whether it is horizontal, and the row and column of
/// its upper left node.
pub type EdgeId = (bool, int, int);

/// The edge joining two neighbouring nodes.
pub open spec fn edge_between(a: (int, int), b: (int, int)) -> Option<EdgeId> {
    if a.0 == b.0 && b.1 == a.1 + 1 {
        Some((true, a.0, a.1))
    } else if a.0 == b.0 && a.1 == b.1 + 1 {
        Some((true, a.0, b.1))
    } else if a.1 == b.1 && b.0 == a.0 + 1 {
        Some((false, a.0, a.1))
    } else if a.1 == b.1 && a.0 == b.0 + 1 {
        Some((false, b.0, a.1))
    } else {
        None
    }
}

/// The edge that a position names.
pub open spec fn pos_edge(p: Position) -> EdgeId {
    (p.dir.is_horizontal(), p.row as int, p.col as int)
}

pub open spec fn has_edge_id(g: Graph, e: EdgeId) -> bool {
    if e.0 {
        g.h_edge(e.1, e.2)
    } else {
        g.v_edge(e.1, e.2)
    }
}

/// Where the pen is before move `i` of `moves`, when it starts at `s`.
pub open spec fn node_before(moves: Seq<MicroStep>, s: (int, int), i: int) -> (int, int) {
    if i == 0 {
        s
    } else {
        node_of(moves[i - 1])
    }
}

/// The edge that move `i` draws, if it is a line between neighbouring nodes.
pub open spec fn walk_edge(moves: Seq<MicroStep>, s: (int, int), i: int) -> Option<EdgeId> {
    match moves[i] {
        MicroStep::Step(_) => edge_between(node_before(moves, s, i), node_of(moves[i])),
        MicroStep::Jump(_) => None,
    }
}

/// Starting at `s`, every line of `moves` runs along one edge; the edges
/// drawn are distinct, and they are exactly the edges of `from` that are
/// not edges of `to`.
pub open spec fn walk_ok(moves: Seq<MicroStep>, s: (int, int), from: Graph, to: Graph) -> bool {
    &&& forall|i: int|
        0 <= i < moves.len() ==> (moves[i] is Step ==> #[trigger] walk_edge(moves, s, i) is Some)
    &&& forall|i: int|
        0 <= i < moves.len() && #[trigger] walk_edge(moves, s, i) is Some ==> has_edge_id(
            from,
            walk_edge(moves, s, i)->0,
        ) && !has_edge_id(to, walk_edge(moves, s, i)->0)
    &&& forall|i: int, j: int|
        0 <= i < j < moves.len() && #[trigger] walk_edge(moves, s, i) is Some ==> walk_edge(
            moves,
            s,
            i,
        ) != #[trigger] walk_edge(moves, s, j)
    &&& forall|e: EdgeId|
        #[trigger] has_edge_id(from, e) && !has_edge_id(to, e) ==> exists|i: int|
            0 <= i < moves.len() && walk_edge(moves, s, i) == Some(e)
}

/// The edge separates a set cell of the bitmap from a clear one.
pub open spec fn boundary_edge(bits: Seq<bool>, width: int, height: int, e: EdgeId) -> bool {
    &&& 0 <= e.1 <= height
    &&& 0 <= e.2 <= width
    &&& if e.0 {
        filled(bits, width, height, e.1 - 1, e.2) != filled(bits, width, height, e.1, e.2)
    } else {
        filled(bits, width, height, e.1, e.2 - 1) != filled(bits, width, height, e.1, e.2)
    }
}

/// Starting at `s`, the lines of `moves` run along the outline of the set
/// cells of the bitmap, every edge of the outline exactly once.
pub open spec fn traces_outline(
    moves: Seq<MicroStep>,
    s: (int, int),
    bits: Seq<bool>,
    width: int,
    height: int,
) -> bool {
    &&& forall|i: int|
        0 <= i < moves.len() ==> (moves[i] is Step ==> #[trigger] walk_edge(moves, s, i) is Some)
    &&& forall|i: int|
        0 <= i < moves.len() && #[trigger] walk_edge(moves, s, i) is Some ==> boundary_edge(
            bits,
            width,
            height,
            walk_edge(moves, s, i)->0,
        )
    &&& forall|i: int, j: int|
        0 <= i < j < moves.len() && #[trigger] walk_edge(moves, s, i) is Some ==> walk_edge(
            moves,
            s,
            i,
        ) != #[trigger] walk_edge(moves, s, j)
    &&& forall|e: EdgeId|
        #[trigger] boundary_edge(bits, width, height, e) ==> exists|i: int|
            0 <= i < moves.len() && walk_edge(moves, s, i) == Some(e)
}

/// The first set cell of the bitmap in row-major order, whose upper left
/// corner is where the outline starts.
pub open spec fn first_cell(bits: Seq<bool>, width: int, height: int) -> (int, int) {
    choose|p: (int, int)| is_first_filled(bits, width, height, p.0, p.1)
}

/// There is only one first set cell.
pub proof fn lemma_first_cell(bits: Seq<bool>, width: int, height: int, r0: int, c0: int)
    requires
        is_first_filled(bits, width, height, r0, c0),
    ensures
        first_cell(bits, width, height) == (r0, c0),
{
    let q = (r0, c0);
    assert(is_first_filled(bits, width, height, q.0, q.1));
    let p = first_cell(bits, width, height);
    assert(is_first_filled(bits, width, height, p.0, p.1));
    assert(filled(bits, width, height, r0, c0));
    assert(filled(bits, width, height, p.0, p.1));
}

/// A walk that took every edge out of a boundary graph traces the outline.
pub proof fn lemma_walk_outline(
    moves: Seq<MicroStep>,
    s: (int, int),
    from: Graph,
    to: Graph,
    bits: Seq<bool>,
    width: int,
    height: int,
)
    requires
        walk_ok(moves, s, from, to),
        from.is_boundary_of(bits, width, height),
        forall|r: int, c: int| !#[trigger] to.h_edge(r, c) && !to.v_edge(r, c),
    ensures
        traces_outline(moves, s, bits, width, height),
{
    assert forall|e: EdgeId| has_edge_id(from, e) == #[trigger] boundary_edge(bits, width, height, e) by {
    }
    assert forall|e: EdgeId| !#[trigger] has_edge_id(to, e) by {
        assert(!to.h_edge(e.1, e.2) && !to.v_edge(e.1, e.2));
    }
    assert forall|i: int|
        0 <= i < moves.len() && #[trigger] walk_edge(moves, s, i) is Some implies boundary_edge(
        bits,
        width,
        height,
        walk_edge(moves, s, i)->0,
    ) by {
        assert(has_edge_id(from, walk_edge(moves, s, i)->0));
    }
    assert forall|e: EdgeId| #[trigger] boundary_edge(bits, width, height, e) implies exists|i: int|
        0 <= i < moves.len() && walk_edge(moves, s, i) == Some(e) by {
        assert(has_edge_id(from, e) && !has_edge_id(to, e));
    }
}

/// Only the edges of the end graph matter.
pub proof fn lemma_walk_same_edges(moves: Seq<MicroStep>, s: (int, int), from: Graph, to: Graph, to2: Graph)
    requires
        walk_ok(moves, s, from, to),
        to2.same_edges(to),
    ensures
        walk_ok(moves, s, from, to2),
{
    assert forall|e: EdgeId| #[trigger] has_edge_id(to2, e) == has_edge_id(to, e) by {}
    assert forall|e: EdgeId| #[trigger] has_edge_id(from, e) && !has_edge_id(to2, e) implies exists|i: int|
        0 <= i < moves.len() && walk_edge(moves, s, i) == Some(e) by {
        assert(has_edge_id(from, e) && !has_edge_id(to, e));
    }
}

/// Where the subpath that move `i` belongs to started: at `s`, or at the
/// node of the last jump before move `i`.
pub open spec fn subpath_start(moves: Seq<MicroStep>, s: (int, int), i: int) -> (int, int)
    decreases i,
{
    if i <= 0 {
        s
    } else if moves[i - 1] is Jump {
        node_of(moves[i - 1])
    } else {
        subpath_start(moves, s, i - 1)
    }
}

/// Every subpath is closed: before each jump, and after the last move, the
/// pen is back where its subpath started.
pub open spec fn subpaths_closed(moves: Seq<MicroStep>, s: (int, int)) -> bool {
    &&& forall|j: int|
        0 <= j < moves.len() && #[trigger] moves[j] is Jump ==> node_before(moves, s, j)
            == subpath_start(moves, s, j)
    &&& node_before(moves, s, moves.len() as int) == subpath_start(moves, s, moves.len() as int)
}

/// Moves that agree before `i` agree on where the subpath at `i` started.
pub proof fn lemma_subpath_prefix(a: Seq<MicroStep>, b: Seq<MicroStep>, s: (int, int), i: int)
    requires
        0 <= i <= a.len(),
        i <= b.len(),
        forall|j: int| 0 <= j < i ==> a[j] == b[j],
    ensures
        subpath_start(a, s, i) == subpath_start(b, s, i),
    decreases i,
{
    if i > 0 {
        lemma_subpath_prefix(a, b, s, i - 1);
    }
}

/// Lines do not start a new subpath.
pub proof fn lemma_subpath_lines(w: Seq<MicroStep>, s: (int, int), at: int, k: int)
    requires
        0 <= at,
        0 <= k,
        at + k <= w.len(),
        forall|j: int| at <= j < at + k ==> w[j] is Step,
    ensures
        subpath_start(w, s, at + k) == subpath_start(w, s, at),
    decreases k,
{
    if k > 0 {
        lemma_subpath_lines(w, s, at, k - 1);
    }
}

/// Moves that agree after a shift by `l` agree on subpath starts from the
/// point where the subpath starts agree.
pub proof fn lemma_subpath_shift(w: Seq<MicroStep>, moves: Seq<MicroStep>, s: (int, int), at: int, l: int, i: int)
    requires
        0 <= at <= i <= moves.len(),
        0 <= l,
        w.len() == moves.len() + l,
        forall|j: int| at <= j < moves.len() ==> w[j + l] == moves[j],
        subpath_start(w, s, at + l) == subpath_start(moves, s, at),
    ensures
        subpath_start(w, s, i + l) == subpath_start(moves, s, i),
    decreases i,
{
    if i > at {
        lemma_subpath_shift(w, moves, s, at, l, i - 1);
        assert(w[i - 1 + l] == moves[i - 1]);
    }
}

/// A jump at the end of closed subpaths keeps them closed.
pub proof fn lemma_closed_push_jump(moves: Seq<MicroStep>, s: (int, int), n: (i16, i16))
    requires
        subpaths_closed(moves, s),
    ensures
        subpaths_closed(moves.push(MicroStep::Jump(n)), s),
{
    let w = moves.push(MicroStep::Jump(n));
    let len = moves.len() as int;
    assert forall|j: int| 0 <= j <= len implies node_before(w, s, j) == node_before(moves, s, j)
        && #[trigger] subpath_start(w, s, j) == subpath_start(moves, s, j) by {
        lemma_subpath_prefix(w, moves, s, j);
        if j > 0 {
            assert(w[j - 1] == moves[j - 1]);
        }
    }
    assert forall|j: int| 0 <= j < w.len() && #[trigger] w[j] is Jump implies node_before(w, s, j)
        == subpath_start(w, s, j) by {
        assert(subpath_start(w, s, j) == subpath_start(moves, s, j));
        if j < len {
            assert(w[j] == moves[j]);
        }
    }
    assert(subpath_start(w, s, len + 1) == node_of(w[len]));
}

/// Putting a closed tour of lines in at a point where the pen stands at its
/// start keeps the subpaths closed.
pub proof fn lemma_closed_splice(moves: Seq<MicroStep>, s: (int, int), at: int, tour: Seq<MicroStep>, t: (int, int))
    requires
        subpaths_closed(moves, s),
        0 <= at <= moves.len(),
        node_before(moves, s, at) == t,
        tour.len() > 0,
        node_of(tour.last()) == t,
        forall|k: int| 0 <= k < tour.len() ==> #[trigger] tour[k] is Step,
    ensures
        subpaths_closed(moves.take(at) + tour + moves.skip(at), s),
{
    let w = moves.take(at) + tour + moves.skip(at);
    let l = tour.len() as int;
    let n = moves.len() as int;
    assert forall|j: int| 0 <= j < at implies w[j] == moves[j] by {}
    assert forall|j: int| at <= j < at + l implies w[j] is Step by {
        assert(w[j] == tour[j - at]);
    }
    assert forall|j: int| at <= j < n implies w[j + l] == moves[j] by {}
    lemma_subpath_prefix(w, moves, s, at);
    lemma_subpath_lines(w, s, at, l);
    assert forall|i: int| at <= i <= n implies #[trigger] subpath_start(w, s, i + l) == subpath_start(
        moves,
        s,
        i,
    ) && node_before(w, s, i + l) == node_before(moves, s, i) by {
        lemma_subpath_shift(w, moves, s, at, l, i);
        if i > at {
            assert(w[i + l - 1] == moves[i - 1]);
        } else {
            assert(w[i + l - 1] == tour[l - 1]);
            if at > 0 {
                assert(w[at - 1] == moves[at - 1]);
            }
        }
    }
    assert forall|j: int| 0 <= j < w.len() && #[trigger] w[j] is Jump implies node_before(w, s, j)
        == subpath_start(w, s, j) by {
        if j < at {
            lemma_subpath_prefix(w, moves, s, j);
            assert(w[j] == moves[j]);
            if j > 0 {
                assert(w[j - 1] == moves[j - 1]);
            }
        } else if j < at + l {
        } else {
            assert(subpath_start(w, s, (j - l) + l) == subpath_start(moves, s, j - l));
            assert(w[j] == moves[j - l]);
        }
    }
    assert(subpath_start(w, s, n + l) == subpath_start(moves, s, n));
}

/// Every jump is followed by a line: no jump comes last or right after
/// another jump.
#[verifier::opaque]
pub open spec fn jumps_lead_to_lines(moves: Seq<MicroStep>) -> bool {
    forall|j: int|
        0 <= j < moves.len() && #[trigger] moves[j] is Jump ==> j + 1 < moves.len() && moves[j
            + 1] is Step
}

/// Every jump is followed by a line, except one right before index `at`.
#[verifier::opaque]
pub open spec fn jumps_lead_to_lines_or(moves: Seq<MicroStep>, at: int) -> bool {
    forall|j: int|
        0 <= j < moves.len() && #[trigger] moves[j] is Jump ==> (j + 1 < moves.len() && moves[j
            + 1] is Step) || j + 1 == at
}

/// A jump at the end still awaits its line.
pub proof fn lemma_jumps_push_jump(moves: Seq<MicroStep>, n: (i16, i16))
    requires
        jumps_lead_to_lines(moves),
    ensures
        jumps_lead_to_lines_or(moves.push(MicroStep::Jump(n)), (moves.len() + 1) as int),
        moves.len() > 0 ==> moves.push(MicroStep::Jump(n))[0] == moves[0],
{
    reveal(jumps_lead_to_lines);
    reveal(jumps_lead_to_lines_or);
    let w = moves.push(MicroStep::Jump(n));
    assert forall|j: int| 0 <= j < w.len() && #[trigger] w[j] is Jump implies (j + 1 < w.len()
        && w[j + 1] is Step) || j + 1 == moves.len() + 1 by {
        if j < moves.len() {
            assert(w[j] == moves[j]);
            if j + 1 < moves.len() {
                assert(w[j + 1] == moves[j + 1]);
            }
        }
    }
}

/// Moves with no jump left waiting also have none waiting before `at`.
pub proof fn lemma_jumps_relax(moves: Seq<MicroStep>, at: int)
    requires
        jumps_lead_to_lines(moves),
    ensures
        jumps_lead_to_lines_or(moves, at),
{
    reveal(jumps_lead_to_lines);
    reveal(jumps_lead_to_lines_or);
}

/// No moves leave no jump waiting.
pub proof fn lemma_jumps_empty(at: int)
    ensures
        jumps_lead_to_lines(Seq::<MicroStep>::empty()),
        jumps_lead_to_lines_or(Seq::<MicroStep>::empty(), at),
{
    reveal(jumps_lead_to_lines);
    reveal(jumps_lead_to_lines_or);
}

/// Putting a tour of lines in at `at` gives the jump before `at` its line.
pub proof fn lemma_jumps_splice(moves: Seq<MicroStep>, at: int, tour: Seq<MicroStep>)
    requires
        0 <= at <= moves.len(),
        tour.len() > 0,
        forall|k: int| 0 <= k < tour.len() ==> #[trigger] tour[k] is Step,
        jumps_lead_to_lines_or(moves, at),
    ensures
        jumps_lead_to_lines(moves.take(at) + tour + moves.skip(at)),
{
    reveal(jumps_lead_to_lines);
    reveal(jumps_lead_to_lines_or);
    let w = moves.take(at) + tour + moves.skip(at);
    let l = tour.len() as int;
    assert forall|j: int| 0 <= j < w.len() && #[trigger] w[j] is Jump implies j + 1 < w.len()
        && w[j + 1] is Step by {
        if j < at {
            assert(w[j] == moves[j]);
            if j + 1 < at {
                assert(w[j + 1] == moves[j + 1]);
            } else {
                assert(w[j + 1] == tour[0]);
            }
        } else if j < at + l {
            assert(w[j] == tour[j - at]);
        } else {
            assert(w[j] == moves[j - l]);
            assert(w[j + 1] == moves[j - l + 1]);
        }
    }
}

/// The order in which a fresh start is searched for: by the row-major
/// index of an edge's upper left node, the horizontal edge before the
/// vertical one.
pub open spec fn edge_rank(e: EdgeId, width: int) -> int {
    2 * (e.1 * (width + 1) + e.2) + if e.0 {
        0int
    } else {
        1int
    }
}

/// Some move before index `j` draws edge `e`.
pub open spec fn drawn_before(moves: Seq<MicroStep>, s: (int, int), j: int, e: EdgeId) -> bool {
    exists|i: int| 0 <= i < j && walk_edge(moves, s, i) == Some(e)
}

/// Every outline edge of lower rank than `e` is drawn before index `j`.
pub open spec fn lower_drawn(
    moves: Seq<MicroStep>,
    s: (int, int),
    bits: Seq<bool>,
    width: int,
    height: int,
    j: int,
    e: EdgeId,
) -> bool {
    forall|f: EdgeId|
        boundary_edge(bits, width, height, f) && edge_rank(f, width) < edge_rank(e, width)
            ==> #[trigger] drawn_before(moves, s, j, f)
}

/// Where the first line of a fresh start along `e` ends: rightwards along a
/// horizontal edge, upwards along a vertical one.
pub open spec fn fresh_end(e: EdgeId) -> (int, int) {
    if e.0 {
        (e.1, e.2 + 1)
    } else {
        (e.1, e.2)
    }
}

/// The jump at `j` is followed by a line, rightwards or upwards, along an
/// edge of which every outline edge of lower rank was drawn before the jump.
pub open spec fn jump_ok(
    moves: Seq<MicroStep>,
    s: (int, int),
    bits: Seq<bool>,
    width: int,
    height: int,
    j: int,
) -> bool {
    &&& j + 1 < moves.len()
    &&& walk_edge(moves, s, j + 1) is Some
    &&& node_of(moves[j + 1]) == fresh_end(walk_edge(moves, s, j + 1)->0)
    &&& lower_drawn(moves, s, bits, width, height, j, walk_edge(moves, s, j + 1)->0)
}

/// Every jump goes to the outline edge of lowest rank that the moves before
/// it have not drawn, and the line after the jump draws that edge.
#[verifier::opaque]
pub open spec fn jumps_to_first_undrawn(
    moves: Seq<MicroStep>,
    s: (int, int),
    bits: Seq<bool>,
    width: int,
    height: int,
) -> bool {
    forall|j: int|
        0 <= j < moves.len() && #[trigger] moves[j] is Jump ==> jump_ok(moves, s, bits, width, height, j)
}

/// Every jump is as `jump_ok` says, and lies before index `bound - 1`.
#[verifier::opaque]
pub open spec fn jumps_done(
    moves: Seq<MicroStep>,
    s: (int, int),
    bits: Seq<bool>,
    width: int,
    height: int,
    bound: int,
) -> bool {
    forall|j: int|
        0 <= j < moves.len() && #[trigger] moves[j] is Jump ==> j + 1 <= bound && jump_ok(
            moves,
            s,
            bits,
            width,
            height,
            j,
        )
}

/// Every jump before `at - 1` is as `jump_ok` says; a jump at `at - 1` is
/// the last move, goes to the start of `p`, and every outline edge of lower
/// rank than the edge of `p`, which `p` walks rightwards or upwards, was
/// drawn before it.
#[verifier::opaque]
pub open spec fn jumps_ready(
    moves: Seq<MicroStep>,
    s: (int, int),
    bits: Seq<bool>,
    width: int,
    height: int,
    at: int,
    p: Position,
) -> bool {
    forall|j: int|
        0 <= j < moves.len() && #[trigger] moves[j] is Jump ==> (j + 1 < at && jump_ok(
            moves,
            s,
            bits,
            width,
            height,
            j,
        )) || (j + 1 == at && at == moves.len() && node_of(moves[j]) == p.start_spec()
            && p.end_spec() == fresh_end(pos_edge(p)) && lower_drawn(
            moves,
            s,
            bits,
            width,
            height,
            j,
            pos_edge(p),
        ))
}

/// Moves that agree up to `n` draw the same edges up to `n`.
pub proof fn lemma_walk_edge_prefix(a: Seq<MicroStep>, b: Seq<MicroStep>, s: (int, int), n: int)
    requires
        0 <= n <= a.len(),
        n <= b.len(),
        forall|i: int| 0 <= i < n ==> a[i] == b[i],
    ensures
        forall|i: int| 0 <= i < n ==> #[trigger] walk_edge(a, s, i) == walk_edge(b, s, i),
        forall|j: int, e: EdgeId| 0 <= j <= n ==> #[trigger] drawn_before(a, s, j, e) == drawn_before(b, s, j, e),
{
    assert forall|i: int| 0 <= i < n implies #[trigger] walk_edge(a, s, i) == walk_edge(b, s, i) by {
        assert(a[i] == b[i]);
        if i > 0 {
            assert(a[i - 1] == b[i - 1]);
        }
    }
    assert forall|j: int, e: EdgeId| 0 <= j <= n implies #[trigger] drawn_before(a, s, j, e)
        == drawn_before(b, s, j, e) by {
        if drawn_before(a, s, j, e) {
            let i = choose|i: int| 0 <= i < j && walk_edge(a, s, i) == Some(e);
            assert(walk_edge(b, s, i) == Some(e));
        }
        if drawn_before(b, s, j, e) {
            let i = choose|i: int| 0 <= i < j && walk_edge(b, s, i) == Some(e);
            assert(walk_edge(a, s, i) == Some(e));
        }
    }
}

proof fn lemma_jump_ok_prefix(
    a: Seq<MicroStep>,
    b: Seq<MicroStep>,
    s: (int, int),
    bits: Seq<bool>,
    width: int,
    height: int,
    j: int,
    n: int,
)
    requires
        0 <= j,
        j + 2 <= n <= a.len(),
        n <= b.len(),
        forall|i: int| 0 <= i < n ==> a[i] == b[i],
        jump_ok(a, s, bits, width, height, j),
    ensures
        jump_ok(b, s, bits, width, height, j),
{
    lemma_walk_edge_prefix(a, b, s, n);
    assert(walk_edge(a, s, j + 1) == walk_edge(b, s, j + 1));
    assert(a[j + 1] == b[j + 1]);
    let e = walk_edge(a, s, j + 1)->0;
    assert forall|f: EdgeId|
        boundary_edge(bits, width, height, f) && edge_rank(f, width) < edge_rank(e, width) implies #[trigger] drawn_before(
        b,
        s,
        j,
        f,
    ) by {
        assert(drawn_before(a, s, j, f));
    }
}

/// No moves have no jumps.
pub proof fn lemma_ready_empty(
    s: (int, int),
    bits: Seq<bool>,
    width: int,
    height: int,
    at: int,
    p: Position,
)
    ensures
        jumps_ready(Seq::empty(), s, bits, width, height, at, p),
{
    reveal(jumps_ready);
}

/// Jumps that are done before `bound` are ready for any later insertion point.
pub proof fn lemma_done_ready(
    moves: Seq<MicroStep>,
    s: (int, int),
    bits: Seq<bool>,
    width: int,
    height: int,
    bound: int,
    at: int,
    p: Position,
)
    requires
        jumps_done(moves, s, bits, width, height, bound),
        bound < at,
    ensures
        jumps_ready(moves, s, bits, width, height, at, p),
{
    reveal(jumps_done);
    reveal(jumps_ready);
}

/// Jumps that are done before `bound` are done before any later bound too,
/// and then every jump goes to the first undrawn edge.
pub proof fn lemma_done_weaken(
    moves: Seq<MicroStep>,
    s: (int, int),
    bits: Seq<bool>,
    width: int,
    height: int,
    bound: int,
    later: int,
)
    requires
        jumps_done(moves, s, bits, width, height, bound),
        bound <= later,
    ensures
        jumps_done(moves, s, bits, width, height, later),
        jumps_to_first_undrawn(moves, s, bits, width, height),
{
    reveal(jumps_done);
    reveal(jumps_to_first_undrawn);
}

/// Putting a tour of lines in at `at`, starting along `p`, finishes a jump
/// that waited for its first line there.
pub proof fn lemma_ready_splice(
    moves: Seq<MicroStep>,
    s: (int, int),
    bits: Seq<bool>,
    width: int,
    height: int,
    at: int,
    tour: Seq<MicroStep>,
    p: Position,
)
    requires
        0 <= at <= moves.len(),
        tour.len() > 0,
        forall|k: int| 0 <= k < tour.len() ==> #[trigger] tour[k] is Step,
        node_of(tour[0]) == p.end_spec(),
        jumps_ready(moves, s, bits, width, height, at, p),
    ensures
        jumps_done(moves.take(at) + tour + moves.skip(at), s, bits, width, height, at),
{
    reveal(jumps_ready);
    reveal(jumps_done);
    let w = moves.take(at) + tour + moves.skip(at);
    let l = tour.len() as int;
    assert forall|i: int| 0 <= i < at implies w[i] == moves[i] by {}
    assert forall|j: int| 0 <= j < w.len() && #[trigger] w[j] is Jump implies j + 1 <= at && jump_ok(
        w,
        s,
        bits,
        width,
        height,
        j,
    ) by {
        if j < at {
            assert(w[j] == moves[j]);
            if j + 1 < at {
                lemma_jump_ok_prefix(moves, w, s, bits, width, height, j, at);
            } else {
                lemma_walk_edge_prefix(moves, w, s, at);
                assert(w[j + 1] == tour[0]);
                assert(node_before(w, s, j + 1) == p.start_spec());
                assert(edge_between(p.start_spec(), p.end_spec()) == Some(pos_edge(p)));
                assert(walk_edge(w, s, j + 1) == Some(pos_edge(p)));
                let e = pos_edge(p);
                assert forall|f: EdgeId|
                    boundary_edge(bits, width, height, f) && edge_rank(f, width) < edge_rank(e, width) implies #[trigger] drawn_before(
                    w,
                    s,
                    j,
                    f,
                ) by {
                    assert(drawn_before(moves, s, j, f));
                }
            }
        } else if j < at + l {
            assert(w[j] == tour[j - at]);
        } else {
            assert(w[j] == moves[j - l]);
        }
    }
}

/// A jump to the start of `p`, after moves whose jumps are all done and
/// which drew every outline edge of lower rank than the edge of `p`, waits
/// for its first line along `p`.
pub proof fn lemma_ready_push_jump(
    moves: Seq<MicroStep>,
    s: (int, int),
    bits: Seq<bool>,
    width: int,
    height: int,
    n: (i16, i16),
    p: Position,
)
    requires
        jumps_done(moves, s, bits, width, height, moves.len() as int),
        (n.0 as int, n.1 as int) == p.start_spec(),
        p.end_spec() == fresh_end(pos_edge(p)),
        lower_drawn(moves, s, bits, width, height, moves.len() as int, pos_edge(p)),
    ensures
        jumps_ready(moves.push(MicroStep::Jump(n)), s, bits, width, height, (moves.len() + 1) as int, p),
{
    reveal(jumps_done);
    reveal(jumps_ready);
    let w = moves.push(MicroStep::Jump(n));
    let len = moves.len() as int;
    assert forall|i: int| 0 <= i < len implies w[i] == moves[i] by {}
    lemma_walk_edge_prefix(moves, w, s, len);
    assert forall|j: int| 0 <= j < w.len() && #[trigger] w[j] is Jump implies (j + 1 < len + 1 && jump_ok(
        w,
        s,
        bits,
        width,
        height,
        j,
    )) || (j + 1 == len + 1 && len + 1 == w.len() && node_of(w[j]) == p.start_spec()
        && p.end_spec() == fresh_end(pos_edge(p)) && lower_drawn(w, s, bits, width, height, j, pos_edge(p))) by {
        if j < len {
            assert(w[j] == moves[j]);
            lemma_jump_ok_prefix(moves, w, s, bits, width, height, j, len);
        } else {
            let e = pos_edge(p);
            assert forall|f: EdgeId|
                boundary_edge(bits, width, height, f) && edge_rank(f, width) < edge_rank(e, width) implies #[trigger] drawn_before(
                w,
                s,
                j,
                f,
            ) by {
                assert(drawn_before(moves, s, j, f));
            }
        }
    }
}

/// Walking a position goes from its start node to its end node along its edge.
pub proof fn lemma_pos_edge(p: Position, g: Graph)
    ensures
        edge_between(p.start_spec(), p.end_spec()) == Some(pos_edge(p)),
        has_edge_id(g, pos_edge(p)) == g.has_pos(p),
{
}

/// Nothing is drawn by no moves.
pub proof fn lemma_walk_empty(s: (int, int), g: Graph)
    ensures
        walk_ok(Seq::empty(), s, g, g),
{
}

/// A jump draws nothing and leaves the lines before it as they were.
pub proof fn lemma_walk_push_jump(moves: Seq<MicroStep>, s: (int, int), from: Graph, to: Graph, n: (i16, i16))
    requires
        walk_ok(moves, s, from, to),
    ensures
        walk_ok(moves.push(MicroStep::Jump(n)), s, from, to),
{
    let w = moves.push(MicroStep::Jump(n));
    assert forall|i: int| 0 <= i < moves.len() implies #[trigger] walk_edge(w, s, i) == walk_edge(
        moves,
        s,
        i,
    ) by {
        assert(w[i] == moves[i]);
        if i > 0 {
            assert(w[i - 1] == moves[i - 1]);
        }
    }
    assert(walk_edge(w, s, moves.len() as int) is None);
    assert forall|e: EdgeId| #[trigger] has_edge_id(from, e) && !has_edge_id(to, e) implies exists|i: int|
        0 <= i < w.len() && walk_edge(w, s, i) == Some(e) by {
        let i = choose|i: int| 0 <= i < moves.len() && walk_edge(moves, s, i) == Some(e);
        assert(walk_edge(w, s, i) == Some(e));
    }
}

/// Drawing one more edge, taken out of `to_old`, at the end of the moves.
pub proof fn lemma_walk_push_step(
    moves: Seq<MicroStep>,
    s: (int, int),
    from: Graph,
    to_old: Graph,
    to_new: Graph,
    p: Position,
)
    requires
        walk_ok(moves, s, from, to_old),
        to_old.sub_of(from),
        to_old.has_pos(p),
        to_new.is_without(to_old, p),
        node_before(moves, s, moves.len() as int) == p.start_spec(),
        i16::MIN <= p.end_spec().0 <= i16::MAX,
        i16::MIN <= p.end_spec().1 <= i16::MAX,
    ensures
        walk_ok(
            moves.push(MicroStep::Step((p.end_spec().0 as i16, p.end_spec().1 as i16))),
            s,
            from,
            to_new,
        ),
{
    let m = MicroStep::Step((p.end_spec().0 as i16, p.end_spec().1 as i16));
    let w = moves.push(m);
    let n = moves.len() as int;
    lemma_pos_edge(p, to_old);
    lemma_pos_edge(p, to_new);
    lemma_pos_edge(p, from);
    assert(node_of(m) == p.end_spec());
    assert forall|i: int| 0 <= i < n implies #[trigger] walk_edge(w, s, i) == walk_edge(moves, s, i) by {
        assert(w[i] == moves[i]);
        if i > 0 {
            assert(w[i - 1] == moves[i - 1]);
        }
    }
    assert(node_before(w, s, n) == node_before(moves, s, n));
    assert(walk_edge(w, s, n) == Some(pos_edge(p)));
    assert(!has_edge_id(to_new, pos_edge(p)));
    assert forall|i: int|
        0 <= i < w.len() && #[trigger] walk_edge(w, s, i) is Some implies has_edge_id(
        from,
        walk_edge(w, s, i)->0,
    ) && !has_edge_id(to_new, walk_edge(w, s, i)->0) by {
        if i < n {
            let e = walk_edge(moves, s, i)->0;
            assert(has_edge_id(from, e) && !has_edge_id(to_old, e));
            if e.0 {
                assert(to_new.h_edge(e.1, e.2) ==> to_old.h_edge(e.1, e.2));
            } else {
                assert(to_new.v_edge(e.1, e.2) ==> to_old.v_edge(e.1, e.2));
            }
        }
    }
    assert forall|i: int, j: int|
        0 <= i < j < w.len() && #[trigger] walk_edge(w, s, i) is Some implies walk_edge(w, s, i)
        != #[trigger] walk_edge(w, s, j) by {
        if j < n {
        } else {
            assert(!has_edge_id(to_old, walk_edge(moves, s, i)->0));
        }
    }
    assert forall|e: EdgeId| #[trigger] has_edge_id(from, e) && !has_edge_id(to_new, e) implies exists|i: int|
        0 <= i < w.len() && walk_edge(w, s, i) == Some(e) by {
        if has_edge_id(to_old, e) {
            assert(e == pos_edge(p));
            assert(walk_edge(w, s, n) == Some(e));
        } else {
            let i = choose|i: int| 0 <= i < moves.len() && walk_edge(moves, s, i) == Some(e);
            assert(walk_edge(w, s, i) == Some(e));
        }
    }
    assert forall|i: int| 0 <= i < w.len() && w[i] is Step implies #[trigger] walk_edge(w, s, i) is Some by {
        if i < n {
            assert(w[i] == moves[i]);
        }
    }
}

/// Putting a closed walk in at a point where the pen stands at its start
/// keeps every other line as it was.
pub proof fn lemma_walk_splice(
    moves: Seq<MicroStep>,
    s: (int, int),
    at: int,
    tour: Seq<MicroStep>,
    t: (int, int),
    from: Graph,
    mid: Graph,
    to: Graph,
)
    requires
        0 <= at <= moves.len(),
        node_before(moves, s, at) == t,
        tour.len() > 0,
        node_of(tour.last()) == t,
        walk_ok(moves, s, from, mid),
        walk_ok(tour, t, mid, to),
        mid.sub_of(from),
        to.sub_of(mid),
    ensures
        walk_ok(moves.take(at) + tour + moves.skip(at), s, from, to),
{
    let w = moves.take(at) + tour + moves.skip(at);
    let l = tour.len() as int;
    let n = moves.len() as int;
    assert(w.len() == n + l);
    assert forall|i: int| 0 <= i < at implies #[trigger] walk_edge(w, s, i) == walk_edge(moves, s, i) by {
        assert(w[i] == moves[i]);
        if i > 0 {
            assert(w[i - 1] == moves[i - 1]);
        }
    }
    assert forall|k: int| 0 <= k < l implies #[trigger] walk_edge(w, s, at + k) == walk_edge(tour, t, k) by {
        assert(w[at + k] == tour[k]);
        if k > 0 {
            assert(w[at + k - 1] == tour[k - 1]);
        } else if at > 0 {
            assert(w[at - 1] == moves[at - 1]);
        }
    }
    assert forall|i: int| at <= i < n implies #[trigger] walk_edge(w, s, i + l) == walk_edge(moves, s, i) by {
        assert(w[i + l] == moves[i]);
        if i > at {
            assert(w[i + l - 1] == moves[i - 1]);
        } else {
            assert(w[i + l - 1] == tour[l - 1]);
        }
    }
    // Where a move of `w` comes from.
    assert forall|i: int| 0 <= i < w.len() && w[i] is Step implies #[trigger] walk_edge(w, s, i) is Some by {
        if i < at {
            assert(w[i] == moves[i]);
            assert(walk_edge(w, s, i) == walk_edge(moves, s, i));
        } else if i < at + l {
            assert(w[i] == tour[i - at]);
            assert(walk_edge(w, s, at + (i - at)) == walk_edge(tour, t, i - at));
        } else {
            assert(w[i] == moves[i - l]);
            assert(walk_edge(w, s, (i - l) + l) == walk_edge(moves, s, i - l));
        }
    }
    assert forall|i: int|
        0 <= i < w.len() && #[trigger] walk_edge(w, s, i) is Some implies has_edge_id(
        from,
        walk_edge(w, s, i)->0,
    ) && !has_edge_id(to, walk_edge(w, s, i)->0) by {
        let e = walk_edge(w, s, i)->0;
        if i < at {
            assert(walk_edge(w, s, i) == walk_edge(moves, s, i));
            lemma_sub_keeps_absent(to, mid, e);
        } else if i < at + l {
            assert(walk_edge(w, s, at + (i - at)) == walk_edge(tour, t, i - at));
            lemma_sub_keeps_present(mid, from, e);
        } else {
            assert(walk_edge(w, s, (i - l) + l) == walk_edge(moves, s, i - l));
            lemma_sub_keeps_absent(to, mid, e);
        }
    }
    assert forall|i: int, j: int|
        0 <= i < j < w.len() && #[trigger] walk_edge(w, s, i) is Some implies walk_edge(w, s, i)
        != #[trigger] walk_edge(w, s, j) by {
        let ei = walk_edge(w, s, i);
        let ej = walk_edge(w, s, j);
        // Each edge is either drawn by `moves` (and gone from `mid`) or by
        // `tour` (and still in `mid`).
        let i_tour = at <= i < at + l;
        let j_tour = at <= j < at + l;
        if i < at {
            assert(ei == walk_edge(moves, s, i));
        } else if i < at + l {
            assert(ei == walk_edge(tour, t, i - at));
        } else {
            assert(ei == walk_edge(moves, s, i - l));
        }
        if j < at {
            assert(ej == walk_edge(moves, s, j));
        } else if j < at + l {
            assert(ej == walk_edge(tour, t, j - at));
        } else {
            assert(ej == walk_edge(moves, s, j - l));
        }
        if i_tour && !j_tour && ej is Some {
            assert(has_edge_id(mid, ei->0));
            assert(!has_edge_id(mid, ej->0));
        }
        if !i_tour && j_tour && ej is Some {
            assert(!has_edge_id(mid, ei->0));
            assert(has_edge_id(mid, ej->0));
        }
        if !i_tour && !j_tour {
            let oi = if i < at { i } else { i - l };
            let oj = if j < at { j } else { j - l };
            assert(oi < oj);
            assert(walk_edge(moves, s, oi) != walk_edge(moves, s, oj));
        }
        if i_tour && j_tour {
            assert(walk_edge(tour, t, i - at) != walk_edge(tour, t, j - at));
        }
    }
    assert forall|e: EdgeId| #[trigger] has_edge_id(from, e) && !has_edge_id(to, e) implies exists|i: int|
        0 <= i < w.len() && walk_edge(w, s, i) == Some(e) by {
        if has_edge_id(mid, e) {
            let k = choose|k: int| 0 <= k < tour.len() && walk_edge(tour, t, k) == Some(e);
            assert(walk_edge(w, s, at + k) == Some(e));
        } else {
            let i = choose|i: int| 0 <= i < moves.len() && walk_edge(moves, s, i) == Some(e);
            if i < at {
                assert(walk_edge(w, s, i) == Some(e));
            } else {
                assert(walk_edge(w, s, i + l) == Some(e));
            }
        }
    }
}

/// An edge missing from a graph is missing from every graph inside it.
pub proof fn lemma_sub_keeps_absent(small: Graph, big: Graph, e: EdgeId)
    requires
        small.sub_of(big),
        !has_edge_id(big, e),
    ensures
        !has_edge_id(small, e),
{
    if e.0 {
        assert(small.h_edge(e.1, e.2) ==> big.h_edge(e.1, e.2));
    } else {
        assert(small.v_edge(e.1, e.2) ==> big.v_edge(e.1, e.2));
    }
}

/// An edge of a graph is an edge of every graph around it.
pub proof fn lemma_sub_keeps_present(small: Graph, big: Graph, e: EdgeId)
    requires
        small.sub_of(big),
        has_edge_id(small, e),
    ensures
        has_edge_id(big, e),
{
    if e.0 {
        assert(small.h_edge(e.1, e.2) ==> big.h_edge(e.1, e.2));
    } else {
        assert(small.v_edge(e.1, e.2) ==> big.v_edge(e.1, e.2));
    }
}

} // verus!
