//! Bitmaps framed by a border of set cells: an outline walk that starts
//! along the top of the upper left cell first goes once round the frame.

use vstd::prelude::*;
use crate::graph::filled;
use crate::segments::{compress_spec, compress_state, Segment};
use crate::walk::{boundary_edge, edge_between, node_before, node_of, walk_edge, EdgeId, MicroStep};

verus! {

/// Every cell on the border of the `side` by `side` bitmap is set.
pub open spec fn framed(bits: Seq<bool>, side: int) -> bool {
    forall|r: int, c: int|
        0 <= r < side && 0 <= c < side && (r == 0 || r == side - 1 || c == 0 || c == side - 1)
            ==> #[trigger] filled(bits, side, side, r, c)
}

/// Node `k` on the way round the frame clockwise from the upper left corner.
pub open spec fn frame_node(side: int, k: int) -> (int, int) {
    if k <= side {
        (0, k)
    } else if k <= 2 * side {
        (k - side, side)
    } else if k <= 3 * side {
        (side, 3 * side - k)
    } else {
        (4 * side - k, 0)
    }
}

/// No jump comes before index `k`, so the subpath there started at `s`.
proof fn lemma_start_without_jumps(moves: Seq<MicroStep>, s: (int, int), k: int)
    requires
        0 <= k <= moves.len(),
        forall|i: int| 0 <= i < k ==> #[trigger] moves[i] is Step,
    ensures
        crate::walk::subpath_start(moves, s, k) == s,
    decreases k,
{
    if k > 0 {
        assert(moves[k - 1] is Step);
        lemma_start_without_jumps(moves, s, k - 1);
    }
}

/// The frame edges between consecutive frame nodes are distinct outline
/// edges.
proof fn lemma_frame_edges(bits: Seq<bool>, side: int, i: int, k: int)
    requires
        side >= 2,
        framed(bits, side),
        0 <= i < 4 * side,
        0 <= k < 4 * side,
    ensures
        edge_between(frame_node(side, k), frame_node(side, k + 1)) is Some,
        boundary_edge(bits, side, side, edge_between(frame_node(side, k), frame_node(side, k + 1))->0),
        i != k ==> edge_between(frame_node(side, i), frame_node(side, i + 1)) != edge_between(
            frame_node(side, k),
            frame_node(side, k + 1),
        ),
        0 < k ==> frame_node(side, k) != (0int, 0int),
{
    let (r, c) = frame_node(side, k);
    if k < side {
        assert(filled(bits, side, side, 0, c));
    } else if k < 2 * side {
        assert(filled(bits, side, side, r, side - 1));
    } else if k < 3 * side {
        assert(filled(bits, side, side, side - 1, c - 1));
    } else {
        assert(filled(bits, side, side, r - 1, 0));
    }
}

/// The only outline edges at frame node `k` are the frame edges before and
/// after it.
proof fn lemma_frame_node_edges(bits: Seq<bool>, side: int, k: int, e: EdgeId)
    requires
        side >= 2,
        framed(bits, side),
        0 < k < 4 * side,
        boundary_edge(bits, side, side, e),
        (e.0 && e.1 == frame_node(side, k).0 && (e.2 == frame_node(side, k).1 || e.2 + 1
            == frame_node(side, k).1)) || (!e.0 && e.2 == frame_node(side, k).1 && (e.1
            == frame_node(side, k).0 || e.1 + 1 == frame_node(side, k).0)),
    ensures
        Some(e) == edge_between(frame_node(side, k - 1), frame_node(side, k)) || Some(e)
            == edge_between(frame_node(side, k), frame_node(side, k + 1)),
{
    let (r, c) = frame_node(side, k);
    if e.0 {
        if 0 < e.2 + 1 && e.2 < side {
            assert(filled(bits, side, side, e.1 - 1, e.2) != filled(bits, side, side, e.1, e.2));
        }
        if 0 <= e.1 - 1 && e.1 - 1 < side && 0 <= e.2 < side {
            assert(filled(bits, side, side, e.1 - 1, e.2));
        }
        if 0 <= e.1 < side && 0 <= e.2 < side {
            assert(filled(bits, side, side, e.1, e.2));
        }
    } else {
        if 0 <= e.1 < side && 0 <= e.2 - 1 < side {
            assert(filled(bits, side, side, e.1, e.2 - 1));
        }
        if 0 <= e.1 < side && 0 <= e.2 < side {
            assert(filled(bits, side, side, e.1, e.2));
        }
    }
}

proof fn lemma_round_prefix(steps: Seq<MicroStep>, bits: Seq<bool>, side: int, n: int)
    requires
        side >= 2,
        framed(bits, side),
        crate::walk::traces_outline(steps, (0, 0), bits, side, side),
        crate::walk::subpaths_closed(steps, (0, 0)),
        steps.len() > 0,
        steps[0] == MicroStep::Step((0, 1)),
        1 <= n <= 4 * side,
    ensures
        steps.len() >= n,
        forall|k: int|
            0 <= k < n ==> #[trigger] steps[k] is Step && node_of(steps[k]) == frame_node(side, k + 1),
    decreases n,
{
    if n > 1 {
        lemma_round_prefix(steps, bits, side, n - 1);
        let k = n - 1;
        assert(steps[k - 1] is Step);
        assert(node_before(steps, (0, 0), k) == frame_node(side, k));
        lemma_frame_edges(bits, side, 0, k);
        let ek = edge_between(frame_node(side, k), frame_node(side, k + 1))->0;
        assert(boundary_edge(bits, side, side, ek));
        let i = choose|i: int| 0 <= i < steps.len() && walk_edge(steps, (0, 0), i) == Some(ek);
        if i < k {
            assert(steps[i] is Step);
            if i > 0 {
                assert(steps[i - 1] is Step);
            }
            assert(walk_edge(steps, (0, 0), i) == edge_between(frame_node(side, i), frame_node(side, i + 1)));
            lemma_frame_edges(bits, side, i, k);
        }
        assert(steps.len() > k);
        if steps[k] is Jump {
            lemma_start_without_jumps(steps, (0, 0), k);
            assert(node_before(steps, (0, 0), k) == crate::walk::subpath_start(steps, (0, 0), k));
        }
        assert(walk_edge(steps, (0, 0), k) is Some);
        let e = walk_edge(steps, (0, 0), k)->0;
        lemma_frame_node_edges(bits, side, k, e);
        assert(walk_edge(steps, (0, 0), k - 1) is Some);
        if k >= 2 {
            assert(steps[k - 2] is Step);
        }
        assert(walk_edge(steps, (0, 0), k - 1) == edge_between(frame_node(side, k - 1), frame_node(side, k)));
    }
}

/// A walk that starts at the upper left corner of a framed bitmap with a
/// line along the top of its upper left cell, whose subpaths are closed and
/// which draws every outline edge exactly once, first goes once round the
/// frame clockwise.
pub proof fn lemma_walk_rounds_frame(steps: Seq<MicroStep>, bits: Seq<bool>, side: int)
    requires
        side >= 2,
        framed(bits, side),
        crate::walk::traces_outline(steps, (0, 0), bits, side, side),
        crate::walk::subpaths_closed(steps, (0, 0)),
        steps.len() > 0,
        steps[0] == MicroStep::Step((0, 1)),
    ensures
        steps.len() >= 4 * side,
        forall|k: int|
            0 <= k < 4 * side ==> #[trigger] steps[k] is Step && node_of(steps[k]) == frame_node(side, k + 1),
{
    lemma_round_prefix(steps, bits, side, 4 * side);
}

/// The compression state after the first `k` moves round the frame.
spec fn frame_state(side: int, k: int) -> crate::segments::CompressState {
    let first = Seq::<Segment>::empty().push(Segment::Horizontal(side as i16));
    let second = first.push(Segment::Vertical(side as i16));
    let third = second.push(Segment::Horizontal((-side) as i16));
    if k == 0 {
        (Seq::empty(), (0, 0), None)
    } else if k <= side {
        (Seq::empty(), frame_node(side, k), Some((true, k)))
    } else if k <= 2 * side {
        (first, frame_node(side, k), Some((false, k - side)))
    } else if k <= 3 * side {
        (second, frame_node(side, k), Some((true, -(k - 2 * side))))
    } else {
        (third, frame_node(side, k), Some((false, -(k - 3 * side))))
    }
}

proof fn lemma_frame_states(steps: Seq<MicroStep>, side: int, k: int)
    requires
        2 <= side <= 10000,
        steps.len() >= 4 * side,
        forall|i: int|
            0 <= i < 4 * side ==> #[trigger] steps[i] is Step && node_of(steps[i]) == frame_node(side, i + 1),
        0 <= k <= 4 * side,
    ensures
        compress_state(steps.take(k)) == frame_state(side, k),
    decreases k,
{
    if k > 0 {
        lemma_frame_states(steps, side, k - 1);
        assert(steps.take(k).drop_last() =~= steps.take(k - 1));
        assert(steps.take(k).last() == steps[k - 1]);
        assert(steps[k - 1] is Step);
        let st = frame_state(side, k - 1);
        let first = Seq::<Segment>::empty().push(Segment::Horizontal(side as i16));
        let second = first.push(Segment::Vertical(side as i16));
        if k - 1 == 3 * side {
            assert(((-(k - 1 - 2 * side)) as i16) == ((-side) as i16));
        }
        assert(crate::segments::compress_step(st, steps[k - 1]) == frame_state(side, k));
    }
}

/// Compressing a walk that first goes once round a frame of `side` cells,
/// clockwise from the upper left corner, begins with a horizontal line of
/// length `side`, a vertical line of length `side` and a horizontal line of
/// length `-side`.
pub proof fn lemma_frame_segments(steps: Seq<MicroStep>, side: int)
    requires
        2 <= side <= 10000,
        steps.len() >= 4 * side,
        forall|k: int|
            0 <= k < 4 * side ==> #[trigger] steps[k] is Step && node_of(steps[k]) == frame_node(side, k + 1),
    ensures
        compress_spec(steps).len() >= 3,
        compress_spec(steps)[0] == Segment::Horizontal(side as i16),
        compress_spec(steps)[1] == Segment::Vertical(side as i16),
        compress_spec(steps)[2] == Segment::Horizontal((-side) as i16),
{
    lemma_frame_states(steps, side, 3 * side + 1);
    crate::segments::lemma_compress_prefix(steps, 3 * side + 1);
    let third = compress_state(steps.take(3 * side + 1)).0;
    assert(third.len() == 3);
    assert(third[0] == compress_spec(steps)[0]);
    assert(third[1] == compress_spec(steps)[1]);
    assert(third[2] == compress_spec(steps)[2]);
}

/// A marker bitmap is framed by its border.
pub proof fn lemma_marker_framed(data: Seq<bool>, size: int)
    requires
        size >= 0,
    ensures
        framed(crate::codeword::marker_bits(data, size), size + 2),
{
    let w = size + 2;
    let m = crate::codeword::marker_bits(data, size);
    assert forall|r: int, c: int|
        0 <= r < w && 0 <= c < w && (r == 0 || r == w - 1 || c == 0 || c == w - 1) implies #[trigger] filled(
        m,
        w,
        w,
        r,
        c,
    ) by {
        crate::arith::lemma_row_major_div_mod(r, c, w);
        crate::arith::lemma_row_major_bound(r, c, w, w);
        assert(m[r * w + c] == crate::codeword::marker_cell(data, size, r, c));
    }
}

} // verus!
