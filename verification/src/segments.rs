//! Compressing pen moves into path segments.
//!
//! Consecutive lines along the same row become one horizontal segment, and
//! along the same column one vertical segment. All coordinates are relative
//! to the pen, which starts at node `(0, 0)`; a jump closes the current
//! subpath and moves the pen.

use vstd::prelude::*;
use crate::walk::MicroStep;

verus! {

/// One path segment, relative to the current pen position.
#[derive(Clone, Copy, Debug, PartialEq, Eq, Structural)]
pub enum Segment {
    /// Move the pen by `(dx, dy)` without drawing.
    Move(i16, i16),
    /// Draw a horizontal line of the given signed length.
    Horizontal(i16),
    /// Draw a vertical line of the given signed length.
    Vertical(i16),
    /// Close the current subpath.
    Close,
}

/// The run of lines that is still being collected.
#[derive(Clone, Copy, Debug, PartialEq, Eq, Structural)]
pub enum Work {
    Horizontal(i16),
    Vertical(i16),
}

/// A run as a mathematical value: whether it is horizontal, and its length.
pub open spec fn work_view(w: Option<Work>) -> Option<(bool, int)> {
    match w {
        Some(Work::Horizontal(l)) => Some((true, l as int)),
        Some(Work::Vertical(l)) => Some((false, l as int)),
        None => None,
    }
}

/// Collected segments, pen position and current run after some moves.
pub type CompressState = (Seq<Segment>, (int, int), Option<(bool, int)>);

/// The segments with the current run, if any, appended.
pub open spec fn flush_spec(segments: Seq<Segment>, work: Option<(bool, int)>) -> Seq<Segment> {
    match work {
        Some((true, l)) => segments.push(Segment::Horizontal(l as i16)),
        Some((false, l)) => segments.push(Segment::Vertical(l as i16)),
        None => segments,
    }
}

/// The effect of one move: a line in the row (column) of a horizontal
/// (vertical) run lengthens the run; any other line ends the run and starts a
/// new one; a jump drops the run, closes the subpath and moves the pen.
pub open spec fn compress_step(st: CompressState, m: MicroStep) -> CompressState {
    let (segments, pos, work) = st;
    match m {
        MicroStep::Step(n) => {
            let (row, col) = (n.0 as int, n.1 as int);
            match work {
                Some((true, l)) if row == pos.0 => (segments, (row, col), Some((true, l + (col - pos.1)))),
                Some((false, l)) if col == pos.1 => (segments, (row, col), Some((false, l + (row - pos.0)))),
                _ => (
                    flush_spec(segments, work),
                    (row, col),
                    if row == pos.0 {
                        Some((true, col - pos.1))
                    } else {
                        Some((false, row - pos.0))
                    },
                ),
            }
        },
        MicroStep::Jump(n) => {
            let (row, col) = (n.0 as int, n.1 as int);
            (
                segments.push(Segment::Close).push(
                    Segment::Move((col - pos.1) as i16, (row - pos.0) as i16),
                ),
                (row, col),
                None,
            )
        },
    }
}

/// The state after all of `steps`, starting at node `(0, 0)`.
pub open spec fn compress_state(steps: Seq<MicroStep>) -> CompressState
    decreases steps.len(),
{
    if steps.len() == 0 {
        (Seq::empty(), (0, 0), None)
    } else {
        compress_step(compress_state(steps.drop_last()), steps.last())
    }
}

/// The segments for `steps`: the last run is flushed, and a path that is not
/// empty is closed.
pub open spec fn compress_spec(steps: Seq<MicroStep>) -> Seq<Segment> {
    let (segments, _, work) = compress_state(steps);
    let out = flush_spec(segments, work);
    if out.len() > 0 {
        out.push(Segment::Close)
    } else {
        out
    }
}

pub open spec fn in_i16(x: int) -> bool {
    i16::MIN <= x <= i16::MAX
}

/// The numbers that compressing one move computes fit in an `i16`: both
/// offsets of a jump, and for a line its offset along the run and the new
/// length of the run.
pub open spec fn step_fits(st: CompressState, m: MicroStep) -> bool {
    let pos = st.1;
    let n = crate::walk::node_of(m);
    match m {
        MicroStep::Jump(_) => in_i16(n.1 - pos.1) && in_i16(n.0 - pos.0),
        MicroStep::Step(_) => match compress_step(st, m).2 {
            Some((true, l)) => in_i16(n.1 - pos.1) && in_i16(l),
            Some((false, l)) => in_i16(n.0 - pos.0) && in_i16(l),
            None => true,
        },
    }
}

/// Compressing `steps` computes no number that leaves the range of `i16`.
pub open spec fn compress_fits(steps: Seq<MicroStep>) -> bool {
    forall|i: int|
        0 <= i < steps.len() ==> #[trigger] step_fits(compress_state(steps.take(i)), steps[i])
}

/// Every node that the moves go to has non-negative coordinates.
pub open spec fn nonnegative_moves(steps: Seq<MicroStep>) -> bool {
    forall|i: int|
        0 <= i < steps.len() ==> #[trigger] crate::walk::node_of(steps[i]).0 >= 0
            && crate::walk::node_of(steps[i]).1 >= 0
}

/// Within a run, the node where the run started has a coordinate in
/// `0..=i16::MAX`, so every run length fits in an `i16`.
pub open spec fn run_bounded(pos: (int, int), work: Option<(bool, int)>) -> bool {
    &&& 0 <= pos.0 <= i16::MAX
    &&& 0 <= pos.1 <= i16::MAX
    &&& work matches Some((h, l)) ==> if h {
        0 <= pos.1 - l <= i16::MAX
    } else {
        0 <= pos.0 - l <= i16::MAX
    }
}

/// No two neighbouring segments are lines along the same axis: every run of
/// lines has been merged into one segment.
pub open spec fn runs_merged(segments: Seq<Segment>) -> bool {
    forall|i: int|
        0 <= i < segments.len() - 1 ==> !(#[trigger] segments[i] is Horizontal && segments[i
            + 1] is Horizontal) && !(segments[i] is Vertical && segments[i + 1] is Vertical)
}

/// Every line of the moves, starting at node `(0, 0)`, goes to a
/// neighbouring node.
pub open spec fn unit_lines(steps: Seq<MicroStep>) -> bool {
    forall|i: int|
        0 <= i < steps.len() && steps[i] is Step ==> #[trigger] crate::walk::walk_edge(
            steps,
            (0, 0),
            i,
        ) is Some
}

spec fn run_is_horizontal(work: Option<(bool, int)>) -> bool {
    match work {
        Some((h, _)) => h,
        None => false,
    }
}

spec fn merged_inv(st: CompressState) -> bool {
    let (segments, _, work) = st;
    &&& runs_merged(segments)
    &&& (work is Some && segments.len() > 0) ==> (if run_is_horizontal(work) {
        !(segments.last() is Horizontal)
    } else {
        !(segments.last() is Vertical)
    })
    &&& work is None ==> segments.len() == 0 || segments.last() is Move
}

proof fn lemma_flush_merged(segments: Seq<Segment>, work: Option<(bool, int)>)
    requires
        merged_inv((segments, (0, 0), work)),
    ensures
        runs_merged(flush_spec(segments, work)),
        work is Some ==> flush_spec(segments, work).last() is Horizontal == run_is_horizontal(work)
            && flush_spec(segments, work).last() is Vertical == !run_is_horizontal(work),
        work is None ==> flush_spec(segments, work) == segments,
{
    let flushed = flush_spec(segments, work);
    assert forall|i: int| 0 <= i < flushed.len() - 1 implies !(#[trigger] flushed[i] is Horizontal
        && flushed[i + 1] is Horizontal) && !(flushed[i] is Vertical && flushed[i + 1] is Vertical) by {
        if i < segments.len() - 1 {
            assert(flushed[i] == segments[i] && flushed[i + 1] == segments[i + 1]);
        }
    }
}

proof fn lemma_merged_step(st: CompressState, m: MicroStep)
    requires
        merged_inv(st),
        m is Step ==> crate::walk::edge_between(st.1, crate::walk::node_of(m)) is Some,
    ensures
        merged_inv(compress_step(st, m)),
        compress_step(st, m).1 == crate::walk::node_of(m),
{
    let (segments, pos, work) = st;
    lemma_flush_merged(segments, work);
    let next = compress_step(st, m);
    match m {
        MicroStep::Jump(_) => {
            let s2 = next.0;
            assert forall|i: int| 0 <= i < s2.len() - 1 implies !(#[trigger] s2[i] is Horizontal
                && s2[i + 1] is Horizontal) && !(s2[i] is Vertical && s2[i + 1] is Vertical) by {
                if i < segments.len() - 1 {
                    assert(s2[i] == segments[i] && s2[i + 1] == segments[i + 1]);
                }
            }
        },
        MicroStep::Step(_) => {
        },
    }
}

proof fn lemma_merged_state(steps: Seq<MicroStep>)
    requires
        unit_lines(steps),
    ensures
        merged_inv(compress_state(steps)),
        compress_state(steps).1 == crate::walk::node_before(steps, (0, 0), steps.len() as int),
    decreases steps.len(),
{
    if steps.len() > 0 {
        let prefix = steps.drop_last();
        assert forall|i: int|
            0 <= i < prefix.len() && prefix[i] is Step implies #[trigger] crate::walk::walk_edge(
            prefix,
            (0, 0),
            i,
        ) is Some by {
            assert(prefix[i] == steps[i]);
            if i > 0 {
                assert(prefix[i - 1] == steps[i - 1]);
            }
            assert(crate::walk::walk_edge(steps, (0, 0), i) is Some);
        }
        lemma_merged_state(prefix);
        let n = steps.len() - 1;
        assert(crate::walk::node_before(steps, (0, 0), n) == crate::walk::node_before(
            prefix,
            (0, 0),
            n,
        )) by {
            if n > 0 {
                assert(steps[n - 1] == prefix[n - 1]);
            }
        }
        if steps.last() is Step {
            assert(crate::walk::walk_edge(steps, (0, 0), n) is Some);
        }
        lemma_merged_step(compress_state(prefix), steps.last());
    }
}

/// Compressing a walk of unit lines merges every run of lines along one
/// row or one column into a single segment.
pub proof fn lemma_compress_merges_runs(steps: Seq<MicroStep>)
    requires
        unit_lines(steps),
    ensures
        runs_merged(compress_spec(steps)),
{
    lemma_merged_state(steps);
    let (segments, _, work) = compress_state(steps);
    lemma_flush_merged(segments, work);
    let flushed = flush_spec(segments, work);
    let out = compress_spec(steps);
    assert forall|i: int| 0 <= i < out.len() - 1 implies !(#[trigger] out[i] is Horizontal && out[i
        + 1] is Horizontal) && !(out[i] is Vertical && out[i + 1] is Vertical) by {
        if i < flushed.len() - 1 {
            assert(out[i] == flushed[i] && out[i + 1] == flushed[i + 1]);
        }
    }
}

proof fn lemma_nonnegative_bounded(steps: Seq<MicroStep>, i: int)
    requires
        nonnegative_moves(steps),
        0 <= i <= steps.len(),
    ensures
        run_bounded(compress_state(steps.take(i)).1, compress_state(steps.take(i)).2),
    decreases i,
{
    if i > 0 {
        lemma_nonnegative_bounded(steps, i - 1);
        assert(steps.take(i).drop_last() =~= steps.take(i - 1));
        assert(steps.take(i).last() == steps[i - 1]);
        assert(crate::walk::node_of(steps[i - 1]).0 >= 0);
    }
}

/// Moves to nodes with non-negative coordinates compress without leaving the
/// range of `i16`.
pub proof fn lemma_nonnegative_fits(steps: Seq<MicroStep>)
    requires
        nonnegative_moves(steps),
    ensures
        compress_fits(steps),
{
    assert forall|i: int| 0 <= i < steps.len() implies #[trigger] step_fits(
        compress_state(steps.take(i)),
        steps[i],
    ) by {
        lemma_nonnegative_bounded(steps, i);
        assert(crate::walk::node_of(steps[i]).0 >= 0);
    }
}

/// Where the pen is after the moves: at the node of the last move, or at
/// `(0, 0)` before any move.
pub proof fn lemma_compress_pen(steps: Seq<MicroStep>)
    ensures
        compress_state(steps).1 == crate::walk::node_before(steps, (0, 0), steps.len() as int),
    decreases steps.len(),
{
    if steps.len() > 0 {
        lemma_compress_pen(steps.drop_last());
    }
}

proof fn lemma_prefix_trans(a: Seq<Segment>, b: Seq<Segment>, c: Seq<Segment>)
    requires
        a.is_prefix_of(b),
        b.is_prefix_of(c),
    ensures
        a.is_prefix_of(c),
{
    assert forall|j: int| 0 <= j < a.len() implies a[j] == c[j] by {
        assert(a[j] == b.subrange(0, a.len() as int)[j]);
        assert(b[j] == c.subrange(0, b.len() as int)[j]);
    }
    assert(a =~= c.subrange(0, a.len() as int));
}

proof fn lemma_prefix_push(a: Seq<Segment>, x: Segment)
    ensures
        a.is_prefix_of(a.push(x)),
{
    assert(a =~= a.push(x).subrange(0, a.len() as int));
}

/// One more move only adds segments after those already collected.
proof fn lemma_step_grows(st: CompressState, m: MicroStep)
    ensures
        st.0.is_prefix_of(compress_step(st, m).0),
{
    let (segments, pos, work) = st;
    lemma_prefix_push(segments, Segment::Close);
    let closed = segments.push(Segment::Close);
    lemma_prefix_push(closed, Segment::Move((crate::walk::node_of(m).1 - pos.1) as i16, (crate::walk::node_of(m).0 - pos.0) as i16));
    lemma_prefix_trans(segments, closed, closed.push(Segment::Move((crate::walk::node_of(m).1 - pos.1) as i16, (crate::walk::node_of(m).0 - pos.0) as i16)));
    match work {
        Some((true, l)) => lemma_prefix_push(segments, Segment::Horizontal(l as i16)),
        Some((false, l)) => lemma_prefix_push(segments, Segment::Vertical(l as i16)),
        None => assert(segments =~= segments.subrange(0, segments.len() as int)),
    }
}

proof fn lemma_state_grows(steps: Seq<MicroStep>, i: int)
    requires
        0 <= i <= steps.len(),
    ensures
        compress_state(steps.take(i)).0.is_prefix_of(compress_state(steps).0),
    decreases steps.len() - i,
{
    if i < steps.len() {
        lemma_state_grows(steps, i + 1);
        assert(steps.take(i + 1).drop_last() =~= steps.take(i));
        lemma_step_grows(compress_state(steps.take(i)), steps.take(i + 1).last());
        lemma_prefix_trans(
            compress_state(steps.take(i)).0,
            compress_state(steps.take(i + 1)).0,
            compress_state(steps).0,
        );
    } else {
        assert(steps.take(i) =~= steps);
        let a = compress_state(steps).0;
        assert(a =~= a.subrange(0, a.len() as int));
    }
}

proof fn lemma_spec_extends(steps: Seq<MicroStep>)
    ensures
        compress_state(steps).0.is_prefix_of(compress_spec(steps)),
{
    let (segments, _, work) = compress_state(steps);
    let flushed = flush_spec(segments, work);
    match work {
        Some((true, l)) => lemma_prefix_push(segments, Segment::Horizontal(l as i16)),
        Some((false, l)) => lemma_prefix_push(segments, Segment::Vertical(l as i16)),
        None => assert(segments =~= segments.subrange(0, segments.len() as int)),
    }
    if flushed.len() > 0 {
        lemma_prefix_push(flushed, Segment::Close);
        lemma_prefix_trans(segments, flushed, flushed.push(Segment::Close));
    }
}

/// The segments collected after the first `k` moves begin the segments of
/// the whole walk: later moves only add segments after them.
pub proof fn lemma_compress_prefix(steps: Seq<MicroStep>, k: int)
    requires
        0 <= k <= steps.len(),
    ensures
        compress_state(steps.take(k)).0.is_prefix_of(compress_spec(steps)),
{
    lemma_state_grows(steps, k);
    lemma_spec_extends(steps);
    lemma_prefix_trans(compress_state(steps.take(k)).0, compress_state(steps).0, compress_spec(steps));
}

/// A jump closes the subpath and moves the pen by the offset from the node
/// where the moves before it left the pen: the segments of the moves before
/// the jump are followed directly by `Close` and `Move`, so the run of lines
/// that led up to the jump gets no segment of its own.
pub proof fn lemma_compress_jump(steps: Seq<MicroStep>, k: int)
    requires
        0 <= k < steps.len(),
        steps[k] is Jump,
    ensures
        compress_state(steps.take(k)).0.push(Segment::Close).push(
            Segment::Move(
                (crate::walk::node_of(steps[k]).1 - crate::walk::node_before(steps, (0, 0), k).1) as i16,
                (crate::walk::node_of(steps[k]).0 - crate::walk::node_before(steps, (0, 0), k).0) as i16,
            ),
        ).is_prefix_of(compress_spec(steps)),
{
    lemma_state_grows(steps, k + 1);
    assert(steps.take(k + 1).drop_last() =~= steps.take(k));
    assert(steps.take(k + 1).last() == steps[k]);
    lemma_compress_pen(steps.take(k));
    if k > 0 {
        assert(steps.take(k)[k - 1] == steps[k - 1]);
    }
    lemma_spec_extends(steps);
    lemma_prefix_trans(compress_state(steps.take(k + 1)).0, compress_state(steps).0, compress_spec(steps));
}

/// How many of the moves are jumps.
pub open spec fn jump_count(steps: Seq<MicroStep>) -> nat
    decreases steps.len(),
{
    if steps.len() == 0 {
        0
    } else {
        jump_count(steps.drop_last()) + if steps.last() is Jump {
            1nat
        } else {
            0nat
        }
    }
}

/// How many of the segments close a subpath.
pub open spec fn close_count(s: Seq<Segment>) -> nat
    decreases s.len(),
{
    if s.len() == 0 {
        0
    } else {
        close_count(s.drop_last()) + if s.last() is Close {
            1nat
        } else {
            0nat
        }
    }
}

/// How many of the segments move the pen.
pub open spec fn move_count(s: Seq<Segment>) -> nat
    decreases s.len(),
{
    if s.len() == 0 {
        0
    } else {
        move_count(s.drop_last()) + if s.last() is Move {
            1nat
        } else {
            0nat
        }
    }
}

/// Every `Move` comes right after a `Close`.
pub open spec fn moves_after_closes(s: Seq<Segment>) -> bool {
    forall|i: int| 0 <= i < s.len() && #[trigger] s[i] is Move ==> i > 0 && s[i - 1] is Close
}

proof fn lemma_counts_push(s: Seq<Segment>, x: Segment)
    ensures
        close_count(s.push(x)) == close_count(s) + if x is Close {
            1nat
        } else {
            0nat
        },
        move_count(s.push(x)) == move_count(s) + if x is Move {
            1nat
        } else {
            0nat
        },
        moves_after_closes(s) && !(x is Move) ==> moves_after_closes(s.push(x)),
        moves_after_closes(s) && s.len() > 0 && s.last() is Close ==> moves_after_closes(s.push(x)),
{
    assert(s.push(x).drop_last() =~= s);
    let t = s.push(x);
    if moves_after_closes(s) {
        assert forall|i: int| 0 <= i < s.len() && #[trigger] t[i] is Move implies i > 0 && t[i - 1] is Close by {
            assert(t[i] == s[i]);
            if i > 0 {
                assert(t[i - 1] == s[i - 1]);
            }
        }
    }
}

proof fn lemma_flush_counts(segments: Seq<Segment>, work: Option<(bool, int)>)
    ensures
        close_count(flush_spec(segments, work)) == close_count(segments),
        move_count(flush_spec(segments, work)) == move_count(segments),
        moves_after_closes(segments) ==> moves_after_closes(flush_spec(segments, work)),
{
    match work {
        Some((true, l)) => lemma_counts_push(segments, Segment::Horizontal(l as i16)),
        Some((false, l)) => lemma_counts_push(segments, Segment::Vertical(l as i16)),
        None => {},
    }
}

proof fn lemma_state_counts(steps: Seq<MicroStep>)
    ensures
        close_count(compress_state(steps).0) == jump_count(steps),
        move_count(compress_state(steps).0) == jump_count(steps),
        moves_after_closes(compress_state(steps).0),
        steps.len() > 0 ==> compress_state(steps).2 is Some || compress_state(steps).0.len() > 0,
    decreases steps.len(),
{
    if steps.len() > 0 {
        let p = steps.drop_last();
        lemma_state_counts(p);
        let (segments, pos, work) = compress_state(p);
        lemma_flush_counts(segments, work);
        match steps.last() {
            MicroStep::Jump(n) => {
                let closed = segments.push(Segment::Close);
                lemma_counts_push(segments, Segment::Close);
                lemma_counts_push(
                    closed,
                    Segment::Move((n.1 - pos.1) as i16, (n.0 - pos.0) as i16),
                );
            },
            MicroStep::Step(_) => {},
        }
    }
}

/// Each jump gives one `Close` followed by one `Move`, and a path that is
/// not empty ends with one more `Close`.
pub proof fn lemma_compress_jumps(steps: Seq<MicroStep>)
    ensures
        move_count(compress_spec(steps)) == jump_count(steps),
        steps.len() > 0 ==> close_count(compress_spec(steps)) == jump_count(steps) + 1,
        moves_after_closes(compress_spec(steps)),
{
    lemma_state_counts(steps);
    let (segments, _, work) = compress_state(steps);
    lemma_flush_counts(segments, work);
    let flushed = flush_spec(segments, work);
    if flushed.len() > 0 {
        lemma_counts_push(flushed, Segment::Close);
    }
}

pub open spec fn sgn(x: int) -> int {
    if x > 0 {
        1
    } else {
        -1
    }
}

/// No line goes straight back along the line just before it.
pub open spec fn no_reversal(steps: Seq<MicroStep>) -> bool {
    forall|i: int|
        1 <= i < steps.len() && #[trigger] steps[i] is Step && steps[i - 1] is Step
            ==> crate::walk::node_of(steps[i]) != crate::walk::node_before(steps, (0, 0), i - 1)
}

/// No horizontal or vertical segment has length zero.
pub open spec fn no_empty_lines(s: Seq<Segment>) -> bool {
    forall|i: int|
        0 <= i < s.len() ==> match #[trigger] s[i] {
            Segment::Horizontal(l) => l != 0,
            Segment::Vertical(l) => l != 0,
            _ => true,
        }
}

/// The prefix of the moves keeps their properties, and the pen positions
/// along it.
proof fn lemma_prefix_props(steps: Seq<MicroStep>)
    requires
        steps.len() > 0,
    ensures
        forall|i: int|
            0 <= i <= steps.len() - 1 ==> #[trigger] crate::walk::node_before(steps.drop_last(), (0, 0), i)
                == crate::walk::node_before(steps, (0, 0), i),
        unit_lines(steps) ==> unit_lines(steps.drop_last()),
        no_reversal(steps) ==> no_reversal(steps.drop_last()),
        compress_fits(steps) ==> compress_fits(steps.drop_last()) && step_fits(
            compress_state(steps.drop_last()),
            steps.last(),
        ),
        jump_count(steps) == 0 ==> jump_count(steps.drop_last()) == 0 && steps.last() is Step,
{
    let p = steps.drop_last();
    assert forall|i: int| 0 <= i <= steps.len() - 1 implies #[trigger] crate::walk::node_before(p, (0, 0), i)
        == crate::walk::node_before(steps, (0, 0), i) by {
        if i > 0 {
            assert(p[i - 1] == steps[i - 1]);
        }
    }
    if unit_lines(steps) {
        assert forall|i: int| 0 <= i < p.len() && p[i] is Step implies #[trigger] crate::walk::walk_edge(
            p,
            (0, 0),
            i,
        ) is Some by {
            assert(p[i] == steps[i]);
            assert(crate::walk::walk_edge(steps, (0, 0), i) is Some);
        }
    }
    if no_reversal(steps) {
        assert forall|i: int| 1 <= i < p.len() && #[trigger] p[i] is Step && p[i - 1] is Step
            implies crate::walk::node_of(p[i]) != crate::walk::node_before(p, (0, 0), i - 1) by {
            assert(p[i] == steps[i] && p[i - 1] == steps[i - 1]);
            assert(steps[i] is Step);
        }
    }
    if compress_fits(steps) {
        assert forall|i: int| 0 <= i < p.len() implies #[trigger] step_fits(compress_state(p.take(i)), p[i]) by {
            assert(p.take(i) =~= steps.take(i));
            assert(p[i] == steps[i]);
            assert(step_fits(compress_state(steps.take(i)), steps[i]));
        }
        let n = p.len() as int;
        assert(steps.take(n) =~= p);
        assert(step_fits(compress_state(steps.take(n)), steps[n]));
    }
}

/// A run that is being collected is not empty, fits in an `i16`, and ends
/// with a line in its own direction.
spec fn run_ok(steps: Seq<MicroStep>) -> bool {
    let (segments, pos, work) = compress_state(steps);
    &&& no_empty_lines(segments)
    &&& work matches Some((h, l)) ==> l != 0 && in_i16(l) && steps.len() > 0 && steps.last() is Step
        && crate::walk::node_before(steps, (0, 0), steps.len() - 1) == if h {
        (pos.0, pos.1 - sgn(l))
    } else {
        (pos.0 - sgn(l), pos.1)
    }
}

proof fn lemma_no_empty_push(s: Seq<Segment>, x: Segment)
    requires
        no_empty_lines(s),
        match x {
            Segment::Horizontal(l) => l != 0,
            Segment::Vertical(l) => l != 0,
            _ => true,
        },
    ensures
        no_empty_lines(s.push(x)),
{
    let t = s.push(x);
    assert forall|i: int| 0 <= i < t.len() implies match #[trigger] t[i] {
        Segment::Horizontal(l) => l != 0,
        Segment::Vertical(l) => l != 0,
        _ => true,
    } by {
        if i < s.len() {
            assert(t[i] == s[i]);
        }
    }
}

proof fn lemma_flush_no_empty(segments: Seq<Segment>, work: Option<(bool, int)>)
    requires
        no_empty_lines(segments),
        work matches Some((_, l)) ==> l != 0 && in_i16(l),
    ensures
        no_empty_lines(flush_spec(segments, work)),
{
    match work {
        Some((true, l)) => lemma_no_empty_push(segments, Segment::Horizontal(l as i16)),
        Some((false, l)) => lemma_no_empty_push(segments, Segment::Vertical(l as i16)),
        None => {},
    }
}

proof fn lemma_run_ok(steps: Seq<MicroStep>)
    requires
        unit_lines(steps),
        no_reversal(steps),
        compress_fits(steps),
    ensures
        run_ok(steps),
    decreases steps.len(),
{
    if steps.len() > 0 {
        let p = steps.drop_last();
        let k = p.len() as int;
        lemma_prefix_props(steps);
        lemma_run_ok(p);
        lemma_compress_pen(p);
        let (segments, pos, work) = compress_state(p);
        assert(pos == crate::walk::node_before(steps, (0, 0), k));
        lemma_flush_no_empty(segments, work);
        let m = steps.last();
        assert(m == steps[k]);
        match m {
            MicroStep::Jump(n) => {
                let closed = segments.push(Segment::Close);
                lemma_no_empty_push(segments, Segment::Close);
                lemma_no_empty_push(closed, Segment::Move((n.1 - pos.1) as i16, (n.0 - pos.0) as i16));
            },
            MicroStep::Step(n) => {
                assert(crate::walk::walk_edge(steps, (0, 0), k) is Some);
                if k > 0 && p.last() is Step {
                    assert(p.last() == steps[k - 1]);
                    assert(crate::walk::node_before(steps, (0, 0), k - 1) == crate::walk::node_before(p, (0, 0), k - 1));
                }
            },
        }
    }
}

/// A walk of lines between neighbouring nodes that never turns straight
/// back compresses to segments with no line of length zero and no two
/// neighbouring lines along the same axis.
pub proof fn lemma_compress_lines(steps: Seq<MicroStep>)
    requires
        unit_lines(steps),
        no_reversal(steps),
        compress_fits(steps),
    ensures
        no_empty_lines(compress_spec(steps)),
        runs_merged(compress_spec(steps)),
{
    lemma_run_ok(steps);
    lemma_compress_merges_runs(steps);
    let (segments, _, work) = compress_state(steps);
    lemma_flush_no_empty(segments, work);
    let flushed = flush_spec(segments, work);
    if flushed.len() > 0 {
        lemma_no_empty_push(flushed, Segment::Close);
    }
}

/// The sum of the lengths of the horizontal segments.
pub open spec fn h_sum(s: Seq<Segment>) -> int
    decreases s.len(),
{
    if s.len() == 0 {
        0
    } else {
        h_sum(s.drop_last()) + match s.last() {
            Segment::Horizontal(l) => l as int,
            _ => 0,
        }
    }
}

/// The sum of the lengths of the vertical segments.
pub open spec fn v_sum(s: Seq<Segment>) -> int
    decreases s.len(),
{
    if s.len() == 0 {
        0
    } else {
        v_sum(s.drop_last()) + match s.last() {
            Segment::Vertical(l) => l as int,
            _ => 0,
        }
    }
}

pub open spec fn abs(x: int) -> int {
    if x < 0 {
        -x
    } else {
        x
    }
}

/// The total length of the horizontal and vertical segments.
pub open spec fn line_total(s: Seq<Segment>) -> int
    decreases s.len(),
{
    if s.len() == 0 {
        0
    } else {
        line_total(s.drop_last()) + match s.last() {
            Segment::Horizontal(l) => abs(l as int),
            Segment::Vertical(l) => abs(l as int),
            _ => 0,
        }
    }
}

spec fn run_h(work: Option<(bool, int)>) -> int {
    match work {
        Some((true, l)) => l,
        _ => 0,
    }
}

spec fn run_v(work: Option<(bool, int)>) -> int {
    match work {
        Some((false, l)) => l,
        _ => 0,
    }
}

spec fn run_len(work: Option<(bool, int)>) -> int {
    match work {
        Some((_, l)) => abs(l),
        None => 0,
    }
}

proof fn lemma_sums_push(s: Seq<Segment>, x: Segment)
    ensures
        h_sum(s.push(x)) == h_sum(s) + match x {
            Segment::Horizontal(l) => l as int,
            _ => 0,
        },
        v_sum(s.push(x)) == v_sum(s) + match x {
            Segment::Vertical(l) => l as int,
            _ => 0,
        },
        line_total(s.push(x)) == line_total(s) + match x {
            Segment::Horizontal(l) => abs(l as int),
            Segment::Vertical(l) => abs(l as int),
            _ => 0,
        },
{
    assert(s.push(x).drop_last() =~= s);
}

proof fn lemma_flush_sums(segments: Seq<Segment>, work: Option<(bool, int)>)
    requires
        work matches Some((_, l)) ==> in_i16(l),
    ensures
        h_sum(flush_spec(segments, work)) == h_sum(segments) + run_h(work),
        v_sum(flush_spec(segments, work)) == v_sum(segments) + run_v(work),
        line_total(flush_spec(segments, work)) == line_total(segments) + run_len(work),
{
    match work {
        Some((true, l)) => lemma_sums_push(segments, Segment::Horizontal(l as i16)),
        Some((false, l)) => lemma_sums_push(segments, Segment::Vertical(l as i16)),
        None => {},
    }
}

proof fn lemma_state_sums(steps: Seq<MicroStep>)
    requires
        compress_fits(steps),
        jump_count(steps) == 0,
        unit_lines(steps),
    ensures
        ({
            let (segments, pos, work) = compress_state(steps);
            &&& h_sum(segments) + run_h(work) == pos.1
            &&& v_sum(segments) + run_v(work) == pos.0
            &&& work matches Some((_, l)) ==> in_i16(l)
            &&& no_reversal(steps) ==> line_total(segments) + run_len(work) == steps.len()
        }),
    decreases steps.len(),
{
    if steps.len() > 0 {
        let p = steps.drop_last();
        let k = p.len() as int;
        lemma_prefix_props(steps);
        lemma_state_sums(p);
        lemma_compress_pen(p);
        let (segments, pos, work) = compress_state(p);
        lemma_flush_sums(segments, work);
        let m = steps.last();
        assert(m == steps[k]);
        assert(crate::walk::walk_edge(steps, (0, 0), k) is Some);
        if no_reversal(steps) {
            lemma_run_ok(p);
            if k > 0 && p.last() is Step {
                assert(p.last() == steps[k - 1]);
                assert(crate::walk::node_before(steps, (0, 0), k - 1) == crate::walk::node_before(p, (0, 0), k - 1));
            }
        }
    }
}

/// For a walk without jumps whose lines join neighbouring nodes, the
/// horizontal lengths add up to the column, and the vertical lengths to the
/// row, of the node where the walk ends; when the walk never turns straight
/// back, the lengths of all lines add up to the number of moves.
pub proof fn lemma_compress_sums(steps: Seq<MicroStep>)
    requires
        compress_fits(steps),
        jump_count(steps) == 0,
        unit_lines(steps),
    ensures
        h_sum(compress_spec(steps)) == crate::walk::node_before(steps, (0, 0), steps.len() as int).1,
        v_sum(compress_spec(steps)) == crate::walk::node_before(steps, (0, 0), steps.len() as int).0,
        no_reversal(steps) ==> line_total(compress_spec(steps)) == steps.len(),
{
    lemma_state_sums(steps);
    lemma_compress_pen(steps);
    let (segments, _, work) = compress_state(steps);
    lemma_flush_sums(segments, work);
    let flushed = flush_spec(segments, work);
    if flushed.len() > 0 {
        lemma_sums_push(flushed, Segment::Close);
    }
}

pub open spec fn lo(x: int, y: int) -> int {
    if x <= y {
        x
    } else {
        y
    }
}

pub open spec fn hi(x: int, y: int) -> int {
    if x <= y {
        y
    } else {
        x
    }
}

/// The edges on the straight line between two nodes of one row or of one
/// column; none between nodes that share neither.
pub open spec fn line_edges(a: (int, int), b: (int, int)) -> Set<crate::walk::EdgeId> {
    if a.0 == b.0 {
        Set::new(|e: crate::walk::EdgeId| e.0 && e.1 == a.0 && lo(a.1, b.1) <= e.2 < hi(a.1, b.1))
    } else if a.1 == b.1 {
        Set::new(|e: crate::walk::EdgeId| !e.0 && e.2 == a.1 && lo(a.0, b.0) <= e.1 < hi(a.0, b.0))
    } else {
        Set::empty()
    }
}

/// The pen, the node where the current subpath started, and the edges
/// drawn, after drawing `segs` from node `(0, 0)`: a move lifts the pen to
/// start a new subpath, a horizontal or vertical segment draws a line, and
/// a close draws the line back to where the subpath started.
pub open spec fn drawing(segs: Seq<Segment>) -> ((int, int), (int, int), Set<crate::walk::EdgeId>)
    decreases segs.len(),
{
    if segs.len() == 0 {
        ((0, 0), (0, 0), Set::empty())
    } else {
        let (pen, start, drawn) = drawing(segs.drop_last());
        match segs.last() {
            Segment::Move(dx, dy) => (
                (pen.0 + dy, pen.1 + dx),
                (pen.0 + dy, pen.1 + dx),
                drawn,
            ),
            Segment::Horizontal(l) => (
                (pen.0, pen.1 + l),
                start,
                drawn + line_edges(pen, (pen.0, pen.1 + l)),
            ),
            Segment::Vertical(l) => (
                (pen.0 + l, pen.1),
                start,
                drawn + line_edges(pen, (pen.0 + l, pen.1)),
            ),
            Segment::Close => (start, start, drawn + line_edges(pen, start)),
        }
    }
}

/// The edges that the lines of the moves draw, starting at node `(0, 0)`.
pub open spec fn walk_edges(steps: Seq<MicroStep>) -> Set<crate::walk::EdgeId> {
    Set::new(
        |e: crate::walk::EdgeId|
            exists|i: int|
                0 <= i < steps.len() && crate::walk::walk_edge(steps, (0, 0), i) == Some(e),
    )
}

/// Where the run that is being collected started.
spec fn run_start(pos: (int, int), work: Option<(bool, int)>) -> (int, int) {
    match work {
        Some((true, l)) => (pos.0, pos.1 - l),
        Some((false, l)) => (pos.0 - l, pos.1),
        None => pos,
    }
}

proof fn lemma_line_unit(a: (int, int), b: (int, int))
    requires
        crate::walk::edge_between(a, b) is Some,
    ensures
        line_edges(a, b) == Set::<crate::walk::EdgeId>::empty().insert(
            crate::walk::edge_between(a, b)->0,
        ),
{
    assert(line_edges(a, b) =~= Set::<crate::walk::EdgeId>::empty().insert(
        crate::walk::edge_between(a, b)->0,
    ));
}

proof fn lemma_line_extend(a: (int, int), b: (int, int), c: (int, int))
    requires
        crate::walk::edge_between(b, c) is Some,
        (a.0 == b.0 && b.0 == c.0 && ((a.1 <= b.1 && c.1 == b.1 + 1) || (a.1 >= b.1 && c.1 == b.1
            - 1))) || (a.1 == b.1 && b.1 == c.1 && ((a.0 <= b.0 && c.0 == b.0 + 1) || (a.0 >= b.0
            && c.0 == b.0 - 1))),
    ensures
        line_edges(a, c) == line_edges(a, b).insert(crate::walk::edge_between(b, c)->0),
{
    if a == b {
        lemma_line_unit(b, c);
        assert(line_edges(a, b) =~= Set::<crate::walk::EdgeId>::empty());
        assert(line_edges(a, c) =~= line_edges(b, c));
    }
    assert(line_edges(a, c) =~= line_edges(a, b).insert(crate::walk::edge_between(b, c)->0));
}

/// Every jump comes where its subpath has come back to its start.
spec fn jumps_closed(steps: Seq<MicroStep>) -> bool {
    forall|j: int|
        0 <= j < steps.len() && #[trigger] steps[j] is Jump ==> crate::walk::node_before(
            steps,
            (0, 0),
            j,
        ) == crate::walk::subpath_start(steps, (0, 0), j)
}

spec fn draw_ok(steps: Seq<MicroStep>) -> bool {
    let (segments, pos, work) = compress_state(steps);
    let (pen, start, drawn) = drawing(segments);
    &&& start == crate::walk::subpath_start(steps, (0, 0), steps.len() as int)
    &&& pen == run_start(pos, work)
    &&& walk_edges(steps) == drawn + line_edges(pen, pos)
}

/// The edge that a move adds to what the walk has drawn.
spec fn added_edge(pos: (int, int), m: MicroStep) -> Set<crate::walk::EdgeId> {
    match m {
        MicroStep::Step(_) => Set::<crate::walk::EdgeId>::empty().insert(
            crate::walk::edge_between(pos, crate::walk::node_of(m))->0,
        ),
        MicroStep::Jump(_) => Set::empty(),
    }
}

proof fn lemma_walk_edges_last(steps: Seq<MicroStep>)
    requires
        steps.len() > 0,
        steps.last() is Step ==> crate::walk::walk_edge(steps, (0, 0), steps.len() - 1) is Some,
    ensures
        walk_edges(steps) == walk_edges(steps.drop_last()) + added_edge(
            crate::walk::node_before(steps, (0, 0), steps.len() - 1),
            steps.last(),
        ),
{
    let p = steps.drop_last();
    let k = p.len() as int;
    crate::walk::lemma_walk_edge_prefix(p, steps, (0, 0), k);
    assert(steps.last() == steps[k]);
    let added = added_edge(crate::walk::node_before(steps, (0, 0), k), steps.last());
    assert forall|e: crate::walk::EdgeId| walk_edges(steps).contains(e) implies (walk_edges(p)
        + added).contains(e) by {
        let i = choose|i: int|
            0 <= i < steps.len() && crate::walk::walk_edge(steps, (0, 0), i) == Some(e);
        if i < k {
            assert(crate::walk::walk_edge(p, (0, 0), i) == Some(e));
        }
    }
    assert forall|e: crate::walk::EdgeId| (walk_edges(p) + added).contains(e) implies walk_edges(
        steps,
    ).contains(e) by {
        if walk_edges(p).contains(e) {
            let i = choose|i: int| 0 <= i < p.len() && crate::walk::walk_edge(p, (0, 0), i) == Some(e);
            assert(crate::walk::walk_edge(steps, (0, 0), i) == Some(e));
        } else {
            assert(crate::walk::walk_edge(steps, (0, 0), k) == Some(e));
        }
    }
    assert(walk_edges(steps) =~= walk_edges(p) + added);
}

proof fn lemma_flush_drawing(segments: Seq<Segment>, pos: (int, int), work: Option<(bool, int)>)
    requires
        drawing(segments).0 == run_start(pos, work),
        work matches Some((_, l)) ==> in_i16(l),
    ensures
        drawing(flush_spec(segments, work)).0 == pos,
        drawing(flush_spec(segments, work)).1 == drawing(segments).1,
        drawing(flush_spec(segments, work)).2 == drawing(segments).2 + line_edges(
            run_start(pos, work),
            pos,
        ),
{
    let flushed = flush_spec(segments, work);
    match work {
        Some((true, l)) => {
            assert(flushed.drop_last() =~= segments);
        },
        Some((false, l)) => {
            assert(flushed.drop_last() =~= segments);
        },
        None => {
            assert(line_edges(pos, pos) =~= Set::<crate::walk::EdgeId>::empty());
        },
    }
    assert(drawing(flushed).2 =~= drawing(segments).2 + line_edges(run_start(pos, work), pos));
}

proof fn lemma_draw_jump(st: CompressState, m: MicroStep, start: (int, int))
    requires
        m is Jump,
        st.1 == start,
        drawing(st.0).0 == run_start(st.1, st.2),
        drawing(st.0).1 == start,
        step_fits(st, m),
    ensures
        drawing(compress_step(st, m).0).0 == run_start(compress_step(st, m).1, compress_step(st, m).2),
        drawing(compress_step(st, m).0).1 == crate::walk::node_of(m),
        drawing(compress_step(st, m).0).2 + line_edges(
            run_start(compress_step(st, m).1, compress_step(st, m).2),
            compress_step(st, m).1,
        ) == drawing(st.0).2 + line_edges(run_start(st.1, st.2), st.1),
{
    let (segments, pos, work) = st;
    let n = crate::walk::node_of(m);
    let closed = segments.push(Segment::Close);
    assert(closed.drop_last() =~= segments);
    let moved = closed.push(Segment::Move((n.1 - pos.1) as i16, (n.0 - pos.0) as i16));
    assert(moved.drop_last() =~= closed);
    assert(compress_step(st, m).0 == moved);
    assert(((n.1 - pos.1) as i16) as int == n.1 - pos.1);
    assert(((n.0 - pos.0) as i16) as int == n.0 - pos.0);
    assert(drawing(closed).0 == pos);
    assert(drawing(closed).1 == pos);
    assert(drawing(closed).2 == drawing(segments).2 + line_edges(run_start(pos, work), pos));
    assert(drawing(moved).0 == n);
    assert(drawing(moved).1 == n);
    assert(drawing(moved).2 == drawing(closed).2);
    assert(line_edges(n, n) =~= Set::<crate::walk::EdgeId>::empty());
    assert(drawing(moved).2 + line_edges(n, n) =~= drawing(segments).2 + line_edges(run_start(pos, work), pos));
}

proof fn lemma_draw_step(st: CompressState, m: MicroStep)
    requires
        m is Step,
        drawing(st.0).0 == run_start(st.1, st.2),
        step_fits(st, m),
        crate::walk::edge_between(st.1, crate::walk::node_of(m)) is Some,
        st.2 matches Some((h, l)) ==> l != 0 && in_i16(l) && crate::walk::node_of(m) != if h {
            (st.1.0, st.1.1 - sgn(l))
        } else {
            (st.1.0 - sgn(l), st.1.1)
        },
    ensures
        drawing(compress_step(st, m).0).0 == run_start(compress_step(st, m).1, compress_step(st, m).2),
        drawing(compress_step(st, m).0).1 == drawing(st.0).1,
        drawing(compress_step(st, m).0).2 + line_edges(
            run_start(compress_step(st, m).1, compress_step(st, m).2),
            compress_step(st, m).1,
        ) == drawing(st.0).2 + line_edges(run_start(st.1, st.2), st.1) + added_edge(st.1, m),
{
    let (segments, pos, work) = st;
    let nn = crate::walk::node_of(m);
    let next = compress_step(st, m);
    let pen = run_start(pos, work);
    if next.0 == segments {
        lemma_line_extend(pen, pos, nn);
        assert(drawing(segments).2 + line_edges(pen, nn) =~= drawing(segments).2 + line_edges(pen, pos)
            + added_edge(pos, m));
    } else {
        lemma_flush_drawing(segments, pos, work);
        lemma_line_unit(pos, nn);
    }
}

#[verifier::rlimit(50)]
proof fn lemma_draw_ok(steps: Seq<MicroStep>)
    requires
        unit_lines(steps),
        no_reversal(steps),
        compress_fits(steps),
        jumps_closed(steps),
    ensures
        draw_ok(steps),
    decreases steps.len(),
{
    if steps.len() == 0 {
        assert(walk_edges(steps) =~= Set::<crate::walk::EdgeId>::empty());
        assert(line_edges((0, 0), (0, 0)) =~= Set::<crate::walk::EdgeId>::empty());
        assert(walk_edges(steps) =~= Set::<crate::walk::EdgeId>::empty() + line_edges((0, 0), (0, 0)));
    } else {
        let p = steps.drop_last();
        let k = p.len() as int;
        lemma_prefix_props(steps);
        assert forall|j: int| 0 <= j < p.len() && #[trigger] p[j] is Jump implies crate::walk::node_before(
            p,
            (0, 0),
            j,
        ) == crate::walk::subpath_start(p, (0, 0), j) by {
            assert(p[j] == steps[j]);
            crate::walk::lemma_subpath_prefix(p, steps, (0, 0), j);
        }
        lemma_draw_ok(p);
        lemma_run_ok(p);
        lemma_compress_pen(p);
        crate::walk::lemma_subpath_prefix(p, steps, (0, 0), k);
        let st = compress_state(p);
        assert(st.1 == crate::walk::node_before(steps, (0, 0), k));
        let m = steps.last();
        assert(m == steps[k]);
        if m is Step {
            assert(crate::walk::walk_edge(steps, (0, 0), k) is Some);
        }
        lemma_walk_edges_last(steps);
        let next = compress_step(st, m);
        assert(compress_state(steps) == next);
        if m is Jump {
            lemma_draw_jump(st, m, crate::walk::subpath_start(steps, (0, 0), k));
            assert(walk_edges(p) + added_edge(st.1, m) =~= walk_edges(p));
        } else {
            if k > 0 && p.last() is Step {
                assert(p.last() == steps[k - 1]);
                assert(crate::walk::node_before(steps, (0, 0), k - 1) == crate::walk::node_before(
                    p,
                    (0, 0),
                    k - 1,
                ));
            }
            lemma_draw_step(st, m);
        }
        assert(walk_edges(steps) == drawing(next.0).2 + line_edges(run_start(next.1, next.2), next.1));
    }
}

/// A walk that draws no edge twice never turns straight back.
pub proof fn lemma_distinct_no_reversal(steps: Seq<MicroStep>)
    requires
        unit_lines(steps),
        forall|i: int, j: int|
            0 <= i < j < steps.len() && #[trigger] crate::walk::walk_edge(steps, (0, 0), i) is Some
                ==> crate::walk::walk_edge(steps, (0, 0), i) != #[trigger] crate::walk::walk_edge(
                steps,
                (0, 0),
                j,
            ),
    ensures
        no_reversal(steps),
{
    assert forall|i: int|
        1 <= i < steps.len() && #[trigger] steps[i] is Step && steps[i - 1] is Step implies crate::walk::node_of(
        steps[i],
    ) != crate::walk::node_before(steps, (0, 0), i - 1) by {
        assert(crate::walk::walk_edge(steps, (0, 0), i) is Some);
        assert(crate::walk::walk_edge(steps, (0, 0), i - 1) is Some);
        if crate::walk::node_of(steps[i]) == crate::walk::node_before(steps, (0, 0), i - 1) {
            assert(crate::walk::walk_edge(steps, (0, 0), i - 1) == crate::walk::walk_edge(steps, (0, 0), i));
        }
    }
}

/// Compressing a walk whose lines join neighbouring nodes and never turn
/// straight back, and whose subpaths are closed, draws exactly the edges
/// that the walk draws: each `Close` draws the run of lines that it stands
/// for.
pub proof fn lemma_compress_draws_walk(steps: Seq<MicroStep>)
    requires
        unit_lines(steps),
        no_reversal(steps),
        compress_fits(steps),
        crate::walk::subpaths_closed(steps, (0, 0)),
    ensures
        drawing(compress_spec(steps)).2 == walk_edges(steps),
{
    lemma_draw_ok(steps);
    lemma_run_ok(steps);
    lemma_compress_pen(steps);
    let (segments, pos, work) = compress_state(steps);
    let (pen, start, drawn) = drawing(segments);
    let flushed = flush_spec(segments, work);
    match work {
        Some((true, l)) => {
            assert(flushed.drop_last() =~= segments);
        },
        Some((false, l)) => {
            assert(flushed.drop_last() =~= segments);
        },
        None => {},
    }
    assert(drawing(flushed).0 == pos);
    assert(drawing(flushed).1 == start);
    assert(drawing(flushed).2 =~= drawn + line_edges(pen, pos));
    assert(pos == start);
    if flushed.len() > 0 {
        let out = flushed.push(Segment::Close);
        assert(out.drop_last() =~= flushed);
        assert(line_edges(pos, pos) =~= Set::<crate::walk::EdgeId>::empty());
        assert(drawing(out).2 =~= walk_edges(steps));
    } else {
        assert(line_edges(pos, pos) =~= Set::<crate::walk::EdgeId>::empty());
        assert(drawing(flushed).2 =~= walk_edges(steps));
    }
}

fn flush(segments: &mut Vec<Segment>, work: &mut Option<Work>)
    ensures
        final(segments)@ == flush_spec(old(segments)@, work_view(*old(work))),
        *final(work) == None::<Work>,
{
    if let Some(value) = work.take() {
        match value {
            Work::Horizontal(length) => segments.push(Segment::Horizontal(length)),
            Work::Vertical(length) => segments.push(Segment::Vertical(length)),
        }
    }
}

/// Path segments drawing the same lines as `steps`: every maximal run of
/// lines along one row or one column becomes one segment, and a jump closes
/// the subpath, in place of its last run, and moves the pen. Defined for
/// every walk whose numbers fit in an `i16`.
pub fn compress_path(steps: &[MicroStep]) -> (segments: Vec<Segment>)
    requires
        compress_fits(steps@),
    ensures
        segments@ == compress_spec(steps@),
        segments@.len() == 0 <==> steps@.len() == 0,
        segments@.len() > 0 ==> segments@.last() == Segment::Close,
{
    let mut segments: Vec<Segment> = Vec::new();
    let mut pos = (0i16, 0i16);
    let mut work: Option<Work> = None;
    let mut i: usize = 0;
    while i < steps.len()
        invariant
            compress_fits(steps@),
            i <= steps@.len(),
            compress_state(steps@.take(i as int)) == (segments@, (pos.0 as int, pos.1 as int), work_view(work)),
            i > 0 ==> (work is Some || segments@.len() > 0),
        decreases steps@.len() - i,
    {
        proof {
            assert(steps@.take(i + 1).drop_last() =~= steps@.take(i as int));
            assert(steps@.take(i + 1).last() == steps@[i as int]);
            assert(step_fits(compress_state(steps@.take(i as int)), steps@[i as int]));
        }
        match steps[i] {
            MicroStep::Step((row, col)) => {
                match work {
                    Some(Work::Horizontal(length)) if row == pos.0 => {
                        work = Some(Work::Horizontal(length + (col - pos.1)));
                    },
                    Some(Work::Vertical(length)) if col == pos.1 => {
                        work = Some(Work::Vertical(length + (row - pos.0)));
                    },
                    _ => {
                        flush(&mut segments, &mut work);
                        work = if row == pos.0 {
                            Some(Work::Horizontal(col - pos.1))
                        } else {
                            Some(Work::Vertical(row - pos.0))
                        };
                    },
                }
                pos = (row, col);
            },
            MicroStep::Jump((row, col)) => {
                work = None;
                segments.push(Segment::Close);
                segments.push(Segment::Move(col - pos.1, row - pos.0));
                pos = (row, col);
            },
        }
        i += 1;
    }
    proof {
        assert(steps@.take(steps@.len() as int) =~= steps@);
    }
    flush(&mut segments, &mut work);
    if !segments.is_empty() {
        segments.push(Segment::Close);
    }
    segments
}

} // verus!
