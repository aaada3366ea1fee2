//! Tracing the boundary graph as closed walks.
//!
//! The walk is built with Hierholzer's method: a closed loop is followed from
//! a start node, preferring to go straight, then left, then right, until it
//! comes back; at nodes passed with more than one way on, further loops are
//! spliced in; a piece of boundary that no loop reaches starts a new walk
//! after a [`MicroStep::Jump`].

use vstd::prelude::*;
use crate::geometry::Position;
use crate::graph::{build_graph, Graph, MAX_SIDE};
use crate::walk::MicroStep;

verus! {

/// The node lies on a grid of `width` by `height` cells.
pub open spec fn on_grid(n: (int, int), width: int, height: int) -> bool {
    0 <= n.0 <= height && 0 <= n.1 <= width
}

/// Exactly the nodes `s` and `e` have odd degree, and none when they coincide.
pub open spec fn parity_ok(g: Graph, s: (int, int), e: (int, int)) -> bool {
    forall|r: int, c: int|
        g.is_node(r, c) ==> (#[trigger] g.degree(r, c) % 2 == 1 <==> (s != e && ((r, c) == s || (r,
            c) == e)))
}

pub open spec fn all_even(g: Graph) -> bool {
    forall|r: int, c: int| g.is_node(r, c) ==> #[trigger] g.degree(r, c) % 2 == 0
}

pub open spec fn pair_spec(n: (i16, i16)) -> (int, int) {
    (n.0 as int, n.1 as int)
}

/// The edges still to draw, with room to spare: the fuel of the walk.
pub open spec fn fuel_of(g: Graph, slack: int) -> nat {
    (g.edge_count() + slack) as nat
}

pub open spec fn end_i16(p: Position) -> (i16, i16) {
    (p.end_spec().0 as i16, p.end_spec().1 as i16)
}

/// `out` is `v` with `items` put in before index `at`.
fn splice_at(v: &Vec<MicroStep>, at: usize, items: &Vec<MicroStep>) -> (out: Vec<MicroStep>)
    requires
        at <= v@.len(),
    ensures
        out@ == v@.take(at as int) + items@ + v@.skip(at as int),
{
    let mut out: Vec<MicroStep> = Vec::new();
    let mut i: usize = 0;
    while i < at
        invariant
            at <= v@.len(),
            i <= at,
            out@ == v@.take(i as int),
        decreases at - i,
    {
        out.push(v[i]);
        i += 1;
        assert(out@ =~= v@.take(i as int));
    }
    let mut j: usize = 0;
    while j < items.len()
        invariant
            at <= v@.len(),
            j <= items@.len(),
            out@ == v@.take(at as int) + items@.take(j as int),
        decreases items@.len() - j,
    {
        out.push(items[j]);
        j += 1;
        assert(out@ =~= v@.take(at as int) + items@.take(j as int));
    }
    assert(items@.take(items@.len() as int) =~= items@);
    let mut k: usize = at;
    while k < v.len()
        invariant
            at <= k <= v@.len(),
            out@ == v@.take(at as int) + items@ + v@.subrange(at as int, k as int),
        decreases v@.len() - k,
    {
        out.push(v[k]);
        k += 1;
        assert(out@ =~= v@.take(at as int) + items@ + v@.subrange(at as int, k as int));
    }
    assert(v@.subrange(at as int, v@.len() as int) =~= v@.skip(at as int));
    out
}

/// The outline of the set cells of a `width` by `height` bitmap, stored row
/// by row, as a sequence of pen moves through the boundary graph.
///
/// The moves are exactly [`crate::trace::euler_walk`]: loops that go
/// straight where they can, else turn left, else right, spliced in at the
/// first place of the newest loop that still has a way on, and jumps to the
/// undrawn edge of lowest rank. They start at the upper left corner of the
/// first set cell with a line along its top, and every edge of the outline
/// is drawn exactly once.
/// Each subpath comes back to where it started; a jump is always followed by
/// a line, and it goes to the outline edge of lowest rank (row-major by upper
/// left node, horizontal first) that is not drawn yet. A bitmap with no set
/// cell gives no moves.
#[verifier::rlimit(100)]
pub fn euler_steps(bits: &[bool], width: usize, height: usize) -> (elements: Vec<MicroStep>)
    requires
        width <= MAX_SIDE,
        height <= MAX_SIDE,
        bits@.len() >= width * height,
    ensures
        forall|i: int|
            0 <= i < elements@.len() ==> on_grid(
                crate::walk::node_of(#[trigger] elements@[i]),
                width as int,
                height as int,
            ),
        crate::walk::traces_outline(
            elements@,
            crate::walk::first_cell(bits@, width as int, height as int),
            bits@,
            width as int,
            height as int,
        ),
        crate::walk::subpaths_closed(
            elements@,
            crate::walk::first_cell(bits@, width as int, height as int),
        ),
        crate::walk::jumps_lead_to_lines(elements@),
        crate::walk::jumps_to_first_undrawn(
            elements@,
            crate::walk::first_cell(bits@, width as int, height as int),
            bits@,
            width as int,
            height as int,
        ),
        elements@ == crate::trace::euler_walk(bits@, width as int, height as int),
        elements@.len() == 0 <==> forall|r: int, c: int|
            !#[trigger] crate::graph::filled(bits@, width as int, height as int, r, c),
        elements@.len() > 0 ==> elements@[0] == MicroStep::Step(
            (
                crate::walk::first_cell(bits@, width as int, height as int).0 as i16,
                (crate::walk::first_cell(bits@, width as int, height as int).1 + 1) as i16,
            ),
        ),
{
    let mut graph = build_graph(bits, width, height);
    let ghost orig = graph;
    let ghost (wi, hi) = (width as int, height as int);
    proof {
        assert forall|r: int, c: int| graph.is_node(r, c) implies #[trigger] graph.degree(r, c) % 2
            == 0 by {
            crate::graph::lemma_boundary_even_degree(graph, bits@, wi, hi, r, c);
        }
        crate::graph::lemma_count_true_bound(graph.left@);
        crate::graph::lemma_count_true_bound(graph.top@);
        graph.lemma_idx(0, 0);
    }
    let first = graph.edge_left();
    let mut pos = match first {
        Some(pos) => pos,
        None => {
            proof {
                let e: Seq<MicroStep> = Seq::empty();
                crate::walk::lemma_jumps_empty(0);
                reveal(crate::walk::jumps_to_first_undrawn);
                crate::walk::lemma_walk_empty(crate::walk::first_cell(bits@, wi, hi), orig);
                assert forall|r: int, c: int| !#[trigger] orig.h_edge(r, c) && !orig.v_edge(r, c) by {
                    assert(graph.edge_count() == 0);
                    assert(!graph.h_edge(r, c));
                    assert(!graph.v_edge(r, c));
                }
                crate::walk::lemma_walk_outline(
                    e,
                    crate::walk::first_cell(bits@, wi, hi),
                    orig,
                    orig,
                    bits@,
                    wi,
                    hi,
                );
                crate::trace::lemma_boundary_edges(orig, bits@, wi, hi);
                assert(crate::trace::edges_of(graph) =~= crate::trace::edges_of(orig));
                assert forall|r: int, c: int| !#[trigger] graph.h_edge(r, c) && !graph.v_edge(r, c) by {
                    if graph.is_node(r, c) {
                        graph.lemma_idx(r, c);
                    }
                }
                crate::trace::lemma_no_first_edge(graph);
                if orig.edge_hint < orig.node_count() {
                    let x = orig.edge_hint as int;
                    let (r0, c0) = (x / (wi + 1), x % (wi + 1));
                    crate::arith::lemma_row_major_split(x, wi + 1, hi + 1);
                    assert(crate::graph::filled(bits@, wi, hi, r0, c0));
                    assert(orig.h_edge(r0, c0));
                }
            }
            return Vec::new();
        },
    };
    // The walk starts at the upper left corner of the first set cell.
    let ghost s0 = pos.start_spec();
    proof {
        let x = orig.edge_hint as int;
        let (r0, c0) = (x / (wi + 1), x % (wi + 1));
        assert(orig.edge_hint < orig.node_count()) by {
            if orig.edge_hint == orig.node_count() {
                assert(!crate::graph::filled(bits@, wi, hi, pos.row - 1, pos.col as int));
                assert(!crate::graph::filled(bits@, wi, hi, pos.row as int, pos.col - 1));
                assert(!crate::graph::filled(bits@, wi, hi, pos.row as int, pos.col as int));
                assert(orig.has_pos(pos));
            }
        }
        assert(crate::graph::is_first_filled(bits@, wi, hi, r0, c0));
        crate::arith::lemma_row_major_split(x, wi + 1, hi + 1);
        assert(orig.idx(r0, c0) == x);
        assert(orig.h_edge(r0, c0));
        let ip = orig.idx(pos.row as int, pos.col as int);
        orig.lemma_idx(pos.row as int, pos.col as int);
        if ip < x {
            assert(!orig.left@[ip]);
            assert(!orig.top@[ip]);
        }
        if x < ip {
            assert(!graph.h_edge(r0, c0));
        }
        orig.lemma_idx_injective(r0, c0, pos.row as int, pos.col as int);
        crate::walk::lemma_first_cell(bits@, wi, hi, r0, c0);
        assert(s0 == crate::walk::first_cell(bits@, wi, hi));
        assert(graph.h_edge(pos.row as int, pos.col as int));
        assert(pos.end_spec() == (s0.0, s0.1 + 1));
    }
    let ghost first_pos = pos;
    let ghost first_step = end_i16(pos);
    let ghost walk = crate::trace::euler_walk(bits@, wi, hi);
    let ghost slack: int = 2 * ((wi + 1) * (hi + 1)) + 1 - orig.edge_count();
    proof {
        crate::trace::lemma_boundary_edges(orig, bits@, wi, hi);
        assert(crate::trace::edges_of(graph) =~= crate::trace::edges_of(orig));
        graph.lemma_edge_ends(pos);
        crate::trace::lemma_first_edge(graph, pos);
        assert(graph.edge_count() == orig.edge_count());
        assert(walk == crate::trace::outer_walk(
            crate::trace::edges_of(graph),
            Seq::empty(),
            pos,
            0,
            wi,
            fuel_of(graph, slack),
        ));
    }
    let mut elements: Vec<MicroStep> = Vec::new();
    let mut alternatives: Vec<(usize, Position)> = Vec::new();
    let mut insert = 0usize;
    proof {
        assert forall|r: int, c: int| graph.is_node(r, c) implies #[trigger] graph.degree(r, c) % 2
            == 0 by {
            assert(orig.degree(r, c) % 2 == 0);
        }
        crate::walk::lemma_walk_empty(s0, orig);
        crate::walk::lemma_walk_same_edges(elements@, s0, orig, orig, graph);
        crate::walk::lemma_jumps_empty(0);
        crate::walk::lemma_ready_empty(s0, bits@, wi, hi, 0, pos);
    }

    loop
        invariant_except_break
            graph.wf(),
            graph.sub_of(orig),
            graph.w() == wi,
            graph.h() == hi,
            graph.edge_count() <= orig.edge_count(),
            all_even(graph),
            graph.has_pos(pos),
            insert <= elements@.len(),
            crate::walk::node_before(elements@, s0, insert as int) == pos.start_spec(),
            elements@.len() <= 2 * (orig.edge_count() - graph.edge_count()) + 1,
            alternatives@.len() == 0,
            crate::walk::jumps_lead_to_lines_or(elements@, insert as int),
            crate::walk::jumps_ready(elements@, s0, bits@, wi, hi, insert as int, pos),
            elements@.len() > 0 ==> insert > 0,
            elements@.len() == 0 ==> pos == first_pos,
            crate::trace::outer_walk(
                crate::trace::edges_of(graph),
                elements@,
                pos,
                insert,
                wi,
                fuel_of(graph, slack),
            ) == walk,
        invariant
            slack >= 1,
            first_step == end_i16(first_pos),
            first_pos.end_spec() == (s0.0, s0.1 + 1),
            elements@.len() > 0 ==> elements@[0] == MicroStep::Step(first_step),
            orig.wf(),
            orig.is_boundary_of(bits@, wi, hi),
            crate::walk::subpaths_closed(elements@, s0),
            orig.edge_count() <= 2 * orig.node_count(),
            orig.node_count() <= 32767 * 32767,
            crate::walk::walk_ok(elements@, s0, orig, graph),
            forall|i: int|
                0 <= i < elements@.len() ==> on_grid(
                    crate::walk::node_of(#[trigger] elements@[i]),
                    wi,
                    hi,
                ),
        ensures
            crate::walk::jumps_lead_to_lines(elements@),
            crate::walk::jumps_done(elements@, s0, bits@, wi, hi, elements@.len() as int),
            elements@.len() > 0,
            graph.wf(),
            graph.edge_hint == graph.node_count(),
            elements@ == walk,
        decreases graph.edge_count(),
    {
        let ghost outer_count = graph.edge_count();
        let ghost mid = crate::trace::splice_loops(
            crate::trace::edges_of(graph),
            elements@,
            pos,
            insert,
            fuel_of(graph, slack),
        );
        proof {
            crate::trace::lemma_outer_unfold(
                crate::trace::edges_of(graph),
                elements@,
                pos,
                insert,
                wi,
                fuel_of(graph, slack),
            );
        }
        loop
            invariant_except_break
                graph.has_pos(pos),
                insert <= elements@.len(),
                crate::walk::node_before(elements@, s0, insert as int) == pos.start_spec(),
                crate::walk::jumps_lead_to_lines_or(elements@, insert as int),
                crate::walk::jumps_ready(elements@, s0, bits@, wi, hi, insert as int, pos),
                elements@.len() > 0 ==> insert > 0,
                elements@.len() == 0 ==> pos == first_pos,
                crate::trace::splice_loops(
                    crate::trace::edges_of(graph),
                    elements@,
                    pos,
                    insert,
                    fuel_of(graph, slack),
                ) == mid,
            invariant
                slack >= 1,
                crate::trace::after_splice(mid, wi) == walk,
                first_step == end_i16(first_pos),
                first_pos.end_spec() == (s0.0, s0.1 + 1),
                orig.is_boundary_of(bits@, wi, hi),
                elements@.len() > 0 ==> elements@[0] == MicroStep::Step(first_step),
                graph.wf(),
                graph.sub_of(orig),
                orig.wf(),
                graph.w() == wi,
                graph.h() == hi,
                orig.edge_count() <= 2 * orig.node_count(),
                orig.node_count() <= 32767 * 32767,
                graph.edge_count() <= orig.edge_count(),
                all_even(graph),
                elements@.len() <= 2 * (orig.edge_count() - graph.edge_count()) + 1,
                alternatives@.len() == 0,
                graph.edge_count() <= outer_count,
                crate::walk::walk_ok(elements@, s0, orig, graph),
                crate::walk::subpaths_closed(elements@, s0),
                forall|i: int|
                    0 <= i < elements@.len() ==> on_grid(
                        crate::walk::node_of(#[trigger] elements@[i]),
                        wi,
                        hi,
                    ),
            ensures
                elements@.len() <= 2 * (orig.edge_count() - graph.edge_count()),
                graph.edge_count() < outer_count,
                crate::walk::jumps_lead_to_lines(elements@),
                crate::walk::jumps_done(elements@, s0, bits@, wi, hi, elements@.len() as int),
                elements@.len() > 0,
                (crate::trace::edges_of(graph), elements@, fuel_of(graph, slack)) == mid,
            decreases graph.edge_count(),
        {
            let mut local_loop: Vec<MicroStep> = Vec::new();
            let ghost old_elements = elements@;
            let ghost pos0 = pos;
            let insert_pos = insert;
            let ghost gl = graph;
            let ghost count0 = graph.edge_count();
            let ghost e_start = crate::trace::edges_of(graph);
            let ghost f_start = fuel_of(graph, slack);
            let ghost traced = crate::trace::first_loop(e_start, pos, insert, f_start);
            proof {
                graph.lemma_edge_ends(pos);
                crate::trace::lemma_splice_unfold(e_start, old_elements, pos, insert, f_start);
            }
            graph.remove_edge(pos);
            let start = pos.start_node();
            local_loop.push(MicroStep::Step(pos.end_node()));
            insert += 1;
            proof {
                assert forall|r: int, c: int| graph.is_node(r, c) implies (#[trigger] graph.degree(
                    r,
                    c,
                ) % 2 == 1 <==> (pair_spec(start) != pos.end_spec() && ((r, c) == pair_spec(start)
                    || (r, c) == pos.end_spec()))) by {
                    graph.lemma_without_degree(gl, pos, r, c);
                }
                assert(gl.sub_of(gl));
                crate::walk::lemma_walk_empty(pair_spec(start), gl);
                crate::walk::lemma_walk_push_step(
                    Seq::empty(),
                    pair_spec(start),
                    gl,
                    gl,
                    graph,
                    pos,
                );
                assert(local_loop@ =~= Seq::<MicroStep>::empty().push(
                    MicroStep::Step(end_i16(pos)),
                ));
                assert(graph.sub_of(gl));
                crate::trace::lemma_edges_without(graph, gl, pos);
                assert(local_loop@ =~= seq![MicroStep::Step(end_i16(pos))]);
                assert(alternatives@ =~= Seq::<(usize, Position)>::empty());
                assert(fuel_of(graph, slack) == (f_start - 1) as nat);
            }

            loop
                invariant_except_break
                    insert == insert_pos + local_loop@.len(),
                    pair_spec(start) != pos.end_spec(),
                    crate::trace::trace_loop(
                        crate::trace::edges_of(graph),
                        pos,
                        pos0.start_spec(),
                        insert,
                        local_loop@,
                        alternatives@,
                        fuel_of(graph, slack),
                    ) == traced,
                invariant
                    slack >= 1,
                    pair_spec(start) == pos0.start_spec(),
                    graph.wf(),
                    graph.sub_of(orig),
                    graph.sub_of(gl),
                    gl.sub_of(orig),
                    orig.wf(),
                    graph.w() == wi,
                    graph.h() == hi,
                    orig.edge_count() <= 2 * orig.node_count(),
                    orig.node_count() <= 32767 * 32767,
                    graph.edge_count() < orig.edge_count(),
                    graph.edge_count() < count0,
                    graph.is_node(pos.row as int, pos.col as int),
                    graph.is_node(start.0 as int, start.1 as int),
                    graph.is_node(pos.end_spec().0, pos.end_spec().1),
                    !graph.has_pos(pos),
                    parity_ok(graph, pair_spec(start), pos.end_spec()),
                    insert_pos <= elements@.len(),
                    elements@ == old_elements,
                    crate::walk::node_before(elements@, s0, insert_pos as int) == pair_spec(start),
                    crate::walk::walk_ok(elements@, s0, orig, gl),
                    crate::walk::walk_ok(local_loop@, pair_spec(start), gl, graph),
                    crate::walk::subpaths_closed(elements@, s0),
                    forall|k: int| 0 <= k < local_loop@.len() ==> #[trigger] local_loop@[k] is Step,
                    local_loop@[0] == MicroStep::Step(end_i16(pos0)),
                    crate::walk::jumps_lead_to_lines_or(elements@, insert_pos as int),
                    crate::walk::jumps_ready(elements@, s0, bits@, wi, hi, insert_pos as int, pos0),
                    crate::walk::node_of(local_loop@[0]) == pos0.end_spec(),
                    elements@.len() > 0 ==> insert_pos > 0,
                    elements@.len() == 0 ==> pos0 == first_pos,
                    first_step == end_i16(first_pos),
                    elements@.len() > 0 ==> elements@[0] == MicroStep::Step(first_step),
                    elements@.len() + local_loop@.len() <= 2 * (orig.edge_count()
                        - graph.edge_count()),
                    local_loop@.len() > 0,
                    local_loop@.last() == MicroStep::Step(end_i16(pos)),
                    forall|i: int|
                        0 <= i < elements@.len() ==> on_grid(
                            crate::walk::node_of(#[trigger] elements@[i]),
                            wi,
                            hi,
                        ),
                    forall|i: int|
                        0 <= i < local_loop@.len() ==> on_grid(
                            crate::walk::node_of(#[trigger] local_loop@[i]),
                            wi,
                            hi,
                        ),
                    forall|j: int|
                        0 <= j < alternatives@.len() ==> graph.is_node(
                            #[trigger] alternatives@[j].1.row as int,
                            alternatives@[j].1.col as int,
                        ),
                    forall|j: int|
                        0 <= j < alternatives@.len() ==> insert_pos < #[trigger] alternatives@[j].0
                            <= insert_pos + local_loop@.len() && crate::walk::node_of(
                            local_loop@[alternatives@[j].0 - insert_pos - 1],
                        ) == alternatives@[j].1.end_spec(),
                ensures
                    pair_spec(start) == pos.end_spec(),
                    (crate::trace::edges_of(graph), local_loop@, alternatives@, fuel_of(graph, slack))
                        == traced,
                decreases graph.edge_count(),
            {
                let ghost alts_before = alternatives@;
                let ghost pos_prev = pos;
                let ghost fuel_prev = fuel_of(graph, slack);
                let (new_pos, had_alternatives) = graph.follow(pos);
                if had_alternatives {
                    alternatives.push((insert, pos));
                }
                proof {
                    crate::trace::lemma_ways(graph, pos);
                    graph.lemma_ways_on(pos);
                    assert(graph.degree(pos.end_spec().0, pos.end_spec().1) % 2 == 1);
                }
                let next = new_pos.expect("boundary graph must have a continuation");
                proof {
                    crate::geometry::lemma_turns_start_at_end(pos);
                    graph.lemma_edge_ends(next);
                }
                let ghost prev_end = pos.end_spec();
                let ghost before = graph;
                let ghost local_before = local_loop@;
                proof {
                    assert(crate::trace::to_pos(before.first_way(pos)->0) == next);
                }
                pos = next;
                graph.remove_edge(pos);
                proof {
                    crate::trace::lemma_edges_without(graph, before, pos);
                    crate::trace::lemma_trace_unfold(
                        crate::trace::edges_of(before),
                        pos_prev,
                        pos0.start_spec(),
                        insert,
                        local_before,
                        alts_before,
                        fuel_prev,
                        (pos.row as int, pos.col as int, pos.dir),
                    );
                }
                let end = pos.end_node();
                local_loop.push(MicroStep::Step(end));
                proof {
                    assert forall|r: int, c: int| graph.is_node(r, c) implies (#[trigger] graph.degree(
                        r,
                        c,
                    ) % 2 == 1 <==> (pair_spec(start) != pos.end_spec() && ((r, c) == pair_spec(
                        start,
                    ) || (r, c) == pos.end_spec()))) by {
                        graph.lemma_without_degree(before, pos, r, c);
                        assert(before.degree(r, c) % 2 == 1 <==> ((r, c) == pair_spec(start) || (r,
                            c) == prev_end));
                    }
                    assert(crate::walk::node_before(
                        local_before,
                        pair_spec(start),
                        local_before.len() as int,
                    ) == prev_end);
                    crate::walk::lemma_walk_push_step(
                        local_before,
                        pair_spec(start),
                        gl,
                        before,
                        graph,
                        pos,
                    );
                    assert(local_loop@ == local_before.push(MicroStep::Step(end_i16(pos))));
                    assert forall|r: int, c: int| #[trigger] graph.h_edge(r, c) implies gl.h_edge(
                        r,
                        c,
                    ) && orig.h_edge(r, c) by {
                        assert(before.h_edge(r, c));
                    }
                    assert forall|r: int, c: int| #[trigger] graph.v_edge(r, c) implies gl.v_edge(
                        r,
                        c,
                    ) && orig.v_edge(r, c) by {
                        assert(before.v_edge(r, c));
                    }
                    assert forall|j: int|
                        0 <= j < alternatives@.len() implies insert_pos < #[trigger] alternatives@[j].0
                            <= insert_pos + local_loop@.len() && crate::walk::node_of(
                            local_loop@[alternatives@[j].0 - insert_pos - 1],
                        ) == alternatives@[j].1.end_spec() by {
                        let a = alternatives@[j].0 - insert_pos - 1;
                        assert(local_loop@[a] == local_before[a]);
                    }
                }
                if end.0 == start.0 && end.1 == start.1 {
                    break;
                }
                insert += 1;
            }

            elements = splice_at(&elements, insert_pos, &local_loop);
            proof {
                crate::walk::lemma_jumps_splice(old_elements, insert_pos as int, local_loop@);
                crate::walk::lemma_ready_splice(
                    old_elements,
                    s0,
                    bits@,
                    wi,
                    hi,
                    insert_pos as int,
                    local_loop@,
                    pos0,
                );
                if old_elements.len() == 0 {
                    assert(elements@[0] == local_loop@[0]);
                } else {
                    assert(elements@[0] == old_elements[0]);
                }
                crate::walk::lemma_closed_splice(
                    old_elements,
                    s0,
                    insert_pos as int,
                    local_loop@,
                    pair_spec(start),
                );
                crate::walk::lemma_walk_splice(
                    old_elements,
                    s0,
                    insert_pos as int,
                    local_loop@,
                    pair_spec(start),
                    orig,
                    gl,
                    graph,
                );
                assert forall|r: int, c: int| graph.is_node(r, c) implies #[trigger] graph.degree(
                    r,
                    c,
                ) % 2 == 0 by {
                    assert(!(graph.degree(r, c) % 2 == 1));
                }
                assert(elements@.len() == old_elements.len() + local_loop@.len());
                assert forall|j: int|
                    0 <= j < alternatives@.len() implies 0 < #[trigger] alternatives@[j].0
                        <= elements@.len() && crate::walk::node_before(
                        elements@,
                        s0,
                        alternatives@[j].0 as int,
                    ) == alternatives@[j].1.end_spec() by {
                    let a = alternatives@[j].0 as int;
                    assert(elements@[a - 1] == local_loop@[a - insert_pos - 1]);
                }
                assert forall|i: int|
                    0 <= i < elements@.len() implies on_grid(
                    crate::walk::node_of(#[trigger] elements@[i]),
                    wi,
                    hi,
                ) by {
                    if i < insert_pos {
                        assert(elements@[i] == old_elements[i]);
                    } else if i < insert_pos + local_loop@.len() {
                        assert(elements@[i] == local_loop@[i - insert_pos]);
                    } else {
                        assert(elements@[i] == old_elements[i - local_loop@.len()]);
                    }
                }
            }

            let ghost alts_found = alternatives@;
            proof {
                assert(alternatives@.skip(0) =~= alternatives@);
            }
            let mut found: Option<(usize, Position)> = None;
            let mut k: usize = 0;
            while k < alternatives.len() && found.is_none()
                invariant
                    graph.wf(),
                    k <= alternatives@.len(),
                    forall|j: int|
                        0 <= j < alternatives@.len() ==> graph.is_node(
                            #[trigger] alternatives@[j].1.row as int,
                            alternatives@[j].1.col as int,
                        ),
                    forall|j: int|
                        0 <= j < alternatives@.len() ==> 0 < #[trigger] alternatives@[j].0
                            <= elements@.len() && crate::walk::node_before(
                            elements@,
                            s0,
                            alternatives@[j].0 as int,
                        ) == alternatives@[j].1.end_spec(),
                    crate::walk::jumps_done(elements@, s0, bits@, wi, hi, insert_pos as int),
                    insert_pos <= elements@.len(),
                    forall|j: int|
                        0 <= j < alternatives@.len() ==> insert_pos < #[trigger] alternatives@[j].0,
                    found matches Some(f) ==> insert_pos < f.0,
                    found is None ==> crate::trace::first_alt(crate::trace::edges_of(graph), alternatives@)
                        == crate::trace::first_alt(
                        crate::trace::edges_of(graph),
                        alternatives@.skip(k as int),
                    ),
                    found matches Some(f) ==> crate::trace::first_alt(
                        crate::trace::edges_of(graph),
                        alternatives@,
                    ) == Some(f),
                    found matches Some(f) ==> graph.has_pos(f.1) && 0 < f.0 <= elements@.len()
                        && crate::walk::node_before(elements@, s0, f.0 as int) == f.1.start_spec(),
                decreases alternatives@.len() - k,
            {
                let (index, alternative) = alternatives[k];
                proof {
                    crate::trace::lemma_first_alt_unfold(crate::trace::edges_of(graph), alternatives@.skip(k as int));
                    crate::trace::lemma_ways(graph, alternative);
                    assert(alternatives@.skip(k as int)[0] == alternatives@[k as int]);
                    assert(alternatives@.skip(k as int).drop_first() =~= alternatives@.skip(k + 1));
                }
                if let Some(next) = graph.can_step(alternative) {
                    proof {
                        crate::geometry::lemma_turns_start_at_end(alternative);
                        assert(alternatives@[k as int].0 == index);
                    }
                    found = Some((index, next));
                }
                k += 1;
            }
            alternatives.clear();
            match found {
                Some((index, next)) => {
                    proof {
                        assert(crate::trace::first_alt(traced.0, traced.2) == Some((index, next)));
                        crate::walk::lemma_jumps_relax(elements@, index as int);
                        crate::walk::lemma_done_ready(
                            elements@,
                            s0,
                            bits@,
                            wi,
                            hi,
                            insert_pos as int,
                            index as int,
                            next,
                        );
                    }
                    pos = next;
                    insert = index;
                },
                None => {
                    proof {
                        assert(alts_found.skip(alts_found.len() as int) =~= Seq::<(usize, Position)>::empty());
                        crate::trace::lemma_first_alt_unfold(traced.0, alts_found.skip(alts_found.len() as int));
                        assert(crate::trace::first_alt(traced.0, traced.2) is None);
                        crate::walk::lemma_done_weaken(
                            elements@,
                            s0,
                            bits@,
                            wi,
                            hi,
                            insert_pos as int,
                            elements@.len() as int,
                        );
                    }
                    break;
                },
            }
        }

        let ghost before_next = graph;
        let next_edge = graph.edge_left();
        if next_edge.is_none() {
            proof {
                crate::walk::lemma_walk_same_edges(elements@, s0, orig, before_next, graph);
                assert(crate::trace::edges_of(graph) =~= crate::trace::edges_of(before_next));
                crate::trace::lemma_no_first_edge(graph);
            }
            break;
        }
        let next = next_edge.unwrap();
        proof {
            graph.lemma_edge_ends(next);
            assert forall|r: int, c: int| graph.is_node(r, c) implies #[trigger] graph.degree(r, c)
                % 2 == 0 by {
                assert(before_next.degree(r, c) % 2 == 0);
            }
            assert forall|r: int, c: int| #[trigger] graph.h_edge(r, c) implies orig.h_edge(r, c) by {
                assert(before_next.h_edge(r, c));
            }
            assert forall|r: int, c: int| #[trigger] graph.v_edge(r, c) implies orig.v_edge(r, c) by {
                assert(before_next.v_edge(r, c));
            }
            crate::walk::lemma_walk_same_edges(elements@, s0, orig, before_next, graph);
        }
        let jump_to = next.start_node();
        let ghost els_before = elements@;
        proof {
            let e0 = crate::walk::pos_edge(next);
            let len = els_before.len() as int;
            graph.lemma_idx(next.row as int, next.col as int);
            assert forall|f: crate::walk::EdgeId|
                crate::walk::boundary_edge(bits@, wi, hi, f) && crate::walk::edge_rank(f, wi)
                    < crate::walk::edge_rank(e0, wi) implies #[trigger] crate::walk::drawn_before(
                els_before,
                s0,
                len,
                f,
            ) by {
                assert(crate::walk::has_edge_id(orig, f));
                graph.lemma_idx(f.1, f.2);
                if graph.idx(f.1, f.2) == graph.idx(next.row as int, next.col as int) {
                    graph.lemma_idx_injective(f.1, f.2, next.row as int, next.col as int);
                }
                assert(!crate::walk::has_edge_id(graph, f));
            }
            assert(next.end_spec() == crate::walk::fresh_end(e0));
            crate::walk::lemma_ready_push_jump(els_before, s0, bits@, wi, hi, jump_to, next);
            assert(crate::trace::edges_of(graph) =~= crate::trace::edges_of(before_next));
            crate::trace::lemma_first_edge(graph, next);
            assert(jump_to == crate::trace::start_i16(next));
        }
        elements.push(MicroStep::Jump(jump_to));
        proof {
            crate::walk::lemma_walk_push_jump(els_before, s0, orig, graph, jump_to);
            crate::walk::lemma_closed_push_jump(els_before, s0, jump_to);
            assert(elements@ == els_before.push(MicroStep::Jump(jump_to)));
            crate::walk::lemma_jumps_push_jump(els_before, jump_to);
        }
        pos = next;
        insert = elements.len();
    }
    proof {
        assert forall|r: int, c: int| !#[trigger] graph.h_edge(r, c) && !graph.v_edge(r, c) by {
            if graph.is_node(r, c) {
                graph.lemma_idx(r, c);
            }
        }
        crate::walk::lemma_walk_outline(elements@, s0, orig, graph, bits@, wi, hi);
        crate::walk::lemma_done_weaken(
            elements@,
            s0,
            bits@,
            wi,
            hi,
            elements@.len() as int,
            elements@.len() as int,
        );
    }
    elements
}

} // verus!
