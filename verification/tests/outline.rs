use vanilla_aruco::euler::euler_steps;
use vanilla_aruco::graph::build_graph;
use vanilla_aruco::segments::{compress_path, Segment};
use vanilla_aruco::walk::MicroStep;

#[test]
fn simple_square_has_one_closed_path() {
    let steps = euler_steps(&[true], 1, 1);
    assert_eq!(
        compress_path(&steps),
        vec![
            Segment::Horizontal(1),
            Segment::Vertical(1),
            Segment::Horizontal(-1),
            Segment::Vertical(-1),
            Segment::Close,
        ]
    );
}

#[test]
fn euler_mini_2x2_one_component() {
    let steps = euler_steps(&[true, false, true, true], 2, 2);
    assert_eq!(
        compress_path(&steps),
        vec![
            Segment::Horizontal(1),
            Segment::Vertical(1),
            Segment::Horizontal(1),
            Segment::Vertical(1),
            Segment::Horizontal(-2),
            Segment::Vertical(-2),
            Segment::Close,
        ]
    );
}

#[test]
fn euler_mini_2x3_one_component() {
    let steps = euler_steps(&[true, false, true, true, true, false], 3, 2);
    assert_eq!(
        compress_path(&steps),
        vec![
            Segment::Horizontal(1),
            Segment::Vertical(1),
            Segment::Horizontal(2),
            Segment::Vertical(-1),
            Segment::Horizontal(-1),
            Segment::Vertical(2),
            Segment::Horizontal(-2),
            Segment::Vertical(-2),
            Segment::Close,
        ]
    );
}

#[test]
fn euler_mini_3x2_two_components() {
    let steps = euler_steps(&[true, true, false, false, false, true], 2, 3);
    assert_eq!(
        compress_path(&steps),
        vec![
            Segment::Horizontal(2),
            Segment::Vertical(1),
            Segment::Horizontal(-2),
            Segment::Close,
            Segment::Move(1, 2),
            Segment::Horizontal(1),
            Segment::Vertical(1),
            Segment::Horizontal(-1),
            Segment::Vertical(-1),
            Segment::Close,
        ]
    );
}

#[test]
fn empty_bitmap_has_no_path() {
    let steps = euler_steps(&[false; 6], 2, 3);
    assert!(compress_path(&steps).is_empty());
}

/// The edges that a sequence of moves draws, starting from `start`.
fn drawn_edges(steps: &[MicroStep], start: (i16, i16)) -> Vec<(bool, i16, i16)> {
    let mut at = start;
    let mut edges = Vec::new();
    for step in steps {
        match *step {
            MicroStep::Jump(to) => at = to,
            MicroStep::Step(to) => {
                let edge = if at.0 == to.0 {
                    assert_eq!((at.1 - to.1).abs(), 1);
                    (true, at.0, at.1.min(to.1))
                } else {
                    assert_eq!(at.1, to.1);
                    assert_eq!((at.0 - to.0).abs(), 1);
                    (false, at.0.min(to.0), at.1)
                };
                edges.push(edge);
                at = to;
            }
        }
    }
    edges
}

#[test]
fn every_outline_edge_is_drawn_once() {
    // A checkerboard corner, a hole and two separate pieces.
    let width = 5;
    let height = 4;
    let bits = [
        true, false, true, true, true,
        false, true, true, false, true,
        false, false, true, true, true,
        true, false, false, false, false,
    ];
    let steps = euler_steps(&bits, width, height);
    let mut drawn = drawn_edges(&steps, (0, 0));
    let count = drawn.len();
    drawn.sort();
    drawn.dedup();
    assert_eq!(drawn.len(), count);

    let filled = |r: i16, c: i16| {
        r >= 0 && c >= 0 && (r as usize) < height && (c as usize) < width && bits[r as usize * width + c as usize]
    };
    let mut expected = Vec::new();
    for r in 0..=height as i16 {
        for c in 0..=width as i16 {
            if filled(r - 1, c) != filled(r, c) {
                expected.push((true, r, c));
            }
            if filled(r, c - 1) != filled(r, c) {
                expected.push((false, r, c));
            }
        }
    }
    expected.sort();
    assert_eq!(drawn, expected);
}

#[test]
fn outline_starts_at_the_first_set_cell() {
    let steps = euler_steps(&[false, false, false, true], 2, 2);
    assert_eq!(steps, vec![
        MicroStep::Step((1, 2)),
        MicroStep::Step((2, 2)),
        MicroStep::Step((2, 1)),
        MicroStep::Step((1, 1)),
    ]);
}

#[test]
fn boundary_graph_edges_separate_set_from_clear_cells() {
    let mut graph = build_graph(&[true, false, true, true], 2, 2);
    assert_eq!(graph.edge_hint, 0);
    // Node indices run row by row over a 3 by 3 grid of nodes.
    assert_eq!(graph.top, vec![true, false, false, false, true, false, true, true, false]);
    assert_eq!(graph.left, vec![true, true, false, true, false, true, false, false, false]);
    let first = graph.edge_left().unwrap();
    assert_eq!((first.row, first.col), (0, 0));
}

#[test]
fn compressing_nothing_gives_nothing() {
    assert!(compress_path(&[]).is_empty());
}

#[test]
fn a_jump_closes_the_subpath_and_moves_the_pen() {
    let steps = [
        MicroStep::Step((0, 3)),
        MicroStep::Jump((5, 1)),
        MicroStep::Step((6, 1)),
        MicroStep::Step((7, 1)),
    ];
    assert_eq!(
        compress_path(&steps),
        vec![
            Segment::Close,
            Segment::Move(-2, 5),
            Segment::Vertical(2),
            Segment::Close,
        ]
    );
}

#[test]
fn outline_opens_along_the_top_of_the_first_set_cell() {
    let steps = euler_steps(&[false, false, false, false, false, true, true, false, true], 3, 3);
    assert_eq!(steps[0], MicroStep::Step((1, 3)));
}

#[test]
fn every_jump_is_followed_by_a_line() {
    let width = 5;
    let height = 4;
    let bits = [
        true, false, true, true, true,
        false, true, true, false, true,
        false, false, true, true, true,
        true, false, false, false, false,
    ];
    let steps = euler_steps(&bits, width, height);
    assert!(matches!(steps[0], MicroStep::Step(_)));
    assert!(matches!(steps[steps.len() - 1], MicroStep::Step(_)));
    for i in 0..steps.len() - 1 {
        if matches!(steps[i], MicroStep::Jump(_)) {
            assert!(matches!(steps[i + 1], MicroStep::Step(_)));
        }
    }
}

#[test]
fn one_piece_of_outline_may_take_two_subpaths() {
    // Every set cell touches the next one at a corner.
    let bits = [
        false, true, false,
        true, false, true,
        false, true, false,
        true, false, true,
        false, true, false,
    ];
    let steps = euler_steps(&bits, 3, 5);
    let s = MicroStep::Step;
    assert_eq!(steps, vec![
        s((0, 2)), s((1, 2)), s((1, 3)), s((2, 3)), s((2, 2)), s((2, 1)), s((2, 0)), s((1, 0)),
        s((1, 1)), s((1, 2)), s((2, 2)), s((3, 2)), s((4, 2)), s((5, 2)), s((5, 1)), s((4, 1)),
        s((3, 1)), s((2, 1)), s((1, 1)), s((0, 1)),
        MicroStep::Jump((3, 0)),
        s((3, 1)), s((3, 2)), s((3, 3)), s((4, 3)), s((4, 2)), s((4, 1)), s((4, 0)), s((3, 0)),
    ]);
}

#[test]
fn a_walk_may_leave_the_grid_origin_behind() {
    let steps = [
        MicroStep::Step((0, -1)),
        MicroStep::Step((-1, -1)),
        MicroStep::Step((-1, 0)),
        MicroStep::Step((0, 0)),
    ];
    assert_eq!(
        compress_path(&steps),
        vec![
            Segment::Horizontal(-1),
            Segment::Vertical(-1),
            Segment::Horizontal(1),
            Segment::Vertical(1),
            Segment::Close,
        ]
    );
}

#[test]
fn each_jump_gives_a_close_and_a_move() {
    let steps = [
        MicroStep::Step((0, 1)),
        MicroStep::Step((1, 1)),
        MicroStep::Jump((4, 4)),
        MicroStep::Step((4, 5)),
        MicroStep::Jump((-2, 3)),
        MicroStep::Step((-3, 3)),
        MicroStep::Step((-4, 3)),
    ];
    let segments = compress_path(&steps);
    assert_eq!(
        segments,
        vec![
            Segment::Horizontal(1),
            Segment::Close,
            Segment::Move(3, 3),
            Segment::Close,
            Segment::Move(-2, -6),
            Segment::Vertical(-2),
            Segment::Close,
        ]
    );
    let closes = segments.iter().filter(|s| **s == Segment::Close).count();
    let moves = segments.iter().filter(|s| matches!(s, Segment::Move(..))).count();
    assert_eq!((closes, moves), (3, 2));
}

#[test]
fn a_closed_walk_adds_up_to_nothing() {
    let steps = [
        MicroStep::Step((0, 1)),
        MicroStep::Step((0, 2)),
        MicroStep::Step((1, 2)),
        MicroStep::Step((1, 1)),
        MicroStep::Step((2, 1)),
        MicroStep::Step((2, 0)),
        MicroStep::Step((1, 0)),
        MicroStep::Step((0, 0)),
    ];
    let segments = compress_path(&steps);
    let mut h = 0i32;
    let mut v = 0i32;
    let mut total = 0i32;
    for s in &segments {
        match *s {
            Segment::Horizontal(l) => {
                assert_ne!(l, 0);
                h += l as i32;
                total += (l as i32).abs();
            }
            Segment::Vertical(l) => {
                assert_ne!(l, 0);
                v += l as i32;
                total += (l as i32).abs();
            }
            _ => {}
        }
    }
    assert_eq!((h, v, total), (0, 0, steps.len() as i32));
    assert_eq!(segments[segments.len() - 1], Segment::Close);
}

#[test]
fn the_segments_draw_the_outline() {
    let width = 5;
    let height = 4;
    let bits = [
        true, false, true, true, true,
        false, true, true, false, true,
        false, false, true, true, true,
        true, false, false, false, false,
    ];
    let segments = compress_path(&euler_steps(&bits, width, height));
    let mut pen = (0i16, 0i16);
    let mut start = pen;
    let mut drawn = Vec::new();
    let line = |from: (i16, i16), to: (i16, i16), drawn: &mut Vec<(bool, i16, i16)>| {
        if from.0 == to.0 {
            for c in from.1.min(to.1)..from.1.max(to.1) {
                drawn.push((true, from.0, c));
            }
        } else {
            assert_eq!(from.1, to.1);
            for r in from.0.min(to.0)..from.0.max(to.0) {
                drawn.push((false, r, from.1));
            }
        }
    };
    for s in &segments {
        match *s {
            Segment::Move(dx, dy) => {
                pen = (pen.0 + dy, pen.1 + dx);
                start = pen;
            }
            Segment::Horizontal(l) => {
                let to = (pen.0, pen.1 + l);
                line(pen, to, &mut drawn);
                pen = to;
            }
            Segment::Vertical(l) => {
                let to = (pen.0 + l, pen.1);
                line(pen, to, &mut drawn);
                pen = to;
            }
            Segment::Close => {
                line(pen, start, &mut drawn);
                pen = start;
            }
        }
    }
    drawn.sort();
    let count = drawn.len();
    drawn.dedup();
    assert_eq!(drawn.len(), count);
    let expected = drawn_edges(&euler_steps(&bits, width, height), (0, 0));
    let mut expected = expected;
    expected.sort();
    assert_eq!(drawn, expected);
}

#[test]
fn the_walk_goes_straight_through_a_shared_corner() {
    let steps = euler_steps(&[true, false, true, true, true, false], 3, 2);
    let s = MicroStep::Step;
    assert_eq!(steps, vec![
        s((0, 1)), s((1, 1)), s((1, 2)), s((1, 3)), s((0, 3)), s((0, 2)),
        s((1, 2)), s((2, 2)), s((2, 1)), s((2, 0)), s((1, 0)), s((0, 0)),
    ]);
}
