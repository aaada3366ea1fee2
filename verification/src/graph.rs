//! The boundary graph of a bitmap and the walks through it.
//!
//! The graph has one node per cell corner. `top[idx(r, c)]` holds the
//! horizontal edge from node `(r, c)` to `(r, c + 1)`, `left[idx(r, c)]` the
//! vertical edge from node `(r, c)` to `(r + 1, c)`, with
//! `idx(r, c) = r * (width + 1) + c`.

use vstd::prelude::*;
use crate::geometry::{Direction, Position};

verus! {

/// The largest side, in cells, that a grid may have so that every node and
/// every neighbour of a node has `i16` coordinates.
pub const MAX_SIDE: usize = 32766;

/// How many entries of a sequence of flags are set.
pub open spec fn count_true(s: Seq<bool>) -> nat
    decreases s.len(),
{
    if s.len() == 0 {
        0
    } else {
        count_true(s.drop_last()) + if s.last() { 1nat } else { 0nat }
    }
}

/// Clearing a set flag lowers the count by one.
pub proof fn lemma_count_true_clear(s: Seq<bool>, i: int)
    requires
        0 <= i < s.len(),
        s[i],
    ensures
        count_true(s.update(i, false)) + 1 == count_true(s),
    decreases s.len(),
{
    let t = s.update(i, false);
    if i == s.len() - 1 {
        assert(t.drop_last() =~= s.drop_last());
    } else {
        assert(t.drop_last() =~= s.drop_last().update(i, false));
        lemma_count_true_clear(s.drop_last(), i);
    }
}

/// A sequence holds at most as many set flags as entries.
pub proof fn lemma_count_true_bound(s: Seq<bool>)
    ensures
        count_true(s) <= s.len(),
    decreases s.len(),
{
    if s.len() > 0 {
        lemma_count_true_bound(s.drop_last());
    }
}

/// A sequence with no set flag counts zero.
pub proof fn lemma_count_true_none(s: Seq<bool>)
    requires
        forall|i: int| 0 <= i < s.len() ==> !s[i],
    ensures
        count_true(s) == 0,
    decreases s.len(),
{
    if s.len() > 0 {
        lemma_count_true_none(s.drop_last());
    }
}

pub open spec fn b2i(b: bool) -> int {
    if b { 1 } else { 0 }
}

/// Whether cell `(r, c)` of a `width` by `height` bitmap, stored row by row,
/// is set. Cells outside the bitmap count as clear.
pub open spec fn filled(bits: Seq<bool>, width: int, height: int, r: int, c: int) -> bool {
    0 <= r < height && 0 <= c < width && bits[r * width + c]
}

/// Cell `(r1, c1)` comes before cell `(r2, c2)` in row-major order.
pub open spec fn cell_before(r1: int, c1: int, r2: int, c2: int) -> bool {
    r1 < r2 || (r1 == r2 && c1 < c2)
}

/// `(r0, c0)` is the first set cell of the bitmap in row-major order.
pub open spec fn is_first_filled(bits: Seq<bool>, width: int, height: int, r0: int, c0: int) -> bool {
    &&& filled(bits, width, height, r0, c0)
    &&& forall|r: int, c: int|
        #[trigger] filled(bits, width, height, r, c) ==> !cell_before(r, c, r0, c0)
}

spec fn processed(width: int, height: int, row: int, col: int, r: int, c: int) -> bool {
    0 <= r < height && 0 <= c < width && cell_before(r, c, row, col)
}

/// The vertical edges set once every cell before `(row, col)` has been looked at.
spec fn left_so_far(bits: Seq<bool>, width: int, height: int, row: int, col: int, r: int, c: int) -> bool {
    (processed(width, height, row, col, r, c) && filled(bits, width, height, r, c) && !filled(
        bits,
        width,
        height,
        r,
        c - 1,
    )) || (processed(width, height, row, col, r, c - 1) && filled(bits, width, height, r, c - 1)
        && !filled(bits, width, height, r, c))
}

/// The horizontal edges set once every cell before `(row, col)` has been looked at.
spec fn top_so_far(bits: Seq<bool>, width: int, height: int, row: int, col: int, r: int, c: int) -> bool {
    (processed(width, height, row, col, r, c) && filled(bits, width, height, r, c) && !filled(
        bits,
        width,
        height,
        r - 1,
        c,
    )) || (processed(width, height, row, col, r - 1, c) && filled(bits, width, height, r - 1, c)
        && !filled(bits, width, height, r, c))
}

pub struct Graph {
    pub left: Vec<bool>,
    pub top: Vec<bool>,
    pub width: i16,
    pub height: i16,
    /// No edge is stored at an index below this one.
    pub edge_hint: usize,
}

impl Graph {
    pub open spec fn w(self) -> int {
        self.width as int
    }

    pub open spec fn h(self) -> int {
        self.height as int
    }

    pub open spec fn idx(self, r: int, c: int) -> int {
        r * (self.w() + 1) + c
    }

    pub open spec fn node_count(self) -> int {
        (self.w() + 1) * (self.h() + 1)
    }

    pub open spec fn is_node(self, r: int, c: int) -> bool {
        0 <= r <= self.h() && 0 <= c <= self.w()
    }

    /// The horizontal edge from node `(r, c)` to node `(r, c + 1)`.
    pub open spec fn h_edge(self, r: int, c: int) -> bool {
        self.is_node(r, c) && self.top@[self.idx(r, c)]
    }

    /// The vertical edge from node `(r, c)` to node `(r + 1, c)`.
    pub open spec fn v_edge(self, r: int, c: int) -> bool {
        self.is_node(r, c) && self.left@[self.idx(r, c)]
    }

    /// The edge that a position names.
    pub open spec fn edge_at(self, r: int, c: int, dir: Direction) -> bool {
        if dir.is_horizontal() {
            self.h_edge(r, c)
        } else {
            self.v_edge(r, c)
        }
    }

    pub open spec fn has_pos(self, p: Position) -> bool {
        self.edge_at(p.row as int, p.col as int, p.dir)
    }

    pub open spec fn has_triple(self, t: (int, int, Direction)) -> bool {
        self.edge_at(t.0, t.1, t.2)
    }

    /// How many edges meet at node `(r, c)`.
    pub open spec fn degree(self, r: int, c: int) -> int {
        b2i(self.h_edge(r, c)) + b2i(self.h_edge(r, c - 1)) + b2i(self.v_edge(r, c)) + b2i(
            self.v_edge(r - 1, c),
        )
    }

    pub open spec fn edge_count(self) -> nat {
        count_true(self.left@) + count_true(self.top@)
    }

    /// Both graphs have the same size and the same edges.
    pub open spec fn same_edges(self, other: Graph) -> bool {
        &&& self.width == other.width
        &&& self.height == other.height
        &&& self.left@ == other.left@
        &&& self.top@ == other.top@
    }

    /// The edges are exactly the cell sides that separate a set cell of the
    /// bitmap from a clear one.
    pub open spec fn is_boundary_of(self, bits: Seq<bool>, width: int, height: int) -> bool {
        &&& self.w() == width
        &&& self.h() == height
        &&& forall|r: int, c: int|
            #[trigger] self.h_edge(r, c) == (self.is_node(r, c) && filled(bits, width, height, r - 1, c)
                != filled(bits, width, height, r, c))
        &&& forall|r: int, c: int|
            #[trigger] self.v_edge(r, c) == (self.is_node(r, c) && filled(bits, width, height, r, c - 1)
                != filled(bits, width, height, r, c))
    }

    pub open spec fn dims_ok(self) -> bool {
        &&& 0 <= self.w() <= MAX_SIDE
        &&& 0 <= self.h() <= MAX_SIDE
    }

    pub open spec fn wf(self) -> bool {
        &&& self.dims_ok()
        &&& self.left@.len() == self.node_count()
        &&& self.top@.len() == self.node_count()
        &&& self.edge_hint <= self.node_count()
        &&& forall|r: int| !#[trigger] self.h_edge(r, self.w())
        &&& forall|c: int| !#[trigger] self.v_edge(self.h(), c)
        &&& forall|i: int| 0 <= i < self.edge_hint ==> !#[trigger] self.left@[i]
        &&& forall|i: int| 0 <= i < self.edge_hint ==> !#[trigger] self.top@[i]
    }

    /// Nodes have distinct indices below `node_count`.
    pub proof fn lemma_idx(self, r: int, c: int)
        requires
            self.dims_ok(),
            self.is_node(r, c),
        ensures
            0 <= self.idx(r, c) < self.node_count(),
            self.node_count() <= 32767 * 32767,
            self.idx(r, c) / (self.w() + 1) == r,
            self.idx(r, c) % (self.w() + 1) == c,
    {
        crate::arith::lemma_row_major_bound(r, c, self.w() + 1, self.h() + 1);
        crate::arith::lemma_row_major_div_mod(r, c, self.w() + 1);
        let (w1, h1) = (self.w() + 1, self.h() + 1);
        assert(w1 * h1 <= 32767 * 32767) by (nonlinear_arith)
            requires
                0 < w1 <= 32767,
                0 < h1 <= 32767,
        ;
    }

    pub proof fn lemma_idx_injective(self, r1: int, c1: int, r2: int, c2: int)
        requires
            self.dims_ok(),
            self.is_node(r1, c1),
            self.is_node(r2, c2),
            self.idx(r1, c1) == self.idx(r2, c2),
        ensures
            r1 == r2,
            c1 == c2,
    {
        crate::arith::lemma_row_major_injective(r1, c1, r2, c2, self.w() + 1);
    }

    /// The first of the three ways on from the end of `pos` (straight, left
    /// turn, right turn) that is an edge of the graph.
    pub open spec fn first_way(self, pos: Position) -> Option<(int, int, Direction)> {
        if self.has_triple(pos.straight_spec()) {
            Some(pos.straight_spec())
        } else if self.has_triple(pos.left_spec()) {
            Some(pos.left_spec())
        } else if self.has_triple(pos.right_spec()) {
            Some(pos.right_spec())
        } else {
            None
        }
    }

    /// How many of the three ways on from the end of `pos` are edges.
    pub open spec fn ways_on(self, pos: Position) -> int {
        b2i(self.has_triple(pos.straight_spec())) + b2i(self.has_triple(pos.left_spec())) + b2i(
            self.has_triple(pos.right_spec()),
        )
    }

    /// `self` is `before` with the edge named by `p` taken out.
    pub open spec fn is_without(self, before: Graph, p: Position) -> bool {
        &&& self.width == before.width
        &&& self.height == before.height
        &&& forall|r: int, c: int|
            #[trigger] self.h_edge(r, c) == (before.h_edge(r, c) && !(p.dir.is_horizontal() && r
                == p.row && c == p.col))
        &&& forall|r: int, c: int|
            #[trigger] self.v_edge(r, c) == (before.v_edge(r, c) && !(!p.dir.is_horizontal() && r
                == p.row && c == p.col))
    }

    /// Every edge of `self` is an edge of `other`.
    pub open spec fn sub_of(self, other: Graph) -> bool {
        &&& self.width == other.width
        &&& self.height == other.height
        &&& forall|r: int, c: int| #[trigger] self.h_edge(r, c) ==> other.h_edge(r, c)
        &&& forall|r: int, c: int| #[trigger] self.v_edge(r, c) ==> other.v_edge(r, c)
    }

    /// The edges at the end node of `pos` are the edge of `pos` itself and
    /// the three ways on.
    pub proof fn lemma_ways_on(self, pos: Position)
        ensures
            self.degree(pos.end_spec().0, pos.end_spec().1) == self.ways_on(pos) + b2i(
                self.has_pos(pos),
            ),
    {
    }

    /// Both ends of an edge are nodes, and they differ.
    pub proof fn lemma_edge_ends(self, p: Position)
        requires
            self.wf(),
            self.has_pos(p),
        ensures
            self.is_node(p.row as int, p.col as int),
            self.is_node(p.start_spec().0, p.start_spec().1),
            self.is_node(p.end_spec().0, p.end_spec().1),
            p.start_spec() != p.end_spec(),
    {
        if p.dir.is_horizontal() {
            assert(!self.h_edge(p.row as int, self.w()));
        } else {
            assert(!self.v_edge(self.h(), p.col as int));
        }
    }

    /// Taking an edge out lowers the degree of its two ends by one each.
    pub proof fn lemma_without_degree(self, before: Graph, p: Position, r: int, c: int)
        requires
            self.is_without(before, p),
            before.has_pos(p),
        ensures
            self.degree(r, c) == before.degree(r, c) - b2i((r, c) == p.start_spec()) - b2i(
                (r, c) == p.end_spec(),
            ),
    {
        assert(self.h_edge(r, c) == (before.h_edge(r, c) && !(p.dir.is_horizontal() && r == p.row
            && c == p.col)));
        assert(self.h_edge(r, c - 1) == (before.h_edge(r, c - 1) && !(p.dir.is_horizontal() && r
            == p.row && c - 1 == p.col)));
        assert(self.v_edge(r, c) == (before.v_edge(r, c) && !(!p.dir.is_horizontal() && r == p.row
            && c == p.col)));
        assert(self.v_edge(r - 1, c) == (before.v_edge(r - 1, c) && !(!p.dir.is_horizontal() && r
            - 1 == p.row && c == p.col)));
    }

    pub fn index(&self, row: i16, col: i16) -> (r: usize)
        requires
            self.wf(),
            self.is_node(row as int, col as int),
        ensures
            r == self.idx(row as int, col as int),
            r < self.node_count(),
    {
        proof {
            self.lemma_idx(row as int, col as int);
            let (r, c, w1) = (row as int, col as int, self.w() + 1);
            assert(r * w1 <= r * w1 + c);
        }
        row as usize * (self.width as usize + 1) + col as usize
    }

    pub fn has_cell(&self, row: i16, col: i16) -> (r: bool)
        ensures
            r == self.is_node(row as int, col as int),
    {
        row >= 0 && row <= self.height && col >= 0 && col <= self.width
    }

    pub fn has_edge(&self, pos: Position) -> (r: bool)
        requires
            self.wf(),
        ensures
            r == self.has_pos(pos),
    {
        if !self.has_cell(pos.row, pos.col) {
            return false;
        }
        let index = self.index(pos.row, pos.col);
        match pos.dir {
            Direction::Left | Direction::Right => self.top[index],
            Direction::Up | Direction::Down => self.left[index],
        }
    }

    /// The first way on from the end of `pos`, if any.
    pub fn can_step(&self, pos: Position) -> (r: Option<Position>)
        requires
            self.wf(),
            pos.movable(),
        ensures
            match r {
                Some(p) => self.first_way(pos) == Some((p.row as int, p.col as int, p.dir)),
                None => self.first_way(pos) is None,
            },
    {
        let straight = pos.straight();
        if self.has_edge(straight) {
            return Some(straight);
        }
        let left = pos.left();
        if self.has_edge(left) {
            return Some(left);
        }
        let right = pos.right();
        if self.has_edge(right) {
            return Some(right);
        }
        None
    }

    /// The first way on from the end of `pos`, and whether there is another one.
    pub fn follow(&self, pos: Position) -> (r: (Option<Position>, bool))
        requires
            self.wf(),
            pos.movable(),
        ensures
            match r.0 {
                Some(p) => self.first_way(pos) == Some((p.row as int, p.col as int, p.dir)),
                None => self.first_way(pos) is None,
            },
            r.1 == (self.ways_on(pos) >= 2),
    {
        let mut found: Option<Position> = None;
        let mut alternatives = false;
        let candidates = [pos.straight(), pos.left(), pos.right()];
        let mut k: usize = 0;
        while k < 3
            invariant
                self.wf(),
                0 <= k <= 3,
                candidates@.len() == 3,
                candidates@[0].is(pos.straight_spec()),
                candidates@[1].is(pos.left_spec()),
                candidates@[2].is(pos.right_spec()),
                found is None <==> (forall|j: int| 0 <= j < k ==> !self.has_pos(candidates@[j])),
                found matches Some(p) ==> exists|j: int|
                    0 <= j < k && self.has_pos(candidates@[j]) && p == candidates@[j] && (forall|i: int|
                        0 <= i < j ==> !self.has_pos(candidates@[i])),
                alternatives == (b2i(k > 0 && self.has_pos(candidates@[0])) + b2i(
                    k > 1 && self.has_pos(candidates@[1]),
                ) + b2i(k > 2 && self.has_pos(candidates@[2])) >= 2),
            decreases 3 - k,
        {
            let candidate = candidates[k];
            if self.has_edge(candidate) {
                if found.is_none() {
                    found = Some(candidate);
                } else {
                    alternatives = true;
                }
            }
            k += 1;
        }
        (found, alternatives)
    }

    /// The first stored edge at or after `edge_hint`, walked rightwards when
    /// it is horizontal and upwards when it is vertical; the hint moves there.
    pub fn edge_left(&mut self) -> (r: Option<Position>)
        requires
            old(self).wf(),
        ensures
            final(self).wf(),
            final(self).same_edges(*old(self)),
            match r {
                None => final(self).edge_count() == 0 && final(self).edge_hint
                    == final(self).node_count() && forall|rr: int, cc: int|
                    !#[trigger] final(self).h_edge(rr, cc) && !final(self).v_edge(rr, cc),
                Some(p) => {
                    &&& final(self).edge_hint == final(self).idx(p.row as int, p.col as int)
                    &&& final(self).is_node(p.row as int, p.col as int)
                    &&& final(self).has_pos(p)
                    &&& (p.dir == Direction::Right || p.dir == Direction::Up)
                    &&& (p.dir == Direction::Right <==> final(self).h_edge(p.row as int, p.col as int))
                    &&& forall|rr: int, cc: int|
                        final(self).is_node(rr, cc) && final(self).idx(rr, cc) < final(self).idx(
                            p.row as int,
                            p.col as int,
                        ) ==> !#[trigger] final(self).h_edge(rr, cc) && !final(self).v_edge(rr, cc)
                },
            },
    {
        let ghost g0 = *self;
        let mut index = self.edge_hint;
        while index < self.left.len()
            invariant
                self.wf(),
                self.same_edges(g0),
                g0 == *old(self),
                g0.wf(),
                self.edge_hint == g0.edge_hint,
                g0.edge_hint <= index <= self.left@.len(),
                forall|i: int| 0 <= i < index ==> !#[trigger] self.left@[i],
                forall|i: int| 0 <= i < index ==> !#[trigger] self.top@[i],
            decreases self.left@.len() - index,
        {
            if self.left[index] || self.top[index] {
                self.edge_hint = index;
                let w1 = self.width as usize + 1;
                proof {
                    crate::arith::lemma_row_major_split(index as int, w1 as int, self.h() + 1);
                    assert(index as int == self.idx(index as int / w1 as int, index as int % w1 as int));
                }
                let row = (index / w1) as i16;
                let col = (index % w1) as i16;
                let dir = if self.top[index] {
                    Direction::Right
                } else {
                    Direction::Up
                };
                proof {
                    let g = *self;
                    assert(g.same_edges(g0));
                    assert forall|r: int| !#[trigger] g.h_edge(r, g.w()) by {
                        assert(!g0.h_edge(r, g0.w()));
                    }
                    assert forall|c: int| !#[trigger] g.v_edge(g.h(), c) by {
                        assert(!g0.v_edge(g0.h(), c));
                    }
                    assert(g.wf());
                    assert forall|rr: int, cc: int|
                        g.is_node(rr, cc) && g.idx(rr, cc) < g.idx(row as int, col as int) implies
                        !#[trigger] g.h_edge(rr, cc) && !g.v_edge(rr, cc) by {
                        g.lemma_idx(rr, cc);
                        let k = g.idx(rr, cc);
                        assert(!g.left@[k]);
                        assert(!g.top@[k]);
                    }
                }
                return Some(Position { row, col, dir });
            }
            index += 1;
        }
        self.edge_hint = self.left.len();
        proof {
            let g = *self;
            assert(g.same_edges(g0));
            assert forall|r: int| !#[trigger] g.h_edge(r, g.w()) by {
                assert(!g0.h_edge(r, g0.w()));
            }
            assert forall|c: int| !#[trigger] g.v_edge(g.h(), c) by {
                assert(!g0.v_edge(g0.h(), c));
            }
            assert(g.wf());
            assert forall|rr: int, cc: int|
                !#[trigger] g.h_edge(rr, cc) && !g.v_edge(rr, cc) by {
                if g.is_node(rr, cc) {
                    g.lemma_idx(rr, cc);
                    assert(!g.left@[g.idx(rr, cc)]);
                    assert(!g.top@[g.idx(rr, cc)]);
                }
            }
            lemma_count_true_none(g.left@);
            lemma_count_true_none(g.top@);
        }
        None
    }

    pub fn remove_edge(&mut self, pos: Position)
        requires
            old(self).wf(),
            old(self).is_node(pos.row as int, pos.col as int),
        ensures
            final(self).wf(),
            final(self).width == old(self).width,
            final(self).height == old(self).height,
            final(self).edge_hint == old(self).edge_hint,
            final(self).is_without(*old(self), pos),
            old(self).has_pos(pos) ==> final(self).edge_count() + 1 == old(self).edge_count(),
    {
        let index = self.index(pos.row, pos.col);
        let ghost g0 = *self;
        assert(g0.wf());
        match pos.dir {
            Direction::Left | Direction::Right => self.top.set(index, false),
            Direction::Up | Direction::Down => self.left.set(index, false),
        }
        proof {
            let g1 = *self;
            assert forall|r: int, c: int|
                #[trigger] g1.h_edge(r, c) == (g0.h_edge(r, c) && !(pos.dir.is_horizontal() && r
                    == pos.row && c == pos.col)) by {
                if g0.is_node(r, c) {
                    g0.lemma_idx(r, c);
                    if g0.idx(r, c) == index {
                        g0.lemma_idx_injective(r, c, pos.row as int, pos.col as int);
                    }
                }
            }
            assert forall|r: int, c: int|
                #[trigger] g1.v_edge(r, c) == (g0.v_edge(r, c) && !(!pos.dir.is_horizontal() && r
                    == pos.row && c == pos.col)) by {
                if g0.is_node(r, c) {
                    g0.lemma_idx(r, c);
                    if g0.idx(r, c) == index {
                        g0.lemma_idx_injective(r, c, pos.row as int, pos.col as int);
                    }
                }
            }
            assert forall|r: int| !#[trigger] g1.h_edge(r, g1.w()) by {
                assert(g1.h_edge(r, g1.w()) ==> g0.h_edge(r, g0.w()));
            }
            assert forall|c: int| !#[trigger] g1.v_edge(g1.h(), c) by {
                assert(g1.v_edge(g1.h(), c) ==> g0.v_edge(g0.h(), c));
            }
            assert forall|i: int| 0 <= i < g1.edge_hint implies !#[trigger] g1.left@[i] by {
                assert(!g0.left@[i]);
            }
            assert forall|i: int| 0 <= i < g1.edge_hint implies !#[trigger] g1.top@[i] by {
                assert(!g0.top@[i]);
            }
            if g0.has_pos(pos) {
                if pos.dir.is_horizontal() {
                    lemma_count_true_clear(g0.top@, index as int);
                } else {
                    lemma_count_true_clear(g0.left@, index as int);
                }
            }
        }
    }
}

/// Every node of a boundary graph has an even number of edges: going round
/// a node, the four cells around it change between set and clear an even
/// number of times.
pub proof fn lemma_boundary_even_degree(g: Graph, bits: Seq<bool>, width: int, height: int, r: int, c: int)
    requires
        g.is_boundary_of(bits, width, height),
        g.is_node(r, c),
    ensures
        g.degree(r, c) % 2 == 0,
{
    assert(g.h_edge(r, c) == (filled(bits, width, height, r - 1, c) != filled(bits, width, height, r, c)));
    assert(g.h_edge(r, c - 1) == (filled(bits, width, height, r - 1, c - 1) != filled(
        bits,
        width,
        height,
        r,
        c - 1,
    )));
    assert(g.v_edge(r, c) == (filled(bits, width, height, r, c - 1) != filled(bits, width, height, r, c)));
    assert(g.v_edge(r - 1, c) == (filled(bits, width, height, r - 1, c - 1) != filled(
        bits,
        width,
        height,
        r - 1,
        c,
    )));
}

/// The boundary graph of a `width` by `height` bitmap stored row by row.
pub fn build_graph(bits: &[bool], width: usize, height: usize) -> (g: Graph)
    requires
        width <= MAX_SIDE,
        height <= MAX_SIDE,
        bits@.len() >= width * height,
    ensures
        g.wf(),
        g.is_boundary_of(bits@, width as int, height as int),
        g.edge_hint < g.node_count() ==> is_first_filled(
            bits@,
            width as int,
            height as int,
            g.edge_hint as int / (width as int + 1),
            g.edge_hint as int % (width as int + 1),
        ),
        g.edge_hint == g.node_count() <==> forall|r: int, c: int|
            !#[trigger] filled(bits@, width as int, height as int, r, c),
{
    let ghost bs = bits@;
    let ghost (wi, hi) = (width as int, height as int);
    proof {
        assert((width + 1) * (height + 1) <= 32767 * 32767) by (nonlinear_arith)
            requires
                width <= MAX_SIDE,
                height <= MAX_SIDE,
        ;
    }
    let edge_count = (width + 1) * (height + 1);
    let mut graph = Graph {
        left: vec![false; edge_count],
        top: vec![false; edge_count],
        width: width as i16,
        height: height as i16,
        edge_hint: edge_count,
    };
    let mut hint: Option<usize> = None;
    let ghost mut first: (int, int) = (0, 0);
    assert forall|i: int| 0 <= i < edge_count implies !graph.left@[i] && !graph.top@[i] by {
        assert(cloned(false, graph.left@[i]));
        assert(cloned(false, graph.top@[i]));
    }
    assert forall|r: int, c: int| graph.is_node(r, c) implies !#[trigger] graph.left@[graph.idx(r, c)] by {
        graph.lemma_idx(r, c);
    }
    assert forall|r: int, c: int| graph.is_node(r, c) implies !#[trigger] graph.top@[graph.idx(r, c)] by {
        graph.lemma_idx(r, c);
    }
    assert(wi * hi == hi * wi) by (nonlinear_arith);
    let mut row: usize = 0;
    while row < height
        invariant
            0 <= row <= height,
            bs == bits@,
            wi == width,
            hi == height,
            width <= MAX_SIDE,
            height <= MAX_SIDE,
            bits@.len() >= width * height,
            bits@.len() >= hi * wi,
            edge_count == (width + 1) * (height + 1),
            graph.w() == wi,
            graph.h() == hi,
            graph.left@.len() == edge_count,
            graph.top@.len() == edge_count,
            graph.edge_hint == edge_count,
            forall|r: int, c: int|
                graph.is_node(r, c) ==> #[trigger] graph.left@[graph.idx(r, c)] == left_so_far(
                    bs,
                    wi,
                    hi,
                    row as int,
                    0,
                    r,
                    c,
                ),
            forall|r: int, c: int|
                graph.is_node(r, c) ==> #[trigger] graph.top@[graph.idx(r, c)] == top_so_far(
                    bs,
                    wi,
                    hi,
                    row as int,
                    0,
                    r,
                    c,
                ),
            hint is None <==> forall|r: int, c: int|
                processed(wi, hi, row as int, 0, r, c) ==> !#[trigger] filled(bs, wi, hi, r, c),
            hint matches Some(x) ==> {
                &&& x == first.0 * (wi + 1) + first.1
                &&& filled(bs, wi, hi, first.0, first.1)
                &&& forall|r: int, c: int|
                    #[trigger] filled(bs, wi, hi, r, c) && processed(wi, hi, row as int, 0, r, c)
                        ==> !cell_before(r, c, first.0, first.1)
            },
        decreases height - row,
    {
        let mut col: usize = 0;
        while col < width
            invariant
                0 <= col <= width,
                bs == bits@,
                wi == width,
                hi == height,
                width <= MAX_SIDE,
                height <= MAX_SIDE,
                row < height,
                bits@.len() >= width * height,
                bits@.len() >= hi * wi,
                edge_count == (width + 1) * (height + 1),
                graph.w() == wi,
                graph.h() == hi,
                graph.left@.len() == edge_count,
                graph.top@.len() == edge_count,
                graph.edge_hint == edge_count,
                forall|r: int, c: int|
                    graph.is_node(r, c) ==> #[trigger] graph.left@[graph.idx(r, c)] == left_so_far(
                        bs,
                        wi,
                        hi,
                        row as int,
                        col as int,
                        r,
                        c,
                    ),
                forall|r: int, c: int|
                    graph.is_node(r, c) ==> #[trigger] graph.top@[graph.idx(r, c)] == top_so_far(
                        bs,
                        wi,
                        hi,
                        row as int,
                        col as int,
                        r,
                        c,
                    ),
                hint is None <==> forall|r: int, c: int|
                    processed(wi, hi, row as int, col as int, r, c) ==> !#[trigger] filled(
                        bs,
                        wi,
                        hi,
                        r,
                        c,
                    ),
                hint matches Some(x) ==> {
                    &&& x == first.0 * (wi + 1) + first.1
                    &&& filled(bs, wi, hi, first.0, first.1)
                    &&& forall|r: int, c: int|
                        #[trigger] filled(bs, wi, hi, r, c) && processed(
                            wi,
                            hi,
                            row as int,
                            col as int,
                            r,
                            c,
                        ) ==> !cell_before(r, c, first.0, first.1)
                },
            decreases width - col,
        {
            proof {
                crate::arith::lemma_row_major_bound(row as int, col as int, wi, hi);
                assert(hi * wi <= 32767 * 32767) by (nonlinear_arith)
                    requires
                        0 <= wi <= MAX_SIDE,
                        0 <= hi <= MAX_SIDE,
                ;
                assert(row * width <= row * width + col);
                if col + 1 < width {
                    crate::arith::lemma_row_major_bound(row as int, col + 1, wi, hi);
                }
                if row + 1 < height {
                    crate::arith::lemma_row_major_bound(row + 1, col as int, wi, hi);
                }
                crate::arith::lemma_next_row(row as int, col as int, wi);
                crate::arith::lemma_next_row(row as int, col as int, wi + 1);
                graph.lemma_idx(row as int, col as int);
                if col + 1 <= width {
                    graph.lemma_idx(row as int, col + 1);
                }
                if row + 1 <= height {
                    graph.lemma_idx(row + 1, col as int);
                }
            }
            let index = row * width + col;
            let ghost g0 = graph;
            let ghost hint0 = hint;
            if bits[index] {
                let cell = row * (width + 1) + col;
                if hint.is_none() {
                    hint = Some(cell);
                    proof {
                        first = (row as int, col as int);
                    }
                }
                if col == 0 || !bits[index - 1] {
                    graph.left.set(cell, true);
                }
                if row == 0 || !bits[index - width] {
                    graph.top.set(cell, true);
                }
                if col == width - 1 || !bits[index + 1] {
                    graph.left.set(cell + 1, true);
                }
                if row == height - 1 || !bits[index + width] {
                    graph.top.set(cell + width + 1, true);
                }
            }
            proof {
                let (ro, co) = (row as int, col as int);
                assert(filled(bs, wi, hi, ro, co) == bits@[index as int]);
                assert forall|r: int, c: int| graph.is_node(r, c) implies #[trigger] graph.left@[graph.idx(r, c)]
                    == left_so_far(bs, wi, hi, ro, co + 1, r, c) by {
                    g0.lemma_idx(r, c);
                    if g0.idx(r, c) == g0.idx(ro, co) {
                        g0.lemma_idx_injective(r, c, ro, co);
                    }
                    if co + 1 <= wi && g0.idx(r, c) == g0.idx(ro, co + 1) {
                        g0.lemma_idx_injective(r, c, ro, co + 1);
                    }
                    assert(g0.left@[g0.idx(r, c)] == left_so_far(bs, wi, hi, ro, co, r, c));
                }
                assert forall|r: int, c: int| graph.is_node(r, c) implies #[trigger] graph.top@[graph.idx(r, c)]
                    == top_so_far(bs, wi, hi, ro, co + 1, r, c) by {
                    g0.lemma_idx(r, c);
                    if g0.idx(r, c) == g0.idx(ro, co) {
                        g0.lemma_idx_injective(r, c, ro, co);
                    }
                    if ro + 1 <= hi && g0.idx(r, c) == g0.idx(ro + 1, co) {
                        g0.lemma_idx_injective(r, c, ro + 1, co);
                    }
                    assert(g0.top@[g0.idx(r, c)] == top_so_far(bs, wi, hi, ro, co, r, c));
                }
                assert forall|r: int, c: int| #[trigger] filled(bs, wi, hi, r, c) && processed(wi, hi, ro, co + 1, r, c)
                    && hint matches Some(x) implies !cell_before(r, c, first.0, first.1) by {
                    if processed(wi, hi, ro, co, r, c) {
                        assert(hint0 is Some);
                    }
                }
            }
            col += 1;
        }
        proof {
            let ro = row as int;
            assert forall|r: int, c: int| graph.is_node(r, c) implies #[trigger] graph.left@[graph.idx(r, c)]
                == left_so_far(bs, wi, hi, ro + 1, 0, r, c) by {
                assert(graph.left@[graph.idx(r, c)] == left_so_far(bs, wi, hi, ro, wi, r, c));
            }
            assert forall|r: int, c: int| graph.is_node(r, c) implies #[trigger] graph.top@[graph.idx(r, c)]
                == top_so_far(bs, wi, hi, ro + 1, 0, r, c) by {
                assert(graph.top@[graph.idx(r, c)] == top_so_far(bs, wi, hi, ro, wi, r, c));
            }
        }
        row += 1;
    }
    let ghost gl = graph;
    assert forall|r: int, c: int| gl.is_node(r, c) implies #[trigger] gl.top@[gl.idx(r, c)] == top_so_far(
        bs,
        wi,
        hi,
        hi,
        0,
        r,
        c,
    ) && gl.left@[gl.idx(r, c)] == left_so_far(bs, wi, hi, hi, 0, r, c) by {
        assert(gl.left@[gl.idx(r, c)] == left_so_far(bs, wi, hi, row as int, 0, r, c));
        assert(gl.top@[gl.idx(r, c)] == top_so_far(bs, wi, hi, row as int, 0, r, c));
    }
    graph.edge_hint = match hint {
        Some(h) => h,
        None => edge_count,
    };
    proof {
        let g = graph;
        assert forall|r: int, c: int| #[trigger] g.h_edge(r, c) == (g.is_node(r, c) && filled(bs, wi, hi, r - 1, c)
            != filled(bs, wi, hi, r, c)) by {
            if g.is_node(r, c) {
                assert(gl.top@[gl.idx(r, c)] == top_so_far(bs, wi, hi, hi, 0, r, c));
            }
        }
        assert forall|r: int, c: int| #[trigger] g.v_edge(r, c) == (g.is_node(r, c) && filled(bs, wi, hi, r, c - 1)
            != filled(bs, wi, hi, r, c)) by {
            if g.is_node(r, c) {
                assert(gl.top@[gl.idx(r, c)] == top_so_far(bs, wi, hi, hi, 0, r, c));
            }
        }
        assert(g.is_boundary_of(bs, wi, hi));
        assert forall|r: int| !#[trigger] g.h_edge(r, g.w()) by {}
        assert forall|c: int| !#[trigger] g.v_edge(g.h(), c) by {}
        if hint is Some {
            g.lemma_idx(first.0, first.1);
        }
        assert(g.edge_hint <= g.node_count());
        if hint is Some {
            g.lemma_idx(first.0, first.1);
            assert forall|i: int|
                #![trigger g.left@[i]]
                #![trigger g.top@[i]]
                0 <= i < g.edge_hint implies !g.left@[i] && !g.top@[i] by {
                crate::arith::lemma_row_major_split(i, wi + 1, hi + 1);
                let (ri, ci) = (i / (wi + 1), i % (wi + 1));
                assert(g.idx(ri, ci) == i);
                crate::arith::lemma_row_major_order(ri, ci, first.0, first.1, wi + 1);
                assert(!filled(bs, wi, hi, ri, ci));
                assert(!filled(bs, wi, hi, ri - 1, ci));
                assert(!filled(bs, wi, hi, ri, ci - 1));
                assert(!g.h_edge(ri, ci));
                assert(!g.v_edge(ri, ci));
            }
            assert(is_first_filled(bs, wi, hi, first.0, first.1));
        } else {
            assert forall|i: int|
                #![trigger g.left@[i]]
                #![trigger g.top@[i]]
                0 <= i < g.edge_hint implies !g.left@[i] && !g.top@[i] by {
                crate::arith::lemma_row_major_split(i, wi + 1, hi + 1);
                let (ri, ci) = (i / (wi + 1), i % (wi + 1));
                assert(g.idx(ri, ci) == i);
                assert(!g.h_edge(ri, ci));
                assert(!g.v_edge(ri, ci));
            }
        }
    }
    assert(graph.wf());
    graph
}

} // verus!
