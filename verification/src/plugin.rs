//! From a marker request to the path segments of the marker's outline.
//!
//! The wire format is CBOR; turning bytes into a [`Request`] and a
//! [`Response`] into bytes is left to the caller. This module holds what
//! happens in between.

use vstd::prelude::*;
use crate::codeword::{decode_word, make_marker};
use crate::dictionary::{predefined_word, Dictionaries};
use crate::euler::euler_steps;
use crate::segments::{compress_path, Segment};
use crate::walk::MicroStep;

verus! {

/// The protocol version that requests and responses carry.
pub const VERSION: u8 = 1;

/// A request for the outline of one marker.
pub struct Request {
    pub version: u8,
    pub dictionary: String,
    pub id: u16,
    pub turns: u8,
}

/// One path segment as it is sent: `kind` 0 moves by `(dx, dy)`, 1 draws a
/// horizontal line of length `dx`, 2 a vertical line of length `dy`, and 3
/// closes the subpath.
pub struct WireSegment {
    pub kind: u8,
    pub dx: i16,
    pub dy: i16,
}

pub struct Response {
    pub version: u8,
    pub segments: Vec<WireSegment>,
}

pub open spec fn version_error() -> Seq<char> {
    "vanilla-aruco: unsupported CBOR request version"@
}

pub open spec fn wire_of(s: Segment) -> WireSegment {
    match s {
        Segment::Move(dx, dy) => WireSegment { kind: 0, dx, dy },
        Segment::Horizontal(length) => WireSegment { kind: 1, dx: length, dy: 0 },
        Segment::Vertical(length) => WireSegment { kind: 2, dx: 0, dy: length },
        Segment::Close => WireSegment { kind: 3, dx: 0, dy: 0 },
    }
}

/// The segments in the form that they are sent in.
pub fn wire_segments(segments: &[Segment]) -> (wire: Vec<WireSegment>)
    ensures
        wire@ == segments@.map_values(|s: Segment| wire_of(s)),
        wire@.len() == segments@.len(),
        forall|i: int|
            0 <= i < segments@.len() ==> match #[trigger] segments@[i] {
                Segment::Move(dx, dy) => wire@[i].kind == 0 && wire@[i].dx == dx && wire@[i].dy == dy,
                Segment::Horizontal(l) => wire@[i].kind == 1 && wire@[i].dx == l && wire@[i].dy == 0,
                Segment::Vertical(l) => wire@[i].kind == 2 && wire@[i].dx == 0 && wire@[i].dy == l,
                Segment::Close => wire@[i].kind == 3 && wire@[i].dx == 0 && wire@[i].dy == 0,
            },
{
    let mut wire: Vec<WireSegment> = Vec::new();
    let mut i: usize = 0;
    while i < segments.len()
        invariant
            i <= segments@.len(),
            wire@ == segments@.take(i as int).map_values(|s: Segment| wire_of(s)),
        decreases segments@.len() - i,
    {
        let w = match segments[i] {
            Segment::Move(dx, dy) => WireSegment { kind: 0, dx, dy },
            Segment::Horizontal(length) => WireSegment { kind: 1, dx: length, dy: 0 },
            Segment::Vertical(length) => WireSegment { kind: 2, dx: 0, dy: length },
            Segment::Close => WireSegment { kind: 3, dx: 0, dy: 0 },
        };
        wire.push(w);
        i += 1;
        proof {
            assert(wire@ =~= segments@.take(i as int).map_values(|s: Segment| wire_of(s)));
        }
    }
    proof {
        assert(segments@.take(segments@.len() as int) =~= segments@);
    }
    wire
}

/// The marker bitmap that a request asks for, or the message of the error
/// that it meets first.
pub open spec fn requested_marker(dicts: Dictionaries, request: Request) -> Result<(Seq<bool>, int), Seq<char>> {
    if request.version != VERSION {
        Err(version_error())
    } else if !dicts.has_word(request.dictionary@, request.id as int) {
        Err(crate::dictionary::unknown_message(request.dictionary@, request.id as nat))
    } else {
        let (f, _) = crate::dictionary::dictionary_entry(request.dictionary@)->0;
        let size = crate::dictionary::family_side(f);
        let word = dicts.table(f)[request.id as int]@;
        match crate::codeword::decode_spec(size, word, request.turns) {
            Err(e) => Err(e),
            Ok(bits) => Ok((crate::codeword::marker_bits(bits, size as int), size + 2)),
        }
    }
}

/// The edges of the outline of the set cells of a `side` by `side` bitmap.
pub open spec fn outline_edges(marker: Seq<bool>, side: int) -> Set<crate::walk::EdgeId> {
    Set::new(|e: crate::walk::EdgeId| crate::walk::boundary_edge(marker, side, side, e))
}

/// `segments` is what compressing some outline walk of a `side` by `side`
/// bitmap gives, in wire form: a walk that starts along the top of the
/// upper left cell, whose subpaths are closed, in which every jump is
/// followed by a line, and which draws every edge of the outline exactly
/// once; the segments themselves draw exactly the edges of the outline.
pub open spec fn outline_segments(marker: Seq<bool>, side: int, segments: Seq<WireSegment>) -> bool {
    exists|steps: Seq<MicroStep>|
        crate::walk::traces_outline(
            steps,
            crate::walk::first_cell(marker, side, side),
            marker,
            side,
            side,
        ) && crate::walk::subpaths_closed(steps, crate::walk::first_cell(marker, side, side))
            && crate::walk::jumps_lead_to_lines(steps) && steps.len() > 0 && steps[0]
            == MicroStep::Step((0, 1)) && crate::segments::drawing(
            crate::segments::compress_spec(steps),
        ).2 == outline_edges(marker, side) && segments == crate::segments::compress_spec(steps).map_values(
            |s: Segment| wire_of(s),
        )
}

/// The segments begin with the frame of a `side` by `side` marker, drawn
/// clockwise from its upper left corner: right by `side`, down by `side`,
/// left by `side`.
pub open spec fn frame_first(side: int, segments: Seq<WireSegment>) -> bool {
    &&& segments.len() >= 3
    &&& segments[0] == (WireSegment { kind: 1, dx: side as i16, dy: 0 })
    &&& segments[1] == (WireSegment { kind: 2, dx: 0, dy: side as i16 })
    &&& segments[2] == (WireSegment { kind: 1, dx: (-side) as i16, dy: 0 })
}

/// No two neighbouring wire segments are lines along the same axis.
pub open spec fn wire_runs_merged(segments: Seq<WireSegment>) -> bool {
    forall|i: int|
        0 <= i < segments.len() - 1 ==> !(#[trigger] segments[i].kind == 1 && segments[i + 1].kind
            == 1) && !(segments[i].kind == 2 && segments[i + 1].kind == 2)
}

/// The response to a request: the outline of the requested marker as path
/// segments.
pub fn generate_response(dicts: &Dictionaries, request: &Request) -> (r: Result<Response, String>)
    requires
        dicts.wf(),
    ensures
        match requested_marker(*dicts, *request) {
            Err(m) => r matches Err(e) && e@ == m,
            Ok((marker, side)) => r matches Ok(response) && response.version == VERSION
                && outline_segments(marker, side, response.segments@) && wire_runs_merged(
                response.segments@,
            ) && frame_first(side, response.segments@) && response.segments@
                == crate::segments::compress_spec(
                crate::trace::euler_walk(marker, side, side),
            ).map_values(|s: Segment| wire_of(s)),
        },
{
    if request.version != VERSION {
        return Err(String::from_str("vanilla-aruco: unsupported CBOR request version"));
    }
    let (size, word) = match predefined_word(dicts, request.dictionary.as_str(), request.id) {
        Ok(found) => found,
        Err(e) => return Err(e),
    };
    let bits = match decode_word(size, word, request.turns) {
        Ok(bits) => bits,
        Err(e) => return Err(e),
    };
    let (marker, width, height) = make_marker(bits.as_slice(), size);
    let steps = euler_steps(marker.as_slice(), width, height);
    proof {
        assert forall|i: int| 0 <= i < steps@.len() implies #[trigger] crate::walk::node_of(
            steps@[i],
        ).0 >= 0 && crate::walk::node_of(steps@[i]).1 >= 0 by {
            assert(crate::euler::on_grid(crate::walk::node_of(steps@[i]), width as int, height as int));
        }
        crate::segments::lemma_nonnegative_fits(steps@);
    }
    let segments = compress_path(steps.as_slice());
    proof {
        let (w, m) = (width as int, marker@);
        crate::arith::lemma_row_major_div_mod(0, 0, w);
        assert(w * w > 0) by (nonlinear_arith)
            requires
                w > 0,
        ;
        assert(m[0] == crate::codeword::marker_cell(bits@, size as int, 0, 0));
        assert(crate::graph::is_first_filled(m, w, w, 0, 0));
        crate::walk::lemma_first_cell(m, w, w, 0, 0);
        assert(crate::graph::filled(m, w, w, 0, 0));
        assert(steps@.len() > 0);
        assert forall|i: int|
            0 <= i < steps@.len() && steps@[i] is Step implies #[trigger] crate::walk::walk_edge(
            steps@,
            (0, 0),
            i,
        ) is Some by {}
        crate::segments::lemma_compress_merges_runs(steps@);
        crate::segments::lemma_distinct_no_reversal(steps@);
        crate::segments::lemma_compress_draws_walk(steps@);
        assert(crate::segments::walk_edges(steps@) =~= outline_edges(m, w));
        crate::frame::lemma_marker_framed(bits@, size as int);
        crate::frame::lemma_walk_rounds_frame(steps@, m, w);
        crate::frame::lemma_frame_segments(steps@, w);
    }
    let wire = wire_segments(segments.as_slice());
    proof {
        let ws = wire@;
        assert forall|i: int| 0 <= i < ws.len() - 1 implies !(#[trigger] ws[i].kind == 1 && ws[i
            + 1].kind == 1) && !(ws[i].kind == 2 && ws[i + 1].kind == 2) by {
            assert(ws[i] == wire_of(segments@[i]));
            assert(ws[i + 1] == wire_of(segments@[i + 1]));
        }
        assert(ws[0] == wire_of(segments@[0]));
        assert(ws[1] == wire_of(segments@[1]));
        assert(ws[2] == wire_of(segments@[2]));
    }
    Ok(Response { version: VERSION, segments: wire })
}

/// The side of the marker that a request asks for.
pub open spec fn marker_side(dicts: Dictionaries, request: Request) -> int {
    let (_, side) = requested_marker(dicts, request)->Ok_0;
    side
}

/// The marker of a request that asks for no turn shows the requested word
/// unturned: data cell `(r, c)`, at marker cell `(r + 1, c + 1)`, is bit
/// `r * n + c` of the word, most significant bit of each byte first.
pub proof fn lemma_request_unturned(dicts: Dictionaries, request: Request, r: int, c: int)
    requires
        requested_marker(dicts, request) is Ok,
        request.turns == 0,
        0 <= r < marker_side(dicts, request) - 2,
        0 <= c < marker_side(dicts, request) - 2,
    ensures
        ({
            let (marker, side) = requested_marker(dicts, request)->Ok_0;
            let n = side - 2;
            let entry = crate::dictionary::dictionary_entry(request.dictionary@)->0;
            let word = dicts.table(entry.0)[request.id as int]@;
            marker[(r + 1) * side + c + 1] == (word[(r * n + c) / 8] & (128u8 >> (((r * n + c) % 8) as u8)) != 0u8)
        }),
{
    let (f, _) = crate::dictionary::dictionary_entry(request.dictionary@)->0;
    let size = crate::dictionary::family_side(f);
    let word = dicts.table(f)[request.id as int]@;
    crate::codeword::lemma_decode_cells(size, word, 0, r, c);
    let bits = crate::codeword::decode_spec(size, word, 0)->Ok_0;
    crate::codeword::lemma_marker_layout(bits, size as int);
}

/// One more quarter turn in a request turns the outlined marker's data one
/// quarter clockwise: data cell `(r, c)` of the marker for `turns + 1` is
/// data cell `(n - 1 - c, r)` of the marker for `turns`.
pub proof fn lemma_request_turn(
    dicts: Dictionaries,
    request: Request,
    turned: Request,
    r: int,
    c: int,
)
    requires
        requested_marker(dicts, request) is Ok,
        turned.version == request.version,
        turned.dictionary@ == request.dictionary@,
        turned.id == request.id,
        turned.turns == request.turns + 1,
        turned.turns <= 3,
        0 <= r < marker_side(dicts, request) - 2,
        0 <= c < marker_side(dicts, request) - 2,
    ensures
        requested_marker(dicts, turned) is Ok,
        marker_side(dicts, turned) == marker_side(dicts, request),
        ({
            let (before, side) = requested_marker(dicts, request)->Ok_0;
            let after = requested_marker(dicts, turned)->Ok_0.0;
            let n = side - 2;
            after[(r + 1) * side + c + 1] == before[(n - c) * side + r + 1]
        }),
{
    let (f, _) = crate::dictionary::dictionary_entry(request.dictionary@)->0;
    let size = crate::dictionary::family_side(f);
    let word = dicts.table(f)[request.id as int]@;
    crate::codeword::lemma_decode_cells(size, word, request.turns, r, c);
    crate::codeword::lemma_decode_cells(size, word, turned.turns, r, c);
    crate::codeword::lemma_decode_cells(size, word, request.turns, size - 1 - c, r);
    let b0 = crate::codeword::decode_spec(size, word, request.turns)->Ok_0;
    let b1 = crate::codeword::decode_spec(size, word, turned.turns)->Ok_0;
    crate::codeword::lemma_marker_layout(b0, size as int);
    crate::codeword::lemma_marker_layout(b1, size as int);
    assert(crate::codeword::marker_bits(b0, size as int)[(size - 1 - c + 1) * (size + 2) + r + 1]
        == b0[(size - 1 - c) * size + r]);
}

/// A request of the current version for a word that its dictionary has,
/// with at most three quarter turns, gets a marker whenever every table's
/// words hold the bits of their markers; the marker is `side + 2` cells
/// wide for a family of markers with `side` data cells per side.
pub proof fn lemma_request_succeeds(dicts: Dictionaries, request: Request)
    requires
        dicts.wf(),
        crate::dictionary::words_hold_markers(dicts),
        request.version == VERSION,
        dicts.has_word(request.dictionary@, request.id as int),
        request.turns <= 3,
    ensures
        requested_marker(dicts, request) is Ok,
        marker_side(dicts, request) == crate::dictionary::family_side(
            crate::dictionary::entry_family(request.dictionary@),
        ) + 2,
{
    let name = request.dictionary@;
    let (f, limit) = crate::dictionary::dictionary_entry(name)->0;
    let id = request.id as int;
    if let Some(k) = limit {
        crate::dictionary::lemma_limited_names(dicts, name, f, k, id);
    }
    assert(crate::dictionary::entry_family(name) == f);
    assert(id < dicts.table(f).len());
    crate::dictionary::lemma_word_holds_marker(dicts, name, id);
}

} // verus!
