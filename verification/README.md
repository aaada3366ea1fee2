# vanilla_aruco

Vector outlines of ArUco fiducial markers, verified with Verus.

A request names an OpenCV dictionary, a marker id and a number of clockwise
quarter turns. The library decodes the dictionary word into a bitmap, frames
it with a black border, traces the outline of the black cells as closed
walks through the boundary graph that draw every outline edge once, and
compresses the walk into horizontal and vertical path segments that draw
exactly the outline.

Layout:

- `src/codeword.rs` – reading a word most significant bit first, rotation, the framed marker.
- `src/dictionary.rs` – dictionary names, their marker sizes and word limits.
- `src/geometry.rs`, `src/graph.rs` – oriented grid edges and the boundary graph.
- `src/walk.rs`, `src/euler.rs` – pen moves and the Eulerian trace of the outline.
- `src/trace.rs` – the walk that the trace draws, as a mathematical function.
- `src/segments.rs` – merging runs of moves into segments, and what the segments draw.
- `src/frame.rs` – a walk round the border of a framed bitmap.
- `src/plugin.rs` – from a request to the response segments.
- `app/lib.rs` – the CBOR entry point `generate_path`, using `ciborium` and `serde`.

The word tables of the dictionaries are data handed to the library in a
`Dictionaries` value.
