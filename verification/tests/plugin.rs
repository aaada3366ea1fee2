use vanilla_aruco::dictionary::Dictionaries;
use vanilla_aruco::plugin::{generate_response, wire_segments, Request, VERSION};
use vanilla_aruco::segments::Segment;

fn sample_dictionaries() -> Dictionaries {
    let table = |count: usize, bytes: usize| vec![vec![0u8; bytes]; count];
    let mut aruco_4x4 = table(1000, 2);
    aruco_4x4[0] = vec![181, 50];
    Dictionaries {
        aruco_original: table(1024, 4),
        aruco_4x4,
        aruco_5x5: table(1000, 4),
        aruco_6x6: table(1000, 5),
        aruco_7x7: table(1000, 7),
        aruco_mip_36h12: table(250, 5),
    }
}

fn request(dictionary: &str, id: u16, turns: u8) -> Request {
    Request { version: VERSION, dictionary: dictionary.to_string(), id, turns }
}

#[test]
fn plugin_wire_format_round_trips_response() {
    let dicts = sample_dictionaries();
    let response = generate_response(&dicts, &request("DICT_4X4_50", 0, 0)).unwrap();
    assert_eq!(response.version, VERSION);
    assert!(!response.segments.is_empty());
}

#[test]
fn blank_word_gives_the_frame_only() {
    // An all-clear word leaves only the black frame: an outer square and
    // the square hole inside it.
    let dicts = sample_dictionaries();
    let response = generate_response(&dicts, &request("DICT_4X4_50", 1, 2)).unwrap();
    let wire: Vec<(u8, i16, i16)> = response.segments.iter().map(|s| (s.kind, s.dx, s.dy)).collect();
    assert_eq!(
        wire,
        vec![
            (1, 6, 0),
            (2, 0, 6),
            (1, -6, 0),
            (3, 0, 0),
            (0, 1, 1),
            (1, 4, 0),
            (2, 0, 4),
            (1, -4, 0),
            (2, 0, -4),
            (3, 0, 0),
        ]
    );
}

#[test]
fn unsupported_version_is_refused() {
    let dicts = sample_dictionaries();
    let mut req = request("DICT_4X4_50", 0, 0);
    req.version = 2;
    assert_eq!(
        generate_response(&dicts, &req).err().unwrap(),
        "vanilla-aruco: unsupported CBOR request version"
    );
}

#[test]
fn request_errors_pass_through() {
    let dicts = sample_dictionaries();
    assert_eq!(
        generate_response(&dicts, &request("DICT_4X4_50", 50, 0)).err().unwrap(),
        "vanilla-aruco: unknown dictionary or invalid marker id: DICT_4X4_50 50"
    );
    assert_eq!(
        generate_response(&dicts, &request("DICT_4X4_50", 0, 4)).err().unwrap(),
        "vanilla-aruco: rotation must be between 0 and 3 quarter-turns"
    );
}

#[test]
fn segments_are_sent_by_kind() {
    let wire = wire_segments(&[
        Segment::Move(-2, 5),
        Segment::Horizontal(3),
        Segment::Vertical(-4),
        Segment::Close,
    ]);
    let wire: Vec<(u8, i16, i16)> = wire.iter().map(|s| (s.kind, s.dx, s.dy)).collect();
    assert_eq!(wire, vec![(0, -2, 5), (1, 3, 0), (2, 0, -4), (3, 0, 0)]);
}

#[test]
fn neighbouring_segments_never_share_an_axis() {
    let dicts = sample_dictionaries();
    for turns in 0..4 {
        let response = generate_response(&dicts, &request("DICT_4X4_50", 0, turns)).unwrap();
        let kinds: Vec<u8> = response.segments.iter().map(|s| s.kind).collect();
        assert!(kinds.len() > 4);
        assert_eq!(*kinds.last().unwrap(), 3);
        for pair in kinds.windows(2) {
            assert!(!(pair[0] == 1 && pair[1] == 1));
            assert!(!(pair[0] == 2 && pair[1] == 2));
        }
    }
}

#[test]
fn every_response_begins_with_the_frame() {
    let dicts = sample_dictionaries();
    for (name, side) in [("DICT_4X4_50", 6i16), ("DICT_6X6_250", 8), ("DICT_ARUCO_ORIGINAL", 7)] {
        for turns in 0..4 {
            let response = generate_response(&dicts, &request(name, 0, turns)).unwrap();
            let wire: Vec<(u8, i16, i16)> =
                response.segments.iter().take(3).map(|s| (s.kind, s.dx, s.dy)).collect();
            assert_eq!(wire, vec![(1, side, 0), (2, 0, side), (1, -side, 0)]);
        }
    }
}
