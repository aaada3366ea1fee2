use vanilla_aruco::codeword::{bit_count, decode_word, make_marker};

#[test]
fn opencv_word_is_read_msb_first() {
    let bits = decode_word(4, &[181, 50], 0).unwrap();
    assert_eq!(
        bits,
        [
            true, false, true, true, false, true, false, true, false, false, true, true, false,
            false, true, false,
        ]
    );
}

#[test]
fn rotation_is_clockwise() {
    let bits = decode_word(2, &[0b1001_0000], 1).unwrap();
    assert_eq!(bits, [false, true, true, false]);
}

#[test]
fn four_quarter_turns_stay_clockwise() {
    // 1 0 0     0 0 1
    // 0 0 0  -> 0 0 0   (a single set corner walks round clockwise)
    // 0 0 0     0 0 0
    let word = [0b1000_0000, 0b0000_0000];
    assert_eq!(
        decode_word(3, &word, 1).unwrap(),
        [false, false, true, false, false, false, false, false, false]
    );
    assert_eq!(
        decode_word(3, &word, 2).unwrap(),
        [false, false, false, false, false, false, false, false, true]
    );
    assert_eq!(
        decode_word(3, &word, 3).unwrap(),
        [false, false, false, false, false, false, true, false, false]
    );
}

#[test]
fn decoding_uses_only_the_leading_bits() {
    let bits = decode_word(3, &[0xff, 0x80, 0x7f], 0).unwrap();
    assert_eq!(bits, [true; 9]);
    let bits = decode_word(1, &[0x7f], 0).unwrap();
    assert_eq!(bits, [false]);
}

#[test]
fn marker_size_out_of_range_is_refused() {
    assert_eq!(
        decode_word(0, &[0xff], 0).unwrap_err(),
        "vanilla-aruco: marker size must be between 1 and 250"
    );
    assert_eq!(
        decode_word(251, &[0xff; 8000], 0).unwrap_err(),
        "vanilla-aruco: marker size must be between 1 and 250"
    );
    assert!(bit_count(0).is_err());
    assert!(bit_count(251).is_err());
    assert_eq!(bit_count(250).unwrap(), 62500);
    assert_eq!(bit_count(1).unwrap(), 1);
}

#[test]
fn rotation_out_of_range_is_refused() {
    assert_eq!(
        decode_word(4, &[0, 0], 4).unwrap_err(),
        "vanilla-aruco: rotation must be between 0 and 3 quarter-turns"
    );
}

#[test]
fn short_word_is_refused() {
    assert_eq!(
        decode_word(4, &[0xff], 0).unwrap_err(),
        "vanilla-aruco: dictionary word does not contain enough bits"
    );
    assert_eq!(
        decode_word(3, &[0xff], 0).unwrap_err(),
        "vanilla-aruco: dictionary word does not contain enough bits"
    );
    assert!(decode_word(3, &[0xff, 0x80], 0).is_ok());
}

#[test]
fn marker_is_framed_by_a_black_border() {
    let (marker, width, height) = make_marker(&[false, true, false, false], 2);
    assert_eq!((width, height), (4, 4));
    assert_eq!(
        marker,
        [
            true, true, true, true, //
            true, false, true, true, //
            true, false, false, true, //
            true, true, true, true,
        ]
    );
}
