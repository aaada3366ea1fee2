use vanilla_aruco::dictionary::{decimal_string, dictionary_of, predefined_word, Dictionaries, Family};

/// Word tables with the number of words of OpenCV's dictionaries; the words
/// themselves are placeholders that number the word in their first bytes.
fn sample_dictionaries() -> Dictionaries {
    let table = |count: usize, bytes: usize| -> Vec<Vec<u8>> {
        (0..count)
            .map(|i| {
                let mut word = vec![0u8; bytes];
                word[0] = (i >> 8) as u8;
                word[1] = (i & 0xff) as u8;
                word
            })
            .collect()
    };
    Dictionaries {
        aruco_original: table(1024, 4),
        aruco_4x4: table(1000, 2),
        aruco_5x5: table(1000, 4),
        aruco_6x6: table(1000, 5),
        aruco_7x7: table(1000, 7),
        aruco_mip_36h12: table(250, 5),
    }
}

#[test]
fn predefined_dictionaries_cover_common_sizes() {
    let dicts = sample_dictionaries();
    assert_eq!(predefined_word(&dicts, "DICT_4X4_50", 49).unwrap().0, 4);
    assert_eq!(predefined_word(&dicts, "DICT_5X5_100", 99).unwrap().0, 5);
    assert_eq!(predefined_word(&dicts, "DICT_6X6_250", 249).unwrap().0, 6);
    assert_eq!(predefined_word(&dicts, "DICT_7X7_1000", 999).unwrap().0, 7);
    assert_eq!(predefined_word(&dicts, "DICT_ARUCO_ORIGINAL", 1023).unwrap().0, 5);
    assert_eq!(predefined_word(&dicts, "DICT_ARUCO_MIP_36h12", 249).unwrap().0, 6);
    assert!(predefined_word(&dicts, "DICT_4X4_50", 50).is_err());
}

#[test]
fn predefined_word_is_the_numbered_word_of_its_family() {
    let dicts = sample_dictionaries();
    assert_eq!(predefined_word(&dicts, "DICT_4X4_250", 200).unwrap().1.to_vec(), vec![0, 200]);
    assert_eq!(predefined_word(&dicts, "DICT_6X6_1000", 300).unwrap().1.to_vec(), vec![1, 44, 0, 0, 0]);
    assert_eq!(predefined_word(&dicts, "DICT_ARUCO_ORIGINAL", 0).unwrap().1.to_vec(), vec![0, 0, 0, 0]);
}

#[test]
fn dictionary_variants_limit_the_ids() {
    let dicts = sample_dictionaries();
    assert!(predefined_word(&dicts, "DICT_5X5_50", 49).is_ok());
    assert!(predefined_word(&dicts, "DICT_5X5_50", 50).is_err());
    assert!(predefined_word(&dicts, "DICT_5X5_100", 100).is_err());
    assert!(predefined_word(&dicts, "DICT_7X7_250", 250).is_err());
    assert!(predefined_word(&dicts, "DICT_6X6_1000", 1000).is_err());
    assert!(predefined_word(&dicts, "DICT_ARUCO_ORIGINAL", 1024).is_err());
    assert!(predefined_word(&dicts, "DICT_ARUCO_MIP_36h12", 250).is_err());
}

#[test]
fn unknown_dictionary_is_refused_with_its_name_and_id() {
    let dicts = sample_dictionaries();
    assert_eq!(
        predefined_word(&dicts, "DICT_3X3_50", 7).unwrap_err(),
        "vanilla-aruco: unknown dictionary or invalid marker id: DICT_3X3_50 7"
    );
    assert_eq!(
        predefined_word(&dicts, "DICT_4X4_100", 65535).unwrap_err(),
        "vanilla-aruco: unknown dictionary or invalid marker id: DICT_4X4_100 65535"
    );
    assert_eq!(
        predefined_word(&dicts, "dict_4x4_50", 0).unwrap_err(),
        "vanilla-aruco: unknown dictionary or invalid marker id: dict_4x4_50 0"
    );
}

#[test]
fn dictionary_names_select_families() {
    assert_eq!(dictionary_of("DICT_4X4_100"), Some((Family::Aruco4x4, Some(100))));
    assert_eq!(dictionary_of("DICT_7X7_1000"), Some((Family::Aruco7x7, None)));
    assert_eq!(dictionary_of("DICT_ARUCO_MIP_36h12"), Some((Family::ArucoMip36h12, None)));
    assert_eq!(dictionary_of("DICT_ARUCO_MIP_36H12"), None);
}

#[test]
fn numbers_are_written_in_decimal() {
    assert_eq!(decimal_string(0), "0");
    assert_eq!(decimal_string(9), "9");
    assert_eq!(decimal_string(10), "10");
    assert_eq!(decimal_string(1203), "1203");
}

#[test]
fn completeness_needs_the_sized_families() {
    let mut dicts = sample_dictionaries();
    assert!(dicts.is_complete());
    dicts.aruco_5x5.truncate(249);
    assert!(!dicts.is_complete());
}

#[test]
fn smaller_dictionaries_are_prefixes_of_larger_ones() {
    let dicts = sample_dictionaries();
    for side in ["4X4", "5X5", "6X6", "7X7"] {
        let names: Vec<String> = [50, 100, 250, 1000].iter().map(|k| format!("DICT_{side}_{k}")).collect();
        for (i, small) in names.iter().enumerate() {
            for large in &names[i..] {
                for id in [0u16, 1, 49] {
                    assert_eq!(
                        predefined_word(&dicts, small, id).unwrap(),
                        predefined_word(&dicts, large, id).unwrap()
                    );
                }
            }
        }
        assert!(predefined_word(&dicts, &names[0], 50).is_err());
        assert!(predefined_word(&dicts, &names[1], 50).is_ok());
    }
}
