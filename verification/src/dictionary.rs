//! The predefined ArUco dictionaries, looked up by their OpenCV names.
//!
//! A dictionary is a family of words of one marker size, of which a named
//! variant may use only the first 50, 100 or 250 words.

use vstd::prelude::*;

verus! {

/// The word tables of the dictionary families, in OpenCV's byte layout.
pub struct Dictionaries {
    pub aruco_original: Vec<Vec<u8>>,
    pub aruco_4x4: Vec<Vec<u8>>,
    pub aruco_5x5: Vec<Vec<u8>>,
    pub aruco_6x6: Vec<Vec<u8>>,
    pub aruco_7x7: Vec<Vec<u8>>,
    pub aruco_mip_36h12: Vec<Vec<u8>>,
}

#[derive(Clone, Copy, Debug, PartialEq, Eq, Structural)]
pub enum Family {
    ArucoOriginal,
    Aruco4x4,
    Aruco5x5,
    Aruco6x6,
    Aruco7x7,
    ArucoMip36h12,
}

/// Data cells per side of the markers of a family.
pub open spec fn family_side(f: Family) -> u8 {
    match f {
        Family::ArucoOriginal => 5,
        Family::Aruco4x4 => 4,
        Family::Aruco5x5 => 5,
        Family::Aruco6x6 => 6,
        Family::Aruco7x7 => 7,
        Family::ArucoMip36h12 => 6,
    }
}

/// The family that a dictionary name selects, and how many of its first
/// words the dictionary uses (`None`: all of them).
pub open spec fn dictionary_entry(name: Seq<char>) -> Option<(Family, Option<int>)> {
    if name == "DICT_ARUCO_ORIGINAL"@ {
        Some((Family::ArucoOriginal, None))
    } else if name == "DICT_4X4_50"@ {
        Some((Family::Aruco4x4, Some(50)))
    } else if name == "DICT_4X4_100"@ {
        Some((Family::Aruco4x4, Some(100)))
    } else if name == "DICT_4X4_250"@ {
        Some((Family::Aruco4x4, Some(250)))
    } else if name == "DICT_4X4_1000"@ {
        Some((Family::Aruco4x4, None))
    } else if name == "DICT_5X5_50"@ {
        Some((Family::Aruco5x5, Some(50)))
    } else if name == "DICT_5X5_100"@ {
        Some((Family::Aruco5x5, Some(100)))
    } else if name == "DICT_5X5_250"@ {
        Some((Family::Aruco5x5, Some(250)))
    } else if name == "DICT_5X5_1000"@ {
        Some((Family::Aruco5x5, None))
    } else if name == "DICT_6X6_50"@ {
        Some((Family::Aruco6x6, Some(50)))
    } else if name == "DICT_6X6_100"@ {
        Some((Family::Aruco6x6, Some(100)))
    } else if name == "DICT_6X6_250"@ {
        Some((Family::Aruco6x6, Some(250)))
    } else if name == "DICT_6X6_1000"@ {
        Some((Family::Aruco6x6, None))
    } else if name == "DICT_7X7_50"@ {
        Some((Family::Aruco7x7, Some(50)))
    } else if name == "DICT_7X7_100"@ {
        Some((Family::Aruco7x7, Some(100)))
    } else if name == "DICT_7X7_250"@ {
        Some((Family::Aruco7x7, Some(250)))
    } else if name == "DICT_7X7_1000"@ {
        Some((Family::Aruco7x7, None))
    } else if name == "DICT_ARUCO_MIP_36h12"@ {
        Some((Family::ArucoMip36h12, None))
    } else {
        None
    }
}

/// The decimal digit `d` as a character.
pub open spec fn digit_char(d: int) -> char {
    if d == 0 {
        '0'
    } else if d == 1 {
        '1'
    } else if d == 2 {
        '2'
    } else if d == 3 {
        '3'
    } else if d == 4 {
        '4'
    } else if d == 5 {
        '5'
    } else if d == 6 {
        '6'
    } else if d == 7 {
        '7'
    } else if d == 8 {
        '8'
    } else {
        '9'
    }
}

/// `n` written in decimal, without leading zeros.
pub open spec fn decimal(n: nat) -> Seq<char>
    decreases n,
{
    if n < 10 {
        seq![digit_char(n as int)]
    } else {
        decimal(n / 10).push(digit_char((n % 10) as int))
    }
}

/// The message for a name that is no dictionary, or an id past its words.
pub open spec fn unknown_message(name: Seq<char>, id: nat) -> Seq<char> {
    "vanilla-aruco: unknown dictionary or invalid marker id: "@ + name + " "@ + decimal(id)
}

impl Dictionaries {
    pub open spec fn table(&self, f: Family) -> Seq<Vec<u8>> {
        match f {
            Family::ArucoOriginal => self.aruco_original@,
            Family::Aruco4x4 => self.aruco_4x4@,
            Family::Aruco5x5 => self.aruco_5x5@,
            Family::Aruco6x6 => self.aruco_6x6@,
            Family::Aruco7x7 => self.aruco_7x7@,
            Family::ArucoMip36h12 => self.aruco_mip_36h12@,
        }
    }

    /// The families that have variants of 50, 100 and 250 words hold at
    /// least 250 words.
    pub open spec fn wf(&self) -> bool {
        &&& self.aruco_4x4@.len() >= 250
        &&& self.aruco_5x5@.len() >= 250
        &&& self.aruco_6x6@.len() >= 250
        &&& self.aruco_7x7@.len() >= 250
    }

    /// How many words a dictionary of family `f` using `limit` words has.
    pub open spec fn word_limit(&self, f: Family, limit: Option<int>) -> int {
        match limit {
            Some(n) => n,
            None => self.table(f).len() as int,
        }
    }

    /// Whether the named dictionary has a word with this id.
    pub open spec fn has_word(&self, name: Seq<char>, id: int) -> bool {
        dictionary_entry(name) matches Some((f, limit)) && 0 <= id < self.word_limit(f, limit)
    }

    pub fn is_complete(&self) -> (b: bool)
        ensures
            b == self.wf(),
    {
        self.aruco_4x4.len() >= 250 && self.aruco_5x5.len() >= 250 && self.aruco_6x6.len() >= 250
            && self.aruco_7x7.len() >= 250
    }
}

fn digit_str(d: usize) -> (s: &'static str)
    requires
        d < 10,
    ensures
        s@ == seq![digit_char(d as int)],
{
    proof {
        reveal_strlit("0");
        reveal_strlit("1");
        reveal_strlit("2");
        reveal_strlit("3");
        reveal_strlit("4");
        reveal_strlit("5");
        reveal_strlit("6");
        reveal_strlit("7");
        reveal_strlit("8");
        reveal_strlit("9");
    }
    let s = if d == 0 {
        "0"
    } else if d == 1 {
        "1"
    } else if d == 2 {
        "2"
    } else if d == 3 {
        "3"
    } else if d == 4 {
        "4"
    } else if d == 5 {
        "5"
    } else if d == 6 {
        "6"
    } else if d == 7 {
        "7"
    } else if d == 8 {
        "8"
    } else {
        "9"
    };
    assert(s@ =~= seq![digit_char(d as int)]);
    s
}

/// `n` in decimal.
pub fn decimal_string(n: usize) -> (s: String)
    ensures
        s@ == decimal(n as nat),
    decreases n,
{
    if n < 10 {
        String::from_str(digit_str(n))
    } else {
        let mut s = decimal_string(n / 10);
        s.append(digit_str(n % 10));
        proof {
            assert(s@ =~= decimal((n / 10) as nat).push(digit_char((n % 10) as int)));
        }
        s
    }
}

/// The family that a dictionary name selects, and how many of its words the
/// dictionary uses.
pub fn dictionary_of(name: &str) -> (r: Option<(Family, Option<usize>)>)
    ensures
        match r {
            Some((f, limit)) => dictionary_entry(name@) == Some((f, match limit {
                Some(n) => Some(n as int),
                None => None,
            })),
            None => dictionary_entry(name@) is None,
        },
{
    let owned = String::from_str(name);
    if owned == String::from_str("DICT_ARUCO_ORIGINAL") {
        Some((Family::ArucoOriginal, None))
    } else if owned == String::from_str("DICT_4X4_50") {
        Some((Family::Aruco4x4, Some(50)))
    } else if owned == String::from_str("DICT_4X4_100") {
        Some((Family::Aruco4x4, Some(100)))
    } else if owned == String::from_str("DICT_4X4_250") {
        Some((Family::Aruco4x4, Some(250)))
    } else if owned == String::from_str("DICT_4X4_1000") {
        Some((Family::Aruco4x4, None))
    } else if owned == String::from_str("DICT_5X5_50") {
        Some((Family::Aruco5x5, Some(50)))
    } else if owned == String::from_str("DICT_5X5_100") {
        Some((Family::Aruco5x5, Some(100)))
    } else if owned == String::from_str("DICT_5X5_250") {
        Some((Family::Aruco5x5, Some(250)))
    } else if owned == String::from_str("DICT_5X5_1000") {
        Some((Family::Aruco5x5, None))
    } else if owned == String::from_str("DICT_6X6_50") {
        Some((Family::Aruco6x6, Some(50)))
    } else if owned == String::from_str("DICT_6X6_100") {
        Some((Family::Aruco6x6, Some(100)))
    } else if owned == String::from_str("DICT_6X6_250") {
        Some((Family::Aruco6x6, Some(250)))
    } else if owned == String::from_str("DICT_6X6_1000") {
        Some((Family::Aruco6x6, None))
    } else if owned == String::from_str("DICT_7X7_50") {
        Some((Family::Aruco7x7, Some(50)))
    } else if owned == String::from_str("DICT_7X7_100") {
        Some((Family::Aruco7x7, Some(100)))
    } else if owned == String::from_str("DICT_7X7_250") {
        Some((Family::Aruco7x7, Some(250)))
    } else if owned == String::from_str("DICT_7X7_1000") {
        Some((Family::Aruco7x7, None))
    } else if owned == String::from_str("DICT_ARUCO_MIP_36h12") {
        Some((Family::ArucoMip36h12, None))
    } else {
        None
    }
}

impl Dictionaries {
    /// The word table of a family.
    pub fn family_table(&self, f: Family) -> (t: &Vec<Vec<u8>>)
        ensures
            t@ == self.table(f),
            f == Family::ArucoOriginal ==> t@ == self.aruco_original@,
            f == Family::Aruco4x4 ==> t@ == self.aruco_4x4@,
            f == Family::Aruco5x5 ==> t@ == self.aruco_5x5@,
            f == Family::Aruco6x6 ==> t@ == self.aruco_6x6@,
            f == Family::Aruco7x7 ==> t@ == self.aruco_7x7@,
            f == Family::ArucoMip36h12 ==> t@ == self.aruco_mip_36h12@,
    {
        match f {
            Family::ArucoOriginal => &self.aruco_original,
            Family::Aruco4x4 => &self.aruco_4x4,
            Family::Aruco5x5 => &self.aruco_5x5,
            Family::Aruco6x6 => &self.aruco_6x6,
            Family::Aruco7x7 => &self.aruco_7x7,
            Family::ArucoMip36h12 => &self.aruco_mip_36h12,
        }
    }
}

/// Data cells per side of the markers of a family.
pub fn side_of(f: Family) -> (s: u8)
    ensures
        s == family_side(f),
{
    match f {
        Family::ArucoOriginal => 5,
        Family::Aruco4x4 => 4,
        Family::Aruco5x5 => 5,
        Family::Aruco6x6 => 6,
        Family::Aruco7x7 => 7,
        Family::ArucoMip36h12 => 6,
    }
}

/// The marker size and the word with number `id` of the dictionary called
/// `name`.
pub fn predefined_word<'a>(dicts: &'a Dictionaries, name: &str, id: u16) -> (r: Result<(u8, &'a [u8]), String>)
    requires
        dicts.wf(),
    ensures
        match r {
            Ok((size, word)) => dictionary_entry(name@) matches Some((f, limit)) && dicts.has_word(
                name@,
                id as int,
            ) && size == family_side(f) && word@ == dicts.table(f)[id as int]@,
            Err(e) => !dicts.has_word(name@, id as int) && e@ == unknown_message(name@, id as nat),
        },
{
    let id = id as usize;
    let result: Option<(u8, &'a [u8])> = match dictionary_of(name) {
        Some((family, limit)) => {
            let table = dicts.family_table(family);
            let count = match limit {
                Some(n) => n,
                None => table.len(),
            };
            if id < count {
                Some((side_of(family), table[id].as_slice()))
            } else {
                None
            }
        },
        None => None,
    };
    match result {
        Some(found) => Ok(found),
        None => {
            let mut message = String::from_str(
                "vanilla-aruco: unknown dictionary or invalid marker id: ",
            );
            message.append(name);
            message.append(" ");
            let number = decimal_string(id);
            message.append(number.as_str());
            Err(message)
        },
    }
}

/// Every smaller dictionary of a family is a prefix of the larger ones of
/// that family: a word number that the smaller one has, the larger one has
/// too, with the same word of the family's table; and a dictionary that has
/// word number `id` has every smaller number as well.
pub proof fn lemma_dictionary_prefix(
    dicts: Dictionaries,
    small: Seq<char>,
    large: Seq<char>,
    f: Family,
    k1: int,
    l2: Option<int>,
    id: int,
    lower: int,
)
    requires
        dicts.wf(),
        dictionary_entry(small) == Some((f, Some(k1))),
        dictionary_entry(large) == Some((f, l2)),
        l2 matches Some(k2) ==> k1 <= k2,
    ensures
        dicts.has_word(small, id) ==> dicts.has_word(large, id),
        dicts.has_word(small, id) && 0 <= lower <= id ==> dicts.has_word(small, lower),
{
    assert(k1 <= 250);
    assert(f == Family::Aruco4x4 || f == Family::Aruco5x5 || f == Family::Aruco6x6 || f
        == Family::Aruco7x7);
}

/// Each family reads its own word table: the table of a family is the field
/// named after it.
pub proof fn lemma_family_tables(dicts: Dictionaries)
    ensures
        dicts.table(Family::ArucoOriginal) == dicts.aruco_original@,
        dicts.table(Family::Aruco4x4) == dicts.aruco_4x4@,
        dicts.table(Family::Aruco5x5) == dicts.aruco_5x5@,
        dicts.table(Family::Aruco6x6) == dicts.aruco_6x6@,
        dicts.table(Family::Aruco7x7) == dicts.aruco_7x7@,
        dicts.table(Family::ArucoMip36h12) == dicts.aruco_mip_36h12@,
{
}

/// Every word of every table holds the bits of one marker of its family:
/// 25 for the original dictionary, 16, 25, 36 and 49 for the 4x4 to 7x7
/// families, and 36 for the MIP 36h12 family.
pub open spec fn words_hold_markers(dicts: Dictionaries) -> bool {
    &&& forall|i: int| 0 <= i < dicts.aruco_original@.len() ==> #[trigger] dicts.aruco_original@[i]@.len() * 8 >= 25
    &&& forall|i: int| 0 <= i < dicts.aruco_4x4@.len() ==> #[trigger] dicts.aruco_4x4@[i]@.len() * 8 >= 16
    &&& forall|i: int| 0 <= i < dicts.aruco_5x5@.len() ==> #[trigger] dicts.aruco_5x5@[i]@.len() * 8 >= 25
    &&& forall|i: int| 0 <= i < dicts.aruco_6x6@.len() ==> #[trigger] dicts.aruco_6x6@[i]@.len() * 8 >= 36
    &&& forall|i: int| 0 <= i < dicts.aruco_7x7@.len() ==> #[trigger] dicts.aruco_7x7@[i]@.len() * 8 >= 49
    &&& forall|i: int| 0 <= i < dicts.aruco_mip_36h12@.len() ==> #[trigger] dicts.aruco_mip_36h12@[i]@.len() * 8 >= 36
}

/// The family that a dictionary name selects.
pub open spec fn entry_family(name: Seq<char>) -> Family {
    let (f, _) = dictionary_entry(name)->0;
    f
}

/// When every table's words hold the bits of their markers, the word that a
/// dictionary name and id select holds the `side * side` bits of a marker of
/// the name's family.
pub proof fn lemma_word_holds_marker(dicts: Dictionaries, name: Seq<char>, id: int)
    requires
        words_hold_markers(dicts),
        dicts.has_word(name, id),
        id < dicts.table(entry_family(name)).len(),
    ensures
        ({
            let (f, _) = dictionary_entry(name)->0;
            dicts.table(f)[id]@.len() * 8 >= family_side(f) * family_side(f)
        }),
{
    let (f, _) = dictionary_entry(name)->0;
    assert(entry_family(name) == f);
    assert(0 <= id < dicts.table(f).len());
    match f {
        Family::ArucoOriginal => {
            assert(dicts.aruco_original@[id]@.len() * 8 >= 25);
            assert(dicts.table(f)[id]@.len() * 8 >= family_side(f) * family_side(f));
        },
        Family::Aruco4x4 => {
            assert(dicts.aruco_4x4@[id]@.len() * 8 >= 16);
            assert(dicts.table(f)[id]@.len() * 8 >= family_side(f) * family_side(f));
        },
        Family::Aruco5x5 => {
            assert(dicts.aruco_5x5@[id]@.len() * 8 >= 25);
            assert(dicts.table(f)[id]@.len() * 8 >= family_side(f) * family_side(f));
        },
        Family::Aruco6x6 => {
            assert(dicts.aruco_6x6@[id]@.len() * 8 >= 36);
            assert(dicts.table(f)[id]@.len() * 8 >= family_side(f) * family_side(f));
        },
        Family::Aruco7x7 => {
            assert(dicts.aruco_7x7@[id]@.len() * 8 >= 49);
            assert(dicts.table(f)[id]@.len() * 8 >= family_side(f) * family_side(f));
        },
        Family::ArucoMip36h12 => {
            assert(dicts.aruco_mip_36h12@[id]@.len() * 8 >= 36);
            assert(dicts.table(f)[id]@.len() * 8 >= family_side(f) * family_side(f));
        },
    }
}

/// A dictionary that uses only the first `k` words of a family is named
/// `DICT_<s>X<s>_<k>`, where `s` is the family's marker side, `k` is 50, 100
/// or 250, and it has exactly the word numbers below `k`.
#[verifier::rlimit(50)]
pub proof fn lemma_limited_names(dicts: Dictionaries, name: Seq<char>, f: Family, k: int, id: int)
    requires
        dictionary_entry(name) == Some((f, Some(k))),
    ensures
        name == "DICT_"@ + decimal(family_side(f) as nat) + "X"@ + decimal(family_side(f) as nat)
            + "_"@ + decimal(k as nat),
        k == 50 || k == 100 || k == 250,
        dicts.has_word(name, id) <==> 0 <= id < k,
{
    reveal_with_fuel(decimal, 4);
    reveal_strlit("DICT_");
    reveal_strlit("X");
    reveal_strlit("_");
    if name == "DICT_4X4_50"@ {
        assert(name =~= "DICT_"@ + decimal(4) + "X"@ + decimal(4) + "_"@ + decimal(50)) by {
            reveal_strlit("DICT_4X4_50");
        }
    }
    if name == "DICT_4X4_100"@ {
        assert(name =~= "DICT_"@ + decimal(4) + "X"@ + decimal(4) + "_"@ + decimal(100)) by {
            reveal_strlit("DICT_4X4_100");
        }
    }
    if name == "DICT_4X4_250"@ {
        assert(name =~= "DICT_"@ + decimal(4) + "X"@ + decimal(4) + "_"@ + decimal(250)) by {
            reveal_strlit("DICT_4X4_250");
        }
    }
    if name == "DICT_5X5_50"@ {
        assert(name =~= "DICT_"@ + decimal(5) + "X"@ + decimal(5) + "_"@ + decimal(50)) by {
            reveal_strlit("DICT_5X5_50");
        }
    }
    if name == "DICT_5X5_100"@ {
        assert(name =~= "DICT_"@ + decimal(5) + "X"@ + decimal(5) + "_"@ + decimal(100)) by {
            reveal_strlit("DICT_5X5_100");
        }
    }
    if name == "DICT_5X5_250"@ {
        assert(name =~= "DICT_"@ + decimal(5) + "X"@ + decimal(5) + "_"@ + decimal(250)) by {
            reveal_strlit("DICT_5X5_250");
        }
    }
    if name == "DICT_6X6_50"@ {
        assert(name =~= "DICT_"@ + decimal(6) + "X"@ + decimal(6) + "_"@ + decimal(50)) by {
            reveal_strlit("DICT_6X6_50");
        }
    }
    if name == "DICT_6X6_100"@ {
        assert(name =~= "DICT_"@ + decimal(6) + "X"@ + decimal(6) + "_"@ + decimal(100)) by {
            reveal_strlit("DICT_6X6_100");
        }
    }
    if name == "DICT_6X6_250"@ {
        assert(name =~= "DICT_"@ + decimal(6) + "X"@ + decimal(6) + "_"@ + decimal(250)) by {
            reveal_strlit("DICT_6X6_250");
        }
    }
    if name == "DICT_7X7_50"@ {
        assert(name =~= "DICT_"@ + decimal(7) + "X"@ + decimal(7) + "_"@ + decimal(50)) by {
            reveal_strlit("DICT_7X7_50");
        }
    }
    if name == "DICT_7X7_100"@ {
        assert(name =~= "DICT_"@ + decimal(7) + "X"@ + decimal(7) + "_"@ + decimal(100)) by {
            reveal_strlit("DICT_7X7_100");
        }
    }
    if name == "DICT_7X7_250"@ {
        assert(name =~= "DICT_"@ + decimal(7) + "X"@ + decimal(7) + "_"@ + decimal(250)) by {
            reveal_strlit("DICT_7X7_250");
        }
    }
}

/// A dictionary of the 4x4 to 7x7 families that uses all words of its
/// family is named `DICT_<s>X<s>_1000`, where `s` is the family's marker
/// side.
#[verifier::rlimit(50)]
pub proof fn lemma_full_names(name: Seq<char>, f: Family)
    requires
        dictionary_entry(name) == Some((f, None::<int>)),
        f != Family::ArucoOriginal,
        f != Family::ArucoMip36h12,
    ensures
        name == "DICT_"@ + decimal(family_side(f) as nat) + "X"@ + decimal(family_side(f) as nat)
            + "_1000"@,
{
    reveal_with_fuel(decimal, 4);
    reveal_strlit("DICT_");
    reveal_strlit("X");
    reveal_strlit("_1000");
    if name == "DICT_4X4_1000"@ {
        assert(name =~= "DICT_"@ + decimal(4) + "X"@ + decimal(4) + "_1000"@) by {
            reveal_strlit("DICT_4X4_1000");
        }
    }
    if name == "DICT_5X5_1000"@ {
        assert(name =~= "DICT_"@ + decimal(5) + "X"@ + decimal(5) + "_1000"@) by {
            reveal_strlit("DICT_5X5_1000");
        }
    }
    if name == "DICT_6X6_1000"@ {
        assert(name =~= "DICT_"@ + decimal(6) + "X"@ + decimal(6) + "_1000"@) by {
            reveal_strlit("DICT_6X6_1000");
        }
    }
    if name == "DICT_7X7_1000"@ {
        assert(name =~= "DICT_"@ + decimal(7) + "X"@ + decimal(7) + "_1000"@) by {
            reveal_strlit("DICT_7X7_1000");
        }
    }
}

/// The number that a string of decimal digits stands for.
pub open spec fn digits_value(s: Seq<char>) -> int
    decreases s.len(),
{
    if s.len() == 0 {
        0
    } else {
        10 * digits_value(s.drop_last()) + (s.last() as int - '0' as int)
    }
}

proof fn lemma_digit_char(d: int)
    requires
        0 <= d < 10,
    ensures
        digit_char(d) as int == '0' as int + d,
        '0' <= digit_char(d) <= '9',
        d > 0 ==> digit_char(d) != '0',
{
    assert('0' as int == 48 && '1' as int == 49 && '2' as int == 50 && '3' as int == 51 && '4' as int
        == 52 && '5' as int == 53 && '6' as int == 54 && '7' as int == 55 && '8' as int == 56
        && '9' as int == 57);
}

/// `decimal` writes a number with digits that stand for it, the first digit
/// not a zero unless the number is zero.
pub proof fn lemma_decimal_value(n: nat)
    ensures
        digits_value(decimal(n)) == n,
        decimal(n).len() > 0,
        forall|i: int| 0 <= i < decimal(n).len() ==> '0' <= #[trigger] decimal(n)[i] <= '9',
        n > 0 ==> decimal(n)[0] != '0',
    decreases n,
{
    lemma_digit_char((n % 10) as int);
    if n < 10 {
        assert(n % 10 == n);
        assert(decimal(n).drop_last() =~= Seq::<char>::empty());
        assert(digits_value(decimal(n)) == 10 * digits_value(Seq::<char>::empty()) + (digit_char(
            n as int,
        ) as int - '0' as int));
    } else {
        lemma_decimal_value(n / 10);
        let s = decimal(n);
        assert(s.drop_last() =~= decimal(n / 10));
        assert(s.last() == digit_char((n % 10) as int));
        assert(n == 10 * (n / 10) + n % 10);
        assert(digits_value(s) == 10 * digits_value(decimal(n / 10)) + (digit_char(
            (n % 10) as int,
        ) as int - '0' as int));
        assert(forall|i: int| 0 <= i < decimal(n / 10).len() ==> s[i] == decimal(n / 10)[i]);
    }
}

} // verus!
