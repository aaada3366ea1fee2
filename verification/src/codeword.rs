//! Decoding a dictionary word into the bitmap of a marker.
//!
//! A word stores the marker's data cells row by row, most significant bit
//! first, as OpenCV does. The decoded bitmap may be turned clockwise by up to
//! three quarter turns, and the marker is the bitmap framed by one cell of
//! black border.

use vstd::prelude::*;

verus! {

pub open spec fn size_error() -> Seq<char> {
    "vanilla-aruco: marker size must be between 1 and 250"@
}

pub open spec fn rotation_error() -> Seq<char> {
    "vanilla-aruco: rotation must be between 0 and 3 quarter-turns"@
}

pub open spec fn bits_error() -> Seq<char> {
    "vanilla-aruco: dictionary word does not contain enough bits"@
}

/// A marker has between 1 and 250 data cells per side.
pub open spec fn valid_size(size: u8) -> bool {
    1 <= size <= 250
}

/// Bit `t` of `b`, counting from the most significant bit.
pub open spec fn msb_bit(b: u8, t: int) -> bool {
    b & (1u8 << ((7 - t) as u8)) != 0u8
}

/// The bits of a word, each byte most significant bit first.
pub open spec fn word_bits(bytes: Seq<u8>) -> Seq<bool> {
    Seq::new((8 * bytes.len()) as nat, |i: int| msb_bit(bytes[i / 8], i % 8))
}

/// An `n` by `n` bitmap, stored row by row, turned a quarter clockwise: cell
/// `(row, col)` of the result is cell `(n - 1 - col, row)` of the input.
pub open spec fn rotate_cw(bits: Seq<bool>, n: int) -> Seq<bool> {
    Seq::new((n * n) as nat, |k: int| bits[(n - 1 - k % n) * n + k / n])
}

/// The bitmap turned clockwise `turns` times.
pub open spec fn rotate_turns(bits: Seq<bool>, n: int, turns: nat) -> Seq<bool>
    decreases turns,
{
    if turns == 0 {
        bits
    } else {
        rotate_cw(rotate_turns(bits, n, (turns - 1) as nat), n)
    }
}

/// What decoding a word gives: the first `size * size` bits of the word,
/// turned clockwise `turns` times, or the reason why there are none.
pub open spec fn decode_spec(size: u8, bytes: Seq<u8>, turns: u8) -> Result<Seq<bool>, Seq<char>> {
    if !valid_size(size) {
        Err(size_error())
    } else if turns > 3 {
        Err(rotation_error())
    } else if bytes.len() * 8 < size * size {
        Err(bits_error())
    } else {
        Ok(rotate_turns(word_bits(bytes).take(size * size), size as int, turns as nat))
    }
}

pub open spec fn bits_result_view(r: Result<Vec<bool>, String>) -> Result<Seq<bool>, Seq<char>> {
    match r {
        Ok(v) => Ok(v@),
        Err(e) => Err(e@),
    }
}

/// Cell `(r, c)` of the marker for `data`: the frame is set, and inside it
/// the data cells appear.
pub open spec fn marker_cell(data: Seq<bool>, size: int, r: int, c: int) -> bool {
    let w = size + 2;
    r == 0 || r == w - 1 || c == 0 || c == w - 1 || data[(r - 1) * size + c - 1]
}

/// The marker for `size` by `size` data cells, stored row by row.
pub open spec fn marker_bits(data: Seq<bool>, size: int) -> Seq<bool> {
    Seq::new(
        ((size + 2) * (size + 2)) as nat,
        |k: int| marker_cell(data, size, k / (size + 2), k % (size + 2)),
    )
}

/// The number of data cells of a marker with `size` cells per side.
pub fn bit_count(size: u8) -> (r: Result<usize, String>)
    ensures
        match r {
            Ok(n) => valid_size(size) && n == size * size,
            Err(e) => !valid_size(size) && e@ == size_error(),
        },
        r is Ok <==> 1 <= size <= 250,
{
    let size = size as usize;
    if size == 0 || size > 250 {
        return Err(String::from_str("vanilla-aruco: marker size must be between 1 and 250"));
    }
    proof {
        crate::arith::lemma_square_bound(size as int, 250);
    }
    Ok(size * size)
}

/// An `n` by `n` bitmap turned a quarter clockwise.
fn rotate_quarter(bits: &Vec<bool>, size: usize) -> (rotated: Vec<bool>)
    requires
        1 <= size <= 250,
        bits@.len() == size * size,
    ensures
        rotated@ == rotate_cw(bits@, size as int),
        rotated@.len() == size * size,
        forall|r: int, c: int|
            0 <= r < size && 0 <= c < size ==> #[trigger] rotated@[r * size + c] == bits@[(size - 1
                - c) * size + r],
{
    let ghost n = size as int;
    proof {
        crate::arith::lemma_square_bound(n, 250);
    }
    let mut rotated: Vec<bool> = Vec::with_capacity(size * size);
    let mut row: usize = 0;
    while row < size
        invariant
            1 <= size <= 250,
            n == size,
            n * n <= 62500,
            bits@.len() == n * n,
            row <= size,
            rotated@ == rotate_cw(bits@, n).take(row * n),
        decreases size - row,
    {
        let mut col: usize = 0;
        while col < size
            invariant
                1 <= size <= 250,
                n == size,
                n * n <= 62500,
                bits@.len() == n * n,
                row < size,
                col <= size,
                rotated@ == rotate_cw(bits@, n).take(row * n + col),
            decreases size - col,
        {
            proof {
                crate::arith::lemma_row_major_div_mod(row as int, col as int, n);
                crate::arith::lemma_row_major_bound(n - 1 - col, row as int, n, n);
                crate::arith::lemma_row_major_bound(row as int, col as int, n, n);
            }
            let k = (size - 1 - col) * size + row;
            rotated.push(bits[k]);
            proof {
                assert(rotated@ =~= rotate_cw(bits@, n).take(row * n + col + 1));
            }
            col += 1;
        }
        proof {
            crate::arith::lemma_next_row(row as int, 0, n);
        }
        row += 1;
    }
    proof {
        crate::arith::lemma_next_row(n - 1, 0, n);
        assert(rotated@ =~= rotate_cw(bits@, n));
    }
    proof {
        assert forall|r: int, c: int| 0 <= r < size && 0 <= c < size implies #[trigger] rotated@[r
            * size + c] == bits@[(size - 1 - c) * size + r] by {
            lemma_turn_cell(bits@, n, r, c);
        }
    }
    rotated
}

/// The data cells of one dictionary word, turned clockwise `turns` times.
pub fn decode_word(size: u8, bytes: &[u8], turns: u8) -> (r: Result<Vec<bool>, String>)
    ensures
        bits_result_view(r) == decode_spec(size, bytes@, turns),
        r matches Ok(b) ==> b@.len() == size * size,
{
    let required = match bit_count(size) {
        Ok(n) => n,
        Err(e) => return Err(e),
    };
    proof {
        crate::arith::lemma_square_bound(size as int, 250);
    }
    if turns > 3 {
        return Err(String::from_str("vanilla-aruco: rotation must be between 0 and 3 quarter-turns"));
    }
    if bytes.len() < (required + 7) / 8 {
        return Err(String::from_str("vanilla-aruco: dictionary word does not contain enough bits"));
    }
    let mut bits: Vec<bool> = Vec::with_capacity(required);
    let mut j: usize = 0;
    while j < bytes.len()
        invariant
            j <= bytes@.len(),
            bits@ == word_bits(bytes@).take(8 * j),
        decreases bytes@.len() - j,
    {
        let byte = bytes[j];
        let mut t: u8 = 0;
        while t < 8
            invariant
                j < bytes@.len(),
                byte == bytes@[j as int],
                t <= 8,
                bits@ == word_bits(bytes@).take(8 * j + t),
            decreases 8 - t,
        {
            let shift: u8 = 7 - t;
            bits.push((byte & (1u8 << shift)) != 0);
            proof {
                let k = 8 * j + t;
                assert(k / 8 == j && k % 8 == t);
                assert(bits@ =~= word_bits(bytes@).take(8 * j + t + 1));
            }
            t += 1;
        }
        j += 1;
    }
    bits.truncate(required);
    proof {
        assert(word_bits(bytes@).take(8 * bytes@.len() as int) =~= word_bits(bytes@));
        assert(bits@ =~= word_bits(bytes@).take(required as int));
    }

    let size = size as usize;
    let mut turn: u8 = 0;
    while turn < turns
        invariant
            1 <= size <= 250,
            required == size * size,
            turn <= turns <= 3,
            bits@ == rotate_turns(word_bits(bytes@).take(required as int), size as int, turn as nat),
            bits@.len() == required,
        decreases turns - turn,
    {
        bits = rotate_quarter(&bits, size);
        turn += 1;
    }
    Ok(bits)
}

/// The marker for `size` by `size` data cells: the data framed by a border
/// one cell wide. Returns the cells row by row, the width and the height.
pub fn make_marker(data: &[bool], size: u8) -> (r: (Vec<bool>, usize, usize))
    requires
        data@.len() >= size * size,
    ensures
        r.1 == size + 2,
        r.2 == size + 2,
        r.0@ == marker_bits(data@, size as int),
        r.0@.len() == (size + 2) * (size + 2),
        forall|i: int, j: int|
            0 <= i < size && 0 <= j < size ==> #[trigger] r.0@[(i + 1) * (size + 2) + j + 1]
                == data@[i * size + j],
{
    let data_size = size as usize;
    let width = data_size + 2;
    let ghost (n, w) = (data_size as int, width as int);
    proof {
        crate::arith::lemma_square_bound(w, 257);
        crate::arith::lemma_square_bound(n, 255);
    }
    let mut marker: Vec<bool> = Vec::with_capacity(width * width);
    let mut row: usize = 0;
    while row < width
        invariant
            data@.len() >= n * n,
            n == data_size,
            w == width,
            width == data_size + 2,
            data_size <= 255,
            n * n <= 255 * 255,
            row <= width,
            marker@ == marker_bits(data@, n).take(row * w),
        decreases width - row,
    {
        let mut col: usize = 0;
        while col < width
            invariant
                data@.len() >= n * n,
                n == data_size,
                w == width,
                width == data_size + 2,
                data_size <= 255,
                n * n <= 255 * 255,
                row < width,
                col <= width,
                marker@ == marker_bits(data@, n).take(row * w + col),
            decreases width - col,
        {
            proof {
                crate::arith::lemma_row_major_div_mod(row as int, col as int, w);
                crate::arith::lemma_row_major_bound(row as int, col as int, w, w);
                if 0 < row < width - 1 && 0 < col < width - 1 {
                    crate::arith::lemma_row_major_bound(row - 1, col - 1, n, n);
                }
            }
            let cell = row == 0 || row == width - 1 || col == 0 || col == width - 1 || (row > 0
                && row < width - 1 && col > 0 && col < width - 1 && data[(row - 1) * data_size + col
                - 1]);
            marker.push(cell);
            proof {
                assert(marker@ =~= marker_bits(data@, n).take(row * w + col + 1));
            }
            col += 1;
        }
        proof {
            crate::arith::lemma_next_row(row as int, 0, w);
        }
        row += 1;
    }
    proof {
        crate::arith::lemma_next_row(w - 1, 0, w);
        assert(marker@ =~= marker_bits(data@, n));
        lemma_marker_layout(data@, n);
    }
    (marker, width, width)
}

/// Cell `(r, c)` of a quarter-turned bitmap is cell `(n - 1 - c, r)` of the
/// bitmap before the turn.
proof fn lemma_turn_cell(bits: Seq<bool>, n: int, r: int, c: int)
    requires
        0 <= r < n,
        0 <= c < n,
    ensures
        rotate_cw(bits, n).len() == n * n,
        0 <= r * n + c < n * n,
        0 <= (n - 1 - c) * n + r < n * n,
        rotate_cw(bits, n)[r * n + c] == bits[(n - 1 - c) * n + r],
{
    crate::arith::lemma_row_major_div_mod(r, c, n);
    crate::arith::lemma_row_major_bound(r, c, n, n);
    crate::arith::lemma_row_major_bound(n - 1 - c, r, n, n);
}

proof fn lemma_turns_len(bits: Seq<bool>, n: int, turns: nat)
    requires
        n >= 0,
        bits.len() == n * n,
    ensures
        rotate_turns(bits, n, turns).len() == n * n,
    decreases turns,
{
    if turns > 0 {
        lemma_turns_len(bits, n, (turns - 1) as nat);
        assert(n * n >= 0) by (nonlinear_arith)
            requires
                n >= 0,
        ;
    }
}

/// Decoding a word that holds enough bits succeeds for up to three turns;
/// unturned, cell `(r, c)` is bit `r * size + c` of the word, most
/// significant bit of each byte first; and one more quarter turn moves every
/// cell: cell `(r, c)` after `t + 1` turns is cell `(size - 1 - c, r)` after
/// `t` turns.
pub proof fn lemma_decode_cells(size: u8, bytes: Seq<u8>, t: u8, r: int, c: int)
    requires
        valid_size(size),
        bytes.len() * 8 >= size * size,
        t <= 3,
        0 <= r < size,
        0 <= c < size,
    ensures
        decode_spec(size, bytes, t) is Ok,
        decode_spec(size, bytes, t)->Ok_0.len() == size * size,
        t == 0 ==> decode_spec(size, bytes, t)->Ok_0[r * size + c] == (bytes[(r * size + c) / 8]
            & (128u8 >> (((r * size + c) % 8) as u8)) != 0u8),
        t < 3 ==> decode_spec(size, bytes, (t + 1) as u8)->Ok_0[r * size + c] == decode_spec(
            size,
            bytes,
            t,
        )->Ok_0[(size - 1 - c) * size + r],
{
    let n = size as int;
    crate::arith::lemma_square_bound(n, 250);
    let base = word_bits(bytes).take(n * n);
    lemma_turns_len(base, n, t as nat);
    crate::arith::lemma_row_major_bound(r, c, n, n);
    if t == 0 {
        let i = r * n + c;
        let b = bytes[i / 8];
        let k = (i % 8) as u8;
        assert(k < 8);
        assert(b & (1u8 << ((7 - k) as u8)) == b & (128u8 >> k)) by (bit_vector)
            requires
                k < 8,
        ;
    }
    if t < 3 {
        lemma_turn_cell(rotate_turns(base, n, t as nat), n, r, c);
    }
}

/// The marker for `size` by `size` data cells is `size + 2` cells wide, its
/// border cells are set, and data cell `(i, j)` sits at marker cell
/// `(i + 1, j + 1)`.
pub proof fn lemma_marker_layout(data: Seq<bool>, size: int)
    requires
        0 <= size,
    ensures
        marker_bits(data, size).len() == (size + 2) * (size + 2),
        forall|i: int, j: int|
            0 <= i < size && 0 <= j < size ==> #[trigger] marker_bits(data, size)[(i + 1) * (size
                + 2) + j + 1] == data[i * size + j],
        forall|i: int|
            0 <= i < size + 2 ==> #[trigger] marker_bits(data, size)[i] && marker_bits(data, size)[(
            size + 1) * (size + 2) + i] && marker_bits(data, size)[i * (size + 2)] && marker_bits(
                data,
                size,
            )[i * (size + 2) + size + 1],
{
    let w = size + 2;
    let m = marker_bits(data, size);
    assert(w * w >= 0) by (nonlinear_arith)
        requires
            w >= 0,
    ;
    assert forall|i: int, j: int| 0 <= i < size && 0 <= j < size implies #[trigger] m[(i + 1) * w
        + j + 1] == data[i * size + j] by {
        crate::arith::lemma_row_major_div_mod(i + 1, j + 1, w);
        crate::arith::lemma_row_major_bound(i + 1, j + 1, w, w);
    }
    assert forall|i: int| 0 <= i < w implies #[trigger] m[i] && m[(size + 1) * w + i] && m[i
        * w] && m[i * w + size + 1] by {
        crate::arith::lemma_row_major_div_mod(0, i, w);
        crate::arith::lemma_row_major_div_mod(size + 1, i, w);
        crate::arith::lemma_row_major_div_mod(i, 0, w);
        crate::arith::lemma_row_major_div_mod(i, size + 1, w);
        crate::arith::lemma_row_major_bound(size + 1, i, w, w);
        crate::arith::lemma_row_major_bound(i, 0, w, w);
        crate::arith::lemma_row_major_bound(i, size + 1, w, w);
        assert(0 * w + i == i);
    }
}

} // verus!
