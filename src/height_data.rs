use crate::textsearch::string_push;
use vstd::prelude::*;

verus! {

/// Heights below this mark a void sample of a tile.
pub const VOID_BELOW: i16 = -1000;

/// The decimal digits of `n`, most significant first, at least `width` of them
/// (zeros in front).
pub open spec fn decimal_digits(n: nat, width: nat) -> Seq<char>
    decreases width, n,
{
    if n < 10 && width <= 1 {
        seq![digit_char(n)]
    } else {
        let w = if width > 0 {
            (width - 1) as nat
        } else {
            0
        };
        decimal_digits(n / 10, w).push(digit_char(n % 10))
    }
}

pub open spec fn digit_char(d: nat) -> char {
    if d == 0 {
        '0'
    } else if d == 1 {
        '1'
    } else if d == 2 {
        '2'
    } else if d == 3 {
        '3'
    } else if d == 4 {
        '4'
    } else if d == 5 {
        '5'
    } else if d == 6 {
        '6'
    } else if d == 7 {
        '7'
    } else if d == 8 {
        '8'
    } else {
        '9'
    }
}

fn digit(d: u32) -> (c: char)
    requires
        d < 10,
    ensures
        c == digit_char(d as nat),
{
    if d == 0 {
        '0'
    } else if d == 1 {
        '1'
    } else if d == 2 {
        '2'
    } else if d == 3 {
        '3'
    } else if d == 4 {
        '4'
    } else if d == 5 {
        '5'
    } else if d == 6 {
        '6'
    } else if d == 7 {
        '7'
    } else if d == 8 {
        '8'
    } else {
        '9'
    }
}

/// Appends the decimal digits of `n`, padded with zeros to `width`.
fn push_decimal(s: &mut String, n: u32, width: u32)
    ensures
        final(s)@ == old(s)@ + decimal_digits(n as nat, width as nat),
    decreases width, n,
{
    if n < 10 && width <= 1 {
        string_push(s, digit(n));
        assert(final(s)@ =~= old(s)@ + decimal_digits(n as nat, width as nat));
    } else {
        let w = if width > 0 {
            width - 1
        } else {
            0
        };
        push_decimal(s, n / 10, w);
        string_push(s, digit(n % 10));
        assert(final(s)@ =~= old(s)@ + decimal_digits(n as nat, width as nat));
    }
}

pub open spec fn abs(x: int) -> nat {
    if x < 0 {
        (-x) as nat
    } else {
        x as nat
    }
}

/// The path of the tile whose south-west corner is at the given whole degrees,
/// as in `./data/N47E011.hgt`.
pub open spec fn tile_file_name(latitude: int, longitude: int) -> Seq<char> {
    seq!['.', '/', 'd', 'a', 't', 'a', '/'] + seq![if latitude >= 0 { 'N' } else { 'S' }] + decimal_digits(
        abs(latitude),
        2,
    ) + seq![if longitude >= 0 { 'E' } else { 'W' }] + decimal_digits(abs(longitude), 3) + seq![
        '.',
        'h',
        'g',
        't',
    ]
}

fn unsigned_abs(x: i32) -> (r: u32)
    ensures
        r as int == abs(x as int),
{
    if x < 0 {
        (-(x as i64)) as u32
    } else {
        x as u32
    }
}

pub fn get_file_name(latitude: i32, longitude: i32) -> (r: String)
    ensures
        r@ == tile_file_name(latitude as int, longitude as int),
{
    let mut s = String::new();
    string_push(&mut s, '.');
    string_push(&mut s, '/');
    string_push(&mut s, 'd');
    string_push(&mut s, 'a');
    string_push(&mut s, 't');
    string_push(&mut s, 'a');
    string_push(&mut s, '/');
    string_push(&mut s, if latitude >= 0 { 'N' } else { 'S' });
    push_decimal(&mut s, unsigned_abs(latitude), 2);
    string_push(&mut s, if longitude >= 0 { 'E' } else { 'W' });
    push_decimal(&mut s, unsigned_abs(longitude), 3);
    string_push(&mut s, '.');
    string_push(&mut s, 'h');
    string_push(&mut s, 'g');
    string_push(&mut s, 't');
    assert(s@ =~= tile_file_name(latitude as int, longitude as int));
    s
}

/// The signed 16-bit integer stored big-endian in `hi`, `lo`.
pub open spec fn be_i16(hi: u8, lo: u8) -> int {
    let u = hi as int * 256 + lo as int;
    if u >= 0x8000 {
        u - 0x10000
    } else {
        u
    }
}

fn read_be_i16(hi: u8, lo: u8) -> (r: i16)
    ensures
        r as int == be_i16(hi, lo),
{
    let u: i32 = hi as i32 * 256 + lo as i32;
    if u >= 0x8000 {
        (u - 0x10000) as i16
    } else {
        u as i16
    }
}

/// The raw samples of a tile: each pair of bytes, big-endian.
pub open spec fn raw_sample(bytes: Seq<u8>, i: int) -> int {
    be_i16(bytes[2 * i], bytes[2 * i + 1])
}

/// The sample at offset `i` of a tile `side` samples wide, with each void
/// sample replaced by its left neighbour, or, in the first column, the one
/// above. `None` where a void has neither.
pub open spec fn patched_sample(bytes: Seq<u8>, side: nat, i: nat) -> Option<i16>
    decreases i,
{
    let raw = raw_sample(bytes, i as int);
    if raw >= VOID_BELOW {
        Some(raw as i16)
    } else if i > 0 && side > 0 && i % side > 0 {
        patched_sample(bytes, side, (i - 1) as nat)
    } else if i >= side && side > 0 {
        patched_sample(bytes, side, (i - side) as nat)
    } else {
        None
    }
}

/// Why the bytes of a tile could not be read.
#[derive(Clone, Copy, Debug, PartialEq, Eq)]
pub enum HgtError {
    /// The byte count is not twice a square.
    BadSize,
    /// A void sample has no neighbour to take a height from.
    NoReplacement,
}

/// A decoded tile: `side` rows of `side` heights, row 0 the northernmost.
pub struct HgtTile {
    pub side: usize,
    pub heights: Vec<i16>,
}

/// The side of a square tile of `len` bytes.
pub open spec fn is_tile_side(len: nat, side: nat) -> bool {
    side * side * 2 == len
}

/// The side `s` with `s·s·2` no larger than `len`, where `(s+1)·(s+1)·2` is.
fn square_side(len: usize) -> (r: usize)
    ensures
        r * r * 2 <= len,
        len < (r + 1) * (r + 1) * 2,
{
    let mut s: usize = 0;
    loop
        invariant
            s * s * 2 <= len,
            s < 0xffff_ffff,
        ensures
            s * s * 2 <= len,
            len < (s + 1) * (s + 1) * 2,
        decreases 0xffff_ffff - s,
    {
        let t: u128 = s as u128 + 1;
        proof {
            assert(t * t * 2 <= 0x1_0000_0000 * 0x1_0000_0000 * 2) by (nonlinear_arith)
                requires
                    t <= 0x1_0000_0000,
            ;
        }
        if t * t * 2 > len as u128 {
            break;
        }
        proof {
            assert(t < 0xffff_ffff) by (nonlinear_arith)
                requires
                    t * t * 2 <= len,
                    len <= 0xffff_ffff_ffff_ffff,
            ;
        }
        s = s + 1;
    }
    s
}

/// Decodes the bytes of a tile file and patches its voids.
pub fn decode_hgt(content: &Vec<u8>) -> (r: Result<HgtTile, HgtError>)
    ensures
        r == Err::<HgtTile, HgtError>(HgtError::BadSize) <==> !exists|s: nat| is_tile_side(content@.len(), s),
        r == Err::<HgtTile, HgtError>(HgtError::NoReplacement) ==> exists|s: nat, i: nat|
            is_tile_side(content@.len(), s) && i < s * s && #[trigger] patched_sample(content@, s, i) is None,
        r matches Ok(t) ==> is_tile_side(content@.len(), t.side as nat) && t.heights@.len() == t.side * t.side
            && forall|i: int| 0 <= i < t.heights@.len() ==> patched_sample(content@, t.side as nat, i as nat) == Some(
                #[trigger] t.heights@[i],
            ),
{
    let side = square_side(content.len());
    proof {
        assert forall|s: nat| is_tile_side(content@.len(), s) implies s == side by {
            if s < side {
                assert(s * s * 2 < side * side * 2) by (nonlinear_arith)
                    requires
                        s < side,
                ;
            } else if s > side {
                assert(s * s * 2 >= (side + 1) * (side + 1) * 2) by (nonlinear_arith)
                    requires
                        s >= side + 1,
                ;
            }
        }
    }
    if side * side * 2 != content.len() {
        return Err(HgtError::BadSize);
    }
    let n = side * side;
    let total = content.len();
    let mut heights: Vec<i16> = Vec::with_capacity(n);
    let mut i: usize = 0;
    while i < n
        invariant
            n == side * side,
            n * 2 == content@.len(),
            total == content@.len(),
            i <= n,
            heights@.len() == i,
            forall|k: int| 0 <= k < i ==> patched_sample(content@, side as nat, k as nat) == Some(#[trigger] heights@[k]),
        decreases n - i,
    {
        let r = read_be_i16(content[2 * i], content[2 * i + 1]);
        let value = if r >= VOID_BELOW {
            r
        } else if i > 0 && i % side > 0 {
            heights[i - 1]
        } else if i >= side {
            heights[i - side]
        } else {
            proof {
                assert(patched_sample(content@, side as nat, i as nat) is None);
                assert(is_tile_side(content@.len(), side as nat));
            }
            return Err(HgtError::NoReplacement);
        };
        heights.push(value);
        i = i + 1;
    }
    proof {
        assert(is_tile_side(content@.len(), side as nat));
    }
    Ok(HgtTile { side, heights })
}


/// The height at row `row` and column `col` of tiles laid side by side:
/// `n_lon` tiles per band, bands of tiles from south to north, and each tile,
/// whose row 0 is its northern edge, turned so that rows run northwards.
pub open spec fn stitched_height(tiles: Seq<Vec<i16>>, side: int, n_lon: int, row: int, col: int) -> i16 {
    tiles[(row / side) * n_lon + col / side]@[(side - 1 - row % side) * side + col % side]
}

proof fn lemma_stitch_index(side: int, n_lat: int, n_lon: int, row: int, col: int)
    requires
        side > 0,
        0 <= row < n_lat * side,
        0 <= col < n_lon * side,
    ensures
        0 <= (row / side) * n_lon + col / side < n_lat * n_lon,
        0 <= (side - 1 - row % side) * side + col % side < side * side,
{
    let ti = row / side;
    let tj = col / side;
    let rr = side - 1 - row % side;
    let c = col % side;
    vstd::arithmetic::div_mod::lemma_fundamental_div_mod(row, side);
    vstd::arithmetic::div_mod::lemma_fundamental_div_mod(col, side);
    vstd::arithmetic::div_mod::lemma_mod_bound(row, side);
    vstd::arithmetic::div_mod::lemma_mod_bound(col, side);
    vstd::arithmetic::div_mod::lemma_div_pos_is_pos(row, side);
    vstd::arithmetic::div_mod::lemma_div_pos_is_pos(col, side);
    assert(ti < n_lat) by (nonlinear_arith)
        requires
            row == side * ti + row % side,
            0 <= row % side,
            row < n_lat * side,
            side > 0,
    ;
    assert(tj < n_lon) by (nonlinear_arith)
        requires
            col == side * tj + col % side,
            0 <= col % side,
            col < n_lon * side,
            side > 0,
    ;
    assert(0 <= ti * n_lon + tj < n_lat * n_lon) by (nonlinear_arith)
        requires
            0 <= ti < n_lat,
            0 <= tj < n_lon,
    ;
    assert(0 <= rr * side + c < side * side) by (nonlinear_arith)
        requires
            0 <= rr < side,
            0 <= c < side,
    ;
}

/// Lays `n_lat` bands of `n_lon` square tiles (`tiles[i * n_lon + j]` is band
/// `i` from the south, tile `j` from the west) into one row-major grid of
/// `n_lat * side` rows and `n_lon * side` columns, each tile turned so that its
/// rows run from south to north.
pub fn stitch_tiles(tiles: &Vec<Vec<i16>>, side: usize, n_lat: usize, n_lon: usize) -> (r: Vec<i16>)
    requires
        side > 0,
        tiles@.len() == n_lat * n_lon,
        forall|t: int| 0 <= t < tiles@.len() ==> (#[trigger] tiles@[t])@.len() == side * side,
        n_lat * side <= usize::MAX,
        n_lon * side <= usize::MAX,
        (n_lat * side) * (n_lon * side) <= usize::MAX,
    ensures
        r@.len() == (n_lat * side) * (n_lon * side),
        forall|row: int, col: int|
            0 <= row < n_lat * side && 0 <= col < n_lon * side ==> r@[row * (n_lon * side) + col]
                == #[trigger] stitched_height(tiles@, side as int, n_lon as int, row, col),
{
    let rows = n_lat * side;
    let cols = n_lon * side;
    let n_tiles = tiles.len();
    let mut out: Vec<i16> = Vec::new();
    let mut row: usize = 0;
    while row < rows
        invariant
            side > 0,
            rows == n_lat * side,
            cols == n_lon * side,
            rows * cols <= usize::MAX,
            tiles@.len() == n_lat * n_lon,
            n_tiles == tiles@.len(),
            forall|t: int| 0 <= t < tiles@.len() ==> (#[trigger] tiles@[t])@.len() == side * side,
            row <= rows,
            out@.len() == row * cols,
            forall|i: int, j: int|
                0 <= i < row && 0 <= j < cols ==> out@[i * cols + j] == #[trigger] stitched_height(
                    tiles@,
                    side as int,
                    n_lon as int,
                    i,
                    j,
                ),
        decreases rows - row,
    {
        let mut col: usize = 0;
        proof {
            assert(row * cols + cols <= rows * cols) by (nonlinear_arith)
                requires
                    row < rows,
                    cols >= 0,
            ;
        }
        while col < cols
            invariant
                side > 0,
                rows == n_lat * side,
                cols == n_lon * side,
                rows * cols <= usize::MAX,
                row * cols + cols <= rows * cols,
                tiles@.len() == n_lat * n_lon,
                n_tiles == tiles@.len(),
                forall|t: int| 0 <= t < tiles@.len() ==> (#[trigger] tiles@[t])@.len() == side * side,
                row < rows,
                col <= cols,
                out@.len() == row * cols + col,
                forall|i: int, j: int|
                    0 <= i < row && 0 <= j < cols ==> out@[i * cols + j] == #[trigger] stitched_height(
                        tiles@,
                        side as int,
                        n_lon as int,
                        i,
                        j,
                    ),
                forall|j: int| 0 <= j < col ==> out@[row * cols + j] == #[trigger] stitched_height(
                    tiles@,
                    side as int,
                    n_lon as int,
                    row as int,
                    j,
                ),
            decreases cols - col,
        {
            proof {
                lemma_stitch_index(side as int, n_lat as int, n_lon as int, row as int, col as int);
            }
            proof {
                assert((row / side) as int * n_lon as int <= (row / side) as int * n_lon as int + (col / side) as int);
            }
            let tile = (row / side) * n_lon + col / side;
            let tile_len = tiles[tile].len();
            proof {
                assert(tile_len == side * side);
                assert((side - 1 - row % side) as int * side as int <= (side - 1 - row % side) as int * side as int + (col % side) as int);
            }
            let ix = (side - 1 - row % side) * side + col % side;
            let h = tiles[tile][ix];
            let ghost before = out@;
            out.push(h);
            proof {
                assert forall|i: int, j: int|
                    0 <= i < row && 0 <= j < cols implies out@[i * cols + j] == #[trigger] stitched_height(
                        tiles@,
                        side as int,
                        n_lon as int,
                        i,
                        j,
                    ) by {
                    assert(i * cols + j < row * cols) by (nonlinear_arith)
                        requires
                            0 <= i < row,
                            0 <= j < cols,
                    ;
                    assert(out@[i * cols + j] == before[i * cols + j]);
                }
            }
            col = col + 1;
        }
        proof {
            assert forall|i: int, j: int|
                0 <= i < row + 1 && 0 <= j < cols implies out@[i * cols + j] == #[trigger] stitched_height(
                    tiles@,
                    side as int,
                    n_lon as int,
                    i,
                    j,
                ) by {
                if i == row {
                } else {
                }
            }
            assert((row + 1) * cols == row * cols + cols) by (nonlinear_arith);
        }
        row = row + 1;
    }
    out
}

} // verus!
