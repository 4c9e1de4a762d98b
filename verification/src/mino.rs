//! Tetrominoes: their orientations, their extent around the pivot, and the
//! row bitmasks that a piece covers on a board (Super Rotation System shapes).
use vstd::prelude::*;

use crate::messages::MinoType;
use crate::penalty::Penalty;

verus! {

/// The way a piece points, named after the way the middle part of the T-piece
/// points. `Up` is the spawn orientation.
#[derive(Clone, Copy, PartialEq, Eq, Structural, Debug, Hash)]
pub enum Orientation {
    Up,
    Right,
    Down,
    Left,
}

/// The orientation after a clockwise quarter turn.
pub open spec fn cw_of(o: Orientation) -> Orientation {
    match o {
        Orientation::Up => Orientation::Right,
        Orientation::Right => Orientation::Down,
        Orientation::Down => Orientation::Left,
        Orientation::Left => Orientation::Up,
    }
}

/// The orientation after a counter-clockwise quarter turn.
pub open spec fn ccw_of(o: Orientation) -> Orientation {
    match o {
        Orientation::Right => Orientation::Up,
        Orientation::Down => Orientation::Right,
        Orientation::Left => Orientation::Down,
        Orientation::Up => Orientation::Left,
    }
}

/// The orientation after a half turn.
pub open spec fn half_of(o: Orientation) -> Orientation {
    match o {
        Orientation::Up => Orientation::Down,
        Orientation::Right => Orientation::Left,
        Orientation::Down => Orientation::Up,
        Orientation::Left => Orientation::Right,
    }
}

impl Orientation {
    /// The orientation after a half turn.
    pub fn rotate_180(&self) -> (r: Self)
        ensures
            r == half_of(*self),
    {
        match self {
            Orientation::Up => Orientation::Down,
            Orientation::Right => Orientation::Left,
            Orientation::Down => Orientation::Up,
            Orientation::Left => Orientation::Right,
        }
    }

    /// The orientation after a clockwise quarter turn.
    pub fn rotate_cw(&self) -> (r: Self)
        ensures
            r == cw_of(*self),
    {
        match self {
            Orientation::Up => Orientation::Right,
            Orientation::Right => Orientation::Down,
            Orientation::Down => Orientation::Left,
            Orientation::Left => Orientation::Up,
        }
    }

    /// The orientation after a counter-clockwise quarter turn.
    pub fn rotate_ccw(&self) -> (r: Self)
        ensures
            r == ccw_of(*self),
    {
        match self {
            Orientation::Right => Orientation::Up,
            Orientation::Down => Orientation::Right,
            Orientation::Left => Orientation::Down,
            Orientation::Up => Orientation::Left,
        }
    }
}

/// The turns form the rotation group of a square: a counter-clockwise turn
/// undoes a clockwise one (and back), a clockwise turn always changes the
/// orientation, two half turns are no turn, and two quarter turns in the same
/// direction are a half turn.
pub proof fn lemma_rotation_laws(o: Orientation)
    ensures
        ccw_of(cw_of(o)) == o,
        cw_of(ccw_of(o)) == o,
        cw_of(o) != o,
        half_of(half_of(o)) == o,
        cw_of(cw_of(o)) == half_of(o),
        ccw_of(ccw_of(o)) == half_of(o),
{
}

/// A falling piece: its kind, its orientation and the board cell of its pivot
/// (column counted from the left, row counted from the bottom).
#[derive(Clone, Copy, PartialEq, Eq, Structural, Debug, Hash)]
pub struct Mino {
    pub mino_type: MinoType,
    pub orientation: Orientation,
    pub pivot_x: i8,
    pub pivot_y: usize,
}

/// How many columns a piece of kind `t` in orientation `o` reaches to the right
/// of its pivot. Its reach to the left, below and above is this value for the
/// orientation turned by a half, a counter-clockwise and a clockwise turn.
pub open spec fn right_extent(t: MinoType, o: Orientation) -> int {
    match t {
        MinoType::T | MinoType::L | MinoType::J | MinoType::S | MinoType::Z => match o {
            Orientation::Left => 0,
            _ => 1,
        },
        MinoType::I => match o {
            Orientation::Left | Orientation::Right => 0,
            Orientation::Down => 1,
            Orientation::Up => 2,
        },
        MinoType::O => match o {
            Orientation::Up | Orientation::Right => 1,
            _ => 0,
        },
        MinoType::Unknown(_) => 0,
    }
}

pub open spec fn left_extent(t: MinoType, o: Orientation) -> int {
    right_extent(t, half_of(o))
}

pub open spec fn below_extent(t: MinoType, o: Orientation) -> int {
    right_extent(t, ccw_of(o))
}

pub open spec fn above_extent(t: MinoType, o: Orientation) -> int {
    right_extent(t, cw_of(o))
}

/// How many rows a piece spans.
pub open spec fn shape_height(t: MinoType, o: Orientation) -> int {
    below_extent(t, o) + above_extent(t, o) + 1
}

/// The columns, relative to the pivot, that a piece covers in row `r` of its
/// shape (row 0 is its lowest row): every `dx` with `lo <= dx <= hi`, none when
/// `lo > hi`. This is the Super Rotation System table of the seven pieces.
pub open spec fn shape_span(t: MinoType, o: Orientation, r: int) -> (int, int) {
    let none = (1int, 0int);
    match t {
        MinoType::I => match o {
            Orientation::Up => if r == 0 { (-1int, 2int) } else { none },
            Orientation::Down => if r == 0 { (-2int, 1int) } else { none },
            _ => if 0 <= r < 4 { (0int, 0int) } else { none },
        },
        MinoType::T => match o {
            Orientation::Up => if r == 0 { (-1int, 1int) } else if r == 1 { (0int, 0int) } else { none },
            Orientation::Down => if r == 0 { (0int, 0int) } else if r == 1 { (-1int, 1int) } else { none },
            Orientation::Right => if r == 1 { (0int, 1int) } else if r == 0 || r == 2 { (0int, 0int) } else { none },
            Orientation::Left => if r == 1 { (-1int, 0int) } else if r == 0 || r == 2 { (0int, 0int) } else { none },
        },
        MinoType::L => match o {
            Orientation::Up => if r == 0 { (-1int, 1int) } else if r == 1 { (1int, 1int) } else { none },
            Orientation::Down => if r == 0 { (-1int, -1int) } else if r == 1 { (-1int, 1int) } else { none },
            Orientation::Right => if r == 0 { (0int, 1int) } else if r == 1 || r == 2 { (0int, 0int) } else { none },
            Orientation::Left => if r == 2 { (-1int, 0int) } else if r == 0 || r == 1 { (0int, 0int) } else { none },
        },
        MinoType::J => match o {
            Orientation::Up => if r == 0 { (-1int, 1int) } else if r == 1 { (-1int, -1int) } else { none },
            Orientation::Down => if r == 0 { (1int, 1int) } else if r == 1 { (-1int, 1int) } else { none },
            Orientation::Right => if r == 2 { (0int, 1int) } else if r == 0 || r == 1 { (0int, 0int) } else { none },
            Orientation::Left => if r == 0 { (-1int, 0int) } else if r == 1 || r == 2 { (0int, 0int) } else { none },
        },
        MinoType::S => match o {
            Orientation::Up | Orientation::Down => if r == 0 { (-1int, 0int) } else if r == 1 { (0int, 1int) } else { none },
            Orientation::Right => if r == 0 { (1int, 1int) } else if r == 1 { (0int, 1int) } else if r == 2 { (0int, 0int) } else { none },
            Orientation::Left => if r == 0 { (0int, 0int) } else if r == 1 { (-1int, 0int) } else if r == 2 { (-1int, -1int) } else { none },
        },
        MinoType::Z => match o {
            Orientation::Up | Orientation::Down => if r == 0 { (0int, 1int) } else if r == 1 { (-1int, 0int) } else { none },
            Orientation::Right => if r == 0 { (0int, 0int) } else if r == 1 { (0int, 1int) } else if r == 2 { (1int, 1int) } else { none },
            Orientation::Left => if r == 0 { (-1int, -1int) } else if r == 1 { (-1int, 0int) } else if r == 2 { (0int, 0int) } else { none },
        },
        MinoType::O => match o {
            Orientation::Up | Orientation::Right => if r == 0 || r == 1 { (0int, 1int) } else { none },
            _ => if r == 0 || r == 1 { (-1int, 0int) } else { none },
        },
        MinoType::Unknown(_) => none,
    }
}

/// Whether a piece covers the cell `dx` columns right of its pivot in row `r`
/// of its shape.
pub open spec fn occupies(t: MinoType, o: Orientation, dx: int, r: int) -> bool {
    shape_span(t, o, r).0 <= dx <= shape_span(t, o, r).1
}

/// Whether bit `b` (0 is the rightmost column) of a row bitmask is set.
pub open spec fn bit(x: u16, b: int) -> bool {
    0 <= b < 16 && (x >> (b as u16)) & 1u16 == 1u16
}

/// The cells that a piece covers on the board, `covered[r]` being the bitmask
/// of row `bottom_row + r`; column `x` of a board `width` wide is bit
/// `width - 1 - x`.
pub struct MinoMask {
    pub bottom_row: usize,
    pub covered: [u16; 4],
}

/// The mathematical value of a mask.
#[verifier::ext_equal]
pub struct MaskView {
    pub bottom_row: int,
    pub covered: Seq<u16>,
}

impl View for MinoMask {
    type V = MaskView;

    open spec fn view(&self) -> MaskView {
        MaskView { bottom_row: self.bottom_row as int, covered: self.covered@ }
    }
}

/// The row bitmask, before shifting, of row `r` of a piece's shape. Its bit
/// `right_extent - dx` stands for the column `dx` right of the pivot.
pub open spec fn shape_pattern(t: MinoType, o: Orientation, r: int) -> u16 {
    let (lo, hi) = shape_span(t, o, r);
    let c = right_extent(t, o);
    if lo > hi {
        0u16
    } else if c - lo == 0 {
        1u16
    } else if c - hi == 0 && c - lo == 1 {
        3u16
    } else if c - hi == 1 && c - lo == 1 {
        2u16
    } else if c - hi == 0 && c - lo == 2 {
        7u16
    } else if c - hi == 1 && c - lo == 2 {
        6u16
    } else if c - hi == 2 && c - lo == 2 {
        4u16
    } else {
        15u16
    }
}

/// The distance from a piece's pivot column to the board's right edge, when
/// the board is `width` columns wide.
pub open spec fn shift_to_pivot(m: Mino, width: i8) -> int {
    width - 1 - m.pivot_x
}

/// The mask that a (known) piece covers on a board `width` columns wide.
pub open spec fn mask_of(m: Mino, width: i8) -> MaskView {
    let t = m.mino_type;
    let o = m.orientation;
    let k = (shift_to_pivot(m, width) - right_extent(t, o)) as u16;
    MaskView {
        bottom_row: m.pivot_y - below_extent(t, o),
        covered: seq![
            shape_pattern(t, o, 0) << k,
            shape_pattern(t, o, 1) << k,
            shape_pattern(t, o, 2) << k,
            shape_pattern(t, o, 3) << k,
        ],
    }
}

/// The inputs on which `mask_from_mino` is defined: the distance to the right
/// edge fits a byte, and for a known piece every shift it makes is below 16 and
/// its lowest row is on or above row 0.
pub open spec fn mask_computable(m: Mino, width: i8) -> bool {
    let s = shift_to_pivot(m, width);
    let t = m.mino_type;
    let o = m.orientation;
    &&& -128 <= width - 1
    &&& -128 <= s <= 127
    &&& t.is_known() ==> {
        &&& 0 <= s - right_extent(t, o) < 16
        &&& (t == MinoType::T && o == Orientation::Right) ==> s < 16
        &&& m.pivot_y >= below_extent(t, o)
    }
}

/// The cells that a mask covers are exactly the piece's cells: for each of the
/// four rows and each of the 16 bit positions, the bit is set iff the piece
/// covers the column that the bit stands for.
pub open spec fn mask_covers_piece(mask: MaskView, m: Mino, width: i8) -> bool {
    &&& mask.bottom_row == m.pivot_y - below_extent(m.mino_type, m.orientation)
    &&& mask.covered.len() == 4
    &&& forall|r: int, b: int|
        0 <= r < 4 && 0 <= b < 16 ==> (#[trigger] bit(mask.covered[r], b) <==> occupies(
            m.mino_type,
            m.orientation,
            width - 1 - b - m.pivot_x,
            r,
        ))
}

/// The penalty for a piece of unknown kind.
pub open spec fn unsupported_mino_penalty() -> (Seq<char>, u16) {
    ("unsopported mino type"@, 10u16)
}

proof fn lemma_shl_bit(p: u16, k: u16, b: u16)
    by (bit_vector)
    requires
        k < 16,
        b < 16,
    ensures
        (p << k) >> b & 1u16 == (if b >= k {
            (p >> ((b - k) as u16)) & 1u16
        } else {
            0u16
        }),
{
}

proof fn lemma_pattern_bits(j: u16)
    by (bit_vector)
    requires
        j < 16,
    ensures
        ((0u16 >> j) & 1u16 == 1u16) == false,
        ((1u16 >> j) & 1u16 == 1u16) == (j == 0),
        ((2u16 >> j) & 1u16 == 1u16) == (j == 1),
        ((3u16 >> j) & 1u16 == 1u16) == (j <= 1),
        ((4u16 >> j) & 1u16 == 1u16) == (j == 2),
        ((6u16 >> j) & 1u16 == 1u16) == (1 <= j && j <= 2),
        ((7u16 >> j) & 1u16 == 1u16) == (j <= 2),
        ((15u16 >> j) & 1u16 == 1u16) == (j <= 3),
{
}

/// Every row of a shape is a run of at most four columns that ends on or left of
/// the piece's right extent and starts on or right of minus its left extent.
pub proof fn lemma_span_within_extents(t: MinoType, o: Orientation, r: int)
    requires
        t.is_known(),
    ensures
        ({
            let (lo, hi) = shape_span(t, o, r);
            lo > hi || (-left_extent(t, o) <= lo && hi <= right_extent(t, o) && hi - lo < 4)
        }),
        0 <= r < shape_height(t, o) <==> shape_span(t, o, r).0 <= shape_span(t, o, r).1,
        shape_height(t, o) <= 4,
        0 <= right_extent(t, o) <= 2,
        0 <= left_extent(t, o) <= 2,
        0 <= below_extent(t, o) <= 2,
{
}

/// The bits of a row pattern are the columns of the row's span.
proof fn lemma_pattern_span(t: MinoType, o: Orientation, r: int)
    requires
        t.is_known(),
    ensures
        forall|j: int|
            0 <= j < 16 ==> (#[trigger] bit(shape_pattern(t, o, r), j) <==> (shape_span(t, o, r).0
                <= shape_span(t, o, r).1 && right_extent(t, o) - shape_span(t, o, r).1 <= j
                <= right_extent(t, o) - shape_span(t, o, r).0)),
{
    lemma_span_within_extents(t, o, r);
    assert forall|j: int|
        0 <= j < 16 implies (#[trigger] bit(shape_pattern(t, o, r), j) <==> (shape_span(t, o, r).0
        <= shape_span(t, o, r).1 && right_extent(t, o) - shape_span(t, o, r).1 <= j
        <= right_extent(t, o) - shape_span(t, o, r).0)) by {
        lemma_pattern_bits(j as u16);
    }
}

/// Shifting a row pattern left by the pivot's distance to the right edge (less
/// the right extent) puts each of its columns on the bit of that column.
proof fn lemma_row_bits(t: MinoType, o: Orientation, r: int, s: int)
    requires
        t.is_known(),
        0 <= s - right_extent(t, o) < 16,
    ensures
        forall|b: int|
            0 <= b < 16 ==> (#[trigger] bit(shape_pattern(t, o, r) << ((s - right_extent(t, o)) as u16), b)
                <==> occupies(t, o, s - b, r)),
{
    let c = right_extent(t, o);
    let k = (s - c) as u16;
    let p = shape_pattern(t, o, r);
    lemma_pattern_span(t, o, r);
    lemma_span_within_extents(t, o, r);
    assert forall|b: int| 0 <= b < 16 implies (#[trigger] bit(p << k, b) <==> occupies(t, o, s - b, r)) by {
        lemma_shl_bit(p, k, b as u16);
        if b >= k {
            assert(bit(p, b - k) == bit(p << k, b));
        } else {
            assert(!bit(p << k, b));
        }
    }
}

/// The mask of a piece covers exactly the piece's cells.
pub proof fn lemma_mask_covers_piece(m: Mino, width: i8)
    requires
        m.mino_type.is_known(),
        mask_computable(m, width),
    ensures
        mask_covers_piece(mask_of(m, width), m, width),
{
    let t = m.mino_type;
    let o = m.orientation;
    let s = shift_to_pivot(m, width);
    let mask = mask_of(m, width);
    lemma_row_bits(t, o, 0, s);
    lemma_row_bits(t, o, 1, s);
    lemma_row_bits(t, o, 2, s);
    lemma_row_bits(t, o, 3, s);
    assert forall|r: int, b: int| 0 <= r < 4 && 0 <= b < 16 implies (#[trigger] bit(mask.covered[r], b) <==> occupies(t, o, width - 1 - b - m.pivot_x, r)) by {
        if r == 0 {
        } else if r == 1 {
        } else if r == 2 {
        } else {
        }
    }
}

impl Mino {
    fn squares_right_of_pivot_(mino_type: &MinoType, orientation: &Orientation) -> (r: i8)
        ensures
            r == right_extent(*mino_type, *orientation),
    {
        match *mino_type {
            MinoType::T | MinoType::L | MinoType::J | MinoType::S | MinoType::Z => {
                match *orientation {
                    Orientation::Down | Orientation::Right | Orientation::Up => 1,
                    Orientation::Left => 0,
                }
            },
            MinoType::I => match *orientation {
                Orientation::Left | Orientation::Right => 0,
                Orientation::Down => 1,
                Orientation::Up => 2,
            },
            MinoType::O => match *orientation {
                Orientation::Up | Orientation::Right => 1,
                Orientation::Down | Orientation::Left => 0,
            },
            _ => 0,
        }
    }

    /// How many columns the piece reaches right of its pivot.
    pub fn squares_right_of_pivot(&self) -> (r: i8)
        ensures
            r == right_extent(self.mino_type, self.orientation),
    {
        Mino::squares_right_of_pivot_(&self.mino_type, &self.orientation)
    }

    /// How many columns the piece reaches left of its pivot.
    pub fn squares_left_of_pivot(&self) -> (r: i8)
        ensures
            r == left_extent(self.mino_type, self.orientation),
    {
        Mino::squares_right_of_pivot_(&self.mino_type, &self.orientation.rotate_180())
    }

    /// How many rows the piece reaches below its pivot.
    pub fn squares_below_pivot(&self) -> (r: i8)
        ensures
            r == below_extent(self.mino_type, self.orientation),
    {
        Mino::squares_right_of_pivot_(&self.mino_type, &self.orientation.rotate_ccw())
    }

    /// How many rows the piece reaches above its pivot.
    pub fn squares_above_pivot(&self) -> (r: i8)
        ensures
            r == above_extent(self.mino_type, self.orientation),
    {
        Mino::squares_right_of_pivot_(&self.mino_type, &self.orientation.rotate_cw())
    }
}

/// The unshifted row patterns of a known piece (lowest row first), following
/// the Super Rotation System table.
fn shape_patterns(t: MinoType, o: Orientation) -> (r: [u16; 4])
    requires
        t.is_known(),
    ensures
        r@ == seq![
            shape_pattern(t, o, 0),
            shape_pattern(t, o, 1),
            shape_pattern(t, o, 2),
            shape_pattern(t, o, 3),
        ],
{
    match t {
        MinoType::I => match o {
            Orientation::Up | Orientation::Down => [0b1111, 0, 0, 0],
            _ => [1, 1, 1, 1],
        },
        MinoType::T => match o {
            Orientation::Up => [0b111, 0b010, 0, 0],
            Orientation::Down => [0b010, 0b111, 0, 0],
            Orientation::Right => [0b10, 0b11, 0b10, 0],
            Orientation::Left => [0b01, 0b11, 0b01, 0],
        },
        MinoType::L => match o {
            Orientation::Up => [0b111, 0b001, 0, 0],
            Orientation::Down => [0b100, 0b111, 0, 0],
            Orientation::Right => [0b11, 0b10, 0b10, 0],
            Orientation::Left => [0b01, 0b01, 0b11, 0],
        },
        MinoType::J => match o {
            Orientation::Up => [0b111, 0b100, 0, 0],
            Orientation::Down => [0b001, 0b111, 0, 0],
            Orientation::Right => [0b10, 0b10, 0b11, 0],
            Orientation::Left => [0b11, 0b01, 0b01, 0],
        },
        MinoType::S => match o {
            Orientation::Up | Orientation::Down => [0b110, 0b011, 0, 0],
            Orientation::Right => [0b01, 0b11, 0b10, 0],
            Orientation::Left => [0b01, 0b11, 0b10, 0],
        },
        MinoType::Z => match o {
            Orientation::Up | Orientation::Down => [0b011, 0b110, 0, 0],
            Orientation::Right => [0b10, 0b11, 0b01, 0],
            Orientation::Left => [0b10, 0b11, 0b01, 0],
        },
        _ => [0b11, 0b11, 0, 0],
    }
}

/// Whether `mask_from_mino` may be called for a piece on a board of the given
/// width (see `mask_computable`).
pub fn is_mask_computable(m: &Mino, board_width: i8) -> (r: bool)
    ensures
        r == mask_computable(*m, board_width),
{
    let s = board_width as i16 - 1 - m.pivot_x as i16;
    if (board_width as i16) - 1 < -128 || s < -128 || s > 127 {
        return false;
    }
    if let MinoType::Unknown(_) = m.mino_type {
        return true;
    }
    proof {
        lemma_span_within_extents(m.mino_type, m.orientation, 0);
    }
    let k = s - m.squares_right_of_pivot() as i16;
    if k < 0 || k >= 16 {
        return false;
    }
    if m.mino_type == MinoType::T && m.orientation == Orientation::Right && s >= 16 {
        return false;
    }
    m.pivot_y >= m.squares_below_pivot() as usize
}

/// The mask of the cells that piece `m` covers on a board `board_width`
/// columns wide, or a penalty for a piece of unknown kind.
pub fn mask_from_mino(m: &Mino, board_width: i8) -> (r: Result<MinoMask, Penalty>)
    requires
        mask_computable(*m, board_width),
    ensures
        m.mino_type.is_known() <==> r is Ok,
        r matches Ok(mask) ==> mask@ == mask_of(*m, board_width) && mask_covers_piece(
            mask@,
            *m,
            board_width,
        ),
        r matches Err(p) ==> p@ == unsupported_mino_penalty(),
{
    let shift_to_pivot = board_width - 1 - m.pivot_x;
    if let MinoType::Unknown(_) = m.mino_type {
        return Err(Penalty::new("unsopported mino type"));
    }
    let right = m.squares_right_of_pivot();
    let below = m.squares_below_pivot();
    let patterns = shape_patterns(m.mino_type, m.orientation);
    let k = (shift_to_pivot - right) as u32;
    let mask = MinoMask {
        covered: [patterns[0] << k, patterns[1] << k, patterns[2] << k, patterns[3] << k],
        bottom_row: m.pivot_y - below as usize,
    };
    proof {
        lemma_mask_covers_piece(*m, board_width);
        assert(mask@.covered =~= mask_of(*m, board_width).covered);
    }
    Ok(mask)
}

} // verus!
