//! The board of one player: its rows of locked cells, the falling piece, the
//! held piece and the queue of upcoming pieces.
use std::collections::VecDeque;

use vstd::prelude::*;

pub use crate::actions::apply_action;
pub use crate::messages::{
    ActionFields,
    BoardExternalInfluence,
    HardDrop,
    Hold,
    Horizontal,
    MinoType,
    PlayerAction,
    PlayerActions,
    Rotate180,
    RotateCCW,
    RotateCW,
    SoftDrop,
};
pub use crate::mino::{mask_from_mino, Mino, MinoMask, Orientation};
pub use crate::penalty::Penalty;

use crate::mino::{
    MaskView,
    below_extent,
    left_extent,
    right_extent,
    mask_of,
    mask_computable,
    shape_height,
    shape_span,
    occupies,
    bit,
    shift_to_pivot,
    lemma_span_within_extents,
    lemma_mask_covers_piece,
};

verus! {

/// The number of rows of a board. We assume that this is big enough.
pub const BOARD_HEIGHT: usize = 1024;

/// The rows of a well-formed board at and above this one are empty, and its
/// falling piece stays below it.
pub const PLAY_HEIGHT: usize = 1016;

#[derive(PartialEq, Eq, Debug, Hash, Clone)]
/// The board of one player.
pub struct Board {
    /// Row `y` (counted from the bottom) as a bitmask: column `x` is bit
    /// `width - 1 - x`.
    pub rows: [u16; BOARD_HEIGHT],
    pub width: i8,
    pub active_mino: Option<Mino>,
    pub hold: Option<MinoType>,
    pub upcoming_minos: VecDeque<MinoType>,
    pub spawn_height: usize,
}

/// The mathematical value of a board.
#[verifier::ext_equal]
pub struct BoardModel {
    pub rows: Seq<u16>,
    pub width: i8,
    pub active: Option<Mino>,
    pub hold: Option<MinoType>,
    pub upcoming: Seq<MinoType>,
    pub spawn_height: usize,
}

impl View for Board {
    type V = BoardModel;

    open spec fn view(&self) -> BoardModel {
        BoardModel {
            rows: self.rows@,
            width: self.width,
            active: self.active_mino,
            hold: self.hold,
            upcoming: self.upcoming_minos@,
            spawn_height: self.spawn_height,
        }
    }
}

/// The row in which all `width` columns are filled.
pub open spec fn full_row_of(width: int) -> u16 {
    0xffffu16 >> ((16 - width) as u16)
}

/// The row of a `width` columns wide board that is filled but for the column
/// whose bit is `hole`.
pub open spec fn row_with_hole_of(width: int, hole: int) -> u16 {
    full_row_of(width) ^ (1u16 << (hole as u16))
}

proof fn lemma_full_row_bits(w: u16, b: u16)
    by (bit_vector)
    requires
        1 <= w <= 16,
        b < 16,
    ensures
        ((0xffffu16 >> ((16 - w) as u16)) >> b) & 1u16 == 1u16 <==> b < w,
        (((0xffffu16 >> ((16 - w) as u16)) ^ 1u16) >> b) & 1u16 == 1u16 <==> (b < w && b != 0),
{
}

/// The full row of a board `width` columns wide has exactly the bits of its
/// columns set, and the row with the rightmost column open has all of them
/// but bit 0.
pub proof fn lemma_full_row_columns(width: int, b: int)
    requires
        1 <= width <= 16,
        0 <= b < 16,
    ensures
        bit(full_row_of(width), b) <==> b < width,
        bit(row_with_hole_of(width, 0), b) <==> (b < width && b != 0),
{
    lemma_full_row_bits(width as u16, b as u16);
    assert(1u16 << 0u16 == 1u16) by (bit_vector);
}

/// Whether a mask shares a cell with the rows.
pub open spec fn overlaps(rows: Seq<u16>, mask: MaskView) -> bool {
    let b = mask.bottom_row;
    ||| rows[b] & mask.covered[0] != 0
    ||| rows[b + 1] & mask.covered[1] != 0
    ||| rows[b + 2] & mask.covered[2] != 0
    ||| rows[b + 3] & mask.covered[3] != 0
}

/// The intersection test of the game: a mask whose lowest row is empty is
/// taken to be clear (nothing can be at that row or above), otherwise it hits
/// when it shares a cell with the rows.
pub open spec fn hits(rows: Seq<u16>, mask: MaskView) -> bool {
    rows[mask.bottom_row] != 0 && overlaps(rows, mask)
}

/// No empty row lies below a non-empty one: a piece can not rest on an empty
/// row, and a line clear moves everything above it down.
pub open spec fn gravity(rows: Seq<u16>) -> bool {
    forall|i: int, j: int|
        #![trigger rows[i], rows[j]]
        0 <= i < j < rows.len() && rows[i] == 0 ==> rows[j] == 0
}

/// Whether a row is not completely filled.
pub open spec fn not_full(width: int) -> spec_fn(u16) -> bool {
    |x: u16| x != full_row_of(width)
}

/// The rows that remain after every full row is removed and the rows above
/// fall into the gap, empty rows coming in at the top.
pub open spec fn clear_full_rows(rows: Seq<u16>, width: int) -> Seq<u16> {
    let kept = rows.filter(not_full(width));
    kept + Seq::new((rows.len() - kept.len()) as nat, |i: int| 0u16)
}

/// How many rows are full.
pub open spec fn count_full_rows(rows: Seq<u16>, width: int) -> int {
    rows.len() - rows.filter(not_full(width)).len()
}

/// The rows with a mask's cells added.
pub open spec fn place_mask(rows: Seq<u16>, mask: MaskView) -> Seq<u16> {
    Seq::new(
        rows.len(),
        |j: int|
            if mask.bottom_row <= j < mask.bottom_row + 4 {
                rows[j] | mask.covered[j - mask.bottom_row]
            } else {
                rows[j]
            },
    )
}

/// The lowest row that a mask reaches by falling straight down from row
/// `bottom` to no lower than row `floor`, stopping above the first row at which
/// it hits.
pub open spec fn fall(rows: Seq<u16>, covered: Seq<u16>, bottom: int, floor: int) -> int
    decreases bottom - floor,
{
    if bottom <= floor {
        bottom
    } else if hits(rows, MaskView { bottom_row: bottom - 1, covered }) {
        bottom
    } else {
        fall(rows, covered, bottom - 1, floor)
    }
}

/// The falling piece lies inside the board, below the play height, and shares
/// no cell with the locked rows.
pub open spec fn piece_fits(b: BoardModel, m: Mino) -> bool {
    &&& piece_inside(b.width, m)
    &&& m.pivot_y - below_extent(m.mino_type, m.orientation) + 4 <= PLAY_HEIGHT
    &&& !overlaps(b.rows, mask_of(m, b.width))
}

/// A piece of known kind that lies between the sides of a board `width`
/// columns wide and on or above its floor.
pub open spec fn piece_inside(width: i8, m: Mino) -> bool {
    let t = m.mino_type;
    let o = m.orientation;
    &&& t.is_known()
    &&& m.pivot_x - left_extent(t, o) >= 0
    &&& m.pivot_x + right_extent(t, o) < width
    &&& m.pivot_y >= below_extent(t, o)
}

proof fn lemma_bit_nonzero(v: u16, b: u16)
    by (bit_vector)
    requires
        b < 16,
        (v >> b) & 1u16 == 1u16,
    ensures
        v != 0,
{
}

proof fn lemma_zero_shift(k: u16)
    by (bit_vector)
    ensures
        0u16 << k == 0u16,
{
}

/// The mask of a piece inside a board can be computed, and its rows are
/// non-empty up to the piece's height and empty above.
pub proof fn lemma_inside_mask(width: i8, m: Mino)
    requires
        4 <= width <= 16,
        piece_inside(width, m),
    ensures
        mask_computable(m, width),
        mask_of(m, width).covered.len() == 4,
        mask_of(m, width).bottom_row == m.pivot_y - below_extent(m.mino_type, m.orientation),
        1 <= shape_height(m.mino_type, m.orientation) <= 4,
        0 <= below_extent(m.mino_type, m.orientation) <= 2,
        0 <= left_extent(m.mino_type, m.orientation) <= 2,
        0 <= right_extent(m.mino_type, m.orientation) <= 2,
        0 <= m.pivot_x < width,
        forall|r: int|
            0 <= r < shape_height(m.mino_type, m.orientation) ==> #[trigger] mask_of(m, width).covered[r]
                != 0,
        forall|r: int|
            shape_height(m.mino_type, m.orientation) <= r < 4 ==> #[trigger] mask_of(
                m,
                width,
            ).covered[r] == 0,
{
    let t = m.mino_type;
    let o = m.orientation;
    lemma_span_within_extents(t, o, 0);
    assert(mask_computable(m, width));
    lemma_mask_covers_piece(m, width);
    let mask = mask_of(m, width);
    assert forall|r: int| 0 <= r < shape_height(t, o) implies #[trigger] mask.covered[r] != 0 by {
        lemma_span_within_extents(t, o, r);
        let dx = shape_span(t, o, r).0;
        let b = width - 1 - m.pivot_x - dx;
        assert(occupies(t, o, dx, r));
        assert(bit(mask.covered[r], b));
        lemma_bit_nonzero(mask.covered[r], b as u16);
    }
    assert forall|r: int| shape_height(t, o) <= r < 4 implies #[trigger] mask.covered[r] == 0 by {
        lemma_span_within_extents(t, o, r);
        lemma_zero_shift((shift_to_pivot(m, width) - right_extent(t, o)) as u16);
    }
}

/// A board whose rows, queue and hold are well formed: 4 to 16 columns; no
/// empty row below a non-empty one; no full row (full rows are cleared as soon
/// as they appear); nothing at or above the play height, the spawn row well
/// below it; every queued or held piece of a known kind.
pub open spec fn rows_wf(b: BoardModel) -> bool {
    &&& b.rows.len() == BOARD_HEIGHT
    &&& 4 <= b.width <= 16
    &&& gravity(b.rows)
    &&& forall|r: int| 0 <= r < b.rows.len() ==> #[trigger] b.rows[r] != full_row_of(b.width as int)
    &&& forall|r: int| PLAY_HEIGHT <= r < b.rows.len() ==> #[trigger] b.rows[r] == 0
    &&& b.spawn_height + 4 <= PLAY_HEIGHT
    &&& forall|i: int| 0 <= i < b.upcoming.len() ==> (#[trigger] b.upcoming[i]).is_known()
    &&& (b.hold matches Some(t) ==> t.is_known())
}

/// A well-formed board: rows, queue and hold well formed, and the falling
/// piece, if any, fitting.
pub open spec fn board_wf(b: BoardModel) -> bool {
    &&& rows_wf(b)
    &&& (b.active matches Some(m) ==> piece_fits(b, m))
}

proof fn lemma_or_nonzero(x: u16, y: u16)
    by (bit_vector)
    ensures
        y != 0 ==> x | y != 0,
        x != 0 ==> x | y != 0,
        x & y != 0 ==> x != 0,
        (x | 0) == x,
{
}

/// On rows without an empty row below a non-empty one, the game's
/// intersection test is exactly "shares a cell".
pub proof fn lemma_hits_is_overlap(rows: Seq<u16>, mask: MaskView)
    requires
        gravity(rows),
        0 <= mask.bottom_row,
        mask.bottom_row + 3 < rows.len(),
    ensures
        hits(rows, mask) == overlaps(rows, mask),
{
    let b = mask.bottom_row;
    if rows[b] == 0 {
        assert(rows[b + 1] == 0);
        assert(rows[b + 2] == 0);
        assert(rows[b + 3] == 0);
        lemma_or_nonzero(rows[b], mask.covered[0]);
        lemma_or_nonzero(rows[b + 1], mask.covered[1]);
        lemma_or_nonzero(rows[b + 2], mask.covered[2]);
        lemma_or_nonzero(rows[b + 3], mask.covered[3]);
    }
}

/// The new board of the game: 8 columns, spawning at row 20, nothing else.
pub open spec fn new_board_model() -> BoardModel {
    BoardModel {
        rows: Seq::new(BOARD_HEIGHT as nat, |i: int| 0u16),
        width: 8,
        active: None,
        hold: None,
        upcoming: Seq::empty(),
        spawn_height: 20,
    }
}

proof fn lemma_full_row_nonzero(width: int)
    requires
        1 <= width <= 16,
    ensures
        full_row_of(width) != 0,
{
    let s = (16 - width) as u16;
    assert(s < 16);
    assert(0xffffu16 >> s != 0) by (bit_vector)
        requires
            s < 16,
    ;
}

/// A new board is well formed, also with a queue of known pieces.
pub proof fn lemma_new_board_wf(upcoming: Seq<MinoType>)
    requires
        forall|i: int| 0 <= i < upcoming.len() ==> (#[trigger] upcoming[i]).is_known(),
    ensures
        board_wf(new_board_model()),
        board_wf(BoardModel { upcoming, ..new_board_model() }),
{
    lemma_full_row_nonzero(8);
}

impl Default for Board {
    fn default() -> (r: Board)
        ensures
            r@ == new_board_model(),
    {
        Board::new()
    }
}

impl Board {
    /// The new board of the game: 8 columns, spawning at row 20, nothing else.
    pub fn new() -> (r: Board)
        ensures
            r@ == new_board_model(),
    {
        let r = Board {
            rows: [0u16; 1024],
            width: 8,
            spawn_height: 20,
            upcoming_minos: VecDeque::new(),
            active_mino: None,
            hold: None,
        };
        assert(r@.rows =~= new_board_model().rows);
        r
    }

    /// A new board (8 columns, spawning at row 20) whose queue holds the given
    /// pieces.
    pub fn with_queue(upcoming: VecDeque<MinoType>) -> (r: Board)
        ensures
            r@ == (BoardModel { upcoming: upcoming@, ..new_board_model() }),
    {
        let r = Board {
            rows: [0u16; 1024],
            width: 8,
            spawn_height: 20,
            upcoming_minos: upcoming,
            active_mino: None,
            hold: None,
        };
        assert(r@.rows =~= new_board_model().rows);
        r
    }

    /// The row in which all `width` columns are filled.
    pub fn full_row(width: i8) -> (r: u16)
        requires
            1 <= width <= 16,
        ensures
            r == full_row_of(width as int),
            forall|b: int| 0 <= b < 16 ==> (crate::mino::bit(r, b) <==> b < width),
    {
        let r = u16::MAX >> ((16 - width) as u32);
        proof {
            let s = (16 - width) as u16;
            assert forall|b: int| 0 <= b < 16 implies (crate::mino::bit(r, b) <==> b < width) by {
                let bb = b as u16;
                let w = width as u16;
                assert(((0xffffu16 >> s) >> bb) & 1u16 == 1u16 <==> bb < w) by (bit_vector)
                    requires
                        s == 16u16 - w,
                        1 <= w <= 16,
                        bb < 16,
                ;
            }
        }
        r
    }

    /// The filled row of a `width` columns wide board with a hole at the column
    /// whose bit is `hole`.
    pub fn row_with_hole(width: i8, hole: i8) -> (r: u16)
        requires
            1 <= width <= 16,
            0 <= hole < 16,
        ensures
            r == row_with_hole_of(width as int, hole as int),
    {
        Board::full_row(width) ^ (1u16 << (hole as u32))
    }
}

/// The game's intersection test of a mask against the rows.
pub fn test_intersection(mask: &MinoMask, board_rows: &[u16; BOARD_HEIGHT]) -> (r: bool)
    requires
        mask.bottom_row + 3 < BOARD_HEIGHT,
    ensures
        r == hits(board_rows@, mask@),
{
    if board_rows[mask.bottom_row] == 0 {
        return false;
    }
    let a0 = board_rows[mask.bottom_row] & mask.covered[0];
    let a1 = board_rows[mask.bottom_row + 1] & mask.covered[1];
    let a2 = board_rows[mask.bottom_row + 2] & mask.covered[2];
    let a3 = board_rows[mask.bottom_row + 3] & mask.covered[3];
    let acc = a0 | a1 | a2 | a3;
    assert((acc != 0) == (a0 != 0 || a1 != 0 || a2 != 0 || a3 != 0)) by (bit_vector)
        requires
            acc == a0 | a1 | a2 | a3,
    ;
    acc != 0
}

impl MinoMask {
    /// Moves the mask down to where a hard drop lands it: the lowest row that
    /// it reaches falling straight down from where it is.
    pub fn set_hard_drop_row(&mut self, board: &Board)
        requires
            old(self).bottom_row + 3 < BOARD_HEIGHT,
        ensures
            final(self)@ == (MaskView {
                bottom_row: fall(board.rows@, old(self)@.covered, old(self)@.bottom_row, 0),
                covered: old(self)@.covered,
            }),
    {
        let ghost start = self.bottom_row as int;
        let mut bot = self.bottom_row;
        while bot > 0
            invariant
                self.covered == old(self).covered,
                self.bottom_row == bot,
                bot <= start,
                start == old(self).bottom_row,
                start + 3 < BOARD_HEIGHT,
                fall(board.rows@, self.covered@, bot as int, 0) == fall(
                    board.rows@,
                    self.covered@,
                    start,
                    0,
                ),
            decreases bot,
        {
            self.bottom_row = bot - 1;
            if test_intersection(self, &board.rows) {
                self.bottom_row = bot;
                return ;
            }
            bot = bot - 1;
        }
    }
}

impl Board {
    /// Whether the board is well formed (see `board_wf`).
    pub fn is_well_formed(&self) -> (r: bool)
        ensures
            r == board_wf(self@),
    {
        if !self.rows_well_formed() {
            return false;
        }
        match self.active_mino {
            None => true,
            Some(m) => {
                if let MinoType::Unknown(_) = m.mino_type {
                    return false;
                }
                self.fits(m)
            },
        }
    }

    /// Whether a piece of known kind fits on this board (see `piece_fits`).
    pub fn fits(&self, m: Mino) -> (r: bool)
        requires
            4 <= self.width <= 16,
            m.mino_type.is_known(),
        ensures
            r == piece_fits(self@, m),
    {
        let x = m.pivot_x as i16;
        if x - (m.squares_left_of_pivot() as i16) < 0 || x + (m.squares_right_of_pivot() as i16)
            >= self.width as i16 {
            return false;
        }
        let below = m.squares_below_pivot() as usize;
        if m.pivot_y < below || m.pivot_y - below > PLAY_HEIGHT - 4 {
            return false;
        }
        proof {
            lemma_inside_mask(self.width, m);
        }
        match mask_from_mino(&m, self.width) {
            Ok(mask) => !crate::board::mask_overlaps(&mask, &self.rows),
            Err(_) => false,
        }
    }

    /// Whether the rows, queue and hold are well formed (see `rows_wf`).
    pub fn rows_well_formed(&self) -> (r: bool)
        ensures
            r == rows_wf(self@),
    {
        if self.width < 4 || self.width > 16 {
            return false;
        }
        if self.spawn_height > PLAY_HEIGHT - 4 {
            return false;
        }
        let full = Board::full_row(self.width);
        let mut seen_empty = false;
        let mut i: usize = 0;
        while i < BOARD_HEIGHT
            invariant
                i <= BOARD_HEIGHT,
                4 <= self.width <= 16,
                full == full_row_of(self.width as int),
                seen_empty <==> exists|j: int| 0 <= j < i && #[trigger] self.rows@[j] == 0,
                gravity(self.rows@.take(i as int)),
                forall|j: int| 0 <= j < i ==> #[trigger] self.rows@[j] != full,
                forall|j: int| PLAY_HEIGHT <= j < i ==> #[trigger] self.rows@[j] == 0,
            decreases BOARD_HEIGHT - i,
        {
            let row = self.rows[i];
            if row == full {
                assert(!rows_wf(self@));
                return false;
            }
            if i >= PLAY_HEIGHT && row != 0 {
                assert(!rows_wf(self@));
                return false;
            }
            if row == 0 {
                seen_empty = true;
            } else if seen_empty {
                proof {
                    let j = choose|j: int| 0 <= j < i && #[trigger] self.rows@[j] == 0;
                    assert(self.rows@[j] == 0 && self.rows@[i as int] != 0);
                    assert(!gravity(self.rows@));
                }
                return false;
            }
            i = i + 1;
            assert forall|a: int, c: int|
                #![trigger self.rows@.take(i as int)[a], self.rows@.take(i as int)[c]]
                0 <= a < c < i && self.rows@.take(i as int)[a] == 0 implies self.rows@.take(
                i as int,
            )[c] == 0 by {
                if c < i - 1 {
                    assert(self.rows@.take(i - 1)[a] == 0);
                    assert(self.rows@.take(i - 1)[c] == 0);
                } else {
                    assert(self.rows@[a] == 0);
                }
            }
        }
        assert(self.rows@.take(BOARD_HEIGHT as int) =~= self.rows@);
        let mut k: usize = 0;
        while k < self.upcoming_minos.len()
            invariant
                k <= self.upcoming_minos@.len(),
                forall|j: int| 0 <= j < k ==> (#[trigger] self.upcoming_minos@[j]).is_known(),
            decreases self.upcoming_minos@.len() - k,
        {
            if let MinoType::Unknown(_) = self.upcoming_minos[k] {
                assert(!self@.upcoming[k as int].is_known());
                assert(!rows_wf(self@));
                return false;
            }
            k = k + 1;
        }
        if let Some(MinoType::Unknown(_)) = self.hold {
            return false;
        }
        true
    }
}

/// Whether a mask shares a cell with the rows.
pub fn mask_overlaps(mask: &MinoMask, rows: &[u16; BOARD_HEIGHT]) -> (r: bool)
    requires
        mask.bottom_row + 3 < BOARD_HEIGHT,
    ensures
        r == overlaps(rows@, mask@),
{
    let b = mask.bottom_row;
    rows[b] & mask.covered[0] != 0 || rows[b + 1] & mask.covered[1] != 0 || rows[b + 2]
        & mask.covered[2] != 0 || rows[b + 3] & mask.covered[3] != 0
}

} // verus!
