//! The rules of the game: what each player action does to a board.
use vstd::prelude::*;

use crate::board::{
    BOARD_HEIGHT,
    PLAY_HEIGHT,
    Board,
    BoardModel,
    board_wf,
    hits,
    overlaps,
    gravity,
    fall,
    place_mask,
    clear_full_rows,
    count_full_rows,
    full_row_of,
    not_full,
    piece_inside,
    lemma_hits_is_overlap,
    lemma_inside_mask,
    test_intersection,
    mask_overlaps,
};
use crate::rows::{
    lemma_fall,
    lemma_filter_step,
    lemma_filter_keeps,
    lemma_no_full_kept,
    lemma_filter_prefix_len,
    lemma_filter_gravity,
    lemma_place_gravity,
};
use crate::messages::{ActionFields, MinoType, PlayerAction, PlayerActions, action_debug_name};
use vstd::string::StringExecFns;
use crate::mino::{
    Mino,
    MaskView,
    Orientation,
    shape_height,
    mask_from_mino,
    is_mask_computable,
    mask_of,
    mask_computable,
    below_extent,
    left_extent,
    right_extent,
    cw_of,
    ccw_of,
    half_of,
    lemma_span_within_extents,
};
use crate::penalty::{Penalty, penalty_msg};

verus! {

/// A penalty as a value: its reason and its significance.
pub type PenaltyView = (Seq<char>, u16);

/// The penalty for a piece that can not spawn: the player has lost.
pub open spec fn top_out_penalty() -> PenaltyView {
    ("TOP-OUT!"@, 100u16)
}

/// Where a new piece of kind `t` appears: pointing up, its pivot in the middle
/// column (the left one of two) of the spawn row.
pub open spec fn spawn_of(t: MinoType, b: BoardModel) -> Mino {
    Mino {
        mino_type: t,
        orientation: Orientation::Up,
        pivot_x: ((b.width - 1) / 2) as i8,
        pivot_y: b.spawn_height,
    }
}

/// Taking the next piece from the queue when no piece is falling. When the
/// spawn row is not empty the new piece is checked: a piece of unknown kind
/// is dropped with a penalty, and a piece that hits the stack goes back to the
/// front of the queue and the player tops out.
pub open spec fn set_active_step(b: BoardModel) -> (BoardModel, Option<PenaltyView>) {
    if b.active is Some || b.upcoming.len() == 0 {
        (b, None)
    } else {
        let t = b.upcoming[0];
        let m = spawn_of(t, b);
        let popped = BoardModel { upcoming: b.upcoming.drop_first(), ..b };
        if b.rows[b.spawn_height as int] != 0 {
            if !t.is_known() {
                (popped, Some(crate::mino::unsupported_mino_penalty()))
            } else if hits(b.rows, mask_of(m, b.width)) {
                (b, Some(top_out_penalty()))
            } else {
                (BoardModel { active: Some(m), ..popped }, None)
            }
        } else {
            (BoardModel { active: Some(m), ..popped }, None)
        }
    }
}

/// A result without a value, its penalty taken as a value.
pub open spec fn unit_result_view(r: Result<(), Penalty>) -> Option<PenaltyView> {
    match r {
        Ok(_) => None,
        Err(p) => Some(p@),
    }
}

/// A result, its penalty taken as a value.
pub open spec fn result_view(r: Result<u8, Penalty>) -> Result<u8, PenaltyView> {
    match r {
        Ok(n) => Ok(n),
        Err(p) => Err(p@),
    }
}

/// The spawned piece of a known kind lies inside a well-formed board.
proof fn lemma_spawn_inside(t: MinoType, b: BoardModel)
    requires
        4 <= b.width <= 16,
        t.is_known(),
    ensures
        spawn_of(t, b).pivot_x - left_extent(t, Orientation::Up) >= 0,
        spawn_of(t, b).pivot_x + right_extent(t, Orientation::Up) < b.width,
        below_extent(t, Orientation::Up) == 0,
        mask_computable(spawn_of(t, b), b.width),
{
    lemma_span_within_extents(t, Orientation::Up, 0);
}

fn spawn_mino(mino_type: MinoType, board: &Board) -> (r: Mino)
    requires
        1 <= board.width,
    ensures
        r == spawn_of(mino_type, board@),
{
    let pivot_x = (board.width - 1) / 2;
    Mino { mino_type, orientation: Orientation::Up, pivot_x, pivot_y: board.spawn_height }
}

/// Takes the next piece from the queue when no piece is falling (see
/// `set_active_step`).
pub fn try_set_active_mino(board: &mut Board) -> (r: Result<(), Penalty>)
    requires
        1 <= old(board).width,
        old(board)@.active is None && old(board)@.upcoming.len() > 0 ==> {
            &&& old(board).spawn_height + 3 < BOARD_HEIGHT
            &&& old(board)@.rows[old(board).spawn_height as int] != 0 ==> mask_computable(
                spawn_of(old(board)@.upcoming[0], old(board)@),
                old(board).width,
            )
        },
    ensures
        (final(board)@, unit_result_view(r)) == set_active_step(old(board)@),
{
    if board.active_mino.is_none() {
        let maybe_mino_type = board.upcoming_minos.pop_front();
        match maybe_mino_type {
            None => {},
            Some(mino_type) => {
                let mino = spawn_mino(mino_type, board);
                if board.rows[board.spawn_height] != 0 {
                    proof {
                        if mino_type.is_known() {
                            lemma_span_within_extents(mino_type, Orientation::Up, 0);
                        }
                    }
                    match mask_from_mino(&mino, board.width) {
                        Err(p) => {
                            return Err(p);
                        },
                        Ok(mask) => {
                            if test_intersection(&mask, &board.rows) {
                                // put it back in the queue before erroring out.
                                board.upcoming_minos.push_front(mino.mino_type);
                                assert(board.upcoming_minos@ =~= old(board)@.upcoming);
                                return Err(
                                    Penalty { reason: "TOP-OUT!".to_string(), significance: 100 },
                                );
                            }
                        },
                    }
                }
                board.active_mino = Some(mino);
            },
        }
    }
    Ok(())
}


/// The offsets of the Super Rotation System for the J, L, S, T and Z pieces
/// (also used for a piece of unknown kind), the I piece and the O piece.
pub open spec fn offsets_of(t: MinoType, o: Orientation) -> Seq<(i8, i8)> {
    match t {
        MinoType::I => match o {
            Orientation::Up => seq![(0i8, 0i8), (-1i8, 0i8), (2i8, 0i8), (-1i8, 0i8), (2i8, 0i8)],
            Orientation::Right => seq![(-1i8, 0i8), (0i8, 0i8), (0i8, 0i8), (0i8, 1i8), (0i8, -2i8)],
            Orientation::Down => seq![(-1i8, 1i8), (1i8, 1i8), (-2i8, 1i8), (1i8, 0i8), (-2i8, 0i8)],
            Orientation::Left => seq![(0i8, 1i8), (0i8, 1i8), (0i8, 1i8), (0i8, -1i8), (0i8, 2i8)],
        },
        MinoType::O => match o {
            Orientation::Up => seq![(0i8, 0i8)],
            Orientation::Right => seq![(0i8, -1i8)],
            Orientation::Down => seq![(-1i8, -1i8)],
            Orientation::Left => seq![(-1i8, 0i8)],
        },
        _ => match o {
            Orientation::Up => seq![(0i8, 0i8), (0i8, 0i8), (0i8, 0i8), (0i8, 0i8), (0i8, 0i8)],
            Orientation::Right => seq![(0i8, 0i8), (1i8, 0i8), (1i8, -1i8), (0i8, 2i8), (1i8, 2i8)],
            Orientation::Down => seq![(0i8, 0i8), (0i8, 0i8), (0i8, 0i8), (0i8, 0i8), (0i8, 0i8)],
            Orientation::Left => seq![(0i8, 0i8), (-1i8, 0i8), (-1i8, -1i8), (0i8, 2i8), (-1i8, 2i8)],
        },
    }
}

/// Every offset is at most two columns and two rows, and every piece kind has
/// at least one.
proof fn lemma_offsets_small(t: MinoType, o: Orientation)
    ensures
        offsets_of(t, o).len() >= 1,
        forall|k: int|
            0 <= k < offsets_of(t, o).len() ==> -2 <= (#[trigger] offsets_of(t, o)[k]).0 <= 2
                && -2 <= offsets_of(t, o)[k].1 <= 2,
{
}

/// The column of a piece's pivot plus the column of its orientation's last
/// offset. A turn for which no kick fits leaves the piece at the last kick,
/// which keeps this number.
pub open spec fn turn_anchor(m: Mino) -> int {
    m.pivot_x + offsets_of(m.mino_type, m.orientation).last().0
}

/// Where a falling piece may be after the actions of the game: of a known
/// kind, within a few columns of the board (a turn for which no kick fits may
/// leave it past a side, over the stack or below the floor), and at most
/// eight rows above the play height.
pub open spec fn piece_loose(width: i8, m: Mino) -> bool {
    &&& m.mino_type.is_known()
    &&& -2 <= turn_anchor(m) <= width + 1
    &&& m.pivot_y <= BOARD_HEIGHT - 4
}

/// A board on which actions can be played: 4 to 16 columns (so that every
/// piece can be taken from the queue), the spawn row at least four rows below
/// the top, queued and held pieces of known kinds (the server deals no
/// other), and the falling piece, if any, loose as `piece_loose` says. Every
/// well-formed board is one, and so is what a refused turn leaves.
pub open spec fn board_ok(b: BoardModel) -> bool {
    &&& b.rows.len() == BOARD_HEIGHT
    &&& 4 <= b.width <= 16
    &&& b.spawn_height + 4 <= BOARD_HEIGHT
    &&& forall|i: int| 0 <= i < b.upcoming.len() ==> (#[trigger] b.upcoming[i]).is_known()
    &&& (b.hold matches Some(t) ==> t.is_known())
    &&& (b.active matches Some(m) ==> piece_loose(b.width, m))
}

/// What an action needs, beyond `board_ok`, to be carried out, once a piece
/// has been taken from the queue if none was falling (when the player tops
/// out there, nothing more is needed): a hard drop needs a well-formed board (the piece is dropped from
/// where it is, on the assumption that it is clear of the stack, and the line
/// clears rest on the rows being well formed); a turn needs the piece at
/// least eight rows below the top of the board, its kicks reaching four rows
/// up; a soft drop needs the falling piece's mask to be
/// computable; a horizontal move needs the falling piece on or above the
/// floor, and its mask computable when its lowest row holds cells, unless the
/// move goes past a side. Turns and holds need nothing.
pub open spec fn action_ok(b: BoardModel, a: PlayerAction) -> bool {
    set_active_step(b).1 is None ==> piece_needs(set_active_step(b).0, a)
}

/// What an action needs of a board on which the falling piece, if any, is
/// already there (see `action_ok`).
pub open spec fn piece_needs(b: BoardModel, a: PlayerAction) -> bool {
    a.action is Some ==> {
        &&& a.action_type == PlayerActions::HardDrop ==> board_wf(b)
        &&& b.active matches Some(m) ==> {
            let below = below_extent(m.mino_type, m.orientation);
            &&& is_turn(a.action_type) ==> m.pivot_y <= BOARD_HEIGHT - 8
            &&& a.action_type == PlayerActions::SoftDrop ==> mask_computable(m, b.width)
            &&& a.action_type == PlayerActions::Horizontal && !move_past_edge(
                b.width,
                m,
                a.action->0.right,
            ) ==> {
                &&& m.pivot_y >= below
                &&& b.rows[m.pivot_y - below] != 0 ==> mask_computable(m, b.width)
            }
        }
    }
}

/// Whether moving piece `m` by `right` columns would take it past a side of
/// a board `width` columns wide (the side it moves towards).
pub open spec fn move_past_edge(width: i8, m: Mino, right: i8) -> bool {
    let new_x = m.pivot_x + right;
    ||| right < 0 && new_x - left_extent(m.mino_type, m.orientation) < 0
    ||| right >= 0 && new_x + right_extent(m.mino_type, m.orientation) >= width
}

/// Taking a piece from the queue keeps a board fit for actions, and a piece
/// taken is of known kind.
proof fn lemma_set_active_ok(b: BoardModel)
    requires
        board_ok(b),
        b.active is None,
    ensures
        board_ok(set_active_step(b).0),
        set_active_step(b).0.active matches Some(m) ==> m.mino_type.is_known(),
{
    if b.upcoming.len() > 0 {
        let t = b.upcoming[0];
        lemma_offsets_small(t, Orientation::Up);
        lemma_span_within_extents(t, Orientation::Up, 0);
    }
}

/// A well-formed board is fit for every action.
pub proof fn lemma_wf_ok(b: BoardModel, a: PlayerAction)
    requires
        board_wf(b),
    ensures
        board_ok(b),
        action_ok(b, a),
{
    lemma_set_active_wf(b);
    if b.active is Some {
        let m = b.active->0;
        lemma_inside_mask(b.width, m);
        lemma_offsets_small(m.mino_type, m.orientation);
        lemma_span_within_extents(m.mino_type, m.orientation, 0);
    } else if b.upcoming.len() > 0 {
        lemma_spawn_inside(b.upcoming[0], b);
    }
    let b1 = set_active_step(b).0;
    if b1.active is Some {
        let m = b1.active->0;
        lemma_inside_mask(b1.width, m);
        lemma_span_within_extents(m.mino_type, m.orientation, 0);
    }
}

/// The offsets are those of the Super Rotation System: for the J, L, S, T and
/// Z pieces, the I piece and the O piece, in each orientation.
pub proof fn lemma_srs_offset_table()
    ensures
        forall|t: MinoType| #![trigger offsets_of(t, Orientation::Up)]
            t != MinoType::I && t != MinoType::O ==> {
                &&& offsets_of(t, Orientation::Up) == seq![(0i8, 0i8), (0i8, 0i8), (0i8, 0i8), (0i8, 0i8), (0i8, 0i8)]
                &&& offsets_of(t, Orientation::Right) == seq![(0i8, 0i8), (1i8, 0i8), (1i8, -1i8), (0i8, 2i8), (1i8, 2i8)]
                &&& offsets_of(t, Orientation::Down) == seq![(0i8, 0i8), (0i8, 0i8), (0i8, 0i8), (0i8, 0i8), (0i8, 0i8)]
                &&& offsets_of(t, Orientation::Left) == seq![(0i8, 0i8), (-1i8, 0i8), (-1i8, -1i8), (0i8, 2i8), (-1i8, 2i8)]
            },
        offsets_of(MinoType::I, Orientation::Up) == seq![(0i8, 0i8), (-1i8, 0i8), (2i8, 0i8), (-1i8, 0i8), (2i8, 0i8)],
        offsets_of(MinoType::I, Orientation::Right) == seq![(-1i8, 0i8), (0i8, 0i8), (0i8, 0i8), (0i8, 1i8), (0i8, -2i8)],
        offsets_of(MinoType::I, Orientation::Down) == seq![(-1i8, 1i8), (1i8, 1i8), (-2i8, 1i8), (1i8, 0i8), (-2i8, 0i8)],
        offsets_of(MinoType::I, Orientation::Left) == seq![(0i8, 1i8), (0i8, 1i8), (0i8, 1i8), (0i8, -1i8), (0i8, 2i8)],
        offsets_of(MinoType::O, Orientation::Up) == seq![(0i8, 0i8)],
        offsets_of(MinoType::O, Orientation::Right) == seq![(0i8, -1i8)],
        offsets_of(MinoType::O, Orientation::Down) == seq![(-1i8, -1i8)],
        offsets_of(MinoType::O, Orientation::Left) == seq![(-1i8, 0i8)],
{
}

/// An upright I piece lying against the left wall of an empty board turns
/// clockwise back to flat by the second kick: its pivot moves one column right
/// (and one row up), so the piece covers the four leftmost columns.
pub proof fn lemma_i_turns_off_left_wall(b: BoardModel, y: usize)
    requires
        b.rows.len() == BOARD_HEIGHT,
        forall|i: int| 0 <= i < b.rows.len() ==> #[trigger] b.rows[i] == 0,
        4 <= b.width <= 16,
        1 <= y <= BOARD_HEIGHT - 8,
        b.active == Some(
            Mino { mino_type: MinoType::I, orientation: Orientation::Left, pivot_x: 0, pivot_y: y },
        ),
    ensures
        rotate_step(b, Turn::Clockwise) == (
            BoardModel {
                active: Some(
                    Mino {
                        mino_type: MinoType::I,
                        orientation: Orientation::Up,
                        pivot_x: 1,
                        pivot_y: (y + 1) as usize,
                    },
                ),
                ..b
            },
            Ok::<u8, PenaltyView>(0u8),
        ),
{
    let m = b.active->0;
    let m0 = Mino { orientation: Orientation::Up, ..m };
    let kicks = kicks_of(MinoType::I, Orientation::Left, Orientation::Up);
    assert(kicks[0] == (0i8, 1i8));
    assert(kicks[1] == (1i8, 1i8));
    let m1 = Mino { pivot_x: 0i8, ..m0 };
    let m2 = Mino { pivot_x: 1i8, ..m0 };
    let m3 = Mino { pivot_y: (y + 1) as usize, ..m2 };
    assert(rotate_from(b.rows, b.width, m0, 0, y, kicks, 0) == rotate_from(
        b.rows,
        b.width,
        m1,
        0,
        y,
        kicks,
        1,
    ));
    assert(!hits(b.rows, mask_of(m3, b.width)));
    assert(rotate_from(b.rows, b.width, m1, 0, y, kicks, 1) == (m3, true));
    assert(mask_of(m3, b.width).bottom_row != mask_of(m, b.width).bottom_row);
}

/// The shifts tried, in order, when a piece turns from `o0` to `o1`:
/// the differences of the two orientations' offsets.
pub open spec fn kicks_of(t: MinoType, o0: Orientation, o1: Orientation) -> Seq<(i8, i8)> {
    let a = offsets_of(t, o0);
    let b = offsets_of(t, o1);
    Seq::new(a.len(), |k: int| ((a[k].0 - b[k].0) as i8, (a[k].1 - b[k].1) as i8))
}

/// Every kick moves a piece by at most four columns and four rows, and moves it
/// down by at most five rows less the turned piece's reach below its pivot.
proof fn lemma_kicks_small(t: MinoType, o0: Orientation, o1: Orientation)
    ensures
        kicks_of(t, o0, o1).len() == offsets_of(t, o0).len(),
        offsets_of(t, o0).len() == offsets_of(t, o1).len(),
        forall|k: int|
            0 <= k < kicks_of(t, o0, o1).len() ==> -4 <= (#[trigger] kicks_of(t, o0, o1)[k]).0 <= 4
                && -4 <= kicks_of(t, o0, o1)[k].1 <= 4 && kicks_of(t, o0, o1)[k].1 + 5
                >= below_extent(t, o1),
{
    let a = offsets_of(t, o0);
    let b = offsets_of(t, o1);
    assert forall|k: int| 0 <= k < kicks_of(t, o0, o1).len() implies -4 <= (
    #[trigger] kicks_of(t, o0, o1)[k]).0 <= 4 && -4 <= kicks_of(t, o0, o1)[k].1 <= 4 && kicks_of(
        t,
        o0,
        o1,
    )[k].1 + 5 >= below_extent(t, o1) by {
        assert(-2 <= a[k].0 <= 2 && -2 <= b[k].0 <= 2 && -2 <= a[k].1 <= 2 && -2 <= b[k].1 <= 2);
        assert(a[k].1 - b[k].1 + 5 >= below_extent(t, o1)) by {
            if b[k].1 == 2 {
                assert(t == MinoType::I ==> o1 == Orientation::Left);
                assert(t != MinoType::I && t != MinoType::O ==> o1 == Orientation::Right || o1
                    == Orientation::Left);
            }
        }
    }
}

fn get_offset_data_jlstz(orientation: &Orientation) -> (r: Vec<(i8, i8)>)
    ensures
        r@ == offsets_of(MinoType::T, *orientation),
{
    match orientation {
        Orientation::Up => vec![(0, 0), (0, 0), (0, 0), (0, 0), (0, 0)],
        Orientation::Right => vec![(0, 0), (1, 0), (1, -1), (0, 2), (1, 2)],
        Orientation::Down => vec![(0, 0), (0, 0), (0, 0), (0, 0), (0, 0)],
        Orientation::Left => vec![(0, 0), (-1, 0), (-1, -1), (0, 2), (-1, 2)],
    }
}

fn get_offset_data_i(orientation: &Orientation) -> (r: Vec<(i8, i8)>)
    ensures
        r@ == offsets_of(MinoType::I, *orientation),
{
    match orientation {
        Orientation::Up => vec![(0, 0), (-1, 0), (2, 0), (-1, 0), (2, 0)],
        Orientation::Right => vec![(-1, 0), (0, 0), (0, 0), (0, 1), (0, -2)],
        Orientation::Down => vec![(-1, 1), (1, 1), (-2, 1), (1, 0), (-2, 0)],
        Orientation::Left => vec![(0, 1), (0, 1), (0, 1), (0, -1), (0, 2)],
    }
}

fn get_offset_data_o(orientation: &Orientation) -> (r: Vec<(i8, i8)>)
    ensures
        r@ == offsets_of(MinoType::O, *orientation),
{
    match orientation {
        Orientation::Up => vec![(0, 0)],
        Orientation::Right => vec![(0, -1)],
        Orientation::Down => vec![(-1, -1)],
        Orientation::Left => vec![(-1, 0)],
    }
}

fn get_offset_data(mino_type: &MinoType, orientation: &Orientation) -> (r: Vec<(i8, i8)>)
    ensures
        r@ == offsets_of(*mino_type, *orientation),
{
    match *mino_type {
        MinoType::I => get_offset_data_i(orientation),
        MinoType::O => get_offset_data_o(orientation),
        _ => get_offset_data_jlstz(orientation),
    }
}

fn get_kicks(o0: &Orientation, o1: &Orientation, mino_type: &MinoType) -> (r: Vec<(i8, i8)>)
    ensures
        r@ == kicks_of(*mino_type, *o0, *o1),
{
    let offsets0 = get_offset_data(mino_type, o0);
    let offsets1 = get_offset_data(mino_type, o1);
    proof {
        lemma_kicks_small(*mino_type, *o0, *o1);
    }
    let mut out: Vec<(i8, i8)> = Vec::new();
    let mut k: usize = 0;
    while k < offsets0.len()
        invariant
            offsets0@ == offsets_of(*mino_type, *o0),
            offsets1@ == offsets_of(*mino_type, *o1),
            offsets0@.len() == offsets1@.len(),
            k <= offsets0@.len(),
            out@ == kicks_of(*mino_type, *o0, *o1).take(k as int),
            forall|j: int|
                0 <= j < offsets0@.len() ==> -2 <= (#[trigger] offsets0@[j]).0 <= 2 && -2
                    <= offsets0@[j].1 <= 2 && -2 <= offsets1@[j].0 <= 2 && -2 <= offsets1@[j].1
                    <= 2,
        decreases offsets0.len() - k,
    {
        let (a0, a1) = offsets0[k];
        let (b0, b1) = offsets1[k];
        out.push((a0 - b0, a1 - b1));
        k = k + 1;
        assert(out@ =~= kicks_of(*mino_type, *o0, *o1).take(k as int));
    }
    assert(out@ =~= kicks_of(*mino_type, *o0, *o1));
    out
}

/// A turn of the falling piece.
pub enum Turn {
    Clockwise,
    CounterClockwise,
    Half,
}

/// The orientation after a turn.
pub open spec fn turned(turn: Turn, o: Orientation) -> Orientation {
    match turn {
        Turn::Clockwise => cw_of(o),
        Turn::CounterClockwise => ccw_of(o),
        Turn::Half => half_of(o),
    }
}

/// Trying the kicks from the `k`-th on for piece `m` (already turned), whose
/// pivot was at (`old_x`, `old_y`) before the turn. A kick is skipped when it
/// would put the piece past a side of the board, when near the floor it would
/// put the piece below it, or when the piece would hit the stack; the first
/// kick that is not skipped is taken. The piece keeps the column of every kick
/// tried and the row of every kick that got past the side and floor checks,
/// also when no kick is taken. The result is the piece and whether a kick was
/// taken. `lemma_rotate_first_fit` states it directly: the first kick that
/// fits is taken; `lemma_rotate_refused` says where a refusal leaves the piece.
pub open spec fn rotate_from(
    rows: Seq<u16>,
    width: i8,
    m: Mino,
    old_x: i8,
    old_y: usize,
    kicks: Seq<(i8, i8)>,
    k: int,
) -> (Mino, bool)
    decreases kicks.len() - k,
{
    if k < 0 || k >= kicks.len() {
        (m, false)
    } else {
        let dx = kicks[k].0;
        let dy = kicks[k].1;
        let t = m.mino_type;
        let o = m.orientation;
        let m1 = Mino { pivot_x: (old_x + dx) as i8, ..m };
        if m1.pivot_x - left_extent(t, o) < 0 || m1.pivot_x + right_extent(t, o) >= width {
            rotate_from(rows, width, m1, old_x, old_y, kicks, k + 1)
        } else if old_y < 5 && old_y + dy < below_extent(t, o) {
            rotate_from(rows, width, m1, old_x, old_y, kicks, k + 1)
        } else {
            let m2 = Mino { pivot_y: (old_y + dy) as usize, ..m1 };
            if hits(rows, mask_of(m2, width)) {
                rotate_from(rows, width, m2, old_x, old_y, kicks, k + 1)
            } else {
                (m2, true)
            }
        }
    }
}

/// Why a turn that leaves the piece on the very cells it covered (an O piece,
/// say) is penalised: the board does not change.
pub open spec fn unchanged_turn_reason() -> Seq<char> {
    "Turning the piece changed no cell"@
}

/// The turned piece `m` moved by a kick from the pivot it had before the turn.
pub open spec fn kicked(m: Mino, old_x: i8, old_y: usize, kick: (i8, i8)) -> Mino {
    Mino { pivot_x: (old_x + kick.0) as i8, pivot_y: (old_y + kick.1) as usize, ..m }
}

/// Whether a kick lets the turned piece `m` in: the piece stays between the
/// sides, does not go below the floor (checked near the floor), and does not
/// hit the stack.
pub open spec fn kick_fits(
    rows: Seq<u16>,
    width: i8,
    m: Mino,
    old_x: i8,
    old_y: usize,
    kick: (i8, i8),
) -> bool {
    let t = m.mino_type;
    let o = m.orientation;
    let x = (old_x + kick.0) as i8;
    &&& x - left_extent(t, o) >= 0
    &&& x + right_extent(t, o) < width
    &&& !(old_y < 5 && old_y + kick.1 < below_extent(t, o))
    &&& !hits(rows, mask_of(kicked(m, old_x, old_y, kick), width))
}

/// Turning takes the first kick that fits: the turn is taken exactly when
/// some kick fits, and then the piece is where the first such kick puts it.
pub proof fn lemma_rotate_first_fit(
    rows: Seq<u16>,
    width: i8,
    m: Mino,
    old_x: i8,
    old_y: usize,
    kicks: Seq<(i8, i8)>,
    k: int,
)
    requires
        0 <= k,
    ensures
        rotate_from(rows, width, m, old_x, old_y, kicks, k).1 <==> exists|j: int|
            k <= j < kicks.len() && #[trigger] kick_fits(rows, width, m, old_x, old_y, kicks[j]),
        rotate_from(rows, width, m, old_x, old_y, kicks, k).1 ==> exists|j: int|
            {
                &&& k <= j < kicks.len()
                &&& #[trigger] kick_fits(rows, width, m, old_x, old_y, kicks[j])
                &&& forall|i: int|
                    k <= i < j ==> !#[trigger] kick_fits(rows, width, m, old_x, old_y, kicks[i])
                &&& rotate_from(rows, width, m, old_x, old_y, kicks, k).0 == kicked(
                    m,
                    old_x,
                    old_y,
                    kicks[j],
                )
            },
    decreases kicks.len() - k,
{
    if k < kicks.len() {
        let dx = kicks[k].0;
        let dy = kicks[k].1;
        let m1 = Mino { pivot_x: (old_x + dx) as i8, ..m };
        let m2 = Mino { pivot_y: (old_y + dy) as usize, ..m1 };
        assert(m2 == kicked(m, old_x, old_y, kicks[k]));
        assert forall|j: int| 0 <= j < kicks.len() implies kick_fits(
            rows,
            width,
            m1,
            old_x,
            old_y,
            #[trigger] kicks[j],
        ) == kick_fits(rows, width, m, old_x, old_y, kicks[j]) && kick_fits(
            rows,
            width,
            m2,
            old_x,
            old_y,
            kicks[j],
        ) == kick_fits(rows, width, m, old_x, old_y, kicks[j]) && kicked(
            m1,
            old_x,
            old_y,
            kicks[j],
        ) == kicked(m, old_x, old_y, kicks[j]) && kicked(m2, old_x, old_y, kicks[j]) == kicked(
            m,
            old_x,
            old_y,
            kicks[j],
        ) by {
            assert(kicked(m1, old_x, old_y, kicks[j]) == kicked(m, old_x, old_y, kicks[j]));
            assert(kicked(m2, old_x, old_y, kicks[j]) == kicked(m, old_x, old_y, kicks[j]));
        }
        lemma_rotate_first_fit(rows, width, m1, old_x, old_y, kicks, k + 1);
        lemma_rotate_first_fit(rows, width, m2, old_x, old_y, kicks, k + 1);
        if kick_fits(rows, width, m, old_x, old_y, kicks[k]) {
            assert(rotate_from(rows, width, m, old_x, old_y, kicks, k) == (m2, true));
        } else {
            assert(!kick_fits(rows, width, m, old_x, old_y, kicks[k]));
        }
    }
}

/// Turning the falling piece. Without a falling piece this is a penalty and
/// nothing changes. Otherwise the piece turns and the kicks are tried: when
/// one is taken that is the new piece; when none is, the piece stays as the
/// trials left it and the turn gives a penalty. A turn whose new piece covers
/// the same cells as before is taken but penalised too.
pub open spec fn rotate_step(b: BoardModel, turn: Turn) -> (BoardModel, Result<u8, PenaltyView>) {
    match b.active {
        None => (b, Err(penalty_msg("Trying to rotate without an active piece"@))),
        Some(m) => {
            let o1 = turned(turn, m.orientation);
            let m0 = Mino { orientation: o1, ..m };
            let kicks = kicks_of(m.mino_type, m.orientation, o1);
            let (m1, ok) = rotate_from(b.rows, b.width, m0, m.pivot_x, m.pivot_y, kicks, 0);
            (
                BoardModel { active: Some(m1), ..b },
                if !ok {
                    Err(penalty_msg("Can not rotate piece this way here"@))
                } else if piece_inside(b.width, m) && mask_of(m1, b.width) == mask_of(m, b.width) {
                    Err(penalty_msg(unchanged_turn_reason()))
                } else {
                    Ok(0u8)
                },
            )
        },
    }
}

/// Holding: the falling piece's kind goes to the hold, and the held piece, if
/// any, spawns as the new falling piece.
pub open spec fn hold_step(b: BoardModel) -> (BoardModel, Result<u8, PenaltyView>) {
    (
        BoardModel {
            active: match b.hold {
                Some(t) => Some(spawn_of(t, b)),
                None => None,
            },
            hold: match b.active {
                Some(m) => Some(m.mino_type),
                None => None,
            },
            ..b
        },
        Ok(0u8),
    )
}

fn apply_rotate(turn: Turn, board: &mut Board) -> (r: Result<u8, Penalty>)
    requires
        board_ok(old(board)@),
        old(board)@.active matches Some(m) ==> m.pivot_y <= BOARD_HEIGHT - 8,
    ensures
        (final(board)@, result_view(r)) == rotate_step(old(board)@, turn),
{
    if board.active_mino.is_none() {
        return Err(Penalty::new("Trying to rotate without an active piece"));
    }
    let ghost b = board@;
    let mut mino = board.active_mino.unwrap();
    proof {
        lemma_offsets_small(mino.mino_type, mino.orientation);
        lemma_span_within_extents(mino.mino_type, mino.orientation, 0);
    }
    let old_inside = mino.pivot_x - mino.squares_left_of_pivot() >= 0 && mino.pivot_x
        + mino.squares_right_of_pivot() < board.width && mino.pivot_y
        >= mino.squares_below_pivot() as usize;
    let old_mask = if old_inside {
        proof {
            lemma_inside_mask(board.width, mino);
        }
        match mask_from_mino(&mino, board.width) {
            Ok(mask) => Some(mask),
            Err(p) => {
                return Err(p);
            },
        }
    } else {
        None
    };
    let old_orientation = mino.orientation;
    mino.orientation = match turn {
        Turn::Clockwise => old_orientation.rotate_cw(),
        Turn::CounterClockwise => old_orientation.rotate_ccw(),
        Turn::Half => old_orientation.rotate_180(),
    };
    let ghost m0 = mino;
    let width = board.width;
    let old_pivot_x = mino.pivot_x;
    let old_pivot_y = mino.pivot_y;
    let min_pivot_y = mino.squares_below_pivot();
    let kicks = get_kicks(&old_orientation, &mino.orientation, &mino.mino_type);
    proof {
        lemma_kicks_small(mino.mino_type, old_orientation, mino.orientation);
        lemma_span_within_extents(mino.mino_type, mino.orientation, 0);
        lemma_span_within_extents(mino.mino_type, old_orientation, 0);
    }
    let mut success = false;
    let mut k: usize = 0;
    while k < kicks.len()
        invariant_except_break
            !success,
        invariant
            board@ == b,
            board_ok(b),
            b.active == Some(Mino { orientation: old_orientation, ..m0 }),
            old_pivot_y <= BOARD_HEIGHT - 8,
            -4 <= old_pivot_x <= width + 3,
            4 <= width <= 16,
            width == b.width,
            m0.mino_type.is_known(),
            mino.mino_type == m0.mino_type,
            mino.orientation == m0.orientation,
            old_pivot_x == m0.pivot_x,
            old_pivot_y == m0.pivot_y,
            min_pivot_y == below_extent(m0.mino_type, m0.orientation),
            kicks@ == kicks_of(m0.mino_type, old_orientation, m0.orientation),
            forall|j: int|
                0 <= j < kicks@.len() ==> -4 <= (#[trigger] kicks@[j]).0 <= 4 && -4 <= kicks@[j].1
                    <= 4 && kicks@[j].1 + 5 >= below_extent(m0.mino_type, m0.orientation),
            0 <= below_extent(m0.mino_type, m0.orientation) <= 2,
            0 <= left_extent(m0.mino_type, m0.orientation) <= 2,
            0 <= right_extent(m0.mino_type, m0.orientation) <= 2,
            k <= kicks.len(),
            rotate_from(b.rows, width, mino, old_pivot_x, old_pivot_y, kicks@, k as int)
                == rotate_from(b.rows, width, m0, old_pivot_x, old_pivot_y, kicks@, 0),
        ensures
            success ==> rotate_from(b.rows, width, m0, old_pivot_x, old_pivot_y, kicks@, 0) == (
            mino, true),
            !success ==> rotate_from(b.rows, width, m0, old_pivot_x, old_pivot_y, kicks@, 0) == (
            mino, false),
        decreases kicks.len() - k,
    {
        let (dx, dy) = kicks[k];
        let ghost before = mino;
        mino.pivot_x = old_pivot_x + dx;
        if mino.pivot_x - mino.squares_left_of_pivot() < 0 || mino.pivot_x
            + mino.squares_right_of_pivot() >= width {
            k = k + 1;
        } else if old_pivot_y < 5 && old_pivot_y as i8 + dy < min_pivot_y {
            k = k + 1;
        } else {
            if dy >= 0 {
                mino.pivot_y = old_pivot_y + dy as usize;
            } else {
                mino.pivot_y = old_pivot_y - ((-dy) as usize);
            }
            let mask = match mask_from_mino(&mino, width) {
                Ok(mask) => mask,
                Err(p) => {
                    return Err(p);
                },
            };
            if test_intersection(&mask, &board.rows) {
                k = k + 1;
            } else {
                success = true;
                break ;
            }
        }
    }
    board.active_mino = Some(mino);
    if !success {
        return Err(Penalty::new("Can not rotate piece this way here"));
    }
    proof {
        lemma_rotate_from(b.rows, width, m0, old_pivot_x, old_pivot_y, kicks@, 0);
        lemma_inside_mask(width, mino);
    }
    let new_mask = match mask_from_mino(&mino, width) {
        Ok(mask) => mask,
        Err(p) => {
            return Err(p);
        },
    };
    if let Some(old_mask) = old_mask {
        if new_mask.bottom_row == old_mask.bottom_row && new_mask.covered[0] == old_mask.covered[0]
            && new_mask.covered[1] == old_mask.covered[1] && new_mask.covered[2]
            == old_mask.covered[2] && new_mask.covered[3] == old_mask.covered[3] {
            assert(new_mask@.covered =~= old_mask@.covered);
            return Err(Penalty::new("Turning the piece changed no cell"));
        }
        assert(new_mask@ != old_mask@ ==> new_mask@.bottom_row != old_mask@.bottom_row
            || exists|i: int| 0 <= i < 4 && new_mask@.covered[i] != old_mask@.covered[i]);
    }
    Ok(0)
}

fn apply_rotate_cw(_a: &crate::messages::RotateCW, board: &mut Board) -> (r: Result<u8, Penalty>)
    requires
        board_ok(old(board)@),
        old(board)@.active matches Some(m) ==> m.pivot_y <= BOARD_HEIGHT - 8,
    ensures
        (final(board)@, result_view(r)) == rotate_step(old(board)@, Turn::Clockwise),
{
    apply_rotate(Turn::Clockwise, board)
}

fn apply_rotate_ccw(_a: &crate::messages::RotateCCW, board: &mut Board) -> (r: Result<
    u8,
    Penalty,
>)
    requires
        board_ok(old(board)@),
        old(board)@.active matches Some(m) ==> m.pivot_y <= BOARD_HEIGHT - 8,
    ensures
        (final(board)@, result_view(r)) == rotate_step(old(board)@, Turn::CounterClockwise),
{
    apply_rotate(Turn::CounterClockwise, board)
}

fn apply_rotate180(_a: &crate::messages::Rotate180, board: &mut Board) -> (r: Result<
    u8,
    Penalty,
>)
    requires
        board_ok(old(board)@),
        old(board)@.active matches Some(m) ==> m.pivot_y <= BOARD_HEIGHT - 8,
    ensures
        (final(board)@, result_view(r)) == rotate_step(old(board)@, Turn::Half),
{
    apply_rotate(Turn::Half, board)
}

fn apply_hold(_a: &crate::messages::Hold, board: &mut Board) -> (r: Result<u8, Penalty>)
    requires
        1 <= old(board).width,
    ensures
        (final(board)@, result_view(r)) == hold_step(old(board)@),
{
    let hold = match board.active_mino {
        Some(mino) => Some(mino.mino_type),
        None => None,
    };
    board.active_mino = match board.hold {
        Some(mino_type) => Some(spawn_mino(mino_type, board)),
        None => None,
    };
    board.hold = hold;
    Ok(0)
}

/// The lines sent to the opponent for clearing `n` lines at once.
pub open spec fn lines_sent_for(n: int) -> u8 {
    if n == 2 {
        1
    } else if n == 3 {
        2
    } else if n == 4 {
        4
    } else {
        0
    }
}

/// Where a hard drop locks the falling piece: its mask falls straight down as
/// far as it can.
pub open spec fn landed_mask(b: BoardModel, m: Mino) -> MaskView {
    let mask = mask_of(m, b.width);
    MaskView { bottom_row: fall(b.rows, mask.covered, mask.bottom_row, 0), covered: mask.covered }
}

/// A hard drop: the falling piece falls as far as it can and is locked, the
/// full rows are cleared, and lines are sent for clearing two or more.
pub open spec fn hard_drop_step(b: BoardModel) -> (BoardModel, Result<u8, PenaltyView>) {
    match b.active {
        None => (b, Err(penalty_msg("Trying to hard drop without an active piece"@))),
        Some(m) => {
            let placed = place_mask(b.rows, landed_mask(b, m));
            (
                BoardModel {
                    rows: clear_full_rows(placed, b.width as int),
                    active: None,
                    ..b
                },
                Ok(lines_sent_for(count_full_rows(placed, b.width as int))),
            )
        },
    }
}

proof fn lemma_full_row_nonzero(width: int)
    requires
        1 <= width <= 16,
    ensures
        full_row_of(width) != 0,
{
    let s = (16 - width) as u16;
    assert(0xffffu16 >> s != 0) by (bit_vector)
        requires
            s < 16,
    ;
}

/// What a hard drop needs of the locked rows: they hold no empty row below a
/// non-empty one, every row below the landed mask's top is non-empty, full rows
/// only among the mask's rows, nothing at or above the play height.
pub open spec fn placed_facts(placed: Seq<u16>, width: int, land: int) -> bool {
    &&& placed.len() == BOARD_HEIGHT
    &&& gravity(placed)
    &&& 0 <= land
    &&& land + 4 <= PLAY_HEIGHT
    &&& placed[land] != 0
    &&& forall|j: int| 0 <= j < land ==> #[trigger] placed[j] != 0
    &&& forall|j: int|
        0 <= j < placed.len() && #[trigger] placed[j] == full_row_of(width) ==> land <= j < land
            + 4
    &&& forall|j: int| PLAY_HEIGHT <= j < placed.len() ==> #[trigger] placed[j] == 0
    &&& full_row_of(width) != 0
}

proof fn lemma_placed_facts(b: BoardModel, m: Mino)
    requires
        board_wf(b),
        b.active == Some(m),
    ensures
        placed_facts(place_mask(b.rows, landed_mask(b, m)), b.width as int, landed_mask(b, m).bottom_row),
        landed_mask(b, m).bottom_row + 4 <= PLAY_HEIGHT,
{
    let mask = mask_of(m, b.width);
    lemma_inside_mask(b.width, m);
    let land = landed_mask(b, m);
    lemma_fall(b.rows, mask.covered, mask.bottom_row, 0);
    let h = shape_height(m.mino_type, m.orientation);
    let placed = place_mask(b.rows, land);
    lemma_place_gravity(b.rows, land, h);
    lemma_full_row_nonzero(b.width as int);
    assert forall|j: int|
        0 <= j < placed.len() && #[trigger] placed[j] == full_row_of(b.width as int) implies land.bottom_row
        <= j < land.bottom_row + 4 by {
        if !(land.bottom_row <= j < land.bottom_row + h) {
            assert(placed[j] == b.rows[j]);
        }
    }
    assert forall|j: int| PLAY_HEIGHT <= j < placed.len() implies #[trigger] placed[j] == 0 by {
        assert(placed[j] == b.rows[j]);
    }
}

/// Removing the full rows from rows that satisfy `placed_facts` keeps the board
/// well formed: no empty row below a non-empty one, no full row, nothing at or
/// above the play height.
proof fn lemma_cleared_rows(placed: Seq<u16>, width: int, land: int, w: int, nc: int)
    requires
        placed_facts(placed, width, land),
        land <= w <= PLAY_HEIGHT,
        0 <= nc,
        w + nc <= placed.len(),
        placed[w] == 0,
        placed.take(w + nc).filter(not_full(width)).len() == w,
    ensures
        clear_full_rows(placed, width) =~= placed.take(w + nc).filter(not_full(width)) + placed.subrange(
            w,
            placed.len() as int,
        ),
        count_full_rows(placed, width) == nc,
        gravity(clear_full_rows(placed, width)),
        forall|j: int|
            0 <= j < clear_full_rows(placed, width).len() ==> #[trigger] clear_full_rows(
                placed,
                width,
            )[j] != full_row_of(width),
        forall|j: int|
            PLAY_HEIGHT <= j < clear_full_rows(placed, width).len() ==> #[trigger] clear_full_rows(
                placed,
                width,
            )[j] == 0,
        clear_full_rows(placed, width).len() == BOARD_HEIGHT,
{
    let p = not_full(width);
    let head = placed.take(w + nc);
    let tail = placed.skip(w + nc);
    assert(placed =~= head + tail);
    assert forall|j: int| 0 <= j < tail.len() implies #[trigger] tail[j] == 0 by {
        assert(placed[w] == 0);
        assert(placed[w + nc + j] == 0);
    }
    lemma_no_full_kept(tail, width);
    Seq::filter_distributes_over_add(head, tail, p);
    let kept = head.filter(p);
    let cleared = clear_full_rows(placed, width);
    assert(placed.filter(p) == kept + tail);
    assert(cleared =~= kept + placed.subrange(w, placed.len() as int));
    assert(gravity(head)) by {
        assert forall|i: int, j: int|
            #![trigger head[i], head[j]]
            0 <= i < j < head.len() && head[i] == 0 implies head[j] == 0 by {
            assert(placed[i] == 0);
        }
    }
    lemma_filter_gravity(head, p);
    lemma_filter_keeps(head, p, |x: u16| true);
    assert forall|i: int, j: int|
        #![trigger cleared[i], cleared[j]]
        0 <= i < j < cleared.len() && cleared[i] == 0 implies cleared[j] == 0 by {
        if j >= w {
            assert(placed[j] == 0);
        } else {
            assert(kept[i] == 0);
        }
    }
    assert forall|j: int| 0 <= j < cleared.len() implies #[trigger] cleared[j] != full_row_of(
        width,
    ) by {
        if j < w {
            assert(p(kept[j]));
        } else {
            assert(placed[j] == 0);
        }
    }
    assert forall|j: int| PLAY_HEIGHT <= j < cleared.len() implies #[trigger] cleared[j] == 0 by {
        assert(placed[j] == 0);
    }
}

fn apply_hard_drop(_a: &crate::messages::HardDrop, board: &mut Board) -> (r: Result<u8, Penalty>)
    requires
        board_wf(old(board)@),
    ensures
        (final(board)@, result_view(r)) == hard_drop_step(old(board)@),
{
    if board.active_mino.is_none() {
        return Err(Penalty::new("Trying to hard drop without an active piece"));
    }
    let ghost b = board@;
    let mino = board.active_mino.unwrap();
    proof {
        lemma_inside_mask(board.width, mino);
        lemma_placed_facts(b, mino);
    }
    let mut mask = match mask_from_mino(&mino, board.width) {
        Ok(mask) => mask,
        Err(p) => {
            return Err(p);
        },
    };
    mask.set_hard_drop_row(board);
    let ghost land = landed_mask(b, mino);
    assert(mask@ == land);
    for i in 0..4usize
        invariant
            mask@ == land,
            land.bottom_row + 4 <= PLAY_HEIGHT,
            board.rows@ == Seq::new(
                BOARD_HEIGHT as nat,
                |j: int|
                    if land.bottom_row <= j < land.bottom_row + i {
                        b.rows[j] | land.covered[j - land.bottom_row]
                    } else {
                        b.rows[j]
                    },
            ),
            board.width == b.width,
            board.active_mino == b.active,
            board.hold == b.hold,
            board.upcoming_minos@ == b.upcoming,
            board.spawn_height == b.spawn_height,
    {
        board.rows[mask.bottom_row + i] = board.rows[mask.bottom_row + i] | mask.covered[i];
    }
    let ghost placed = place_mask(b.rows, land);
    assert(board.rows@ =~= placed);
    let ghost lnd = land.bottom_row;
    let full = Board::full_row(board.width);
    // Scan for clears. Once an empty row is found, all rows above are empty
    // too: a piece can not rest on an empty row, and a line clear moves
    // everything above it down.
    let mut num_cleared: usize = 0;
    let mut write_i: usize = mask.bottom_row;
    proof {
        lemma_filter_prefix_len(placed, b.width as int, lnd, lnd);
        lemma_no_full_kept(placed.take(lnd), b.width as int);
        assert(board.rows@.subrange(0, lnd) =~= placed.take(lnd));
    }
    loop
        invariant
            placed_facts(placed, b.width as int, lnd),
            full == full_row_of(b.width as int),
            lnd <= write_i <= PLAY_HEIGHT,
            write_i + num_cleared <= BOARD_HEIGHT,
            num_cleared <= 4,
            board.rows@.len() == BOARD_HEIGHT,
            board.rows@.subrange(0, write_i as int) == placed.take(
                (write_i + num_cleared) as int,
            ).filter(not_full(b.width as int)),
            forall|j: int| write_i <= j < BOARD_HEIGHT ==> #[trigger] board.rows@[j] == placed[j],
            forall|j: int| 0 <= j < write_i ==> #[trigger] placed[j] != 0,
            board.width == b.width,
            board.active_mino == b.active,
            board.hold == b.hold,
            board.upcoming_minos@ == b.upcoming,
            board.spawn_height == b.spawn_height,
        ensures
            board.rows@ == clear_full_rows(placed, b.width as int),
            num_cleared == count_full_rows(placed, b.width as int),
            board.width == b.width,
            board.active_mino == b.active,
            board.hold == b.hold,
            board.upcoming_minos@ == b.upcoming,
            board.spawn_height == b.spawn_height,
        decreases PLAY_HEIGHT - write_i,
    {
        if board.rows[write_i] == 0 {
            proof {
                lemma_cleared_rows(placed, b.width as int, lnd, write_i as int, num_cleared as int);
                assert(board.rows@ =~= board.rows@.subrange(0, write_i as int) + placed.subrange(
                    write_i as int,
                    BOARD_HEIGHT as int,
                ));
            }
            break ;
        }
        assert(write_i < PLAY_HEIGHT);
        while board.rows[write_i + num_cleared] == full
            invariant
                placed_facts(placed, b.width as int, lnd),
                full == full_row_of(b.width as int),
                lnd <= write_i < PLAY_HEIGHT,
                write_i + num_cleared < BOARD_HEIGHT,
                board.rows@.len() == BOARD_HEIGHT,
                board.rows@.subrange(0, write_i as int) == placed.take(
                    (write_i + num_cleared) as int,
                ).filter(not_full(b.width as int)),
                forall|j: int| write_i <= j < BOARD_HEIGHT ==> #[trigger] board.rows@[j] == placed[j],
                forall|j: int| 0 <= j < write_i ==> #[trigger] placed[j] != 0,
                placed[write_i as int] != 0,
            decreases BOARD_HEIGHT - num_cleared,
        {
            proof {
                lemma_filter_step(placed, not_full(b.width as int), (write_i + num_cleared) as int);
                assert(board.rows@[(write_i + num_cleared) as int] == placed[(write_i
                    + num_cleared) as int]);
                assert(placed[(write_i + num_cleared) as int] != 0);
            }
            num_cleared += 1;
            proof {
                lemma_filter_prefix_len(placed, b.width as int, lnd, (write_i + num_cleared) as int);
            }
        }
        proof {
            lemma_filter_step(placed, not_full(b.width as int), (write_i + num_cleared) as int);
        }
        board.rows[write_i] = board.rows[write_i + num_cleared];
        write_i += 1;
        proof {
            lemma_filter_prefix_len(placed, b.width as int, lnd, (write_i + num_cleared) as int);
            assert(board.rows@.subrange(0, write_i as int) =~= placed.take(
                (write_i + num_cleared) as int,
            ).filter(not_full(b.width as int)));
        }
    }
    // Calculate lines sent
    let lines_sent = match num_cleared {
        2 => 1,
        3 => 2,
        4 => 4,
        _ => 0,
    };
    board.active_mino = None;
    Ok(lines_sent)
}

/// A soft drop of `repeats` rows: refused when it would take the piece's
/// lowest row below the floor; otherwise the piece moves down row by row and
/// stops above the first row at which it would hit the stack.
pub open spec fn soft_drop_step(b: BoardModel, repeats: u16) -> (BoardModel, Result<u8, PenaltyView>) {
    match b.active {
        None => (b, Err(penalty_msg("Trying to soft drop without an active piece"@))),
        Some(m) => {
            let mask = mask_of(m, b.width);
            if repeats > mask.bottom_row {
                (b, Err(penalty_msg("trying to soft drop below floor"@)))
            } else {
                let below = below_extent(m.mino_type, m.orientation);
                let landed = fall(b.rows, mask.covered, mask.bottom_row, mask.bottom_row - repeats);
                (BoardModel { active: Some(Mino { pivot_y: (landed + below) as usize, ..m }), ..b }, Ok(0u8))
            }
        },
    }
}

/// The column arithmetic of a horizontal move stays within a byte.
pub open spec fn horizontal_in_range(m: Mino, right: i8) -> bool {
    let new_x = m.pivot_x + right;
    &&& -128 <= new_x <= 127
    &&& right < 0 ==> new_x - left_extent(m.mino_type, m.orientation) >= -128
    &&& right >= 0 ==> new_x + right_extent(m.mino_type, m.orientation) <= 127
}

/// A piece moved to another pivot column.
pub open spec fn at_column(m: Mino, x: int) -> Mino {
    Mino { pivot_x: x as i8, ..m }
}

/// Whether the piece, moved to some column between `x0` and `x1` (both
/// included), shares a cell with the rows.
pub open spec fn collides_between(rows: Seq<u16>, width: i8, m: Mino, x0: int, x1: int) -> bool {
    exists|x: int|
        (if x0 <= x1 { x0 <= x <= x1 } else { x1 <= x <= x0 }) && #[trigger] overlaps(
            rows,
            mask_of(at_column(m, x), width),
        )
}

/// A horizontal move by `right` columns: refused when the piece would cross a
/// side of the board, or when the row of its lowest cells is not empty and the
/// piece would share a cell with the stack on its way; otherwise the piece
/// moves.
pub open spec fn horizontal_step(b: BoardModel, right: i8) -> (BoardModel, Result<u8, PenaltyView>) {
    match b.active {
        None => (b, Err(penalty_msg("Trying to move horizontally without an active piece"@))),
        Some(m) => {
            let t = m.mino_type;
            let o = m.orientation;
            let new_x = m.pivot_x + right;
            if right < 0 && new_x - left_extent(t, o) < 0 {
                (b, Err(penalty_msg("trying to go past left edge"@)))
            } else if right >= 0 && new_x + right_extent(t, o) >= b.width {
                (b, Err(penalty_msg("trying to go past right edge"@)))
            } else if b.rows[m.pivot_y - below_extent(t, o)] != 0 && collides_between(
                b.rows,
                b.width,
                m,
                m.pivot_x as int,
                new_x,
            ) {
                (b, Err(penalty_msg("colliding with existing piece"@)))
            } else {
                (BoardModel { active: Some(at_column(m, new_x)), ..b }, Ok(0u8))
            }
        },
    }
}

fn apply_soft_drop(a: &crate::messages::SoftDrop, board: &mut Board) -> (r: Result<u8, Penalty>)
    requires
        old(board)@.active matches Some(m) ==> m.mino_type.is_known() && mask_computable(
            m,
            old(board)@.width,
        ) && m.pivot_y <= BOARD_HEIGHT - 4,
    ensures
        (final(board)@, result_view(r)) == soft_drop_step(old(board)@, a.repeats),
{
    if board.active_mino.is_none() {
        return Err(Penalty::new("Trying to soft drop without an active piece"));
    }
    let ghost b = board@;
    let mut mino = board.active_mino.unwrap();
    let mut mask = match mask_from_mino(&mino, board.width) {
        Ok(mask) => mask,
        Err(p) => {
            return Err(p);
        },
    };
    let repeats = a.repeats() as usize;
    if repeats > mask.bottom_row {
        return Err(Penalty::new("trying to soft drop below floor"));
    }
    let new_pivot_y = mino.pivot_y - repeats;
    let squares_below = mino.squares_below_pivot() as usize;
    let ghost covered = mask@.covered;
    let ghost start = mask@.bottom_row;
    let mut pivot_y = mino.pivot_y;
    while pivot_y > new_pivot_y
        invariant
            board@ == b,
            old(board)@ == b,
            b.active == Some(mino),
            new_pivot_y == mino.pivot_y - a.repeats,
            a.repeats <= start,
            mask@.covered == covered,
            covered == mask_of(mino, b.width).covered,
            start == mino.pivot_y - squares_below,
            squares_below == below_extent(mino.mino_type, mino.orientation),
            start + 4 <= BOARD_HEIGHT,
            new_pivot_y <= pivot_y <= mino.pivot_y,
            new_pivot_y >= squares_below,
            fall(b.rows, covered, pivot_y - squares_below, new_pivot_y - squares_below) == fall(
                b.rows,
                covered,
                start,
                new_pivot_y - squares_below,
            ),
        decreases pivot_y,
    {
        mask.bottom_row = pivot_y - 1 - squares_below;
        assert(mask@ == MaskView { bottom_row: pivot_y - 1 - squares_below, covered });
        if test_intersection(&mask, &board.rows) {
            assert(fall(b.rows, covered, pivot_y - squares_below, new_pivot_y - squares_below)
                == pivot_y - squares_below);
            assert(mask_of(mino, b.width).bottom_row == start);
            assert(start - a.repeats == new_pivot_y - squares_below);
            assert(fall(b.rows, covered, start, start - a.repeats) + below_extent(
                mino.mino_type,
                mino.orientation,
            ) == pivot_y);
            // Let's be forgiving as the board could've been bumped up without
            // the player's knowledge.
            mino.pivot_y = pivot_y;
            board.active_mino = Some(mino);
            assert(board@ =~= soft_drop_step(b, a.repeats).0);
            return Ok(0);
        }
        pivot_y = pivot_y - 1;
    }
    mino.pivot_y = new_pivot_y;
    board.active_mino = Some(mino);
    Ok(0)
}

/// A mask that is computable at two columns is computable at every column
/// between them.
proof fn lemma_computable_between(m: Mino, width: i8, lo: int, hi: int, x: int)
    requires
        lo <= x <= hi,
        -128 <= lo,
        hi <= 127,
        mask_computable(at_column(m, lo), width),
        mask_computable(at_column(m, hi), width),
    ensures
        mask_computable(at_column(m, x), width),
{
}

fn apply_horizontal(a: &crate::messages::Horizontal, board: &mut Board) -> (r: Result<u8, Penalty>)
    requires
        old(board).width <= 16,
        old(board).active_mino matches Some(m) ==> {
            &&& horizontal_in_range(m, a.right)
            &&& m.mino_type.is_known()
            &&& m.pivot_y <= BOARD_HEIGHT - 4
            &&& !move_past_edge(old(board)@.width, m, a.right) ==> {
                &&& below_extent(m.mino_type, m.orientation) <= m.pivot_y
                &&& old(board)@.rows[m.pivot_y - below_extent(m.mino_type, m.orientation)] != 0
                    ==> mask_computable(m, old(board)@.width)
            }
        },
    ensures
        (final(board)@, result_view(r)) == horizontal_step(old(board)@, a.right),
{
    if board.active_mino.is_none() {
        return Err(Penalty::new("Trying to move horizontally without an active piece"));
    }
    let ghost b = board@;
    let mut mino = board.active_mino.unwrap();
    proof {
        lemma_span_within_extents(mino.mino_type, mino.orientation, 0);
    }
    let new_pivot_x: i8 = mino.pivot_x + a.right();
    // Check whether we would cross boundaries.
    if a.right() < 0 {
        if new_pivot_x - mino.squares_left_of_pivot() < 0 {
            return Err(Penalty::new("trying to go past left edge"));
        }
    } else if new_pivot_x + mino.squares_right_of_pivot() >= board.width {
        return Err(Penalty::new("trying to go past right edge"));
    }
    // only do the more expensive check if there's something we could
    // intersect with on the bottom row.
    if board.rows[mino.pivot_y - mino.squares_below_pivot() as usize] != 0 {
        let x0 = mino.pivot_x;
        let x1 = new_pivot_x;
        let lo = if x0 < x1 { x0 } else { x1 };
        let hi = if x0 < x1 { x1 } else { x0 };
        proof {
            assert(mino == at_column(mino, x0 as int));
            assert(mask_computable(at_column(mino, x1 as int), b.width));
        }
        let mut x = lo;
        while x <= hi
            invariant
                board@ == b,
                b.active == Some(mino),
                mino.pivot_x == x0,
                x1 == new_pivot_x,
                x1 == x0 + a.right,
                !(a.right < 0 && x1 - left_extent(mino.mino_type, mino.orientation) < 0),
                !(a.right >= 0 && x1 + right_extent(mino.mino_type, mino.orientation) >= b.width),
                b.rows[mino.pivot_y - below_extent(mino.mino_type, mino.orientation)] != 0,
                b.width <= 16,
                b.rows.len() == BOARD_HEIGHT,
                mino.mino_type.is_known(),
                lo <= x <= hi + 1,
                lo == (if x0 < x1 { x0 } else { x1 }),
                hi == (if x0 < x1 { x1 } else { x0 }),
                mask_computable(at_column(mino, lo as int), b.width),
                mask_computable(at_column(mino, hi as int), b.width),
                below_extent(mino.mino_type, mino.orientation) <= mino.pivot_y <= BOARD_HEIGHT - 4,
                forall|y: int|
                    lo <= y < x ==> !#[trigger] overlaps(b.rows, mask_of(at_column(mino, y), b.width)),
            decreases hi + 1 - x,
        {
            let probe = Mino { pivot_x: x, ..mino };
            proof {
                lemma_computable_between(mino, b.width, lo as int, hi as int, x as int);
                assert(probe == at_column(mino, x as int));
            }
            let mask = match mask_from_mino(&probe, board.width) {
                Ok(mask) => mask,
                Err(p) => {
                    return Err(p);
                },
            };
            if mask_overlaps(&mask, &board.rows) {
                assert(probe == at_column(mino, x as int));
                assert(overlaps(b.rows, mask_of(at_column(mino, x as int), b.width)));
                assert(collides_between(b.rows, b.width, mino, x0 as int, x1 as int));
                return Err(Penalty::new("colliding with existing piece"));
            }
            x = x + 1;
        }
        assert(!collides_between(b.rows, b.width, mino, x0 as int, x1 as int));
    }
    mino.pivot_x = new_pivot_x;
    board.active_mino = Some(mino);
    assert(mino == at_column(b.active->0, new_pivot_x as int));
    Ok(0)
}

/// The character of a decimal digit.
pub open spec fn digit_char(d: int) -> char {
    if d == 0 {
        '0'
    } else if d == 1 {
        '1'
    } else if d == 2 {
        '2'
    } else if d == 3 {
        '3'
    } else if d == 4 {
        '4'
    } else if d == 5 {
        '5'
    } else if d == 6 {
        '6'
    } else if d == 7 {
        '7'
    } else if d == 8 {
        '8'
    } else {
        '9'
    }
}

/// The decimal digits of a number, without leading zeros.
pub open spec fn decimal(n: nat) -> Seq<char>
    decreases n,
{
    if n < 10 {
        seq![digit_char(n as int)]
    } else {
        decimal(n / 10).push(digit_char((n % 10) as int))
    }
}

/// Appends a character to a string: `String::push` of the standard library.
#[verifier::external_body]
pub(crate) fn push_char(s: &mut String, c: char)
    ensures
        final(s)@ == old(s)@.push(c),
{
    s.push(c);
}

pub(crate) fn digit(d: u8) -> (c: char)
    requires
        d < 10,
    ensures
        c == digit_char(d as int),
{
    if d == 0 {
        '0'
    } else if d == 1 {
        '1'
    } else if d == 2 {
        '2'
    } else if d == 3 {
        '3'
    } else if d == 4 {
        '4'
    } else if d == 5 {
        '5'
    } else if d == 6 {
        '6'
    } else if d == 7 {
        '7'
    } else if d == 8 {
        '8'
    } else {
        '9'
    }
}

/// Appends the decimal digits of a number to a string.
pub(crate) fn push_decimal_u64(s: &mut String, n: u64)
    ensures
        final(s)@ == old(s)@ + decimal(n as nat),
    decreases n,
{
    if n >= 10 {
        push_decimal_u64(s, n / 10);
    }
    push_char(s, digit((n % 10) as u8));
    proof {
        if n >= 10 {
            assert(decimal(n as nat) == decimal((n / 10) as nat).push(
                digit_char((n % 10) as int),
            ));
        }
    }
    assert(final(s)@ =~= old(s)@ + decimal(n as nat));
}

fn unsupported_action_penalty(x: PlayerActions) -> (r: Penalty)
    ensures
        r@ == penalty_msg("Unsupported PlayerAction: "@ + action_debug_name(x)),
{
    let mut reason = "Unsupported PlayerAction: ".to_string();
    crate::messages::push_action_debug_name(&mut reason, x);
    Penalty { reason, significance: 10 }
}

/// What an action does once a falling piece has been taken from the queue: an
/// action whose message leaves out its table gives a penalty, an action of no
/// known kind too, and every other action does what its step says.
pub open spec fn dispatch_step(b: BoardModel, a: PlayerAction) -> (BoardModel, Result<u8, PenaltyView>) {
    match a.action_type {
        PlayerActions::RotateCW => if a.action is None {
            (b, Err(penalty_msg("RotateCW was empty"@)))
        } else {
            rotate_step(b, Turn::Clockwise)
        },
        PlayerActions::RotateCCW => if a.action is None {
            (b, Err(penalty_msg("RotateCCW was empty"@)))
        } else {
            rotate_step(b, Turn::CounterClockwise)
        },
        PlayerActions::Rotate180 => if a.action is None {
            (b, Err(penalty_msg("Rotate180 was empty"@)))
        } else {
            rotate_step(b, Turn::Half)
        },
        PlayerActions::HardDrop => if a.action is None {
            (b, Err(penalty_msg("HardDrop was empty"@)))
        } else {
            hard_drop_step(b)
        },
        PlayerActions::SoftDrop => match a.action {
            None => (b, Err(penalty_msg("SoftDrop was empty"@))),
            Some(f) => soft_drop_step(b, f.repeats),
        },
        PlayerActions::Horizontal => match a.action {
            None => (b, Err(penalty_msg("Horizontal was empty"@))),
            Some(f) => horizontal_step(b, f.right),
        },
        PlayerActions::Hold => if a.action is None {
            (b, Err(penalty_msg("hold was empty"@)))
        } else {
            hold_step(b)
        },
        _ => (b, Err(penalty_msg("Unsupported PlayerAction: "@ + action_debug_name(a.action_type)))),
    }
}

/// A player action on a board: first a falling piece is taken from the queue
/// if there is none (which is also where a top-out is found), then the action
/// is applied. The result is the new board and the lines sent to the opponent,
/// or a penalty.
pub open spec fn action_step(b: BoardModel, a: PlayerAction) -> (BoardModel, Result<u8, PenaltyView>) {
    let (b1, e) = set_active_step(b);
    match e {
        Some(p) => (b1, Err(p)),
        None => dispatch_step(b1, a),
    }
}

/// The byte arithmetic of an action stays in range: a horizontal move must not
/// take the piece's column past what a byte holds.
pub open spec fn action_in_range(b: BoardModel, a: PlayerAction) -> bool {
    (a.action_type == PlayerActions::Horizontal && a.action is Some) ==> (set_active_step(
        b,
    ).0.active matches Some(m) ==> horizontal_in_range(m, a.action->0.right))
}

/// Applies a player action to a board, returning the number of lines sent to
/// the opponent or a penalty. The board must be fit for actions (a refused
/// turn leaves one that is) and the falling piece must meet what the action
/// needs of it (see `action_ok`). The board stays fit for actions; a well-formed board stays well formed but for the exceptions
/// of `lemma_action_keeps_wf`; a hard drop that succeeds leaves a well-formed
/// board.
pub fn apply_action(a: &PlayerAction, b: &mut Board) -> (r: Result<u8, Penalty>)
    requires
        board_ok(old(b)@),
        action_ok(old(b)@, *a),
        action_in_range(old(b)@, *a),
    ensures
        (final(b)@, result_view(r)) == action_step(old(b)@, *a),
        board_ok(final(b)@),
        a.action_type == PlayerActions::HardDrop && r is Ok ==> board_wf(final(b)@),
        board_wf(old(b)@) && r is Ok && keeps_shape(old(b)@, *a) ==> board_wf(final(b)@),
        board_wf(old(b)@) && r is Err && result_view(r) != Err::<u8, PenaltyView>(
            penalty_msg("Can not rotate piece this way here"@),
        ) ==> board_wf(final(b)@),
{
    proof {
        if old(b)@.active is None && old(b)@.upcoming.len() > 0 {
            lemma_spawn_inside(old(b)@.upcoming[0], old(b)@);
        }
        lemma_action_keeps_ok(old(b)@, *a);
        if a.action_type == PlayerActions::HardDrop && a.action is Some && set_active_step(old(b)@).1 is None {
            lemma_hard_drop_wf(set_active_step(old(b)@).0);
        }
        if board_wf(old(b)@) {
            lemma_action_keeps_wf(old(b)@, *a);
        }
    }
    match try_set_active_mino(b) {
        Ok(()) => {},
        Err(p) => {
            return Err(p);
        },
    }
    match a.action_type() {
        PlayerActions::RotateCW => match a.action_as_rotate_cw() {
            None => Err(Penalty::new("RotateCW was empty")),
            Some(a2) => apply_rotate_cw(&a2, b),
        },
        PlayerActions::RotateCCW => match a.action_as_rotate_ccw() {
            None => Err(Penalty::new("RotateCCW was empty")),
            Some(a2) => apply_rotate_ccw(&a2, b),
        },
        PlayerActions::Rotate180 => match a.action_as_rotate_180() {
            None => Err(Penalty::new("Rotate180 was empty")),
            Some(a2) => apply_rotate180(&a2, b),
        },
        PlayerActions::HardDrop => match a.action_as_hard_drop() {
            None => Err(Penalty::new("HardDrop was empty")),
            Some(a2) => apply_hard_drop(&a2, b),
        },
        PlayerActions::SoftDrop => match a.action_as_soft_drop() {
            None => Err(Penalty::new("SoftDrop was empty")),
            Some(a2) => apply_soft_drop(&a2, b),
        },
        PlayerActions::Horizontal => match a.action_as_horizontal() {
            None => Err(Penalty::new("Horizontal was empty")),
            Some(a2) => apply_horizontal(&a2, b),
        },
        PlayerActions::Hold => match a.action_as_hold() {
            None => Err(Penalty::new("hold was empty")),
            Some(a2) => apply_hold(&a2, b),
        },
        x => Err(unsupported_action_penalty(x)),
    }
}

/// Taking a piece from the queue keeps a board well formed.
pub proof fn lemma_set_active_wf(b: BoardModel)
    requires
        board_wf(b),
    ensures
        board_wf(set_active_step(b).0),
{
    if b.active is None && b.upcoming.len() > 0 {
        let t = b.upcoming[0];
        assert(t.is_known());
        let m = spawn_of(t, b);
        lemma_spawn_inside(t, b);
        lemma_inside_mask(b.width, m);
        lemma_hits_is_overlap(b.rows, mask_of(m, b.width));
        if b.rows[b.spawn_height as int] == 0 {
            assert(!hits(b.rows, mask_of(m, b.width)));
        }
        let r = set_active_step(b).0;
        assert forall|i: int| 0 <= i < r.upcoming.len() implies (#[trigger] r.upcoming[i]).is_known() by {
            if set_active_step(b).1 is None {
                assert(r.upcoming[i] == b.upcoming[i + 1]);
            }
        }
    }
}

/// What a taken kick guarantees: the piece lies between the sides and on or
/// above the floor, is at most four rows higher than before the turn, and does
/// not hit the stack.
proof fn lemma_rotate_from(
    rows: Seq<u16>,
    width: i8,
    m: Mino,
    old_x: i8,
    old_y: usize,
    kicks: Seq<(i8, i8)>,
    k: int,
)
    requires
        m.mino_type.is_known(),
        old_y < BOARD_HEIGHT,
        0 <= below_extent(m.mino_type, m.orientation) <= 2,
        forall|j: int|
            0 <= j < kicks.len() ==> -4 <= (#[trigger] kicks[j]).0 <= 4 && -4 <= kicks[j].1 <= 4
                && kicks[j].1 + 5 >= below_extent(m.mino_type, m.orientation),
    ensures
        rotate_from(rows, width, m, old_x, old_y, kicks, k).0.mino_type == m.mino_type,
        rotate_from(rows, width, m, old_x, old_y, kicks, k).0.orientation == m.orientation,
        rotate_from(rows, width, m, old_x, old_y, kicks, k).1 ==> ({
            let m2 = rotate_from(rows, width, m, old_x, old_y, kicks, k).0;
            &&& piece_inside(width, m2)
            &&& m2.pivot_y <= old_y + 4
            &&& !hits(rows, mask_of(m2, width))
        }),
    decreases kicks.len() - k,
{
    if 0 <= k < kicks.len() {
        let dx = kicks[k].0;
        let dy = kicks[k].1;
        let m1 = Mino { pivot_x: (old_x + dx) as i8, ..m };
        let m2 = Mino { pivot_y: (old_y + dy) as usize, ..m1 };
        lemma_rotate_from(rows, width, m1, old_x, old_y, kicks, k + 1);
        lemma_rotate_from(rows, width, m2, old_x, old_y, kicks, k + 1);
    }
}

/// A turn that succeeds keeps a board well formed when the piece was at least
/// ten rows below the play height.
pub proof fn lemma_rotate_wf(b: BoardModel, turn: Turn)
    requires
        board_wf(b),
        rotate_step(b, turn).1 != Err::<u8, PenaltyView>(
            penalty_msg("Can not rotate piece this way here"@),
        ),
        rotate_step(b, turn).1 is Ok ==> (b.active matches Some(m) ==> m.pivot_y - below_extent(
            m.mino_type,
            m.orientation,
        ) + 10 <= PLAY_HEIGHT),
    ensures
        board_wf(rotate_step(b, turn).0),
{
    if b.active is None {
        return;
    }
    let m = b.active->0;
    let o1 = turned(turn, m.orientation);
    let m0 = Mino { orientation: o1, ..m };
    let kicks = kicks_of(m.mino_type, m.orientation, o1);
    lemma_kicks_small(m.mino_type, m.orientation, o1);
    lemma_span_within_extents(m.mino_type, o1, 0);
    lemma_span_within_extents(m.mino_type, m.orientation, 0);
    lemma_rotate_from(b.rows, b.width, m0, m.pivot_x, m.pivot_y, kicks, 0);
    let m2 = rotate_step(b, turn).0.active->0;
    lemma_inside_mask(b.width, m2);
    lemma_inside_mask(b.width, m);
    lemma_hits_is_overlap(b.rows, mask_of(m2, b.width));
}

/// Holding keeps a board well formed when the held piece, if any, spawns
/// without sharing a cell with the stack.
pub proof fn lemma_hold_wf(b: BoardModel)
    requires
        board_wf(b),
        b.hold matches Some(t) ==> !overlaps(b.rows, mask_of(spawn_of(t, b), b.width)),
    ensures
        board_wf(hold_step(b).0),
{
    if b.hold is Some {
        lemma_spawn_inside(b.hold->0, b);
    }
}

/// Clearing the full rows of rows that satisfy `placed_facts` keeps them free
/// of empty rows below non-empty ones and of full rows, and empty from the play
/// height up.
proof fn lemma_clear_wf(placed: Seq<u16>, width: int, land: int)
    requires
        placed_facts(placed, width, land),
    ensures
        gravity(clear_full_rows(placed, width)),
        clear_full_rows(placed, width).len() == BOARD_HEIGHT,
        forall|j: int|
            0 <= j < clear_full_rows(placed, width).len() ==> #[trigger] clear_full_rows(
                placed,
                width,
            )[j] != full_row_of(width),
        forall|j: int|
            PLAY_HEIGHT <= j < clear_full_rows(placed, width).len() ==> #[trigger] clear_full_rows(
                placed,
                width,
            )[j] == 0,
{
    let p = not_full(width);
    let kept = placed.filter(p);
    let cleared = clear_full_rows(placed, width);
    lemma_filter_gravity(placed, p);
    lemma_filter_keeps(placed, p, |x: u16| true);
    let head = placed.take(PLAY_HEIGHT as int);
    let tail = placed.skip(PLAY_HEIGHT as int);
    assert(placed =~= head + tail);
    assert forall|j: int| 0 <= j < tail.len() implies #[trigger] tail[j] != full_row_of(width) by {
        assert(placed[PLAY_HEIGHT + j] == 0);
    }
    lemma_no_full_kept(tail, width);
    Seq::filter_distributes_over_add(head, tail, p);
    head.lemma_filter_len(p);
    assert(kept == head.filter(p) + tail);
    assert forall|i: int, j: int|
        #![trigger cleared[i], cleared[j]]
        0 <= i < j < cleared.len() && cleared[i] == 0 implies cleared[j] == 0 by {
        if j < kept.len() {
            assert(kept[i] == 0);
        }
    }
    assert forall|j: int| 0 <= j < cleared.len() implies #[trigger] cleared[j] != full_row_of(width) by {
        if j < kept.len() {
            assert(p(kept[j]));
        }
    }
    assert forall|j: int| PLAY_HEIGHT <= j < cleared.len() implies #[trigger] cleared[j] == 0 by {
        if j < kept.len() {
            assert(kept[j] == tail[j - head.filter(p).len()]);
            assert(placed[PLAY_HEIGHT + j - head.filter(p).len()] == 0);
        }
    }
}

/// A hard drop keeps a board well formed.
pub proof fn lemma_hard_drop_wf(b: BoardModel)
    requires
        board_wf(b),
    ensures
        board_wf(hard_drop_step(b).0),
{
    if b.active is Some {
        let m = b.active->0;
        lemma_placed_facts(b, m);
        lemma_clear_wf(place_mask(b.rows, landed_mask(b, m)), b.width as int, landed_mask(b, m).bottom_row);
    }
}

/// A soft drop keeps a board well formed.
pub proof fn lemma_soft_drop_wf(b: BoardModel, repeats: u16)
    requires
        board_wf(b),
    ensures
        board_wf(soft_drop_step(b, repeats).0),
{
    if b.active is Some {
        let m = b.active->0;
        let mask = mask_of(m, b.width);
        lemma_inside_mask(b.width, m);
        if repeats <= mask.bottom_row {
            lemma_fall(b.rows, mask.covered, mask.bottom_row, mask.bottom_row - repeats);
            let landed = fall(b.rows, mask.covered, mask.bottom_row, mask.bottom_row - repeats);
            let m2 = soft_drop_step(b, repeats).0.active->0;
            assert(mask_of(m2, b.width) == MaskView { bottom_row: landed, covered: mask.covered });
            lemma_inside_mask(b.width, m2);
            lemma_hits_is_overlap(b.rows, mask_of(m2, b.width));
        }
    }
}

/// A horizontal move keeps a board well formed.
pub proof fn lemma_horizontal_wf(b: BoardModel, right: i8)
    requires
        board_wf(b),
        b.active matches Some(m) ==> horizontal_in_range(m, right),
    ensures
        board_wf(horizontal_step(b, right).0),
{
    if b.active is Some && horizontal_step(b, right).1 is Ok {
        let m = b.active->0;
        lemma_inside_mask(b.width, m);
        let new_x = m.pivot_x + right;
        let m2 = at_column(m, new_x);
        lemma_inside_mask(b.width, m2);
        lemma_hits_is_overlap(b.rows, mask_of(m2, b.width));
        lemma_hits_is_overlap(b.rows, mask_of(m, b.width));
        if b.rows[m.pivot_y - below_extent(m.mino_type, m.orientation)] != 0 {
            assert(!collides_between(b.rows, b.width, m, m.pivot_x as int, new_x));
            assert(!overlaps(b.rows, mask_of(at_column(m, new_x), b.width)));
        }
    }
}

/// A turn for which no kick fits leaves the piece in the column of the last
/// kick, and either in its row or in a row whose lowest covered row holds
/// cells of the stack.
pub proof fn lemma_rotate_refused(
    rows: Seq<u16>,
    width: i8,
    m: Mino,
    old_x: i8,
    old_y: usize,
    kicks: Seq<(i8, i8)>,
    k: int,
)
    requires
        0 <= k < kicks.len(),
        -8 <= old_x <= 24,
        old_y < BOARD_HEIGHT,
        0 <= below_extent(m.mino_type, m.orientation) <= 2,
        forall|j: int|
            0 <= j < kicks.len() ==> -4 <= (#[trigger] kicks[j]).0 <= 4 && -4 <= kicks[j].1 <= 4
                && kicks[j].1 + 5 >= below_extent(m.mino_type, m.orientation),
        !rotate_from(rows, width, m, old_x, old_y, kicks, k).1,
    ensures
        ({
            let r = rotate_from(rows, width, m, old_x, old_y, kicks, k).0;
            let below = below_extent(m.mino_type, m.orientation);
            &&& r.mino_type == m.mino_type
            &&& r.orientation == m.orientation
            &&& r.pivot_x == old_x + kicks[kicks.len() - 1].0
            &&& (r.pivot_y == m.pivot_y || (below <= r.pivot_y <= old_y + 4 && rows[r.pivot_y
                - below] != 0))
        }),
    decreases kicks.len() - k,
{
    let dx = kicks[k].0;
    let dy = kicks[k].1;
    let t = m.mino_type;
    let o = m.orientation;
    let m1 = Mino { pivot_x: (old_x + dx) as i8, ..m };
    let m2 = Mino { pivot_y: (old_y + dy) as usize, ..m1 };
    assert(k + 1 == kicks.len() ==> rotate_from(rows, width, m1, old_x, old_y, kicks, k + 1) == (
    m1, false));
    assert(k + 1 == kicks.len() ==> rotate_from(rows, width, m2, old_x, old_y, kicks, k + 1) == (
    m2, false));
    if m1.pivot_x - left_extent(t, o) < 0 || m1.pivot_x + right_extent(t, o) >= width {
        if k + 1 < kicks.len() {
            lemma_rotate_refused(rows, width, m1, old_x, old_y, kicks, k + 1);
        }
    } else if old_y < 5 && old_y + dy < below_extent(t, o) {
        if k + 1 < kicks.len() {
            lemma_rotate_refused(rows, width, m1, old_x, old_y, kicks, k + 1);
        }
    } else {
        assert(hits(rows, mask_of(m2, width)));
        assert(m2.pivot_y == old_y + dy);
        assert(mask_of(m2, width).bottom_row == m2.pivot_y - below_extent(t, o));
        if k + 1 < kicks.len() {
            lemma_rotate_refused(rows, width, m2, old_x, old_y, kicks, k + 1);
        }
    }
}

/// A falling piece lands between where it starts and the floor it is given.
proof fn lemma_fall_between(rows: Seq<u16>, covered: Seq<u16>, bottom: int, floor: int)
    requires
        floor <= bottom,
    ensures
        floor <= fall(rows, covered, bottom, floor) <= bottom,
    decreases bottom - floor,
{
    if bottom > floor {
        lemma_fall_between(rows, covered, bottom - 1, floor);
    }
}

/// A turn of a piece at most eight rows below the top of the board keeps the
/// board fit for actions, whether the turn is taken or refused.
pub proof fn lemma_rotate_ok(b: BoardModel, turn: Turn)
    requires
        board_ok(b),
        b.active matches Some(m) ==> m.pivot_y <= BOARD_HEIGHT - 8,
    ensures
        board_ok(rotate_step(b, turn).0),
{
    if b.active is Some {
        let m = b.active->0;
        let o1 = turned(turn, m.orientation);
        let m0 = Mino { orientation: o1, ..m };
        let kicks = kicks_of(m.mino_type, m.orientation, o1);
        lemma_kicks_small(m.mino_type, m.orientation, o1);
        lemma_offsets_small(m.mino_type, m.orientation);
        lemma_offsets_small(m.mino_type, o1);
        lemma_span_within_extents(m.mino_type, o1, 0);
        lemma_span_within_extents(m.mino_type, m.orientation, 0);
        lemma_rotate_from(b.rows, b.width, m0, m.pivot_x, m.pivot_y, kicks, 0);
        let r = rotate_from(b.rows, b.width, m0, m.pivot_x, m.pivot_y, kicks, 0);
        if r.1 {
            lemma_offsets_small(m.mino_type, r.0.orientation);
        } else {
            lemma_rotate_refused(b.rows, b.width, m0, m.pivot_x, m.pivot_y, kicks, 0);
            let n = offsets_of(m.mino_type, m.orientation).len();
            assert(kicks[n - 1].0 == offsets_of(m.mino_type, m.orientation)[n - 1].0
                - offsets_of(m.mino_type, o1)[n - 1].0);
            assert(turn_anchor(r.0) == turn_anchor(m));
        }
    }
}

/// Holding keeps a board fit for actions.
pub proof fn lemma_hold_ok(b: BoardModel)
    requires
        board_ok(b),
    ensures
        board_ok(hold_step(b).0),
{
    if b.hold is Some {
        let t = b.hold->0;
        lemma_offsets_small(t, Orientation::Up);
        lemma_span_within_extents(t, Orientation::Up, 0);
    }
}

/// A soft drop keeps a board fit for actions.
pub proof fn lemma_soft_drop_ok(b: BoardModel, repeats: u16)
    requires
        board_ok(b),
    ensures
        board_ok(soft_drop_step(b, repeats).0),
{
    if b.active is Some {
        let m = b.active->0;
        let mask = mask_of(m, b.width);
        if repeats <= mask.bottom_row {
            lemma_fall_between(b.rows, mask.covered, mask.bottom_row, mask.bottom_row - repeats);
        }
    }
}

/// A horizontal move keeps a board fit for actions.
pub proof fn lemma_horizontal_ok(b: BoardModel, right: i8)
    requires
        board_ok(b),
        b.active matches Some(m) ==> horizontal_in_range(m, right),
    ensures
        board_ok(horizontal_step(b, right).0),
{
    if b.active is Some && horizontal_step(b, right).1 is Ok {
        let m = b.active->0;
        lemma_offsets_small(m.mino_type, m.orientation);
        lemma_span_within_extents(m.mino_type, m.orientation, 0);
    }
}

/// The falling piece that the action sees, after one may have been taken
/// from the queue, meets what the action needs; and the board stays fit for
/// actions whatever the action does, a refused turn included.
pub proof fn lemma_action_keeps_ok(b: BoardModel, a: PlayerAction)
    requires
        board_ok(b),
        action_ok(b, a),
        action_in_range(b, a),
    ensures
        board_ok(set_active_step(b).0),
        set_active_step(b).1 is None ==> piece_needs(set_active_step(b).0, a),
        board_ok(action_step(b, a).0),
{
    let b1 = set_active_step(b).0;
    if b.active is None {
        lemma_set_active_ok(b);
    }
    if set_active_step(b).1 is None {
        match a.action_type {
            PlayerActions::RotateCW => {
                if a.action is Some {
                    lemma_rotate_ok(b1, Turn::Clockwise);
                }
            },
            PlayerActions::RotateCCW => {
                if a.action is Some {
                    lemma_rotate_ok(b1, Turn::CounterClockwise);
                }
            },
            PlayerActions::Rotate180 => {
                if a.action is Some {
                    lemma_rotate_ok(b1, Turn::Half);
                }
            },
            PlayerActions::HardDrop => {
                if a.action is Some {
                    lemma_hard_drop_wf(b1);
                    lemma_wf_ok(hard_drop_step(b1).0, a);
                }
            },
            PlayerActions::SoftDrop => {
                if a.action is Some {
                    lemma_soft_drop_ok(b1, a.action->0.repeats);
                }
            },
            PlayerActions::Horizontal => {
                if a.action is Some {
                    lemma_horizontal_ok(b1, a.action->0.right);
                }
            },
            PlayerActions::Hold => {
                if a.action is Some {
                    lemma_hold_ok(b1);
                }
            },
            _ => {},
        }
    }
}

/// Whether an action kind turns the piece.
pub open spec fn is_turn(x: PlayerActions) -> bool {
    x == PlayerActions::RotateCW || x == PlayerActions::RotateCCW || x == PlayerActions::Rotate180
}

/// The conditions under which a successful action keeps a board well formed:
/// a turned piece was at least ten rows below the play height, and a held
/// piece that spawns shares no cell with the stack.
pub open spec fn keeps_shape(b: BoardModel, a: PlayerAction) -> bool {
    let b1 = set_active_step(b).0;
    &&& is_turn(a.action_type) ==> (b1.active matches Some(m) ==> m.pivot_y - below_extent(
        m.mino_type,
        m.orientation,
    ) + 10 <= PLAY_HEIGHT)
    &&& a.action_type == PlayerActions::Hold ==> (b1.hold matches Some(t) ==> !overlaps(
        b1.rows,
        mask_of(spawn_of(t, b1), b1.width),
    ))
}

/// Every action keeps a board well formed, with two exceptions: a turn for
/// which no kick fits leaves the piece where the last kick put it, and holding
/// spawns the held piece without checking it against the stack. (A successful
/// turn also needs room above the piece.)
pub proof fn lemma_action_keeps_wf(b: BoardModel, a: PlayerAction)
    requires
        board_wf(b),
        action_in_range(b, a),
    ensures
        (action_step(b, a).1 is Ok && keeps_shape(b, a)) ==> board_wf(action_step(b, a).0),
        (action_step(b, a).1 is Err && action_step(b, a).1 != Err::<u8, PenaltyView>(
            penalty_msg("Can not rotate piece this way here"@),
        )) ==> board_wf(action_step(b, a).0),
{
    lemma_set_active_wf(b);
    let b1 = set_active_step(b).0;
    if set_active_step(b).1 is None {
        match a.action_type {
            PlayerActions::RotateCW => {
                if a.action is Some && rotate_step(b1, Turn::Clockwise).1 != Err::<u8, PenaltyView>(penalty_msg("Can not rotate piece this way here"@)) && (rotate_step(b1, Turn::Clockwise).1 is Ok ==> keeps_shape(b, a)) {
                    lemma_rotate_wf(b1, Turn::Clockwise);
                }
            },
            PlayerActions::RotateCCW => {
                if a.action is Some && rotate_step(b1, Turn::CounterClockwise).1 != Err::<u8, PenaltyView>(penalty_msg("Can not rotate piece this way here"@))
                    && (rotate_step(b1, Turn::CounterClockwise).1 is Ok ==> keeps_shape(b, a)) {
                    lemma_rotate_wf(b1, Turn::CounterClockwise);
                }
            },
            PlayerActions::Rotate180 => {
                if a.action is Some && rotate_step(b1, Turn::Half).1 != Err::<u8, PenaltyView>(penalty_msg("Can not rotate piece this way here"@)) && (rotate_step(b1, Turn::Half).1 is Ok ==> keeps_shape(b, a)) {
                    lemma_rotate_wf(b1, Turn::Half);
                }
            },
            PlayerActions::HardDrop => {
                lemma_hard_drop_wf(b1);
            },
            PlayerActions::SoftDrop => {
                if a.action is Some {
                    lemma_soft_drop_wf(b1, a.action->0.repeats);
                }
            },
            PlayerActions::Horizontal => {
                if a.action is Some {
                    lemma_horizontal_wf(b1, a.action->0.right);
                }
            },
            PlayerActions::Hold => {
                if keeps_shape(b, a) {
                    lemma_hold_wf(b1);
                }
            },
            _ => {},
        }
    }
}

impl Board {
    /// Whether the board is well formed and the action's byte arithmetic stays
    /// in range.
    pub fn can_apply_action(&self, a: &PlayerAction) -> (r: bool)
        ensures
            r == (board_wf(self@) && action_in_range(self@, *a)),
    {
        if !self.is_well_formed() {
            return false;
        }
        proof {
            lemma_wf_ok(self@, *a);
        }
        self.in_range(a)
    }

    /// Whether the board is fit for actions and the action can be carried
    /// out on it: exactly when `apply_action` may be called.
    pub fn action_allowed(&self, a: &PlayerAction) -> (r: bool)
        ensures
            r == (board_ok(self@) && action_ok(self@, *a) && action_in_range(self@, *a)),
    {
        if !self.is_fit_for_actions() {
            return false;
        }
        if !self.piece_ready(a) {
            return false;
        }
        self.in_range(a)
    }

    /// Whether the board is fit for actions (see `board_ok`).
    pub fn is_fit_for_actions(&self) -> (r: bool)
        ensures
            r == board_ok(self@),
    {
        if self.width < 4 || self.width > 16 || self.spawn_height > BOARD_HEIGHT - 4 {
            return false;
        }
        let mut k: usize = 0;
        while k < self.upcoming_minos.len()
            invariant
                k <= self.upcoming_minos@.len(),
                forall|j: int| 0 <= j < k ==> (#[trigger] self.upcoming_minos@[j]).is_known(),
            decreases self.upcoming_minos@.len() - k,
        {
            if let MinoType::Unknown(_) = self.upcoming_minos[k] {
                assert(!self@.upcoming[k as int].is_known());
                return false;
            }
            k = k + 1;
        }
        if let Some(MinoType::Unknown(_)) = self.hold {
            return false;
        }
        match self.active_mino {
            None => true,
            Some(m) => {
                if let MinoType::Unknown(_) = m.mino_type {
                    return false;
                }
                proof {
                    lemma_offsets_small(m.mino_type, m.orientation);
                }
                let offsets = get_offset_data(&m.mino_type, &m.orientation);
                let last = offsets[offsets.len() - 1].0;
                let anchor = m.pivot_x as i16 + last as i16;
                -2 <= anchor && anchor <= self.width as i16 + 1 && m.pivot_y <= BOARD_HEIGHT - 4
            },
        }
    }

    /// Whether the falling piece meets what the action needs of it (see
    /// `action_ok`).
    /// Whether taking a piece from the queue tops the player out, and the
    /// falling piece after it (see `set_active_step`).
    fn next_piece(&self) -> (r: (bool, Option<Mino>))
        requires
            board_ok(self@),
        ensures
            r.0 == set_active_step(self@).1 is Some,
            r.1 == set_active_step(self@).0.active,
    {
        match self.active_mino {
            Some(m) => (false, Some(m)),
            None => {
                if self.upcoming_minos.len() == 0 {
                    (false, None)
                } else {
                    let t = self.upcoming_minos[0];
                    let m = spawn_mino(t, self);
                    proof {
                        lemma_span_within_extents(t, Orientation::Up, 0);
                    }
                    if self.rows[self.spawn_height] != 0 {
                        match mask_from_mino(&m, self.width) {
                            Ok(mask) => if test_intersection(&mask, &self.rows) {
                                (true, None)
                            } else {
                                (false, Some(m))
                            },
                            Err(_) => (true, None),
                        }
                    } else {
                        (false, Some(m))
                    }
                }
            },
        }
    }

    fn piece_ready(&self, a: &PlayerAction) -> (r: bool)
        requires
            board_ok(self@),
        ensures
            r == action_ok(self@, *a),
    {
        if a.action.is_none() {
            return true;
        }
        let (topped, falling) = self.next_piece();
        if topped {
            return true;
        }
        if a.action_type == PlayerActions::HardDrop {
            if self.active_mino.is_some() {
                return self.is_well_formed();
            }
            return match falling {
                None => self.is_well_formed(),
                Some(m) => {
                    let ghost b1 = set_active_step(self@).0;
                    assert(b1.upcoming =~= self@.upcoming.drop_first());
                    if self.width < 4 {
                        false
                    } else {
                        self.rows_well_formed() && self.fits(m)
                    }
                },
            };
        }
        let m = match falling {
            None => {
                return true;
            },
            Some(m) => m,
        };
        if a.action_type == PlayerActions::RotateCW || a.action_type == PlayerActions::RotateCCW
            || a.action_type == PlayerActions::Rotate180 {
            return m.pivot_y <= BOARD_HEIGHT - 8;
        }
        proof {
            lemma_span_within_extents(m.mino_type, m.orientation, 0);
        }
        match a.action_type {
            PlayerActions::SoftDrop => is_mask_computable(&m, self.width),
            PlayerActions::Horizontal => {
                let right = a.action.unwrap().right as i16;
                let new_x = m.pivot_x as i16 + right;
                if right < 0 && new_x - (m.squares_left_of_pivot() as i16) < 0 {
                    return true;
                }
                if right >= 0 && new_x + (m.squares_right_of_pivot() as i16) >= self.width as i16 {
                    return true;
                }
                let below = m.squares_below_pivot() as usize;
                if m.pivot_y < below {
                    return false;
                }
                if self.rows[m.pivot_y - below] != 0 {
                    is_mask_computable(&m, self.width)
                } else {
                    true
                }
            },
            _ => true,
        }
    }

    /// Whether the action's byte arithmetic stays in range (see
    /// `action_in_range`).
    fn in_range(&self, a: &PlayerAction) -> (r: bool)
        requires
            board_ok(self@),
        ensures
            r == action_in_range(self@, *a),
    {
        let right = match a.action {
            Some(fields) => {
                if a.action_type == PlayerActions::Horizontal {
                    fields.right
                } else {
                    return true;
                }
            },
            None => {
                return true;
            },
        };
        let (_, falling) = self.next_piece();
        match falling {
            None => true,
            Some(m) => {
                proof {
                    if self@.active is None {
                        lemma_set_active_ok(self@);
                    }
                    lemma_span_within_extents(m.mino_type, m.orientation, 0);
                }
                let x = m.pivot_x as i16 + right as i16;
                if x < -128 || x > 127 {
                    return false;
                }
                if right < 0 {
                    x - (m.squares_left_of_pivot() as i16) >= -128
                } else {
                    x + (m.squares_right_of_pivot() as i16) <= 127
                }
            },
        }
    }
}

/// The move of the falling piece by `right` columns.
pub open spec fn move_by(right: i8, repeats: u16) -> PlayerAction {
    PlayerAction {
        action_type: PlayerActions::Horizontal,
        action: Some(ActionFields { repeats, right }),
    }
}

/// A horizontal move that succeeds is undone by the opposite move: the board
/// is as before, and the opposite move succeeds too.
pub proof fn lemma_move_undone(b: BoardModel, right: i8, r1: u16, r2: u16)
    requires
        board_wf(b),
        b.active is Some,
        right != -128,
        action_step(b, move_by(right, r1)).1 is Ok,
    ensures
        action_step(action_step(b, move_by(right, r1)).0, move_by((-right) as i8, r2)) == (
            b,
            Ok::<u8, PenaltyView>(0),
        ),
{
    let m = b.active.unwrap();
    let t = m.mino_type;
    let o = m.orientation;
    let x0 = m.pivot_x as int;
    let x1 = x0 + right;
    let b1 = action_step(b, move_by(right, r1)).0;
    assert(b1.active == Some(at_column(m, x1)));
    let m1 = at_column(m, x1);
    assert forall|x: int| #[trigger] at_column(m1, x) == at_column(m, x) by {}
    if collides_between(b1.rows, b1.width, m1, x1, x0) {
        let x = choose|x: int|
            (if x1 <= x0 {
                x1 <= x <= x0
            } else {
                x0 <= x <= x1
            }) && #[trigger] overlaps(b1.rows, mask_of(at_column(m1, x), b1.width));
        assert(overlaps(b.rows, mask_of(at_column(m, x), b.width)));
        assert(collides_between(b.rows, b.width, m, x0, x1));
    }
    assert(at_column(m1, x0) == m);
    assert(b1 == BoardModel { active: Some(m1), ..b });
    assert(action_step(b1, move_by((-right) as i8, r2)).0 =~= b);
}

proof fn lemma_fall_path(rows: Seq<u16>, covered: Seq<u16>, bottom: int, floor: int)
    requires
        floor <= bottom,
        !hits(rows, MaskView { bottom_row: bottom, covered }),
    ensures
        forall|r: int|
            fall(rows, covered, bottom, floor) <= r <= bottom ==> !#[trigger] hits(
                rows,
                MaskView { bottom_row: r, covered },
            ),
    decreases bottom - floor,
{
    if bottom > floor && !hits(rows, MaskView { bottom_row: bottom - 1, covered }) {
        lemma_fall_path(rows, covered, bottom - 1, floor);
    }
}

/// A hard drop moves the falling piece straight down through free cells until
/// it rests on the floor or on the stack.
pub proof fn lemma_hard_drop_rests(b: BoardModel, m: Mino)
    requires
        board_wf(b),
        b.active == Some(m),
    ensures
        0 <= landed_mask(b, m).bottom_row <= mask_of(m, b.width).bottom_row,
        landed_mask(b, m).covered == mask_of(m, b.width).covered,
        forall|r: int|
            landed_mask(b, m).bottom_row <= r <= mask_of(m, b.width).bottom_row ==> !#[trigger] overlaps(
                b.rows,
                MaskView { bottom_row: r, covered: mask_of(m, b.width).covered },
            ),
        landed_mask(b, m).bottom_row == 0 || overlaps(
            b.rows,
            MaskView {
                bottom_row: landed_mask(b, m).bottom_row - 1,
                covered: mask_of(m, b.width).covered,
            },
        ),
{
    let mask = mask_of(m, b.width);
    lemma_inside_mask(b.width, m);
    lemma_fall(b.rows, mask.covered, mask.bottom_row, 0);
    let land = landed_mask(b, m);
    assert(mask == MaskView { bottom_row: mask.bottom_row, covered: mask.covered });
    lemma_hits_is_overlap(b.rows, mask);
    lemma_fall_path(b.rows, mask.covered, mask.bottom_row, 0);
    assert forall|r: int| land.bottom_row <= r <= mask.bottom_row implies !#[trigger] overlaps(
        b.rows,
        MaskView { bottom_row: r, covered: mask.covered },
    ) by {
        lemma_hits_is_overlap(b.rows, MaskView { bottom_row: r, covered: mask.covered });
    }
    if land.bottom_row > 0 {
        lemma_hits_is_overlap(b.rows, MaskView { bottom_row: land.bottom_row - 1, covered: mask.covered });
    }
}

} // verus!
