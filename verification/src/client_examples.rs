//! Example players: what they keep of their board between messages, and how
//! they answer a message of the match server.
use std::collections::VecDeque;

use vstd::prelude::*;

use crate::actions::{action_in_range, action_step, apply_action};
use crate::board::{
    Board,
    BoardModel,
    BOARD_HEIGHT,
    board_wf,
    fall,
    lemma_inside_mask,
    new_board_model,
    row_with_hole_of,
};
use crate::messages::action_byte;
use crate::mino::{MaskView, MinoMask, mask_from_mino, mask_of};
use crate::rows::lemma_fall;
use crate::messages::{ActionFields, BoardExternalInfluence, MinoType, PlayerAction, PlayerActions};

verus! {

/// The rows after a block of `h` garbage rows, with the hole at column bit
/// `hole`, comes in from below: everything moves up by `h`.
pub open spec fn with_garbage_block(rows: Seq<u16>, h: int, hole: int, width: int) -> Seq<u16> {
    Seq::new(h as nat, |k: int| row_with_hole_of(width, hole)) + rows.take(rows.len() - h)
}

/// The rows after the first `k` garbage blocks came in, one after the other.
pub open spec fn with_garbage_blocks(
    rows: Seq<u16>,
    hs: Seq<u8>,
    holes: Seq<i8>,
    width: int,
    k: int,
) -> Seq<u16>
    decreases k,
{
    if k <= 0 {
        rows
    } else {
        with_garbage_block(
            with_garbage_blocks(rows, hs, holes, width, k - 1),
            hs[k - 1] as int,
            holes[k - 1] as int,
            width,
        )
    }
}

/// How many garbage blocks can be placed: each needs a height and a hole.
pub open spec fn block_count(hs: Seq<u8>, holes: Seq<i8>) -> int {
    if hs.len() < holes.len() {
        hs.len() as int
    } else {
        holes.len() as int
    }
}

/// The pieces that a message adds to the queue.
pub open spec fn influence_minos(m: BoardExternalInfluence) -> Seq<MinoType> {
    match m.new_upcoming_minos {
        Some(v) => v@,
        None => Seq::empty(),
    }
}

/// The garbage heights that a message brings.
pub open spec fn influence_heights(m: BoardExternalInfluence) -> Seq<u8> {
    match m.new_garbage_heights {
        Some(v) => v@,
        None => Seq::empty(),
    }
}

/// The hole columns that a message brings.
pub open spec fn influence_holes(m: BoardExternalInfluence) -> Seq<i8> {
    match m.new_garbage_holes {
        Some(v) => v@,
        None => Seq::empty(),
    }
}

fn extend_from<T: Copy>(q: &mut VecDeque<T>, items: &Option<Vec<T>>)
    ensures
        final(q)@ == old(q)@ + (match items {
            Some(v) => v@,
            None => Seq::<T>::empty(),
        }),
{
    match items {
        Some(v) => {
            let mut t: usize = 0;
            while t < v.len()
                invariant
                    t <= v.len(),
                    q@ == old(q)@ + v@.take(t as int),
                decreases v.len() - t,
            {
                q.push_back(v[t]);
                assert(old(q)@ + v@.take(t + 1) =~= (old(q)@ + v@.take(t as int)).push(
                    v@[t as int],
                ));
                t = t + 1;
            }
            assert(v@.take(v.len() as int) =~= v@);
        },
        None => {
            assert(old(q)@ + Seq::<T>::empty() =~= old(q)@);
        },
    }
}

/// Moves the rows up by `h` and fills the bottom `h` rows with `row`.
fn push_block(rows: &mut [u16; BOARD_HEIGHT], h: usize, row: u16)
    requires
        h <= BOARD_HEIGHT,
    ensures
        final(rows)@ == Seq::new(h as nat, |k: int| row) + old(rows)@.take(BOARD_HEIGHT - h),
{
    let ghost start = rows@;
    let mut i: usize = BOARD_HEIGHT - h;
    while i > 0
        invariant
            i <= BOARD_HEIGHT - h,
            h <= BOARD_HEIGHT,
            start == old(rows)@,
            forall|j: int| i + h <= j < BOARD_HEIGHT ==> #[trigger] rows@[j] == start[j - h],
            forall|j: int| 0 <= j < i + h ==> #[trigger] rows@[j] == start[j],
        decreases i,
    {
        i = i - 1;
        rows[i + h] = rows[i];
    }
    let mut j: usize = 0;
    while j < h
        invariant
            j <= h <= BOARD_HEIGHT,
            start == old(rows)@,
            forall|q: int| h <= q < BOARD_HEIGHT ==> #[trigger] rows@[q] == start[q - h],
            forall|q: int| 0 <= q < j ==> #[trigger] rows@[q] == row,
        decreases h - j,
    {
        rows[j] = row;
        j = j + 1;
    }
    assert(rows@ =~= Seq::new(h as nat, |k: int| row) + start.take(BOARD_HEIGHT - h));
}

/// Takes in a message of the match server: its pieces join the queue, and
/// every garbage block that has both a height and a hole column comes in
/// from below, the first one first.
pub fn apply_external_influence(
    influence: &BoardExternalInfluence,
    board: &mut Board,
    garbage_heights: &mut VecDeque<u8>,
    garbage_holes: &mut VecDeque<i8>,
)
    requires
        1 <= old(board).width <= 16,
        ({
            let hs = old(garbage_heights)@ + influence_heights(*influence);
            let os = old(garbage_holes)@ + influence_holes(*influence);
            forall|k: int| 0 <= k < block_count(hs, os) ==> 0 <= #[trigger] os[k] < 16
        }),
    ensures
        ({
            let hs = old(garbage_heights)@ + influence_heights(*influence);
            let os = old(garbage_holes)@ + influence_holes(*influence);
            let m = block_count(hs, os);
            let b = old(board)@;
            &&& final(board)@ == (BoardModel {
                rows: with_garbage_blocks(b.rows, hs, os, b.width as int, m),
                upcoming: b.upcoming + influence_minos(*influence),
                ..b
            })
            &&& final(garbage_heights)@ == hs.skip(m)
            &&& final(garbage_holes)@ == os.skip(m)
        }),
{
    extend_from(&mut board.upcoming_minos, &influence.new_upcoming_minos);
    extend_from(garbage_heights, &influence.new_garbage_heights);
    extend_from(garbage_holes, &influence.new_garbage_holes);
    let ghost hs = garbage_heights@;
    let ghost os = garbage_holes@;
    let ghost m = block_count(hs, os);
    let ghost b = board@;
    let ghost mut k: int = 0;
    while garbage_heights.len() > 0 && garbage_holes.len() > 0
        invariant
            0 <= k <= m,
            m == block_count(hs, os),
            forall|q: int| 0 <= q < m ==> 0 <= #[trigger] os[q] < 16,
            garbage_heights@ == hs.skip(k),
            garbage_holes@ == os.skip(k),
            board@ == (BoardModel { rows: with_garbage_blocks(b.rows, hs, os, b.width as int, k), ..b }),
            b.rows.len() == BOARD_HEIGHT,
            1 <= b.width <= 16,
        decreases garbage_heights@.len(),
    {
        let garbage_height = garbage_heights.pop_front().unwrap() as usize;
        let garbage_hole = garbage_holes.pop_front().unwrap();
        let row = Board::row_with_hole(board.width, garbage_hole);
        push_block(&mut board.rows, garbage_height, row);
        proof {
            assert(garbage_height == hs[k]);
            assert(garbage_hole == os[k]);
            k = k + 1;
            assert(garbage_heights@ =~= hs.skip(k));
            assert(garbage_holes@ =~= os.skip(k));
            assert(board@.rows =~= with_garbage_blocks(b.rows, hs, os, b.width as int, k));
        }
    }
    assert(board@ =~= (BoardModel {
        rows: with_garbage_blocks(b.rows, hs, os, b.width as int, m),
        ..b
    }));
}

/// The action that hard-drops the falling piece.
pub open spec fn hard_drop_action() -> PlayerAction {
    PlayerAction {
        action_type: PlayerActions::HardDrop,
        action: Some(ActionFields { repeats: 0, right: 0 }),
    }
}

fn make_hard_drop() -> (r: PlayerAction)
    ensures
        r == hard_drop_action(),
{
    PlayerAction {
        action_type: PlayerActions::HardDrop,
        action: Some(ActionFields { repeats: 0, right: 0 }),
    }
}

/// A player that hard-drops every piece as it comes.
pub struct HardDropClient {
    board: Board,
    garbage_heights: VecDeque<u8>,
    garbage_holes: VecDeque<i8>,
}

/// What a player keeps between messages: its idea of its board and the
/// garbage heights and holes not yet matched.
pub struct ClientModel {
    pub board: BoardModel,
    pub garbage_heights: Seq<u8>,
    pub garbage_holes: Seq<i8>,
}

/// Whether a player with this board and these unmatched garbage heights and
/// holes can take in a message (see `influence_ok`).
pub(crate) fn influence_fits(
    board: &Board,
    heights: &VecDeque<u8>,
    holes: &VecDeque<i8>,
    m: &BoardExternalInfluence,
) -> (r: bool)
    ensures
        r == influence_ok(
            ClientModel { board: board@, garbage_heights: heights@, garbage_holes: holes@ },
            *m,
        ),
{
    let ghost c = ClientModel { board: board@, garbage_heights: heights@, garbage_holes: holes@ };
    let ghost hs = c.garbage_heights + influence_heights(*m);
    let ghost os = c.garbage_holes + influence_holes(*m);
    if board.width < 1 || board.width > 16 {
        return false;
    }
    let new_heights: usize = match &m.new_garbage_heights {
        Some(v) => v.len(),
        None => 0,
    };
    let empty: Vec<i8> = Vec::new();
    let new_holes: &Vec<i8> = match &m.new_garbage_holes {
        Some(v) => v,
        None => &empty,
    };
    assert(new_holes@ == influence_holes(*m));
    let nh: u128 = heights.len() as u128 + new_heights as u128;
    let no: u128 = holes.len() as u128 + new_holes.len() as u128;
    let count: u128 = if nh < no {
        nh
    } else {
        no
    };
    assert(count == block_count(hs, os));
    let mut k: u128 = 0;
    while k < count
        invariant
            k <= count,
            count <= no,
            no == holes@.len() + new_holes@.len(),
            count == block_count(hs, os),
            os == holes@ + new_holes@,
            new_holes@ == influence_holes(*m),
            hs == heights@ + influence_heights(*m),
            os == holes@ + influence_holes(*m),
            1 <= board.width <= 16,
            c == (ClientModel { board: board@, garbage_heights: heights@, garbage_holes: holes@ }),
            forall|j: int| 0 <= j < k ==> 0 <= #[trigger] os[j] < 16,
        decreases count - k,
    {
        let hole = if k < holes.len() as u128 {
            let idx = k as usize;
            assert(os[k as int] == holes@[idx as int]);
            holes[idx]
        } else {
            let off: u128 = k - holes.len() as u128;
            let nl: usize = new_holes.len();
            assert(off < nl as u128);
            let idx = off as usize;
            assert(idx == k - holes@.len());
            assert(os[k as int] == new_holes@[idx as int]);
            new_holes[idx]
        };
        assert(hole == os[k as int]);
        if hole < 0 || hole >= 16 {
            assert(!(0 <= os[k as int] < 16));
            assert(0 <= k < block_count(hs, os));
            assert(!influence_ok(c, *m)) by {
                let os2 = c.garbage_holes + influence_holes(*m);
                let hs2 = c.garbage_heights + influence_heights(*m);
                assert(os2 =~= os);
                assert(hs2 =~= hs);
                assert(!(0 <= os2[k as int] < 16));
            }
            return false;
        }
        k = k + 1;
    }
    true
}

/// A player's state after it took in a message of the server.
pub open spec fn influenced(c: ClientModel, m: BoardExternalInfluence) -> ClientModel {
    let hs = c.garbage_heights + influence_heights(m);
    let os = c.garbage_holes + influence_holes(m);
    let k = block_count(hs, os);
    ClientModel {
        board: BoardModel {
            rows: with_garbage_blocks(c.board.rows, hs, os, c.board.width as int, k),
            upcoming: c.board.upcoming + influence_minos(m),
            ..c.board
        },
        garbage_heights: hs.skip(k),
        garbage_holes: os.skip(k),
    }
}

/// Whether a player can take in a message: its board is 1 to 16 columns wide
/// and every hole column that comes to use names one of 16 columns.
pub open spec fn influence_ok(c: ClientModel, m: BoardExternalInfluence) -> bool {
    let hs = c.garbage_heights + influence_heights(m);
    let os = c.garbage_holes + influence_holes(m);
    &&& 1 <= c.board.width <= 16
    &&& forall|k: int| 0 <= k < block_count(hs, os) ==> 0 <= #[trigger] os[k] < 16
}

impl View for HardDropClient {
    type V = ClientModel;

    closed spec fn view(&self) -> ClientModel {
        ClientModel {
            board: self.board@,
            garbage_heights: self.garbage_heights@,
            garbage_holes: self.garbage_holes@,
        }
    }
}

impl HardDropClient {
    /// A player that knows of nothing yet.
    pub fn new() -> (r: HardDropClient)
        ensures
            r@ == (ClientModel {
                board: crate::board::new_board_model(),
                garbage_heights: Seq::empty(),
                garbage_holes: Seq::empty(),
            }),
    {
        HardDropClient {
            board: Board::new(),
            garbage_heights: VecDeque::new(),
            garbage_holes: VecDeque::new(),
        }
    }

    /// The actions sent with every message: one hard drop.
    fn build_actions(&self) -> (r: Vec<PlayerAction>)
        ensures
            r@ == seq![hard_drop_action()],
    {
        let mut actions: Vec<PlayerAction> = Vec::new();
        actions.push(make_hard_drop());
        actions
    }

    /// Whether the player can take in a message (see `influence_ok`).
    pub fn accepts(&self, influence: &BoardExternalInfluence) -> (r: bool)
        ensures
            r == influence_ok(self@, *influence),
    {
        influence_fits(&self.board, &self.garbage_heights, &self.garbage_holes, influence)
    }

    /// Takes in a message of the server and answers it.
    pub fn respond(&mut self, influence: &BoardExternalInfluence) -> (r: Vec<PlayerAction>)
        requires
            influence_ok(old(self)@, *influence),
        ensures
            final(self)@ == influenced(old(self)@, *influence),
            r@ == seq![hard_drop_action()],
    {
        apply_external_influence(
            influence,
            &mut self.board,
            &mut self.garbage_heights,
            &mut self.garbage_holes,
        );
        self.build_actions()
    }
}

impl Default for HardDropClient {
    fn default() -> (r: HardDropClient)
        ensures
            r@ == (ClientModel {
                board: crate::board::new_board_model(),
                garbage_heights: Seq::empty(),
                garbage_holes: Seq::empty(),
            }),
    {
        HardDropClient::new()
    }
}

/// A player that does nothing.
pub struct JustWaitClient {}

/// A turn or hold as a player sends it: a table without fields.
pub open spec fn plain_action(t: PlayerActions) -> PlayerAction {
    PlayerAction { action_type: t, action: Some(ActionFields { repeats: 0, right: 0 }) }
}

/// A horizontal move as a player sends it.
pub open spec fn move_action(right: i8) -> PlayerAction {
    PlayerAction {
        action_type: PlayerActions::Horizontal,
        action: Some(ActionFields { repeats: 0, right }),
    }
}

/// The turns tried before a move, in order: none, then the three turns.
pub open spec fn turn_choice(r: int) -> Option<PlayerActions> {
    if r == 0 {
        None
    } else if r == 1 {
        Some(PlayerActions::RotateCW)
    } else if r == 2 {
        Some(PlayerActions::RotateCCW)
    } else {
        Some(PlayerActions::Rotate180)
    }
}

/// The `c`-th drop tried: the moves go from 10 columns left to 9 right, and
/// for each move the four turn choices; a drop is the turn, the move and a
/// hard drop.
pub open spec fn drop_plan(c: int) -> Seq<PlayerAction> {
    let rest = seq![move_action((c / 4 - 10) as i8), hard_drop_action()];
    match turn_choice(c % 4) {
        Some(t) => seq![plain_action(t)] + rest,
        None => rest,
    }
}

/// How many drops are tried for each piece.
pub open spec fn drops_tried() -> int {
    80
}

/// A new board with one piece in its queue.
pub open spec fn start_board(t: MinoType) -> BoardModel {
    BoardModel { upcoming: seq![t], ..new_board_model() }
}

/// The board after the actions, one after the other: `None` when one of them
/// can not be applied (see `apply_action`) or gives a penalty.
pub open spec fn run_actions(b: BoardModel, acts: Seq<PlayerAction>) -> Option<BoardModel>
    decreases acts.len(),
{
    if acts.len() == 0 {
        Some(b)
    } else if !(board_wf(b) && action_in_range(b, acts[0])) {
        None
    } else if action_step(b, acts[0]).1 is Err {
        None
    } else {
        run_actions(action_step(b, acts[0]).0, acts.drop_first())
    }
}

/// Of the first `c` drops tried for piece `t` on a new board, those that work
/// and reach a board that no earlier one reached, with those boards.
pub open spec fn unique_drops(t: MinoType, c: int) -> (Seq<Seq<PlayerAction>>, Seq<BoardModel>)
    decreases c,
{
    if c <= 0 {
        (Seq::empty(), Seq::empty())
    } else {
        let prev = unique_drops(t, c - 1);
        match run_actions(start_board(t), drop_plan(c - 1)) {
            Some(b) => if prev.1.contains(b) {
                prev
            } else {
                (prev.0.push(drop_plan(c - 1)), prev.1.push(b))
            },
            None => prev,
        }
    }
}

fn make_plain(t: PlayerActions) -> (r: PlayerAction)
    ensures
        r == plain_action(t),
{
    PlayerAction { action_type: t, action: Some(ActionFields { repeats: 0, right: 0 }) }
}

fn make_move(right: i8) -> (r: PlayerAction)
    ensures
        r == move_action(right),
{
    PlayerAction {
        action_type: PlayerActions::Horizontal,
        action: Some(ActionFields { repeats: 0, right }),
    }
}

/// The `c`-th drop tried.
fn build_plan(c: usize) -> (r: Vec<PlayerAction>)
    requires
        c < 80,
    ensures
        r@ == drop_plan(c as int),
{
    let right = (c / 4) as i8 - 10;
    let mut plan: Vec<PlayerAction> = Vec::new();
    let turn = c % 4;
    if turn == 1 {
        plan.push(make_plain(PlayerActions::RotateCW));
    } else if turn == 2 {
        plan.push(make_plain(PlayerActions::RotateCCW));
    } else if turn == 3 {
        plan.push(make_plain(PlayerActions::Rotate180));
    }
    plan.push(make_move(right));
    plan.push(make_hard_drop());
    assert(plan@ =~= drop_plan(c as int));
    plan
}

/// Whether two boards are equal.
pub fn same_board(a: &Board, b: &Board) -> (r: bool)
    ensures
        r == (a@ == b@),
{
    let mut i: usize = 0;
    while i < BOARD_HEIGHT
        invariant
            i <= BOARD_HEIGHT,
            forall|j: int| 0 <= j < i ==> a.rows@[j] == b.rows@[j],
        decreases BOARD_HEIGHT - i,
    {
        if a.rows[i] != b.rows[i] {
            return false;
        }
        i = i + 1;
    }
    assert(a.rows@ =~= b.rows@);
    if a.width != b.width || a.spawn_height != b.spawn_height || a.hold != b.hold
        || a.active_mino != b.active_mino {
        return false;
    }
    if a.upcoming_minos.len() != b.upcoming_minos.len() {
        return false;
    }
    let mut k: usize = 0;
    while k < a.upcoming_minos.len()
        invariant
            k <= a.upcoming_minos@.len() == b.upcoming_minos@.len(),
            forall|j: int| 0 <= j < k ==> a.upcoming_minos@[j] == b.upcoming_minos@[j],
        decreases a.upcoming_minos@.len() - k,
    {
        if a.upcoming_minos[k] != b.upcoming_minos[k] {
            return false;
        }
        k = k + 1;
    }
    assert(a.upcoming_minos@ =~= b.upcoming_minos@);
    assert(a@ =~= b@);
    true
}

/// Runs the actions on a new board with piece `t` queued.
fn run_plan(t: MinoType, plan: &Vec<PlayerAction>) -> (r: Option<Board>)
    ensures
        match r {
            Some(b) => run_actions(start_board(t), plan@) == Some(b@),
            None => run_actions(start_board(t), plan@) is None,
        },
{
    let mut board = Board::new();
    board.upcoming_minos.push_back(t);
    assert(board@ =~= start_board(t));
    assert(plan@.skip(0) =~= plan@);
    let mut k: usize = 0;
    while k < plan.len()
        invariant
            k <= plan.len(),
            run_actions(start_board(t), plan@) == run_actions(board@, plan@.skip(k as int)),
        decreases plan.len() - k,
    {
        let a = plan[k];
        assert(plan@.skip(k as int)[0] == a);
        assert(plan@.skip(k as int).drop_first() =~= plan@.skip(k + 1));
        if !board.can_apply_action(&a) {
            return None;
        }
        proof {
            crate::actions::lemma_wf_ok(board@, a);
        }
        match apply_action(&a, &mut board) {
            Ok(_) => {},
            Err(_) => {
                return None;
            },
        }
        k = k + 1;
    }
    assert(plan@.skip(plan.len() as int) =~= Seq::<PlayerAction>::empty());
    Some(board)
}

/// Whether a board equal to `b` is among `seen`.
fn board_seen(seen: &Vec<Board>, b: &Board) -> (r: bool)
    ensures
        r == seen@.map_values(|x: Board| x@).contains(b@),
{
    let mut i: usize = 0;
    while i < seen.len()
        invariant
            i <= seen.len(),
            forall|j: int| 0 <= j < i ==> seen@[j]@ != b@,
        decreases seen.len() - i,
    {
        if same_board(&seen[i], b) {
            assert(seen@.map_values(|x: Board| x@)[i as int] == b@);
            return true;
        }
        i = i + 1;
    }
    proof {
        let views = seen@.map_values(|x: Board| x@);
        if views.contains(b@) {
            let j = choose|j: int| 0 <= j < views.len() && #[trigger] views[j] == b@;
            assert(seen@[j]@ == b@);
        }
    }
    false
}

/// The drops for piece `t` on a new board that reach different boards (see
/// `unique_drops`).
fn unique_drops_for(t: MinoType) -> (r: Vec<Vec<PlayerAction>>)
    ensures
        r@.map_values(|v: Vec<PlayerAction>| v@) == unique_drops(t, drops_tried()).0,
{
    let mut kept: Vec<Vec<PlayerAction>> = Vec::new();
    let mut seen: Vec<Board> = Vec::new();
    let mut c: usize = 0;
    while c < 80
        invariant
            c <= 80,
            kept@.map_values(|v: Vec<PlayerAction>| v@) == unique_drops(t, c as int).0,
            seen@.map_values(|x: Board| x@) == unique_drops(t, c as int).1,
        decreases 80 - c,
    {
        let plan = build_plan(c);
        match run_plan(t, &plan) {
            Some(board) => {
                if !board_seen(&seen, &board) {
                    let ghost k0 = kept@;
                    let ghost s0 = seen@;
                    let ghost p = plan@;
                    let ghost bm = board@;
                    kept.push(plan);
                    seen.push(board);
                    assert(kept@.map_values(|v: Vec<PlayerAction>| v@) =~= k0.map_values(
                        |v: Vec<PlayerAction>| v@,
                    ).push(p));
                    assert(seen@.map_values(|x: Board| x@) =~= s0.map_values(|x: Board| x@).push(
                        bm,
                    ));
                }
            },
            None => {},
        }
        c = c + 1;
    }
    kept
}

/// For each of the seven pieces, in wire order, the drops on a new board that
/// reach different boards: moves of 10 columns left to 9 right, each with no
/// turn or one of the three turns, followed by a hard drop.
pub fn get_all_unique_hard_drops() -> (r: Vec<(MinoType, Vec<Vec<PlayerAction>>)>)
    ensures
        r@.len() == 7,
        forall|j: int|
            0 <= j < 7 ==> {
                &&& (#[trigger] r@[j]).0 == crate::versus::seven_pieces()[j]
                &&& r@[j].1@.map_values(|v: Vec<PlayerAction>| v@) == unique_drops(
                    r@[j].0,
                    drops_tried(),
                ).0
            },
{
    let pieces: Vec<MinoType> = vec![
        MinoType::T,
        MinoType::I,
        MinoType::L,
        MinoType::J,
        MinoType::S,
        MinoType::Z,
        MinoType::O,
    ];
    assert(pieces@ =~= crate::versus::seven_pieces());
    let mut out: Vec<(MinoType, Vec<Vec<PlayerAction>>)> = Vec::new();
    let mut j: usize = 0;
    while j < 7
        invariant
            j <= 7,
            pieces@ == crate::versus::seven_pieces(),
            out@.len() == j,
            forall|q: int|
                0 <= q < j ==> {
                    &&& (#[trigger] out@[q]).0 == crate::versus::seven_pieces()[q]
                    &&& out@[q].1@.map_values(|v: Vec<PlayerAction>| v@) == unique_drops(
                        out@[q].0,
                        drops_tried(),
                    ).0
                },
        decreases 7 - j,
    {
        let t = pieces[j];
        let drops = unique_drops_for(t);
        out.push((t, drops));
        j = j + 1;
    }
    out
}

/// How many rows of a piece's mask reach into the rightmost column.
pub open spec fn right_cells(covered: Seq<u16>) -> int {
    (covered[0] & 1u16) + (covered[1] & 1u16) + (covered[2] & 1u16) + (covered[3] & 1u16)
}

/// 1 when row `y` exists and is filled but for its rightmost column.
pub open spec fn well_row(rows: Seq<u16>, width: int, y: int) -> int {
    if 0 <= y < rows.len() && rows[y] == row_with_hole_of(width, 0) {
        1
    } else {
        0
    }
}

/// The value of a piece landing at `mask`: the lower the better; a piece
/// that fills the rightmost column over four rows scores the rows it
/// completes beyond three, and one that fills it over two or three rows is
/// marked down by that many.
pub open spec fn expected_value(rows: Seq<u16>, width: int, mask: MaskView) -> int {
    let rc = right_cells(mask.covered);
    let b = mask.bottom_row;
    -b + if rc == 4 {
        well_row(rows, width, b) + well_row(rows, width, b + 1) + well_row(rows, width, b + 2)
            + well_row(rows, width, b + 3) - 3
    } else if rc > 1 {
        -rc
    } else {
        0
    }
}

/// How a drop is scored by how many of the mask's four rows reach the
/// rightmost column (bit 0): none or one, the value is minus the bottom row;
/// two, minus the bottom row and two more; three, minus the bottom row and
/// three more; four, minus the bottom row, minus three, plus each of the four
/// rows that is filled but for the rightmost column.
pub proof fn lemma_right_well_scores(rows: Seq<u16>, width: int, mask: MaskView)
    ensures
        ({
            let c = mask.covered;
            let n = (c[0] & 1u16) + (c[1] & 1u16) + (c[2] & 1u16) + (c[3] & 1u16);
            let b = mask.bottom_row;
            &&& n <= 1 ==> expected_value(rows, width, mask) == -b
            &&& n == 2 ==> expected_value(rows, width, mask) == -b - 2
            &&& n == 3 ==> expected_value(rows, width, mask) == -b - 3
            &&& n == 4 ==> expected_value(rows, width, mask) == -b - 3 + (if 0 <= b < rows.len()
                && rows[b] == row_with_hole_of(width, 0) {
                1int
            } else {
                0
            }) + (if 0 <= b + 1 < rows.len() && rows[b + 1] == row_with_hole_of(width, 0) {
                1int
            } else {
                0
            }) + (if 0 <= b + 2 < rows.len() && rows[b + 2] == row_with_hole_of(width, 0) {
                1int
            } else {
                0
            }) + (if 0 <= b + 3 < rows.len() && rows[b + 3] == row_with_hole_of(width, 0) {
                1int
            } else {
                0
            })
        }),
{
    let c = mask.covered;
    lemma_low_bit(c[0]);
    lemma_low_bit(c[1]);
    lemma_low_bit(c[2]);
    lemma_low_bit(c[3]);
}

/// The score of a tried drop: its value, the columns it moves and the turn
/// reported with it.
pub type DropScore = (i32, i8, Option<PlayerActions>);

/// Where a turn stands in the order of scores: no turn first, then by wire
/// byte.
pub open spec fn turn_rank(a: Option<PlayerActions>) -> int {
    match a {
        None => -1,
        Some(x) => action_byte(x) as int,
    }
}

/// The order of scores: by value, then by move, then by turn.
pub open spec fn score_le(a: DropScore, b: DropScore) -> bool {
    ||| a.0 < b.0
    ||| a.0 == b.0 && a.1 < b.1
    ||| a.0 == b.0 && a.1 == b.1 && turn_rank(a.2) <= turn_rank(b.2)
}

/// The greatest score, the last of equal ones.
pub open spec fn best_score(scores: Seq<DropScore>) -> DropScore
    decreases scores.len(),
{
    if scores.len() <= 1 {
        scores[0]
    } else {
        let prev = best_score(scores.drop_last());
        if score_le(prev, scores.last()) {
            scores.last()
        } else {
            prev
        }
    }
}

/// The index of the move in a drop: after the turn, if there is one.
pub open spec fn move_index(acts: Seq<PlayerAction>) -> int {
    if acts.len() == 3 {
        1
    } else {
        0
    }
}

/// The board after the turn of a drop, if it has one.
pub open spec fn turned_board(b: BoardModel, acts: Seq<PlayerAction>) -> BoardModel {
    if acts.len() == 3 {
        action_step(b, acts[0]).0
    } else {
        b
    }
}

/// The board after the turn and the move of a drop.
pub open spec fn moved_board(b: BoardModel, acts: Seq<PlayerAction>) -> BoardModel {
    action_step(turned_board(b, acts), acts[move_index(acts)]).0
}

/// A drop can be tried on board `b`: it is a move with or without a turn
/// before it, and both can be applied and succeed.
pub open spec fn try_drop_ok(b: BoardModel, acts: Seq<PlayerAction>) -> bool {
    let h = move_index(acts);
    let b1 = turned_board(b, acts);
    &&& acts.len() == 2 || acts.len() == 3
    &&& acts.len() == 3 ==> board_wf(b) && action_in_range(b, acts[0]) && action_step(
        b,
        acts[0],
    ).1 is Ok
    &&& board_wf(b1) && action_in_range(b1, acts[h]) && action_step(b1, acts[h]).1 is Ok
    &&& acts[h].action_type == PlayerActions::Horizontal && acts[h].action is Some
}

/// Where the falling piece of a board lands when hard-dropped.
pub open spec fn landing(b: BoardModel) -> MaskView {
    let mask = mask_of(b.active.unwrap(), b.width);
    MaskView { bottom_row: fall(b.rows, mask.covered, mask.bottom_row, 0), covered: mask.covered }
}

/// Trying a drop on board `b`: the turn and the move are applied, the landing
/// of the piece is scored, and the piece goes back to the front of the queue.
pub open spec fn try_drop(b: BoardModel, acts: Seq<PlayerAction>) -> (BoardModel, DropScore) {
    let b2 = moved_board(b, acts);
    let m = b2.active.unwrap();
    (
        BoardModel { upcoming: seq![m.mino_type] + b2.upcoming, active: None, ..b2 },
        (
            expected_value(b2.rows, b2.width as int, landing(b2)) as i32,
            acts[move_index(acts)].action.unwrap().right,
            if acts.len() == 3 {
                Some(acts[1].action_type)
            } else {
                None
            },
        ),
    )
}

/// Trying the drops one after the other: the board at the end, the scores,
/// and whether every drop could be tried.
pub open spec fn try_drops(b: BoardModel, drops: Seq<Seq<PlayerAction>>) -> (
    BoardModel,
    Seq<DropScore>,
    bool,
)
    decreases drops.len(),
{
    if drops.len() == 0 {
        (b, Seq::empty(), true)
    } else {
        let prev = try_drops(b, drops.drop_last());
        let step = try_drop(prev.0, drops.last());
        (step.0, prev.1.push(step.1), prev.2 && try_drop_ok(prev.0, drops.last()))
    }
}

proof fn lemma_try_drops_prefix(b: BoardModel, drops: Seq<Seq<PlayerAction>>, k: int)
    requires
        try_drops(b, drops).2,
        0 <= k <= drops.len(),
    ensures
        try_drops(b, drops.take(k)).2,
    decreases drops.len() - k,
{
    if k == drops.len() {
        assert(drops.take(k) =~= drops);
    } else {
        lemma_try_drops_prefix(b, drops, k + 1);
        assert(drops.take(k + 1).drop_last() =~= drops.take(k));
    }
}

proof fn lemma_low_bit(x: u16)
    by (bit_vector)
    ensures
        x & 1u16 <= 1u16,
{
}

/// The value of a piece landing at `mask` (see `expected_value`).
fn get_expected_value(board: &Board, mask: &MinoMask) -> (r: i32)
    requires
        mask.bottom_row < BOARD_HEIGHT,
        right_cells(mask@.covered) == 4 ==> 1 <= board.width <= 16,
    ensures
        r == expected_value(board.rows@, board.width as int, mask@),
{
    let mut val: i32 = 0;
    val = val - mask.bottom_row as i32;
    let c0 = mask.covered[0];
    let c1 = mask.covered[1];
    let c2 = mask.covered[2];
    let c3 = mask.covered[3];
    proof {
        lemma_low_bit(c0);
        lemma_low_bit(c1);
        lemma_low_bit(c2);
        lemma_low_bit(c3);
    }
    let right_count: u16 = (c0 & 1) + (c1 & 1) + (c2 & 1) + (c3 & 1);
    if right_count == 4 {
        let well = Board::row_with_hole(board.width, 0);
        let mut clear_count: i32 = 0;
        let mut y = mask.bottom_row;
        let end = if mask.bottom_row + 4 < BOARD_HEIGHT {
            mask.bottom_row + 4
        } else {
            BOARD_HEIGHT
        };
        while y < end
            invariant
                mask.bottom_row <= y <= end <= mask.bottom_row + 4,
                end <= BOARD_HEIGHT,
                end == BOARD_HEIGHT || end == mask.bottom_row + 4,
                well == row_with_hole_of(board.width as int, 0),
                clear_count == (if mask.bottom_row < y {
                    well_row(board.rows@, board.width as int, mask.bottom_row as int)
                } else {
                    0
                }) + (if mask.bottom_row + 1 < y {
                    well_row(board.rows@, board.width as int, mask.bottom_row + 1)
                } else {
                    0
                }) + (if mask.bottom_row + 2 < y {
                    well_row(board.rows@, board.width as int, mask.bottom_row + 2)
                } else {
                    0
                }) + (if mask.bottom_row + 3 < y {
                    well_row(board.rows@, board.width as int, mask.bottom_row + 3)
                } else {
                    0
                }),
            decreases end - y,
        {
            if board.rows[y] == well {
                clear_count = clear_count + 1;
            }
            y = y + 1;
        }
        val = val + (clear_count - 3);
    } else if right_count > 1 {
        val = val - right_count as i32;
    }
    val
}

/// A player that hard-drops every piece as it comes, and that can score the
/// drops of its falling piece, aiming at four-row clears in the rightmost
/// column.
pub struct RightWellClient {
    board: Board,
    garbage_heights: VecDeque<u8>,
    garbage_holes: VecDeque<i8>,
    unique_hard_drops: Vec<(MinoType, Vec<Vec<PlayerAction>>)>,
}

/// The table of drops for each piece (see `get_all_unique_hard_drops`).
pub open spec fn drop_table_ok(table: Seq<(MinoType, Vec<Vec<PlayerAction>>)>) -> bool {
    &&& table.len() == 7
    &&& forall|j: int|
        0 <= j < 7 ==> {
            &&& (#[trigger] table[j]).0 == crate::versus::seven_pieces()[j]
            &&& table[j].1@.map_values(|v: Vec<PlayerAction>| v@) == unique_drops(
                table[j].0,
                drops_tried(),
            ).0
        }
}

/// Tries one drop on the board (see `try_drop`).
fn try_one_drop(board: &mut Board, acts: &Vec<PlayerAction>) -> (r: DropScore)
    requires
        try_drop_ok(old(board)@, acts@),
    ensures
        (final(board)@, r) == try_drop(old(board)@, acts@),
{
    let ghost before = board@;
    let has_rotate = acts.len() == 3;
    let horizontal_i: usize = if has_rotate {
        1
    } else {
        0
    };
    if has_rotate {
        let a0 = acts[0];
        proof {
            crate::actions::lemma_wf_ok(board@, a0);
        }
        match apply_action(&a0, board) {
            Ok(_) => {},
            Err(_) => {
                assert(false);
            },
        }
    }
    assert(board@ == turned_board(before, acts@));
    let a1 = acts[horizontal_i];
    proof {
        crate::actions::lemma_wf_ok(board@, a1);
    }
    let moved = apply_action(&a1, board);
    match moved {
        Ok(_) => {},
        Err(_) => {
            assert(false);
        },
    }
    assert(board@ == moved_board(before, acts@));
    let m = board.active_mino.unwrap();
    proof {
        lemma_inside_mask(board.width, m);
    }
    let mut mask = mask_from_mino(&m, board.width).unwrap();
    let ghost start = mask@;
    mask.set_hard_drop_row(board);
    proof {
        lemma_fall(board.rows@, start.covered, start.bottom_row, 0);
    }
    let right = a1.action_as_horizontal().unwrap().right();
    let rotate = if has_rotate {
        Some(acts[1].action_type())
    } else {
        None
    };
    let ev = get_expected_value(board, &mask);
    board.upcoming_minos.push_front(m.mino_type);
    board.active_mino = None;
    let score: DropScore = (ev, right, rotate);
    assert(board@ =~= try_drop(before, acts@).0);
    score
}

/// The entry of the drop table for a piece.
fn table_entry(table: &Vec<(MinoType, Vec<Vec<PlayerAction>>)>, t: MinoType) -> (r: usize)
    requires
        drop_table_ok(table@),
        t.is_known(),
    ensures
        r < 7,
        table@[r as int].0 == t,
{
    let mut j: usize = 0;
    while j < 6 && table[j].0 != t
        invariant
            j <= 6,
            drop_table_ok(table@),
            t.is_known(),
            forall|q: int| 0 <= q < j ==> crate::versus::seven_pieces()[q] != t,
        decreases 6 - j,
    {
        j = j + 1;
    }
    j
}

impl RightWellClient {
    /// What the player keeps between messages.
    pub closed spec fn model(&self) -> ClientModel {
        ClientModel {
            board: self.board@,
            garbage_heights: self.garbage_heights@,
            garbage_holes: self.garbage_holes@,
        }
    }

    /// The player holds the table of drops for each piece.
    pub closed spec fn table_ok(&self) -> bool {
        drop_table_ok(self.unique_hard_drops@)
    }

    /// A player that knows of nothing yet, with its table of drops.
    pub fn new() -> (r: RightWellClient)
        ensures
            r.model() == (ClientModel {
                board: new_board_model(),
                garbage_heights: Seq::empty(),
                garbage_holes: Seq::empty(),
            }),
            r.table_ok(),
    {
        RightWellClient {
            board: Board::new(),
            garbage_heights: VecDeque::new(),
            garbage_holes: VecDeque::new(),
            unique_hard_drops: get_all_unique_hard_drops(),
        }
    }

    /// Replaces the player's idea of its board.
    pub fn set_board(&mut self, board: Board)
        ensures
            final(self).model() == (ClientModel { board: board@, ..old(self).model() }),
            final(self).table_ok() == old(self).table_ok(),
    {
        self.board = board;
    }

    /// The player's idea of its board.
    pub fn board(&self) -> (r: &Board)
        ensures
            r@ == self.model().board,
    {
        &self.board
    }

    /// The value of a piece landing at `mask` (see `expected_value`).
    pub fn get_expected_value(board: &Board, mask: &MinoMask) -> (r: i32)
        requires
            mask.bottom_row < BOARD_HEIGHT,
            right_cells(mask@.covered) == 4 ==> 1 <= board.width <= 16,
        ensures
            r == expected_value(board.rows@, board.width as int, mask@),
    {
        get_expected_value(board, mask)
    }

    /// Tries every drop of the table for the falling piece (see `try_drops`)
    /// and returns the greatest score.
    pub fn find_immediate_best_hard_drop(&mut self) -> (r: DropScore)
        requires
            old(self).table_ok(),
            old(self).model().board.active is Some,
            old(self).model().board.active.unwrap().mino_type.is_known(),
            ({
                let drops = unique_drops(
                    old(self).model().board.active.unwrap().mino_type,
                    drops_tried(),
                ).0;
                drops.len() > 0 && try_drops(old(self).model().board, drops).2
            }),
        ensures
            ({
                let drops = unique_drops(
                    old(self).model().board.active.unwrap().mino_type,
                    drops_tried(),
                ).0;
                let tried = try_drops(old(self).model().board, drops);
                &&& r == best_score(tried.1)
                &&& final(self).model() == (ClientModel { board: tried.0, ..old(self).model() })
            }),
            final(self).table_ok(),
    {
        let t = self.board.active_mino.unwrap().mino_type;
        let ghost drops = unique_drops(t, drops_tried()).0;
        let ghost b0 = self.board@;
        let j = table_entry(&self.unique_hard_drops, t);
        let list = &self.unique_hard_drops[j].1;
        assert(list@.map_values(|v: Vec<PlayerAction>| v@) == drops);
        let mut best: DropScore = (0, 0, None);
        let mut k: usize = 0;
        while k < list.len()
            invariant
                k <= list@.len() == drops.len(),
                drops.len() > 0,
                list@.map_values(|v: Vec<PlayerAction>| v@) == drops,
                try_drops(b0, drops).2,
                self.board@ == try_drops(b0, drops.take(k as int)).0,
                k > 0 ==> best == best_score(try_drops(b0, drops.take(k as int)).1),
                try_drops(b0, drops.take(k as int)).1.len() == k,
                self.garbage_heights@ == old(self).garbage_heights@,
                self.garbage_holes@ == old(self).garbage_holes@,
                self.unique_hard_drops@ == old(self).unique_hard_drops@,
            decreases list@.len() - k,
        {
            let acts = &list[k];
            let ghost before = self.board@;
            proof {
                lemma_try_drops_prefix(b0, drops, k + 1);
                assert(drops.take(k + 1).drop_last() =~= drops.take(k as int));
                assert(drops.take(k + 1).last() == drops[k as int]);
                assert(acts@ == drops[k as int]);
                assert(try_drop_ok(before, acts@));
            }
            let score = try_one_drop(&mut self.board, acts);
            proof {
                let prev = try_drops(b0, drops.take(k as int));
                let next = try_drops(b0, drops.take(k + 1));
                assert(next.1 == prev.1.push(score));
                assert(next.1.drop_last() =~= prev.1);
            }
            if k == 0 || score_le_exec(&best, &score) {
                best = score;
            }
            k = k + 1;
        }
        assert(drops.take(drops.len() as int) =~= drops);
        best
    }

    /// The actions sent with every message: one hard drop.
    fn build_actions(&self) -> (r: Vec<PlayerAction>)
        ensures
            r@ == seq![hard_drop_action()],
    {
        let mut actions: Vec<PlayerAction> = Vec::new();
        actions.push(make_hard_drop());
        actions
    }

    /// Whether the player can take in a message (see `influence_ok`).
    pub fn accepts(&self, influence: &BoardExternalInfluence) -> (r: bool)
        ensures
            r == influence_ok(self.model(), *influence),
    {
        influence_fits(&self.board, &self.garbage_heights, &self.garbage_holes, influence)
    }

    /// Takes in a message of the server and answers it.
    pub fn respond(&mut self, influence: &BoardExternalInfluence) -> (r: Vec<PlayerAction>)
        requires
            influence_ok(old(self).model(), *influence),
        ensures
            final(self).model() == influenced(old(self).model(), *influence),
            final(self).table_ok() == old(self).table_ok(),
            r@ == seq![hard_drop_action()],
    {
        apply_external_influence(
            influence,
            &mut self.board,
            &mut self.garbage_heights,
            &mut self.garbage_holes,
        );
        self.build_actions()
    }
}

impl Default for RightWellClient {
    fn default() -> (r: RightWellClient)
        ensures
            r.model() == (ClientModel {
                board: new_board_model(),
                garbage_heights: Seq::empty(),
                garbage_holes: Seq::empty(),
            }),
            r.table_ok(),
    {
        RightWellClient::new()
    }
}

fn turn_rank_exec(a: &Option<PlayerActions>) -> (r: i16)
    ensures
        r == turn_rank(*a),
{
    match a {
        None => -1,
        Some(x) => x.to_byte() as i16,
    }
}

/// Whether score `a` comes before or equals score `b` (see `score_le`).
fn score_le_exec(a: &DropScore, b: &DropScore) -> (r: bool)
    ensures
        r == score_le(*a, *b),
{
    a.0 < b.0 || (a.0 == b.0 && a.1 < b.1) || (a.0 == b.0 && a.1 == b.1 && turn_rank_exec(&a.2)
        <= turn_rank_exec(&b.2))
}

/// The drops kept for piece `t` among the first `c` tried reach pairwise
/// different boards, each kept drop the board recorded for it, and every drop
/// tried that works reaches one of the recorded boards.
pub proof fn lemma_unique_drops(t: MinoType, c: int)
    requires
        0 <= c,
    ensures
        unique_drops(t, c).0.len() == unique_drops(t, c).1.len(),
        forall|i: int, j: int|
            0 <= i < j < unique_drops(t, c).1.len() ==> #[trigger] unique_drops(t, c).1[i]
                != #[trigger] unique_drops(t, c).1[j],
        forall|k: int|
            0 <= k < unique_drops(t, c).0.len() ==> run_actions(
                start_board(t),
                #[trigger] unique_drops(t, c).0[k],
            ) == Some(unique_drops(t, c).1[k]),
        forall|d: int|
            0 <= d < c && #[trigger] run_actions(start_board(t), drop_plan(d)) is Some
                ==> unique_drops(t, c).1.contains(
                run_actions(start_board(t), drop_plan(d)).unwrap(),
            ),
    decreases c,
{
    if c > 0 {
        lemma_unique_drops(t, c - 1);
        let prev = unique_drops(t, c - 1);
        let cur = unique_drops(t, c);
        assert forall|d: int|
            0 <= d < c && #[trigger] run_actions(start_board(t), drop_plan(d)) is Some
                implies cur.1.contains(run_actions(start_board(t), drop_plan(d)).unwrap()) by {
            let b = run_actions(start_board(t), drop_plan(d)).unwrap();
            if d < c - 1 {
                let w = choose|w: int| 0 <= w < prev.1.len() && prev.1[w] == b;
                assert(cur.1[w] == b);
            } else if !prev.1.contains(b) {
                assert(cur.1[prev.1.len() as int] == b);
            }
        }
        assert forall|i: int, j: int| 0 <= i < j < cur.1.len() implies #[trigger] cur.1[i]
            != #[trigger] cur.1[j] by {
            if j == prev.1.len() && cur.1.len() > prev.1.len() {
                assert(cur.1[i] == prev.1[i]);
                assert(!prev.1.contains(cur.1[j]));
            } else {
                assert(cur.1[i] == prev.1[i]);
                assert(cur.1[j] == prev.1[j]);
            }
        }
    }
}

/// The best score is one of the scores, and every score comes before or
/// equals it.
pub proof fn lemma_best_score(scores: Seq<DropScore>)
    requires
        scores.len() > 0,
    ensures
        scores.contains(best_score(scores)),
        forall|k: int| 0 <= k < scores.len() ==> score_le(#[trigger] scores[k], best_score(scores)),
    decreases scores.len(),
{
    if scores.len() > 1 {
        let prev = scores.drop_last();
        lemma_best_score(prev);
        let w = choose|w: int| 0 <= w < prev.len() && prev[w] == best_score(prev);
        if score_le(best_score(prev), scores.last()) {
            assert(scores[scores.len() - 1] == best_score(scores));
        } else {
            assert(scores[w] == best_score(scores));
        }
        assert forall|k: int| 0 <= k < scores.len() implies score_le(
            #[trigger] scores[k],
            best_score(scores),
        ) by {
            if k < scores.len() - 1 {
                assert(scores[k] == prev[k]);
            }
        }
    } else {
        assert(scores[0] == best_score(scores));
    }
}

} // verus!
