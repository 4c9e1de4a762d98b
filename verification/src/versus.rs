//! A match between players: one board each, the pieces that all players get
//! in the same order (a shuffled bag of the seven pieces at a time), and the
//! garbage rows that the lines one player clears send to the other.
use std::collections::{HashMap, VecDeque};

use rand::distributions::{Distribution, Uniform};
use rand::seq::SliceRandom;
use rand::{Rng, RngCore, SeedableRng};
use rand_chacha::ChaCha8Rng;
use rand_xorshift::XorShiftRng;
use vstd::prelude::*;

use crate::board::{
    Board,
    BoardModel,
    BOARD_HEIGHT,
    PLAY_HEIGHT,
    full_row_of,
    board_wf,
    new_board_model,
    row_with_hole_of,
};
use crate::actions::{PenaltyView, action_in_range, action_ok, action_step, board_ok};
use crate::messages::{BoardExternalInfluence, MinoType, PlayerAction, PlayerActions};
use crate::penalty::Penalty;

verus! {

#[verifier::external_type_specification]
#[verifier::external_body]
pub struct ExChaCha8Rng(ChaCha8Rng);

#[verifier::external_type_specification]
#[verifier::external_body]
pub struct ExXorShiftRng(XorShiftRng);

/// `Uniform::new(0, u64::MAX).sample(rng)` of rand: a number drawn from
/// `[0, u64::MAX)`. Which one depends on the generator's state, so nothing
/// more is said of it.
#[verifier::external_body]
fn draw_seed(rng: &mut ChaCha8Rng) -> (r: u64)
    ensures
        r < u64::MAX,
{
    Uniform::new(0, u64::MAX).sample(rng)
}

/// `XorShiftRng::seed_from_u64` of rand_xorshift: a generator started from a
/// seed. The generator is opaque here.
#[verifier::external_body]
fn xorshift_from_seed(seed: u64) -> (r: XorShiftRng) {
    XorShiftRng::seed_from_u64(seed)
}

/// `SliceRandom::shuffle` of rand: puts the pieces in an order drawn from
/// the generator. The same pieces stay, each as often as before.
#[verifier::external_body]
fn shuffle_pieces(pieces: &mut Vec<MinoType>, rng: &mut XorShiftRng)
    ensures
        final(pieces)@.len() == old(pieces)@.len(),
        final(pieces)@.to_multiset() == old(pieces)@.to_multiset(),
{
    pieces.shuffle(rng)
}

/// `Rng::gen_range(0..width)` of rand: a column drawn from `[0, width)`.
#[verifier::external_body]
fn draw_column(rng: &mut XorShiftRng, width: i8) -> (r: i8)
    requires
        0 < width,
    ensures
        0 <= r < width,
{
    rng.gen_range(0..width)
}

/// `RngCore::next_u64` of rand_chacha's generator: any number.
#[verifier::external_body]
fn next_number(rng: &mut ChaCha8Rng) -> (r: u64) {
    rng.next_u64()
}

/// The seven pieces, in wire order.
pub open spec fn seven_pieces() -> Seq<MinoType> {
    seq![
        MinoType::T,
        MinoType::I,
        MinoType::L,
        MinoType::J,
        MinoType::S,
        MinoType::Z,
        MinoType::O,
    ]
}

/// A match: its random number generators, the bag, and for each player its
/// board and what waits to be used or told.
pub struct Versus {
    pub mino_rng: XorShiftRng,
    pub garbage_rng: XorShiftRng,
    /// The bag of the seven pieces, in the order of its last shuffle.
    pub mino_bag: Vec<MinoType>,
    // Each of the vectors below holds one entry per player.
    pub boards: Vec<Board>,
    /// Heights of the garbage blocks sent to a player.
    pub unused_garbage_heights: Vec<VecDeque<u8>>,
    pub unsent_garbage_heights: Vec<VecDeque<u8>>,
    /// Hole columns of garbage rows, the same for all players.
    pub unused_garbage_holes: Vec<VecDeque<i8>>,
    pub unsent_garbage_holes: Vec<VecDeque<i8>>,
    /// Pieces dealt to a player's stream but not yet put into its queue.
    pub unused_upcoming_minos: Vec<VecDeque<MinoType>>,
    /// Pieces put into a player's queue but not yet told to the player.
    pub unsent_upcoming_minos: Vec<VecDeque<MinoType>>,
}

/// The value of a match, without its random number generators.
#[verifier::ext_equal]
pub struct VersusModel {
    pub bag: Seq<MinoType>,
    pub boards: Seq<BoardModel>,
    pub unused_heights: Seq<Seq<u8>>,
    pub unsent_heights: Seq<Seq<u8>>,
    pub unused_holes: Seq<Seq<i8>>,
    pub unsent_holes: Seq<Seq<i8>>,
    pub unused_minos: Seq<Seq<MinoType>>,
    pub unsent_minos: Seq<Seq<MinoType>>,
}

impl View for Versus {
    type V = VersusModel;

    open spec fn view(&self) -> VersusModel {
        VersusModel {
            bag: self.mino_bag@,
            boards: self.boards@.map_values(|b: Board| b@),
            unused_heights: self.unused_garbage_heights@.map_values(|q: VecDeque<u8>| q@),
            unsent_heights: self.unsent_garbage_heights@.map_values(|q: VecDeque<u8>| q@),
            unused_holes: self.unused_garbage_holes@.map_values(|q: VecDeque<i8>| q@),
            unsent_holes: self.unsent_garbage_holes@.map_values(|q: VecDeque<i8>| q@),
            unused_minos: self.unused_upcoming_minos@.map_values(|q: VecDeque<MinoType>| q@),
            unsent_minos: self.unsent_upcoming_minos@.map_values(|q: VecDeque<MinoType>| q@),
        }
    }
}

/// The piece `q` places before the end of a stream.
pub open spec fn from_end<T>(s: Seq<T>, q: int) -> T {
    s[s.len() - 1 - q]
}

/// The streams still to come end alike: each is the end of one common stream,
/// so all players get the same items in the same order.
pub open spec fn same_streams<T>(streams: Seq<Seq<T>>) -> bool {
    forall|j: int, k: int, q: int|
        0 <= j < streams.len() && 0 <= k < streams.len() && 0 <= q < streams[j].len() && q
            < streams[k].len() ==> #[trigger] from_end(streams[j], q) == #[trigger] from_end(
            streams[k],
            q,
        )
}

/// Appending the same pieces to every stream, and taking pieces from the
/// front of one, keeps the streams ending alike.
pub proof fn lemma_same_streams_step<T>(
    old_streams: Seq<Seq<T>>,
    new_streams: Seq<Seq<T>>,
    i: int,
    dealt: Seq<T>,
    taken: int,
)
    requires
        same_streams(old_streams),
        0 <= i < old_streams.len(),
        new_streams.len() == old_streams.len(),
        0 <= taken <= old_streams[i].len() + dealt.len(),
        forall|j: int|
            0 <= j < old_streams.len() && j != i ==> #[trigger] new_streams[j] == old_streams[j]
                + dealt,
        new_streams[i] == (old_streams[i] + dealt).skip(taken),
    ensures
        same_streams(new_streams),
{
    assert forall|j: int, k: int, q: int|
        0 <= j < new_streams.len() && 0 <= k < new_streams.len() && 0 <= q < new_streams[j].len()
            && q < new_streams[k].len() implies #[trigger] from_end(new_streams[j], q)
        == #[trigger] from_end(new_streams[k], q) by {
        let d = dealt.len();
        let oj = old_streams[j] + dealt;
        let ok = old_streams[k] + dealt;
        assert(from_end(new_streams[j], q) == from_end(oj, q));
        assert(from_end(new_streams[k], q) == from_end(ok, q));
        if q >= d {
            assert(from_end(oj, q) == from_end(old_streams[j], q - d));
            assert(from_end(ok, q) == from_end(old_streams[k], q - d));
        }
    }
}

/// A match in order: one entry per player in every list; the bag holds the
/// seven pieces; every piece still to be dealt is one of them, and all
/// players get them in the same order, as they get the same hole columns;
/// and all boards are equally wide, every queued hole column lying on them.
pub open spec fn versus_wf(v: VersusModel) -> bool {
    let n = v.boards.len();
    &&& v.unused_heights.len() == n
    &&& v.unsent_heights.len() == n
    &&& v.unused_holes.len() == n
    &&& v.unsent_holes.len() == n
    &&& v.unused_minos.len() == n
    &&& v.unsent_minos.len() == n
    &&& v.bag.to_multiset() == seven_pieces().to_multiset()
    &&& forall|j: int, k: int|
        0 <= j < n && 0 <= k < v.unused_minos[j].len() ==> (#[trigger] v.unused_minos[j][k]).is_known()
    &&& same_streams(v.unused_minos)
    &&& same_streams(v.unused_holes)
    &&& forall|j: int| 0 <= j < n ==> (#[trigger] v.boards[j]).width == v.boards[0].width
    &&& forall|j: int| 0 <= j < n ==> 4 <= (#[trigger] v.boards[j]).width <= 16
    &&& forall|j: int, k: int|
        0 <= j < n && 0 <= k < v.unused_holes[j].len() ==> 0 <= #[trigger] v.unused_holes[j][k]
            < v.boards[0].width
}

/// A new match: new boards, nothing sent yet, and every player's stream
/// starting with the same shuffled bag.
pub open spec fn new_versus(n: nat, bag: Seq<MinoType>) -> VersusModel {
    VersusModel {
        bag,
        boards: Seq::new(n, |j: int| new_board_model()),
        unused_heights: Seq::new(n, |j: int| Seq::<u8>::empty()),
        unsent_heights: Seq::new(n, |j: int| Seq::<u8>::empty()),
        unused_holes: Seq::new(n, |j: int| Seq::<i8>::empty()),
        unsent_holes: Seq::new(n, |j: int| Seq::<i8>::empty()),
        unused_minos: Seq::new(n, |j: int| bag),
        unsent_minos: Seq::new(n, |j: int| bag),
    }
}

proof fn lemma_seven_known(s: Seq<MinoType>, k: int)
    requires
        s.to_multiset() == seven_pieces().to_multiset(),
        0 <= k < s.len(),
    ensures
        s[k].is_known(),
{
    broadcast use vstd::seq_lib::group_to_multiset_ensures;

    assert(s.contains(s[k]));
    assert(s.to_multiset().count(s[k]) > 0);
    assert(seven_pieces().to_multiset().count(s[k]) > 0);
    assert(seven_pieces().contains(s[k]));
    let i = choose|i: int| 0 <= i < seven_pieces().len() && seven_pieces()[i] == s[k];
    assert(seven_pieces()[i].is_known());
}

proof fn lemma_bag_len(s: Seq<MinoType>)
    requires
        s.to_multiset() == seven_pieces().to_multiset(),
    ensures
        s.len() == 7,
{
    broadcast use vstd::seq_lib::group_to_multiset_ensures;

    assert(s.to_multiset().len() == s.len());
    assert(seven_pieces().to_multiset().len() == 7);
}

proof fn lemma_map_push<A, B>(s: Seq<A>, a: A, f: spec_fn(A) -> B)
    ensures
        s.push(a).map_values(f) == s.map_values(f).push(f(a)),
{
    assert(s.push(a).map_values(f) =~= s.map_values(f).push(f(a)));
}

proof fn lemma_map_update<A, B>(s: Seq<A>, i: int, a: A, f: spec_fn(A) -> B)
    requires
        0 <= i < s.len(),
    ensures
        s.update(i, a).map_values(f) == s.map_values(f).update(i, f(a)),
{
    assert(s.update(i, a).map_values(f) =~= s.map_values(f).update(i, f(a)));
}

/// Takes everything out of a queue, front first.
fn drain_queue<T: Copy>(q: &mut VecDeque<T>) -> (r: Vec<T>)
    ensures
        r@ == old(q)@,
        final(q)@ == Seq::<T>::empty(),
{
    let mut out: Vec<T> = Vec::new();
    let mut i: usize = 0;
    while i < q.len()
        invariant
            i <= q@.len(),
            q@ == old(q)@,
            out@ == q@.take(i as int),
        decreases q@.len() - i,
    {
        out.push(q[i]);
        assert(q@.take(i + 1) =~= q@.take(i as int).push(q@[i as int]));
        i = i + 1;
    }
    assert(q@.take(q@.len() as int) =~= q@);
    q.clear();
    out
}

/// The items of a queue, front first.
fn copy_queue<T: Copy>(q: &VecDeque<T>) -> (r: Vec<T>)
    ensures
        r@ == q@,
{
    let mut out: Vec<T> = Vec::new();
    let mut i: usize = 0;
    while i < q.len()
        invariant
            i <= q@.len(),
            out@ == q@.take(i as int),
        decreases q@.len() - i,
    {
        out.push(q[i]);
        assert(q@.take(i + 1) =~= q@.take(i as int).push(q@[i as int]));
        i = i + 1;
    }
    assert(q@.take(q@.len() as int) =~= q@);
    out
}

/// Appends the items to a queue.
fn extend_queue(q: &mut VecDeque<MinoType>, items: &Vec<MinoType>)
    ensures
        final(q)@ == old(q)@ + items@,
{
    let mut t: usize = 0;
    while t < items.len()
        invariant
            t <= items.len(),
            q@ == old(q)@ + items@.take(t as int),
        decreases items.len() - t,
    {
        q.push_back(items[t]);
        assert(old(q)@ + items@.take(t + 1) =~= (old(q)@ + items@.take(t as int)).push(
            items@[t as int],
        ));
        t = t + 1;
    }
    assert(items@.take(items.len() as int) =~= items@);
}

fn queue_of(bag: &Vec<MinoType>) -> (r: VecDeque<MinoType>)
    ensures
        r@ == bag@,
{
    let mut q: VecDeque<MinoType> = VecDeque::new();
    let mut i: usize = 0;
    while i < bag.len()
        invariant
            i <= bag.len(),
            q@ == bag@.take(i as int),
        decreases bag.len() - i,
    {
        q.push_back(bag[i]);
        assert(bag@.take(i + 1) =~= bag@.take(i as int).push(bag@[i as int]));
        i = i + 1;
    }
    assert(bag@.take(bag.len() as int) =~= bag@);
    q
}

impl Versus {
    /// A match for `num_players` players. Two numbers drawn from `master_seed`
    /// seed the generator of the pieces and that of the garbage holes.
    pub fn new(num_players: usize, master_seed: ChaCha8Rng) -> (r: Versus)
        ensures
            r@ == new_versus(num_players as nat, r@.bag),
            r@.bag.to_multiset() == seven_pieces().to_multiset(),
            versus_wf(r@),
    {
        let mut master_seed = master_seed;
        let mut mino_rng = xorshift_from_seed(draw_seed(&mut master_seed));
        let garbage_rng = xorshift_from_seed(draw_seed(&mut master_seed));
        let mut mino_bag: Vec<MinoType> = vec![
            MinoType::T,
            MinoType::I,
            MinoType::L,
            MinoType::J,
            MinoType::S,
            MinoType::Z,
            MinoType::O,
        ];
        assert(mino_bag@ =~= seven_pieces());
        shuffle_pieces(&mut mino_bag, &mut mino_rng);
        let ghost bag = mino_bag@;
        let ghost target = new_versus(num_players as nat, bag);
        let mut boards: Vec<Board> = Vec::new();
        let mut unused_garbage_heights: Vec<VecDeque<u8>> = Vec::new();
        let mut unsent_garbage_heights: Vec<VecDeque<u8>> = Vec::new();
        let mut unused_garbage_holes: Vec<VecDeque<i8>> = Vec::new();
        let mut unsent_garbage_holes: Vec<VecDeque<i8>> = Vec::new();
        let mut unused_upcoming_minos: Vec<VecDeque<MinoType>> = Vec::new();
        let mut unsent_upcoming_minos: Vec<VecDeque<MinoType>> = Vec::new();
        let mut i: usize = 0;
        while i < num_players
            invariant
                i <= num_players,
                mino_bag@ == bag,
                target == new_versus(num_players as nat, bag),
                boards@.map_values(|b: Board| b@) == target.boards.take(i as int),
                unused_garbage_heights@.map_values(|q: VecDeque<u8>| q@)
                    == target.unused_heights.take(i as int),
                unsent_garbage_heights@.map_values(|q: VecDeque<u8>| q@)
                    == target.unsent_heights.take(i as int),
                unused_garbage_holes@.map_values(|q: VecDeque<i8>| q@) == target.unused_holes.take(
                    i as int,
                ),
                unsent_garbage_holes@.map_values(|q: VecDeque<i8>| q@) == target.unsent_holes.take(
                    i as int,
                ),
                unused_upcoming_minos@.map_values(|q: VecDeque<MinoType>| q@)
                    == target.unused_minos.take(i as int),
                unsent_upcoming_minos@.map_values(|q: VecDeque<MinoType>| q@)
                    == target.unsent_minos.take(i as int),
            decreases num_players - i,
        {
            let ghost i0 = i as int;
            let ghost o1 = boards@;
            let ghost o2 = unused_garbage_heights@;
            let ghost o3 = unsent_garbage_heights@;
            let ghost o4 = unused_garbage_holes@;
            let ghost o5 = unsent_garbage_holes@;
            let ghost o6 = unused_upcoming_minos@;
            let ghost o7 = unsent_upcoming_minos@;
            let b = Board::new();
            let q2: VecDeque<u8> = VecDeque::new();
            let q3: VecDeque<u8> = VecDeque::new();
            let q4: VecDeque<i8> = VecDeque::new();
            let q5: VecDeque<i8> = VecDeque::new();
            let q6 = queue_of(&mino_bag);
            let q7 = queue_of(&mino_bag);
            proof {
                lemma_map_push(o1, b, |b: Board| b@);
                lemma_map_push(o2, q2, |q: VecDeque<u8>| q@);
                lemma_map_push(o3, q3, |q: VecDeque<u8>| q@);
                lemma_map_push(o4, q4, |q: VecDeque<i8>| q@);
                lemma_map_push(o5, q5, |q: VecDeque<i8>| q@);
                lemma_map_push(o6, q6, |q: VecDeque<MinoType>| q@);
                lemma_map_push(o7, q7, |q: VecDeque<MinoType>| q@);
                assert(target.boards.take(i0 + 1) =~= target.boards.take(i0).push(b@));
                assert(target.unused_heights.take(i0 + 1) =~= target.unused_heights.take(i0).push(q2@));
                assert(target.unsent_heights.take(i0 + 1) =~= target.unsent_heights.take(i0).push(q3@));
                assert(target.unused_holes.take(i0 + 1) =~= target.unused_holes.take(i0).push(q4@));
                assert(target.unsent_holes.take(i0 + 1) =~= target.unsent_holes.take(i0).push(q5@));
                assert(target.unused_minos.take(i0 + 1) =~= target.unused_minos.take(i0).push(q6@));
                assert(target.unsent_minos.take(i0 + 1) =~= target.unsent_minos.take(i0).push(q7@));
            }
            boards.push(b);
            unused_garbage_heights.push(q2);
            unsent_garbage_heights.push(q3);
            unused_garbage_holes.push(q4);
            unsent_garbage_holes.push(q5);
            unused_upcoming_minos.push(q6);
            unsent_upcoming_minos.push(q7);
            i = i + 1;
        }
        let r = Versus {
            mino_rng,
            garbage_rng,
            mino_bag,
            boards,
            unused_garbage_heights,
            unsent_garbage_heights,
            unused_garbage_holes,
            unsent_garbage_holes,
            unused_upcoming_minos,
            unsent_upcoming_minos,
        };
        proof {
            assert(target.boards.take(num_players as int) =~= target.boards);
            assert(target.unused_heights.take(num_players as int) =~= target.unused_heights);
            assert(target.unsent_heights.take(num_players as int) =~= target.unsent_heights);
            assert(target.unused_holes.take(num_players as int) =~= target.unused_holes);
            assert(target.unsent_holes.take(num_players as int) =~= target.unsent_holes);
            assert(target.unused_minos.take(num_players as int) =~= target.unused_minos);
            assert(target.unsent_minos.take(num_players as int) =~= target.unsent_minos);
            assert(r@ =~= target);
            assert forall|j: int, k: int|
                0 <= j < num_players && 0 <= k < target.unused_minos[j].len() implies (
                #[trigger] target.unused_minos[j][k]).is_known() by {
                lemma_seven_known(bag, k);
            }
        }
        r
    }
}

/// The message for player `i`: everything not yet told to it.
pub open spec fn response_of(r: BoardExternalInfluence, v: VersusModel, i: int) -> bool {
    &&& r.new_garbage_heights matches Some(h) && h@ == v.unsent_heights[i]
    &&& r.new_garbage_holes matches Some(h) && h@ == v.unsent_holes[i]
    &&& r.new_upcoming_minos matches Some(m) && m@ == v.unsent_minos[i]
}

/// The match with the garbage and pieces told to player `i` forgotten.
pub open spec fn told(v: VersusModel, i: int) -> VersusModel {
    VersusModel {
        unsent_heights: v.unsent_heights.update(i, Seq::empty()),
        unsent_holes: v.unsent_holes.update(i, Seq::empty()),
        unsent_minos: v.unsent_minos.update(i, Seq::empty()),
        ..v
    }
}

impl Versus {
    /// The message for player `board_i`: the garbage heights and hole columns
    /// and the pieces that were added for it since its last message, which are
    /// then forgotten.
    pub fn build_response(&mut self, board_i: usize) -> (r: BoardExternalInfluence)
        requires
            versus_wf(old(self)@),
            board_i < old(self)@.boards.len(),
        ensures
            response_of(r, old(self)@, board_i as int),
            final(self)@ == told(old(self)@, board_i as int),
    {
        let ghost v = self@;
        let ghost i = board_i as int;
        let ghost q1 = self.unsent_garbage_heights@;
        let heights = drain_queue(&mut self.unsent_garbage_heights[board_i]);
        proof {
            lemma_map_update(q1, i, self.unsent_garbage_heights@[i], |q: VecDeque<u8>| q@);
        }
        let ghost q2 = self.unsent_garbage_holes@;
        let holes = drain_queue(&mut self.unsent_garbage_holes[board_i]);
        proof {
            lemma_map_update(q2, i, self.unsent_garbage_holes@[i], |q: VecDeque<i8>| q@);
        }
        let ghost q3 = self.unsent_upcoming_minos@;
        let minos = drain_queue(&mut self.unsent_upcoming_minos[board_i]);
        proof {
            lemma_map_update(q3, i, self.unsent_upcoming_minos@[i], |q: VecDeque<MinoType>| q@);
            assert(self@ =~= told(v, i));
        }
        BoardExternalInfluence {
            new_garbage_heights: Some(heights),
            new_garbage_holes: Some(holes),
            new_upcoming_minos: Some(minos),
        }
    }
}

/// The sum of the heights.
pub open spec fn total_height(hs: Seq<u8>) -> int
    decreases hs.len(),
{
    if hs.len() == 0 {
        0
    } else {
        hs[0] + total_height(hs.drop_first())
    }
}

/// The garbage rows of blocks of `hs[k]` rows with their hole at column bit
/// `holes[k]`, bottom row first: the first block ends up on top.
pub open spec fn garbage_rows(hs: Seq<u8>, holes: Seq<i8>, width: int) -> Seq<u16>
    decreases hs.len(),
{
    if hs.len() == 0 {
        Seq::empty()
    } else {
        garbage_rows(hs.drop_first(), holes.drop_first(), width) + Seq::new(
            hs[0] as nat,
            |k: int| row_with_hole_of(width, holes[0] as int),
        )
    }
}

/// The rows after garbage comes in from below: everything moves up by the
/// total height, the rows pushed past the top are lost, and the garbage
/// fills the bottom.
pub open spec fn pushed_rows(rows: Seq<u16>, hs: Seq<u8>, holes: Seq<i8>, width: int) -> Seq<u16> {
    garbage_rows(hs, holes, width) + rows.take(rows.len() - total_height(hs))
}

proof fn lemma_total_split(hs: Seq<u8>, k: int)
    requires
        0 <= k <= hs.len(),
    ensures
        total_height(hs) == total_height(hs.take(k)) + total_height(hs.skip(k)),
        total_height(hs.take(k)) >= 0,
        total_height(hs.skip(k)) >= 0,
    decreases k,
{
    if k == 0 {
        assert(hs.skip(0) =~= hs);
        lemma_total_nonneg(hs);
    } else {
        let df = hs.drop_first();
        lemma_total_split(df, k - 1);
        assert(df.skip(k - 1) =~= hs.skip(k));
        assert(hs.take(k).drop_first() =~= df.take(k - 1));
    }
}

proof fn lemma_total_nonneg(hs: Seq<u8>)
    ensures
        total_height(hs) >= 0,
    decreases hs.len(),
{
    if hs.len() > 0 {
        lemma_total_nonneg(hs.drop_first());
    }
}

proof fn lemma_total_step(hs: Seq<u8>, k: int)
    requires
        0 <= k < hs.len(),
    ensures
        total_height(hs.take(k + 1)) == total_height(hs.take(k)) + hs[k],
        total_height(hs.take(k + 1)) <= total_height(hs),
{
    let s = hs.take(k + 1);
    lemma_total_split(s, k);
    assert(s.take(k) =~= hs.take(k));
    let last = s.skip(k);
    assert(last.drop_first() =~= Seq::<u8>::empty());
    assert(total_height(last.drop_first()) == 0);
    assert(total_height(last) == hs[k]);
    lemma_total_split(hs, k + 1);
}

proof fn lemma_garbage_len(hs: Seq<u8>, holes: Seq<i8>, width: int)
    ensures
        garbage_rows(hs, holes, width).len() == total_height(hs),
    decreases hs.len(),
{
    if hs.len() > 0 {
        lemma_garbage_len(hs.drop_first(), holes.drop_first(), width);
    }
}

proof fn lemma_garbage_split(hs: Seq<u8>, holes: Seq<i8>, width: int, k: int)
    requires
        0 <= k <= hs.len(),
        holes.len() == hs.len(),
    ensures
        garbage_rows(hs, holes, width) == garbage_rows(hs.skip(k), holes.skip(k), width)
            + garbage_rows(hs.take(k), holes.take(k), width),
    decreases k,
{
    if k == 0 {
        assert(hs.skip(0) =~= hs);
        assert(holes.skip(0) =~= holes);
        assert(hs.take(0) =~= Seq::<u8>::empty());
        assert(garbage_rows(hs, holes, width) + Seq::empty() =~= garbage_rows(hs, holes, width));
    } else {
        let dh = hs.drop_first();
        let dl = holes.drop_first();
        lemma_garbage_split(dh, dl, width, k - 1);
        assert(dh.skip(k - 1) =~= hs.skip(k));
        assert(dl.skip(k - 1) =~= holes.skip(k));
        assert(hs.take(k).drop_first() =~= dh.take(k - 1));
        assert(holes.take(k).drop_first() =~= dl.take(k - 1));
        let block = Seq::new(hs[0] as nat, |j: int| row_with_hole_of(width, holes[0] as int));
        assert(garbage_rows(hs.take(k), holes.take(k), width) == garbage_rows(
            dh.take(k - 1),
            dl.take(k - 1),
            width,
        ) + block);
        assert(garbage_rows(hs, holes, width) =~= garbage_rows(hs.skip(k), holes.skip(k), width)
            + garbage_rows(hs.take(k), holes.take(k), width));
    }
}

/// Moves the rows up by the total of the heights and fills the bottom with
/// the garbage blocks, the first block on top.
fn push_garbage_rows(
    rows: &mut [u16; BOARD_HEIGHT],
    heights: &Vec<u8>,
    holes: &Vec<i8>,
    total: usize,
    width: i8,
)
    requires
        holes.len() == heights.len(),
        total == total_height(heights@),
        total <= BOARD_HEIGHT,
        1 <= width <= 16,
        forall|k: int| 0 <= k < holes.len() ==> 0 <= #[trigger] holes@[k] < 16,
    ensures
        final(rows)@ == pushed_rows(old(rows)@, heights@, holes@, width as int),
{
    let ghost start = rows@;
    let mut i: usize = BOARD_HEIGHT - total;
    while i > 0
        invariant
            i <= BOARD_HEIGHT - total,
            total <= BOARD_HEIGHT,
            start == old(rows)@,
            forall|j: int|
                i + total <= j < BOARD_HEIGHT ==> #[trigger] rows@[j] == start[j - total],
            forall|j: int| 0 <= j < i + total ==> #[trigger] rows@[j] == start[j],
        decreases i,
    {
        i = i - 1;
        rows[i + total] = rows[i];
    }
    let mut write_row: usize = total;
    let mut k: usize = 0;
    assert(heights@.take(0) =~= Seq::<u8>::empty());
    while k < heights.len()
        invariant
            holes.len() == heights.len(),
            k <= heights.len(),
            total == total_height(heights@),
            total <= BOARD_HEIGHT,
            1 <= width <= 16,
            forall|q: int| 0 <= q < holes.len() ==> 0 <= #[trigger] holes@[q] < 16,
            start == old(rows)@,
            write_row + total_height(heights@.take(k as int)) == total,
            forall|j: int| total <= j < BOARD_HEIGHT ==> #[trigger] rows@[j] == start[j - total],
            rows@.subrange(write_row as int, total as int) == garbage_rows(
                heights@.take(k as int),
                holes@.take(k as int),
                width as int,
            ),
        decreases heights.len() - k,
    {
        proof {
            lemma_total_step(heights@, k as int);
            lemma_total_split(heights@, k as int);
        }
        let row = Board::row_with_hole(width, holes[k]);
        let h = heights[k];
        let ghost top = rows@.subrange(write_row as int, total as int);
        let ghost block_start = write_row;
        let mut c: u8 = 0;
        assert(Seq::new(0nat, |q: int| row) + top =~= top);
        while c < h
            invariant
                c <= h,
                write_row + c == block_start,
                block_start <= total <= BOARD_HEIGHT,
                h <= block_start,
                forall|j: int| total <= j < BOARD_HEIGHT ==> #[trigger] rows@[j] == start[j - total],
                rows@.subrange(write_row as int, total as int) == Seq::new(
                    c as nat,
                    |q: int| row,
                ) + top,
            decreases h - c,
        {
            let ghost below = rows@.subrange(write_row as int, total as int);
            write_row = write_row - 1;
            rows[write_row] = row;
            c = c + 1;
            assert(rows@.subrange(write_row + 1, total as int) =~= below);
            assert(rows@.subrange(write_row as int, total as int) =~= seq![row] + below);
            assert(seq![row] + (Seq::new((c - 1) as nat, |q: int| row) + top) =~= Seq::new(
                c as nat,
                |q: int| row,
            ) + top);
            assert(rows@.subrange(write_row as int, total as int) =~= Seq::new(
                c as nat,
                |q: int| row,
            ) + top);
        }
        proof {
            let s = heights@.take(k + 1);
            let l = holes@.take(k + 1);
            lemma_garbage_split(s, l, width as int, k as int);
            assert(s.take(k as int) =~= heights@.take(k as int));
            assert(l.take(k as int) =~= holes@.take(k as int));
            assert(s.skip(k as int).drop_first() =~= Seq::<u8>::empty());
            assert(s.skip(k as int)[0] == h);
            assert(l.skip(k as int)[0] == holes@[k as int]);
            assert(garbage_rows(
                s.skip(k as int).drop_first(),
                l.skip(k as int).drop_first(),
                width as int,
            ) == Seq::<u16>::empty());
            assert(garbage_rows(s.skip(k as int), l.skip(k as int), width as int) =~= Seq::new(
                h as nat,
                |q: int| row,
            ));
        }
        k = k + 1;
    }
    proof {
        assert(heights@.take(heights.len() as int) =~= heights@);
        assert(holes@.take(holes.len() as int) =~= holes@);
        lemma_garbage_len(heights@, holes@, width as int);
        assert(rows@ =~= pushed_rows(start, heights@, holes@, width as int));
    }
}

/// The garbage of total height `t` fits on the rows: it stays below the play
/// height, and so does every row that it pushes up.
pub open spec fn garbage_fits(rows: Seq<u16>, t: int) -> bool {
    &&& t <= PLAY_HEIGHT
    &&& forall|y: int| PLAY_HEIGHT - t <= y < rows.len() ==> #[trigger] rows[y] == 0
}

proof fn lemma_hole_row(width: int, hole: int)
    requires
        4 <= width <= 16,
        0 <= hole < width,
    ensures
        row_with_hole_of(width, hole) != 0,
        row_with_hole_of(width, hole) != full_row_of(width),
{
    let s = (16 - width) as u16;
    let h = hole as u16;
    assert((0xffffu16 >> s) ^ (1u16 << h) != 0 && (0xffffu16 >> s) ^ (1u16 << h) != (0xffffu16
        >> s)) by (bit_vector)
        requires
            s <= 12,
            h + s < 16,
    ;
}

proof fn lemma_garbage_rows_ok(hs: Seq<u8>, holes: Seq<i8>, width: int)
    requires
        4 <= width <= 16,
        holes.len() == hs.len(),
        forall|k: int| 0 <= k < holes.len() ==> 0 <= #[trigger] holes[k] < width,
    ensures
        forall|y: int|
            0 <= y < garbage_rows(hs, holes, width).len() ==> #[trigger] garbage_rows(
                hs,
                holes,
                width,
            )[y] != 0 && garbage_rows(hs, holes, width)[y] != full_row_of(width),
    decreases hs.len(),
{
    if hs.len() > 0 {
        let dh = hs.drop_first();
        let dl = holes.drop_first();
        assert forall|k: int| 0 <= k < dl.len() implies 0 <= #[trigger] dl[k] < width by {
            assert(dl[k] == holes[k + 1]);
        }
        lemma_garbage_rows_ok(dh, dl, width);
        lemma_hole_row(width, holes[0] as int);
        let g = garbage_rows(hs, holes, width);
        let rest = garbage_rows(dh, dl, width);
        assert forall|y: int| 0 <= y < g.len() implies #[trigger] g[y] != 0 && g[y] != full_row_of(
            width,
        ) by {
            if y < rest.len() {
                assert(g[y] == rest[y]);
            } else {
                assert(g[y] == row_with_hole_of(width, holes[0] as int));
            }
        }
    }
}

/// Garbage that fits keeps a board without a falling piece well formed, its
/// hole columns lying on the board.
pub proof fn lemma_garbage_keeps_wf(b: BoardModel, hs: Seq<u8>, holes: Seq<i8>)
    requires
        board_wf(b),
        b.active is None,
        holes.len() == hs.len(),
        forall|k: int| 0 <= k < holes.len() ==> 0 <= #[trigger] holes[k] < b.width,
        garbage_fits(b.rows, total_height(hs)),
    ensures
        board_wf(BoardModel { rows: pushed_rows(b.rows, hs, holes, b.width as int), ..b }),
{
    let w = b.width as int;
    let t = total_height(hs);
    let g = garbage_rows(hs, holes, w);
    let nb = BoardModel { rows: pushed_rows(b.rows, hs, holes, w), ..b };
    let rows = nb.rows;
    lemma_total_nonneg(hs);
    lemma_garbage_len(hs, holes, w);
    lemma_garbage_rows_ok(hs, holes, w);
    assert(rows.len() == BOARD_HEIGHT);
    assert forall|y: int| t <= y < BOARD_HEIGHT implies #[trigger] rows[y] == b.rows[y - t] by {}
    assert forall|i: int, j: int|
        #![trigger rows[i], rows[j]]
        0 <= i < j < rows.len() && rows[i] == 0 implies rows[j] == 0 by {
        if i < t {
            assert(rows[i] == g[i]);
        } else {
            assert(rows[i] == b.rows[i - t]);
            assert(rows[j] == b.rows[j - t]);
        }
    }
    assert forall|r: int| 0 <= r < rows.len() implies #[trigger] rows[r] != full_row_of(w) by {
        if r < t {
            assert(rows[r] == g[r]);
        } else {
            assert(rows[r] == b.rows[r - t]);
        }
    }
    assert forall|r: int| PLAY_HEIGHT <= r < rows.len() implies #[trigger] rows[r] == 0 by {
        assert(rows[r] == b.rows[r - t]);
    }
}

/// The hole columns drawn while pushing the garbage of player `i`: as many as
/// its queued columns fall short of its garbage blocks, each on the board.
pub open spec fn garbage_draws_ok(v: VersusModel, i: int, drawn: Seq<i8>) -> bool {
    let m = v.unused_heights[i].len();
    let o = v.unused_holes[i].len();
    &&& drawn.len() == (if m <= o {
        0
    } else {
        m - o
    })
    &&& forall|k: int| 0 <= k < drawn.len() ==> 0 <= #[trigger] drawn[k] < v.boards[i].width
}

/// Pushing the garbage sent to player `i` into its board, `drawn` being the
/// hole columns drawn on the way: every garbage block sent so far comes in
/// again, each taking the next hole column of the player's queue; a column
/// drawn when the queue is empty is queued for every player and told to
/// every player.
pub open spec fn garbage_step(v: VersusModel, i: int, drawn: Seq<i8>) -> VersusModel {
    let hs = v.unused_heights[i];
    let pool = v.unused_holes[i] + drawn;
    let b = v.boards[i];
    VersusModel {
        boards: v.boards.update(
            i,
            BoardModel {
                rows: pushed_rows(b.rows, hs, pool.take(hs.len() as int), b.width as int),
                ..b
            },
        ),
        unused_holes: Seq::new(
            v.unused_holes.len(),
            |j: int|
                if j == i {
                    pool.skip(hs.len() as int)
                } else {
                    v.unused_holes[j] + drawn
                },
        ),
        unsent_holes: Seq::new(v.unsent_holes.len(), |j: int| v.unsent_holes[j] + drawn),
        ..v
    }
}

impl Versus {
    /// Pushes the garbage sent to player `board_i` into its board (see
    /// `garbage_step`).
    pub fn apply_garbage_push(&mut self, board_i: usize)
        requires
            versus_wf(old(self)@),
            board_i < old(self)@.boards.len(),
            total_height(old(self)@.unused_heights[board_i as int]) <= BOARD_HEIGHT,
        ensures
            exists|drawn: Seq<i8>|
                garbage_draws_ok(old(self)@, board_i as int, drawn) && final(self)@ == garbage_step(
                    old(self)@,
                    board_i as int,
                    drawn,
                ),
            versus_wf(final(self)@),
            ({
                let b = old(self)@.boards[board_i as int];
                board_wf(b) && b.active is None && garbage_fits(
                    b.rows,
                    total_height(old(self)@.unused_heights[board_i as int]),
                ) ==> board_wf(final(self)@.boards[board_i as int])
            }),
    {
        let ghost v = self@;
        let ghost i = board_i as int;
        let ghost n = v.boards.len();
        let heights = copy_queue(&self.unused_garbage_heights[board_i]);
        assert(heights@ == v.unused_heights[i]);
        let mut total: usize = 0;
        let mut k: usize = 0;
        assert(heights@.take(0) =~= Seq::<u8>::empty());
        while k < heights.len()
            invariant
                k <= heights.len(),
                total == total_height(heights@.take(k as int)),
                total_height(heights@) <= BOARD_HEIGHT,
            decreases heights.len() - k,
        {
            proof {
                lemma_total_step(heights@, k as int);
            }
            total = total + heights[k] as usize;
            k = k + 1;
        }
        assert(heights@.take(heights.len() as int) =~= heights@);
        let width = self.boards[board_i].width;
        assert(width == v.boards[i].width);
        let ghost o = v.unused_holes[i].len();
        let mut used: Vec<i8> = Vec::new();
        let ghost mut drawn: Seq<i8> = Seq::empty();
        let mut k: usize = 0;
        while k < heights.len()
            invariant
                versus_wf(v),
                i == board_i,
                0 <= i < n,
                n == v.boards.len(),
                o == v.unused_holes[i].len(),
                width == v.boards[i].width,
                heights@ == v.unused_heights[i],
                k <= heights.len(),
                self.mino_bag@ == v.bag,
                self.boards@.map_values(|b: Board| b@) == v.boards,
                self.unused_garbage_heights@.map_values(|q: VecDeque<u8>| q@) == v.unused_heights,
                self.unsent_garbage_heights@.map_values(|q: VecDeque<u8>| q@) == v.unsent_heights,
                self.unused_upcoming_minos@.map_values(|q: VecDeque<MinoType>| q@)
                    == v.unused_minos,
                self.unsent_upcoming_minos@.map_values(|q: VecDeque<MinoType>| q@)
                    == v.unsent_minos,
                self.unused_garbage_holes@.len() == n,
                self.unsent_garbage_holes@.len() == n,
                drawn.len() == (if k <= o {
                    0
                } else {
                    k - o
                }),
                forall|q: int| 0 <= q < drawn.len() ==> 0 <= #[trigger] drawn[q] < width,
                forall|j: int|
                    0 <= j < n && j != i ==> (#[trigger] self.unused_garbage_holes@[j])@
                        == v.unused_holes[j] + drawn,
                forall|j: int|
                    0 <= j < n ==> (#[trigger] self.unsent_garbage_holes@[j])@ == v.unsent_holes[j]
                        + drawn,
                self.unused_garbage_holes@[i]@ == (v.unused_holes[i] + drawn).skip(k as int),
                used@ == (v.unused_holes[i] + drawn).take(k as int),
                forall|q: int| 0 <= q < used@.len() ==> 0 <= #[trigger] used@[q] < width,
            decreases heights.len() - k,
        {
            let ghost pool = v.unused_holes[i] + drawn;
            if self.unused_garbage_holes[board_i].len() == 0 {
                let hole = draw_column(&mut self.garbage_rng, width);
                let ghost u0 = self.unused_garbage_holes@;
                let ghost s0 = self.unsent_garbage_holes@;
                let mut j: usize = 0;
                while j < self.unused_garbage_holes.len()
                    invariant
                        self.mino_bag@ == v.bag,
                        self.boards@.map_values(|b: Board| b@) == v.boards,
                        self.unused_garbage_heights@.map_values(|q: VecDeque<u8>| q@)
                            == v.unused_heights,
                        self.unsent_garbage_heights@.map_values(|q: VecDeque<u8>| q@)
                            == v.unsent_heights,
                        self.unused_upcoming_minos@.map_values(|q: VecDeque<MinoType>| q@)
                            == v.unused_minos,
                        self.unsent_upcoming_minos@.map_values(|q: VecDeque<MinoType>| q@)
                            == v.unsent_minos,
                        n == self.unused_garbage_holes@.len() == self.unsent_garbage_holes@.len(),
                        u0.len() == n,
                        s0.len() == n,
                        j <= n,
                        forall|q: int|
                            0 <= q < j ==> (#[trigger] self.unused_garbage_holes@[q])@ == u0[q]@.push(
                                hole,
                            ),
                        forall|q: int|
                            j <= q < n ==> (#[trigger] self.unused_garbage_holes@[q])@ == u0[q]@,
                        forall|q: int|
                            0 <= q < j ==> (#[trigger] self.unsent_garbage_holes@[q])@ == s0[q]@.push(
                                hole,
                            ),
                        forall|q: int|
                            j <= q < n ==> (#[trigger] self.unsent_garbage_holes@[q])@ == s0[q]@,
                    decreases n - j,
                {
                    self.unused_garbage_holes[j].push_back(hole);
                    self.unsent_garbage_holes[j].push_back(hole);
                    j = j + 1;
                }
                proof {
                    let d2 = drawn.push(hole);
                    assert forall|j: int| 0 <= j < n && j != i implies (
                    #[trigger] self.unused_garbage_holes@[j])@ == v.unused_holes[j] + d2 by {
                        assert(v.unused_holes[j] + d2 =~= (v.unused_holes[j] + drawn).push(hole));
                    }
                    assert forall|j: int| 0 <= j < n implies (
                    #[trigger] self.unsent_garbage_holes@[j])@ == v.unsent_holes[j] + d2 by {
                        assert(v.unsent_holes[j] + d2 =~= (v.unsent_holes[j] + drawn).push(hole));
                    }
                    assert(self.unused_garbage_holes@[i]@ =~= (v.unused_holes[i] + d2).skip(
                        k as int,
                    ));
                    assert(used@ =~= (v.unused_holes[i] + d2).take(k as int));
                    drawn = d2;
                }
            }
            let ghost pool = v.unused_holes[i] + drawn;
            let h = self.unused_garbage_holes[board_i].pop_front().unwrap();
            proof {
                assert(h == pool[k as int]);
                if k < o {
                    assert(h == v.unused_holes[i][k as int]);
                } else {
                    assert(h == drawn[k - o]);
                }
                assert(self.unused_garbage_holes@[i]@ =~= pool.skip(k + 1));
                assert(used@.push(h) =~= pool.take(k + 1));
            }
            used.push(h);
            k = k + 1;
        }
        let ghost rows0 = self.boards@[i].rows@;
        let ghost boards0 = self.boards@;
        push_garbage_rows(&mut self.boards[board_i].rows, &heights, &used, total, width);
        proof {
            let pool = v.unused_holes[i] + drawn;
            let target = garbage_step(v, i, drawn);
            assert(self.boards@ == boards0.update(i, self.boards@[i]));
            lemma_map_update(boards0, i, self.boards@[i], |b: Board| b@);
            assert(self.boards@[i]@ =~= target.boards[i]);
            assert(self@.boards =~= target.boards);
            assert(self@.unused_holes =~= target.unused_holes);
            assert(self@.unsent_holes =~= target.unsent_holes);
            assert(self@ =~= target);
            assert(garbage_draws_ok(v, i, drawn));
            lemma_same_streams_step(
                v.unused_holes,
                target.unused_holes,
                i,
                drawn,
                heights@.len() as int,
            );
            assert forall|j: int, q: int|
                0 <= j < n && 0 <= q < target.unused_holes[j].len() implies 0
                <= #[trigger] target.unused_holes[j][q] < target.boards[0].width by {
                assert(v.boards[j].width == v.boards[0].width);
                if j == i {
                    let x = target.unused_holes[j][q];
                    assert(x == pool[q + heights.len()]);
                    if q + heights.len() < o {
                        assert(x == v.unused_holes[i][q + heights.len()]);
                    } else {
                        assert(x == drawn[q + heights.len() - o]);
                    }
                } else if q >= v.unused_holes[j].len() {
                    assert(target.unused_holes[j][q] == drawn[q - v.unused_holes[j].len()]);
                }
            }
            assert(target.boards[0].width == v.boards[0].width);
            let b = v.boards[i];
            if board_wf(b) && b.active is None && garbage_fits(b.rows, total_height(heights@)) {
                assert forall|k: int| 0 <= k < used@.len() implies 0 <= #[trigger] used@[k]
                    < b.width by {}
                lemma_garbage_keeps_wf(b, heights@, used@);
                assert(self@.boards[i] =~= BoardModel {
                    rows: pushed_rows(b.rows, heights@, used@, b.width as int),
                    ..b
                });
            }
        }
    }
}

/// How many pieces the queue of a board lacks to hold five.
pub open spec fn pieces_needed(b: BoardModel) -> int {
    if b.upcoming.len() < 5 {
        5 - b.upcoming.len()
    } else {
        0
    }
}

/// Whether `dealt` is a run of whole bags: chunks of seven that each hold the
/// seven pieces once.
pub open spec fn whole_bags(dealt: Seq<MinoType>) -> bool
    decreases dealt.len(),
{
    if dealt.len() == 0 {
        true
    } else if dealt.len() < 7 {
        false
    } else {
        &&& dealt.subrange(dealt.len() - 7, dealt.len() as int).to_multiset()
            == seven_pieces().to_multiset()
        &&& whole_bags(dealt.subrange(0, dealt.len() - 7))
    }
}

/// The bags dealt while filling the queue of player `i`: whole bags, and only
/// as many as the queued pieces of the player's stream fall short.
pub open spec fn fill_draws_ok(v: VersusModel, i: int, dealt: Seq<MinoType>) -> bool {
    let need = pieces_needed(v.boards[i]);
    let o = v.unused_minos[i].len();
    &&& whole_bags(dealt)
    &&& dealt.len() == 0 ==> need <= o
    &&& dealt.len() > 0 ==> o + dealt.len() - 7 < need <= o + dealt.len()
}

/// Filling the queue of player `i` up to five pieces, `dealt` being the bags
/// shuffled on the way: the pieces come from the front of the player's
/// stream and are told to the player; each new bag is appended to every
/// player's stream, and the last one shuffled is the bag.
pub open spec fn fill_step(v: VersusModel, i: int, dealt: Seq<MinoType>) -> VersusModel {
    let need = pieces_needed(v.boards[i]);
    let pool = v.unused_minos[i] + dealt;
    let b = v.boards[i];
    VersusModel {
        bag: if dealt.len() == 0 {
            v.bag
        } else {
            dealt.subrange(dealt.len() - 7, dealt.len() as int)
        },
        boards: v.boards.update(i, BoardModel { upcoming: b.upcoming + pool.take(need), ..b }),
        unused_minos: Seq::new(
            v.unused_minos.len(),
            |j: int|
                if j == i {
                    pool.skip(need)
                } else {
                    v.unused_minos[j] + dealt
                },
        ),
        unsent_minos: v.unsent_minos.update(i, v.unsent_minos[i] + pool.take(need)),
        ..v
    }
}

impl Versus {
    /// Fills the queue of player `board_i` up to five pieces (see
    /// `fill_step`).
    pub fn fill_upcoming_minos(&mut self, board_i: usize)
        requires
            versus_wf(old(self)@),
            board_i < old(self)@.boards.len(),
        ensures
            exists|dealt: Seq<MinoType>|
                fill_draws_ok(old(self)@, board_i as int, dealt) && final(self)@ == fill_step(
                    old(self)@,
                    board_i as int,
                    dealt,
                ),
            versus_wf(final(self)@),
            board_wf(old(self)@.boards[board_i as int]) ==> board_wf(
                final(self)@.boards[board_i as int],
            ),
    {
        let ghost v = self@;
        let ghost i = board_i as int;
        let ghost n = v.boards.len();
        let ghost b0 = v.boards[i];
        let ghost need = pieces_needed(b0);
        let ghost o = v.unused_minos[i].len();
        let ghost mut dealt: Seq<MinoType> = Seq::empty();
        let ghost mut taken: Seq<MinoType> = Seq::empty();
        let min_queued_minos: usize = 5;
        assert(b0.upcoming + taken =~= b0.upcoming);
        proof {
            lemma_bag_len(v.bag);
        }
        while self.boards[board_i].upcoming_minos.len() < min_queued_minos
            invariant
                versus_wf(v),
                i == board_i,
                0 <= i < n,
                n == v.boards.len(),
                b0 == v.boards[i],
                need == pieces_needed(b0),
                o == v.unused_minos[i].len(),
                min_queued_minos == 5,
                self.boards@.len() == n,
                forall|j: int| 0 <= j < n && j != i ==> (#[trigger] self.boards@[j])@ == v.boards[j],
                self.boards@[i]@ == (BoardModel { upcoming: b0.upcoming + taken, ..b0 }),
                taken.len() <= need,
                b0.upcoming.len() + taken.len() < 5 ==> taken.len() < need,
                self.unused_garbage_heights@.map_values(|q: VecDeque<u8>| q@) == v.unused_heights,
                self.unsent_garbage_heights@.map_values(|q: VecDeque<u8>| q@) == v.unsent_heights,
                self.unused_garbage_holes@.map_values(|q: VecDeque<i8>| q@) == v.unused_holes,
                self.unsent_garbage_holes@.map_values(|q: VecDeque<i8>| q@) == v.unsent_holes,
                self.unused_upcoming_minos@.len() == n,
                self.unsent_upcoming_minos@.len() == n,
                forall|j: int|
                    0 <= j < n && j != i ==> (#[trigger] self.unused_upcoming_minos@[j])@
                        == v.unused_minos[j] + dealt,
                forall|j: int|
                    0 <= j < n && j != i ==> (#[trigger] self.unsent_upcoming_minos@[j])@
                        == v.unsent_minos[j],
                self.unused_upcoming_minos@[i]@ == (v.unused_minos[i] + dealt).skip(
                    taken.len() as int,
                ),
                taken == (v.unused_minos[i] + dealt).take(taken.len() as int),
                taken.len() <= o + dealt.len(),
                self.unsent_upcoming_minos@[i]@ == v.unsent_minos[i] + taken,
                whole_bags(dealt),
                forall|k: int| 0 <= k < dealt.len() ==> (#[trigger] dealt[k]).is_known(),
                dealt.len() == 0 ==> self.mino_bag@ == v.bag,
                dealt.len() > 0 ==> self.mino_bag@ == dealt.subrange(
                    dealt.len() - 7,
                    dealt.len() as int,
                ),
                dealt.len() > 0 ==> o + dealt.len() - 7 < taken.len(),
                self.mino_bag@.to_multiset() == seven_pieces().to_multiset(),
                self.mino_bag@.len() == 7,
            decreases 5 - self.boards@[board_i as int].upcoming_minos@.len(),
        {
            if self.unused_upcoming_minos[board_i].len() == 0 {
                shuffle_pieces(&mut self.mino_bag, &mut self.mino_rng);
                let ghost u0 = self.unused_upcoming_minos@;
                let ghost s_boards = self.boards@;
                let ghost s_unsent = self.unsent_upcoming_minos@;
                let ghost s_bag = self.mino_bag@;
                let ghost s_h1 = self.unused_garbage_heights@;
                let ghost s_h2 = self.unsent_garbage_heights@;
                let ghost s_h3 = self.unused_garbage_holes@;
                let ghost s_h4 = self.unsent_garbage_holes@;
                let mut j: usize = 0;
                while j < self.unused_upcoming_minos.len()
                    invariant
                        self.boards@ == s_boards,
                        self.unsent_upcoming_minos@ == s_unsent,
                        self.mino_bag@ == s_bag,
                        self.unused_garbage_heights@ == s_h1,
                        self.unsent_garbage_heights@ == s_h2,
                        self.unused_garbage_holes@ == s_h3,
                        self.unsent_garbage_holes@ == s_h4,
                        n == self.unused_upcoming_minos@.len(),
                        u0.len() == n,
                        j <= n,
                        forall|q: int|
                            0 <= q < j ==> (#[trigger] self.unused_upcoming_minos@[q])@ == u0[q]@
                                + self.mino_bag@,
                        forall|q: int|
                            j <= q < n ==> (#[trigger] self.unused_upcoming_minos@[q])@ == u0[q]@,
                    decreases n - j,
                {
                    extend_queue(&mut self.unused_upcoming_minos[j], &self.mino_bag);
                    j = j + 1;
                }
                proof {
                    let bag = self.mino_bag@;
                    lemma_bag_len(bag);
                    let d2 = dealt + bag;
                    assert(d2.subrange(d2.len() - 7, d2.len() as int) =~= bag);
                    assert(d2.subrange(0, d2.len() - 7) =~= dealt);
                    assert forall|k: int| 0 <= k < d2.len() implies (#[trigger] d2[k]).is_known() by {
                        if k >= dealt.len() {
                            lemma_seven_known(bag, k - dealt.len());
                        }
                    }
                    assert forall|j: int| 0 <= j < n && j != i implies (
                    #[trigger] self.unused_upcoming_minos@[j])@ == v.unused_minos[j] + d2 by {
                        assert(v.unused_minos[j] + d2 =~= (v.unused_minos[j] + dealt) + bag);
                    }
                    assert(self.unused_upcoming_minos@[i]@ =~= (v.unused_minos[i] + d2).skip(
                        taken.len() as int,
                    ));
                    assert(taken =~= (v.unused_minos[i] + d2).take(taken.len() as int));
                    dealt = d2;
                }
            }
            let ghost pool = v.unused_minos[i] + dealt;
            let mino = self.unused_upcoming_minos[board_i].pop_front().unwrap();
            let ghost boards0 = self.boards@;
            self.boards[board_i].upcoming_minos.push_back(mino);
            self.unsent_upcoming_minos[board_i].push_back(mino);
            proof {
                assert(mino == pool[taken.len() as int]);
                assert(self.unused_upcoming_minos@[i]@ =~= pool.skip(taken.len() + 1 as int));
                let t2 = taken.push(mino);
                assert(t2 =~= pool.take(t2.len() as int));
                assert(self.boards@[i]@ =~= (BoardModel { upcoming: b0.upcoming + t2, ..b0 }));
                assert(self.unsent_upcoming_minos@[i]@ =~= v.unsent_minos[i] + t2);
                taken = t2;
            }
        }
        proof {
            let pool = v.unused_minos[i] + dealt;
            let target = fill_step(v, i, dealt);
            assert(taken.len() == need);
            assert(self@.boards =~= target.boards);
            assert(self@.unused_minos =~= target.unused_minos);
            assert(self@.unsent_minos =~= target.unsent_minos);
            assert(self@ =~= target);
            assert(fill_draws_ok(v, i, dealt));
            lemma_same_streams_step(v.unused_minos, target.unused_minos, i, dealt, need);
            assert forall|j: int, k: int|
                0 <= j < n && 0 <= k < target.unused_minos[j].len() implies (
                #[trigger] target.unused_minos[j][k]).is_known() by {
                if j == i {
                    assert(target.unused_minos[j][k] == pool[k + need]);
                } else if k >= v.unused_minos[j].len() {
                    assert(target.unused_minos[j][k] == dealt[k - v.unused_minos[j].len()]);
                }
            }
            if board_wf(b0) {
                assert forall|k: int| 0 <= k < target.boards[i].upcoming.len() implies (
                #[trigger] target.boards[i].upcoming[k]).is_known() by {
                    if k >= b0.upcoming.len() {
                        assert(target.boards[i].upcoming[k] == pool[k - b0.upcoming.len()]);
                    }
                }
            }
        }
    }
}

/// The match after player `i` applied an action to its board: on success the
/// lines it sends are queued as garbage for the other player.
pub open spec fn acted(v: VersusModel, a: PlayerAction, i: int) -> VersusModel {
    let step = action_step(v.boards[i], a);
    let t = 1 - i;
    match step.1 {
        Ok(lines) => VersusModel {
            boards: v.boards.update(i, step.0),
            unused_heights: v.unused_heights.update(t, v.unused_heights[t].push(lines)),
            unsent_heights: v.unsent_heights.update(t, v.unsent_heights[t].push(lines)),
            ..v
        },
        Err(_) => VersusModel { boards: v.boards.update(i, step.0), ..v },
    }
}

/// Whether player `i`'s action hard-dropped a piece, after which the garbage
/// sent to the player comes in and its queue is filled.
pub open spec fn dropped(v: VersusModel, a: PlayerAction, i: int) -> bool {
    action_step(v.boards[i], a).1 is Ok && a.action_type == PlayerActions::HardDrop
}

/// The answer to player `i`'s action: a penalty of significance 100 or more
/// loses the match; a smaller one is forgiven.
pub open spec fn versus_answer(v: VersusModel, a: PlayerAction, i: int) -> Result<(), PenaltyView> {
    match action_step(v.boards[i], a).1 {
        Ok(_) => Ok(()),
        Err(p) => if p.1 >= 100 {
            Err(p)
        } else {
            Ok(())
        },
    }
}

/// After a hard drop of player `i`: the garbage sent to it comes in, drawing
/// the hole columns `drawn`, and its queue is filled, dealing the bags
/// `dealt`, giving `after`.
pub open spec fn push_and_fill(
    mid: VersusModel,
    i: int,
    drawn: Seq<i8>,
    dealt: Seq<MinoType>,
    after: VersusModel,
) -> bool {
    let pushed = garbage_step(mid, i, drawn);
    &&& garbage_draws_ok(mid, i, drawn)
    &&& fill_draws_ok(pushed, i, dealt)
    &&& after == fill_step(pushed, i, dealt)
}

/// An answer, its penalty taken as a value.
pub open spec fn answer_view(r: Result<(), Penalty>) -> Result<(), PenaltyView> {
    match r {
        Ok(()) => Ok(()),
        Err(p) => Err(p@),
    }
}

/// An action keeps the width of a board and its spawn row.
pub proof fn lemma_action_keeps_width(b: crate::board::BoardModel, a: PlayerAction)
    requires
        board_ok(b),
        action_in_range(b, a),
    ensures
        action_step(b, a).0.width == b.width,
        action_step(b, a).0.spawn_height == b.spawn_height,
{
}

impl Versus {
    /// Applies an action of player `board_i` (of two) to its board. Lines it
    /// sends are queued as garbage for the other player; after a hard drop the
    /// garbage sent to this player comes in and its queue is filled.
    pub fn apply_action(&mut self, action: &PlayerAction, board_i: usize) -> (r: Result<(), Penalty>)
        requires
            versus_wf(old(self)@),
            old(self)@.boards.len() == 2,
            board_i < 2,
            board_ok(old(self)@.boards[board_i as int]),
            action_ok(old(self)@.boards[board_i as int], *action),
            action_in_range(old(self)@.boards[board_i as int], *action),
            dropped(old(self)@, *action, board_i as int) ==> total_height(
                old(self)@.unused_heights[board_i as int],
            ) <= BOARD_HEIGHT,
        ensures
            answer_view(r) == versus_answer(old(self)@, *action, board_i as int),
            !dropped(old(self)@, *action, board_i as int) ==> final(self)@ == acted(
                old(self)@,
                *action,
                board_i as int,
            ),
            dropped(old(self)@, *action, board_i as int) ==> exists|
                drawn: Seq<i8>,
                dealt: Seq<MinoType>,
            |
                #[trigger] push_and_fill(
                    acted(old(self)@, *action, board_i as int),
                    board_i as int,
                    drawn,
                    dealt,
                    final(self)@,
                ),
            versus_wf(final(self)@),
            dropped(old(self)@, *action, board_i as int) && garbage_fits(
                acted(old(self)@, *action, board_i as int).boards[board_i as int].rows,
                total_height(old(self)@.unused_heights[board_i as int]),
            ) ==> board_wf(final(self)@.boards[board_i as int]),
    {
        let ghost v = self@;
        let ghost i = board_i as int;
        let ghost boards0 = self.boards@;
        proof {
            lemma_action_keeps_width(v.boards[i], *action);
        }
        let result = crate::actions::apply_action(action, &mut self.boards[board_i]);
        proof {
            lemma_map_update(boards0, i, self.boards@[i], |b: Board| b@);
        }
        match result {
            Ok(lines_sent) => {
                let target_board = 1 - board_i;
                let ghost h0 = self.unused_garbage_heights@;
                let ghost h1 = self.unsent_garbage_heights@;
                self.unused_garbage_heights[target_board].push_back(lines_sent);
                self.unsent_garbage_heights[target_board].push_back(lines_sent);
                proof {
                    let t = 1 - i;
                    lemma_map_update(h0, t, self.unused_garbage_heights@[t], |q: VecDeque<u8>| q@);
                    lemma_map_update(h1, t, self.unsent_garbage_heights@[t], |q: VecDeque<u8>| q@);
                    assert(self@ =~= acted(v, *action, i));
                    assert(versus_wf(self@));
                }
                if action.action_type() == PlayerActions::HardDrop {
                    let ghost mid = self@;
                    self.apply_garbage_push(board_i);
                    let ghost pushed = self@;
                    let ghost drawn = choose|drawn: Seq<i8>|
                        garbage_draws_ok(mid, i, drawn) && pushed == garbage_step(mid, i, drawn);
                    self.fill_upcoming_minos(board_i);
                    proof {
                        let dealt = choose|dealt: Seq<MinoType>|
                            fill_draws_ok(pushed, i, dealt) && self@ == fill_step(pushed, i, dealt);
                        assert(push_and_fill(mid, i, drawn, dealt, self@));
                    }
                }
                Ok(())
            },
            Err(penalty) => {
                proof {
                    assert(self@ =~= acted(v, *action, i));
                }
                if penalty.significance >= 100 {
                    Err(penalty)
                } else {
                    Ok(())
                }
            },
        }
    }
}

/// One action of player `i` takes the match from `v` to `after`.
pub open spec fn versus_step(v: VersusModel, a: PlayerAction, i: int, after: VersusModel) -> bool {
    ||| !dropped(v, a, i) && after == acted(v, a, i)
    ||| dropped(v, a, i) && exists|drawn: Seq<i8>, dealt: Seq<MinoType>|
        #[trigger] push_and_fill(acted(v, a, i), i, drawn, dealt, after)
}

/// Whether `apply_action` may be called for the action: the board is fit for
/// actions and the action can be carried out on it, the action's arithmetic
/// stays in range, and after a hard drop the garbage sent to the player fits
/// on the board.
pub open spec fn action_ready(v: VersusModel, a: PlayerAction, i: int) -> bool {
    &&& board_ok(v.boards[i])
    &&& action_ok(v.boards[i], a)
    &&& action_in_range(v.boards[i], a)
    &&& a.action_type == PlayerActions::HardDrop ==> total_height(v.unused_heights[i])
        <= BOARD_HEIGHT
}

/// `states` are the matches that the first `states.len() - 1` actions of
/// player `i` go through, each applicable and answered without a lost match
/// but maybe the last.
pub open spec fn played(states: Seq<VersusModel>, actions: Seq<PlayerAction>, i: int) -> bool {
    &&& 1 <= states.len() <= actions.len() + 1
    &&& forall|k: int|
        0 <= k < states.len() - 1 ==> {
            &&& action_ready(#[trigger] states[k], actions[k], i)
            &&& versus_step(states[k], actions[k], i, states[k + 1])
        }
    &&& forall|k: int|
        0 <= k < states.len() - 2 ==> versus_answer(#[trigger] states[k], actions[k], i) is Ok
}

proof fn lemma_played_push(
    states: Seq<VersusModel>,
    actions: Seq<PlayerAction>,
    i: int,
    next: VersusModel,
)
    requires
        played(states, actions, i),
        states.len() <= actions.len(),
        action_ready(states.last(), actions[states.len() - 1], i),
        versus_step(states.last(), actions[states.len() - 1], i, next),
        states.len() >= 2 ==> versus_answer(states[states.len() - 2], actions[states.len() - 2], i)
            is Ok,
    ensures
        played(states.push(next), actions, i),
{
    let s2 = states.push(next);
    let k = states.len() - 1;
    assert forall|q: int| 0 <= q < s2.len() - 1 implies {
        &&& action_ready(#[trigger] s2[q], actions[q], i)
        &&& versus_step(s2[q], actions[q], i, s2[q + 1])
    } by {
        if q < k {
            assert(s2[q] == states[q]);
            assert(s2[q + 1] == states[q + 1]);
        }
    }
    assert forall|q: int| 0 <= q < s2.len() - 2 implies versus_answer(
        #[trigger] s2[q],
        actions[q],
        i,
    ) is Ok by {
        assert(s2[q] == states[q]);
    }
}

/// How a message of actions from a player ends.
pub enum TurnOutcome {
    /// All actions were applied; the message for the player.
    Answer(BoardExternalInfluence),
    /// An action lost the match for the player.
    Lost(Penalty),
    /// An action came at a point where the game is not defined: a turn that
    /// found no room left the falling piece misplaced, or the garbage would
    /// push the rows past the top of the board.
    OutOfOrder,
}

/// Whether the garbage heights add up to at most the board's height.
fn total_within_board(q: &VecDeque<u8>) -> (r: bool)
    ensures
        r == (total_height(q@) <= BOARD_HEIGHT),
{
    let mut total: usize = 0;
    let mut k: usize = 0;
    assert(q@.take(0) =~= Seq::<u8>::empty());
    while k < q.len()
        invariant
            k <= q@.len(),
            total == total_height(q@.take(k as int)),
            total <= BOARD_HEIGHT,
        decreases q@.len() - k,
    {
        proof {
            lemma_total_step(q@, k as int);
        }
        total = total + q[k] as usize;
        if total > BOARD_HEIGHT {
            return false;
        }
        k = k + 1;
    }
    assert(q@.take(q@.len() as int) =~= q@);
    true
}

impl Versus {
    /// Whether `apply_action` may be called for the action (see
    /// `action_ready`).
    pub fn action_ready(&self, action: &PlayerAction, board_i: usize) -> (r: bool)
        requires
            versus_wf(self@),
            board_i < self@.boards.len(),
        ensures
            r == action_ready(self@, *action, board_i as int),
    {
        if !self.boards[board_i].action_allowed(action) {
            return false;
        }
        if action.action_type == PlayerActions::HardDrop {
            total_within_board(&self.unused_garbage_heights[board_i])
        } else {
            true
        }
    }

    /// Prepares player `board_i` for the start: the garbage sent to it comes
    /// in, its queue is filled, and the message for it is built.
    pub fn start_board(&mut self, board_i: usize) -> (r: BoardExternalInfluence)
        requires
            versus_wf(old(self)@),
            board_i < old(self)@.boards.len(),
            total_height(old(self)@.unused_heights[board_i as int]) <= BOARD_HEIGHT,
        ensures
            exists|drawn: Seq<i8>, dealt: Seq<MinoType>, filled: VersusModel|
                #[trigger] push_and_fill(old(self)@, board_i as int, drawn, dealt, filled)
                    && response_of(r, filled, board_i as int) && final(self)@ == told(
                    filled,
                    board_i as int,
                ),
            versus_wf(final(self)@),
    {
        let ghost v = self@;
        let ghost i = board_i as int;
        self.apply_garbage_push(board_i);
        let ghost pushed = self@;
        let ghost drawn = choose|drawn: Seq<i8>|
            garbage_draws_ok(v, i, drawn) && pushed == garbage_step(v, i, drawn);
        self.fill_upcoming_minos(board_i);
        let ghost filled = self@;
        let ghost dealt = choose|dealt: Seq<MinoType>|
            fill_draws_ok(pushed, i, dealt) && filled == fill_step(pushed, i, dealt);
        let r = self.build_response(board_i);
        assert(push_and_fill(v, i, drawn, dealt, filled));
        r
    }

    /// Applies the actions of a message from player `board_i` (of two) in
    /// order, and answers with the message for the player. An action that
    /// loses the match ends the message there.
    pub fn handle_actions(&mut self, actions: &Vec<PlayerAction>, board_i: usize) -> (r:
        TurnOutcome)
        requires
            versus_wf(old(self)@),
            old(self)@.boards.len() == 2,
            board_i < 2,
        ensures
            versus_wf(final(self)@),
            final(self)@.boards.len() == 2,
            exists|states: Seq<VersusModel>|
                #[trigger] played(states, actions@, board_i as int) && states[0] == old(self)@ && {
                    let last = states.last();
                    let k = states.len() - 1;
                    match r {
                        TurnOutcome::Answer(resp) => {
                            &&& k == actions@.len()
                            &&& response_of(resp, last, board_i as int)
                            &&& final(self)@ == told(last, board_i as int)
                        },
                        TurnOutcome::Lost(p) => {
                            &&& k >= 1
                            &&& versus_answer(states[k - 1], actions@[k - 1], board_i as int)
                                == Err::<(), PenaltyView>(p@)
                            &&& final(self)@ == last
                        },
                        TurnOutcome::OutOfOrder => {
                            &&& k < actions@.len()
                            &&& !action_ready(last, actions@[k], board_i as int)
                            &&& final(self)@ == last
                        },
                    }
                },
    {
        let ghost i = board_i as int;
        let ghost mut states: Seq<VersusModel> = seq![self@];
        let mut k: usize = 0;
        while k < actions.len()
            invariant
                i == board_i,
                0 <= i < 2,
                k <= actions.len(),
                versus_wf(self@),
                self@.boards.len() == 2,
                states.len() == k + 1,
                played(states, actions@, i),
                states[0] == old(self)@,
                states.last() == self@,
                k >= 1 ==> versus_answer(states[k - 1], actions@[k - 1], i) is Ok,
            decreases actions.len() - k,
        {
            let action = actions[k];
            if !self.action_ready(&action, board_i) {
                assert(played(states, actions@, i));
                return TurnOutcome::OutOfOrder;
            }
            let ghost before = self@;
            let answer = self.apply_action(&action, board_i);
            proof {
                if dropped(before, action, i) {
                    let (drawn, dealt) = choose|drawn: Seq<i8>, dealt: Seq<MinoType>|
                        #[trigger] push_and_fill(acted(before, action, i), i, drawn, dealt, self@);
                    assert(push_and_fill(acted(before, action, i), i, drawn, dealt, self@));
                }
                assert(versus_step(before, action, i, self@));
                lemma_played_push(states, actions@, i, self@);
                let s2 = states.push(self@);
                states = s2;
            }
            match answer {
                Ok(()) => {},
                Err(p) => {
                    assert(played(states, actions@, i));
                    return TurnOutcome::Lost(p);
                },
            }
            k = k + 1;
        }
        let ghost last = self@;
        let resp = self.build_response(board_i);
        assert(played(states, actions@, i));
        TurnOutcome::Answer(resp)
    }
}

/// How a match ended: the player that is left.
#[derive(Clone, Copy, PartialEq, Eq, Structural, Debug)]
pub struct MatchOutcome {
    pub winner_index: usize,
}

/// Why a match could not start.
#[derive(Clone, Copy, PartialEq, Eq, Structural, Debug)]
pub enum MatchError {
    /// Only matches of two players can be played: the lines one player sends
    /// go to the other.
    PlayerCount(usize),
}

/// Draws one secret per player from the master generator. A player proves
/// who it is by sending its secret when it connects.
pub fn draw_secrets(num_players: usize, master_seed: &mut ChaCha8Rng) -> (r: Vec<u64>)
    ensures
        r@.len() == num_players,
{
    let mut secrets: Vec<u64> = Vec::new();
    let mut i: usize = 0;
    while i < num_players
        invariant
            i <= num_players,
            secrets@.len() == i,
        decreases num_players - i,
    {
        secrets.push(next_number(master_seed));
        i = i + 1;
    }
    secrets
}

/// The player of each secret; of players with the same secret, the last.
pub open spec fn secret_map(secrets: Seq<u64>) -> Map<u64, usize>
    decreases secrets.len(),
{
    if secrets.len() == 0 {
        Map::empty()
    } else {
        secret_map(secrets.drop_last()).insert(secrets.last(), (secrets.len() - 1) as usize)
    }
}

/// The bookkeeping of the match server: the players that have not connected
/// yet, by secret, and which players are connected and which have finished.
pub struct MatchState {
    remaining_secrets: HashMap<u64, usize>,
    connected: Vec<bool>,
    finished: Vec<bool>,
    active_players: usize,
}

/// The bookkeeping of the match server as values.
pub struct MatchModel {
    pub remaining: Map<u64, usize>,
    pub connected: Seq<bool>,
    pub finished: Seq<bool>,
}

/// Whether player `j` is still playing: connected and not finished.
pub open spec fn playing(m: MatchModel, j: int) -> bool {
    m.connected[j] && !m.finished[j]
}

/// How many of the two players are still playing.
pub open spec fn players_left(m: MatchModel) -> int {
    (if playing(m, 0) {
        1int
    } else {
        0
    }) + (if playing(m, 1) {
        1int
    } else {
        0
    })
}

impl MatchState {
    /// The bookkeeping as values.
    pub closed spec fn model(&self) -> MatchModel {
        MatchModel {
            remaining: self.remaining_secrets@,
            connected: self.connected@,
            finished: self.finished@,
        }
    }

    /// Two players, the counter of players still playing in step, and every
    /// waiting secret belonging to one of the two.
    pub closed spec fn wf(&self) -> bool {
        &&& self.connected@.len() == 2
        &&& self.finished@.len() == 2
        &&& self.active_players == players_left(self.model())
        &&& forall|s: u64| #[trigger] self.remaining_secrets@.contains_key(s) ==> self.remaining_secrets@[s] < 2
    }

    /// The bookkeeping for a match of the players with these secrets, none of
    /// them connected yet; an error unless there are two players.
    pub fn new(secrets: &Vec<u64>) -> (r: Result<MatchState, MatchError>)
        ensures
            secrets@.len() != 2 <==> r is Err,
            r matches Err(e) ==> e == MatchError::PlayerCount(secrets@.len() as usize),
            r matches Ok(m) ==> m.wf() && m.model() == (MatchModel {
                remaining: secret_map(secrets@),
                connected: seq![false, false],
                finished: seq![false, false],
            }),
    {
        broadcast use vstd::std_specs::hash::group_hash_axioms;

        if secrets.len() != 2 {
            return Err(MatchError::PlayerCount(secrets.len()));
        }
        let mut remaining_secrets: HashMap<u64, usize> = HashMap::new();
        let mut i: usize = 0;
        assert(secrets@.take(0) =~= Seq::<u64>::empty());
        while i < secrets.len()
            invariant
                i <= secrets@.len() == 2,
                remaining_secrets@ == secret_map(secrets@.take(i as int)),
                forall|s: u64| #[trigger] remaining_secrets@.contains_key(s) ==> remaining_secrets@[s] < i,
            decreases secrets@.len() - i,
        {
            remaining_secrets.insert(secrets[i], i);
            assert(secrets@.take(i + 1).drop_last() =~= secrets@.take(i as int));
            i = i + 1;
        }
        assert(secrets@.take(2) =~= secrets@);
        let m = MatchState {
            remaining_secrets,
            connected: vec![false, false],
            finished: vec![false, false],
            active_players: 0,
        };
        assert(m.model().connected =~= seq![false, false]);
        assert(m.model().finished =~= seq![false, false]);
        Ok(m)
    }

    /// Whether some player has not connected yet.
    pub fn waiting(&self) -> (r: bool)
        requires
            self.wf(),
        ensures
            r == (self.model().remaining.dom().len() > 0),
    {
        broadcast use vstd::std_specs::hash::group_hash_axioms;

        self.remaining_secrets.len() > 0
    }

    /// A player connected with `secret`: the player it belongs to, which is
    /// then connected, or `None` for a secret of no waiting player.
    pub fn connect(&mut self, secret: u64) -> (r: Option<usize>)
        requires
            old(self).wf(),
        ensures
            final(self).wf(),
            old(self).model().remaining.contains_key(secret) <==> r is Some,
            r matches Some(i) ==> i == old(self).model().remaining[secret] && final(self).model() == (
            MatchModel {
                remaining: old(self).model().remaining.remove(secret),
                connected: old(self).model().connected.update(i as int, true),
                ..old(self).model()
            }),
            r is None ==> final(self).model() == old(self).model(),
    {
        broadcast use vstd::std_specs::hash::group_hash_axioms;

        let ghost before = self.remaining_secrets@;
        match self.remaining_secrets.remove(&secret) {
            Some(i) => {
                let ghost m0 = self.model();
                if !self.connected[i] && !self.finished[i] {
                    self.active_players = self.active_players + 1;
                }
                self.connected.set(i, true);
                assert(self.model().remaining =~= m0.remaining.remove(secret));
                assert(forall|s: u64| #[trigger] self.remaining_secrets@.contains_key(s) ==> m0.remaining.contains_key(s));
                Some(i)
            },
            None => {
                assert(self.remaining_secrets@ =~= before);
                None
            },
        }
    }

    /// Player `board_i` has finished: the outcome once exactly one player is
    /// left playing.
    pub fn finish(&mut self, board_i: usize) -> (r: Option<MatchOutcome>)
        requires
            old(self).wf(),
            board_i < 2,
        ensures
            final(self).wf(),
            final(self).model() == (MatchModel {
                finished: old(self).model().finished.update(board_i as int, true),
                ..old(self).model()
            }),
            r is Some <==> players_left(final(self).model()) == 1,
            r matches Some(o) ==> o.winner_index < 2 && playing(
                final(self).model(),
                o.winner_index as int,
            ),
    {
        if self.connected[board_i] && !self.finished[board_i] {
            self.active_players = self.active_players - 1;
        }
        self.finished.set(board_i, true);
        if self.active_players == 1 {
            if self.connected[0] && !self.finished[0] {
                Some(MatchOutcome { winner_index: 0 })
            } else {
                Some(MatchOutcome { winner_index: 1 })
            }
        } else {
            None
        }
    }
}

} // verus!
