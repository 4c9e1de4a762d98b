//! The values that travel between the match server and its players: piece
//! kinds, the kinds of player action, a single player action, and what the
//! server tells a player about its board.
use vstd::prelude::*;

use crate::actions::{decimal, push_char, push_decimal_u64};

verus! {

/// The kind of a tetromino. On the wire it is a signed byte in which 1 to 7
/// name the seven pieces; any other byte is kept as `Unknown`.
#[derive(Clone, Copy, PartialEq, Eq, Structural, PartialOrd, Ord, Hash, Debug)]
pub enum MinoType {
    T,
    I,
    L,
    J,
    S,
    Z,
    O,
    Unknown(UnknownMinoByte),
}

/// A wire byte that names none of the seven pieces.
#[derive(Clone, Copy, PartialEq, Eq, Structural, PartialOrd, Ord, Hash, Debug)]
pub struct UnknownMinoByte {
    byte: i8,
}

impl UnknownMinoByte {
    /// The byte is not one of 1 to 7.
    #[verifier::type_invariant]
    spec fn names_no_piece(self) -> bool {
        !(1 <= self.byte <= 7)
    }

    /// The byte.
    pub closed spec fn value(self) -> i8 {
        self.byte
    }

    /// The byte, kept when it names none of the seven pieces.
    pub fn new(b: i8) -> (r: Option<UnknownMinoByte>)
        ensures
            r is Some <==> !(1 <= b <= 7),
            r matches Some(u) ==> u.value() == b,
    {
        if 1 <= b && b <= 7 {
            None
        } else {
            Some(UnknownMinoByte { byte: b })
        }
    }

    /// The byte; never one of 1 to 7.
    pub fn byte(&self) -> (r: i8)
        ensures
            r == self.value(),
            !(1 <= r <= 7),
    {
        proof {
            use_type_invariant(self);
        }
        self.byte
    }
}

/// The unknown piece byte `b` stands for.
pub closed spec fn unknown_mino(b: i8) -> UnknownMinoByte {
    UnknownMinoByte { byte: b }
}

/// An unknown piece byte built from a byte holds that byte.
pub proof fn lemma_unknown_mino(b: i8)
    ensures
        #[trigger] unknown_mino(b).value() == b,
{
}

/// The wire byte of a piece kind.
pub open spec fn mino_byte(t: MinoType) -> i8 {
    match t {
        MinoType::T => 1,
        MinoType::I => 2,
        MinoType::L => 3,
        MinoType::J => 4,
        MinoType::S => 5,
        MinoType::Z => 6,
        MinoType::O => 7,
        MinoType::Unknown(u) => u.value(),
    }
}

/// The piece kind that a wire byte denotes.
pub open spec fn mino_from_byte(b: i8) -> MinoType {
    if b == 1 {
        MinoType::T
    } else if b == 2 {
        MinoType::I
    } else if b == 3 {
        MinoType::L
    } else if b == 4 {
        MinoType::J
    } else if b == 5 {
        MinoType::S
    } else if b == 6 {
        MinoType::Z
    } else if b == 7 {
        MinoType::O
    } else {
        MinoType::Unknown(unknown_mino(b))
    }
}

/// The name of a piece kind: its letter, or the empty name for an unknown
/// byte.
pub open spec fn mino_name(t: MinoType) -> Seq<char> {
    match t {
        MinoType::T => seq!['T'],
        MinoType::I => seq!['I'],
        MinoType::L => seq!['L'],
        MinoType::J => seq!['J'],
        MinoType::S => seq!['S'],
        MinoType::Z => seq!['Z'],
        MinoType::O => seq!['O'],
        MinoType::Unknown(_) => Seq::empty(),
    }
}

/// The piece kind that a letter names, for the seven piece letters.
pub open spec fn mino_of_letter(c: char) -> Option<MinoType> {
    if c == 'T' {
        Some(MinoType::T)
    } else if c == 'I' {
        Some(MinoType::I)
    } else if c == 'L' {
        Some(MinoType::L)
    } else if c == 'J' {
        Some(MinoType::J)
    } else if c == 'S' {
        Some(MinoType::S)
    } else if c == 'Z' {
        Some(MinoType::Z)
    } else if c == 'O' {
        Some(MinoType::O)
    } else {
        None
    }
}

impl MinoType {
    /// The seven known piece kinds, in wire order.
    pub const ENUM_VALUES: [MinoType; 7] = [
        MinoType::T,
        MinoType::I,
        MinoType::L,
        MinoType::J,
        MinoType::S,
        MinoType::Z,
        MinoType::O,
    ];

    /// Whether this is one of the seven pieces.
    pub open spec fn is_known(self) -> bool {
        !(self is Unknown)
    }

    /// Returns the piece's letter, or "" for an unknown kind.
    pub fn variant_name(self) -> (r: Option<&'static str>)
        ensures
            r is Some,
            r.unwrap()@ == mino_name(self),
    {
        proof {
            reveal_strlit("T");
            reveal_strlit("I");
            reveal_strlit("L");
            reveal_strlit("J");
            reveal_strlit("S");
            reveal_strlit("Z");
            reveal_strlit("O");
            reveal_strlit("");
        }
        match self {
            MinoType::T => Some("T"),
            MinoType::I => Some("I"),
            MinoType::L => Some("L"),
            MinoType::J => Some("J"),
            MinoType::S => Some("S"),
            MinoType::Z => Some("Z"),
            MinoType::O => Some("O"),
            MinoType::Unknown(_) => Some(""),
        }
    }

    /// The piece kind carried by a wire byte.
    pub fn from_byte(b: i8) -> (r: MinoType)
        ensures
            r == mino_from_byte(b),
    {
        if b == 1 {
            MinoType::T
        } else if b == 2 {
            MinoType::I
        } else if b == 3 {
            MinoType::L
        } else if b == 4 {
            MinoType::J
        } else if b == 5 {
            MinoType::S
        } else if b == 6 {
            MinoType::Z
        } else if b == 7 {
            MinoType::O
        } else {
            match UnknownMinoByte::new(b) {
                Some(u) => {
                    assert(u == unknown_mino(b));
                    MinoType::Unknown(u)
                },
                None => MinoType::O,
            }
        }
    }

    /// The wire byte of this piece kind.
    pub fn to_byte(self) -> (r: i8)
        ensures
            r == mino_byte(self),
            self is Unknown ==> !(1 <= r <= 7),
    {
        match self {
            MinoType::T => 1,
            MinoType::I => 2,
            MinoType::L => 3,
            MinoType::J => 4,
            MinoType::S => 5,
            MinoType::Z => 6,
            MinoType::O => 7,
            MinoType::Unknown(u) => u.byte(),
        }
    }

    /// The piece kind named by one of the letters T, I, L, J, S, Z, O.
    pub fn from_letter(c: char) -> (r: MinoType)
        requires
            mino_of_letter(c) is Some,
        ensures
            r == mino_of_letter(c).unwrap(),
    {
        if c == 'T' {
            MinoType::T
        } else if c == 'I' {
            MinoType::I
        } else if c == 'L' {
            MinoType::L
        } else if c == 'J' {
            MinoType::J
        } else if c == 'S' {
            MinoType::S
        } else if c == 'Z' {
            MinoType::Z
        } else {
            MinoType::O
        }
    }
}

/// Decoding a byte and encoding the result gives the byte back.
pub proof fn lemma_mino_byte_round_trip(b: i8)
    ensures
        mino_byte(mino_from_byte(b)) == b,
{
    lemma_unknown_mino(b);
}

/// The kind of a player action. On the wire it is an unsigned byte in which
/// 0 to 7 name the kinds below; any other byte is kept as `Unknown`.
#[derive(Clone, Copy, PartialEq, Eq, Structural, PartialOrd, Ord, Hash, Debug)]
pub enum PlayerActions {
    NONE,
    RotateCW,
    RotateCCW,
    Rotate180,
    Hold,
    HardDrop,
    SoftDrop,
    Horizontal,
    Unknown(UnknownActionByte),
}

/// A wire byte that names none of the eight action kinds.
#[derive(Clone, Copy, PartialEq, Eq, Structural, PartialOrd, Ord, Hash, Debug)]
pub struct UnknownActionByte {
    byte: u8,
}

impl UnknownActionByte {
    /// The byte is above 7.
    #[verifier::type_invariant]
    spec fn names_no_action(self) -> bool {
        self.byte > 7
    }

    /// The byte.
    pub closed spec fn value(self) -> u8 {
        self.byte
    }

    /// The byte, kept when it names none of the eight action kinds.
    pub fn new(b: u8) -> (r: Option<UnknownActionByte>)
        ensures
            r is Some <==> b > 7,
            r matches Some(u) ==> u.value() == b,
    {
        if b <= 7 {
            None
        } else {
            Some(UnknownActionByte { byte: b })
        }
    }

    /// The byte; always above 7.
    pub fn byte(&self) -> (r: u8)
        ensures
            r == self.value(),
            r > 7,
    {
        proof {
            use_type_invariant(self);
        }
        self.byte
    }
}

/// The unknown action byte `b` stands for.
pub closed spec fn unknown_action(b: u8) -> UnknownActionByte {
    UnknownActionByte { byte: b }
}

/// An unknown action byte built from a byte holds that byte.
pub proof fn lemma_unknown_action(b: u8)
    ensures
        #[trigger] unknown_action(b).value() == b,
{
}

/// The wire byte of an action kind.
pub open spec fn action_byte(a: PlayerActions) -> u8 {
    match a {
        PlayerActions::NONE => 0,
        PlayerActions::RotateCW => 1,
        PlayerActions::RotateCCW => 2,
        PlayerActions::Rotate180 => 3,
        PlayerActions::Hold => 4,
        PlayerActions::HardDrop => 5,
        PlayerActions::SoftDrop => 6,
        PlayerActions::Horizontal => 7,
        PlayerActions::Unknown(u) => u.value(),
    }
}

/// The action kind that a wire byte denotes.
pub open spec fn action_from_byte(b: u8) -> PlayerActions {
    if b == 0 {
        PlayerActions::NONE
    } else if b == 1 {
        PlayerActions::RotateCW
    } else if b == 2 {
        PlayerActions::RotateCCW
    } else if b == 3 {
        PlayerActions::Rotate180
    } else if b == 4 {
        PlayerActions::Hold
    } else if b == 5 {
        PlayerActions::HardDrop
    } else if b == 6 {
        PlayerActions::SoftDrop
    } else if b == 7 {
        PlayerActions::Horizontal
    } else {
        PlayerActions::Unknown(unknown_action(b))
    }
}

/// The name of an action kind, or the empty name for an unknown byte.
pub open spec fn action_name(a: PlayerActions) -> Seq<char> {
    match a {
        PlayerActions::NONE => "NONE"@,
        PlayerActions::RotateCW => "RotateCW"@,
        PlayerActions::RotateCCW => "RotateCCW"@,
        PlayerActions::Rotate180 => "Rotate180"@,
        PlayerActions::Hold => "Hold"@,
        PlayerActions::HardDrop => "HardDrop"@,
        PlayerActions::SoftDrop => "SoftDrop"@,
        PlayerActions::Horizontal => "Horizontal"@,
        PlayerActions::Unknown(_) => Seq::empty(),
    }
}

impl PlayerActions {
    /// The eight known action kinds, in wire order.
    pub const ENUM_VALUES: [PlayerActions; 8] = [
        PlayerActions::NONE,
        PlayerActions::RotateCW,
        PlayerActions::RotateCCW,
        PlayerActions::Rotate180,
        PlayerActions::Hold,
        PlayerActions::HardDrop,
        PlayerActions::SoftDrop,
        PlayerActions::Horizontal,
    ];

    /// Returns the action kind's name, or "" for an unknown kind.
    pub fn variant_name(self) -> (r: Option<&'static str>)
        ensures
            r is Some,
            r.unwrap()@ == action_name(self),
    {
        proof {
            reveal_strlit("");
        }
        match self {
            PlayerActions::NONE => Some("NONE"),
            PlayerActions::RotateCW => Some("RotateCW"),
            PlayerActions::RotateCCW => Some("RotateCCW"),
            PlayerActions::Rotate180 => Some("Rotate180"),
            PlayerActions::Hold => Some("Hold"),
            PlayerActions::HardDrop => Some("HardDrop"),
            PlayerActions::SoftDrop => Some("SoftDrop"),
            PlayerActions::Horizontal => Some("Horizontal"),
            PlayerActions::Unknown(_) => Some(""),
        }
    }

    /// The action kind carried by a wire byte.
    pub fn from_byte(b: u8) -> (r: PlayerActions)
        ensures
            r == action_from_byte(b),
    {
        if b == 0 {
            PlayerActions::NONE
        } else if b == 1 {
            PlayerActions::RotateCW
        } else if b == 2 {
            PlayerActions::RotateCCW
        } else if b == 3 {
            PlayerActions::Rotate180
        } else if b == 4 {
            PlayerActions::Hold
        } else if b == 5 {
            PlayerActions::HardDrop
        } else if b == 6 {
            PlayerActions::SoftDrop
        } else if b == 7 {
            PlayerActions::Horizontal
        } else {
            match UnknownActionByte::new(b) {
                Some(u) => {
                    assert(u == unknown_action(b));
                    PlayerActions::Unknown(u)
                },
                None => PlayerActions::NONE,
            }
        }
    }

    /// The wire byte of this action kind.
    pub fn to_byte(self) -> (r: u8)
        ensures
            r == action_byte(self),
            self is Unknown ==> r > 7,
    {
        match self {
            PlayerActions::NONE => 0,
            PlayerActions::RotateCW => 1,
            PlayerActions::RotateCCW => 2,
            PlayerActions::Rotate180 => 3,
            PlayerActions::Hold => 4,
            PlayerActions::HardDrop => 5,
            PlayerActions::SoftDrop => 6,
            PlayerActions::Horizontal => 7,
            PlayerActions::Unknown(u) => u.byte(),
        }
    }
}

/// Decoding a byte and encoding the result gives the byte back.
pub proof fn lemma_action_byte_round_trip(b: u8)
    ensures
        action_byte(action_from_byte(b)) == b,
{
    lemma_unknown_action(b);
}

/// The fields that the table of a player action can carry. A field that the
/// table does not hold reads as its default, 0.
#[derive(Clone, Copy, PartialEq, Eq, Structural, Debug, Default)]
pub struct ActionFields {
    /// How many rows a soft drop moves the piece down.
    pub repeats: u16,
    /// How many columns a horizontal move shifts the piece (negative: left).
    pub right: i8,
}

/// One player action: its kind, and the table of the action, which a message
/// may leave out.
#[derive(Clone, Copy, PartialEq, Eq, Structural, Debug)]
pub struct PlayerAction {
    pub action_type: PlayerActions,
    pub action: Option<ActionFields>,
}

/// A clockwise quarter turn.
#[derive(Clone, Copy, PartialEq, Eq, Structural, Debug, Default)]
pub struct RotateCW {}

/// A counter-clockwise quarter turn.
#[derive(Clone, Copy, PartialEq, Eq, Structural, Debug, Default)]
pub struct RotateCCW {}

/// A half turn.
#[derive(Clone, Copy, PartialEq, Eq, Structural, Debug, Default)]
pub struct Rotate180 {}

/// Swapping the falling piece with the held one.
#[derive(Clone, Copy, PartialEq, Eq, Structural, Debug, Default)]
pub struct Hold {}

/// Dropping the falling piece to the bottom and locking it.
#[derive(Clone, Copy, PartialEq, Eq, Structural, Debug, Default)]
pub struct HardDrop {}

/// Moving the falling piece down by some rows.
#[derive(Clone, Copy, PartialEq, Eq, Structural, Debug, Default)]
pub struct SoftDrop {
    pub repeats: u16,
}

/// Moving the falling piece sideways by some columns.
#[derive(Clone, Copy, PartialEq, Eq, Structural, Debug, Default)]
pub struct Horizontal {
    pub right: i8,
}

impl SoftDrop {
    /// How many rows the piece moves down.
    pub fn repeats(&self) -> (r: u16)
        ensures
            r == self.repeats,
    {
        self.repeats
    }
}

impl Horizontal {
    /// How many columns the piece moves right (negative: left).
    pub fn right(&self) -> (r: i8)
        ensures
            r == self.right,
    {
        self.right
    }
}

impl PlayerAction {
    /// The kind of the action.
    pub fn action_type(&self) -> (r: PlayerActions)
        ensures
            r == self.action_type,
    {
        self.action_type
    }

    /// The action as a clockwise turn: present when the kind says so and the
    /// message holds the action's table.
    pub fn action_as_rotate_cw(&self) -> (r: Option<RotateCW>)
        ensures
            r is Some <==> (self.action_type == PlayerActions::RotateCW && self.action is Some),
    {
        if self.action_type == PlayerActions::RotateCW && self.action.is_some() {
            Some(RotateCW {})
        } else {
            None
        }
    }

    pub fn action_as_rotate_ccw(&self) -> (r: Option<RotateCCW>)
        ensures
            r is Some <==> (self.action_type == PlayerActions::RotateCCW && self.action is Some),
    {
        if self.action_type == PlayerActions::RotateCCW && self.action.is_some() {
            Some(RotateCCW {})
        } else {
            None
        }
    }

    pub fn action_as_rotate_180(&self) -> (r: Option<Rotate180>)
        ensures
            r is Some <==> (self.action_type == PlayerActions::Rotate180 && self.action is Some),
    {
        if self.action_type == PlayerActions::Rotate180 && self.action.is_some() {
            Some(Rotate180 {})
        } else {
            None
        }
    }

    pub fn action_as_hold(&self) -> (r: Option<Hold>)
        ensures
            r is Some <==> (self.action_type == PlayerActions::Hold && self.action is Some),
    {
        if self.action_type == PlayerActions::Hold && self.action.is_some() {
            Some(Hold {})
        } else {
            None
        }
    }

    pub fn action_as_hard_drop(&self) -> (r: Option<HardDrop>)
        ensures
            r is Some <==> (self.action_type == PlayerActions::HardDrop && self.action is Some),
    {
        if self.action_type == PlayerActions::HardDrop && self.action.is_some() {
            Some(HardDrop {})
        } else {
            None
        }
    }

    pub fn action_as_soft_drop(&self) -> (r: Option<SoftDrop>)
        ensures
            r is Some <==> (self.action_type == PlayerActions::SoftDrop && self.action is Some),
            r matches Some(d) ==> d.repeats == self.action.unwrap().repeats,
    {
        match self.action {
            Some(fields) => {
                if self.action_type == PlayerActions::SoftDrop {
                    Some(SoftDrop { repeats: fields.repeats })
                } else {
                    None
                }
            },
            None => None,
        }
    }

    pub fn action_as_horizontal(&self) -> (r: Option<Horizontal>)
        ensures
            r is Some <==> (self.action_type == PlayerActions::Horizontal && self.action is Some),
            r matches Some(h) ==> h.right == self.action.unwrap().right,
    {
        match self.action {
            Some(fields) => {
                if self.action_type == PlayerActions::Horizontal {
                    Some(Horizontal { right: fields.right })
                } else {
                    None
                }
            },
            None => None,
        }
    }
}

/// How an action kind is written in messages and debug text: its name, or
/// `<UNKNOWN n>` with its byte in decimal.
pub open spec fn action_debug_name(x: PlayerActions) -> Seq<char> {
    match x {
        PlayerActions::Unknown(u) => "<UNKNOWN "@ + decimal(u.value() as nat) + ">"@,
        _ => action_name(x),
    }
}

/// Appends how an action kind is written (see `action_debug_name`).
pub(crate) fn push_action_debug_name(s: &mut String, x: PlayerActions)
    ensures
        final(s)@ == old(s)@ + action_debug_name(x),
{
    match x {
        PlayerActions::Unknown(u) => {
            s.append("<UNKNOWN ");
            push_decimal_u64(s, u.byte() as u64);
            s.append(">");
        },
        _ => {
            s.append(x.variant_name().unwrap());
        },
    }
    assert(final(s)@ =~= old(s)@ + action_debug_name(x));
}

/// A number in decimal, with a minus sign when it is negative.
pub open spec fn signed_decimal(n: i8) -> Seq<char> {
    if n < 0 {
        seq!['-'] + decimal((-n) as nat)
    } else {
        decimal(n as nat)
    }
}

/// The text for the table that an action's message holds: nothing for an
/// action of no kind or of an unknown kind; a note when the table is missing;
/// otherwise the table's name, with its field for a soft drop or a move.
pub open spec fn action_table_text(a: PlayerAction) -> Seq<char> {
    match a.action_type {
        PlayerActions::NONE | PlayerActions::Unknown(_) => "None"@,
        t => match a.action {
            None => "\"InvalidFlatbuffer: Union discriminant does not match value.\""@,
            Some(f) => match t {
                PlayerActions::SoftDrop => "SoftDrop { repeats: "@ + decimal(f.repeats as nat)
                    + " }"@,
                PlayerActions::Horizontal => "Horizontal { right: "@ + signed_decimal(f.right)
                    + " }"@,
                _ => action_name(t),
            },
        },
    }
}

/// The text that shows a player action: its kind (`<UNKNOWN n>` for an unknown
/// byte) and its table.
pub open spec fn player_action_text(a: PlayerAction) -> Seq<char> {
    "PlayerAction { action_type: "@ + action_debug_name(a.action_type) + ", action: "@
        + action_table_text(a) + " }"@
}

impl PlayerAction {
    /// The text that shows the action, for messages and logs.
    pub fn debug_text(&self) -> (r: String)
        ensures
            r@ == player_action_text(*self),
    {
        let mut s = "PlayerAction { action_type: ".to_string();
        push_action_debug_name(&mut s, self.action_type);
        s.append(", action: ");
        let ghost head = s@;
        match self.action_type {
            PlayerActions::NONE | PlayerActions::Unknown(_) => {
                s.append("None");
            },
            t => match self.action {
                None => {
                    s.append("\"InvalidFlatbuffer: Union discriminant does not match value.\"");
                },
                Some(f) => match t {
                    PlayerActions::SoftDrop => {
                        s.append("SoftDrop { repeats: ");
                        push_decimal_u64(&mut s, f.repeats as u64);
                        s.append(" }");
                    },
                    PlayerActions::Horizontal => {
                        s.append("Horizontal { right: ");
                        if f.right < 0 {
                            push_char(&mut s, '-');
                            let magnitude: u64 = (0 - (f.right as i16)) as u64;
                            push_decimal_u64(&mut s, magnitude);
                        } else {
                            push_decimal_u64(&mut s, f.right as u64);
                        }
                        s.append(" }");
                    },
                    _ => {
                        s.append(t.variant_name().unwrap());
                    },
                },
            },
        }
        assert(s@ =~= head + action_table_text(*self));
        s.append(" }");
        assert(s@ =~= player_action_text(*self));
        s
    }
}

/// What the server tells a player about its board since the last message:
/// garbage rows to add (their heights and hole columns) and pieces appended
/// to the queue. Each list may be left out of a message.
#[derive(Clone, Debug)]
pub struct BoardExternalInfluence {
    pub new_garbage_heights: Option<Vec<u8>>,
    pub new_garbage_holes: Option<Vec<i8>>,
    pub new_upcoming_minos: Option<Vec<MinoType>>,
}

} // verus!
