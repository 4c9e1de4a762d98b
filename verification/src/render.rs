//! Drawing a board as text, top row first, in the style of the drawings that
//! boards are read from: the hold column, the cells between two '|', and the
//! queue column. A filled cell is '.', a cell of the falling piece '#' (its
//! pivot 'x'), and a filled cell under the falling piece '!'.
use vstd::prelude::*;

use crate::actions::push_char;
use crate::ascii::{
    art_hold,
    art_marker,
    art_queue,
    art_row,
    art_width,
    line_ok,
    side_blank,
    bar1,
    bar2,
    cells_part,
    left_part,
    right_part,
    row_of_cells,
    side_mark,
    trim,
    trim_end,
    trim_start,
    is_white_space,
    lemma_first_index_unique,
    lemma_row_of_cells_bits,
    art_board,
    art_lines,
    art_ok,
    comment_at,
    kept_lines,
    split_on,
    strip_comment,
};
use crate::board::{Board, BoardModel, BOARD_HEIGHT, board_wf, gravity, lemma_inside_mask};
use crate::messages::{MinoType, mino_name, mino_of_letter};
use crate::mino::{above_extent, bit, mask_computable, mask_from_mino, mask_of, MinoMask};

verus! {

/// The index of the first empty row, or the number of rows if none is empty.
pub open spec fn first_empty_row(rows: Seq<u16>) -> int
    decreases rows.len(),
{
    if rows.len() == 0 {
        0
    } else if rows[0] == 0 {
        0
    } else {
        1 + first_empty_row(rows.drop_first())
    }
}

proof fn lemma_first_empty_row(rows: Seq<u16>)
    ensures
        0 <= first_empty_row(rows) <= rows.len(),
        forall|j: int| 0 <= j < first_empty_row(rows) ==> rows[j] != 0,
        first_empty_row(rows) < rows.len() ==> rows[first_empty_row(rows)] == 0,
    decreases rows.len(),
{
    if rows.len() > 0 && rows[0] != 0 {
        let t = rows.drop_first();
        lemma_first_empty_row(t);
        assert forall|j: int| 0 <= j < first_empty_row(rows) implies rows[j] != 0 by {
            if j > 0 {
                assert(rows[j] == t[j - 1]);
            }
        }
    }
}

proof fn lemma_first_empty_row_unique(rows: Seq<u16>, k: int)
    requires
        0 <= k <= rows.len(),
        forall|j: int| 0 <= j < k ==> rows[j] != 0,
        k < rows.len() ==> rows[k] == 0,
    ensures
        k == first_empty_row(rows),
{
    lemma_first_empty_row(rows);
    let f = first_empty_row(rows);
    if k < f {
        assert(rows[k] == 0);
    } else if f < k {
        assert(rows[f] == 0);
    }
}

/// The highest row drawn: the spawn row, the top of the falling piece, or the
/// row below the first empty row (but at least row 2), whichever is highest.
pub open spec fn render_top(b: BoardModel) -> int {
    let piece_top = match b.active {
        Some(m) => m.pivot_y + above_extent(m.mino_type, m.orientation),
        None => 0,
    };
    let e = first_empty_row(b.rows);
    let stack = (if e > 3 {
        e
    } else {
        3
    }) - 1;
    let a = if b.spawn_height >= piece_top {
        b.spawn_height as int
    } else {
        piece_top
    };
    if a >= stack {
        a
    } else {
        stack
    }
}

/// The row whose hold column shows the held piece.
pub open spec fn hold_row(b: BoardModel) -> int {
    if b.spawn_height > 4 {
        b.spawn_height - 2
    } else if b.spawn_height > 0 {
        b.spawn_height - 1
    } else {
        2
    }
}

/// The letter of a known piece, or a space.
pub open spec fn letter_or_space(t: Option<MinoType>) -> char {
    match t {
        Some(t) => mino_name(t)[0],
        None => ' ',
    }
}

/// The hold column of row `y`: '_' in the spawn row, the held piece in the
/// hold row.
pub open spec fn left_mark(b: BoardModel, y: int) -> char {
    if y == b.spawn_height {
        '_'
    } else if y == hold_row(b) {
        letter_or_space(b.hold)
    } else {
        ' '
    }
}

/// The queue column of row `y`: the queue from the top row down.
pub open spec fn right_mark(b: BoardModel, y: int) -> char {
    let k = render_top(b) - y;
    if 0 <= k < b.upcoming.len() {
        letter_or_space(Some(b.upcoming[k]))
    } else {
        ' '
    }
}

/// The character of cell `x` of row `y`.
pub open spec fn cell_char(b: BoardModel, x: int, y: int) -> char {
    let solid = bit(b.rows[y], b.width - x - 1);
    let paint = match b.active {
        None => ' ',
        Some(m) => if m.pivot_x == x && m.pivot_y == y {
            'x'
        } else {
            let mask = mask_of(m, b.width);
            if mask.bottom_row <= y < mask.bottom_row + 4 && bit(
                mask.covered[y - mask.bottom_row],
                b.width - x - 1,
            ) {
                '#'
            } else {
                ' '
            }
        },
    };
    if paint == ' ' {
        if solid {
            '.'
        } else {
            ' '
        }
    } else if solid {
        '!'
    } else {
        paint
    }
}

/// How many cells a line shows: the board's width.
pub open spec fn cell_count(b: BoardModel) -> nat {
    if b.width < 0 {
        0
    } else {
        b.width as nat
    }
}

/// The line of row `y`.
pub open spec fn render_line(b: BoardModel, y: int) -> Seq<char> {
    seq![left_mark(b, y), '|'] + Seq::new(cell_count(b), |x: int| cell_char(b, x, y)) + seq![
        '|',
        right_mark(b, y),
        '\n',
    ]
}

/// The first `k` lines of the drawing, from the top row down.
pub open spec fn render_lines(b: BoardModel, k: int) -> Seq<char>
    decreases k,
{
    if k <= 0 {
        Seq::empty()
    } else {
        render_lines(b, k - 1) + render_line(b, render_top(b) - (k - 1))
    }
}

/// The drawing of a board: one line per row from `render_top` down to row 0.
pub open spec fn render_text(b: BoardModel) -> Seq<char> {
    render_lines(b, render_top(b) + 1)
}

/// The boards that can be drawn: at most 16 columns, some row empty, the
/// falling piece of a known kind with a mask that can be computed, every row
/// drawn on the board, and every piece shown of a known kind.
pub open spec fn render_ok(b: BoardModel) -> bool {
    &&& b.rows.len() == BOARD_HEIGHT
    &&& b.width <= 16
    &&& first_empty_row(b.rows) < b.rows.len()
    &&& b.active matches Some(m) ==> m.mino_type.is_known() && mask_computable(m, b.width)
    &&& render_top(b) < BOARD_HEIGHT
    &&& (hold_row(b) != b.spawn_height && hold_row(b) <= render_top(b)) ==> (b.hold matches Some(
        t,
    ) ==> t.is_known())
    &&& forall|k: int|
        0 <= k <= render_top(b) && k < b.upcoming.len() ==> (#[trigger] b.upcoming[k]).is_known()
}

/// Every well-formed board can be drawn.
pub proof fn lemma_wf_renders(b: BoardModel)
    requires
        board_wf(b),
    ensures
        render_ok(b),
{
    lemma_first_empty_row(b.rows);
    assert(b.rows[crate::board::PLAY_HEIGHT as int] == 0);
    if let Some(m) = b.active {
        lemma_inside_mask(b.width, m);
    }
}

proof fn lemma_bit_test(v: u16, k: u16)
    by (bit_vector)
    requires
        k < 16,
    ensures
        ((v & (1u16 << k)) != 0) == ((v >> k) & 1u16 == 1u16),
        ((v & (1u16 << k)) > 0) == ((v >> k) & 1u16 == 1u16),
{
}

fn letter(t: MinoType) -> (c: char)
    requires
        t.is_known(),
    ensures
        c == letter_or_space(Some(t)),
{
    match t {
        MinoType::T => 'T',
        MinoType::I => 'I',
        MinoType::L => 'L',
        MinoType::J => 'J',
        MinoType::S => 'S',
        MinoType::Z => 'Z',
        MinoType::O => 'O',
        MinoType::Unknown(_) => ' ',
    }
}

impl Board {
    /// The highest row drawn (see `render_top`).
    fn render_top(&self) -> (r: usize)
        requires
            render_ok(self@),
        ensures
            r == render_top(self@),
    {
        let mut e: usize = 0;
        while e < BOARD_HEIGHT && self.rows[e] != 0
            invariant
                e <= BOARD_HEIGHT,
                forall|j: int| 0 <= j < e ==> self.rows@[j] != 0,
            decreases BOARD_HEIGHT - e,
        {
            e = e + 1;
        }
        proof {
            lemma_first_empty_row_unique(self.rows@, e as int);
        }
        let piece_top: usize = match self.active_mino {
            Some(m) => m.pivot_y + m.squares_above_pivot() as usize,
            None => 0,
        };
        let stack = (if e > 3 {
            e
        } else {
            3
        }) - 1;
        let a = if self.spawn_height >= piece_top {
            self.spawn_height
        } else {
            piece_top
        };
        if a >= stack {
            a
        } else {
            stack
        }
    }

    /// Draws the board (see `render_text`).
    pub fn render(&self) -> (r: String)
        requires
            render_ok(self@),
        ensures
            r@ == render_text(self@),
    {
        let ghost b = self@;
        let top = self.render_top();
        let hold_y: usize = if self.spawn_height > 4 {
            self.spawn_height - 2
        } else if self.spawn_height > 0 {
            self.spawn_height - 1
        } else {
            2
        };
        let mask_maybe: Option<MinoMask> = match self.active_mino {
            Some(m) => Some(mask_from_mino(&m, self.width).unwrap()),
            None => None,
        };
        let mut out = String::new();
        let mut k: usize = 0;
        assert(out@ =~= render_lines(b, 0));
        while k <= top
            invariant
                b == self@,
                render_ok(b),
                top == render_top(b),
                hold_y == hold_row(b),
                k <= top + 1,
                match self.active_mino {
                    Some(m) => mask_maybe matches Some(mask) && mask@ == mask_of(m, self.width),
                    None => mask_maybe is None,
                },
                out@ == render_lines(b, k as int),
            decreases top + 1 - k,
        {
            let y = top - k;
            let ghost before = out@;
            let left = if y == self.spawn_height {
                '_'
            } else if y == hold_y {
                match self.hold {
                    Some(t) => letter(t),
                    None => ' ',
                }
            } else {
                ' '
            };
            push_char(&mut out, left);
            push_char(&mut out, '|');
            let ghost head = out@;
            let mut x: i8 = 0;
            while x < self.width
                invariant
                    b == self@,
                    render_ok(b),
                    0 <= x <= cell_count(b),
                    y < BOARD_HEIGHT,
                    match self.active_mino {
                        Some(m) => mask_maybe matches Some(mask) && mask@ == mask_of(m, self.width),
                        None => mask_maybe is None,
                    },
                    out@ == head + Seq::new(x as nat, |q: int| cell_char(b, q, y as int)),
                decreases self.width - x,
            {
                let k2 = (self.width - x - 1) as u16;
                let solid = self.rows[y] & (1u16 << k2) != 0;
                proof {
                    lemma_bit_test(self.rows[y as int], k2);
                }
                let paint = match &mask_maybe {
                    None => ' ',
                    Some(mask) => {
                        let m = self.active_mino.unwrap();
                        if m.pivot_x == x && m.pivot_y == y {
                            'x'
                        } else if mask.bottom_row <= y && y < mask.bottom_row + 4 && mask.covered[y
                            - mask.bottom_row] & (1u16 << k2) > 0 {
                            proof {
                                lemma_bit_test(mask.covered[y - mask.bottom_row], k2);
                            }
                            '#'
                        } else {
                            proof {
                                if mask.bottom_row <= y && y < mask.bottom_row + 4 {
                                    lemma_bit_test(mask.covered[y - mask.bottom_row], k2);
                                }
                            }
                            ' '
                        }
                    },
                };
                let c = if paint == ' ' {
                    if solid {
                        '.'
                    } else {
                        ' '
                    }
                } else if solid {
                    '!'
                } else {
                    paint
                };
                assert(c == cell_char(b, x as int, y as int));
                push_char(&mut out, c);
                assert(out@ =~= head + Seq::new((x + 1) as nat, |q: int| cell_char(b, q, y as int)));
                x = x + 1;
            }
            push_char(&mut out, '|');
            let right = if top - y < self.upcoming_minos.len() {
                letter(self.upcoming_minos[top - y])
            } else {
                ' '
            };
            push_char(&mut out, right);
            push_char(&mut out, '\n');
            proof {
                assert(x as nat == cell_count(b));
                assert(out@ =~= before + render_line(b, y as int));
            }
            k = k + 1;
        }
        out
    }
}

/// Lines, each followed by a line break.
pub open spec fn joined(ls: Seq<Seq<char>>) -> Seq<char>
    decreases ls.len(),
{
    if ls.len() == 0 {
        Seq::empty()
    } else {
        joined(ls.drop_last()) + ls.last().push('\n')
    }
}

proof fn lemma_split_append(s: Seq<char>, t: Seq<char>, sep: char)
    requires
        !t.contains(sep),
    ensures
        split_on(s + t, sep) == split_on(s, sep).update(
            split_on(s, sep).len() - 1,
            split_on(s, sep).last() + t,
        ),
    decreases t.len(),
{
    crate::ascii::lemma_split_on_nonempty(s, sep);
    if t.len() == 0 {
        assert(s + t =~= s);
        assert(split_on(s, sep).last() + t =~= split_on(s, sep).last());
        assert(split_on(s, sep).update(split_on(s, sep).len() - 1, split_on(s, sep).last())
            =~= split_on(s, sep));
    } else {
        let t0 = t.drop_last();
        assert(!t0.contains(sep)) by {
            if t0.contains(sep) {
                let w = choose|w: int| 0 <= w < t0.len() && t0[w] == sep;
                assert(t[w] == sep);
            }
        }
        lemma_split_append(s, t0, sep);
        assert((s + t).drop_last() =~= s + t0);
        assert((s + t).last() == t.last());
        assert(t.last() != sep) by {
            assert(t[t.len() - 1] == t.last());
        }
        let prev = split_on(s, sep);
        let p1 = split_on(s + t0, sep);
        crate::ascii::lemma_split_on_nonempty(s + t0, sep);
        assert(p1.last() == prev.last() + t0);
        assert(t0.push(t.last()) =~= t);
        assert((prev.last() + t0).push(t.last()) =~= prev.last() + t);
        assert(split_on(s + t, sep) == p1.update(p1.len() - 1, p1.last().push((s + t).last())));
        assert(p1.update(p1.len() - 1, p1.last().push(t.last())) =~= prev.update(
            prev.len() - 1,
            prev.last() + t,
        ));
    }
}

/// Splitting joined lines at the line breaks gives the lines back, and an
/// empty piece after the last break.
pub proof fn lemma_split_joined(ls: Seq<Seq<char>>)
    requires
        forall|i: int| 0 <= i < ls.len() ==> !(#[trigger] ls[i]).contains('\n'),
    ensures
        split_on(joined(ls), '\n') == ls.push(Seq::empty()),
    decreases ls.len(),
{
    if ls.len() == 0 {
        assert(split_on(Seq::<char>::empty(), '\n') =~= seq![Seq::<char>::empty()]);
        assert(ls.push(Seq::empty()) =~= seq![Seq::<char>::empty()]);
    } else {
        let prev = ls.drop_last();
        assert forall|i: int| 0 <= i < prev.len() implies !(#[trigger] prev[i]).contains('\n') by {
            assert(prev[i] == ls[i]);
        }
        lemma_split_joined(prev);
        let last = ls.last();
        assert(!last.contains('\n')) by {
            assert(ls[ls.len() - 1] == last);
        }
        lemma_split_append(joined(prev), last, '\n');
        let s1 = joined(prev) + last;
        assert(split_on(s1, '\n') =~= prev.push(last)) by {
            let sp = prev.push(Seq::<char>::empty());
            assert(sp.last() + last =~= last);
            assert(sp.update(sp.len() - 1, last) =~= prev.push(last));
        }
        assert(joined(ls) =~= s1.push('\n'));
        assert(s1.push('\n').drop_last() =~= s1);
        assert(prev.push(last) =~= ls);
    }
}

/// A line without '/' loses nothing to comments.
proof fn lemma_no_comment(l: Seq<char>)
    requires
        !l.contains('/'),
    ensures
        strip_comment(l) == l,
{
    assert forall|j: int| 0 <= j < l.len() implies !comment_at(l, j) by {
        if comment_at(l, j) {
            assert(l[j] == '/');
        }
    }
    crate::ascii::lemma_comment_start_unique(l, l.len() as int);
    assert(l.take(l.len() as int) =~= l);
}

/// Of lines that all hold a '|' and no '/', and an empty piece after them,
/// exactly the lines are read.
pub proof fn lemma_kept_all(ls: Seq<Seq<char>>)
    requires
        forall|i: int|
            0 <= i < ls.len() ==> (#[trigger] ls[i]).contains('|') && !ls[i].contains('/'),
    ensures
        kept_lines(ls.push(Seq::empty())) == ls,
        kept_lines(ls) == ls,
    decreases ls.len(),
{
    let raw = ls.push(Seq::<char>::empty());
    assert(raw.drop_last() =~= ls);
    assert(strip_comment(Seq::<char>::empty()) =~= Seq::<char>::empty());
    assert(!Seq::<char>::empty().contains('|'));
    if ls.len() > 0 {
        let prev = ls.drop_last();
        assert forall|i: int| 0 <= i < prev.len() implies (#[trigger] prev[i]).contains('|')
            && !prev[i].contains('/') by {
            assert(prev[i] == ls[i]);
        }
        lemma_kept_all(prev);
        assert(ls.last() == ls[ls.len() - 1]);
        lemma_no_comment(ls.last());
        assert(prev.push(ls.last()) =~= ls);
        assert(kept_lines(ls) == ls);
    }
    assert(raw.last() =~= Seq::<char>::empty());
    assert(kept_lines(raw) == kept_lines(ls));
}

/// The line of row `y` without its line break.
pub open spec fn content_line(b: BoardModel, y: int) -> Seq<char> {
    seq![left_mark(b, y), '|'] + Seq::new(cell_count(b), |x: int| cell_char(b, x, y)) + seq![
        '|',
        right_mark(b, y),
    ]
}

/// The first `k` lines of the drawing, without their line breaks.
pub open spec fn render_contents(b: BoardModel, k: int) -> Seq<Seq<char>> {
    Seq::new(k as nat, |i: int| content_line(b, render_top(b) - i))
}

proof fn lemma_render_joined(b: BoardModel, k: int)
    requires
        0 <= k,
    ensures
        render_lines(b, k) == joined(render_contents(b, k)),
    decreases k,
{
    if k > 0 {
        lemma_render_joined(b, k - 1);
        assert(render_contents(b, k).drop_last() =~= render_contents(b, k - 1));
        assert(render_line(b, render_top(b) - (k - 1)) =~= content_line(
            b,
            render_top(b) - (k - 1),
        ).push('\n'));
    } else {
        assert(render_contents(b, 0) =~= Seq::<Seq<char>>::empty());
    }
}

/// The characters that a side column of a drawing holds.
pub open spec fn mark_char(c: char) -> bool {
    c == ' ' || c == '_' || mino_of_letter(c) is Some
}

proof fn lemma_letter(t: MinoType)
    requires
        t.is_known(),
    ensures
        mino_of_letter(letter_or_space(Some(t))) == Some(t),
{
}

proof fn lemma_trim_single(c: char)
    ensures
        trim(seq![c]) == (if is_white_space(c) {
            Seq::<char>::empty()
        } else {
            seq![c]
        }),
{
    let s = seq![c];
    assert(s.drop_first() =~= Seq::<char>::empty());
    assert(s.drop_last() =~= Seq::<char>::empty());
    assert(trim_start(Seq::<char>::empty()) == Seq::<char>::empty());
    assert(trim_end(Seq::<char>::empty()) == Seq::<char>::empty());
    if is_white_space(c) {
        assert(trim_start(s) == trim_start(s.drop_first()));
    } else {
        assert(trim_start(s) == s);
        assert(trim_end(s) == s);
    }
}

/// The mark of a side column that holds one character.
proof fn lemma_side_mark_single(c: char)
    requires
        mark_char(c),
    ensures
        side_mark(seq![c]) == (if c == ' ' {
            None
        } else {
            Some(c)
        }),
{
    lemma_trim_single(c);
    if c != ' ' {
        assert(!is_white_space(c));
    }
}

/// The parts of a line of a drawing.
proof fn lemma_content_parts(b: BoardModel, y: int)
    requires
        mark_char(left_mark(b, y)),
        mark_char(right_mark(b, y)),
        forall|x: int|
            0 <= x < cell_count(b) ==> #[trigger] cell_char(b, x, y) == '.' || cell_char(b, x, y)
                == ' ',
    ensures
        bar1(content_line(b, y)) == 1,
        bar2(content_line(b, y)) == 2 + cell_count(b),
        left_part(content_line(b, y)) == seq![left_mark(b, y)],
        cells_part(content_line(b, y)) == Seq::new(cell_count(b), |x: int| cell_char(b, x, y)),
        right_part(content_line(b, y)) == seq![right_mark(b, y)],
        content_line(b, y).contains('|'),
        !content_line(b, y).contains('/'),
        !content_line(b, y).contains('\n'),
{
    let c = content_line(b, y);
    let w = cell_count(b) as int;
    let cells = Seq::new(cell_count(b), |x: int| cell_char(b, x, y));
    assert(c[0] == left_mark(b, y));
    assert(c[1] == '|');
    assert(c.len() == w + 4);
    assert forall|j: int| 0 <= j < c.len() implies #[trigger] c[j] != '/' && c[j] != '\n' by {
        if 2 <= j < 2 + w {
            assert(c[j] == cells[j - 2]);
        }
    }
    lemma_first_index_unique(c, '|', 1);
    let rest = c.skip(2);
    assert forall|j: int| 0 <= j < w implies rest[j] != '|' by {
        assert(rest[j] == cells[j]);
    }
    assert(rest[w] == '|');
    lemma_first_index_unique(rest, '|', w);
    assert(left_part(c) =~= seq![left_mark(b, y)]);
    assert(cells_part(c) =~= cells);
    assert(right_part(c) =~= seq![right_mark(b, y)]);
}

proof fn lemma_bits_equal(a: u16, b: u16)
    by (bit_vector)
    requires
        (a >> 0u16) & 1u16 == (b >> 0u16) & 1u16,
        (a >> 1u16) & 1u16 == (b >> 1u16) & 1u16,
        (a >> 2u16) & 1u16 == (b >> 2u16) & 1u16,
        (a >> 3u16) & 1u16 == (b >> 3u16) & 1u16,
        (a >> 4u16) & 1u16 == (b >> 4u16) & 1u16,
        (a >> 5u16) & 1u16 == (b >> 5u16) & 1u16,
        (a >> 6u16) & 1u16 == (b >> 6u16) & 1u16,
        (a >> 7u16) & 1u16 == (b >> 7u16) & 1u16,
        (a >> 8u16) & 1u16 == (b >> 8u16) & 1u16,
        (a >> 9u16) & 1u16 == (b >> 9u16) & 1u16,
        (a >> 10u16) & 1u16 == (b >> 10u16) & 1u16,
        (a >> 11u16) & 1u16 == (b >> 11u16) & 1u16,
        (a >> 12u16) & 1u16 == (b >> 12u16) & 1u16,
        (a >> 13u16) & 1u16 == (b >> 13u16) & 1u16,
        (a >> 14u16) & 1u16 == (b >> 14u16) & 1u16,
        (a >> 15u16) & 1u16 == (b >> 15u16) & 1u16,
    ensures
        a == b,
{
}

/// Two rows with the same bits are equal.
pub proof fn lemma_same_bits(a: u16, b: u16)
    requires
        forall|k: int| 0 <= k < 16 ==> (bit(a, k) <==> bit(b, k)),
    ensures
        a == b,
{
    assert(bit(a, 0) <==> bit(b, 0));
    assert(bit(a, 1) <==> bit(b, 1));
    assert(bit(a, 2) <==> bit(b, 2));
    assert(bit(a, 3) <==> bit(b, 3));
    assert(bit(a, 4) <==> bit(b, 4));
    assert(bit(a, 5) <==> bit(b, 5));
    assert(bit(a, 6) <==> bit(b, 6));
    assert(bit(a, 7) <==> bit(b, 7));
    assert(bit(a, 8) <==> bit(b, 8));
    assert(bit(a, 9) <==> bit(b, 9));
    assert(bit(a, 10) <==> bit(b, 10));
    assert(bit(a, 11) <==> bit(b, 11));
    assert(bit(a, 12) <==> bit(b, 12));
    assert(bit(a, 13) <==> bit(b, 13));
    assert(bit(a, 14) <==> bit(b, 14));
    assert(bit(a, 15) <==> bit(b, 15));
    lemma_bit_one(a, 0);
    lemma_bit_one(b, 0);
    lemma_bit_one(a, 1);
    lemma_bit_one(b, 1);
    lemma_bit_one(a, 2);
    lemma_bit_one(b, 2);
    lemma_bit_one(a, 3);
    lemma_bit_one(b, 3);
    lemma_bit_one(a, 4);
    lemma_bit_one(b, 4);
    lemma_bit_one(a, 5);
    lemma_bit_one(b, 5);
    lemma_bit_one(a, 6);
    lemma_bit_one(b, 6);
    lemma_bit_one(a, 7);
    lemma_bit_one(b, 7);
    lemma_bit_one(a, 8);
    lemma_bit_one(b, 8);
    lemma_bit_one(a, 9);
    lemma_bit_one(b, 9);
    lemma_bit_one(a, 10);
    lemma_bit_one(b, 10);
    lemma_bit_one(a, 11);
    lemma_bit_one(b, 11);
    lemma_bit_one(a, 12);
    lemma_bit_one(b, 12);
    lemma_bit_one(a, 13);
    lemma_bit_one(b, 13);
    lemma_bit_one(a, 14);
    lemma_bit_one(b, 14);
    lemma_bit_one(a, 15);
    lemma_bit_one(b, 15);
    lemma_bits_equal(a, b);
}

proof fn lemma_bit_one(a: u16, k: u16)
    by (bit_vector)
    requires
        k < 16,
    ensures
        (a >> k) & 1u16 == 1u16 || (a >> k) & 1u16 == 0u16,
{
}

/// A row drawn with '.' for its filled cells reads back as the row, when
/// nothing lies beyond the board's width.
proof fn lemma_row_round_trip(v: u16, w: int)
    requires
        0 <= w <= 16,
        forall|k: int| w <= k < 16 ==> !bit(v, k),
    ensures
        row_of_cells(
            Seq::new(
                w as nat,
                |x: int|
                    if bit(v, w - x - 1) {
                        '.'
                    } else {
                        ' '
                    },
            ),
        ) == v,
{
    let cells = Seq::new(
        w as nat,
        |x: int|
            if bit(v, w - x - 1) {
                '.'
            } else {
                ' '
            },
    );
    lemma_row_of_cells_bits(cells);
    let r = row_of_cells(cells);
    assert forall|k: int| 0 <= k < 16 implies (bit(r, k) <==> bit(v, k)) by {
        if k < w {
            assert(cells[w - 1 - k] == (if bit(v, k) {
                '.'
            } else {
                ' '
            }));
        }
    }
    lemma_same_bits(r, v);
}

proof fn lemma_width_prefix(ls: Seq<Seq<char>>, w: int, i: int)
    requires
        w > 0,
        0 <= i <= ls.len(),
        forall|j: int| 0 <= j < ls.len() ==> cells_part(#[trigger] ls[j]).len() == w,
    ensures
        art_width(ls.take(i)) == (if i == 0 {
            0
        } else {
            w
        }),
    decreases i,
{
    if i > 0 {
        lemma_width_prefix(ls, w, i - 1);
        assert(ls.take(i).drop_last() =~= ls.take(i - 1));
        assert(ls.take(i).last() == ls[i - 1]);
    } else {
        assert(ls.take(0) =~= Seq::<Seq<char>>::empty());
    }
}

proof fn lemma_marker_prefix(ls: Seq<Seq<char>>, i0: int, i: int)
    requires
        0 <= i <= ls.len(),
        0 <= i0,
        forall|j: int|
            0 <= j < ls.len() ==> (side_mark(left_part(#[trigger] ls[j])) == Some('_') <==> j
                == i0),
    ensures
        art_marker(ls.take(i)) == (if i0 < i {
            Some(i0)
        } else {
            None
        }),
    decreases i,
{
    if i > 0 {
        lemma_marker_prefix(ls, i0, i - 1);
        assert(ls.take(i).drop_last() =~= ls.take(i - 1));
        assert(ls.take(i).last() == ls[i - 1]);
    } else {
        assert(ls.take(0) =~= Seq::<Seq<char>>::empty());
    }
}

/// Whether a hold column names a piece.
pub open spec fn names_piece(m: Option<char>) -> bool {
    m is Some && m.unwrap() != '_'
}

proof fn lemma_hold_prefix(ls: Seq<Seq<char>>, ih: int, t: Option<MinoType>, i: int)
    requires
        0 <= i <= ls.len(),
        0 <= ih < ls.len(),
        forall|j: int|
            0 <= j < ls.len() ==> (names_piece(side_mark(left_part(#[trigger] ls[j]))) <==> (j
                == ih && t is Some)),
        t is Some ==> mino_of_letter(side_mark(left_part(ls[ih])).unwrap()) == t,
    ensures
        art_hold(ls.take(i)) == (if ih < i {
            t
        } else {
            None
        }),
    decreases i,
{
    if i > 0 {
        lemma_hold_prefix(ls, ih, t, i - 1);
        assert(ls.take(i).drop_last() =~= ls.take(i - 1));
        assert(ls.take(i).last() == ls[i - 1]);
    } else {
        assert(ls.take(0) =~= Seq::<Seq<char>>::empty());
    }
}

proof fn lemma_queue_prefix(ls: Seq<Seq<char>>, q: Seq<MinoType>, i: int)
    requires
        0 <= i <= ls.len(),
        q.len() <= ls.len(),
        forall|j: int|
            0 <= j < ls.len() ==> side_mark(right_part(#[trigger] ls[j])) == (if j < q.len() {
                Some(letter_or_space(Some(q[j])))
            } else {
                None
            }),
        forall|j: int| 0 <= j < q.len() ==> (#[trigger] q[j]).is_known(),
    ensures
        art_queue(ls.take(i)) == q.take(if i < q.len() {
            i
        } else {
            q.len() as int
        }),
    decreases i,
{
    if i > 0 {
        lemma_queue_prefix(ls, q, i - 1);
        assert(ls.take(i).drop_last() =~= ls.take(i - 1));
        assert(ls.take(i).last() == ls[i - 1]);
        if i - 1 < q.len() {
            lemma_letter(q[i - 1]);
            assert(q.take(i - 1).push(q[i - 1]) =~= q.take(i));
        }
    } else {
        assert(ls.take(0) =~= Seq::<Seq<char>>::empty());
        assert(q.take(0) =~= Seq::<MinoType>::empty());
    }
}

/// A board that its drawing shows completely: 1 to 16 columns, nothing
/// beyond its width, no empty row below a non-empty one and the top row
/// empty, the spawn row on the board, no falling piece, held and queued
/// pieces of known kinds, and a queue no longer than the drawing is high.
pub open spec fn drawn_fully(b: BoardModel) -> bool {
    &&& b.rows.len() == BOARD_HEIGHT
    &&& 1 <= b.width <= 16
    &&& forall|y: int, k: int|
        0 <= y < b.rows.len() && b.width <= k < 16 ==> !#[trigger] bit(b.rows[y], k)
    &&& gravity(b.rows)
    &&& b.rows[BOARD_HEIGHT - 1] == 0
    &&& b.spawn_height < BOARD_HEIGHT
    &&& b.active is None
    &&& (b.hold matches Some(t) ==> t.is_known())
    &&& forall|i: int| 0 <= i < b.upcoming.len() ==> (#[trigger] b.upcoming[i]).is_known()
    &&& b.upcoming.len() <= render_top(b) + 1
}

/// Every board that its drawing shows completely can be drawn.
proof fn lemma_drawn_renders(b: BoardModel)
    requires
        drawn_fully(b),
    ensures
        render_ok(b),
{
    lemma_first_empty_row(b.rows);
}

/// Reading the drawing of a board that it shows completely gives the board
/// back.
pub proof fn lemma_render_read_back(b: BoardModel)
    requires
        drawn_fully(b),
    ensures
        art_ok(render_text(b)),
        art_board(render_text(b)) == b,
{
    lemma_drawn_renders(b);
    let top = render_top(b);
    let n = top + 1;
    let w = b.width as int;
    let ls = render_contents(b, n);
    lemma_render_joined(b, n);
    let hold_y = hold_row(b);
    assert(hold_y != b.spawn_height);
    assert(hold_y <= top);
    assert(b.spawn_height <= top);
    // Every line splits into its marks and its cells.
    assert forall|i: int| 0 <= i < n implies {
        let y = top - i;
        &&& mark_char(left_mark(b, y))
        &&& mark_char(right_mark(b, y))
        &&& bar2(#[trigger] ls[i]) == 2 + w
        &&& left_part(ls[i]) == seq![left_mark(b, y)]
        &&& cells_part(ls[i]) == Seq::new(cell_count(b), |x: int| cell_char(b, x, y))
        &&& right_part(ls[i]) == seq![right_mark(b, y)]
        &&& ls[i].contains('|')
        &&& !ls[i].contains('/')
        &&& !ls[i].contains('\n')
        &&& ls[i].len() == w + 4
    } by {
        let y = top - i;
        if let Some(t) = b.hold {
            lemma_letter(t);
        }
        let k = top - y;
        if 0 <= k < b.upcoming.len() {
            lemma_letter(b.upcoming[k]);
        }
        lemma_content_parts(b, y);
    }
    lemma_split_joined(ls);
    lemma_kept_all(ls);
    assert(crate::ascii::art_lines(render_text(b)) == ls);
    // The side marks.
    assert forall|i: int| 0 <= i < n implies {
        let y = top - i;
        &&& side_mark(left_part(#[trigger] ls[i])) == (if left_mark(b, y) == ' ' {
            None
        } else {
            Some(left_mark(b, y))
        })
        &&& side_mark(right_part(ls[i])) == (if right_mark(b, y) == ' ' {
            None
        } else {
            Some(right_mark(b, y))
        })
    } by {
        let y = top - i;
        lemma_side_mark_single(left_mark(b, y));
        lemma_side_mark_single(right_mark(b, y));
    }
    // Width.
    lemma_width_prefix(ls, w, n);
    assert(ls.take(n) =~= ls);
    // Spawn marker.
    let i0 = top - b.spawn_height;
    assert forall|j: int| 0 <= j < n implies (side_mark(left_part(#[trigger] ls[j])) == Some('_')
        <==> j == i0) by {
        if let Some(t) = b.hold {
            lemma_letter(t);
        }
    }
    lemma_marker_prefix(ls, i0, n);
    // Held piece.
    let ih = top - hold_y;
    assert forall|j: int| 0 <= j < n implies (names_piece(side_mark(left_part(#[trigger] ls[j])))
        <==> (j == ih && b.hold is Some)) by {
        if let Some(t) = b.hold {
            lemma_letter(t);
        }
    }
    if let Some(t) = b.hold {
        lemma_letter(t);
    }
    lemma_hold_prefix(ls, ih, b.hold, n);
    // Queue.
    assert forall|j: int| 0 <= j < n implies side_mark(right_part(#[trigger] ls[j])) == (if j
        < b.upcoming.len() {
        Some(letter_or_space(Some(b.upcoming[j])))
    } else {
        None
    }) by {
        if j < b.upcoming.len() {
            lemma_letter(b.upcoming[j]);
        }
    }
    lemma_queue_prefix(ls, b.upcoming, n);
    assert(b.upcoming.take(b.upcoming.len() as int) =~= b.upcoming);
    // Rows.
    crate::render::lemma_first_empty_row(b.rows);
    assert forall|y: int| 0 <= y < BOARD_HEIGHT implies #[trigger] art_row(ls, y) == b.rows[y] by {
        if y < n {
            let i = n - 1 - y;
            assert(top - i == y);
            assert(Seq::new(cell_count(b), |x: int| cell_char(b, x, y)) =~= Seq::new(
                w as nat,
                |x: int|
                    if bit(b.rows[y], w - x - 1) {
                        '.'
                    } else {
                        ' '
                    },
            ));
            lemma_row_round_trip(b.rows[y], w);
        } else {
            let e = first_empty_row(b.rows);
            assert(b.rows[e] == 0);
        }
    }
    let r = art_board(render_text(b));
    assert(r.rows =~= b.rows);
    assert(r =~= b);
    // Every line can be read.
    assert forall|i: int| 0 <= i < n implies line_ok(ls, i) by {
        lemma_width_prefix(ls, w, i);
        lemma_marker_prefix(ls, i0, i);
        lemma_hold_prefix(ls, ih, b.hold, i);
        if let Some(t) = b.hold {
            lemma_letter(t);
        }
        let k = i;
        if 0 <= k < b.upcoming.len() {
            lemma_letter(b.upcoming[k]);
        }
        assert(side_blank(left_part(ls[i])) <==> side_mark(left_part(ls[i])) is None) by {
            lemma_trim_single(left_mark(b, top - i));
        }
        assert(side_blank(right_part(ls[i])) <==> side_mark(right_part(ls[i])) is None) by {
            lemma_trim_single(right_mark(b, top - i));
        }
    }
}

} // verus!
