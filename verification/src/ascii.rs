//! Boards drawn as text, the way the tests write them:
//!
//! ```text
//!     _|    |T      <- '_' marks the spawn row; T comes first in the queue
//!      |  ..|       <- one row of the board, '.' (anything but ' ') is filled
//!     I|.. .|       <- I is the held piece
//! ```
//!
//! Only lines that hold a '|' count (after "//" comments are cut off), the
//! last of them being the bottom row.
use vstd::prelude::*;

use crate::board::{Board, BoardModel, BOARD_HEIGHT};
use crate::messages::{mino_of_letter, MinoType};
use crate::mino::bit;

verus! {

/// The pieces of `s` between occurrences of `sep`, as `str::split` gives them.
pub open spec fn split_on(s: Seq<char>, sep: char) -> Seq<Seq<char>>
    decreases s.len(),
{
    if s.len() == 0 {
        seq![Seq::empty()]
    } else {
        let prev = split_on(s.drop_last(), sep);
        if s.last() == sep {
            prev.push(Seq::empty())
        } else {
            prev.update(prev.len() - 1, prev.last().push(s.last()))
        }
    }
}

/// The index of the first `c` in `l`, or the length of `l` if there is none.
pub open spec fn first_index(l: Seq<char>, c: char) -> int
    decreases l.len(),
{
    if l.len() == 0 {
        0
    } else if l[0] == c {
        0
    } else {
        1 + first_index(l.drop_first(), c)
    }
}

/// Whether a "//" starts at index `i` of `l`.
pub open spec fn comment_at(l: Seq<char>, i: int) -> bool {
    0 <= i && i + 1 < l.len() && l[i] == '/' && l[i + 1] == '/'
}

/// The index of the first "//" in `l`, or the length of `l` if there is none.
pub open spec fn comment_start(l: Seq<char>) -> int
    decreases l.len(),
{
    if l.len() < 2 {
        l.len() as int
    } else if l[0] == '/' && l[1] == '/' {
        0
    } else {
        1 + comment_start(l.drop_first())
    }
}

/// A line without its "//" comment.
pub open spec fn strip_comment(l: Seq<char>) -> Seq<char> {
    l.take(comment_start(l))
}

/// The characters with Unicode's White_Space property (`char::is_whitespace`).
pub open spec fn is_white_space(c: char) -> bool {
    let u = c as u32;
    ||| 0x9 <= u <= 0xd
    ||| u == 0x20
    ||| u == 0x85
    ||| u == 0xa0
    ||| u == 0x1680
    ||| 0x2000 <= u <= 0x200a
    ||| u == 0x2028
    ||| u == 0x2029
    ||| u == 0x202f
    ||| u == 0x205f
    ||| u == 0x3000
}

/// `s` without white space at its start.
pub open spec fn trim_start(s: Seq<char>) -> Seq<char>
    decreases s.len(),
{
    if s.len() > 0 && is_white_space(s[0]) {
        trim_start(s.drop_first())
    } else {
        s
    }
}

/// `s` without white space at its end.
pub open spec fn trim_end(s: Seq<char>) -> Seq<char>
    decreases s.len(),
{
    if s.len() > 0 && is_white_space(s.last()) {
        trim_end(s.drop_last())
    } else {
        s
    }
}

/// `s` without white space at either end.
pub open spec fn trim(s: Seq<char>) -> Seq<char> {
    trim_end(trim_start(s))
}

/// The lines that a drawing is read from: every line of the text, cut at its
/// "//", that holds a '|'.
pub open spec fn kept_lines(raw: Seq<Seq<char>>) -> Seq<Seq<char>>
    decreases raw.len(),
{
    if raw.len() == 0 {
        Seq::empty()
    } else {
        let kept = kept_lines(raw.drop_last());
        let l = strip_comment(raw.last());
        if l.contains('|') {
            kept.push(l)
        } else {
            kept
        }
    }
}

/// The lines that a drawing is read from.
pub open spec fn art_lines(art: Seq<char>) -> Seq<Seq<char>> {
    kept_lines(split_on(art, '\n'))
}

/// Splitting gives at least one piece.
pub proof fn lemma_split_on_nonempty(s: Seq<char>, sep: char)
    ensures
        split_on(s, sep).len() >= 1,
    decreases s.len(),
{
    if s.len() > 0 {
        lemma_split_on_nonempty(s.drop_last(), sep);
    }
}

/// `first_index` is the index of the first `c`, or the length if there is none.
pub proof fn lemma_first_index(l: Seq<char>, c: char)
    ensures
        0 <= first_index(l, c) <= l.len(),
        forall|j: int| 0 <= j < first_index(l, c) ==> l[j] != c,
        first_index(l, c) < l.len() ==> l[first_index(l, c)] == c,
    decreases l.len(),
{
    if l.len() > 0 && l[0] != c {
        let t = l.drop_first();
        lemma_first_index(t, c);
        assert forall|j: int| 0 <= j < first_index(l, c) implies l[j] != c by {
            if j > 0 {
                assert(l[j] == t[j - 1]);
            }
        }
    }
}

/// An index before which no `c` occurs, and at which `c` occurs unless it is
/// the length, is `first_index`.
pub proof fn lemma_first_index_unique(l: Seq<char>, c: char, k: int)
    requires
        0 <= k <= l.len(),
        forall|j: int| 0 <= j < k ==> l[j] != c,
        k < l.len() ==> l[k] == c,
    ensures
        k == first_index(l, c),
{
    lemma_first_index(l, c);
    let f = first_index(l, c);
    if k < f {
        assert(l[k] == c);
    } else if f < k {
        assert(l[f] == c);
    }
}

proof fn lemma_comment_start(l: Seq<char>)
    ensures
        0 <= comment_start(l) <= l.len(),
        forall|j: int| 0 <= j < comment_start(l) ==> !comment_at(l, j),
        comment_start(l) < l.len() ==> comment_at(l, comment_start(l)),
    decreases l.len(),
{
    if l.len() >= 2 && !(l[0] == '/' && l[1] == '/') {
        let t = l.drop_first();
        lemma_comment_start(t);
        assert forall|j: int| 0 <= j < comment_start(l) implies !comment_at(l, j) by {
            if j > 0 {
                assert(!comment_at(t, j - 1));
                assert(l[j] == t[j - 1]);
                if j + 1 < l.len() {
                    assert(l[j + 1] == t[j]);
                }
            }
        }
        if comment_start(l) < l.len() {
            let k = comment_start(t);
            assert(comment_at(t, k));
            assert(l[k + 1] == t[k]);
            assert(l[k + 2] == t[k + 1]);
        }
    }
}

/// An index before which no "//" starts, and at which one starts unless it is
/// the length, is `comment_start`.
pub proof fn lemma_comment_start_unique(l: Seq<char>, k: int)
    requires
        0 <= k <= l.len(),
        forall|j: int| 0 <= j < k ==> !comment_at(l, j),
        k < l.len() ==> comment_at(l, k),
    ensures
        k == comment_start(l),
{
    lemma_comment_start(l);
    let f = comment_start(l);
    if k < f {
        assert(comment_at(l, k));
    } else if f < k {
        assert(comment_at(l, f));
    }
}

fn collect_chars(s: &str) -> (r: Vec<char>)
    ensures
        r@ == s@,
{
    let mut out: Vec<char> = Vec::new();
    for c in it: s.chars()
        invariant
            out@ == it.seq().take(it.index() as int),
    {
        out.push(c);
    }
    assert(out@ =~= s@);
    out
}

/// The index of the first `c` at or after `from`, or the length of `l`.
fn find_char(l: &Vec<char>, from: usize, c: char) -> (r: usize)
    requires
        from <= l.len(),
    ensures
        r == from + first_index(l@.skip(from as int), c),
        from <= r <= l.len(),
{
    let mut i = from;
    while i < l.len() && l[i] != c
        invariant
            from <= i <= l.len(),
            forall|j: int| from <= j < i ==> l@[j] != c,
        decreases l.len() - i,
    {
        i = i + 1;
    }
    proof {
        let t = l@.skip(from as int);
        assert forall|j: int| 0 <= j < i - from implies t[j] != c by {
            assert(t[j] == l@[from + j]);
        }
        lemma_first_index_unique(t, c, i - from);
    }
    i
}

fn is_white_space_char(c: char) -> (r: bool)
    ensures
        r == is_white_space(c),
{
    let u = c as u32;
    (0x9 <= u && u <= 0xd) || u == 0x20 || u == 0x85 || u == 0xa0 || u == 0x1680 || (0x2000 <= u
        && u <= 0x200a) || u == 0x2028 || u == 0x2029 || u == 0x202f || u == 0x205f || u == 0x3000
}

/// The bounds of `l[a..b]` without white space at either end.
fn trim_range(l: &Vec<char>, a: usize, b: usize) -> (r: (usize, usize))
    requires
        a <= b <= l.len(),
    ensures
        a <= r.0 <= r.1 <= b,
        l@.subrange(r.0 as int, r.1 as int) == trim(l@.subrange(a as int, b as int)),
{
    let ghost s = l@.subrange(a as int, b as int);
    let mut lo = a;
    while lo < b && is_white_space_char(l[lo])
        invariant
            a <= lo <= b <= l.len(),
            s == l@.subrange(a as int, b as int),
            trim_start(l@.subrange(lo as int, b as int)) == trim_start(s),
        decreases b - lo,
    {
        assert(l@.subrange(lo as int, b as int).drop_first() =~= l@.subrange(
            lo + 1,
            b as int,
        ));
        lo = lo + 1;
    }
    let mut hi = b;
    while hi > lo && is_white_space_char(l[hi - 1])
        invariant
            a <= lo <= hi <= b <= l.len(),
            s == l@.subrange(a as int, b as int),
            trim_start(s) == l@.subrange(lo as int, b as int),
            trim_end(l@.subrange(lo as int, hi as int)) == trim_end(trim_start(s)),
        decreases hi - lo,
    {
        assert(l@.subrange(lo as int, hi as int).drop_last() =~= l@.subrange(
            lo as int,
            hi - 1,
        ));
        hi = hi - 1;
    }
    (lo, hi)
}

/// The line `line` cut at its "//", added to `out` if it holds a '|'.
fn keep_line(out: &mut Vec<Vec<char>>, line: Vec<char>)
    ensures
        final(out)@.map_values(|v: Vec<char>| v@) == (if strip_comment(line@).contains('|') {
            old(out)@.map_values(|v: Vec<char>| v@).push(strip_comment(line@))
        } else {
            old(out)@.map_values(|v: Vec<char>| v@)
        }),
{
    let n = line.len();
    let mut k: usize = 0;
    while k < n && !(k + 1 < n && line[k] == '/' && line[k + 1] == '/')
        invariant
            k <= n == line.len(),
            forall|j: int| 0 <= j < k ==> !comment_at(line@, j),
        decreases n - k,
    {
        k = k + 1;
    }
    proof {
        lemma_comment_start_unique(line@, k as int);
    }
    let ghost kept = strip_comment(line@);
    let mut part: Vec<char> = Vec::new();
    let mut has_bar = false;
    let mut i: usize = 0;
    while i < k
        invariant
            i <= k <= n == line.len(),
            kept == line@.take(k as int),
            part@ == line@.take(i as int),
            has_bar <==> part@.contains('|'),
        decreases k - i,
    {
        let c = line[i];
        proof {
            assert(line@.take(i + 1) =~= part@.push(c));
            if part@.contains('|') {
                let w = choose|w: int| 0 <= w < part@.len() && part@[w] == '|';
                assert(part@.push(c)[w] == '|');
            }
            if c == '|' {
                assert(part@.push(c)[i as int] == '|');
            }
            if part@.push(c).contains('|') && c != '|' {
                let w = choose|w: int| 0 <= w < part@.push(c).len() && part@.push(c)[w] == '|';
                assert(part@[w] == '|');
            }
        }
        part.push(c);
        has_bar = has_bar || c == '|';
        i = i + 1;
    }
    assert(part@ =~= kept);
    if has_bar {
        let ghost before = out@.map_values(|v: Vec<char>| v@);
        out.push(part);
        assert(out@.map_values(|v: Vec<char>| v@) =~= before.push(kept));
    }
}

/// The lines of a drawing that hold a '|', each cut at its "//".
fn art_lines_of(chars: &Vec<char>) -> (r: Vec<Vec<char>>)
    ensures
        r@.map_values(|v: Vec<char>| v@) == kept_lines(split_on(chars@, '\n')),
{
    let mut out: Vec<Vec<char>> = Vec::new();
    let mut cur: Vec<char> = Vec::new();
    let ghost mut raw: Seq<Seq<char>> = Seq::empty();
    let mut k: usize = 0;
    assert(chars@.take(0) =~= Seq::<char>::empty());
    while k < chars.len()
        invariant
            k <= chars.len(),
            split_on(chars@.take(k as int), '\n') == raw.push(cur@),
            out@.map_values(|v: Vec<char>| v@) == kept_lines(raw),
        decreases chars.len() - k,
    {
        let c = chars[k];
        let ghost s = chars@.take(k + 1);
        assert(s.drop_last() =~= chars@.take(k as int));
        if c == '\n' {
            let line = cur;
            cur = Vec::new();
            keep_line(&mut out, line);
            proof {
                let r2 = raw.push(line@);
                assert(r2.drop_last() =~= raw);
                raw = r2;
                assert(split_on(s, '\n') =~= raw.push(cur@));
            }
        } else {
            let ghost before = cur@;
            cur.push(c);
            assert(split_on(s, '\n') =~= raw.push(cur@)) by {
                assert(raw.push(before).update(raw.len() as int, before.push(c)) =~= raw.push(cur@));
            }
        }
        k = k + 1;
    }
    assert(chars@.take(chars.len() as int) =~= chars@);
    let ghost last = cur@;
    keep_line(&mut out, cur);
    assert(raw.push(last).drop_last() =~= raw);
    out
}

/// The index of the first '|' of a line.
pub open spec fn bar1(l: Seq<char>) -> int {
    first_index(l, '|')
}

/// The index of the second '|' of a line.
pub open spec fn bar2(l: Seq<char>) -> int {
    bar1(l) + 1 + first_index(l.skip(bar1(l) + 1), '|')
}

/// What a line holds left of its first '|': the hold column.
pub open spec fn left_part(l: Seq<char>) -> Seq<char> {
    l.take(bar1(l))
}

/// What a line holds between its first two '|': the cells of one row.
pub open spec fn cells_part(l: Seq<char>) -> Seq<char> {
    l.subrange(bar1(l) + 1, bar2(l))
}

/// What a line holds right of its second '|': the queue column.
pub open spec fn right_part(l: Seq<char>) -> Seq<char> {
    l.skip(bar2(l) + 1)
}

/// The one character that a side column holds besides white space, if it
/// holds exactly one.
pub open spec fn side_mark(s: Seq<char>) -> Option<char> {
    let t = trim(s);
    if t.len() == 1 {
        Some(t[0])
    } else {
        None
    }
}

/// Whether a side column holds nothing but white space.
pub open spec fn side_blank(s: Seq<char>) -> bool {
    trim(s).len() == 0
}

/// A row of cells as a bitmask: the first cell is the highest bit, and a
/// cell is filled unless it is a space.
pub open spec fn row_of_cells(cells: Seq<char>) -> u16
    decreases cells.len(),
{
    if cells.len() == 0 {
        0
    } else {
        (row_of_cells(cells.drop_last()) << 1u16) | (if cells.last() == ' ' {
            0u16
        } else {
            1u16
        })
    }
}

/// The width of a drawing: the number of cells of its first row that has any.
pub open spec fn art_width(lines: Seq<Seq<char>>) -> int
    decreases lines.len(),
{
    if lines.len() == 0 {
        0
    } else {
        let w = art_width(lines.drop_last());
        if w == 0 {
            cells_part(lines.last()).len() as int
        } else {
            w
        }
    }
}

/// The index of the last line marked '_' in its hold column.
pub open spec fn art_marker(lines: Seq<Seq<char>>) -> Option<int>
    decreases lines.len(),
{
    if lines.len() == 0 {
        None
    } else if side_mark(left_part(lines.last())) == Some('_') {
        Some(lines.len() - 1)
    } else {
        art_marker(lines.drop_last())
    }
}

/// The piece named in the hold column, by its last line that names one.
pub open spec fn art_hold(lines: Seq<Seq<char>>) -> Option<MinoType>
    decreases lines.len(),
{
    if lines.len() == 0 {
        None
    } else {
        let m = side_mark(left_part(lines.last()));
        if m is Some && m.unwrap() != '_' {
            mino_of_letter(m.unwrap())
        } else {
            art_hold(lines.drop_last())
        }
    }
}

/// The pieces named in the queue column, top line first.
pub open spec fn art_queue(lines: Seq<Seq<char>>) -> Seq<MinoType>
    decreases lines.len(),
{
    if lines.len() == 0 {
        Seq::empty()
    } else {
        let q = art_queue(lines.drop_last());
        let m = side_mark(right_part(lines.last()));
        if m is Some && mino_of_letter(m.unwrap()) is Some {
            q.push(mino_of_letter(m.unwrap()).unwrap())
        } else {
            q
        }
    }
}

/// Line `i` of a drawing can be read after the lines above it: it has two
/// '|'; its hold column is blank, the spawn marker '_' (the first one) or a
/// piece letter (the first one); it has at most 16 cells, as many as the rows
/// above that have any; and its queue column is blank or a piece letter.
pub open spec fn line_ok(lines: Seq<Seq<char>>, i: int) -> bool {
    let l = lines[i];
    let prev = lines.take(i);
    let hold = side_mark(left_part(l));
    let queue = side_mark(right_part(l));
    &&& bar2(l) < l.len()
    &&& side_blank(left_part(l)) || (hold is Some && (hold.unwrap() == '_' || mino_of_letter(
        hold.unwrap(),
    ) is Some))
    &&& hold == Some('_') ==> art_marker(prev) is None
    &&& (hold is Some && hold.unwrap() != '_') ==> art_hold(prev) is None
    &&& cells_part(l).len() <= 16
    &&& art_width(prev) == 0 || cells_part(l).len() == art_width(prev)
    &&& side_blank(right_part(l)) || (queue is Some && mino_of_letter(queue.unwrap()) is Some)
}

/// A drawing that can be read: at most one line per board row, each line
/// readable.
pub open spec fn art_ok(art: Seq<char>) -> bool {
    let lines = art_lines(art);
    &&& lines.len() <= BOARD_HEIGHT
    &&& forall|i: int| 0 <= i < lines.len() ==> line_ok(lines, i)
}

/// The row `y` of a board drawn with `lines`, the last line being row 0.
pub open spec fn art_row(lines: Seq<Seq<char>>, y: int) -> u16 {
    if 0 <= y < lines.len() {
        row_of_cells(cells_part(lines[lines.len() - 1 - y]))
    } else {
        0
    }
}

/// The board that a drawing shows, with no falling piece; without a spawn
/// marker, pieces spawn just above the drawn rows.
pub open spec fn art_board(art: Seq<char>) -> BoardModel {
    let lines = art_lines(art);
    let n = lines.len();
    BoardModel {
        rows: Seq::new(BOARD_HEIGHT as nat, |y: int| art_row(lines, y)),
        width: art_width(lines) as i8,
        active: None,
        hold: art_hold(lines),
        upcoming: art_queue(lines),
        spawn_height: match art_marker(lines) {
            Some(i) => (n - 1 - i) as usize,
            None => n as usize,
        },
    }
}

proof fn lemma_shift_in(p: u16, b: u16, k: u16)
    by (bit_vector)
    requires
        b <= 1,
        k < 16,
    ensures
        ((((p << 1u16) | b) >> k) & 1u16 == 1u16) == (if k == 0 {
            b == 1u16
        } else {
            (p >> ((k - 1) as u16)) & 1u16 == 1u16
        }),
{
}

proof fn lemma_zero_bits(k: u16)
    by (bit_vector)
    ensures
        (0u16 >> k) & 1u16 != 1u16,
{
}

/// Bit `k` of a row is set exactly when the `k`-th cell from the right is
/// filled.
pub proof fn lemma_row_of_cells_bits(cells: Seq<char>)
    requires
        cells.len() <= 16,
    ensures
        forall|k: int|
            0 <= k < 16 ==> (bit(row_of_cells(cells), k) <==> (k < cells.len() && cells[cells.len()
                - 1 - k] != ' ')),
    decreases cells.len(),
{
    if cells.len() == 0 {
        assert forall|k: int| 0 <= k < 16 implies !bit(row_of_cells(cells), k) by {
            lemma_zero_bits(k as u16);
        }
    } else {
        let prev = cells.drop_last();
        lemma_row_of_cells_bits(prev);
        let p = row_of_cells(prev);
        let b: u16 = if cells.last() == ' ' {
            0u16
        } else {
            1u16
        };
        assert forall|k: int| 0 <= k < 16 implies (bit(row_of_cells(cells), k) <==> (k
            < cells.len() && cells[cells.len() - 1 - k] != ' ')) by {
            lemma_shift_in(p, b, k as u16);
            if k > 0 {
                assert(bit(p, k - 1) == ((p >> ((k - 1) as u16)) & 1u16 == 1u16));
                if k < cells.len() {
                    assert(cells[cells.len() - 1 - k] == prev[prev.len() - 1 - (k - 1)]);
                }
            }
        }
    }
}

/// The bitmask of the cells `l[a..b]`.
fn cells_value(l: &Vec<char>, a: usize, b: usize) -> (r: u16)
    requires
        a <= b <= l.len(),
    ensures
        r == row_of_cells(l@.subrange(a as int, b as int)),
{
    let mut acc: u16 = 0;
    let mut x = a;
    assert(l@.subrange(a as int, a as int) =~= Seq::<char>::empty());
    while x < b
        invariant
            a <= x <= b <= l.len(),
            acc == row_of_cells(l@.subrange(a as int, x as int)),
        decreases b - x,
    {
        assert(l@.subrange(a as int, x + 1).drop_last() =~= l@.subrange(a as int, x as int));
        let cell: u16 = if l[x] == ' ' {
            0
        } else {
            1
        };
        acc = (acc << 1u16) | cell;
        x = x + 1;
    }
    acc
}

/// The indices of the first two '|' of a line.
fn line_bars(l: &Vec<char>) -> (r: (usize, usize))
    requires
        bar2(l@) < l.len(),
    ensures
        r.0 == bar1(l@),
        r.1 == bar2(l@),
        r.0 < r.1 < l.len(),
{
    assert(l@.skip(0) =~= l@);
    let b1 = find_char(l, 0, '|');
    proof {
        lemma_first_index(l@.skip(b1 + 1), '|');
    }
    let b2 = find_char(l, b1 + 1, '|');
    (b1, b2)
}

impl Board {
    /// Reads a board from a drawing (see the module's documentation).
    pub fn from_ascii_art(art: &str) -> (r: Board)
        requires
            art_ok(art@),
        ensures
            r@ == art_board(art@),
    {
        let chars = collect_chars(art);
        let lines = art_lines_of(&chars);
        let ghost ls = art_lines(art@);
        let n = lines.len();
        let mut board = Board::new();
        board.spawn_height = n;
        board.width = 0;
        let mut i: usize = 0;
        assert(ls.take(0) =~= Seq::<Seq<char>>::empty());
        while i < n
            invariant
                n == lines.len() == ls.len() <= BOARD_HEIGHT,
                lines@.map_values(|v: Vec<char>| v@) == ls,
                forall|j: int| 0 <= j < n ==> line_ok(ls, j),
                i <= n,
                0 <= art_width(ls.take(i as int)) <= 16,
                board.width == art_width(ls.take(i as int)) as i8,
                board.hold == art_hold(ls.take(i as int)),
                board.upcoming_minos@ == art_queue(ls.take(i as int)),
                board.spawn_height == (match art_marker(ls.take(i as int)) {
                    Some(j) => (n - 1 - j) as usize,
                    None => n,
                }),
                board.active_mino is None,
                forall|y: int|
                    0 <= y < BOARD_HEIGHT ==> #[trigger] board.rows@[y] == (if n - i <= y < n {
                        art_row(ls, y)
                    } else {
                        0u16
                    }),
            decreases n - i,
        {
            let line = &lines[i];
            let ghost l = ls[i as int];
            let ghost prev = ls.take(i as int);
            let ghost next = ls.take(i + 1);
            proof {
                assert(line@ == l);
                assert(next.drop_last() =~= prev);
                assert(next.last() == l);
                assert(line_ok(ls, i as int));
                assert(ls.take(i as int) == prev);
            }
            let (b1, b2) = line_bars(line);
            let (lo, hi) = trim_range(line, 0, b1);
            assert(left_part(l) =~= l.subrange(0, b1 as int));
            if hi - lo == 1 {
                let c = line[lo];
                assert(side_mark(left_part(l)) == Some(c));
                if c == '_' {
                    board.spawn_height = n - 1 - i;
                } else {
                    board.hold = Some(MinoType::from_letter(c));
                }
            } else {
                assert(side_mark(left_part(l)) is None);
            }
            if board.width == 0 {
                board.width = (b2 - b1 - 1) as i8;
            }
            let row = cells_value(line, b1 + 1, b2);
            board.rows[n - 1 - i] = row;
            let (lo2, hi2) = trim_range(line, b2 + 1, line.len());
            assert(right_part(l) =~= l.subrange(b2 + 1, l.len() as int));
            if hi2 - lo2 == 1 {
                let c = line[lo2];
                assert(side_mark(right_part(l)) == Some(c));
                board.upcoming_minos.push_back(MinoType::from_letter(c));
            } else {
                assert(side_mark(right_part(l)) is None);
            }
            i = i + 1;
        }
        assert(ls.take(n as int) =~= ls);
        assert(board.rows@ =~= art_board(art@).rows);
        board
    }

    /// Appends the pieces named by the letters of `upcoming_minos` to the
    /// queue.
    pub fn add_upcoming_minos_from_str(&mut self, upcoming_minos: &str)
        requires
            forall|i: int|
                0 <= i < upcoming_minos@.len() ==> mino_of_letter(#[trigger] upcoming_minos@[i]) is Some,
        ensures
            final(self).upcoming_minos@ == old(self).upcoming_minos@ + upcoming_minos@.map_values(
                |c: char| mino_of_letter(c).unwrap(),
            ),
            final(self).rows == old(self).rows,
            final(self).width == old(self).width,
            final(self).active_mino == old(self).active_mino,
            final(self).hold == old(self).hold,
            final(self).spawn_height == old(self).spawn_height,
    {
        let chars = collect_chars(upcoming_minos);
        let mut i: usize = 0;
        while i < chars.len()
            invariant
                i <= chars.len(),
                chars@ == upcoming_minos@,
                forall|j: int| 0 <= j < chars@.len() ==> mino_of_letter(#[trigger] chars@[j]) is Some,
                self.upcoming_minos@ == old(self).upcoming_minos@ + chars@.take(i as int).map_values(
                    |c: char| mino_of_letter(c).unwrap(),
                ),
                self.rows == old(self).rows,
                self.width == old(self).width,
                self.active_mino == old(self).active_mino,
                self.hold == old(self).hold,
                self.spawn_height == old(self).spawn_height,
            decreases chars.len() - i,
        {
            let t = MinoType::from_letter(chars[i]);
            self.upcoming_minos.push_back(t);
            assert(chars@.take(i + 1).map_values(|c: char| mino_of_letter(c).unwrap())
                =~= chars@.take(i as int).map_values(|c: char| mino_of_letter(c).unwrap()).push(t));
            i = i + 1;
        }
        assert(chars@.take(chars.len() as int) =~= chars@);
    }
}

} // verus!
