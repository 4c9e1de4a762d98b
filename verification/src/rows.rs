//! Facts about sequences of rows: filtering, placing a mask, falling.
use vstd::prelude::*;

use crate::board::{
    BOARD_HEIGHT,
    gravity,
    hits,
    fall,
    place_mask,
    not_full,
    full_row_of,
};
use crate::mino::MaskView;

verus! {

/// Filtering a prefix one element longer adds that element when it passes.
pub proof fn lemma_filter_step<A>(s: Seq<A>, p: spec_fn(A) -> bool, n: int)
    requires
        0 <= n < s.len(),
    ensures
        s.take(n + 1).filter(p) == s.take(n).filter(p) + (if p(s[n]) {
            seq![s[n]]
        } else {
            Seq::<A>::empty()
        }),
{
    reveal(Seq::filter);
    assert(s.take(n + 1).drop_last() =~= s.take(n));
    assert(s.take(n + 1).last() == s[n]);
    if p(s[n]) {
        assert(s.take(n).filter(p).push(s[n]) =~= s.take(n).filter(p) + seq![s[n]]);
    } else {
        assert(s.take(n).filter(p) =~= s.take(n).filter(p) + Seq::<A>::empty());
    }
}

/// Filtering keeps a sequence whose elements all pass.
pub proof fn lemma_filter_all<A>(s: Seq<A>, p: spec_fn(A) -> bool)
    requires
        forall|i: int| 0 <= i < s.len() ==> #[trigger] p(s[i]),
    ensures
        s.filter(p) == s,
    decreases s.len(),
{
    reveal(Seq::filter);
    if s.len() > 0 {
        lemma_filter_all(s.drop_last(), p);
        assert(s.drop_last().push(s.last()) =~= s);
    }
}

/// What holds of every element of a sequence holds of every element that a
/// filter keeps.
pub proof fn lemma_filter_keeps<A>(s: Seq<A>, p: spec_fn(A) -> bool, q: spec_fn(A) -> bool)
    requires
        forall|i: int| 0 <= i < s.len() ==> #[trigger] q(s[i]),
    ensures
        forall|i: int| 0 <= i < s.filter(p).len() ==> #[trigger] q(s.filter(p)[i]),
        forall|i: int| 0 <= i < s.filter(p).len() ==> #[trigger] p(s.filter(p)[i]),
    decreases s.len(),
{
    reveal(Seq::filter);
    broadcast use vstd::seq_lib::group_filter_ensures;
    if s.len() > 0 {
        lemma_filter_keeps(s.drop_last(), p, q);
        let sub = s.drop_last().filter(p);
        assert forall|i: int| 0 <= i < s.filter(p).len() implies #[trigger] q(s.filter(p)[i]) by {
            if i < sub.len() {
                assert(s.filter(p)[i] == sub[i]);
            } else {
                assert(s.filter(p)[i] == s.last());
            }
        }
    }
}

/// A sequence of rows is kept whole by the "not full" filter when no row in it
/// is full.
pub proof fn lemma_no_full_kept(s: Seq<u16>, width: int)
    requires
        forall|i: int| 0 <= i < s.len() ==> #[trigger] s[i] != full_row_of(width),
    ensures
        s.filter(not_full(width)) == s,
{
    assert forall|i: int| 0 <= i < s.len() implies #[trigger] not_full(width)(s[i]) by {}
    lemma_filter_all(s, not_full(width));
}

/// The number of rows of a prefix of length `n` that lie in `[lo, lo + 4)`.
pub open spec fn rows_in_window(n: int, lo: int) -> int {
    let top = if n < lo + 4 { n } else { lo + 4 };
    let bot = if n < lo { n } else { lo };
    top - bot
}

/// When every full row lies in `[lo, lo + 4)`, the "not full" filter drops from
/// a prefix at most the rows of the prefix that lie in that window: so at most
/// four, and none of a prefix ending at `lo`.
pub proof fn lemma_filter_prefix_len(s: Seq<u16>, width: int, lo: int, n: int)
    requires
        0 <= lo,
        0 <= n <= s.len(),
        forall|j: int|
            0 <= j < s.len() && #[trigger] s[j] == full_row_of(width) ==> lo <= j < lo + 4,
    ensures
        s.take(n).filter(not_full(width)).len() >= n - rows_in_window(n, lo),
        s.take(n).filter(not_full(width)).len() >= n - 4,
        s.take(n).filter(not_full(width)).len() <= n,
        n <= lo ==> s.take(n).filter(not_full(width)).len() == n,
    decreases n,
{
    reveal(Seq::filter);
    if n > 0 {
        lemma_filter_prefix_len(s, width, lo, n - 1);
        lemma_filter_step(s, not_full(width), n - 1);
    }
}

/// Where a falling mask stops: between the floor and its start, on the floor
/// or right above a row at which it hits, and either at its start or at a row
/// at which it does not hit.
pub proof fn lemma_fall(rows: Seq<u16>, covered: Seq<u16>, bottom: int, floor: int)
    requires
        floor <= bottom,
    ensures
        floor <= fall(rows, covered, bottom, floor) <= bottom,
        fall(rows, covered, bottom, floor) == floor || hits(
            rows,
            MaskView { bottom_row: fall(rows, covered, bottom, floor) - 1, covered },
        ),
        fall(rows, covered, bottom, floor) == bottom || !hits(
            rows,
            MaskView { bottom_row: fall(rows, covered, bottom, floor), covered },
        ),
    decreases bottom - floor,
{
    if bottom > floor && !hits(rows, MaskView { bottom_row: bottom - 1, covered }) {
        lemma_fall(rows, covered, bottom - 1, floor);
    }
}

proof fn lemma_or_zero(x: u16, y: u16)
    by (bit_vector)
    ensures
        y != 0 ==> x | y != 0,
        y == 0 ==> x | y == x,
{
}

/// Placing a mask that rests on the floor or on a non-empty row, whose lowest
/// `h` rows are non-empty and whose other rows are empty, keeps the rows free
/// of empty rows below non-empty ones, and leaves every row below its top
/// non-empty.
pub proof fn lemma_place_gravity(rows: Seq<u16>, mask: MaskView, h: int)
    requires
        gravity(rows),
        rows.len() == BOARD_HEIGHT,
        mask.covered.len() == 4,
        0 <= mask.bottom_row,
        mask.bottom_row + 4 <= rows.len(),
        mask.bottom_row == 0 || rows[mask.bottom_row - 1] != 0,
        1 <= h <= 4,
        forall|r: int| 0 <= r < h ==> #[trigger] mask.covered[r] != 0,
        forall|r: int| h <= r < 4 ==> #[trigger] mask.covered[r] == 0,
    ensures
        gravity(place_mask(rows, mask)),
        forall|j: int| 0 <= j < mask.bottom_row + h ==> #[trigger] place_mask(rows, mask)[j] != 0,
        forall|j: int|
            0 <= j < rows.len() && !(mask.bottom_row <= j < mask.bottom_row + h) ==> #[trigger] place_mask(
                rows,
                mask,
            )[j] == rows[j],
{
    let b = mask.bottom_row;
    let placed = place_mask(rows, mask);
    assert forall|j: int| 0 <= j < b + h implies #[trigger] placed[j] != 0 by {
        if j < b {
            if rows[j] == 0 {
                assert(rows[b - 1] == 0);
            }
        } else {
            lemma_or_zero(rows[j], mask.covered[j - b]);
        }
    }
    assert forall|j: int|
        0 <= j < rows.len() && !(b <= j < b + h) implies #[trigger] placed[j] == rows[j] by {
        if b <= j < b + 4 {
            lemma_or_zero(rows[j], mask.covered[j - b]);
        }
    }
    assert forall|i: int, j: int|
        #![trigger placed[i], placed[j]]
        0 <= i < j < placed.len() && placed[i] == 0 implies placed[j] == 0 by {
        assert(i >= b + h);
        assert(placed[i] == rows[i]);
        assert(rows[j] == 0);
        assert(placed[j] == rows[j]);
    }
}

/// Whether a row is not empty.
pub open spec fn nonzero_row() -> spec_fn(u16) -> bool {
    |x: u16| x != 0u16
}

/// Filtering rows with no empty row below a non-empty one gives such rows.
pub proof fn lemma_filter_gravity(s: Seq<u16>, p: spec_fn(u16) -> bool)
    requires
        gravity(s),
    ensures
        gravity(s.filter(p)),
    decreases s.len(),
{
    reveal(Seq::filter);
    if s.len() > 0 {
        let rest = s.drop_last();
        assert(gravity(rest));
        lemma_filter_gravity(rest, p);
        let sub = rest.filter(p);
        if p(s.last()) {
            let out = sub.push(s.last());
            if s.last() != 0 {
                assert forall|i: int| 0 <= i < rest.len() implies nonzero_row()(#[trigger] rest[i]) by {
                    if rest[i] == 0 {
                        assert(s[i] == 0);
                        assert(s[s.len() - 1] == 0);
                    }
                }
                lemma_filter_keeps(rest, p, nonzero_row());
            }
            assert forall|i: int, j: int|
                #![trigger out[i], out[j]]
                0 <= i < j < out.len() && out[i] == 0 implies out[j] == 0 by {
                if j < sub.len() {
                    assert(sub[i] == 0);
                } else if s.last() != 0 {
                    assert(nonzero_row()(sub[i]));
                }
            }
        }
    }
}

} // verus!
