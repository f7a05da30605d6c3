use vstd::prelude::*;

use crate::grid::{MAX_DIM, N_CELLS, Position, cell, on_grid, lemma_idx, lemma_grid_ext};
use crate::piece::{Piece, Shape, shape_wf};
use crate::text::{ParseError, content, coords, bad, error_at, well_formed, first_error, marked, marked_before, lemma_marked_step, chars_of};
use crate::grid::{filled_grid, grid_picture, picture};

verus! {

/// A 16 x 16 grid of cover counts: 0 is open, 1 is blocked or covered once,
/// more is covered several times.
#[derive(Clone, Debug)]
pub struct Board {
    pub a: Vec<i8>,
}

impl View for Board {
    type V = Seq<i8>;

    open spec fn view(&self) -> Seq<i8> {
        self.a@
    }
}

impl Board {
    pub open spec fn wf(&self) -> bool {
        self.a@.len() == 256
    }

    /// The whole grid drawn after a newline, one line per row: `#` for a
    /// covered or blocked cell, `.` for an open one.
    pub fn to_text(&self) -> (r: String)
        requires
            self.wf(),
        ensures
            r@ == picture(self@, 16, 16),
    {
        grid_picture(&self.a, MAX_DIM, MAX_DIM)
    }

    /// Reads a board: one line per row, `#` a blocked cell and `.` an open
    /// one. Every cell that the text does not name is blocked.
    pub fn from_str(s: &str) -> (r: Result<Board, ParseError>)
        ensures
            well_formed(s@) <==> r is Ok,
            r matches Ok(b) ==> b.wf() && forall|y: int, x: int|
                on_grid(y, x) ==> #[trigger] cell(b@, y, x) == if marked(s@, y, x, '.') {
                    0i8
                } else {
                    1i8
                },
            r matches Err(e) ==> first_error(s@, e),
    {
        let t = chars_of(s);
        let n = t.len();
        let mut a = filled_grid(1);
        let mut y: usize = 0;
        let mut x: usize = 0;
        let mut k: usize = 0;
        while k < n
            invariant
                n == t@.len(),
                t@ == s@,
                k <= n,
                y <= k,
                x <= k,
                (y as int, x as int) == coords(t@, k as int),
                a@.len() == 256,
                forall|j: int| 0 <= j < k ==> !#[trigger] bad(t@, j),
                forall|yy: int, xx: int|
                    on_grid(yy, xx) ==> #[trigger] cell(a@, yy, xx) == if marked_before(t@, k as int, yy, xx, '.') {
                        0i8
                    } else {
                        1i8
                    },
            decreases n - k,
        {
            let ch = t[k];
            let ghost prev = a@;
            if ch == '\n' {
                y = y + 1;
                x = 0;
            } else if ch == '\r' && k + 1 < n && t[k + 1] == '\n' {
            } else {
                assert(content(t@, k as int));
                if y >= MAX_DIM || x >= MAX_DIM {
                    proof {
                        assert(bad(t@, k as int));
                        assert(first_error(t@, error_at(t@, k as int)));
                    }
                    return Err(ParseError::TooLarge);
                }
                if ch == '.' {
                    proof {
                        lemma_idx(y as int, x as int);
                    }
                    a.set(y * MAX_DIM + x, 0);
                } else if ch != '#' {
                    proof {
                        assert(bad(t@, k as int));
                        assert(first_error(t@, error_at(t@, k as int)));
                    }
                    return Err(ParseError::UnknownSymbol(ch));
                }
                x = x + 1;
            }
            proof {
                assert forall|yy: int, xx: int| on_grid(yy, xx) implies #[trigger] cell(a@, yy, xx)
                    == if marked_before(t@, k + 1, yy, xx, '.') {
                    0i8
                } else {
                    1i8
                } by {
                    lemma_idx(yy, xx);
                    lemma_marked_step(t@, k as int, yy, xx, '.');
                    if coords(t@, k as int) != (yy, xx) {
                        assert(cell(a@, yy, xx) == cell(prev, yy, xx));
                    }
                }
            }
            k = k + 1;
        }
        proof {
            assert(t@ == s@);
        }
        Ok(Board { a })
    }
}

/// The piece's bounding box, put at `pos`, lies on the grid.
pub open spec fn fits(p: Shape, pos: Position) -> bool {
    pos.y + p.h <= 16 && pos.x + p.w <= 16
}

/// Board cell (`y`, `x`) lies under the piece's bounding box put at `pos`.
pub open spec fn under(p: Shape, pos: Position, y: int, x: int) -> bool {
    pos.y <= y < pos.y + p.h && pos.x <= x < pos.x + p.w
}

/// Cell (`y`, `x`) of `b` after the piece at `pos` is added (or, with
/// `negate`, taken away).
pub open spec fn placed_cell(b: Seq<i8>, p: Shape, pos: Position, negate: bool, y: int, x: int) -> int {
    if under(p, pos, y, x) {
        let c = cell(p.a, y - pos.y, x - pos.x) as int;
        cell(b, y, x) + if negate { -c } else { c }
    } else {
        cell(b, y, x) as int
    }
}

/// The board `b` after the piece at `pos` is added (or, with `negate`, taken
/// away).
pub open spec fn placed(b: Seq<i8>, p: Shape, pos: Position, negate: bool) -> Seq<i8> {
    Seq::new(256, |i: int| placed_cell(b, p, pos, negate, i / 16, i % 16) as i8)
}

/// Every filled cell of the piece at `pos` can take one more (or, with
/// `negate`, one less) cover without leaving the range of `i8`.
pub open spec fn room_for(b: Seq<i8>, p: Shape, pos: Position, negate: bool) -> bool {
    forall|y: int, x: int|
        0 <= y < p.h && 0 <= x < p.w && #[trigger] cell(p.a, y, x) != 0 ==> if negate {
            cell(b, pos.y + y, pos.x + x) > -128
        } else {
            cell(b, pos.y + y, pos.x + x) < 127
        }
}

/// Some filled cell of the piece at `pos` falls on an open board cell.
pub open spec fn touches_open(b: Seq<i8>, p: Shape, pos: Position) -> bool {
    exists|y: int, x: int|
        0 <= y < p.h && 0 <= x < p.w && #[trigger] cell(p.a, y, x) != 0 && cell(
            b,
            pos.y + y,
            pos.x + x,
        ) == 0
}

/// Filled cells among the first `n` of row `y` of the piece at `pos` whose
/// board cell is already non-zero.
pub open spec fn row_overlap(b: Seq<i8>, p: Shape, pos: Position, y: int, n: int) -> int
    decreases n,
{
    if n <= 0 {
        0
    } else {
        row_overlap(b, p, pos, y, n - 1) + if cell(p.a, y, n - 1) != 0 && cell(
            b,
            pos.y + y,
            pos.x + n - 1,
        ) != 0 {
            1int
        } else {
            0int
        }
    }
}

/// Filled cells among the first `m` rows of the piece at `pos` whose board
/// cell is already non-zero.
pub open spec fn rows_overlap(b: Seq<i8>, p: Shape, pos: Position, m: int) -> int
    decreases m,
{
    if m <= 0 {
        0
    } else {
        rows_overlap(b, p, pos, m - 1) + row_overlap(b, p, pos, m - 1, p.w)
    }
}

/// Filled cells of the piece at `pos` whose board cell is already non-zero.
pub open spec fn overlap(b: Seq<i8>, p: Shape, pos: Position) -> int {
    rows_overlap(b, p, pos, p.h)
}

proof fn lemma_row_overlap_bounds(b: Seq<i8>, p: Shape, pos: Position, y: int, n: int)
    requires
        n >= 0,
    ensures
        0 <= row_overlap(b, p, pos, y, n) <= n,
    decreases n,
{
    if n > 0 {
        lemma_row_overlap_bounds(b, p, pos, y, n - 1);
    }
}

proof fn lemma_rows_overlap_bounds(b: Seq<i8>, p: Shape, pos: Position, m: int)
    requires
        m >= 0,
        0 <= p.w <= 16,
    ensures
        0 <= rows_overlap(b, p, pos, m) <= 16 * m,
    decreases m,
{
    if m > 0 {
        lemma_rows_overlap_bounds(b, p, pos, m - 1);
        lemma_row_overlap_bounds(b, p, pos, m - 1, p.w);
    }
}

/// Adds the piece at `pos` to the board (or, with `negate`, takes it away).
/// Returns whether a filled cell of the piece fell on an open board cell, and
/// how many filled cells fell on cells that were already non-zero.
pub fn place_piece(b: &mut Board, piece: &Piece, pos: Position, negate: bool) -> (r: (bool, i32))
    requires
        old(b).wf(),
        piece.wf(),
        fits(piece@, pos),
        room_for(old(b)@, piece@, pos, negate),
    ensures
        final(b).wf(),
        final(b)@ == placed(old(b)@, piece@, pos, negate),
        r.0 == touches_open(old(b)@, piece@, pos),
        r.1 == overlap(old(b)@, piece@, pos),
        0 <= r.1 <= 256,
        !negate && (forall|i: int| 0 <= i < 256 ==> #[trigger] old(b)@[i] >= 0) ==> pos_excess(final(b)@)
            == pos_excess(old(b)@) + r.1,
{
    let ghost b0 = b@;
    let ghost p = piece@;
    let mut any_good = false;
    let mut diff_penalty: i32 = 0;
    proof {
        lemma_rows_overlap_bounds(b0, p, pos, p.h);
    }
    for y in 0..piece.h
        invariant
            b.wf(),
            piece.wf(),
            fits(p, pos),
            p == piece@,
            room_for(b0, p, pos, negate),
            diff_penalty == rows_overlap(b0, p, pos, y as int),
            !negate && (forall|i: int| 0 <= i < 256 ==> #[trigger] b0[i] >= 0) ==> pos_excess(b@)
                == pos_excess(b0) + diff_penalty,
            b0.len() == 256,
            0 <= rows_overlap(b0, p, pos, p.h) <= 256,
            any_good == exists|yy: int, xx: int|
                0 <= yy < y && 0 <= xx < p.w && #[trigger] cell(p.a, yy, xx) != 0 && cell(
                    b0,
                    pos.y + yy,
                    pos.x + xx,
                ) == 0,
            forall|yy: int, xx: int|
                on_grid(yy, xx) ==> #[trigger] cell(b@, yy, xx) == if yy < pos.y + y {
                    placed_cell(b0, p, pos, negate, yy, xx) as i8
                } else {
                    cell(b0, yy, xx)
                },
    {
        proof {
            lemma_rows_overlap_bounds(b0, p, pos, y as int);
            lemma_rows_overlap_bounds(b0, p, pos, y + 1);
        }
        for x in 0..piece.w
            invariant
                b.wf(),
                piece.wf(),
                fits(p, pos),
                p == piece@,
                y < p.h,
                room_for(b0, p, pos, negate),
                diff_penalty == rows_overlap(b0, p, pos, y as int) + row_overlap(b0, p, pos, y as int, x as int),
                rows_overlap(b0, p, pos, y + 1) <= 256,
                !negate && (forall|i: int| 0 <= i < 256 ==> #[trigger] b0[i] >= 0) ==> pos_excess(b@)
                    == pos_excess(b0) + diff_penalty,
                b0.len() == 256,
                any_good == exists|yy: int, xx: int|
                    ((0 <= yy < y && 0 <= xx < p.w) || (yy == y && 0 <= xx < x)) && #[trigger] cell(p.a, yy, xx) != 0 && cell(
                        b0,
                        pos.y + yy,
                        pos.x + xx,
                    ) == 0,
                forall|yy: int, xx: int|
                    on_grid(yy, xx) ==> #[trigger] cell(b@, yy, xx) == if yy < pos.y + y || (yy == pos.y + y && pos.x <= xx < pos.x + x) {
                        placed_cell(b0, p, pos, negate, yy, xx) as i8
                    } else {
                        cell(b0, yy, xx)
                    },
        {
            let by = y + pos.y;
            let bx = x + pos.x;
            proof {
                lemma_idx(by as int, bx as int);
                lemma_idx(y as int, x as int);
                lemma_row_overlap_bounds(b0, p, pos, y as int, x as int);
                lemma_row_overlap_bounds(b0, p, pos, y as int, x + 1);
                lemma_rows_overlap_bounds(b0, p, pos, y as int);
                assert(16 * y + x + 1 <= 256) by (nonlinear_arith)
                    requires
                        y < 16,
                        x < 16,
                ;
                assert(cell(b@, by as int, bx as int) == cell(b0, by as int, bx as int));
            }
            let pc = piece.a[y * MAX_DIM + x];
            let bc = b.a[by * MAX_DIM + bx];
            if pc != 0 {
                if bc == 0 {
                    any_good = true;
                } else {
                    diff_penalty += 1;
                }
            }
            proof {
                assert(pc == cell(p.a, y as int, x as int));
                assert(on_grid(y as int, x as int));
                assert(pc == 0 || pc == 1);
                if pc != 0 {
                    assert(room_for(b0, p, pos, negate));
                    assert(cell(p.a, y as int, x as int) != 0);
                }
            }
            let nv: i8 = if negate { bc - pc } else { bc + pc };
            let ghost prev = b@;
            b.a.set(by * MAX_DIM + bx, nv);
            proof {
                lemma_pos_excess_update(prev, by * 16 + bx, nv);
                assert(b@ == prev.update(by * 16 + bx, nv));
                assert forall|yy: int, xx: int| on_grid(yy, xx) implies #[trigger] cell(b@, yy, xx)
                    == if yy < pos.y + y || (yy == pos.y + y && pos.x <= xx < pos.x + x + 1) {
                    placed_cell(b0, p, pos, negate, yy, xx) as i8
                } else {
                    cell(b0, yy, xx)
                } by {
                    lemma_idx(yy, xx);
                    if yy != by || xx != bx {
                        assert(cell(b@, yy, xx) == cell(prev, yy, xx));
                    }
                }
                if pc != 0 && bc == 0 {
                    assert(cell(p.a, y as int, x as int) != 0 && cell(b0, pos.y + y, pos.x + x) == 0);
                }
            }
        }
        proof {
            assert forall|yy: int, xx: int| on_grid(yy, xx) && yy == pos.y + y && !(pos.x <= xx < pos.x + p.w)
                implies #[trigger] cell(b@, yy, xx) == placed_cell(b0, p, pos, negate, yy, xx) as i8 by {
            }
        }
    }
    proof {
        assert forall|yy: int, xx: int| on_grid(yy, xx) implies #[trigger] cell(b@, yy, xx)
            == cell(placed(b0, p, pos, negate), yy, xx) by {
            lemma_idx(yy, xx);
        }
        lemma_grid_ext(b@, placed(b0, p, pos, negate));
    }
    (any_good, diff_penalty)
}

pub proof fn lemma_placed_cell(b: Seq<i8>, p: Shape, pos: Position, negate: bool, y: int, x: int)
    requires
        on_grid(y, x),
    ensures
        cell(placed(b, p, pos, negate), y, x) == placed_cell(b, p, pos, negate, y, x) as i8,
{
    lemma_idx(y, x);
}

/// Adding a piece and then taking the same piece away at the same position
/// gives back the board as it was.
pub proof fn lemma_place_then_retract(b: Seq<i8>, p: Shape, pos: Position)
    requires
        b.len() == 256,
        shape_wf(p),
        fits(p, pos),
        room_for(b, p, pos, false),
    ensures
        placed(placed(b, p, pos, false), p, pos, true) == b,
{
    let b1 = placed(b, p, pos, false);
    let b2 = placed(b1, p, pos, true);
    assert forall|y: int, x: int| on_grid(y, x) implies #[trigger] cell(b2, y, x) == cell(b, y, x) by {
        lemma_placed_cell(b1, p, pos, true, y, x);
        lemma_placed_cell(b, p, pos, false, y, x);
        if under(p, pos, y, x) {
            let py = y - pos.y;
            let px = x - pos.x;
            assert(on_grid(py, px));
            let c = cell(p.a, py, px);
            assert(c == 0 || c == 1);
            if c != 0 {
                assert(cell(p.a, py, px) != 0);
                assert(cell(b, pos.y + py, pos.x + px) < 127);
            }
        }
    }
    lemma_grid_ext(b2, b);
}

/// The board has an open (zero) cell.
pub open spec fn has_open(s: Seq<i8>) -> bool {
    exists|i: int| 0 <= i < s.len() && s[i] == 0
}

/// Sum over all cells of the cell value less one.
pub open spec fn excess(s: Seq<i8>) -> int
    decreases s.len(),
{
    if s.len() == 0 {
        0
    } else {
        excess(s.drop_last()) + (s.last() - 1)
    }
}

/// A board whose cells are all at least one has no negative excess.
pub proof fn lemma_excess_nonneg(s: Seq<i8>)
    requires
        forall|i: int| 0 <= i < s.len() ==> s[i] >= 1,
    ensures
        excess(s) >= 0,
    decreases s.len(),
{
    if s.len() > 0 {
        lemma_excess_nonneg(s.drop_last());
    }
}

/// The excess of a grid is at most 126 per cell.
pub proof fn lemma_excess_bound(s: Seq<i8>)
    ensures
        excess(s) <= 126 * s.len(),
    decreases s.len(),
{
    if s.len() > 0 {
        lemma_excess_bound(s.drop_last());
    }
}

/// A grid whose every cell is at most that of another has no more excess.
pub proof fn lemma_excess_mono(s: Seq<i8>, t: Seq<i8>)
    requires
        s.len() == t.len(),
        forall|i: int| 0 <= i < s.len() ==> s[i] <= t[i],
    ensures
        excess(s) <= excess(t),
    decreases s.len(),
{
    if s.len() > 0 {
        lemma_excess_mono(s.drop_last(), t.drop_last());
    }
}

/// The penalty of a fully covered board is the total excess cover; a board
/// with an open cell gets `i32::MAX`.
pub fn calculate_penalty(b: &Board) -> (r: i32)
    requires
        b.wf(),
    ensures
        r == i32::MAX <==> has_open(b@),
        !has_open(b@) ==> r == excess(b@),
        !has_open(b@) && (forall|i: int| 0 <= i < 256 ==> b@[i] >= 0) ==> r >= 0,
{
    let mut penalty: i32 = 0;
    for i in 0..N_CELLS
        invariant
            b.wf(),
            penalty == excess(b@.take(i as int)),
            -129 * i <= penalty <= 126 * i,
            forall|j: int| 0 <= j < i ==> b@[j] != 0,
    {
        let c = b.a[i];
        if c == 0 {
            return i32::MAX;
        }
        proof {
            assert(b@.take(i + 1).drop_last() =~= b@.take(i as int));
        }
        penalty += c as i32 - 1;
    }
    proof {
        assert(b@.take(256) =~= b@);
        if forall|i: int| 0 <= i < 256 ==> b@[i] >= 0 {
            lemma_excess_nonneg(b@);
        }
    }
    penalty
}

/// Cover beyond the first on one cell.
pub open spec fn extra(c: int) -> int {
    if c >= 1 {
        c - 1
    } else {
        0
    }
}

/// Sum over all cells of the cover beyond the first: the overlap that the
/// placements on a board have added.
pub open spec fn pos_excess(s: Seq<i8>) -> int
    decreases s.len(),
{
    if s.len() == 0 {
        0
    } else {
        pos_excess(s.drop_last()) + extra(s.last() as int)
    }
}

pub proof fn lemma_pos_excess_update(s: Seq<i8>, i: int, v: i8)
    requires
        0 <= i < s.len(),
    ensures
        pos_excess(s.update(i, v)) == pos_excess(s) - extra(s[i] as int) + extra(v as int),
    decreases s.len(),
{
    let t = s.update(i, v);
    if i == s.len() - 1 {
        assert(t.drop_last() =~= s.drop_last());
    } else {
        assert(t.drop_last() =~= s.drop_last().update(i, v));
        lemma_pos_excess_update(s.drop_last(), i, v);
    }
}

/// A board whose every cell is at most that of another has no more overlap.
pub proof fn lemma_pos_excess_mono(s: Seq<i8>, t: Seq<i8>)
    requires
        s.len() == t.len(),
        forall|i: int| 0 <= i < s.len() ==> s[i] <= t[i],
    ensures
        pos_excess(s) <= pos_excess(t),
    decreases s.len(),
{
    if s.len() > 0 {
        lemma_pos_excess_mono(s.drop_last(), t.drop_last());
    }
}

/// With every cell covered, the excess is the overlap.
pub proof fn lemma_excess_is_overlap(s: Seq<i8>)
    requires
        forall|i: int| 0 <= i < s.len() ==> s[i] >= 1,
    ensures
        excess(s) == pos_excess(s),
    decreases s.len(),
{
    if s.len() > 0 {
        lemma_excess_is_overlap(s.drop_last());
    }
}

/// The overlap of a grid is at most 126 per cell.
pub proof fn lemma_pos_excess_bound(s: Seq<i8>)
    ensures
        0 <= pos_excess(s) <= 126 * s.len(),
    decreases s.len(),
{
    if s.len() > 0 {
        lemma_pos_excess_bound(s.drop_last());
    }
}

/// A board whose cells are all 0 or 1 has no overlap.
pub proof fn lemma_pos_excess_zero(s: Seq<i8>)
    requires
        forall|i: int| 0 <= i < s.len() ==> s[i] <= 1,
    ensures
        pos_excess(s) == 0,
    decreases s.len(),
{
    if s.len() > 0 {
        lemma_pos_excess_zero(s.drop_last());
    }
}

} // verus!
