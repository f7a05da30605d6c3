use vstd::prelude::*;
use vstd::string::StringExecFns;

verus! {

/// Side length of every board and piece grid.
pub const MAX_DIM: usize = 16;

/// Number of cells of a `MAX_DIM` x `MAX_DIM` grid.
pub const N_CELLS: usize = 256;

/// Flat index of cell (`y`, `x`) in a row-major grid.
pub open spec fn idx(y: int, x: int) -> int {
    y * 16 + x
}

/// Value of cell (`y`, `x`) of a flat row-major grid.
pub open spec fn cell(s: Seq<i8>, y: int, x: int) -> i8 {
    s[idx(y, x)]
}

/// True when (`y`, `x`) lies on the grid.
pub open spec fn on_grid(y: int, x: int) -> bool {
    0 <= y < 16 && 0 <= x < 16
}

/// The top-left board cell at which a piece's own top-left cell is placed.
#[derive(Clone, Copy, Debug, PartialEq, Eq)]
pub struct Position {
    pub y: usize,
    pub x: usize,
}

pub proof fn lemma_idx(y: int, x: int)
    requires
        on_grid(y, x),
    ensures
        0 <= idx(y, x) < 256,
        idx(y, x) / 16 == y,
        idx(y, x) % 16 == x,
{
    assert(0 <= y * 16 + x < 256) by (nonlinear_arith)
        requires
            0 <= y < 16,
            0 <= x < 16,
    ;
    assert((y * 16 + x) / 16 == y) by (nonlinear_arith)
        requires
            0 <= y < 16,
            0 <= x < 16,
    ;
    assert((y * 16 + x) % 16 == x) by (nonlinear_arith)
        requires
            0 <= y < 16,
            0 <= x < 16,
    ;
}

pub proof fn lemma_split(i: int)
    requires
        0 <= i < 256,
    ensures
        on_grid(i / 16, i % 16),
        idx(i / 16, i % 16) == i,
{
}

/// Two grids of 256 cells that agree on every on-grid cell are equal.
pub proof fn lemma_grid_ext(s: Seq<i8>, t: Seq<i8>)
    requires
        s.len() == 256,
        t.len() == 256,
        forall|y: int, x: int| on_grid(y, x) ==> #[trigger] cell(s, y, x) == cell(t, y, x),
    ensures
        s == t,
{
    assert forall|i: int| 0 <= i < 256 implies s[i] == t[i] by {
        lemma_split(i);
        assert(cell(s, i / 16, i % 16) == cell(t, i / 16, i % 16));
    }
    assert(s =~= t);
}

/// A grid of 256 cells, each holding `v`.
pub fn filled_grid(v: i8) -> (r: Vec<i8>)
    ensures
        r@ == Seq::new(256, |_i: int| v),
{
    let mut r: Vec<i8> = Vec::new();
    for i in 0..N_CELLS
        invariant
            r@ == Seq::new(i as nat, |_i: int| v),
    {
        r.push(v);
        assert(r@ =~= Seq::new((i + 1) as nat, |_i: int| v));
    }
    r
}

/// The first `n` cells of row `y` of `a`: `#` for a positive count, `.`
/// otherwise.
pub open spec fn picture_row(a: Seq<i8>, y: int, n: int) -> Seq<char> {
    Seq::new(n as nat, |x: int| if cell(a, y, x) > 0 { '#' } else { '.' })
}

/// A newline, then the first `m` rows of `a`, `w` cells each, each followed
/// by a newline.
pub open spec fn picture(a: Seq<i8>, w: int, m: int) -> Seq<char>
    decreases m,
{
    if m <= 0 {
        seq!['\n']
    } else {
        picture(a, w, m - 1) + picture_row(a, m - 1, w).push('\n')
    }
}

/// Draws the top-left `h` x `w` rectangle of a grid, after a newline.
pub fn grid_picture(a: &Vec<i8>, h: usize, w: usize) -> (r: String)
    requires
        a@.len() == 256,
        h <= 16,
        w <= 16,
    ensures
        r@ == picture(a@, w as int, h as int),
{
    let mut r = String::new();
    r.append("\n");
    proof {
        reveal_strlit("\n");
        assert(r@ =~= picture(a@, w as int, 0));
    }
    for y in 0..h
        invariant
            a@.len() == 256,
            h <= 16,
            w <= 16,
            r@ == picture(a@, w as int, y as int),
    {
        let ghost start = r@;
        for x in 0..w
            invariant
                a@.len() == 256,
                y < h <= 16,
                w <= 16,
                r@ == start + picture_row(a@, y as int, x as int),
        {
            proof {
                lemma_idx(y as int, x as int);
            }
            if a[y * MAX_DIM + x] > 0 {
                r.append("#");
            } else {
                r.append(".");
            }
            proof {
                reveal_strlit("#");
                reveal_strlit(".");
                assert(r@ =~= start + picture_row(a@, y as int, x + 1));
            }
        }
        r.append("\n");
        proof {
            reveal_strlit("\n");
            assert(r@ =~= picture(a@, w as int, y + 1));
        }
    }
    r
}

} // verus!
