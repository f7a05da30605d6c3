use vstd::prelude::*;

use crate::grid::{MAX_DIM, cell, grid_picture, picture, on_grid, lemma_idx, lemma_grid_ext, filled_grid};
use crate::text::{ParseError, content, coords, bad, error_at, well_formed, first_error, marked, marked_before, lemma_marked_step, chars_of};

verus! {

/// A polyomino: a 16 x 16 grid of 0/1 cells of which only the top-left
/// `h` x `w` rectangle is meaningful.
#[derive(Clone, Debug)]
pub struct Piece {
    pub a: Vec<i8>,
    pub w: usize,
    pub h: usize,
}

/// The mathematical shape of a piece.
pub struct Shape {
    pub a: Seq<i8>,
    pub w: int,
    pub h: int,
}

impl View for Piece {
    type V = Shape;

    open spec fn view(&self) -> Shape {
        Shape { a: self.a@, w: self.w as int, h: self.h as int }
    }
}

/// A well-formed shape: dimensions between 1 and 16, cells 0 or 1, and every
/// cell outside the `h` x `w` rectangle empty.
pub open spec fn shape_wf(s: Shape) -> bool {
    &&& s.a.len() == 256
    &&& 1 <= s.w <= 16
    &&& 1 <= s.h <= 16
    &&& forall|y: int, x: int| on_grid(y, x) ==> {
        let c = #[trigger] cell(s.a, y, x);
        &&& (c == 0 || c == 1)
        &&& (!(y < s.h && x < s.w) ==> c == 0)
    }
}

/// Cell (`y`, `x`) of `s` turned by a quarter: it is cell (h - 1 - x, y) of
/// the source inside the new `w` x `h` rectangle, empty elsewhere.
pub open spec fn rotated_cell(s: Shape, y: int, x: int) -> i8 {
    if y < s.w && x < s.h {
        cell(s.a, s.h - 1 - x, y)
    } else {
        0
    }
}

/// `s` turned by a quarter, with width and height swapped.
pub open spec fn rot(s: Shape) -> Shape {
    Shape { a: Seq::new(256, |i: int| rotated_cell(s, i / 16, i % 16)), w: s.h, h: s.w }
}

/// `s` turned by `k` quarters.
pub open spec fn rot_n(s: Shape, k: nat) -> Shape
    decreases k,
{
    if k == 0 {
        s
    } else {
        rot(rot_n(s, (k - 1) as nat))
    }
}

pub proof fn lemma_rot_cell(s: Shape, y: int, x: int)
    requires
        on_grid(y, x),
    ensures
        cell(rot(s).a, y, x) == rotated_cell(s, y, x),
{
    lemma_idx(y, x);
}

/// Turning keeps a shape well-formed.
pub proof fn lemma_rot_wf(s: Shape)
    requires
        shape_wf(s),
    ensures
        shape_wf(rot(s)),
{
    assert forall|y: int, x: int| on_grid(y, x) implies {
        let c = #[trigger] cell(rot(s).a, y, x);
        &&& (c == 0 || c == 1)
        &&& (!(y < rot(s).h && x < rot(s).w) ==> c == 0)
    } by {
        lemma_rot_cell(s, y, x);
        if y < s.w && x < s.h {
            assert(cell(s.a, s.h - 1 - x, y) == 0 || cell(s.a, s.h - 1 - x, y) == 1);
        }
    }
}

/// Turning twice is a half turn.
proof fn lemma_rot2_cell(s: Shape, y: int, x: int)
    requires
        shape_wf(s),
        on_grid(y, x),
    ensures
        cell(rot(rot(s)).a, y, x) == if y < s.h && x < s.w {
            cell(s.a, s.h - 1 - y, s.w - 1 - x)
        } else {
            0
        },
{
    lemma_rot_cell(rot(s), y, x);
    if y < s.h && x < s.w {
        lemma_rot_cell(s, s.w - 1 - x, y);
    }
}

/// Turning a well-formed shape four times gives back the same shape: the same
/// width, height and cells.
pub proof fn lemma_rotate_four_times(s: Shape)
    requires
        shape_wf(s),
    ensures
        rot(rot(rot(rot(s)))) == s,
        rot_n(s, 4) == s,
{
    lemma_rot_wf(s);
    lemma_rot_wf(rot(s));
    let t = rot(rot(s));
    let u = rot(rot(t));
    assert forall|y: int, x: int| on_grid(y, x) implies #[trigger] cell(u.a, y, x) == cell(
        s.a,
        y,
        x,
    ) by {
        lemma_rot2_cell(t, y, x);
        if y < s.h && x < s.w {
            lemma_rot2_cell(s, s.h - 1 - y, s.w - 1 - x);
        }
    }
    lemma_grid_ext(u.a, s.a);
    assert(rot_n(s, 4) == rot(rot(rot(rot(s))))) by {
        reveal_with_fuel(rot_n, 5);
    }
}

/// The width a description gives: one more than the largest column of a
/// cell, and at least 1.
pub open spec fn text_width(t: Seq<char>, w: int) -> bool {
    &&& w >= 1
    &&& forall|k: int| #[trigger] content(t, k) ==> coords(t, k).1 < w
    &&& (w == 1 || exists|k: int| #[trigger] content(t, k) && coords(t, k).1 + 1 == w)
}

/// The height a description gives: one more than the largest row of a cell,
/// and at least 1.
pub open spec fn text_height(t: Seq<char>, h: int) -> bool {
    &&& h >= 1
    &&& forall|k: int| #[trigger] content(t, k) ==> coords(t, k).0 < h
    &&& (h == 1 || exists|k: int| #[trigger] content(t, k) && coords(t, k).0 + 1 == h)
}

impl Piece {
    pub open spec fn wf(&self) -> bool {
        shape_wf(self@)
    }

    /// The piece's `h` x `w` rectangle drawn after a newline, one line per
    /// row: `#` for a filled cell, `.` for an empty one.
    pub fn to_text(&self) -> (r: String)
        requires
            self.wf(),
        ensures
            r@ == picture(self@.a, self@.w, self@.h),
    {
        grid_picture(&self.a, self.h, self.w)
    }

    /// Reads a piece: one line per row, `#` a filled cell and `.` an empty
    /// one. Width and height reach the last cell named, and are at least 1.
    pub fn from_str(s: &str) -> (r: Result<Piece, ParseError>)
        ensures
            well_formed(s@) <==> r is Ok,
            r matches Ok(p) ==> {
                &&& p.wf()
                &&& text_width(s@, p.w as int)
                &&& text_height(s@, p.h as int)
                &&& forall|y: int, x: int|
                    on_grid(y, x) ==> #[trigger] cell(p.a@, y, x) == if marked(s@, y, x, '#') {
                        1i8
                    } else {
                        0i8
                    }
            },
            r matches Err(e) ==> first_error(s@, e),
    {
        let t = chars_of(s);
        let n = t.len();
        let mut a = filled_grid(0);
        let mut w: usize = 1;
        let mut h: usize = 1;
        let mut y: usize = 0;
        let mut x: usize = 0;
        let mut k: usize = 0;
        while k < n
            invariant
                n == t@.len(),
                t@ == s@,
                k <= n,
                y <= k,
                x <= k,
                1 <= w <= 16,
                1 <= h <= 16,
                (y as int, x as int) == coords(t@, k as int),
                a@.len() == 256,
                forall|j: int| 0 <= j < k ==> !#[trigger] bad(t@, j),
                forall|j: int| 0 <= j < k && #[trigger] content(t@, j) ==> coords(t@, j).1 < w && coords(t@, j).0 < h,
                w == 1 || exists|j: int| 0 <= j < k && #[trigger] content(t@, j) && coords(t@, j).1 + 1 == w,
                h == 1 || exists|j: int| 0 <= j < k && #[trigger] content(t@, j) && coords(t@, j).0 + 1 == h,
                forall|yy: int, xx: int|
                    on_grid(yy, xx) ==> #[trigger] cell(a@, yy, xx) == if marked_before(t@, k as int, yy, xx, '#') {
                        1i8
                    } else {
                        0i8
                    },
            decreases n - k,
        {
            let ch = t[k];
            let ghost prev = a@;
            let ghost (w0, h0) = (w, h);
            if ch == '\n' {
                y = y + 1;
                x = 0;
            } else if ch == '\r' && k + 1 < n && t[k + 1] == '\n' {
            } else {
                assert(content(t@, k as int));
                if y >= MAX_DIM || x >= MAX_DIM {
                    proof {
                        assert(bad(t@, k as int));
                        assert(first_error(t@, error_at(t@, k as int)));
                    }
                    return Err(ParseError::TooLarge);
                }
                if x + 1 > w {
                    w = x + 1;
                }
                if y + 1 > h {
                    h = y + 1;
                }
                if ch == '#' {
                    proof {
                        lemma_idx(y as int, x as int);
                    }
                    a.set(y * MAX_DIM + x, 1);
                } else if ch != '.' {
                    proof {
                        assert(bad(t@, k as int));
                        assert(first_error(t@, error_at(t@, k as int)));
                    }
                    return Err(ParseError::UnknownSymbol(ch));
                }
                x = x + 1;
            }
            proof {
                assert forall|yy: int, xx: int| on_grid(yy, xx) implies #[trigger] cell(a@, yy, xx)
                    == if marked_before(t@, k + 1, yy, xx, '#') {
                    1i8
                } else {
                    0i8
                } by {
                    lemma_idx(yy, xx);
                    lemma_marked_step(t@, k as int, yy, xx, '#');
                    if coords(t@, k as int) != (yy, xx) {
                        assert(cell(a@, yy, xx) == cell(prev, yy, xx));
                    }
                }
                if w != w0 {
                    assert(content(t@, k as int) && coords(t@, k as int).1 + 1 == w);
                }
                if h != h0 {
                    assert(content(t@, k as int) && coords(t@, k as int).0 + 1 == h);
                }
            }
            k = k + 1;
        }
        let p = Piece { a, w, h };
        proof {
            assert forall|yy: int, xx: int| on_grid(yy, xx) implies {
                let c = #[trigger] cell(p@.a, yy, xx);
                &&& (c == 0 || c == 1)
                &&& (!(yy < p@.h && xx < p@.w) ==> c == 0)
            } by {
                if marked_before(t@, k as int, yy, xx, '#') {
                    let j = choose|j: int| 0 <= j < k && #[trigger] content(t@, j) && coords(t@, j) == (yy, xx) && t@[j] == '#';
                }
            }
            assert forall|j: int| #[trigger] content(t@, j) implies coords(t@, j).1 < w && coords(t@, j).0 < h by {
            }
        }
        Ok(p)
    }

    /// The piece turned by a quarter: width and height swap, and cell (y, x)
    /// of the result is cell (h - 1 - x, y) of `self`.
    pub fn rotate(&self) -> (r: Piece)
        requires
            self.wf(),
        ensures
            r@ == rot(self@),
            r.wf(),
    {
        let mut a = filled_grid(0);
        let nw = self.h;
        let nh = self.w;
        for y in 0..nh
            invariant
                self.wf(),
                nw == self.h,
                nh == self.w,
                a@.len() == 256,
                forall|yy: int, xx: int|
                    on_grid(yy, xx) ==> #[trigger] cell(a@, yy, xx) == if yy < y {
                        rotated_cell(self@, yy, xx)
                    } else {
                        0
                    },
        {
            for x in 0..nw
                invariant
                    self.wf(),
                    nw == self.h,
                    nh == self.w,
                    y < nh,
                    a@.len() == 256,
                    forall|yy: int, xx: int|
                        on_grid(yy, xx) ==> #[trigger] cell(a@, yy, xx) == if yy < y || (yy
                            == y && xx < x) {
                            rotated_cell(self@, yy, xx)
                        } else {
                            0
                        },
            {
                proof {
                    lemma_idx(y as int, x as int);
                    lemma_idx((self.h - 1 - x) as int, y as int);
                }
                let v = self.a[(self.h - 1 - x) * MAX_DIM + y];
                let ghost prev = a@;
                a.set(y * MAX_DIM + x, v);
                proof {
                    assert forall|yy: int, xx: int| on_grid(yy, xx) implies #[trigger] cell(
                        a@,
                        yy,
                        xx,
                    ) == if yy < y || (yy == y && xx < x + 1) {
                        rotated_cell(self@, yy, xx)
                    } else {
                        0
                    } by {
                        lemma_idx(yy, xx);
                        if yy != y || xx != x {
                            assert(cell(a@, yy, xx) == cell(prev, yy, xx));
                        }
                    }
                }
            }
        }
        let r = Piece { a, w: nw, h: nh };
        proof {
            assert forall|yy: int, xx: int| on_grid(yy, xx) implies #[trigger] cell(r@.a, yy, xx)
                == cell(rot(self@).a, yy, xx) by {
                lemma_rot_cell(self@, yy, xx);
            }
            lemma_grid_ext(r@.a, rot(self@).a);
            lemma_rot_wf(self@);
        }
        r
    }
}

} // verus!
