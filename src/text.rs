use vstd::prelude::*;

verus! {

broadcast use vstd::string::axiom_spec_iter;

/// Why a board or piece description was refused.
#[derive(Clone, Copy, Debug, PartialEq, Eq)]
pub enum ParseError {
    /// A character other than `#` and `.` inside a row.
    UnknownSymbol(char),
    /// A cell beyond the 16th row or column.
    TooLarge,
}

/// Character `k` ends a row: a `\n`, or a `\r` just before one.
pub open spec fn line_end(t: Seq<char>, k: int) -> bool {
    t[k] == '\n' || (t[k] == '\r' && k + 1 < t.len() && t[k + 1] == '\n')
}

/// Character `k` is a cell of some row.
pub open spec fn content(t: Seq<char>, k: int) -> bool {
    0 <= k < t.len() && !line_end(t, k)
}

/// Row and column at which character `k` stands.
pub open spec fn coords(t: Seq<char>, k: int) -> (int, int)
    decreases k,
{
    if k <= 0 {
        (0, 0)
    } else {
        let prev = coords(t, k - 1);
        if t[k - 1] == '\n' {
            (prev.0 + 1, 0)
        } else if line_end(t, k - 1) {
            prev
        } else {
            (prev.0, prev.1 + 1)
        }
    }
}

/// Character `k` is a cell beyond the grid or an unknown symbol.
pub open spec fn bad(t: Seq<char>, k: int) -> bool {
    content(t, k) && (coords(t, k).0 >= 16 || coords(t, k).1 >= 16 || (t[k] != '#' && t[k] != '.'))
}

/// The error that a bad character `k` raises.
pub open spec fn error_at(t: Seq<char>, k: int) -> ParseError {
    if coords(t, k).0 >= 16 || coords(t, k).1 >= 16 {
        ParseError::TooLarge
    } else {
        ParseError::UnknownSymbol(t[k])
    }
}

/// The description has no bad character.
pub open spec fn well_formed(t: Seq<char>) -> bool {
    forall|k: int| 0 <= k < t.len() ==> !#[trigger] bad(t, k)
}

/// `e` is the error that the first bad character of `t` raises.
pub open spec fn first_error(t: Seq<char>, e: ParseError) -> bool {
    exists|k: int|
        0 <= k < t.len() && #[trigger] bad(t, k) && (forall|j: int| 0 <= j < k ==> !#[trigger] bad(t, j))
            && e == error_at(t, k)
}

/// Among the first `k` characters, one is `ch` at row `y`, column `x`.
pub open spec fn marked_before(t: Seq<char>, k: int, y: int, x: int, ch: char) -> bool {
    exists|j: int| 0 <= j < k && #[trigger] content(t, j) && coords(t, j) == (y, x) && t[j] == ch
}

/// Among all characters, one is `ch` at row `y`, column `x`.
pub open spec fn marked(t: Seq<char>, y: int, x: int, ch: char) -> bool {
    marked_before(t, t.len() as int, y, x, ch)
}

/// Looking at one more character adds exactly that character's mark.
pub proof fn lemma_marked_step(t: Seq<char>, k: int, y: int, x: int, ch: char)
    requires
        0 <= k < t.len(),
    ensures
        marked_before(t, k + 1, y, x, ch) <==> (marked_before(t, k, y, x, ch) || (content(t, k)
            && coords(t, k) == (y, x) && t[k] == ch)),
{
    if marked_before(t, k + 1, y, x, ch) && !(content(t, k) && coords(t, k) == (y, x) && t[k] == ch) {
        let j = choose|j: int| 0 <= j < k + 1 && #[trigger] content(t, j) && coords(t, j) == (y, x) && t[j] == ch;
        assert(j < k);
    }
    if content(t, k) && coords(t, k) == (y, x) && t[k] == ch {
        assert(content(t, k));
    }
}

/// The characters of `s`, in order.
pub fn chars_of(s: &str) -> (r: Vec<char>)
    ensures
        r@ == s@,
{
    let mut r: Vec<char> = Vec::new();
    for c in it: s.chars()
        invariant
            r@ == it.seq().take(it.index() as int),
            it.seq() == s@,
    {
        r.push(c);
        proof {
            assert(r@ =~= it.seq().take(it.index() + 1));
        }
    }
    proof {
        assert(r@ =~= s@);
    }
    r
}

} // verus!
