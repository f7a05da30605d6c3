use vstd::prelude::*;

use crate::grid::{MAX_DIM, Position, idx, cell, on_grid, lemma_idx};
use vstd::string::StringExecFns;
use crate::piece::{Piece, Shape, shape_wf, rot_n};
use crate::rotations::{is_rotation_set, shapes, pieces_with_rotations};
use crate::board::{
    Board, fits, placed, room_for, has_open, excess, place_piece, calculate_penalty,
    touches_open,
    lemma_place_then_retract, lemma_placed_cell, pos_excess, lemma_pos_excess_mono,
    lemma_pos_excess_zero, lemma_pos_excess_bound, lemma_excess_is_overlap, lemma_excess_bound, lemma_excess_mono, under,
};

verus! {

/// One decision per piece: the index of the chosen turn in that piece's set
/// of turns, and where it is placed (`None`: the piece is not used).
pub type Choice = (usize, Option<Position>);

/// The board, the decisions made so far, and the overlap counted so far.
pub struct SolutionState {
    pub board: Board,
    pub solution: Vec<Choice>,
    pub current_penalty: i32,
    /// The board before any decision.
    pub base: Ghost<Seq<i8>>,
}

/// The penalty of a board: `i32::MAX` when a cell is open, else its excess.
pub open spec fn penalty_of(s: Seq<i8>) -> int {
    if has_open(s) {
        i32::MAX as int
    } else {
        excess(s)
    }
}

/// The board after decision `e` for piece `d` is applied to `b`.
pub open spec fn step(b: Seq<i8>, pwr: Seq<Vec<Piece>>, d: int, e: Choice) -> Seq<i8> {
    match e.1 {
        None => b,
        Some(pos) => placed(b, pwr[d]@[e.0 as int]@, pos, false),
    }
}

/// Decision `e` for piece `d` on board `b` is one that the search makes: it
/// names an existing turn, and a placement lies in the rows and columns that
/// the search tries and covers an open cell.
pub open spec fn tried(b: Seq<i8>, pwr: Seq<Vec<Piece>>, d: int, e: Choice) -> bool {
    &&& 0 <= d < pwr.len()
    &&& e.0 < pwr[d].len()
    &&& match e.1 {
        None => true,
        Some(pos) => {
            let p = pwr[d]@[e.0 as int]@;
            &&& pos.y < 16 - p.h
            &&& pos.x < 16 - p.w
            &&& touches_open(b, p, pos)
        },
    }
}

/// The board after the decisions `ext`, for pieces `d`, `d + 1`, ..., are
/// applied in order to `b`.
pub open spec fn run(b: Seq<i8>, pwr: Seq<Vec<Piece>>, d: int, ext: Seq<Choice>) -> Seq<i8>
    decreases ext.len(),
{
    if ext.len() == 0 {
        b
    } else {
        run(step(b, pwr, d, ext[0]), pwr, d + 1, ext.drop_first())
    }
}

/// The search reaches the decisions `ext` from board `b` at piece `d`: each
/// is tried on the board that the ones before it leave.
pub open spec fn visited(b: Seq<i8>, pwr: Seq<Vec<Piece>>, d: int, ext: Seq<Choice>) -> bool
    decreases ext.len(),
{
    ext.len() == 0 || (tried(b, pwr, d, ext[0]) && visited(
        step(b, pwr, d, ext[0]),
        pwr,
        d + 1,
        ext.drop_first(),
    ))
}

pub proof fn lemma_run_push(b: Seq<i8>, pwr: Seq<Vec<Piece>>, d: int, sol: Seq<Choice>, e: Choice)
    ensures
        run(b, pwr, d, sol.push(e)) == step(run(b, pwr, d, sol), pwr, d + sol.len(), e),
        visited(b, pwr, d, sol) && tried(run(b, pwr, d, sol), pwr, d + sol.len(), e) ==> visited(
            b,
            pwr,
            d,
            sol.push(e),
        ),
    decreases sol.len(),
{
    let t = sol.push(e);
    if sol.len() == 0 {
        assert(t.drop_first() =~= Seq::<Choice>::empty());
        assert(t[0] == e);
        assert(run(b, pwr, d, t) == run(step(b, pwr, d, e), pwr, d + 1, t.drop_first()));
        assert(visited(step(b, pwr, d, e), pwr, d + 1, t.drop_first()));
    } else {
        let b1 = step(b, pwr, d, sol[0]);
        let rest = sol.drop_first();
        assert(t.drop_first() =~= rest.push(e));
        assert(t[0] == sol[0]);
        lemma_run_push(b1, pwr, d + 1, rest, e);
        assert(run(b, pwr, d, t) == run(b1, pwr, d + 1, rest.push(e)));
        assert(run(b, pwr, d, sol) == run(b1, pwr, d + 1, rest));
    }
}

/// Every turn of every piece is well-formed, and there are few enough pieces
/// that no cell count leaves the range of `i8`.
pub open spec fn pieces_ok(pwr: Seq<Vec<Piece>>) -> bool {
    &&& pwr.len() <= 126
    &&& forall|d: int, v: int| 0 <= d < pwr.len() && 0 <= v < pwr[d].len() ==> (#[trigger] pwr[d]@[v]).wf()
}

/// Decision `e` comes before turn `v` placed at (`y`, `x`) in the order in
/// which the search tries them: skipping a turn before placing it, and
/// positions in row-major order.
pub open spec fn done_before(e: Choice, v: int, y: int, x: int) -> bool {
    ||| e.0 < v
    ||| (e.0 == v && match e.1 {
        None => true,
        Some(pos) => pos.y < y || (pos.y == y && pos.x < x),
    })
}

/// Every piece has at least one turn.
pub open spec fn all_nonempty(pwr: Seq<Vec<Piece>>) -> bool {
    forall|d: int| 0 <= d < pwr.len() ==> #[trigger] pwr[d].len() > 0
}

/// A recorded best solution is a full, valid assignment whose board has
/// penalty `min`.
pub open spec fn best_ok(pwr: Seq<Vec<Piece>>, base: Seq<i8>, min: i32, best: Option<Vec<Choice>>) -> bool {
    best matches Some(sol) ==> {
        &&& sol@.len() == pwr.len()
        &&& visited(base, pwr, 0, sol@)
        &&& !has_open(run(base, pwr, 0, sol@))
        &&& penalty_of(run(base, pwr, 0, sol@)) == min
    }
}

/// Decision `a` is tried before decision `b` for the same piece: a lower
/// turn first; for one turn, leaving it out first, then positions in
/// row-major order.
pub open spec fn choice_lt(a: Choice, b: Choice) -> bool {
    ||| a.0 < b.0
    ||| (a.0 == b.0 && match (a.1, b.1) {
        (None, Some(_)) => true,
        (Some(p), Some(q)) => p.y < q.y || (p.y == q.y && p.x < q.x),
        _ => false,
    })
}

/// The search reaches the decisions `a` before the decisions `b`: at the
/// first place where they differ, `a`'s decision is tried first.
pub open spec fn comes_before(a: Seq<Choice>, b: Seq<Choice>) -> bool {
    exists|i: int|
        0 <= i < a.len() && i < b.len() && a.take(i) == b.take(i) && #[trigger] choice_lt(a[i], b[i])
}

/// `best` is a new best found below the decisions `sol` on board `b`: it
/// extends `sol`, the search visits the rest of it from `b`, it covers the
/// board with penalty `min`, and every full completion of `sol` that the
/// search visits before it has a higher penalty.
pub open spec fn improved(pwr: Seq<Vec<Piece>>, b: Seq<i8>, sol: Seq<Choice>, min: i32, best: Option<Vec<Choice>>) -> bool {
    &&& best is Some
    &&& {
        let s = best->0@;
        let k = sol.len() as int;
        &&& s.len() == pwr.len()
        &&& s.take(k) == sol
        &&& visited(b, pwr, k, s.skip(k))
        &&& !has_open(run(b, pwr, k, s.skip(k)))
        &&& penalty_of(run(b, pwr, k, s.skip(k))) == min
        &&& forall|ext: Seq<Choice>|
            ext.len() == pwr.len() - k && #[trigger] visited(b, pwr, k, ext) && comes_before(ext, s.skip(k))
                ==> penalty_of(run(b, pwr, k, ext)) > min
    }
}

/// A best found below the decisions `sol` plus `e` is also one found below
/// `sol`, when every completion starting with a decision tried before `e`
/// has a penalty of at least `m0`, above the new best.
proof fn lemma_lift_improved(
    pwr: Seq<Vec<Piece>>,
    b: Seq<i8>,
    sol: Seq<Choice>,
    e: Choice,
    m0: int,
    min: i32,
    best: Option<Vec<Choice>>,
)
    requires
        sol.len() < pwr.len(),
        tried(b, pwr, sol.len() as int, e),
        improved(pwr, step(b, pwr, sol.len() as int, e), sol.push(e), min, best),
        min < m0,
        forall|ext: Seq<Choice>|
            ext.len() == pwr.len() - sol.len() && #[trigger] visited(b, pwr, sol.len() as int, ext)
                && choice_lt(ext[0], e) ==> m0 <= penalty_of(run(b, pwr, sol.len() as int, ext)),
    ensures
        improved(pwr, b, sol, min, best),
{
    let k = sol.len() as int;
    let nb = step(b, pwr, k, e);
    let s = best->0@;
    let r = s.skip(k);
    assert(s.take(k + 1) == sol.push(e));
    assert(s.take(k) =~= sol.push(e).take(k));
    assert(sol.push(e).take(k) =~= sol);
    assert(r[0] == s.take(k + 1)[k]);
    assert(r[0] == e);
    assert(r.drop_first() =~= s.skip(k + 1));
    assert(visited(b, pwr, k, r));
    assert(run(b, pwr, k, r) == run(nb, pwr, k + 1, s.skip(k + 1)));
    assert forall|ext: Seq<Choice>|
        ext.len() == pwr.len() - k && #[trigger] visited(b, pwr, k, ext) && comes_before(ext, r) implies penalty_of(
        run(b, pwr, k, ext),
    ) > min by {
        let i = choose|i: int|
            0 <= i < ext.len() && i < r.len() && ext.take(i) == r.take(i) && #[trigger] choice_lt(ext[i], r[i]);
        if i == 0 {
        } else {
            assert(ext[0] == ext.take(i)[0]);
            assert(ext[0] == e);
            let rest = ext.drop_first();
            assert(rest.take(i - 1) =~= ext.take(i).drop_first());
            assert(s.skip(k + 1).take(i - 1) =~= r.take(i).drop_first());
            assert(choice_lt(rest[i - 1], s.skip(k + 1)[i - 1]));
            assert(comes_before(rest, s.skip(k + 1)));
            assert(visited(nb, pwr, k + 1, rest));
            assert(run(b, pwr, k, ext) == run(nb, pwr, k + 1, rest));
        }
    }
}

/// The state is consistent: its decisions are ones the search makes, its
/// board is the base with them applied, every cell count lies between 0 and
/// one more than the number of decisions, and the overlap counter is the
/// board's overlap.
pub open spec fn state_ok(pwr: Seq<Vec<Piece>>, st: SolutionState) -> bool {
    &&& st.board.wf()
    &&& st.solution@.len() <= pwr.len()
    &&& visited(st.base@, pwr, 0, st.solution@)
    &&& st.board@ == run(st.base@, pwr, 0, st.solution@)
    &&& forall|i: int| 0 <= i < 256 ==> 0 <= #[trigger] st.board@[i] <= 1 + st.solution@.len()
    &&& 0 <= st.current_penalty <= 256 * st.solution@.len()
    &&& st.current_penalty == pos_excess(st.board@)
}

proof fn lemma_placed_range(b: Seq<i8>, p: Shape, pos: Position, hi: int)
    requires
        b.len() == 256,
        shape_wf(p),
        fits(p, pos),
        hi <= 126,
        forall|i: int| 0 <= i < 256 ==> 0 <= #[trigger] b[i] <= hi,
    ensures
        room_for(b, p, pos, false),
        forall|i: int| 0 <= i < 256 ==> 0 <= #[trigger] placed(b, p, pos, false)[i] <= hi + 1,
        forall|i: int| 0 <= i < 256 ==> b[i] <= #[trigger] placed(b, p, pos, false)[i],
        room_for(placed(b, p, pos, false), p, pos, true),
{
    let nb = placed(b, p, pos, false);
    assert forall|i: int| 0 <= i < 256 implies b[i] <= #[trigger] nb[i] <= b[i] + 1 by {
        crate::grid::lemma_split(i);
        let y = i / 16;
        let x = i % 16;
        lemma_placed_cell(b, p, pos, false, y, x);
        if crate::board::under(p, pos, y, x) {
            assert(on_grid(y - pos.y, x - pos.x));
            let c = cell(p.a, y - pos.y, x - pos.x);
            assert(c == 0 || c == 1);
        }
    }
    assert forall|y: int, x: int|
        0 <= y < p.h && 0 <= x < p.w && #[trigger] cell(p.a, y, x) != 0 implies cell(
        nb,
        pos.y + y,
        pos.x + x,
    ) > -128 && cell(b, pos.y + y, pos.x + x) < 127 by {
        crate::grid::lemma_idx(pos.y + y, pos.x + x);
        lemma_placed_cell(b, p, pos, false, pos.y + y, pos.x + x);
    }
}

impl SolutionState {
    /// A state with no decisions made on `board`.
    pub fn new(board: Board) -> (r: SolutionState)
        ensures
            r.board == board,
            r.solution@.len() == 0,
            r.current_penalty == 0,
            r.base@ == board@,
    {
        SolutionState { board, solution: Vec::new(), current_penalty: 0, base: Ghost(board@) }
    }
}

/// Branch-and-bound search over the remaining pieces. For each turn of the
/// next piece it first tries leaving the piece out, then every position in
/// row-major order whose placement covers an open cell and keeps the
/// counted overlap within `min_penalty`. A full assignment whose penalty is
/// strictly below `min_penalty` becomes the new best, so ties keep the one
/// found first. The state is handed back as it came.
#[verifier::rlimit(60)]
pub fn advance_solution_vector_or_test_solution(
    pwr: &Vec<Vec<Piece>>,
    state: &mut SolutionState,
    min_penalty: &mut i32,
    best_solution: &mut Option<Vec<Choice>>,
)
    requires
        pieces_ok(pwr@),
        state_ok(pwr@, *old(state)),
        best_ok(pwr@, old(state).base@, *old(min_penalty), *old(best_solution)),
    ensures
        final(state).board@ == old(state).board@,
        final(state).solution@ == old(state).solution@,
        final(state).current_penalty == old(state).current_penalty,
        final(state).base@ == old(state).base@,
        state_ok(pwr@, *final(state)),
        *final(min_penalty) <= *old(min_penalty),
        *final(min_penalty) == *old(min_penalty) ==> *final(best_solution) == *old(best_solution),
        *final(min_penalty) != *old(min_penalty) ==> improved(
            pwr@,
            old(state).board@,
            old(state).solution@,
            *final(min_penalty),
            *final(best_solution),
        ),
        old(state).solution@.len() == pwr.len() && penalty_of(old(state).board@) < *old(min_penalty)
            ==> (*final(best_solution) matches Some(s) && s@ == old(state).solution@),
        best_ok(pwr@, old(state).base@, *final(min_penalty), *final(best_solution)),
        all_nonempty(pwr@) ==> *final(min_penalty)
            <= penalty_of(old(state).board@),
        forall|ext: Seq<Choice>|
            ext.len() == pwr@.len() - old(state).solution@.len() && #[trigger] visited(
                old(state).board@,
                pwr@,
                old(state).solution@.len() as int,
                ext,
            ) ==> *final(min_penalty) <= penalty_of(
                run(old(state).board@, pwr@, old(state).solution@.len() as int, ext),
            ),
        old(state).solution@.len() == pwr.len() ==> *final(min_penalty) == if penalty_of(
            old(state).board@,
        ) < *old(min_penalty) {
            penalty_of(old(state).board@)
        } else {
            *old(min_penalty) as int
        },
    decreases pwr@.len() - old(state).solution@.len(),
{
    let ghost st0 = *state;
    let ghost base = state.base@;
    let ghost pw = pwr@;
    let depth = state.solution.len();
    if depth == pwr.len() {
        let total_penalty = calculate_penalty(&state.board);
        if total_penalty < *min_penalty {
            *min_penalty = total_penalty;
            *best_solution = Some(copy_choices(&state.solution));
            proof {
                let s = best_solution->0@;
                assert(s.take(depth as int) =~= s);
                assert(s.skip(depth as int) =~= Seq::<Choice>::empty());
            }
        }
        return;
    }
    let rotations = &pwr[depth];
    let n = rotations.len();
    for v in 0..n
        invariant
            pieces_ok(pw),
            pw == pwr@,
            depth < pw.len(),
            *rotations == pw[depth as int],
            n == rotations.len(),
            depth == st0.solution@.len(),
            st0 == *old(state),
            state.board@ == st0.board@,
            state.solution@ == st0.solution@,
            state.current_penalty == st0.current_penalty,
            state.base@ == base,
            base == st0.base@,
            state_ok(pw, *state),
            *min_penalty <= *old(min_penalty),
            *min_penalty == *old(min_penalty) ==> *best_solution == *old(best_solution),
            *min_penalty != *old(min_penalty) ==> improved(pw, st0.board@, st0.solution@, *min_penalty, *best_solution),
            best_ok(pw, base, *min_penalty, *best_solution),
            v > 0 && all_nonempty(pw) ==> *min_penalty <= penalty_of(st0.board@),
            forall|ext: Seq<Choice>|
                ext.len() == pw.len() - depth && #[trigger] visited(st0.board@, pw, depth as int, ext)
                    && ext[0].0 < v ==> *min_penalty <= penalty_of(run(st0.board@, pw, depth as int, ext)),
    {
        let ghost m_skip = *min_penalty;
        state.solution.push((v, None));
        proof {
            lemma_run_push(base, pw, 0, st0.solution@, (v, None));
        }
        advance_solution_vector_or_test_solution(pwr, state, min_penalty, best_solution);
        state.solution.pop();
        proof {
            if *min_penalty != m_skip {
                assert forall|ext: Seq<Choice>|
                    ext.len() == pw.len() - depth && #[trigger] visited(st0.board@, pw, depth as int, ext)
                        && choice_lt(ext[0], (v, None)) implies m_skip <= penalty_of(
                    run(st0.board@, pw, depth as int, ext),
                ) by {
                }
                lemma_lift_improved(pw, st0.board@, st0.solution@, (v, None), m_skip as int, *min_penalty, *best_solution);
            }
            assert(state.solution@ =~= st0.solution@);
            assert forall|ext: Seq<Choice>|
                ext.len() == pw.len() - depth && #[trigger] visited(st0.board@, pw, depth as int, ext)
                    && done_before(ext[0], v as int, 0, 0) implies *min_penalty <= penalty_of(
                run(st0.board@, pw, depth as int, ext),
            ) by {
                if ext[0].0 == v {
                    assert(visited(st0.board@, pw, depth + 1, ext.drop_first()));
                    assert(run(st0.board@, pw, depth as int, ext) == run(st0.board@, pw, depth + 1, ext.drop_first()));
                }
            }
        }
        let piece = &rotations[v];
        let ylim = MAX_DIM - piece.h;
        let xlim = MAX_DIM - piece.w;
        for y in 0..ylim
            invariant
                pieces_ok(pw),
                pw == pwr@,
                depth < pw.len(),
                *rotations == pw[depth as int],
                n == rotations.len(),
                v < n,
                *piece == rotations@[v as int],
                piece.wf(),
                ylim == 16 - piece.h,
                xlim == 16 - piece.w,
                depth == st0.solution@.len(),
                st0 == *old(state),
                state.board@ == st0.board@,
                state.solution@ == st0.solution@,
                state.current_penalty == st0.current_penalty,
                state.base@ == base,
                base == st0.base@,
                state_ok(pw, *state),
                *min_penalty <= *old(min_penalty),
                *min_penalty == *old(min_penalty) ==> *best_solution == *old(best_solution),
                *min_penalty != *old(min_penalty) ==> improved(pw, st0.board@, st0.solution@, *min_penalty, *best_solution),
                best_ok(pw, base, *min_penalty, *best_solution),
                all_nonempty(pw) ==> *min_penalty <= penalty_of(st0.board@),
                forall|ext: Seq<Choice>|
                    ext.len() == pw.len() - depth && #[trigger] visited(st0.board@, pw, depth as int, ext)
                        && done_before(ext[0], v as int, y as int, 0) ==> *min_penalty <= penalty_of(
                        run(st0.board@, pw, depth as int, ext),
                    ),
        {
            for x in 0..xlim
                invariant
                    pieces_ok(pw),
                    pw == pwr@,
                    depth < pw.len(),
                    *rotations == pw[depth as int],
                    n == rotations.len(),
                    v < n,
                    *piece == rotations@[v as int],
                    piece.wf(),
                    y < ylim,
                    ylim == 16 - piece.h,
                    xlim == 16 - piece.w,
                    depth == st0.solution@.len(),
                    st0 == *old(state),
                    state.board@ == st0.board@,
                    state.solution@ == st0.solution@,
                    state.current_penalty == st0.current_penalty,
                    state.base@ == base,
                    base == st0.base@,
                    state_ok(pw, *state),
                    *min_penalty <= *old(min_penalty),
                    *min_penalty == *old(min_penalty) ==> *best_solution == *old(best_solution),
                    *min_penalty != *old(min_penalty) ==> improved(pw, st0.board@, st0.solution@, *min_penalty, *best_solution),
                    best_ok(pw, base, *min_penalty, *best_solution),
                    all_nonempty(pw) ==> *min_penalty <= penalty_of(st0.board@),
                    forall|ext: Seq<Choice>|
                        ext.len() == pw.len() - depth && #[trigger] visited(st0.board@, pw, depth as int, ext)
                            && done_before(ext[0], v as int, y as int, x as int) ==> *min_penalty
                            <= penalty_of(run(st0.board@, pw, depth as int, ext)),
            {
                let pos = Position { y, x };
                let ghost b0 = state.board@;
                proof {
                    lemma_placed_range(b0, piece@, pos, 1 + depth);
                }
                state.solution.push((v, Some(pos)));
                let (good_placement, added_penalty) = place_piece(&mut state.board, piece, pos, false);
                state.current_penalty += added_penalty;
                proof {
                    lemma_run_push(base, pw, 0, st0.solution@, (v, Some(pos)));
                    assert(pw[depth as int]@[v as int]@ == piece@);
                }
                let ghost nb = state.board@;
                let ghost m0 = *min_penalty;
                let ghost counted = state.current_penalty;
                if good_placement && state.current_penalty <= *min_penalty {
                    advance_solution_vector_or_test_solution(pwr, state, min_penalty, best_solution);
                }
                state.current_penalty -= added_penalty;
                place_piece(&mut state.board, piece, pos, true);
                state.solution.pop();
                proof {
                    if *min_penalty != m0 {
                        let e: Choice = (v, Some(pos));
                        assert(tried(st0.board@, pw, depth as int, e));
                        assert(step(st0.board@, pw, depth as int, e) == nb);
                        assert forall|ext: Seq<Choice>|
                            ext.len() == pw.len() - depth && #[trigger] visited(st0.board@, pw, depth as int, ext)
                                && choice_lt(ext[0], e) implies m0 <= penalty_of(
                            run(st0.board@, pw, depth as int, ext),
                        ) by {
                            assert(done_before(ext[0], v as int, y as int, x as int));
                        }
                        lemma_lift_improved(pw, st0.board@, st0.solution@, e, m0 as int, *min_penalty, *best_solution);
                    }
                    lemma_place_then_retract(b0, piece@, pos);
                    assert(state.solution@ =~= st0.solution@);
                    assert forall|ext: Seq<Choice>|
                        ext.len() == pw.len() - depth && #[trigger] visited(st0.board@, pw, depth as int, ext)
                            && done_before(ext[0], v as int, y as int, x + 1) implies *min_penalty
                        <= penalty_of(run(st0.board@, pw, depth as int, ext)) by {
                        if !done_before(ext[0], v as int, y as int, x as int) {
                            let rest = ext.drop_first();
                            assert(ext[0].1 == Some(pos));
                            assert(pw[depth as int]@[ext[0].0 as int]@ == piece@);
                            assert(visited(nb, pw, depth + 1, rest));
                            assert(run(st0.board@, pw, depth as int, ext) == run(nb, pw, depth + 1, rest));
                            if !(good_placement && counted <= m0) {
                                assert(good_placement);
                                lemma_completion_penalty_at_least_overlap(nb, pw, depth + 1, rest);
                            }
                        }
                    }
                }
            }
        }
    }
}

/// A copy of a list of decisions.
fn copy_choices(v: &Vec<Choice>) -> (r: Vec<Choice>)
    ensures
        r@ == v@,
{
    let mut r: Vec<Choice> = Vec::new();
    for i in 0..v.len()
        invariant
            r@ == v@.take(i as int),
    {
        r.push(v[i]);
        proof {
            assert(r@ =~= v@.take(i + 1));
        }
    }
    proof {
        assert(v@.take(v.len() as int) =~= v@);
    }
    r
}

/// Board cell (`y`, `x`) lies under a filled cell of `p` put at `pos`.
pub open spec fn covered(p: Shape, pos: Position, y: int, x: int) -> bool {
    &&& x >= pos.x
    &&& y >= pos.y
    &&& y - pos.y < p.h
    &&& x - pos.x < p.w
    &&& cell(p.a, y - pos.y, x - pos.x) > 0
}

/// The first `n` characters of board row `y` with `p` put at `pos`.
pub open spec fn row_chars(p: Shape, pos: Position, y: int, n: int) -> Seq<char> {
    Seq::new(n as nat, |x: int| if covered(p, pos, y, x) { '#' } else { '.' })
}

/// The first `m` rendered rows, each 16 characters and a newline.
pub open spec fn rendered_rows(p: Shape, pos: Position, m: int) -> Seq<char>
    decreases m,
{
    if m <= 0 {
        Seq::empty()
    } else {
        rendered_rows(p, pos, m - 1) + row_chars(p, pos, m - 1, 16).push('\n')
    }
}

/// A 16 x 16 picture of the board with `#` under the filled cells of `pc`
/// put at `pos` and `.` elsewhere, one line per row.
pub fn render(pc: &Piece, pos: Position) -> (r: String)
    requires
        pc.wf(),
    ensures
        r@ == rendered_rows(pc@, pos, 16),
{
    let mut r = String::new();
    for y in 0..MAX_DIM
        invariant
            pc.wf(),
            r@ == rendered_rows(pc@, pos, y as int),
    {
        let ghost start = r@;
        for x in 0..MAX_DIM
            invariant
                pc.wf(),
                y < 16,
                r@ == start + row_chars(pc@, pos, y as int, x as int),
        {
            let on = if x >= pos.x && y >= pos.y && y - pos.y < pc.h && x - pos.x < pc.w {
                proof {
                    lemma_idx((y - pos.y) as int, (x - pos.x) as int);
                }
                pc.a[(y - pos.y) * MAX_DIM + (x - pos.x)] > 0
            } else {
                false
            };
            if on {
                r.append("#");
            } else {
                r.append(".");
            }
            proof {
                reveal_strlit("#");
                reveal_strlit(".");
                assert(on == covered(pc@, pos, y as int, x as int));
                assert(r@ =~= start + row_chars(pc@, pos, y as int, x + 1));
            }
        }
        r.append("\n");
        proof {
            reveal_strlit("\n");
            assert(r@ =~= rendered_rows(pc@, pos, y + 1));
        }
    }
    r
}

/// What a finished search reports: the first visited full assignment, in
/// search order, that covers the board with the least penalty, and that
/// penalty; or none and `i32::MAX`. No visited full assignment has a
/// penalty below `min`.
pub open spec fn search_outcome(pwr: Seq<Vec<Piece>>, b: Seq<i8>, min: i32, best: Option<Vec<Choice>>) -> bool {
    &&& best_ok(pwr, b, min, best)
    &&& (best is None <==> min == i32::MAX)
    &&& (best is Some ==> improved(pwr, b, Seq::empty(), min, best))
    &&& forall|ext: Seq<Choice>|
        ext.len() == pwr.len() && #[trigger] visited(b, pwr, 0, ext) ==> min <= penalty_of(
            run(b, pwr, 0, ext),
        )
}

/// Two searches on the same board and the same turns report the same least
/// penalty and the same best assignment.
pub proof fn lemma_search_outcome_determined(
    pwr: Seq<Vec<Piece>>,
    b: Seq<i8>,
    m1: i32,
    s1: Option<Vec<Choice>>,
    m2: i32,
    s2: Option<Vec<Choice>>,
)
    requires
        search_outcome(pwr, b, m1, s1),
        search_outcome(pwr, b, m2, s2),
    ensures
        m1 == m2,
        s1 is Some <==> s2 is Some,
        s1 is Some ==> s1->0@ == s2->0@,
{
    if let Some(x1) = s1 {
        assert(visited(b, pwr, 0, x1@));
    }
    if let Some(x2) = s2 {
        assert(visited(b, pwr, 0, x2@));
    }
    if let (Some(x1), Some(x2)) = (s1, s2) {
        assert(x1@.skip(0) =~= x1@);
        assert(x2@.skip(0) =~= x2@);
        if x1@ != x2@ {
            lemma_before_total(x1@, x2@);
        }
    }
}

/// Of two different decision lists of one length, one comes first.
pub proof fn lemma_before_total(a: Seq<Choice>, b: Seq<Choice>)
    requires
        a.len() == b.len(),
        a != b,
    ensures
        comes_before(a, b) || comes_before(b, a),
    decreases a.len(),
{
    if a.len() == 0 {
        assert(a =~= b);
    } else if a[0] != b[0] {
        assert(a.take(0) =~= b.take(0));
        assert(choice_lt(a[0], b[0]) || choice_lt(b[0], a[0]));
    } else {
        let ra = a.drop_first();
        let rb = b.drop_first();
        if ra =~= rb {
            assert forall|t: int| 0 <= t < a.len() implies a[t] == b[t] by {
                if t > 0 {
                    assert(a[t] == ra[t - 1]);
                    assert(b[t] == rb[t - 1]);
                }
            }
            assert(a =~= b);
        }
        lemma_before_total(ra, rb);
        if comes_before(ra, rb) {
            let j = choose|j: int| 0 <= j < ra.len() && j < rb.len() && ra.take(j) == rb.take(j) && #[trigger] choice_lt(ra[j], rb[j]);
            assert(a.take(j + 1) =~= b.take(j + 1)) by {
                assert forall|t: int| 0 <= t < j + 1 implies #[trigger] a.take(j + 1)[t] == b.take(j + 1)[t] by {
                    if t > 0 {
                        assert(ra.take(j)[t - 1] == rb.take(j)[t - 1]);
                    }
                }
            }
            assert(choice_lt(a[j + 1], b[j + 1]));
        } else {
            let j = choose|j: int| 0 <= j < rb.len() && j < ra.len() && rb.take(j) == ra.take(j) && #[trigger] choice_lt(rb[j], ra[j]);
            assert(b.take(j + 1) =~= a.take(j + 1)) by {
                assert forall|t: int| 0 <= t < j + 1 implies #[trigger] b.take(j + 1)[t] == a.take(j + 1)[t] by {
                    if t > 0 {
                        assert(rb.take(j)[t - 1] == ra.take(j)[t - 1]);
                    }
                }
            }
            assert(choice_lt(b[j + 1], a[j + 1]));
        }
    }
}

/// Expands the pieces into their turns and searches for the assignment of
/// least penalty on `board`. Returns the least penalty found (`i32::MAX`
/// when no assignment covers the board), the assignment reaching it, and the
/// turns that its choices index.
pub fn solve(board: Board, pieces: Vec<Piece>) -> (r: (i32, Option<Vec<Choice>>, Vec<Vec<Piece>>))
    requires
        board.wf(),
        forall|i: int| 0 <= i < 256 ==> 0 <= #[trigger] board@[i] <= 1,
        pieces.len() <= 126,
        forall|i: int| 0 <= i < pieces.len() ==> (#[trigger] pieces@[i]).wf(),
    ensures
        r.2.len() == pieces.len(),
        forall|i: int|
            0 <= i < r.2.len() ==> is_rotation_set(shapes(#[trigger] r.2@[i]@), pieces@[i]@),
        search_outcome(r.2@, board@, r.0, r.1),
        r.0 <= penalty_of(board@),
{
    let pwr = pieces_with_rotations(pieces);
    let ghost b = board@;
    let mut min_penalty = i32::MAX;
    let mut best_solution: Option<Vec<Choice>> = None;
    let mut state = SolutionState::new(board);
    proof {
        assert(state.solution@ =~= Seq::<Choice>::empty());
        lemma_pos_excess_zero(b);
        assert forall|d: int| 0 <= d < pwr.len() implies #[trigger] pwr@[d].len() > 0 by {
            assert(is_rotation_set(shapes(pwr@[d]@), pieces@[d]@));
            assert(shapes(pwr@[d]@).contains(rot_n(pieces@[d]@, 0)));
        }
    }
    advance_solution_vector_or_test_solution(&pwr, &mut state, &mut min_penalty, &mut best_solution);
    proof {
        if best_solution is Some {
            let x = best_solution->0@;
            assert(x.skip(0) =~= x);
            lemma_excess_bound(run(b, pwr@, 0, x));
        }
    }
    (min_penalty, best_solution, pwr)
}

/// Adding a placement never lowers the overlap counted on a board.
pub proof fn lemma_placement_never_lowers_overlap(b: Seq<i8>, p: Shape, pos: Position, hi: int)
    requires
        b.len() == 256,
        shape_wf(p),
        fits(p, pos),
        hi <= 126,
        forall|i: int| 0 <= i < 256 ==> 0 <= #[trigger] b[i] <= hi,
    ensures
        pos_excess(placed(b, p, pos, false)) >= pos_excess(b),
{
    lemma_placed_range(b, p, pos, hi);
    lemma_pos_excess_mono(b, placed(b, p, pos, false));
}

/// However the search completes a partial assignment, the penalty of the
/// completed board is at least the overlap already counted on the current
/// board: so a branch whose counted overlap exceeds the best penalty found
/// cannot lead to a strictly better one.
pub proof fn lemma_completion_penalty_at_least_overlap(
    b: Seq<i8>,
    pwr: Seq<Vec<Piece>>,
    d: int,
    ext: Seq<Choice>,
)
    requires
        pieces_ok(pwr),
        b.len() == 256,
        0 <= d,
        d + ext.len() <= pwr.len(),
        forall|i: int| 0 <= i < 256 ==> 0 <= #[trigger] b[i] <= 1 + d,
        visited(b, pwr, d, ext),
    ensures
        penalty_of(run(b, pwr, d, ext)) >= pos_excess(b),
    decreases ext.len(),
{
    if ext.len() == 0 {
        if has_open(b) {
            lemma_pos_excess_bound(b);
        } else {
            assert forall|i: int| 0 <= i < b.len() implies b[i] >= 1 by {
                assert(0 <= b[i]);
                assert(b[i] != 0);
            }
            lemma_excess_is_overlap(b);
        }
    } else {
        let e = ext[0];
        match e.1 {
            None => {
                lemma_completion_penalty_at_least_overlap(b, pwr, d + 1, ext.drop_first());
            },
            Some(pos) => {
                let p = pwr[d]@[e.0 as int]@;
                assert(pwr[d]@[e.0 as int].wf());
                lemma_placed_range(b, p, pos, 1 + d);
                let nb = placed(b, p, pos, false);
                lemma_pos_excess_mono(b, nb);
                lemma_completion_penalty_at_least_overlap(nb, pwr, d + 1, ext.drop_first());
            },
        }
    }
}

/// A cell that the decisions `ext` change lies under a filled cell of one
/// of their placements.
proof fn lemma_run_changes(b: Seq<i8>, pwr: Seq<Vec<Piece>>, d: int, ext: Seq<Choice>, y: int, x: int)
    requires
        pieces_ok(pwr),
        b.len() == 256,
        on_grid(y, x),
        visited(b, pwr, d, ext),
    ensures
        run(b, pwr, d, ext).len() == 256,
        cell(run(b, pwr, d, ext), y, x) != cell(b, y, x) ==> exists|i: int|
            0 <= i < ext.len() && #[trigger] ext[i].1 is Some && covered(
                pwr[d + i]@[ext[i].0 as int]@,
                ext[i].1->0,
                y,
                x,
            ),
    decreases ext.len(),
{
    if ext.len() > 0 {
        let e = ext[0];
        let nb = step(b, pwr, d, e);
        let rest = ext.drop_first();
        lemma_run_changes(nb, pwr, d + 1, rest, y, x);
        if cell(run(b, pwr, d, ext), y, x) != cell(b, y, x) {
            if cell(nb, y, x) != cell(b, y, x) {
                let pos = e.1->0;
                let p = pwr[d]@[e.0 as int]@;
                assert(pwr[d]@[e.0 as int].wf());
                lemma_placed_cell(b, p, pos, false, y, x);
                assert(on_grid(y - pos.y, x - pos.x));
                assert(ext[0].1 is Some && covered(pwr[d + 0]@[ext[0].0 as int]@, ext[0].1->0, y, x));
            } else {
                let i = choose|i: int|
                    0 <= i < rest.len() && #[trigger] rest[i].1 is Some && covered(
                        pwr[d + 1 + i]@[rest[i].0 as int]@,
                        rest[i].1->0,
                        y,
                        x,
                    );
                assert(ext[i + 1] == rest[i]);
                assert(ext[i + 1].1 is Some);
            }
        }
    }
}

/// Every open cell of the board lies under a filled cell of some placement
/// of a recorded best assignment: drawn with `render`, its placements
/// together cover every open cell.
pub proof fn lemma_best_covers_open_cells(
    pwr: Seq<Vec<Piece>>,
    b: Seq<i8>,
    min: i32,
    best: Option<Vec<Choice>>,
    y: int,
    x: int,
)
    requires
        pieces_ok(pwr),
        b.len() == 256,
        best_ok(pwr, b, min, best),
        best is Some,
        on_grid(y, x),
        cell(b, y, x) == 0,
    ensures
        exists|i: int|
            0 <= i < best->0@.len() && #[trigger] best->0@[i].1 is Some && covered(
                pwr[i]@[best->0@[i].0 as int]@,
                best->0@[i].1->0,
                y,
                x,
            ),
{
    let s = best->0@;
    lemma_run_changes(b, pwr, 0, s, y, x);
    crate::grid::lemma_idx(y, x);
    let fin = run(b, pwr, 0, s);
    assert(fin[idx(y, x)] != 0);
    let i = choose|i: int|
        0 <= i < s.len() && #[trigger] s[i].1 is Some && covered(pwr[0 + i]@[s[i].0 as int]@, s[i].1->0, y, x);
    assert(0 + i == i);
}

/// Each decision of `ext`, for pieces `d`, `d + 1`, ..., names an existing
/// turn and, for a placement, a position in the rows and columns that the
/// search tries.
pub open spec fn placeable(pwr: Seq<Vec<Piece>>, d: int, ext: Seq<Choice>) -> bool
    decreases ext.len(),
{
    ext.len() == 0 || (0 <= d < pwr.len() && ext[0].0 < pwr[d].len() && match ext[0].1 {
        None => true,
        Some(pos) => pos.y < 16 - pwr[d]@[ext[0].0 as int]@.h && pos.x < 16
            - pwr[d]@[ext[0].0 as int]@.w,
    } && placeable(pwr, d + 1, ext.drop_first()))
}

/// `c` with the piece added at `pos` when `both`, else `c` itself.
pub open spec fn placed_if(c: Seq<i8>, p: Shape, pos: Position, both: bool) -> Seq<i8> {
    if both {
        placed(c, p, pos, false)
    } else {
        c
    }
}

/// Placing a piece on two boards with the same open cells, the first
/// nowhere above the second, keeps both facts; placing it on the second
/// alone keeps them too when it covers no open cell.
proof fn lemma_placed_pair(c: Seq<i8>, b: Seq<i8>, p: Shape, pos: Position, hi: int, both: bool)
    requires
        c.len() == 256,
        b.len() == 256,
        shape_wf(p),
        fits(p, pos),
        hi <= 126,
        forall|i: int| 0 <= i < 256 ==> 0 <= #[trigger] b[i] <= hi,
        forall|i: int| 0 <= i < 256 ==> 0 <= #[trigger] c[i] <= hi,
        forall|i: int| 0 <= i < 256 ==> #[trigger] c[i] <= b[i],
        forall|i: int| 0 <= i < 256 ==> (#[trigger] c[i] == 0 <==> b[i] == 0),
        !both ==> !touches_open(b, p, pos),
    ensures
        ({
            let nc = placed_if(c, p, pos, both);
            let nb = placed(b, p, pos, false);
            &&& forall|i: int| 0 <= i < 256 ==> #[trigger] nc[i] <= nb[i]
            &&& forall|i: int| 0 <= i < 256 ==> (#[trigger] nc[i] == 0 <==> nb[i] == 0)
            &&& forall|i: int| 0 <= i < 256 ==> 0 <= #[trigger] nc[i] <= hi + 1
        }),
{
    lemma_placed_range(b, p, pos, hi);
    lemma_placed_range(c, p, pos, hi);
    let nc = placed_if(c, p, pos, both);
    let nb = placed(b, p, pos, false);
    assert forall|i: int| 0 <= i < 256 implies #[trigger] nc[i] <= nb[i] && (nc[i] == 0 <==> nb[i] == 0) by {
        crate::grid::lemma_split(i);
        let y = i / 16;
        let x = i % 16;
        lemma_placed_cell(b, p, pos, false, y, x);
        lemma_placed_cell(c, p, pos, false, y, x);
        if under(p, pos, y, x) {
            assert(on_grid(y - pos.y, x - pos.x));
            let pc = cell(p.a, y - pos.y, x - pos.x);
            assert(pc == 0 || pc == 1);
            if !both && pc != 0 {
                assert(cell(p.a, y - pos.y, x - pos.x) != 0);
                assert(cell(b, pos.y + (y - pos.y), pos.x + (x - pos.x)) != 0);
            }
        }
    }
}

/// Any placeable completion from `b` can be matched by one that the search
/// visits from `c`, a board with the same open cells and nowhere higher,
/// whose penalty is no higher: placements that cover no open cell are left
/// out.
proof fn lemma_visited_dominates(c: Seq<i8>, b: Seq<i8>, pwr: Seq<Vec<Piece>>, d: int, ext: Seq<Choice>) -> (e2: Seq<Choice>)
    requires
        pieces_ok(pwr),
        c.len() == 256,
        b.len() == 256,
        0 <= d,
        d + ext.len() <= pwr.len(),
        forall|i: int| 0 <= i < 256 ==> 0 <= #[trigger] b[i] <= 1 + d,
        forall|i: int| 0 <= i < 256 ==> 0 <= #[trigger] c[i] <= 1 + d,
        forall|i: int| 0 <= i < 256 ==> #[trigger] c[i] <= b[i],
        forall|i: int| 0 <= i < 256 ==> (#[trigger] c[i] == 0 <==> b[i] == 0),
        placeable(pwr, d, ext),
    ensures
        e2.len() == ext.len(),
        visited(c, pwr, d, e2),
        penalty_of(run(c, pwr, d, e2)) <= penalty_of(run(b, pwr, d, ext)),
    decreases ext.len(),
{
    if ext.len() == 0 {
        if !has_open(b) {
            assert(!has_open(c)) by {
                if has_open(c) {
                    let i = choose|i: int| 0 <= i < c.len() && c[i] == 0;
                    assert(b[i] == 0);
                }
            }
            lemma_excess_mono(c, b);
        }
        lemma_excess_bound(c);
        assert(run(c, pwr, d, ext) == c);
        assert(run(b, pwr, d, ext) == b);
        ext
    } else {
        let e = ext[0];
        let rest = ext.drop_first();
        match e.1 {
            None => {
                let r = lemma_visited_dominates(c, b, pwr, d + 1, rest);
                let e2 = seq![e] + r;
                assert(e2[0] == e);
                assert(e2.drop_first() =~= r);
                assert(run(c, pwr, d, e2) == run(c, pwr, d + 1, r));
                assert(run(b, pwr, d, ext) == run(b, pwr, d + 1, rest));
                e2
            },
            Some(pos) => {
                let p = pwr[d]@[e.0 as int]@;
                assert(pwr[d]@[e.0 as int].wf());
                let nb = placed(b, p, pos, false);
                if touches_open(c, p, pos) {
                    lemma_placed_pair(c, b, p, pos, 1 + d, true);
                    let r = lemma_visited_dominates(placed(c, p, pos, false), nb, pwr, d + 1, rest);
                    let e2 = seq![e] + r;
                    assert(e2[0] == e);
                    assert(e2.drop_first() =~= r);
                    assert(run(c, pwr, d, e2) == run(placed(c, p, pos, false), pwr, d + 1, r));
                    assert(run(b, pwr, d, ext) == run(nb, pwr, d + 1, rest));
                    e2
                } else {
                    assert(!touches_open(b, p, pos)) by {
                        if touches_open(b, p, pos) {
                            let (py, px) = choose|py: int, px: int|
                                0 <= py < p.h && 0 <= px < p.w && #[trigger] cell(p.a, py, px) != 0 && cell(
                                    b,
                                    pos.y + py,
                                    pos.x + px,
                                ) == 0;
                            crate::grid::lemma_idx(pos.y + py, pos.x + px);
                            assert(cell(c, pos.y + py, pos.x + px) == 0);
                        }
                    }
                    lemma_placed_pair(c, b, p, pos, 1 + d, false);
                    let r = lemma_visited_dominates(c, nb, pwr, d + 1, rest);
                    let skip: Choice = (e.0, None);
                    let e2 = seq![skip] + r;
                    assert(e2[0] == skip);
                    assert(e2.drop_first() =~= r);
                    assert(run(c, pwr, d, e2) == run(c, pwr, d + 1, r));
                    assert(run(b, pwr, d, ext) == run(nb, pwr, d + 1, rest));
                    e2
                }
            },
        }
    }
}

/// The least penalty that a search reports is at most the penalty of every
/// full assignment of pieces to the rows and columns it tries: pruning and
/// leaving out placements that cover no open cell lose no better assignment.
pub proof fn lemma_search_optimal(pwr: Seq<Vec<Piece>>, b: Seq<i8>, min: i32, best: Option<Vec<Choice>>, ext: Seq<Choice>)
    requires
        pieces_ok(pwr),
        b.len() == 256,
        forall|i: int| 0 <= i < 256 ==> 0 <= #[trigger] b[i] <= 1,
        search_outcome(pwr, b, min, best),
        ext.len() == pwr.len(),
        placeable(pwr, 0, ext),
    ensures
        min <= penalty_of(run(b, pwr, 0, ext)),
{
    let e2 = lemma_visited_dominates(b, b, pwr, 0, ext);
    assert(visited(b, pwr, 0, e2));
}

} // verus!
