use polycover::{
    advance_solution_vector_or_test_solution, calculate_penalty, pieces_with_rotations,
    place_piece, render, solve, Board, Choice, ParseError, Piece, Position, SolutionState,
};

const EXAMPLE_BOARD: &str = "##########.#\n#....####..#\n#.#....###.#\n############\n";
const TEE: &str = "###\n.#.\n";
const SQUARE: &str = "##\n##\n";
const BAR4: &str = "####\n";
const BAR3: &str = "###\n";

fn piece(s: &str) -> Piece {
    Piece::from_str(s).unwrap()
}

fn board(s: &str) -> Board {
    Board::from_str(s).unwrap()
}

fn at(a: &[i8], y: usize, x: usize) -> i8 {
    a[y * 16 + x]
}

fn same_shape(p: &Piece, q: &Piece) -> bool {
    p.a == q.a && p.w == q.w && p.h == q.h
}

fn example_pieces() -> Vec<Piece> {
    vec![piece(TEE), piece(SQUARE), piece(BAR4), piece(BAR3)]
}

#[test]
fn piece_parse_dimensions_and_cells() {
    let p = piece(TEE);
    assert_eq!((p.w, p.h), (3, 2));
    assert_eq!(at(&p.a, 0, 0), 1);
    assert_eq!(at(&p.a, 0, 2), 1);
    assert_eq!(at(&p.a, 1, 0), 0);
    assert_eq!(at(&p.a, 1, 1), 1);
    assert_eq!(p.a.iter().filter(|c| **c != 0).count(), 4);
}

#[test]
fn piece_parse_empty_text_is_one_by_one() {
    let p = piece("");
    assert_eq!((p.w, p.h), (1, 1));
    assert!(p.a.iter().all(|c| *c == 0));
}

#[test]
fn piece_parse_crlf_rows() {
    let p = piece("#.\r\n##\r\n");
    assert_eq!((p.w, p.h), (2, 2));
    assert_eq!(at(&p.a, 1, 1), 1);
    assert_eq!(at(&p.a, 0, 1), 0);
}

#[test]
fn piece_parse_unknown_symbol() {
    assert_eq!(Piece::from_str("#x#").unwrap_err(), ParseError::UnknownSymbol('x'));
}

#[test]
fn piece_parse_too_wide() {
    let row = "#".repeat(17);
    assert_eq!(Piece::from_str(&row).unwrap_err(), ParseError::TooLarge);
}

#[test]
fn board_parse_example() {
    let b = board(EXAMPLE_BOARD);
    assert_eq!(at(&b.a, 0, 10), 0);
    assert_eq!(at(&b.a, 0, 9), 1);
    assert_eq!(at(&b.a, 1, 1), 0);
    assert_eq!(at(&b.a, 2, 2), 1);
    assert_eq!(at(&b.a, 5, 5), 1);
    assert_eq!(at(&b.a, 0, 15), 1);
    assert_eq!(b.a.iter().filter(|c| **c == 0).count(), 13);
}

#[test]
fn board_parse_unknown_symbol() {
    assert_eq!(Board::from_str("#.\n#?").unwrap_err(), ParseError::UnknownSymbol('?'));
}

#[test]
fn board_parse_first_error_wins() {
    let mut text = String::from("#a\n");
    text.push_str(&".".repeat(20));
    assert_eq!(Board::from_str(&text).unwrap_err(), ParseError::UnknownSymbol('a'));
}

#[test]
fn board_parse_too_many_rows() {
    let text = "#\n".repeat(17);
    assert_eq!(Board::from_str(&text).unwrap_err(), ParseError::TooLarge);
}

#[test]
fn rotate_swaps_dimensions_and_turns_cells() {
    let l = piece("#.\n##\n");
    let r = l.rotate();
    assert_eq!((r.w, r.h), (2, 2));
    assert_eq!(at(&r.a, 0, 0), 1);
    assert_eq!(at(&r.a, 0, 1), 1);
    assert_eq!(at(&r.a, 1, 0), 1);
    assert_eq!(at(&r.a, 1, 1), 0);
    let bar = piece(BAR4).rotate();
    assert_eq!((bar.w, bar.h), (1, 4));
    assert!((0..4).all(|y| at(&bar.a, y, 0) == 1));
}

#[test]
fn rotate_four_times_is_identity() {
    for p in example_pieces() {
        let r = p.rotate().rotate().rotate().rotate();
        assert!(same_shape(&r, &p));
    }
    let odd = piece("#..\n###\n..#\n.#.\n");
    assert!(same_shape(&odd.rotate().rotate().rotate().rotate(), &odd));
    assert!(!same_shape(&odd.rotate(), &odd));
}

#[test]
fn rotations_of_square_collapse_to_one() {
    let r = pieces_with_rotations(vec![piece(SQUARE)]);
    assert_eq!(r.len(), 1);
    assert_eq!(r[0].len(), 1);
}

#[test]
fn rotations_of_l_tromino_are_four() {
    let r = pieces_with_rotations(vec![piece("#.\n##\n")]);
    assert_eq!(r[0].len(), 4);
}

#[test]
fn rotations_of_example_pieces() {
    let r = pieces_with_rotations(example_pieces());
    let counts: Vec<usize> = r.iter().map(|v| v.len()).collect();
    assert_eq!(counts, vec![4, 1, 2, 2]);
    for set in &r {
        for i in 0..set.len() {
            for j in (i + 1)..set.len() {
                assert!(!same_shape(&set[i], &set[j]));
            }
        }
    }
}

#[test]
fn rotations_come_in_increasing_order() {
    let r = pieces_with_rotations(vec![piece(TEE)]);
    for pair in r[0].windows(2) {
        let (p, q) = (&pair[0], &pair[1]);
        assert!((&p.a, p.w, p.h) < (&q.a, q.w, q.h));
    }
    // the horizontal bar sorts after the vertical one: its first row is fuller
    let bars = pieces_with_rotations(vec![piece(BAR3)]);
    assert_eq!((bars[0][0].w, bars[0][0].h), (1, 3));
    assert_eq!((bars[0][1].w, bars[0][1].h), (3, 1));
}

#[test]
fn place_counts_only_filled_cells() {
    let mut b = board(EXAMPLE_BOARD);
    let t = piece(TEE);
    let r = place_piece(&mut b, &t, Position { y: 0, x: 0 }, false);
    assert_eq!(r, (true, 3));
    assert_eq!(at(&b.a, 0, 0), 2);
    assert_eq!(at(&b.a, 1, 1), 1);
    assert_eq!(at(&b.a, 1, 0), 1);
}

#[test]
fn place_square_on_open_pocket() {
    let mut b = board(EXAMPLE_BOARD);
    let r = place_piece(&mut b, &piece(SQUARE), Position { y: 1, x: 1 }, false);
    assert_eq!(r, (true, 1));
    assert_eq!(at(&b.a, 2, 2), 2);
}

#[test]
fn place_on_blocked_cells_touches_nothing_open() {
    let mut b = board(EXAMPLE_BOARD);
    let r = place_piece(&mut b, &piece(SQUARE), Position { y: 10, x: 10 }, false);
    assert_eq!(r, (false, 4));
}

#[test]
fn place_then_retract_restores_board() {
    let orig = board(EXAMPLE_BOARD);
    for p in example_pieces() {
        for pos in [Position { y: 0, x: 0 }, Position { y: 1, x: 3 }, Position { y: 12, x: 12 }] {
            let mut b = orig.clone();
            place_piece(&mut b, &p, pos, false);
            assert_ne!(b.a, orig.a);
            place_piece(&mut b, &p, pos, true);
            assert_eq!(b.a, orig.a);
        }
    }
}

#[test]
fn penalty_infeasible_when_open_cell() {
    let b = board(EXAMPLE_BOARD);
    assert_eq!(calculate_penalty(&b), i32::MAX);
}

#[test]
fn penalty_zero_on_fully_blocked_board() {
    let b = board("");
    assert_eq!(calculate_penalty(&b), 0);
}

#[test]
fn penalty_sums_excess_cover() {
    let mut b = board("");
    place_piece(&mut b, &piece(SQUARE), Position { y: 0, x: 0 }, false);
    place_piece(&mut b, &piece(BAR3), Position { y: 0, x: 0 }, false);
    assert_eq!(calculate_penalty(&b), 7);
}

#[test]
fn overlap_counter_matches_final_penalty() {
    let mut b = board("#..#\n#..#");
    let r1 = place_piece(&mut b, &piece(SQUARE), Position { y: 0, x: 1 }, false);
    let r2 = place_piece(&mut b, &piece(BAR3), Position { y: 0, x: 0 }, false);
    assert_eq!(r1, (true, 0));
    assert_eq!(r2, (false, 3));
    assert!(r1.1 >= 0 && r2.1 >= 0);
    assert_eq!(calculate_penalty(&b), r1.1 + r2.1);
}

#[test]
fn penalty_single_open_cell() {
    let b = board("#.");
    assert_eq!(calculate_penalty(&b), i32::MAX);
    let mut c = b.clone();
    let r = place_piece(&mut c, &piece("#"), Position { y: 0, x: 1 }, false);
    assert_eq!(r, (true, 0));
    assert_eq!(calculate_penalty(&c), 0);
}

#[test]
fn render_marks_piece_cells() {
    let s = render(&piece(TEE), Position { y: 1, x: 2 });
    let lines: Vec<&str> = s.lines().collect();
    assert_eq!(lines.len(), 16);
    assert!(lines.iter().all(|l| l.len() == 16));
    assert_eq!(lines[0], "................");
    assert_eq!(lines[1], "..###...........");
    assert_eq!(lines[2], "...#............");
    assert_eq!(lines[3], "................");
    assert_eq!(s.len(), 16 * 17);
}

#[test]
fn board_and_piece_text() {
    assert_eq!(piece(TEE).to_text(), "\n###\n.#.\n");
    let t = board(EXAMPLE_BOARD).to_text();
    let lines: Vec<&str> = t.lines().collect();
    assert_eq!(lines[0], "");
    assert_eq!(lines[1], "##########.#####");
    assert_eq!(lines[2], "#....####..#####");
    assert_eq!(lines[16], "################");
}

fn covers_every_open_cell(b: &Board, pwr: &[Vec<Piece>], sol: &[Choice]) -> bool {
    let mut covered = vec![false; 256];
    for (d, (v, pos)) in sol.iter().enumerate() {
        if let Some(pos) = pos {
            let pic = render(&pwr[d][*v], *pos);
            for (y, line) in pic.lines().enumerate() {
                for (x, ch) in line.chars().enumerate() {
                    if ch == '#' {
                        covered[y * 16 + x] = true;
                    }
                }
            }
        }
    }
    (0..256).all(|i| b.a[i] != 0 || covered[i])
}

#[test]
fn example_search_finds_a_cover() {
    let b = board(EXAMPLE_BOARD);
    let (min, best, pwr) = solve(b.clone(), example_pieces());
    assert!(min < i32::MAX);
    assert!(min >= 0);
    let sol = best.expect("a cover exists");
    assert_eq!(sol.len(), 4);
    assert!(covers_every_open_cell(&b, &pwr, &sol));
    // replaying the placements gives a board of exactly that penalty
    let mut replay = b.clone();
    for (d, (v, pos)) in sol.iter().enumerate() {
        if let Some(pos) = pos {
            place_piece(&mut replay, &pwr[d][*v], *pos, false);
        }
    }
    assert_eq!(calculate_penalty(&replay), min);
}

#[test]
fn search_is_deterministic() {
    let b = board(EXAMPLE_BOARD);
    let (m1, s1, _) = solve(b.clone(), example_pieces());
    let (m2, s2, _) = solve(b, example_pieces());
    assert_eq!(m1, m2);
    assert_eq!(s1, s2);
}

#[test]
fn search_reports_infeasible_board() {
    let b = board("#....#");
    let (min, best, _) = solve(b, vec![piece(BAR3)]);
    assert_eq!(min, i32::MAX);
    assert!(best.is_none());
}

#[test]
fn search_restores_state() {
    let b = board("#..#\n####");
    let pwr = pieces_with_rotations(vec![piece("##"), piece("#")]);
    let mut state = SolutionState::new(b.clone());
    let mut min = i32::MAX;
    let mut best: Option<Vec<Choice>> = None;
    advance_solution_vector_or_test_solution(&pwr, &mut state, &mut min, &mut best);
    assert_eq!(state.board.a, b.a);
    assert!(state.solution.is_empty());
    assert_eq!(state.current_penalty, 0);
    assert_eq!(min, 0);
    let sol = best.unwrap();
    assert_eq!(sol[0].1, Some(Position { y: 0, x: 1 }));
    assert_eq!(sol[1].1, None);
}

#[test]
fn ties_keep_the_first_solution_found() {
    let b = board("#..#\n####");
    let (min, best, _) = solve(b, vec![piece("##"), piece("##")]);
    assert_eq!(min, 0);
    let sol = best.unwrap();
    assert_eq!(sol, vec![(0, None), (1, Some(Position { y: 0, x: 1 }))]);
}
