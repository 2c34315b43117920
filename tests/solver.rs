use std::collections::BTreeSet;

use sudoku_solver::board::{initialize_sudoku, sudoku_to_string, CandidateGrid};
use sudoku_solver::candidates::{count_digits, first_digit, has_digit, remove_digit, ALL_DIGITS};
use sudoku_solver::display::format_board;
use sudoku_solver::propagate::not_consistent;
use sudoku_solver::search::{
    branch, candidate_digits, non_parallel_search, search, search_scoped, select_cell,
    solve_non_parallel, solve_par_rayon, solve_par_scoped,
};
use sudoku_solver::topology::{cross, get_peers, get_squares, get_units, unit_cells, Topology};

const HARD: &str =
    "4.....8.5.3..........7......2.....6.....8.4......1.......6.3.7.5..2.....1.4......";
const HARD_SOLUTION: &str =
    "417369825632158947958724316825437169791586432346912758289643571573291684164875293";
const FILLED: &str =
    "123456789456789123789123456234567891567891234891234567345678912678912345912345678";

fn assert_valid_solution(s: &str) {
    let digits: Vec<u32> = s.chars().map(|c| c.to_digit(10).unwrap()).collect();
    assert_eq!(digits.len(), 81);
    let full: BTreeSet<u32> = (1..=9).collect();
    for u in 0..9 {
        let row: BTreeSet<u32> = (0..9).map(|k| digits[u * 9 + k]).collect();
        let col: BTreeSet<u32> = (0..9).map(|k| digits[k * 9 + u]).collect();
        let bx: BTreeSet<u32> =
            (0..9).map(|k| digits[(u / 3) * 27 + (u % 3) * 3 + (k / 3) * 9 + k % 3]).collect();
        assert_eq!(row, full);
        assert_eq!(col, full);
        assert_eq!(bx, full);
    }
}

fn keeps_givens(s: &str, board: &str) -> bool {
    s.chars().zip(board.chars()).all(|(a, b)| b == '.' || a == b)
}

fn as_set(v: &[String]) -> BTreeSet<String> {
    v.iter().cloned().collect()
}

#[test]
fn hard_board_has_one_solution() {
    let r = solve_non_parallel(HARD);
    assert_eq!(r, vec![HARD_SOLUTION.to_string()]);
    assert_valid_solution(&r[0]);
}

#[test]
fn hard_board_strategies_agree() {
    let seq = solve_non_parallel(HARD);
    let par = solve_par_rayon(HARD);
    assert_eq!(par, vec![HARD_SOLUTION.to_string()]);
    assert_eq!(as_set(&seq), as_set(&par));
    let scoped = solve_par_scoped(HARD);
    assert_eq!(scoped, vec![HARD_SOLUTION.to_string()]);
}

#[test]
fn filled_board_returns_itself() {
    assert_eq!(solve_non_parallel(FILLED), vec![FILLED.to_string()]);
    assert_eq!(solve_par_rayon(FILLED), vec![FILLED.to_string()]);
    assert_eq!(solve_par_scoped(FILLED), vec![FILLED.to_string()]);
}

#[test]
fn two_sevens_in_a_row_have_no_solution() {
    let board = "7......7.........................................................................";
    assert!(solve_non_parallel(board).is_empty());
    assert!(solve_par_rayon(board).is_empty());
    assert!(solve_par_scoped(board).is_empty());
}

#[test]
fn two_givens_in_a_column_have_no_solution() {
    let mut b: Vec<char> = ".".repeat(81).chars().collect();
    b[4] = '3';
    b[76] = '3';
    let board: String = b.into_iter().collect();
    assert!(solve_non_parallel(&board).is_empty());
}

#[test]
fn two_givens_in_a_box_have_no_solution() {
    let mut b: Vec<char> = FILLED.chars().collect();
    for c in b.iter_mut().take(27).skip(9) {
        *c = '.';
    }
    b[10] = '1';
    b[20] = '1';
    let board: String = b.into_iter().collect();
    assert!(solve_non_parallel(&board).is_empty());
}

#[test]
fn one_blank_row_has_one_solution() {
    let board = format!("{}{}", ".".repeat(9), &FILLED[9..]);
    assert_eq!(solve_non_parallel(&board), vec![FILLED.to_string()]);
}

#[test]
fn two_blank_rows_have_eight_solutions() {
    let board = format!("{}{}", ".".repeat(18), &FILLED[18..]);
    let seq = solve_non_parallel(&board);
    assert_eq!(seq.len(), 8);
    assert_eq!(as_set(&seq).len(), 8);
    for s in &seq {
        assert_valid_solution(s);
        assert!(keeps_givens(s, &board));
    }
    assert!(seq.contains(&FILLED.to_string()));
    let par = solve_par_rayon(&board);
    assert_eq!(par.len(), 8);
    assert_eq!(as_set(&seq), as_set(&par));
    let scoped = solve_par_scoped(&board);
    assert_eq!(scoped.len(), 8);
    assert_eq!(as_set(&seq), as_set(&scoped));
}

#[test]
fn blank_middle_band_has_exact_count() {
    let board = format!("{}{}{}", &FILLED[..27], ".".repeat(27), &FILLED[54..]);
    let seq = solve_non_parallel(&board);
    assert_eq!(seq.len(), 1728);
    assert_eq!(as_set(&seq).len(), 1728);
    for s in &seq {
        assert_valid_solution(s);
        assert!(keeps_givens(s, &board));
    }
    let par = solve_par_rayon(&board);
    assert_eq!(as_set(&seq), as_set(&par));
    let scoped = solve_par_scoped(&board);
    assert_eq!(scoped.len(), 1728);
    assert_eq!(as_set(&seq), as_set(&scoped));
}

#[test]
fn scoped_strategy_keeps_sequential_order() {
    let board = format!("{}{}", ".".repeat(18), &FILLED[18..]);
    assert_eq!(solve_par_scoped(&board), solve_non_parallel(&board));
}

#[test]
fn propagation_twice_leaves_store_unchanged() {
    let topo = Topology::build_topology();
    let mut g = initialize_sudoku(HARD);
    assert!(!not_consistent(&mut g, &topo));
    let once = g;
    assert!(!not_consistent(&mut g, &topo));
    assert_eq!(once.cells, g.cells);
}

#[test]
fn propagation_narrows_peers() {
    let topo = Topology::build_topology();
    let mut g = initialize_sudoku(HARD);
    assert_eq!(g.cells[1], ALL_DIGITS);
    assert!(!not_consistent(&mut g, &topo));
    // cell A2 sees the 4, 8 and 5 of row A and the 3 of its box
    assert!(!has_digit(g.cells[1], 4));
    assert!(!has_digit(g.cells[1], 8));
    assert!(!has_digit(g.cells[1], 5));
    assert!(!has_digit(g.cells[1], 3));
    assert!(has_digit(g.cells[1], 1));
    assert_eq!(g.cells[0], 1u16 << 4);
}

#[test]
fn propagation_finds_contradiction() {
    let topo = Topology::build_topology();
    let board = "12345678.........9...............................................................";
    let mut g = initialize_sudoku(board);
    assert!(not_consistent(&mut g, &topo));
}

#[test]
fn initialize_sets_masks() {
    let g = initialize_sudoku(HARD);
    assert_eq!(g.cells[0], 1u16 << 4);
    assert_eq!(g.cells[6], 1u16 << 8);
    assert_eq!(g.cells[1], ALL_DIGITS);
    assert_eq!(count_digits(g.cells[1]), 9);
    assert_eq!(count_digits(g.cells[0]), 1);
}

#[test]
fn serialize_resolved_store() {
    let g = initialize_sudoku(FILLED);
    assert_eq!(sudoku_to_string(&g), FILLED);
}

#[test]
fn mask_helpers() {
    let m = remove_digit(ALL_DIGITS, 1);
    assert_eq!(count_digits(m), 8);
    assert_eq!(first_digit(m), 2);
    assert!(!has_digit(m, 1));
    assert_eq!(candidate_digits(m), vec![2, 3, 4, 5, 6, 7, 8, 9]);
    assert_eq!(candidate_digits((1u16 << 3) | (1u16 << 7)), vec![3, 7]);
    assert_eq!(count_digits(0), 0);
}

#[test]
fn topology_shapes() {
    let peers = get_peers();
    assert_eq!(peers.len(), 81);
    for (i, p) in peers.iter().enumerate() {
        assert_eq!(p.len(), 20);
        assert!(!p.contains(&i));
    }
    let units = get_units();
    assert_eq!(units[10][0], (9..18).collect::<Vec<usize>>());
    assert_eq!(units[10][1], vec![1, 10, 19, 28, 37, 46, 55, 64, 73]);
    assert_eq!(units[10][2], vec![0, 1, 2, 9, 10, 11, 18, 19, 20]);
    assert_eq!(unit_cells(2, 80), vec![60, 61, 62, 69, 70, 71, 78, 79, 80]);
}

#[test]
fn cell_names() {
    assert_eq!(cross("AB", "12"), vec!["A1", "A2", "B1", "B2"]);
    assert!(cross("", "12").is_empty());
    let squares = get_squares();
    assert_eq!(squares.len(), 81);
    assert_eq!(squares[0], "A1");
    assert_eq!(squares[10], "B2");
    assert_eq!(squares[80], "I9");
    assert_eq!(Topology::build_topology().squares, squares);
}

#[test]
fn select_cell_takes_fewest_candidates() {
    let mut g = CandidateGrid { cells: [1u16 << 1; 81] };
    assert_eq!(select_cell(&g), None);
    g.cells[5] = ALL_DIGITS;
    g.cells[40] = (1u16 << 2) | (1u16 << 3);
    g.cells[50] = (1u16 << 4) | (1u16 << 5);
    assert_eq!(select_cell(&g), Some(40));
}

#[test]
fn branch_and_search_on_store() {
    let topo = Topology::build_topology();
    let board = format!("{}{}", ".".repeat(18), &FILLED[18..]);
    let mut g = initialize_sudoku(&board);
    assert!(!not_consistent(&mut g, &topo));
    let c = select_cell(&g).unwrap();
    let d = first_digit(g.cells[c]);
    let next = branch(&g, &topo, c, d).unwrap();
    assert_eq!(next.cells[c], 1u16 << d);
    let all = non_parallel_search(g, &topo);
    let par = search(g, &topo);
    let scoped = search_scoped(g, &topo);
    assert_eq!(all.len(), 8);
    assert_eq!(as_set(&all), as_set(&par));
    assert_eq!(as_set(&all), as_set(&scoped));
    let with_d = non_parallel_search(next, &topo);
    assert!(!with_d.is_empty());
    assert!(with_d.iter().all(|s| s.as_bytes()[c] == b'0' + d as u8));
}

#[test]
fn format_board_layout() {
    let expected = "4 . . |. . . |8 . 5\n. 3 . |. . . |. . .\n. . . |7 . . |. . .\n------+-------+------\n. 2 . |. . . |. 6 .\n. . . |. 8 . |4 . .\n. . . |. 1 . |. . .\n------+-------+------\n. . . |6 . 3 |. 7 .\n5 . . |2 . . |. . .\n1 . 4 |. . . |. . .\n";
    assert_eq!(format_board(HARD), expected);
    assert_eq!(format_board("12"), "1 2 ");
    assert_eq!(format_board(""), "");
}
