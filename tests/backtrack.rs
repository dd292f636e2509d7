use sudoxu::backtrack::{Backtracker, Grid};
use sudoxu::board::Board;
use sudoxu::solver::solve_board;

const EASY: &str =
    "530070000600195000098000060800060003400803001700020006060000280000419005000080079";
const EASY_SOLVED: &str =
    "534678912672195348198342567859761423426853791713924856961537284287419635345286179";

#[test]
fn backtracker_solves_the_easy_puzzle() {
    let board = solve_board::<Backtracker>(EASY).unwrap();
    assert_eq!(board.to_string(), EASY_SOLVED);
}

#[test]
fn guess_idxs_lists_the_empty_cells() {
    let g = Grid::from(Board::try_from(EASY).unwrap());
    let idxs = g.guess_idxs();
    assert_eq!(idxs.len(), EASY.chars().filter(|&c| c == '0').count());
    assert_eq!(&idxs[..4], &[2, 3, 5, 6]);
}

#[test]
fn backtrack_solve_reports_success() {
    let mut g = Grid::from(Board::try_from(EASY).unwrap());
    assert!(g.backtrack_solve());
    assert_eq!(g.to_board().to_string(), EASY_SOLVED);
}

#[test]
fn backtrack_leaves_an_unsolvable_board() {
    // the first cell can hold no digit: its row has 1-8 and its column has 9
    let text = format!("0{}{}", "12345678", "9".to_string() + &"0".repeat(71));
    let mut g = Grid::from(Board::try_from(text.as_str()).unwrap());
    assert!(!g.backtrack_solve());
    assert_eq!(g.to_board().to_string(), text);
}

#[test]
fn solved_board_needs_no_guess() {
    let mut g = Grid::from(Board::try_from(EASY_SOLVED).unwrap());
    assert!(g.guess_idxs().is_empty());
    assert!(g.backtrack_solve());
}

#[test]
fn framed_board_shows_zeros() {
    let b = Board::try_from(EASY).unwrap();
    let framed = b.framed();
    let lines: Vec<&str> = framed.lines().collect();
    assert_eq!(lines.len(), 13);
    assert_eq!(lines[0], "┌───────────────────────┐");
    assert_eq!(lines[1], "│ 5 3 0 │ 0 7 0 │ 0 0 0 │");
    assert_eq!(lines[4], "│ ──────┼───────┼────── │");
    assert_eq!(lines[12], "└───────────────────────┘");
    assert!(!framed.ends_with('\n'));
    assert_eq!(Board::try_from(framed.as_str()).unwrap().to_string(), EASY);
}
