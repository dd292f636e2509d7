use sudoxu::board::Board;
use sudoxu::cell::CandidateError;
use sudoxu::grid::Grid;
use sudoxu::idx::GridIdx;
use sudoxu::propagate::Propagator;
use sudoxu::solver::solve_board;

const EASY: &str =
    "530070000600195000098000060800060003400803001700020006060000280000419005000080079";
const EASY_SOLVED: &str =
    "534678912672195348198342567859761423426853791713924856961537284287419635345286179";

#[test]
fn grid_from_str() {
    let s = EASY.to_string();
    assert!(Grid::try_from(s).is_ok());
}

#[test]
fn grid_from_str_counts_digits_only() {
    let spaced: String = EASY.chars().flat_map(|c| [c, ' ']).collect();
    assert!(Grid::try_from(spaced).is_ok());
    assert!(Grid::try_from(EASY[..80].to_string()).is_err());
    assert!(Grid::try_from(format!("{EASY}1")).is_err());
    assert!(Grid::try_from(format!("é{EASY}→")).is_ok());
}

#[test]
fn easy_puzzle_propagates_to_the_solution() {
    let mut g = Grid::try_from(EASY.to_string()).unwrap();
    assert_eq!(g.solve(), Ok(()));
    for p in 0..81 {
        assert!(g.get_cell(GridIdx::new(p).unwrap()).is_known(), "cell {p} is not known");
    }
    let text = g.to_board().to_string();
    assert_eq!(text, EASY_SOLVED);
    let again = Board::try_from(text.as_str()).unwrap();
    assert_eq!(again.to_string(), text);
}

#[test]
fn propagation_step_reports_change() {
    let mut g = Grid::try_from(EASY.to_string()).unwrap();
    assert_eq!(g.propagate_step(), Ok(true));
    let mut solved = Grid::try_from(EASY_SOLVED.to_string()).unwrap();
    assert_eq!(solved.propagate_step(), Ok(false));
}

#[test]
fn swapped_digits_are_inconsistent() {
    // swapping the 5 at (0, 0) with the 7 at (1, 1) gives row 0 two 7s
    let mut chars: Vec<char> = EASY_SOLVED.chars().collect();
    chars.swap(0, 10);
    let text: String = chars.into_iter().collect();
    let mut g = Grid::try_from(text).unwrap();
    let r = g.solve();
    assert!(r.is_err());
    assert_eq!(r, Err(CandidateError::KnownNoNum));
}

#[test]
fn conflicting_givens_are_inconsistent() {
    let mut text: Vec<char> = EASY.chars().collect();
    text[1] = '5';
    let mut g = Grid::try_from(text.into_iter().collect::<String>()).unwrap();
    assert!(g.solve().is_err());
}

#[test]
fn solved_board_round_trips() {
    let g = Grid::try_from(EASY_SOLVED.to_string()).unwrap();
    assert_eq!(g.to_board().to_string(), EASY_SOLVED);
}

#[test]
fn unsolved_board_prints_zeros() {
    let g = Grid::try_from(EASY.to_string()).unwrap();
    assert_eq!(g.to_board().to_string(), EASY);
}

#[test]
fn board_parse_errors() {
    assert!(Board::try_from("123").is_err());
    let b = Board::try_from(EASY).unwrap();
    assert_eq!(b.get(0), 5);
    assert_eq!(b.get(2), 0);
}

#[test]
fn solve_board_with_propagation() {
    let board = solve_board::<Propagator>(EASY).unwrap();
    assert_eq!(board.to_string(), EASY_SOLVED);
    assert!(solve_board::<Propagator>("12").is_err());
}

const EASY_FRAMED: &str = "\
┌───────────────────────┐
│ 5 3   │   7   │       │
│ 6     │ 1 9 5 │       │
│   9 8 │       │   6   │
│ ──────┼───────┼────── │
│ 8     │   6   │     3 │
│ 4     │ 8   3 │     1 │
│ 7     │   2   │     6 │
│ ──────┼───────┼────── │
│   6   │       │ 2 8   │
│       │ 4 1 9 │     5 │
│       │   8   │   7 9 │
└───────────────────────┘
";

#[test]
fn grid_to_str() {
    let grid = Grid::try_from(EASY.to_string()).unwrap();
    let grid_string = grid.to_string();
    let expected = EASY_FRAMED.to_string();
    assert_eq!(grid_string, expected)
}

#[test]
fn check_all_finds_the_first_bad_cell() {
    let g = Grid::try_from(EASY.to_string()).unwrap();
    assert_eq!(g.check_all(), Ok(()));
    let mut bad = Grid::try_from(EASY.to_string()).unwrap();
    bad.set_cell(GridIdx::new(2).unwrap(), sudoxu::cell::Cell::new_unchecked(0));
    bad.set_cell(GridIdx::new(5).unwrap(), sudoxu::cell::Cell::new_unchecked(1));
    assert_eq!(bad.check_all(), Err(CandidateError::NoCandidates));
}

#[test]
fn line_projection_keeps_the_solution() {
    let solution: Vec<u32> = EASY_SOLVED.chars().map(|c| c.to_digit(10).unwrap()).collect();
    let mut g = Grid::try_from(EASY.to_string()).unwrap();
    for _ in 0..2 {
        for a in 0..6 {
            let mut fa = g.get_folded_area(sudoxu::idx::AreaIdx::new(a).unwrap());
            fa.single_lines();
            fa.double_lines();
            g.apply_filters(&fa.get_filters());
        }
        for p in 0..81 {
            let w = g.get_cell(GridIdx::new(p).unwrap()).to_u16();
            assert!(w & (1 << solution[p]) != 0, "cell {p} lost its solution digit");
        }
        let _ = g.propagate_step();
    }
}

#[test]
fn propagate_board_reports_inconsistency() {
    let solved = sudoxu::propagate::propagate_board(Board::try_from(EASY).unwrap()).unwrap();
    assert_eq!(solved.to_string(), EASY_SOLVED);
    let mut chars: Vec<char> = EASY_SOLVED.chars().collect();
    chars.swap(0, 10);
    let text: String = chars.into_iter().collect();
    let r = sudoxu::propagate::propagate_board(Board::try_from(text.as_str()).unwrap());
    assert_eq!(r.err(), Some(CandidateError::KnownNoNum));
}

#[test]
fn band_known_word_clears_the_flag() {
    // cell 0 known as 4: projection in band 3 must not treat bit 0 as a digit
    let mut g = Grid::default();
    g.set_cell(GridIdx::new(0).unwrap(), sudoxu::cell::Cell::new_known(sudoxu::num::Num::new(4).unwrap()));
    let mut fa = g.get_folded_area(sudoxu::idx::AreaIdx::new(3).unwrap());
    assert!(!fa.single_lines());
    assert!(fa.get_filters().iter().all(|f| f.mask.to_u16() & 1 == 0));
}

#[test]
fn printed_board_parses_back() {
    let b = Board::try_from(EASY).unwrap();
    let again = Board::try_from(b.to_string().as_str()).unwrap();
    assert_eq!(again.to_string(), b.to_string());
    let framed = Board::try_from(b.framed().as_str()).unwrap();
    assert_eq!(framed.to_string(), EASY);
}

#[test]
fn solved_picture_reads_back() {
    let g = Grid::try_from(EASY_SOLVED.to_string()).unwrap();
    let back = Board::try_from(g.to_string().as_str()).unwrap();
    assert_eq!(back.to_string(), EASY_SOLVED);
}

#[test]
fn propagate_board_keeps_the_givens() {
    let b = sudoxu::propagate::propagate_board(Board::try_from(EASY).unwrap()).unwrap();
    let out = b.to_string();
    for (g, o) in EASY.chars().zip(out.chars()) {
        if g != '0' {
            assert_eq!(g, o);
        }
    }
}
