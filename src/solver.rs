//! The interface between boards and solving strategies.
use vstd::prelude::*;

use crate::board::{digits_of, Board, BoardError};
use vstd::utf8::encode_utf8;

verus! {

/// A sudoku solving strategy.
pub trait Solver: Sized {
    /// Sets the strategy up from a board.
    fn init(board: Board) -> Self;

    /// Solves and returns the resulting board.
    fn solve(self) -> Board;
}

/// Reads a board from text and solves it with the strategy `S`; fails exactly when the
/// text does not hold 81 digits.
pub fn solve_board<S: Solver>(board_str: &str) -> (r: Result<Board, BoardError>)
    ensures
        r is Ok <==> digits_of(encode_utf8(board_str@)).len() == 81,
{
    match Board::try_from(board_str) {
        Ok(board) => {
            let solver = S::init(board);
            Ok(solver.solve())
        },
        Err(e) => Err(e),
    }
}

/// A solver that can advance one step at a time.
pub trait StepSolver: Solver {
    /// Computes the next step and returns the board after it, or `None` once solved.
    fn step(&mut self) -> Option<Board>;
}

/// A solver that logs its work.
pub trait LoggingSolver: Solver {
    /// Solves the board, returning it together with a log of the steps.
    fn solve_with_logs(self) -> (Board, Vec<String>);
}

/// A solver that steps through its work with a log line per step.
pub trait StepLoggingSolver: Solver {
    /// Computes the next step, returning the board after it and its log line.
    fn step(&mut self) -> Option<(Board, String)>;
}

} // verus!
