//! A Sudoku analyzer: a candidate-set board over nine symbolic values, an
//! ordered library of six deduction strategies proven sound against every
//! valid completion, and a backtracking solver with memoized hypothesis
//! testing that classifies a grid as unsolvable, uniquely solved so far as
//! its search can tell, or ambiguous.

pub mod board;
pub mod laws;
pub mod solver;
pub mod strategies;
pub mod values;
