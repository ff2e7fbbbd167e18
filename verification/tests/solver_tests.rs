use sudoku::board::Board;
use sudoku::values::CellValue;
use sudoku::solver::{classify, find_contradiction, propagate_step, reduce, solve, Memo, Verdict};
use sudoku::strategies::{
    direct_tuples, group_intersection, indirect_pairs, indirect_triples, peephole,
    trivial_eliminate, STRATEGY_COUNT,
};

const COMPLETE: &str =
    "123456789456789123789123456214365897365897214897214365531642978642978531978531642";

// The complete grid above with the four corner cells of an unavoidable
// rectangle blanked out: exactly two completions exist.
const TWO_SOLUTIONS: &str =
    "__3456789456789123789123456__4365897365897214897214365531642978642978531978531642";

const EASY: &str =
    "53__7____6__195____98____6_8___6___34__8_3__17___2___6_6____28____419__5____8__79";

const NEEDS_GUESSING: &str =
    "1____7_9__3__2___8__96__5____53__9___1__8___26____4___3______1__4______7__7___3__";

#[test]
fn blank_board_is_ambiguous_and_unsolved() {
    let b = Board::create_blank();
    assert!(!b.is_solved());
    assert!(!b.is_contradiction());
    assert!(matches!(classify(&b), Verdict::Ambiguous));
}

#[test]
fn complete_valid_grid_solves_at_rank_zero() {
    let b = Board::load(COMPLETE);
    assert!(b.is_solved());
    assert!(!b.is_contradiction());
    let mut memo = Memo::new();
    let (res, rank) = solve(b, &mut memo);
    assert!(res.is_solved());
    assert!(!res.is_contradiction());
    assert!(matches!(classify(&res), Verdict::Solved));
    assert_eq!(rank, 0);
    assert!(memo.is_empty());
}

#[test]
fn duplicate_in_row_is_a_contradiction() {
    let mut input = String::from("55");
    for _ in 0..79 {
        input.push('_');
    }
    let b = Board::load(&input);
    assert!(b.is_contradiction());
    let mut memo = Memo::new();
    let (res, _rank) = solve(b, &mut memo);
    assert!(res.is_contradiction());
    assert!(matches!(classify(&res), Verdict::NoSolution));
}

#[test]
fn easy_puzzle_solves_without_guessing() {
    let b = Board::load(EASY);
    let mut memo = Memo::new();
    let (res, rank) = solve(b, &mut memo);
    assert!(matches!(classify(&res), Verdict::Solved));
    assert!(rank <= 1);
    assert!(memo.is_empty());
}

#[test]
fn guessing_puzzle_solves_at_top_rank_with_memo_used() {
    let b = Board::load(NEEDS_GUESSING);
    let mut memo = Memo::new();
    let (res, rank) = solve(b, &mut memo);
    assert!(matches!(classify(&res), Verdict::Solved));
    assert_eq!(rank, STRATEGY_COUNT);
    assert!(!memo.is_empty());
}

#[test]
fn two_completion_board_stays_ambiguous() {
    let b = Board::load(TWO_SOLUTIONS);
    let mut memo = Memo::new();
    let (res, rank) = solve(b, &mut memo);
    assert!(matches!(classify(&res), Verdict::Ambiguous));
    assert_eq!(rank, STRATEGY_COUNT);
}

#[test]
fn memo_reuses_identical_hypothesis_verdicts() {
    // Two distinct probes of the same cell consult the same cached entries:
    // the second call answers from the memo alone and adds nothing new.
    let b = Board::load(TWO_SOLUTIONS);
    let (stalled, _rank) = reduce(b);
    assert!(!stalled.is_solved() && !stalled.is_contradiction());
    let mut pos = (0usize, 0usize);
    let mut found = false;
    'outer: for r in 0..9usize {
        for c in 0..9usize {
            if stalled.cell_at(r, c).candidate_count() > 1 {
                pos = (r, c);
                found = true;
                break 'outer;
            }
        }
    }
    assert!(found);
    let mut memo = Memo::new();
    let first = find_contradiction(&stalled, pos, &mut memo);
    assert!(!memo.is_empty());
    let mut again = Memo::new();
    let second = find_contradiction(&stalled, pos, &mut again);
    assert_eq!(first.is_some(), second.is_some());
    // Re-probing with the filled memo reuses every verdict.
    let third = find_contradiction(&stalled, pos, &mut memo);
    assert_eq!(first.is_some(), third.is_some());
}

#[test]
fn reduce_reaches_a_fixpoint_on_a_stalled_board() {
    // Local idempotence, observed: each strategy maps the stalled board to
    // itself, so a second application changes nothing either.
    let b = Board::load(TWO_SOLUTIONS);
    let (stalled, _rank) = reduce(b);
    let after = trivial_eliminate(&stalled);
    assert!(after.grid_eq(&stalled));
    assert!(trivial_eliminate(&after).grid_eq(&after));
    let after = peephole(&stalled);
    assert!(after.grid_eq(&stalled));
    assert!(peephole(&after).grid_eq(&after));
    let after = group_intersection(&stalled);
    assert!(after.grid_eq(&stalled));
    assert!(group_intersection(&after).grid_eq(&after));
    let after = direct_tuples(&stalled);
    assert!(after.grid_eq(&stalled));
    assert!(direct_tuples(&after).grid_eq(&after));
    let after = indirect_pairs(&stalled);
    assert!(after.grid_eq(&stalled));
    assert!(indirect_pairs(&after).grid_eq(&after));
    let after = indirect_triples(&stalled);
    assert!(after.grid_eq(&stalled));
    assert!(indirect_triples(&after).grid_eq(&after));
}

#[test]
fn strategies_never_remove_solution_values() {
    // Soundness, observed on a puzzle with the known unique completion
    // COMPLETE: after every strategy, each cell still admits the completion's
    // value at that cell.
    let b = Board::load(EASY_PREFIX_OF_COMPLETE);
    let sol = Board::load(COMPLETE);
    for out in [
        trivial_eliminate(&b),
        peephole(&b),
        group_intersection(&b),
        direct_tuples(&b),
        indirect_pairs(&b),
        indirect_triples(&b),
    ] {
        for r in 0..9usize {
            for c in 0..9usize {
                let v = sol.cell_at(r, c).known().unwrap();
                assert!(out.cell_at(r, c).contains(v));
            }
        }
    }
}

// COMPLETE with its second row blanked: its unique completion is COMPLETE.
const EASY_PREFIX_OF_COMPLETE: &str =
    "123456789_________789123456214365897365897214897214365531642978642978531978531642";

#[test]
fn loading_tolerates_separators_and_short_input() {
    let with_newlines = "12_\n_5_\n__9";
    let b = Board::load(with_newlines);
    assert_eq!(b.cell_at(0, 0).known(), Some(CellValue::One));
    assert_eq!(b.cell_at(0, 1).known(), Some(CellValue::Two));
    assert_eq!(b.cell_at(0, 2).known(), None);
    assert_eq!(b.cell_at(0, 4).known(), Some(CellValue::Five));
    assert_eq!(b.cell_at(0, 8).known(), Some(CellValue::Nine));
    // Trailing cells of a short input stay fully ambiguous.
    assert_eq!(b.cell_at(1, 0).candidate_count(), 9);
    assert_eq!(b.cell_at(8, 8).candidate_count(), 9);
}

#[test]
fn loading_ignores_characters_past_the_last_cell() {
    let mut input = String::new();
    for _ in 0..81 {
        input.push('1');
    }
    input.push_str("234");
    let b = Board::load(&input);
    for r in 0..9usize {
        for c in 0..9usize {
            assert_eq!(b.cell_at(r, c).known(), Some(CellValue::One));
        }
    }
}

#[test]
fn trivial_elimination_strikes_known_values() {
    let b = Board::load("1________________________________________________________________________________");
    let out = trivial_eliminate(&b);
    // The known cell keeps its single value.
    assert_eq!(out.cell_at(0, 0).known(), Some(CellValue::One));
    // Its row, column and box peers lose the value 1.
    assert!(!out.cell_at(0, 5).contains(CellValue::One));
    assert!(!out.cell_at(5, 0).contains(CellValue::One));
    assert!(!out.cell_at(2, 2).contains(CellValue::One));
    assert_eq!(out.cell_at(0, 5).candidate_count(), 8);
    // A cell sharing no group keeps all nine candidates.
    assert_eq!(out.cell_at(5, 5).candidate_count(), 9);
}

#[test]
fn peephole_forces_a_hidden_single() {
    // After trivial elimination, value 1 survives in row 0 only at the first
    // cell, which still has nine candidates: only the hidden-single step can
    // force it.
    let input = "____________1___________1____________1_________1_________________________________";
    let b = Board::load(input);
    let reduced = trivial_eliminate(&b);
    assert_eq!(reduced.cell_at(0, 0).candidate_count(), 9);
    let out = peephole(&reduced);
    assert_eq!(out.cell_at(0, 0).known(), Some(CellValue::One));
}

#[test]
fn propagate_step_reports_the_firing_strategy() {
    // On the easy puzzle the weakest strategy fires first.
    let b = Board::load(EASY);
    let step = propagate_step(&b);
    assert!(step.is_some());
    let (next, fired) = step.unwrap();
    assert_eq!(fired, 0);
    assert!(!next.grid_eq(&b));
    // A stalled board is a fixpoint: no strategy fires.
    let (stalled, _rank) = reduce(Board::load(TWO_SOLUTIONS));
    assert!(propagate_step(&stalled).is_none());
}

#[test]
fn solve_leaves_the_memo_alone_when_propagation_settles() {
    let mut memo = Memo::new();
    let (res, rank) = solve(Board::load(EASY), &mut memo);
    assert!(res.is_solved());
    assert!(rank < STRATEGY_COUNT);
    assert!(memo.is_empty());
    let mut memo = Memo::new();
    let (res, _rank) = solve(Board::load("55_______________________________________________________________________________"), &mut memo);
    assert!(res.is_contradiction());
    assert!(memo.is_empty());
}
