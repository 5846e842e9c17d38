use potz1000::game::score;
use potz1000::iterative::explicit_dynamic_programming;
use potz1000::optimal::Output;
use potz1000::recursive::{naive, resolve, with_cache};
use potz1000::user::{precompute, PrecomputeAlgorithm};

fn count_empty(board: &[u32]) -> usize {
    board.iter().filter(|d| **d == 0).count()
}

#[test]
fn score_of_full_boards() {
    assert_eq!(score(&[1, 1, 1, 1, 1, 1, 1, 1, 1]), 647);
    assert_eq!(score(&[3, 3, 3, 3, 3, 3, 3, 3, 3]), -59);
    assert_eq!(score(&[6, 6, 6, 6, 6, 6, 6, 6, 6]), 878);
    assert_eq!(score(&[3, 3, 3, 3, 3, 3, 3, 3, 4]), -30);
}

#[test]
fn one_sided_die_leaves_one_outcome() {
    let out = naive(2);
    assert_eq!(out.scores[0], Some(647));
    let out = with_cache(2);
    assert_eq!(out.scores[0], Some(647));
    let out = explicit_dynamic_programming(2);
    assert_eq!(out.scores[0], Some(647));
}

#[test]
fn two_sided_die_optimum() {
    let out = explicit_dynamic_programming(3);
    assert_eq!(out.scores[0], Some(180557));
    assert_eq!(out.moves[0][0], 7);
    assert_eq!(out.moves[0][1], 1);
    let expectation = out.scores[0].unwrap() as f64 / 2f64.powi(9);
    assert!((expectation - 352.650390625).abs() < 1e-9);
}

#[test]
fn builders_produce_the_same_tables() {
    let a = explicit_dynamic_programming(3);
    let b = with_cache(3);
    assert_eq!(a.scores, b.scores);
    assert_eq!(a.moves, b.moves);
    let c = precompute(PrecomputeAlgorithm::ImplicitDynamicProgramming, 3);
    assert_eq!(a.scores, c.scores);
    let d = naive(2);
    let e = precompute(PrecomputeAlgorithm::ExplicitDynamicProgramming, 2);
    assert_eq!(d.scores[0], e.scores[0]);
}

#[test]
fn every_board_with_an_empty_cell_is_resolved() {
    let out = explicit_dynamic_programming(3);
    let mut missing = 0;
    for (i, s) in out.scores.iter().enumerate() {
        let digits = potz1000::codec::from_value(i, 9, 3);
        let empty = digits.iter().any(|d| *d == 0);
        if empty != s.is_some() {
            missing += 1;
        }
    }
    assert_eq!(missing, 0);
}

#[test]
fn single_empty_cell_sums_scores_of_each_roll() {
    let out = explicit_dynamic_programming(3);
    let board = [1u32, 2, 0, 1, 2, 1, 2, 1, 2];
    let idx = potz1000::codec::to_value(&board, 3);
    assert_eq!(out.scores[idx], Some(990));
    let mut filled = board;
    filled[2] = 1;
    let first = score(&filled);
    filled[2] = 2;
    let second = score(&filled);
    assert_eq!(first + second, 990);
    assert_eq!(out.decision(&board, 1, 3), Some(2));
    assert_eq!(out.decision(&board, 2, 3), Some(2));
}

#[test]
fn decisions_pick_an_empty_cell_with_least_total() {
    let mut out = explicit_dynamic_programming(3);
    let board = [0u32, 0, 1, 2, 1, 0, 2, 1, 0];
    assert_eq!(out.decision(&board, 1, 3), Some(8));
    assert_eq!(out.decision(&board, 2, 3), Some(1));
    let mut b = board.to_vec();
    assert_eq!(resolve(count_empty(&b), &mut b, 3, &mut out), 7795);
    for roll in 1..3u32 {
        let p = out.decision(&board, roll, 3).unwrap() as usize;
        assert_eq!(board[p], 0);
        let mut chosen = board.to_vec();
        chosen[p] = roll;
        let zeros = count_empty(&chosen);
        let best = resolve(zeros, &mut chosen, 3, &mut out);
        for q in 0..9 {
            if board[q] == 0 {
                let mut other = board.to_vec();
                other[q] = roll;
                assert!(best <= resolve(zeros, &mut other, 3, &mut out));
            }
        }
    }
}

#[test]
fn fresh_tables_hold_nothing() {
    let out = Output::new(3);
    assert_eq!(out.scores.len(), 19683);
    assert!(out.scores.iter().all(|s| s.is_none()));
    assert_eq!(out.decision(&[0; 9], 1, 3), None);
}
