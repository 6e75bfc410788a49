use tile_search::search::SearchError;
use tile_search::search::SearchOutcome;
use tile_search::search::Searcher;
use tile_search::search::StepResult;
use tile_search::search::search_with_limit;

#[test]
fn solved_start_reports_single_grid_path() {
    let start = vec![vec![1, 2, 3], vec![8, 0, 4], vec![7, 6, 5]];
    let goal = vec![vec![1, 2, 3], vec![8, 0, 4], vec![7, 6, 5]];
    match search_with_limit(start.clone(), goal, 100) {
        Ok(SearchOutcome::Solved(path)) => {
            assert_eq!(path.len(), 1);
            assert_eq!(path[0], start);
        },
        _ => panic!("expected a solution"),
    }
}

#[test]
fn one_move_puzzle_reports_two_grid_path() {
    let start = vec![vec![1, 2, 3], vec![8, 4, 0], vec![7, 6, 5]];
    let goal = vec![vec![1, 2, 3], vec![8, 0, 4], vec![7, 6, 5]];
    match search_with_limit(start.clone(), goal.clone(), 100) {
        Ok(SearchOutcome::Solved(path)) => {
            assert_eq!(path.len(), 2);
            assert_eq!(path[0], start);
            assert_eq!(path[1], goal);
        },
        _ => panic!("expected a solution"),
    }
}

#[test]
fn unsolvable_puzzle_exhausts() {
    // swapping two tiles of the goal is an odd permutation: unreachable
    let start = vec![vec![2, 1], vec![3, 0]];
    let goal = vec![vec![1, 2], vec![3, 0]];
    match search_with_limit(start, goal, 10_000) {
        Ok(SearchOutcome::Exhausted) => {},
        _ => panic!("expected exhaustion"),
    }
}

#[test]
fn zero_budget_runs_out_of_steps() {
    let start = vec![vec![1, 2, 3], vec![8, 4, 0], vec![7, 6, 5]];
    let goal = vec![vec![1, 2, 3], vec![8, 0, 4], vec![7, 6, 5]];
    match search_with_limit(start, goal, 0) {
        Ok(SearchOutcome::OutOfSteps) => {},
        _ => panic!("expected the budget to run out"),
    }
}

#[test]
fn differing_dimensions_are_rejected() {
    let start = vec![vec![1, 0], vec![3, 2]];
    let goal = vec![vec![1, 2, 3], vec![8, 0, 4], vec![7, 6, 5]];
    match search_with_limit(start, goal, 100) {
        Err(SearchError::DimensionMismatch) => {},
        _ => panic!("expected a dimension error"),
    }
}

#[test]
fn ragged_start_is_rejected() {
    let start = vec![vec![1, 2], vec![0]];
    let goal = vec![vec![1, 2], vec![3, 0]];
    match search_with_limit(start, goal, 100) {
        Err(SearchError::DimensionMismatch) => {},
        _ => panic!("expected a dimension error"),
    }
}

#[test]
fn solved_path_is_a_chain_of_blank_moves() {
    let start = vec![vec![8, 1, 3], vec![0, 2, 4], vec![7, 6, 5]];
    let goal = vec![vec![1, 2, 3], vec![8, 0, 4], vec![7, 6, 5]];
    match search_with_limit(start.clone(), goal.clone(), 100_000) {
        Ok(SearchOutcome::Solved(path)) => {
            assert!(path.len() >= 2);
            assert_eq!(path[0], start);
            assert_eq!(path[path.len() - 1], goal);
            for w in path.windows(2) {
                let diff: usize = (0..3)
                    .flat_map(|r| (0..3).map(move |c| (r, c)))
                    .filter(|&(r, c)| w[0][r][c] != w[1][r][c])
                    .count();
                // one blank move changes exactly the two swapped cells
                assert_eq!(diff, 2);
            }
        },
        _ => panic!("expected a solution"),
    }
}

#[test]
fn driver_reports_progress_then_solves() {
    let start = vec![vec![1, 2, 3], vec![8, 4, 0], vec![7, 6, 5]];
    let goal = vec![vec![1, 2, 3], vec![8, 0, 4], vec![7, 6, 5]];
    let mut s = Searcher::new(start, goal).unwrap();
    assert_eq!(s.frontier_len(), 1);
    assert_eq!(s.explored_count(), 0);
    match s.step() {
        StepResult::Progress(iteration, distance) => {
            assert_eq!(iteration, 1);
            assert_eq!(distance, 2);
        },
        _ => panic!("expected progress on the first step"),
    }
    // the expansion was recorded and queued
    assert!(s.explored_count() > 0);
    let solved = loop {
        match s.step() {
            StepResult::Solved(path) => break path,
            StepResult::Exhausted => panic!("expected a solution"),
            StepResult::Progress(_, _) => {},
        }
    };
    assert_eq!(solved.len(), 2);
}

#[test]
fn exhausted_driver_reports_empty_frontier() {
    let start = vec![vec![2, 1], vec![3, 0]];
    let goal = vec![vec![1, 2], vec![3, 0]];
    let mut s = Searcher::new(start, goal).unwrap();
    let exhausted = loop {
        match s.step() {
            StepResult::Exhausted => break true,
            StepResult::Solved(_) => break false,
            StepResult::Progress(_, _) => {},
        }
    };
    assert!(exhausted);
    assert_eq!(s.frontier_len(), 0);
}
