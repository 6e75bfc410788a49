use tile_search::board::Board;
use tile_search::board::Pos;
use tile_search::visited::VisitedStore;

fn node(state: Vec<Vec<i32>>) -> Board {
    Board {
        state,
        misplaced: 0,
        iteration: 0,
        distance: 0,
        prev: None,
        current: Pos(0, 0),
        history: Vec::new(),
    }
}

#[test]
fn calculate_counts_misplaced() {
    let goal = vec![vec![1, 2, 3], vec![8, 0, 4], vec![7, 6, 5]];
    let mut b = node(vec![vec![1, 2, 3], vec![8, 4, 0], vec![7, 6, 5]]);
    b.calculate(&goal);
    assert_eq!(b.misplaced, 2);
    assert_eq!(b.distance, 2);
    assert_eq!(b.iteration, 1);
}

#[test]
fn calculate_zero_on_goal_itself() {
    let goal = vec![vec![1, 2, 3], vec![8, 0, 4], vec![7, 6, 5]];
    let mut b = node(vec![vec![1, 2, 3], vec![8, 0, 4], vec![7, 6, 5]]);
    b.calculate(&goal);
    assert_eq!(b.misplaced, 0);
    assert_eq!(b.distance, 0);
}

#[test]
fn calculate_locates_blank() {
    let goal = vec![vec![1, 2, 3], vec![8, 0, 4], vec![7, 6, 5]];
    let mut b = node(vec![vec![1, 2, 3], vec![8, 4, 0], vec![7, 6, 5]]);
    b.calculate(&goal);
    assert_eq!(b.current, Pos(2, 1));
    let mut c = node(vec![vec![0, 2, 3], vec![8, 1, 4], vec![7, 6, 5]]);
    c.calculate(&goal);
    assert_eq!(c.current, Pos(0, 0));
}

#[test]
fn calculate_appends_own_state_to_history() {
    let goal = vec![vec![1, 2, 3], vec![8, 0, 4], vec![7, 6, 5]];
    let state = vec![vec![1, 2, 3], vec![8, 4, 0], vec![7, 6, 5]];
    let mut b = node(state.clone());
    b.calculate(&goal);
    assert_eq!(b.history.len(), 1);
    assert_eq!(b.history[0], state);
    b.calculate(&goal);
    assert_eq!(b.history.len(), 2);
    assert_eq!(b.history[1], state);
    assert_eq!(b.iteration, 2);
}

#[test]
fn explore_interior_blank_four_candidates() {
    let visited = VisitedStore::new();
    let mut b = node(vec![vec![1, 2, 3], vec![8, 0, 4], vec![7, 6, 5]]);
    b.current = Pos(1, 1);
    let out = b.explore(&visited);
    assert_eq!(out.len(), 4);
    // order: left, right, up, down
    assert_eq!(out[0].state, vec![vec![1, 2, 3], vec![0, 8, 4], vec![7, 6, 5]]);
    assert_eq!(out[0].current, Pos(0, 1));
    assert_eq!(out[1].state, vec![vec![1, 2, 3], vec![8, 4, 0], vec![7, 6, 5]]);
    assert_eq!(out[1].current, Pos(2, 1));
    assert_eq!(out[2].state, vec![vec![1, 0, 3], vec![8, 2, 4], vec![7, 6, 5]]);
    assert_eq!(out[2].current, Pos(1, 0));
    assert_eq!(out[3].state, vec![vec![1, 2, 3], vec![8, 6, 4], vec![7, 0, 5]]);
    assert_eq!(out[3].current, Pos(1, 2));
    for c in &out {
        assert_eq!(c.prev, Some(Pos(1, 1)));
        assert_eq!(c.history.len(), b.history.len());
    }
}

#[test]
fn explore_corner_blank_two_candidates() {
    let visited = VisitedStore::new();
    let mut b = node(vec![vec![0, 2, 3], vec![8, 1, 4], vec![7, 6, 5]]);
    b.current = Pos(0, 0);
    let out = b.explore(&visited);
    assert_eq!(out.len(), 2);
    assert_eq!(out[0].current, Pos(1, 0));
    assert_eq!(out[1].current, Pos(0, 1));
}

#[test]
fn explore_edge_blank_three_candidates() {
    let visited = VisitedStore::new();
    let mut b = node(vec![vec![1, 0, 3], vec![8, 2, 4], vec![7, 6, 5]]);
    b.current = Pos(1, 0);
    let out = b.explore(&visited);
    assert_eq!(out.len(), 3);
    assert_eq!(out[0].current, Pos(0, 0));
    assert_eq!(out[1].current, Pos(2, 0));
    assert_eq!(out[2].current, Pos(1, 1));
}

#[test]
fn explore_excludes_immediate_backtrack() {
    let visited = VisitedStore::new();
    let mut b = node(vec![vec![1, 2, 3], vec![8, 0, 4], vec![7, 6, 5]]);
    b.current = Pos(1, 1);
    b.prev = Some(Pos(1, 0));
    let out = b.explore(&visited);
    assert_eq!(out.len(), 3);
    for c in &out {
        assert_ne!(c.current, Pos(1, 0));
    }
}

#[test]
fn explore_filters_visited_candidates() {
    let mut visited = VisitedStore::new();
    let mut b = node(vec![vec![1, 2, 3], vec![8, 0, 4], vec![7, 6, 5]]);
    b.current = Pos(1, 1);
    // the key of the left-swap candidate
    visited.insert(vec![1, 2, 3, 0, 8, 4, 7, 6, 5]);
    let out = b.explore(&visited);
    assert_eq!(out.len(), 3);
    for c in &out {
        assert_ne!(c.current, Pos(0, 1));
    }
}

#[test]
fn explore_candidates_have_one_blank_at_current() {
    let visited = VisitedStore::new();
    let mut b = node(vec![vec![1, 2, 3], vec![8, 0, 4], vec![7, 6, 5]]);
    b.current = Pos(1, 1);
    let out = b.explore(&visited);
    for c in &out {
        let zeros: usize = c.state.iter().map(|r| r.iter().filter(|&&v| v == 0).count()).sum();
        assert_eq!(zeros, 1);
        assert_eq!(c.state[c.current.1][c.current.0], 0);
    }
}

#[test]
fn get_string_is_row_major_one_token_per_cell() {
    let b = node(vec![vec![1, 2, 3], vec![8, 0, 4], vec![7, 6, 5]]);
    assert_eq!(b.get_string(), vec![1, 2, 3, 8, 0, 4, 7, 6, 5]);
    assert_eq!(b.get_string().len(), 9);
}

#[test]
fn get_string_deterministic_and_injective() {
    let a = node(vec![vec![1, 2], vec![3, 0]]);
    let b = node(vec![vec![1, 2], vec![3, 0]]);
    let c = node(vec![vec![2, 1], vec![3, 0]]);
    assert_eq!(a.get_string(), b.get_string());
    assert_ne!(a.get_string(), c.get_string());
}

#[test]
fn get_string_keeps_wide_values_as_single_tokens() {
    let a = node(vec![vec![10, 2], vec![1, 0]]);
    let b = node(vec![vec![1, 0], vec![2, 10]]);
    assert_eq!(a.get_string(), vec![10, 2, 1, 0]);
    assert_eq!(a.get_string().len(), 4);
    assert_ne!(a.get_string(), b.get_string());
}
