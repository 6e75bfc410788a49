//! Search nodes: a board configuration together with its heuristic score,
//! blank coordinates, predecessor move and path from the root, and the
//! successor generation that expands a node into candidate moves.

use crate::grid::blank_count;
use crate::grid::copy_grid;
use crate::grid::copy_history;
use crate::grid::flatten;
use crate::grid::grid_key;
use crate::grid::grid_mismatches;
use crate::grid::grid_mismatches_upto;
use crate::grid::grid_zeros_upto;
use crate::grid::gview;
use crate::grid::hview;
use crate::grid::is_blank_swap;
use crate::grid::is_square;
use crate::grid::lemma_grid_mismatches_bound;
use crate::grid::lemma_row_mismatches_bound;
use crate::grid::lemma_swap_blank_count;
use crate::grid::lemma_swapped_shape;
use crate::grid::row_mismatches_upto;
use crate::grid::row_zeros;
use crate::grid::row_zeros_upto;
use crate::grid::swap_blank;
use crate::grid::swapped;
use crate::grid::adjacent;
use crate::visited::VisitedStore;
use vstd::prelude::*;

verus! {

/// Cell coordinates as `(column, row)`.
#[derive(Clone, Copy, PartialEq, Eq, Structural, Debug)]
pub struct Pos(pub usize, pub usize);

/// One search node: a board configuration, its score against the goal, the
/// blank's coordinates, the blank's coordinates before the move that made
/// this node, and the path of configurations from the root to this node.
pub struct Board {
    pub state: Vec<Vec<i32>>,
    pub misplaced: i32,
    pub iteration: i32,
    pub distance: i32,
    pub prev: Option<Pos>,
    pub current: Pos,
    pub history: Vec<Vec<Vec<i32>>>,
}

/// The mathematical model of a search node.
#[verifier::ext_equal]
pub ghost struct BoardModel {
    pub state: Seq<Seq<i32>>,
    pub misplaced: int,
    pub iteration: int,
    pub distance: int,
    pub prev: Option<(int, int)>,
    pub current: (int, int),
    pub history: Seq<Seq<Seq<i32>>>,
}

impl View for Board {
    type V = BoardModel;

    open spec fn view(&self) -> BoardModel {
        BoardModel {
            state: gview(self.state),
            misplaced: self.misplaced as int,
            iteration: self.iteration as int,
            distance: self.distance as int,
            prev: match self.prev {
                Some(p) => Some((p.0 as int, p.1 as int)),
                None => None,
            },
            current: (self.current.0 as int, self.current.1 as int),
            history: hview(self.history),
        }
    }
}

/// The model of a sequence of search nodes.
pub open spec fn models(s: Seq<Board>) -> Seq<BoardModel> {
    s.map_values(|b: Board| b@)
}

/// A move of the blank to `(nx, ny)` is kept when the destination is on the
/// board, is not the blank's previous position (no immediate backtrack), and
/// the resulting configuration's key was not generated before.
pub open spec fn dest_ok(m: BoardModel, visited: Seq<Seq<i32>>, nx: int, ny: int) -> bool {
    let n = m.state.len() as int;
    &&& 0 <= nx < n
    &&& 0 <= ny < n
    &&& (m.prev matches Some(p) ==> (nx, ny) != p)
    &&& !visited.contains(flatten(swapped(m.state, m.current.0, m.current.1, nx, ny)))
}

/// The candidate node for the move of the blank to `(nx, ny)`: the swapped
/// board, the parent's position as predecessor, and the parent's path and
/// counters carried over unchanged (the candidate is not yet scored).
pub open spec fn child_of(m: BoardModel, nx: int, ny: int) -> BoardModel {
    BoardModel {
        state: swapped(m.state, m.current.0, m.current.1, nx, ny),
        misplaced: m.misplaced,
        iteration: m.iteration,
        distance: m.distance,
        prev: Some(m.current),
        current: (nx, ny),
        history: m.history,
    }
}

/// Zero or one candidate for one direction.
pub open spec fn dir_children(m: BoardModel, visited: Seq<Seq<i32>>, nx: int, ny: int) -> Seq<
    BoardModel,
> {
    if dest_ok(m, visited, nx, ny) {
        seq![child_of(m, nx, ny)]
    } else {
        Seq::empty()
    }
}

/// What successor generation returns: the kept candidates for the four
/// orthogonal directions, in the order left, right, up, down.
pub open spec fn expand_spec(m: BoardModel, visited: Seq<Seq<i32>>) -> Seq<BoardModel> {
    let x = m.current.0;
    let y = m.current.1;
    dir_children(m, visited, x - 1, y) + dir_children(m, visited, x + 1, y) + dir_children(
        m,
        visited,
        x,
        y - 1,
    ) + dir_children(m, visited, x, y + 1)
}

/// What successor generation guarantees of each candidate it returns, given
/// a well-formed parent node.
pub open spec fn child_ok(m: BoardModel, c: BoardModel) -> bool {
    &&& is_square(c.state)
    &&& c.state.len() == m.state.len()
    &&& blank_count(c.state) == 1
    &&& 0 <= c.current.0 < c.state.len()
    &&& 0 <= c.current.1 < c.state.len()
    &&& c.state[c.current.1][c.current.0] == 0
    &&& c.history == m.history
    &&& c.misplaced == m.misplaced
    &&& c.iteration == m.iteration
    &&& c.distance == m.distance
    &&& c.prev == Some(m.current)
    &&& is_blank_swap(m.state, c.state)
    &&& (m.prev matches Some(p) ==> c.current != p)
}

/// A parent node whose board is square with exactly one blank, recorded at
/// `current`.
pub open spec fn parent_ok(m: BoardModel) -> bool {
    &&& is_square(m.state)
    &&& m.state.len() >= 1
    &&& 0 <= m.current.0 < m.state.len()
    &&& 0 <= m.current.1 < m.state.len()
    &&& m.state[m.current.1][m.current.0] == 0
    &&& blank_count(m.state) == 1
}

proof fn lemma_child_ok_dir(m: BoardModel, visited: Seq<Seq<i32>>, nx: int, ny: int)
    requires
        parent_ok(m),
        adjacent(m.current.0, m.current.1, nx, ny),
        dest_ok(m, visited, nx, ny),
    ensures
        child_ok(m, child_of(m, nx, ny)),
{
    let x = m.current.0;
    let y = m.current.1;
    lemma_swapped_shape(m.state, x, y, nx, ny);
    lemma_swap_blank_count(m.state, x, y, nx, ny);
    let c = child_of(m, nx, ny);
    assert(c.state == swapped(m.state, x, y, nx, ny));
    assert(is_blank_swap(m.state, c.state));
}

/// Every candidate of an expansion is one blank move away from the parent,
/// keeps the board square with exactly one blank — recorded at the
/// candidate's own `current` — carries the parent's path unchanged, and never
/// moves the blank back to the parent's predecessor position.
pub proof fn lemma_expand_children_ok(m: BoardModel, visited: Seq<Seq<i32>>)
    requires
        parent_ok(m),
    ensures
        forall|i: int|
            0 <= i < expand_spec(m, visited).len() ==> child_ok(
                m,
                #[trigger] expand_spec(m, visited)[i],
            ),
{
    let x = m.current.0;
    let y = m.current.1;
    let s1 = dir_children(m, visited, x - 1, y);
    let s2 = dir_children(m, visited, x + 1, y);
    let s3 = dir_children(m, visited, x, y - 1);
    let s4 = dir_children(m, visited, x, y + 1);
    if dest_ok(m, visited, x - 1, y) {
        lemma_child_ok_dir(m, visited, x - 1, y);
    }
    if dest_ok(m, visited, x + 1, y) {
        lemma_child_ok_dir(m, visited, x + 1, y);
    }
    if dest_ok(m, visited, x, y - 1) {
        lemma_child_ok_dir(m, visited, x, y - 1);
    }
    if dest_ok(m, visited, x, y + 1) {
        lemma_child_ok_dir(m, visited, x, y + 1);
    }
    assert forall|i: int| 0 <= i < expand_spec(m, visited).len() implies child_ok(
        m,
        #[trigger] expand_spec(m, visited)[i],
    ) by {
        let e = expand_spec(m, visited);
        assert(e == s1 + s2 + s3 + s4);
        if i < s1.len() {
            assert(e[i] == s1[0]);
        } else if i < s1.len() + s2.len() {
            assert(e[i] == s2[0]);
        } else if i < s1.len() + s2.len() + s3.len() {
            assert(e[i] == s3[0]);
        } else {
            assert(e[i] == s4[0]);
        }
    }
}

/// Every board a successor generation returns has exactly one blank cell,
/// and that cell is at the candidate's recorded blank position: the blank
/// count is one, the cell at `current` is `0`, and no other cell is.
pub proof fn lemma_candidates_one_blank(m: BoardModel, visited: Seq<Seq<i32>>)
    requires
        parent_ok(m),
    ensures
        forall|i: int|
            0 <= i < expand_spec(m, visited).len() ==> {
                let c = #[trigger] expand_spec(m, visited)[i];
                &&& blank_count(c.state) == 1
                &&& c.state[c.current.1][c.current.0] == 0
                &&& forall|cx: int, cy: int|
                    0 <= cy < c.state.len() && 0 <= cx < c.state.len() && #[trigger] c.state[cy][cx]
                        == 0 ==> (cx, cy) == c.current
            },
{
    lemma_expand_children_ok(m, visited);
    assert forall|i: int| 0 <= i < expand_spec(m, visited).len() implies {
        let c = #[trigger] expand_spec(m, visited)[i];
        &&& blank_count(c.state) == 1
        &&& c.state[c.current.1][c.current.0] == 0
        &&& forall|cx: int, cy: int|
            0 <= cy < c.state.len() && 0 <= cx < c.state.len() && #[trigger] c.state[cy][cx] == 0
                ==> (cx, cy) == c.current
    } by {
        let c = expand_spec(m, visited)[i];
        assert forall|cx: int, cy: int|
            0 <= cy < c.state.len() && 0 <= cx < c.state.len() && #[trigger] c.state[cy][cx] == 0
                implies (cx, cy) == c.current by {
            crate::grid::lemma_blank_unique(c.state, cx, cy, c.current.0, c.current.1);
        }
    }
}

/// Successor generation never returns a candidate whose blank coordinates
/// equal the parent's predecessor position: the immediate backtrack is
/// excluded.
pub proof fn lemma_no_immediate_backtrack(m: BoardModel, visited: Seq<Seq<i32>>, p: (int, int))
    requires
        parent_ok(m),
        m.prev == Some(p),
    ensures
        forall|i: int|
            0 <= i < expand_spec(m, visited).len() ==> (#[trigger] expand_spec(m, visited)[i]).current
                != p,
{
    lemma_expand_children_ok(m, visited);
}

/// Number of orthogonal neighbours of `(x, y)` on an `n` by `n` board:
/// 2 in a corner, 3 on an edge, 4 in the interior.
pub open spec fn neighbor_count(n: int, x: int, y: int) -> int {
    (if x > 0 {
        1int
    } else {
        0int
    }) + (if x + 1 < n {
        1int
    } else {
        0int
    }) + (if y > 0 {
        1int
    } else {
        0int
    }) + (if y + 1 < n {
        1int
    } else {
        0int
    })
}

/// An expansion returns at most four candidates, whatever was visited.
pub proof fn lemma_expand_len_bound(m: BoardModel, visited: Seq<Seq<i32>>)
    ensures
        0 <= expand_spec(m, visited).len() <= 4,
{
}

/// With nothing visited yet, an expansion returns one candidate per
/// in-bounds neighbour of the blank — 2 from a corner, 3 from an edge, 4
/// from the interior — minus one when the predecessor position is among
/// those neighbours.
pub proof fn lemma_expand_count(m: BoardModel, visited: Seq<Seq<i32>>)
    requires
        visited == Seq::<Seq<i32>>::empty(),
        0 <= m.current.0 < m.state.len(),
        0 <= m.current.1 < m.state.len(),
    ensures
        m.prev is None ==> expand_spec(m, visited).len() == neighbor_count(
            m.state.len() as int,
            m.current.0,
            m.current.1,
        ),
        m.prev matches Some(p) ==> expand_spec(m, visited).len() == neighbor_count(
            m.state.len() as int,
            m.current.0,
            m.current.1,
        ) - (if adjacent(m.current.0, m.current.1, p.0, p.1) && 0 <= p.0 < m.state.len() && 0
            <= p.1 < m.state.len() {
            1int
        } else {
            0int
        }),
{
    let n = m.state.len() as int;
    let x = m.current.0;
    let y = m.current.1;
    assert(forall|k: Seq<i32>| !visited.contains(k));
    match m.prev {
        Some(p) => {
            if adjacent(x, y, p.0, p.1) && 0 <= p.0 < n && 0 <= p.1 < n {
                assert((p.0, p.1) == p);
            }
        },
        None => {},
    }
}

/// A corner blank has 2 in-bounds neighbours, an edge blank 3, an interior
/// blank 4.
pub proof fn lemma_neighbor_count_classes(n: int, x: int, y: int)
    requires
        n >= 2,
        0 <= x < n,
        0 <= y < n,
    ensures
        ((x == 0 || x == n - 1) && (y == 0 || y == n - 1)) ==> neighbor_count(n, x, y) == 2,
        ((x == 0 || x == n - 1) <==> !(y == 0 || y == n - 1)) ==> neighbor_count(n, x, y) == 3,
        (!(x == 0 || x == n - 1) && !(y == 0 || y == n - 1)) ==> neighbor_count(n, x, y) == 4,
{
}

impl Board {
    /// Scores this node against the goal: counts the misplaced cells into
    /// `misplaced` and `distance`, locates the blank into `current`, appends
    /// the node's own configuration to its path, and advances the iteration
    /// counter (which saturates at `i32::MAX`; it is diagnostic only).
    #[verifier::loop_isolation(false)]
    pub fn calculate(&mut self, goal: &Vec<Vec<i32>>)
        requires
            is_square(gview(*goal)),
            is_square(gview(old(self).state)),
            old(self).state@.len() == goal@.len(),
            goal@.len() * goal@.len() <= i32::MAX as int,
        ensures
            final(self).state == old(self).state,
            final(self).prev == old(self).prev,
            final(self).misplaced as int == grid_mismatches(gview(old(self).state), gview(*goal)),
            final(self).distance == final(self).misplaced,
            final(self).iteration as int == if old(self).iteration < i32::MAX {
                old(self).iteration + 1
            } else {
                i32::MAX as int
            },
            hview(final(self).history) == hview(old(self).history).push(gview(old(self).state)),
            blank_count(gview(old(self).state)) >= 1 ==> {
                &&& (final(self).current.1 as int) < gview(old(self).state).len()
                &&& (final(self).current.0 as int) < gview(old(self).state).len()
                &&& gview(old(self).state)[final(self).current.1 as int][final(self).current.0 as int] == 0
            },
            blank_count(gview(old(self).state)) == 0 ==> final(self).current == Pos(0, 0),
    {
        let ghost sv = gview(self.state);
        let ghost gv = gview(*goal);
        let n = goal.len();
        let mut misplaced: i32 = 0;
        let mut empty_x: usize = 0;
        let mut empty_y: usize = 0;
        let mut r: usize = 0;
        while r < n
            invariant
                r <= n,
                misplaced as int == grid_mismatches_upto(sv, gv, r as int),
                grid_zeros_upto(sv, r as int) > 0 ==> {
                    &&& empty_y < n
                    &&& empty_x < n
                    &&& sv[empty_y as int][empty_x as int] == 0
                },
                grid_zeros_upto(sv, r as int) == 0 ==> empty_x == 0 && empty_y == 0,
            decreases n - r,
        {
            let mut c: usize = 0;
            while c < n
                invariant
                    r < n,
                    c <= n,
                    misplaced as int == grid_mismatches_upto(sv, gv, r as int)
                        + row_mismatches_upto(sv[r as int], gv[r as int], c as int),
                    grid_zeros_upto(sv, r as int) + row_zeros_upto(sv[r as int], c as int) > 0
                        ==> {
                        &&& empty_y < n
                        &&& empty_x < n
                        &&& sv[empty_y as int][empty_x as int] == 0
                    },
                    grid_zeros_upto(sv, r as int) + row_zeros_upto(sv[r as int], c as int) == 0
                        ==> empty_x == 0 && empty_y == 0,
                decreases n - c,
            {
                proof {
                    lemma_grid_mismatches_bound(sv, gv, r as int, n as int);
                    lemma_row_mismatches_bound(sv[r as int], gv[r as int], c as int);
                    assert((r as int) * (n as int) + (c as int) < (n as int) * (n as int))
                        by (nonlinear_arith)
                        requires
                            (r as int) < (n as int),
                            (c as int) < (n as int),
                            0 <= (r as int),
                            0 <= (c as int),
                    ;
                    crate::grid::lemma_row_zeros_nonneg(sv[r as int], c as int);
                    crate::grid::lemma_grid_zeros_nonneg(sv, r as int);
                }
                if goal[r][c] != self.state[r][c] {
                    misplaced = misplaced + 1;
                }
                if self.state[r][c] == 0 {
                    empty_x = c;
                    empty_y = r;
                }
                c += 1;
            }
            proof {
                assert(gv[r as int].len() == n);
                assert(sv[r as int].len() == n);
                assert(row_zeros(sv[r as int]) == row_zeros_upto(sv[r as int], n as int));
            }
            r += 1;
        }
        if self.iteration < i32::MAX {
            self.iteration = self.iteration + 1;
        }
        self.misplaced = misplaced;
        self.distance = misplaced;
        self.current = Pos(empty_x, empty_y);
        let snapshot = copy_grid(&self.state);
        self.history.push(snapshot);
        proof {
            assert(hview(self.history) =~= hview(old(self).history).push(gview(old(self).state)));
            assert(blank_count(sv) == grid_zeros_upto(sv, n as int));
        }
    }

    /// The node's serialized key: the configuration's cells in row-major
    /// order, one token per cell.
    pub fn get_string(&self) -> (key: Vec<i32>)
        ensures
            key@ == flatten(gview(self.state)),
    {
        grid_key(&self.state)
    }

    /// Successor generation: for each in-bounds orthogonal neighbour of the
    /// blank that is not the position the blank came from, builds the board
    /// with the blank swapped there, and keeps it unless its key was already
    /// generated. Candidates come back unscored, in the order left, right,
    /// up, down.
    pub fn explore(&self, explored: &VisitedStore) -> (out: Vec<Board>)
        requires
            is_square(gview(self.state)),
            (self.current.0 as int) < gview(self.state).len(),
            (self.current.1 as int) < gview(self.state).len(),
        ensures
            models(out@) == expand_spec(self@, explored@),
    {
        let ghost m = self@;
        let ghost v = explored@;
        let x = self.current.0;
        let y = self.current.1;
        let n = self.state.len();
        let mut out: Vec<Board> = Vec::new();
        if x > 0 {
            let keep = match &self.prev {
                None => true,
                Some(p) => !(p.0 == x - 1 && p.1 == y),
            };
            if keep {
                let new_state = swap_blank(&self.state, x, y, x - 1, y);
                let key = grid_key(&new_state);
                if !explored.contains(&key) {
                    let b = Board {
                        state: new_state,
                        misplaced: self.misplaced,
                        iteration: self.iteration,
                        distance: self.distance,
                        prev: Some(Pos(x, y)),
                        current: Pos(x - 1, y),
                        history: copy_history(&self.history),
                    };
                    proof {
                        assert(b@ =~~= child_of(m, x as int - 1, y as int));
                    }
                    out.push(b);
                }
            }
        }
        proof {
            assert(models(out@) =~= dir_children(m, v, m.current.0 - 1, m.current.1));
        }
        if x + 1 < n {
            let keep = match &self.prev {
                None => true,
                Some(p) => !(p.0 == x + 1 && p.1 == y),
            };
            if keep {
                let new_state = swap_blank(&self.state, x, y, x + 1, y);
                let key = grid_key(&new_state);
                if !explored.contains(&key) {
                    let b = Board {
                        state: new_state,
                        misplaced: self.misplaced,
                        iteration: self.iteration,
                        distance: self.distance,
                        prev: Some(Pos(x, y)),
                        current: Pos(x + 1, y),
                        history: copy_history(&self.history),
                    };
                    proof {
                        assert(b@ =~~= child_of(m, x as int + 1, y as int));
                    }
                    out.push(b);
                }
            }
        }
        proof {
            assert(models(out@) =~= dir_children(m, v, m.current.0 - 1, m.current.1)
                + dir_children(m, v, m.current.0 + 1, m.current.1));
        }
        if y > 0 {
            let keep = match &self.prev {
                None => true,
                Some(p) => !(p.0 == x && p.1 == y - 1),
            };
            if keep {
                let new_state = swap_blank(&self.state, x, y, x, y - 1);
                let key = grid_key(&new_state);
                if !explored.contains(&key) {
                    let b = Board {
                        state: new_state,
                        misplaced: self.misplaced,
                        iteration: self.iteration,
                        distance: self.distance,
                        prev: Some(Pos(x, y)),
                        current: Pos(x, y - 1),
                        history: copy_history(&self.history),
                    };
                    proof {
                        assert(b@ =~~= child_of(m, x as int, y as int - 1));
                    }
                    out.push(b);
                }
            }
        }
        proof {
            assert(models(out@) =~= dir_children(m, v, m.current.0 - 1, m.current.1)
                + dir_children(m, v, m.current.0 + 1, m.current.1) + dir_children(
                m,
                v,
                m.current.0,
                m.current.1 - 1,
            ));
        }
        if y + 1 < n {
            let keep = match &self.prev {
                None => true,
                Some(p) => !(p.0 == x && p.1 == y + 1),
            };
            if keep {
                let new_state = swap_blank(&self.state, x, y, x, y + 1);
                let key = grid_key(&new_state);
                if !explored.contains(&key) {
                    let b = Board {
                        state: new_state,
                        misplaced: self.misplaced,
                        iteration: self.iteration,
                        distance: self.distance,
                        prev: Some(Pos(x, y)),
                        current: Pos(x, y + 1),
                        history: copy_history(&self.history),
                    };
                    proof {
                        assert(b@ =~~= child_of(m, x as int, y as int + 1));
                    }
                    out.push(b);
                }
            }
        }
        proof {
            assert(models(out@) =~= expand_spec(m, v));
        }
        out
    }
}

} // verus!
