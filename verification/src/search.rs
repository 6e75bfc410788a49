//! The search driver: a frontier of scored nodes kept in ascending heuristic
//! order, the visited-key store, and the greedy best-first loop. The driver
//! is greedy, not A*: it ranks nodes by the static misplaced-tile estimate
//! alone and ignores path cost, so a solution it reports is a genuine move
//! sequence but not necessarily a shortest one.

use crate::board::Board;
use crate::board::BoardModel;
use crate::board::Pos;
use crate::board::child_ok;
use crate::board::expand_spec;
use crate::board::lemma_expand_children_ok;
use crate::board::models;
use crate::board::parent_ok;
use crate::grid::blank_count;
use crate::grid::blank_pos;
use crate::grid::flatten;
use crate::grid::grid_mismatches;
use crate::grid::gview;
use crate::grid::hview;
use crate::grid::is_square;
use crate::grid::is_swap_chain;
use crate::grid::lemma_blank_unique;
use crate::grid::lemma_chain_push;
use crate::grid::lemma_mismatch_zero_eq;
use crate::grid::square_check;
use crate::visited::VisitedStore;
use vstd::multiset::Multiset;
use vstd::prelude::*;

verus! {

broadcast use vstd::seq_lib::group_to_multiset_ensures;

/// The one fatal error of initialization: start and goal do not form a pair
/// of equal-dimension square grids of workable size.
#[derive(Clone, Copy, PartialEq, Eq, Structural, Debug)]
pub enum SearchError {
    DimensionMismatch,
}

/// The outcome of a whole run.
pub enum SearchOutcome {
    /// The goal was reached; the path holds every configuration from the
    /// start to the goal, in order.
    Solved(Vec<Vec<Vec<i32>>>),
    /// The frontier emptied without reaching the goal: no solution.
    Exhausted,
    /// A step budget ran out before the search ended either way.
    OutOfSteps,
}

/// The outcome of one driver step.
pub enum StepResult {
    /// The popped node was the goal; its path is the solution.
    Solved(Vec<Vec<Vec<i32>>>),
    /// The frontier was empty: no solution.
    Exhausted,
    /// The popped node was expanded; its iteration counter and heuristic
    /// distance are reported for progress display.
    Progress(i32, i32),
}

/// Largest dimension whose cell count fits an `i32` score.
pub const MAX_DIM: usize = 46340;

/// Start and goal are square, of the same nonzero dimension, small enough
/// that a score fits an `i32`.
pub open spec fn dims_ok(start: Seq<Seq<i32>>, goal: Seq<Seq<i32>>) -> bool {
    &&& is_square(start)
    &&& is_square(goal)
    &&& start.len() == goal.len()
    &&& start.len() >= 1
    &&& start.len() * start.len() <= i32::MAX as int
}

/// A reported solution: a nonempty sequence of square one-blank boards that
/// begins at the start, ends at the goal, and advances by one blank move at
/// a time.
pub open spec fn solution_path(p: Seq<Seq<Seq<i32>>>, start: Seq<Seq<i32>>, goal: Seq<Seq<i32>>) -> bool {
    &&& p.len() >= 1
    &&& p[0] == start
    &&& p[p.len() - 1] == goal
    &&& is_swap_chain(p)
    &&& forall|k: int|
        0 <= k < p.len() ==> is_square(#[trigger] p[k]) && p[k].len() == goal.len() && blank_count(
            p[k],
        ) == 1
}

/// What holds of every node in the frontier: a well-formed scored board
/// whose recorded path is a blank-move chain from the start to itself.
pub open spec fn node_ok(m: BoardModel, start: Seq<Seq<i32>>, goal: Seq<Seq<i32>>) -> bool {
    &&& parent_ok(m)
    &&& m.state.len() == goal.len()
    &&& m.misplaced == grid_mismatches(m.state, goal)
    &&& m.distance == m.misplaced
    &&& m.history.len() >= 1
    &&& m.history[0] == start
    &&& m.history[m.history.len() - 1] == m.state
    &&& is_swap_chain(m.history)
    &&& forall|k: int|
        0 <= k < m.history.len() ==> is_square(#[trigger] m.history[k]) && m.history[k].len()
            == goal.len() && blank_count(m.history[k]) == 1
}

/// What scoring (`Board::calculate`) makes of an unscored candidate whose
/// `current` already records its unique blank: the misplaced count against
/// the goal, the saturating counter bump, and its own state appended to its
/// path.
pub open spec fn scored(c: BoardModel, goal: Seq<Seq<i32>>) -> BoardModel {
    BoardModel {
        state: c.state,
        misplaced: grid_mismatches(c.state, goal),
        iteration: if c.iteration < i32::MAX as int {
            c.iteration + 1
        } else {
            i32::MAX as int
        },
        distance: grid_mismatches(c.state, goal),
        prev: c.prev,
        current: c.current,
        history: c.history.push(c.state),
    }
}

/// The serialized keys of a batch of candidates, in order.
pub open spec fn child_keys(children: Seq<BoardModel>) -> Seq<Seq<i32>> {
    children.map_values(|c: BoardModel| flatten(c.state))
}

/// A whole batch of candidates, scored.
pub open spec fn scored_all(children: Seq<BoardModel>, goal: Seq<Seq<i32>>) -> Seq<BoardModel> {
    children.map_values(|c: BoardModel| scored(c, goal))
}

/// The observable search state: the frontier's nodes in order and the keys
/// recorded so far.
#[verifier::ext_equal]
pub ghost struct DriverModel {
    pub frontier: Seq<BoardModel>,
    pub explored: Seq<Seq<i32>>,
}

/// The root node as scoring leaves it: the start itself, scored against the
/// goal, with no predecessor and a one-grid path.
pub open spec fn root_model(start: Seq<Seq<i32>>, goal: Seq<Seq<i32>>) -> BoardModel {
    BoardModel {
        state: start,
        misplaced: grid_mismatches(start, goal),
        iteration: 1,
        distance: grid_mismatches(start, goal),
        prev: None,
        current: blank_pos(start),
        history: seq![start],
    }
}

/// The search state right after initialization: the scored root is the whole
/// frontier and nothing is recorded as visited.
pub open spec fn init_model(start: Seq<Seq<i32>>, goal: Seq<Seq<i32>>) -> DriverModel {
    DriverModel { frontier: seq![root_model(start, goal)], explored: Seq::empty() }
}

/// One expansion step of the driver, as a relation on search states: the
/// head of `pre`'s frontier is not the goal; it is expanded against `pre`'s
/// visited record; the candidates' keys are appended to the record in order;
/// and the new frontier holds, in ascending heuristic order, exactly the old
/// frontier's tail together with the scored candidates.
pub open spec fn step_progress(pre: DriverModel, post: DriverModel, goal: Seq<Seq<i32>>) -> bool {
    &&& pre.frontier.len() > 0
    &&& pre.frontier[0].misplaced != 0
    &&& post.explored == pre.explored + child_keys(expand_spec(pre.frontier[0], pre.explored))
    &&& post.frontier.to_multiset() == pre.frontier.skip(1).to_multiset().add(
        scored_all(expand_spec(pre.frontier[0], pre.explored), goal).to_multiset(),
    )
    &&& sorted_by_distance(post.frontier)
}

/// `post` is reachable from `pre` by exactly `k` expansion steps.
pub open spec fn reaches(pre: DriverModel, post: DriverModel, goal: Seq<Seq<i32>>, k: nat) -> bool
    decreases k,
{
    if k == 0 {
        post == pre
    } else {
        exists|mid: DriverModel|
            step_progress(pre, mid, goal) && reaches(mid, post, goal, (k - 1) as nat)
    }
}

/// A reachability chain grows by one at its end.
pub proof fn lemma_reaches_step(
    a: DriverModel,
    b: DriverModel,
    c: DriverModel,
    goal: Seq<Seq<i32>>,
    k: nat,
)
    requires
        reaches(a, b, goal, k),
        step_progress(b, c, goal),
    ensures
        reaches(a, c, goal, k + 1),
    decreases k,
{
    if k == 0 {
        assert(b == a);
        assert(step_progress(a, c, goal) && reaches(c, c, goal, 0));
    } else {
        let mid = choose|mid: DriverModel|
            step_progress(a, mid, goal) && reaches(mid, b, goal, (k - 1) as nat);
        lemma_reaches_step(mid, b, c, goal, (k - 1) as nat);
        assert(step_progress(a, mid, goal) && reaches(mid, c, goal, k));
    }
}

/// Ascending heuristic order.
pub open spec fn sorted_by_distance(s: Seq<BoardModel>) -> bool {
    forall|i: int, j: int|
        #![trigger s[i], s[j]]
        0 <= i <= j < s.len() ==> s[i].distance <= s[j].distance
}

/// Inserts a node into a distance-sorted frontier, keeping the order.
#[verifier::loop_isolation(false)]
fn insert_sorted(frontier: &mut Vec<Board>, b: Board)
    requires
        sorted_by_distance(models(old(frontier)@)),
    ensures
        final(frontier)@.len() == old(frontier)@.len() + 1,
        sorted_by_distance(models(final(frontier)@)),
        models(final(frontier)@).to_multiset() == models(old(frontier)@).to_multiset().insert(b@),
        forall|k: int|
            0 <= k < final(frontier)@.len() ==> (#[trigger] final(frontier)@[k]) == b || old(
                frontier,
            )@.contains(final(frontier)@[k]),
{
    let mut idx: usize = 0;
    while idx < frontier.len() && frontier[idx].distance <= b.distance
        invariant
            idx <= frontier@.len(),
            forall|k: int| 0 <= k < idx ==> models(frontier@)[k].distance <= b@.distance,
        decreases frontier@.len() - idx,
    {
        idx += 1;
    }
    let ghost om = models(frontier@);
    let ghost exit_low = idx as int;
    frontier.insert(idx, b);
    proof {
        let fm = models(frontier@);
        assert forall|i: int, j: int|
            #![trigger fm[i], fm[j]]
            0 <= i <= j < fm.len() implies fm[i].distance <= fm[j].distance by {
            if i < exit_low {
                assert(fm[i] == om[i]);
            } else if i == exit_low {
                assert(fm[i] == b@);
            } else {
                assert(fm[i] == om[i - 1]);
            }
            if j < exit_low {
                assert(fm[j] == om[j]);
            } else if j == exit_low {
                assert(fm[j] == b@);
            } else {
                assert(fm[j] == om[j - 1]);
            }
        }
        assert forall|k: int| 0 <= k < frontier@.len() implies (#[trigger] frontier@[k]) == b
            || old(frontier)@.contains(frontier@[k]) by {
            if k < exit_low {
                assert(frontier@[k] == old(frontier)@[k]);
                assert(old(frontier)@.contains(old(frontier)@[k]));
            } else if k > exit_low {
                assert(frontier@[k] == old(frontier)@[k - 1]);
                assert(old(frontier)@.contains(old(frontier)@[k - 1]));
            }
        }
        assert(fm.remove(exit_low) =~= om);
        assert(fm[exit_low] == b@);
        assert(fm.contains(b@));
        assert(fm.to_multiset().count(b@) > 0);
        assert(fm.remove(exit_low).to_multiset() =~= fm.to_multiset().remove(b@));
        assert(fm.to_multiset() =~= om.to_multiset().insert(b@));
    }
}

/// One search run's state: the fixed goal, the distance-ordered frontier,
/// and the keys of every configuration generated so far.
pub struct Searcher {
    goal: Vec<Vec<i32>>,
    frontier: Vec<Board>,
    visited: VisitedStore,
    start: Ghost<Seq<Seq<i32>>>,
}

impl Searcher {
    /// The goal configuration.
    pub closed spec fn goal_view(&self) -> Seq<Seq<i32>> {
        gview(self.goal)
    }

    /// The start configuration the run was built from.
    pub closed spec fn start_view(&self) -> Seq<Seq<i32>> {
        self.start@
    }

    /// The frontier's nodes, best first.
    pub closed spec fn frontier_models(&self) -> Seq<BoardModel> {
        models(self.frontier@)
    }

    /// The keys recorded so far.
    pub closed spec fn explored_view(&self) -> Seq<Seq<i32>> {
        self.visited@
    }

    /// The observable search state.
    pub open spec fn model(&self) -> DriverModel {
        DriverModel { frontier: self.frontier_models(), explored: self.explored_view() }
    }

    /// The run's invariant: well-formed dimensions, a one-blank start, and a
    /// frontier of well-formed nodes in ascending heuristic order.
    pub closed spec fn inv(&self) -> bool {
        &&& dims_ok(self.start_view(), self.goal_view())
        &&& blank_count(self.start_view()) == 1
        &&& forall|i: int|
            0 <= i < self.frontier_models().len() ==> node_ok(
                #[trigger] self.frontier_models()[i],
                self.start_view(),
                self.goal_view(),
            )
        &&& sorted_by_distance(self.frontier_models())
    }

    /// Number of nodes awaiting expansion.
    pub fn frontier_len(&self) -> (n: usize)
        ensures
            n == self.frontier_models().len(),
    {
        self.frontier.len()
    }

    /// Number of configuration keys generated so far.
    pub fn explored_count(&self) -> (n: usize)
        ensures
            n == self.explored_view().len(),
    {
        self.visited.len()
    }

    /// Builds the run: checks once that start and goal are equal-dimension
    /// square grids of workable size, then scores the root node and makes it
    /// the whole frontier. The start must hold exactly one blank.
    pub fn new(start: Vec<Vec<i32>>, goal: Vec<Vec<i32>>) -> (r: Result<Searcher, SearchError>)
        requires
            blank_count(gview(start)) == 1,
        ensures
            (r is Err) <==> !dims_ok(gview(start), gview(goal)),
            r matches Err(e) ==> e == SearchError::DimensionMismatch,
            r matches Ok(s) ==> {
                &&& s.inv()
                &&& s.goal_view() == gview(goal)
                &&& s.start_view() == gview(start)
                &&& s.model() == init_model(gview(start), gview(goal))
                &&& s.frontier_models().len() == 1
                &&& s.frontier_models()[0].misplaced == grid_mismatches(gview(start), gview(goal))
                &&& s.frontier_models()[0].history == seq![gview(start)]
                &&& s.explored_view().len() == 0
            },
    {
        let n = start.len();
        if n == 0 || n != goal.len() || n > MAX_DIM {
            proof {
                if n > MAX_DIM {
                    assert(46341 * 46341 > i32::MAX as int) by (nonlinear_arith);
                    assert((n as int) * (n as int) >= 46341 * 46341) by (nonlinear_arith)
                        requires
                            n as int >= 46341,
                    ;
                }
            }
            return Err(SearchError::DimensionMismatch);
        }
        if !square_check(&start) || !square_check(&goal) {
            return Err(SearchError::DimensionMismatch);
        }
        proof {
            assert(46340 * 46340 <= i32::MAX as int) by (nonlinear_arith);
            assert((n as int) * (n as int) <= 46340 * 46340) by (nonlinear_arith)
                requires
                    0 <= n as int,
                    n as int <= 46340,
            ;
        }
        let ghost sv = gview(start);
        let ghost gv = gview(goal);
        let mut root = Board {
            state: start,
            misplaced: 0,
            iteration: 0,
            distance: 0,
            prev: None,
            current: Pos(0, 0),
            history: Vec::new(),
        };
        root.calculate(&goal);
        proof {
            assert(hview(root.history) =~= seq![sv]);
        }
        let mut frontier: Vec<Board> = Vec::new();
        frontier.push(root);
        let s = Searcher { goal, frontier, visited: VisitedStore::new(), start: Ghost(sv) };
        proof {
            assert(s.frontier_models() =~= seq![s.frontier_models()[0]]);
            let rm = s.frontier_models()[0];
            assert(0 <= rm.current.1 < sv.len() && 0 <= rm.current.0 < sv[rm.current.1].len()
                && sv[rm.current.1][rm.current.0] == 0);
            assert(exists|p: (int, int)|
                0 <= p.1 < sv.len() && 0 <= p.0 < sv[p.1].len() && sv[p.1][p.0] == 0) by {
                assert(0 <= (rm.current).1 < sv.len() && 0 <= (rm.current).0 < sv[(
                rm.current).1].len() && sv[(rm.current).1][(rm.current).0] == 0);
            }
            let bp = blank_pos(sv);
            assert(0 <= bp.1 < sv.len() && 0 <= bp.0 < sv[bp.1].len() && sv[bp.1][bp.0] == 0);
            lemma_blank_unique(sv, bp.0, bp.1, rm.current.0, rm.current.1);
            assert(bp == rm.current);
            assert(rm =~~= root_model(sv, gv));
            assert(s.model().frontier =~= seq![root_model(sv, gv)]);
            assert(s.model() =~~= init_model(sv, gv));
        }
        Ok(s)
    }

    /// One driver step. With an empty frontier the search is exhausted: no
    /// solution. Otherwise the best node is popped; if it matches the goal
    /// its path is the solution; otherwise it is expanded, each candidate is
    /// scored, its key recorded, and the candidate queued in order.
    #[verifier::loop_isolation(false)]
    pub fn step(&mut self) -> (r: StepResult)
        requires
            old(self).inv(),
        ensures
            final(self).inv(),
            final(self).goal_view() == old(self).goal_view(),
            final(self).start_view() == old(self).start_view(),
            old(self).explored_view().is_prefix_of(final(self).explored_view()),
            (r is Exhausted) <==> old(self).frontier_models().len() == 0,
            r is Exhausted ==> *final(self) == *old(self),
            (r is Solved) <==> (old(self).frontier_models().len() > 0 && old(
                self,
            ).frontier_models()[0].misplaced == 0),
            r matches StepResult::Solved(path) ==> {
                &&& hview(path) == old(self).frontier_models()[0].history
                &&& solution_path(hview(path), old(self).start_view(), old(self).goal_view())
                &&& final(self).frontier_models() == old(self).frontier_models().skip(1)
                &&& final(self).explored_view() == old(self).explored_view()
            },
            r matches StepResult::Progress(it, d) ==> {
                &&& step_progress(old(self).model(), final(self).model(), old(self).goal_view())
                &&& it == old(self).frontier_models()[0].iteration
                &&& d == old(self).frontier_models()[0].distance
            },
    {
        if self.frontier.len() == 0 {
            return StepResult::Exhausted;
        }
        let ghost fm0 = old(self).frontier_models();
        let board = self.frontier.remove(0);
        proof {
            assert(board@ == fm0[0]);
            assert(models(self.frontier@) =~= fm0.subrange(1, fm0.len() as int));
            assert forall|i: int| 0 <= i < self.frontier_models().len() implies node_ok(
                #[trigger] self.frontier_models()[i],
                self.start_view(),
                self.goal_view(),
            ) by {
                assert(self.frontier_models()[i] == fm0[i + 1]);
            }
        }
        if board.misplaced == 0 {
            proof {
                lemma_mismatch_zero_eq(board@.state, self.goal_view());
                assert(models(self.frontier@) =~= fm0.skip(1));
            }
            return StepResult::Solved(board.history);
        }
        let it = board.iteration;
        let d = board.distance;
        let ghost m = board@;
        let ghost v0 = self.visited@;
        let ghost gv = self.goal_view();
        let ghost tail_ms = models(self.frontier@).to_multiset();
        let mut cands = board.explore(&self.visited);
        let ghost total = expand_spec(m, v0);
        proof {
            lemma_expand_children_ok(m, v0);
            assert(models(cands@) =~= total.subrange(0, total.len() as int));
            assert(child_keys(total).take(0) =~= Seq::<Seq<i32>>::empty());
            assert(v0 + child_keys(total).take(0) =~= v0);
            assert(scored_all(total, gv).take(0) =~= Seq::<BoardModel>::empty());
            assert(scored_all(total, gv).take(0).to_multiset() =~= Multiset::<BoardModel>::empty());
            assert(tail_ms.add(scored_all(total, gv).take(0).to_multiset()) =~= tail_ms);
        }
        while cands.len() > 0
            invariant
                models(cands@) == total.subrange(
                    total.len() - cands@.len(),
                    total.len() as int,
                ),
                cands@.len() <= total.len(),
                self.goal_view() == old(self).goal_view(),
                self.start_view() == old(self).start_view(),
                self.explored_view() == v0 + child_keys(total).take(total.len() - cands@.len()),
                models(self.frontier@).to_multiset() == tail_ms.add(
                    scored_all(total, gv).take(total.len() - cands@.len()).to_multiset(),
                ),
                self.inv(),
            decreases cands@.len(),
        {
            let ghost pre = cands@;
            let ghost done = total.len() - pre.len();
            let mut c = cands.remove(0);
            proof {
                assert(models(pre)[0] == c@);
                assert(c@ == total[done]);
                assert(child_ok(m, c@));
                assert forall|i: int| 0 <= i < cands@.len() implies models(cands@)[i] == total[done
                    + 1 + i] by {
                    assert(cands@[i] == pre[i + 1]);
                    assert(models(pre)[i + 1] == total.subrange(done, total.len() as int)[i + 1]);
                }
                assert(models(cands@) =~= total.subrange(done + 1, total.len() as int));
            }
            let ghost unscored = c@;
            c.calculate(&self.goal);
            proof {
                lemma_blank_unique(
                    c@.state,
                    c@.current.0,
                    c@.current.1,
                    unscored.current.0,
                    unscored.current.1,
                );
                assert(c@ =~~= scored(unscored, gv));
                lemma_chain_push(m.history, c@.state);
                assert(c@.history[0] == m.history[0]);
                assert(node_ok(c@, self.start_view(), self.goal_view()));
            }
            let key = c.get_string();
            proof {
                assert(key@ == child_keys(total)[done]);
                assert(child_keys(total).take(done + 1) =~= child_keys(total).take(done).push(
                    key@,
                ));
                assert(v0 + child_keys(total).take(done + 1) =~= (v0 + child_keys(total).take(
                    done,
                )).push(key@));
            }
            self.visited.insert(key);
            let ghost before = self.frontier@;
            insert_sorted(&mut self.frontier, c);
            proof {
                assert forall|i: int| 0 <= i < self.frontier_models().len() implies node_ok(
                    #[trigger] self.frontier_models()[i],
                    self.start_view(),
                    self.goal_view(),
                ) by {
                    let bd = self.frontier@[i];
                    assert(self.frontier_models()[i] == bd@);
                    if bd == c {
                    } else {
                        assert(before.contains(bd));
                        let t = choose|t: int| 0 <= t < before.len() && before[t] == bd;
                        assert(models(before)[t] == bd@);
                        assert(node_ok(models(before)[t], self.start_view(), self.goal_view()));
                    }
                }
                assert(scored_all(total, gv).take(done + 1) =~= scored_all(total, gv).take(done)
                    .push(scored(unscored, gv)));
                assert(scored_all(total, gv).take(done + 1).to_multiset() =~= scored_all(
                    total,
                    gv,
                ).take(done).to_multiset().insert(c@));
                assert(tail_ms.add(scored_all(total, gv).take(done + 1).to_multiset()) =~= tail_ms
                    .add(scored_all(total, gv).take(done).to_multiset()).insert(c@));
            }
        }
        proof {
            assert(child_keys(total).take(total.len() as int) =~= child_keys(total));
            assert(scored_all(total, gv).take(total.len() as int) =~= scored_all(total, gv));
            assert(tail_ms =~= old(self).frontier_models().skip(1).to_multiset());
            assert((v0 + child_keys(total)).subrange(0, v0.len() as int) =~= v0);
            assert(v0.is_prefix_of(self.explored_view()));
            assert(step_progress(old(self).model(), self.model(), gv));
        }
        StepResult::Progress(it, d)
    }
}

/// Runs the whole search: init, then steps until the goal is reached, the
/// frontier is exhausted, or a caller-imposed budget of `max_steps` driver
/// steps runs out. The driver itself never bounds the search — termination
/// on awkward inputs is the caller's resource decision, made through the
/// budget — and a caller that wants its own loop drives `Searcher::step`
/// directly. A solution is a blank-move chain from the start to the goal
/// (not necessarily shortest); when the start already matches the goal the
/// path is the start alone.
pub fn search_with_limit(start: Vec<Vec<i32>>, goal: Vec<Vec<i32>>, max_steps: u64) -> (r: Result<
    SearchOutcome,
    SearchError,
>)
    requires
        blank_count(gview(start)) == 1,
    ensures
        (r is Err) <==> !dims_ok(gview(start), gview(goal)),
        r matches Err(e) ==> e == SearchError::DimensionMismatch,
        r matches Ok(SearchOutcome::Solved(path)) ==> solution_path(
            hview(path),
            gview(start),
            gview(goal),
        ),
        (dims_ok(gview(start), gview(goal)) && grid_mismatches(gview(start), gview(goal)) == 0
            && max_steps >= 1) ==> (r matches Ok(SearchOutcome::Solved(path)) && hview(path)
            == seq![gview(start)]),
        r matches Ok(SearchOutcome::Solved(path)) ==> exists|k: nat, d: DriverModel|
            {
                &&& k <= max_steps
                &&& #[trigger] reaches(init_model(gview(start), gview(goal)), d, gview(goal), k)
                &&& d.frontier.len() > 0
                &&& d.frontier[0].misplaced == 0
                &&& hview(path) == d.frontier[0].history
            },
        r matches Ok(SearchOutcome::Exhausted) ==> exists|k: nat, d: DriverModel|
            {
                &&& k <= max_steps
                &&& #[trigger] reaches(init_model(gview(start), gview(goal)), d, gview(goal), k)
                &&& d.frontier.len() == 0
            },
        r matches Ok(SearchOutcome::OutOfSteps) ==> exists|d: DriverModel|
            #[trigger] reaches(
                init_model(gview(start), gview(goal)),
                d,
                gview(goal),
                max_steps as nat,
            ),
{
    let ghost sv = gview(start);
    let ghost gv = gview(goal);
    let mut s = match Searcher::new(start, goal) {
        Err(e) => {
            return Err(e);
        },
        Ok(s) => s,
    };
    let mut taken: u64 = 0;
    while taken < max_steps
        invariant
            taken <= max_steps,
            sv == gview(start),
            gv == gview(goal),
            s.inv(),
            s.goal_view() == gv,
            s.start_view() == sv,
            reaches(init_model(sv, gv), s.model(), gv, taken as nat),
            grid_mismatches(sv, gv) == 0 ==> {
                &&& taken == 0
                &&& s.frontier_models().len() > 0
                &&& s.frontier_models()[0].misplaced == 0
                &&& s.frontier_models()[0].history == seq![sv]
            },
        decreases max_steps - taken,
    {
        let ghost pre_model = s.model();
        match s.step() {
            StepResult::Solved(path) => {
                proof {
                    assert(reaches(init_model(sv, gv), pre_model, gv, taken as nat)
                        && pre_model.frontier.len() > 0 && pre_model.frontier[0].misplaced == 0
                        && hview(path) == pre_model.frontier[0].history);
                }
                return Ok(SearchOutcome::Solved(path));
            },
            StepResult::Exhausted => {
                proof {
                    assert(reaches(init_model(sv, gv), pre_model, gv, taken as nat)
                        && pre_model.frontier.len() == 0);
                }
                return Ok(SearchOutcome::Exhausted);
            },
            StepResult::Progress(_, _) => {
                proof {
                    lemma_reaches_step(init_model(sv, gv), pre_model, s.model(), gv, taken as nat);
                }
            },
        }
        taken += 1;
    }
    Ok(SearchOutcome::OutOfSteps)
}

} // verus!
