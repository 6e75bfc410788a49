//! The grid model: square boards of `i32` cells, the misplaced-tile count,
//! the blank count, row-major serialization, and the blank-swap move.

use vstd::prelude::*;

verus! {

/// The view of a board: a sequence of rows, each a sequence of cells.
pub open spec fn gview(g: Vec<Vec<i32>>) -> Seq<Seq<i32>> {
    g@.map_values(|row: Vec<i32>| row@)
}

/// The view of a sequence of boards (a search path).
pub open spec fn hview(h: Vec<Vec<Vec<i32>>>) -> Seq<Seq<Seq<i32>>> {
    h@.map_values(|g: Vec<Vec<i32>>| gview(g))
}

/// A grid is square when every row is as long as the list of rows.
pub open spec fn is_square(g: Seq<Seq<i32>>) -> bool {
    forall|r: int| 0 <= r < g.len() ==> (#[trigger] g[r]).len() == g.len()
}

/// Number of positions below `k` where `row` and `goal_row` differ.
pub open spec fn row_mismatches_upto(row: Seq<i32>, goal_row: Seq<i32>, k: int) -> int
    decreases k,
{
    if k <= 0 {
        0
    } else {
        row_mismatches_upto(row, goal_row, k - 1) + if row[k - 1] != goal_row[k - 1] {
            1int
        } else {
            0int
        }
    }
}

/// Mismatches between `s` and `goal` over the first `k` rows of `goal`.
pub open spec fn grid_mismatches_upto(s: Seq<Seq<i32>>, goal: Seq<Seq<i32>>, k: int) -> int
    decreases k,
{
    if k <= 0 {
        0
    } else {
        grid_mismatches_upto(s, goal, k - 1) + row_mismatches_upto(
            s[k - 1],
            goal[k - 1],
            goal[k - 1].len() as int,
        )
    }
}

/// The misplaced-tile count: cells of `s` that differ from `goal` at the
/// same coordinates.
pub open spec fn grid_mismatches(s: Seq<Seq<i32>>, goal: Seq<Seq<i32>>) -> int {
    grid_mismatches_upto(s, goal, goal.len() as int)
}

/// Number of positions below `k` where `row` holds `0`.
pub open spec fn row_zeros_upto(row: Seq<i32>, k: int) -> int
    decreases k,
{
    if k <= 0 {
        0
    } else {
        row_zeros_upto(row, k - 1) + if row[k - 1] == 0 {
            1int
        } else {
            0int
        }
    }
}

/// Number of `0` cells in `row`.
pub open spec fn row_zeros(row: Seq<i32>) -> int {
    row_zeros_upto(row, row.len() as int)
}

/// Number of `0` cells in the first `k` rows of `g`.
pub open spec fn grid_zeros_upto(g: Seq<Seq<i32>>, k: int) -> int
    decreases k,
{
    if k <= 0 {
        0
    } else {
        grid_zeros_upto(g, k - 1) + row_zeros(g[k - 1])
    }
}

/// Number of blank cells in `g`; a well-formed board has exactly one.
pub open spec fn blank_count(g: Seq<Seq<i32>>) -> int {
    grid_zeros_upto(g, g.len() as int)
}

/// The cells of the first `k` rows of `g`, concatenated in row-major order.
pub open spec fn flatten_upto(g: Seq<Seq<i32>>, k: int) -> Seq<i32>
    decreases k,
{
    if k <= 0 {
        Seq::empty()
    } else {
        flatten_upto(g, k - 1) + g[k - 1]
    }
}

/// The canonical serialization of a grid: its cells in row-major order.
pub open spec fn flatten(g: Seq<Seq<i32>>) -> Seq<i32> {
    flatten_upto(g, g.len() as int)
}

/// Two cells are orthogonal neighbours.
pub open spec fn adjacent(x: int, y: int, nx: int, ny: int) -> bool {
    (y == ny && (nx == x - 1 || nx == x + 1)) || (x == nx && (ny == y - 1 || ny == y + 1))
}

/// The grid after moving the value at `(nx, ny)` into `(x, y)` and placing
/// the blank at `(nx, ny)`. Coordinates are `(column, row)`.
pub open spec fn swapped(g: Seq<Seq<i32>>, x: int, y: int, nx: int, ny: int) -> Seq<Seq<i32>> {
    if ny == y {
        g.update(y, g[y].update(x, g[y][nx]).update(nx, 0))
    } else {
        g.update(y, g[y].update(x, g[ny][nx])).update(ny, g[ny].update(nx, 0))
    }
}

/// `b` is reachable from `a` by one blank move.
pub open spec fn is_blank_swap(a: Seq<Seq<i32>>, b: Seq<Seq<i32>>) -> bool {
    exists|x: int, y: int, nx: int, ny: int|
        {
            &&& 0 <= x < a.len() && 0 <= y < a.len()
            &&& 0 <= nx < a.len() && 0 <= ny < a.len()
            &&& adjacent(x, y, nx, ny)
            &&& a[y][x] == 0
            &&& b == swapped(a, x, y, nx, ny)
        }
}

/// Every two consecutive grids of `h` are related by one blank move.
pub open spec fn is_swap_chain(h: Seq<Seq<Seq<i32>>>) -> bool {
    forall|i: int| 0 <= i < h.len() - 1 ==> is_blank_swap(#[trigger] h[i], h[i + 1])
}

pub proof fn lemma_row_mismatches_nonneg(row: Seq<i32>, goal_row: Seq<i32>, k: int)
    ensures
        row_mismatches_upto(row, goal_row, k) >= 0,
    decreases k,
{
    if k > 0 {
        lemma_row_mismatches_nonneg(row, goal_row, k - 1);
    }
}

pub proof fn lemma_row_mismatches_bound(row: Seq<i32>, goal_row: Seq<i32>, k: int)
    requires
        k >= 0,
    ensures
        row_mismatches_upto(row, goal_row, k) <= k,
    decreases k,
{
    if k > 0 {
        lemma_row_mismatches_bound(row, goal_row, k - 1);
    }
}

pub proof fn lemma_grid_mismatches_nonneg(s: Seq<Seq<i32>>, goal: Seq<Seq<i32>>, k: int)
    ensures
        grid_mismatches_upto(s, goal, k) >= 0,
    decreases k,
{
    if k > 0 {
        lemma_grid_mismatches_nonneg(s, goal, k - 1);
        lemma_row_mismatches_nonneg(s[k - 1], goal[k - 1], goal[k - 1].len() as int);
    }
}

pub proof fn lemma_grid_mismatches_bound(s: Seq<Seq<i32>>, goal: Seq<Seq<i32>>, k: int, n: int)
    requires
        0 <= k,
        0 <= n,
        forall|r: int| 0 <= r < k ==> (#[trigger] goal[r]).len() <= n,
    ensures
        grid_mismatches_upto(s, goal, k) <= k * n,
    decreases k,
{
    if k > 0 {
        lemma_grid_mismatches_bound(s, goal, k - 1, n);
        lemma_row_mismatches_bound(s[k - 1], goal[k - 1], goal[k - 1].len() as int);
        assert((k - 1) * n + n == k * n) by (nonlinear_arith);
    }
}

pub proof fn lemma_row_mismatches_zero(row: Seq<i32>, goal_row: Seq<i32>, k: int)
    requires
        k >= 0,
    ensures
        (row_mismatches_upto(row, goal_row, k) == 0) <==> (forall|i: int|
            0 <= i < k ==> row[i] == goal_row[i]),
    decreases k,
{
    if k > 0 {
        lemma_row_mismatches_zero(row, goal_row, k - 1);
        lemma_row_mismatches_nonneg(row, goal_row, k - 1);
    }
}

pub proof fn lemma_grid_mismatches_zero(s: Seq<Seq<i32>>, goal: Seq<Seq<i32>>, k: int)
    requires
        k >= 0,
    ensures
        (grid_mismatches_upto(s, goal, k) == 0) <==> (forall|r: int, c: int|
            0 <= r < k && 0 <= c < goal[r].len() ==> #[trigger] s[r][c] == goal[r][c]),
    decreases k,
{
    if k > 0 {
        lemma_grid_mismatches_zero(s, goal, k - 1);
        lemma_grid_mismatches_nonneg(s, goal, k - 1);
        lemma_row_mismatches_zero(s[k - 1], goal[k - 1], goal[k - 1].len() as int);
        lemma_row_mismatches_nonneg(s[k - 1], goal[k - 1], goal[k - 1].len() as int);
    }
}

/// The misplaced-tile count is zero exactly on the goal itself.
pub proof fn lemma_mismatch_zero_eq(s: Seq<Seq<i32>>, goal: Seq<Seq<i32>>)
    requires
        is_square(s),
        is_square(goal),
        s.len() == goal.len(),
    ensures
        (grid_mismatches(s, goal) == 0) <==> (s == goal),
{
    lemma_grid_mismatches_zero(s, goal, goal.len() as int);
    if grid_mismatches(s, goal) == 0 {
        assert forall|r: int| 0 <= r < s.len() implies s[r] == goal[r] by {
            assert(s[r] =~= goal[r]);
        }
        assert(s =~= goal);
    }
}

pub proof fn lemma_row_zeros_nonneg(row: Seq<i32>, k: int)
    ensures
        row_zeros_upto(row, k) >= 0,
    decreases k,
{
    if k > 0 {
        lemma_row_zeros_nonneg(row, k - 1);
    }
}

pub proof fn lemma_row_zeros_mono(row: Seq<i32>, k1: int, k2: int)
    requires
        k1 <= k2,
    ensures
        row_zeros_upto(row, k1) <= row_zeros_upto(row, k2),
    decreases k2 - k1,
{
    if k1 < k2 {
        lemma_row_zeros_mono(row, k1, k2 - 1);
    }
}

pub proof fn lemma_row_zeros_update(row: Seq<i32>, i: int, v: i32, k: int)
    requires
        0 <= i < row.len(),
        k <= row.len(),
    ensures
        row_zeros_upto(row.update(i, v), k) == row_zeros_upto(row, k) + if i < k {
            (if v == 0 {
                1int
            } else {
                0int
            }) - (if row[i] == 0 {
                1int
            } else {
                0int
            })
        } else {
            0int
        },
    decreases k,
{
    if k > 0 {
        lemma_row_zeros_update(row, i, v, k - 1);
    }
}

pub proof fn lemma_grid_zeros_nonneg(g: Seq<Seq<i32>>, k: int)
    ensures
        grid_zeros_upto(g, k) >= 0,
    decreases k,
{
    if k > 0 {
        lemma_grid_zeros_nonneg(g, k - 1);
        lemma_row_zeros_nonneg(g[k - 1], g[k - 1].len() as int);
    }
}

pub proof fn lemma_grid_zeros_mono(g: Seq<Seq<i32>>, k1: int, k2: int)
    requires
        k1 <= k2,
    ensures
        grid_zeros_upto(g, k1) <= grid_zeros_upto(g, k2),
    decreases k2 - k1,
{
    if k1 < k2 {
        lemma_grid_zeros_mono(g, k1, k2 - 1);
        lemma_row_zeros_nonneg(g[k2 - 1], g[k2 - 1].len() as int);
    }
}

pub proof fn lemma_grid_zeros_update(g: Seq<Seq<i32>>, r: int, row2: Seq<i32>, k: int)
    requires
        0 <= r < g.len(),
        k <= g.len(),
    ensures
        grid_zeros_upto(g.update(r, row2), k) == grid_zeros_upto(g, k) + if r < k {
            row_zeros(row2) - row_zeros(g[r])
        } else {
            0int
        },
    decreases k,
{
    if k > 0 {
        lemma_grid_zeros_update(g, r, row2, k - 1);
    }
}

pub proof fn lemma_row_zero_at(row: Seq<i32>, i: int)
    requires
        0 <= i < row.len(),
        row[i] == 0,
    ensures
        row_zeros(row) >= 1,
{
    lemma_row_zeros_nonneg(row, i);
    lemma_row_zeros_mono(row, i + 1, row.len() as int);
}

proof fn lemma_row_two_zeros(row: Seq<i32>, i: int, j: int)
    requires
        0 <= i < j < row.len(),
        row[i] == 0,
        row[j] == 0,
    ensures
        row_zeros(row) >= 2,
{
    lemma_row_zeros_nonneg(row, i);
    lemma_row_zeros_mono(row, i + 1, j);
    lemma_row_zeros_mono(row, j + 1, row.len() as int);
}

proof fn lemma_grid_two_zero_rows(g: Seq<Seq<i32>>, r1: int, r2: int)
    requires
        0 <= r1 < r2 < g.len(),
        row_zeros(g[r1]) >= 1,
        row_zeros(g[r2]) >= 1,
    ensures
        blank_count(g) >= 2,
{
    lemma_grid_zeros_nonneg(g, r1);
    lemma_grid_zeros_mono(g, r1 + 1, r2);
    lemma_grid_zeros_mono(g, r2 + 1, g.len() as int);
}

/// The `(column, row)` position of a blank cell of `g`; with exactly one
/// blank it is the blank's position.
pub open spec fn blank_pos(g: Seq<Seq<i32>>) -> (int, int) {
    choose|p: (int, int)| 0 <= p.1 < g.len() && 0 <= p.0 < g[p.1].len() && g[p.1][p.0] == 0
}

/// With exactly one blank in the grid, any two blank positions coincide.
pub proof fn lemma_blank_unique(g: Seq<Seq<i32>>, x1: int, y1: int, x2: int, y2: int)
    requires
        blank_count(g) == 1,
        0 <= y1 < g.len(),
        0 <= x1 < g[y1].len(),
        0 <= y2 < g.len(),
        0 <= x2 < g[y2].len(),
        g[y1][x1] == 0,
        g[y2][x2] == 0,
    ensures
        x1 == x2 && y1 == y2,
{
    if y1 == y2 {
        if x1 < x2 {
            lemma_row_two_zeros(g[y1], x1, x2);
            lemma_grid_zeros_nonneg(g, y1);
            lemma_grid_zeros_mono(g, y1 + 1, g.len() as int);
        } else if x2 < x1 {
            lemma_row_two_zeros(g[y1], x2, x1);
            lemma_grid_zeros_nonneg(g, y1);
            lemma_grid_zeros_mono(g, y1 + 1, g.len() as int);
        }
    } else {
        lemma_row_zero_at(g[y1], x1);
        lemma_row_zero_at(g[y2], x2);
        if y1 < y2 {
            lemma_grid_two_zero_rows(g, y1, y2);
        } else {
            lemma_grid_two_zero_rows(g, y2, y1);
        }
    }
}

pub proof fn lemma_flatten_upto_len(g: Seq<Seq<i32>>, k: int, n: int)
    requires
        0 <= k,
        0 <= n,
        forall|r: int| 0 <= r < k ==> (#[trigger] g[r]).len() == n,
    ensures
        flatten_upto(g, k).len() == k * n,
    decreases k,
{
    if k > 0 {
        lemma_flatten_upto_len(g, k - 1, n);
        assert(g[k - 1].len() == n);
        assert((k - 1) * n + n == k * n) by (nonlinear_arith);
        assert(flatten_upto(g, k).len() == (k - 1) * n + n);
    } else {
        assert(k * n == 0) by (nonlinear_arith)
            requires
                k == 0,
        ;
    }
}

pub proof fn lemma_flatten_index(g: Seq<Seq<i32>>, k: int, n: int, r: int, c: int)
    requires
        0 <= r < k,
        0 <= c < n,
        forall|rr: int| 0 <= rr < k ==> (#[trigger] g[rr]).len() == n,
    ensures
        0 <= r * n + c < flatten_upto(g, k).len(),
        flatten_upto(g, k)[r * n + c] == g[r][c],
    decreases k,
{
    lemma_flatten_upto_len(g, k, n);
    lemma_flatten_upto_len(g, k - 1, n);
    assert(0 <= r * n && r * n + c < k * n) by (nonlinear_arith)
        requires
            0 <= r < k,
            0 <= c < n,
    ;
    if r == k - 1 {
        assert(r * n + c - (k - 1) * n == c);
    } else {
        assert(r * n + c < (k - 1) * n) by (nonlinear_arith)
            requires
                0 <= r < k - 1,
                0 <= c < n,
        ;
        lemma_flatten_index(g, k - 1, n, r, c);
    }
}

/// A key has one token per cell: its length is the number of cells.
pub proof fn lemma_key_length(g: Seq<Seq<i32>>)
    requires
        is_square(g),
    ensures
        flatten(g).len() == g.len() * g.len(),
{
    lemma_flatten_upto_len(g, g.len() as int, g.len() as int);
}

/// Distinct same-dimension grids serialize to distinct keys.
pub proof fn lemma_key_injective(a: Seq<Seq<i32>>, b: Seq<Seq<i32>>)
    requires
        is_square(a),
        is_square(b),
        a.len() == b.len(),
        flatten(a) == flatten(b),
    ensures
        a == b,
{
    let n = a.len() as int;
    assert forall|r: int| 0 <= r < n implies a[r] == b[r] by {
        assert forall|c: int| 0 <= c < n implies a[r][c] == b[r][c] by {
            lemma_flatten_index(a, n, n, r, c);
            lemma_flatten_index(b, n, n, r, c);
        }
        assert(a[r] =~= b[r]);
    }
    assert(a =~= b);
}

/// A blank move keeps the grid square, of the same size, and with the
/// moved-from cell holding the neighbour's value and the blank at the
/// destination.
pub proof fn lemma_swapped_shape(g: Seq<Seq<i32>>, x: int, y: int, nx: int, ny: int)
    requires
        is_square(g),
        0 <= x < g.len(),
        0 <= y < g.len(),
        0 <= nx < g.len(),
        0 <= ny < g.len(),
    ensures
        swapped(g, x, y, nx, ny).len() == g.len(),
        is_square(swapped(g, x, y, nx, ny)),
        swapped(g, x, y, nx, ny)[ny][nx] == 0,
        (x != nx || y != ny) ==> swapped(g, x, y, nx, ny)[y][x] == g[ny][nx],
        forall|r: int, c: int|
            0 <= r < g.len() && 0 <= c < g.len() && !(r == y && c == x) && !(r == ny && c == nx)
                ==> #[trigger] swapped(g, x, y, nx, ny)[r][c] == g[r][c],
{
}

/// A blank move neither creates nor destroys blanks.
pub proof fn lemma_swap_blank_count(g: Seq<Seq<i32>>, x: int, y: int, nx: int, ny: int)
    requires
        is_square(g),
        0 <= x < g.len(),
        0 <= y < g.len(),
        0 <= nx < g.len(),
        0 <= ny < g.len(),
        g[y][x] == 0,
        x != nx || y != ny,
    ensures
        blank_count(swapped(g, x, y, nx, ny)) == blank_count(g),
{
    let len = g.len() as int;
    if ny == y {
        let v = g[y][nx];
        let mid = g[y].update(x, v);
        let row2 = mid.update(nx, 0);
        lemma_row_zeros_update(g[y], x, v, g[y].len() as int);
        assert(mid[nx] == v);
        lemma_row_zeros_update(mid, nx, 0, mid.len() as int);
        assert(row_zeros(row2) == row_zeros(g[y]));
        lemma_grid_zeros_update(g, y, row2, len);
        assert(swapped(g, x, y, nx, ny).len() == len);
    } else {
        let v = g[ny][nx];
        let row_y = g[y].update(x, v);
        let row_ny = g[ny].update(nx, 0);
        lemma_row_zeros_update(g[y], x, v, g[y].len() as int);
        lemma_row_zeros_update(g[ny], nx, 0, g[ny].len() as int);
        let g2 = g.update(y, row_y);
        lemma_grid_zeros_update(g, y, row_y, len);
        assert(g2[ny] == g[ny]);
        lemma_grid_zeros_update(g2, ny, row_ny, len);
        assert(swapped(g, x, y, nx, ny) == g2.update(ny, row_ny));
    }
}

/// Extending a swap chain by one more blank move keeps it a chain.
pub proof fn lemma_chain_push(h: Seq<Seq<Seq<i32>>>, b: Seq<Seq<i32>>)
    requires
        is_swap_chain(h),
        h.len() >= 1,
        is_blank_swap(h[h.len() - 1], b),
    ensures
        is_swap_chain(h.push(b)),
{
    let h2 = h.push(b);
    assert forall|i: int| 0 <= i < h2.len() - 1 implies is_blank_swap(#[trigger] h2[i], h2[i + 1]) by {
        if i < h.len() - 1 {
            assert(is_blank_swap(h[i], h[i + 1]));
        }
    }
}

/// Copies one row of cells.
pub fn copy_row(row: &Vec<i32>) -> (out: Vec<i32>)
    ensures
        out@ == row@,
{
    let mut out: Vec<i32> = Vec::new();
    let mut i: usize = 0;
    while i < row.len()
        invariant
            i <= row.len(),
            out@ == row@.subrange(0, i as int),
        decreases row.len() - i,
    {
        out.push(row[i]);
        i += 1;
        assert(out@ =~= row@.subrange(0, i as int));
    }
    assert(out@ =~= row@);
    out
}

/// Copies a whole grid.
pub fn copy_grid(g: &Vec<Vec<i32>>) -> (out: Vec<Vec<i32>>)
    ensures
        gview(out) == gview(*g),
        out@.len() == g@.len(),
{
    let mut out: Vec<Vec<i32>> = Vec::new();
    let mut i: usize = 0;
    while i < g.len()
        invariant
            i <= g.len(),
            out@.len() == i,
            forall|j: int| 0 <= j < i ==> (#[trigger] out@[j])@ == g@[j]@,
        decreases g.len() - i,
    {
        let row = copy_row(&g[i]);
        out.push(row);
        i += 1;
    }
    assert(gview(out) =~~= gview(*g));
    out
}

/// Copies a sequence of grids (a search path).
pub fn copy_history(h: &Vec<Vec<Vec<i32>>>) -> (out: Vec<Vec<Vec<i32>>>)
    ensures
        hview(out) == hview(*h),
        out@.len() == h@.len(),
{
    let mut out: Vec<Vec<Vec<i32>>> = Vec::new();
    let mut i: usize = 0;
    while i < h.len()
        invariant
            i <= h.len(),
            out@.len() == i,
            forall|j: int| 0 <= j < i ==> gview(#[trigger] out@[j]) == gview(h@[j]),
        decreases h.len() - i,
    {
        let g = copy_grid(&h[i]);
        out.push(g);
        i += 1;
    }
    assert(hview(out) =~~= hview(*h));
    out
}

/// Builds the grid reached by swapping the blank at `(x, y)` with the
/// neighbour at `(nx, ny)`.
pub fn swap_blank(g: &Vec<Vec<i32>>, x: usize, y: usize, nx: usize, ny: usize) -> (out: Vec<
    Vec<i32>,
>)
    requires
        y < g@.len(),
        ny < g@.len(),
        x < g@[y as int]@.len(),
        nx < g@[ny as int]@.len(),
    ensures
        gview(out) == swapped(gview(*g), x as int, y as int, nx as int, ny as int),
{
    let mut out = copy_grid(g);
    if ny == y {
        let mut row = copy_row(&g[y]);
        let v = row[nx];
        row.set(x, v);
        row.set(nx, 0);
        out.set(y, row);
        assert(gview(out) =~~= swapped(gview(*g), x as int, y as int, nx as int, ny as int));
    } else {
        let v = g[ny][nx];
        let mut row_y = copy_row(&g[y]);
        row_y.set(x, v);
        let mut row_ny = copy_row(&g[ny]);
        row_ny.set(nx, 0);
        out.set(y, row_y);
        out.set(ny, row_ny);
        assert(gview(out) =~~= swapped(gview(*g), x as int, y as int, nx as int, ny as int));
    }
    out
}

/// Serializes a grid: its cells in row-major order, one token per cell.
pub fn grid_key(g: &Vec<Vec<i32>>) -> (key: Vec<i32>)
    ensures
        key@ == flatten(gview(*g)),
{
    let gv = Ghost(gview(*g));
    let mut key: Vec<i32> = Vec::new();
    let mut r: usize = 0;
    while r < g.len()
        invariant
            r <= g.len(),
            gv@ == gview(*g),
            key@ == flatten_upto(gv@, r as int),
        decreases g.len() - r,
    {
        let mut c: usize = 0;
        while c < g[r].len()
            invariant
                r < g.len(),
                c <= g@[r as int]@.len(),
                gv@ == gview(*g),
                key@ == flatten_upto(gv@, r as int) + gv@[r as int].subrange(0, c as int),
            decreases g@[r as int]@.len() - c,
        {
            key.push(g[r][c]);
            c += 1;
            assert(key@ =~= flatten_upto(gv@, r as int) + gv@[r as int].subrange(0, c as int));
        }
        assert(gv@[r as int].subrange(0, gv@[r as int].len() as int) =~= gv@[r as int]);
        r += 1;
        assert(key@ == flatten_upto(gv@, r as int));
    }
    key
}

/// Tests whether a grid is square.
pub fn square_check(g: &Vec<Vec<i32>>) -> (r: bool)
    ensures
        r == is_square(gview(*g)),
{
    let n = g.len();
    let mut i: usize = 0;
    while i < n
        invariant
            i <= n,
            n == g@.len(),
            forall|j: int| 0 <= j < i ==> (#[trigger] gview(*g)[j]).len() == n,
        decreases n - i,
    {
        if g[i].len() != n {
            assert(gview(*g)[i as int].len() != n);
            return false;
        }
        i += 1;
    }
    true
}

} // verus!
