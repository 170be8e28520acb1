//! The drainage model shared by the hydrology functions: a row-major grid of
//! `width * height` cells, each holding the D8 direction in which it drains.
//! Cell `(x, y)` has index `y * width + x`.

use vstd::prelude::*;
use crate::direction::{FlowDirection, lemma_all_directions};

verus! {

/// Index of cell `(x, y)`.
pub open spec fn idx(x: int, y: int, w: int) -> int {
    y * w + x
}

/// Whether `fd` is a flow-direction grid of `w` by `h` cells.
pub open spec fn grid_ok(fd: Seq<FlowDirection>, w: int, h: int) -> bool {
    &&& 0 <= w
    &&& 0 <= h
    &&& fd.len() == w * h
}

/// The cell that cell `i` drains into: its neighbour in direction `fd[i]`,
/// or nothing when the direction is `None` or leads off the grid.
pub open spec fn succ(fd: Seq<FlowDirection>, w: int, h: int, i: int) -> Option<int> {
    let d = fd[i];
    let nx = i % w + d.dx();
    let ny = i / w + d.dy();
    if d == FlowDirection::NoFlow {
        None
    } else if 0 <= nx < w && 0 <= ny < h {
        Some(idx(nx, ny, w))
    } else {
        None
    }
}

/// The cell reached from `i` after following the flow `k` times, if the
/// flow does not stop before.
pub open spec fn walk(fd: Seq<FlowDirection>, w: int, h: int, i: int, k: nat) -> Option<int>
    decreases k,
{
    if k == 0 {
        Some(i)
    } else {
        match succ(fd, w, h, i) {
            Some(n) => walk(fd, w, h, n, (k - 1) as nat),
            None => None,
        }
    }
}

/// Number of moves that following the flow from `i` makes, when at most
/// `fuel` moves are allowed.
pub open spec fn path_steps(fd: Seq<FlowDirection>, w: int, h: int, i: int, fuel: nat) -> nat
    decreases fuel,
{
    if fuel == 0 {
        0
    } else {
        match succ(fd, w, h, i) {
            Some(n) => 1 + path_steps(fd, w, h, n, (fuel - 1) as nat),
            None => 0,
        }
    }
}

/// The neighbour of cell `c` that lies in the direction opposite to `d`:
/// the only cell that can drain into `c` by moving in direction `d`.
pub open spec fn back_neighbor(w: int, h: int, c: int, d: FlowDirection) -> Option<int> {
    let nx = c % w - d.dx();
    let ny = c / w - d.dy();
    if 0 <= nx < w && 0 <= ny < h {
        Some(idx(nx, ny, w))
    } else {
        None
    }
}

/// Whether cell `j` drains into cell `c`.
pub open spec fn flows_into(fd: Seq<FlowDirection>, w: int, h: int, j: int, c: int) -> bool {
    succ(fd, w, h, j) == Some(c)
}

/// Whether some cell in `targets` is reached from `i` by following the flow.
pub open spec fn reaches(fd: Seq<FlowDirection>, w: int, h: int, i: int, targets: Set<int>) -> bool {
    exists|k: nat| #[trigger] walk(fd, w, h, i, k) matches Some(t) && targets.contains(t)
}

// ---------------------------------------------------------------------------
// Index arithmetic
// ---------------------------------------------------------------------------

/// Coordinates in range give an index in range, from which they can be
/// read back.
pub proof fn lemma_idx(x: int, y: int, w: int, h: int)
    requires
        0 <= x < w,
        0 <= y < h,
    ensures
        0 <= idx(x, y, w) < w * h,
        idx(x, y, w) % w == x,
        idx(x, y, w) / w == y,
{
    assert(0 <= y * w + x < w * h) by (nonlinear_arith)
        requires
            0 <= x < w,
            0 <= y < h,
    ;
    vstd::arithmetic::div_mod::lemma_fundamental_div_mod_converse(y * w + x, w, y, x);
}

/// An index in range splits into coordinates in range.
pub proof fn lemma_coords(i: int, w: int, h: int)
    requires
        0 <= i < w * h,
        0 <= w,
    ensures
        0 < w,
        0 <= i % w < w,
        0 <= i / w < h,
        i == idx(i % w, i / w, w),
{
    assert(w > 0) by (nonlinear_arith)
        requires
            0 <= i < w * h,
            0 <= w,
    ;
    vstd::arithmetic::div_mod::lemma_fundamental_div_mod(i, w);
    vstd::arithmetic::div_mod::lemma_mod_pos_bound(i, w);
    vstd::arithmetic::div_mod::lemma_div_pos_is_pos(i, w);
    let q = i / w;
    let r = i % w;
    assert(i == q * w + r) by (nonlinear_arith)
        requires
            i == w * q + r,
    ;
    assert(q < h) by (nonlinear_arith)
        requires
            i == q * w + r,
            0 <= r,
            0 <= q,
            i < w * h,
            0 < w,
    ;
}

/// The successor of a cell in range is a cell in range.
pub proof fn lemma_succ_in_range(fd: Seq<FlowDirection>, w: int, h: int, i: int)
    requires
        grid_ok(fd, w, h),
        0 <= i < w * h,
    ensures
        succ(fd, w, h, i) matches Some(n) ==> 0 <= n < w * h && n != i,
{
    lemma_coords(i, w, h);
    let d = fd[i];
    if let Some(n) = succ(fd, w, h, i) {
        let nx = i % w + d.dx();
        let ny = i / w + d.dy();
        lemma_idx(nx, ny, w, h);
        lemma_all_directions(d);
    }
}

/// Following the flow `k + 1` times is following it `k` times and then once.
pub proof fn lemma_walk_last(fd: Seq<FlowDirection>, w: int, h: int, i: int, k: nat)
    ensures
        walk(fd, w, h, i, k + 1) == (match walk(fd, w, h, i, k) {
            Some(c) => succ(fd, w, h, c),
            None => None,
        }),
    decreases k,
{
    reveal_with_fuel(walk, 2);
    if k > 0 {
        if let Some(n) = succ(fd, w, h, i) {
            lemma_walk_last(fd, w, h, n, (k - 1) as nat);
        }
    }
}

/// Cells reached by the flow from a cell in range are in range.
pub proof fn lemma_walk_in_range(fd: Seq<FlowDirection>, w: int, h: int, i: int, k: nat)
    requires
        grid_ok(fd, w, h),
        0 <= i < w * h,
    ensures
        walk(fd, w, h, i, k) matches Some(c) ==> 0 <= c < w * h,
    decreases k,
{
    if k > 0 {
        lemma_succ_in_range(fd, w, h, i);
        if let Some(n) = succ(fd, w, h, i) {
            lemma_walk_in_range(fd, w, h, n, (k - 1) as nat);
        }
    }
}

/// A walk that is cut short stays cut short.
pub proof fn lemma_walk_stops(fd: Seq<FlowDirection>, w: int, h: int, i: int, k: nat, m: nat)
    requires
        k <= m,
        walk(fd, w, h, i, k) is None,
    ensures
        walk(fd, w, h, i, m) is None,
    decreases m,
{
    if k < m {
        lemma_walk_last(fd, w, h, i, (m - 1) as nat);
        lemma_walk_stops(fd, w, h, i, k, (m - 1) as nat);
    }
}

/// `path_steps` after `s` moves along the walk.
pub proof fn lemma_path_steps_split(fd: Seq<FlowDirection>, w: int, h: int, i: int, s: nat, fuel: nat)
    requires
        s <= fuel,
        walk(fd, w, h, i, s) is Some,
    ensures
        path_steps(fd, w, h, i, fuel) == s + path_steps(
            fd,
            w,
            h,
            walk(fd, w, h, i, s)->0,
            (fuel - s) as nat,
        ),
    decreases s,
{
    if s > 0 {
        let n = succ(fd, w, h, i)->0;
        lemma_path_steps_split(fd, w, h, n, (s - 1) as nat, (fuel - 1) as nat);
    }
}

/// Every cell that drains into `c` is the back-neighbour of `c` for one of
/// the eight directions, namely its own.
pub proof fn lemma_pred_is_back_neighbor(fd: Seq<FlowDirection>, w: int, h: int, j: int, c: int)
    requires
        grid_ok(fd, w, h),
        0 <= j < w * h,
        flows_into(fd, w, h, j, c),
    ensures
        fd[j] != FlowDirection::NoFlow,
        back_neighbor(w, h, c, fd[j]) == Some(j),
{
    lemma_coords(j, w, h);
    let d = fd[j];
    let nx = j % w + d.dx();
    let ny = j / w + d.dy();
    lemma_idx(nx, ny, w, h);
}

/// Back-neighbours of a cell in range are in range.
pub proof fn lemma_back_neighbor_in_range(w: int, h: int, c: int, d: FlowDirection)
    requires
        0 <= w,
        0 <= c < w * h,
    ensures
        back_neighbor(w, h, c, d) matches Some(m) ==> 0 <= m < w * h,
{
    lemma_coords(c, w, h);
    if let Some(m) = back_neighbor(w, h, c, d) {
        lemma_idx(c % w - d.dx(), c / w - d.dy(), w, h);
    }
}

// ---------------------------------------------------------------------------
// Executable helpers
// ---------------------------------------------------------------------------

/// The cell `(x + dx, y + dy)`, if it lies on the grid.
pub fn shift(x: usize, y: usize, dx: i32, dy: i32, w: usize, h: usize) -> (r: Option<(usize, usize)>)
    requires
        -1 <= dx <= 1,
        -1 <= dy <= 1,
    ensures
        r == (if 0 <= x + dx < w && 0 <= y + dy < h {
            Some(((x + dx) as usize, (y + dy) as usize))
        } else {
            None
        }),
{
    if (dx < 0 && x == 0) || (dy < 0 && y == 0) {
        return None;
    }
    let nx: usize = if dx < 0 { x - 1 } else if dx > 0 { if x >= w { return None; } x + 1 } else { x };
    let ny: usize = if dy < 0 { y - 1 } else if dy > 0 { if y >= h { return None; } y + 1 } else { y };
    if nx < w && ny < h {
        Some((nx, ny))
    } else {
        None
    }
}

/// The cell that `(x, y)` drains into, if any.
pub fn downstream(fd: &Vec<FlowDirection>, x: usize, y: usize, w: usize, h: usize) -> (r: Option<(usize, usize)>)
    requires
        grid_ok(fd@, w as int, h as int),
        x < w,
        y < h,
    ensures
        match r {
            Some((nx, ny)) => nx < w && ny < h && succ(fd@, w as int, h as int, idx(x as int, y as int, w as int))
                == Some(idx(nx as int, ny as int, w as int)),
            None => succ(fd@, w as int, h as int, idx(x as int, y as int, w as int)) is None,
        },
{
    let len = fd.len();
    proof { lemma_idx(x as int, y as int, w as int, h as int); }
    let i = y * w + x;
    let dir = fd[i];
    if dir == FlowDirection::NoFlow {
        return None;
    }
    let (dx, dy) = dir.offset();
    shift(x, y, dx, dy, w, h)
}

/// Whether cell `(nx, ny)` drains into cell `(x, y)`.
pub fn drains_into(
    fd: &Vec<FlowDirection>,
    nx: usize,
    ny: usize,
    x: usize,
    y: usize,
    w: usize,
    h: usize,
) -> (r: bool)
    requires
        grid_ok(fd@, w as int, h as int),
        nx < w,
        ny < h,
        x < w,
        y < h,
    ensures
        r == flows_into(fd@, w as int, h as int, idx(nx as int, ny as int, w as int), idx(x as int, y as int, w as int)),
{
    proof {
        lemma_idx(x as int, y as int, w as int, h as int);
        lemma_idx(nx as int, ny as int, w as int, h as int);
    }
    match downstream(fd, nx, ny, w, h) {
        Some((ax, ay)) => {
            proof {
                lemma_idx(ax as int, ay as int, w as int, h as int);
            }
            ax == x && ay == y
        },
        None => false,
    }
}

} // verus!
