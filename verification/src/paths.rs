//! Following the flow downstream from a cell, and collecting everything that
//! drains into a river path.

use vstd::prelude::*;
use crate::direction::{FlowDirection, lemma_all_directions};
use crate::grid::{
    back_neighbor, downstream, drains_into, flows_into, grid_ok, idx, lemma_coords, lemma_idx, lemma_back_neighbor_in_range,
    lemma_path_steps_split, lemma_pred_is_back_neighbor, lemma_succ_in_range, lemma_walk_last, path_steps,
    shift, succ, walk, reaches,
};

verus! {

/// Law of path length: following the flow from `i` with at most `fuel`
/// moves makes `path_steps` moves: no more than `fuel`, every one of them
/// possible, and, when fewer than `fuel`, the flow stops right after them.
pub proof fn lemma_path_length_is_where_flow_stops(fd: Seq<FlowDirection>, w: int, h: int, i: int, fuel: nat)
    ensures
        path_steps(fd, w, h, i, fuel) <= fuel,
        walk(fd, w, h, i, path_steps(fd, w, h, i, fuel)) is Some,
        path_steps(fd, w, h, i, fuel) < fuel ==> walk(fd, w, h, i, path_steps(fd, w, h, i, fuel) + 1) is None,
    decreases fuel,
{
    reveal_with_fuel(walk, 2);
    if fuel > 0 {
        if let Some(n) = succ(fd, w, h, i) {
            lemma_path_length_is_where_flow_stops(fd, w, h, n, (fuel - 1) as nat);
            let r = path_steps(fd, w, h, n, (fuel - 1) as nat);
            assert(walk(fd, w, h, i, r + 1) == walk(fd, w, h, n, r));
            assert(walk(fd, w, h, i, r + 2) == walk(fd, w, h, n, r + 1));
        }
    }
}

/// Number of cells the path from `i` visits when it may take at most
/// `max_steps` iterations: the start and every cell reached before the flow
/// stops, up to `max_steps` cells.
pub open spec fn visits(fd: Seq<FlowDirection>, w: int, h: int, i: int, max_steps: nat) -> nat {
    if max_steps == 0 {
        0
    } else {
        1 + path_steps(fd, w, h, i, (max_steps - 1) as nat)
    }
}

/// The set of cells on the first `count` cells of the path from `i`.
pub open spec fn path_set(fd: Seq<FlowDirection>, w: int, h: int, i: int, count: nat) -> Set<int> {
    Set::new(|c: int| exists|t: nat| t < count && #[trigger] walk(fd, w, h, i, t) == Some(c))
}

/// Whether every cell that drains into `i` is marked.
pub open spec fn preds_marked(fd: Seq<FlowDirection>, w: int, h: int, mask: Seq<bool>, i: int) -> bool {
    forall|j: int| 0 <= j < w * h && #[trigger] flows_into(fd, w, h, j, i) ==> mask[j]
}

/// Whether the neighbour of `c` that would drain into it by moving in
/// direction `d` is marked, in case it does drain into `c`.
pub open spec fn covered(fd: Seq<FlowDirection>, w: int, h: int, mask: Seq<bool>, c: int, d: FlowDirection) -> bool {
    match back_neighbor(w, h, c, d) {
        Some(m) => flows_into(fd, w, h, m, c) ==> mask[m],
        None => true,
    }
}

/// Number of `false` entries.
pub open spec fn count_false(s: Seq<bool>) -> nat
    decreases s.len(),
{
    if s.len() == 0 {
        0
    } else {
        count_false(s.drop_last()) + if s.last() { 0nat } else { 1nat }
    }
}

proof fn lemma_count_false_set(s: Seq<bool>, i: int)
    requires
        0 <= i < s.len(),
        !s[i],
    ensures
        count_false(s.update(i, true)) + 1 == count_false(s),
    decreases s.len(),
{
    let t = s.update(i, true);
    if i < s.len() - 1 {
        assert(t.drop_last() =~= s.drop_last().update(i, true));
        lemma_count_false_set(s.drop_last(), i);
    } else {
        assert(t.drop_last() =~= s.drop_last());
    }
}

/// A vector holding `n` copies of `value`.
pub fn filled<T: Copy>(value: T, n: usize) -> (r: Vec<T>)
    ensures
        r@ == Seq::new(n as nat, |_i: int| value),
{
    let mut r: Vec<T> = Vec::with_capacity(n);
    let mut k: usize = 0;
    while k < n
        invariant
            k <= n,
            r@ == Seq::new(k as nat, |_i: int| value),
        decreases n - k,
    {
        r.push(value);
        k = k + 1;
        assert(r@ =~= Seq::new(k as nat, |_i: int| value));
    }
    r
}

/// Trace path length from a point to edge/pit: the number of moves made by
/// following the flow from `(start_x, start_y)`, at most `width + height`.
pub fn trace_path_length(
    flow_direction: &Vec<FlowDirection>,
    start_x: usize,
    start_y: usize,
    width: usize,
    height: usize,
) -> (r: usize)
    requires
        grid_ok(flow_direction@, width as int, height as int),
        start_x < width,
        start_y < height,
        width + height <= usize::MAX,
    ensures
        r == path_steps(
            flow_direction@,
            width as int,
            height as int,
            idx(start_x as int, start_y as int, width as int),
            (width + height) as nat,
        ),
        r <= width + height,
        walk(flow_direction@, width as int, height as int, idx(start_x as int, start_y as int, width as int), r as nat)
            is Some,
        r < width + height ==> walk(
            flow_direction@,
            width as int,
            height as int,
            idx(start_x as int, start_y as int, width as int),
            (r + 1) as nat,
        ) is None,
{
    let ghost fd = flow_direction@;
    let ghost (w, h) = (width as int, height as int);
    let ghost start = idx(start_x as int, start_y as int, w);
    proof {
        lemma_path_length_is_where_flow_stops(fd, w, h, start, (width + height) as nat);
    }
    let mut x = start_x;
    let mut y = start_y;
    let mut steps: usize = 0;
    let max_steps = width + height;
    proof {
        lemma_path_steps_split(fd, w, h, start, 0, max_steps as nat);
    }
    while steps < max_steps
        invariant
            fd == flow_direction@,
            w == width,
            h == height,
            start == idx(start_x as int, start_y as int, w),
            grid_ok(fd, w, h),
            x < width,
            y < height,
            steps <= max_steps,
            max_steps == width + height,
            walk(fd, w, h, start, steps as nat) == Some(idx(x as int, y as int, w)),
            path_steps(fd, w, h, start, max_steps as nat) == steps + path_steps(
                fd,
                w,
                h,
                idx(x as int, y as int, w),
                (max_steps - steps) as nat,
            ),
        decreases max_steps - steps,
    {
        match downstream(flow_direction, x, y, width, height) {
            None => {
                proof {
                    assert(path_steps(fd, w, h, idx(x as int, y as int, w), (max_steps - steps) as nat) == 0);
                    assert(steps == path_steps(fd, w, h, start, max_steps as nat));
                    lemma_path_length_is_where_flow_stops(fd, w, h, start, (width + height) as nat);
                }
                return steps;
            },
            Some((nx, ny)) => {
                proof {
                    lemma_walk_last(fd, w, h, start, steps as nat);
                }
                x = nx;
                y = ny;
                steps = steps + 1;
            },
        }
    }
    steps
}

/// Law relating `flow_path` and `trace_path_length`: the path from a cell
/// lists one cell more than the moves counted along it, unless the limit of
/// `max_steps` cuts it, in which case it lists `max_steps` cells.
pub proof fn lemma_path_cells_are_moves_plus_one(fd: Seq<FlowDirection>, w: int, h: int, i: int, max_steps: nat)
    requires
        max_steps >= 1,
    ensures
        visits(fd, w, h, i, max_steps) == if path_steps(fd, w, h, i, max_steps) < max_steps {
            path_steps(fd, w, h, i, max_steps) + 1
        } else {
            max_steps
        },
    decreases max_steps,
{
    match succ(fd, w, h, i) {
        Some(n) => {
            if max_steps > 1 {
                lemma_path_cells_are_moves_plus_one(fd, w, h, n, (max_steps - 1) as nat);
                assert(visits(fd, w, h, n, (max_steps - 1) as nat) == 1 + path_steps(fd, w, h, n, (max_steps - 2) as nat));
            } else {
                assert(path_steps(fd, w, h, n, 0) == 0);
            }
        },
        None => {
            if max_steps > 1 {
                assert(path_steps(fd, w, h, i, (max_steps - 1) as nat) == 0);
            }
        },
    }
}

/// The cells visited by following the flow from `(start_x, start_y)` for at
/// most `width + height` iterations: the path along which a source's water
/// runs.
pub fn flow_path(
    flow_direction: &Vec<FlowDirection>,
    start_x: usize,
    start_y: usize,
    width: usize,
    height: usize,
) -> (r: Vec<(usize, usize)>)
    requires
        grid_ok(flow_direction@, width as int, height as int),
        start_x < width,
        start_y < height,
        width + height <= usize::MAX,
    ensures
        r.len() == visits(
            flow_direction@,
            width as int,
            height as int,
            idx(start_x as int, start_y as int, width as int),
            (width + height) as nat,
        ),
        forall|t: int|
            0 <= t < r.len() ==> {
                &&& (#[trigger] r[t]).0 < width
                &&& r[t].1 < height
                &&& walk(
                    flow_direction@,
                    width as int,
                    height as int,
                    idx(start_x as int, start_y as int, width as int),
                    t as nat,
                ) == Some(idx(r[t].0 as int, r[t].1 as int, width as int))
            },
{
    let ghost fd = flow_direction@;
    let ghost (w, h) = (width as int, height as int);
    let ghost start = idx(start_x as int, start_y as int, w);
    let mut path: Vec<(usize, usize)> = Vec::new();
    let mut x = start_x;
    let mut y = start_y;
    let mut steps: usize = 0;
    let max_steps = width + height;
    if max_steps == 0 {
        return path;
    }
    proof {
        lemma_path_steps_split(fd, w, h, start, 0, (max_steps - 1) as nat);
    }
    loop
        invariant_except_break
            path.len() == steps,
        invariant
            fd == flow_direction@,
            w == width,
            h == height,
            start == idx(start_x as int, start_y as int, w),
            grid_ok(fd, w, h),
            x < width,
            y < height,
            steps < max_steps,
            max_steps == width + height,
            walk(fd, w, h, start, steps as nat) == Some(idx(x as int, y as int, w)),
            path_steps(fd, w, h, start, (max_steps - 1) as nat) == steps + path_steps(
                fd,
                w,
                h,
                idx(x as int, y as int, w),
                (max_steps - 1 - steps) as nat,
            ),
            forall|t: int|
                0 <= t < path.len() ==> {
                    &&& (#[trigger] path[t]).0 < width
                    &&& path[t].1 < height
                    &&& walk(fd, w, h, start, t as nat) == Some(idx(path[t].0 as int, path[t].1 as int, w))
                },
        ensures
            path.len() == visits(fd, w, h, start, max_steps as nat),
            forall|t: int|
                0 <= t < path.len() ==> {
                    &&& (#[trigger] path[t]).0 < width
                    &&& path[t].1 < height
                    &&& walk(fd, w, h, start, t as nat) == Some(idx(path[t].0 as int, path[t].1 as int, w))
                },
        decreases max_steps - steps,
    {
        path.push((x, y));
        if steps + 1 == max_steps {
            break;
        }
        match downstream(flow_direction, x, y, width, height) {
            None => {
                proof {
                    assert(path_steps(fd, w, h, idx(x as int, y as int, w), (max_steps - 1 - steps) as nat) == 0);
                }
                break;
            },
            Some((nx, ny)) => {
                proof {
                    lemma_walk_last(fd, w, h, start, steps as nat);
                }
                x = nx;
                y = ny;
                steps = steps + 1;
            },
        }
    }
    path
}

/// Create a mask of all cells that drain into the single source's river
/// path: the cells of the path itself and every cell whose flow reaches one
/// of them.
pub fn create_single_river_mask(
    flow_direction: &Vec<FlowDirection>,
    source: (usize, usize),
    width: usize,
    height: usize,
) -> (mask: Vec<bool>)
    requires
        grid_ok(flow_direction@, width as int, height as int),
        source.0 < width,
        source.1 < height,
        width + height <= usize::MAX,
    ensures
        mask.len() == width * height,
        forall|i: int|
            0 <= i < width * height ==> (#[trigger] mask[i] <==> reaches(
                flow_direction@,
                width as int,
                height as int,
                i,
                path_set(
                    flow_direction@,
                    width as int,
                    height as int,
                    idx(source.0 as int, source.1 as int, width as int),
                    visits(
                        flow_direction@,
                        width as int,
                        height as int,
                        idx(source.0 as int, source.1 as int, width as int),
                        (width + height) as nat,
                    ),
                ),
            )),
{
    let ghost fd = flow_direction@;
    let ghost (w, h) = (width as int, height as int);
    let ghost start = idx(source.0 as int, source.1 as int, w);
    let n = flow_direction.len();
    let (sx, sy) = source;
    let path_cells = flow_path(flow_direction, sx, sy, width, height);
    let ghost count = path_cells.len() as nat;
    let ghost targets = path_set(fd, w, h, start, count);
    let mut mask = filled(false, n);

    // First, mark the main river path.
    let mut t: usize = 0;
    while t < path_cells.len()
        invariant
            fd == flow_direction@,
            grid_ok(fd, w, h),
            w == width,
            h == height,
            n == w * h,
            count == path_cells.len(),
            targets == path_set(fd, w, h, start, count),
            t <= path_cells.len(),
            mask.len() == n,
            forall|u: int|
                0 <= u < path_cells.len() ==> {
                    &&& (#[trigger] path_cells[u]).0 < width
                    &&& path_cells[u].1 < height
                    &&& walk(fd, w, h, start, u as nat) == Some(idx(path_cells[u].0 as int, path_cells[u].1 as int, w))
                },
            forall|i: int|
                0 <= i < n ==> (#[trigger] mask[i] <==> exists|u: int|
                    0 <= u < t && idx(path_cells[u].0 as int, path_cells[u].1 as int, w) == i),
        decreases path_cells.len() - t,
    {
        let (px, py) = path_cells[t];
        proof {
            lemma_idx(px as int, py as int, w, h);
        }
        mask.set(py * width + px, true);
        t = t + 1;
        proof {
            assert forall|i: int| 0 <= i < n implies (#[trigger] mask[i] <==> exists|u: int|
                0 <= u < t && idx(path_cells[u].0 as int, path_cells[u].1 as int, w) == i) by {
                if i == idx(px as int, py as int, w) {
                    assert(idx(path_cells[t - 1].0 as int, path_cells[t - 1].1 as int, w) == i);
                }
            }
        }
    }
    proof {
        assert forall|i: int| 0 <= i < n && #[trigger] mask[i] implies reaches(fd, w, h, i, targets) by {
            let u = choose|u: int|
                0 <= u < t && idx(path_cells[u].0 as int, path_cells[u].1 as int, w) == i;
            assert(walk(fd, w, h, i, 0) == Some(i));
            assert(walk(fd, w, h, start, u as nat) == Some(i));
            assert(targets.contains(i));
        }
    }

    // Then, for each cell on the path, trace upstream to find all tributaries.
    proof {
        assert forall|u: int| 0 <= u < path_cells.len() implies mask[idx(
            (#[trigger] path_cells[u]).0 as int,
            path_cells[u].1 as int,
            w,
        )] by {
            lemma_idx(path_cells[u].0 as int, path_cells[u].1 as int, w, h);
        }
    }
    let mut t: usize = 0;
    while t < path_cells.len()
        invariant
            fd == flow_direction@,
            grid_ok(fd, w, h),
            w == width,
            h == height,
            n == w * h,
            count == path_cells.len(),
            targets == path_set(fd, w, h, start, count),
            t <= path_cells.len(),
            mask.len() == n,
            forall|u: int|
                0 <= u < path_cells.len() ==> {
                    &&& (#[trigger] path_cells[u]).0 < width
                    &&& path_cells[u].1 < height
                    &&& walk(fd, w, h, start, u as nat) == Some(idx(path_cells[u].0 as int, path_cells[u].1 as int, w))
                },
            forall|u: int|
                0 <= u < path_cells.len() ==> mask[idx(
                    (#[trigger] path_cells[u]).0 as int,
                    path_cells[u].1 as int,
                    w,
                )],
            forall|i: int| 0 <= i < n && #[trigger] mask[i] ==> reaches(fd, w, h, i, targets),
            forall|i: int|
                0 <= i < n && #[trigger] mask[i] ==> (exists|u: int|
                    t <= u < path_cells.len() && idx(path_cells[u].0 as int, path_cells[u].1 as int, w)
                        == i) || preds_marked(fd, w, h, mask@, i),
        decreases path_cells.len() - t,
    {
        let (px, py) = path_cells[t];
        let ghost p = idx(px as int, py as int, w);
        proof {
            lemma_idx(px as int, py as int, w, h);
        }
        let ghost mask_before = mask@;
        mark_upstream_tributaries(flow_direction, &mut mask, px, py, width, height);
        t = t + 1;
        proof {
            assert forall|i: int| 0 <= i < n && #[trigger] mask_before[i] implies mask[i] by {}
            assert forall|u: int| 0 <= u < path_cells.len() implies mask[idx(
                (#[trigger] path_cells[u]).0 as int,
                path_cells[u].1 as int,
                w,
            )] by {
                lemma_idx(path_cells[u].0 as int, path_cells[u].1 as int, w, h);
                assert(mask_before[idx(path_cells[u].0 as int, path_cells[u].1 as int, w)]);
            }
            assert(targets.contains(p)) by {
                assert(walk(fd, w, h, start, (t - 1) as nat) == Some(p));
            }
            assert forall|i: int| 0 <= i < n && #[trigger] mask[i] implies reaches(fd, w, h, i, targets) by {
                if !mask_before[i] {
                    let k = choose|k: nat|
                        k >= 1 && #[trigger] walk(fd, w, h, i, k) == Some(p) && forall|tt: nat|
                            tt < k ==> !mask_before[#[trigger] walk(fd, w, h, i, tt)->0];
                    assert(walk(fd, w, h, i, k) matches Some(c) && targets.contains(c));
                }
            }
            assert forall|i: int|
                0 <= i < n && #[trigger] mask[i] implies (exists|u: int|
                    t <= u < path_cells.len() && idx(path_cells[u].0 as int, path_cells[u].1 as int, w)
                        == i) || preds_marked(fd, w, h, mask@, i) by {
                if mask_before[i] && i != p {
                    if exists|u: int|
                        t - 1 <= u < path_cells.len() && idx(path_cells[u].0 as int, path_cells[u].1 as int, w) == i {
                        let u = choose|u: int|
                            t - 1 <= u < path_cells.len() && idx(path_cells[u].0 as int, path_cells[u].1 as int, w)
                                == i;
                        assert(u != t - 1);
                    } else {
                        lemma_preds_marked_grow(fd, w, h, mask_before, mask@, i);
                    }
                }
            }
        }
    }

    proof {
        assert forall|i: int| 0 <= i < n implies (#[trigger] mask[i] <==> reaches(fd, w, h, i, targets)) by {
            if reaches(fd, w, h, i, targets) {
                let k = choose|k: nat| #[trigger] walk(fd, w, h, i, k) matches Some(c) && targets.contains(c);
                let c = walk(fd, w, h, i, k)->0;
                let u = choose|u: nat| u < count && #[trigger] walk(fd, w, h, start, u) == Some(c);
                assert(mask[idx(path_cells[u as int].0 as int, path_cells[u as int].1 as int, w)]);
                lemma_closed_marks(fd, w, h, mask@, i, k, c);
            }
        }
    }
    mask
}

/// In a mask closed under "drains into", a cell whose flow reaches a marked
/// cell is marked.
proof fn lemma_closed_marks(fd: Seq<FlowDirection>, w: int, h: int, mask: Seq<bool>, i: int, k: nat, c: int)
    requires
        grid_ok(fd, w, h),
        mask.len() == w * h,
        0 <= i < w * h,
        walk(fd, w, h, i, k) == Some(c),
        mask[c],
        forall|j: int| 0 <= j < w * h && #[trigger] mask[j] ==> preds_marked(fd, w, h, mask, j),
    ensures
        mask[i],
    decreases k,
{
    if k > 0 {
        let n = succ(fd, w, h, i)->0;
        lemma_succ_in_range(fd, w, h, i);
        lemma_closed_marks(fd, w, h, mask, n, (k - 1) as nat, c);
        assert(flows_into(fd, w, h, i, n));
    }
}

/// Whether the flow from `i` reaches `c` in one move or more through cells
/// that `m` leaves unmarked: every cell before `c`, `i` included, is
/// unmarked.
pub open spec fn feeds_unmarked(fd: Seq<FlowDirection>, w: int, h: int, m: Seq<bool>, i: int, c: int) -> bool {
    exists|k: nat|
        k >= 1 && #[trigger] walk(fd, w, h, i, k) == Some(c) && forall|t: nat|
            t < k ==> !m[#[trigger] walk(fd, w, h, i, t)->0]
}

/// Marks only grow: every cell marked in `a` with its feeders marked has
/// them marked in `b` too.
proof fn lemma_preds_marked_grow(fd: Seq<FlowDirection>, w: int, h: int, a: Seq<bool>, b: Seq<bool>, i: int)
    requires
        a.len() == w * h,
        b.len() == w * h,
        forall|j: int| 0 <= j < w * h && #[trigger] a[j] ==> b[j],
        preds_marked(fd, w, h, a, i),
    ensures
        preds_marked(fd, w, h, b, i),
{
    assert forall|j: int| 0 <= j < w * h && #[trigger] flows_into(fd, w, h, j, i) implies b[j] by {
        assert(a[j]);
    }
}

/// In a mask where `start` and every newly marked cell have their feeders
/// marked, a cell whose flow reaches `start` through cells unmarked in
/// `old` is marked.
proof fn lemma_unmarked_feeders_marked(
    fd: Seq<FlowDirection>,
    w: int,
    h: int,
    old: Seq<bool>,
    mask: Seq<bool>,
    i: int,
    start: int,
    k: nat,
)
    requires
        grid_ok(fd, w, h),
        mask.len() == w * h,
        0 <= i < w * h,
        0 <= start < w * h,
        k >= 1,
        walk(fd, w, h, i, k) == Some(start),
        forall|t: nat| t < k ==> !old[#[trigger] walk(fd, w, h, i, t)->0],
        preds_marked(fd, w, h, mask, start),
        forall|j: int| 0 <= j < w * h && #[trigger] mask[j] && !old[j] ==> preds_marked(fd, w, h, mask, j),
    ensures
        mask[i],
    decreases k,
{
    lemma_succ_in_range(fd, w, h, i);
    let m = succ(fd, w, h, i)->0;
    assert(walk(fd, w, h, i, k) == walk(fd, w, h, m, (k - 1) as nat));
    assert(flows_into(fd, w, h, i, m));
    if k == 1 {
        assert(walk(fd, w, h, m, 0) == Some(m));
    } else {
        assert forall|t: nat| t < (k - 1) as nat implies !old[#[trigger] walk(fd, w, h, m, t)->0] by {
            assert(walk(fd, w, h, i, t + 1) == walk(fd, w, h, m, t));
        }
        lemma_unmarked_feeders_marked(fd, w, h, old, mask, m, start, (k - 1) as nat);
        assert(walk(fd, w, h, i, 1) == walk(fd, w, h, m, 0));
        assert(!old[walk(fd, w, h, i, 1)->0]);
    }
}

/// Mark every cell that drains into `(x, y)`, directly or through other
/// newly marked cells, skipping cells that are marked already: the cells
/// whose flow reaches `(x, y)` through cells unmarked before. `(x, y)`
/// itself is left as it is, unless its flow comes back to it that way.
fn mark_upstream_tributaries(
    flow_direction: &Vec<FlowDirection>,
    mask: &mut Vec<bool>,
    x: usize,
    y: usize,
    width: usize,
    height: usize,
)
    requires
        grid_ok(flow_direction@, width as int, height as int),
        x < width,
        y < height,
        old(mask).len() == width * height,
    ensures
        final(mask).len() == width * height,
        forall|i: int|
            0 <= i < width * height ==> (#[trigger] final(mask)[i] == (old(mask)[i] || feeds_unmarked(
                flow_direction@,
                width as int,
                height as int,
                old(mask)@,
                i,
                idx(x as int, y as int, width as int),
            ))),
        preds_marked(flow_direction@, width as int, height as int, final(mask)@, idx(x as int, y as int, width as int)),
        forall|i: int|
            0 <= i < width * height && #[trigger] final(mask)[i] && !old(mask)[i] ==> preds_marked(
                flow_direction@,
                width as int,
                height as int,
                final(mask)@,
                i,
            ),
{
    let ghost fd = flow_direction@;
    let ghost (w, h) = (width as int, height as int);
    let ghost old_mask = mask@;
    let ghost start = idx(x as int, y as int, w);
    let n = mask.len();
    proof {
        lemma_idx(x as int, y as int, w, h);
    }
    let mut stack: Vec<usize> = Vec::new();
    stack.push(y * width + x);
    let dirs = FlowDirection::all();
    proof {
        assert(stack@[0] == idx(x as int, y as int, w));
        assert(stack@.contains(start as usize));
    }

    while stack.len() > 0
        invariant
            fd == flow_direction@,
            grid_ok(fd, w, h),
            w == width,
            h == height,
            n == w * h,
            mask.len() == n,
            old_mask.len() == n,
            start == idx(x as int, y as int, w),
            0 <= start < n,
            dirs@ == FlowDirection::all_spec(),
            forall|i: int| 0 <= i < n && #[trigger] old_mask[i] ==> mask[i],
            forall|s: int|
                0 <= s < stack.len() ==> (#[trigger] stack[s]) < n && (stack[s] == start || (mask[stack[s] as int]
                    && !old_mask[stack[s] as int])),
            forall|i: int| 0 <= i < n && #[trigger] mask[i] && !old_mask[i] ==> feeds_unmarked(fd, w, h, old_mask, i, start),
            preds_marked(fd, w, h, mask@, start) || stack@.contains(start as usize),
            forall|i: int|
                0 <= i < n && #[trigger] mask[i] && !old_mask[i] ==> preds_marked(fd, w, h, mask@, i)
                    || stack@.contains(i as usize),
        decreases 9 * count_false(mask@) + stack.len(),
    {
        let ghost measure0 = 9 * count_false(mask@) + stack.len();
        let ghost old_stack = stack@;
        let c = stack.pop().unwrap();
        let cx = c % width;
        let cy = c / width;
        proof {
            lemma_coords(c as int, w, h);
            assert(old_stack[old_stack.len() - 1] == c);
            assert forall|i: int|
                0 <= i < n && #[trigger] mask[i] && !old_mask[i] && i != c implies preds_marked(fd, w, h, mask@, i)
                    || stack@.contains(i as usize) by {
                if old_stack.contains(i as usize) {
                    let s = choose|s: int| 0 <= s < old_stack.len() && old_stack[s] == i as usize;
                    assert(s != old_stack.len() - 1);
                    assert(stack@[s] == i as usize);
                }
            }
            if start != c && old_stack.contains(start as usize) {
                let s = choose|s: int| 0 <= s < old_stack.len() && old_stack[s] == start as usize;
                assert(s != old_stack.len() - 1);
                assert(stack@[s] == start as usize);
            }
        }
        let mut k: usize = 0;
        while k < 8
            invariant
                fd == flow_direction@,
                grid_ok(fd, w, h),
                w == width,
                h == height,
                n == w * h,
                mask.len() == n,
                old_mask.len() == n,
                start == idx(x as int, y as int, w),
                0 <= start < n,
                dirs@ == FlowDirection::all_spec(),
                0 <= k <= 8,
                c < n,
                cx == c as int % w,
                cy == c as int / w,
                c == idx(cx as int, cy as int, w),
                cx < w,
                cy < h,
                c == start || (mask[c as int] && !old_mask[c as int]),
                forall|i: int| 0 <= i < n && #[trigger] old_mask[i] ==> mask[i],
                forall|s: int|
                    0 <= s < stack.len() ==> (#[trigger] stack[s]) < n && (stack[s] == start || (mask[stack[s] as int]
                        && !old_mask[stack[s] as int])),
                forall|i: int|
                    0 <= i < n && #[trigger] mask[i] && !old_mask[i] ==> feeds_unmarked(fd, w, h, old_mask, i, start),
                c == start || preds_marked(fd, w, h, mask@, start) || stack@.contains(start as usize),
                forall|i: int|
                    0 <= i < n && #[trigger] mask[i] && !old_mask[i] && i != c ==> preds_marked(fd, w, h, mask@, i)
                        || stack@.contains(i as usize),
                forall|kk: int| 0 <= kk < k ==> covered(fd, w, h, mask@, c as int, #[trigger] dirs@[kk]),
                9 * count_false(mask@) + stack.len() < measure0,
            decreases 8 - k,
        {
            let d = dirs[k];
            let (dx, dy) = d.offset();
            let ghost mask0 = mask@;
            proof {
                lemma_all_directions(d);
            }
            match shift(cx, cy, -dx, -dy, width, height) {
                Some((nx, ny)) => {
                    proof {
                        lemma_idx(nx as int, ny as int, w, h);
                    }
                    let nidx = ny * width + nx;
                    if !mask[nidx] {
                        if drains_into(flow_direction, nx, ny, cx, cy, width, height) {
                            let ghost before = mask@;
                            let ghost stack_before = stack@;
                            proof {
                                lemma_count_false_set(mask@, nidx as int);
                                assert(flows_into(fd, w, h, nidx as int, c as int));
                                assert(!old_mask[nidx as int]);
                            }
                            mask.set(nidx, true);
                            stack.push(nidx);
                            proof {
                                assert(stack@[stack.len() - 1] == nidx);
                                assert(stack@.contains(nidx));
                                assert forall|j: int| 0 <= j < n && #[trigger] before[j] implies mask[j] by {}
                                assert forall|s: int| 0 <= s < stack.len() implies (#[trigger] stack[s]) < n && (stack[s]
                                    == start || (mask[stack[s] as int] && !old_mask[stack[s] as int])) by {
                                    if s < stack.len() - 1 {
                                        assert(stack@[s] == stack_before[s]);
                                    }
                                }
                                assert(feeds_unmarked(fd, w, h, old_mask, nidx as int, start)) by {
                                    assert(succ(fd, w, h, nidx as int) == Some(c as int));
                                    if c as int == start {
                                        assert(walk(fd, w, h, c as int, 0) == Some(start));
                                        assert(walk(fd, w, h, nidx as int, 1) == Some(start));
                                        assert forall|t: nat| t < 1 implies !old_mask[#[trigger] walk(
                                            fd,
                                            w,
                                            h,
                                            nidx as int,
                                            t,
                                        )->0] by {
                                            assert(walk(fd, w, h, nidx as int, 0) == Some(nidx as int));
                                        }
                                    } else {
                                        assert(before[c as int] && !old_mask[c as int]);
                                        let kc = choose|kc: nat|
                                            kc >= 1 && #[trigger] walk(fd, w, h, c as int, kc) == Some(start) && forall|t: nat|
                                                t < kc ==> !old_mask[#[trigger] walk(fd, w, h, c as int, t)->0];
                                        assert(walk(fd, w, h, nidx as int, kc + 1) == walk(fd, w, h, c as int, kc));
                                        assert forall|t: nat| t < kc + 1 implies !old_mask[#[trigger] walk(
                                            fd,
                                            w,
                                            h,
                                            nidx as int,
                                            t,
                                        )->0] by {
                                            if t == 0 {
                                                assert(walk(fd, w, h, nidx as int, 0) == Some(nidx as int));
                                            } else {
                                                assert(walk(fd, w, h, nidx as int, t) == walk(
                                                    fd,
                                                    w,
                                                    h,
                                                    c as int,
                                                    (t - 1) as nat,
                                                ));
                                            }
                                        }
                                    }
                                }
                                assert forall|i: int|
                                    0 <= i < n && #[trigger] mask[i] && !old_mask[i] implies feeds_unmarked(
                                    fd,
                                    w,
                                    h,
                                    old_mask,
                                    i,
                                    start,
                                ) by {
                                    if i != nidx {
                                        assert(before[i]);
                                    }
                                }
                                if c != start && !stack_before.contains(start as usize) {
                                    lemma_preds_marked_grow(fd, w, h, before, mask@, start);
                                }
                                if stack_before.contains(start as usize) {
                                    let s = choose|s: int| 0 <= s < stack_before.len() && stack_before[s] == start as usize;
                                    assert(stack@[s] == start as usize);
                                }
                                assert forall|i: int|
                                    0 <= i < n && #[trigger] mask[i] && !old_mask[i] && i != c implies preds_marked(
                                    fd,
                                    w,
                                    h,
                                    mask@,
                                    i,
                                ) || stack@.contains(i as usize) by {
                                    if i != nidx {
                                        assert(before[i]);
                                        if stack_before.contains(i as usize) {
                                            let s = choose|s: int|
                                                0 <= s < stack_before.len() && stack_before[s] == i as usize;
                                            assert(stack@[s] == i as usize);
                                        } else {
                                            lemma_preds_marked_grow(fd, w, h, before, mask@, i);
                                        }
                                    }
                                }
                            }
                        }
                    }
                    proof {
                        assert(back_neighbor(w, h, c as int, d) == Some(nidx as int));
                        assert(flows_into(fd, w, h, nidx as int, c as int) ==> mask[nidx as int]);
                        assert(covered(fd, w, h, mask@, c as int, d));
                    }
                },
                None => {
                    proof {
                        assert(back_neighbor(w, h, c as int, d) is None);
                        assert(covered(fd, w, h, mask@, c as int, d));
                    }
                },
            }
            proof {
                assert(forall|i: int| 0 <= i < n && mask0[i] ==> mask@[i]);
                assert(d == dirs@[k as int]);
                assert forall|kk: int| 0 <= kk < k + 1 implies covered(fd, w, h, mask@, c as int, #[trigger] dirs@[kk]) by {
                    if kk != k {
                        assert(covered(fd, w, h, mask0, c as int, dirs@[kk]));
                        lemma_back_neighbor_in_range(w, h, c as int, dirs@[kk]);
                        if let Some(m) = back_neighbor(w, h, c as int, dirs@[kk]) {
                            if flows_into(fd, w, h, m, c as int) {
                                assert(mask0[m]);
                            }
                        }
                    }
                }
            }
            k = k + 1;
        }
        proof {
            assert forall|j: int| 0 <= j < w * h && #[trigger] flows_into(fd, w, h, j, c as int) implies mask[j] by {
                lemma_pred_is_back_neighbor(fd, w, h, j, c as int);
                lemma_all_directions(fd[j]);
                let kk = choose|kk: int| 0 <= kk < 8 && #[trigger] FlowDirection::all_spec()[kk] == fd[j];
                assert(dirs@[kk] == fd[j]);
                assert(covered(fd, w, h, mask@, c as int, dirs@[kk]));
            }
            assert(preds_marked(fd, w, h, mask@, c as int));
        }
    }
    proof {
        assert forall|i: int| 0 <= i < n implies (#[trigger] mask[i] == (old_mask[i] || feeds_unmarked(
            fd,
            w,
            h,
            old_mask,
            i,
            start,
        ))) by {
            if feeds_unmarked(fd, w, h, old_mask, i, start) {
                let k = choose|k: nat|
                    k >= 1 && #[trigger] walk(fd, w, h, i, k) == Some(start) && forall|t: nat|
                        t < k ==> !old_mask[#[trigger] walk(fd, w, h, i, t)->0];
                lemma_unmarked_feeders_marked(fd, w, h, old_mask, mask@, i, start, k);
            }
        }
    }
}

} // verus!
