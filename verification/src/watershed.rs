//! Watershed delineation: every cell gets the id of the drainage basin it
//! belongs to.

use vstd::prelude::*;
use crate::direction::{FlowDirection, lemma_all_directions};
use crate::paths::filled;
use crate::ranking::{
    insert_position, largest_first, lemma_insert_position_bound, lemma_sort_by_flow, lemma_sort_by_flow_from,
    lemma_sort_by_flow_keeps, sort_by_flow,
    sort_by_flow_desc,
};
use crate::accumulation::drains_to;
use crate::basins::{
    basin_outlet, is_outlet, lemma_drains_refl, lemma_drains_step, lemma_meets_trans, lemma_outlet_collects_basin, meets,
};
use crate::grid::{
    back_neighbor, downstream, drains_into, flows_into, grid_ok, idx, lemma_back_neighbor_in_range, lemma_coords,
    lemma_idx, lemma_pred_is_back_neighbor, lemma_succ_in_range, shift, succ, walk,
};

verus! {

/// Id of the first assigned cell met by following the flow from `i`,
/// looking at no more than `fuel` cells; zero if there is none.
pub open spec fn first_assigned(fd: Seq<FlowDirection>, w: int, h: int, ws: Seq<u32>, i: int, fuel: nat) -> u32
    decreases fuel,
{
    if fuel == 0 {
        0
    } else if ws[i] > 0 {
        ws[i]
    } else {
        match succ(fd, w, h, i) {
            Some(n) => first_assigned(fd, w, h, ws, n, (fuel - 1) as nat),
            None => 0,
        }
    }
}

/// Cell `j` reaches cell `c` in `k` moves, and every cell on the way,
/// both ends included, is unassigned.
pub open spec fn feeds(fd: Seq<FlowDirection>, w: int, h: int, ws: Seq<u32>, j: int, c: int, k: nat) -> bool
    decreases k,
{
    if k == 0 {
        j == c && ws[j] == 0
    } else {
        ws[j] == 0 && match succ(fd, w, h, j) {
            Some(n) => feeds(fd, w, h, ws, n, c, (k - 1) as nat),
            None => false,
        }
    }
}

/// Whether `j` drains into `c` through unassigned cells only.
pub open spec fn feeds_into(fd: Seq<FlowDirection>, w: int, h: int, ws: Seq<u32>, j: int, c: int) -> bool {
    exists|k: nat| #[trigger] feeds(fd, w, h, ws, j, c, k)
}

/// `ws` after giving id `id` to every unassigned cell that drains into `c`
/// through unassigned cells (`c` itself included when unassigned).
pub open spec fn assign_upstream(fd: Seq<FlowDirection>, w: int, h: int, ws: Seq<u32>, c: int, id: u32) -> Seq<u32> {
    Seq::new(ws.len(), |j: int| if feeds_into(fd, w, h, ws, j, c) { id } else { ws[j] })
}

/// Number of unassigned (zero) entries.
pub open spec fn count_zero(s: Seq<u32>) -> nat
    decreases s.len(),
{
    if s.len() == 0 {
        0
    } else {
        count_zero(s.drop_last()) + if s.last() == 0 { 1nat } else { 0nat }
    }
}

proof fn lemma_count_zero_set(s: Seq<u32>, i: int, v: u32)
    requires
        0 <= i < s.len(),
        s[i] == 0,
        v != 0,
    ensures
        count_zero(s.update(i, v)) + 1 == count_zero(s),
    decreases s.len(),
{
    let t = s.update(i, v);
    if i < s.len() - 1 {
        assert(t.drop_last() =~= s.drop_last().update(i, v));
        lemma_count_zero_set(s.drop_last(), i, v);
    } else {
        assert(t.drop_last() =~= s.drop_last());
    }
}

proof fn lemma_feeds_zero(fd: Seq<FlowDirection>, w: int, h: int, ws: Seq<u32>, j: int, c: int, k: nat)
    requires
        feeds(fd, w, h, ws, j, c, k),
    ensures
        ws[j] == 0,
        ws[c] == 0,
        walk(fd, w, h, j, k) == Some(c),
    decreases k,
{
    if k > 0 {
        lemma_feeds_zero(fd, w, h, ws, succ(fd, w, h, j)->0, c, (k - 1) as nat);
    }
}

/// Trace downstream from a cell to find which watershed it drains to: the
/// id of the first assigned cell on its path, looking at no more than
/// `width * height` cells.
pub fn trace_downstream_to_watershed(
    flow_direction: &Vec<FlowDirection>,
    watershed_id: &Vec<u32>,
    width: usize,
    height: usize,
    start_x: usize,
    start_y: usize,
) -> (r: u32)
    requires
        grid_ok(flow_direction@, width as int, height as int),
        watershed_id.len() == width * height,
        start_x < width,
        start_y < height,
    ensures
        r == first_assigned(
            flow_direction@,
            width as int,
            height as int,
            watershed_id@,
            idx(start_x as int, start_y as int, width as int),
            (width * height) as nat,
        ),
{
    let ghost fd = flow_direction@;
    let ghost ws = watershed_id@;
    let ghost (w, h) = (width as int, height as int);
    let ghost start = idx(start_x as int, start_y as int, w);
    let mut x = start_x;
    let mut y = start_y;
    let mut steps: usize = 0;
    let max_steps = watershed_id.len();
    while steps < max_steps
        invariant
            fd == flow_direction@,
            ws == watershed_id@,
            w == width,
            h == height,
            grid_ok(fd, w, h),
            max_steps == w * h,
            ws.len() == max_steps,
            start == idx(start_x as int, start_y as int, w),
            x < width,
            y < height,
            steps <= max_steps,
            first_assigned(fd, w, h, ws, start, max_steps as nat) == first_assigned(
                fd,
                w,
                h,
                ws,
                idx(x as int, y as int, w),
                (max_steps - steps) as nat,
            ),
        decreases max_steps - steps,
    {
        proof {
            lemma_idx(x as int, y as int, w, h);
        }
        let i = y * width + x;

        // If we hit an assigned cell, return its watershed.
        if watershed_id[i] > 0 {
            return watershed_id[i];
        }
        match downstream(flow_direction, x, y, width, height) {
            // Reached edge or pit.
            None => {
                return 0;
            },
            Some((nx, ny)) => {
                x = nx;
                y = ny;
                steps = steps + 1;
            },
        }
    }
    0
}

/// Trace upstream to assign watershed ID: every unassigned cell that drains
/// into `(start_x, start_y)` through unassigned cells, the start included,
/// gets `id`.
pub fn trace_watershed_upstream(
    flow_direction: &Vec<FlowDirection>,
    watershed_id: &mut Vec<u32>,
    width: usize,
    height: usize,
    start_x: usize,
    start_y: usize,
    id: u32,
)
    requires
        grid_ok(flow_direction@, width as int, height as int),
        old(watershed_id).len() == width * height,
        start_x < width,
        start_y < height,
        id > 0,
    ensures
        final(watershed_id)@ == assign_upstream(
            flow_direction@,
            width as int,
            height as int,
            old(watershed_id)@,
            idx(start_x as int, start_y as int, width as int),
            id,
        ),
{
    let ghost fd = flow_direction@;
    let ghost (w, h) = (width as int, height as int);
    let ghost old_ws = watershed_id@;
    let ghost start = idx(start_x as int, start_y as int, w);
    let n = watershed_id.len();
    proof {
        lemma_idx(start_x as int, start_y as int, w, h);
    }
    let mut stack: Vec<usize> = Vec::new();
    stack.push(start_y * width + start_x);
    let dirs = FlowDirection::all();
    proof {
        assert(stack@[0] == start);
        if old_ws[start] == 0 {
            assert(feeds(fd, w, h, old_ws, start, start, 0));
        }
    }

    while stack.len() > 0
        invariant
            fd == flow_direction@,
            grid_ok(fd, w, h),
            w == width,
            h == height,
            n == w * h,
            old_ws.len() == n,
            watershed_id.len() == n,
            dirs@ == FlowDirection::all_spec(),
            id > 0,
            0 <= start < n,
            forall|j: int|
                0 <= j < n ==> #[trigger] watershed_id[j] == old_ws[j] || (old_ws[j] == 0 && watershed_id[j] == id
                    && feeds_into(fd, w, h, old_ws, j, start)),
            forall|s: int|
                0 <= s < stack.len() ==> (#[trigger] stack[s]) < n && (watershed_id[stack[s] as int] != 0 || feeds_into(
                    fd,
                    w,
                    h,
                    old_ws,
                    stack[s] as int,
                    start,
                )),
            forall|j: int, p: int|
                0 <= j < n && 0 <= p < n && old_ws[j] == 0 && watershed_id[j] != 0 && #[trigger] flows_into(fd, w, h, p, j)
                    ==> watershed_id[p] != 0 || stack@.contains(p as usize),
            watershed_id[start] != 0 || stack@.contains(start as usize),
        decreases 9 * count_zero(watershed_id@) + stack.len(),
    {
        let ghost measure0 = 9 * count_zero(watershed_id@) + stack.len();
        let ghost stack0 = stack@;
        let c = stack.pop().unwrap();
        proof {
            assert(stack0[stack0.len() - 1] == c);
            assert forall|p: usize| #[trigger] stack0.contains(p) && p != c implies stack@.contains(p) by {
                let s = choose|s: int| 0 <= s < stack0.len() && stack0[s] == p;
                assert(s != stack0.len() - 1);
                assert(stack@[s] == p);
            }
        }
        if watershed_id[c] != 0 {
            continue;
        }
        let x = c % width;
        let y = c / width;
        proof {
            lemma_coords(c as int, w, h);
            lemma_count_zero_set(watershed_id@, c as int, id);
        }
        let ghost kc = choose|k: nat| #[trigger] feeds(fd, w, h, old_ws, c as int, start, k);
        proof {
            lemma_feeds_zero(fd, w, h, old_ws, c as int, start, kc);
        }
        watershed_id.set(c, id);

        // Find all cells that flow into this cell.
        let mut k: usize = 0;
        while k < 8
            invariant
                fd == flow_direction@,
                grid_ok(fd, w, h),
                w == width,
                h == height,
                n == w * h,
                old_ws.len() == n,
                watershed_id.len() == n,
                dirs@ == FlowDirection::all_spec(),
                id > 0,
                0 <= start < n,
                c < n,
                x == c as int % w,
                y == c as int / w,
                x < w,
                y < h,
                c == idx(x as int, y as int, w),
                watershed_id[c as int] == id,
                old_ws[c as int] == 0,
                feeds(fd, w, h, old_ws, c as int, start, kc),
                0 <= k <= 8,
                forall|j: int|
                    0 <= j < n ==> #[trigger] watershed_id[j] == old_ws[j] || (old_ws[j] == 0 && watershed_id[j]
                        == id && feeds_into(fd, w, h, old_ws, j, start)),
                forall|s: int|
                    0 <= s < stack.len() ==> (#[trigger] stack[s]) < n && (watershed_id[stack[s] as int] != 0
                        || feeds_into(fd, w, h, old_ws, stack[s] as int, start)),
                forall|j: int, p: int|
                    0 <= j < n && 0 <= p < n && old_ws[j] == 0 && watershed_id[j] != 0 && j != c
                        && #[trigger] flows_into(fd, w, h, p, j) ==> watershed_id[p] != 0 || stack@.contains(p as usize),
                forall|kk: int|
                    0 <= kk < k ==> (back_neighbor(w, h, c as int, #[trigger] dirs@[kk]) matches Some(m) ==> (
                    flows_into(fd, w, h, m, c as int) ==> watershed_id[m] != 0 || stack@.contains(m as usize))),
                9 * count_zero(watershed_id@) + stack.len() + (8 - k) <= measure0 - 2,
                watershed_id[start] != 0 || stack@.contains(start as usize),
            decreases 8 - k,
        {
            let d = dirs[k];
            let (dx, dy) = d.offset();
            let ghost stack_k = stack@;
            proof {
                lemma_back_neighbor_in_range(w, h, c as int, d);
            }
            match shift(x, y, -dx, -dy, width, height) {
                Some((nx, ny)) => {
                    proof {
                        lemma_idx(nx as int, ny as int, w, h);
                    }
                    let nidx = ny * width + nx;
                    if drains_into(flow_direction, nx, ny, x, y, width, height) {
                        if watershed_id[nidx] == 0 {
                            proof {
                                assert(old_ws[nidx as int] == 0);
                                assert(feeds(fd, w, h, old_ws, nidx as int, start, kc + 1));
                            }
                            stack.push(nidx);
                            proof {
                                assert(stack@[stack.len() - 1] == nidx);
                            }
                        }
                    }
                },
                None => {},
            }
            proof {
                assert forall|p: usize| stack_k.contains(p) implies stack@.contains(p) by {
                    let s = choose|s: int| 0 <= s < stack_k.len() && stack_k[s] == p;
                    assert(stack@[s] == p);
                }
                assert forall|kk: int| 0 <= kk < k + 1 implies (back_neighbor(w, h, c as int, #[trigger] dirs@[kk]) matches Some(m) ==> (
                    flows_into(fd, w, h, m, c as int) ==> watershed_id[m] != 0 || stack@.contains(m as usize))) by {
                    if kk == k {
                        assert(dirs@[kk] == d);
                    }
                }
            }
            k = k + 1;
        }
        proof {
            assert forall|p: int| 0 <= p < n && #[trigger] flows_into(fd, w, h, p, c as int) implies watershed_id[p] != 0
                || stack@.contains(p as usize) by {
                lemma_pred_is_back_neighbor(fd, w, h, p, c as int);
                lemma_all_directions(fd[p]);
                let kk = choose|kk: int| 0 <= kk < 8 && #[trigger] FlowDirection::all_spec()[kk] == fd[p];
                assert(dirs@[kk] == fd[p]);
            }
        }
    }

    proof {
        assert forall|j: int| 0 <= j < n implies #[trigger] watershed_id@[j] == assign_upstream(fd, w, h, old_ws, start, id)[j] by {
            if feeds_into(fd, w, h, old_ws, j, start) {
                let k = choose|k: nat| #[trigger] feeds(fd, w, h, old_ws, j, start, k);
                lemma_upstream_assigned(fd, w, h, old_ws, watershed_id@, j, start, k, id);
            }
        }
        assert(watershed_id@ =~= assign_upstream(fd, w, h, old_ws, start, id));
    }
}

/// Once the upstream search is over, every cell feeding the start has been
/// assigned.
proof fn lemma_upstream_assigned(
    fd: Seq<FlowDirection>,
    w: int,
    h: int,
    old_ws: Seq<u32>,
    ws: Seq<u32>,
    j: int,
    c: int,
    k: nat,
    id: u32,
)
    requires
        grid_ok(fd, w, h),
        old_ws.len() == w * h,
        ws.len() == w * h,
        0 <= j < w * h,
        0 <= c < w * h,
        id > 0,
        feeds(fd, w, h, old_ws, j, c, k),
        ws[c] != 0,
        forall|i: int|
            0 <= i < w * h ==> #[trigger] ws[i] == old_ws[i] || (old_ws[i] == 0 && ws[i] == id),
        forall|i: int, p: int|
            0 <= i < w * h && 0 <= p < w * h && old_ws[i] == 0 && ws[i] != 0 && #[trigger] flows_into(fd, w, h, p, i)
                ==> ws[p] != 0,
    ensures
        ws[j] == id,
    decreases k,
{
    lemma_feeds_zero(fd, w, h, old_ws, j, c, k);
    if k > 0 {
        let m = succ(fd, w, h, j)->0;
        lemma_succ_in_range(fd, w, h, j);
        lemma_upstream_assigned(fd, w, h, old_ws, ws, m, c, (k - 1) as nat, id);
        lemma_feeds_zero(fd, w, h, old_ws, m, c, (k - 1) as nat);
        assert(flows_into(fd, w, h, j, m));
        assert(ws[j] != 0);
    }
    assert(ws[j] == old_ws[j] || (old_ws[j] == 0 && ws[j] == id));
}

/// Maximum number of major drainage basins taken from the pour points.
pub const MAX_WATERSHEDS: usize = 30;

/// Edge cell number `t` in the order the pour-point search visits the
/// edges: the top and bottom cell of each column, then the left and right
/// cell of each inner row.
pub open spec fn edge_cell(w: int, h: int, t: int) -> (usize, usize) {
    if t < 2 * w {
        ((t / 2) as usize, if t % 2 == 0 { 0usize } else { (h - 1) as usize })
    } else {
        let u = t - 2 * w;
        (if u % 2 == 0 { 0usize } else { (w - 1) as usize }, (u / 2 + 1) as usize)
    }
}

/// Number of edge cells visited by the pour-point search.
pub open spec fn edge_count(w: int, h: int) -> int {
    2 * w + if h >= 2 { 2 * (h - 2) } else { 0 }
}

/// The first `k` visited edge cells whose flow is above `threshold`, with
/// their flow.
pub open spec fn pour_candidates(flow: Seq<u32>, w: int, h: int, threshold: u32, k: int) -> Seq<(usize, usize, u32)>
    decreases k,
{
    if k <= 0 {
        Seq::empty()
    } else {
        let c = pour_candidates(flow, w, h, threshold, k - 1);
        let (x, y) = edge_cell(w, h, k - 1);
        let f = flow[idx(x as int, y as int, w)];
        if f > threshold {
            c.push((x, y, f))
        } else {
            c
        }
    }
}

/// The pour points: edge cells with flow above `threshold`, largest flow
/// first (ties in search order), at most `MAX_WATERSHEDS` of them.
pub open spec fn pour_points(flow: Seq<u32>, w: int, h: int, threshold: u32) -> Seq<(usize, usize, u32)> {
    let s = sort_by_flow(pour_candidates(flow, w, h, threshold, edge_count(w, h)));
    if s.len() <= MAX_WATERSHEDS {
        s
    } else {
        s.take(MAX_WATERSHEDS as int)
    }
}

proof fn lemma_count_zero_le(a: Seq<u32>, b: Seq<u32>, c: int)
    requires
        a.len() == b.len(),
        forall|j: int| 0 <= j < a.len() && b[j] == 0 ==> a[j] == 0,
        0 <= c < a.len() ==> a[c] == 0 && b[c] != 0,
    ensures
        count_zero(b) <= count_zero(a),
        0 <= c < a.len() ==> count_zero(b) < count_zero(a),
    decreases a.len(),
{
    if a.len() > 0 {
        lemma_count_zero_le(a.drop_last(), b.drop_last(), if c < a.len() - 1 { c } else { -1 });
    }
}

proof fn lemma_count_zero_bound(s: Seq<u32>)
    ensures
        count_zero(s) <= s.len(),
    decreases s.len(),
{
    if s.len() > 0 {
        lemma_count_zero_bound(s.drop_last());
    }
}

/// Pour points for watershed delineation: the edge cells whose flow is
/// above `major_threshold`, largest flow first (ties in search order), at
/// most `MAX_WATERSHEDS` of them. Flows are compared by their order keys.
pub fn find_pour_points(flow_accumulation: &Vec<u32>, width: usize, height: usize, major_threshold: u32) -> (pour_points_found:
    Vec<(usize, usize, u32)>)
    requires
        flow_accumulation.len() == width * height,
        height >= 1,
        height >= 3 ==> width >= 1,
    ensures
        pour_points_found@ == pour_points(flow_accumulation@, width as int, height as int, major_threshold),
{
    let ghost flow = flow_accumulation@;
    let ghost (w, h) = (width as int, height as int);
    let n = flow_accumulation.len();
    let mut pour_points_found: Vec<(usize, usize, u32)> = Vec::new();

    // Top and bottom edges.
    let mut x: usize = 0;
    while x < width
        invariant
            flow == flow_accumulation@,
            w == width,
            h == height,
            flow.len() == w * h,
            n == w * h,
            height >= 1,
            x <= width,
            pour_points_found@ == pour_candidates(flow, w, h, major_threshold, 2 * x),
        decreases width - x,
    {
        proof {
            lemma_idx(x as int, 0, w, h);
            lemma_idx(x as int, h - 1, w, h);
            assert(edge_cell(w, h, 2 * x) == (x, 0usize));
            assert(edge_cell(w, h, 2 * x + 1) == (x, (height - 1) as usize));
        }
        let f = flow_accumulation[x];
        if f > major_threshold {
            pour_points_found.push((x, 0, f));
        }
        assert(pour_points_found@ == pour_candidates(flow, w, h, major_threshold, 2 * x + 1));
        let f = flow_accumulation[(height - 1) * width + x];
        if f > major_threshold {
            pour_points_found.push((x, height - 1, f));
        }
        assert(pour_points_found@ == pour_candidates(flow, w, h, major_threshold, 2 * x + 2));
        x = x + 1;
    }

    // Left and right edges.
    let mut y: usize = 1;
    while y < height - 1
        invariant
            flow == flow_accumulation@,
            w == width,
            h == height,
            flow.len() == w * h,
            n == w * h,
            height >= 1,
            height >= 3 ==> width >= 1,
            1 <= y,
            y <= (if height >= 2 { height - 1 } else { 1 }),
            pour_points_found@ == pour_candidates(flow, w, h, major_threshold, 2 * w + 2 * (y - 1)),
        decreases height - y,
    {
        proof {
            lemma_idx(0, y as int, w, h);
            lemma_idx(w - 1, y as int, w, h);
            assert(edge_cell(w, h, 2 * w + 2 * (y - 1)) == (0usize, y));
            assert(edge_cell(w, h, 2 * w + 2 * (y - 1) + 1) == ((width - 1) as usize, y));
        }
        let f = flow_accumulation[y * width];
        if f > major_threshold {
            pour_points_found.push((0, y, f));
        }
        assert(pour_points_found@ == pour_candidates(flow, w, h, major_threshold, 2 * w + 2 * (y - 1) + 1));
        let f = flow_accumulation[y * width + width - 1];
        if f > major_threshold {
            pour_points_found.push((width - 1, y, f));
        }
        assert(pour_points_found@ == pour_candidates(flow, w, h, major_threshold, 2 * w + 2 * (y - 1) + 2));
        y = y + 1;
    }
    assert(2 * w + 2 * (y - 1) == edge_count(w, h));

    // Sort pour points by flow (largest first), keeping ties in order.
    let cands = pour_points_found;
    let mut sorted = sort_by_flow_desc(&cands);

    // Limit to top N watersheds for cleaner visualization.
    sorted.truncate(MAX_WATERSHEDS);
    proof {
        if cands.len() > MAX_WATERSHEDS {
            assert(sorted@ =~= sort_by_flow(cands@).take(MAX_WATERSHEDS as int));
        }
    }
    sorted
}

/// Whether every entry names a cell of the grid.
pub open spec fn in_grid(s: Seq<(usize, usize, u32)>, w: int, h: int) -> bool {
    forall|i: int| 0 <= i < s.len() ==> (#[trigger] s[i]).0 < w && s[i].1 < h
}

proof fn lemma_candidates_in_grid(flow: Seq<u32>, w: int, h: int, threshold: u32, k: int)
    requires
        h >= 1,
        h >= 3 ==> w >= 1,
        k <= edge_count(w, h),
    ensures
        in_grid(pour_candidates(flow, w, h, threshold, k), w, h),
    decreases k,
{
    if k > 0 {
        lemma_candidates_in_grid(flow, w, h, threshold, k - 1);
        let t = k - 1;
        if t >= 2 * w {
            assert(h >= 3);
        }
    }
}

proof fn lemma_sort_in_grid(s: Seq<(usize, usize, u32)>, w: int, h: int)
    requires
        in_grid(s, w, h),
    ensures
        in_grid(sort_by_flow(s), w, h),
        sort_by_flow(s).len() == s.len(),
    decreases s.len(),
{
    if s.len() > 0 {
        assert(in_grid(s.drop_last(), w, h));
        lemma_sort_in_grid(s.drop_last(), w, h);
        let r = sort_by_flow(s.drop_last());
        let p = insert_position(r, s.last().2);
        lemma_insert_position_bound(r, s.last().2);
        let q = r.insert(p, s.last());
        assert forall|i: int| 0 <= i < q.len() implies (#[trigger] q[i]).0 < w && q[i].1 < h by {
            if i < p {
                assert(q[i] == r[i]);
            } else if i > p {
                assert(q[i] == r[i - 1]);
            }
        }
    }
}

/// Whether `e` is an edge cell of the grid whose flow is above `threshold`,
/// given with that flow.
pub open spec fn is_pour_point(flow: Seq<u32>, w: int, h: int, threshold: u32, e: (usize, usize, u32)) -> bool {
    &&& e.0 < w && e.1 < h
    &&& (e.0 == 0 || e.0 == w - 1 || e.1 == 0 || e.1 == h - 1)
    &&& e.2 == flow[idx(e.0 as int, e.1 as int, w)]
    &&& e.2 > threshold
}

proof fn lemma_candidates_are_pour_points(flow: Seq<u32>, w: int, h: int, threshold: u32, k: int)
    requires
        w <= usize::MAX,
        h <= usize::MAX,
        h >= 1,
        h >= 3 ==> w >= 1,
        k <= edge_count(w, h),
    ensures
        forall|j: int|
            0 <= j < pour_candidates(flow, w, h, threshold, k).len() ==> is_pour_point(
                flow,
                w,
                h,
                threshold,
                #[trigger] pour_candidates(flow, w, h, threshold, k)[j],
            ),
    decreases k,
{
    if k > 0 {
        lemma_candidates_are_pour_points(flow, w, h, threshold, k - 1);
        let t = k - 1;
        let (x, y) = edge_cell(w, h, t);
        if t >= 2 * w {
            assert(h >= 3);
            let u = t - 2 * w;
            assert(u / 2 + 1 < h - 1);
            if u % 2 == 0 {
                assert(x == 0);
            } else {
                assert(x == w - 1);
            }
        } else {
            assert(t / 2 < w);
            if t % 2 == 0 {
                assert(y == 0);
            } else {
                assert(y == h - 1);
            }
        }
        assert(x < w && y < h);
        assert(x == 0 || x == w - 1 || y == 0 || y == h - 1);
        let c = pour_candidates(flow, w, h, threshold, k);
        let o = pour_candidates(flow, w, h, threshold, k - 1);
        assert forall|j: int| 0 <= j < c.len() implies is_pour_point(flow, w, h, threshold, #[trigger] c[j]) by {
            if j < o.len() {
                assert(c[j] == o[j]);
            }
        }
    }
}

/// Law of the pour-point search: at most `MAX_WATERSHEDS` pour points,
/// largest flow first, each an edge cell whose flow is above the threshold.
pub proof fn lemma_pour_points_ranked(flow: Seq<u32>, w: int, h: int, threshold: u32)
    requires
        w <= usize::MAX,
        h <= usize::MAX,
        h >= 1,
        h >= 3 ==> w >= 1,
    ensures
        pour_points(flow, w, h, threshold).len() <= MAX_WATERSHEDS,
        largest_first(pour_points(flow, w, h, threshold)),
        forall|j: int|
            0 <= j < pour_points(flow, w, h, threshold).len() ==> is_pour_point(
                flow,
                w,
                h,
                threshold,
                #[trigger] pour_points(flow, w, h, threshold)[j],
            ),
{
    let c = pour_candidates(flow, w, h, threshold, edge_count(w, h));
    let s = sort_by_flow(c);
    let m = pour_points(flow, w, h, threshold);
    lemma_sort_by_flow(c);
    lemma_candidates_are_pour_points(flow, w, h, threshold, edge_count(w, h));
    assert forall|i: int, j: int| 0 <= i < j < m.len() implies #[trigger] m[i].2 >= #[trigger] m[j].2 by {
        assert(m[i] == s[i] && m[j] == s[j]);
    }
    assert forall|j: int| 0 <= j < m.len() implies is_pour_point(flow, w, h, threshold, #[trigger] m[j]) by {
        assert(m[j] == s[j]);
        lemma_sort_by_flow_from(c, j);
        let i0 = choose|i: int| 0 <= i < c.len() && s[j] == #[trigger] c[i];
        assert(is_pour_point(flow, w, h, threshold, c[i0]));
    }
}

/// Cell of pour point `k`.
pub open spec fn pour_cell(pours: Seq<(usize, usize, u32)>, k: int, w: int) -> int {
    idx(pours[k].0 as int, pours[k].1 as int, w)
}

/// Seed `k` of the delineation: the cells of the pour points in rank order,
/// then every cell of the grid in index order.
pub open spec fn seed(pours: Seq<(usize, usize, u32)>, w: int, k: int) -> int {
    if k < pours.len() {
        pour_cell(pours, k, w)
    } else {
        k - pours.len()
    }
}

/// Number of seeds.
pub open spec fn seed_count(pours: Seq<(usize, usize, u32)>, w: int, h: int) -> int {
    pours.len() + w * h
}

/// The first seed from `k` on, below `m`, whose basin holds cell `j`; `m`
/// when there is none.
pub open spec fn first_seed_from(
    fd: Seq<FlowDirection>,
    w: int,
    h: int,
    pours: Seq<(usize, usize, u32)>,
    j: int,
    k: int,
    m: int,
) -> int
    decreases m - k,
{
    if k >= m {
        m
    } else if meets(fd, w, h, seed(pours, w, k), j) {
        k
    } else {
        first_seed_from(fd, w, h, pours, j, k + 1, m)
    }
}

/// The first seed whose basin holds cell `j`.
pub open spec fn first_seed(fd: Seq<FlowDirection>, w: int, h: int, pours: Seq<(usize, usize, u32)>, j: int) -> int {
    first_seed_from(fd, w, h, pours, j, 0, seed_count(pours, w, h))
}

/// Whether seed `k` opens a watershed: no earlier seed lies in its basin.
pub open spec fn opens_basin(fd: Seq<FlowDirection>, w: int, h: int, pours: Seq<(usize, usize, u32)>, k: int) -> bool {
    forall|i: int| 0 <= i < k ==> !#[trigger] meets(fd, w, h, seed(pours, w, i), seed(pours, w, k))
}

/// Number of watersheds opened by the seeds below `m`.
pub open spec fn opened_before(fd: Seq<FlowDirection>, w: int, h: int, pours: Seq<(usize, usize, u32)>, m: int) -> nat
    decreases m,
{
    if m <= 0 {
        0
    } else {
        opened_before(fd, w, h, pours, m - 1) + if opens_basin(fd, w, h, pours, m - 1) {
            1nat
        } else {
            0nat
        }
    }
}

/// Watershed id of cell `j`: the rank, among the seeds that open a
/// watershed, of the first seed in its basin.
pub open spec fn basin_id(fd: Seq<FlowDirection>, w: int, h: int, pours: Seq<(usize, usize, u32)>, j: int) -> nat {
    opened_before(fd, w, h, pours, first_seed(fd, w, h, pours, j) + 1)
}

/// Number of watersheds.
pub open spec fn basin_count(fd: Seq<FlowDirection>, w: int, h: int, pours: Seq<(usize, usize, u32)>) -> nat {
    opened_before(fd, w, h, pours, seed_count(pours, w, h))
}

proof fn lemma_first_seed_from(
    fd: Seq<FlowDirection>,
    w: int,
    h: int,
    pours: Seq<(usize, usize, u32)>,
    j: int,
    k: int,
    m: int,
)
    requires
        k <= m,
    ensures
        k <= first_seed_from(fd, w, h, pours, j, k, m) <= m,
        first_seed_from(fd, w, h, pours, j, k, m) < m ==> meets(
            fd,
            w,
            h,
            seed(pours, w, first_seed_from(fd, w, h, pours, j, k, m)),
            j,
        ),
        forall|i: int|
            k <= i < first_seed_from(fd, w, h, pours, j, k, m) ==> !#[trigger] meets(fd, w, h, seed(pours, w, i), j),
    decreases m - k,
{
    if k < m && !meets(fd, w, h, seed(pours, w, k), j) {
        lemma_first_seed_from(fd, w, h, pours, j, k + 1, m);
    }
}

/// The first seed of a cell is the one seed of its basin with no earlier
/// one.
proof fn lemma_first_seed_is(fd: Seq<FlowDirection>, w: int, h: int, pours: Seq<(usize, usize, u32)>, j: int, k: int)
    requires
        0 <= k < seed_count(pours, w, h),
        meets(fd, w, h, seed(pours, w, k), j),
        forall|i: int| 0 <= i < k ==> !#[trigger] meets(fd, w, h, seed(pours, w, i), j),
    ensures
        first_seed(fd, w, h, pours, j) == k,
{
    lemma_first_seed_from(fd, w, h, pours, j, 0, seed_count(pours, w, h));
    let f = first_seed(fd, w, h, pours, j);
    if f < k {
        assert(meets(fd, w, h, seed(pours, w, f), j));
    }
}

/// A cell of the grid has a first seed: at the latest the cell itself.
proof fn lemma_first_seed_bound(fd: Seq<FlowDirection>, w: int, h: int, pours: Seq<(usize, usize, u32)>, j: int)
    requires
        0 <= j < w * h,
    ensures
        0 <= first_seed(fd, w, h, pours, j) <= pours.len() + j,
        meets(fd, w, h, seed(pours, w, first_seed(fd, w, h, pours, j)), j),
        forall|i: int| 0 <= i < first_seed(fd, w, h, pours, j) ==> !#[trigger] meets(fd, w, h, seed(pours, w, i), j),
{
    lemma_first_seed_from(fd, w, h, pours, j, 0, seed_count(pours, w, h));
    let f = first_seed(fd, w, h, pours, j);
    lemma_drains_refl(fd, w, h, j);
    assert(seed(pours, w, pours.len() + j) == j);
    if f > pours.len() + j {
        assert(!meets(fd, w, h, seed(pours, w, pours.len() + j), j));
    }
}

proof fn lemma_meets_symm(fd: Seq<FlowDirection>, w: int, h: int, a: int, b: int)
    requires
        meets(fd, w, h, a, b),
    ensures
        meets(fd, w, h, b, a),
{
    let c = choose|c: int| #[trigger] drains_to(fd, w, h, a, c) && drains_to(fd, w, h, b, c);
    assert(drains_to(fd, w, h, b, c) && drains_to(fd, w, h, a, c));
}

/// Cells that drain to `r` through any cells drain to it through
/// unassigned ones when every cell draining to `r` is unassigned.
proof fn lemma_feeds_of_walk(fd: Seq<FlowDirection>, w: int, h: int, ws: Seq<u32>, c: int, r: int, k: nat)
    requires
        grid_ok(fd, w, h),
        ws.len() == w * h,
        0 <= c < w * h,
        walk(fd, w, h, c, k) == Some(r),
        forall|x: int| 0 <= x < w * h && #[trigger] drains_to(fd, w, h, x, r) ==> ws[x] == 0,
    ensures
        feeds(fd, w, h, ws, c, r, k),
    decreases k,
{
    assert(drains_to(fd, w, h, c, r));
    if k > 0 {
        lemma_succ_in_range(fd, w, h, c);
        let n = succ(fd, w, h, c)->0;
        lemma_feeds_of_walk(fd, w, h, ws, n, r, (k - 1) as nat);
    }
}

/// Whether the assigned cells are those of the basins of the seeds below
/// `k`, each with its id.
pub open spec fn delineated(
    fd: Seq<FlowDirection>,
    w: int,
    h: int,
    pours: Seq<(usize, usize, u32)>,
    ws: Seq<u32>,
    k: int,
) -> bool {
    &&& ws.len() == w * h
    &&& forall|c: int|
        0 <= c < w * h ==> ((#[trigger] ws[c] != 0) <==> exists|i: int|
            0 <= i < k && #[trigger] meets(fd, w, h, seed(pours, w, i), c))
    &&& forall|c: int| 0 <= c < w * h && #[trigger] ws[c] != 0 ==> ws[c] == basin_id(fd, w, h, pours, c)
}

/// Delineation step for seed `k` of cell `s`: an assigned seed changes
/// nothing; an unassigned one gives its whole basin, found upstream of an
/// outlet `r` of the basin, the next id.
proof fn lemma_delineate_step(
    fd: Seq<FlowDirection>,
    w: int,
    h: int,
    pours: Seq<(usize, usize, u32)>,
    ws: Seq<u32>,
    k: int,
    r: int,
    id: u32,
)
    requires
        grid_ok(fd, w, h),
        0 <= k < seed_count(pours, w, h),
        0 <= seed(pours, w, k) < w * h,
        0 <= r < w * h,
        delineated(fd, w, h, pours, ws, k),
        ws[seed(pours, w, k)] == 0 ==> drains_to(fd, w, h, seed(pours, w, k), r) && is_outlet(fd, w, h, r)
            && id == opened_before(fd, w, h, pours, k) + 1,
    ensures
        ws[seed(pours, w, k)] != 0 ==> !opens_basin(fd, w, h, pours, k) && delineated(fd, w, h, pours, ws, k + 1),
        ws[seed(pours, w, k)] == 0 ==> opens_basin(fd, w, h, pours, k) && delineated(
            fd,
            w,
            h,
            pours,
            assign_upstream(fd, w, h, ws, r, id),
            k + 1,
        ),
{
    let s = seed(pours, w, k);
    if ws[s] != 0 {
        let i0 = choose|i: int| 0 <= i < k && #[trigger] meets(fd, w, h, seed(pours, w, i), s);
        assert forall|c: int| 0 <= c < w * h implies ((#[trigger] ws[c] != 0) <==> exists|i: int|
            0 <= i < k + 1 && #[trigger] meets(fd, w, h, seed(pours, w, i), c)) by {
            if meets(fd, w, h, seed(pours, w, k), c) {
                lemma_meets_trans(fd, w, h, seed(pours, w, i0), s, c);
            }
            if exists|i: int| 0 <= i < k + 1 && #[trigger] meets(fd, w, h, seed(pours, w, i), c) {
                let i1 = choose|i: int| 0 <= i < k + 1 && #[trigger] meets(fd, w, h, seed(pours, w, i), c);
                if i1 == k {
                    lemma_meets_trans(fd, w, h, seed(pours, w, i0), s, c);
                }
            }
        }
    } else {
        let t = assign_upstream(fd, w, h, ws, r, id);
        // No earlier seed meets the basin of `s`.
        assert forall|i: int| 0 <= i < k implies !#[trigger] meets(fd, w, h, seed(pours, w, i), s) by {
            if meets(fd, w, h, seed(pours, w, i), s) {
                assert(ws[s] != 0);
            }
        }
        // The cells draining to `r` are the basin of `s`, all unassigned.
        assert forall|c: int| 0 <= c < w * h implies (#[trigger] drains_to(fd, w, h, c, r)) == meets(
            fd,
            w,
            h,
            s,
            c,
        ) by {
            if drains_to(fd, w, h, c, r) {
                assert(drains_to(fd, w, h, s, r) && drains_to(fd, w, h, c, r));
            }
            if meets(fd, w, h, s, c) {
                lemma_outlet_collects_basin(fd, w, h, s, r, c);
            }
        }
        assert forall|c: int| 0 <= c < w * h && meets(fd, w, h, s, c) implies ws[c] == 0 && forall|i: int|
            0 <= i < k ==> !#[trigger] meets(fd, w, h, seed(pours, w, i), c) by {
            lemma_meets_symm(fd, w, h, s, c);
            assert forall|i: int| 0 <= i < k implies !#[trigger] meets(fd, w, h, seed(pours, w, i), c) by {
                if meets(fd, w, h, seed(pours, w, i), c) {
                    lemma_meets_trans(fd, w, h, seed(pours, w, i), c, s);
                }
            }
        }
        assert forall|c: int| 0 <= c < w * h implies #[trigger] t[c] == (if meets(fd, w, h, s, c) {
            id
        } else {
            ws[c]
        }) by {
            if meets(fd, w, h, s, c) {
                assert(drains_to(fd, w, h, c, r));
                let kk = choose|kk: nat| #[trigger] walk(fd, w, h, c, kk) == Some(r);
                lemma_feeds_of_walk(fd, w, h, ws, c, r, kk);
            } else if feeds_into(fd, w, h, ws, c, r) {
                let kk = choose|kk: nat| #[trigger] feeds(fd, w, h, ws, c, r, kk);
                lemma_feeds_zero(fd, w, h, ws, c, r, kk);
                assert(drains_to(fd, w, h, c, r));
            }
        }
        lemma_drains_refl(fd, w, h, s);
        assert forall|c: int| 0 <= c < w * h implies ((#[trigger] t[c] != 0) <==> exists|i: int|
            0 <= i < k + 1 && #[trigger] meets(fd, w, h, seed(pours, w, i), c)) by {
            if meets(fd, w, h, s, c) {
                assert(meets(fd, w, h, seed(pours, w, k), c));
            }
            if exists|i: int| 0 <= i < k + 1 && #[trigger] meets(fd, w, h, seed(pours, w, i), c) {
                let i1 = choose|i: int| 0 <= i < k + 1 && #[trigger] meets(fd, w, h, seed(pours, w, i), c);
                if i1 < k {
                    assert(ws[c] != 0);
                }
            }
        }
        assert forall|c: int| 0 <= c < w * h && #[trigger] t[c] != 0 implies t[c] == basin_id(fd, w, h, pours, c) by {
            if meets(fd, w, h, s, c) {
                lemma_first_seed_is(fd, w, h, pours, c, k);
            }
        }
    }
}

/// The entry of the edge cell visited at step `t` is among the candidates
/// of every later step.
proof fn lemma_candidate_stays(flow: Seq<u32>, w: int, h: int, threshold: u32, t: int, k: int)
    requires
        0 <= t < k,
        flow[idx(edge_cell(w, h, t).0 as int, edge_cell(w, h, t).1 as int, w)] > threshold,
    ensures
        exists|j: int|
            0 <= j < pour_candidates(flow, w, h, threshold, k).len() && #[trigger] pour_candidates(
                flow,
                w,
                h,
                threshold,
                k,
            )[j] == (
                edge_cell(w, h, t).0,
                edge_cell(w, h, t).1,
                flow[idx(edge_cell(w, h, t).0 as int, edge_cell(w, h, t).1 as int, w)],
            ),
    decreases k,
{
    let c = pour_candidates(flow, w, h, threshold, k);
    let o = pour_candidates(flow, w, h, threshold, k - 1);
    if t == k - 1 {
        assert(c[o.len() as int] == c.last());
    } else {
        lemma_candidate_stays(flow, w, h, threshold, t, k - 1);
        let j = choose|j: int| 0 <= j < o.len() && #[trigger] o[j] == (
            edge_cell(w, h, t).0,
            edge_cell(w, h, t).1,
            flow[idx(edge_cell(w, h, t).0 as int, edge_cell(w, h, t).1 as int, w)],
        );
        assert(c[j] == o[j]);
    }
}

/// Law of the pour-point search, completeness: every edge cell of the grid
/// (in the first or last column or row) whose flow is above the threshold
/// is a pour point, unless `MAX_WATERSHEDS` pour points are found, all with
/// at least its flow.
pub proof fn lemma_pour_points_complete(flow: Seq<u32>, w: int, h: int, threshold: u32, x: int, y: int)
    requires
        w <= usize::MAX,
        h <= usize::MAX,
        h >= 1,
        h >= 3 ==> w >= 1,
        flow.len() == w * h,
        0 <= x < w,
        0 <= y < h,
        x == 0 || x == w - 1 || y == 0 || y == h - 1,
        flow[y * w + x] > threshold,
    ensures
        (exists|j: int|
            0 <= j < pour_points(flow, w, h, threshold).len() && #[trigger] pour_points(flow, w, h, threshold)[j] == (
                x as usize,
                y as usize,
                flow[y * w + x],
            )) || (pour_points(flow, w, h, threshold).len() == MAX_WATERSHEDS && forall|j: int|
            0 <= j < MAX_WATERSHEDS ==> #[trigger] pour_points(flow, w, h, threshold)[j].2 >= flow[y * w + x]),
{
    // The step at which the search visits (x, y).
    let t = if y == 0 {
        2 * x
    } else if y == h - 1 {
        2 * x + 1
    } else if x == 0 {
        2 * w + 2 * (y - 1)
    } else {
        2 * w + 2 * (y - 1) + 1
    };
    if y == 0 {
        assert(t / 2 == x && t % 2 == 0);
    } else if y == h - 1 {
        assert(t / 2 == x && t % 2 == 1);
    } else {
        assert(h >= 3);
        let u = t - 2 * w;
        assert(u / 2 + 1 == y);
        if x == 0 {
            assert(u % 2 == 0);
        } else {
            assert(u % 2 == 1);
        }
    }
    assert(edge_cell(w, h, t) == (x as usize, y as usize));
    assert(t < edge_count(w, h));
    let c = pour_candidates(flow, w, h, threshold, edge_count(w, h));
    let e = (x as usize, y as usize, flow[y * w + x]);
    lemma_candidate_stays(flow, w, h, threshold, t, edge_count(w, h));
    let i = choose|i: int| 0 <= i < c.len() && #[trigger] c[i] == e;
    lemma_sort_by_flow_keeps(c, i);
    lemma_sort_by_flow(c);
    let s = sort_by_flow(c);
    let p = choose|j: int| 0 <= j < c.len() && #[trigger] s[j] == c[i];
    let m = pour_points(flow, w, h, threshold);
    if p < MAX_WATERSHEDS {
        assert(m[p] == e);
    } else {
        assert forall|j: int| 0 <= j < MAX_WATERSHEDS implies #[trigger] m[j].2 >= flow[y * w + x] by {
            assert(m[j] == s[j]);
            assert(s[j].2 >= s[p].2);
        }
    }
}

/// Delineate watersheds by tracing from pour points.
///
/// The pour points are found by `find_pour_points` with `major_threshold`,
/// the order key of the flow above which an edge cell drains a major basin.
/// Each pour point, largest flow first, then each cell in index order, is a
/// seed; a seed whose basin (the cells whose flow paths meet its own) has
/// no id yet gives that whole basin the next id. Returns the ids and their
/// number.
pub fn delineate_watersheds(
    flow_direction: &Vec<FlowDirection>,
    flow_accumulation: &Vec<u32>,
    width: usize,
    height: usize,
    major_threshold: u32,
) -> (r: (Vec<u32>, u32))
    requires
        grid_ok(flow_direction@, width as int, height as int),
        flow_accumulation.len() == width * height,
        height >= 1,
        height >= 3 ==> width >= 1,
        width * height <= u32::MAX,
    ensures
        r.0.len() == width * height,
        forall|j: int|
            0 <= j < width * height ==> #[trigger] r.0[j] == basin_id(
                flow_direction@,
                width as int,
                height as int,
                pour_points(flow_accumulation@, width as int, height as int, major_threshold),
                j,
            ),
        r.1 == basin_count(
            flow_direction@,
            width as int,
            height as int,
            pour_points(flow_accumulation@, width as int, height as int, major_threshold),
        ),
{
    let ghost fd = flow_direction@;
    let ghost (w, h) = (width as int, height as int);
    let n = flow_accumulation.len();
    let mut watershed_id: Vec<u32> = filled(0u32, n);
    let mut current_id: u32 = 0;

    // Find pour points (edges with high flow accumulation).
    let pour_points_found = find_pour_points(flow_accumulation, width, height, major_threshold);
    let ghost pours = pour_points_found@;
    proof {
        lemma_candidates_in_grid(flow_accumulation@, w, h, major_threshold, edge_count(w, h));
        lemma_sort_in_grid(pour_candidates(flow_accumulation@, w, h, major_threshold, edge_count(w, h)), w, h);
        lemma_count_zero_bound(watershed_id@);
    }
    let np = pour_points_found.len();

    // Trace the basin of each pour point, then of each cell still
    // unassigned: a seed whose basin has no id yet gives it the next one.
    let mut k: usize = 0;
    while k < np
        invariant
            fd == flow_direction@,
            grid_ok(fd, w, h),
            w == width,
            h == height,
            n == w * h,
            n <= u32::MAX,
            pours == pour_points_found@,
            np == pours.len(),
            in_grid(pours, w, h),
            k <= np,
            watershed_id.len() == n,
            delineated(fd, w, h, pours, watershed_id@, k as int),
            current_id == opened_before(fd, w, h, pours, k as int),
            current_id + count_zero(watershed_id@) <= n,
        decreases np - k,
    {
        let (px, py, _) = pour_points_found[k];
        proof {
            lemma_idx(px as int, py as int, w, h);
        }
        delineate_seed(
            flow_direction,
            &mut watershed_id,
            &mut current_id,
            width,
            height,
            px,
            py,
            Ghost(pours),
            Ghost(k as int),
        );
        k = k + 1;
    }
    let mut j: usize = 0;
    while j < n
        invariant
            fd == flow_direction@,
            grid_ok(fd, w, h),
            w == width,
            h == height,
            n == w * h,
            n <= u32::MAX,
            pours == pour_points_found@,
            np == pours.len(),
            in_grid(pours, w, h),
            j <= n,
            watershed_id.len() == n,
            delineated(fd, w, h, pours, watershed_id@, np + j),
            current_id == opened_before(fd, w, h, pours, np + j),
            current_id + count_zero(watershed_id@) <= n,
        decreases n - j,
    {
        proof {
            lemma_coords(j as int, w, h);
            lemma_idx((j % width) as int, (j / width) as int, w, h);
        }
        delineate_seed(
            flow_direction,
            &mut watershed_id,
            &mut current_id,
            width,
            height,
            j % width,
            j / width,
            Ghost(pours),
            Ghost(np + j),
        );
        j = j + 1;
    }
    proof {
        assert forall|j: int| 0 <= j < w * h implies #[trigger] watershed_id@[j] == basin_id(fd, w, h, pours, j) by {
            lemma_drains_refl(fd, w, h, j);
            assert(seed(pours, w, np + j) == j);
            assert(meets(fd, w, h, seed(pours, w, np + j), j));
        }
    }
    (watershed_id, current_id)
}

/// One seed of the delineation, at cell `(sx, sy)`: when its basin has no
/// id yet, the whole basin, traced upstream from its outlet, gets the next
/// one.
fn delineate_seed(
    flow_direction: &Vec<FlowDirection>,
    watershed_id: &mut Vec<u32>,
    current_id: &mut u32,
    width: usize,
    height: usize,
    sx: usize,
    sy: usize,
    Ghost(pours): Ghost<Seq<(usize, usize, u32)>>,
    Ghost(k): Ghost<int>,
)
    requires
        grid_ok(flow_direction@, width as int, height as int),
        width * height <= u32::MAX,
        sx < width,
        sy < height,
        0 <= k < seed_count(pours, width as int, height as int),
        idx(sx as int, sy as int, width as int) == seed(pours, width as int, k),
        delineated(flow_direction@, width as int, height as int, pours, old(watershed_id)@, k),
        *old(current_id) == opened_before(flow_direction@, width as int, height as int, pours, k),
        *old(current_id) + count_zero(old(watershed_id)@) <= width * height,
    ensures
        final(watershed_id).len() == width * height,
        delineated(flow_direction@, width as int, height as int, pours, final(watershed_id)@, k + 1),
        *final(current_id) == opened_before(flow_direction@, width as int, height as int, pours, k + 1),
        *final(current_id) + count_zero(final(watershed_id)@) <= width * height,
{
    let ghost fd = flow_direction@;
    let ghost (w, h) = (width as int, height as int);
    proof {
        lemma_idx(sx as int, sy as int, w, h);
    }
    let sidx = sy * width + sx;
    if watershed_id[sidx] == 0 {
        proof {
            lemma_count_zero_set(watershed_id@, sidx as int, 1);
        }
        let (rx, ry) = basin_outlet(flow_direction, sx, sy, width, height);
        proof {
            lemma_idx(rx as int, ry as int, w, h);
            let cs = idx(rx as int, ry as int, w);
            lemma_delineate_step(fd, w, h, pours, watershed_id@, k, cs, (*current_id + 1) as u32);
            assert(feeds_into(fd, w, h, watershed_id@, sidx as int, cs)) by {
                let kk = choose|kk: nat| #[trigger] walk(fd, w, h, sidx as int, kk) == Some(cs);
                assert forall|x: int| 0 <= x < w * h && #[trigger] drains_to(fd, w, h, x, cs) implies watershed_id@[x]
                    == 0 by {
                    assert(drains_to(fd, w, h, sidx as int, cs) && drains_to(fd, w, h, x, cs));
                    assert(meets(fd, w, h, sidx as int, x));
                    lemma_meets_symm(fd, w, h, sidx as int, x);
                    if watershed_id@[x] != 0 {
                        let i1 = choose|i: int| 0 <= i < k && #[trigger] meets(fd, w, h, seed(pours, w, i), x);
                        lemma_meets_trans(fd, w, h, seed(pours, w, i1), x, sidx as int);
                    }
                }
                lemma_feeds_of_walk(fd, w, h, watershed_id@, sidx as int, cs, kk);
            }
            let t = assign_upstream(fd, w, h, watershed_id@, cs, (*current_id + 1) as u32);
            assert(t[sidx as int] != 0);
            lemma_count_zero_le(watershed_id@, t, sidx as int);
        }
        *current_id = *current_id + 1;
        trace_watershed_upstream(flow_direction, watershed_id, width, height, rx, ry, *current_id);
    } else {
        proof {
            lemma_delineate_step(fd, w, h, pours, watershed_id@, k, 0, 1);
        }
    }
}

/// `opened_before` never decreases.
proof fn lemma_opened_mono(fd: Seq<FlowDirection>, w: int, h: int, pours: Seq<(usize, usize, u32)>, a: int, b: int)
    requires
        a <= b,
    ensures
        opened_before(fd, w, h, pours, a) <= opened_before(fd, w, h, pours, b),
    decreases b - a,
{
    if a < b {
        lemma_opened_mono(fd, w, h, pours, a, b - 1);
    }
}

/// The first seed of a cell opens a watershed.
proof fn lemma_first_seed_opens(fd: Seq<FlowDirection>, w: int, h: int, pours: Seq<(usize, usize, u32)>, j: int)
    requires
        0 <= j < w * h,
    ensures
        opens_basin(fd, w, h, pours, first_seed(fd, w, h, pours, j)),
{
    lemma_first_seed_bound(fd, w, h, pours, j);
    let f = first_seed(fd, w, h, pours, j);
    assert forall|i: int| 0 <= i < f implies !#[trigger] meets(fd, w, h, seed(pours, w, i), seed(pours, w, f)) by {
        if meets(fd, w, h, seed(pours, w, i), seed(pours, w, f)) {
            lemma_meets_trans(fd, w, h, seed(pours, w, i), seed(pours, w, f), j);
        }
    }
}

/// Cells whose flow paths meet have the same first seed.
proof fn lemma_first_seed_shared(fd: Seq<FlowDirection>, w: int, h: int, pours: Seq<(usize, usize, u32)>, a: int, b: int)
    requires
        0 <= a < w * h,
        0 <= b < w * h,
        meets(fd, w, h, a, b),
    ensures
        first_seed(fd, w, h, pours, a) == first_seed(fd, w, h, pours, b),
{
    lemma_first_seed_bound(fd, w, h, pours, a);
    lemma_meets_symm(fd, w, h, a, b);
    let f = first_seed(fd, w, h, pours, a);
    lemma_meets_trans(fd, w, h, seed(pours, w, f), a, b);
    assert forall|i: int| 0 <= i < f implies !#[trigger] meets(fd, w, h, seed(pours, w, i), b) by {
        if meets(fd, w, h, seed(pours, w, i), b) {
            lemma_meets_trans(fd, w, h, seed(pours, w, i), b, a);
        }
    }
    lemma_first_seed_is(fd, w, h, pours, b, f);
}

/// Law of watershed delineation: two cells of the grid get the same id
/// exactly when their flow paths meet, that is when they belong to one
/// drainage basin. In particular a cell and the cell it drains into share
/// their id.
pub proof fn lemma_watersheds_are_basins(
    fd: Seq<FlowDirection>,
    w: int,
    h: int,
    pours: Seq<(usize, usize, u32)>,
    a: int,
    b: int,
)
    requires
        grid_ok(fd, w, h),
        0 <= a < w * h,
        0 <= b < w * h,
    ensures
        (basin_id(fd, w, h, pours, a) == basin_id(fd, w, h, pours, b)) <==> meets(fd, w, h, a, b),
        succ(fd, w, h, a) == Some(b) ==> basin_id(fd, w, h, pours, a) == basin_id(fd, w, h, pours, b),
{
    if succ(fd, w, h, a) == Some(b) {
        lemma_drains_step(fd, w, h, a, b);
    }
    if meets(fd, w, h, a, b) {
        lemma_first_seed_shared(fd, w, h, pours, a, b);
    } else {
        lemma_first_seed_bound(fd, w, h, pours, a);
        lemma_first_seed_bound(fd, w, h, pours, b);
        let fa = first_seed(fd, w, h, pours, a);
        let fb = first_seed(fd, w, h, pours, b);
        if fa == fb {
            lemma_meets_symm(fd, w, h, seed(pours, w, fa), a);
            lemma_meets_trans(fd, w, h, a, seed(pours, w, fa), b);
        } else if fa < fb {
            lemma_first_seed_opens(fd, w, h, pours, b);
            lemma_opened_mono(fd, w, h, pours, fa + 1, fb);
        } else {
            lemma_first_seed_opens(fd, w, h, pours, a);
            lemma_opened_mono(fd, w, h, pours, fb + 1, fa);
        }
    }
}

/// Law of watershed delineation: the ids run from 1 to the number of
/// watersheds, and each of them is used.
pub proof fn lemma_watershed_ids_dense(fd: Seq<FlowDirection>, w: int, h: int, pours: Seq<(usize, usize, u32)>, t: int)
    requires
        grid_ok(fd, w, h),
        in_grid(pours, w, h),
        1 <= t <= basin_count(fd, w, h, pours),
    ensures
        forall|j: int| 0 <= j < w * h ==> 1 <= #[trigger] basin_id(fd, w, h, pours, j) <= basin_count(fd, w, h, pours),
        exists|j: int| 0 <= j < w * h && #[trigger] basin_id(fd, w, h, pours, j) == t,
{
    assert forall|j: int| 0 <= j < w * h implies 1 <= #[trigger] basin_id(fd, w, h, pours, j) <= basin_count(
        fd,
        w,
        h,
        pours,
    ) by {
        lemma_first_seed_bound(fd, w, h, pours, j);
        lemma_first_seed_opens(fd, w, h, pours, j);
        let f = first_seed(fd, w, h, pours, j);
        lemma_opened_mono(fd, w, h, pours, 0, f);
        lemma_opened_mono(fd, w, h, pours, f + 1, seed_count(pours, w, h));
    }
    let k = lemma_opening_seed(fd, w, h, pours, seed_count(pours, w, h), t);
    let c = seed(pours, w, k);
    if k < pours.len() {
        assert(c == idx(pours[k].0 as int, pours[k].1 as int, w));
        lemma_idx(pours[k].0 as int, pours[k].1 as int, w, h);
    }
    lemma_drains_refl(fd, w, h, c);
    lemma_first_seed_is(fd, w, h, pours, c, k);
    assert(basin_id(fd, w, h, pours, c) == t);
}

/// The seed below `m` at which the count of opened watersheds reaches `t`.
proof fn lemma_opening_seed(fd: Seq<FlowDirection>, w: int, h: int, pours: Seq<(usize, usize, u32)>, m: int, t: int) -> (k: int)
    requires
        1 <= t <= opened_before(fd, w, h, pours, m),
    ensures
        0 <= k < m,
        opens_basin(fd, w, h, pours, k),
        opened_before(fd, w, h, pours, k + 1) == t,
    decreases m,
{
    if opened_before(fd, w, h, pours, m - 1) >= t {
        lemma_opening_seed(fd, w, h, pours, m - 1, t)
    } else {
        m - 1
    }
}

/// Law of watershed delineation: a pour point that lies in no basin of an
/// earlier pour point opens a watershed, whose id, the number of distinct
/// basins among the pour points up to it, every cell of its basin gets.
pub proof fn lemma_watershed_of_pour_point(
    fd: Seq<FlowDirection>,
    w: int,
    h: int,
    pours: Seq<(usize, usize, u32)>,
    k: int,
    j: int,
)
    requires
        grid_ok(fd, w, h),
        0 <= k < pours.len(),
        forall|i: int| 0 <= i < k ==> !#[trigger] meets(fd, w, h, pour_cell(pours, i, w), pour_cell(pours, k, w)),
        0 <= j < w * h,
        meets(fd, w, h, pour_cell(pours, k, w), j),
    ensures
        basin_id(fd, w, h, pours, j) == opened_before(fd, w, h, pours, k + 1),
        opened_before(fd, w, h, pours, k + 1) == opened_before(fd, w, h, pours, k) + 1,
{
    assert forall|i: int| 0 <= i < k implies !#[trigger] meets(fd, w, h, seed(pours, w, i), j) by {
        assert(seed(pours, w, i) == pour_cell(pours, i, w));
        if meets(fd, w, h, seed(pours, w, i), j) {
            lemma_meets_symm(fd, w, h, pour_cell(pours, k, w), j);
            lemma_meets_trans(fd, w, h, pour_cell(pours, i, w), j, pour_cell(pours, k, w));
        }
    }
    assert(seed(pours, w, k) == pour_cell(pours, k, w));
    lemma_first_seed_is(fd, w, h, pours, j, k);
    assert(opens_basin(fd, w, h, pours, k)) by {
        assert forall|i: int| 0 <= i < k implies !#[trigger] meets(fd, w, h, seed(pours, w, i), seed(pours, w, k)) by {
            assert(seed(pours, w, i) == pour_cell(pours, i, w));
        }
    }
}

} // verus!
