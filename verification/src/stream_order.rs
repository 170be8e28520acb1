//! Strahler stream order of the river cells.

use vstd::prelude::*;
use crate::direction::{FlowDirection, lemma_all_directions};
use crate::grid::{
    back_neighbor, drains_into, flows_into, grid_ok, idx, lemma_back_neighbor_in_range, lemma_coords, lemma_idx,
    lemma_pred_is_back_neighbor, shift, succ,
};

verus! {

/// Order that the neighbour in direction `all_spec()[k]` contributes to cell
/// `i`: its order when it drains into `i`, zero otherwise.
pub open spec fn upstream_order(fd: Seq<FlowDirection>, w: int, h: int, so: Seq<u8>, i: int, k: int) -> u8 {
    match back_neighbor(w, h, i, FlowDirection::all_spec()[k]) {
        Some(m) => if flows_into(fd, w, h, m, i) { so[m] } else { 0 },
        None => 0,
    }
}

/// Highest order among the first `k` upstream contributions of cell `i`.
pub open spec fn max_upstream(fd: Seq<FlowDirection>, w: int, h: int, so: Seq<u8>, i: int, k: int) -> u8
    decreases k,
{
    if k <= 0 {
        0
    } else {
        let m = max_upstream(fd, w, h, so, i, k - 1);
        let v = upstream_order(fd, w, h, so, i, k - 1);
        if v > m {
            v
        } else {
            m
        }
    }
}

/// How many of the first `k` upstream contributions of cell `i` equal `v`,
/// which must be a proper order (not zero).
pub open spec fn count_upstream(fd: Seq<FlowDirection>, w: int, h: int, so: Seq<u8>, i: int, k: int, v: u8) -> nat
    decreases k,
{
    if k <= 0 {
        0
    } else {
        count_upstream(fd, w, h, so, i, k - 1, v) + if v > 0 && upstream_order(fd, w, h, so, i, k - 1) == v {
            1nat
        } else {
            0nat
        }
    }
}

/// Strahler rule: two tributaries of the highest order raise the order by
/// one (saturating at 255); otherwise the highest order carries on.
pub open spec fn joined_order(fd: Seq<FlowDirection>, w: int, h: int, so: Seq<u8>, i: int) -> u8 {
    let m = max_upstream(fd, w, h, so, i, 8);
    if m > 0 && count_upstream(fd, w, h, so, i, 8, m) >= 2 {
        if m == 255 {
            255
        } else {
            (m + 1) as u8
        }
    } else {
        m
    }
}

/// Update of one river cell: it takes the joined order of its tributaries
/// when that is higher than its own.
pub open spec fn update_cell(fd: Seq<FlowDirection>, w: int, h: int, so: Seq<u8>, i: int) -> Seq<u8> {
    if so[i] != 0 && joined_order(fd, w, h, so, i) > so[i] {
        so.update(i, joined_order(fd, w, h, so, i))
    } else {
        so
    }
}

/// One pass over the first `k` cells in index order, updating in place.
pub open spec fn sweep(fd: Seq<FlowDirection>, w: int, h: int, so: Seq<u8>, k: int) -> Seq<u8>
    decreases k,
{
    if k <= 0 {
        so
    } else {
        update_cell(fd, w, h, sweep(fd, w, h, so, k - 1), k - 1)
    }
}

/// Cells at or above the threshold start with order 1, the others with 0.
pub open spec fn initial_orders(flow: Seq<u32>, threshold: u32) -> Seq<u8> {
    Seq::new(flow.len(), |i: int| if flow[i] >= threshold { 1u8 } else { 0u8 })
}

proof fn lemma_count_above_max(fd: Seq<FlowDirection>, w: int, h: int, so: Seq<u8>, i: int, k: int, v: u8)
    requires
        v > max_upstream(fd, w, h, so, i, k),
    ensures
        count_upstream(fd, w, h, so, i, k, v) == 0,
    decreases k,
{
    if k > 0 {
        lemma_count_above_max(fd, w, h, so, i, k - 1, v);
    }
}

/// Whether each cell carries order zero exactly when `base` does.
pub open spec fn same_rivers(s: Seq<u8>, base: Seq<u8>) -> bool {
    &&& s.len() == base.len()
    &&& forall|c: int| 0 <= c < s.len() ==> (#[trigger] s[c] == 0) == (base[c] == 0)
}

proof fn lemma_sweep_same_rivers(fd: Seq<FlowDirection>, w: int, h: int, so: Seq<u8>, k: int)
    requires
        k <= so.len(),
    ensures
        same_rivers(sweep(fd, w, h, so, k), so),
    decreases k,
{
    if k > 0 {
        lemma_sweep_same_rivers(fd, w, h, so, k - 1);
    }
}

/// Orders that are pointwise no larger give tributary maxima and counts
/// that are no larger.
proof fn lemma_upstream_monotone(fd: Seq<FlowDirection>, w: int, h: int, s: Seq<u8>, t: Seq<u8>, i: int, k: int)
    requires
        grid_ok(fd, w, h),
        s.len() == w * h,
        t.len() == w * h,
        0 <= i < w * h,
        0 <= k <= 8,
        forall|c: int| 0 <= c < w * h ==> #[trigger] s[c] <= t[c],
    ensures
        max_upstream(fd, w, h, s, i, k) <= max_upstream(fd, w, h, t, i, k),
        max_upstream(fd, w, h, s, i, k) == max_upstream(fd, w, h, t, i, k) ==> count_upstream(
            fd,
            w,
            h,
            s,
            i,
            k,
            max_upstream(fd, w, h, s, i, k),
        ) <= count_upstream(fd, w, h, t, i, k, max_upstream(fd, w, h, t, i, k)),
    decreases k,
{
    if k > 0 {
        lemma_upstream_monotone(fd, w, h, s, t, i, k - 1);
        lemma_back_neighbor_in_range(w, h, i, FlowDirection::all_spec()[k - 1]);
        let a = upstream_order(fd, w, h, s, i, k - 1);
        let b = upstream_order(fd, w, h, t, i, k - 1);
        assert(a <= b);
        let ms = max_upstream(fd, w, h, s, i, k - 1);
        let mt = max_upstream(fd, w, h, t, i, k - 1);
        let m = max_upstream(fd, w, h, s, i, k);
        if m == max_upstream(fd, w, h, t, i, k) {
            if ms < m {
                lemma_count_above_max(fd, w, h, s, i, k - 1, m);
            }
            if mt < m {
                lemma_count_above_max(fd, w, h, t, i, k - 1, m);
            }
        }
    }
}

/// The joined order only grows when tributary orders grow.
proof fn lemma_joined_monotone(fd: Seq<FlowDirection>, w: int, h: int, s: Seq<u8>, t: Seq<u8>, i: int)
    requires
        grid_ok(fd, w, h),
        s.len() == w * h,
        t.len() == w * h,
        0 <= i < w * h,
        forall|c: int| 0 <= c < w * h ==> #[trigger] s[c] <= t[c],
    ensures
        joined_order(fd, w, h, s, i) <= joined_order(fd, w, h, t, i),
{
    lemma_upstream_monotone(fd, w, h, s, t, i, 8);
}

/// Order a river cell may carry: what its tributaries justify, and at
/// least one.
pub open spec fn justified(fd: Seq<FlowDirection>, w: int, h: int, so: Seq<u8>, i: int) -> int {
    let j = joined_order(fd, w, h, so, i);
    if j > 1 {
        j as int
    } else {
        1
    }
}

/// No cell carries more than its tributaries justify.
pub open spec fn never_above(fd: Seq<FlowDirection>, w: int, h: int, so: Seq<u8>) -> bool {
    &&& so.len() == w * h
    &&& forall|i: int| 0 <= i < w * h ==> #[trigger] so[i] <= justified(fd, w, h, so, i)
}

proof fn lemma_update_never_above(fd: Seq<FlowDirection>, w: int, h: int, so: Seq<u8>, k: int)
    requires
        grid_ok(fd, w, h),
        never_above(fd, w, h, so),
        0 <= k < w * h,
    ensures
        never_above(fd, w, h, update_cell(fd, w, h, so, k)),
{
    let t = update_cell(fd, w, h, so, k);
    if t != so {
        assert forall|c: int| 0 <= c < w * h implies #[trigger] so[c] <= t[c] by {}
        assert forall|i: int| 0 <= i < w * h implies #[trigger] t[i] <= justified(fd, w, h, t, i) by {
            lemma_joined_monotone(fd, w, h, so, t, i);
            if i == k {
                assert(t[i] == joined_order(fd, w, h, so, i));
            } else {
                assert(t[i] == so[i]);
            }
        }
    }
}

proof fn lemma_sweep_never_above(fd: Seq<FlowDirection>, w: int, h: int, so: Seq<u8>, k: int)
    requires
        grid_ok(fd, w, h),
        never_above(fd, w, h, so),
        k <= w * h,
    ensures
        never_above(fd, w, h, sweep(fd, w, h, so, k)),
    decreases k,
{
    if k > 0 {
        lemma_sweep_never_above(fd, w, h, so, k - 1);
        lemma_update_never_above(fd, w, h, sweep(fd, w, h, so, k - 1), k - 1);
    }
}

proof fn lemma_sweep_grows(fd: Seq<FlowDirection>, w: int, h: int, so: Seq<u8>, k: int)
    requires
        k <= so.len(),
    ensures
        sweep(fd, w, h, so, k).len() == so.len(),
        forall|c: int| 0 <= c < so.len() ==> #[trigger] so[c] <= sweep(fd, w, h, so, k)[c],
    decreases k,
{
    if k > 0 {
        lemma_sweep_grows(fd, w, h, so, k - 1);
    }
}

/// A pass that changes nothing leaves every cell it visits unchanged.
proof fn lemma_fixed_sweep(fd: Seq<FlowDirection>, w: int, h: int, so: Seq<u8>, k: int, m: int)
    requires
        0 <= k <= m,
        m <= so.len(),
        sweep(fd, w, h, so, m) == so,
    ensures
        sweep(fd, w, h, so, k) == so,
    decreases m - k,
{
    if k < m {
        lemma_fixed_sweep(fd, w, h, so, k + 1, m);
        let p = sweep(fd, w, h, so, k);
        lemma_sweep_grows(fd, w, h, so, k);
        lemma_sweep_grows(fd, w, h, so, k + 1);
        assert forall|c: int| 0 <= c < so.len() implies #[trigger] p[c] == so[c] by {
            assert(update_cell(fd, w, h, p, k)[c] >= p[c]);
        }
        assert(p =~= so);
    }
}

/// Whether `so` gives Strahler stream orders on the grid: order zero
/// exactly off the rivers (cells whose flow is below `threshold`), and on
/// every river cell exactly what its tributaries justify: one for a cell
/// with no river flowing in, the highest tributary order, or one more
/// (saturating at 255) where two tributaries of that highest order meet.
pub open spec fn is_stream_order(fd: Seq<FlowDirection>, w: int, h: int, flow: Seq<u32>, threshold: u32, so: Seq<u8>) -> bool {
    &&& so.len() == w * h
    &&& forall|i: int| 0 <= i < w * h ==> (#[trigger] so[i] > 0) == (flow[i] >= threshold)
    &&& forall|i: int| 0 <= i < w * h && #[trigger] so[i] > 0 ==> so[i] == justified(fd, w, h, so, i)
}

/// Whether `s` is nowhere above `t`.
pub open spec fn below(s: Seq<u8>, t: Seq<u8>) -> bool {
    &&& s.len() == t.len()
    &&& forall|c: int| 0 <= c < s.len() ==> #[trigger] s[c] <= t[c]
}

/// How far the orders are from the largest order, summed over the cells.
pub open spec fn headroom(s: Seq<u8>) -> nat
    decreases s.len(),
{
    if s.len() == 0 {
        0
    } else {
        headroom(s.drop_last()) + (255 - s.last()) as nat
    }
}

proof fn lemma_headroom_shrinks(s: Seq<u8>, t: Seq<u8>)
    requires
        below(s, t),
    ensures
        headroom(t) <= headroom(s),
        s != t ==> headroom(t) < headroom(s),
    decreases s.len(),
{
    if s.len() == 0 {
        assert(s =~= t);
    } else {
        let (a, b) = (s.drop_last(), t.drop_last());
        assert(below(a, b)) by {
            assert forall|c: int| 0 <= c < a.len() implies #[trigger] a[c] <= b[c] by {
                assert(a[c] == s[c] && b[c] == t[c]);
            }
        }
        lemma_headroom_shrinks(a, b);
        assert(s.last() <= t.last());
        if s != t && a =~= b && s.last() == t.last() {
            assert(s =~= t) by {
                assert forall|c: int| 0 <= c < s.len() implies s[c] == t[c] by {
                    if c < s.len() - 1 {
                        assert(a[c] == s[c] && b[c] == t[c]);
                    }
                }
            }
        }
    }
}

/// A pass never lifts an order above that of a Strahler solution lying
/// above it.
proof fn lemma_sweep_below(
    fd: Seq<FlowDirection>,
    w: int,
    h: int,
    flow: Seq<u32>,
    threshold: u32,
    so: Seq<u8>,
    f: Seq<u8>,
    k: int,
)
    requires
        grid_ok(fd, w, h),
        is_stream_order(fd, w, h, flow, threshold, f),
        below(so, f),
        k <= w * h,
    ensures
        below(sweep(fd, w, h, so, k), f),
    decreases k,
{
    if k > 0 {
        lemma_sweep_below(fd, w, h, flow, threshold, so, f, k - 1);
        let p = sweep(fd, w, h, so, k - 1);
        lemma_sweep_grows(fd, w, h, so, k - 1);
        let t = update_cell(fd, w, h, p, k - 1);
        if t != p {
            lemma_joined_monotone(fd, w, h, p, f, k - 1);
            assert(f[k - 1] > 0);
            assert forall|c: int| 0 <= c < t.len() implies #[trigger] t[c] <= f[c] by {
                if c != k - 1 {
                    assert(t[c] == p[c]);
                }
            }
        }
    }
}

/// Calculate Strahler stream order.
///
/// Flow values are given by order keys: `flow_accumulation[i] >=
/// flow_threshold` exactly when the cell's flow reaches the threshold. The
/// river cells start with order one; passes over the grid in index order
/// raise each river cell to what its tributaries justify, until a pass
/// changes nothing. The result is the least Strahler ordering of the grid
/// (on a grid without cycles, the only one).
pub fn calculate_stream_order(
    flow_direction: &Vec<FlowDirection>,
    flow_accumulation: &Vec<u32>,
    width: usize,
    height: usize,
    flow_threshold: u32,
) -> (stream_order: Vec<u8>)
    requires
        grid_ok(flow_direction@, width as int, height as int),
        flow_accumulation.len() == width * height,
    ensures
        is_stream_order(flow_direction@, width as int, height as int, flow_accumulation@, flow_threshold, stream_order@),
        stream_order.len() == width * height,
        forall|i: int|
            0 <= i < width * height ==> (#[trigger] stream_order[i] > 0) == (flow_accumulation[i] >= flow_threshold),
        forall|f: Seq<u8>|
            is_stream_order(flow_direction@, width as int, height as int, flow_accumulation@, flow_threshold, f)
                ==> below(stream_order@, f),
{
    let ghost fd = flow_direction@;
    let ghost (w, h) = (width as int, height as int);
    let n = flow_accumulation.len();
    let mut stream_order: Vec<u8> = Vec::with_capacity(n);

    // Initialize: cells above threshold start with order 1.
    let mut i: usize = 0;
    while i < n
        invariant
            n == flow_accumulation.len(),
            i <= n,
            stream_order@ == initial_orders(flow_accumulation@, flow_threshold).take(i as int),
        decreases n - i,
    {
        if flow_accumulation[i] >= flow_threshold {
            stream_order.push(1);
        } else {
            stream_order.push(0);
        }
        i = i + 1;
        assert(stream_order@ =~= initial_orders(flow_accumulation@, flow_threshold).take(i as int));
    }
    assert(stream_order@ =~= initial_orders(flow_accumulation@, flow_threshold));

    // Iteratively update stream orders.
    let ghost init = initial_orders(flow_accumulation@, flow_threshold);
    proof {
        assert forall|c: int| 0 <= c < w * h implies #[trigger] init[c] <= justified(fd, w, h, init, c) by {}
        assert forall|f: Seq<u8>| is_stream_order(fd, w, h, flow_accumulation@, flow_threshold, f) implies below(
            stream_order@,
            f,
        ) by {
            assert forall|c: int| 0 <= c < stream_order.len() implies #[trigger] stream_order@[c] <= f[c] by {
                if flow_accumulation@[c] >= flow_threshold {
                    assert(f[c] > 0);
                }
            }
        }
    }
    let dirs = FlowDirection::all();
    let mut changed = true;
    while changed
        invariant
            fd == flow_direction@,
            grid_ok(fd, w, h),
            w == width,
            h == height,
            n == w * h,
            flow_accumulation.len() == n,
            init == initial_orders(flow_accumulation@, flow_threshold),
            stream_order.len() == n,
            dirs@ == FlowDirection::all_spec(),
            same_rivers(stream_order@, init),
            never_above(fd, w, h, stream_order@),
            !changed ==> sweep(fd, w, h, stream_order@, w * h) == stream_order@,
            forall|f: Seq<u8>|
                is_stream_order(fd, w, h, flow_accumulation@, flow_threshold, f) ==> below(stream_order@, f),
        decreases headroom(stream_order@) + if changed { 1int } else { 0int },
    {
        let ghost start = stream_order@;
        changed = false;

        let mut j: usize = 0;
        while j < n
            invariant
                fd == flow_direction@,
                grid_ok(fd, w, h),
                w == width,
                h == height,
                n == w * h,
                j <= n,
                stream_order.len() == n,
                dirs@ == FlowDirection::all_spec(),
                start.len() == n,
                stream_order@ == sweep(fd, w, h, start, j as int),
                forall|c: int| 0 <= c < n ==> #[trigger] stream_order@[c] >= start[c],
                changed <==> exists|c: int| 0 <= c < n && #[trigger] stream_order@[c] != start[c],
            decreases n - j,
        {
            let ghost before = stream_order@;
            if stream_order[j] != 0 {
                let x = j % width;
                let y = j / width;
                proof {
                    lemma_coords(j as int, w, h);
                }
                // Find upstream tributaries: the highest order among them and
                // how many reach it.
                let mut top: u8 = 0;
                let mut top_count: usize = 0;
                let mut k: usize = 0;
                while k < 8
                    invariant
                        fd == flow_direction@,
                        grid_ok(fd, w, h),
                        w == width,
                        h == height,
                        n == w * h,
                        j < n,
                        x == j as int % w,
                        y == j as int / w,
                        x < w,
                        y < h,
                        j == idx(x as int, y as int, w),
                        stream_order@ == before,
                        stream_order.len() == n,
                        dirs@ == FlowDirection::all_spec(),
                        k <= 8,
                        top == max_upstream(fd, w, h, before, j as int, k as int),
                        top_count == count_upstream(fd, w, h, before, j as int, k as int, top),
                        top_count <= k,
                    decreases 8 - k,
                {
                    let d = dirs[k];
                    let (dx, dy) = d.offset();
                    let mut v: u8 = 0;
                    proof {
                        lemma_back_neighbor_in_range(w, h, j as int, d);
                    }
                    match shift(x, y, -dx, -dy, width, height) {
                        Some((nx, ny)) => {
                            proof {
                                lemma_idx(nx as int, ny as int, w, h);
                            }
                            let nidx = ny * width + nx;
                            if drains_into(flow_direction, nx, ny, x, y, width, height) {
                                v = stream_order[nidx];
                            }
                        },
                        None => {},
                    }
                    assert(v == upstream_order(fd, w, h, before, j as int, k as int));
                    if v > 0 {
                        if v > top {
                            proof {
                                lemma_count_above_max(fd, w, h, before, j as int, k as int, v);
                            }
                            top = v;
                            top_count = 1;
                        } else if v == top {
                            top_count = top_count + 1;
                        }
                    }
                    k = k + 1;
                }
                let new_order: u8 = if top > 0 && top_count >= 2 {
                    // Two streams of same order join -> increment order
                    if top == 255 { 255 } else { top + 1 }
                } else {
                    // Keep highest upstream order
                    top
                };
                if new_order > stream_order[j] {
                    stream_order.set(j, new_order);
                    changed = true;
                }
            }
            j = j + 1;
            proof {
                assert(stream_order@ =~= update_cell(fd, w, h, before, (j - 1) as int));
                assert(forall|c: int| 0 <= c < n ==> before[c] >= start[c]);
                if stream_order@ != before {
                    assert(stream_order@[j - 1] != start[j - 1]);
                }
                if exists|c: int| 0 <= c < n && #[trigger] before[c] != start[c] {
                    let c = choose|c: int| 0 <= c < n && #[trigger] before[c] != start[c];
                    assert(stream_order@[c] != start[c]);
                }
                if !changed {
                    assert(stream_order@ == before);
                }
            }
        }
        proof {
            lemma_sweep_same_rivers(fd, w, h, start, w * h);
            lemma_sweep_never_above(fd, w, h, start, w * h);
            assert forall|f: Seq<u8>| is_stream_order(fd, w, h, flow_accumulation@, flow_threshold, f) implies below(
                stream_order@,
                f,
            ) by {
                lemma_sweep_below(fd, w, h, flow_accumulation@, flow_threshold, start, f, w * h);
            }
            lemma_sweep_grows(fd, w, h, start, w * h);
            lemma_headroom_shrinks(start, stream_order@);
            if changed {
                let c = choose|c: int| 0 <= c < n && #[trigger] stream_order@[c] != start[c];
                assert(stream_order@ != start);
            } else {
                assert(stream_order@ =~= start);
            }
        }
    }
    proof {
        let so = stream_order@;
        assert forall|i: int| 0 <= i < w * h && #[trigger] so[i] > 0 implies so[i] == justified(fd, w, h, so, i) by {
            lemma_fixed_sweep(fd, w, h, so, i, w * h);
            lemma_fixed_sweep(fd, w, h, so, i + 1, w * h);
            assert(update_cell(fd, w, h, so, i) == so);
        }
        assert forall|i: int| 0 <= i < w * h implies (#[trigger] so[i] > 0) == (flow_accumulation@[i] >= flow_threshold) by {
            assert(so[i] == 0 <==> init[i] == 0);
        }
    }
    stream_order
}

/// Directions with the same offset are the same direction.
proof fn lemma_offset_determines(a: FlowDirection, b: FlowDirection)
    requires
        a.dx() == b.dx(),
        a.dy() == b.dy(),
    ensures
        a == b,
{
    match a {
        FlowDirection::NoFlow => { match b { FlowDirection::NoFlow => {}, _ => {} } },
        _ => {},
    }
}

/// A positive upstream contribution comes from a tributary: a cell of the
/// grid that drains into `i`, in the direction the contribution looks at,
/// carrying that order.
proof fn lemma_contribution_source(fd: Seq<FlowDirection>, w: int, h: int, so: Seq<u8>, i: int, kk: int) -> (j: int)
    requires
        grid_ok(fd, w, h),
        so.len() == w * h,
        0 <= i < w * h,
        0 <= kk < 8,
        upstream_order(fd, w, h, so, i, kk) > 0,
    ensures
        0 <= j < w * h,
        flows_into(fd, w, h, j, i),
        so[j] == upstream_order(fd, w, h, so, i, kk),
        FlowDirection::all_spec()[kk] == fd[j],
{
    let d = FlowDirection::all_spec()[kk];
    lemma_back_neighbor_in_range(w, h, i, d);
    let j = back_neighbor(w, h, i, d)->0;
    lemma_pred_is_back_neighbor(fd, w, h, j, i);
    lemma_coords(i, w, h);
    lemma_coords(j, w, h);
    let e = fd[j];
    lemma_idx(j % w + e.dx(), j / w + e.dy(), w, h);
    lemma_idx(i % w - d.dx(), i / w - d.dy(), w, h);
    lemma_offset_determines(d, e);
    j
}

/// A tributary of `i` is seen in the direction it flows in, with its order.
proof fn lemma_tributary_contribution(fd: Seq<FlowDirection>, w: int, h: int, so: Seq<u8>, i: int, j: int) -> (kk: int)
    requires
        grid_ok(fd, w, h),
        so.len() == w * h,
        0 <= i < w * h,
        0 <= j < w * h,
        flows_into(fd, w, h, j, i),
    ensures
        0 <= kk < 8,
        FlowDirection::all_spec()[kk] == fd[j],
        back_neighbor(w, h, i, fd[j]) == Some(j),
        upstream_order(fd, w, h, so, i, kk) == so[j],
{
    lemma_pred_is_back_neighbor(fd, w, h, j, i);
    lemma_all_directions(fd[j]);
    let kk = choose|kk: int| 0 <= kk < 8 && #[trigger] FlowDirection::all_spec()[kk] == fd[j];
    kk
}

proof fn lemma_max_upstream(fd: Seq<FlowDirection>, w: int, h: int, so: Seq<u8>, i: int, k: int)
    requires
        0 <= k <= 8,
    ensures
        forall|kk: int| 0 <= kk < k ==> #[trigger] upstream_order(fd, w, h, so, i, kk) <= max_upstream(fd, w, h, so, i, k),
        max_upstream(fd, w, h, so, i, k) == 0 || exists|kk: int|
            0 <= kk < k && #[trigger] upstream_order(fd, w, h, so, i, kk) == max_upstream(fd, w, h, so, i, k),
    decreases k,
{
    if k > 0 {
        lemma_max_upstream(fd, w, h, so, i, k - 1);
    }
}

proof fn lemma_count_at_least(fd: Seq<FlowDirection>, w: int, h: int, so: Seq<u8>, i: int, k: int, v: u8, a: int, b: int)
    requires
        0 <= k <= 8,
        v > 0,
        a != b,
        0 <= a < 8,
        0 <= b < 8,
        upstream_order(fd, w, h, so, i, a) == v,
        upstream_order(fd, w, h, so, i, b) == v,
    ensures
        count_upstream(fd, w, h, so, i, k, v) >= (if a < k { 1int } else { 0int }) + (if b < k { 1int } else { 0int }),
    decreases k,
{
    if k > 0 {
        lemma_count_at_least(fd, w, h, so, i, k - 1, v, a, b);
    }
}

proof fn lemma_count_at_most_one(fd: Seq<FlowDirection>, w: int, h: int, so: Seq<u8>, i: int, k: int, v: u8, a: int)
    requires
        0 <= k <= 8,
        forall|kk: int| 0 <= kk < 8 && #[trigger] upstream_order(fd, w, h, so, i, kk) == v ==> kk == a,
    ensures
        count_upstream(fd, w, h, so, i, k, v) <= (if 0 <= a < k { 1int } else { 0int }),
    decreases k,
{
    if k > 0 {
        lemma_count_at_most_one(fd, w, h, so, i, k - 1, v, a);
    }
}

/// Law of stream order (Strahler rule), on the tributaries themselves: a
/// river cell into which two distinct river cells of order `m` drain, with
/// no tributary of higher order, has order `m + 1` (255 at most).
pub proof fn lemma_two_equal_tributaries_raise_order(
    fd: Seq<FlowDirection>,
    w: int,
    h: int,
    flow: Seq<u32>,
    threshold: u32,
    so: Seq<u8>,
    i: int,
    a: int,
    b: int,
)
    requires
        grid_ok(fd, w, h),
        is_stream_order(fd, w, h, flow, threshold, so),
        0 <= i < w * h,
        so[i] > 0,
        0 <= a < w * h,
        0 <= b < w * h,
        a != b,
        succ(fd, w, h, a) == Some(i),
        succ(fd, w, h, b) == Some(i),
        so[a] > 0,
        so[a] == so[b],
        forall|j: int| 0 <= j < w * h && #[trigger] succ(fd, w, h, j) == Some(i) ==> so[j] <= so[a],
    ensures
        so[i] == if so[a] == 255 { 255 } else { so[a] + 1 },
{
    let ka = lemma_tributary_contribution(fd, w, h, so, i, a);
    let kb = lemma_tributary_contribution(fd, w, h, so, i, b);
    assert(ka != kb);
    lemma_max_upstream(fd, w, h, so, i, 8);
    let m = max_upstream(fd, w, h, so, i, 8);
    if m > so[a] {
        let kk = choose|kk: int| 0 <= kk < 8 && #[trigger] upstream_order(fd, w, h, so, i, kk) == m;
        let j = lemma_contribution_source(fd, w, h, so, i, kk);
    }
    assert(m == so[a]);
    lemma_count_at_least(fd, w, h, so, i, 8, so[a], ka, kb);
}

/// Law of stream order (Strahler rule), on the tributaries themselves: a
/// river cell with one tributary of order `m` and every other tributary of
/// lower order has order `m`.
pub proof fn lemma_single_highest_tributary_carries_order(
    fd: Seq<FlowDirection>,
    w: int,
    h: int,
    flow: Seq<u32>,
    threshold: u32,
    so: Seq<u8>,
    i: int,
    a: int,
)
    requires
        grid_ok(fd, w, h),
        is_stream_order(fd, w, h, flow, threshold, so),
        0 <= i < w * h,
        so[i] > 0,
        0 <= a < w * h,
        succ(fd, w, h, a) == Some(i),
        so[a] > 0,
        forall|j: int| 0 <= j < w * h && j != a && #[trigger] succ(fd, w, h, j) == Some(i) ==> so[j] < so[a],
    ensures
        so[i] == so[a],
{
    let ka = lemma_tributary_contribution(fd, w, h, so, i, a);
    lemma_max_upstream(fd, w, h, so, i, 8);
    let m = max_upstream(fd, w, h, so, i, 8);
    if m > so[a] {
        let kk = choose|kk: int| 0 <= kk < 8 && #[trigger] upstream_order(fd, w, h, so, i, kk) == m;
        let j = lemma_contribution_source(fd, w, h, so, i, kk);
    }
    assert(m == so[a]);
    assert forall|kk: int| 0 <= kk < 8 && #[trigger] upstream_order(fd, w, h, so, i, kk) == m implies kk == ka by {
        let j = lemma_contribution_source(fd, w, h, so, i, kk);
        if j != a {
            assert(so[j] < so[a]);
        }
        assert(FlowDirection::all_spec()[kk] == FlowDirection::all_spec()[ka]);
        let s = FlowDirection::all_spec();
        assert(s[0] != s[1] && s[0] != s[2] && s[0] != s[3] && s[0] != s[4] && s[0] != s[5] && s[0] != s[6] && s[0] != s[7]);
        assert(s[1] != s[2] && s[1] != s[3] && s[1] != s[4] && s[1] != s[5] && s[1] != s[6] && s[1] != s[7]);
        assert(s[2] != s[3] && s[2] != s[4] && s[2] != s[5] && s[2] != s[6] && s[2] != s[7]);
        assert(s[3] != s[4] && s[3] != s[5] && s[3] != s[6] && s[3] != s[7]);
        assert(s[4] != s[5] && s[4] != s[6] && s[4] != s[7]);
        assert(s[5] != s[6] && s[5] != s[7]);
        assert(s[6] != s[7]);
    }
    lemma_count_at_most_one(fd, w, h, so, i, 8, m, ka);
}

/// Law of stream order: a river cell into which no river cell drains has
/// order 1.
pub proof fn lemma_headwater_order_one(
    fd: Seq<FlowDirection>,
    w: int,
    h: int,
    flow: Seq<u32>,
    threshold: u32,
    so: Seq<u8>,
    i: int,
)
    requires
        grid_ok(fd, w, h),
        is_stream_order(fd, w, h, flow, threshold, so),
        0 <= i < w * h,
        so[i] > 0,
        forall|j: int| 0 <= j < w * h && #[trigger] succ(fd, w, h, j) == Some(i) ==> so[j] == 0,
    ensures
        so[i] == 1,
{
    lemma_max_upstream(fd, w, h, so, i, 8);
    let m = max_upstream(fd, w, h, so, i, 8);
    if m > 0 {
        let kk = choose|kk: int| 0 <= kk < 8 && #[trigger] upstream_order(fd, w, h, so, i, kk) == m;
        let j = lemma_contribution_source(fd, w, h, so, i, kk);
    }
}

} // verus!
