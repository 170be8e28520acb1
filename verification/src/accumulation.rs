//! Flow accumulation: how much water each cell carries when every cell
//! contributes one unit and passes everything it carries downstream.

use vstd::prelude::*;
use crate::direction::FlowDirection;
use crate::grid::{
    downstream, flows_into, grid_ok, lemma_coords, lemma_idx, lemma_succ_in_range, lemma_walk_in_range, lemma_walk_last, succ,
    walk,
};
use crate::paths::filled;
use crate::sums::{
    col_sum, lemma_sum_add, lemma_sum_congruent, lemma_sum_le, lemma_sum_single, lemma_sum_swap, lemma_sum_zero, row_sum,
    sum_to, total_by_cols, total_by_rows,
};

verus! {

/// Whether cell `i` lies on a cycle of the flow.
pub open spec fn on_cycle(fd: Seq<FlowDirection>, w: int, h: int, i: int) -> bool {
    exists|k: nat| k >= 1 && #[trigger] walk(fd, w, h, i, k) == Some(i)
}

/// Cells that do not lie on a cycle of the flow: the cells whose
/// accumulated flow is passed on downstream.
pub open spec fn settled(fd: Seq<FlowDirection>, w: int, h: int) -> Seq<bool> {
    Seq::new((w * h) as nat, |j: int| !on_cycle(fd, w, h, j))
}

/// Number of cells `j < k` selected by `sel` that drain into `i`.
pub open spec fn count_preds(fd: Seq<FlowDirection>, w: int, h: int, sel: Seq<bool>, i: int, k: int) -> nat
    decreases k,
{
    if k <= 0 {
        0
    } else {
        count_preds(fd, w, h, sel, i, k - 1) + if sel[k - 1] && succ(fd, w, h, k - 1) == Some(i) {
            1nat
        } else {
            0nat
        }
    }
}

/// Sum of `acc[j]` over the cells `j < k` selected by `sel` that drain into
/// `i`.
pub open spec fn inflow(fd: Seq<FlowDirection>, w: int, h: int, acc: Seq<usize>, sel: Seq<bool>, i: int, k: int) -> int
    decreases k,
{
    if k <= 0 {
        0
    } else {
        inflow(fd, w, h, acc, sel, i, k - 1) + if sel[k - 1] && succ(fd, w, h, k - 1) == Some(i) {
            acc[k - 1] as int
        } else {
            0
        }
    }
}

/// Sum of `acc[j]` over the cells `j < k` that `done` does not select.
spec fn open_sum(acc: Seq<usize>, done: Seq<bool>, k: int) -> int
    decreases k,
{
    if k <= 0 {
        0
    } else {
        open_sum(acc, done, k - 1) + if done[k - 1] { 0 } else { acc[k - 1] as int }
    }
}

/// Number of cells `j < k` not yet queued (`pos[j] < 0`).
spec fn count_unqueued(pos: Seq<int>, k: int) -> nat
    decreases k,
{
    if k <= 0 {
        0
    } else {
        count_unqueued(pos, k - 1) + if pos[k - 1] < 0 { 1nat } else { 0nat }
    }
}

proof fn lemma_count_preds_pop(fd: Seq<FlowDirection>, w: int, h: int, sel: Seq<bool>, p: int, i: int, k: int)
    requires
        0 <= p < sel.len(),
        k <= sel.len(),
    ensures
        count_preds(fd, w, h, sel.update(p, false), i, k) + (if p < k && sel[p] && succ(fd, w, h, p) == Some(i) {
            1nat
        } else {
            0nat
        }) == count_preds(fd, w, h, sel, i, k),
    decreases k,
{
    if k > 0 {
        lemma_count_preds_pop(fd, w, h, sel, p, i, k - 1);
    }
}

proof fn lemma_count_preds_zero(fd: Seq<FlowDirection>, w: int, h: int, sel: Seq<bool>, i: int, k: int, j: int)
    requires
        0 <= j < k,
        count_preds(fd, w, h, sel, i, k) == 0,
    ensures
        !(sel[j] && succ(fd, w, h, j) == Some(i)),
    decreases k,
{
    if j < k - 1 {
        lemma_count_preds_zero(fd, w, h, sel, i, k - 1, j);
    }
}

proof fn lemma_count_preds_pos(fd: Seq<FlowDirection>, w: int, h: int, sel: Seq<bool>, i: int, k: int) -> (j: int)
    requires
        count_preds(fd, w, h, sel, i, k) > 0,
    ensures
        0 <= j < k,
        sel[j],
        succ(fd, w, h, j) == Some(i),
    decreases k,
{
    if sel[k - 1] && succ(fd, w, h, k - 1) == Some(i) {
        k - 1
    } else {
        lemma_count_preds_pos(fd, w, h, sel, i, k - 1)
    }
}

proof fn lemma_inflow_none(fd: Seq<FlowDirection>, w: int, h: int, acc: Seq<usize>, sel: Seq<bool>, i: int, k: int)
    requires
        forall|j: int| 0 <= j < k ==> !sel[j],
    ensures
        inflow(fd, w, h, acc, sel, i, k) == 0,
    decreases k,
{
    if k > 0 {
        lemma_inflow_none(fd, w, h, acc, sel, i, k - 1);
    }
}

/// Marking `p` done and changing the accumulation of a cell that is not done
/// adds `acc[p]` to the inflow of the cell `p` drains into, and nothing else.
proof fn lemma_inflow_pop(
    fd: Seq<FlowDirection>,
    w: int,
    h: int,
    acc: Seq<usize>,
    sel: Seq<bool>,
    p: int,
    s: int,
    v: usize,
    i: int,
    k: int,
)
    requires
        acc.len() == sel.len(),
        0 <= p < sel.len(),
        0 <= s < sel.len(),
        !sel[p],
        !sel[s],
        s != p || v == acc[s],
        k <= sel.len(),
    ensures
        inflow(fd, w, h, acc.update(s, v), sel.update(p, true), i, k) == inflow(fd, w, h, acc, sel, i, k) + (
        if p < k && succ(fd, w, h, p) == Some(i) {
            acc[p] as int
        } else {
            0
        }),
    decreases k,
{
    if k > 0 {
        lemma_inflow_pop(fd, w, h, acc, sel, p, s, v, i, k - 1);
        let a = acc.update(s, v);
        let b = sel.update(p, true);
        if k - 1 == p {
            assert(b[k - 1]);
            assert(a[k - 1] == acc[p]);
        } else if k - 1 == s {
            assert(!b[k - 1]);
            assert(!sel[k - 1]);
        } else {
            assert(a[k - 1] == acc[k - 1]);
            assert(b[k - 1] == sel[k - 1]);
        }
    }
}

proof fn lemma_open_sum_pop(acc: Seq<usize>, done: Seq<bool>, p: int, s: int, v: usize, k: int)
    requires
        acc.len() == done.len(),
        0 <= p < done.len(),
        0 <= s < done.len(),
        !done[p],
        !done[s],
        p != s,
        k <= done.len(),
    ensures
        open_sum(acc.update(s, v), done.update(p, true), k) == open_sum(acc, done, k) - (if p < k {
            acc[p] as int
        } else {
            0
        }) + (if s < k {
            v - acc[s]
        } else {
            0
        }),
    decreases k,
{
    if k > 0 {
        lemma_open_sum_pop(acc, done, p, s, v, k - 1);
    }
}

proof fn lemma_open_sum_done(acc: Seq<usize>, done: Seq<bool>, p: int, k: int)
    requires
        acc.len() == done.len(),
        0 <= p < done.len(),
        !done[p],
        k <= done.len(),
    ensures
        open_sum(acc, done.update(p, true), k) == open_sum(acc, done, k) - (if p < k {
            acc[p] as int
        } else {
            0
        }),
    decreases k,
{
    if k > 0 {
        lemma_open_sum_done(acc, done, p, k - 1);
    }
}

proof fn lemma_open_sum_two(acc: Seq<usize>, done: Seq<bool>, a: int, b: int, k: int)
    requires
        acc.len() == done.len(),
        0 <= a < k,
        0 <= b < k,
        a != b,
        !done[a],
        !done[b],
        k <= done.len(),
    ensures
        open_sum(acc, done, k) >= acc[a] + acc[b],
    decreases k,
{
    lemma_open_sum_nonneg(acc, done, k - 1);
    if a < k - 1 && b < k - 1 {
        lemma_open_sum_two(acc, done, a, b, k - 1);
    } else if a < k - 1 {
        lemma_open_sum_one(acc, done, a, k - 1);
    } else {
        lemma_open_sum_one(acc, done, b, k - 1);
    }
}

proof fn lemma_open_sum_one(acc: Seq<usize>, done: Seq<bool>, a: int, k: int)
    requires
        acc.len() == done.len(),
        0 <= a < k,
        !done[a],
        k <= done.len(),
    ensures
        open_sum(acc, done, k) >= acc[a],
    decreases k,
{
    lemma_open_sum_nonneg(acc, done, k - 1);
    if a < k - 1 {
        lemma_open_sum_one(acc, done, a, k - 1);
    }
}

proof fn lemma_open_sum_nonneg(acc: Seq<usize>, done: Seq<bool>, k: int)
    ensures
        open_sum(acc, done, k) >= 0,
    decreases k,
{
    if k > 0 {
        lemma_open_sum_nonneg(acc, done, k - 1);
    }
}

proof fn lemma_open_sum_ones(acc: Seq<usize>, done: Seq<bool>, k: int)
    requires
        0 <= k <= acc.len(),
        forall|j: int| 0 <= j < k ==> acc[j] == 1 && !done[j],
    ensures
        open_sum(acc, done, k) == k,
    decreases k,
{
    if k > 0 {
        lemma_open_sum_ones(acc, done, k - 1);
    }
}

proof fn lemma_count_unqueued_set(pos: Seq<int>, s: int, t: int, k: int)
    requires
        0 <= s < pos.len(),
        pos[s] < 0,
        t >= 0,
        k <= pos.len(),
    ensures
        count_unqueued(pos.update(s, t), k) + (if s < k { 1nat } else { 0nat }) == count_unqueued(pos, k),
    decreases k,
{
    if k > 0 {
        lemma_count_unqueued_set(pos, s, t, k - 1);
    }
}

/// Following the flow `a + b` times is following it `a` times, then `b` times.
pub proof fn lemma_walk_add(fd: Seq<FlowDirection>, w: int, h: int, i: int, a: nat, b: nat)
    ensures
        walk(fd, w, h, i, a + b) == (match walk(fd, w, h, i, a) {
            Some(c) => walk(fd, w, h, c, b),
            None => None,
        }),
    decreases a,
{
    if a > 0 {
        if let Some(n) = succ(fd, w, h, i) {
            lemma_walk_add(fd, w, h, n, (a - 1) as nat, b);
            assert((a - 1) as nat + b == (a + b - 1) as nat);
        }
    }
}

/// In a queue order where every queued cell comes after all cells draining
/// into it, every cell upstream of a queued cell is queued before it.
proof fn lemma_upstream_earlier(fd: Seq<FlowDirection>, w: int, h: int, pos: Seq<int>, j: int, c: int, k: nat)
    requires
        grid_ok(fd, w, h),
        pos.len() == w * h,
        0 <= j < w * h,
        0 <= c < w * h,
        k >= 1,
        walk(fd, w, h, j, k) == Some(c),
        pos[c] >= 0,
        forall|i: int, p: int|
            0 <= i < w * h && 0 <= p < w * h && pos[i] >= 0 && #[trigger] flows_into(fd, w, h, p, i) ==> 0 <= pos[p]
                < pos[i],
    ensures
        0 <= pos[j] < pos[c],
    decreases k,
{
    let n = succ(fd, w, h, j)->0;
    lemma_succ_in_range(fd, w, h, j);
    assert(flows_into(fd, w, h, j, n));
    if k == 1 {
        assert(n == c);
    } else {
        lemma_upstream_earlier(fd, w, h, pos, n, c, (k - 1) as nat);
    }
}

/// A chain of cells, each draining into the previous one, that stays among
/// the cells `done` does not select.
spec fn up_chain(fd: Seq<FlowDirection>, w: int, h: int, done: Seq<bool>, i: int, t: nat) -> int
    decreases t,
{
    if t == 0 {
        i
    } else {
        let c = up_chain(fd, w, h, done, i, (t - 1) as nat);
        choose|j: int| 0 <= j < w * h && !done[j] && flows_into(fd, w, h, j, c)
    }
}

proof fn lemma_up_chain(fd: Seq<FlowDirection>, w: int, h: int, done: Seq<bool>, i: int, q: nat)
    requires
        grid_ok(fd, w, h),
        done.len() == w * h,
        0 <= i < w * h,
        !done[i],
        forall|c: int|
            0 <= c < w * h && !done[c] ==> exists|j: int| 0 <= j < w * h && !done[j] && #[trigger] flows_into(fd, w, h, j, c),
    ensures
        0 <= up_chain(fd, w, h, done, i, q) < w * h,
        !done[up_chain(fd, w, h, done, i, q)],
        forall|p: nat| p <= q ==> #[trigger] walk(fd, w, h, up_chain(fd, w, h, done, i, q), (q - p) as nat) == Some(
            up_chain(fd, w, h, done, i, p),
        ),
    decreases q,
{
    if q > 0 {
        lemma_up_chain(fd, w, h, done, i, (q - 1) as nat);
        let c = up_chain(fd, w, h, done, i, (q - 1) as nat);
        let a = up_chain(fd, w, h, done, i, q);
        assert(exists|j: int| 0 <= j < w * h && !done[j] && #[trigger] flows_into(fd, w, h, j, c));
        assert forall|p: nat| p <= q implies #[trigger] walk(fd, w, h, a, (q - p) as nat) == Some(
            up_chain(fd, w, h, done, i, p),
        ) by {
            if p < q {
                assert(walk(fd, w, h, c, ((q - 1) as nat - p) as nat) == Some(up_chain(fd, w, h, done, i, p)));
                assert((q - p) as nat == (((q - 1) as nat - p) as nat + 1) as nat);
            }
        }
    }
}

/// If every cell not selected by `done` has a predecessor that is not
/// selected either, every cell not selected lies on a cycle.
proof fn lemma_unsettled_on_cycle(fd: Seq<FlowDirection>, w: int, h: int, done: Seq<bool>, i: int)
    requires
        grid_ok(fd, w, h),
        done.len() == w * h,
        0 <= i < w * h,
        !done[i],
        forall|c: int|
            0 <= c < w * h && !done[c] ==> exists|j: int| 0 <= j < w * h && !done[j] && #[trigger] flows_into(fd, w, h, j, c),
    ensures
        on_cycle(fd, w, h, i),
{
    let n = w * h;
    let chain = Seq::new((n + 1) as nat, |t: int| up_chain(fd, w, h, done, i, t as nat));
    assert forall|t: int| 0 <= t < chain.len() implies 0 <= #[trigger] chain[t] < n by {
        lemma_up_chain(fd, w, h, done, i, t as nat);
    }
    if chain.no_duplicates() {
        chain.unique_seq_to_set();
        assert(chain.to_set().subset_of(vstd::set_lib::set_int_range(0, n)));
        vstd::set_lib::lemma_int_range(0, n);
        vstd::set_lib::lemma_len_subset(chain.to_set(), vstd::set_lib::set_int_range(0, n));
        assert(false);
    }
    let (p, q) = choose|p: int, q: int| 0 <= p < chain.len() && 0 <= q < chain.len() && p != q && chain[p] == chain[q];
    let (p, q) = if p < q { (p, q) } else { (q, p) };
    lemma_up_chain(fd, w, h, done, i, q as nat);
    let a = chain[q];
    let len = (q - p) as nat;
    assert(walk(fd, w, h, a, len) == Some(a)) by {
        assert(walk(fd, w, h, a, (q as nat - p as nat) as nat) == Some(up_chain(fd, w, h, done, i, p as nat)));
    }
    assert(walk(fd, w, h, a, q as nat) == Some(i)) by {
        assert(walk(fd, w, h, a, (q as nat - 0nat) as nat) == Some(up_chain(fd, w, h, done, i, 0)));
    }
    lemma_walk_add(fd, w, h, a, len, q as nat);
    lemma_walk_add(fd, w, h, a, q as nat, len);
    assert(len + q as nat == q as nat + len);
    assert(walk(fd, w, h, i, len) == Some(i));
}

/// Calculate flow accumulation using upstream area counting.
///
/// Every cell starts with one unit of flow; cells are visited in
/// topological order and pass what they carry to the cell they drain into.
/// A cell on a cycle of the flow never becomes ready, so it passes nothing on.
/// The result is the unique solution of
/// `acc[i] == 1 + sum of acc[j] over the settled cells j draining into i`.
pub fn calculate_flow_accumulation(flow_direction: &Vec<FlowDirection>, width: usize, height: usize) -> (accumulation:
    Vec<usize>)
    requires
        grid_ok(flow_direction@, width as int, height as int),
    ensures
        accumulation.len() == width * height,
        forall|i: int|
            0 <= i < width * height ==> #[trigger] accumulation[i] == 1 + inflow(
                flow_direction@,
                width as int,
                height as int,
                accumulation@,
                settled(flow_direction@, width as int, height as int),
                i,
                width * height,
            ),
{
    let ghost fd = flow_direction@;
    let ghost (w, h) = (width as int, height as int);
    let n = flow_direction.len();
    let ghost all = Seq::new(n as nat, |j: int| true);
    let mut in_degree: Vec<usize> = filled(0, n);

    // Calculate in-degree for each cell (how many cells flow into it).
    let mut j: usize = 0;
    while j < n
        invariant
            fd == flow_direction@,
            grid_ok(fd, w, h),
            w == width,
            h == height,
            n == w * h,
            all == Seq::new(n as nat, |j: int| true),
            j <= n,
            in_degree.len() == n,
            forall|i: int| 0 <= i < n ==> #[trigger] in_degree[i] == count_preds(fd, w, h, all, i, j as int),
            forall|i: int| 0 <= i < n ==> #[trigger] in_degree[i] <= j,
        decreases n - j,
    {
        let x = j % width;
        let y = j / width;
        proof {
            lemma_coords(j as int, w, h);
        }
        match downstream(flow_direction, x, y, width, height) {
            Some((nx, ny)) => {
                proof {
                    lemma_idx(nx as int, ny as int, w, h);
                }
                let s = ny * width + nx;
                in_degree.set(s, in_degree[s] + 1);
            },
            None => {},
        }
        j = j + 1;
    }

    // Start with cells that have no upstream neighbors.
    let mut accumulation: Vec<usize> = filled(1, n);
    let mut queue: Vec<usize> = Vec::new();
    let ghost mut pos: Seq<int> = Seq::new(n as nat, |j: int| -1);
    let mut j: usize = 0;
    while j < n
        invariant
            fd == flow_direction@,
            grid_ok(fd, w, h),
            w == width,
            h == height,
            n == w * h,
            all == Seq::new(n as nat, |j: int| true),
            j <= n,
            in_degree.len() == n,
            forall|i: int| 0 <= i < n ==> #[trigger] in_degree[i] == count_preds(fd, w, h, all, i, n as int),
            pos.len() == n,
            queue.len() <= j,
            forall|t: int| 0 <= t < queue.len() ==> #[trigger] queue[t] < n && pos[queue[t] as int] == t,
            forall|i: int| 0 <= i < n && #[trigger] pos[i] >= 0 ==> pos[i] < queue.len() && queue[pos[i]] == i,
            forall|i: int| 0 <= i < n ==> (#[trigger] pos[i] >= 0 <==> i < j && in_degree[i] == 0),
        decreases n - j,
    {
        if in_degree[j] == 0 {
            proof {
                pos = pos.update(j as int, queue.len() as int);
            }
            queue.push(j);
        }
        j = j + 1;
    }

    let ghost mut done: Seq<bool> = Seq::new(n as nat, |j: int| false);
    proof {
        assert(all =~= Seq::new(n as nat, |j: int| !done[j]));
        assert forall|i: int| 0 <= i < n implies #[trigger] accumulation[i] == 1 + inflow(fd, w, h, accumulation@, done, i, n as int) by {
            lemma_inflow_none(fd, w, h, accumulation@, done, i, n as int);
        }
        lemma_open_sum_ones(accumulation@, done, n as int);
        assert forall|c: int, p: int|
            0 <= c < n && 0 <= p < n && pos[c] >= 0 && #[trigger] flows_into(fd, w, h, p, c) implies 0 <= pos[p] < pos[c] by {
            lemma_count_preds_zero(fd, w, h, all, c, n as int, p);
        }
    }
    let mut head: usize = 0;

    // Use topological sort to accumulate flow.
    while head < queue.len()
        invariant
            fd == flow_direction@,
            grid_ok(fd, w, h),
            w == width,
            h == height,
            n == w * h,
            head <= queue.len(),
            in_degree.len() == n,
            accumulation.len() == n,
            pos.len() == n,
            done.len() == n,
            forall|t: int| 0 <= t < queue.len() ==> #[trigger] queue[t] < n && pos[queue[t] as int] == t,
            forall|i: int| 0 <= i < n && #[trigger] pos[i] >= 0 ==> pos[i] < queue.len() && queue[pos[i]] == i,
            forall|i: int| 0 <= i < n ==> (#[trigger] done[i] <==> 0 <= pos[i] < head),
            forall|i: int|
                0 <= i < n ==> #[trigger] in_degree[i] == count_preds(
                    fd,
                    w,
                    h,
                    Seq::new(n as nat, |j: int| !done[j]),
                    i,
                    n as int,
                ),
            forall|i: int| 0 <= i < n ==> (#[trigger] pos[i] >= 0 <==> in_degree[i] == 0),
            forall|c: int, p: int|
                0 <= c < n && 0 <= p < n && pos[c] >= 0 && #[trigger] flows_into(fd, w, h, p, c) ==> 0 <= pos[p]
                    < pos[c],
            forall|i: int|
                0 <= i < n ==> #[trigger] accumulation[i] == 1 + inflow(fd, w, h, accumulation@, done, i, n as int),
            forall|i: int| 0 <= i < n ==> #[trigger] accumulation[i] <= n,
            open_sum(accumulation@, done, n as int) <= n,
        decreases 2 * count_unqueued(pos, n as int) + (queue.len() - head),
    {
        let cur = queue[head];
        let ghost done0 = done;
        let ghost acc0 = accumulation@;
        let ghost pos0 = pos;
        let ghost open0 = Seq::new(n as nat, |j: int| !done0[j]);
        proof {
            assert(!done[cur as int]);
            done = done.update(cur as int, true);
            assert(Seq::new(n as nat, |j: int| !done[j]) =~= open0.update(cur as int, false));
        }
        head = head + 1;
        let x = cur % width;
        let y = cur / width;
        proof {
            lemma_coords(cur as int, w, h);
        }
        match downstream(flow_direction, x, y, width, height) {
            Some((nx, ny)) => {
                proof {
                    lemma_idx(nx as int, ny as int, w, h);
                }
                let s = ny * width + nx;
                let ghost open1 = Seq::new(n as nat, |j: int| !done[j]);
                proof {
                    assert(flows_into(fd, w, h, cur as int, s as int));
                    lemma_count_preds_pop(fd, w, h, open0, cur as int, s as int, n as int);
                    assert(in_degree[s as int] >= 1);
                    assert(pos[s as int] < 0);
                    assert(!done0[s as int]);
                    assert(s != cur);
                    lemma_open_sum_two(acc0, done0, cur as int, s as int, n as int);
                }
                accumulation.set(s, accumulation[s] + accumulation[cur]);
                in_degree.set(s, in_degree[s] - 1);
                proof {
                    assert(accumulation@ =~= acc0.update(s as int, (acc0[s as int] + acc0[cur as int]) as usize));
                    lemma_open_sum_pop(acc0, done0, cur as int, s as int, accumulation[s as int], n as int);
                    assert forall|i: int|
                        0 <= i < n implies #[trigger] in_degree[i] == count_preds(fd, w, h, open1, i, n as int) by {
                        lemma_count_preds_pop(fd, w, h, open0, cur as int, i, n as int);
                    }
                    assert forall|i: int|
                        0 <= i < n implies #[trigger] accumulation[i] == 1 + inflow(fd, w, h, accumulation@, done, i, n as int) by {
                        lemma_inflow_pop(fd, w, h, acc0, done0, cur as int, s as int, accumulation[s as int], i, n as int);
                    }
                }
                if in_degree[s] == 0 {
                    proof {
                        lemma_count_unqueued_set(pos, s as int, queue.len() as int, n as int);
                        assert forall|p: int| 0 <= p < n && #[trigger] flows_into(fd, w, h, p, s as int) implies 0 <= pos[p]
                            < queue.len() by {
                            lemma_count_preds_zero(fd, w, h, open1, s as int, n as int, p);
                        }
                        pos = pos.update(s as int, queue.len() as int);
                    }
                    queue.push(s);
                }
            },
            None => {
                proof {
                    lemma_open_sum_done(acc0, done0, cur as int, n as int);
                    assert forall|i: int|
                        0 <= i < n implies #[trigger] in_degree[i] == count_preds(
                            fd,
                            w,
                            h,
                            Seq::new(n as nat, |j: int| !done[j]),
                            i,
                            n as int,
                        ) by {
                        lemma_count_preds_pop(fd, w, h, open0, cur as int, i, n as int);
                    }
                    assert forall|i: int|
                        0 <= i < n implies #[trigger] accumulation[i] == 1 + inflow(fd, w, h, accumulation@, done, i, n as int) by {
                        lemma_inflow_pop(fd, w, h, acc0, done0, cur as int, cur as int, acc0[cur as int], i, n as int);
                        assert(acc0.update(cur as int, acc0[cur as int]) =~= acc0);
                    }
                }
            },
        }
    }

    proof {
        // Every queued cell has been visited, and every unvisited cell still
        // has an unvisited cell draining into it, so it lies on a cycle.
        assert forall|c: int| 0 <= c < n && !done[c] implies exists|j: int|
            0 <= j < n && !done[j] && #[trigger] flows_into(fd, w, h, j, c) by {
            assert(pos[c] < 0);
            let j = lemma_count_preds_pos(fd, w, h, Seq::new(n as nat, |j: int| !done[j]), c, n as int);
            assert(flows_into(fd, w, h, j, c));
        }
        assert forall|i: int| 0 <= i < n implies #[trigger] done[i] == settled(fd, w, h)[i] by {
            if !done[i] {
                lemma_unsettled_on_cycle(fd, w, h, done, i);
            } else {
                if on_cycle(fd, w, h, i) {
                    let k = choose|k: nat| k >= 1 && #[trigger] walk(fd, w, h, i, k) == Some(i);
                    lemma_upstream_earlier(fd, w, h, pos, i, i, k);
                }
            }
        }
        assert(done =~= settled(fd, w, h));
    }
    accumulation
}

/// Whether the flow from `j` reaches cell `i` (`j == i` counts).
pub open spec fn drains_to(fd: Seq<FlowDirection>, w: int, h: int, j: int, i: int) -> bool {
    exists|k: nat| #[trigger] walk(fd, w, h, j, k) == Some(i)
}

/// Whether no cell of the grid lies on a cycle of the flow, as is the case
/// for directions that always point strictly downhill.
pub open spec fn acyclic(fd: Seq<FlowDirection>, w: int, h: int) -> bool {
    forall|i: int| 0 <= i < w * h ==> !#[trigger] on_cycle(fd, w, h, i)
}

/// Upstream area of cell `i`: the number of cells whose flow reaches it,
/// itself included.
pub open spec fn upstream_area(fd: Seq<FlowDirection>, w: int, h: int, i: int) -> int {
    sum_to(|j: int| if drains_to(fd, w, h, j, i) { 1int } else { 0int }, w * h)
}

proof fn lemma_inflow_as_sum(fd: Seq<FlowDirection>, w: int, h: int, acc: Seq<usize>, sel: Seq<bool>, i: int, m: int)
    requires
        forall|p: int| 0 <= p < m ==> #[trigger] sel[p],
    ensures
        inflow(fd, w, h, acc, sel, i, m) == sum_to(
            |p: int| if flows_into(fd, w, h, p, i) { acc[p] as int } else { 0int },
            m,
        ),
    decreases m,
{
    if m > 0 {
        lemma_inflow_as_sum(fd, w, h, acc, sel, i, m - 1);
    }
}

proof fn lemma_rows_as_sum(f: spec_fn(int, int) -> int, a: int, b: int)
    ensures
        total_by_rows(f, a, b) == sum_to(|j: int| row_sum(f, j, b), a),
    decreases a,
{
    if a > 0 {
        lemma_rows_as_sum(f, a - 1, b);
    }
}

proof fn lemma_cols_as_sum(f: spec_fn(int, int) -> int, a: int, b: int)
    ensures
        total_by_cols(f, a, b) == sum_to(|p: int| col_sum(f, p, a), b),
    decreases b,
{
    if b > 0 {
        lemma_cols_as_sum(f, a, b - 1);
    }
}

/// Reaching `i` twice, at two different step counts, puts `i` on a cycle.
proof fn lemma_reach_twice(fd: Seq<FlowDirection>, w: int, h: int, j: int, i: int, k1: nat, k2: nat)
    requires
        k1 < k2,
        walk(fd, w, h, j, k1) == Some(i),
        walk(fd, w, h, j, k2) == Some(i),
    ensures
        on_cycle(fd, w, h, i),
{
    lemma_walk_add(fd, w, h, j, k1, (k2 - k1) as nat);
    assert(k1 + (k2 - k1) as nat == k2);
    assert(walk(fd, w, h, i, (k2 - k1) as nat) == Some(i));
}

/// In an acyclic grid, the upstream area of a cell counts the cell itself
/// and, once each, the cells reaching one of its tributaries.
proof fn lemma_area_row(fd: Seq<FlowDirection>, w: int, h: int, i: int, j: int)
    requires
        grid_ok(fd, w, h),
        acyclic(fd, w, h),
        0 <= i < w * h,
        0 <= j < w * h,
    ensures
        (if drains_to(fd, w, h, j, i) { 1int } else { 0int }) == (if j == i { 1int } else { 0int }) + sum_to(
            |p: int| if flows_into(fd, w, h, p, i) && drains_to(fd, w, h, j, p) { 1int } else { 0int },
            w * h,
        ),
{
    let n = w * h;
    let g = |p: int| if flows_into(fd, w, h, p, i) && drains_to(fd, w, h, j, p) { 1int } else { 0int };
    assert(!on_cycle(fd, w, h, i));
    if j == i {
        assert(walk(fd, w, h, i, 0) == Some(i));
        assert forall|p: int| 0 <= p < n implies #[trigger] g(p) == 0 by {
            if flows_into(fd, w, h, p, i) && drains_to(fd, w, h, i, p) {
                let k = choose|k: nat| #[trigger] walk(fd, w, h, i, k) == Some(p);
                lemma_walk_last(fd, w, h, i, k);
                assert(walk(fd, w, h, i, k + 1) == Some(i));
            }
        }
        lemma_sum_zero(g, n);
    } else if drains_to(fd, w, h, j, i) {
        let k = choose|k: nat| #[trigger] walk(fd, w, h, j, k) == Some(i);
        assert(k >= 1);
        let k0 = (k - 1) as nat;
        lemma_walk_last(fd, w, h, j, k0);
        let p0 = walk(fd, w, h, j, k0)->0;
        lemma_walk_in_range(fd, w, h, j, k0);
        assert(flows_into(fd, w, h, p0, i));
        assert(drains_to(fd, w, h, j, p0));
        assert forall|p: int| 0 <= p < n && p != p0 implies #[trigger] g(p) == 0 by {
            if flows_into(fd, w, h, p, i) && drains_to(fd, w, h, j, p) {
                let kp = choose|kp: nat| #[trigger] walk(fd, w, h, j, kp) == Some(p);
                lemma_walk_last(fd, w, h, j, kp);
                if kp + 1 < k {
                    lemma_reach_twice(fd, w, h, j, i, kp + 1, k);
                } else if kp + 1 > k {
                    lemma_reach_twice(fd, w, h, j, i, k, kp + 1);
                }
                assert(kp == k0);
            }
        }
        lemma_sum_single(g, n, p0);
    } else {
        assert forall|p: int| 0 <= p < n implies #[trigger] g(p) == 0 by {
            if flows_into(fd, w, h, p, i) && drains_to(fd, w, h, j, p) {
                let kp = choose|kp: nat| #[trigger] walk(fd, w, h, j, kp) == Some(p);
                lemma_walk_last(fd, w, h, j, kp);
                assert(walk(fd, w, h, j, kp + 1) == Some(i));
            }
        }
        lemma_sum_zero(g, n);
    }
}

/// In an acyclic grid, the upstream area of a cell is one more than the sum
/// of the upstream areas of the cells draining into it.
proof fn lemma_area_recurrence(fd: Seq<FlowDirection>, w: int, h: int, i: int)
    requires
        grid_ok(fd, w, h),
        acyclic(fd, w, h),
        0 <= i < w * h,
    ensures
        upstream_area(fd, w, h, i) == 1 + sum_to(
            |p: int| if flows_into(fd, w, h, p, i) { upstream_area(fd, w, h, p) } else { 0int },
            w * h,
        ),
{
    let n = w * h;
    let f = |j: int, p: int| if flows_into(fd, w, h, p, i) && drains_to(fd, w, h, j, p) { 1int } else { 0int };
    let ind = |j: int| if drains_to(fd, w, h, j, i) { 1int } else { 0int };
    let self_ind = |j: int| if j == i { 1int } else { 0int };
    let rows = |j: int| row_sum(f, j, n);
    assert forall|j: int| 0 <= j < n implies #[trigger] ind(j) == (|j: int| self_ind(j) + rows(j))(j) by {
        lemma_area_row(fd, w, h, i, j);
        lemma_sum_congruent(
            |p: int| if flows_into(fd, w, h, p, i) && drains_to(fd, w, h, j, p) { 1int } else { 0int },
            |p: int| f(j, p),
            n,
        );
    }
    lemma_sum_congruent(ind, |j: int| self_ind(j) + rows(j), n);
    lemma_sum_add(self_ind, rows, n);
    lemma_sum_single(self_ind, n, i);
    lemma_rows_as_sum(f, n, n);
    lemma_sum_congruent(rows, |j: int| row_sum(f, j, n), n);
    lemma_sum_swap(f, n, n);
    lemma_cols_as_sum(f, n, n);
    let areas = |p: int| if flows_into(fd, w, h, p, i) { upstream_area(fd, w, h, p) } else { 0int };
    assert forall|p: int| 0 <= p < n implies #[trigger] col_sum(f, p, n) == areas(p) by {
        if flows_into(fd, w, h, p, i) {
            lemma_sum_congruent(
                |j: int| f(j, p),
                |j: int| if drains_to(fd, w, h, j, p) { 1int } else { 0int },
                n,
            );
        } else {
            lemma_sum_zero(|j: int| f(j, p), n);
        }
    }
    lemma_sum_congruent(|p: int| col_sum(f, p, n), areas, n);
    assert(upstream_area(fd, w, h, i) == sum_to(ind, n));
}

/// In an acyclic grid, a cell draining into `i` has a smaller upstream area.
proof fn lemma_area_shrinks(fd: Seq<FlowDirection>, w: int, h: int, p: int, i: int)
    requires
        grid_ok(fd, w, h),
        acyclic(fd, w, h),
        0 <= i < w * h,
        0 <= p < w * h,
        flows_into(fd, w, h, p, i),
    ensures
        0 <= upstream_area(fd, w, h, p) < upstream_area(fd, w, h, i),
{
    let n = w * h;
    let fp = |j: int| if drains_to(fd, w, h, j, p) { 1int } else { 0int };
    let fi = |j: int| if drains_to(fd, w, h, j, i) { 1int } else { 0int };
    assert forall|j: int| 0 <= j < n implies #[trigger] fp(j) <= fi(j) by {
        if drains_to(fd, w, h, j, p) {
            let k = choose|k: nat| #[trigger] walk(fd, w, h, j, k) == Some(p);
            lemma_walk_last(fd, w, h, j, k);
            assert(walk(fd, w, h, j, k + 1) == Some(i));
        }
    }
    assert(walk(fd, w, h, i, 0) == Some(i));
    assert(!on_cycle(fd, w, h, i));
    if drains_to(fd, w, h, i, p) {
        let k = choose|k: nat| #[trigger] walk(fd, w, h, i, k) == Some(p);
        lemma_walk_last(fd, w, h, i, k);
        assert(walk(fd, w, h, i, k + 1) == Some(i));
    }
    lemma_sum_le(fp, fi, n, i);
    lemma_sum_le(|j: int| 0int, fp, n, -1);
    lemma_sum_zero(|j: int| 0int, n);
}

/// Flow accumulation is upstream area: on a grid without cycles, the
/// accumulation that `calculate_flow_accumulation` computes for a cell is
/// the number of cells whose flow reaches it, the cell itself included.
pub proof fn lemma_accumulation_is_upstream_area(fd: Seq<FlowDirection>, w: int, h: int, acc: Seq<usize>, i: int)
    requires
        grid_ok(fd, w, h),
        acyclic(fd, w, h),
        acc.len() == w * h,
        forall|c: int|
            0 <= c < w * h ==> #[trigger] acc[c] == 1 + inflow(fd, w, h, acc, settled(fd, w, h), c, w * h),
        0 <= i < w * h,
    ensures
        acc[i] == upstream_area(fd, w, h, i),
    decreases upstream_area(fd, w, h, i),
{
    let n = w * h;
    assert forall|p: int| 0 <= p < n implies #[trigger] settled(fd, w, h)[p] by {}
    lemma_inflow_as_sum(fd, w, h, acc, settled(fd, w, h), i, n);
    let fa = |p: int| if flows_into(fd, w, h, p, i) { acc[p] as int } else { 0int };
    let fu = |p: int| if flows_into(fd, w, h, p, i) { upstream_area(fd, w, h, p) } else { 0int };
    assert forall|p: int| 0 <= p < n implies #[trigger] fa(p) == fu(p) by {
        if flows_into(fd, w, h, p, i) {
            lemma_area_shrinks(fd, w, h, p, i);
            lemma_accumulation_is_upstream_area(fd, w, h, acc, p);
        }
    }
    lemma_sum_congruent(fa, fu, n);
    lemma_area_recurrence(fd, w, h, i);
    assert(acc[i] == 1 + inflow(fd, w, h, acc, settled(fd, w, h), i, n));
}

} // verus!
