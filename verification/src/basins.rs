//! Drainage basins: two cells lie in one basin when their flow paths meet.
//! Each basin has outlets, cells from which the flow goes nowhere else: a
//! pit or edge where it stops, or the cycle it ends in.

use vstd::prelude::*;
use crate::direction::FlowDirection;
use crate::accumulation::{drains_to, lemma_walk_add};
use crate::grid::{downstream, grid_ok, idx, lemma_idx, lemma_walk_in_range, lemma_walk_last, lemma_walk_stops, succ, walk};

verus! {

/// Whether the flow paths from `a` and `b` meet: both drain to one cell.
pub open spec fn meets(fd: Seq<FlowDirection>, w: int, h: int, a: int, b: int) -> bool {
    exists|c: int| #[trigger] drains_to(fd, w, h, a, c) && drains_to(fd, w, h, b, c)
}

/// Whether `r` is an outlet of its basin: every cell it drains to drains
/// back to it (it is a pit or edge cell, or lies on a cycle).
pub open spec fn is_outlet(fd: Seq<FlowDirection>, w: int, h: int, r: int) -> bool {
    forall|d: int| #[trigger] drains_to(fd, w, h, r, d) ==> drains_to(fd, w, h, d, r)
}

pub proof fn lemma_drains_refl(fd: Seq<FlowDirection>, w: int, h: int, a: int)
    ensures
        drains_to(fd, w, h, a, a),
        meets(fd, w, h, a, a),
{
    assert(walk(fd, w, h, a, 0) == Some(a));
    assert(drains_to(fd, w, h, a, a));
}

pub proof fn lemma_drains_step(fd: Seq<FlowDirection>, w: int, h: int, a: int, b: int)
    requires
        succ(fd, w, h, a) == Some(b),
    ensures
        drains_to(fd, w, h, a, b),
        meets(fd, w, h, a, b),
{
    reveal_with_fuel(walk, 2);
    assert(walk(fd, w, h, a, 1) == Some(b));
    lemma_drains_refl(fd, w, h, b);
    assert(drains_to(fd, w, h, a, b) && drains_to(fd, w, h, b, b));
}

pub proof fn lemma_drains_trans(fd: Seq<FlowDirection>, w: int, h: int, a: int, b: int, c: int)
    requires
        drains_to(fd, w, h, a, b),
        drains_to(fd, w, h, b, c),
    ensures
        drains_to(fd, w, h, a, c),
{
    let k1 = choose|k: nat| #[trigger] walk(fd, w, h, a, k) == Some(b);
    let k2 = choose|k: nat| #[trigger] walk(fd, w, h, b, k) == Some(c);
    lemma_walk_add(fd, w, h, a, k1, k2);
    assert(walk(fd, w, h, a, k1 + k2) == Some(c));
}

/// Two cells that `a` drains to lie on one path: one drains to the other.
pub proof fn lemma_drains_chain(fd: Seq<FlowDirection>, w: int, h: int, a: int, b: int, c: int)
    requires
        drains_to(fd, w, h, a, b),
        drains_to(fd, w, h, a, c),
    ensures
        drains_to(fd, w, h, b, c) || drains_to(fd, w, h, c, b),
{
    let x = choose|k: nat| #[trigger] walk(fd, w, h, a, k) == Some(b);
    let y = choose|k: nat| #[trigger] walk(fd, w, h, a, k) == Some(c);
    if x <= y {
        lemma_walk_add(fd, w, h, a, x, (y - x) as nat);
        assert(walk(fd, w, h, b, (y - x) as nat) == Some(c));
    } else {
        lemma_walk_add(fd, w, h, a, y, (x - y) as nat);
        assert(walk(fd, w, h, c, (x - y) as nat) == Some(b));
    }
}

/// Meeting is an equivalence: the basins partition the grid.
pub proof fn lemma_meets_trans(fd: Seq<FlowDirection>, w: int, h: int, a: int, b: int, d: int)
    requires
        meets(fd, w, h, a, b),
        meets(fd, w, h, b, d),
    ensures
        meets(fd, w, h, a, d),
{
    let c1 = choose|c: int| #[trigger] drains_to(fd, w, h, a, c) && drains_to(fd, w, h, b, c);
    let c2 = choose|c: int| #[trigger] drains_to(fd, w, h, b, c) && drains_to(fd, w, h, d, c);
    lemma_drains_chain(fd, w, h, b, c1, c2);
    if drains_to(fd, w, h, c1, c2) {
        lemma_drains_trans(fd, w, h, a, c1, c2);
    } else {
        lemma_drains_trans(fd, w, h, d, c2, c1);
    }
}

/// Every cell of the basin of `s` drains to an outlet that `s` drains to.
pub proof fn lemma_outlet_collects_basin(fd: Seq<FlowDirection>, w: int, h: int, s: int, r: int, c: int)
    requires
        drains_to(fd, w, h, s, r),
        is_outlet(fd, w, h, r),
        meets(fd, w, h, s, c),
    ensures
        drains_to(fd, w, h, c, r),
{
    let d = choose|d: int| #[trigger] drains_to(fd, w, h, s, d) && drains_to(fd, w, h, c, d);
    lemma_drains_chain(fd, w, h, s, r, d);
    if drains_to(fd, w, h, r, d) {
        assert(drains_to(fd, w, h, d, r));
    }
    lemma_drains_trans(fd, w, h, c, d, r);
}

/// A cell whose flow goes nowhere is an outlet.
proof fn lemma_stop_is_outlet(fd: Seq<FlowDirection>, w: int, h: int, r: int)
    requires
        succ(fd, w, h, r) is None,
    ensures
        is_outlet(fd, w, h, r),
{
    assert forall|d: int| #[trigger] drains_to(fd, w, h, r, d) implies drains_to(fd, w, h, d, r) by {
        let k = choose|k: nat| #[trigger] walk(fd, w, h, r, k) == Some(d);
        if k > 0 {
            assert(walk(fd, w, h, r, 1) is None) by {
                reveal_with_fuel(walk, 2);
            }
            lemma_walk_stops(fd, w, h, r, 1, k);
        }
        lemma_drains_refl(fd, w, h, r);
    }
}

/// On a cycle through `e` of length `p`, every cell reached from `e`
/// drains back to `e`.
proof fn lemma_cycle_back(fd: Seq<FlowDirection>, w: int, h: int, e: int, p: nat, k: nat)
    requires
        p >= 1,
        walk(fd, w, h, e, p) == Some(e),
        walk(fd, w, h, e, k) is Some,
    ensures
        drains_to(fd, w, h, walk(fd, w, h, e, k)->0, e),
    decreases k,
{
    let d = walk(fd, w, h, e, k)->0;
    if k <= p {
        lemma_walk_add(fd, w, h, e, k, (p - k) as nat);
        assert(walk(fd, w, h, d, (p - k) as nat) == Some(e));
    } else {
        lemma_walk_add(fd, w, h, e, p, (k - p) as nat);
        lemma_cycle_back(fd, w, h, e, p, (k - p) as nat);
    }
}

/// A cell reached from a cycle is an outlet.
proof fn lemma_cycle_outlet(fd: Seq<FlowDirection>, w: int, h: int, e: int, p: nat, c: int)
    requires
        p >= 1,
        walk(fd, w, h, e, p) == Some(e),
        drains_to(fd, w, h, e, c),
    ensures
        is_outlet(fd, w, h, c),
{
    assert forall|d: int| #[trigger] drains_to(fd, w, h, c, d) implies drains_to(fd, w, h, d, c) by {
        lemma_drains_trans(fd, w, h, e, c, d);
        let k = choose|k: nat| #[trigger] walk(fd, w, h, e, k) == Some(d);
        lemma_cycle_back(fd, w, h, e, p, k);
        lemma_drains_trans(fd, w, h, d, e, c);
    }
}

/// Among `n + 1` values below `n`, two are equal.
proof fn lemma_pigeonhole(s: Seq<int>, n: int)
    requires
        n >= 0,
        s.len() == n + 1,
        forall|i: int| 0 <= i < s.len() ==> 0 <= #[trigger] s[i] < n,
    ensures
        exists|i: int, j: int| 0 <= i < j < s.len() && #[trigger] s[i] == #[trigger] s[j],
    decreases n,
{
    if n == 0 {
        assert(s[0] < n);
    } else if !exists|i: int, j: int| 0 <= i < j < s.len() && #[trigger] s[i] == #[trigger] s[j] {
        let t = if exists|k: int| 0 <= k < s.len() && #[trigger] s[k] == n - 1 {
            let k = choose|k: int| 0 <= k < s.len() && #[trigger] s[k] == n - 1;
            s.remove(k)
        } else {
            s.drop_last()
        };
        assert forall|i: int| 0 <= i < t.len() implies 0 <= #[trigger] t[i] < n - 1 by {
            if exists|k: int| 0 <= k < s.len() && #[trigger] s[k] == n - 1 {
                let k = choose|k: int| 0 <= k < s.len() && #[trigger] s[k] == n - 1;
                let m = if i < k { i } else { i + 1 };
                assert(t[i] == s[m]);
                assert(s[m] != s[k]);
            } else {
                assert(t[i] == s[i]);
            }
        }
        lemma_pigeonhole(t, n - 1);
        let (i, j) = choose|i: int, j: int| 0 <= i < j < t.len() && #[trigger] t[i] == #[trigger] t[j];
        if exists|k: int| 0 <= k < s.len() && #[trigger] s[k] == n - 1 {
            let k = choose|k: int| 0 <= k < s.len() && #[trigger] s[k] == n - 1;
            let a = if i < k { i } else { i + 1 };
            let b = if j < k { j } else { j + 1 };
            assert(t[i] == s[a] && t[j] == s[b]);
            assert(s[a] == s[b]);
        } else {
            assert(t[i] == s[i] && t[j] == s[j]);
        }
    }
}

/// The outlet of the basin of `(x0, y0)` found by following the flow from
/// it: where the flow stops, or, when it runs `width * height` moves
/// without stopping, the cell it has reached then, which lies on the cycle
/// the flow ends in.
pub fn basin_outlet(flow_direction: &Vec<FlowDirection>, x0: usize, y0: usize, width: usize, height: usize) -> (r: (
    usize,
    usize,
))
    requires
        grid_ok(flow_direction@, width as int, height as int),
        x0 < width,
        y0 < height,
    ensures
        r.0 < width,
        r.1 < height,
        drains_to(flow_direction@, width as int, height as int, idx(x0 as int, y0 as int, width as int), idx(r.0 as int, r.1 as int, width as int)),
        is_outlet(flow_direction@, width as int, height as int, idx(r.0 as int, r.1 as int, width as int)),
{
    let ghost fd = flow_direction@;
    let ghost (w, h) = (width as int, height as int);
    let ghost s = idx(x0 as int, y0 as int, w);
    let n = flow_direction.len();
    let mut x = x0;
    let mut y = y0;
    let mut steps: usize = 0;
    proof {
        lemma_idx(x0 as int, y0 as int, w, h);
    }
    while steps < n
        invariant
            fd == flow_direction@,
            grid_ok(fd, w, h),
            w == width,
            h == height,
            n == w * h,
            s == idx(x0 as int, y0 as int, w),
            0 <= s < n,
            x < width,
            y < height,
            steps <= n,
            walk(fd, w, h, s, steps as nat) == Some(idx(x as int, y as int, w)),
            forall|k: nat| k <= steps ==> (#[trigger] walk(fd, w, h, s, k)) is Some,
        decreases n - steps,
    {
        match downstream(flow_direction, x, y, width, height) {
            None => {
                proof {
                    lemma_stop_is_outlet(fd, w, h, idx(x as int, y as int, w));
                    assert(walk(fd, w, h, s, steps as nat) == Some(idx(x as int, y as int, w)));
                    assert(drains_to(fd, w, h, s, idx(x as int, y as int, w)));
                }
                return (x, y);
            },
            Some((nx, ny)) => {
                proof {
                    lemma_walk_last(fd, w, h, s, steps as nat);
                }
                x = nx;
                y = ny;
                steps = steps + 1;
            },
        }
    }
    proof {
        let q = Seq::new((n + 1) as nat, |k: int| walk(fd, w, h, s, k as nat)->0);
        assert forall|i: int| 0 <= i < q.len() implies 0 <= #[trigger] q[i] < n by {
            assert(walk(fd, w, h, s, i as nat) is Some);
            lemma_walk_in_range(fd, w, h, s, i as nat);
        }
        lemma_pigeonhole(q, n as int);
        let (a, b) = choose|a: int, b: int| 0 <= a < b < q.len() && #[trigger] q[a] == #[trigger] q[b];
        let e = q[a];
        assert(walk(fd, w, h, s, a as nat) == Some(e));
        assert(walk(fd, w, h, s, b as nat) == Some(e));
        lemma_walk_add(fd, w, h, s, a as nat, (b - a) as nat);
        assert(walk(fd, w, h, e, (b - a) as nat) == Some(e));
        lemma_walk_add(fd, w, h, s, a as nat, (n - a) as nat);
        assert(walk(fd, w, h, e, (n - a) as nat) == Some(idx(x as int, y as int, w)));
        assert(drains_to(fd, w, h, e, idx(x as int, y as int, w)));
        lemma_cycle_outlet(fd, w, h, e, (b - a) as nat, idx(x as int, y as int, w));
        assert(walk(fd, w, h, s, steps as nat) == Some(idx(x as int, y as int, w)));
        assert(drains_to(fd, w, h, s, idx(x as int, y as int, w)));
    }
    (x, y)
}

} // verus!
