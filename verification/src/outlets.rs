//! Major river outlets: the places where high-flow rivers leave the map,
//! ranked by flow. A rendered map colours its regions by them.

use vstd::prelude::*;
use crate::segments::RiverSegment;
use crate::ranking::{
    largest_first, lemma_sort_by_flow, lemma_sort_by_flow_from, lemma_sort_by_flow_keeps, sort_by_flow, sort_by_flow_desc,
};

verus! {

/// Most outlets kept.
pub const MAX_OUTLETS: usize = 16;

/// Least distance, in cells, between a new outlet and those already found.
pub const OUTLET_SPACING: usize = 50;

/// Whether cell `p` lies within three cells of the border of a `w` x `h` map.
pub open spec fn near_edge(p: (usize, usize), w: int, h: int) -> bool {
    p.0 < 3 || p.0 + 3 > w || p.1 < 3 || p.1 + 3 > h
}

/// Squared distance between outlet `o` and cell `p`.
pub open spec fn dist2(o: (usize, usize, u32), p: (usize, usize)) -> int {
    (o.0 - p.0) * (o.0 - p.0) + (o.1 - p.1) * (o.1 - p.1)
}

/// Square of the outlet spacing.
pub open spec fn spacing2() -> int {
    OUTLET_SPACING * OUTLET_SPACING
}

/// The outlets after a river with flow `f` leaves the map at `p`: a new
/// outlet where `p` is farther than the spacing from every outlet;
/// otherwise each outlet closer than the spacing whose flow is less than
/// `f` moves to `p` and takes flow `f`.
pub open spec fn absorb(outlets: Seq<(usize, usize, u32)>, p: (usize, usize), f: u32) -> Seq<(usize, usize, u32)> {
    if forall|i: int| 0 <= i < outlets.len() ==> dist2(#[trigger] outlets[i], p) > spacing2() {
        outlets.push((p.0, p.1, f))
    } else {
        Seq::new(
            outlets.len(),
            |i: int|
                if dist2(outlets[i], p) < spacing2() && f > outlets[i].2 {
                    (p.0, p.1, f)
                } else {
                    outlets[i]
                },
        )
    }
}

/// Outlets found among the first `k` segments: each segment that ends near
/// the edge with flow above `min_flow` is absorbed, in order.
pub open spec fn outlet_candidates(segs: Seq<RiverSegment>, w: int, h: int, min_flow: u32, k: int) -> Seq<
    (usize, usize, u32),
>
    decreases k,
{
    if k <= 0 {
        Seq::empty()
    } else {
        let o = outlet_candidates(segs, w, h, min_flow, k - 1);
        let s = segs[k - 1];
        if near_edge(s.end, w, h) && s.flow > min_flow {
            absorb(o, s.end, s.flow)
        } else {
            o
        }
    }
}

/// The major outlets: the candidates ranked by flow, largest first (ties in
/// the order found), at most `MAX_OUTLETS` of them.
pub open spec fn major_outlets(segs: Seq<RiverSegment>, w: int, h: int, min_flow: u32) -> Seq<(usize, usize, u32)> {
    let s = sort_by_flow(outlet_candidates(segs, w, h, min_flow, segs.len() as int));
    if s.len() <= MAX_OUTLETS {
        s
    } else {
        s.take(MAX_OUTLETS as int)
    }
}

/// Compare the distance between outlet `o` and cell `p` with the spacing:
/// whether it is larger, and whether it is smaller.
fn compare_with_spacing(o: (usize, usize, u32), p: (usize, usize)) -> (r: (bool, bool))
    ensures
        r.0 == (dist2(o, p) > spacing2()),
        r.1 == (dist2(o, p) < spacing2()),
{
    let dx: usize = if o.0 >= p.0 { o.0 - p.0 } else { p.0 - o.0 };
    let dy: usize = if o.1 >= p.1 { o.1 - p.1 } else { p.1 - o.1 };
    proof {
        let ex: int = o.0 - p.0;
        let ey: int = o.1 - p.1;
        assert(ex * ex == dx * dx) by (nonlinear_arith)
            requires
                ex == dx || ex == -dx,
        ;
        assert(ey * ey == dy * dy) by (nonlinear_arith)
            requires
                ey == dy || ey == -dy,
        ;
        assert(dx * dx >= 0 && dy * dy >= 0) by (nonlinear_arith);
    }
    if dx > OUTLET_SPACING || dy > OUTLET_SPACING {
        proof {
            if dx > 50 {
                assert(dx * dx > 2500) by (nonlinear_arith)
                    requires
                        dx > 50,
                ;
            } else {
                assert(dy * dy > 2500) by (nonlinear_arith)
                    requires
                        dy > 50,
                ;
            }
        }
        (true, false)
    } else {
        proof {
            assert(dx * dx <= 2500 && dy * dy <= 2500) by (nonlinear_arith)
                requires
                    dx <= 50,
                    dy <= 50,
            ;
        }
        let d2: usize = dx * dx + dy * dy;
        (d2 > OUTLET_SPACING * OUTLET_SPACING, d2 < OUTLET_SPACING * OUTLET_SPACING)
    }
}

/// Take in a river with flow `f` leaving the map at `p`.
fn absorb_outlet(outlets: &mut Vec<(usize, usize, u32)>, p: (usize, usize), f: u32)
    ensures
        final(outlets)@ == absorb(old(outlets)@, p, f),
{
    let ghost before = outlets@;
    // Check whether this outlet is far enough from the existing ones.
    let mut all_far = true;
    let mut i: usize = 0;
    while i < outlets.len()
        invariant
            before == outlets@,
            i <= outlets.len(),
            all_far == (forall|j: int| 0 <= j < i ==> dist2(#[trigger] before[j], p) > spacing2()),
        decreases outlets.len() - i,
    {
        let (far, _close) = compare_with_spacing(outlets[i], p);
        all_far = all_far && far;
        i = i + 1;
    }
    if all_far {
        outlets.push((p.0, p.1, f));
    } else {
        // Merge with the near ones if this has higher flow.
        let ghost merged = Seq::new(
            before.len(),
            |j: int|
                if dist2(before[j], p) < spacing2() && f > before[j].2 {
                    (p.0, p.1, f)
                } else {
                    before[j]
                },
        );
        let mut i: usize = 0;
        while i < outlets.len()
            invariant
                outlets.len() == before.len(),
                merged.len() == before.len(),
                forall|j: int|
                    0 <= j < before.len() ==> #[trigger] merged[j] == (if dist2(before[j], p) < spacing2() && f
                        > before[j].2 {
                        (p.0, p.1, f)
                    } else {
                        before[j]
                    }),
                i <= outlets.len(),
                forall|j: int| 0 <= j < i ==> #[trigger] outlets@[j] == merged[j],
                forall|j: int| i <= j < before.len() ==> #[trigger] outlets@[j] == before[j],
            decreases outlets.len() - i,
        {
            let o = outlets[i];
            let (_far, close) = compare_with_spacing(o, p);
            if close && f > o.2 {
                outlets.set(i, (p.0, p.1, f));
            }
            i = i + 1;
        }
        assert(outlets@ =~= merged);
    }
}

/// Find the major outlets of a `width` x `height` map from its river
/// segments: rivers ending within three cells of the border with flow above
/// `min_flow` (an order key) become outlets, kept apart by
/// `OUTLET_SPACING`; the largest `MAX_OUTLETS` by flow are returned, largest
/// first. Each outlet is `(x, y, flow)`; its place in the list is its colour.
pub fn select_major_outlets(segments: &Vec<RiverSegment>, width: usize, height: usize, min_flow: u32) -> (outlets: Vec<
    (usize, usize, u32),
>)
    ensures
        outlets@ == major_outlets(segments@, width as int, height as int, min_flow),
{
    let ghost (w, h) = (width as int, height as int);
    let mut outlets: Vec<(usize, usize, u32)> = Vec::new();
    let mut k: usize = 0;
    // Collect all edge segments with high flow.
    while k < segments.len()
        invariant
            w == width,
            h == height,
            k <= segments.len(),
            outlets@ == outlet_candidates(segments@, w, h, min_flow, k as int),
        decreases segments.len() - k,
    {
        let segment = segments[k];
        let (ex, ey) = segment.end;
        let near = ex < 3 || width < 3 || ex > width - 3 || ey < 3 || height < 3 || ey > height - 3;
        assert(near == near_edge(segment.end, w, h));
        if near && segment.flow > min_flow {
            absorb_outlet(&mut outlets, segment.end, segment.flow);
        }
        k = k + 1;
    }
    // Sort by flow and keep the largest.
    let mut sorted = sort_by_flow_desc(&outlets);
    sorted.truncate(MAX_OUTLETS);
    proof {
        if outlets.len() > MAX_OUTLETS {
            assert(sorted@ =~= sort_by_flow(outlets@).take(MAX_OUTLETS as int));
        }
    }
    sorted
}

/// Whether outlet `o` sits at the end of a river of `segs` that leaves near
/// the edge with flow above `min_flow`, and has that river's flow.
pub open spec fn from_edge_river(segs: Seq<RiverSegment>, w: int, h: int, min_flow: u32, o: (usize, usize, u32)) -> bool {
    exists|i: int|
        0 <= i < segs.len() && (#[trigger] segs[i]).end == (o.0, o.1) && segs[i].flow == o.2 && near_edge(
            segs[i].end,
            w,
            h,
        ) && segs[i].flow > min_flow
}

proof fn lemma_candidates_from_edge_rivers(segs: Seq<RiverSegment>, w: int, h: int, min_flow: u32, k: int)
    requires
        0 <= k <= segs.len(),
    ensures
        forall|j: int|
            0 <= j < outlet_candidates(segs, w, h, min_flow, k).len() ==> from_edge_river(
                segs,
                w,
                h,
                min_flow,
                #[trigger] outlet_candidates(segs, w, h, min_flow, k)[j],
            ),
    decreases k,
{
    if k > 0 {
        lemma_candidates_from_edge_rivers(segs, w, h, min_flow, k - 1);
        let o = outlet_candidates(segs, w, h, min_flow, k - 1);
        let s = segs[k - 1];
        let c = outlet_candidates(segs, w, h, min_flow, k);
        if near_edge(s.end, w, h) && s.flow > min_flow {
            assert forall|j: int| 0 <= j < c.len() implies from_edge_river(segs, w, h, min_flow, #[trigger] c[j]) by {
                if j < o.len() && c[j] == o[j] {
                    assert(from_edge_river(segs, w, h, min_flow, o[j]));
                } else {
                    assert(c[j] == (s.end.0, s.end.1, s.flow));
                    assert(segs[k - 1].end == (c[j].0, c[j].1));
                }
            }
        }
    }
}

/// Law of the outlet search: the outlets come largest flow first, there are
/// at most `MAX_OUTLETS` of them, and each sits where a river leaves the map
/// near its edge with flow above `min_flow`, with that river's flow.
pub proof fn lemma_major_outlets_are_ranked_river_mouths(segs: Seq<RiverSegment>, w: int, h: int, min_flow: u32)
    ensures
        major_outlets(segs, w, h, min_flow).len() <= MAX_OUTLETS,
        largest_first(major_outlets(segs, w, h, min_flow)),
        forall|j: int|
            0 <= j < major_outlets(segs, w, h, min_flow).len() ==> from_edge_river(
                segs,
                w,
                h,
                min_flow,
                #[trigger] major_outlets(segs, w, h, min_flow)[j],
            ),
{
    let c = outlet_candidates(segs, w, h, min_flow, segs.len() as int);
    let s = sort_by_flow(c);
    let m = major_outlets(segs, w, h, min_flow);
    lemma_sort_by_flow(c);
    lemma_candidates_from_edge_rivers(segs, w, h, min_flow, segs.len() as int);
    assert forall|i: int, j: int| 0 <= i < j < m.len() implies #[trigger] m[i].2 >= #[trigger] m[j].2 by {
        assert(m[i] == s[i] && m[j] == s[j]);
    }
    assert forall|j: int| 0 <= j < m.len() implies from_edge_river(segs, w, h, min_flow, #[trigger] m[j]) by {
        assert(m[j] == s[j]);
        lemma_sort_by_flow_from(c, j);
        let i0 = choose|i: int| 0 <= i < c.len() && s[j] == #[trigger] c[i];
        assert(from_edge_river(segs, w, h, min_flow, c[i0]));
    }
}

/// Law of the outlet search, one river end at a time: a segment that does
/// not end near the edge with flow above `min_flow` changes nothing. One
/// that does, ending at `p` with flow `f`, adds an outlet `(p, f)` at the
/// end of the list exactly when `p` is farther than `OUTLET_SPACING` from
/// every outlet found so far. Otherwise the number of outlets stays the
/// same, and each outlet nearer than the spacing to `p` with less flow than
/// `f` moves to `p` and takes flow `f`, while every other one stays.
pub proof fn lemma_outlet_step(segs: Seq<RiverSegment>, w: int, h: int, min_flow: u32, k: int)
    requires
        0 < k <= segs.len(),
    ensures
        ({
            let before = outlet_candidates(segs, w, h, min_flow, k - 1);
            let after = outlet_candidates(segs, w, h, min_flow, k);
            let s = segs[k - 1];
            let (px, py) = (s.end.0 as int, s.end.1 as int);
            let qualifies = (px < 3 || px + 3 > w || py < 3 || py + 3 > h) && s.flow > min_flow;
            let sq = |o: (usize, usize, u32)| (o.0 - px) * (o.0 - px) + (o.1 - py) * (o.1 - py);
            &&& !qualifies ==> after == before
            &&& qualifies && (forall|i: int| 0 <= i < before.len() ==> sq(before[i]) > 50 * 50) ==> after == before.push(
                (s.end.0, s.end.1, s.flow),
            )
            &&& qualifies && (exists|i: int| 0 <= i < before.len() && sq(before[i]) <= 50 * 50) ==> {
                &&& after.len() == before.len()
                &&& forall|i: int|
                    0 <= i < before.len() ==> after[i] == (if sq(before[i]) < 50 * 50 && s.flow > before[i].2 {
                        (s.end.0, s.end.1, s.flow)
                    } else {
                        before[i]
                    })
            }
        }),
{
    let before = outlet_candidates(segs, w, h, min_flow, k - 1);
    let s = segs[k - 1];
    assert(OUTLET_SPACING * OUTLET_SPACING == 50 * 50);
    assert forall|i: int| 0 <= i < before.len() implies dist2(before[i], s.end) == (before[i].0 - s.end.0 as int) * (
    before[i].0 - s.end.0 as int) + (before[i].1 - s.end.1 as int) * (before[i].1 - s.end.1 as int) by {}
}

/// Law of the outlet search, completeness of the ranking: every outlet
/// found over all the segments is returned, unless `MAX_OUTLETS` outlets are
/// returned, all with at least its flow.
pub proof fn lemma_major_outlets_keep_the_largest(segs: Seq<RiverSegment>, w: int, h: int, min_flow: u32, j: int)
    requires
        0 <= j < outlet_candidates(segs, w, h, min_flow, segs.len() as int).len(),
    ensures
        ({
            let o = outlet_candidates(segs, w, h, min_flow, segs.len() as int)[j];
            let m = major_outlets(segs, w, h, min_flow);
            (exists|t: int| 0 <= t < m.len() && #[trigger] m[t] == o) || (m.len() == 16 && forall|t: int|
                0 <= t < 16 ==> #[trigger] m[t].2 >= o.2)
        }),
{
    let c = outlet_candidates(segs, w, h, min_flow, segs.len() as int);
    let s = sort_by_flow(c);
    let m = major_outlets(segs, w, h, min_flow);
    lemma_sort_by_flow(c);
    lemma_sort_by_flow_keeps(c, j);
    let p = choose|t: int| 0 <= t < c.len() && #[trigger] s[t] == c[j];
    if p < MAX_OUTLETS {
        assert(m[p] == c[j]);
    } else {
        assert forall|t: int| 0 <= t < 16 implies #[trigger] m[t].2 >= c[j].2 by {
            assert(m[t] == s[t]);
            assert(s[t].2 >= s[p].2);
        }
    }
}

} // verus!
