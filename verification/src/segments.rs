//! D8 direction choice and extraction of river segments for rendering.

use vstd::prelude::*;
use crate::direction::FlowDirection;
use crate::grid::{downstream, grid_ok, lemma_coords, lemma_idx, lemma_succ_in_range, succ};

verus! {

/// Whether `best` is the first direction index whose key is the largest
/// of all eight, and that key is positive.
pub open spec fn is_steepest(keys: Seq<u32>, best: int) -> bool {
    &&& 0 <= best < 8
    &&& keys[best] > 0
    &&& forall|t: int| 0 <= t < 8 ==> #[trigger] keys[t] <= keys[best]
    &&& forall|t: int| 0 <= t < best ==> #[trigger] keys[t] < keys[best]
}

/// D8 rule: a cell drains to its steepest downhill neighbour.
///
/// `slope_keys[k]` is the order key of the slope towards the neighbour in
/// direction `FlowDirection::all()[k]`, or zero when that neighbour is off
/// the grid or not lower. The first direction with the largest positive key
/// wins; with no positive key the cell drains nowhere.
pub fn steepest_direction(slope_keys: &[u32; 8]) -> (d: FlowDirection)
    ensures
        (d == FlowDirection::NoFlow) <==> (forall|t: int| 0 <= t < 8 ==> #[trigger] slope_keys@[t] == 0),
        d != FlowDirection::NoFlow ==> exists|b: int|
            is_steepest(slope_keys@, b) && #[trigger] FlowDirection::all_spec()[b] == d,
{
    let dirs = FlowDirection::all();
    let mut steepest_dir = FlowDirection::NoFlow;
    let mut steepest_slope: u32 = 0;
    let ghost mut best: int = -1;
    let mut k: usize = 0;
    while k < 8
        invariant
            dirs@ == FlowDirection::all_spec(),
            k <= 8,
            best == -1 ==> steepest_slope == 0 && steepest_dir == FlowDirection::NoFlow && forall|t: int|
                0 <= t < k ==> #[trigger] slope_keys@[t] == 0,
            best != -1 ==> 0 <= best < k && steepest_slope == slope_keys@[best] && steepest_slope > 0
                && steepest_dir == dirs@[best] && (forall|t: int| 0 <= t < k ==> #[trigger] slope_keys@[t]
                <= steepest_slope) && (forall|t: int| 0 <= t < best ==> #[trigger] slope_keys@[t] < steepest_slope),
        decreases 8 - k,
    {
        let slope = slope_keys[k];
        if slope > steepest_slope {
            steepest_slope = slope;
            steepest_dir = dirs[k];
            proof {
                best = k as int;
            }
        }
        k = k + 1;
    }
    proof {
        if best != -1 {
            assert(is_steepest(slope_keys@, best));
            assert(FlowDirection::all_spec()[best] == steepest_dir);
            assert(steepest_dir != FlowDirection::NoFlow);
            assert(slope_keys@[best] != 0);
        }
    }
    steepest_dir
}

/// River segment for rendering: the step from a river cell to the cell it
/// drains into, with the cell's flow (as an order key), stream order and
/// watershed.
#[derive(Clone, Copy, Debug, PartialEq, Eq)]
pub struct RiverSegment {
    pub start: (usize, usize),
    pub end: (usize, usize),
    pub flow: u32,
    pub stream_order: u8,
    pub watershed_id: u32,
}

/// Whether cell `i` yields a segment: it is not masked out, its flow
/// reaches the threshold and it drains into a cell of the grid.
pub open spec fn yields_segment(
    fd: Seq<FlowDirection>,
    w: int,
    h: int,
    flow: Seq<u32>,
    threshold: u32,
    mask: Option<Seq<bool>>,
    i: int,
) -> bool {
    &&& (mask matches Some(m) ==> m[i])
    &&& flow[i] >= threshold
    &&& succ(fd, w, h, i) is Some
}

/// The segment of cell `i`.
pub open spec fn segment_of(
    fd: Seq<FlowDirection>,
    w: int,
    h: int,
    flow: Seq<u32>,
    so: Seq<u8>,
    ws: Seq<u32>,
    i: int,
) -> RiverSegment {
    let s = succ(fd, w, h, i)->0;
    RiverSegment {
        start: ((i % w) as usize, (i / w) as usize),
        end: ((s % w) as usize, (s / w) as usize),
        flow: flow[i],
        stream_order: so[i],
        watershed_id: ws[i],
    }
}

/// Segments of the cells `0..k`, in index order.
pub open spec fn segments_upto(
    fd: Seq<FlowDirection>,
    w: int,
    h: int,
    flow: Seq<u32>,
    so: Seq<u8>,
    ws: Seq<u32>,
    threshold: u32,
    mask: Option<Seq<bool>>,
    k: int,
) -> Seq<RiverSegment>
    decreases k,
{
    if k <= 0 {
        Seq::empty()
    } else {
        let r = segments_upto(fd, w, h, flow, so, ws, threshold, mask, k - 1);
        if yields_segment(fd, w, h, flow, threshold, mask, k - 1) {
            r.push(segment_of(fd, w, h, flow, so, ws, k - 1))
        } else {
            r
        }
    }
}

/// The mask's contents, if there is one.
pub open spec fn mask_view(mask: Option<&Vec<bool>>) -> Option<Seq<bool>> {
    match mask {
        Some(m) => Some(m@),
        None => None,
    }
}

/// Extract river segments for rendering (with optional mask): one segment
/// for every cell, in index order, that is not masked out, whose flow key
/// reaches `flow_threshold` and that drains into a cell of the grid.
pub fn extract_river_segments_masked(
    flow_direction: &Vec<FlowDirection>,
    flow_accumulation: &Vec<u32>,
    stream_order: &Vec<u8>,
    watershed_id: &Vec<u32>,
    width: usize,
    height: usize,
    flow_threshold: u32,
    mask: Option<&Vec<bool>>,
) -> (segments: Vec<RiverSegment>)
    requires
        grid_ok(flow_direction@, width as int, height as int),
        flow_accumulation.len() == width * height,
        stream_order.len() == width * height,
        watershed_id.len() == width * height,
        mask matches Some(m) ==> m.len() == width * height,
    ensures
        segments@ == segments_upto(
            flow_direction@,
            width as int,
            height as int,
            flow_accumulation@,
            stream_order@,
            watershed_id@,
            flow_threshold,
            mask_view(mask),
            width * height,
        ),
{
    let ghost fd = flow_direction@;
    let ghost (w, h) = (width as int, height as int);
    let n = flow_accumulation.len();
    let mut segments: Vec<RiverSegment> = Vec::new();
    let mut j: usize = 0;
    while j < n
        invariant
            fd == flow_direction@,
            grid_ok(fd, w, h),
            w == width,
            h == height,
            n == w * h,
            flow_accumulation.len() == n,
            stream_order.len() == n,
            watershed_id.len() == n,
            mask matches Some(m) ==> m.len() == n,
            j <= n,
            segments@ == segments_upto(
                fd,
                w,
                h,
                flow_accumulation@,
                stream_order@,
                watershed_id@,
                flow_threshold,
                mask_view(mask),
                j as int,
            ),
        decreases n - j,
    {
        let x = j % width;
        let y = j / width;
        proof {
            lemma_coords(j as int, w, h);
        }
        // Skip if masked out.
        let masked_in = match mask {
            Some(m) => m[j],
            None => true,
        };
        if masked_in {
            let flow = flow_accumulation[j];
            if flow >= flow_threshold {
                match downstream(flow_direction, x, y, width, height) {
                    Some((nx, ny)) => {
                        proof {
                            lemma_idx(nx as int, ny as int, w, h);
                        }
                        segments.push(
                            RiverSegment {
                                start: (x, y),
                                end: (nx, ny),
                                flow,
                                stream_order: stream_order[j],
                                watershed_id: watershed_id[j],
                            },
                        );
                    },
                    None => {},
                }
            }
        }
        j = j + 1;
    }
    segments
}

/// Law of river extraction: every segment starts at a cell of the grid that
/// is not masked out and whose flow reaches the threshold, ends at the cell
/// that this cell drains into, and carries the flow, stream order and
/// watershed id of its start cell. Conversely, every such cell gives a
/// segment, and segments come in index order of their start cells.
pub proof fn lemma_segments_describe_river_cells(
    fd: Seq<FlowDirection>,
    w: int,
    h: int,
    flow: Seq<u32>,
    so: Seq<u8>,
    ws: Seq<u32>,
    threshold: u32,
    mask: Option<Seq<bool>>,
)
    requires
        grid_ok(fd, w, h),
        w <= usize::MAX,
        h <= usize::MAX,
        flow.len() == w * h,
        so.len() == w * h,
        ws.len() == w * h,
        mask matches Some(m) ==> m.len() == w * h,
    ensures
        forall|t: int|
            0 <= t < segments_upto(fd, w, h, flow, so, ws, threshold, mask, w * h).len() ==> {
                let s = #[trigger] segments_upto(fd, w, h, flow, so, ws, threshold, mask, w * h)[t];
                let c = s.start.1 * w + s.start.0;
                &&& s.start.0 < w && s.start.1 < h
                &&& s.end.0 < w && s.end.1 < h
                &&& (mask matches Some(m) ==> m[c])
                &&& flow[c] >= threshold
                &&& s.flow == flow[c]
                &&& s.stream_order == so[c]
                &&& s.watershed_id == ws[c]
                &&& succ(fd, w, h, c) == Some(s.end.1 * w + s.end.0)
            },
        forall|t: int, u: int|
            0 <= t < u < segments_upto(fd, w, h, flow, so, ws, threshold, mask, w * h).len() ==> {
                let a = #[trigger] segments_upto(fd, w, h, flow, so, ws, threshold, mask, w * h)[t];
                let b = #[trigger] segments_upto(fd, w, h, flow, so, ws, threshold, mask, w * h)[u];
                a.start.1 * w + a.start.0 < b.start.1 * w + b.start.0
            },
        forall|c: int|
            0 <= c < w * h && (mask matches Some(m) ==> m[c]) && flow[c] >= threshold && #[trigger] succ(fd, w, h, c)
                is Some ==> exists|t: int|
                0 <= t < segments_upto(fd, w, h, flow, so, ws, threshold, mask, w * h).len()
                    && #[trigger] segments_upto(fd, w, h, flow, so, ws, threshold, mask, w * h)[t].start == (
                    (c % w) as usize,
                    (c / w) as usize,
                ),
{
    lemma_segments_upto(fd, w, h, flow, so, ws, threshold, mask, w * h);
}

proof fn lemma_segments_upto(
    fd: Seq<FlowDirection>,
    w: int,
    h: int,
    flow: Seq<u32>,
    so: Seq<u8>,
    ws: Seq<u32>,
    threshold: u32,
    mask: Option<Seq<bool>>,
    k: int,
)
    requires
        grid_ok(fd, w, h),
        w <= usize::MAX,
        h <= usize::MAX,
        flow.len() == w * h,
        so.len() == w * h,
        ws.len() == w * h,
        mask matches Some(m) ==> m.len() == w * h,
        0 <= k <= w * h,
    ensures
        forall|t: int|
            0 <= t < segments_upto(fd, w, h, flow, so, ws, threshold, mask, k).len() ==> {
                let s = #[trigger] segments_upto(fd, w, h, flow, so, ws, threshold, mask, k)[t];
                let c = s.start.1 * w + s.start.0;
                &&& s.start.0 < w && s.start.1 < h
                &&& s.end.0 < w && s.end.1 < h
                &&& c < k
                &&& (mask matches Some(m) ==> m[c])
                &&& flow[c] >= threshold
                &&& s.flow == flow[c]
                &&& s.stream_order == so[c]
                &&& s.watershed_id == ws[c]
                &&& succ(fd, w, h, c) == Some(s.end.1 * w + s.end.0)
            },
        forall|t: int, u: int|
            0 <= t < u < segments_upto(fd, w, h, flow, so, ws, threshold, mask, k).len() ==> {
                let a = #[trigger] segments_upto(fd, w, h, flow, so, ws, threshold, mask, k)[t];
                let b = #[trigger] segments_upto(fd, w, h, flow, so, ws, threshold, mask, k)[u];
                a.start.1 * w + a.start.0 < b.start.1 * w + b.start.0
            },
        forall|c: int|
            0 <= c < k && (mask matches Some(m) ==> m[c]) && flow[c] >= threshold && #[trigger] succ(fd, w, h, c)
                is Some ==> exists|t: int|
                0 <= t < segments_upto(fd, w, h, flow, so, ws, threshold, mask, k).len()
                    && #[trigger] segments_upto(fd, w, h, flow, so, ws, threshold, mask, k)[t].start == (
                    (c % w) as usize,
                    (c / w) as usize,
                ),
    decreases k,
{
    if k > 0 {
        lemma_segments_upto(fd, w, h, flow, so, ws, threshold, mask, k - 1);
        let r = segments_upto(fd, w, h, flow, so, ws, threshold, mask, k - 1);
        let q = segments_upto(fd, w, h, flow, so, ws, threshold, mask, k);
        let i = k - 1;
        lemma_coords(i, w, h);
        if yields_segment(fd, w, h, flow, threshold, mask, i) {
            let sg = segment_of(fd, w, h, flow, so, ws, i);
            let n = succ(fd, w, h, i)->0;
            lemma_succ_in_range(fd, w, h, i);
            lemma_coords(n, w, h);
            assert(q == r.push(sg));
            assert(sg.start.1 * w + sg.start.0 == i);
            assert(sg.end.1 * w + sg.end.0 == n);
            assert forall|t: int| 0 <= t < q.len() implies {
                let s = #[trigger] q[t];
                let c = s.start.1 * w + s.start.0;
                &&& s.start.0 < w && s.start.1 < h
                &&& s.end.0 < w && s.end.1 < h
                &&& c < k
                &&& (mask matches Some(m) ==> m[c])
                &&& flow[c] >= threshold
                &&& s.flow == flow[c]
                &&& s.stream_order == so[c]
                &&& s.watershed_id == ws[c]
                &&& succ(fd, w, h, c) == Some(s.end.1 * w + s.end.0)
            } by {
                if t < r.len() {
                    assert(q[t] == r[t]);
                }
            }
            assert forall|t: int, u: int| 0 <= t < u < q.len() implies {
                let a = #[trigger] q[t];
                let b = #[trigger] q[u];
                a.start.1 * w + a.start.0 < b.start.1 * w + b.start.0
            } by {
                assert(q[t] == r[t]);
                if u < r.len() {
                    assert(q[u] == r[u]);
                }
            }
            assert forall|c: int|
                0 <= c < k && (mask matches Some(m) ==> m[c]) && flow[c] >= threshold && #[trigger] succ(fd, w, h, c)
                    is Some implies exists|t: int| 0 <= t < q.len() && #[trigger] q[t].start == ((c % w) as usize, (c / w) as usize) by {
                if c < k - 1 {
                    let t = choose|t: int| 0 <= t < r.len() && #[trigger] r[t].start == ((c % w) as usize, (c / w) as usize);
                    assert(q[t] == r[t]);
                } else {
                    assert(q[r.len() as int] == sg);
                }
            }
        } else {
            assert(q == r);
        }
    }
}

} // verus!
