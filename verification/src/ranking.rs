//! Ranking of located flows: a stable sort of `(x, y, flow)` entries from the
//! largest flow to the smallest.

use vstd::prelude::*;

verus! {

/// Number of leading entries whose flow is at least `f`: where a new entry
/// with flow `f` goes in a list kept sorted from largest to smallest flow,
/// after the entries with equal flow.
pub open spec fn insert_position(s: Seq<(usize, usize, u32)>, f: u32) -> int
    decreases s.len(),
{
    if s.len() == 0 {
        0
    } else if s[0].2 >= f {
        1 + insert_position(s.drop_first(), f)
    } else {
        0
    }
}

/// Stable sort by flow, largest first.
pub open spec fn sort_by_flow(s: Seq<(usize, usize, u32)>) -> Seq<(usize, usize, u32)>
    decreases s.len(),
{
    if s.len() == 0 {
        s
    } else {
        let r = sort_by_flow(s.drop_last());
        r.insert(insert_position(r, s.last().2), s.last())
    }
}

/// Whether the flows never increase along `s`.
pub open spec fn largest_first(s: Seq<(usize, usize, u32)>) -> bool {
    forall|i: int, j: int| 0 <= i < j < s.len() ==> #[trigger] s[i].2 >= #[trigger] s[j].2
}

pub proof fn lemma_insert_position_bound(s: Seq<(usize, usize, u32)>, f: u32)
    ensures
        0 <= insert_position(s, f) <= s.len(),
    decreases s.len(),
{
    if s.len() > 0 {
        lemma_insert_position_bound(s.drop_first(), f);
    }
}

/// In a list sorted largest first, the entries before the insert position
/// have flow at least `f`, those from it on have less.
proof fn lemma_insert_position_split(s: Seq<(usize, usize, u32)>, f: u32)
    requires
        largest_first(s),
    ensures
        forall|i: int| 0 <= i < insert_position(s, f) ==> #[trigger] s[i].2 >= f,
        forall|i: int| insert_position(s, f) <= i < s.len() ==> #[trigger] s[i].2 < f,
    decreases s.len(),
{
    lemma_insert_position_bound(s, f);
    if s.len() > 0 {
        let t = s.drop_first();
        assert(largest_first(t)) by {
            assert forall|i: int, j: int| 0 <= i < j < t.len() implies #[trigger] t[i].2 >= #[trigger] t[j].2 by {
                assert(t[i] == s[i + 1] && t[j] == s[j + 1]);
            }
        }
        lemma_insert_position_split(t, f);
        if s[0].2 >= f {
            assert forall|i: int| 0 <= i < insert_position(s, f) implies #[trigger] s[i].2 >= f by {
                if i > 0 {
                    assert(s[i] == t[i - 1]);
                }
            }
            assert forall|i: int| insert_position(s, f) <= i < s.len() implies #[trigger] s[i].2 < f by {
                assert(s[i] == t[i - 1]);
            }
        } else {
            assert forall|i: int| insert_position(s, f) <= i < s.len() implies #[trigger] s[i].2 < f by {
                if i > 0 {
                    assert(s[0].2 >= s[i].2);
                }
            }
        }
    }
}

/// The sort keeps the number of entries and puts the largest flows first.
pub proof fn lemma_sort_by_flow(s: Seq<(usize, usize, u32)>)
    ensures
        sort_by_flow(s).len() == s.len(),
        largest_first(sort_by_flow(s)),
    decreases s.len(),
{
    if s.len() > 0 {
        let d = s.drop_last();
        lemma_sort_by_flow(d);
        let r = sort_by_flow(d);
        let e = s.last();
        let p = insert_position(r, e.2);
        lemma_insert_position_bound(r, e.2);
        lemma_insert_position_split(r, e.2);
        let q = r.insert(p, e);
        assert forall|i: int, j: int| 0 <= i < j < q.len() implies #[trigger] q[i].2 >= #[trigger] q[j].2 by {
            if j < p {
                assert(q[i] == r[i] && q[j] == r[j]);
            } else if j == p {
                assert(q[i] == r[i]);
            } else if i < p {
                assert(q[i] == r[i] && q[j] == r[j - 1]);
            } else if i == p {
                assert(q[j] == r[j - 1]);
            } else {
                assert(q[i] == r[i - 1] && q[j] == r[j - 1]);
            }
        }
    }
}

/// Every entry of the sorted list is an entry of `s`.
pub proof fn lemma_sort_by_flow_from(s: Seq<(usize, usize, u32)>, j: int)
    requires
        0 <= j < s.len(),
    ensures
        exists|i: int| 0 <= i < s.len() && sort_by_flow(s)[j] == #[trigger] s[i],
    decreases s.len(),
{
    let d = s.drop_last();
    let r = sort_by_flow(d);
    let e = s.last();
    let p = insert_position(r, e.2);
    lemma_sort_by_flow(d);
    lemma_insert_position_bound(r, e.2);
    let q = r.insert(p, e);
    if j == p {
        assert(q[j] == s[s.len() - 1]);
    } else {
        let k = if j < p { j } else { j - 1 };
        assert(q[j] == r[k]);
        lemma_sort_by_flow_from(d, k);
        let i0 = choose|i: int| 0 <= i < d.len() && r[k] == #[trigger] d[i];
        assert(d[i0] == s[i0]);
    }
}

/// Every entry of `s` is an entry of the sorted list.
pub proof fn lemma_sort_by_flow_keeps(s: Seq<(usize, usize, u32)>, i: int)
    requires
        0 <= i < s.len(),
    ensures
        exists|j: int| 0 <= j < s.len() && #[trigger] sort_by_flow(s)[j] == s[i],
    decreases s.len(),
{
    let d = s.drop_last();
    let r = sort_by_flow(d);
    let e = s.last();
    let p = insert_position(r, e.2);
    lemma_sort_by_flow(d);
    lemma_insert_position_bound(r, e.2);
    let q = r.insert(p, e);
    assert(sort_by_flow(s) == q);
    if i == s.len() - 1 {
        assert(sort_by_flow(s)[p] == s[i]);
    } else {
        assert(d[i] == s[i]);
        lemma_sort_by_flow_keeps(d, i);
        let j0 = choose|j: int| 0 <= j < d.len() && #[trigger] r[j] == d[i];
        if j0 < p {
            assert(sort_by_flow(s)[j0] == s[i]);
        } else {
            assert(sort_by_flow(s)[j0 + 1] == s[i]);
        }
    }
}

/// Sort `entries` by flow, largest first, keeping entries of equal flow in
/// the order they come.
pub fn sort_by_flow_desc(entries: &Vec<(usize, usize, u32)>) -> (sorted: Vec<(usize, usize, u32)>)
    ensures
        sorted@ == sort_by_flow(entries@),
        sorted.len() == entries.len(),
{
    let ghost cands = entries@;
    let mut sorted: Vec<(usize, usize, u32)> = Vec::new();
    let mut k: usize = 0;
    while k < entries.len()
        invariant
            cands == entries@,
            k <= cands.len(),
            sorted@ == sort_by_flow(cands.take(k as int)),
            sorted.len() == k,
        decreases cands.len() - k,
    {
        let e = entries[k];
        let mut p: usize = 0;
        assert(sorted@.skip(0) =~= sorted@);
        while p < sorted.len() && sorted[p].2 >= e.2
            invariant
                p <= sorted.len(),
                insert_position(sorted@, e.2) == p + insert_position(sorted@.skip(p as int), e.2),
            decreases sorted.len() - p,
        {
            proof {
                assert(sorted@.skip(p as int).drop_first() =~= sorted@.skip(p as int + 1));
            }
            p = p + 1;
        }
        proof {
            if p < sorted.len() {
                assert(sorted@.skip(p as int)[0] == sorted@[p as int]);
            }
            assert(cands.take(k as int + 1).drop_last() =~= cands.take(k as int));
            assert(cands.take(k as int + 1).last() == e);
        }
        sorted.insert(p, e);
        k = k + 1;
    }
    assert(cands.take(k as int) =~= cands);
    sorted
}

} // verus!
