//! Identical-by-descent segment computation over run-length strands:
//! interval lists, their coverage semantics, and the merge walk that finds
//! the positions where two strands carry the same founder id.

use vstd::prelude::*;

use crate::diploid::{founder_at, Diploid, Genome};
use crate::serializer::sort_u128;

verus! {

/// Every interval is nonempty and consecutive intervals are strictly
/// separated (`prev.1 < next.0`).
pub open spec fn intervals_wf(s: Seq<(u32, u32)>) -> bool {
    &&& forall|i: int| 0 <= i < s.len() ==> (#[trigger] s[i]).0 < s[i].1
    &&& forall|i: int, j: int|
        0 <= i < j < s.len() ==> (#[trigger] s[i]).1 < (#[trigger] s[j]).0
}

/// Weaker shape: nonempty intervals, sorted, but adjacent intervals may
/// touch (`prev.1 == next.0`).
pub open spec fn intervals_sorted(s: Seq<(u32, u32)>) -> bool {
    &&& forall|i: int| 0 <= i < s.len() ==> (#[trigger] s[i]).0 < s[i].1
    &&& forall|i: int, j: int|
        0 <= i < j < s.len() ==> (#[trigger] s[i]).1 <= (#[trigger] s[j]).0
}

/// Whether position `p` lies inside some interval of the list.
pub open spec fn covered(s: Seq<(u32, u32)>, p: int) -> bool {
    exists|i: int| 0 <= i < s.len() && (#[trigger] s[i]).0 <= p < s[i].1
}

/// A list whose adjacent intervals are in order is sorted as a whole.
pub proof fn lemma_sorted_from_adjacent(s: Seq<(u32, u32)>)
    requires
        forall|i: int| 0 <= i < s.len() ==> (#[trigger] s[i]).0 < s[i].1,
        forall|i: int| 0 <= i < s.len() - 1 ==> (#[trigger] s[i]).1 <= s[i + 1].0,
    ensures
        intervals_sorted(s),
{
    assert forall|i: int, j: int|
        0 <= i < j < s.len() implies (#[trigger] s[i]).1 <= (#[trigger] s[j]).0 by {
        lemma_sorted_pair(s, i, j);
    }
}

proof fn lemma_sorted_pair(s: Seq<(u32, u32)>, i: int, j: int)
    requires
        forall|i: int| 0 <= i < s.len() ==> (#[trigger] s[i]).0 < s[i].1,
        forall|i: int| 0 <= i < s.len() - 1 ==> (#[trigger] s[i]).1 <= s[i + 1].0,
        0 <= i < j < s.len(),
    ensures
        s[i].1 <= s[j].0,
    decreases j - i,
{
    if i + 1 < j {
        lemma_sorted_pair(s, i, j - 1);
        assert(s[j - 1].1 <= s[j].0);
        assert(s[j - 1].0 < s[j - 1].1);
    }
}

/// Coverage of the tail of a strictly separated list: exactly the covered
/// positions at or past the end of the first interval.
proof fn lemma_drop_first_covered(s: Seq<(u32, u32)>, p: int)
    requires
        intervals_wf(s),
        s.len() > 0,
    ensures
        covered(s.drop_first(), p) <==> (covered(s, p) && s[0].1 <= p),
{
    let t = s.drop_first();
    if covered(t, p) {
        let i = choose|i: int| 0 <= i < t.len() && (#[trigger] t[i]).0 <= p < t[i].1;
        assert(t[i] == s[i + 1]);
        assert(s[i + 1].0 <= p < s[i + 1].1);
        assert(covered(s, p));
        assert(s[0].1 < s[i + 1].0);
    }
    if covered(s, p) && s[0].1 <= p {
        let i = choose|i: int| 0 <= i < s.len() && (#[trigger] s[i]).0 <= p < s[i].1;
        assert(i > 0);
        assert(t[i - 1] == s[i]);
        assert(covered(t, p));
    }
}

/// Two strictly separated interval lists covering the same positions are
/// the same list: an interval list in canonical form is determined by its
/// coverage.
pub proof fn lemma_coverage_unique(x: Seq<(u32, u32)>, y: Seq<(u32, u32)>)
    requires
        intervals_wf(x),
        intervals_wf(y),
        forall|p: int| covered(x, p) <==> covered(y, p),
    ensures
        x =~= y,
    decreases x.len(),
{
    if x.len() == 0 {
        if y.len() > 0 {
            assert(covered(y, y[0].0 as int));
            assert(false);
        }
    } else if y.len() == 0 {
        assert(covered(x, x[0].0 as int));
        assert(false);
    } else {
        // equal first starts
        assert(x[0].0 == y[0].0) by {
            assert(covered(x, x[0].0 as int));
            assert(covered(y, y[0].0 as int));
            let jx = choose|j: int| 0 <= j < y.len() && (#[trigger] y[j]).0 <= x[0].0 < y[j].1;
            let jy = choose|j: int| 0 <= j < x.len() && (#[trigger] x[j]).0 <= y[0].0 < x[j].1;
            if jx > 0 {
                assert(y[0].1 < y[jx].0);
            }
            if jy > 0 {
                assert(x[0].1 < x[jy].0);
            }
        }
        // equal first ends
        assert(x[0].1 == y[0].1) by {
            if x[0].1 < y[0].1 {
                assert(covered(y, x[0].1 as int));
                let i = choose|i: int| 0 <= i < x.len() && (#[trigger] x[i]).0 <= x[0].1 < x[i].1;
                assert(i > 0);
                assert(x[0].1 < x[i].0);
                assert(false);
            }
            if y[0].1 < x[0].1 {
                assert(covered(x, y[0].1 as int));
                let i = choose|i: int| 0 <= i < y.len() && (#[trigger] y[i]).0 <= y[0].1 < y[i].1;
                assert(i > 0);
                assert(y[0].1 < y[i].0);
                assert(false);
            }
        }
        let xt = x.drop_first();
        let yt = y.drop_first();
        assert(intervals_wf(xt)) by {
            assert(forall|i: int| 0 <= i < xt.len() ==> xt[i] == x[i + 1]);
        }
        assert(intervals_wf(yt)) by {
            assert(forall|i: int| 0 <= i < yt.len() ==> yt[i] == y[i + 1]);
        }
        assert forall|p: int| covered(xt, p) <==> covered(yt, p) by {
            lemma_drop_first_covered(x, p);
            lemma_drop_first_covered(y, p);
        }
        lemma_coverage_unique(xt, yt);
        assert forall|i: int| 0 <= i < x.len() implies x[i] == y[i] by {
            if i > 0 {
                assert(xt[i - 1] == yt[i - 1]);
            }
        }
    }
}

/// A strictly separated interval list that covers exactly `[s0, end)` is
/// the single interval `(s0, end)`. In particular, comparing a strand with
/// itself yields the whole strand after consolidation.
pub proof fn lemma_full_coverage_single(segs: Seq<(u32, u32)>, s0: u32, end: u32)
    requires
        intervals_wf(segs),
        s0 < end,
        forall|p: int| covered(segs, p) <==> (s0 <= p < end),
    ensures
        segs =~= seq![(s0, end)],
{
    let y: Seq<(u32, u32)> = seq![(s0, end)];
    assert forall|p: int| covered(segs, p) <==> covered(y, p) by {
        if s0 <= p < end {
            assert(y[0].0 <= p < y[0].1);
            assert(covered(y, p));
        }
        if covered(y, p) {
            let i = choose|i: int| 0 <= i < y.len() && (#[trigger] y[i]).0 <= p < y[i].1;
            assert(i == 0);
        }
    }
    lemma_coverage_unique(segs, y);
}

/// A strictly separated interval list that covers nothing is empty.
pub proof fn lemma_empty_coverage(segs: Seq<(u32, u32)>)
    requires
        intervals_wf(segs),
        forall|p: int| !covered(segs, p),
    ensures
        segs =~= Seq::<(u32, u32)>::empty(),
{
    lemma_coverage_unique(segs, Seq::<(u32, u32)>::empty());
}

/// Positions covered by a touching chain `s[lo..=hi]` form exactly the
/// interval `[s[lo].0, s[hi].1)`.
proof fn lemma_chain_coverage(s: Seq<(u32, u32)>, lo: int, hi: int, p: int)
    requires
        0 <= lo <= hi < s.len(),
        forall|i: int| 0 <= i < s.len() ==> (#[trigger] s[i]).0 < s[i].1,
        forall|k: int| lo <= k < hi ==> (#[trigger] s[k]).1 == s[k + 1].0,
    ensures
        s[lo].0 < s[hi].1,
        (s[lo].0 <= p < s[hi].1) <==> exists|k: int|
            lo <= k <= hi && (#[trigger] s[k]).0 <= p < s[k].1,
    decreases hi - lo,
{
    if lo == hi {
        if s[lo].0 <= p < s[hi].1 {
            assert(s[lo].0 <= p < s[lo].1);
        }
    } else {
        lemma_chain_coverage(s, lo, hi - 1, p);
        assert(s[hi - 1].1 == s[hi].0);
        if s[lo].0 <= p < s[hi].1 {
            if p < s[hi - 1].1 {
                let k = choose|k: int| lo <= k <= hi - 1 && (#[trigger] s[k]).0 <= p < s[k].1;
                assert(lo <= k <= hi && s[k].0 <= p < s[k].1);
            } else {
                assert(s[hi].0 <= p < s[hi].1);
            }
        }
        if exists|k: int| lo <= k <= hi && (#[trigger] s[k]).0 <= p < s[k].1 {
            let k = choose|k: int| lo <= k <= hi && (#[trigger] s[k]).0 <= p < s[k].1;
            if k <= hi - 1 {
                assert(s[lo].0 <= p < s[hi - 1].1);
            } else {
                assert(s[hi].0 == s[hi - 1].1);
            }
        }
    }
}


proof fn lemma_covered_push(s: Seq<(u32, u32)>, e: (u32, u32), p: int)
    ensures
        covered(s.push(e), p) <==> (covered(s, p) || (e.0 <= p < e.1)),
{
    if covered(s.push(e), p) {
        let k = choose|k: int|
            0 <= k < s.push(e).len() && (#[trigger] s.push(e)[k]).0 <= p < s.push(e)[k].1;
        if k < s.len() {
            assert(s[k] == s.push(e)[k]);
            assert(covered(s, p));
        }
    }
    if covered(s, p) {
        let k = choose|k: int| 0 <= k < s.len() && (#[trigger] s[k]).0 <= p < s[k].1;
        assert(s.push(e)[k] == s[k]);
        assert(covered(s.push(e), p));
    }
    if e.0 <= p < e.1 {
        assert(s.push(e)[s.len() as int] == e);
        assert(covered(s.push(e), p));
    }
}

proof fn lemma_covered_take_between(s: Seq<(u32, u32)>, n1: int, n2: int, p: int)
    requires
        0 <= n1 <= n2 <= s.len(),
    ensures
        covered(s.take(n2), p) <==> (covered(s.take(n1), p) || exists|k: int|
            n1 <= k < n2 && (#[trigger] s[k]).0 <= p < s[k].1),
{
    if covered(s.take(n2), p) {
        let m = choose|m: int|
            0 <= m < s.take(n2).len() && (#[trigger] s.take(n2)[m]).0 <= p < s.take(n2)[m].1;
        assert(s.take(n2)[m] == s[m]);
        if m < n1 {
            assert(s.take(n1)[m] == s[m]);
            assert(covered(s.take(n1), p));
        } else {
            assert(n1 <= m < n2 && s[m].0 <= p < s[m].1);
        }
    }
    if covered(s.take(n1), p) {
        let m = choose|m: int|
            0 <= m < s.take(n1).len() && (#[trigger] s.take(n1)[m]).0 <= p < s.take(n1)[m].1;
        assert(s.take(n2)[m] == s[m]);
        assert(covered(s.take(n2), p));
    }
    if exists|k: int| n1 <= k < n2 && (#[trigger] s[k]).0 <= p < s[k].1 {
        let k = choose|k: int| n1 <= k < n2 && (#[trigger] s[k]).0 <= p < s[k].1;
        assert(s.take(n2)[k] == s[k]);
        assert(covered(s.take(n2), p));
    }
}

/// Fuse adjacent intervals whose endpoints touch, yielding the canonical
/// strictly separated list with the same coverage. On a list that is
/// already strictly separated this is the identity, so consolidation is
/// idempotent.
#[verifier::loop_isolation(false)]
#[verifier::spinoff_prover]
#[verifier::rlimit(100)]
pub fn consolidate_sequence(sequence: &Vec<(u32, u32)>) -> (r: Vec<(u32, u32)>)
    requires
        sequence@.len() >= 1,
        intervals_sorted(sequence@),
    ensures
        intervals_wf(r@),
        r@.len() >= 1,
        forall|p: int| covered(r@, p) <==> covered(sequence@, p),
        r@[0].0 == sequence@[0].0,
        r@.last().1 == sequence@.last().1,
        intervals_wf(sequence@) ==> r@ == sequence@,
{
    let ghost s = sequence@;
    let mut consolidated: Vec<(u32, u32)> = Vec::new();
    let mut i: usize = 0;
    let mut j: usize = 1;
    while j < sequence.len()
        invariant
            1 <= j <= s.len(),
            i < j,
            forall|k: int| i <= k < j - 1 ==> (#[trigger] s[k]).1 == s[k + 1].0,
            forall|k: int| 0 <= k < consolidated@.len() ==> (#[trigger] consolidated@[k]).0
                < consolidated@[k].1,
            forall|k1: int, k2: int|
                0 <= k1 < k2 < consolidated@.len() ==> (#[trigger] consolidated@[k1]).1
                    < (#[trigger] consolidated@[k2]).0,
            consolidated@.len() > 0 ==> consolidated@.last().1 < s[i as int].0,
            consolidated@.len() == 0 <==> i == 0,
            consolidated@.len() > 0 ==> consolidated@[0].0 == s[0].0,
            forall|p: int| covered(consolidated@, p) <==> covered(s.take(i as int), p),
            intervals_wf(s) ==> consolidated@ == s.take(i as int) && i + 1 == j,
        decreases s.len() - j,
    {
        let ghost pre_cons = consolidated@;
        let ghost pre_i = i as int;
        if sequence[j - 1].1 != sequence[j].0 {
            consolidated.push((sequence[i].0, sequence[j - 1].1));
            proof {
                lemma_chain_coverage(s, pre_i, j - 1, 0);
                assert(s[j - 1].1 <= s[j as int].0);
                assert(s[j - 1].1 < s[j as int].0);
                assert forall|p: int|
                    covered(consolidated@, p) <==> covered(s.take(j as int), p) by {
                    lemma_covered_push(pre_cons, (s[pre_i].0, s[j - 1].1), p);
                    lemma_chain_coverage(s, pre_i, j - 1, p);
                    lemma_covered_take_between(s, pre_i, j as int, p);
                    assert((s[pre_i].0 <= p < s[j - 1].1) <==> exists|k: int|
                        pre_i <= k < j && (#[trigger] s[k]).0 <= p < s[k].1) by {
                        if exists|k: int| pre_i <= k <= j - 1 && (#[trigger] s[k]).0 <= p < s[k].1 {
                            let k = choose|k: int|
                                pre_i <= k <= j - 1 && (#[trigger] s[k]).0 <= p < s[k].1;
                        }
                        if exists|k: int| pre_i <= k < j && (#[trigger] s[k]).0 <= p < s[k].1 {
                            let k = choose|k: int|
                                pre_i <= k < j && (#[trigger] s[k]).0 <= p < s[k].1;
                        }
                    }
                }
                if intervals_wf(s) {
                    assert(pre_i + 1 == j);
                    assert(consolidated@ =~= s.take(j as int));
                }
            }
            i = j;
        }
        j = j + 1;
    }
    let ghost pre_cons = consolidated@;
    let ghost pre_i = i as int;
    consolidated.push((sequence[i].0, sequence[sequence.len() - 1].1));
    proof {
        lemma_chain_coverage(s, pre_i, s.len() - 1, 0);
        assert forall|p: int| covered(consolidated@, p) <==> covered(s, p) by {
            lemma_covered_push(pre_cons, (s[pre_i].0, s[s.len() - 1].1), p);
            lemma_chain_coverage(s, pre_i, s.len() - 1, p);
            lemma_covered_take_between(s, pre_i, s.len() as int, p);
            assert(s.take(s.len() as int) =~= s);
            assert((s[pre_i].0 <= p < s[s.len() - 1].1) <==> exists|k: int|
                pre_i <= k < s.len() && (#[trigger] s[k]).0 <= p < s[k].1) by {
                if exists|k: int| pre_i <= k <= s.len() - 1 && (#[trigger] s[k]).0 <= p < s[k].1 {
                    let k = choose|k: int|
                        pre_i <= k <= s.len() - 1 && (#[trigger] s[k]).0 <= p < s[k].1;
                }
                if exists|k: int| pre_i <= k < s.len() && (#[trigger] s[k]).0 <= p < s[k].1 {
                    let k = choose|k: int| pre_i <= k < s.len() && (#[trigger] s[k]).0 <= p < s[k].1;
                }
            }
        }
        if intervals_wf(s) {
            assert(pre_i + 1 == s.len());
            assert(consolidated@ =~= s);
        }
    }
    consolidated
}


/// End of run `i` of strand `d`: the next boundary, or the strand's end
/// for the final run.
pub open spec fn run_stop(d: Diploid, i: int) -> int {
    if i + 1 < d.starts@.len() {
        d.starts@[i + 1] as int
    } else {
        d.end as int
    }
}

/// What `common_homolog_segments` returns: a strictly separated interval
/// list covering exactly the positions where the two strands carry the
/// same founder id.
pub open spec fn is_common_segments(a: Diploid, b: Diploid, s: Seq<(u32, u32)>) -> bool {
    &&& intervals_wf(s)
    &&& forall|p: int|
        covered(s, p) <==> (a.starts@[0] <= p < a.end && founder_at(a, p) == founder_at(b, p))
}

/// Merge-walk two run-length strands over the same base-pair interval and
/// collect the consolidated intervals on which their founder ids agree.
#[verifier::loop_isolation(false)]
#[verifier::rlimit(100)]
pub fn common_homolog_segments(homolog_a: &Diploid, homolog_b: &Diploid) -> (r: Vec<(u32, u32)>)
    requires
        homolog_a.wf(),
        homolog_b.wf(),
        homolog_a.starts@[0] == homolog_b.starts@[0],
        homolog_a.end == homolog_b.end,
    ensures
        is_common_segments(*homolog_a, *homolog_b, r@),
        r@ == common_of(*homolog_a, *homolog_b),
{
    let ghost a_seq = homolog_a.starts@;
    let ghost b_seq = homolog_b.starts@;
    let ghost s0 = homolog_a.starts@[0] as int;
    let ghost end = homolog_a.end as int;
    let mut shared_segments: Vec<(u32, u32)> = Vec::new();
    let mut index_a: usize = 0;
    let mut index_b: usize = 0;
    let alen = homolog_a.starts.len();
    let blen = homolog_b.starts.len();
    while index_a < alen && index_b < blen
        invariant
            index_a <= a_seq.len(),
            index_b <= b_seq.len(),
            (index_a < a_seq.len()) == (index_b < b_seq.len()),
            index_a < a_seq.len() ==> (a_seq[index_a as int] as int) < run_stop(
                *homolog_b,
                index_b as int,
            ) && (b_seq[index_b as int] as int) < run_stop(*homolog_a, index_a as int),
            forall|k: int|
                0 <= k < shared_segments@.len() ==> (#[trigger] shared_segments@[k]).0
                    < shared_segments@[k].1,
            forall|k1: int, k2: int|
                0 <= k1 < k2 < shared_segments@.len() ==> (#[trigger] shared_segments@[k1]).1
                    <= (#[trigger] shared_segments@[k2]).0,
            forall|k: int|
                0 <= k < shared_segments@.len() ==> s0 <= (#[trigger] shared_segments@[k]).0
                    && (shared_segments@[k].1 as int) <= walk_frontier(
                    *homolog_a,
                    *homolog_b,
                    index_a as int,
                    index_b as int,
                ),
            forall|p: int|
                p < walk_frontier(*homolog_a, *homolog_b, index_a as int, index_b as int) ==> (
                covered(shared_segments@, p) <==> (s0 <= p && founder_at(*homolog_a, p)
                    == founder_at(*homolog_b, p))),
        decreases a_seq.len() - index_a + b_seq.len() - index_b,
    {
        let ghost pre_shared = shared_segments@;
        let ghost pre_ia = index_a as int;
        let ghost pre_ib = index_b as int;
        let ghost pre_m = walk_frontier(*homolog_a, *homolog_b, pre_ia, pre_ib);
        let a_start = homolog_a.starts[index_a];
        let a_stop: u32 = if index_a + 1 < alen {
            homolog_a.starts[index_a + 1]
        } else {
            homolog_a.end
        };
        let a_id = homolog_a.founder[index_a];
        let b_start = homolog_b.starts[index_b];
        let b_stop: u32 = if index_b + 1 < blen {
            homolog_b.starts[index_b + 1]
        } else {
            homolog_b.end
        };
        let b_id = homolog_b.founder[index_b];
        let start: u32 = if a_start > b_start {
            a_start
        } else {
            b_start
        };
        let stop: u32 = if a_stop < b_stop {
            a_stop
        } else {
            b_stop
        };
        proof {
            assert(a_stop as int == run_stop(*homolog_a, pre_ia));
            assert(b_stop as int == run_stop(*homolog_b, pre_ib));
            assert(pre_m == start as int);
            assert(start < stop);
            // founder ids are constant on [start, stop)
            assert forall|p: int| start <= p < stop implies founder_at(*homolog_a, p) == a_id
                && founder_at(*homolog_b, p) == b_id by {
                crate::diploid::lemma_run_index_of(a_seq, p, pre_ia);
                crate::diploid::lemma_run_index_of(b_seq, p, pre_ib);
            }
        }
        if a_id == b_id {
            shared_segments.push((start, stop));
        }
        if a_stop == b_stop {
            index_a = index_a + 1;
            index_b = index_b + 1;
        } else if a_stop > b_stop {
            index_b = index_b + 1;
        } else {
            index_a = index_a + 1;
        }
        proof {
            // the two current runs still overlap, and the indices stay in step
            if index_a < a_seq.len() || index_b < b_seq.len() {
                if a_stop == b_stop {
                    assert(pre_ia + 1 < a_seq.len() ==> a_seq[pre_ia + 1] == a_stop);
                    assert(pre_ia + 1 == a_seq.len() ==> a_stop == homolog_a.end);
                    if pre_ia + 1 < a_seq.len() && pre_ib + 1 >= b_seq.len() {
                        assert(a_seq[pre_ia + 1] as int <= a_seq[a_seq.len() - 1]) by {
                            if pre_ia + 1 < a_seq.len() - 1 {
                                assert(a_seq[pre_ia + 1] < a_seq[a_seq.len() - 1]);
                            }
                        }
                        assert(false);
                    }
                    if pre_ia + 1 >= a_seq.len() && pre_ib + 1 < b_seq.len() {
                        assert(b_seq[pre_ib + 1] as int <= b_seq[b_seq.len() - 1]) by {
                            if pre_ib + 1 < b_seq.len() - 1 {
                                assert(b_seq[pre_ib + 1] < b_seq[b_seq.len() - 1]);
                            }
                        }
                        assert(false);
                    }
                } else if a_stop > b_stop {
                    assert(pre_ib + 1 < b_seq.len()) by {
                        if pre_ib + 1 >= b_seq.len() {
                            assert(b_stop == homolog_b.end);
                            assert(a_stop as int <= end);
                        }
                    }
                } else {
                    assert(pre_ia + 1 < a_seq.len()) by {
                        if pre_ia + 1 >= a_seq.len() {
                            assert(a_stop == homolog_a.end);
                            assert(b_stop as int <= end);
                        }
                    }
                }
            }
            let new_m = walk_frontier(*homolog_a, *homolog_b, index_a as int, index_b as int);
            assert(new_m == stop as int) by {
                if index_a < a_seq.len() {
                    if a_stop == b_stop {
                        assert(a_seq[index_a as int] == a_stop);
                        assert(b_seq[index_b as int] == b_stop);
                    } else if a_stop > b_stop {
                        assert(b_seq[index_b as int] == b_stop);
                        assert(a_seq[pre_ia] < b_stop);
                    } else {
                        assert(a_seq[index_a as int] == a_stop);
                        assert(b_seq[pre_ib] < a_stop);
                    }
                }
            }
            // coverage extends over the newly decided slice [pre_m, stop)
            assert forall|p: int|
                p < new_m implies (covered(shared_segments@, p) <==> (s0 <= p && founder_at(
                *homolog_a,
                p,
            ) == founder_at(*homolog_b, p))) by {
                if a_id == b_id {
                    assert(shared_segments@ == pre_shared.push((start, stop)));
                    if p < pre_m {
                        assert(covered(shared_segments@, p) <==> covered(pre_shared, p)) by {
                            if covered(pre_shared, p) {
                                let k = choose|k: int|
                                    0 <= k < pre_shared.len() && (#[trigger] pre_shared[k]).0 <= p
                                        < pre_shared[k].1;
                                assert(shared_segments@[k] == pre_shared[k]);
                            }
                            if covered(shared_segments@, p) {
                                let k = choose|k: int|
                                    0 <= k < shared_segments@.len()
                                        && (#[trigger] shared_segments@[k]).0 <= p
                                        < shared_segments@[k].1;
                                if k < pre_shared.len() {
                                    assert(covered(pre_shared, p));
                                } else {
                                    assert(shared_segments@[k] == (start, stop));
                                    assert(false);
                                }
                            }
                        }
                    } else {
                        assert(start as int <= p < stop as int);
                        assert(founder_at(*homolog_a, p) == a_id);
                        assert(covered(shared_segments@, p)) by {
                            assert(shared_segments@[pre_shared.len() as int] == (start, stop));
                        }
                    }
                } else {
                    if p < pre_m {
                    } else if p < stop as int {
                        assert(founder_at(*homolog_a, p) == a_id);
                        assert(founder_at(*homolog_b, p) == b_id);
                        assert(!covered(shared_segments@, p)) by {
                            if covered(shared_segments@, p) {
                                let k = choose|k: int|
                                    0 <= k < shared_segments@.len()
                                        && (#[trigger] shared_segments@[k]).0 <= p
                                        < shared_segments@[k].1;
                                assert(shared_segments@[k].1 as int <= pre_m);
                            }
                        }
                    }
                }
            }
        }
    }
    proof {
        assert(walk_frontier(*homolog_a, *homolog_b, index_a as int, index_b as int) == end);
    }
    if shared_segments.len() <= 1 {
        proof {
            assert forall|p: int|
                covered(shared_segments@, p) <==> (s0 <= p < end && founder_at(*homolog_a, p)
                    == founder_at(*homolog_b, p)) by {
                if covered(shared_segments@, p) {
                    let k = choose|k: int|
                        0 <= k < shared_segments@.len() && (#[trigger] shared_segments@[k]).0 <= p
                            < shared_segments@[k].1;
                }
            }
        }
        proof {
            lemma_common_of(*homolog_a, *homolog_b, shared_segments@);
        }
        return shared_segments;
    }
    let consolidated = consolidate_sequence(&shared_segments);
    proof {
        assert(intervals_sorted(shared_segments@));
        assert forall|p: int|
            covered(consolidated@, p) <==> (s0 <= p < end && founder_at(*homolog_a, p)
                == founder_at(*homolog_b, p)) by {
            if covered(shared_segments@, p) {
                let k = choose|k: int|
                    0 <= k < shared_segments@.len() && (#[trigger] shared_segments@[k]).0 <= p
                        < shared_segments@[k].1;
            }
        }
        lemma_common_of(*homolog_a, *homolog_b, consolidated@);
    }
    consolidated
}

/// Frontier of the merge walk: everything below it has been compared.
pub open spec fn walk_frontier(a: Diploid, b: Diploid, ia: int, ib: int) -> int {
    if ia < a.starts@.len() && ib < b.starts@.len() {
        if a.starts@[ia] >= b.starts@[ib] {
            a.starts@[ia] as int
        } else {
            b.starts@[ib] as int
        }
    } else {
        a.end as int
    }
}


/// The canonical common-segment list of two strands. By
/// `lemma_coverage_unique` there is exactly one interval list satisfying
/// `is_common_segments`, so this names it.
pub open spec fn common_of(x: Diploid, y: Diploid) -> Seq<(u32, u32)> {
    choose|s: Seq<(u32, u32)>| is_common_segments(x, y, s)
}

pub proof fn lemma_common_of(x: Diploid, y: Diploid, s: Seq<(u32, u32)>)
    requires
        is_common_segments(x, y, s),
    ensures
        common_of(x, y) == s,
{
    let c = common_of(x, y);
    assert(is_common_segments(x, y, c)) by {
        assert(exists|t: Seq<(u32, u32)>| is_common_segments(x, y, t)) by {
            assert(is_common_segments(x, y, s));
        }
    }
    lemma_coverage_unique(c, s);
}

/// Comparing a strand with itself yields the whole covered interval
/// `[starts[0], end)` as one segment, after consolidation.
pub proof fn lemma_self_common_segments(d: Diploid, s: Seq<(u32, u32)>)
    requires
        d.wf(),
        is_common_segments(d, d, s),
    ensures
        s =~= seq![(d.starts@[0], d.end)],
{
    assert(d.starts@[0] <= d.starts@[d.starts@.len() - 1]) by {
        if 0 < d.starts@.len() - 1 {
            assert(d.starts@[0] < d.starts@[d.starts@.len() - 1]);
        }
    }
    lemma_full_coverage_single(s, d.starts@[0], d.end);
}

/// Lengths of a list of intervals, in order.
pub open spec fn seg_lengths(s: Seq<(u32, u32)>) -> Seq<u32> {
    s.map_values(|seg: (u32, u32)| (seg.1 - seg.0) as u32)
}

/// The length of each segment, in order.
pub fn lengths(segments: &Vec<(u32, u32)>) -> (r: Vec<u32>)
    requires
        forall|i: int| 0 <= i < segments@.len() ==> (#[trigger] segments@[i]).0 <= segments@[i].1,
    ensures
        r@ == seg_lengths(segments@),
{
    let mut ret: Vec<u32> = Vec::new();
    let mut i: usize = 0;
    while i < segments.len()
        invariant
            i <= segments@.len(),
            forall|k: int|
                0 <= k < segments@.len() ==> (#[trigger] segments@[k]).0 <= segments@[k].1,
            ret@ == seg_lengths(segments@.take(i as int)),
        decreases segments@.len() - i,
    {
        let seg = segments[i];
        ret.push(seg.1 - seg.0);
        proof {
            assert(seg_lengths(segments@.take(i + 1)) =~= seg_lengths(
                segments@.take(i as int),
            ).push((seg.1 - seg.0) as u32));
        }
        i = i + 1;
    }
    proof {
        assert(segments@.take(segments@.len() as int) =~= segments@);
    }
    ret
}

fn append_all(dst: &mut Vec<u32>, src: &Vec<u32>)
    ensures
        final(dst)@ == old(dst)@ + src@,
{
    let mut i: usize = 0;
    while i < src.len()
        invariant
            i <= src@.len(),
            dst@ == old(dst)@ + src@.take(i as int),
        decreases src@.len() - i,
    {
        proof {
            assert(old(dst)@ + src@.take(i + 1) =~= (old(dst)@ + src@.take(i as int)).push(
                src@[i as int],
            ));
        }
        dst.push(src[i]);
        i = i + 1;
    }
    proof {
        assert(src@.take(src@.len() as int) =~= src@);
    }
}

/// Segment lengths of the four strand pairings of two genomes, mother of
/// `b` against both strands of `a` first, then father of `b`, as one flat
/// list. Appropriate when neither pedigree is inbred.
pub fn common_segment_lengths(a: &Genome, b: &Genome) -> (r: Vec<u32>)
    requires
        a.wf(),
        b.wf(),
        a.mother.starts@[0] == b.mother.starts@[0],
        a.mother.end == b.mother.end,
    ensures
        r@ == seg_lengths(common_of(a.mother, b.mother)) + seg_lengths(
            common_of(a.father, b.mother),
        ) + seg_lengths(common_of(a.mother, b.father)) + seg_lengths(
            common_of(a.father, b.father),
        ),
{
    let mut ret: Vec<u32> = Vec::new();
    let s1 = common_homolog_segments(&a.mother, &b.mother);
    let l1 = lengths(&s1);
    append_all(&mut ret, &l1);
    let s2 = common_homolog_segments(&a.father, &b.mother);
    let l2 = lengths(&s2);
    append_all(&mut ret, &l2);
    let s3 = common_homolog_segments(&a.mother, &b.father);
    let l3 = lengths(&s3);
    append_all(&mut ret, &l3);
    let s4 = common_homolog_segments(&a.father, &b.father);
    let l4 = lengths(&s4);
    append_all(&mut ret, &l4);
    proof {
        lemma_common_of(a.mother, b.mother, s1@);
        lemma_common_of(a.father, b.mother, s2@);
        lemma_common_of(a.mother, b.father, s3@);
        lemma_common_of(a.father, b.father, s4@);
    }
    ret
}


/// Length of the intersection of one region with the query region.
pub open spec fn overlap_amount(region: (u32, u32), q: (u32, u32)) -> int {
    let lo = if region.0 >= q.0 { region.0 as int } else { q.0 as int };
    let hi = if region.1 <= q.1 { region.1 as int } else { q.1 as int };
    if lo < hi { hi - lo } else { 0 }
}

/// Total overlap of a region list with the query region.
pub open spec fn total_overlap(regions: Seq<(u32, u32)>, q: (u32, u32)) -> int
    decreases regions.len(),
{
    if regions.len() == 0 {
        0
    } else {
        total_overlap(regions.drop_last(), q) + overlap_amount(regions.last(), q)
    }
}

proof fn lemma_total_overlap_take(regions: Seq<(u32, u32)>, q: (u32, u32), k: int)
    requires
        0 <= k < regions.len(),
    ensures
        total_overlap(regions.take(k + 1), q) == total_overlap(regions.take(k), q)
            + overlap_amount(regions[k], q),
{
    assert(regions.take(k + 1).drop_last() =~= regions.take(k));
}

/// Overlap with a sorted disjoint region list is nonnegative and never
/// exceeds the query region's own length.
pub proof fn lemma_total_overlap_bound(regions: Seq<(u32, u32)>, q: (u32, u32))
    requires
        intervals_sorted(regions),
    ensures
        0 <= total_overlap(regions, q),
        total_overlap(regions, q) <= (if q.0 < q.1 { q.1 - q.0 } else { 0 }),
        regions.len() > 0 ==> total_overlap(regions, q) <= (
        if (if regions.last().1 <= q.1 { regions.last().1 as int } else { q.1 as int })
            > q.0 as int {
            (if regions.last().1 <= q.1 {
                regions.last().1 as int
            } else {
                q.1 as int
            }) - q.0 as int
        } else {
            0
        }),
    decreases regions.len(),
{
    if regions.len() > 0 {
        let d = regions.drop_last();
        assert(intervals_sorted(d)) by {
            assert(forall|i: int| 0 <= i < d.len() ==> d[i] == regions[i]);
        }
        lemma_total_overlap_bound(d, q);
        if d.len() > 0 {
            assert(d.last() == regions[regions.len() - 2]);
            assert(regions[regions.len() - 2].1 <= regions[regions.len() - 1].0);
        }
    }
}

/// Sum of the overlaps of each listed region with the query region.
#[verifier::loop_isolation(false)]
pub fn size_of_overlap(regions: &Vec<(u32, u32)>, query_region: (u32, u32)) -> (r: u32)
    requires
        intervals_sorted(regions@),
    ensures
        r as int == total_overlap(regions@, query_region),
{
    let mut overlap: u32 = 0;
    let mut i: usize = 0;
    while i < regions.len()
        invariant
            i <= regions@.len(),
            overlap as int == total_overlap(regions@.take(i as int), query_region),
        decreases regions@.len() - i,
    {
        let region = regions[i];
        let start: u32 = if region.0 >= query_region.0 {
            region.0
        } else {
            query_region.0
        };
        let end: u32 = if region.1 <= query_region.1 {
            region.1
        } else {
            query_region.1
        };
        proof {
            lemma_total_overlap_take(regions@, query_region, i as int);
            assert(regions@.take(i + 1).last() == regions@[i as int]);
            assert(intervals_sorted(regions@.take(i + 1))) by {
                assert(forall|k: int|
                    0 <= k < i + 1 ==> regions@.take(i + 1)[k] == regions@[k]);
            }
            lemma_total_overlap_bound(regions@.take(i + 1), query_region);
        }
        if start < end {
            overlap = overlap + (end - start);
        }
        i = i + 1;
    }
    proof {
        assert(regions@.take(regions@.len() as int) =~= regions@);
    }
    overlap
}


/// What remains of one interval after removing a region: the left and
/// right remnants, each kept only if nonempty.
pub open spec fn cut_interval(run: (u32, u32), reg: (u32, u32)) -> Seq<(u32, u32)> {
    if run.1 <= reg.0 || reg.1 <= run.0 {
        seq![run]
    } else {
        (if run.0 < reg.0 {
            seq![(run.0, reg.0)]
        } else {
            Seq::<(u32, u32)>::empty()
        }) + (if reg.1 < run.1 {
            seq![(reg.1, run.1)]
        } else {
            Seq::<(u32, u32)>::empty()
        })
    }
}

/// Remove `reg` from every interval of the list.
pub open spec fn subtract_region_spec(s: Seq<(u32, u32)>, reg: (u32, u32)) -> Seq<(u32, u32)>
    decreases s.len(),
{
    if s.len() == 0 {
        Seq::<(u32, u32)>::empty()
    } else {
        subtract_region_spec(s.drop_last(), reg) + cut_interval(s.last(), reg)
    }
}

proof fn lemma_subtract_spec_take(s: Seq<(u32, u32)>, reg: (u32, u32), k: int)
    requires
        0 <= k < s.len(),
    ensures
        subtract_region_spec(s.take(k + 1), reg) == subtract_region_spec(s.take(k), reg)
            + cut_interval(s[k], reg),
{
    assert(s.take(k + 1).drop_last() =~= s.take(k));
}

/// Shape and coverage of the subtraction: the result is strictly
/// separated, stays within the original intervals, and covers exactly the
/// originally covered positions outside the removed region.
pub proof fn lemma_subtract_spec(s: Seq<(u32, u32)>, reg: (u32, u32))
    requires
        intervals_wf(s),
        reg.0 < reg.1,
    ensures
        intervals_wf(subtract_region_spec(s, reg)),
        s.len() == 0 ==> subtract_region_spec(s, reg).len() == 0,
        forall|k: int|
            0 <= k < subtract_region_spec(s, reg).len() ==> s.len() > 0
                && s[0].0 <= (#[trigger] subtract_region_spec(s, reg)[k]).0
                && subtract_region_spec(s, reg)[k].1 <= s.last().1,
    decreases s.len(),
{
    let r = subtract_region_spec(s, reg);
    if s.len() > 0 {
        let d = s.drop_last();
        assert(intervals_wf(d)) by {
            assert(forall|i: int| 0 <= i < d.len() ==> d[i] == s[i]);
        }
        lemma_subtract_spec(d, reg);
        let rd = subtract_region_spec(d, reg);
        let c = cut_interval(s.last(), reg);
        assert(r == rd + c);
        assert forall|k: int| 0 <= k < c.len() implies s.last().0 <= (#[trigger] c[k]).0
            && c[k].0 < c[k].1 && c[k].1 <= s.last().1 by {}
        if d.len() > 0 {
            assert(d.last() == s[s.len() - 2]);
            assert(s[s.len() - 2].1 < s[s.len() - 1].0);
        }
        assert forall|k1: int, k2: int|
            0 <= k1 < k2 < r.len() implies (#[trigger] r[k1]).1 < (#[trigger] r[k2]).0 by {
            if k2 < rd.len() {
                assert(r[k1] == rd[k1] && r[k2] == rd[k2]);
            } else if k1 >= rd.len() {
                assert(r[k1] == c[k1 - rd.len()] && r[k2] == c[k2 - rd.len()]);
                assert(c.len() == 2);
                assert(c[0].1 <= reg.0 && reg.1 <= c[1].0);
            } else {
                assert(r[k1] == rd[k1] && r[k2] == c[k2 - rd.len()]);
                assert(rd[k1].1 <= d.last().1);
                assert(s.last().0 <= c[k2 - rd.len()].0);
            }
        }
        assert forall|k: int| 0 <= k < r.len() implies (#[trigger] r[k]).0 < r[k].1 by {
            if k < rd.len() {
                assert(r[k] == rd[k]);
            } else {
                assert(r[k] == c[k - rd.len()]);
            }
        }
        assert forall|k: int|
            0 <= k < r.len() implies s[0].0 <= (#[trigger] r[k]).0 && r[k].1 <= s.last().1 by {
            if k < rd.len() {
                assert(r[k] == rd[k]);
                assert(d[0] == s[0]);
                assert(rd[k].1 <= d.last().1);
                assert(d.last().1 <= s.last().1) by {
                    assert(d.last() == s[s.len() - 2]);
                    assert(s[s.len() - 2].1 < s[s.len() - 1].0 < s[s.len() - 1].1);
                }
            } else {
                assert(r[k] == c[k - rd.len()]);
                assert(s[0].0 <= s.last().0) by {
                    if s.len() > 1 {
                        assert(s[0].1 < s[s.len() - 1].0);
                    }
                }
            }
        }
    }
}

/// Pointwise coverage of the subtraction.
pub proof fn lemma_subtract_spec_covered(s: Seq<(u32, u32)>, reg: (u32, u32), p: int)
    requires
        intervals_wf(s),
        reg.0 < reg.1,
    ensures
        covered(subtract_region_spec(s, reg), p) <==> (covered(s, p) && !(reg.0 <= p < reg.1)),
    decreases s.len(),
{
    let r = subtract_region_spec(s, reg);
    if s.len() == 0 {
        if covered(r, p) {
            let k = choose|k: int| 0 <= k < r.len() && (#[trigger] r[k]).0 <= p < r[k].1;
        }
        if covered(s, p) {
            let k = choose|k: int| 0 <= k < s.len() && (#[trigger] s[k]).0 <= p < s[k].1;
        }
    } else {
        let d = s.drop_last();
        assert(intervals_wf(d)) by {
            assert(forall|i: int| 0 <= i < d.len() ==> d[i] == s[i]);
        }
        lemma_subtract_spec_covered(d, reg, p);
        let rd = subtract_region_spec(d, reg);
        let c = cut_interval(s.last(), reg);
        assert(r == rd + c);
        // coverage of the cut pieces
        assert(covered(c, p) <==> (s.last().0 <= p < s.last().1 && !(reg.0 <= p < reg.1))) by {
            if covered(c, p) {
                let k = choose|k: int| 0 <= k < c.len() && (#[trigger] c[k]).0 <= p < c[k].1;
            }
            if s.last().0 <= p < s.last().1 && !(reg.0 <= p < reg.1) {
                if s.last().1 <= reg.0 || reg.1 <= s.last().0 {
                    assert(c[0] == s.last());
                    assert(covered(c, p));
                } else if p < reg.0 {
                    assert(c[0] == (s.last().0, reg.0));
                    assert(covered(c, p));
                } else {
                    assert(c.last() == (reg.1, s.last().1));
                    assert(covered(c, p));
                }
            }
        }
        assert(covered(r, p) <==> (covered(rd, p) || covered(c, p))) by {
            if covered(rd, p) {
                let k = choose|k: int| 0 <= k < rd.len() && (#[trigger] rd[k]).0 <= p < rd[k].1;
                assert(r[k] == rd[k]);
            }
            if covered(c, p) {
                let k = choose|k: int| 0 <= k < c.len() && (#[trigger] c[k]).0 <= p < c[k].1;
                assert(r[rd.len() + k] == c[k]);
            }
            if covered(r, p) {
                let k = choose|k: int| 0 <= k < r.len() && (#[trigger] r[k]).0 <= p < r[k].1;
                if k < rd.len() {
                    assert(rd[k] == r[k]);
                } else {
                    assert(c[k - rd.len()] == r[k]);
                }
            }
        }
        assert(covered(s, p) <==> (covered(d, p) || (s.last().0 <= p < s.last().1))) by {
            if covered(d, p) {
                let k = choose|k: int| 0 <= k < d.len() && (#[trigger] d[k]).0 <= p < d[k].1;
                assert(s[k] == d[k]);
            }
            if s.last().0 <= p < s.last().1 {
                assert(s[s.len() - 1].0 <= p < s[s.len() - 1].1);
            }
            if covered(s, p) {
                let k = choose|k: int| 0 <= k < s.len() && (#[trigger] s[k]).0 <= p < s[k].1;
                if k < d.len() {
                    assert(d[k] == s[k]);
                }
            }
        }
    }
}

/// Remove the region from every interval of the list, in place.
#[verifier::loop_isolation(false)]
pub fn subtract_region(a: &mut Vec<(u32, u32)>, region: &(u32, u32))
    requires
        intervals_wf(old(a)@),
        region.0 < region.1,
    ensures
        final(a)@ == subtract_region_spec(old(a)@, *region),
        intervals_wf(final(a)@),
{
    let ghost s = a@;
    let mut result: Vec<(u32, u32)> = Vec::new();
    let mut i: usize = 0;
    while i < a.len()
        invariant
            i <= s.len(),
            a@ == s,
            result@ == subtract_region_spec(s.take(i as int), *region),
        decreases s.len() - i,
    {
        let run = a[i];
        proof {
            lemma_subtract_spec_take(s, *region, i as int);
        }
        if run.1 <= region.0 || region.1 <= run.0 {
            result.push(run);
            proof {
                assert(result@ =~= subtract_region_spec(s.take(i as int), *region) + cut_interval(
                    run,
                    *region,
                ));
            }
        } else {
            let ghost mid = result@;
            if run.0 < region.0 {
                result.push((run.0, region.0));
            }
            if region.1 < run.1 {
                result.push((region.1, run.1));
            }
            proof {
                assert(result@ =~= mid + cut_interval(run, *region));
            }
        }
        i = i + 1;
    }
    proof {
        assert(s.take(s.len() as int) =~= s);
        lemma_subtract_spec(s, *region);
    }
    *a = result;
}

/// Fold of `subtract_region_spec` over a list of regions.
pub open spec fn subtract_regions_spec(s: Seq<(u32, u32)>, regs: Seq<(u32, u32)>) -> Seq<
    (u32, u32),
>
    decreases regs.len(),
{
    if regs.len() == 0 {
        s
    } else {
        subtract_regions_spec(subtract_region_spec(s, regs[0]), regs.drop_first())
    }
}

/// Remove every region of `b` from the intervals of `a`.
#[verifier::loop_isolation(false)]
pub fn subtract_regions(a: &mut Vec<(u32, u32)>, b: &Vec<(u32, u32)>)
    requires
        intervals_wf(old(a)@),
        intervals_wf(b@),
    ensures
        final(a)@ == subtract_regions_spec(old(a)@, b@),
        intervals_wf(final(a)@),
{
    let ghost s0 = a@;
    proof {
        assert(b@.skip(0) =~= b@);
    }
    let mut k: usize = 0;
    while k < b.len()
        invariant
            k <= b@.len(),
            intervals_wf(a@),
            subtract_regions_spec(a@, b@.skip(k as int)) == subtract_regions_spec(s0, b@),
        decreases b@.len() - k,
    {
        let ghost pre = a@;
        let region = b[k];
        proof {
            assert(b@.skip(k as int)[0] == b@[k as int]);
        }
        subtract_region(a, &region);
        proof {
            lemma_subtract_spec(pre, region);
            assert(b@.skip(k as int).drop_first() =~= b@.skip(k + 1));
            assert(subtract_regions_spec(pre, b@.skip(k as int)) == subtract_regions_spec(
                a@,
                b@.skip(k + 1),
            ));
        }
        k = k + 1;
    }
    proof {
        assert(b@.skip(b@.len() as int) =~= Seq::<(u32, u32)>::empty());
    }
}


proof fn lemma_covered_take_push(s: Seq<(u32, u32)>, k: int, p: int)
    requires
        0 <= k < s.len(),
    ensures
        covered(s.take(k + 1), p) <==> (covered(s.take(k), p) || (s[k].0 <= p < s[k].1)),
{
    if covered(s.take(k + 1), p) {
        let m = choose|m: int|
            0 <= m < s.take(k + 1).len() && (#[trigger] s.take(k + 1)[m]).0 <= p < s.take(
                k + 1,
            )[m].1;
        if m < k {
            assert(s.take(k)[m] == s[m]);
            assert(covered(s.take(k), p));
        }
    }
    if covered(s.take(k), p) {
        let m = choose|m: int|
            0 <= m < s.take(k).len() && (#[trigger] s.take(k)[m]).0 <= p < s.take(k)[m].1;
        assert(s.take(k + 1)[m] == s[m]);
        assert(covered(s.take(k + 1), p));
    }
    if s[k].0 <= p < s[k].1 {
        assert(s.take(k + 1)[k] == s[k]);
        assert(covered(s.take(k + 1), p));
    }
}

/// What `merge_overlaps` returns: the canonical strictly separated list
/// covering the union of the two inputs' coverages.
pub open spec fn is_merged(x: Seq<(u32, u32)>, y: Seq<(u32, u32)>, m: Seq<(u32, u32)>) -> bool {
    &&& intervals_wf(m)
    &&& forall|p: int| covered(m, p) <==> (covered(x, p) || covered(y, p))
}

/// The canonical merge, unique by `lemma_coverage_unique`.
pub open spec fn merged_of(x: Seq<(u32, u32)>, y: Seq<(u32, u32)>) -> Seq<(u32, u32)> {
    choose|m: Seq<(u32, u32)>| is_merged(x, y, m)
}

pub proof fn lemma_merged_of(x: Seq<(u32, u32)>, y: Seq<(u32, u32)>, m: Seq<(u32, u32)>)
    requires
        is_merged(x, y, m),
    ensures
        merged_of(x, y) == m,
{
    let c = merged_of(x, y);
    assert(is_merged(x, y, c)) by {
        assert(exists|t: Seq<(u32, u32)>| is_merged(x, y, t)) by {
            assert(is_merged(x, y, m));
        }
    }
    lemma_coverage_unique(c, m);
}

/// An interval packed into one sortable key: the packed order is the
/// (start, stop) lexicographic order the coalescing walk needs.
pub open spec fn pack_interval(iv: (u32, u32)) -> u128 {
    ((iv.0 as u128) << 32) | (iv.1 as u128)
}

/// Packing is invertible, and the packed order sorts by start first.
proof fn lemma_pack_interval(a: (u32, u32), b: (u32, u32))
    ensures
        pack_interval(a) == pack_interval(b) ==> a == b,
        pack_interval(a) <= pack_interval(b) ==> a.0 <= b.0,
{
    let a0 = a.0;
    let a1 = a.1;
    let b0 = b.0;
    let b1 = b.1;
    assert((((a0 as u128) << 32) | (a1 as u128)) == (((b0 as u128) << 32) | (b1 as u128)) ==> (a0
        == b0 && a1 == b1)) by (bit_vector);
    assert((((a0 as u128) << 32) | (a1 as u128)) <= (((b0 as u128) << 32) | (b1 as u128)) ==> a0
        <= b0) by (bit_vector);
}

/// Append every interval of `src`, packed, to `packed`.
#[verifier::loop_isolation(false)]
fn pack_intervals(packed: &mut Vec<u128>, src: &Vec<(u32, u32)>)
    ensures
        final(packed)@ == old(packed)@ + src@.map_values(|iv: (u32, u32)| pack_interval(iv)),
{
    let mut i: usize = 0;
    while i < src.len()
        invariant
            i <= src@.len(),
            packed@ == old(packed)@ + src@.take(i as int).map_values(
                |iv: (u32, u32)| pack_interval(iv),
            ),
        decreases src@.len() - i,
    {
        let iv = src[i];
        let key: u128 = ((iv.0 as u128) << 32) | (iv.1 as u128);
        proof {
            assert(key == pack_interval(iv));
            assert(old(packed)@ + src@.take(i + 1).map_values(
                |iv: (u32, u32)| pack_interval(iv),
            ) =~= (old(packed)@ + src@.take(i as int).map_values(
                |iv: (u32, u32)| pack_interval(iv),
            )).push(pack_interval(src@[i as int])));
        }
        packed.push(key);
        i = i + 1;
    }
    proof {
        assert(src@.take(src@.len() as int) =~= src@);
    }
}

/// Coalesce the intervals of both lists into the canonical strictly
/// separated list with the same coverage: the concatenation is sorted by
/// (start, stop) and overlapping or exactly touching intervals are fused.
/// The inputs need not be sorted or disjoint, only nonempty per interval.
#[verifier::loop_isolation(false)]
#[verifier::spinoff_prover]
#[verifier::rlimit(100)]
pub fn merge_overlaps(ibd_a: Vec<(u32, u32)>, ibd_b: Vec<(u32, u32)>) -> (r: Vec<(u32, u32)>)
    requires
        forall|i: int| 0 <= i < ibd_a@.len() ==> (#[trigger] ibd_a@[i]).0 < ibd_a@[i].1,
        forall|i: int| 0 <= i < ibd_b@.len() ==> (#[trigger] ibd_b@[i]).0 < ibd_b@[i].1,
    ensures
        is_merged(ibd_a@, ibd_b@, r@),
        r@ == merged_of(ibd_a@, ibd_b@),
{
    let ghost a_seq = ibd_a@;
    let ghost b_seq = ibd_b@;
    let mut packed: Vec<u128> = Vec::new();
    pack_intervals(&mut packed, &ibd_a);
    pack_intervals(&mut packed, &ibd_b);
    let ghost cat = a_seq + b_seq;
    proof {
        assert(packed@ =~= cat.map_values(|iv: (u32, u32)| pack_interval(iv)));
    }
    let ghost packed_seq = packed@;
    let sorted = sort_u128(packed);
    proof {
        crate::serializer::lemma_u128_total_order();
        packed_seq.lemma_sort_by_ensures(crate::serializer::u128_le_order());
        broadcast use vstd::seq_lib::group_to_multiset_ensures;

        assert(sorted@.to_multiset() =~= packed_seq.to_multiset());
        assert(sorted@.len() == packed_seq.len()) by {
            assert(sorted@.to_multiset().len() == sorted@.len());
            assert(packed_seq.to_multiset().len() == packed_seq.len());
        }
    }
    // unpack the keys; the result is ascending by start with every
    // interval nonempty, and it covers what the two inputs cover
    let mut all_ibd: Vec<(u32, u32)> = Vec::new();
    let mut k: usize = 0;
    while k < sorted.len()
        invariant
            k <= sorted@.len(),
            all_ibd@.len() == k,
            forall|m: int|
                0 <= m < k ==> pack_interval(#[trigger] all_ibd@[m]) == sorted@[m],
        decreases sorted@.len() - k,
    {
        let key = sorted[k];
        let low: u64 = #[verifier::truncate] (key as u64);
        let iv = (#[verifier::truncate] ((low >> 32) as u32), #[verifier::truncate] (low as u32));
        proof {
            broadcast use vstd::seq_lib::group_to_multiset_ensures;

            assert(sorted@.contains(sorted@[k as int]));
            assert(packed_seq.contains(sorted@[k as int]));
            let j = choose|j: int|
                0 <= j < packed_seq.len() && packed_seq[j] == sorted@[k as int];
            assert(packed_seq[j] == pack_interval(cat[j]));
            let src = cat[j];
            assert(key == pack_interval(src));
            let s0 = src.0;
            let s1 = src.1;
            assert({
                let kk = ((s0 as u128) << 32) | (s1 as u128);
                (((kk as u64) >> 32) as u32 == s0 && (kk as u64) as u32 == s1)
            }) by (bit_vector);
            assert(iv == src);
            assert(pack_interval(iv) == sorted@[k as int]);
        }
        all_ibd.push(iv);
        k = k + 1;
    }
    proof {
        broadcast use vstd::seq_lib::group_to_multiset_ensures;

        // every unpacked interval is one of the inputs' intervals, and
        // conversely, so coverage carries over; the packed order gives
        // ascending starts
        assert forall|m: int|
            0 <= m < all_ibd@.len() implies (#[trigger] all_ibd@[m]).0 < all_ibd@[m].1 by {
            assert(sorted@.contains(sorted@[m]));
            assert(packed_seq.contains(sorted@[m]));
            let j = choose|j: int| 0 <= j < packed_seq.len() && packed_seq[j] == sorted@[m];
            lemma_pack_interval(all_ibd@[m], cat[j]);
        }
        assert forall|m1: int, m2: int|
            0 <= m1 < m2 < all_ibd@.len() implies (#[trigger] all_ibd@[m1]).0
            <= (#[trigger] all_ibd@[m2]).0 by {
            assert(crate::serializer::u128_le_order()(sorted@[m1], sorted@[m2]));
            lemma_pack_interval(all_ibd@[m1], all_ibd@[m2]);
        }
        assert forall|p: int|
            covered(all_ibd@, p) <==> (covered(a_seq, p) || covered(b_seq, p)) by {
            if covered(all_ibd@, p) {
                let m = choose|m: int|
                    0 <= m < all_ibd@.len() && (#[trigger] all_ibd@[m]).0 <= p < all_ibd@[m].1;
                assert(sorted@.contains(sorted@[m]));
                assert(packed_seq.contains(sorted@[m]));
                let j = choose|j: int|
                    0 <= j < packed_seq.len() && packed_seq[j] == sorted@[m];
                lemma_pack_interval(all_ibd@[m], cat[j]);
                assert(cat[j] == all_ibd@[m]);
                if j < a_seq.len() {
                    assert(a_seq[j].0 <= p < a_seq[j].1);
                    assert(covered(a_seq, p));
                } else {
                    assert(b_seq[j - a_seq.len()].0 <= p < b_seq[j - a_seq.len()].1);
                    assert(covered(b_seq, p));
                }
            }
            if covered(a_seq, p) {
                let j = choose|j: int|
                    0 <= j < a_seq.len() && (#[trigger] a_seq[j]).0 <= p < a_seq[j].1;
                assert(cat[j] == a_seq[j]);
                assert(packed_seq[j] == pack_interval(cat[j]));
                assert(packed_seq.contains(packed_seq[j]));
                assert(packed_seq.to_multiset().count(packed_seq[j]) > 0);
                assert(sorted@.to_multiset().count(packed_seq[j]) > 0);
                assert(sorted@.contains(packed_seq[j]));
                let m = choose|m: int|
                    0 <= m < sorted@.len() && sorted@[m] == packed_seq[j];
                lemma_pack_interval(all_ibd@[m], cat[j]);
                assert(all_ibd@[m] == cat[j]);
                assert(covered(all_ibd@, p));
            }
            if covered(b_seq, p) {
                let j = choose|j: int|
                    0 <= j < b_seq.len() && (#[trigger] b_seq[j]).0 <= p < b_seq[j].1;
                assert(cat[a_seq.len() + j] == b_seq[j]);
                assert(packed_seq[a_seq.len() + j] == pack_interval(cat[a_seq.len() + j]));
                assert(packed_seq.contains(packed_seq[a_seq.len() + j]));
                assert(packed_seq.to_multiset().count(packed_seq[a_seq.len() + j]) > 0);
                assert(sorted@.to_multiset().count(packed_seq[a_seq.len() + j]) > 0);
                assert(sorted@.contains(packed_seq[a_seq.len() + j]));
                let m = choose|m: int|
                    0 <= m < sorted@.len() && sorted@[m] == packed_seq[a_seq.len() + j];
                lemma_pack_interval(all_ibd@[m], cat[a_seq.len() + j]);
                assert(all_ibd@[m] == cat[a_seq.len() + j]);
                assert(covered(all_ibd@, p));
            }
        }
    }
    let ghost flat = all_ibd@;
    let mut ret: Vec<(u32, u32)> = Vec::new();
    let mut i: usize = 0;
    while i < all_ibd.len()
        invariant
            i <= flat.len(),
            all_ibd@ == flat,
            forall|m: int| 0 <= m < flat.len() ==> (#[trigger] flat[m]).0 < flat[m].1,
            forall|m1: int, m2: int|
                0 <= m1 < m2 < flat.len() ==> (#[trigger] flat[m1]).0 <= (#[trigger] flat[m2]).0,
            forall|m: int| 0 <= m < ret@.len() ==> (#[trigger] ret@[m]).0 < ret@[m].1,
            forall|m1: int, m2: int|
                0 <= m1 < m2 < ret@.len() ==> (#[trigger] ret@[m1]).1 < (#[trigger] ret@[m2]).0,
            forall|p: int| covered(ret@, p) <==> covered(flat.take(i as int), p),
            ret@.len() > 0 && i < flat.len() ==> ret@.last().0 <= flat[i as int].0,
        decreases flat.len() - i,
    {
        let ghost pre_ret = ret@;
        let cur = all_ibd[i];
        if ret.len() == 0 {
            ret.push(cur);
        } else {
            let top = ret[ret.len() - 1];
            if cur.0 <= top.1 {
                let newend: u32 = if cur.1 > top.1 {
                    cur.1
                } else {
                    top.1
                };
                let _ = ret.pop();
                ret.push((top.0, newend));
                proof {
                    assert(ret@ == pre_ret.drop_last().push((top.0, newend)));
                    assert forall|m1: int, m2: int|
                        0 <= m1 < m2 < ret@.len() implies (#[trigger] ret@[m1]).1
                        < (#[trigger] ret@[m2]).0 by {
                        assert(ret@[m1] == pre_ret[m1]);
                    }
                }
            } else {
                ret.push(cur);
                proof {
                    assert forall|m1: int, m2: int|
                        0 <= m1 < m2 < ret@.len() implies (#[trigger] ret@[m1]).1
                        < (#[trigger] ret@[m2]).0 by {
                        if m2 < pre_ret.len() {
                            assert(ret@[m1] == pre_ret[m1] && ret@[m2] == pre_ret[m2]);
                        } else {
                            assert(ret@[m2] == cur);
                            assert(ret@[m1] == pre_ret[m1]);
                            assert(pre_ret[m1].1 <= pre_ret.last().1) by {
                                if m1 < pre_ret.len() - 1 {
                                    assert(pre_ret[m1].1 < pre_ret[pre_ret.len() - 1].0);
                                }
                            }
                        }
                    }
                }
            }
        }
        i = i + 1;
        proof {
            assert forall|p: int|
                covered(ret@, p) <==> covered(flat.take(i as int), p) by {
                lemma_covered_take_push(flat, i - 1, p);
                if pre_ret.len() == 0 {
                    assert(ret@ == pre_ret.push(cur));
                    lemma_covered_push(pre_ret, cur, p);
                } else {
                    let top = pre_ret.last();
                    if cur.0 <= top.1 {
                        let newend: u32 = if cur.1 > top.1 {
                            cur.1
                        } else {
                            top.1
                        };
                        assert(ret@ == pre_ret.drop_last().push((top.0, newend)));
                        assert(covered(ret@, p) <==> (covered(pre_ret, p) || (cur.0 <= p
                            < cur.1))) by {
                            if covered(ret@, p) {
                                let m = choose|m: int|
                                    0 <= m < ret@.len() && (#[trigger] ret@[m]).0 <= p
                                        < ret@[m].1;
                                if m < ret@.len() - 1 {
                                    assert(pre_ret[m] == ret@[m]);
                                    assert(covered(pre_ret, p));
                                } else {
                                    assert(top.0 <= p < newend);
                                    if p < top.1 {
                                        assert(pre_ret[pre_ret.len() - 1].0 <= p
                                            < pre_ret[pre_ret.len() - 1].1);
                                        assert(covered(pre_ret, p));
                                    } else {
                                        assert(cur.0 <= top.1 <= p < cur.1);
                                    }
                                }
                            }
                            if covered(pre_ret, p) {
                                let m = choose|m: int|
                                    0 <= m < pre_ret.len() && (#[trigger] pre_ret[m]).0 <= p
                                        < pre_ret[m].1;
                                if m < pre_ret.len() - 1 {
                                    assert(ret@[m] == pre_ret[m]);
                                    assert(covered(ret@, p));
                                } else {
                                    assert(ret@[ret@.len() - 1].0 <= p < ret@[ret@.len() - 1].1);
                                    assert(covered(ret@, p));
                                }
                            }
                            if cur.0 <= p < cur.1 {
                                assert(ret@[ret@.len() - 1] == (top.0, newend));
                                assert(top.0 <= cur.0);
                                assert(ret@[ret@.len() - 1].0 <= p < ret@[ret@.len() - 1].1);
                                assert(covered(ret@, p));
                            }
                        }
                    } else {
                        assert(ret@ == pre_ret.push(cur));
                        lemma_covered_push(pre_ret, cur, p);
                    }
                }
            }
        }
    }
    proof {
        assert(flat.take(flat.len() as int) =~= flat);
        lemma_merged_of(a_seq, b_seq, ret@);
    }
    ret
}

/// One step of inbreeding removal: drop the region from whichever side
/// overlaps it no more than the other, unless either side misses it
/// entirely.
pub open spec fn remove_step(a: Seq<(u32, u32)>, b: Seq<(u32, u32)>, reg: (u32, u32)) -> (
    Seq<(u32, u32)>,
    Seq<(u32, u32)>,
) {
    let oa = total_overlap(a, reg);
    let ob = total_overlap(b, reg);
    if oa == 0 || ob == 0 {
        (a, b)
    } else if oa < ob {
        (subtract_region_spec(a, reg), b)
    } else {
        (a, subtract_region_spec(b, reg))
    }
}

/// Fold of `remove_step` over the inbred regions.
pub open spec fn remove_spec(
    a: Seq<(u32, u32)>,
    b: Seq<(u32, u32)>,
    regs: Seq<(u32, u32)>,
) -> (Seq<(u32, u32)>, Seq<(u32, u32)>)
    decreases regs.len(),
{
    if regs.len() == 0 {
        (a, b)
    } else {
        let st = remove_step(a, b, regs[0]);
        remove_spec(st.0, st.1, regs.drop_first())
    }
}

/// For each inbred region of `b`, measure its overlap with the two sides
/// and remove it from the side with the lesser (or equal) overlap, to
/// avoid double-counting a segment inherited twice. Returns the two sides
/// concatenated, draining both inputs.
#[verifier::loop_isolation(false)]
pub fn remove_inbreeding(
    ibd_a: &mut Vec<(u32, u32)>,
    ibd_b: &mut Vec<(u32, u32)>,
    inbreeding: &Vec<(u32, u32)>,
) -> (r: Vec<(u32, u32)>)
    requires
        intervals_wf(old(ibd_a)@),
        intervals_wf(old(ibd_b)@),
        intervals_wf(inbreeding@),
    ensures
        r@ == remove_spec(old(ibd_a)@, old(ibd_b)@, inbreeding@).0 + remove_spec(
            old(ibd_a)@,
            old(ibd_b)@,
            inbreeding@,
        ).1,
        final(ibd_a)@.len() == 0,
        final(ibd_b)@.len() == 0,
{
    let ghost a0 = ibd_a@;
    let ghost b0 = ibd_b@;
    let ghost regs = inbreeding@;
    proof {
        assert(regs.skip(0) =~= regs);
    }
    let mut k: usize = 0;
    while k < inbreeding.len()
        invariant
            k <= regs.len(),
            intervals_wf(ibd_a@),
            intervals_wf(ibd_b@),
            remove_spec(ibd_a@, ibd_b@, regs.skip(k as int)) == remove_spec(a0, b0, regs),
        decreases regs.len() - k,
    {
        let ghost pre_a = ibd_a@;
        let ghost pre_b = ibd_b@;
        let region = inbreeding[k];
        proof {
            assert(regs.skip(k as int)[0] == regs[k as int]);
            assert(regs.skip(k as int).drop_first() =~= regs.skip(k + 1));
            assert(forall|i1: int, i2: int|
                0 <= i1 < i2 < ibd_a@.len() ==> (#[trigger] ibd_a@[i1]).1
                    <= (#[trigger] ibd_a@[i2]).0);
            assert(forall|i1: int, i2: int|
                0 <= i1 < i2 < ibd_b@.len() ==> (#[trigger] ibd_b@[i1]).1
                    <= (#[trigger] ibd_b@[i2]).0);
        }
        let a_overlap = size_of_overlap(&*ibd_a, region);
        let b_overlap = size_of_overlap(&*ibd_b, region);
        if a_overlap == 0 || b_overlap == 0 {
        } else if a_overlap < b_overlap {
            subtract_region(ibd_a, &region);
            proof {
                lemma_subtract_spec(pre_a, region);
            }
        } else {
            subtract_region(ibd_b, &region);
            proof {
                lemma_subtract_spec(pre_b, region);
            }
        }
        proof {
            assert((ibd_a@, ibd_b@) == remove_step(pre_a, pre_b, region));
        }
        k = k + 1;
    }
    proof {
        assert(regs.skip(regs.len() as int) =~= Seq::<(u32, u32)>::empty());
    }
    let mut ret: Vec<(u32, u32)> = Vec::new();
    ret.append(ibd_a);
    ret.append(ibd_b);
    ret
}

/// The identical-by-descent segments of two genomes when either pedigree
/// may be inbred: the canonical merge of the pairings against each strand
/// of `b`, with doubly-inherited inbred regions of `b` (not also inbred in
/// `a`) removed from one side.
pub open spec fn common_segments_inbreeding_spec(a: Genome, b: Genome) -> Seq<(u32, u32)> {
    let ibd_b_mother = merged_of(common_of(a.mother, b.mother), common_of(a.father, b.mother));
    let ibd_b_father = merged_of(common_of(a.mother, b.father), common_of(a.father, b.father));
    let b_inbreed = common_of(b.mother, b.father);
    if b_inbreed.len() == 0 {
        ibd_b_mother + ibd_b_father
    } else {
        let reduced = subtract_regions_spec(b_inbreed, common_of(a.mother, a.father));
        let st = remove_spec(ibd_b_mother, ibd_b_father, reduced);
        st.0 + st.1
    }
}

/// Compute the inbreeding-aware shared segments of two genomes.
pub fn common_segments_inbreeding(a: &Genome, b: &Genome) -> (r: Vec<(u32, u32)>)
    requires
        a.wf(),
        b.wf(),
        a.mother.starts@[0] == b.mother.starts@[0],
        a.mother.end == b.mother.end,
    ensures
        r@ == common_segments_inbreeding_spec(*a, *b),
{
    let s1 = common_homolog_segments(&a.mother, &b.mother);
    let s2 = common_homolog_segments(&a.father, &b.mother);
    let mut ibd_b_mother = merge_overlaps(s1, s2);
    let s3 = common_homolog_segments(&a.mother, &b.father);
    let s4 = common_homolog_segments(&a.father, &b.father);
    let mut ibd_b_father = merge_overlaps(s3, s4);
    let mut b_inbreed = common_homolog_segments(&b.mother, &b.father);
    if 0 < b_inbreed.len() {
        let a_inbreed = common_homolog_segments(&a.mother, &a.father);
        subtract_regions(&mut b_inbreed, &a_inbreed);
        remove_inbreeding(&mut ibd_b_mother, &mut ibd_b_father, &b_inbreed)
    } else {
        let mut ret: Vec<(u32, u32)> = Vec::new();
        ret.append(&mut ibd_b_mother);
        ret.append(&mut ibd_b_father);
        ret
    }
}


/// The maximal runs of positions at which two equal-length byte
/// sequences agree, as a strictly separated interval list.
#[verifier::loop_isolation(false)]
#[verifier::rlimit(60)]
pub fn compare(a: &[u8], b: &[u8]) -> (r: Vec<(u32, u32)>)
    requires
        a@.len() == b@.len(),
        a@.len() <= u32::MAX,
    ensures
        intervals_wf(r@),
        forall|p: int| covered(r@, p) <==> (0 <= p < a@.len() && a@[p] == b@[p]),
{
    let n = a.len();
    let mut res: Vec<(u32, u32)> = Vec::new();
    let mut run = false;
    let mut start: u32 = 0;
    let mut i: usize = 0;
    while i < n
        invariant
            i <= n,
            forall|k: int| 0 <= k < res@.len() ==> (#[trigger] res@[k]).0 < res@[k].1,
            forall|k1: int, k2: int|
                0 <= k1 < k2 < res@.len() ==> (#[trigger] res@[k1]).1 < (#[trigger] res@[k2]).0,
            run ==> (start as int) < i && (forall|k: int|
                start <= k < i ==> a@[k] == b@[k]) && (start == 0 || a@[start - 1] != b@[start
                - 1]),
            res@.len() > 0 ==> (res@.last().1 as int) <= i && a@[res@.last().1 as int]
                != b@[res@.last().1 as int],
            run && res@.len() > 0 ==> res@.last().1 < start,
            forall|p: int|
                covered(res@, p) <==> (0 <= p < i && a@[p] == b@[p] && !(run && start <= p)),
        decreases n - i,
    {
        let ghost pre_res = res@;
        let current_equal = a[i] == b[i];
        if !run && current_equal {
            run = true;
            start = i as u32;
        } else if !current_equal && run {
            res.push((start, i as u32));
            run = false;
            proof {
                assert forall|p: int|
                    covered(res@, p) <==> (0 <= p < i && a@[p] == b@[p]) by {
                    lemma_covered_push(pre_res, (start, i as u32), p);
                }
            }
        }
        i = i + 1;
        proof {
            assert forall|p: int|
                covered(res@, p) <==> (0 <= p < i && a@[p] == b@[p] && !(run && start <= p)) by {
                if p == i - 1 {
                }
            }
        }
    }
    if run {
        let ghost pre_res = res@;
        res.push((start, n as u32));
        proof {
            assert forall|p: int|
                covered(res@, p) <==> (0 <= p < n && a@[p] == b@[p]) by {
                lemma_covered_push(pre_res, (start, n as u32), p);
            }
        }
    }
    res
}

} // verus!
