//! Run-length representation of a haploid strand over founder identifiers.
//!
//! A strand covers the base-pair interval `[starts[0], end)`; `founder[i]` is
//! the founder id of every position in `[starts[i], starts[i+1])` (the last
//! run extends to `end`).

use vstd::prelude::*;

verus! {

/// One haploid chromosome copy, stored as a run-length sequence over
/// founder ids.
#[derive(Clone, Debug)]
pub struct Diploid {
    pub starts: Vec<u32>,
    pub founder: Vec<u32>,
    pub end: u32,
}

/// A pair of strands; the mother/father labels are a convention only.
#[derive(Clone, Debug)]
pub struct Genome {
    pub mother: Diploid,
    pub father: Diploid,
}

pub open spec fn strictly_increasing(s: Seq<u32>) -> bool {
    forall|i: int, j: int| 0 <= i < j < s.len() ==> s[i] < s[j]
}

impl Diploid {
    /// Well-formedness: parallel arrays, at least one run, strictly
    /// increasing offsets, and the last run nonempty.
    pub open spec fn wf(self) -> bool {
        &&& self.starts@.len() == self.founder@.len()
        &&& self.starts@.len() > 0
        &&& strictly_increasing(self.starts@)
        &&& self.starts@.last() < self.end
    }
}

impl Genome {
    /// Both strands cover the same base-pair interval.
    pub open spec fn wf(self) -> bool {
        &&& self.mother.wf()
        &&& self.father.wf()
        &&& self.mother.starts@[0] == self.father.starts@[0]
        &&& self.mother.end == self.father.end
    }
}

/// Index of the run covering position `p`: the largest `i` with
/// `starts[i] <= p` (0 if `p` precedes every run).
pub open spec fn run_index(starts: Seq<u32>, p: int) -> int
    decreases starts.len(),
{
    if starts.len() <= 1 {
        0
    } else if starts.last() <= p {
        starts.len() - 1
    } else {
        run_index(starts.drop_last(), p)
    }
}

/// The founder id covering position `p` of strand `d`.
pub open spec fn founder_at(d: Diploid, p: int) -> u32 {
    d.founder@[run_index(d.starts@, p)]
}

pub proof fn lemma_run_index_bounds(starts: Seq<u32>, p: int)
    requires
        strictly_increasing(starts),
        starts.len() > 0,
        starts[0] <= p,
    ensures
        0 <= run_index(starts, p) < starts.len(),
        starts[run_index(starts, p)] <= p,
        run_index(starts, p) + 1 < starts.len() ==> p < starts[run_index(starts, p) + 1],
    decreases starts.len(),
{
    if starts.len() <= 1 {
    } else if starts.last() <= p {
    } else {
        let pre = starts.drop_last();
        assert(strictly_increasing(pre));
        lemma_run_index_bounds(pre, p);
        let i = run_index(pre, p);
        if i + 1 < starts.len() {
            if i + 1 < pre.len() {
                assert(p < pre[i + 1]);
            } else {
                assert(i + 1 == starts.len() - 1);
            }
        }
    }
}

/// `run_index` is the unique index whose run contains `p`.
pub proof fn lemma_run_index_of(starts: Seq<u32>, p: int, i: int)
    requires
        strictly_increasing(starts),
        0 <= i < starts.len(),
        starts[i] <= p,
        i + 1 < starts.len() ==> p < starts[i + 1],
    ensures
        run_index(starts, p) == i,
    decreases starts.len(),
{
    if starts.len() <= 1 {
    } else if starts.last() <= p {
        if i < starts.len() - 1 {
            assert(p < starts[i + 1]);
            assert(starts[i + 1] <= starts[starts.len() - 1]);
        }
    } else {
        let pre = starts.drop_last();
        assert(strictly_increasing(pre));
        assert(i < starts.len() - 1);
        lemma_run_index_of(pre, p, i);
    }
}

/// First index at which `find` could be inserted keeping order: every
/// earlier element is smaller, every element from it on is at least `find`.
pub fn search_left(to_search: &Vec<u32>, find: u32) -> (i: usize)
    requires
        strictly_increasing(to_search@),
    ensures
        i <= to_search@.len(),
        forall|j: int| 0 <= j < i ==> to_search@[j] < find,
        forall|j: int| i <= j < to_search@.len() ==> find <= to_search@[j],
{
    let mut lo: usize = 0;
    let mut hi: usize = to_search.len();
    while lo < hi
        invariant
            strictly_increasing(to_search@),
            lo <= hi <= to_search@.len(),
            forall|j: int| 0 <= j < lo ==> to_search@[j] < find,
            forall|j: int| hi <= j < to_search@.len() ==> find <= to_search@[j],
        decreases hi - lo,
    {
        let mid = lo + (hi - lo) / 2;
        if to_search[mid] < find {
            lo = mid + 1;
        } else {
            hi = mid;
        }
    }
    lo
}

pub proof fn lemma_push_contains(s: Seq<u32>, e: u32)
    ensures
        forall|x: u32| #[trigger] s.push(e).contains(x) <==> (s.contains(x) || x == e),
{
    assert forall|x: u32| #[trigger] s.push(e).contains(x) <==> (s.contains(x) || x == e) by {
        if s.contains(x) {
            let i = choose|i: int| 0 <= i < s.len() && s[i] == x;
            assert(s.push(e)[i] == x);
        }
        if x == e {
            assert(s.push(e)[s.len() as int] == x);
        }
        if s.push(e).contains(x) {
            let i = choose|i: int| 0 <= i < s.push(e).len() && s.push(e)[i] == x;
            if i < s.len() {
                assert(s[i] == x);
            }
        }
    }
}

/// If `r` keeps every run boundary of `d` and labels each of its runs with
/// the founder id `d` has at that run's first position, then `r` describes
/// the same founder function as `d`.
pub proof fn lemma_founder_refines(d: Diploid, r: Diploid)
    requires
        d.wf(),
        r.wf(),
        r.end == d.end,
        r.starts@[0] == d.starts@[0],
        forall|x: u32| d.starts@.contains(x) ==> r.starts@.contains(x),
        forall|k: int|
            0 <= k < r.starts@.len() ==> r.founder@[k] == founder_at(d, r.starts@[k] as int),
    ensures
        forall|p: int|
            d.starts@[0] <= p < d.end ==> founder_at(r, p) == founder_at(d, p),
{
    assert forall|p: int|
        d.starts@[0] <= p < d.end implies founder_at(r, p) == founder_at(d, p) by {
        lemma_run_index_bounds(r.starts@, p);
        let k = run_index(r.starts@, p);
        let rs = r.starts@[k] as int;
        assert(r.starts@[0] <= r.starts@[k]) by {
            if k > 0 {
                assert(r.starts@[0] < r.starts@[k]);
            }
        }
        lemma_run_index_bounds(d.starts@, rs);
        let j = run_index(d.starts@, rs);
        if j + 1 < d.starts@.len() && d.starts@[j + 1] <= p {
            let x = d.starts@[j + 1];
            assert(d.starts@.contains(x));
            assert(r.starts@.contains(x));
            let m = choose|m: int| 0 <= m < r.starts@.len() && r.starts@[m] == x;
            assert(rs < x);
            assert(k < m) by {
                if m < k {
                    assert(r.starts@[m] < r.starts@[k]);
                }
            }
            assert(r.starts@[k + 1] <= r.starts@[m]) by {
                if k + 1 < m {
                    assert(r.starts@[k + 1] < r.starts@[m]);
                }
            }
            assert(false);
        }
        lemma_run_index_of(d.starts@, p, j);
    }
}

/// Insert the breakpoints `locations` into `diploid`: the result's run
/// boundaries are the sorted union of the old boundaries and the new
/// locations, and the founder id covering every position is unchanged. A
/// terminal location equal to `diploid.end` is dropped, so an empty list
/// and the single list `[diploid.end]` both yield an identical copy.
pub fn new_sequence(diploid: &Diploid, locations: &Vec<u32>) -> (r: Diploid)
    requires
        diploid.wf(),
        strictly_increasing(locations@),
        locations@.len() > 0 ==> diploid.starts@[0] <= locations@[0],
        locations@.len() > 0 ==> locations@.last() <= diploid.end,
    ensures
        r.wf(),
        r.end == diploid.end,
        r.starts@[0] == diploid.starts@[0],
        forall|x: u32|
            #[trigger] r.starts@.contains(x) <==> (diploid.starts@.contains(x)
                || (locations@.contains(x) && x != diploid.end)),
        forall|k: int|
            0 <= k < r.starts@.len() ==> r.founder@[k] == founder_at(
                *diploid,
                r.starts@[k] as int,
            ),
        forall|p: int|
            diploid.starts@[0] <= p < diploid.end ==> founder_at(r, p) == founder_at(*diploid, p),
        locations@.len() == 0 || locations@ =~= seq![diploid.end] ==> r.starts@
            == diploid.starts@ && r.founder@ == diploid.founder@,
{
    let slen = diploid.starts.len();
    let num_locs: usize = if locations.len() > 0 && locations[locations.len() - 1] == diploid.end {
        locations.len() - 1
    } else {
        locations.len()
    };
    proof {
        assert forall|j: int| 0 <= j < num_locs implies locations@[j] < diploid.end by {
            if locations@[j] == diploid.end {
                if j < locations@.len() - 1 {
                    assert(locations@[j] < locations@[locations@.len() - 1]);
                }
            }
        }
    }
    let mut new_starts: Vec<u32> = Vec::new();
    let mut new_founder: Vec<u32> = Vec::new();
    let mut si: usize = 0;
    let mut li: usize = 0;
    while si < slen || li < num_locs
        invariant
            diploid.wf(),
            strictly_increasing(locations@),
            locations@.len() > 0 ==> diploid.starts@[0] <= locations@[0],
            slen == diploid.starts@.len(),
            num_locs <= locations@.len(),
            forall|j: int| 0 <= j < num_locs ==> locations@[j] < diploid.end,
            num_locs == locations@.len() || (num_locs == locations@.len() - 1
                && locations@.last() == diploid.end),
            si <= slen,
            li <= num_locs,
            new_starts@.len() == new_founder@.len(),
            strictly_increasing(new_starts@),
            forall|x: u32|
                new_starts@.contains(x) <==> (diploid.starts@.take(si as int).contains(x)
                    || locations@.take(li as int).contains(x)),
            si < slen ==> forall|k: int|
                0 <= k < new_starts@.len() ==> new_starts@[k] < diploid.starts@[si as int],
            li < num_locs ==> forall|k: int|
                0 <= k < new_starts@.len() ==> new_starts@[k] < locations@[li as int],
            forall|k: int|
                0 <= k < new_starts@.len() ==> new_founder@[k] == founder_at(
                    *diploid,
                    new_starts@[k] as int,
                ),
            num_locs == 0 ==> new_starts@ == diploid.starts@.take(si as int) && new_founder@
                == diploid.founder@.take(si as int),
        decreases slen + num_locs - si - li,
    {
        let ghost s_seq = diploid.starts@;
        let ghost l_seq = locations@;
        let ghost pre_starts = new_starts@;
        let ghost pre_founder = new_founder@;
        let ghost pre_si = si as int;
        let ghost pre_li = li as int;
        let take_start: bool;
        let take_loc: bool;
        if li >= num_locs {
            take_start = true;
            take_loc = false;
        } else if si >= slen {
            take_start = false;
            take_loc = true;
        } else if diploid.starts[si] < locations[li] {
            take_start = true;
            take_loc = false;
        } else if diploid.starts[si] > locations[li] {
            take_start = false;
            take_loc = true;
        } else {
            take_start = true;
            take_loc = true;
        }
        if take_start {
            new_starts.push(diploid.starts[si]);
            new_founder.push(diploid.founder[si]);
            si = si + 1;
            if take_loc {
                li = li + 1;
            }
            proof {
                lemma_run_index_of(s_seq, s_seq[pre_si] as int, pre_si);
                lemma_push_contains(pre_starts, s_seq[pre_si]);
                assert(s_seq.take(pre_si + 1) =~= s_seq.take(pre_si).push(s_seq[pre_si]));
                lemma_push_contains(s_seq.take(pre_si), s_seq[pre_si]);
                if take_loc {
                    assert(l_seq.take(pre_li + 1) =~= l_seq.take(pre_li).push(l_seq[pre_li]));
                    lemma_push_contains(l_seq.take(pre_li), l_seq[pre_li]);
                }
                if num_locs == 0 {
                    assert(new_starts@ =~= s_seq.take(si as int));
                    assert(new_founder@ =~= diploid.founder@.take(si as int));
                }
                assert forall|x: u32|
                    new_starts@.contains(x) <==> (s_seq.take(si as int).contains(x)
                        || l_seq.take(li as int).contains(x)) by {
                    assert(pre_starts.contains(x) <==> (s_seq.take(pre_si).contains(x)
                        || l_seq.take(pre_li).contains(x)));
                    assert(new_starts@.contains(x) <==> (pre_starts.contains(x) || x
                        == s_seq[pre_si]));
                    assert(s_seq.take(pre_si + 1).contains(x) <==> (s_seq.take(
                        pre_si,
                    ).contains(x) || x == s_seq[pre_si]));
                    if take_loc {
                        assert(l_seq.take(pre_li + 1).contains(x) <==> (l_seq.take(
                            pre_li,
                        ).contains(x) || x == l_seq[pre_li]));
                    }
                }
            }
        } else {
            let loc = locations[li];
            proof {
                assert(si >= 1) by {
                    if si == 0 {
                        if pre_li > 0 {
                            assert(l_seq[0] < l_seq[pre_li]);
                        }
                    }
                }
                assert(s_seq.take(pre_si)[pre_si - 1] == s_seq[pre_si - 1]);
                assert(s_seq.take(pre_si).contains(s_seq[pre_si - 1]));
                assert(pre_starts.contains(s_seq[pre_si - 1]));
                let m = choose|m: int|
                    0 <= m < pre_starts.len() && pre_starts[m] == s_seq[pre_si - 1];
                assert(pre_starts[m] < loc);
                lemma_run_index_of(s_seq, loc as int, pre_si - 1);
            }
            new_starts.push(loc);
            new_founder.push(diploid.founder[si - 1]);
            li = li + 1;
            proof {
                lemma_push_contains(pre_starts, l_seq[pre_li]);
                assert(l_seq.take(pre_li + 1) =~= l_seq.take(pre_li).push(l_seq[pre_li]));
                lemma_push_contains(l_seq.take(pre_li), l_seq[pre_li]);
                assert forall|x: u32|
                    new_starts@.contains(x) <==> (s_seq.take(si as int).contains(x)
                        || l_seq.take(li as int).contains(x)) by {
                    assert(pre_starts.contains(x) <==> (s_seq.take(pre_si).contains(x)
                        || l_seq.take(pre_li).contains(x)));
                    assert(new_starts@.contains(x) <==> (pre_starts.contains(x) || x
                        == l_seq[pre_li]));
                    assert(l_seq.take(pre_li + 1).contains(x) <==> (l_seq.take(
                        pre_li,
                    ).contains(x) || x == l_seq[pre_li]));
                }
            }
        }
    }
    proof {
        assert(diploid.starts@.take(si as int) =~= diploid.starts@);
        assert(locations@.take(li as int) =~= locations@.take(num_locs as int));
        assert forall|x: u32|
            new_starts@.contains(x) <==> (diploid.starts@.contains(x) || (locations@.contains(x)
                && x != diploid.end)) by {
            if locations@.contains(x) && x != diploid.end {
                let j = choose|j: int| 0 <= j < locations@.len() && locations@[j] == x;
                assert(j < num_locs);
                assert(locations@.take(num_locs as int)[j] == x);
                assert(locations@.take(num_locs as int).contains(x));
            }
            if locations@.take(num_locs as int).contains(x) {
                let j = choose|j: int|
                    0 <= j < num_locs && locations@.take(num_locs as int)[j] == x;
                assert(locations@[j] == x);
                assert(locations@.contains(x));
                assert(x != diploid.end);
            }
        }
        // nonempty: the first original boundary is present
        assert(diploid.starts@.contains(diploid.starts@[0]));
        assert(new_starts@.contains(diploid.starts@[0]));
        // every element is an original boundary or a kept location, hence below end
        assert forall|k: int|
            0 <= k < new_starts@.len() implies new_starts@[k] < diploid.end by {
            let x = new_starts@[k];
            assert(new_starts@.contains(x));
            if diploid.starts@.contains(x) {
                let j = choose|j: int| 0 <= j < diploid.starts@.len() && diploid.starts@[j] == x;
                if j < diploid.starts@.len() - 1 {
                    assert(diploid.starts@[j] < diploid.starts@[diploid.starts@.len() - 1]);
                }
            }
        }
        // the first element is the original first boundary
        assert forall|k: int|
            0 <= k < new_starts@.len() implies diploid.starts@[0] <= new_starts@[k] by {
            let x = new_starts@[k];
            assert(new_starts@.contains(x));
            if locations@.contains(x) && x != diploid.end {
                let j = choose|j: int| 0 <= j < locations@.len() && locations@[j] == x;
                if j > 0 {
                    assert(locations@[0] < locations@[j]);
                }
            }
        }
        let m0 = choose|m: int|
            0 <= m < new_starts@.len() && new_starts@[m] == diploid.starts@[0];
        assert(new_starts@[0] <= new_starts@[m0]) by {
            if 0 < m0 {
                assert(new_starts@[0] < new_starts@[m0]);
            }
        }
        if num_locs == 0 {
            assert(diploid.founder@.take(si as int) =~= diploid.founder@);
        }
    }
    let result = Diploid { starts: new_starts, founder: new_founder, end: diploid.end };
    proof {
        lemma_founder_refines(*diploid, result);
        if locations@.len() == 0 || locations@ =~= seq![diploid.end] {
            assert(num_locs == 0);
        }
    }
    result
}

/// `j` indexes the left endpoint of one of the swap pairs.
pub open spec fn is_pair_start(locs: Seq<u32>, j: int) -> bool {
    0 <= j && j + 1 < locs.len() && j % 2 == 0
}

/// Whether position `p` lies inside the union of the half-open intervals
/// `[locs[2k], locs[2k+1])` described by an even-length location list.
pub open spec fn in_swap(locs: Seq<u32>, p: int) -> bool {
    exists|j: int| #[trigger] is_pair_start(locs, j) && locs[j] <= p && p < locs[j + 1]
}

/// The swap region status is the same at `a` and `p` when no location
/// boundary falls in `(a, p]`.
pub proof fn lemma_in_swap_stable(locs: Seq<u32>, a: int, p: int)
    requires
        strictly_increasing(locs),
        a <= p,
        forall|i: int| 0 <= i < locs.len() ==> !(a < #[trigger] locs[i] <= p),
    ensures
        in_swap(locs, a) == in_swap(locs, p),
{
    if in_swap(locs, a) {
        let j = choose|j: int| #[trigger] is_pair_start(locs, j) && locs[j] <= a && a < locs[j + 1];
        assert(!(a < locs[j + 1] <= p));
        assert(is_pair_start(locs, j) && locs[j] <= p && p < locs[j + 1]);
    }
    if in_swap(locs, p) {
        let j = choose|j: int| #[trigger] is_pair_start(locs, j) && locs[j] <= p && p < locs[j + 1];
        assert(!(a < locs[j] <= p));
        assert(is_pair_start(locs, j) && locs[j] <= a && a < locs[j + 1]);
    }
}

/// The founder id is the same at `a` and `p` when no run boundary of `d`
/// falls in `(a, p]`.
pub proof fn lemma_founder_stable(d: Diploid, a: int, p: int)
    requires
        d.wf(),
        d.starts@[0] <= a <= p,
        forall|i: int| 0 <= i < d.starts@.len() ==> !(a < #[trigger] d.starts@[i] <= p),
    ensures
        founder_at(d, p) == founder_at(d, a),
{
    lemma_run_index_bounds(d.starts@, a);
    let j = run_index(d.starts@, a);
    assert(j + 1 < d.starts@.len() ==> p < d.starts@[j + 1]) by {
        if j + 1 < d.starts@.len() {
            assert(!(a < d.starts@[j + 1] <= p));
        }
    }
    lemma_run_index_of(d.starts@, p, j);
}

/// A strand spliced from `keep` outside the swap regions and `take` inside
/// them describes exactly the expected piecewise founder function, provided
/// it retains the relevant boundaries of each source and labels each run
/// with the source's founder id at the run's first position.
pub proof fn lemma_spliced_strand(r: Diploid, keep: Diploid, take: Diploid, locs: Seq<u32>)
    requires
        r.wf(),
        keep.wf(),
        take.wf(),
        r.end == keep.end,
        keep.end == take.end,
        keep.starts@[0] == take.starts@[0],
        r.starts@[0] == keep.starts@[0],
        strictly_increasing(locs),
        forall|x: u32|
            keep.starts@.contains(x) && !in_swap(locs, x as int) ==> r.starts@.contains(x),
        forall|x: u32|
            take.starts@.contains(x) && in_swap(locs, x as int) ==> r.starts@.contains(x),
        forall|i: int|
            0 <= i < locs.len() && locs[i] < keep.end ==> r.starts@.contains(locs[i]),
        forall|k: int|
            0 <= k < r.starts@.len() ==> r.founder@[k] == (if in_swap(locs, r.starts@[k] as int) {
                founder_at(take, r.starts@[k] as int)
            } else {
                founder_at(keep, r.starts@[k] as int)
            }),
    ensures
        forall|p: int|
            r.starts@[0] <= p < r.end ==> founder_at(r, p) == (if in_swap(locs, p) {
                founder_at(take, p)
            } else {
                founder_at(keep, p)
            }),
{
    assert forall|p: int|
        r.starts@[0] <= p < r.end implies founder_at(r, p) == (if in_swap(locs, p) {
        founder_at(take, p)
    } else {
        founder_at(keep, p)
    }) by {
        lemma_run_index_bounds(r.starts@, p);
        let k = run_index(r.starts@, p);
        let a = r.starts@[k] as int;
        assert(r.starts@[0] <= r.starts@[k]) by {
            if 0 < k {
                assert(r.starts@[0] < r.starts@[k]);
            }
        }
        // no element of r.starts lies in (a, p]
        assert forall|x: u32| r.starts@.contains(x) implies !(a < x <= p) by {
            if a < x <= p {
                let m = choose|m: int| 0 <= m < r.starts@.len() && r.starts@[m] == x;
                assert(k < m) by {
                    if m < k {
                        assert(r.starts@[m] < r.starts@[k]);
                    }
                }
                assert(r.starts@[k + 1] <= r.starts@[m]) by {
                    if k + 1 < m {
                        assert(r.starts@[k + 1] < r.starts@[m]);
                    }
                }
                assert(false);
            }
        }
        // hence no location boundary lies in (a, p]
        assert forall|i: int| 0 <= i < locs.len() implies !(a < #[trigger] locs[i] <= p) by {
            if a < locs[i] <= p {
                assert(locs[i] < keep.end);
                assert(r.starts@.contains(locs[i]));
            }
        }
        lemma_in_swap_stable(locs, a, p);
        if in_swap(locs, p) {
            assert forall|i: int| 0 <= i < take.starts@.len() implies !(a
                < #[trigger] take.starts@[i] <= p) by {
                let x = take.starts@[i];
                if a < x <= p {
                    assert(forall|j: int| 0 <= j < locs.len() ==> !((a < #[trigger] locs[j] <= x as int)));
                    lemma_in_swap_stable(locs, a, x as int);
                    assert(take.starts@.contains(x));
                    assert(r.starts@.contains(x));
                }
            }
            lemma_founder_stable(take, a, p);
        } else {
            assert forall|i: int| 0 <= i < keep.starts@.len() implies !(a
                < #[trigger] keep.starts@[i] <= p) by {
                let x = keep.starts@[i];
                if a < x <= p {
                    assert(forall|j: int| 0 <= j < locs.len() ==> !((a < #[trigger] locs[j] <= x as int)));
                    lemma_in_swap_stable(locs, a, x as int);
                    assert(keep.starts@.contains(x));
                    assert(r.starts@.contains(x));
                }
            }
            lemma_founder_stable(keep, a, p);
        }
    }
}

/// Sum of a sequence of `u32` values, as an unbounded integer.
pub open spec fn seq_sum(s: Seq<u32>) -> int
    decreases s.len(),
{
    if s.len() == 0 {
        0
    } else {
        seq_sum(s.drop_last()) + s.last()
    }
}

pub proof fn lemma_seq_sum_take(s: Seq<u32>, k: int)
    requires
        0 <= k < s.len(),
    ensures
        seq_sum(s.take(k + 1)) == seq_sum(s.take(k)) + s[k],
{
    assert(s.take(k + 1).drop_last() =~= s.take(k));
}

pub proof fn lemma_seq_sum_prefix_bound(s: Seq<u32>, k: int)
    requires
        0 <= k <= s.len(),
    ensures
        seq_sum(s.take(k)) <= seq_sum(s),
    decreases s.len() - k,
{
    if k == s.len() {
        assert(s.take(k) =~= s);
    } else {
        lemma_seq_sum_take(s, k);
        lemma_seq_sum_prefix_bound(s, k + 1);
    }
}

/// Cumulative sums: `r[i]` is the sum of the first `i + 1` input entries.
pub fn cum_sum(in_seq: &Vec<u32>) -> (r: Vec<u32>)
    requires
        seq_sum(in_seq@) <= u32::MAX,
    ensures
        r@.len() == in_seq@.len(),
        forall|i: int| 0 <= i < r@.len() ==> r@[i] == seq_sum(in_seq@.take(i + 1)),
{
    let mut ret: Vec<u32> = Vec::new();
    let mut accum: u32 = 0;
    let mut i: usize = 0;
    while i < in_seq.len()
        invariant
            i <= in_seq@.len(),
            ret@.len() == i,
            accum == seq_sum(in_seq@.take(i as int)),
            seq_sum(in_seq@) <= u32::MAX,
            forall|k: int| 0 <= k < i ==> ret@[k] == seq_sum(in_seq@.take(k + 1)),
        decreases in_seq@.len() - i,
    {
        proof {
            lemma_seq_sum_take(in_seq@, i as int);
            lemma_seq_sum_prefix_bound(in_seq@, i + 1);
        }
        accum = accum + in_seq[i];
        ret.push(accum);
        i = i + 1;
    }
    ret
}


/// Append the runs `from..to` of `src` to a strand under construction.
pub(crate) fn push_range(
    dst_starts: &mut Vec<u32>,
    dst_founder: &mut Vec<u32>,
    src: &Diploid,
    from: usize,
    to: usize,
)
    requires
        from <= to <= src.starts@.len(),
        src.starts@.len() == src.founder@.len(),
        old(dst_starts)@.len() == old(dst_founder)@.len(),
    ensures
        final(dst_starts)@ == old(dst_starts)@ + src.starts@.subrange(from as int, to as int),
        final(dst_founder)@ == old(dst_founder)@ + src.founder@.subrange(from as int, to as int),
        final(dst_starts)@.len() == final(dst_founder)@.len(),
{
    let mut i: usize = from;
    while i < to
        invariant
            from <= i <= to <= src.starts@.len(),
            src.starts@.len() == src.founder@.len(),
            dst_starts@ == old(dst_starts)@ + src.starts@.subrange(from as int, i as int),
            dst_founder@ == old(dst_founder)@ + src.founder@.subrange(from as int, i as int),
        decreases to - i,
    {
        proof {
            assert(src.starts@.subrange(from as int, i + 1) =~= src.starts@.subrange(
                from as int,
                i as int,
            ).push(src.starts@[i as int]));
            assert(src.founder@.subrange(from as int, i + 1) =~= src.founder@.subrange(
                from as int,
                i as int,
            ).push(src.founder@[i as int]));
        }
        dst_starts.push(src.starts[i]);
        dst_founder.push(src.founder[i]);
        i = i + 1;
    }
    proof {
        assert(dst_starts@ =~= old(dst_starts)@ + src.starts@.subrange(from as int, to as int));
        assert(dst_founder@ =~= old(dst_founder)@ + src.founder@.subrange(from as int, to as int));
    }
}

/// Frontier of the splice after `pair` swap pairs have been processed:
/// everything below it is already decided.
pub open spec fn splice_frontier(locs: Seq<u32>, pair: int, s0: int) -> int {
    if pair == 0 {
        s0
    } else {
        locs[2 * pair - 1] as int
    }
}

/// Build one strand of the swapped genome: outside the swap regions the
/// runs come from `keep`, inside them from `take`.
#[verifier::loop_isolation(false)]
#[verifier::rlimit(60)]
fn splice_strand(keep: &Diploid, take: &Diploid, locations: &Vec<u32>) -> (r: Diploid)
    requires
        keep.wf(),
        take.wf(),
        keep.end == take.end,
        keep.starts@[0] == take.starts@[0],
        strictly_increasing(locations@),
        locations@.len() % 2 == 0,
        locations@.len() > 0 ==> keep.starts@[0] <= locations@[0] && locations@.last() <= keep.end,
        forall|i: int|
            0 <= i < locations@.len() && #[trigger] locations@[i] < keep.end
                ==> keep.starts@.contains(locations@[i]) && take.starts@.contains(locations@[i]),
    ensures
        r.wf(),
        r.end == keep.end,
        r.starts@[0] == keep.starts@[0],
        forall|p: int|
            keep.starts@[0] <= p < keep.end ==> founder_at(r, p) == (if in_swap(locations@, p) {
                founder_at(*take, p)
            } else {
                founder_at(*keep, p)
            }),
        forall|x: u32|
            keep.starts@.contains(x) && !in_swap(locations@, x as int) ==> r.starts@.contains(x),
        forall|x: u32|
            take.starts@.contains(x) && in_swap(locations@, x as int) ==> r.starts@.contains(x),
        locations@.len() == 0 ==> r.starts@ == keep.starts@ && r.founder@ == keep.founder@,
{
    let ghost l_seq = locations@;
    let ghost s0 = keep.starts@[0] as int;
    let npairs = locations.len() / 2;
    let mut new_starts: Vec<u32> = Vec::new();
    let mut new_founder: Vec<u32> = Vec::new();
    let mut prev: usize = 0;
    let mut pair: usize = 0;
    while pair < npairs
        invariant
            pair <= npairs,
            prev <= keep.starts@.len(),
            forall|j: int|
                0 <= j < prev ==> keep.starts@[j] < splice_frontier(l_seq, pair as int, s0),
            forall|j: int|
                prev <= j < keep.starts@.len() ==> splice_frontier(l_seq, pair as int, s0)
                    <= keep.starts@[j],
            new_starts@.len() == new_founder@.len(),
            strictly_increasing(new_starts@),
            forall|k: int|
                0 <= k < new_starts@.len() ==> s0 <= #[trigger] new_starts@[k]
                    && new_starts@[k] < splice_frontier(l_seq, pair as int, s0),
            forall|k: int|
                0 <= k < new_starts@.len() ==> new_starts@[k] < keep.end,
            forall|k: int|
                0 <= k < new_starts@.len() ==> new_founder@[k] == (if in_swap(
                    l_seq,
                    new_starts@[k] as int,
                ) {
                    founder_at(*take, new_starts@[k] as int)
                } else {
                    founder_at(*keep, new_starts@[k] as int)
                }),
            forall|x: u32|
                keep.starts@.contains(x) && !in_swap(l_seq, x as int) && (x as int)
                    < splice_frontier(l_seq, pair as int, s0) ==> new_starts@.contains(x),
            forall|x: u32|
                take.starts@.contains(x) && in_swap(l_seq, x as int) && (x as int)
                    < splice_frontier(l_seq, pair as int, s0) ==> new_starts@.contains(x),
            pair == 0 ==> prev == 0 && new_starts@.len() == 0,
        decreases npairs - pair,
    {
        let ghost pre_starts = new_starts@;
        let ghost pre_founder = new_founder@;
        let ghost pre_fr = splice_frontier(l_seq, pair as int, s0);
        let start = locations[2 * pair];
        let stop = locations[2 * pair + 1];
        proof {
            assert(l_seq[2 * pair as int] < l_seq[2 * pair + 1]);
            if pair > 0 {
                assert(l_seq[2 * pair - 1] < l_seq[2 * pair as int]);
            }
            assert(pre_fr <= start as int);
            assert(stop <= l_seq.last()) by {
                if 2 * pair + 1 < l_seq.len() - 1 {
                    assert(l_seq[2 * pair + 1] < l_seq[l_seq.len() - 1]);
                }
            }
        }
        let ks = search_left(&keep.starts, start);
        let ke = search_left(&keep.starts, stop);
        let ts = search_left(&take.starts, start);
        let te = search_left(&take.starts, stop);
        proof {
            assert(prev <= ks) by {
                if ks < prev {
                    assert(keep.starts@[ks as int] < pre_fr);
                    assert(start <= keep.starts@[ks as int]);
                }
            }
            assert(ks <= ke) by {
                if ke < ks {
                    assert(keep.starts@[ke as int] < start);
                    assert(stop <= keep.starts@[ke as int]);
                }
            }
            assert(ts <= te) by {
                if te < ts {
                    assert(take.starts@[te as int] < start);
                    assert(stop <= take.starts@[te as int]);
                }
            }
        }
        push_range(&mut new_starts, &mut new_founder, keep, prev, ks);
        let ghost mid_starts = new_starts@;
        push_range(&mut new_starts, &mut new_founder, take, ts, te);
        proof {
            let keep_seg = keep.starts@.subrange(prev as int, ks as int);
            let take_seg = take.starts@.subrange(ts as int, te as int);
            // keep-segment positions lie in [pre_fr, start): outside every swap pair
            assert forall|x: int| pre_fr <= x < start implies !in_swap(l_seq, x) by {
                if in_swap(l_seq, x) {
                    let j = choose|j: int|
                        #[trigger] is_pair_start(l_seq, j) && l_seq[j] <= x && x < l_seq[j + 1];
                    if j < 2 * pair {
                        assert(j + 1 <= 2 * pair - 1);
                        if j + 1 < 2 * pair - 1 {
                            assert(l_seq[j + 1] < l_seq[2 * pair - 1]);
                        }
                        assert(pair > 0);
                        assert(l_seq[j + 1] <= pre_fr);
                        assert(false);
                    } else {
                        assert(l_seq[2 * pair as int] <= l_seq[j]) by {
                            if 2 * pair < j {
                                assert(l_seq[2 * pair as int] < l_seq[j]);
                            }
                        }
                        assert(false);
                    }
                }
            }
            // take-segment positions lie in [start, stop): inside pair `pair`
            assert forall|x: int| start <= x < stop implies in_swap(l_seq, x) by {
                assert(is_pair_start(l_seq, 2 * pair as int));
                assert(l_seq[2 * pair as int] <= x && x < l_seq[2 * pair + 1]);
            }
        }
        let ghost old_prev = prev as int;
        let ghost old_pair = pair as int;
        prev = ke;
        pair = pair + 1;
        proof {
            let keep_seg = keep.starts@.subrange(old_prev, ks as int);
            let take_seg = take.starts@.subrange(ts as int, te as int);
            let a = pre_starts.len() as int;
            let b = keep_seg.len();
            let c = take_seg.len();
            assert(new_starts@ == pre_starts + keep_seg + take_seg);
            assert(splice_frontier(l_seq, pair as int, s0) == stop as int);
            assert(s0 <= pre_fr) by {
                if old_pair > 0 {
                    assert(l_seq[0] <= l_seq[2 * old_pair - 1]) by {
                        if 0 < 2 * old_pair - 1 {
                            assert(l_seq[0] < l_seq[2 * old_pair - 1]);
                        }
                    }
                }
            }
            // where each element of the new sequence lives, and its range
            assert forall|k: int| 0 <= k < new_starts@.len() implies s0 <= #[trigger] new_starts@[k]
                < stop && new_starts@[k] < keep.end by {
                if k < a {
                    assert(new_starts@[k] == pre_starts[k]);
                } else if k < a + b {
                    assert(new_starts@[k] == keep_seg[k - a]);
                    assert(keep_seg[k - a] == keep.starts@[old_prev + (k - a)]);
                    assert(keep.starts@[old_prev + (k - a)] <= keep.starts@[keep.starts@.len() - 1]) by {
                        if old_prev + (k - a) < keep.starts@.len() - 1 {
                            assert(keep.starts@[old_prev + (k - a)] < keep.starts@[keep.starts@.len() - 1]);
                        }
                    }
                } else {
                    assert(new_starts@[k] == take_seg[k - a - b]);
                    assert(take_seg[k - a - b] == take.starts@[ts + (k - a - b)]);
                    assert(take.starts@[ts + (k - a - b)] <= take.starts@[take.starts@.len() - 1]) by {
                        if ts + (k - a - b) < take.starts@.len() - 1 {
                            assert(take.starts@[ts + (k - a - b)] < take.starts@[take.starts@.len() - 1]);
                        }
                    }
                }
            }
            // strict ordering across the three parts
            assert forall|i: int, j: int| 0 <= i < j < new_starts@.len() implies
                #[trigger] new_starts@[i] < #[trigger] new_starts@[j] by {
                let vi = new_starts@[i];
                let vj = new_starts@[j];
                if i < a {
                    assert(vi == pre_starts[i]);
                    assert(vi < pre_fr);
                } else if i < a + b {
                    assert(vi == keep.starts@[old_prev + (i - a)]);
                    assert(pre_fr <= vi < start);
                } else {
                    assert(vi == take.starts@[ts + (i - a - b)]);
                    assert(start <= vi < stop);
                }
                if j < a {
                    assert(vj == pre_starts[j]);
                    assert(pre_starts[i] < pre_starts[j]);
                } else if j < a + b {
                    assert(vj == keep.starts@[old_prev + (j - a)]);
                    assert(pre_fr <= vj);
                    if a <= i {
                        assert(keep.starts@[old_prev + (i - a)] < keep.starts@[old_prev + (j - a)]);
                    }
                } else {
                    assert(vj == take.starts@[ts + (j - a - b)]);
                    assert(start <= vj);
                    if a + b <= i {
                        assert(take.starts@[ts + (i - a - b)] < take.starts@[ts + (j - a - b)]);
                    }
                }
            }
            // founder labels for the appended runs
            assert forall|k: int| 0 <= k < new_starts@.len() implies #[trigger] new_founder@[k] == (
                if in_swap(l_seq, new_starts@[k] as int) {
                    founder_at(*take, new_starts@[k] as int)
                } else {
                    founder_at(*keep, new_starts@[k] as int)
                }) by {
                if k < a {
                    assert(new_starts@[k] == pre_starts[k]);
                    assert(new_founder@ == pre_founder + keep.founder@.subrange(old_prev, ks as int)
                        + take.founder@.subrange(ts as int, te as int));
                    assert(new_founder@[k] == pre_founder[k]);
                } else if k < a + b {
                    let j = old_prev + (k - a);
                    let x = keep.starts@[j];
                    assert(new_starts@[k] == x);
                    assert(new_founder@[k] == keep.founder@[j]);
                    assert(pre_fr <= x < start);
                    assert(!in_swap(l_seq, x as int));
                    assert(j + 1 < keep.starts@.len() ==> keep.starts@[j] < keep.starts@[j + 1]);
                    lemma_run_index_of(keep.starts@, x as int, j);
                } else {
                    let j = ts + (k - a - b);
                    let x = take.starts@[j];
                    assert(new_starts@[k] == x);
                    assert(new_founder@[k] == take.founder@[j]);
                    assert(start <= x < stop);
                    assert(in_swap(l_seq, x as int));
                    assert(j + 1 < take.starts@.len() ==> take.starts@[j] < take.starts@[j + 1]);
                    lemma_run_index_of(take.starts@, x as int, j);
                }
            }
            // completeness below the new frontier
            assert forall|x: u32|
                keep.starts@.contains(x) && !in_swap(l_seq, x as int) && (x as int) < stop
                implies new_starts@.contains(x) by {
                if (x as int) < pre_fr {
                    assert(pre_starts.contains(x));
                    let m = choose|m: int| 0 <= m < pre_starts.len() && pre_starts[m] == x;
                    assert(new_starts@[m] == x);
                } else {
                    let j = choose|j: int| 0 <= j < keep.starts@.len() && keep.starts@[j] == x;
                    if (x as int) < start {
                        assert(old_prev <= j) by {
                            if j < old_prev {
                                assert(keep.starts@[j] < pre_fr);
                            }
                        }
                        assert(j < ks);
                        assert(new_starts@[a + (j - old_prev)] == keep_seg[j - old_prev]);
                        assert(keep_seg[j - old_prev] == x);
                    } else {
                        assert(in_swap(l_seq, x as int));
                        assert(false);
                    }
                }
            }
            assert forall|x: u32|
                take.starts@.contains(x) && in_swap(l_seq, x as int) && (x as int) < stop
                implies new_starts@.contains(x) by {
                if (x as int) < pre_fr {
                    assert(pre_starts.contains(x));
                    let m = choose|m: int| 0 <= m < pre_starts.len() && pre_starts[m] == x;
                    assert(new_starts@[m] == x);
                } else {
                    let j = choose|j: int| 0 <= j < take.starts@.len() && take.starts@[j] == x;
                    if (x as int) < start {
                        assert(!in_swap(l_seq, x as int));
                        assert(false);
                    } else {
                        assert(ts <= j) by {
                            if j < ts {
                                assert(take.starts@[j] < start);
                            }
                        }
                        assert(j < te);
                        assert(new_starts@[a + b + (j - ts)] == take_seg[j - ts]);
                        assert(take_seg[j - ts] == x);
                    }
                }
            }
        }
    }
    let ghost loop_starts = new_starts@;
    let ghost loop_founder = new_founder@;
    let ghost fr_final = splice_frontier(l_seq, npairs as int, s0);
    proof {
        // nothing above the final frontier lies in a swap region
        assert forall|x: int| fr_final <= x implies !in_swap(l_seq, x) by {
            if in_swap(l_seq, x) {
                let j = choose|j: int|
                    #[trigger] is_pair_start(l_seq, j) && l_seq[j] <= x && x < l_seq[j + 1];
                assert(npairs > 0);
                assert(j + 1 <= 2 * npairs - 1);
                assert(l_seq[j + 1] <= l_seq[2 * npairs - 1]) by {
                    if j + 1 < 2 * npairs - 1 {
                        assert(l_seq[j + 1] < l_seq[2 * npairs - 1]);
                    }
                }
                assert(false);
            }
        }
        assert(s0 <= fr_final) by {
            if npairs > 0 {
                assert(l_seq[0] <= l_seq[2 * npairs - 1]) by {
                    if 0 < 2 * npairs - 1 {
                        assert(l_seq[0] < l_seq[2 * npairs - 1]);
                    }
                }
            }
        }
    }
    let klen = keep.starts.len();
    push_range(&mut new_starts, &mut new_founder, keep, prev, klen);
    let result = Diploid { starts: new_starts, founder: new_founder, end: keep.end };
    proof {
        let keep_seg = keep.starts@.subrange(prev as int, klen as int);
        let a = loop_starts.len() as int;
        let b = keep_seg.len();
        assert(result.starts@ == loop_starts + keep_seg);
        assert forall|k: int| 0 <= k < result.starts@.len() implies s0 <= #[trigger] result.starts@[k]
            && result.starts@[k] < keep.end by {
            if k < a {
                assert(result.starts@[k] == loop_starts[k]);
            } else {
                assert(result.starts@[k] == keep.starts@[prev + (k - a)]);
                assert(keep.starts@[prev + (k - a)] <= keep.starts@[keep.starts@.len() - 1]) by {
                    if prev + (k - a) < keep.starts@.len() - 1 {
                        assert(keep.starts@[prev + (k - a)] < keep.starts@[keep.starts@.len() - 1]);
                    }
                }
                assert(s0 <= keep.starts@[0]);
                assert(keep.starts@[0] <= keep.starts@[prev + (k - a)]) by {
                    if 0 < prev + (k - a) {
                        assert(keep.starts@[0] < keep.starts@[prev + (k - a)]);
                    }
                }
            }
        }
        assert forall|i: int, j: int| 0 <= i < j < result.starts@.len() implies
            #[trigger] result.starts@[i] < #[trigger] result.starts@[j] by {
            if j < a {
                assert(loop_starts[i] < loop_starts[j]);
            } else if i < a {
                assert(result.starts@[i] == loop_starts[i]);
                assert(result.starts@[i] < fr_final);
                assert(result.starts@[j] == keep.starts@[prev + (j - a)]);
                assert(fr_final <= result.starts@[j]);
            } else {
                assert(keep.starts@[prev + (i - a)] < keep.starts@[prev + (j - a)]);
            }
        }
        assert forall|k: int| 0 <= k < result.starts@.len() implies #[trigger] result.founder@[k] == (
            if in_swap(l_seq, result.starts@[k] as int) {
                founder_at(*take, result.starts@[k] as int)
            } else {
                founder_at(*keep, result.starts@[k] as int)
            }) by {
            if k < a {
                assert(result.starts@[k] == loop_starts[k]);
                assert(result.founder@[k] == loop_founder[k]);
            } else {
                let j = prev + (k - a);
                let x = keep.starts@[j];
                assert(result.starts@[k] == x);
                assert(result.founder@[k] == keep.founder@[j]);
                assert(fr_final <= x as int);
                assert(!in_swap(l_seq, x as int));
                assert(j + 1 < keep.starts@.len() ==> keep.starts@[j] < keep.starts@[j + 1]);
                lemma_run_index_of(keep.starts@, x as int, j);
            }
        }
        // full completeness
        assert forall|x: u32|
            keep.starts@.contains(x) && !in_swap(l_seq, x as int) implies
            result.starts@.contains(x) by {
            if (x as int) < fr_final {
                assert(loop_starts.contains(x));
                let m = choose|m: int| 0 <= m < loop_starts.len() && loop_starts[m] == x;
                assert(result.starts@[m] == x);
            } else {
                let j = choose|j: int| 0 <= j < keep.starts@.len() && keep.starts@[j] == x;
                assert(prev <= j) by {
                    if j < prev {
                        assert(keep.starts@[j] < fr_final);
                    }
                }
                assert(result.starts@[a + (j - prev)] == keep_seg[j - prev]);
                assert(keep_seg[j - prev] == x);
            }
        }
        assert forall|x: u32|
            take.starts@.contains(x) && in_swap(l_seq, x as int) implies
            result.starts@.contains(x) by {
            assert((x as int) < fr_final);
            assert(loop_starts.contains(x));
            let m = choose|m: int| 0 <= m < loop_starts.len() && loop_starts[m] == x;
            assert(result.starts@[m] == x);
        }
        // the first boundary survives, and is the least element
        let x0 = keep.starts@[0];
        assert(keep.starts@.contains(x0));
        assert(take.starts@.contains(x0)) by {
            assert(take.starts@[0] == x0);
        }
        assert(result.starts@.contains(x0)) by {
            if in_swap(l_seq, x0 as int) {
            } else {
            }
        }
        assert forall|i: int|
            0 <= i < l_seq.len() && #[trigger] l_seq[i] < keep.end implies result.starts@.contains(
            l_seq[i],
        ) by {
            let x = l_seq[i];
            assert(keep.starts@.contains(x) && take.starts@.contains(x));
            if in_swap(l_seq, x as int) {
            } else {
            }
        }
        assert(result.starts@.len() > 0);
        let m0 = choose|m: int| 0 <= m < result.starts@.len() && result.starts@[m] == x0;
        assert(result.starts@[0] <= result.starts@[m0]) by {
            if 0 < m0 {
                assert(result.starts@[0] < result.starts@[m0]);
            }
        }
        assert(result.starts@[0] == x0);
        assert(result.starts@[result.starts@.len() - 1] < keep.end);
        assert(result.wf());
        lemma_spliced_strand(result, *keep, *take, l_seq);
        if locations@.len() == 0 {
            assert(result.starts@ =~= keep.starts@);
            assert(result.founder@ =~= keep.founder@);
        }
    }
    result
}


/// Founder id of the new mother strand at `p` after swapping `g` at the
/// intervals described by `locs`: inside a swap interval the strands are
/// exchanged, outside they are preserved.
pub open spec fn swapped_mother_at(g: Genome, locs: Seq<u32>, p: int) -> u32 {
    if in_swap(locs, p) {
        founder_at(g.father, p)
    } else {
        founder_at(g.mother, p)
    }
}

/// Mirror of `swapped_mother_at` for the father strand.
pub open spec fn swapped_father_at(g: Genome, locs: Seq<u32>, p: int) -> u32 {
    if in_swap(locs, p) {
        founder_at(g.mother, p)
    } else {
        founder_at(g.father, p)
    }
}

/// Exchange the two strands of `genome` inside each interval
/// `[locations[2k], locations[2k+1])` and keep them outside, splicing
/// run-length slices at refined breakpoints.
pub fn swap_at_locations(genome: &Genome, locations: &Vec<u32>) -> (r: Genome)
    requires
        genome.wf(),
        strictly_increasing(locations@),
        locations@.len() % 2 == 0,
        locations@.len() > 0 ==> genome.mother.starts@[0] <= locations@[0] && locations@.last()
            <= genome.mother.end,
    ensures
        r.wf(),
        r.mother.end == genome.mother.end,
        r.father.end == genome.father.end,
        r.mother.starts@[0] == genome.mother.starts@[0],
        r.father.starts@[0] == genome.father.starts@[0],
        forall|p: int|
            genome.mother.starts@[0] <= p < genome.mother.end ==> founder_at(r.mother, p)
                == swapped_mother_at(*genome, locations@, p),
        forall|p: int|
            genome.mother.starts@[0] <= p < genome.mother.end ==> founder_at(r.father, p)
                == swapped_father_at(*genome, locations@, p),
        forall|x: u32|
            genome.mother.starts@.contains(x) && genome.father.starts@.contains(x)
                ==> r.mother.starts@.contains(x) && r.father.starts@.contains(x),
        locations@.len() == 0 ==> r.mother.starts@ == genome.mother.starts@ && r.mother.founder@
            == genome.mother.founder@ && r.father.starts@ == genome.father.starts@
            && r.father.founder@ == genome.father.founder@,
{
    let temp_mother = new_sequence(&genome.mother, locations);
    let temp_father = new_sequence(&genome.father, locations);
    proof {
        assert forall|i: int|
            0 <= i < locations@.len() && #[trigger] locations@[i]
                < temp_mother.end implies temp_mother.starts@.contains(locations@[i])
            && temp_father.starts@.contains(locations@[i]) by {
            assert(locations@.contains(locations@[i]));
        }
    }
    let new_mother = splice_strand(&temp_mother, &temp_father, locations);
    let new_father = splice_strand(&temp_father, &temp_mother, locations);
    let result = Genome { mother: new_mother, father: new_father };
    proof {
        let s0 = genome.mother.starts@[0] as int;
        assert forall|p: int|
            s0 <= p < genome.mother.end implies founder_at(result.mother, p) == swapped_mother_at(
            *genome,
            locations@,
            p,
        ) && founder_at(result.father, p) == swapped_father_at(*genome, locations@, p) by {
            assert(founder_at(temp_mother, p) == founder_at(genome.mother, p));
            assert(founder_at(temp_father, p) == founder_at(genome.father, p));
        }
        assert forall|x: u32|
            #[trigger] temp_mother.starts@.contains(x) <==> (genome.mother.starts@.contains(x)
                || (locations@.contains(x) && x != genome.mother.end)) by {
            assert(temp_mother.starts@.contains(x) <==> (genome.mother.starts@.contains(x)
                || (locations@.contains(x) && x != genome.mother.end)));
        }
        assert forall|x: u32|
            #[trigger] temp_father.starts@.contains(x) <==> (genome.father.starts@.contains(x)
                || (locations@.contains(x) && x != genome.father.end)) by {
            assert(temp_father.starts@.contains(x) <==> (genome.father.starts@.contains(x)
                || (locations@.contains(x) && x != genome.father.end)));
        }
        assert forall|x: u32|
            genome.mother.starts@.contains(x) && genome.father.starts@.contains(
                x,
            ) implies result.mother.starts@.contains(x) && result.father.starts@.contains(x) by {
            assert(temp_mother.starts@.contains(x));
            assert(temp_father.starts@.contains(x));
            if in_swap(locations@, x as int) {
            } else {
            }
        }
    }
    result
}

/// Swapping at a fixed set of intervals is an involution: a genome whose
/// strands realize the swapped founder functions of `g`, swapped once more
/// at the same locations, realizes the founder functions of `g` itself.
pub proof fn lemma_swap_involution(g: Genome, h: Genome, locs: Seq<u32>, p: int)
    requires
        founder_at(h.mother, p) == swapped_mother_at(g, locs, p),
        founder_at(h.father, p) == swapped_father_at(g, locs, p),
    ensures
        swapped_mother_at(h, locs, p) == founder_at(g.mother, p),
        swapped_father_at(h, locs, p) == founder_at(g.father, p),
{
}

/// A base-pair range `[lo, hi)` that no swap interval touches keeps both
/// strands unchanged: recombination that drew no loci on a chromosome
/// leaves that chromosome's founder assignments equal to the input's.
pub proof fn lemma_swap_skips_range(g: Genome, locs: Seq<u32>, lo: int, hi: int, p: int)
    requires
        forall|j: int| #[trigger] is_pair_start(locs, j) ==> locs[j + 1] <= lo || hi <= locs[j],
        lo <= p < hi,
    ensures
        swapped_mother_at(g, locs, p) == founder_at(g.mother, p),
        swapped_father_at(g, locs, p) == founder_at(g.father, p),
{
    if in_swap(locs, p) {
        let j = choose|j: int|
            #[trigger] is_pair_start(locs, j) && locs[j] <= p && p < locs[j + 1];
        assert(false);
    }
}


/// The founder id covering position `p`, looked up by binary search.
pub fn founder_at_position(d: &Diploid, p: u32) -> (f: u32)
    requires
        d.wf(),
        d.starts@[0] <= p < d.end,
    ensures
        f == founder_at(*d, p as int),
{
    let i = search_left(&d.starts, p + 1);
    proof {
        assert(i >= 1) by {
            if i == 0 {
                assert(p + 1 <= d.starts@[0]);
            }
        }
        assert(d.starts@[i - 1] < p + 1);
        assert(i < d.starts@.len() ==> p + 1 <= d.starts@[i as int]);
        lemma_run_index_of(d.starts@, p as int, i - 1);
    }
    d.founder[i - 1]
}

} // verus!
