//! Per-founder segment statistics: for every member and every founder id,
//! the number of runs that founder covers on the member's two strands and
//! their total base-pair length, accumulated over simulation iterations.
//! The tables are association lists keyed by id; the observable value of a
//! table is `stats_of`, the per-(member, founder) sample sequence.

use vstd::prelude::*;

use crate::diploid::{seq_sum, Diploid, Genome};
use crate::population::{nodes_wf, Population};
use crate::segments::run_stop;

verus! {

/// One iteration's contribution for one (member, founder) pair.
#[derive(Clone, Copy, Debug, PartialEq, Eq, Structural)]
pub struct IterationStats {
    pub count: u32,
    pub total_length: u64,
}

impl IterationStats {
    pub fn new(count: u32, length: u64) -> (r: IterationStats)
        ensures
            r.count == count,
            r.total_length == length,
    {
        IterationStats { count, total_length: length }
    }
}

/// Sample sequences keyed by founder id.
pub struct FounderStats {
    pub founder_stats: Vec<(u32, Vec<IterationStats>)>,
}

impl FounderStats {
    pub fn new() -> (r: FounderStats)
        ensures
            r.founder_stats@.len() == 0,
    {
        FounderStats { founder_stats: Vec::new() }
    }
}

/// Founder tables keyed by member id.
pub struct NodeStats {
    pub node_map: Vec<(u32, FounderStats)>,
}

/// Whether an association list holds the key.
pub open spec fn has_key<V>(list: Seq<(u32, V)>, key: u32) -> bool {
    exists|i: int| 0 <= i < list.len() && (#[trigger] list[i]).0 == key
}

/// Position of the key; unique when the keys are distinct.
pub open spec fn entry_index<V>(list: Seq<(u32, V)>, key: u32) -> int {
    choose|i: int| 0 <= i < list.len() && (#[trigger] list[i]).0 == key
}

pub open spec fn keys_distinct<V>(list: Seq<(u32, V)>) -> bool {
    forall|i: int, j: int|
        0 <= i < j < list.len() ==> (#[trigger] list[i]).0 != (#[trigger] list[j]).0
}

pub proof fn lemma_entry_index<V>(list: Seq<(u32, V)>, k: int, key: u32)
    requires
        keys_distinct(list),
        0 <= k < list.len(),
        list[k].0 == key,
    ensures
        has_key(list, key),
        entry_index(list, key) == k,
{
    assert(has_key(list, key)) by {
        assert(list[k].0 == key);
    }
    let i = entry_index(list, key);
    if i != k {
        if i < k {
            assert(list[i].0 != list[k].0);
        } else {
            assert(list[k].0 != list[i].0);
        }
    }
}

impl NodeStats {
    /// The table invariant: member keys are distinct, and so are the
    /// founder keys inside each member's table.
    pub open spec fn wf(self) -> bool {
        &&& keys_distinct(self.node_map@)
        &&& forall|g: int|
            0 <= g < self.node_map@.len() ==> keys_distinct(
                (#[trigger] self.node_map@[g]).1.founder_stats@,
            )
    }

    /// The sample sequence recorded for one (member, founder) pair; empty
    /// when either key is absent.
    pub open spec fn stats_of(self, node: u32, founder: u32) -> Seq<IterationStats> {
        if has_key(self.node_map@, node) {
            let fs = self.node_map@[entry_index(self.node_map@, node)].1;
            if has_key(fs.founder_stats@, founder) {
                fs.founder_stats@[entry_index(fs.founder_stats@, founder)].1@
            } else {
                Seq::<IterationStats>::empty()
            }
        } else {
            Seq::<IterationStats>::empty()
        }
    }

    pub fn new() -> (r: NodeStats)
        ensures
            r.wf(),
            r.node_map@.len() == 0,
            forall|n: u32, f: u32| #[trigger] r.stats_of(n, f) == Seq::<IterationStats>::empty(),
    {
        let r = NodeStats { node_map: Vec::new() };
        proof {
            assert forall|n: u32, f: u32|
                #[trigger] r.stats_of(n, f) == Seq::<IterationStats>::empty() by {
                if has_key(r.node_map@, n) {
                    let i = entry_index(r.node_map@, n);
                }
            }
        }
        r
    }


    /// Record one iteration's contribution of this member's genome: every
    /// founder on either strand gets one sample with its run count and
    /// total covered length; other members' tables are untouched.
    #[verifier::loop_isolation(false)]
    #[verifier::spinoff_prover]
    #[verifier::rlimit(100)]
    pub fn update(&mut self, node_id: u32, genome: &Genome)
        requires
            old(self).wf(),
            genome.wf(),
            genome.mother.starts@.len() + genome.father.starts@.len() <= u32::MAX,
        ensures
            final(self).wf(),
            forall|f: u32|
                #[trigger] final(self).stats_of(node_id, f) == old(self).stats_of(node_id, f)
                    + genome_founder_sample(*genome, f),
            forall|n: u32, f: u32|
                n != node_id ==> #[trigger] final(self).stats_of(n, f) == old(self).stats_of(n, f),
    {
        let ghost orig = *old(self);
        let mut temp_founder_lengths: Vec<(u32, Vec<u32>)> = Vec::new();
        update_diploid(&genome.mother, &mut temp_founder_lengths);
        let ghost t1 = temp_founder_lengths@;
        update_diploid(&genome.father, &mut temp_founder_lengths);
        let ghost temp = temp_founder_lengths@;
        proof {
            assert forall|g: int|
                0 <= g < temp.len() implies (#[trigger] temp[g]).1@ == genome_founder_runs(
                *genome,
                temp[g].0,
            ) && temp[g].1@.len() > 0 by {
                let key = temp[g].0;
                if g < t1.len() {
                    assert(t1[g].0 == key);
                    assert(t1[g].1@ == Seq::<u32>::empty() + founder_runs(genome.mother, key));
                    assert(temp[g].1@ == t1[g].1@ + founder_runs(genome.father, key));
                    assert(temp[g].1@ =~= genome_founder_runs(*genome, key));
                    assert(has_key(t1, key)) by {
                        assert(t1[g].0 == key);
                    }
                    assert(genome.mother.founder@.contains(key));
                    lemma_founder_runs_nonempty(genome.mother, key);
                } else {
                    assert(!has_key(t1, key)) by {
                        if has_key(t1, key) {
                            let gg = choose|gg: int|
                                0 <= gg < t1.len() && (#[trigger] t1[gg]).0 == key;
                            assert(temp[gg].0 == key);
                        }
                    }
                    assert(!genome.mother.founder@.contains(key));
                    lemma_no_founder_runs(genome.mother, key, genome.mother.starts@.len() as int);
                    assert(temp[g].1@ == Seq::<u32>::empty() + founder_runs(genome.father, key));
                    assert(temp[g].1@ =~= genome_founder_runs(*genome, key));
                    assert(has_key(temp, key)) by {
                        assert(temp[g].0 == key);
                    }
                    assert(genome.father.founder@.contains(key));
                    lemma_founder_runs_nonempty(genome.father, key);
                }
            }
            assert forall|f: u32|
                has_key(temp, f) <==> (genome.mother.founder@.contains(f)
                    || genome.father.founder@.contains(f)) by {}
        }
        let mut g: usize = 0;
        while g < temp_founder_lengths.len()
            invariant
                temp_founder_lengths@ == temp,
                g <= temp.len(),
                self.wf(),
                forall|f: u32|
                    #[trigger] self.stats_of(node_id, f) == orig.stats_of(node_id, f) + (if has_key(
                        temp.take(g as int),
                        f,
                    ) {
                        genome_founder_sample(*genome, f)
                    } else {
                        Seq::<IterationStats>::empty()
                    }),
                forall|n: u32, f: u32|
                    n != node_id ==> #[trigger] self.stats_of(n, f) == orig.stats_of(n, f),
            decreases temp.len() - g,
        {
            let ghost pre_self = *self;
            let f = temp_founder_lengths[g].0;
            let lens_len = temp_founder_lengths[g].1.len();
            proof {
                assert(temp[g as int].1@ == genome_founder_runs(*genome, f));
                lemma_founder_runs_len(genome.mother, f, genome.mother.starts@.len() as int);
                lemma_founder_runs_len(genome.father, f, genome.father.starts@.len() as int);
                assert(lens_len <= u32::MAX);
            }
            let count = lens_len as u32;
            let mut total: u64 = 0;
            let mut j: usize = 0;
            while j < lens_len
                invariant
                    j <= lens_len,
                    lens_len == temp[g as int].1@.len(),
                    g < temp.len(),
                    temp_founder_lengths@ == temp,
                    total as int == seq_sum(temp[g as int].1@.take(j as int)),
                decreases lens_len - j,
            {
                proof {
                    crate::diploid::lemma_seq_sum_take(temp[g as int].1@, j as int);
                    crate::diploid::lemma_seq_sum_prefix_bound(temp[g as int].1@, j + 1);
                    lemma_seq_sum_bound(temp[g as int].1@);
                    assert((temp[g as int].1@.len() as int) * 0xffff_ffff
                        < 0x1_0000_0000_0000_0000) by (nonlinear_arith)
                        requires temp[g as int].1@.len() <= 0xffff_ffff;
                }
                total = total + (temp_founder_lengths[g].1[j] as u64);
                j = j + 1;
            }
            proof {
                assert(temp[g as int].1@.take(lens_len as int) =~= temp[g as int].1@);
            }
            self.add_founder_count_length(node_id, f, count, total);
            proof {
                let runs = genome_founder_runs(*genome, f);
                assert(runs.len() > 0);
                assert(genome_founder_sample(*genome, f) == seq![
                    IterationStats { count, total_length: total },
                ]) by {
                    assert(count == runs.len() as u32);
                    assert(total as int == seq_sum(runs));
                }
                assert(!has_key(temp.take(g as int), f)) by {
                    if has_key(temp.take(g as int), f) {
                        let gg = choose|gg: int|
                            0 <= gg < g && (#[trigger] temp.take(g as int)[gg]).0 == f;
                        assert(temp[gg].0 == f);
                    }
                }
                assert forall|f2: u32|
                    #[trigger] self.stats_of(node_id, f2) == orig.stats_of(node_id, f2) + (
                if has_key(temp.take(g + 1), f2) {
                    genome_founder_sample(*genome, f2)
                } else {
                    Seq::<IterationStats>::empty()
                }) by {
                    assert(has_key(temp.take(g + 1), f2) <==> (has_key(temp.take(g as int), f2)
                        || f2 == f)) by {
                        if has_key(temp.take(g + 1), f2) {
                            let gg = choose|gg: int|
                                0 <= gg < g + 1 && (#[trigger] temp.take(g + 1)[gg]).0 == f2;
                            if gg < g {
                                assert(temp.take(g as int)[gg].0 == f2);
                                assert(has_key(temp.take(g as int), f2));
                            }
                        }
                        if has_key(temp.take(g as int), f2) {
                            let gg = choose|gg: int|
                                0 <= gg < g && (#[trigger] temp.take(g as int)[gg]).0 == f2;
                            assert(temp.take(g + 1)[gg].0 == f2);
                            assert(has_key(temp.take(g + 1), f2));
                        }
                        if f2 == f {
                            assert(temp.take(g + 1)[g as int].0 == f2);
                            assert(has_key(temp.take(g + 1), f2));
                        }
                    }
                    if f2 == f {
                        assert(self.stats_of(node_id, f) =~= orig.stats_of(node_id, f)
                            + genome_founder_sample(*genome, f));
                    }
                }
            }
            g = g + 1;
        }
        proof {
            assert(temp.take(temp.len() as int) =~= temp);
            assert forall|f: u32|
                #[trigger] self.stats_of(node_id, f) == orig.stats_of(node_id, f)
                    + genome_founder_sample(*genome, f) by {
                assert(self.stats_of(node_id, f) == orig.stats_of(node_id, f) + (if has_key(
                    temp.take(temp.len() as int),
                    f,
                ) {
                    genome_founder_sample(*genome, f)
                } else {
                    Seq::<IterationStats>::empty()
                }));
                if !has_key(temp, f) {
                    assert(!genome.mother.founder@.contains(f));
                    assert(!genome.father.founder@.contains(f));
                    lemma_no_founder_runs(genome.mother, f, genome.mother.starts@.len() as int);
                    lemma_no_founder_runs(genome.father, f, genome.father.starts@.len() as int);
                    assert(genome_founder_sample(*genome, f) == Seq::<IterationStats>::empty());
                }
            }
        }
    }

    /// Record one iteration's count and total length for one
    /// (member, founder) pair, appending to that pair's sample sequence
    /// and touching no other pair.
    #[verifier::loop_isolation(false)]
    #[verifier::rlimit(100)]
    pub fn add_founder_count_length(&mut self, node: u32, founder: u32, count: u32, length: u64)
        requires
            old(self).wf(),
        ensures
            final(self).wf(),
            final(self).stats_of(node, founder) == old(self).stats_of(node, founder).push(
                IterationStats { count, total_length: length },
            ),
            forall|n: u32, f: u32|
                !(n == node && f == founder) ==> #[trigger] final(self).stats_of(n, f) == old(
                    self,
                ).stats_of(n, f),
    {
        let ghost pre = *self;
        let st = IterationStats::new(count, length);
        let k = find_key(&self.node_map, node);
        if k == self.node_map.len() {
            let mut lists: Vec<(u32, Vec<IterationStats>)> = Vec::new();
            let mut samples: Vec<IterationStats> = Vec::new();
            samples.push(st);
            lists.push((founder, samples));
            self.node_map.push((node, FounderStats { founder_stats: lists }));
            proof {
                let m = self.node_map@;
                assert(m == pre.node_map@.push(m[m.len() - 1]));
                lemma_entry_index(m, m.len() - 1, node);
                lemma_entry_index(m[m.len() - 1].1.founder_stats@, 0, founder);
                assert(!has_key(pre.node_map@, node));
                assert(self.stats_of(node, founder) =~= pre.stats_of(node, founder).push(st));
                assert forall|n: u32, f: u32|
                    !(n == node && f == founder) implies #[trigger] self.stats_of(n, f)
                    == pre.stats_of(n, f) by {
                    if n == node {
                        assert(!has_key(m[m.len() - 1].1.founder_stats@, f)) by {
                            if has_key(m[m.len() - 1].1.founder_stats@, f) {
                                let i = entry_index(m[m.len() - 1].1.founder_stats@, f);
                            }
                        }
                    } else {
                        if has_key(pre.node_map@, n) {
                            let i = entry_index(pre.node_map@, n);
                            lemma_entry_index(pre.node_map@, i, n);
                            lemma_entry_index(m, i, n);
                        } else {
                            assert(!has_key(m, n)) by {
                                if has_key(m, n) {
                                    let i = entry_index(m, n);
                                    assert(i < m.len() - 1 ==> pre.node_map@[i].0 == n);
                                }
                            }
                        }
                    }
                }
            }
        } else {
            let ghost old_entry = self.node_map@[k as int];
            let entry = &mut self.node_map[k];
            let j = find_key(&entry.1.founder_stats, founder);
            if j == entry.1.founder_stats.len() {
                let mut samples: Vec<IterationStats> = Vec::new();
                samples.push(st);
                entry.1.founder_stats.push((founder, samples));
            } else {
                let slot = &mut entry.1.founder_stats[j];
                slot.1.push(st);
            }
            proof {
                let m = self.node_map@;
                assert(m == pre.node_map@.update(k as int, m[k as int]));
                assert(m[k as int].0 == node);
                lemma_entry_index(pre.node_map@, k as int, node);
                lemma_entry_index(m, k as int, node);
                let old_fs = old_entry.1.founder_stats@;
                let new_fs = m[k as int].1.founder_stats@;
                assert(keys_distinct(new_fs)) by {
                    if (j as int) < old_fs.len() {
                        assert(new_fs == old_fs.update(j as int, new_fs[j as int]));
                        assert forall|i1: int, i2: int|
                            0 <= i1 < i2 < new_fs.len() implies (#[trigger] new_fs[i1]).0
                            != (#[trigger] new_fs[i2]).0 by {
                            assert(old_fs[i1].0 == new_fs[i1].0 && old_fs[i2].0 == new_fs[i2].0);
                        }
                    } else {
                        assert(new_fs == old_fs.push(new_fs[new_fs.len() - 1]));
                        assert forall|i1: int, i2: int|
                            0 <= i1 < i2 < new_fs.len() implies (#[trigger] new_fs[i1]).0
                            != (#[trigger] new_fs[i2]).0 by {
                            if i2 == new_fs.len() - 1 {
                                assert(old_fs[i1].0 == new_fs[i1].0);
                                assert(!has_key(old_fs, founder));
                                assert(old_fs[i1].0 != founder) by {
                                    if old_fs[i1].0 == founder {
                                        lemma_entry_index(old_fs, i1, founder);
                                    }
                                }
                            }
                        }
                    }
                }
                assert(self.wf()) by {
                    assert forall|g: int|
                        0 <= g < m.len() implies keys_distinct(
                        (#[trigger] m[g]).1.founder_stats@,
                    ) by {
                        if g != k as int {
                            assert(m[g] == pre.node_map@[g]);
                        }
                    }
                }
                if (j as int) < old_fs.len() {
                    lemma_entry_index(old_fs, j as int, founder);
                    lemma_entry_index(new_fs, j as int, founder);
                    assert(new_fs[j as int].1@ == old_fs[j as int].1@.push(st));
                } else {
                    lemma_entry_index(new_fs, new_fs.len() - 1, founder);
                    assert(!has_key(old_fs, founder));
                    assert(new_fs[new_fs.len() - 1].1@ =~= Seq::<IterationStats>::empty().push(
                        st,
                    ));
                }
                assert(self.stats_of(node, founder) =~= pre.stats_of(node, founder).push(st));
                assert forall|n: u32, f: u32|
                    !(n == node && f == founder) implies #[trigger] self.stats_of(n, f)
                    == pre.stats_of(n, f) by {
                    if n == node {
                        if has_key(old_fs, f) {
                            let i = entry_index(old_fs, f);
                            lemma_entry_index(old_fs, i, f);
                            lemma_entry_index(new_fs, i, f);
                            assert(new_fs[i].1@ == old_fs[i].1@);
                        } else {
                            assert(!has_key(new_fs, f)) by {
                                if has_key(new_fs, f) {
                                    let i = entry_index(new_fs, f);
                                    if i < old_fs.len() {
                                        assert(old_fs[i].0 == f);
                                    }
                                }
                            }
                        }
                    } else {
                        if has_key(pre.node_map@, n) {
                            let i = entry_index(pre.node_map@, n);
                            lemma_entry_index(pre.node_map@, i, n);
                            lemma_entry_index(m, i, n);
                            assert(m[i] == pre.node_map@[i]);
                        } else {
                            assert(!has_key(m, n)) by {
                                if has_key(m, n) {
                                    let i = entry_index(m, n);
                                    assert(pre.node_map@[i].0 == n);
                                }
                            }
                        }
                    }
                }
            }
        }
    }
}


/// Length of run `i` of a strand.
pub open spec fn run_len(d: Diploid, i: int) -> u32 {
    (run_stop(d, i) - d.starts@[i]) as u32
}

/// The lengths of founder `f`'s runs among the first `i` runs, in order.
pub open spec fn founder_runs_upto(d: Diploid, f: u32, i: int) -> Seq<u32>
    decreases i,
{
    if i <= 0 {
        Seq::<u32>::empty()
    } else {
        founder_runs_upto(d, f, i - 1) + (if d.founder@[i - 1] == f {
            seq![run_len(d, i - 1)]
        } else {
            Seq::<u32>::empty()
        })
    }
}

/// The lengths of every run founder `f` covers on the strand, in order.
pub open spec fn founder_runs(d: Diploid, f: u32) -> Seq<u32> {
    founder_runs_upto(d, f, d.starts@.len() as int)
}

proof fn lemma_founder_runs_len(d: Diploid, f: u32, i: int)
    requires
        0 <= i <= d.starts@.len(),
    ensures
        founder_runs_upto(d, f, i).len() <= i,
    decreases i,
{
    if i > 0 {
        lemma_founder_runs_len(d, f, i - 1);
    }
}

proof fn lemma_no_founder_runs(d: Diploid, f: u32, i: int)
    requires
        !d.founder@.contains(f),
        i <= d.founder@.len(),
    ensures
        founder_runs_upto(d, f, i).len() == 0,
    decreases i,
{
    if i > 0 {
        lemma_no_founder_runs(d, f, i - 1);
        assert(d.founder@[i - 1] != f) by {
            if d.founder@[i - 1] == f {
                assert(d.founder@.contains(f)) by {
                    assert(d.founder@[i - 1] == f);
                }
            }
        }
    }
}

proof fn lemma_has_founder_runs(d: Diploid, f: u32, j: int, i: int)
    requires
        0 <= j < i <= d.starts@.len(),
        d.founder@[j] == f,
    ensures
        founder_runs_upto(d, f, i).len() > 0,
    decreases i,
{
    if j < i - 1 {
        lemma_has_founder_runs(d, f, j, i - 1);
    }
}

proof fn lemma_seq_sum_bound(s: Seq<u32>)
    ensures
        0 <= seq_sum(s) <= s.len() * 0xffff_ffff,
    decreases s.len(),
{
    if s.len() > 0 {
        lemma_seq_sum_bound(s.drop_last());
    }
}

/// Append, for every founder on the strand, the lengths of its runs to
/// that founder's entry; founders without an entry get one. Entry order
/// and old values are preserved.
#[verifier::loop_isolation(false)]
#[verifier::rlimit(100)]
pub fn update_diploid(diploid: &Diploid, temp_founder_lengths: &mut Vec<(u32, Vec<u32>)>)
    requires
        diploid.wf(),
        keys_distinct(old(temp_founder_lengths)@),
    ensures
        keys_distinct(final(temp_founder_lengths)@),
        final(temp_founder_lengths)@.len() >= old(temp_founder_lengths)@.len(),
        forall|g: int|
            0 <= g < old(temp_founder_lengths)@.len()
                ==> (#[trigger] final(temp_founder_lengths)@[g]).0
                == old(temp_founder_lengths)@[g].0,
        forall|g: int|
            0 <= g < final(temp_founder_lengths)@.len()
                ==> (#[trigger] final(temp_founder_lengths)@[g]).1@ == (if g < old(
                temp_founder_lengths,
            )@.len() {
                old(temp_founder_lengths)@[g].1@
            } else {
                Seq::<u32>::empty()
            }) + founder_runs(*diploid, final(temp_founder_lengths)@[g].0),
        forall|f: u32|
            has_key(final(temp_founder_lengths)@, f) <==> (has_key(
                old(temp_founder_lengths)@,
                f,
            ) || diploid.founder@.contains(f)),
{
    let ghost pre = old(temp_founder_lengths)@;
    let ghost d = *diploid;
    let nruns = diploid.starts.len();
    let mut i: usize = 0;
    while i < nruns
        invariant
            i <= nruns,
            nruns == d.starts@.len(),
            keys_distinct(temp_founder_lengths@),
            temp_founder_lengths@.len() >= pre.len(),
            forall|g: int|
                0 <= g < pre.len() ==> (#[trigger] temp_founder_lengths@[g]).0 == pre[g].0,
            forall|g: int|
                0 <= g < temp_founder_lengths@.len() ==> (#[trigger] temp_founder_lengths@[g]).1@
                    == (if g < pre.len() {
                    pre[g].1@
                } else {
                    Seq::<u32>::empty()
                }) + founder_runs_upto(d, temp_founder_lengths@[g].0, i as int),
            forall|f: u32|
                has_key(temp_founder_lengths@, f) <==> (has_key(pre, f) || d.founder@.take(
                    i as int,
                ).contains(f)),
        decreases nruns - i,
    {
        let ghost mid = temp_founder_lengths@;
        let start = diploid.starts[i];
        let stop: u32 = if i + 1 < nruns {
            diploid.starts[i + 1]
        } else {
            diploid.end
        };
        proof {
            if i + 1 < nruns {
                assert(d.starts@[i as int] < d.starts@[i + 1]);
            } else {
                assert(d.starts@[i as int] <= d.starts@[nruns - 1]) by {
                    if (i as int) < nruns - 1 {
                        assert(d.starts@[i as int] < d.starts@[nruns - 1]);
                    }
                }
            }
        }
        let len_i = stop - start;
        proof {
            assert(len_i == run_len(d, i as int));
            assert(d.founder@.take(i + 1) =~= d.founder@.take(i as int).push(
                d.founder@[i as int],
            ));
            crate::diploid::lemma_push_contains(d.founder@.take(i as int), d.founder@[i as int]);
        }
        let f = diploid.founder[i];
        let k = find_key(&*temp_founder_lengths, f);
        if k == temp_founder_lengths.len() {
            let mut lens: Vec<u32> = Vec::new();
            lens.push(len_i);
            temp_founder_lengths.push((f, lens));
            proof {
                let m = temp_founder_lengths@;
                assert(m == mid.push(m[m.len() - 1]));
                assert forall|g: int|
                    0 <= g < m.len() implies (#[trigger] m[g]).1@ == (if g < pre.len() {
                    pre[g].1@
                } else {
                    Seq::<u32>::empty()
                }) + founder_runs_upto(d, m[g].0, i + 1) by {
                    if g < mid.len() {
                        assert(m[g] == mid[g]);
                        assert(m[g].0 != f) by {
                            if m[g].0 == f {
                                lemma_entry_index(mid, g, f);
                            }
                        }
                        assert(founder_runs_upto(d, m[g].0, i + 1) == founder_runs_upto(
                            d,
                            m[g].0,
                            i as int,
                        ));
                    } else {
                        assert(!has_key(pre, f)) by {
                            if has_key(pre, f) {
                                let gg = choose|gg: int|
                                    0 <= gg < pre.len() && (#[trigger] pre[gg]).0 == f;
                                assert(mid[gg].0 == f);
                                assert(has_key(mid, f));
                            }
                        }
                        assert(!d.founder@.take(i as int).contains(f)) by {
                            if d.founder@.take(i as int).contains(f) {
                                assert(has_key(mid, f));
                            }
                        }
                        lemma_no_founder_runs_take(d, f, i as int);
                        assert(m[g].1@ =~= Seq::<u32>::empty() + founder_runs_upto(d, f, i + 1));
                    }
                }
                assert forall|f2: u32|
                    has_key(m, f2) <==> (has_key(pre, f2) || d.founder@.take(i + 1).contains(
                        f2,
                    )) by {
                    assert(has_key(mid, f2) <==> (has_key(pre, f2) || d.founder@.take(
                        i as int,
                    ).contains(f2)));
                    assert(d.founder@.take(i + 1).contains(f2) <==> (d.founder@.take(
                        i as int,
                    ).contains(f2) || f2 == d.founder@[i as int]));
                    if has_key(m, f2) {
                        let g = choose|g: int| 0 <= g < m.len() && (#[trigger] m[g]).0 == f2;
                        if g < mid.len() {
                            assert(mid[g].0 == f2);
                            assert(has_key(mid, f2));
                        } else {
                            assert(f2 == f);
                        }
                    }
                    if has_key(mid, f2) {
                        let g = choose|g: int|
                            0 <= g < mid.len() && (#[trigger] mid[g]).0 == f2;
                        assert(m[g].0 == f2);
                        assert(has_key(m, f2));
                    }
                    if f2 == f {
                        assert(m[m.len() - 1].0 == f2);
                        assert(has_key(m, f2));
                    }
                }
                assert forall|i1: int, i2: int|
                    0 <= i1 < i2 < m.len() implies (#[trigger] m[i1]).0 != (#[trigger] m[i2]).0 by {
                    if i2 == m.len() - 1 {
                        assert(m[i1].0 != f) by {
                            if m[i1].0 == f {
                                lemma_entry_index(mid, i1, f);
                            }
                        }
                    }
                }
            }
        } else {
            let slot = &mut temp_founder_lengths[k];
            slot.1.push(len_i);
            proof {
                let m = temp_founder_lengths@;
                assert(m == mid.update(k as int, m[k as int]));
                assert(m[k as int].0 == f);
                assert forall|g: int|
                    0 <= g < m.len() implies (#[trigger] m[g]).1@ == (if g < pre.len() {
                    pre[g].1@
                } else {
                    Seq::<u32>::empty()
                }) + founder_runs_upto(d, m[g].0, i + 1) by {
                    if g == k as int {
                        assert(m[g].1@ == mid[g].1@.push(len_i));
                        assert(m[g].1@ =~= (if g < pre.len() {
                            pre[g].1@
                        } else {
                            Seq::<u32>::empty()
                        }) + founder_runs_upto(d, f, i + 1));
                    } else {
                        assert(m[g] == mid[g]);
                        assert(m[g].0 != f) by {
                            if m[g].0 == f {
                                lemma_entry_index(mid, g, f);
                                lemma_entry_index(mid, k as int, f);
                            }
                        }
                        assert(founder_runs_upto(d, m[g].0, i + 1) == founder_runs_upto(
                            d,
                            m[g].0,
                            i as int,
                        ));
                    }
                }
                assert forall|f2: u32|
                    has_key(m, f2) <==> (has_key(pre, f2) || d.founder@.take(i + 1).contains(
                        f2,
                    )) by {
                    assert(has_key(mid, f2) <==> (has_key(pre, f2) || d.founder@.take(
                        i as int,
                    ).contains(f2)));
                    assert(d.founder@.take(i + 1).contains(f2) <==> (d.founder@.take(
                        i as int,
                    ).contains(f2) || f2 == d.founder@[i as int]));
                    if has_key(m, f2) {
                        let g = choose|g: int| 0 <= g < m.len() && (#[trigger] m[g]).0 == f2;
                        assert(mid[g].0 == f2);
                        assert(has_key(mid, f2));
                    }
                    if has_key(mid, f2) {
                        let g = choose|g: int|
                            0 <= g < mid.len() && (#[trigger] mid[g]).0 == f2;
                        assert(m[g].0 == f2);
                        assert(has_key(m, f2));
                    }
                    if f2 == f {
                        assert(has_key(mid, f));
                    }
                }
                assert forall|i1: int, i2: int|
                    0 <= i1 < i2 < m.len() implies (#[trigger] m[i1]).0 != (#[trigger] m[i2]).0 by {
                    assert(mid[i1].0 == m[i1].0 && mid[i2].0 == m[i2].0);
                }
            }
        }
        i = i + 1;
    }
    proof {
        assert(d.founder@.take(d.founder@.len() as int) =~= d.founder@);
        assert forall|f: u32|
            has_key(temp_founder_lengths@, f) <==> (has_key(pre, f) || d.founder@.contains(
                f,
            )) by {
            assert(has_key(temp_founder_lengths@, f) <==> (has_key(pre, f) || d.founder@.take(
                nruns as int,
            ).contains(f)));
        }
    }
}

proof fn lemma_no_founder_runs_take(d: Diploid, f: u32, i: int)
    requires
        0 <= i <= d.founder@.len(),
        d.founder@.len() == d.starts@.len(),
        !d.founder@.take(i).contains(f),
    ensures
        founder_runs_upto(d, f, i).len() == 0,
    decreases i,
{
    if i > 0 {
        assert(!d.founder@.take(i - 1).contains(f)) by {
            if d.founder@.take(i - 1).contains(f) {
                let j = choose|j: int|
                    0 <= j < i - 1 && #[trigger] d.founder@.take(i - 1)[j] == f;
                assert(d.founder@.take(i)[j] == f);
            }
        }
        lemma_no_founder_runs_take(d, f, i - 1);
        assert(d.founder@[i - 1] != f) by {
            if d.founder@[i - 1] == f {
                assert(d.founder@.take(i)[i - 1] == f);
            }
        }
    }
}


/// The run lengths founder `f` covers across both strands of a genome.
pub open spec fn genome_founder_runs(g: Genome, f: u32) -> Seq<u32> {
    founder_runs(g.mother, f) + founder_runs(g.father, f)
}

/// One iteration's sample for a (member, founder) pair: the number of
/// runs the founder covers on the two strands and their total base-pair
/// length; no sample when the founder appears on neither strand.
pub open spec fn genome_founder_sample(g: Genome, f: u32) -> Seq<IterationStats> {
    let runs = genome_founder_runs(g, f);
    if runs.len() == 0 {
        Seq::<IterationStats>::empty()
    } else {
        seq![IterationStats { count: runs.len() as u32, total_length: seq_sum(runs) as u64 }]
    }
}

proof fn lemma_founder_runs_nonempty(d: Diploid, f: u32)
    requires
        d.founder@.contains(f),
        d.founder@.len() == d.starts@.len(),
    ensures
        founder_runs(d, f).len() > 0,
{
    let j = choose|j: int| 0 <= j < d.founder@.len() && d.founder@[j] == f;
    lemma_has_founder_runs(d, f, j, d.starts@.len() as int);
}


/// The sample member `n` contributes for founder `f` this iteration:
/// nothing when the member has no genome, otherwise the genome's sample.
pub open spec fn member_founder_sample(nodes: Seq<crate::population::Node>, n: u32, f: u32) -> Seq<
    IterationStats,
> {
    if (n as int) < nodes.len() && nodes[n as int].genome is Some {
        genome_founder_sample(nodes[n as int].genome->Some_0, f)
    } else {
        Seq::<IterationStats>::empty()
    }
}

/// Record one iteration's statistics for every member that currently
/// holds a genome.
#[verifier::loop_isolation(false)]
pub fn calculate_founder_stats(population: &Population, stats: &mut NodeStats)
    requires
        old(stats).wf(),
        nodes_wf(population.members@),
        forall|i: int|
            0 <= i < population.members@.len() ==> ((#[trigger] population.members@[i]).genome
                matches Some(g) ==> g.wf() && g.mother.starts@.len() + g.father.starts@.len()
                <= u32::MAX),
    ensures
        final(stats).wf(),
        forall|n: u32, f: u32|
            #[trigger] final(stats).stats_of(n, f) == old(stats).stats_of(n, f)
                + member_founder_sample(population.members@, n, f),
{
    let ghost orig = *old(stats);
    let ghost nodes = population.members@;
    let n_members = population.members.len();
    let mut i: usize = 0;
    while i < n_members
        invariant
            i <= n_members,
            n_members == nodes.len(),
            stats.wf(),
            forall|n: u32, f: u32|
                #[trigger] stats.stats_of(n, f) == orig.stats_of(n, f) + (if (n as int) < i {
                    member_founder_sample(nodes, n, f)
                } else {
                    Seq::<IterationStats>::empty()
                }),
        decreases n_members - i,
    {
        let ghost pre_stats = *stats;
        let node = &population.members[i];
        proof {
            assert(node.id == i as u32);
        }
        let node_id = node.id;
        match &node.genome {
            Some(genome) => {
                stats.update(node_id, genome);
            },
            None => {},
        }
        proof {
            assert forall|n: u32, f: u32|
                #[trigger] stats.stats_of(n, f) == orig.stats_of(n, f) + (if (n as int) < i + 1 {
                    member_founder_sample(nodes, n, f)
                } else {
                    Seq::<IterationStats>::empty()
                }) by {
                if n == node_id {
                    if nodes[i as int].genome is Some {
                        assert(stats.stats_of(n, f) == pre_stats.stats_of(n, f)
                            + genome_founder_sample(nodes[i as int].genome->Some_0, f));
                    }
                }
            }
        }
        i = i + 1;
    }
}

fn find_key<V>(list: &Vec<(u32, V)>, key: u32) -> (idx: usize)
    ensures
        idx <= list@.len(),
        idx < list@.len() ==> list@[idx as int].0 == key,
        idx == list@.len() ==> !has_key(list@, key),
{
    let mut k: usize = 0;
    while k < list.len()
        invariant
            k <= list@.len(),
            forall|i: int| 0 <= i < k ==> (#[trigger] list@[i]).0 != key,
        decreases list@.len() - k,
    {
        if list[k].0 == key {
            return k;
        }
        k = k + 1;
    }
    proof {
        if has_key(list@, key) {
            let i = entry_index(list@, key);
        }
    }
    list.len()
}

} // verus!
