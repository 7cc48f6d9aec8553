//! Founder genome generation: fresh diploids whose strands carry one new
//! founder id per strand across every chromosome, plus the selection of
//! chromosome-local slices when a gamete is assembled.

use vstd::prelude::*;

use crate::diploid::{
    cum_sum, founder_at, lemma_founder_stable, lemma_run_index_bounds, lemma_run_index_of,
    lemma_seq_sum_take, push_range, run_index, search_left, seq_sum, strictly_increasing, Diploid,
    Genome,
};

verus! {

/// Number of autosome pairs modelled.
pub const NUM_CHROMOSOMES: usize = 22;

/// Mints founder genomes: a counter of founder ids plus the chromosome
/// layout (per-chromosome lengths and cumulative start offsets).
pub struct RecombGenomeGenerator {
    pub chromosome_lengths: Vec<u32>,
    pub total_length: u32,
    pub chrom_start_offset: Vec<u32>,
    pub genome_id: u32,
}

impl RecombGenomeGenerator {
    /// Chromosome `c` starts at the sum of the lengths of the chromosomes
    /// before it, and the genome ends at the total length.
    pub open spec fn wf(self) -> bool {
        &&& self.chromosome_lengths@.len() == NUM_CHROMOSOMES
        &&& self.chrom_start_offset@.len() == NUM_CHROMOSOMES
        &&& forall|i: int|
            0 <= i < NUM_CHROMOSOMES ==> #[trigger] self.chromosome_lengths@[i] > 0
        &&& forall|i: int|
            0 <= i < NUM_CHROMOSOMES ==> #[trigger] self.chrom_start_offset@[i] as int == seq_sum(
                self.chromosome_lengths@.take(i),
            )
        &&& self.total_length as int == seq_sum(self.chromosome_lengths@)
    }

    pub open spec fn spec_genome_id(self) -> u32 {
        self.genome_id
    }

    /// The chromosome start offsets are strictly increasing and end below
    /// the total length.
    pub proof fn lemma_offsets_increasing(self)
        requires
            self.wf(),
        ensures
            strictly_increasing(self.chrom_start_offset@),
            (self.chrom_start_offset@.last() as int) < self.total_length as int,
            self.chrom_start_offset@[0] == 0,
    {
        assert forall|i: int, j: int|
            0 <= i < j < self.chrom_start_offset@.len() implies self.chrom_start_offset@[i]
            < self.chrom_start_offset@[j] by {
            lemma_sum_strict(self.chromosome_lengths@, i, j);
        }
        lemma_sum_strict(self.chromosome_lengths@, NUM_CHROMOSOMES as int - 1, NUM_CHROMOSOMES as int);
        assert(self.chromosome_lengths@.take(NUM_CHROMOSOMES as int) =~= self.chromosome_lengths@);
        assert(self.chromosome_lengths@.take(0) =~= Seq::<u32>::empty());
    }

    /// Build a generator for the given chromosome lengths, with founder
    /// ids starting at 0.
    pub fn new(chromosome_lengths: &Vec<u32>) -> (r: RecombGenomeGenerator)
        requires
            chromosome_lengths@.len() == NUM_CHROMOSOMES,
            forall|i: int| 0 <= i < NUM_CHROMOSOMES ==> #[trigger] chromosome_lengths@[i] > 0,
            seq_sum(chromosome_lengths@) <= u32::MAX,
        ensures
            r.wf(),
            r.chromosome_lengths@ == chromosome_lengths@,
            r.spec_genome_id() == 0,
    {
        let cum_lengths = cum_sum(chromosome_lengths);
        let mut start_offsets: Vec<u32> = Vec::new();
        start_offsets.push(0);
        let mut i: usize = 1;
        while i < NUM_CHROMOSOMES
        invariant
            cum_lengths@.len() == NUM_CHROMOSOMES,
            chromosome_lengths@.len() == NUM_CHROMOSOMES,
            forall|k: int|
                0 <= k < cum_lengths@.len() ==> cum_lengths@[k] as int == seq_sum(
                    chromosome_lengths@.take(k + 1),
                ),
            1 <= i <= NUM_CHROMOSOMES,
            start_offsets@.len() == i,
            forall|k: int|
                0 <= k < i ==> #[trigger] start_offsets@[k] as int == seq_sum(
                    chromosome_lengths@.take(k),
                ),
        decreases NUM_CHROMOSOMES - i,
        {
            start_offsets.push(cum_lengths[i - 1]);
            proof {
                assert(chromosome_lengths@.take(0) =~= Seq::<u32>::empty());
            }
            i = i + 1;
        }
        let total_length = cum_lengths[NUM_CHROMOSOMES - 1];
        proof {
            assert(chromosome_lengths@.take(NUM_CHROMOSOMES as int) =~= chromosome_lengths@);
            assert(chromosome_lengths@.take(0) =~= Seq::<u32>::empty());
        }
        RecombGenomeGenerator {
            chromosome_lengths: chromosome_lengths.clone(),
            total_length,
            chrom_start_offset: start_offsets,
            genome_id: 0,
        }
    }

    /// Mint a fresh founder genome: both strands start at every chromosome
    /// offset, the mother strand carries one new founder id everywhere and
    /// the father strand the next one.
    pub fn generate(&mut self) -> (g: Genome)
        requires
            old(self).wf(),
            old(self).spec_genome_id() <= u32::MAX - 2,
        ensures
            final(self).wf(),
            final(self).chromosome_lengths@ == old(self).chromosome_lengths@,
            final(self).chrom_start_offset@ == old(self).chrom_start_offset@,
            final(self).total_length == old(self).total_length,
            final(self).spec_genome_id() == old(self).spec_genome_id() + 2,
            g.wf(),
            g.mother.starts@ == old(self).chrom_start_offset@,
            g.father.starts@ == old(self).chrom_start_offset@,
            g.mother.end == old(self).total_length,
            g.father.end == old(self).total_length,
            g.mother.founder@.len() == NUM_CHROMOSOMES,
            g.father.founder@.len() == NUM_CHROMOSOMES,
            forall|k: int|
                0 <= k < NUM_CHROMOSOMES ==> #[trigger] g.mother.founder@[k] == old(
                    self,
                ).spec_genome_id(),
            forall|k: int|
                0 <= k < NUM_CHROMOSOMES ==> #[trigger] g.father.founder@[k] == old(
                    self,
                ).spec_genome_id() + 1,
    {
        proof {
            self.lemma_offsets_increasing();
        }
        let starts = self.chrom_start_offset.clone();
        let mut mother_founder: Vec<u32> = Vec::new();
        let mut father_founder: Vec<u32> = Vec::new();
        let mother_id = self.genome_id;
        let father_id = self.genome_id + 1;
        let mut k: usize = 0;
        while k < NUM_CHROMOSOMES
            invariant
                k <= NUM_CHROMOSOMES,
                mother_founder@.len() == k,
                father_founder@.len() == k,
                forall|m: int| 0 <= m < k ==> #[trigger] mother_founder@[m] == mother_id,
                forall|m: int| 0 <= m < k ==> #[trigger] father_founder@[m] == father_id,
            decreases NUM_CHROMOSOMES - k,
        {
            mother_founder.push(mother_id);
            father_founder.push(father_id);
            k = k + 1;
        }
        self.genome_id = self.genome_id + 2;
        let mother = Diploid {
            starts: starts.clone(),
            founder: mother_founder,
            end: self.total_length,
        };
        let father = Diploid { starts, founder: father_founder, end: self.total_length };
        Genome { mother, father }
    }

    /// Restart founder ids at 0 for a new simulation iteration.
    pub fn reset(&mut self)
        requires
            old(self).wf(),
        ensures
            final(self).wf(),
            final(self).chromosome_lengths@ == old(self).chromosome_lengths@,
            final(self).chrom_start_offset@ == old(self).chrom_start_offset@,
            final(self).total_length == old(self).total_length,
            final(self).spec_genome_id() == 0,
    {
        self.genome_id = 0;
    }
}

proof fn lemma_sum_strict(lengths: Seq<u32>, i: int, j: int)
    requires
        0 <= i < j <= lengths.len(),
        forall|k: int| 0 <= k < lengths.len() ==> #[trigger] lengths[k] > 0,
    ensures
        seq_sum(lengths.take(i)) < seq_sum(lengths.take(j)),
    decreases j - i,
{
    lemma_seq_sum_take(lengths, j - 1);
    if i < j - 1 {
        lemma_sum_strict(lengths, i, j - 1);
    }
}


/// The founder id at `p` of the strand selected for `p`'s chromosome:
/// chromosome `c` spans `[offsets[c], offsets[c+1])` and contributes the
/// mother strand where `picks[c]` holds, the father strand otherwise.
pub open spec fn picked_founder_at(g: Genome, picks: Seq<bool>, offsets: Seq<u32>, p: int) -> u32 {
    if picks[run_index(offsets, p)] {
        founder_at(g.mother, p)
    } else {
        founder_at(g.father, p)
    }
}

/// Assemble a gamete from a recombined genome by selecting, for each
/// chromosome independently, one of the two strands and concatenating the
/// chromosome-local slices.
#[verifier::loop_isolation(false)]
#[verifier::rlimit(100)]
pub fn pick_chroms(genome: &Genome, picks: &Vec<bool>, offsets: &Vec<u32>) -> (d: Diploid)
    requires
        genome.wf(),
        picks@.len() == offsets@.len(),
        offsets@.len() > 0,
        strictly_increasing(offsets@),
        offsets@[0] == genome.mother.starts@[0],
        (offsets@.last() as int) < genome.mother.end as int,
        forall|c: int|
            0 <= c < offsets@.len() ==> genome.mother.starts@.contains(#[trigger] offsets@[c])
                && genome.father.starts@.contains(offsets@[c]),
    ensures
        d.wf(),
        d.end == genome.mother.end,
        d.starts@[0] == genome.mother.starts@[0],
        forall|p: int|
            genome.mother.starts@[0] <= p < genome.mother.end ==> founder_at(d, p)
                == picked_founder_at(*genome, picks@, offsets@, p),
{
    let ghost offs = offsets@;
    let ghost pk = picks@;
    let ghost s0 = genome.mother.starts@[0] as int;
    let ghost end = genome.mother.end as int;
    let n = offsets.len();
    let mut new_starts: Vec<u32> = Vec::new();
    let mut new_founder: Vec<u32> = Vec::new();
    let mut c: usize = 0;
    while c < n
        invariant
            c <= n,
            new_starts@.len() == new_founder@.len(),
            strictly_increasing(new_starts@),
            forall|k: int|
                0 <= k < new_starts@.len() ==> s0 <= #[trigger] new_starts@[k] && (
                new_starts@[k] as int) < chrom_frontier(offs, c as int, end),
            forall|k: int| 0 <= k < new_starts@.len() ==> (#[trigger] new_starts@[k] as int) < end,
            forall|k: int|
                0 <= k < new_starts@.len() ==> #[trigger] new_founder@[k] == picked_founder_at(
                    *genome,
                    pk,
                    offs,
                    new_starts@[k] as int,
                ),
            forall|x: u32|
                s0 <= x && (x as int) < chrom_frontier(offs, c as int, end) && (if pk[run_index(
                    offs,
                    x as int,
                )] {
                    genome.mother.starts@.contains(x)
                } else {
                    genome.father.starts@.contains(x)
                }) ==> new_starts@.contains(x),
        decreases n - c,
    {
        let ghost pre_starts = new_starts@;
        let ghost pre_founder = new_founder@;
        let ghost pre_fr = chrom_frontier(offs, c as int, end);
        let start = offsets[c];
        let picked = picks[c];
        let strand: &Diploid = if picked {
            &genome.mother
        } else {
            &genome.father
        };
        proof {
            assert(strand.starts@.contains(start));
            assert(pre_fr == start as int);
        }
        let start_i = search_left(&strand.starts, start);
        let stop_i: usize = if c + 1 < n {
            search_left(&strand.starts, offsets[c + 1])
        } else {
            strand.starts.len()
        };
        proof {
            assert(start_i <= stop_i) by {
                if stop_i < start_i {
                    if c + 1 < n {
                        assert(strand.starts@[stop_i as int] < start);
                        assert(offs[c + 1] <= strand.starts@[stop_i as int]);
                        assert(offs[c as int] < offs[c + 1]);
                    }
                }
            }
            assert(start_i < strand.starts@.len()) by {
                let m = choose|m: int|
                    0 <= m < strand.starts@.len() && strand.starts@[m] == start;
                if start_i > m {
                    assert(strand.starts@[m] < start);
                }
            }
        }
        push_range(&mut new_starts, &mut new_founder, strand, start_i, stop_i);
        c = c + 1;
        proof {
            let new_fr = chrom_frontier(offs, c as int, end);
            let seg = strand.starts@.subrange(start_i as int, stop_i as int);
            let a = pre_starts.len() as int;
            assert(new_starts@ == pre_starts + seg);
            // the appended boundaries lie in [start, new_fr)
            assert forall|k: int|
                0 <= k < seg.len() implies start <= #[trigger] seg[k] && (seg[k] as int) < new_fr
                    && (seg[k] as int) < end && run_index(offs, seg[k] as int) == c - 1 by {
                let j = start_i + k;
                assert(seg[k] == strand.starts@[j]);
                assert(start <= strand.starts@[j]);
                if c < n {
                    assert(strand.starts@[j] < offs[c as int]);
                }
                assert(strand.starts@[j] as int <= strand.starts@[strand.starts@.len() - 1] as int)
                    by {
                    if j < strand.starts@.len() - 1 {
                        assert(strand.starts@[j] < strand.starts@[strand.starts@.len() - 1]);
                    }
                }
                lemma_run_index_of(offs, seg[k] as int, c - 1);
            }
            assert forall|k: int|
                0 <= k < new_starts@.len() implies s0 <= #[trigger] new_starts@[k] && (
            new_starts@[k] as int) < new_fr && (new_starts@[k] as int) < end by {
                if k < a {
                    assert(new_starts@[k] == pre_starts[k]);
                    assert(pre_fr <= new_fr) by {
                        if c < n {
                            assert(offs[c - 1] < offs[c as int]);
                        }
                    }
                } else {
                    assert(new_starts@[k] == seg[k - a]);
                    assert(s0 <= offs[0] as int);
                    assert(offs[0] <= offs[c - 1]) by {
                        if 0 < c - 1 {
                            assert(offs[0] < offs[c - 1]);
                        }
                    }
                }
            }
            assert forall|i: int, j: int|
                0 <= i < j < new_starts@.len() implies #[trigger] new_starts@[i]
                < #[trigger] new_starts@[j] by {
                if j < a {
                    assert(pre_starts[i] < pre_starts[j]);
                } else if i < a {
                    assert(new_starts@[i] == pre_starts[i]);
                    assert((pre_starts[i] as int) < pre_fr);
                    assert(new_starts@[j] == seg[j - a]);
                    assert(start as int == pre_fr);
                } else {
                    assert(strand.starts@[start_i + (i - a)] < strand.starts@[start_i + (j - a)]);
                }
            }
            assert forall|k: int|
                0 <= k < new_starts@.len() implies #[trigger] new_founder@[k] == picked_founder_at(
                *genome,
                pk,
                offs,
                new_starts@[k] as int,
            ) by {
                if k < a {
                    assert(new_starts@[k] == pre_starts[k]);
                    assert(new_founder@[k] == pre_founder[k]);
                } else {
                    let j = start_i + (k - a);
                    let x = strand.starts@[j];
                    assert(new_starts@[k] == x);
                    assert(new_founder@[k] == strand.founder@[j]);
                    assert(run_index(offs, x as int) == c - 1);
                    assert(j + 1 < strand.starts@.len() ==> strand.starts@[j] < strand.starts@[j
                        + 1]);
                    lemma_run_index_of(strand.starts@, x as int, j);
                }
            }
            assert forall|x: u32|
                s0 <= x && (x as int) < new_fr && (if pk[run_index(offs, x as int)] {
                    genome.mother.starts@.contains(x)
                } else {
                    genome.father.starts@.contains(x)
                }) implies new_starts@.contains(x) by {
                if (x as int) < pre_fr {
                    assert(pre_starts.contains(x));
                    let m = choose|m: int| 0 <= m < pre_starts.len() && pre_starts[m] == x;
                    assert(new_starts@[m] == x);
                } else {
                    assert(start as int <= x as int && (x as int) < new_fr);
                    assert(run_index(offs, x as int) == c - 1) by {
                        lemma_run_index_of(offs, x as int, c - 1);
                    }
                    assert(strand.starts@.contains(x));
                    let j = choose|j: int|
                        0 <= j < strand.starts@.len() && strand.starts@[j] == x;
                    assert(start_i <= j) by {
                        if j < start_i {
                            assert(strand.starts@[j] < start);
                        }
                    }
                    assert(j < stop_i) by {
                        if c < n && stop_i <= j {
                            assert(offs[c as int] <= strand.starts@[j]);
                        }
                    }
                    assert(new_starts@[a + (j - start_i)] == seg[j - start_i]);
                    assert(seg[j - start_i] == x);
                }
            }
        }
    }
    let result = Diploid { starts: new_starts, founder: new_founder, end: genome.mother.end };
    proof {
        let x0 = offs[0];
        assert(result.starts@.contains(x0)) by {
            assert(run_index(offs, x0 as int) == 0) by {
                lemma_run_index_of(offs, x0 as int, 0);
            }
            assert((x0 as int) < end) by {
                assert(offs[0] <= offs[offs.len() - 1]) by {
                    if 0 < offs.len() - 1 {
                        assert(offs[0] < offs[offs.len() - 1]);
                    }
                }
            }
            if pk[0] {
            } else {
            }
        }
        assert(result.starts@.len() > 0);
        let m0 = choose|m: int| 0 <= m < result.starts@.len() && result.starts@[m] == x0;
        assert(result.starts@[0] <= result.starts@[m0]) by {
            if 0 < m0 {
                assert(result.starts@[0] < result.starts@[m0]);
            }
        }
        assert(result.starts@[0] == x0);
        assert(result.starts@[result.starts@.len() - 1] < result.end);
        assert(result.wf());
        // pointwise founder assignment
        assert forall|p: int|
            s0 <= p < end implies founder_at(result, p) == picked_founder_at(
            *genome,
            pk,
            offs,
            p,
        ) by {
            lemma_run_index_bounds(result.starts@, p);
            let k = run_index(result.starts@, p);
            let aa = result.starts@[k] as int;
            assert(result.starts@[0] <= result.starts@[k]) by {
                if 0 < k {
                    assert(result.starts@[0] < result.starts@[k]);
                }
            }
            // no result boundary lies in (aa, p]
            assert forall|x: u32| result.starts@.contains(x) implies !(aa < x <= p) by {
                if aa < x <= p {
                    let m = choose|m: int|
                        0 <= m < result.starts@.len() && result.starts@[m] == x;
                    assert(k < m) by {
                        if m < k {
                            assert(result.starts@[m] < result.starts@[k]);
                        }
                    }
                    assert(result.starts@[k + 1] <= result.starts@[m]) by {
                        if k + 1 < m {
                            assert(result.starts@[k + 1] < result.starts@[m]);
                        }
                    }
                    assert(false);
                }
            }
            lemma_run_index_bounds(offs, aa);
            let ca = run_index(offs, aa);
            // p lies in the same chromosome as aa
            assert(run_index(offs, p) == ca) by {
                if ca + 1 < offs.len() && offs[ca + 1] <= p {
                    let x = offs[ca + 1];
                    assert((x as int) < end) by {
                        if ca + 1 < offs.len() - 1 {
                            assert(offs[ca + 1] < offs[offs.len() - 1]);
                        }
                    }
                    assert(run_index(offs, x as int) == ca + 1) by {
                        lemma_run_index_of(offs, x as int, ca + 1);
                    }
                    assert(result.starts@.contains(x)) by {
                        if pk[ca + 1] {
                        } else {
                        }
                    }
                    assert(false);
                }
                lemma_run_index_of(offs, p, ca);
            }
            lemma_run_index_bounds(offs, p);
            // the chosen strand's founder is stable on (aa, p]
            let strand = if pk[ca] {
                genome.mother
            } else {
                genome.father
            };
            assert forall|i: int|
                0 <= i < strand.starts@.len() implies !(aa < #[trigger] strand.starts@[i]
                <= p) by {
                let x = strand.starts@[i];
                if aa < x <= p {
                    assert(run_index(offs, x as int) == ca) by {
                        assert(offs[ca] <= aa < x as int);
                        if ca + 1 < offs.len() {
                            assert(p < offs[ca + 1]);
                        }
                        lemma_run_index_of(offs, x as int, ca);
                    }
                    assert(strand.starts@.contains(x));
                    assert(result.starts@.contains(x)) by {
                        if pk[ca] {
                        } else {
                        }
                    }
                    assert(false);
                }
            }
            lemma_founder_stable(strand, aa, p);
            assert(new_founder@[k] == picked_founder_at(*genome, pk, offs, aa));
        }
    }
    result
}

/// Frontier of the chromosome walk: start of chromosome `c`, or the
/// genome's end once every chromosome is done.
pub open spec fn chrom_frontier(offs: Seq<u32>, c: int, end: int) -> int {
    if c < offs.len() {
        offs[c] as int
    } else {
        end
    }
}

} // verus!
