//! Pedigree model: nodes held in one arena vector indexed by id, with
//! non-owning parent references and owning child id lists, grouped by
//! generation.

use vstd::prelude::*;

use crate::diploid::{strictly_increasing, Diploid, Genome};

verus! {

#[derive(Clone, Copy, Debug, PartialEq, Eq, Structural)]
pub enum Sex {
    Male,
    Female,
}

/// One pedigree member. Parent links point at smaller ids; children lists
/// are derived from the parent links and kept in ascending order.
#[derive(Clone, Debug)]
pub struct Node {
    pub id: u32,
    pub sex: Sex,
    pub generation: u32,
    pub father: Option<u32>,
    pub mother: Option<u32>,
    pub suspected_father: Option<u32>,
    pub suspected_mother: Option<u32>,
    pub children: Vec<u32>,
    pub suspected_children: Vec<u32>,
    pub twin: Option<u32>,
    pub genome: Option<Genome>,
}

pub struct Generation {
    pub members: Vec<u32>,
}

pub struct Population {
    pub members: Vec<Node>,
    pub generations: Vec<Generation>,
}

/// Parent and twin references of a node are in range: parents precede the
/// node, the twin is any member, and the two parents are distinct.
pub open spec fn node_refs_wf(nd: Node, i: int, n: int) -> bool {
    &&& (nd.father matches Some(f) ==> (f as int) < i)
    &&& (nd.mother matches Some(m) ==> (m as int) < i)
    &&& (nd.suspected_father matches Some(f) ==> (f as int) < i)
    &&& (nd.suspected_mother matches Some(m) ==> (m as int) < i)
    &&& (nd.father is Some && nd.mother is Some ==> nd.father != nd.mother)
    &&& (nd.suspected_father is Some && nd.suspected_mother is Some ==> nd.suspected_father
        != nd.suspected_mother)
    &&& (nd.twin matches Some(t) ==> (t as int) < n)
}

/// The children list of node `i` holds exactly the ids whose father or
/// mother link is `i`, in ascending order.
pub open spec fn children_wf(nodes: Seq<Node>, i: int) -> bool {
    &&& strictly_increasing(nodes[i].children@)
    &&& forall|c: u32|
        nodes[i].children@.contains(c) <==> ((c as int) < nodes.len() && (nodes[c as int].father
            == Some(i as u32) || nodes[c as int].mother == Some(i as u32)))
}

/// Mirror of `children_wf` for the suspected links.
pub open spec fn suspected_children_wf(nodes: Seq<Node>, i: int) -> bool {
    &&& strictly_increasing(nodes[i].suspected_children@)
    &&& forall|c: u32|
        nodes[i].suspected_children@.contains(c) <==> ((c as int) < nodes.len() && (nodes[c
            as int].suspected_father == Some(i as u32) || nodes[c as int].suspected_mother == Some(
            i as u32,
        )))
}

/// The arena invariant: ids are positions, references are in range, and
/// child lists match the parent links.
pub open spec fn nodes_wf(nodes: Seq<Node>) -> bool {
    &&& forall|i: int| 0 <= i < nodes.len() ==> (#[trigger] nodes[i]).id == i
    &&& forall|i: int|
        0 <= i < nodes.len() ==> node_refs_wf(#[trigger] nodes[i], i, nodes.len() as int)
    &&& forall|i: int| 0 <= i < nodes.len() ==> #[trigger] children_wf(nodes, i)
    &&& forall|i: int| 0 <= i < nodes.len() ==> #[trigger] suspected_children_wf(nodes, i)
}

/// Generation grouping: every node's generation indexes a generation list,
/// and list `g` holds exactly the ids of generation `g`, ascending.
pub open spec fn population_wf(p: Population) -> bool {
    &&& nodes_wf(p.members@)
    &&& forall|i: int|
        0 <= i < p.members@.len() ==> ((#[trigger] p.members@[i]).generation as int)
            < p.generations@.len()
    &&& forall|g: int|
        0 <= g < p.generations@.len() ==> strictly_increasing(
            (#[trigger] p.generations@[g]).members@,
        )
    &&& forall|g: int, c: u32|
        0 <= g < p.generations@.len() ==> ((#[trigger] p.generations@[g].members@.contains(c))
            <==> ((c as int) < p.members@.len() && p.members@[c as int].generation == g))
}

/// Largest generation number among the nodes, or 0 when there are none.
pub open spec fn max_generation(nodes: Seq<Node>) -> int
    decreases nodes.len(),
{
    if nodes.len() == 0 {
        0
    } else if nodes.last().generation as int >= max_generation(nodes.drop_last()) {
        nodes.last().generation as int
    } else {
        max_generation(nodes.drop_last())
    }
}

impl Generation {
    pub fn new() -> (g: Generation)
        ensures
            g.members@.len() == 0,
    {
        Generation { members: Vec::new() }
    }
}

impl Population {
    /// Group the members by generation. The members must satisfy the arena
    /// invariant; the grouping then satisfies the population invariant.
    #[verifier::loop_isolation(false)]
    pub fn new(members: Vec<Node>) -> (p: Population)
        requires
            nodes_wf(members@),
            max_generation(members@) + 1 <= usize::MAX,
        ensures
            p.members@ == members@,
            population_wf(p),
            p.generations@.len() == max_generation(members@) + 1,
    {
        let ghost m_seq = members@;
        let mut max_gen: u32 = 0;
        let mut i: usize = 0;
        while i < members.len()
            invariant
                i <= m_seq.len(),
                max_gen as int == max_generation(m_seq.take(i as int)),
            decreases m_seq.len() - i,
        {
            proof {
                assert(m_seq.take(i + 1).drop_last() =~= m_seq.take(i as int));
            }
            let g = members[i].generation;
            if g > max_gen {
                max_gen = g;
            }
            i = i + 1;
        }
        proof {
            assert(m_seq.take(m_seq.len() as int) =~= m_seq);
            lemma_max_generation_bound(m_seq);
        }
        let num_generations: usize = (max_gen as usize) + 1;
        let mut generations: Vec<Generation> = Vec::new();
        let mut g: usize = 0;
        while g < num_generations
            invariant
                g <= num_generations,
                generations@.len() == g,
                forall|k: int| 0 <= k < g ==> (#[trigger] generations@[k]).members@.len() == 0,
            decreases num_generations - g,
        {
            generations.push(Generation::new());
            g = g + 1;
        }
        let mut j: usize = 0;
        while j < members.len()
            invariant
                j <= m_seq.len(),
                generations@.len() == num_generations,
                forall|k: int|
                    0 <= k < num_generations ==> strictly_increasing(
                        (#[trigger] generations@[k]).members@,
                    ),
                forall|k: int, c: u32|
                    0 <= k < num_generations ==> ((#[trigger] generations@[k].members@.contains(c))
                        <==> ((c as int) < j && m_seq[c as int].generation == k)),
                forall|k: int, ci: int|
                    0 <= k < num_generations && 0 <= ci < generations@[k].members@.len() ==> ((
                    #[trigger] generations@[k].members@[ci]) as int) < j,
            decreases m_seq.len() - j,
        {
            let ghost pre_gens = generations@;
            let g = members[j].generation;
            proof {
                lemma_max_generation_member(m_seq, j as int);
            }
            let gen_ref = &mut generations[g as usize];
            gen_ref.members.push(j as u32);
            proof {
                assert(generations@ == pre_gens.update(
                    g as int,
                    Generation { members: generations@[g as int].members },
                ));
                let newlist = generations@[g as int].members@;
                let oldlist = pre_gens[g as int].members@;
                assert(newlist == oldlist.push(j as u32));
                assert forall|k: int, c: u32|
                    0 <= k < num_generations implies ((#[trigger] generations@[k].members@.contains(
                    c,
                )) <==> ((c as int) < j + 1 && m_seq[c as int].generation == k)) by {
                    if k != g as int {
                        assert(generations@[k] == pre_gens[k]);
                        if generations@[k].members@.contains(c) {
                            assert((c as int) < j);
                        }
                        if (c as int) < j + 1 && m_seq[c as int].generation == k {
                            assert((c as int) != j as int);
                            assert(pre_gens[k].members@.contains(c));
                        }
                    } else {
                        if newlist.contains(c) {
                            let ci = choose|ci: int|
                                0 <= ci < newlist.len() && newlist[ci] == c;
                            if ci < oldlist.len() {
                                assert(oldlist[ci] == c);
                                assert(oldlist.contains(c));
                            } else {
                                assert(c == j as u32);
                            }
                        }
                        if (c as int) < j + 1 && m_seq[c as int].generation == k {
                            if (c as int) < j {
                                assert(oldlist.contains(c));
                                let ci = choose|ci: int|
                                    0 <= ci < oldlist.len() && oldlist[ci] == c;
                                assert(newlist[ci] == c);
                            } else {
                                assert(newlist[newlist.len() - 1] == j as u32);
                            }
                        }
                    }
                }
                assert forall|k: int|
                    0 <= k < num_generations implies strictly_increasing(
                    (#[trigger] generations@[k]).members@,
                ) by {
                    if k == g as int {
                        assert forall|i1: int, i2: int|
                            0 <= i1 < i2 < newlist.len() implies newlist[i1] < newlist[i2] by {
                            if i2 < oldlist.len() {
                                assert(oldlist[i1] < oldlist[i2]);
                            } else {
                                assert(newlist[i2] == j as u32);
                                assert(newlist[i1] == oldlist[i1]);
                                assert((oldlist[i1] as int) < j);
                            }
                        }
                    } else {
                        assert(generations@[k] == pre_gens[k]);
                    }
                }
            }
            j = j + 1;
        }
        let p = Population { members, generations };
        p
    }
}

proof fn lemma_max_generation_bound(nodes: Seq<Node>)
    ensures
        forall|i: int|
            0 <= i < nodes.len() ==> ((#[trigger] nodes[i]).generation as int) <= max_generation(
                nodes,
            ),
        max_generation(nodes) >= 0,
    decreases nodes.len(),
{
    if nodes.len() > 0 {
        lemma_max_generation_bound(nodes.drop_last());
        assert forall|i: int|
            0 <= i < nodes.len() implies ((#[trigger] nodes[i]).generation as int)
            <= max_generation(nodes) by {
            if i < nodes.len() - 1 {
                assert(nodes.drop_last()[i] == nodes[i]);
            }
        }
    }
}

proof fn lemma_max_generation_member(nodes: Seq<Node>, i: int)
    requires
        0 <= i < nodes.len(),
    ensures
        (nodes[i].generation as int) <= max_generation(nodes),
{
    lemma_max_generation_bound(nodes);
}


/// Key for one (labeled, unlabeled) pair of node ids.
#[derive(Clone, Copy, Debug, PartialEq, Eq, Structural, Hash)]
pub struct NodeIdPair {
    pub labeled: u32,
    pub unlabeled: u32,
}

/// A pair whose shared segment lengths are sampled by the simulation.
#[derive(Clone, Copy, Debug, PartialEq, Eq, Structural)]
pub struct RelatedPair {
    pub labeled: u32,
    pub unlabeled: u32,
}

/// A pedigree member as it appears in the interchange form.
#[derive(Clone, Copy, Debug)]
pub struct JsonNode {
    pub id: u32,
    pub sex: Sex,
    pub generation: u32,
    pub father: Option<u32>,
    pub mother: Option<u32>,
    pub suspected_father: Option<u32>,
    pub suspected_mother: Option<u32>,
    pub twin: Option<u32>,
}

#[derive(Clone, Copy, Debug)]
pub struct JsonRelated {
    pub labeled_node: u32,
    pub unlabeled_node: u32,
}

pub struct JsonPopulation {
    pub nodes: Vec<JsonNode>,
    pub related: Vec<JsonRelated>,
    pub labeled: Vec<u32>,
}

/// Mints node ids past the imported ones.
pub struct NodeGenerator {
    pub id: u32,
    pub nodes: Population,
}

pub struct ImportedPopulation {
    pub node_generator: NodeGenerator,
    pub related: Vec<RelatedPair>,
    pub labeled: Vec<u32>,
}

impl Node {
    /// A copy of this node suitable for a twin: same links, no children of
    /// its own yet, and the same genome.
    pub fn twin_node(&self) -> (r: Node)
        ensures
            r.id == self.id,
            r.sex == self.sex,
            r.generation == self.generation,
            r.father == self.father,
            r.mother == self.mother,
            r.suspected_father == self.suspected_father,
            r.suspected_mother == self.suspected_mother,
            r.children@.len() == 0,
            r.suspected_children@.len() == 0,
            r.twin == self.twin,
            r.genome is Some <==> self.genome is Some,
    {
        Node {
            id: self.id,
            sex: self.sex,
            generation: self.generation,
            father: self.father,
            mother: self.mother,
            suspected_father: self.suspected_father,
            suspected_mother: self.suspected_mother,
            children: Vec::new(),
            suspected_children: Vec::new(),
            twin: self.twin,
            genome: match &self.genome {
                Some(g) => Some(clone_genome(g)),
                None => None,
            },
        }
    }
}

/// An identical copy of a strand, with every field pinned.
pub fn clone_diploid(d: &Diploid) -> (r: Diploid)
    ensures
        r.starts@ == d.starts@,
        r.founder@ == d.founder@,
        r.end == d.end,
{
    Diploid { starts: d.starts.clone(), founder: d.founder.clone(), end: d.end }
}

/// An identical copy of a genome, with every field pinned.
pub fn clone_genome(g: &Genome) -> (r: Genome)
    ensures
        r.mother.starts@ == g.mother.starts@,
        r.mother.founder@ == g.mother.founder@,
        r.mother.end == g.mother.end,
        r.father.starts@ == g.father.starts@,
        r.father.founder@ == g.father.founder@,
        r.father.end == g.father.end,
{
    Genome { mother: clone_diploid(&g.mother), father: clone_diploid(&g.father) }
}

/// Drop the genome of every member, leaving everything else unchanged.
#[verifier::loop_isolation(false)]
pub fn clean_genomes(population: &mut Population)
    ensures
        final(population).members@.len() == old(population).members@.len(),
        forall|i: int|
            0 <= i < final(population).members@.len() ==> (#[trigger] final(population).members@[i]).genome is None
                && node_same_but_genome(
                final(population).members@[i],
                old(population).members@[i],
            ),
        final(population).generations@ == old(population).generations@,
{
    let n = population.members.len();
    let mut i: usize = 0;
    while i < n
        invariant
            i <= n,
            population.members@.len() == n,
            population.generations@ == old(population).generations@,
            forall|k: int|
                0 <= k < i ==> (#[trigger] population.members@[k]).genome is None
                    && node_same_but_genome(
                    population.members@[k],
                    old(population).members@[k],
                ),
            forall|k: int|
                i <= k < n ==> #[trigger] population.members@[k] == old(population).members@[k],
        decreases n - i,
    {
        let node_ref = &mut population.members[i];
        node_ref.genome = None;
        i = i + 1;
    }
}

/// Both nodes agree on every field except possibly the genome.
pub open spec fn node_same_but_genome(a: Node, b: Node) -> bool {
    &&& a.id == b.id
    &&& a.sex == b.sex
    &&& a.generation == b.generation
    &&& a.father == b.father
    &&& a.mother == b.mother
    &&& a.suspected_father == b.suspected_father
    &&& a.suspected_mother == b.suspected_mother
    &&& a.children == b.children
    &&& a.suspected_children == b.suspected_children
    &&& a.twin == b.twin
}

/// Store a freshly produced genome on one member.
#[verifier::loop_isolation(false)]
pub fn set_genome(population: &mut Population, node_id: usize, genome: Genome)
    requires
        node_id < old(population).members@.len(),
    ensures
        final(population).members@.len() == old(population).members@.len(),
        final(population).generations@ == old(population).generations@,
        (final(population).members@[node_id as int]).genome == Some(genome),
        node_same_but_genome(
            final(population).members@[node_id as int],
            old(population).members@[node_id as int],
        ),
        forall|k: int|
            0 <= k < old(population).members@.len() && k != node_id
                ==> #[trigger] final(population).members@[k] == old(population).members@[k],
{
    let node_ref = &mut population.members[node_id];
    node_ref.genome = Some(genome);
}

/// How the genome of one member is obtained during generation.
#[derive(Debug)]
pub enum GenomeSource {
    /// The member already has a genome for this iteration.
    Existing,
    /// Both effective parents are absent: mint a fresh founder genome.
    Founder,
    /// Reuse the genome of the twin with this id.
    FromTwin(u32),
    /// Mate the two parents' genomes; an absent parent is synthesized as a
    /// fresh founder first.
    Mate(Option<u32>, Option<u32>),
}

/// The decision `generate_genomes` takes for one member: the effective
/// parent links come from the true or the suspected pedigree, a twin with
/// a genome and the same effective parents is shared, and otherwise the
/// parents are mated.
pub open spec fn genome_source_spec(nodes: Seq<Node>, id: int, true_genealogy: bool) -> GenomeSource {
    let nd = nodes[id];
    let m = if true_genealogy {
        nd.mother
    } else {
        nd.suspected_mother
    };
    let f = if true_genealogy {
        nd.father
    } else {
        nd.suspected_father
    };
    if nd.genome is Some {
        GenomeSource::Existing
    } else if m is None && f is None {
        GenomeSource::Founder
    } else if nd.twin is Some && twin_shares_parents(nodes, id, true_genealogy) {
        GenomeSource::FromTwin(nd.twin->Some_0)
    } else {
        GenomeSource::Mate(m, f)
    }
}

/// The twin of node `id` already has a genome and the same effective
/// parent links, so its genome can be reused.
pub open spec fn twin_shares_parents(nodes: Seq<Node>, id: int, true_genealogy: bool) -> bool {
    let nd = nodes[id];
    let t = nd.twin->Some_0 as int;
    let tw = nodes[t];
    &&& tw.genome is Some
    &&& (if true_genealogy {
        nd.mother
    } else {
        nd.suspected_mother
    }) == (if true_genealogy {
        tw.mother
    } else {
        tw.suspected_mother
    })
    &&& (if true_genealogy {
        nd.father
    } else {
        nd.suspected_father
    }) == (if true_genealogy {
        tw.father
    } else {
        tw.suspected_father
    })
}

/// Decide how the genome of member `node_id` is produced.
pub fn genome_source(population: &Population, node_id: usize, true_genealogy: bool) -> (s:
    GenomeSource)
    requires
        nodes_wf(population.members@),
        node_id < population.members@.len(),
    ensures
        s == genome_source_spec(population.members@, node_id as int, true_genealogy),
{
    let nd = &population.members[node_id];
    let m = if true_genealogy {
        nd.mother
    } else {
        nd.suspected_mother
    };
    let f = if true_genealogy {
        nd.father
    } else {
        nd.suspected_father
    };
    if nd.genome.is_some() {
        return GenomeSource::Existing;
    }
    if m.is_none() && f.is_none() {
        return GenomeSource::Founder;
    }
    if let Some(t) = nd.twin {
        let twin = &population.members[t as usize];
        let tm = if true_genealogy {
            twin.mother
        } else {
            twin.suspected_mother
        };
        let tf = if true_genealogy {
            twin.father
        } else {
            twin.suspected_father
        };
        if twin.genome.is_some() && option_eq(m, tm) && option_eq(f, tf) {
            return GenomeSource::FromTwin(t);
        }
    }
    GenomeSource::Mate(m, f)
}

/// Equality of two optional ids.
pub fn option_eq(a: Option<u32>, b: Option<u32>) -> (r: bool)
    ensures
        r == (a == b),
{
    match (a, b) {
        (None, None) => true,
        (Some(x), Some(y)) => x == y,
        _ => false,
    }
}

/// The sibling group of a member: every id sharing both parents with it,
/// itself included; the member alone when either parent is absent.
pub open spec fn is_sibling_group(nodes: Seq<Node>, id: int, r: Seq<u32>) -> bool {
    let nd = nodes[id];
    if nd.father is None || nd.mother is None {
        r =~= seq![id as u32]
    } else {
        &&& strictly_increasing(r)
        &&& forall|c: u32|
            r.contains(c) <==> ((c as int) < nodes.len() && nodes[c as int].father == nd.father
                && nodes[c as int].mother == nd.mother)
    }
}

/// Collect the sibling group of `node_id`: the ascending list of ids with
/// the same two parents, or the node alone if a parent is missing.
#[verifier::loop_isolation(false)]
pub fn get_sibling_group(population: &Population, node_id: usize) -> (r: Vec<u32>)
    requires
        nodes_wf(population.members@),
        node_id < population.members@.len(),
    ensures
        is_sibling_group(population.members@, node_id as int, r@),
        r@.len() > 0,
{
    let ghost nodes = population.members@;
    let nd = &population.members[node_id];
    let father_id: u32;
    let mother_id: u32;
    match (nd.father, nd.mother) {
        (Some(f), Some(m)) => {
            father_id = f;
            mother_id = m;
        },
        _ => {
            let mut ret: Vec<u32> = Vec::new();
            ret.push(node_id as u32);
            proof {
                assert(ret@ =~= seq![node_id as u32]);
            }
            return ret;
        },
    }
    let father = &population.members[father_id as usize];
    let mut ret: Vec<u32> = Vec::new();
    let mut i: usize = 0;
    while i < father.children.len()
        invariant
            i <= father.children@.len(),
            father == &population.members@[father_id as int],
            forall|k1: int, k2: int|
                0 <= k1 < k2 < ret@.len() ==> (#[trigger] ret@[k1]) < (#[trigger] ret@[k2]),
            forall|c: u32|
                ret@.contains(c) <==> (father.children@.take(i as int).contains(c) && (c as int)
                    < nodes.len() && nodes[c as int].father == Some(father_id)
                    && nodes[c as int].mother == Some(mother_id)),
        decreases father.children@.len() - i,
    {
        let ghost pre_ret = ret@;
        let c = father.children[i];
        proof {
            assert(father.children@.contains(c));
            assert(children_wf(nodes, father_id as int));
        }
        let child = &population.members[c as usize];
        let is_sib = match child.mother {
            Some(m) => m == mother_id,
            None => false,
        };
        if is_sib {
            ret.push(c);
        }
        proof {
            assert(father.children@.take(i + 1) =~= father.children@.take(i as int).push(
                father.children@[i as int],
            ));
            if is_sib {
                assert forall|k1: int, k2: int|
                    0 <= k1 < k2 < ret@.len() implies (#[trigger] ret@[k1])
                    < (#[trigger] ret@[k2]) by {
                    if k2 < pre_ret.len() {
                        assert(ret@[k1] == pre_ret[k1] && ret@[k2] == pre_ret[k2]);
                    } else {
                        assert(ret@[k2] == c);
                        assert(ret@[k1] == pre_ret[k1]);
                        assert(pre_ret.contains(pre_ret[k1]));
                        let m = choose|m: int|
                            0 <= m < father.children@.take(i as int).len()
                                && father.children@.take(i as int)[m] == pre_ret[k1];
                        assert(father.children@[m] == pre_ret[k1]);
                        assert(father.children@[m] < father.children@[i as int]);
                    }
                }
            }
            assert forall|cc: u32|
                ret@.contains(cc) <==> (father.children@.take(i + 1).contains(cc) && (cc as int)
                    < nodes.len() && nodes[cc as int].father == Some(father_id)
                    && nodes[cc as int].mother == Some(mother_id)) by {
                if is_sib {
                    if ret@.contains(cc) {
                        let m = choose|m: int| 0 <= m < ret@.len() && ret@[m] == cc;
                        if m < pre_ret.len() {
                            assert(pre_ret[m] == cc);
                            assert(pre_ret.contains(cc));
                            let mm = choose|mm: int|
                                0 <= mm < father.children@.take(i as int).len()
                                    && father.children@.take(i as int)[mm] == cc;
                            assert(father.children@.take(i + 1)[mm] == cc);
                        } else {
                            assert(cc == c);
                            assert(father.children@.take(i + 1)[i as int] == c);
                        }
                    }
                    if father.children@.take(i + 1).contains(cc) && (cc as int) < nodes.len()
                        && nodes[cc as int].father == Some(father_id) && nodes[cc as int].mother
                        == Some(mother_id) {
                        let mm = choose|mm: int|
                            0 <= mm < father.children@.take(i + 1).len()
                                && #[trigger] father.children@.take(i + 1)[mm] == cc;
                        if mm < i as int {
                            assert(father.children@.take(i as int)[mm] == cc);
                            assert(pre_ret.contains(cc));
                            let m = choose|m: int|
                                0 <= m < pre_ret.len() && pre_ret[m] == cc;
                            assert(ret@[m] == cc);
                        } else {
                            assert(cc == c);
                            assert(ret@[ret@.len() - 1] == c);
                        }
                    }
                } else {
                    if ret@.contains(cc) {
                        let mm = choose|mm: int|
                            0 <= mm < father.children@.take(i as int).len()
                                && father.children@.take(i as int)[mm] == cc;
                        assert(father.children@.take(i + 1)[mm] == cc);
                    }
                    if father.children@.take(i + 1).contains(cc) && (cc as int) < nodes.len()
                        && nodes[cc as int].father == Some(father_id) && nodes[cc as int].mother
                        == Some(mother_id) {
                        let mm = choose|mm: int|
                            0 <= mm < father.children@.take(i + 1).len()
                                && #[trigger] father.children@.take(i + 1)[mm] == cc;
                        assert(mm != i as int);
                        assert(father.children@.take(i as int)[mm] == cc);
                    }
                }
            }
        }
        i = i + 1;
    }
    proof {
        assert(father.children@.take(father.children@.len() as int) =~= father.children@);
        assert(children_wf(nodes, father_id as int));
        assert forall|c: u32|
            ret@.contains(c) <==> ((c as int) < nodes.len() && nodes[c as int].father
                == nd.father && nodes[c as int].mother == nd.mother) by {
            if (c as int) < nodes.len() && nodes[c as int].father == Some(father_id)
                && nodes[c as int].mother == Some(mother_id) {
                assert(father.children@.contains(c));
            }
        }
        // the node itself belongs to the group
        assert(nodes[node_id as int].father == Some(father_id));
        assert(ret@.contains(node_id as u32));
    }
    ret
}


/// Why a pedigree interchange value was rejected.
#[derive(Clone, Copy, Debug, PartialEq, Eq, Structural)]
pub enum ImportError {
    /// A node id is out of range or appears twice: ids must be dense.
    DuplicateOrOutOfRangeId,
    /// A parent reference does not precede its node, or the two parents
    /// of one node are the same member.
    BadParentRef,
    /// A twin reference is out of range.
    BadTwinRef,
    /// A labeled id is out of range.
    BadLabeledRef,
    /// A related-pair id is out of range.
    BadRelatedRef,
}

/// Reference shape of one interchange node.
pub open spec fn json_node_refs_ok(jn: JsonNode, n: int) -> bool {
    &&& (jn.father matches Some(f) ==> (f as int) < jn.id as int)
    &&& (jn.mother matches Some(m) ==> (m as int) < jn.id as int)
    &&& (jn.suspected_father matches Some(f) ==> (f as int) < jn.id as int)
    &&& (jn.suspected_mother matches Some(m) ==> (m as int) < jn.id as int)
    &&& (jn.father is Some && jn.mother is Some ==> jn.father != jn.mother)
    &&& (jn.suspected_father is Some && jn.suspected_mother is Some ==> jn.suspected_father
        != jn.suspected_mother)
    &&& (jn.twin matches Some(t) ==> (t as int) < n)
}

/// A well-formed interchange pedigree: dense ids, parents that precede
/// their node, and in-range twin, labeled and related references.
pub open spec fn valid_json(j: JsonPopulation) -> bool {
    let n = j.nodes@.len() as int;
    &&& forall|k: int| 0 <= k < n ==> ((#[trigger] j.nodes@[k]).id as int) < n
    &&& forall|k1: int, k2: int|
        0 <= k1 < k2 < n ==> (#[trigger] j.nodes@[k1]).id != (#[trigger] j.nodes@[k2]).id
    &&& forall|k: int| 0 <= k < n ==> json_node_refs_ok(#[trigger] j.nodes@[k], n)
    &&& forall|k: int| 0 <= k < j.labeled@.len() ==> ((#[trigger] j.labeled@[k]) as int) < n
    &&& forall|k: int|
        0 <= k < j.related@.len() ==> ((#[trigger] j.related@[k]).labeled_node as int) < n && (
        j.related@[k].unlabeled_node as int) < n
}

/// Index in the interchange list of the node with the given id.
pub open spec fn jpos(j: JsonPopulation, id: int) -> int {
    choose|k: int| 0 <= k < j.nodes@.len() && (#[trigger] j.nodes@[k]).id as int == id
}

/// The interchange node with the given id.
pub open spec fn jnode_of(j: JsonPopulation, id: int) -> JsonNode {
    j.nodes@[jpos(j, id)]
}

/// An imported node carries the interchange node's own fields; its
/// children lists are governed by `nodes_wf`.
pub open spec fn node_matches_json(j: JsonPopulation, nd: Node, id: int) -> bool {
    let jn = jnode_of(j, id);
    &&& nd.id as int == id
    &&& nd.sex == jn.sex
    &&& nd.generation == jn.generation
    &&& nd.father == jn.father
    &&& nd.mother == jn.mother
    &&& nd.suspected_father == jn.suspected_father
    &&& nd.suspected_mother == jn.suspected_mother
    &&& nd.twin == jn.twin
    &&& nd.genome is None
}

spec fn count_some(s: Seq<Option<usize>>) -> int
    decreases s.len(),
{
    if s.len() == 0 {
        0
    } else {
        count_some(s.drop_last()) + if s.last() is Some {
            1int
        } else {
            0int
        }
    }
}

proof fn lemma_count_some_update(s: Seq<Option<usize>>, i: int, v: usize)
    requires
        0 <= i < s.len(),
        s[i] is None,
    ensures
        count_some(s.update(i, Some(v))) == count_some(s) + 1,
    decreases s.len(),
{
    let t = s.update(i, Some(v));
    if i == s.len() - 1 {
        assert(t.drop_last() =~= s.drop_last());
    } else {
        assert(t.drop_last() =~= s.drop_last().update(i, Some(v)));
        lemma_count_some_update(s.drop_last(), i, v);
        assert(t.last() == s.last());
    }
}

proof fn lemma_count_some_bound(s: Seq<Option<usize>>)
    ensures
        count_some(s) <= s.len(),
    decreases s.len(),
{
    if s.len() > 0 {
        lemma_count_some_bound(s.drop_last());
    }
}

proof fn lemma_count_some_full(s: Seq<Option<usize>>)
    requires
        count_some(s) == s.len(),
    ensures
        forall|i: int| 0 <= i < s.len() ==> (#[trigger] s[i]) is Some,
    decreases s.len(),
{
    if s.len() > 0 {
        lemma_count_some_bound(s.drop_last());
        assert(s.last() is Some);
        lemma_count_some_full(s.drop_last());
        assert forall|i: int| 0 <= i < s.len() implies (#[trigger] s[i]) is Some by {
            if i < s.len() - 1 {
                assert(s.drop_last()[i] == s[i]);
            }
        }
    }
}

/// Ascending list of the ids whose (true or suspected) father or mother
/// link is `parent`.
#[verifier::loop_isolation(false)]
fn collect_children(
    json: &JsonPopulation,
    pos: &Vec<usize>,
    parent: u32,
    suspected: bool,
) -> (r: Vec<u32>)
    requires
        pos@.len() == json.nodes@.len(),
        forall|id: int|
            0 <= id < pos@.len() ==> (#[trigger] pos@[id]) < json.nodes@.len()
                && json.nodes@[pos@[id] as int].id as int == id,
        forall|k1: int, k2: int|
            0 <= k1 < k2 < json.nodes@.len() ==> (#[trigger] json.nodes@[k1]).id
                != (#[trigger] json.nodes@[k2]).id,
    ensures
        strictly_increasing(r@),
        forall|c: u32|
            r@.contains(c) <==> ((c as int) < json.nodes@.len() && (if suspected {
                jnode_of(*json, c as int).suspected_father == Some(parent) || jnode_of(
                    *json,
                    c as int,
                ).suspected_mother == Some(parent)
            } else {
                jnode_of(*json, c as int).father == Some(parent) || jnode_of(
                    *json,
                    c as int,
                ).mother == Some(parent)
            })),
{
    let n = json.nodes.len();
    let mut ret: Vec<u32> = Vec::new();
    let mut c: usize = 0;
    while c < n
        invariant
            c <= n,
            forall|k1: int, k2: int|
                0 <= k1 < k2 < ret@.len() ==> (#[trigger] ret@[k1]) < (#[trigger] ret@[k2]),
            forall|k: int| 0 <= k < ret@.len() ==> ((#[trigger] ret@[k]) as int) < c,
            forall|cc: u32|
                ret@.contains(cc) <==> ((cc as int) < c && (if suspected {
                    jnode_of(*json, cc as int).suspected_father == Some(parent) || jnode_of(
                        *json,
                        cc as int,
                    ).suspected_mother == Some(parent)
                } else {
                    jnode_of(*json, cc as int).father == Some(parent) || jnode_of(
                        *json,
                        cc as int,
                    ).mother == Some(parent)
                })),
        decreases n - c,
    {
        let ghost pre_ret = ret@;
        let k = pos[c];
        let jn = &json.nodes[k];
        proof {
            lemma_jpos_agrees(*json, c as int, k as int);
        }
        let is_child: bool = if suspected {
            match (jn.suspected_father, jn.suspected_mother) {
                (Some(f), _) if f == parent => true,
                (_, Some(m)) if m == parent => true,
                _ => false,
            }
        } else {
            match (jn.father, jn.mother) {
                (Some(f), _) if f == parent => true,
                (_, Some(m)) if m == parent => true,
                _ => false,
            }
        };
        if is_child {
            ret.push(c as u32);
        }
        proof {
            assert forall|cc: u32|
                ret@.contains(cc) <==> ((cc as int) < c + 1 && (if suspected {
                    jnode_of(*json, cc as int).suspected_father == Some(parent) || jnode_of(
                        *json,
                        cc as int,
                    ).suspected_mother == Some(parent)
                } else {
                    jnode_of(*json, cc as int).father == Some(parent) || jnode_of(
                        *json,
                        cc as int,
                    ).mother == Some(parent)
                })) by {
                if is_child {
                    if ret@.contains(cc) {
                        let m = choose|m: int| 0 <= m < ret@.len() && ret@[m] == cc;
                        if m < pre_ret.len() {
                            assert(pre_ret[m] == cc);
                            assert(pre_ret.contains(cc));
                        } else {
                            assert(cc == c as u32);
                        }
                    }
                    if (cc as int) < c {
                        if pre_ret.contains(cc) {
                            let m = choose|m: int|
                                0 <= m < pre_ret.len() && pre_ret[m] == cc;
                            assert(ret@[m] == cc);
                        }
                    }
                    if cc == c as u32 {
                        assert(ret@[ret@.len() - 1] == cc);
                    }
                } else {
                    if (cc as int) < c && pre_ret.contains(cc) {
                    }
                }
            }
        }
        c = c + 1;
    }
    ret
}

/// With distinct ids, the stored position of an id is its canonical one.
proof fn lemma_jpos_agrees(j: JsonPopulation, id: int, k: int)
    requires
        0 <= k < j.nodes@.len(),
        j.nodes@[k].id as int == id,
        forall|k1: int, k2: int|
            0 <= k1 < k2 < j.nodes@.len() ==> (#[trigger] j.nodes@[k1]).id
                != (#[trigger] j.nodes@[k2]).id,
    ensures
        jpos(j, id) == k,
        jnode_of(j, id) == j.nodes@[k],
{
    assert(exists|kk: int| 0 <= kk < j.nodes@.len() && (#[trigger] j.nodes@[kk]).id as int == id)
        by {
        assert(j.nodes@[k].id as int == id);
    }
    let kk = jpos(j, id);
    if kk != k {
        if kk < k {
            assert(j.nodes@[kk].id != j.nodes@[k].id);
        } else {
            assert(j.nodes@[k].id != j.nodes@[kk].id);
        }
    }
}


/// Build the arena population from an interchange pedigree. The input is
/// accepted exactly when `valid_json` holds: ids are dense, each parent
/// reference precedes its node, the two parents of a node differ, and
/// twin, labeled and related references are in range; otherwise the
/// variant naming the first violated rule is returned.
#[verifier::loop_isolation(false)]
#[verifier::rlimit(100)]
pub fn import_population(json: &JsonPopulation) -> (r: Result<ImportedPopulation, ImportError>)
    requires
        json.nodes@.len() <= u32::MAX,
        forall|k: int|
            0 <= k < json.nodes@.len() ==> ((#[trigger] json.nodes@[k]).generation as int) + 1
                <= usize::MAX,
    ensures
        r is Ok <==> valid_json(*json),
        r matches Ok(imp) ==> {
            let pop = &imp.node_generator.nodes;
            &&& population_wf(imp.node_generator.nodes)
            &&& pop.members@.len() == json.nodes@.len()
            &&& forall|i: int|
                0 <= i < pop.members@.len() ==> node_matches_json(
                    *json,
                    #[trigger] pop.members@[i],
                    i,
                )
            &&& imp.labeled@ == json.labeled@
            &&& imp.related@.len() == json.related@.len()
            &&& forall|k: int|
                0 <= k < imp.related@.len() ==> (#[trigger] imp.related@[k]).labeled
                    == json.related@[k].labeled_node && imp.related@[k].unlabeled
                    == json.related@[k].unlabeled_node
            &&& imp.node_generator.id as int == json.nodes@.len()
        },
{
    let n = json.nodes.len();
    // place each node by its id; reject out-of-range or duplicate ids
    let mut slots: Vec<Option<usize>> = Vec::new();
    let mut z: usize = 0;
    while z < n
        invariant
            z <= n,
            slots@.len() == z,
            forall|i: int| 0 <= i < z ==> (#[trigger] slots@[i]) is None,
        decreases n - z,
    {
        slots.push(None);
        z = z + 1;
    }
    proof {
        lemma_count_none(slots@);
    }
    let mut k: usize = 0;
    while k < n
        invariant
            k <= n,
            slots@.len() == n,
            count_some(slots@) == k,
            forall|id: int|
                0 <= id < n ==> ((#[trigger] slots@[id]) matches Some(kk) ==> kk < k
                    && json.nodes@[kk as int].id as int == id),
            forall|kk: int|
                0 <= kk < k ==> ((#[trigger] json.nodes@[kk]).id as int) < n,
            forall|kk: int|
                0 <= kk < k ==> slots@[(#[trigger] json.nodes@[kk]).id as int] == Some(kk as usize),
        decreases n - k,
    {
        let id = json.nodes[k].id;
        if id as usize >= n {
            proof {
                assert(!valid_json(*json));
            }
            return Err(ImportError::DuplicateOrOutOfRangeId);
        }
        let dup = slots[id as usize].is_some();
        if dup {
            proof {
                let kk = slots@[id as int]->Some_0 as int;
                assert(json.nodes@[kk].id == json.nodes@[k as int].id);
                assert(!valid_json(*json));
            }
            return Err(ImportError::DuplicateOrOutOfRangeId);
        }
        proof {
            lemma_count_some_update(slots@, id as int, k);
        }
        let ghost pre_slots = slots@;
        slots[id as usize] = Some(k);
        proof {
            assert forall|kk: int|
                0 <= kk < k + 1 implies slots@[(#[trigger] json.nodes@[kk]).id as int] == Some(
                kk as usize,
            ) by {
                if kk < k {
                    if json.nodes@[kk].id as int == id as int {
                        assert(pre_slots[id as int] == Some(kk as usize));
                        assert(false);
                    } else {
                        assert(slots@[json.nodes@[kk].id as int] == pre_slots[json.nodes@[kk].id
                            as int]);
                    }
                }
            }
        }
        k = k + 1;
    }
    proof {
        lemma_count_some_full(slots@);
        // dense distinct ids: the id-distinctness clause of validity holds
        assert forall|k1: int, k2: int|
            0 <= k1 < k2 < n implies (#[trigger] json.nodes@[k1]).id
            != (#[trigger] json.nodes@[k2]).id by {
            if json.nodes@[k1].id == json.nodes@[k2].id {
                assert(slots@[json.nodes@[k1].id as int] == Some(k1 as usize));
                assert(slots@[json.nodes@[k2].id as int] == Some(k2 as usize));
            }
        }
    }
    let mut pos: Vec<usize> = Vec::new();
    let mut id0: usize = 0;
    while id0 < n
        invariant
            id0 <= n,
            pos@.len() == id0,
            slots@.len() == n,
            forall|i: int|
                0 <= i < n ==> ((#[trigger] slots@[i]) matches Some(kk) && kk < n
                    && json.nodes@[kk as int].id as int == i),
            forall|i: int|
                0 <= i < id0 ==> (#[trigger] pos@[i]) < n && json.nodes@[pos@[i] as int].id as int
                    == i,
        decreases n - id0,
    {
        let kk = match slots[id0] {
            Some(kk) => kk,
            None => {
                proof {
                    assert(false);
                }
                0
            },
        };
        pos.push(kk);
        id0 = id0 + 1;
    }
    // build the arena nodes, checking the reference shape of each
    let mut nodes: Vec<Node> = Vec::new();
    let mut id1: usize = 0;
    while id1 < n
        invariant
            id1 <= n,
            nodes@.len() == id1,
            pos@.len() == n,
            forall|i: int|
                0 <= i < n ==> (#[trigger] pos@[i]) < n && json.nodes@[pos@[i] as int].id as int
                    == i,
            forall|k1: int, k2: int|
                0 <= k1 < k2 < n ==> (#[trigger] json.nodes@[k1]).id
                    != (#[trigger] json.nodes@[k2]).id,
            forall|i: int|
                0 <= i < id1 ==> node_matches_json(*json, #[trigger] nodes@[i], i),
            forall|i: int|
                0 <= i < id1 ==> json_node_refs_ok(jnode_of(*json, i), n as int),
            forall|i: int|
                0 <= i < id1 ==> children_match_json(*json, #[trigger] nodes@[i], i)
                    && suspected_children_match_json(*json, nodes@[i], i),
        decreases n - id1,
    {
        let kk = pos[id1];
        let jn = &json.nodes[kk];
        proof {
            lemma_jpos_agrees(*json, id1 as int, kk as int);
        }
        let parent_refs_ok: bool = {
            let f_ok = match jn.father {
                Some(f) => f < jn.id,
                None => true,
            };
            let m_ok = match jn.mother {
                Some(m) => m < jn.id,
                None => true,
            };
            let sf_ok = match jn.suspected_father {
                Some(f) => f < jn.id,
                None => true,
            };
            let sm_ok = match jn.suspected_mother {
                Some(m) => m < jn.id,
                None => true,
            };
            let fm_ok = match (jn.father, jn.mother) {
                (Some(f), Some(m)) => f != m,
                _ => true,
            };
            let sfm_ok = match (jn.suspected_father, jn.suspected_mother) {
                (Some(f), Some(m)) => f != m,
                _ => true,
            };
            f_ok && m_ok && sf_ok && sm_ok && fm_ok && sfm_ok
        };
        if !parent_refs_ok {
            proof {
                assert(!json_node_refs_ok(json.nodes@[kk as int], n as int));
                assert(!valid_json(*json));
            }
            return Err(ImportError::BadParentRef);
        }
        let twin_ok = match jn.twin {
            Some(t) => (t as usize) < n,
            None => true,
        };
        if !twin_ok {
            proof {
                assert(!json_node_refs_ok(json.nodes@[kk as int], n as int));
                assert(!valid_json(*json));
            }
            return Err(ImportError::BadTwinRef);
        }
        let children = collect_children(json, &pos, id1 as u32, false);
        let suspected_children = collect_children(json, &pos, id1 as u32, true);
        nodes.push(
            Node {
                id: id1 as u32,
                sex: jn.sex,
                generation: jn.generation,
                father: jn.father,
                mother: jn.mother,
                suspected_father: jn.suspected_father,
                suspected_mother: jn.suspected_mother,
                children,
                suspected_children,
                twin: jn.twin,
                genome: None,
            },
        );
        id1 = id1 + 1;
    }
    // in-range labeled and related references
    let mut labeled: Vec<u32> = Vec::new();
    let mut l: usize = 0;
    while l < json.labeled.len()
        invariant
            l <= json.labeled@.len(),
            labeled@ == json.labeled@.take(l as int),
            forall|i: int| 0 <= i < l ==> ((#[trigger] json.labeled@[i]) as int) < n,
        decreases json.labeled@.len() - l,
    {
        let lid = json.labeled[l];
        if lid as usize >= n {
            proof {
                assert(!valid_json(*json));
            }
            return Err(ImportError::BadLabeledRef);
        }
        proof {
            assert(json.labeled@.take(l + 1) =~= json.labeled@.take(l as int).push(
                json.labeled@[l as int],
            ));
        }
        labeled.push(lid);
        l = l + 1;
    }
    let mut related: Vec<RelatedPair> = Vec::new();
    let mut q: usize = 0;
    while q < json.related.len()
        invariant
            q <= json.related@.len(),
            related@.len() == q,
            forall|i: int|
                0 <= i < q ==> (#[trigger] related@[i]).labeled == json.related@[i].labeled_node
                    && related@[i].unlabeled == json.related@[i].unlabeled_node,
            forall|i: int|
                0 <= i < q ==> ((#[trigger] json.related@[i]).labeled_node as int) < n && (
                json.related@[i].unlabeled_node as int) < n,
        decreases json.related@.len() - q,
    {
        let pair = &json.related[q];
        if pair.labeled_node as usize >= n || pair.unlabeled_node as usize >= n {
            proof {
                assert(!valid_json(*json));
            }
            return Err(ImportError::BadRelatedRef);
        }
        related.push(RelatedPair { labeled: pair.labeled_node, unlabeled: pair.unlabeled_node });
        q = q + 1;
    }
    proof {
        assert(json.labeled@.take(json.labeled@.len() as int) =~= json.labeled@);
        lemma_import_final(*json, nodes@, pos@, slots@, n as int);
    }
    let population = Population::new(nodes);
    let node_generator = NodeGenerator { id: n as u32, nodes: population };
    Ok(ImportedPopulation { node_generator, related, labeled })
}

/// The children list of an imported node holds exactly the interchange
/// ids naming it as father or mother, in ascending order.
pub open spec fn children_match_json(j: JsonPopulation, nd: Node, parent: int) -> bool {
    &&& strictly_increasing(nd.children@)
    &&& forall|c: u32|
        #[trigger] nd.children@.contains(c) <==> ((c as int) < j.nodes@.len() && (jnode_of(
            j,
            c as int,
        ).father == Some(parent as u32) || jnode_of(j, c as int).mother == Some(parent as u32)))
}

/// Mirror of `children_match_json` for the suspected links.
pub open spec fn suspected_children_match_json(j: JsonPopulation, nd: Node, parent: int) -> bool {
    &&& strictly_increasing(nd.suspected_children@)
    &&& forall|c: u32|
        #[trigger] nd.suspected_children@.contains(c) <==> ((c as int) < j.nodes@.len() && (
        jnode_of(j, c as int).suspected_father == Some(parent as u32) || jnode_of(
            j,
            c as int,
        ).suspected_mother == Some(parent as u32)))
}

proof fn lemma_count_none(s: Seq<Option<usize>>)
    requires
        forall|i: int| 0 <= i < s.len() ==> (#[trigger] s[i]) is None,
    ensures
        count_some(s) == 0,
    decreases s.len(),
{
    if s.len() > 0 {
        assert(forall|i: int|
            0 <= i < s.drop_last().len() ==> (#[trigger] s.drop_last()[i]) is None);
        lemma_count_none(s.drop_last());
    }
}

proof fn lemma_max_generation_witness(nodes: Seq<Node>)
    requires
        nodes.len() > 0,
    ensures
        exists|i: int|
            0 <= i < nodes.len() && (#[trigger] nodes[i]).generation as int == max_generation(
                nodes,
            ),
    decreases nodes.len(),
{
    if nodes.last().generation as int >= max_generation(nodes.drop_last()) {
        assert(nodes[nodes.len() - 1].generation as int == max_generation(nodes));
    } else {
        lemma_max_generation_witness(nodes.drop_last());
        let i = choose|i: int|
            0 <= i < nodes.drop_last().len() && (#[trigger] nodes.drop_last()[i]).generation
                as int == max_generation(nodes.drop_last());
        assert(nodes[i].generation as int == max_generation(nodes));
    }
}


/// Once every node is built and every check has passed, the arena is
/// well-formed, the generation count fits, and the interchange value is
/// valid.
#[verifier::rlimit(100)]
proof fn lemma_import_final(
    j: JsonPopulation,
    nodes: Seq<Node>,
    pos: Seq<usize>,
    slots: Seq<Option<usize>>,
    n: int,
)
    requires
        n == j.nodes@.len(),
        nodes.len() == n,
        pos.len() == n,
        slots.len() == n,
        forall|k: int|
            0 <= k < n ==> ((#[trigger] j.nodes@[k]).generation as int) + 1 <= usize::MAX,
        forall|i: int|
            0 <= i < n ==> (#[trigger] pos[i]) < n && j.nodes@[pos[i] as int].id as int == i,
        forall|k1: int, k2: int|
            0 <= k1 < k2 < n ==> (#[trigger] j.nodes@[k1]).id != (#[trigger] j.nodes@[k2]).id,
        forall|kk: int| 0 <= kk < n ==> ((#[trigger] j.nodes@[kk]).id as int) < n,
        forall|kk: int|
            0 <= kk < n ==> slots[(#[trigger] j.nodes@[kk]).id as int] == Some(kk as usize),
        forall|i: int| 0 <= i < n ==> node_matches_json(j, #[trigger] nodes[i], i),
        forall|i: int| 0 <= i < n ==> json_node_refs_ok(jnode_of(j, i), n),
        forall|i: int|
            0 <= i < n ==> children_match_json(j, #[trigger] nodes[i], i)
                && suspected_children_match_json(j, nodes[i], i),
    ensures
        nodes_wf(nodes),
        max_generation(nodes) + 1 <= usize::MAX,
        forall|k: int| 0 <= k < n ==> ((#[trigger] j.nodes@[k]).id as int) < n,
        forall|k: int| 0 <= k < n ==> json_node_refs_ok(#[trigger] j.nodes@[k], n),
{
    assert forall|i: int| 0 <= i < n implies #[trigger] children_wf(nodes, i) by {
        assert(children_match_json(j, nodes[i], i));
        assert forall|c: u32|
            nodes[i].children@.contains(c) <==> ((c as int) < nodes.len() && (nodes[c
                as int].father == Some(i as u32) || nodes[c as int].mother == Some(
                i as u32,
            ))) by {
            if (c as int) < nodes.len() {
                assert(node_matches_json(j, nodes[c as int], c as int));
            }
        }
    }
    assert forall|i: int| 0 <= i < n implies #[trigger] suspected_children_wf(nodes, i) by {
        assert(suspected_children_match_json(j, nodes[i], i));
        assert forall|c: u32|
            nodes[i].suspected_children@.contains(c) <==> ((c as int) < nodes.len() && (nodes[c
                as int].suspected_father == Some(i as u32) || nodes[c as int].suspected_mother
                == Some(i as u32))) by {
            if (c as int) < nodes.len() {
                assert(node_matches_json(j, nodes[c as int], c as int));
            }
        }
    }
    assert forall|i: int|
        0 <= i < nodes.len() implies node_refs_wf(#[trigger] nodes[i], i, nodes.len() as int) by {
        assert(node_matches_json(j, nodes[i], i));
        assert(json_node_refs_ok(jnode_of(j, i), n));
        lemma_jpos_agrees(j, i, pos[i] as int);
    }
    assert(nodes_wf(nodes));
    lemma_max_generation_bound(nodes);
    assert(max_generation(nodes) + 1 <= usize::MAX) by {
        if nodes.len() > 0 {
            lemma_max_generation_witness(nodes);
            let i = choose|i: int|
                0 <= i < nodes.len() && (#[trigger] nodes[i]).generation as int == max_generation(
                    nodes,
                );
            assert(node_matches_json(j, nodes[i], i));
            lemma_jpos_agrees(j, i, pos[i] as int);
            assert((j.nodes@[pos[i] as int].generation as int) + 1 <= usize::MAX);
        }
    }
    assert forall|kx: int|
        0 <= kx < n implies json_node_refs_ok(#[trigger] j.nodes@[kx], n) by {
        let idx = j.nodes@[kx].id as int;
        lemma_jpos_agrees(j, idx, kx);
        assert(json_node_refs_ok(jnode_of(j, idx), n));
    }
}

} // verus!
