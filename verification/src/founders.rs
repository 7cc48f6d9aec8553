//! The founder ancestors of a pedigree member: the top-of-pedigree ids
//! reachable through complete parent pairs. Two members with disjoint
//! founder sets have kinship zero, which prunes the kinship recursion.

use vstd::prelude::*;

use crate::diploid::{lemma_push_contains, strictly_increasing};
use crate::population::{nodes_wf, Node, Population};

verus! {

/// Whether founder id `f` contributes to member `id`: a member with an
/// incomplete parent pair is its own (only) founder, otherwise the
/// founders are those of its two parents.
pub open spec fn founder_of(nodes: Seq<Node>, id: int, f: int) -> bool
    decreases id,
{
    if 0 <= id < nodes.len() {
        if nodes[id].father is Some && nodes[id].mother is Some && (nodes[id].father->Some_0
            as int) < id && (nodes[id].mother->Some_0 as int) < id {
            founder_of(nodes, nodes[id].father->Some_0 as int, f) || founder_of(
                nodes,
                nodes[id].mother->Some_0 as int,
                f,
            )
        } else {
            f == id
        }
    } else {
        false
    }
}

/// Merge two ascending id lists into their ascending union.
#[verifier::loop_isolation(false)]
pub fn union_sorted(a: &Vec<u32>, b: &Vec<u32>) -> (r: Vec<u32>)
    requires
        strictly_increasing(a@),
        strictly_increasing(b@),
    ensures
        strictly_increasing(r@),
        forall|v: u32| r@.contains(v) <==> (a@.contains(v) || b@.contains(v)),
{
    let mut ret: Vec<u32> = Vec::new();
    let mut i: usize = 0;
    let mut j: usize = 0;
    while i < a.len() || j < b.len()
        invariant
            i <= a@.len(),
            j <= b@.len(),
            forall|k1: int, k2: int|
                0 <= k1 < k2 < ret@.len() ==> (#[trigger] ret@[k1]) < (#[trigger] ret@[k2]),
            forall|k: int|
                0 <= k < ret@.len() ==> (i < a@.len() ==> (#[trigger] ret@[k]) < a@[i as int]) && (
                j < b@.len() ==> ret@[k] < b@[j as int]),
            forall|v: u32|
                ret@.contains(v) <==> (a@.take(i as int).contains(v) || b@.take(
                    j as int,
                ).contains(v)),
        decreases a@.len() - i + b@.len() - j,
    {
        let ghost pre_ret = ret@;
        let ghost pre_i = i as int;
        let ghost pre_j = j as int;
        let take_a: bool;
        let take_b: bool;
        if j >= b.len() {
            take_a = true;
            take_b = false;
        } else if i >= a.len() {
            take_a = false;
            take_b = true;
        } else if a[i] < b[j] {
            take_a = true;
            take_b = false;
        } else if b[j] < a[i] {
            take_a = false;
            take_b = true;
        } else {
            take_a = true;
            take_b = true;
        }
        let v: u32 = if take_a {
            a[i]
        } else {
            b[j]
        };
        ret.push(v);
        if take_a {
            i = i + 1;
        }
        if take_b {
            j = j + 1;
        }
        proof {
            assert(ret@ == pre_ret.push(v));
            lemma_push_contains(pre_ret, v);
            if take_a {
                assert(a@.take(pre_i + 1) =~= a@.take(pre_i).push(a@[pre_i]));
                lemma_push_contains(a@.take(pre_i), a@[pre_i]);
            }
            if take_b {
                assert(b@.take(pre_j + 1) =~= b@.take(pre_j).push(b@[pre_j]));
                lemma_push_contains(b@.take(pre_j), b@[pre_j]);
            }
            assert forall|vv: u32|
                ret@.contains(vv) <==> (a@.take(i as int).contains(vv) || b@.take(
                    j as int,
                ).contains(vv)) by {
                assert(ret@.contains(vv) <==> (pre_ret.contains(vv) || vv == v));
                assert(pre_ret.contains(vv) <==> (a@.take(pre_i).contains(vv) || b@.take(
                    pre_j,
                ).contains(vv)));
                if take_a {
                    assert(a@.take(pre_i + 1).contains(vv) <==> (a@.take(pre_i).contains(vv) || vv
                        == a@[pre_i]));
                }
                if take_b {
                    assert(b@.take(pre_j + 1).contains(vv) <==> (b@.take(pre_j).contains(vv) || vv
                        == b@[pre_j]));
                }
            }
        }
    }
    proof {
        assert(a@.take(a@.len() as int) =~= a@);
        assert(b@.take(b@.len() as int) =~= b@);
    }
    ret
}

/// The ascending list of founder ids of member `node_id`.
#[verifier::loop_isolation(false)]
pub fn founders_id(population: &Population, node_id: usize) -> (r: Vec<u32>)
    requires
        nodes_wf(population.members@),
        node_id < population.members@.len(),
    ensures
        strictly_increasing(r@),
        forall|v: u32| r@.contains(v) <==> founder_of(population.members@, node_id as int, v as int),
        r@.len() > 0,
    decreases node_id,
{
    let nd = &population.members[node_id];
    let fa: u32;
    let mo: u32;
    match (nd.father, nd.mother) {
        (Some(f), Some(m)) => {
            fa = f;
            mo = m;
        },
        _ => {
            let mut ret: Vec<u32> = Vec::new();
            ret.push(node_id as u32);
            proof {
                assert(ret@[0] == node_id as u32);
                assert forall|v: u32|
                    ret@.contains(v) <==> founder_of(
                        population.members@,
                        node_id as int,
                        v as int,
                    ) by {
                    if ret@.contains(v) {
                        let k = choose|k: int| 0 <= k < ret@.len() && ret@[k] == v;
                        assert(k == 0);
                    }
                    if founder_of(population.members@, node_id as int, v as int) {
                        assert(ret@.contains(node_id as u32));
                    }
                }
            }
            return ret;
        },
    }
    let father_founders = founders_id(population, fa as usize);
    let mother_founders = founders_id(population, mo as usize);
    let ret = union_sorted(&father_founders, &mother_founders);
    proof {
        assert(father_founders@.len() > 0);
        let w = father_founders@[0];
        assert(father_founders@.contains(w));
        assert(ret@.contains(w));
    }
    ret
}

} // verus!
