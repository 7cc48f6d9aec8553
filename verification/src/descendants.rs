//! Descendants of a pedigree member, computed by one ascending pass over
//! the arena: parent links always point at smaller ids.

use vstd::prelude::*;

use crate::diploid::strictly_increasing;
use crate::population::{nodes_wf, Node, Population};

verus! {

/// Whether `c` descends from `root`: one of its parents is `root` or a
/// descendant of `root`. Parent ids are smaller than their children's, so
/// the chain is well-founded.
pub open spec fn is_descendant(nodes: Seq<Node>, root: int, c: int) -> bool
    decreases c,
{
    0 <= c < nodes.len() && c > root && ((nodes[c].father matches Some(f) && f < c && (f as int
        == root || is_descendant(nodes, root, f as int))) || (nodes[c].mother matches Some(m) && m
        < c && (m as int == root || is_descendant(nodes, root, m as int))))
}

/// The ids of every descendant of `node_id`, ascending.
#[verifier::loop_isolation(false)]
pub fn descendants_id(population: &Population, node_id: usize) -> (r: Vec<u32>)
    requires
        nodes_wf(population.members@),
        node_id < population.members@.len(),
    ensures
        strictly_increasing(r@),
        forall|c: u32|
            r@.contains(c) <==> is_descendant(population.members@, node_id as int, c as int),
{
    let ghost nodes = population.members@;
    let n = population.members.len();
    let mut ret: Vec<u32> = Vec::new();
    let mut c: usize = node_id + 1;
    while c < n
        invariant
            node_id < c <= n,
            forall|k: int| 0 <= k < ret@.len() ==> ((#[trigger] ret@[k]) as int) < c,
            forall|k1: int, k2: int|
                0 <= k1 < k2 < ret@.len() ==> (#[trigger] ret@[k1]) < (#[trigger] ret@[k2]),
            forall|cc: u32|
                ret@.contains(cc) <==> ((cc as int) < c && is_descendant(
                    nodes,
                    node_id as int,
                    cc as int,
                )),
        decreases n - c,
    {
        let ghost pre_ret = ret@;
        let nd = &population.members[c];
        let father_in = match nd.father {
            Some(f) => f as usize == node_id || parent_marked(&ret, f),
            None => false,
        };
        let mother_in = match nd.mother {
            Some(m) => m as usize == node_id || parent_marked(&ret, m),
            None => false,
        };
        let is_desc = father_in || mother_in;
        proof {
            assert(is_desc == is_descendant(nodes, node_id as int, c as int));
        }
        if is_desc {
            ret.push(c as u32);
        }
        proof {
            assert forall|cc: u32|
                ret@.contains(cc) <==> ((cc as int) < c + 1 && is_descendant(
                    nodes,
                    node_id as int,
                    cc as int,
                )) by {
                if is_desc {
                    if ret@.contains(cc) {
                        let k = choose|k: int| 0 <= k < ret@.len() && ret@[k] == cc;
                        if k < pre_ret.len() {
                            assert(pre_ret[k] == cc);
                            assert(pre_ret.contains(cc));
                        } else {
                            assert(cc == c as u32);
                        }
                    }
                    if (cc as int) < c && is_descendant(nodes, node_id as int, cc as int) {
                        assert(pre_ret.contains(cc));
                        let k = choose|k: int| 0 <= k < pre_ret.len() && pre_ret[k] == cc;
                        assert(ret@[k] == cc);
                    }
                    if cc == c as u32 {
                        assert(ret@[ret@.len() - 1] == cc);
                    }
                }
            }
        }
        c = c + 1;
    }
    ret
}

/// Whether the ascending descendant list built so far contains `p`.
fn parent_marked(ret: &Vec<u32>, p: u32) -> (r: bool)
    ensures
        r == ret@.contains(p),
{
    let mut k: usize = 0;
    while k < ret.len()
        invariant
            k <= ret@.len(),
            forall|i: int| 0 <= i < k ==> (#[trigger] ret@[i]) != p,
        decreases ret@.len() - k,
    {
        if ret[k] == p {
            proof {
                assert(ret@[k as int] == p);
            }
            return true;
        }
        k = k + 1;
    }
    proof {
        if ret@.contains(p) {
            let i = choose|i: int| 0 <= i < ret@.len() && ret@[i] == p;
        }
    }
    false
}

} // verus!
