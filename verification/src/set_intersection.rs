//! Deciding whether two sorted id lists share an element, by a linear
//! two-pointer merge.

use vstd::prelude::*;

use crate::diploid::strictly_increasing;

verus! {

/// Whether two sorted lists of founder ids share at least one element.
pub fn nonzero_intersection(founders_a: &[u32], founders_b: &[u32]) -> (r: bool)
    requires
        strictly_increasing(founders_a@),
        strictly_increasing(founders_b@),
    ensures
        r == exists|v: u32| founders_a@.contains(v) && founders_b@.contains(v),
{
    let mut i: usize = 0;
    let mut j: usize = 0;
    while i < founders_a.len() && j < founders_b.len()
        invariant
            strictly_increasing(founders_a@),
            strictly_increasing(founders_b@),
            i <= founders_a@.len(),
            j <= founders_b@.len(),
            forall|k: int| 0 <= k < i ==> !founders_b@.contains(#[trigger] founders_a@[k]),
            forall|l: int| 0 <= l < j ==> !founders_a@.contains(#[trigger] founders_b@[l]),
        decreases founders_a@.len() - i + founders_b@.len() - j,
    {
        let ghost pre_i = i as int;
        let ghost pre_j = j as int;
        if founders_a[i] < founders_b[j] {
            proof {
                assert(!founders_b@.contains(founders_a@[pre_i])) by {
                    if founders_b@.contains(founders_a@[pre_i]) {
                        let l = choose|l: int|
                            0 <= l < founders_b@.len() && founders_b@[l] == founders_a@[pre_i];
                        if l >= pre_j {
                            assert(founders_b@[pre_j] <= founders_b@[l]) by {
                                if pre_j < l {
                                    assert(founders_b@[pre_j] < founders_b@[l]);
                                }
                            }
                        } else {
                            assert(founders_a@.contains(founders_b@[l]));
                        }
                    }
                }
            }
            i = i + 1;
        } else if founders_b[j] < founders_a[i] {
            proof {
                assert(!founders_a@.contains(founders_b@[pre_j])) by {
                    if founders_a@.contains(founders_b@[pre_j]) {
                        let k = choose|k: int|
                            0 <= k < founders_a@.len() && founders_a@[k] == founders_b@[pre_j];
                        if k >= pre_i {
                            assert(founders_a@[pre_i] <= founders_a@[k]) by {
                                if pre_i < k {
                                    assert(founders_a@[pre_i] < founders_a@[k]);
                                }
                            }
                        } else {
                            assert(founders_b@.contains(founders_a@[k]));
                        }
                    }
                }
            }
            j = j + 1;
        } else {
            proof {
                assert(founders_a@.contains(founders_a@[pre_i]));
                assert(founders_b@.contains(founders_a@[pre_i]));
            }
            return true;
        }
    }
    proof {
        if exists|v: u32| founders_a@.contains(v) && founders_b@.contains(v) {
            let v = choose|v: u32| founders_a@.contains(v) && founders_b@.contains(v);
            let k = choose|k: int| 0 <= k < founders_a@.len() && founders_a@[k] == v;
            let l = choose|l: int| 0 <= l < founders_b@.len() && founders_b@[l] == v;
            if i == founders_a@.len() {
                assert(!founders_b@.contains(founders_a@[k]));
            } else {
                assert(!founders_a@.contains(founders_b@[l]));
            }
            assert(false);
        }
    }
    false
}

} // verus!
