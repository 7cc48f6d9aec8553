//! The integer core of hurdle-gamma fitting: which samples are nonzero,
//! whether a group has enough of them to fit at all, and the grouping of
//! per-pair sample streams by node id. The continuous gamma estimation
//! itself is a pluggable numeric primitive outside this crate.

use vstd::prelude::*;

verus! {

/// A hurdle-gamma fit needs at least this many nonzero samples.
pub const SUFFICIENT_DATA_POINTS: usize = 5;

/// The nonzero entries of a sample list, in order.
pub open spec fn nonzero_spec(s: Seq<u64>) -> Seq<u64>
    decreases s.len(),
{
    if s.len() == 0 {
        Seq::<u64>::empty()
    } else {
        nonzero_spec(s.drop_last()) + (if s.last() != 0 {
            seq![s.last()]
        } else {
            Seq::<u64>::empty()
        })
    }
}

proof fn lemma_nonzero_take(s: Seq<u64>, k: int)
    requires
        0 <= k < s.len(),
    ensures
        nonzero_spec(s.take(k + 1)) == nonzero_spec(s.take(k)) + (if s[k] != 0 {
            seq![s[k]]
        } else {
            Seq::<u64>::empty()
        }),
{
    assert(s.take(k + 1).drop_last() =~= s.take(k));
}

/// The nonzero samples, in order.
pub fn nonzero_values(data: &Vec<u64>) -> (r: Vec<u64>)
    ensures
        r@ == nonzero_spec(data@),
{
    let mut ret: Vec<u64> = Vec::new();
    let mut i: usize = 0;
    while i < data.len()
        invariant
            i <= data@.len(),
            ret@ == nonzero_spec(data@.take(i as int)),
        decreases data@.len() - i,
    {
        proof {
            lemma_nonzero_take(data@, i as int);
        }
        let v = data[i];
        if v != 0 {
            ret.push(v);
            proof {
                assert(nonzero_spec(data@.take(i + 1)) =~= nonzero_spec(data@.take(i as int)).push(
                    data@[i as int],
                ));
            }
        } else {
            proof {
                assert(nonzero_spec(data@.take(i + 1)) =~= nonzero_spec(data@.take(i as int)));
            }
        }
        i = i + 1;
    }
    proof {
        assert(data@.take(data@.len() as int) =~= data@);
    }
    ret
}

/// Whether a sample group holds enough nonzero entries for a fit: with
/// fewer, no hurdle-gamma parameters are produced and consumers fall back
/// to the cryptic distribution.
pub fn sufficient_nonzero(data: &Vec<u64>) -> (r: bool)
    ensures
        r == (nonzero_spec(data@).len() >= SUFFICIENT_DATA_POINTS),
{
    let nz = nonzero_values(data);
    nz.len() >= SUFFICIENT_DATA_POINTS
}

/// The sample values carried by entries with the given node id, in order.
pub open spec fn values_of(entries: Seq<(u32, u64)>, key: u32) -> Seq<u64>
    decreases entries.len(),
{
    if entries.len() == 0 {
        Seq::<u64>::empty()
    } else {
        values_of(entries.drop_last(), key) + (if entries.last().0 == key {
            seq![entries.last().1]
        } else {
            Seq::<u64>::empty()
        })
    }
}

proof fn lemma_values_of_take(entries: Seq<(u32, u64)>, key: u32, k: int)
    requires
        0 <= k < entries.len(),
    ensures
        values_of(entries.take(k + 1), key) == values_of(entries.take(k), key) + (if entries[k].0
            == key {
            seq![entries[k].1]
        } else {
            Seq::<u64>::empty()
        }),
{
    assert(entries.take(k + 1).drop_last() =~= entries.take(k));
}

/// The node id of each group, in first-appearance order.
pub open spec fn group_keys(groups: Seq<(u32, Vec<u64>)>) -> Seq<u32> {
    groups.map_values(|g: (u32, Vec<u64>)| g.0)
}

/// Group `(node id, shared length)` samples by node id, keeping each
/// group's samples in input order; group order is first appearance.
#[verifier::loop_isolation(false)]
pub fn group_samples(entries: &Vec<(u32, u64)>) -> (r: Vec<(u32, Vec<u64>)>)
    ensures
        forall|k1: int, k2: int|
            0 <= k1 < k2 < r@.len() ==> (#[trigger] r@[k1]).0 != (#[trigger] r@[k2]).0,
        forall|key: u32|
            group_keys(r@).contains(key) <==> values_of(entries@, key).len() > 0,
        forall|g: int|
            0 <= g < r@.len() ==> (#[trigger] r@[g]).1@ == values_of(entries@, r@[g].0),
{
    let ghost e_seq = entries@;
    let mut groups: Vec<(u32, Vec<u64>)> = Vec::new();
    let mut i: usize = 0;
    while i < entries.len()
        invariant
            i <= e_seq.len(),
            forall|k1: int, k2: int|
                0 <= k1 < k2 < groups@.len() ==> (#[trigger] groups@[k1]).0
                    != (#[trigger] groups@[k2]).0,
            forall|key: u32|
                group_keys(groups@).contains(key) <==> values_of(e_seq.take(i as int), key).len()
                    > 0,
            forall|g: int|
                0 <= g < groups@.len() ==> (#[trigger] groups@[g]).1@ == values_of(
                    e_seq.take(i as int),
                    groups@[g].0,
                ),
        decreases e_seq.len() - i,
    {
        let ghost pre_groups = groups@;
        let entry = entries[i];
        proof {
            assert forall|key: u32|
                values_of(e_seq.take(i + 1), key).len() > 0 <==> (values_of(
                    e_seq.take(i as int),
                    key,
                ).len() > 0 || key == entry.0) by {
                lemma_values_of_take(e_seq, key, i as int);
            }
        }
        let idx = find_group(&groups, entry.0);
        if idx < groups.len() {
            let group_ref = &mut groups[idx];
            group_ref.1.push(entry.1);
            proof {
                assert(groups@ == pre_groups.update(
                    idx as int,
                    (pre_groups[idx as int].0, groups@[idx as int].1),
                ));
                assert forall|g: int|
                    0 <= g < groups@.len() implies (#[trigger] groups@[g]).1@ == values_of(
                    e_seq.take(i + 1),
                    groups@[g].0,
                ) by {
                    lemma_values_of_take(e_seq, groups@[g].0, i as int);
                    if g != idx as int {
                        assert(groups@[g] == pre_groups[g]);
                        assert(groups@[g].0 != entry.0);
                    }
                }
                assert forall|key: u32|
                    group_keys(groups@).contains(key) <==> (group_keys(pre_groups).contains(
                        key,
                    )) by {
                    if group_keys(groups@).contains(key) {
                        let g = choose|g: int|
                            0 <= g < group_keys(groups@).len() && #[trigger] group_keys(
                                groups@,
                            )[g] == key;
                        assert(group_keys(pre_groups)[g] == key);
                    }
                    if group_keys(pre_groups).contains(key) {
                        let g = choose|g: int|
                            0 <= g < group_keys(pre_groups).len() && #[trigger] group_keys(
                                pre_groups,
                            )[g] == key;
                        assert(group_keys(groups@)[g] == key);
                    }
                }
                assert(group_keys(pre_groups).contains(entry.0)) by {
                    assert(group_keys(pre_groups)[idx as int] == entry.0);
                }
                assert forall|key: u32|
                    group_keys(groups@).contains(key) <==> values_of(e_seq.take(i + 1), key).len()
                        > 0 by {
                    assert(group_keys(groups@).contains(key) <==> group_keys(
                        pre_groups,
                    ).contains(key));
                    assert(values_of(e_seq.take(i + 1), key).len() > 0 <==> (values_of(
                        e_seq.take(i as int),
                        key,
                    ).len() > 0 || key == entry.0));
                    assert(group_keys(pre_groups).contains(key) <==> values_of(
                        e_seq.take(i as int),
                        key,
                    ).len() > 0);
                }
            }
        } else {
            let mut list: Vec<u64> = Vec::new();
            list.push(entry.1);
            groups.push((entry.0, list));
            proof {
                assert forall|g: int|
                    0 <= g < groups@.len() implies (#[trigger] groups@[g]).1@ == values_of(
                    e_seq.take(i + 1),
                    groups@[g].0,
                ) by {
                    lemma_values_of_take(e_seq, groups@[g].0, i as int);
                    if g < pre_groups.len() {
                        assert(groups@[g] == pre_groups[g]);
                        assert(pre_groups[g].0 != entry.0) by {
                            assert(group_keys(pre_groups)[g] == pre_groups[g].0);
                        }
                    } else {
                        assert(groups@[g].0 == entry.0);
                        assert(!group_keys(pre_groups).contains(entry.0));
                        assert(values_of(e_seq.take(i as int), entry.0).len() == 0);
                        assert(groups@[g].1@ =~= values_of(e_seq.take(i as int), entry.0).push(
                            entry.1,
                        ));
                    }
                }
                assert forall|key: u32|
                    group_keys(groups@).contains(key) <==> (group_keys(pre_groups).contains(key)
                        || key == entry.0) by {
                    if group_keys(groups@).contains(key) {
                        let g = choose|g: int|
                            0 <= g < group_keys(groups@).len() && #[trigger] group_keys(
                                groups@,
                            )[g] == key;
                        if g < pre_groups.len() {
                            assert(group_keys(pre_groups)[g] == key);
                        }
                    }
                    if group_keys(pre_groups).contains(key) {
                        let g = choose|g: int|
                            0 <= g < group_keys(pre_groups).len() && #[trigger] group_keys(
                                pre_groups,
                            )[g] == key;
                        assert(group_keys(groups@)[g] == key);
                    }
                    if key == entry.0 {
                        assert(group_keys(groups@)[groups@.len() - 1] == key);
                    }
                }
                assert forall|k1: int, k2: int|
                    0 <= k1 < k2 < groups@.len() implies (#[trigger] groups@[k1]).0
                    != (#[trigger] groups@[k2]).0 by {
                    if k2 == groups@.len() - 1 {
                        assert(groups@[k1] == pre_groups[k1]);
                        assert(!group_keys(pre_groups).contains(entry.0));
                        assert(group_keys(pre_groups)[k1] == pre_groups[k1].0);
                    }
                }
                assert forall|key: u32|
                    group_keys(groups@).contains(key) <==> values_of(e_seq.take(i + 1), key).len()
                        > 0 by {
                    assert(group_keys(groups@).contains(key) <==> (group_keys(
                        pre_groups,
                    ).contains(key) || key == entry.0));
                    assert(values_of(e_seq.take(i + 1), key).len() > 0 <==> (values_of(
                        e_seq.take(i as int),
                        key,
                    ).len() > 0 || key == entry.0));
                    assert(group_keys(pre_groups).contains(key) <==> values_of(
                        e_seq.take(i as int),
                        key,
                    ).len() > 0);
                }
            }
        }
        i = i + 1;
    }
    proof {
        assert(e_seq.take(e_seq.len() as int) =~= e_seq);
    }
    groups
}

/// Index of the group with the given key, or the group count if absent.
fn find_group(groups: &Vec<(u32, Vec<u64>)>, key: u32) -> (idx: usize)
    ensures
        idx <= groups@.len(),
        idx < groups@.len() ==> groups@[idx as int].0 == key,
        idx == groups@.len() ==> !group_keys(groups@).contains(key),
{
    let mut k: usize = 0;
    while k < groups.len()
        invariant
            k <= groups@.len(),
            forall|g: int| 0 <= g < k ==> (#[trigger] groups@[g]).0 != key,
        decreases groups@.len() - k,
    {
        if groups[k].0 == key {
            return k;
        }
        k = k + 1;
    }
    proof {
        if group_keys(groups@).contains(key) {
            let g = choose|g: int|
                0 <= g < group_keys(groups@).len() && #[trigger] group_keys(groups@)[g] == key;
            assert(groups@[g].0 == key);
        }
    }
    groups.len()
}


/// ASCII whitespace, as the sample files use it.
pub open spec fn is_ws(b: u8) -> bool {
    b == 32 || b == 9 || b == 10 || b == 11 || b == 12 || b == 13
}

pub open spec fn is_digit(b: u8) -> bool {
    48 <= b <= 57
}

/// First position at or after `i` that is not whitespace.
pub open spec fn skip_ws(s: Seq<u8>, i: int) -> int
    decreases s.len() - i,
{
    if 0 <= i < s.len() && is_ws(s[i]) {
        skip_ws(s, i + 1)
    } else {
        i
    }
}

/// First position at or after `i` that is not a digit.
pub open spec fn skip_digits(s: Seq<u8>, i: int) -> int
    decreases s.len() - i,
{
    if 0 <= i < s.len() && is_digit(s[i]) {
        skip_digits(s, i + 1)
    } else {
        i
    }
}

/// The number a digit run denotes.
pub open spec fn dec_value(t: Seq<u8>) -> int
    decreases t.len(),
{
    if t.len() == 0 {
        0
    } else {
        dec_value(t.drop_last()) * 10 + (t.last() - 48)
    }
}

/// A sample line: optional whitespace, a digit run, whitespace, a second
/// digit run, optional trailing whitespace, with both numbers in range.
pub open spec fn sample_line_ok(s: Seq<u8>) -> bool {
    let a = skip_ws(s, 0);
    let b = skip_digits(s, a);
    let c = skip_ws(s, b);
    let d = skip_digits(s, c);
    let e = skip_ws(s, d);
    &&& a < b
    &&& b < c
    &&& c < d
    &&& e == s.len()
    &&& dec_value(s.subrange(a, b)) <= u32::MAX
    &&& dec_value(s.subrange(c, d)) <= u64::MAX
}

/// The node id a well-formed sample line carries.
pub open spec fn sample_line_id(s: Seq<u8>) -> int {
    dec_value(s.subrange(skip_ws(s, 0), skip_digits(s, skip_ws(s, 0))))
}

/// The shared-length value a well-formed sample line carries.
pub open spec fn sample_line_value(s: Seq<u8>) -> int {
    let c = skip_ws(s, skip_digits(s, skip_ws(s, 0)));
    dec_value(s.subrange(c, skip_digits(s, c)))
}

proof fn lemma_skip_ws_bounds(s: Seq<u8>, i: int)
    requires
        0 <= i <= s.len(),
    ensures
        i <= skip_ws(s, i) <= s.len(),
        forall|k: int| i <= k < skip_ws(s, i) ==> is_ws(s[k]),
        skip_ws(s, i) < s.len() ==> !is_ws(s[skip_ws(s, i)]),
    decreases s.len() - i,
{
    if i < s.len() && is_ws(s[i]) {
        lemma_skip_ws_bounds(s, i + 1);
    }
}

proof fn lemma_skip_digits_bounds(s: Seq<u8>, i: int)
    requires
        0 <= i <= s.len(),
    ensures
        i <= skip_digits(s, i) <= s.len(),
        forall|k: int| i <= k < skip_digits(s, i) ==> is_digit(s[k]),
        skip_digits(s, i) < s.len() ==> !is_digit(s[skip_digits(s, i)]),
    decreases s.len() - i,
{
    if i < s.len() && is_digit(s[i]) {
        lemma_skip_digits_bounds(s, i + 1);
    }
}

proof fn lemma_dec_value_nonneg(t: Seq<u8>)
    requires
        forall|k: int| 0 <= k < t.len() ==> is_digit(#[trigger] t[k]),
    ensures
        dec_value(t) >= 0,
    decreases t.len(),
{
    if t.len() > 0 {
        assert(forall|k: int|
            0 <= k < t.drop_last().len() ==> is_digit(#[trigger] t.drop_last()[k]));
        lemma_dec_value_nonneg(t.drop_last());
    }
}

proof fn lemma_dec_value_take(t: Seq<u8>, k: int)
    requires
        0 <= k < t.len(),
    ensures
        dec_value(t.take(k + 1)) == dec_value(t.take(k)) * 10 + (t[k] - 48),
{
    assert(t.take(k + 1).drop_last() =~= t.take(k));
}

proof fn lemma_dec_value_monotone(t: Seq<u8>, k: int)
    requires
        0 <= k <= t.len(),
        forall|j: int| 0 <= j < t.len() ==> is_digit(#[trigger] t[j]),
    ensures
        dec_value(t.take(k)) <= dec_value(t),
    decreases t.len() - k,
{
    if k < t.len() {
        lemma_dec_value_take(t, k);
        assert(forall|j: int| 0 <= j < t.take(k).len() ==> is_digit(#[trigger] t.take(k)[j]));
        lemma_dec_value_nonneg(t.take(k));
        lemma_dec_value_monotone(t, k + 1);
    } else {
        assert(t.take(k) =~= t);
    }
}

/// Parse a digit run `t[from..to)` as an unsigned number, rejecting
/// values above `bound`.
#[verifier::loop_isolation(false)]
fn parse_decimal(t: &[u8], from: usize, to: usize, bound: u64) -> (r: Option<u64>)
    requires
        from <= to <= t@.len(),
        forall|k: int| from <= k < to ==> is_digit(#[trigger] t@[k]),
    ensures
        r is Some <==> dec_value(t@.subrange(from as int, to as int)) <= bound,
        r matches Some(v) ==> v == dec_value(t@.subrange(from as int, to as int)) && v <= bound,
{
    let ghost tok = t@.subrange(from as int, to as int);
    proof {
        assert(forall|k: int| 0 <= k < tok.len() ==> is_digit(#[trigger] tok[k]));
    }
    let mut acc: u64 = 0;
    let mut j: usize = from;
    while j < to
        invariant
            from <= j <= to,
            acc as int == dec_value(tok.take(j - from as int)),
            acc <= bound,
        decreases to - j,
    {
        let d = t[j];
        proof {
            lemma_dec_value_take(tok, j - from as int);
        }
        if acc > bound / 10 || (acc == bound / 10 && (d - 48) as u64 > bound % 10) {
            proof {
                assert(dec_value(tok.take(j - from + 1)) > bound);
                lemma_dec_value_monotone(tok, j - from + 1);
            }
            return None;
        }
        proof {
            assert((acc as int) * 10 + (d - 48) <= bound) by (nonlinear_arith)
                requires
                    acc <= bound / 10,
                    acc == bound / 10 ==> (d - 48) as u64 <= bound % 10,
                    48 <= d <= 57,
            ;
        }
        acc = acc * 10 + ((d - 48) as u64);
        j = j + 1;
    }
    proof {
        assert(tok.take(to - from as int) =~= tok);
    }
    Some(acc)
}

/// Scan forward over whitespace.
#[verifier::loop_isolation(false)]
fn scan_ws(line: &[u8], from: usize) -> (r: usize)
    requires
        from <= line@.len(),
    ensures
        from <= r <= line@.len(),
        r == skip_ws(line@, from as int),
{
    let mut j = from;
    while j < line.len() && (line[j] == 32 || line[j] == 9 || line[j] == 10 || line[j] == 11
        || line[j] == 12 || line[j] == 13)
        invariant
            from <= j <= line@.len(),
            skip_ws(line@, j as int) == skip_ws(line@, from as int),
        decreases line@.len() - j,
    {
        j = j + 1;
    }
    j
}

/// Scan forward over digits.
#[verifier::loop_isolation(false)]
fn scan_digits(line: &[u8], from: usize) -> (r: usize)
    requires
        from <= line@.len(),
    ensures
        from <= r <= line@.len(),
        r == skip_digits(line@, from as int),
{
    let mut j = from;
    while j < line.len() && 48 <= line[j] && line[j] <= 57
        invariant
            from <= j <= line@.len(),
            skip_digits(line@, j as int) == skip_digits(line@, from as int),
        decreases line@.len() - j,
    {
        j = j + 1;
    }
    j
}

/// Parse one sample line: a node id and a shared length as two unsigned
/// decimal numbers separated by whitespace. Succeeds exactly on lines of
/// that shape whose numbers fit their types.
pub fn parse_sample_line(line: &[u8]) -> (r: Option<(u32, u64)>)
    ensures
        r is Some <==> sample_line_ok(line@),
        r matches Some(p) ==> p.0 == sample_line_id(line@) && p.1 == sample_line_value(line@),
{
    let a = scan_ws(line, 0);
    let b = scan_digits(line, a);
    if a == b {
        return None;
    }
    let c = scan_ws(line, b);
    if b == c {
        return None;
    }
    let d = scan_digits(line, c);
    if c == d {
        return None;
    }
    let e = scan_ws(line, d);
    if e != line.len() {
        return None;
    }
    proof {
        lemma_skip_ws_bounds(line@, 0);
        lemma_skip_digits_bounds(line@, a as int);
        lemma_skip_ws_bounds(line@, b as int);
        lemma_skip_digits_bounds(line@, c as int);
        lemma_skip_ws_bounds(line@, d as int);
        assert(forall|k: int|
            a <= k < b ==> is_digit(#[trigger] line@[k]));
        assert(forall|k: int|
            c <= k < d ==> is_digit(#[trigger] line@[k]));
    }
    let id64 = match parse_decimal(line, a, b, 0xffff_ffff) {
        Some(v) => v,
        None => {
            return None;
        },
    };
    let value = match parse_decimal(line, c, d, 0xffff_ffff_ffff_ffff) {
        Some(v) => v,
        None => {
            return None;
        },
    };
    Some((id64 as u32, value))
}

} // verus!
