//! Binary layout of the simulation's per-pair shared-length samples: a
//! one-time header naming the sorted pair list, then one little-endian
//! 64-bit sample block per iteration in the same sorted order, so readers
//! reconstruct per-pair sample sequences by striding.

use vstd::prelude::*;
use vstd::multiset::Multiset;
use vstd::seq_lib::lemma_sorted_unique;

verus! {

/// Little-endian bytes of a 32-bit value.
pub open spec fn le32(v: u32) -> Seq<u8> {
    seq![
        (v & 0xff) as u8,
        ((v >> 8) & 0xff) as u8,
        ((v >> 16) & 0xff) as u8,
        ((v >> 24) & 0xff) as u8,
    ]
}

/// Little-endian bytes of a 64-bit value.
pub open spec fn le64(v: u64) -> Seq<u8> {
    seq![
        (v & 0xff) as u8,
        ((v >> 8) & 0xff) as u8,
        ((v >> 16) & 0xff) as u8,
        ((v >> 24) & 0xff) as u8,
        ((v >> 32) & 0xff) as u8,
        ((v >> 40) & 0xff) as u8,
        ((v >> 48) & 0xff) as u8,
        ((v >> 56) & 0xff) as u8,
    ]
}

/// The 32-bit value described by four little-endian bytes.
pub open spec fn u32_from_le(b0: u8, b1: u8, b2: u8, b3: u8) -> u32 {
    (b0 as u32) | ((b1 as u32) << 8) | ((b2 as u32) << 16) | ((b3 as u32) << 24)
}

/// The 64-bit value described by eight little-endian bytes.
pub open spec fn u64_from_le(
    b0: u8,
    b1: u8,
    b2: u8,
    b3: u8,
    b4: u8,
    b5: u8,
    b6: u8,
    b7: u8,
) -> u64 {
    (b0 as u64) | ((b1 as u64) << 8) | ((b2 as u64) << 16) | ((b3 as u64) << 24) | ((b4
        as u64) << 32) | ((b5 as u64) << 40) | ((b6 as u64) << 48) | ((b7 as u64) << 56)
}

/// Encoding then decoding four little-endian bytes is the identity.
pub proof fn lemma_le32_round_trip(v: u32)
    ensures
        u32_from_le(le32(v)[0], le32(v)[1], le32(v)[2], le32(v)[3]) == v,
{
    assert(((v & 0xff) as u8 as u32) | ((((v >> 8) & 0xff) as u8 as u32) << 8) | ((((v >> 16)
        & 0xff) as u8 as u32) << 16) | ((((v >> 24) & 0xff) as u8 as u32) << 24) == v)
        by (bit_vector);
}

/// Encoding then decoding eight little-endian bytes is the identity.
pub proof fn lemma_le64_round_trip(v: u64)
    ensures
        u64_from_le(
            le64(v)[0],
            le64(v)[1],
            le64(v)[2],
            le64(v)[3],
            le64(v)[4],
            le64(v)[5],
            le64(v)[6],
            le64(v)[7],
        ) == v,
{
    assert(((v & 0xff) as u8 as u64) | ((((v >> 8) & 0xff) as u8 as u64) << 8) | ((((v >> 16)
        & 0xff) as u8 as u64) << 16) | ((((v >> 24) & 0xff) as u8 as u64) << 24) | ((((v >> 32)
        & 0xff) as u8 as u64) << 32) | ((((v >> 40) & 0xff) as u8 as u64) << 40) | ((((v >> 48)
        & 0xff) as u8 as u64) << 48) | ((((v >> 56) & 0xff) as u8 as u64) << 56) == v)
        by (bit_vector);
}

/// Append the little-endian bytes of a 32-bit value.
pub fn push_u32_le(dst: &mut Vec<u8>, v: u32)
    ensures
        final(dst)@ == old(dst)@ + le32(v),
{
    let ghost pre = dst@;
    dst.push((v & 0xff) as u8);
    dst.push(((v >> 8) & 0xff) as u8);
    dst.push(((v >> 16) & 0xff) as u8);
    dst.push(((v >> 24) & 0xff) as u8);
    proof {
        assert(dst@ =~= pre + le32(v));
    }
}

/// Append the little-endian bytes of a 64-bit value.
pub fn push_u64_le(dst: &mut Vec<u8>, v: u64)
    ensures
        final(dst)@ == old(dst)@ + le64(v),
{
    let ghost pre = dst@;
    dst.push((v & 0xff) as u8);
    dst.push(((v >> 8) & 0xff) as u8);
    dst.push(((v >> 16) & 0xff) as u8);
    dst.push(((v >> 24) & 0xff) as u8);
    dst.push(((v >> 32) & 0xff) as u8);
    dst.push(((v >> 40) & 0xff) as u8);
    dst.push(((v >> 48) & 0xff) as u8);
    dst.push(((v >> 56) & 0xff) as u8);
    proof {
        assert(dst@ =~= pre + le64(v));
    }
}

/// The total order used for canonical sample and pair ordering.
pub open spec fn u128_le_order() -> spec_fn(u128, u128) -> bool {
    |x: u128, y: u128| x <= y
}

/// Sort a list of packed keys ascending.
#[verifier::loop_isolation(false)]
pub fn sort_u128(v: Vec<u128>) -> (r: Vec<u128>)
    ensures
        r@ == v@.sort_by(u128_le_order()),
{
    proof {
        lemma_u128_total_order();
        v@.lemma_sort_by_ensures(u128_le_order());
    }
    let mut src = v;
    let mut out: Vec<u128> = Vec::new();
    proof {
        lemma_to_multiset_empty(out@);
        assert(out@.to_multiset().add(src@.to_multiset()) =~= v@.to_multiset());
    }
    while src.len() > 0
        invariant
            vstd::relations::sorted_by(out@, u128_le_order()),
            out@.to_multiset().add(src@.to_multiset()) =~= v@.to_multiset(),
            forall|i: int, j: int|
                0 <= i < out@.len() && 0 <= j < src@.len() ==> (#[trigger] out@[i])
                    <= (#[trigger] src@[j]),
        decreases src@.len(),
    {
        let ghost pre_out = out@;
        let ghost pre_src = src@;
        let mut min_i: usize = 0;
        let mut k: usize = 1;
        while k < src.len()
            invariant
                min_i < k <= src@.len(),
                src@.len() > 0,
                forall|j: int| 0 <= j < k ==> src@[min_i as int] <= (#[trigger] src@[j]),
            decreases src@.len() - k,
        {
            if src[k] < src[min_i] {
                min_i = k;
            }
            k = k + 1;
        }
        let x = src.remove(min_i);
        out.push(x);
        proof {
            broadcast use vstd::seq_lib::group_to_multiset_ensures;

            assert(out@ == pre_out.push(x));
            assert(src@ == pre_src.remove(min_i as int));
            assert(out@.to_multiset() =~= pre_out.to_multiset().insert(x));
            assert(src@.to_multiset() =~= pre_src.to_multiset().remove(x));
            assert(pre_src.to_multiset().count(x) > 0) by {
                assert(pre_src.contains(x)) by {
                    assert(pre_src[min_i as int] == x);
                }
            }
            assert(out@.to_multiset().add(src@.to_multiset()) =~= v@.to_multiset());
            assert forall|i: int, j: int|
                0 <= i < out@.len() && 0 <= j < src@.len() implies (#[trigger] out@[i])
                <= (#[trigger] src@[j]) by {
                if i < pre_out.len() {
                    if j < min_i {
                        assert(src@[j] == pre_src[j]);
                        assert(pre_out[i] <= pre_src[j]);
                    } else {
                        assert(src@[j] == pre_src[j + 1]);
                        assert(pre_out[i] <= pre_src[j + 1]);
                    }
                } else {
                    assert(out@[i] == x);
                    if j < min_i {
                        assert(src@[j] == pre_src[j]);
                        assert(x <= pre_src[j]);
                    } else {
                        assert(src@[j] == pre_src[j + 1]);
                        assert(x <= pre_src[j + 1]);
                    }
                }
            }
            assert(vstd::relations::sorted_by(out@, u128_le_order())) by {
                assert forall|i: int, j: int|
                    0 <= i <= j < out@.len() implies u128_le_order()(out@[i], out@[j]) by {
                    if j < pre_out.len() {
                        assert(u128_le_order()(pre_out[i], pre_out[j]));
                    } else if i < pre_out.len() {
                        assert(pre_out[i] <= pre_src[min_i as int]);
                    }
                }
            }
        }
    }
    proof {
        lemma_to_multiset_empty(src@);
        assert(out@.to_multiset() =~= v@.to_multiset()) by {
            assert(out@.to_multiset().add(src@.to_multiset()) =~= v@.to_multiset());
        }
        lemma_sorted_unique(out@, v@.sort_by(u128_le_order()), u128_le_order());
    }
    out
}

proof fn lemma_to_multiset_empty(s: Seq<u128>)
    requires
        s.len() == 0,
    ensures
        s.to_multiset() =~= Multiset::<u128>::empty(),
{
    broadcast use vstd::seq_lib::group_to_multiset_ensures;

    assert forall|x: u128| s.to_multiset().count(x) == 0 by {
        assert(!s.contains(x));
    }
}

/// The packed-key order is a total order, so sorting by it is canonical.
pub proof fn lemma_u128_total_order()
    ensures
        vstd::relations::total_ordering(u128_le_order()),
{
    let leq = u128_le_order();
    assert forall|x: u128| #[trigger] leq(x, x) by {}
    assert(vstd::relations::reflexive(leq));
    assert(vstd::relations::transitive(leq));
    assert(vstd::relations::antisymmetric(leq));
    assert(vstd::relations::strongly_connected(leq));
}


/// A `(labeled, unlabeled)` id pair packed into one sortable key.
pub open spec fn pack_pair(l: u32, u: u32) -> u64 {
    ((l as u64) << 32) | (u as u64)
}

/// The id pair described by a packed key.
pub open spec fn unpack_pair(p: u64) -> (u32, u32) {
    (((p >> 32) & 0xffff_ffff) as u32, (p & 0xffff_ffff) as u32)
}

/// Packing is inverted exactly by unpacking, so packed-key order is
/// lexicographic pair order.
pub proof fn lemma_pack_pair_round_trip(l: u32, u: u32)
    ensures
        unpack_pair(pack_pair(l, u)) == (l, u),
{
    let p = pack_pair(l, u);
    assert(((((l as u64) << 32) | (u as u64)) >> 32) & 0xffff_ffff == l as u64) by (bit_vector);
    assert((((l as u64) << 32) | (u as u64)) & 0xffff_ffff == u as u64) by (bit_vector);
}

/// One sample of the simulation: the pair it belongs to and the shared
/// length's 64-bit pattern, packed into one sortable key.
pub open spec fn pack_sample(anchor: u32, unlabeled: u32, shared: u64) -> u128 {
    ((pack_pair(anchor, unlabeled) as u128) << 64) | (shared as u128)
}

/// The flat little-endian encoding of a list of 64-bit sample patterns.
pub open spec fn samples_bytes(vs: Seq<u64>) -> Seq<u8>
    decreases vs.len(),
{
    if vs.len() == 0 {
        Seq::<u8>::empty()
    } else {
        samples_bytes(vs.drop_last()) + le64(vs.last())
    }
}

/// The flat little-endian encoding of a list of id pairs.
pub open spec fn pairs_bytes(ps: Seq<(u32, u32)>) -> Seq<u8>
    decreases ps.len(),
{
    if ps.len() == 0 {
        Seq::<u8>::empty()
    } else {
        pairs_bytes(ps.drop_last()) + le32(ps.last().0) + le32(ps.last().1)
    }
}

/// The pair list in its canonical on-disk order: ascending by
/// `(labeled, unlabeled)`.
pub open spec fn sorted_pairs(ps: Seq<(u32, u32)>) -> Seq<(u32, u32)> {
    ps.map_values(|p: (u32, u32)| pack_pair(p.0, p.1) as u128).sort_by(
        u128_le_order(),
    ).map_values(|k: u128| unpack_pair(k as u64))
}

/// The header: the byte count of the pair block, then the sorted pairs.
pub open spec fn header_spec(ps: Seq<(u32, u32)>) -> Seq<u8> {
    le64((ps.len() * 8) as u64) + pairs_bytes(sorted_pairs(ps))
}

proof fn lemma_samples_bytes_take(vs: Seq<u64>, k: int)
    requires
        0 <= k < vs.len(),
    ensures
        samples_bytes(vs.take(k + 1)) == samples_bytes(vs.take(k)) + le64(vs[k]),
{
    assert(vs.take(k + 1).drop_last() =~= vs.take(k));
}

proof fn lemma_pairs_bytes_take(ps: Seq<(u32, u32)>, k: int)
    requires
        0 <= k < ps.len(),
    ensures
        pairs_bytes(ps.take(k + 1)) == pairs_bytes(ps.take(k)) + le32(ps[k].0) + le32(ps[k].1),
{
    assert(ps.take(k + 1).drop_last() =~= ps.take(k));
}

proof fn lemma_samples_bytes_len(vs: Seq<u64>)
    ensures
        samples_bytes(vs).len() == vs.len() * 8,
    decreases vs.len(),
{
    if vs.len() > 0 {
        lemma_samples_bytes_len(vs.drop_last());
    }
}

/// Byte `8 * i + j` of a sample block is byte `j` of sample `i`: the
/// block decodes back into exactly the encoded samples.
pub proof fn lemma_samples_bytes_index(vs: Seq<u64>, i: int, j: int)
    requires
        0 <= i < vs.len(),
        0 <= j < 8,
    ensures
        samples_bytes(vs).len() == vs.len() * 8,
        samples_bytes(vs)[8 * i + j] == le64(vs[i])[j],
    decreases vs.len(),
{
    lemma_samples_bytes_len(vs);
    if i == vs.len() - 1 {
        lemma_samples_bytes_len(vs.drop_last());
    } else {
        lemma_samples_bytes_index(vs.drop_last(), i, j);
        lemma_samples_bytes_len(vs.drop_last());
        assert(vs.drop_last()[i] == vs[i]);
    }
}

/// Accumulates one iteration's shared-length samples and emits them as
/// one canonically ordered little-endian block.
pub struct SimulationSerializer {
    pub buffers: Vec<(u32, u32, u64)>,
}

impl SimulationSerializer {
    /// An empty buffer; the header is written separately, once.
    pub fn new() -> (r: SimulationSerializer)
        ensures
            r.buffers@.len() == 0,
    {
        SimulationSerializer { buffers: Vec::new() }
    }

    /// Record one sample: the shared length's 64-bit pattern for an
    /// `(anchor, unlabeled)` pair.
    pub fn insert(&mut self, anchor: u32, unlabeled: u32, shared: u64)
        ensures
            final(self).buffers@ == old(self).buffers@.push((anchor, unlabeled, shared)),
    {
        self.buffers.push((anchor, unlabeled, shared));
    }

    /// Drain the buffered samples as one block: ascending by
    /// `(anchor, unlabeled)`, each sample's pattern in little-endian
    /// order.
    #[verifier::loop_isolation(false)]
    pub fn flush_bytes(&mut self) -> (r: Vec<u8>)
        ensures
            final(self).buffers@.len() == 0,
            r@ == samples_bytes(
                old(self).buffers@.map_values(
                    |t: (u32, u32, u64)| pack_sample(t.0, t.1, t.2),
                ).sort_by(u128_le_order()).map_values(|k: u128| k as u64),
            ),
    {
        let ghost b_seq = self.buffers@;
        let mut packed: Vec<u128> = Vec::new();
        let mut i: usize = 0;
        while i < self.buffers.len()
            invariant
                i <= b_seq.len(),
                self.buffers@ == b_seq,
                packed@ == b_seq.take(i as int).map_values(
                    |t: (u32, u32, u64)| pack_sample(t.0, t.1, t.2),
                ),
            decreases b_seq.len() - i,
        {
            let t = self.buffers[i];
            let key: u128 = (((((t.0 as u64) << 32) | (t.1 as u64)) as u128) << 64) | (t.2
                as u128);
            packed.push(key);
            proof {
                assert(b_seq.take(i + 1).map_values(
                    |t: (u32, u32, u64)| pack_sample(t.0, t.1, t.2),
                ) =~= b_seq.take(i as int).map_values(
                    |t: (u32, u32, u64)| pack_sample(t.0, t.1, t.2),
                ).push(pack_sample(t.0, t.1, t.2)));
            }
            i = i + 1;
        }
        proof {
            assert(b_seq.take(b_seq.len() as int) =~= b_seq);
        }
        let sorted = sort_u128(packed);
        let mut out: Vec<u8> = Vec::new();
        let ghost lows = sorted@.map_values(|k: u128| k as u64);
        let mut j: usize = 0;
        while j < sorted.len()
            invariant
                j <= sorted@.len(),
                lows == sorted@.map_values(|k: u128| k as u64),
                out@ == samples_bytes(lows.take(j as int)),
            decreases sorted@.len() - j,
        {
            let key = sorted[j];
            let low: u64 = #[verifier::truncate] (key as u64);
            proof {
                lemma_samples_bytes_take(lows, j as int);
            }
            push_u64_le(&mut out, low);
            j = j + 1;
        }
        proof {
            assert(lows.take(lows.len() as int) =~= lows);
        }
        self.buffers = Vec::new();
        out
    }
}

/// Encode the header for a pair list: the pair block's byte count, then
/// the pairs ascending by `(labeled, unlabeled)`, all little-endian.
#[verifier::loop_isolation(false)]
pub fn header_bytes(related_pairs: &Vec<(u32, u32)>) -> (r: Vec<u8>)
    requires
        related_pairs@.len() * 8 <= u64::MAX,
    ensures
        r@ == header_spec(related_pairs@),
{
    let ghost p_seq = related_pairs@;
    let mut packed: Vec<u128> = Vec::new();
    let mut i: usize = 0;
    while i < related_pairs.len()
        invariant
            i <= p_seq.len(),
            packed@ == p_seq.take(i as int).map_values(
                |p: (u32, u32)| pack_pair(p.0, p.1) as u128,
            ),
        decreases p_seq.len() - i,
    {
        let p = related_pairs[i];
        let key: u128 = (((p.0 as u64) << 32) | (p.1 as u64)) as u128;
        packed.push(key);
        proof {
            assert(p_seq.take(i + 1).map_values(|p: (u32, u32)| pack_pair(p.0, p.1) as u128)
                =~= p_seq.take(i as int).map_values(
                |p: (u32, u32)| pack_pair(p.0, p.1) as u128,
            ).push(pack_pair(p.0, p.1) as u128));
        }
        i = i + 1;
    }
    proof {
        assert(p_seq.take(p_seq.len() as int) =~= p_seq);
    }
    let sorted = sort_u128(packed);
    let ghost spairs = sorted_pairs(p_seq);
    proof {
        assert(spairs == sorted@.map_values(|k: u128| unpack_pair(k as u64)));
        lemma_u128_total_order();
        p_seq.map_values(
            |p: (u32, u32)| pack_pair(p.0, p.1) as u128,
        ).lemma_sort_by_ensures(u128_le_order());
    }
    let mut out: Vec<u8> = Vec::new();
    let count: u64 = (related_pairs.len() as u64) * 8;
    proof {
        broadcast use vstd::seq_lib::group_to_multiset_ensures;

        assert(sorted@.len() == p_seq.len()) by {
            assert(sorted@.to_multiset().len() == sorted@.len());
            assert(p_seq.map_values(|p: (u32, u32)| pack_pair(p.0, p.1) as u128).to_multiset().len()
                == p_seq.len());
        }
    }
    push_u64_le(&mut out, count);
    let ghost header_prefix = le64((p_seq.len() * 8) as u64);
    let mut j: usize = 0;
    while j < sorted.len()
        invariant
            j <= sorted@.len(),
            spairs == sorted@.map_values(|k: u128| unpack_pair(k as u64)),
            spairs.len() == sorted@.len(),
            out@ == header_prefix + pairs_bytes(spairs.take(j as int)),
        decreases sorted@.len() - j,
    {
        let key = sorted[j];
        let low: u64 = #[verifier::truncate] (key as u64);
        let hi: u32 = ((low >> 32) & 0xffff_ffff) as u32;
        let lo: u32 = (low & 0xffff_ffff) as u32;
        proof {
            lemma_pairs_bytes_take(spairs, j as int);
            assert(spairs[j as int] == unpack_pair(sorted@[j as int] as u64));
        }
        push_u32_le(&mut out, hi);
        push_u32_le(&mut out, lo);
        proof {
            assert(out@ =~= header_prefix + pairs_bytes(spairs.take(j + 1)));
        }
        j = j + 1;
    }
    proof {
        assert(spairs.take(spairs.len() as int) =~= spairs);
        assert(out@ =~= header_spec(p_seq));
    }
    out
}

/// Decode a sample block: the 64-bit patterns it encodes, in order. A
/// block whose length is not a multiple of eight is rejected.
#[verifier::loop_isolation(false)]
pub fn decode_samples(bytes: &Vec<u8>) -> (r: Option<Vec<u64>>)
    ensures
        r is Some <==> bytes@.len() % 8 == 0,
        r matches Some(v) ==> bytes@ == samples_bytes(v@),
{
    let n = bytes.len();
    if n % 8 != 0 {
        return None;
    }
    let count = n / 8;
    let mut ret: Vec<u64> = Vec::new();
    let mut i: usize = 0;
    while i < count
        invariant
            i <= count,
            count * 8 == bytes@.len(),
            ret@.len() == i,
            samples_bytes(ret@) =~= bytes@.take(8 * i as int),
        decreases count - i,
    {
        let ghost pre_ret = ret@;
        let base = 8 * i;
        let v: u64 = (bytes[base] as u64) | ((bytes[base + 1] as u64) << 8) | ((bytes[base + 2]
            as u64) << 16) | ((bytes[base + 3] as u64) << 24) | ((bytes[base + 4] as u64) << 32)
            | ((bytes[base + 5] as u64) << 40) | ((bytes[base + 6] as u64) << 48) | ((bytes[base
            + 7] as u64) << 56);
        ret.push(v);
        proof {
            assert(ret@.drop_last() =~= pre_ret);
            lemma_le_bytes_of_from(
                bytes@[8 * i as int],
                bytes@[8 * i + 1],
                bytes@[8 * i + 2],
                bytes@[8 * i + 3],
                bytes@[8 * i + 4],
                bytes@[8 * i + 5],
                bytes@[8 * i + 6],
                bytes@[8 * i + 7],
            );
            assert(samples_bytes(ret@) =~= bytes@.take(8 * (i + 1) as int));
        }
        i = i + 1;
    }
    proof {
        assert(bytes@.take(8 * count as int) =~= bytes@);
    }
    Some(ret)
}

/// The little-endian encoding of the value read from eight bytes is
/// those eight bytes again.
pub proof fn lemma_le_bytes_of_from(
    b0: u8,
    b1: u8,
    b2: u8,
    b3: u8,
    b4: u8,
    b5: u8,
    b6: u8,
    b7: u8,
)
    ensures
        le64(u64_from_le(b0, b1, b2, b3, b4, b5, b6, b7)) =~= seq![b0, b1, b2, b3, b4, b5, b6, b7],
{
    let v = u64_from_le(b0, b1, b2, b3, b4, b5, b6, b7);
    assert((((b0 as u64) | ((b1 as u64) << 8) | ((b2 as u64) << 16) | ((b3 as u64) << 24) | ((b4
        as u64) << 32) | ((b5 as u64) << 40) | ((b6 as u64) << 48) | ((b7 as u64) << 56)) & 0xff)
        as u8 == b0) by (bit_vector);
    assert(((((b0 as u64) | ((b1 as u64) << 8) | ((b2 as u64) << 16) | ((b3 as u64) << 24) | ((b4
        as u64) << 32) | ((b5 as u64) << 40) | ((b6 as u64) << 48) | ((b7 as u64) << 56)) >> 8)
        & 0xff) as u8 == b1) by (bit_vector);
    assert(((((b0 as u64) | ((b1 as u64) << 8) | ((b2 as u64) << 16) | ((b3 as u64) << 24) | ((b4
        as u64) << 32) | ((b5 as u64) << 40) | ((b6 as u64) << 48) | ((b7 as u64) << 56)) >> 16)
        & 0xff) as u8 == b2) by (bit_vector);
    assert(((((b0 as u64) | ((b1 as u64) << 8) | ((b2 as u64) << 16) | ((b3 as u64) << 24) | ((b4
        as u64) << 32) | ((b5 as u64) << 40) | ((b6 as u64) << 48) | ((b7 as u64) << 56)) >> 24)
        & 0xff) as u8 == b3) by (bit_vector);
    assert(((((b0 as u64) | ((b1 as u64) << 8) | ((b2 as u64) << 16) | ((b3 as u64) << 24) | ((b4
        as u64) << 32) | ((b5 as u64) << 40) | ((b6 as u64) << 48) | ((b7 as u64) << 56)) >> 32)
        & 0xff) as u8 == b4) by (bit_vector);
    assert(((((b0 as u64) | ((b1 as u64) << 8) | ((b2 as u64) << 16) | ((b3 as u64) << 24) | ((b4
        as u64) << 32) | ((b5 as u64) << 40) | ((b6 as u64) << 48) | ((b7 as u64) << 56)) >> 40)
        & 0xff) as u8 == b5) by (bit_vector);
    assert(((((b0 as u64) | ((b1 as u64) << 8) | ((b2 as u64) << 16) | ((b3 as u64) << 24) | ((b4
        as u64) << 32) | ((b5 as u64) << 40) | ((b6 as u64) << 48) | ((b7 as u64) << 56)) >> 48)
        & 0xff) as u8 == b6) by (bit_vector);
    assert(((((b0 as u64) | ((b1 as u64) << 8) | ((b2 as u64) << 16) | ((b3 as u64) << 24) | ((b4
        as u64) << 32) | ((b5 as u64) << 40) | ((b6 as u64) << 48) | ((b7 as u64) << 56)) >> 56)
        & 0xff) as u8 == b7) by (bit_vector);
}

/// Decoding inverts the sample encoding: a round trip through
/// `samples_bytes` recovers exactly the encoded patterns.
pub proof fn lemma_samples_round_trip(vs: Seq<u64>, ws: Seq<u64>)
    requires
        samples_bytes(vs) == samples_bytes(ws),
    ensures
        vs =~= ws,
{
    lemma_samples_bytes_len(vs);
    lemma_samples_bytes_len(ws);
    assert forall|i: int| 0 <= i < vs.len() implies vs[i] == ws[i] by {
        assert forall|j: int| 0 <= j < 8 implies le64(vs[i])[j] == le64(ws[i])[j] by {
            lemma_samples_bytes_index(vs, i, j);
            lemma_samples_bytes_index(ws, i, j);
        }
        lemma_le64_round_trip(vs[i]);
        lemma_le64_round_trip(ws[i]);
    }
}


/// Whether a byte string is an acceptable header: at least the count
/// field, whose value is a whole number of pairs, fits the machine, and
/// matches the length of the data that follows it.
pub open spec fn header_shape_ok(bytes: Seq<u8>) -> bool {
    &&& bytes.len() >= 8
    &&& {
        let count = u64_from_le(
            bytes[0],
            bytes[1],
            bytes[2],
            bytes[3],
            bytes[4],
            bytes[5],
            bytes[6],
            bytes[7],
        );
        &&& count % 8 == 0
        &&& count <= usize::MAX - 8
        &&& count + 8 == bytes.len()
    }
}

/// Decode a header: the byte count, then that many pair bytes. Succeeds
/// exactly on byte strings of the header shape, and then returns the one
/// pair list the bytes encode.
#[verifier::loop_isolation(false)]
pub fn decode_header(bytes: &Vec<u8>) -> (r: Option<Vec<(u32, u32)>>)
    ensures
        r is Some <==> header_shape_ok(bytes@),
        r matches Some(v) ==> bytes@ == le64((v@.len() * 8) as u64) + pairs_bytes(v@),
{
    let n = bytes.len();
    if n < 8 {
        return None;
    }
    let count64: u64 = (bytes[0] as u64) | ((bytes[1] as u64) << 8) | ((bytes[2] as u64) << 16)
        | ((bytes[3] as u64) << 24) | ((bytes[4] as u64) << 32) | ((bytes[5] as u64) << 40) | ((
    bytes[6] as u64) << 48) | ((bytes[7] as u64) << 56);
    if count64 % 8 != 0 || count64 > (usize::MAX as u64) - 8 {
        return None;
    }
    if (count64 + 8) as usize != n {
        return None;
    }
    let num_pairs = (count64 / 8) as usize;
    proof {
        assert((num_pairs * 8) as u64 == count64);
        lemma_le_bytes_of_from(
            bytes@[0],
            bytes@[1],
            bytes@[2],
            bytes@[3],
            bytes@[4],
            bytes@[5],
            bytes@[6],
            bytes@[7],
        );
        assert(count64 == u64_from_le(
            bytes@[0],
            bytes@[1],
            bytes@[2],
            bytes@[3],
            bytes@[4],
            bytes@[5],
            bytes@[6],
            bytes@[7],
        ));
        assert(le64((num_pairs * 8) as u64) =~= bytes@.take(8));
        assert(le64((num_pairs * 8) as u64) + pairs_bytes(Seq::<(u32, u32)>::empty())
            =~= bytes@.take(8));
    }
    let mut ret: Vec<(u32, u32)> = Vec::new();
    let mut i: usize = 0;
    while i < num_pairs
        invariant
            i <= num_pairs,
            num_pairs * 8 + 8 == bytes@.len(),
            ret@.len() == i,
            le64((num_pairs * 8) as u64) + pairs_bytes(ret@) =~= bytes@.take(8 + 8 * i as int),
        decreases num_pairs - i,
    {
        let ghost pre_ret = ret@;
        let base = 8 + 8 * i;
        let l: u32 = (bytes[base] as u32) | ((bytes[base + 1] as u32) << 8) | ((bytes[base + 2]
            as u32) << 16) | ((bytes[base + 3] as u32) << 24);
        let u: u32 = (bytes[base + 4] as u32) | ((bytes[base + 5] as u32) << 8) | ((bytes[base
            + 6] as u32) << 16) | ((bytes[base + 7] as u32) << 24);
        ret.push((l, u));
        proof {
            assert(ret@.drop_last() =~= pre_ret);
            lemma_le32_bytes_of_from(
                bytes@[8 + 8 * i as int],
                bytes@[8 + 8 * i + 1],
                bytes@[8 + 8 * i + 2],
                bytes@[8 + 8 * i + 3],
            );
            lemma_le32_bytes_of_from(
                bytes@[8 + 8 * i + 4],
                bytes@[8 + 8 * i + 5],
                bytes@[8 + 8 * i + 6],
                bytes@[8 + 8 * i + 7],
            );
            assert(le64((num_pairs * 8) as u64) + pairs_bytes(ret@) =~= bytes@.take(
                8 + 8 * (i + 1) as int,
            ));
        }
        i = i + 1;
    }
    proof {
        assert(bytes@.take(8 + 8 * num_pairs as int) =~= bytes@);
        assert(bytes@ =~= le64((ret@.len() * 8) as u64) + pairs_bytes(ret@));
    }
    Some(ret)
}

/// The little-endian encoding of the value read from four bytes is those
/// four bytes again.
pub proof fn lemma_le32_bytes_of_from(b0: u8, b1: u8, b2: u8, b3: u8)
    ensures
        le32(u32_from_le(b0, b1, b2, b3)) =~= seq![b0, b1, b2, b3],
{
    assert((((b0 as u32) | ((b1 as u32) << 8) | ((b2 as u32) << 16) | ((b3 as u32) << 24)) & 0xff)
        as u8 == b0) by (bit_vector);
    assert(((((b0 as u32) | ((b1 as u32) << 8) | ((b2 as u32) << 16) | ((b3 as u32) << 24)) >> 8)
        & 0xff) as u8 == b1) by (bit_vector);
    assert(((((b0 as u32) | ((b1 as u32) << 8) | ((b2 as u32) << 16) | ((b3 as u32) << 24)) >> 16)
        & 0xff) as u8 == b2) by (bit_vector);
    assert(((((b0 as u32) | ((b1 as u32) << 8) | ((b2 as u32) << 16) | ((b3 as u32) << 24)) >> 24)
        & 0xff) as u8 == b3) by (bit_vector);
}

/// The pair encoding is injective: a header names one pair list only.
pub proof fn lemma_pairs_round_trip(ps: Seq<(u32, u32)>, qs: Seq<(u32, u32)>)
    requires
        pairs_bytes(ps) == pairs_bytes(qs),
        ps.len() == qs.len(),
    ensures
        ps =~= qs,
    decreases ps.len(),
{
    if ps.len() > 0 {
        let pb = pairs_bytes(ps.drop_last());
        let qb = pairs_bytes(qs.drop_last());
        lemma_pairs_bytes_len(ps.drop_last());
        lemma_pairs_bytes_len(qs.drop_last());
        assert(pb.len() == qb.len());
        assert(pb =~= qb) by {
            assert forall|k: int| 0 <= k < pb.len() implies pb[k] == qb[k] by {
                assert(pairs_bytes(ps)[k] == pb[k]);
                assert(pairs_bytes(qs)[k] == qb[k]);
            }
        }
        lemma_pairs_round_trip(ps.drop_last(), qs.drop_last());
        let off = pb.len();
        assert forall|k: int| 0 <= k < 4 implies le32(ps.last().0)[k] == le32(qs.last().0)[k]
            && le32(ps.last().1)[k] == le32(qs.last().1)[k] by {
            assert(pairs_bytes(ps)[off + k] == le32(ps.last().0)[k]);
            assert(pairs_bytes(qs)[off + k] == le32(qs.last().0)[k]);
            assert(pairs_bytes(ps)[off + 4 + k] == le32(ps.last().1)[k]);
            assert(pairs_bytes(qs)[off + 4 + k] == le32(qs.last().1)[k]);
        }
        lemma_le32_round_trip(ps.last().0);
        lemma_le32_round_trip(qs.last().0);
        lemma_le32_round_trip(ps.last().1);
        lemma_le32_round_trip(qs.last().1);
        assert(ps.last() == qs.last());
        assert forall|k: int| 0 <= k < ps.len() implies ps[k] == qs[k] by {
            if k < ps.len() - 1 {
                assert(ps.drop_last()[k] == qs.drop_last()[k]);
            }
        }
    }
}

proof fn lemma_pairs_bytes_len(ps: Seq<(u32, u32)>)
    ensures
        pairs_bytes(ps).len() == ps.len() * 8,
    decreases ps.len(),
{
    if ps.len() > 0 {
        lemma_pairs_bytes_len(ps.drop_last());
    }
}

} // verus!
