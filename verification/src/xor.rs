//! The single-parity XOR codec.
//!
//! The parity block is the byte-wise XOR of all data blocks, so it carries
//! exactly one block's worth of redundancy: one absent block is recovered
//! as the XOR of the parity with every present block, and more than one
//! absent block is inherent data loss.  Because XOR is associative and
//! commutative, the parity is determined by the multiset of data blocks
//! alone, which `lemma_xor_parity_order_independent` states and proves.

use vstd::prelude::*;

verus! {

use crate::CodecError;
use crate::linalg::mat_view;
use crate::linalg::missing_count;
use crate::linalg::opt_view;
use crate::linalg::lemma_missing_count_full;
use crate::linalg::lemma_missing_count_step;
use crate::gf::lemma_xor_facts;
use crate::matrix::copy_row;

/// XOR of byte `i` over all the blocks.
pub open spec fn xor_byte(blocks: Seq<Seq<u8>>, i: int) -> u8
    decreases blocks.len(),
{
    if blocks.len() == 0 {
        0
    } else {
        xor_byte(blocks.drop_last(), i) ^ blocks.last()[i]
    }
}

/// The parity block of the given length.
pub open spec fn xor_parity(blocks: Seq<Seq<u8>>, len: int) -> Seq<u8> {
    Seq::new(len as nat, |i: int| xor_byte(blocks, i))
}

/// The present blocks of a shard set, in slot order.
pub open spec fn present_blocks(s: Seq<Option<Seq<u8>>>) -> Seq<Seq<u8>>
    decreases s.len(),
{
    if s.len() == 0 {
        Seq::empty()
    } else {
        match s.last() {
            Option::Some(v) => present_blocks(s.drop_last()).push(v),
            Option::None => present_blocks(s.drop_last()),
        }
    }
}

/// The shard set holding every block of `d` except slot `t`.
pub open spec fn mask_one(d: Seq<Seq<u8>>, t: int) -> Seq<Option<Seq<u8>>> {
    Seq::new(
        d.len(),
        |e: int|
            if e == t {
                Option::None
            } else {
                Option::Some(d[e])
            },
    )
}

/// All blocks the same length, and at least one of them.
pub open spec fn xor_shape_ok(d: Seq<Seq<u8>>) -> bool {
    d.len() > 0 && (forall|i: int| 0 <= i < d.len() ==> (#[trigger] d[i]).len() == d[0].len())
}

proof fn lemma_xor_byte_take_step(d: Seq<Seq<u8>>, t: int, i: int)
    requires
        0 <= t < d.len(),
    ensures
        xor_byte(d.take(t + 1), i) == xor_byte(d.take(t), i) ^ d[t][i],
{
    assert(d.take(t + 1).drop_last() =~= d.take(t));
    assert(d.take(t + 1).last() == d[t]);
}

/// Parity of the data blocks: the byte-wise XOR of them all.
/// Fails with a shape error exactly when there is no block or the block
/// lengths differ.
pub fn encode_xor(data: &Vec<Vec<u8>>) -> (r: Result<Vec<u8>, CodecError>)
    ensures
        r is Ok <==> xor_shape_ok(mat_view(data@)),
        r is Err ==> r == Err::<Vec<u8>, CodecError>(CodecError::Shape),
        r is Ok ==> r.unwrap()@ == xor_parity(mat_view(data@), data@[0]@.len() as int),
{
    let ghost dv = mat_view(data@);
    let kk = data.len();
    if kk == 0 {
        return Err(CodecError::Shape);
    }
    let len = data[0].len();
    let mut t: usize = 0;
    while t < kk
        invariant
            t <= kk,
            kk == data@.len(),
            dv == mat_view(data@),
            len == data@[0]@.len(),
            forall|e: int| 0 <= e < t ==> (#[trigger] dv[e]).len() == len,
        decreases kk - t,
    {
        if data[t].len() != len {
            proof {
                assert(dv[t as int].len() != dv[0].len());
            }
            return Err(CodecError::Shape);
        }
        proof {
            assert(dv[t as int].len() == len);
        }
        t = t + 1;
    }
    let mut parity: Vec<u8> = Vec::new();
    let mut z: usize = 0;
    while z < len
        invariant
            z <= len,
            parity@.len() == z,
            forall|i: int| 0 <= i < z ==> parity@[i] == 0u8,
        decreases len - z,
    {
        parity.push(0);
        z = z + 1;
    }
    proof {
        assert(forall|i: int| 0 <= i < len ==> xor_byte(dv.take(0), i) == 0);
    }
    let mut t2: usize = 0;
    while t2 < kk
        invariant
            t2 <= kk,
            kk == data@.len(),
            dv == mat_view(data@),
            len == data@[0]@.len(),
            forall|e: int| 0 <= e < kk ==> (#[trigger] dv[e]).len() == len,
            parity@.len() == len,
            forall|i: int| 0 <= i < len ==> parity@[i] == xor_byte(dv.take(t2 as int), i),
        decreases kk - t2,
    {
        let mut i: usize = 0;
        while i < len
            invariant
                i <= len,
                t2 < kk,
                kk == data@.len(),
                dv == mat_view(data@),
                len == data@[0]@.len(),
                forall|e: int| 0 <= e < kk ==> (#[trigger] dv[e]).len() == len,
                parity@.len() == len,
                forall|i2: int|
                    i <= i2 < len ==> parity@[i2] == xor_byte(dv.take(t2 as int), i2),
                forall|i2: int|
                    0 <= i2 < i ==> parity@[i2] == xor_byte(dv.take(t2 as int + 1), i2),
            decreases len - i,
        {
            proof {
                assert(dv[t2 as int].len() == len);
            }
            let b = parity[i] ^ data[t2][i];
            proof {
                lemma_xor_byte_take_step(dv, t2 as int, i as int);
            }
            parity[i] = b;
            i = i + 1;
        }
        t2 = t2 + 1;
    }
    proof {
        assert(dv.take(kk as int) =~= dv);
        assert(parity@ =~= xor_parity(dv, len as int));
    }
    Ok(parity)
}

/// Recovery: the parity XORed with every present block.  With exactly one
/// block absent this equals the lost block (see `lemma_xor_round_trip`).
/// Present blocks of a length other than the parity's fail with a shape
/// error; more than one absent block is past the redundancy of a single
/// parity and fails as insufficient shards.
pub fn reconstruct_xor(shards: &Vec<Option<Vec<u8>>>, parity: &Vec<u8>) -> (r: Result<
    Vec<u8>,
    CodecError,
>)
    ensures
        r == Err::<Vec<u8>, CodecError>(CodecError::Shape) <==> !(forall|t: int|
            0 <= t < opt_view(shards@).len() && opt_view(shards@)[t] is Some ==> (
            #[trigger] opt_view(shards@)[t].unwrap()).len() == parity@.len()),
        r == Err::<Vec<u8>, CodecError>(CodecError::InsufficientShards) <==> ((forall|t: int|
            0 <= t < opt_view(shards@).len() && opt_view(shards@)[t] is Some ==> (
            #[trigger] opt_view(shards@)[t].unwrap()).len() == parity@.len())
            && missing_count(opt_view(shards@)) > 1),
        r is Ok <==> ((forall|t: int|
            0 <= t < opt_view(shards@).len() && opt_view(shards@)[t] is Some ==> (
            #[trigger] opt_view(shards@)[t].unwrap()).len() == parity@.len())
            && missing_count(opt_view(shards@)) <= 1),
        r is Ok ==> r.unwrap()@ == Seq::new(
            parity@.len(),
            |i: int| parity@[i] ^ xor_byte(present_blocks(opt_view(shards@)), i),
        ),
{
    let ghost sv = opt_view(shards@);
    let n = shards.len();
    let plen = parity.len();
    let mut missing: usize = 0;
    let mut t: usize = 0;
    while t < n
        invariant
            t <= n,
            n == shards@.len(),
            sv == opt_view(shards@),
            plen == parity@.len(),
            missing == missing_count(sv.take(t as int)),
            missing <= t,
            forall|e: int|
                0 <= e < t && sv[e] is Some ==> (#[trigger] sv[e].unwrap()).len() == plen,
        decreases n - t,
    {
        proof {
            lemma_missing_count_step(sv, t as int);
        }
        match &shards[t] {
            Some(block) => {
                proof {
                    assert(sv[t as int] == Option::Some(block@));
                }
                if block.len() != plen {
                    proof {
                        assert(sv[t as int].unwrap().len() != plen);
                    }
                    return Err(CodecError::Shape);
                }
            },
            None => {
                missing = missing + 1;
            },
        }
        t = t + 1;
    }
    proof {
        lemma_missing_count_full(sv);
    }
    if missing > 1 {
        return Err(CodecError::InsufficientShards);
    }
    let mut recovered: Vec<u8> = copy_row(parity);
    proof {
        lemma_xor_facts();
        assert(present_blocks(sv.take(0)) =~= Seq::<Seq<u8>>::empty());
        assert(forall|i: int|
            0 <= i < plen ==> recovered@[i] == parity@[i] ^ xor_byte(present_blocks(sv.take(0)), i));
    }
    let mut t2: usize = 0;
    while t2 < n
        invariant
            t2 <= n,
            n == shards@.len(),
            sv == opt_view(shards@),
            plen == parity@.len(),
            recovered@.len() == plen,
            forall|e: int|
                0 <= e < n && sv[e] is Some ==> (#[trigger] sv[e].unwrap()).len() == plen,
            forall|i: int|
                0 <= i < plen ==> recovered@[i] == parity@[i] ^ xor_byte(
                    present_blocks(sv.take(t2 as int)),
                    i,
                ),
        decreases n - t2,
    {
        proof {
            assert(sv.take(t2 as int + 1).drop_last() =~= sv.take(t2 as int));
            assert(sv.take(t2 as int + 1).last() == sv[t2 as int]);
        }
        match &shards[t2] {
            Some(block) => {
                proof {
                    assert(sv[t2 as int] == Option::Some(block@));
                    assert(sv[t2 as int].unwrap().len() == plen);
                }
                let mut i: usize = 0;
                while i < plen
                    invariant
                        i <= plen,
                        t2 < n,
                        n == shards@.len(),
                        sv == opt_view(shards@),
                        plen == parity@.len(),
                        recovered@.len() == plen,
                        sv[t2 as int] is Some,
                        block@ == sv[t2 as int].unwrap(),
                        block@.len() == plen,
                        forall|i2: int|
                            i <= i2 < plen ==> recovered@[i2] == parity@[i2] ^ xor_byte(
                                present_blocks(sv.take(t2 as int)),
                                i2,
                            ),
                        forall|i2: int|
                            0 <= i2 < i ==> recovered@[i2] == parity@[i2] ^ xor_byte(
                                present_blocks(sv.take(t2 as int + 1)),
                                i2,
                            ),
                    decreases plen - i,
                {
                    let b = recovered[i] ^ block[i];
                    proof {
                        lemma_xor_facts();
                        let p0 = present_blocks(sv.take(t2 as int));
                        assert(sv.take(t2 as int + 1).drop_last() =~= sv.take(t2 as int));
                        assert(sv.take(t2 as int + 1).last() == Option::Some(block@));
                        let p1 = present_blocks(sv.take(t2 as int + 1));
                        assert(p1 == p0.push(block@));
                        assert(p1.drop_last() =~= p0);
                        assert(p1.last() == block@);
                        assert(xor_byte(p1, i as int) == xor_byte(p0, i as int) ^ block@[i as int]);
                        assert(b == (parity@[i as int] ^ xor_byte(p0, i as int)) ^ block@[
                            i as int
                        ]);
                        assert(b == parity@[i as int] ^ (xor_byte(p0, i as int) ^ block@[
                            i as int
                        ]));
                    }
                    recovered[i] = b;
                    i = i + 1;
                }
            },
            None => {},
        }
        t2 = t2 + 1;
    }
    proof {
        assert(sv.take(n as int) =~= sv);
        assert(recovered@ =~= Seq::new(
            parity@.len(),
            |i: int| parity@[i] ^ xor_byte(present_blocks(sv), i),
        ));
    }
    Ok(recovered)
}

/// Removing one block from the XOR pulls its byte out front.
pub proof fn lemma_xor_byte_remove(s: Seq<Seq<u8>>, t: int, i: int)
    requires
        0 <= t < s.len(),
    ensures
        xor_byte(s, i) == s[t][i] ^ xor_byte(s.remove(t), i),
    decreases s.len(),
{
    lemma_xor_facts();
    if t == s.len() - 1 {
        assert(s.remove(t) =~= s.drop_last());
    } else {
        assert(s.remove(t).drop_last() =~= s.drop_last().remove(t));
        assert(s.remove(t).last() == s.last());
        lemma_xor_byte_remove(s.drop_last(), t, i);
    }
}

/// The XOR parity is independent of the order in which the data blocks
/// are supplied: any two arrangements of the same multiset of blocks give
/// the identical parity.
pub proof fn lemma_xor_parity_order_independent(a: Seq<Seq<u8>>, b: Seq<Seq<u8>>, len: int)
    requires
        a.to_multiset() == b.to_multiset(),
    ensures
        xor_parity(a, len) == xor_parity(b, len),
{
    let pa = xor_parity(a, len);
    let pb = xor_parity(b, len);
    assert(pa.len() == pb.len());
    assert forall|i: int| 0 <= i < pa.len() implies pa[i] == pb[i] by {
        lemma_xor_byte_permutation(a, b, i);
        assert(pa[i] == xor_byte(a, i));
        assert(pb[i] == xor_byte(b, i));
    }
    assert(pa =~= pb);
}

proof fn lemma_xor_byte_permutation(a: Seq<Seq<u8>>, b: Seq<Seq<u8>>, i: int)
    requires
        a.to_multiset() == b.to_multiset(),
    ensures
        xor_byte(a, i) == xor_byte(b, i),
    decreases a.len(),
{
    lemma_xor_facts();
    a.to_multiset_ensures();
    b.to_multiset_ensures();
    if a.len() == 0 {
        assert(b.to_multiset().len() == 0);
    } else {
        let v = a.last();
        assert(a.contains(v));
        assert(b.to_multiset().count(v) > 0);
        assert(b.contains(v));
        let t = choose|t: int| 0 <= t < b.len() && b[t] == v;
        lemma_xor_byte_remove(b, t, i);
        assert(a.drop_last() =~= a.remove(a.len() - 1));
        assert(a.remove(a.len() - 1).to_multiset() =~= a.to_multiset().remove(v));
        assert(b.remove(t).to_multiset() =~= b.to_multiset().remove(v));
        lemma_xor_byte_permutation(a.drop_last(), b.remove(t), i);
    }
}

proof fn lemma_present_all_some(q: Seq<Seq<u8>>)
    ensures
        present_blocks(Seq::new(q.len(), |e: int| Option::Some(q[e]))) == q,
    decreases q.len(),
{
    let s = Seq::new(q.len(), |e: int| Option::Some(q[e]));
    if q.len() == 0 {
        assert(present_blocks(s) =~= q);
    } else {
        assert(s.drop_last() =~= Seq::new(q.drop_last().len(), |e: int| Option::Some(
            q.drop_last()[e],
        )));
        lemma_present_all_some(q.drop_last());
        assert(present_blocks(s) =~= q);
    }
}

/// Masking one slot keeps exactly the other blocks, in order.
pub proof fn lemma_present_mask_one(d: Seq<Seq<u8>>, t: int)
    requires
        0 <= t < d.len(),
    ensures
        present_blocks(mask_one(d, t)) == d.remove(t),
    decreases d.len(),
{
    let s = mask_one(d, t);
    if t == d.len() - 1 {
        assert(s.last() is None);
        assert(s.drop_last() =~= Seq::new(d.drop_last().len(), |e: int| Option::Some(
            d.drop_last()[e],
        )));
        lemma_present_all_some(d.drop_last());
        assert(d.remove(t) =~= d.drop_last());
        assert(present_blocks(s) =~= d.remove(t));
    } else {
        assert(s.drop_last() =~= mask_one(d.drop_last(), t));
        assert(s.last() == Option::Some(d.last()));
        lemma_present_mask_one(d.drop_last(), t);
        assert(d.drop_last().remove(t).push(d.last()) =~= d.remove(t));
        assert(present_blocks(s) =~= d.remove(t));
    }
}

/// Round trip of the XOR codec: when the parity is the XOR of all blocks
/// and exactly the one slot `t` is absent, the recovery formula -- parity
/// XOR every present block -- gives back block `t`, byte for byte.
pub proof fn lemma_xor_round_trip(d: Seq<Seq<u8>>, t: int, len: int)
    requires
        0 <= t < d.len(),
        forall|e: int| 0 <= e < d.len() ==> (#[trigger] d[e]).len() == len,
    ensures
        forall|i: int|
            0 <= i < len ==> #[trigger] (xor_parity(d, len)[i] ^ xor_byte(
                present_blocks(mask_one(d, t)),
                i,
            )) == d[t][i],
{
    lemma_xor_facts();
    lemma_present_mask_one(d, t);
    assert forall|i: int|
        0 <= i < len implies #[trigger] (xor_parity(d, len)[i] ^ xor_byte(
        present_blocks(mask_one(d, t)),
        i,
    )) == d[t][i] by {
        lemma_xor_byte_remove(d, t, i);
        let x = xor_byte(d.remove(t), i);
        assert((d[t][i] ^ x) ^ x == d[t][i] ^ (x ^ x));
        assert(x ^ x == 0);
        assert(d[t][i] ^ 0 == d[t][i]);
    }
}

} // verus!
