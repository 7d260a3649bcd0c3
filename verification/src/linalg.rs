//! Vectors and matrices over GF(2^8), as mathematical objects.
//!
//! A matrix is a sequence of rows; a shard set is a sequence of byte
//! sequences, whose byte columns are taken with `column`.  The dot product
//! `dot` is the XOR-accumulated field product of two equal-length vectors,
//! and the lemmas here give its algebra: linearity in both arguments and
//! the exchange step that turns "a row times a matrix-vector product" into
//! "a row-times-matrix product times the vector".

use vstd::prelude::*;

verus! {

use crate::gf::gf_mul;
use crate::gf::lemma_gf_mul_assoc;
use crate::gf::lemma_gf_mul_dist_left;
use crate::gf::lemma_gf_mul_dist_right;
use crate::gf::lemma_gf_mul_one_left;
use crate::gf::lemma_gf_mul_zero_left;
use crate::gf::lemma_xor_facts;

/// XOR-sum over `i` of `a[i] * b[i]` in GF(2^8).
pub open spec fn dot(a: Seq<u8>, b: Seq<u8>) -> u8
    recommends
        a.len() == b.len(),
    decreases a.len(),
{
    if a.len() == 0 {
        0
    } else {
        dot(a.drop_last(), b.drop_last()) ^ gf_mul(a.last(), b.last())
    }
}

/// Byte column `j` of a sequence of rows.
pub open spec fn column(rows: Seq<Seq<u8>>, j: int) -> Seq<u8> {
    Seq::new(rows.len() as nat, |s: int| rows[s][j])
}

/// The standard basis row: one at position `i`, zero elsewhere.
pub open spec fn unit_row(n: int, i: int) -> Seq<u8> {
    Seq::new(n as nat, |j: int| if j == i { 1u8 } else { 0u8 })
}

/// The all-zero row.
pub open spec fn zero_row(n: int) -> Seq<u8> {
    Seq::new(n as nat, |j: int| 0u8)
}

/// Every entry multiplied by `c`.
pub open spec fn scale_row(c: u8, a: Seq<u8>) -> Seq<u8> {
    a.map_values(|x: u8| gf_mul(c, x))
}

/// Entry-wise XOR of two equal-length rows.
pub open spec fn xor_rows(a: Seq<u8>, b: Seq<u8>) -> Seq<u8>
    recommends
        a.len() == b.len(),
{
    Seq::new(a.len() as nat, |j: int| a[j] ^ b[j])
}

pub proof fn lemma_dot_zero(n: int, v: Seq<u8>)
    requires
        v.len() == n,
        n >= 0,
    ensures
        dot(zero_row(n), v) == 0,
    decreases n,
{
    lemma_xor_facts();
    if n > 0 {
        assert(zero_row(n).drop_last() =~= zero_row(n - 1));
        lemma_dot_zero(n - 1, v.drop_last());
        lemma_gf_mul_zero_left(v.last());
        assert(0u8 ^ 0u8 == 0u8);
    }
}

pub proof fn lemma_dot_unit(n: int, i: int, v: Seq<u8>)
    requires
        v.len() == n,
        0 <= i < n,
    ensures
        dot(unit_row(n, i), v) == v[i],
    decreases n,
{
    lemma_xor_facts();
    let u = unit_row(n, i);
    if i == n - 1 {
        assert(u.drop_last() =~= zero_row(n - 1));
        lemma_dot_zero(n - 1, v.drop_last());
        lemma_gf_mul_one_left(v.last());
        assert(0u8 ^ v[i] == v[i]);
    } else {
        assert(u.drop_last() =~= unit_row(n - 1, i));
        lemma_dot_unit(n - 1, i, v.drop_last());
        lemma_gf_mul_zero_left(v.last());
        assert(v.drop_last()[i] == v[i]);
        assert(v[i] ^ 0u8 == v[i]);
    }
}

/// A scalar factor moves inside the dot product.
pub proof fn lemma_dot_scale(c: u8, a: Seq<u8>, v: Seq<u8>)
    requires
        a.len() == v.len(),
    ensures
        gf_mul(c, dot(a, v)) == dot(scale_row(c, a), v),
    decreases a.len(),
{
    lemma_xor_facts();
    if a.len() == 0 {
        lemma_gf_mul_zero_left(c);
        crate::gf::lemma_gf_mul_comm(c, 0);
    } else {
        assert(scale_row(c, a).drop_last() =~= scale_row(c, a.drop_last()));
        assert(scale_row(c, a).last() == gf_mul(c, a.last()));
        lemma_dot_scale(c, a.drop_last(), v.drop_last());
        lemma_gf_mul_dist_right(c, dot(a.drop_last(), v.drop_last()), gf_mul(a.last(), v.last()));
        lemma_gf_mul_assoc(c, a.last(), v.last());
    }
}

/// The dot product is linear: XOR of rows gives XOR of products.
pub proof fn lemma_dot_xor(a: Seq<u8>, b: Seq<u8>, v: Seq<u8>)
    requires
        a.len() == v.len(),
        b.len() == v.len(),
    ensures
        dot(xor_rows(a, b), v) == dot(a, v) ^ dot(b, v),
    decreases a.len(),
{
    lemma_xor_facts();
    if a.len() == 0 {
        assert(0u8 ^ 0u8 == 0u8);
    } else {
        assert(xor_rows(a, b).drop_last() =~= xor_rows(a.drop_last(), b.drop_last()));
        assert(xor_rows(a, b).last() == (a.last() ^ b.last()));
        lemma_dot_xor(a.drop_last(), b.drop_last(), v.drop_last());
        lemma_gf_mul_dist_left(a.last(), b.last(), v.last());
    }
}

/// The rows of a vector of byte rows, as sequences.
pub open spec fn mat_view(v: Seq<Vec<u8>>) -> Seq<Seq<u8>> {
    Seq::new(v.len(), |i: int| v[i]@)
}

/// A shard set with absent slots, as sequences.
pub open spec fn opt_view(s: Seq<Option<Vec<u8>>>) -> Seq<Option<Seq<u8>>> {
    Seq::new(
        s.len(),
        |i: int|
            match s[i] {
                Option::Some(v) => Option::Some(v@),
                Option::None => Option::None,
            },
    )
}

/// How many slots of the shard set are absent.
pub open spec fn missing_count(s: Seq<Option<Seq<u8>>>) -> int
    decreases s.len(),
{
    if s.len() == 0 {
        0
    } else {
        missing_count(s.drop_last()) + (if s.last() is None {
            1int
        } else {
            0int
        })
    }
}

/// Every present slot holds the same number of bytes.
pub open spec fn present_lens_equal(s: Seq<Option<Seq<u8>>>) -> bool {
    forall|i: int, j: int|
        0 <= i < s.len() && 0 <= j < s.len() && s[i] is Some && s[j] is Some ==> (
        #[trigger] s[i].unwrap()).len() == (#[trigger] s[j].unwrap()).len()
}

/// Counting is per slot: one step of a left-to-right scan.
pub proof fn lemma_missing_count_step(s: Seq<Option<Seq<u8>>>, t: int)
    requires
        0 <= t < s.len(),
    ensures
        missing_count(s.take(t + 1)) == missing_count(s.take(t)) + (if s[t] is None {
            1int
        } else {
            0int
        }),
{
    assert(s.take(t + 1).drop_last() =~= s.take(t));
    assert(s.take(t + 1).last() == s[t]);
}

/// The count over the whole set is the count over the full prefix.
pub proof fn lemma_missing_count_full(s: Seq<Option<Seq<u8>>>)
    ensures
        missing_count(s.take(s.len() as int)) == missing_count(s),
{
    assert(s.take(s.len() as int) =~= s);
}

/// Prefixes never hold more absences than the whole.
pub proof fn lemma_missing_count_take_le(s: Seq<Option<Seq<u8>>>, t: int)
    requires
        0 <= t <= s.len(),
    ensures
        missing_count(s.take(t)) <= missing_count(s),
    decreases s.len() - t,
{
    if t == s.len() {
        assert(s.take(t) =~= s);
    } else {
        lemma_missing_count_step(s, t);
        lemma_missing_count_take_le(s, t + 1);
    }
}

/// One accumulation step of an executable dot-product loop.
pub proof fn lemma_dot_take_step(x: Seq<u8>, y: Seq<u8>, s: int)
    requires
        0 <= s < x.len(),
        s < y.len(),
    ensures
        dot(x.take(s + 1), y.take(s + 1)) == dot(x.take(s), y.take(s)) ^ gf_mul(x[s], y[s]),
{
    assert(x.take(s + 1).drop_last() =~= x.take(s));
    assert(y.take(s + 1).drop_last() =~= y.take(s));
    assert(x.take(s + 1).last() == x[s]);
    assert(y.take(s + 1).last() == y[s]);
}

/// Taking every element changes nothing.
pub proof fn lemma_dot_take_full(x: Seq<u8>, y: Seq<u8>)
    requires
        x.len() == y.len(),
    ensures
        dot(x.take(x.len() as int), y.take(y.len() as int)) == dot(x, y),
{
    assert(x.take(x.len() as int) =~= x);
    assert(y.take(y.len() as int) =~= y);
}

/// The exchange step: dotting `b` with the image of `v` under the rows of
/// `a` equals dotting the row `b * a` with `v` itself.
pub proof fn lemma_dot_exchange(b: Seq<u8>, a: Seq<Seq<u8>>, v: Seq<u8>)
    requires
        b.len() == a.len(),
        forall|s: int| 0 <= s < a.len() ==> (#[trigger] a[s]).len() == v.len(),
    ensures
        dot(b, Seq::new(a.len() as nat, |s: int| dot(a[s], v)))
            == dot(Seq::new(v.len() as nat, |e: int| dot(b, column(a, e))), v),
    decreases a.len(),
{
    lemma_xor_facts();
    let n = a.len() as int;
    let kk = v.len() as int;
    let w = Seq::new(a.len() as nat, |s: int| dot(a[s], v));
    let u = Seq::new(v.len() as nat, |e: int| dot(b, column(a, e)));
    if n == 0 {
        assert(u =~= zero_row(kk));
        lemma_dot_zero(kk, v);
    } else {
        let b1 = b.drop_last();
        let a1 = a.drop_last();
        let w1 = Seq::new(a1.len() as nat, |s: int| dot(a1[s], v));
        let u1 = Seq::new(v.len() as nat, |e: int| dot(b1, column(a1, e)));
        assert(w.drop_last() =~= w1);
        assert(w.last() == dot(a[n - 1], v));
        lemma_dot_exchange(b1, a1, v);
        // dot(b, w) == dot(u1, v) ^ gf_mul(b[n-1], dot(a[n-1], v))
        lemma_dot_scale(b.last(), a[n - 1], v);
        lemma_dot_xor(u1, scale_row(b.last(), a[n - 1]), v);
        assert(xor_rows(u1, scale_row(b.last(), a[n - 1])) =~= u) by {
            assert forall|e: int| 0 <= e < kk implies xor_rows(
                u1,
                scale_row(b.last(), a[n - 1]),
            )[e] == u[e] by {
                assert(column(a, e).drop_last() =~= column(a1, e));
                assert(column(a, e).last() == a[n - 1][e]);
                assert(dot(b, column(a, e)) == dot(b1, column(a1, e)) ^ gf_mul(
                    b.last(),
                    a[n - 1][e],
                ));
            }
        }
    }
}

} // verus!
