//! The Reed-Solomon coding sessions.
//!
//! A session pairs `(k, m)` with its generator matrix: `k + m` rows of `k`
//! field elements whose first `k` rows are the identity, so a codeword is
//! the data followed by `m` parity rows.  The parity rows are a Cauchy
//! block -- entry `(r, j)` is the field inverse of `r XOR j`, with row
//! indices `k ..` and column indices `.. k` drawn from disjoint ranges --
//! a standard construction whose square submatrices are invertible.
//! Reconstruction never relies on that: when data shards must be solved
//! for, the selected submatrix is inverted and the inverse is certified
//! against the identity at run time, so every answer returned is proved
//! right, and a submatrix that failed the check would be reported as an
//! arithmetic error rather than decoded.  Absent parity alone is simply
//! re-encoded from the data, with success guaranteed.

use vstd::prelude::*;

verus! {

use crate::CodecError;
use crate::gf::gf_inv;
use crate::gf::gf_inverse;
use crate::gf::gf_mul;
use crate::gf::gf_multiply;
use crate::linalg::column;
use crate::linalg::dot;
use crate::linalg::lemma_dot_take_full;
use crate::linalg::lemma_dot_take_step;
use crate::linalg::lemma_dot_unit;
use crate::linalg::lemma_missing_count_full;
use crate::linalg::lemma_missing_count_step;
use crate::linalg::lemma_missing_count_take_le;
use crate::linalg::mat_view;
use crate::linalg::missing_count;
use crate::linalg::opt_view;
use crate::linalg::present_lens_equal;
use crate::linalg::unit_row;
use crate::matrix::copy_row;
use crate::matrix::rows_sized;

/// Row `r` of the generator matrix for `k` data shards: an identity row
/// below `k`, a Cauchy row above.
pub open spec fn gen_row(k: int, r: int) -> Seq<u8> {
    if r < k {
        unit_row(k, r)
    } else {
        Seq::new(k as nat, |j: int| gf_inv((r as u8) ^ (j as u8)))
    }
}

/// The `(k + m) x k` generator matrix.  A function of `(k, m)` alone:
/// independently constructed sessions agree on it.
pub open spec fn gen_matrix(k: int, m: int) -> Seq<Seq<u8>> {
    Seq::new((k + m) as nat, |r: int| gen_row(k, r))
}

/// Row `r` of the codeword of data `d`: byte `i` is the dot product of
/// the matrix row with byte column `i` of the data.
pub open spec fn codeword_row(mat: Seq<Seq<u8>>, d: Seq<Seq<u8>>, r: int, len: int) -> Seq<u8> {
    Seq::new(len as nat, |i: int| dot(mat[r], column(d, i)))
}

/// The full codeword: one row per matrix row.
pub open spec fn codeword(mat: Seq<Seq<u8>>, d: Seq<Seq<u8>>, len: int) -> Seq<Seq<u8>> {
    Seq::new(mat.len(), |r: int| codeword_row(mat, d, r, len))
}

/// Exactly `k` data shards of one, nonzero length.
pub open spec fn encode_shape_ok(k: int, d: Seq<Seq<u8>>) -> bool {
    &&& d.len() == k
    &&& d[0].len() > 0
    &&& forall|j: int| 0 <= j < d.len() ==> (#[trigger] d[j]).len() == d[0].len()
}

/// `k` data shards, each of length `len`.
pub open spec fn data_shape_ok(k: int, d: Seq<Seq<u8>>, len: int) -> bool {
    &&& d.len() == k
    &&& forall|e: int| 0 <= e < d.len() ==> (#[trigger] d[e]).len() == len
}

/// All `k + m` shards present and of one length.
pub open spec fn verify_shape_ok(n: int, s: Seq<Seq<u8>>) -> bool {
    &&& s.len() == n
    &&& forall|j: int| 0 <= j < s.len() ==> (#[trigger] s[j]).len() == s[0].len()
}

/// The parity shards are those recomputed from the data shards.
pub open spec fn parity_matches(
    mat: Seq<Seq<u8>>,
    k: int,
    m: int,
    s: Seq<Seq<u8>>,
    len: int,
) -> bool {
    forall|j: int, i: int|
        0 <= j < m && 0 <= i < len ==> #[trigger] s[k + j][i] == dot(
            mat[k + j],
            column(s.subrange(0, k), i),
        )
}

/// Every present slot of the shard set agrees with the codeword of data
/// `d`: what it means for a damaged set to come from `d`.
pub open spec fn consistent_with(
    mat: Seq<Seq<u8>>,
    k: int,
    d: Seq<Seq<u8>>,
    s: Seq<Option<Seq<u8>>>,
    len: int,
) -> bool {
    &&& data_shape_ok(k, d, len)
    &&& forall|t: int|
        0 <= t < s.len() && s[t] is Some ==> (#[trigger] s[t]).unwrap() == codeword_row(
            mat,
            d,
            t,
            len,
        )
}

/// An immutable coding configuration: `k` data shards, `m` parity shards,
/// the generator matrix, and the full product table of the field used to
/// multiply without re-deriving products byte by byte.
pub struct CodingSession {
    k: usize,
    m: usize,
    rows: Vec<Vec<u8>>,
    table: Vec<Vec<u8>>,
}

impl CodingSession {
    /// Well-formedness: valid bounds, the generator matrix of `(k, m)`,
    /// and a faithful product table.
    #[verifier::type_invariant]
    pub closed spec fn wf(self) -> bool {
        &&& 1 <= self.k
        &&& self.k + self.m <= 256
        &&& self.rows@.len() == self.k + self.m
        &&& rows_sized(self.rows@, self.k as int)
        &&& mat_view(self.rows@) == gen_matrix(self.k as int, self.m as int)
        &&& self.table@.len() == 256
        &&& forall|x: int| 0 <= x < 256 ==> (#[trigger] self.table@[x])@.len() == 256
        &&& forall|x: int, y: int|
            0 <= x < 256 && 0 <= y < 256 ==> #[trigger] self.table@[x]@[y] == gf_mul(
                x as u8,
                y as u8,
            )
    }

    /// The number of data shards.
    pub closed spec fn spec_k(self) -> int {
        self.k as int
    }

    /// The number of parity shards.
    pub closed spec fn spec_m(self) -> int {
        self.m as int
    }

    /// The generator matrix.
    pub closed spec fn gen(self) -> Seq<Seq<u8>> {
        mat_view(self.rows@)
    }

    pub fn data_shard_count(&self) -> (r: usize)
        ensures
            r as int == self.spec_k(),
    {
        self.k
    }

    pub fn parity_shard_count(&self) -> (r: usize)
        ensures
            r as int == self.spec_m(),
    {
        self.m
    }

    /// Field multiplication through the session's product table.
    fn fmul(&self, a: u8, b: u8) -> (r: u8)
        ensures
            r == gf_mul(a, b),
    {
        proof {
            use_type_invariant(self);
        }
        self.table[a as usize][b as usize]
    }
}

/// The shape of the generator matrix: `k + m` rows of `k` entries.
pub proof fn lemma_gen_matrix_shape(k: int, m: int)
    requires
        k >= 0,
        m >= 0,
    ensures
        gen_matrix(k, m).len() == k + m,
        forall|r: int| 0 <= r < k + m ==> (#[trigger] gen_matrix(k, m)[r]).len() == k,
{
    assert forall|r: int| 0 <= r < k + m implies (#[trigger] gen_matrix(k, m)[r]).len() == k by {
        assert(gen_matrix(k, m)[r] == gen_row(k, r));
    }
}

/// A new session for `k` data and `m` parity shards.  Construction
/// succeeds for exactly the valid configurations: `k` positive and
/// `k + m` within the 256 elements of the field -- every parity entry of
/// the generator matrix is the inverse of a nonzero byte, which the field
/// always has (`lemma_gf_has_inverse`).  The matrix and the product table
/// are built once; the session is immutable afterwards.
pub fn new_session(k: usize, m: usize) -> (r: Result<CodingSession, CodecError>)
    ensures
        (k == 0 || k + m > 256) <==> r is Err,
        r is Err ==> r == Err::<CodingSession, CodecError>(CodecError::Configuration),
        r is Ok ==> r.unwrap().spec_k() == k && r.unwrap().spec_m() == m && r.unwrap().gen()
            == gen_matrix(k as int, m as int),
{
    if k == 0 {
        return Err(CodecError::Configuration);
    }
    if k > 256 || m > 256 || k + m > 256 {
        return Err(CodecError::Configuration);
    }
    // The field's product table.
    let mut table: Vec<Vec<u8>> = Vec::new();
    let mut x: usize = 0;
    while x < 256
        invariant
            x <= 256,
            table@.len() == x,
            forall|t: int| 0 <= t < x ==> (#[trigger] table@[t])@.len() == 256,
            forall|t: int, y: int|
                0 <= t < x && 0 <= y < 256 ==> #[trigger] table@[t]@[y] == gf_mul(t as u8, y as u8),
        decreases 256 - x,
    {
        let mut rowt: Vec<u8> = Vec::new();
        let mut y: usize = 0;
        while y < 256
            invariant
                y <= 256,
                x < 256,
                rowt@.len() == y,
                forall|t: int| 0 <= t < y ==> #[trigger] rowt@[t] == gf_mul(x as u8, t as u8),
            decreases 256 - y,
        {
            rowt.push(gf_multiply(x as u8, y as u8));
            y = y + 1;
        }
        table.push(rowt);
        x = x + 1;
    }
    // The generator matrix.
    let n = k + m;
    let mut rows: Vec<Vec<u8>> = Vec::new();
    let mut r: usize = 0;
    while r < n
        invariant
            r <= n,
            n == k + m,
            1 <= k <= 256,
            n <= 256,
            rows@.len() == r,
            forall|t: int| 0 <= t < r ==> (#[trigger] rows@[t])@ == gen_row(k as int, t),
        decreases n - r,
    {
        let mut row: Vec<u8> = Vec::new();
        if r < k {
            let mut j: usize = 0;
            while j < k
                invariant
                    j <= k,
                    r < k,
                    row@.len() == j,
                    forall|t: int|
                        0 <= t < j ==> #[trigger] row@[t] == (if t == r {
                            1u8
                        } else {
                            0u8
                        }),
                decreases k - j,
            {
                if j == r {
                    row.push(1);
                } else {
                    row.push(0);
                }
                j = j + 1;
            }
            proof {
                assert(row@ =~= gen_row(k as int, r as int));
            }
        } else {
            let mut j: usize = 0;
            while j < k
                invariant
                    j <= k,
                    1 <= k,
                    n == k + m,
                    k <= r < n <= 256,
                    row@.len() == j,
                    forall|t: int|
                        0 <= t < j ==> #[trigger] row@[t] == gf_inv((r as u8) ^ (t as u8)),
                decreases k - j,
            {
                let x2 = (r as u8) ^ (j as u8);
                proof {
                    assert(x2 != 0) by (bit_vector)
                        requires
                            x2 == (r as u8) ^ (j as u8),
                            j < k,
                            k <= r,
                            r < 256,
                    ;
                }
                match gf_inverse(x2) {
                    Ok(v) => {
                        row.push(v);
                    },
                    Err(_) => {
                        // Unreachable: the entry is nonzero, so it has an
                        // inverse.
                        proof {
                            assert(false);
                        }
                        return Err(CodecError::Configuration);
                    },
                }
                j = j + 1;
            }
            proof {
                assert(row@ =~= gen_row(k as int, r as int));
            }
        }
        rows.push(row);
        r = r + 1;
    }
    proof {
        assert(mat_view(rows@) =~= gen_matrix(k as int, m as int));
        assert forall|t: int| 0 <= t < rows@.len() implies (#[trigger] rows@[t])@.len() == k by {
            assert(rows@[t]@ == gen_row(k as int, t));
        }
    }
    Ok(CodingSession { k, m, rows, table })
}

impl CodingSession {
    /// Parity shards for `k` present data shards: parity row `j` holds,
    /// at byte `i`, the dot product of generator row `k + j` with byte
    /// column `i` of the data.  Data shards are only read; the parity is
    /// returned as `m` newly allocated buffers.  Anything but `k` shards
    /// of one, nonzero length fails with a shape error.
    pub fn encode(&self, data: &Vec<Vec<u8>>) -> (r: Result<Vec<Vec<u8>>, CodecError>)
        ensures
            r is Ok <==> encode_shape_ok(self.spec_k(), mat_view(data@)),
            r is Err ==> r == Err::<Vec<Vec<u8>>, CodecError>(CodecError::Shape),
            r is Ok ==> r.unwrap()@.len() == self.spec_m(),
            r is Ok ==> forall|j: int|
                0 <= j < self.spec_m() ==> (#[trigger] r.unwrap()@[j])@ == codeword_row(
                    self.gen(),
                    mat_view(data@),
                    self.spec_k() + j,
                    data@[0]@.len() as int,
                ),
    {
        proof {
            use_type_invariant(self);
            lemma_gen_matrix_shape(self.spec_k(), self.spec_m());
        }
        let ghost dv = mat_view(data@);
        let kk = self.k;
        let mm = self.m;
        if data.len() != kk {
            return Err(CodecError::Shape);
        }
        let len = data[0].len();
        if len == 0 {
            return Err(CodecError::Shape);
        }
        let mut t: usize = 0;
        while t < kk
            invariant
                t <= kk,
                kk == data@.len(),
                dv == mat_view(data@),
                len == data@[0]@.len(),
                forall|e: int| 0 <= e < t ==> (#[trigger] dv[e]).len() == len,
            decreases kk - t,
        {
            if data[t].len() != len {
                proof {
                    assert(dv[t as int].len() != dv[0].len());
                }
                return Err(CodecError::Shape);
            }
            proof {
                assert(dv[t as int].len() == len);
            }
            t = t + 1;
        }
        let mut out: Vec<Vec<u8>> = Vec::new();
        let mut j: usize = 0;
        while j < mm
            invariant
                j <= mm,
                kk == self.spec_k(),
                mm == self.spec_m(),
                self.wf(),
                kk == data@.len(),
                dv == mat_view(data@),
                len == data@[0]@.len(),
                len > 0,
                forall|e: int| 0 <= e < kk ==> (#[trigger] dv[e]).len() == len,
                out@.len() == j,
                forall|q: int|
                    0 <= q < j ==> (#[trigger] out@[q])@ == codeword_row(
                        self.gen(),
                        dv,
                        kk + q,
                        len as int,
                    ),
            decreases mm - j,
        {
            let ghost grow = self.gen()[kk + j];
            proof {
                assert(grow == self.rows@[kk + j]@);
                assert(grow.len() == kk);
            }
            let mut row: Vec<u8> = Vec::new();
            let mut i: usize = 0;
            while i < len
                invariant
                    i <= len,
                    j < mm,
                    kk == self.spec_k(),
                    mm == self.spec_m(),
                    self.wf(),
                    kk == data@.len(),
                    dv == mat_view(data@),
                    len == data@[0]@.len(),
                    forall|e: int| 0 <= e < kk ==> (#[trigger] dv[e]).len() == len,
                    grow == self.gen()[kk + j],
                    grow == self.rows@[kk + j]@,
                    grow.len() == kk,
                    row@.len() == i,
                    forall|i2: int|
                        0 <= i2 < i ==> #[trigger] row@[i2] == dot(grow, column(dv, i2)),
                decreases len - i,
            {
                let ghost y = column(dv, i as int);
                let mut acc: u8 = 0;
                let mut s: usize = 0;
                proof {
                    assert(dot(grow.take(0), y.take(0)) == 0);
                }
                while s < kk
                    invariant
                        s <= kk,
                        i < len,
                        j < mm,
                        kk == self.spec_k(),
                        mm == self.spec_m(),
                        self.wf(),
                        kk == data@.len(),
                        dv == mat_view(data@),
                        forall|e: int| 0 <= e < kk ==> (#[trigger] dv[e]).len() == len,
                        grow == self.rows@[kk + j]@,
                        grow.len() == kk,
                        y == column(dv, i as int),
                        acc == dot(grow.take(s as int), y.take(s as int)),
                    decreases kk - s,
                {
                    proof {
                        assert(dv[s as int].len() == len);
                        assert(y[s as int] == dv[s as int][i as int]);
                        lemma_dot_take_step(grow, y, s as int);
                    }
                    let coef = self.rows[kk + j][s];
                    let term = self.fmul(coef, data[s][i]);
                    acc = acc ^ term;
                    s = s + 1;
                }
                proof {
                    lemma_dot_take_full(grow, y);
                }
                row.push(acc);
                i = i + 1;
            }
            proof {
                assert(row@ =~= codeword_row(self.gen(), dv, kk + j, len as int));
            }
            out.push(row);
            j = j + 1;
        }
        Ok(out)
    }

    /// Whether the `k + m` present shards are a codeword: the `m` parity
    /// shards are recomputed from the `k` data shards and compared byte
    /// for byte.  A mismatch is the answer `false`, not an error; a wrong
    /// shard count or differing lengths fail with a shape error.
    pub fn verify(&self, shards: &Vec<Vec<u8>>) -> (r: Result<bool, CodecError>)
        ensures
            r is Ok <==> verify_shape_ok(self.spec_k() + self.spec_m(), mat_view(shards@)),
            r is Err ==> r == Err::<bool, CodecError>(CodecError::Shape),
            r is Ok ==> (r.unwrap() <==> parity_matches(
                self.gen(),
                self.spec_k(),
                self.spec_m(),
                mat_view(shards@),
                shards@[0]@.len() as int,
            )),
    {
        proof {
            use_type_invariant(self);
            lemma_gen_matrix_shape(self.spec_k(), self.spec_m());
        }
        let ghost sv = mat_view(shards@);
        let kk = self.k;
        let mm = self.m;
        let n = kk + mm;
        if shards.len() != n {
            return Err(CodecError::Shape);
        }
        let len = shards[0].len();
        let mut t: usize = 0;
        while t < n
            invariant
                t <= n,
                n == shards@.len(),
                sv == mat_view(shards@),
                len == shards@[0]@.len(),
                forall|e: int| 0 <= e < t ==> (#[trigger] sv[e]).len() == len,
            decreases n - t,
        {
            if shards[t].len() != len {
                proof {
                    assert(sv[t as int].len() != sv[0].len());
                }
                return Err(CodecError::Shape);
            }
            proof {
                assert(sv[t as int].len() == len);
            }
            t = t + 1;
        }
        let ghost dpart = sv.subrange(0, kk as int);
        let mut j: usize = 0;
        while j < mm
            invariant
                j <= mm,
                kk == self.spec_k(),
                mm == self.spec_m(),
                n == kk + mm,
                self.wf(),
                n == shards@.len(),
                sv == mat_view(shards@),
                len == shards@[0]@.len(),
                forall|e: int| 0 <= e < n ==> (#[trigger] sv[e]).len() == len,
                dpart == sv.subrange(0, kk as int),
                forall|j2: int, i2: int|
                    0 <= j2 < j && 0 <= i2 < len ==> #[trigger] sv[kk + j2][i2] == dot(
                        self.gen()[kk + j2],
                        column(dpart, i2),
                    ),
            decreases mm - j,
        {
            let ghost grow = self.gen()[kk + j];
            proof {
                assert(grow == self.rows@[kk + j]@);
                assert(grow.len() == kk);
            }
            let mut i: usize = 0;
            while i < len
                invariant
                    i <= len,
                    j < mm,
                    kk == self.spec_k(),
                    mm == self.spec_m(),
                    n == kk + mm,
                    self.wf(),
                    n == shards@.len(),
                    sv == mat_view(shards@),
                    len == shards@[0]@.len(),
                    forall|e: int| 0 <= e < n ==> (#[trigger] sv[e]).len() == len,
                    dpart == sv.subrange(0, kk as int),
                    grow == self.gen()[kk + j],
                    grow == self.rows@[kk + j]@,
                    grow.len() == kk,
                    forall|i2: int|
                        0 <= i2 < i ==> #[trigger] sv[kk + j][i2] == dot(grow, column(dpart, i2)),
                decreases len - i,
            {
                let ghost y = column(dpart, i as int);
                let mut acc: u8 = 0;
                let mut s: usize = 0;
                proof {
                    assert(dot(grow.take(0), y.take(0)) == 0);
                }
                while s < kk
                    invariant
                        s <= kk,
                        i < len,
                        j < mm,
                        kk == self.spec_k(),
                        mm == self.spec_m(),
                        n == kk + mm,
                        self.wf(),
                        n == shards@.len(),
                        sv == mat_view(shards@),
                        forall|e: int| 0 <= e < n ==> (#[trigger] sv[e]).len() == len,
                        dpart == sv.subrange(0, kk as int),
                        grow == self.rows@[kk + j]@,
                        grow.len() == kk,
                        y == column(dpart, i as int),
                        acc == dot(grow.take(s as int), y.take(s as int)),
                    decreases kk - s,
                {
                    proof {
                        assert(dpart[s as int] == sv[s as int]);
                        assert(sv[s as int].len() == len);
                        assert(y[s as int] == sv[s as int][i as int]);
                        lemma_dot_take_step(grow, y, s as int);
                    }
                    let coef = self.rows[kk + j][s];
                    let term = self.fmul(coef, shards[s][i]);
                    acc = acc ^ term;
                    s = s + 1;
                }
                proof {
                    lemma_dot_take_full(grow, y);
                }
                proof {
                    assert(sv[kk + j as int].len() == len);
                }
                if shards[kk + j][i] != acc {
                    proof {
                        assert(sv[kk + j as int][i as int] != dot(
                            self.gen()[kk + j as int],
                            column(dpart, i as int),
                        ));
                    }
                    return Ok(false);
                }
                i = i + 1;
            }
            j = j + 1;
        }
        Ok(true)
    }

    /// Restores a damaged shard set.  At most `m` of the `k + m` slots
    /// may be absent -- more is the information-theoretic limit of the
    /// code and fails as insufficient shards, never with a wrong answer.
    /// Present slots must share one length, else the call fails with a
    /// shape error; present slots are returned unchanged.  The central
    /// promise is conditional on nothing: whenever the input's present
    /// slots agree with the codeword of any data `d`, the full result is
    /// exactly that codeword, so recovered data and parity are the
    /// originals, byte for byte.  When every data shard is present the
    /// absent parity is re-encoded directly and success is owed outright.
    /// Only when data shards must be solved for is the selected submatrix
    /// inverted, with its product checked against the identity; a failed
    /// check -- which the generator's construction is designed to rule
    /// out, though that design property is exercised by tests rather than
    /// proved -- is reported as an arithmetic error.
    pub fn reconstruct(&self, shards: &Vec<Option<Vec<u8>>>) -> (r: Result<Vec<Vec<u8>>, CodecError>)
        ensures
            r == Err::<Vec<Vec<u8>>, CodecError>(CodecError::Shape) <==> !(opt_view(shards@).len()
                == self.spec_k() + self.spec_m() && present_lens_equal(opt_view(shards@))),
            r == Err::<Vec<Vec<u8>>, CodecError>(CodecError::InsufficientShards) <==> (opt_view(
                shards@,
            ).len() == self.spec_k() + self.spec_m() && present_lens_equal(opt_view(shards@))
                && missing_count(opt_view(shards@)) > self.spec_m()),
            r is Err ==> r == Err::<Vec<Vec<u8>>, CodecError>(CodecError::Shape) || r == Err::<
                Vec<Vec<u8>>,
                CodecError,
            >(CodecError::InsufficientShards) || r == Err::<Vec<Vec<u8>>, CodecError>(
                CodecError::Arithmetic,
            ),
            (opt_view(shards@).len() == self.spec_k() + self.spec_m() && present_lens_equal(
                opt_view(shards@),
            ) && missing_count(opt_view(shards@)) <= self.spec_m() && (forall|q: int|
                0 <= q < self.spec_k() ==> (#[trigger] opt_view(shards@)[q]) is Some))
                ==> r is Ok,
            r is Ok ==> r.unwrap()@.len() == self.spec_k() + self.spec_m(),
            r is Ok ==> forall|t: int|
                0 <= t < opt_view(shards@).len() && opt_view(shards@)[t] is Some ==> (
                #[trigger] r.unwrap()@[t])@ == opt_view(shards@)[t].unwrap(),
            r is Ok ==> forall|t: int, p: int|
                0 <= t < r.unwrap()@.len() && 0 <= p < opt_view(shards@).len() && opt_view(
                    shards@,
                )[p] is Some ==> (#[trigger] r.unwrap()@[t])@.len() == (#[trigger] opt_view(
                    shards@,
                )[p]).unwrap().len(),
            r is Ok ==> forall|d: Seq<Seq<u8>>, len2: int|
                #[trigger] consistent_with(self.gen(), self.spec_k(), d, opt_view(shards@), len2)
                    ==> mat_view(r.unwrap()@) == codeword(self.gen(), d, len2),
    {
        proof {
            use_type_invariant(self);
            lemma_gen_matrix_shape(self.spec_k(), self.spec_m());
        }
        let ghost sv = opt_view(shards@);
        let kk = self.k;
        let mm = self.m;
        let n = kk + mm;
        if shards.len() != n {
            return Err(CodecError::Shape);
        }
        // One scan: the common present length, the count of absent slots.
        let mut missing: usize = 0;
        let mut have_len: bool = false;
        let mut len: usize = 0;
        let mut t: usize = 0;
        while t < n
            invariant
                t <= n,
                n == shards@.len(),
                sv == opt_view(shards@),
                missing == missing_count(sv.take(t as int)),
                missing <= t,
                !have_len ==> (forall|e: int| 0 <= e < t ==> !((#[trigger] sv[e]) is Some)),
                have_len ==> (exists|p: int|
                    0 <= p < t && (#[trigger] sv[p]) is Some && sv[p].unwrap().len() == len as int),
                forall|e: int|
                    0 <= e < t && (#[trigger] sv[e]) is Some ==> sv[e].unwrap().len()
                        == len as int,
            decreases n - t,
        {
            proof {
                lemma_missing_count_step(sv, t as int);
            }
            match &shards[t] {
                Some(b) => {
                    proof {
                        assert(sv[t as int] == Option::Some(b@));
                    }
                    if !have_len {
                        have_len = true;
                        len = b.len();
                    } else if b.len() != len {
                        proof {
                            let p = choose|p: int|
                                0 <= p < t && (#[trigger] sv[p]) is Some && sv[p].unwrap().len()
                                    == len as int;
                            assert(sv[p].unwrap().len() != sv[t as int].unwrap().len());
                        }
                        return Err(CodecError::Shape);
                    }
                },
                None => {
                    missing = missing + 1;
                },
            }
            t = t + 1;
        }
        proof {
            lemma_missing_count_full(sv);
            assert(present_lens_equal(sv)) by {
                assert forall|i2: int, j2: int|
                    0 <= i2 < sv.len() && 0 <= j2 < sv.len() && sv[i2] is Some
                        && sv[j2] is Some implies (#[trigger] sv[i2].unwrap()).len() == (
                #[trigger] sv[j2].unwrap()).len() by {
                    assert(sv[i2].unwrap().len() == len as int);
                    assert(sv[j2].unwrap().len() == len as int);
                }
            }
        }
        if missing > mm {
            return Err(CodecError::InsufficientShards);
        }
        // Whether any data shard is absent.  When none is, no solving is
        // needed: the data is copied through and the absent parity rows
        // are re-encoded from it, so success is owed outright.
        let mut data_missing: bool = false;
        let mut e0: usize = 0;
        while e0 < kk
            invariant
                e0 <= kk,
                kk <= n,
                n == shards@.len(),
                sv == opt_view(shards@),
                data_missing <==> (exists|q: int| 0 <= q < e0 && !((#[trigger] sv[q]) is Some)),
            decreases kk - e0,
        {
            match &shards[e0] {
                Some(b) => {
                    proof {
                        assert(sv[e0 as int] == Option::Some(b@));
                    }
                },
                None => {
                    proof {
                        assert(!(sv[e0 as int] is Some));
                    }
                    data_missing = true;
                },
            }
            e0 = e0 + 1;
        }
        if !data_missing {
            // Copy the `k` data shards.
            let mut out: Vec<Vec<u8>> = Vec::new();
            let mut e: usize = 0;
            while e < kk
                invariant
                    e <= kk,
                    kk <= n,
                    n == shards@.len(),
                    sv == opt_view(shards@),
                    forall|q: int| 0 <= q < kk ==> (#[trigger] sv[q]) is Some,
                    forall|q2: int|
                        0 <= q2 < n && (#[trigger] sv[q2]) is Some ==> sv[q2].unwrap().len()
                            == len as int,
                    out@.len() == e,
                    forall|q: int| 0 <= q < e ==> (#[trigger] out@[q])@ == sv[q].unwrap(),
                    forall|q: int| 0 <= q < e ==> (#[trigger] out@[q])@.len() == len,
                decreases kk - e,
            {
                match &shards[e] {
                    Some(b) => {
                        proof {
                            assert(sv[e as int] == Option::Some(b@));
                        }
                        out.push(copy_row(b));
                    },
                    None => {
                        proof {
                            assert(false);
                        }
                        return Err(CodecError::Arithmetic);
                    },
                }
                e = e + 1;
            }
            // Re-encode the absent parity rows from the data.
            let ghost dv2 = mat_view(out@);
        let mut r2: usize = kk;
        while r2 < n
            invariant
                kk <= r2 <= n,
                self.wf(),
                kk == self.spec_k(),
                mm == self.spec_m(),
                n == kk + mm,
                n == shards@.len(),
                sv == opt_view(shards@),
                dv2.len() == kk,
                forall|q: int| 0 <= q < kk ==> (#[trigger] dv2[q]).len() == len,
                forall|e2: int|
                    0 <= e2 < n && (#[trigger] sv[e2]) is Some ==> sv[e2].unwrap().len()
                        == len as int,
                out@.len() == r2,
                forall|q: int| 0 <= q < kk ==> (#[trigger] out@[q])@ == dv2[q],
                forall|q: int|
                    kk <= q < r2 && (#[trigger] sv[q]) is Some ==> out@[q]@ == sv[q].unwrap(),
                forall|q: int|
                    kk <= q < r2 && (#[trigger] sv[q]) is None ==> out@[q]@ == Seq::new(
                        len as nat,
                        |i: int| dot(self.gen()[q], column(dv2, i)),
                    ),
                forall|q: int| kk <= q < r2 ==> (#[trigger] out@[q])@.len() == len,
            decreases n - r2,
        {
            match &shards[r2] {
                Some(b) => {
                    proof {
                        assert(sv[r2 as int] == Option::Some(b@));
                    }
                    out.push(copy_row(b));
                },
                None => {
                    proof {
                        assert(sv[r2 as int] is None);
                    }
                    let ghost x = self.gen()[r2 as int];
                    proof {
                        assert(x == self.rows@[r2 as int]@);
                        assert(x.len() == kk);
                    }
                    let mut row: Vec<u8> = Vec::new();
                    let mut i: usize = 0;
                    while i < len
                        invariant
                            i <= len,
                            kk <= r2 < n,
                            self.wf(),
                            kk == self.spec_k(),
                            mm == self.spec_m(),
                            n == kk + mm,
                            dv2.len() == kk,
                            forall|q: int| 0 <= q < kk ==> (#[trigger] dv2[q]).len() == len,
                            out@.len() == r2,
                            forall|q: int| 0 <= q < kk ==> (#[trigger] out@[q])@ == dv2[q],
                            x == self.gen()[r2 as int],
                            x == self.rows@[r2 as int]@,
                            x.len() == kk,
                            row@.len() == i,
                            forall|i2: int|
                                0 <= i2 < i ==> #[trigger] row@[i2] == dot(x, column(dv2, i2)),
                        decreases len - i,
                    {
                        let ghost y = column(dv2, i as int);
                        let mut acc: u8 = 0;
                        let mut s2: usize = 0;
                        proof {
                            assert(dot(x.take(0), y.take(0)) == 0);
                        }
                        while s2 < kk
                            invariant
                                s2 <= kk,
                                i < len,
                                kk <= r2 < n,
                                self.wf(),
                                kk == self.spec_k(),
                                mm == self.spec_m(),
                                n == kk + mm,
                                dv2.len() == kk,
                                forall|q: int| 0 <= q < kk ==> (#[trigger] dv2[q]).len() == len,
                                out@.len() == r2,
                                forall|q: int| 0 <= q < kk ==> (#[trigger] out@[q])@ == dv2[q],
                                x == self.rows@[r2 as int]@,
                                x.len() == kk,
                                y == column(dv2, i as int),
                                acc == dot(x.take(s2 as int), y.take(s2 as int)),
                            decreases kk - s2,
                        {
                            proof {
                                assert(out@[s2 as int]@ == dv2[s2 as int]);
                                assert(y[s2 as int] == dv2[s2 as int][i as int]);
                                lemma_dot_take_step(x, y, s2 as int);
                            }
                            let term = self.fmul(self.rows[r2][s2], out[s2][i]);
                            acc = acc ^ term;
                            s2 = s2 + 1;
                        }
                        proof {
                            lemma_dot_take_full(x, y);
                        }
                        row.push(acc);
                        i = i + 1;
                    }
                    proof {
                        assert(row@ =~= Seq::new(
                            len as nat,
                            |i: int| dot(self.gen()[r2 as int], column(dv2, i)),
                        ));
                    }
                    out.push(row);
                },
            }
            r2 = r2 + 1;
        }
            proof {
                let gen = self.gen();
                let kki = kk as int;
                assert forall|d: Seq<Seq<u8>>, len2: int|
                    #[trigger] consistent_with(gen, kki, d, sv, len2) implies mat_view(out@)
                    == codeword(gen, d, len2) by {
                    assert(sv[0] is Some);
                    assert(sv[0].unwrap().len() == len as int);
                    assert(sv[0].unwrap() == codeword_row(gen, d, 0, len2));
                    assert(d[0].len() == len2);
                    assert(len2 >= 0);
                    assert(len2 == len as int);
                    assert forall|q: int| 0 <= q < kki implies #[trigger] out@[q]@ == d[q] by {
                        assert(out@[q]@ == sv[q].unwrap());
                        assert(sv[q].unwrap() == codeword_row(gen, d, q, len2));
                        lemma_codeword_data_row(kki, mm as int, d, len2, q);
                    }
                    assert forall|q: int| 0 <= q < kki implies #[trigger] dv2[q] == d[q] by {
                        assert(out@[q]@ == d[q]);
                        assert(dv2[q] == out@[q]@);
                    }
                    assert(dv2 =~= d);
                    assert forall|t4: int| 0 <= t4 < n implies #[trigger] out@[t4]@
                        == codeword_row(gen, d, t4, len2) by {
                        if t4 < kki {
                            lemma_codeword_data_row(kki, mm as int, d, len2, t4);
                        } else if sv[t4] is Some {
                            assert(out@[t4]@ == sv[t4].unwrap());
                        } else {
                            assert(out@[t4]@ == Seq::new(
                                len as nat,
                                |i: int| dot(gen[t4], column(dv2, i)),
                            ));
                            assert(out@[t4]@ =~= codeword_row(gen, d, t4, len2));
                        }
                    }
                    assert(mat_view(out@) =~= codeword(gen, d, len2));
                }
                assert forall|t4: int, p: int|
                    0 <= t4 < out@.len() && 0 <= p < sv.len() && sv[p] is Some implies (
                #[trigger] out@[t4])@.len() == (#[trigger] sv[p]).unwrap().len() by {
                    assert(sv[p].unwrap().len() == len as int);
                }
            }
            return Ok(out);
        }
        // Collect the present slot indices; the first k of them select the
        // rows to solve against.
        let mut present_idx: Vec<usize> = Vec::new();
        let mut t2: usize = 0;
        while t2 < n
            invariant
                t2 <= n,
                n == shards@.len(),
                sv == opt_view(shards@),
                present_idx@.len() == t2 - missing_count(sv.take(t2 as int)),
                missing_count(sv.take(t2 as int)) >= 0,
                missing_count(sv.take(t2 as int)) <= missing_count(sv),
                forall|q: int|
                    0 <= q < present_idx@.len() ==> (#[trigger] present_idx@[q]) < t2 && sv[
                        present_idx@[q] as int
                    ] is Some,
            decreases n - t2,
        {
            proof {
                lemma_missing_count_step(sv, t2 as int);
                lemma_missing_count_take_le(sv, t2 as int + 1);
            }
            match &shards[t2] {
                Some(_) => {
                    present_idx.push(t2);
                },
                None => {},
            }
            t2 = t2 + 1;
        }
        proof {
            lemma_missing_count_full(sv);
            assert(present_idx@.len() == n - missing_count(sv));
            assert(present_idx@.len() >= kk);
        }
        // The selected submatrix and the selected shards.
        let mut suba: Vec<Vec<u8>> = Vec::new();
        let mut selv: Vec<Vec<u8>> = Vec::new();
        let mut s: usize = 0;
        while s < kk
            invariant
                s <= kk,
                self.wf(),
                kk == self.spec_k(),
                mm == self.spec_m(),
                n == kk + mm,
                n == shards@.len(),
                sv == opt_view(shards@),
                kk <= present_idx@.len(),
                forall|q: int|
                    0 <= q < present_idx@.len() ==> (#[trigger] present_idx@[q]) < n && sv[
                        present_idx@[q] as int
                    ] is Some,
                forall|e: int|
                    0 <= e < n && (#[trigger] sv[e]) is Some ==> sv[e].unwrap().len()
                        == len as int,
                suba@.len() == s,
                selv@.len() == s,
                forall|q: int|
                    0 <= q < s ==> (#[trigger] suba@[q])@ == self.gen()[present_idx@[q] as int],
                forall|q: int| 0 <= q < s ==> (#[trigger] suba@[q])@.len() == kk,
                forall|q: int|
                    0 <= q < s ==> (#[trigger] selv@[q])@ == sv[present_idx@[q] as int].unwrap(),
                forall|q: int| 0 <= q < s ==> (#[trigger] selv@[q])@.len() == len,
            decreases kk - s,
        {
            let idx = present_idx[s];
            proof {
                assert(sv[idx as int] is Some);
                assert(self.gen()[idx as int] == self.rows@[idx as int]@);
            }
            suba.push(copy_row(&self.rows[idx]));
            match &shards[idx] {
                Some(b) => {
                    proof {
                        assert(sv[idx as int] == Option::Some(b@));
                    }
                    selv.push(copy_row(b));
                },
                None => {
                    proof {
                        assert(false);
                    }
                    return Err(CodecError::Arithmetic);
                },
            }
            s = s + 1;
        }
        // Invert; the inverse comes certified against the identity.
        let binv = match crate::matrix::invert(&suba, kk) {
            Ok(v) => v,
            Err(_) => {
                return Err(CodecError::Arithmetic);
            },
        };
        let ghost sam = mat_view(suba@);
        let ghost selm = mat_view(selv@);
        // The data rows: present ones copied, absent ones solved through
        // the certified inverse.
        let mut out: Vec<Vec<u8>> = Vec::new();
        let mut e: usize = 0;
        while e < kk
            invariant
                e <= kk,
                self.wf(),
                kk == self.spec_k(),
                mm == self.spec_m(),
                n == kk + mm,
                n == shards@.len(),
                sv == opt_view(shards@),
                selm == mat_view(selv@),
                selv@.len() == kk,
                forall|q: int| 0 <= q < kk ==> (#[trigger] selv@[q])@.len() == len,
                binv@.len() == kk,
                forall|q: int| 0 <= q < kk ==> (#[trigger] binv@[q])@.len() == kk,
                forall|e2: int|
                    0 <= e2 < n && (#[trigger] sv[e2]) is Some ==> sv[e2].unwrap().len()
                        == len as int,
                out@.len() == e,
                forall|q: int|
                    0 <= q < e && (#[trigger] sv[q]) is Some ==> out@[q]@ == sv[q].unwrap(),
                forall|q: int|
                    0 <= q < e && (#[trigger] sv[q]) is None ==> out@[q]@ == Seq::new(
                        len as nat,
                        |i: int| dot(binv@[q]@, column(selm, i)),
                    ),
                forall|q: int| 0 <= q < e ==> (#[trigger] out@[q])@.len() == len,
            decreases kk - e,
        {
            match &shards[e] {
                Some(b) => {
                    proof {
                        assert(sv[e as int] == Option::Some(b@));
                    }
                    out.push(copy_row(b));
                },
                None => {
                    proof {
                        assert(sv[e as int] is None);
                    }
                    let ghost x = binv@[e as int]@;
                    let mut row: Vec<u8> = Vec::new();
                    let mut i: usize = 0;
                    while i < len
                        invariant
                            i <= len,
                            e < kk,
                            selm == mat_view(selv@),
                            selv@.len() == kk,
                            forall|q: int| 0 <= q < kk ==> (#[trigger] selv@[q])@.len() == len,
                            binv@.len() == kk,
                            x == binv@[e as int]@,
                            x.len() == kk,
                            row@.len() == i,
                            forall|i2: int|
                                0 <= i2 < i ==> #[trigger] row@[i2] == dot(x, column(selm, i2)),
                        decreases len - i,
                    {
                        let ghost y = column(selm, i as int);
                        let mut acc: u8 = 0;
                        let mut s2: usize = 0;
                        proof {
                            assert(dot(x.take(0), y.take(0)) == 0);
                        }
                        while s2 < kk
                            invariant
                                s2 <= kk,
                                i < len,
                                e < kk,
                                selm == mat_view(selv@),
                                selv@.len() == kk,
                                forall|q: int| 0 <= q < kk ==> (#[trigger] selv@[q])@.len() == len,
                                binv@.len() == kk,
                                x == binv@[e as int]@,
                                x.len() == kk,
                                y == column(selm, i as int),
                                acc == dot(x.take(s2 as int), y.take(s2 as int)),
                            decreases kk - s2,
                        {
                            proof {
                                assert(selm[s2 as int] == selv@[s2 as int]@);
                                assert(y[s2 as int] == selv@[s2 as int]@[i as int]);
                                lemma_dot_take_step(x, y, s2 as int);
                            }
                            let term = self.fmul(binv[e][s2], selv[s2][i]);
                            acc = acc ^ term;
                            s2 = s2 + 1;
                        }
                        proof {
                            lemma_dot_take_full(x, y);
                        }
                        row.push(acc);
                        i = i + 1;
                    }
                    proof {
                        assert(row@ =~= Seq::new(
                            len as nat,
                            |i: int| dot(binv@[e as int]@, column(selm, i)),
                        ));
                    }
                    out.push(row);
                },
            }
            e = e + 1;
        }
        // The parity rows: present ones copied, absent ones re-encoded
        // from the data rows just assembled.
        let ghost dv2 = mat_view(out@);
        let mut r2: usize = kk;
        while r2 < n
            invariant
                kk <= r2 <= n,
                self.wf(),
                kk == self.spec_k(),
                mm == self.spec_m(),
                n == kk + mm,
                n == shards@.len(),
                sv == opt_view(shards@),
                dv2.len() == kk,
                forall|q: int| 0 <= q < kk ==> (#[trigger] dv2[q]).len() == len,
                forall|e2: int|
                    0 <= e2 < n && (#[trigger] sv[e2]) is Some ==> sv[e2].unwrap().len()
                        == len as int,
                out@.len() == r2,
                forall|q: int| 0 <= q < kk ==> (#[trigger] out@[q])@ == dv2[q],
                forall|q: int|
                    kk <= q < r2 && (#[trigger] sv[q]) is Some ==> out@[q]@ == sv[q].unwrap(),
                forall|q: int|
                    kk <= q < r2 && (#[trigger] sv[q]) is None ==> out@[q]@ == Seq::new(
                        len as nat,
                        |i: int| dot(self.gen()[q], column(dv2, i)),
                    ),
                forall|q: int| kk <= q < r2 ==> (#[trigger] out@[q])@.len() == len,
            decreases n - r2,
        {
            match &shards[r2] {
                Some(b) => {
                    proof {
                        assert(sv[r2 as int] == Option::Some(b@));
                    }
                    out.push(copy_row(b));
                },
                None => {
                    proof {
                        assert(sv[r2 as int] is None);
                    }
                    let ghost x = self.gen()[r2 as int];
                    proof {
                        assert(x == self.rows@[r2 as int]@);
                        assert(x.len() == kk);
                    }
                    let mut row: Vec<u8> = Vec::new();
                    let mut i: usize = 0;
                    while i < len
                        invariant
                            i <= len,
                            kk <= r2 < n,
                            self.wf(),
                            kk == self.spec_k(),
                            mm == self.spec_m(),
                            n == kk + mm,
                            dv2.len() == kk,
                            forall|q: int| 0 <= q < kk ==> (#[trigger] dv2[q]).len() == len,
                            out@.len() == r2,
                            forall|q: int| 0 <= q < kk ==> (#[trigger] out@[q])@ == dv2[q],
                            x == self.gen()[r2 as int],
                            x == self.rows@[r2 as int]@,
                            x.len() == kk,
                            row@.len() == i,
                            forall|i2: int|
                                0 <= i2 < i ==> #[trigger] row@[i2] == dot(x, column(dv2, i2)),
                        decreases len - i,
                    {
                        let ghost y = column(dv2, i as int);
                        let mut acc: u8 = 0;
                        let mut s2: usize = 0;
                        proof {
                            assert(dot(x.take(0), y.take(0)) == 0);
                        }
                        while s2 < kk
                            invariant
                                s2 <= kk,
                                i < len,
                                kk <= r2 < n,
                                self.wf(),
                                kk == self.spec_k(),
                                mm == self.spec_m(),
                                n == kk + mm,
                                dv2.len() == kk,
                                forall|q: int| 0 <= q < kk ==> (#[trigger] dv2[q]).len() == len,
                                out@.len() == r2,
                                forall|q: int| 0 <= q < kk ==> (#[trigger] out@[q])@ == dv2[q],
                                x == self.rows@[r2 as int]@,
                                x.len() == kk,
                                y == column(dv2, i as int),
                                acc == dot(x.take(s2 as int), y.take(s2 as int)),
                            decreases kk - s2,
                        {
                            proof {
                                assert(out@[s2 as int]@ == dv2[s2 as int]);
                                assert(y[s2 as int] == dv2[s2 as int][i as int]);
                                lemma_dot_take_step(x, y, s2 as int);
                            }
                            let term = self.fmul(self.rows[r2][s2], out[s2][i]);
                            acc = acc ^ term;
                            s2 = s2 + 1;
                        }
                        proof {
                            lemma_dot_take_full(x, y);
                        }
                        row.push(acc);
                        i = i + 1;
                    }
                    proof {
                        assert(row@ =~= Seq::new(
                            len as nat,
                            |i: int| dot(self.gen()[r2 as int], column(dv2, i)),
                        ));
                    }
                    out.push(row);
                },
            }
            r2 = r2 + 1;
        }
        proof {
            let gen = self.gen();
            let kki = kk as int;
            assert forall|d: Seq<Seq<u8>>, len2: int|
                #[trigger] consistent_with(gen, kki, d, sv, len2) implies mat_view(out@)
                == codeword(gen, d, len2) by {
            // The hypothesis pins the length: some slot is present, its
            // bytes were measured, and it is a codeword row of `d`.
            let p0 = present_idx@[0] as int;
            assert(sv[p0] is Some);
            assert(sv[p0].unwrap().len() == len as int);
            assert(sv[p0].unwrap() == codeword_row(gen, d, p0, len2));
            assert(d[0].len() == len2);
            assert(len2 >= 0);
            assert(len2 == len as int);
            // The selected shards are codeword rows of `d`.
            assert forall|q: int| 0 <= q < kki implies #[trigger] selm[q] == codeword_row(
                gen,
                d,
                present_idx@[q] as int,
                len2,
            ) by {
                assert(sv[present_idx@[q] as int].unwrap() == codeword_row(
                    gen,
                    d,
                    present_idx@[q] as int,
                    len2,
                ));
            }
            // Every data row of the output equals the corresponding row
            // of `d`.
            assert forall|q: int| 0 <= q < kki implies #[trigger] out@[q]@ == d[q] by {
                if sv[q] is Some {
                    assert(out@[q]@ == sv[q].unwrap());
                    assert(sv[q].unwrap() == codeword_row(gen, d, q, len2));
                    lemma_codeword_data_row(kki, mm as int, d, len2, q);
                } else {
                    assert forall|i: int| 0 <= i < len2 implies #[trigger] out@[q]@[i] == d[q][i] by {
                        let dcol = column(d, i);
                        let w = Seq::new(kki as nat, |s3: int| dot(sam[s3], dcol));
                        assert(column(selm, i) =~= w) by {
                            assert forall|s3: int| 0 <= s3 < kki implies column(selm, i)[s3]
                                == w[s3] by {
                                let pi = present_idx@[s3] as int;
                                assert(selm[s3] == codeword_row(gen, d, pi, len2));
                                assert(selm[s3][i] == dot(gen[pi], dcol));
                                assert(sam[s3] == suba@[s3]@);
                                assert(sam[s3] == gen[pi]);
                            }
                        }
                        assert(dcol.len() == kki);
                        assert forall|s3: int| 0 <= s3 < kki implies (#[trigger] sam[s3]).len()
                            == kki by {
                            assert(sam[s3] == suba@[s3]@);
                        }
                        let x2 = binv@[q]@;
                        assert(x2.len() == kki);
                        crate::linalg::lemma_dot_exchange(x2, sam, dcol);
                        let u = Seq::new(kki as nat, |e2: int| dot(x2, column(sam, e2)));
                        assert(u =~= unit_row(kki, q)) by {
                            assert forall|e2: int| 0 <= e2 < kki implies u[e2] == unit_row(
                                kki,
                                q,
                            )[e2] by {
                                assert(dot(binv@[q]@, column(mat_view(suba@), e2)) == (if q == e2 {
                                    1u8
                                } else {
                                    0u8
                                }));
                            }
                        }
                        lemma_dot_unit(kki, q, dcol);
                        assert(out@[q]@[i] == dot(x2, column(selm, i)));
                        assert(dot(x2, column(selm, i)) == dot(x2, w));
                        assert(dot(x2, w) == dot(u, dcol));
                        assert(dot(u, dcol) == dcol[q]);
                        assert(dcol[q] == d[q][i]);
                    }
                    assert(out@[q]@ =~= d[q]);
                }
            }
            assert forall|q: int| 0 <= q < kki implies #[trigger] dv2[q] == d[q] by {
                assert(out@[q]@ == d[q]);
                assert(dv2[q] == out@[q]@);
            }
            assert(dv2 =~= d);
            // Every row of the output is the matching codeword row.
            assert forall|t4: int| 0 <= t4 < n implies #[trigger] out@[t4]@ == codeword_row(
                gen,
                d,
                t4,
                len2,
            ) by {
                if t4 < kki {
                    lemma_codeword_data_row(kki, mm as int, d, len2, t4);
                } else if sv[t4] is Some {
                    assert(out@[t4]@ == sv[t4].unwrap());
                } else {
                    assert(out@[t4]@ == Seq::new(
                        len as nat,
                        |i: int| dot(gen[t4], column(dv2, i)),
                    ));
                    assert(out@[t4]@ =~= codeword_row(gen, d, t4, len2));
                }
            }
            assert(mat_view(out@) =~= codeword(gen, d, len2));
            }
        }
        Ok(out)
    }
}

/// Two independently constructed sessions with one `(k, m)` carry one
/// generator matrix -- construction is deterministic, as `new_session`'s
/// contract pins each session's matrix to `gen_matrix(k, m)` -- and with
/// `encode`'s contract they then produce identical parity for identical
/// data.
pub proof fn lemma_sessions_deterministic(s1: CodingSession, s2: CodingSession)
    requires
        s1.gen() == gen_matrix(s1.spec_k(), s1.spec_m()),
        s2.gen() == gen_matrix(s2.spec_k(), s2.spec_m()),
        s1.spec_k() == s2.spec_k(),
        s1.spec_m() == s2.spec_m(),
    ensures
        s1.gen() == s2.gen(),
{
}

/// A codeword's data rows are the data itself: the generator's first `k`
/// rows are the identity.
pub proof fn lemma_codeword_data_row(k: int, m: int, d: Seq<Seq<u8>>, len: int, q: int)
    requires
        m >= 0,
        data_shape_ok(k, d, len),
        0 <= q < k,
    ensures
        codeword_row(gen_matrix(k, m), d, q, len) == d[q],
{
    let mat = gen_matrix(k, m);
    assert(mat[q] == gen_row(k, q));
    assert(gen_row(k, q) == unit_row(k, q));
    assert forall|i: int| 0 <= i < len implies #[trigger] codeword_row(mat, d, q, len)[i]
        == d[q][i] by {
        assert(column(d, i).len() == k);
        lemma_dot_unit(k, q, column(d, i));
        assert(column(d, i)[q] == d[q][i]);
    }
    assert(codeword_row(mat, d, q, len) =~= d[q]);
}

/// The untouched output of `encode`, assembled into a shard set, always
/// verifies: the recomputed parity rows match the ones encoded.
pub proof fn lemma_verify_after_encode(k: int, m: int, d: Seq<Seq<u8>>, len: int)
    requires
        k >= 1,
        m >= 0,
        data_shape_ok(k, d, len),
    ensures
        parity_matches(gen_matrix(k, m), k, m, codeword(gen_matrix(k, m), d, len), len),
{
    let mat = gen_matrix(k, m);
    let s = codeword(mat, d, len);
    lemma_gen_matrix_shape(k, m);
    assert forall|q: int| 0 <= q < k implies #[trigger] s.subrange(0, k)[q] == d[q] by {
        lemma_codeword_data_row(k, m, d, len, q);
    }
    assert(s.subrange(0, k) =~= d);
    assert forall|j: int, i: int| 0 <= j < m && 0 <= i < len implies #[trigger] s[k + j][i] == dot(
        mat[k + j],
        column(s.subrange(0, k), i),
    ) by {
        assert(s[k + j] == codeword_row(mat, d, k + j, len));
        assert(s[k + j][i] == dot(mat[k + j], column(d, i)));
    }
}

/// Changing any parity byte of a verifying shard set, the data part held
/// fixed, makes verification report `false`: in particular a single
/// flipped bit in any parity shard is detected.
pub proof fn lemma_verify_detects_parity_change(
    mat: Seq<Seq<u8>>,
    k: int,
    m: int,
    s: Seq<Seq<u8>>,
    s2: Seq<Seq<u8>>,
    len: int,
    r: int,
    i: int,
)
    requires
        parity_matches(mat, k, m, s, len),
        s2.subrange(0, k) == s.subrange(0, k),
        k <= r < k + m,
        0 <= i < len,
        s2[r][i] != s[r][i],
    ensures
        !parity_matches(mat, k, m, s2, len),
{
    let j = r - k;
    assert(s[k + j][i] == dot(mat[k + j], column(s.subrange(0, k), i)));
    assert(s2[k + j][i] != dot(mat[k + j], column(s2.subrange(0, k), i)));
}

/// The round trip: reconstruction applied to any masking of the codeword
/// of data `d` -- the output of `encode` with any slots cleared -- can
/// only return that very codeword, so each recovered data row is the
/// original, byte for byte.  The last hypothesis is exactly what
/// `reconstruct` ensures of a successful result.
pub proof fn lemma_reconstruct_round_trip(
    k: int,
    m: int,
    d: Seq<Seq<u8>>,
    len: int,
    s: Seq<Option<Seq<u8>>>,
    out: Seq<Seq<u8>>,
)
    requires
        k >= 1,
        m >= 0,
        data_shape_ok(k, d, len),
        s.len() == k + m,
        forall|t: int|
            0 <= t < s.len() && s[t] is Some ==> (#[trigger] s[t]).unwrap() == codeword_row(
                gen_matrix(k, m),
                d,
                t,
                len,
            ),
        forall|d2: Seq<Seq<u8>>, len2: int|
            #[trigger] consistent_with(gen_matrix(k, m), k, d2, s, len2) ==> out == codeword(
                gen_matrix(k, m),
                d2,
                len2,
            ),
    ensures
        out == codeword(gen_matrix(k, m), d, len),
        forall|t: int| 0 <= t < k ==> #[trigger] out[t] == d[t],
{
    assert(consistent_with(gen_matrix(k, m), k, d, s, len));
    lemma_gen_matrix_shape(k, m);
    assert forall|t: int| 0 <= t < k implies #[trigger] out[t] == d[t] by {
        assert(out[t] == codeword(gen_matrix(k, m), d, len)[t]);
        assert(out[t] == codeword_row(gen_matrix(k, m), d, t, len));
        lemma_codeword_data_row(k, m, d, len, t);
    }
}

} // verus!
