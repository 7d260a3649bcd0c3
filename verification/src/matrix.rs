//! Executable matrix helpers over GF(2^8).
//!
//! Rows are byte vectors.  `invert` runs Gauss-Jordan elimination with the
//! field's own arithmetic; its result is taken as an inverse only after
//! `left_product_is_identity` has checked the product against the identity,
//! so the semantic weight rests on that checked certificate, not on the
//! elimination itself.

use vstd::prelude::*;

verus! {

use crate::CodecError;
use crate::gf::gf_inverse;
use crate::gf::gf_multiply;
use crate::linalg::column;
use crate::linalg::dot;
use crate::linalg::lemma_dot_take_full;
use crate::linalg::lemma_dot_take_step;
use crate::linalg::mat_view;
use crate::linalg::unit_row;

/// All rows have the given length.
pub open spec fn rows_sized(v: Seq<Vec<u8>>, cols: int) -> bool {
    forall|i: int| 0 <= i < v.len() ==> (#[trigger] v[i])@.len() == cols
}

/// An element-for-element copy of a byte row.
pub fn copy_row(r: &Vec<u8>) -> (res: Vec<u8>)
    ensures
        res@ == r@,
{
    let mut res: Vec<u8> = Vec::new();
    let mut j: usize = 0;
    while j < r.len()
        invariant
            j <= r@.len(),
            res@.len() == j,
            forall|t: int| 0 <= t < j ==> res@[t] == r@[t],
        decreases r@.len() - j,
    {
        res.push(r[j]);
        j = j + 1;
    }
    proof {
        assert(res@ =~= r@);
    }
    res
}

/// The `n x n` identity matrix.
pub fn identity_rows(n: usize) -> (r: Vec<Vec<u8>>)
    ensures
        r@.len() == n,
        forall|i: int| 0 <= i < n ==> (#[trigger] r@[i])@ == unit_row(n as int, i),
        rows_sized(r@, n as int),
{
    let mut out: Vec<Vec<u8>> = Vec::new();
    let mut i: usize = 0;
    while i < n
        invariant
            i <= n,
            out@.len() == i,
            forall|t: int| 0 <= t < i ==> (#[trigger] out@[t])@ == unit_row(n as int, t),
        decreases n - i,
    {
        let mut row: Vec<u8> = Vec::new();
        let mut j: usize = 0;
        while j < n
            invariant
                j <= n,
                row@.len() == j,
                forall|t: int| 0 <= t < j ==> row@[t] == (if t == i { 1u8 } else { 0u8 }),
            decreases n - j,
        {
            if j == i {
                row.push(1);
            } else {
                row.push(0);
            }
            j = j + 1;
        }
        proof {
            assert(row@ =~= unit_row(n as int, i as int));
        }
        out.push(row);
        i = i + 1;
    }
    out
}

/// Gauss-Jordan inversion of the `n x n` matrix `a`, with row swaps when
/// the natural pivot is the field's zero.  Before the result is handed
/// out, its product with `a` is checked against the identity, so an `Ok`
/// answer is a certified left inverse.  A singular matrix -- one the
/// elimination or the final check refuses -- is reported as an arithmetic
/// error, never decoded against.
pub fn invert(a: &Vec<Vec<u8>>, n: usize) -> (r: Result<Vec<Vec<u8>>, CodecError>)
    requires
        a@.len() == n,
        rows_sized(a@, n as int),
    ensures
        r is Ok ==> r.unwrap()@.len() == n && rows_sized(r.unwrap()@, n as int),
        r is Ok ==> forall|i: int, j: int|
            0 <= i < n && 0 <= j < n ==> #[trigger] dot(
                r.unwrap()@[i]@,
                column(mat_view(a@), j),
            ) == (if i == j {
                1u8
            } else {
                0u8
            }),
        r is Err ==> r == Err::<Vec<Vec<u8>>, CodecError>(CodecError::Arithmetic),
{
    let mut aug: Vec<Vec<u8>> = Vec::new();
    let mut i: usize = 0;
    while i < n
        invariant
            i <= n,
            aug@.len() == i,
            a@.len() == n,
            rows_sized(a@, n as int),
            rows_sized(aug@, n as int),
        decreases n - i,
    {
        aug.push(copy_row(&a[i]));
        i = i + 1;
    }
    let mut inv: Vec<Vec<u8>> = identity_rows(n);
    let mut c: usize = 0;
    while c < n
        invariant
            c <= n,
            aug@.len() == n,
            inv@.len() == n,
            rows_sized(aug@, n as int),
            rows_sized(inv@, n as int),
        decreases n - c,
    {
        // Find a usable pivot at or below the diagonal.
        let mut p: usize = c;
        let mut found: bool = false;
        let mut rr: usize = c;
        while rr < n
            invariant
                c <= rr <= n,
                aug@.len() == n,
                rows_sized(aug@, n as int),
                found ==> c <= p < n,
            decreases n - rr,
        {
            if aug[rr][c] != 0 {
                p = rr;
                found = true;
                rr = n;
            } else {
                rr = rr + 1;
            }
        }
        if !found {
            return Err(CodecError::Arithmetic);
        }
        if p != c {
            let moved_up = copy_row(&aug[p]);
            let moved_down = copy_row(&aug[c]);
            aug[c] = moved_up;
            aug[p] = moved_down;
            let moved_up2 = copy_row(&inv[p]);
            let moved_down2 = copy_row(&inv[c]);
            inv[c] = moved_up2;
            inv[p] = moved_down2;
        }
        // Normalise the pivot row.
        let piv = aug[c][c];
        let pinv = match gf_inverse(piv) {
            Ok(v) => v,
            Err(_) => {
                return Err(CodecError::Arithmetic);
            },
        };
        let mut scaled: Vec<u8> = Vec::new();
        let mut j: usize = 0;
        while j < n
            invariant
                j <= n,
                scaled@.len() == j,
                aug@.len() == n,
                rows_sized(aug@, n as int),
                c < n,
            decreases n - j,
        {
            scaled.push(gf_multiply(pinv, aug[c][j]));
            j = j + 1;
        }
        aug[c] = scaled;
        let mut scaled2: Vec<u8> = Vec::new();
        let mut j2: usize = 0;
        while j2 < n
            invariant
                j2 <= n,
                scaled2@.len() == j2,
                inv@.len() == n,
                rows_sized(inv@, n as int),
                c < n,
            decreases n - j2,
        {
            scaled2.push(gf_multiply(pinv, inv[c][j2]));
            j2 = j2 + 1;
        }
        inv[c] = scaled2;
        // Clear the column everywhere else.
        let mut r2: usize = 0;
        while r2 < n
            invariant
                r2 <= n,
                aug@.len() == n,
                inv@.len() == n,
                rows_sized(aug@, n as int),
                rows_sized(inv@, n as int),
                c < n,
            decreases n - r2,
        {
            if r2 != c {
                let f = aug[r2][c];
                let mut new_aug: Vec<u8> = Vec::new();
                let mut j3: usize = 0;
                while j3 < n
                    invariant
                        j3 <= n,
                        new_aug@.len() == j3,
                        aug@.len() == n,
                        rows_sized(aug@, n as int),
                        c < n,
                        r2 < n,
                    decreases n - j3,
                {
                    new_aug.push(aug[r2][j3] ^ gf_multiply(f, aug[c][j3]));
                    j3 = j3 + 1;
                }
                aug[r2] = new_aug;
                let mut new_inv: Vec<u8> = Vec::new();
                let mut j4: usize = 0;
                while j4 < n
                    invariant
                        j4 <= n,
                        new_inv@.len() == j4,
                        inv@.len() == n,
                        rows_sized(inv@, n as int),
                        c < n,
                        r2 < n,
                    decreases n - j4,
                {
                    new_inv.push(inv[r2][j4] ^ gf_multiply(f, inv[c][j4]));
                    j4 = j4 + 1;
                }
                inv[r2] = new_inv;
            }
            r2 = r2 + 1;
        }
        c = c + 1;
    }
    if !left_product_is_identity(&inv, a, n) {
        return Err(CodecError::Arithmetic);
    }
    Ok(inv)
}

/// Whether `b * a` is the `n x n` identity, entry for entry.  This is the
/// runtime certificate behind reconstruction: a `true` answer is exactly
/// the statement that every row of `b` dots every column of `a` to the
/// matching identity entry.
pub fn left_product_is_identity(b: &Vec<Vec<u8>>, a: &Vec<Vec<u8>>, n: usize) -> (r: bool)
    requires
        b@.len() == n,
        a@.len() == n,
        rows_sized(b@, n as int),
        rows_sized(a@, n as int),
    ensures
        r <==> (forall|i: int, j: int|
            0 <= i < n && 0 <= j < n ==> #[trigger] dot(b@[i]@, column(mat_view(a@), j)) == (
            if i == j {
                1u8
            } else {
                0u8
            })),
{
    let mut i: usize = 0;
    while i < n
        invariant
            i <= n,
            b@.len() == n,
            a@.len() == n,
            rows_sized(b@, n as int),
            rows_sized(a@, n as int),
            forall|i2: int, j2: int|
                0 <= i2 < i && 0 <= j2 < n ==> #[trigger] dot(b@[i2]@, column(mat_view(a@), j2))
                    == (if i2 == j2 {
                    1u8
                } else {
                    0u8
                }),
        decreases n - i,
    {
        let mut j: usize = 0;
        while j < n
            invariant
                i < n,
                j <= n,
                b@.len() == n,
                a@.len() == n,
                rows_sized(b@, n as int),
                rows_sized(a@, n as int),
                forall|j2: int|
                    0 <= j2 < j ==> #[trigger] dot(b@[i as int]@, column(mat_view(a@), j2)) == (
                    if i == j2 {
                        1u8
                    } else {
                        0u8
                    }),
            decreases n - j,
        {
            let ghost x = b@[i as int]@;
            let ghost y = column(mat_view(a@), j as int);
            let mut acc: u8 = 0;
            let mut s: usize = 0;
            proof {
                assert(x.take(0).len() == 0);
                assert(dot(x.take(0), y.take(0)) == 0);
            }
            while s < n
                invariant
                    s <= n,
                    i < n,
                    j < n,
                    b@.len() == n,
                    a@.len() == n,
                    rows_sized(b@, n as int),
                    rows_sized(a@, n as int),
                    x == b@[i as int]@,
                    y == column(mat_view(a@), j as int),
                    acc == dot(x.take(s as int), y.take(s as int)),
                decreases n - s,
            {
                let term = gf_multiply(b[i][s], a[s][j]);
                proof {
                    assert(y[s as int] == a@[s as int]@[j as int]);
                    lemma_dot_take_step(x, y, s as int);
                }
                acc = acc ^ term;
                s = s + 1;
            }
            proof {
                lemma_dot_take_full(x, y);
            }
            let expect: u8 = if i == j {
                1
            } else {
                0
            };
            if acc != expect {
                return false;
            }
            j = j + 1;
        }
        i = i + 1;
    }
    true
}

} // verus!
