//! Arithmetic in GF(2^8) with the irreducible polynomial
//! x^8 + x^4 + x^3 + x^2 + 1 (0x11d).
//!
//! Addition is bitwise XOR.  Multiplication is specified by the
//! shift-and-add recursion and implemented by a loop of at most eight
//! steps; sessions precompute a full product table from it (see `codec`),
//! so the per-byte work of encoding and reconstruction is one lookup.
//! Division and inversion fail on zero with an arithmetic error.

use vstd::prelude::*;

verus! {

use crate::CodecError;

/// Multiplication by the polynomial x (0x02), reduced mod 0x11d.
pub open spec fn gf_xtime(a: u8) -> u8 {
    (a << 1) ^ (if a >= 128 { 0x1d } else { 0 })
}

/// The product of `a` and `b` in GF(2^8), by shift-and-add over the bits
/// of `b`.
pub open spec fn gf_mul(a: u8, b: u8) -> u8
    decreases b,
{
    if b == 0 {
        0
    } else {
        (if b % 2 == 1 { a } else { 0 }) ^ gf_mul(gf_xtime(a), b / 2)
    }
}

/// The smallest candidate `>= x` that multiplies with `a` to one, or zero
/// when no candidate in `x ..= 255` does.
pub open spec fn gf_inv_search(a: u8, x: u8) -> u8
    decreases 255 - x,
{
    if x == 0 {
        0
    } else if gf_mul(a, x) == 1 {
        x
    } else if x == 255 {
        0
    } else {
        gf_inv_search(a, (x + 1) as u8)
    }
}

/// The multiplicative inverse of `a`, or zero when none exists (zero has
/// no inverse).
pub open spec fn gf_inv(a: u8) -> u8 {
    if a == 0 {
        0
    } else {
        gf_inv_search(a, 1)
    }
}

/// Commutativity, associativity and the unit of XOR on bytes.
pub proof fn lemma_xor_facts()
    by (bit_vector)
    ensures
        forall|x: u8, y: u8| #[trigger] (x ^ y) == (y ^ x),
        forall|x: u8, y: u8, z: u8| #[trigger] ((x ^ y) ^ z) == (x ^ (y ^ z)),
        forall|x: u8| #[trigger] (x ^ 0) == x,
        forall|x: u8, y: u8| (#[trigger] (x ^ y) == 0 <==> x == y),
{
}

/// Field addition: bitwise XOR of the two bytes.
pub fn gf_add(a: u8, b: u8) -> (r: u8)
    ensures
        r == (a ^ b),
{
    a ^ b
}

/// Field multiplication: the shift-and-add loop.
pub fn gf_multiply(a: u8, b: u8) -> (r: u8)
    ensures
        r == gf_mul(a, b),
{
    let mut acc: u8 = 0;
    let mut x: u8 = a;
    let mut y: u8 = b;
    proof {
        lemma_xor_facts();
        assert(0u8 ^ gf_mul(a, b) == gf_mul(a, b));
    }
    while y != 0
        invariant
            gf_mul(a, b) == acc ^ gf_mul(x, y),
        decreases y,
    {
        proof {
            lemma_xor_facts();
        }
        if y % 2 == 1 {
            acc = acc ^ x;
        }
        x = if x >= 128 {
            (x << 1) ^ 0x1d
        } else {
            x << 1
        };
        y = y / 2;
    }
    proof {
        lemma_xor_facts();
        assert(acc ^ gf_mul(x, 0) == acc ^ 0);
        assert(acc ^ 0 == acc);
    }
    acc
}

pub proof fn lemma_gf_mul_zero_left(b: u8)
    ensures
        gf_mul(0, b) == 0,
    decreases b,
{
    lemma_xor_facts();
    if b != 0 {
        assert(gf_xtime(0) == 0) by (bit_vector);
        lemma_gf_mul_zero_left(b / 2);
    }
}

pub proof fn lemma_xtime_linear(x: u8, y: u8)
    by (bit_vector)
    ensures
        gf_xtime(x ^ y) == gf_xtime(x) ^ gf_xtime(y),
{
}

/// Multiplying a doubled element is doubling the product.
pub proof fn lemma_gf_mul_xtime(x: u8, y: u8)
    ensures
        gf_mul(gf_xtime(x), y) == gf_xtime(gf_mul(x, y)),
    decreases y,
{
    lemma_xor_facts();
    if y == 0 {
        assert(gf_xtime(0) == 0) by (bit_vector);
    } else {
        lemma_gf_mul_xtime(gf_xtime(x), y / 2);
        lemma_xtime_linear(
            if y % 2 == 1 { x } else { 0u8 },
            gf_mul(gf_xtime(x), y / 2),
        );
        assert(gf_xtime(0) == 0) by (bit_vector);
    }
}

pub proof fn lemma_gf_mul_one_left(b: u8)
    ensures
        gf_mul(1, b) == b,
    decreases b,
{
    lemma_xor_facts();
    if b != 0 {
        lemma_gf_mul_one_left(b / 2);
        lemma_gf_mul_xtime(1, b / 2);
        assert((if b % 2 == 1 { 1u8 } else { 0u8 }) ^ gf_xtime(b / 2) == b) by (bit_vector);
    }
}

pub proof fn lemma_gf_mul_one_right(a: u8)
    ensures
        gf_mul(a, 1) == a,
{
    let t = gf_mul(gf_xtime(a), 0);
    assert(t == 0);
    assert(a ^ t == a) by (bit_vector)
        requires
            t == 0,
    ;
}

/// Multiplication distributes over XOR in its second argument.
pub proof fn lemma_gf_mul_dist_right(a: u8, b: u8, c: u8)
    ensures
        gf_mul(a, b ^ c) == gf_mul(a, b) ^ gf_mul(a, c),
    decreases b + c,
{
    lemma_xor_facts();
    if b == 0 {
        assert((0u8 ^ c) == c);
    } else if c == 0 {
        assert((b ^ 0) == b);
    } else if b == c {
        assert((b ^ c) == 0);
    } else {
        assert((b ^ c) != 0);
        lemma_gf_mul_dist_right(gf_xtime(a), b / 2, c / 2);
        assert((b ^ c) / 2 == (b / 2) ^ (c / 2)) by (bit_vector);
        assert(((b ^ c) % 2 == 1) <==> ((b % 2 == 1) != (c % 2 == 1))) by (bit_vector);
    }
}

/// Multiplication distributes over XOR in its first argument.
pub proof fn lemma_gf_mul_dist_left(a: u8, b: u8, c: u8)
    ensures
        gf_mul(a ^ b, c) == gf_mul(a, c) ^ gf_mul(b, c),
    decreases c,
{
    lemma_xor_facts();
    if c != 0 {
        lemma_xtime_linear(a, b);
        lemma_gf_mul_dist_left(gf_xtime(a), gf_xtime(b), c / 2);
    }
}

/// The product also satisfies the shift-and-add recursion over the bits of
/// its first argument.
pub proof fn lemma_gf_mul_first_arg(a: u8, b: u8)
    ensures
        gf_mul(a, b) == (if a % 2 == 1 { b } else { 0 }) ^ gf_xtime(gf_mul(a / 2, b)),
{
    lemma_xor_facts();
    let low: u8 = if a % 2 == 1 { 1u8 } else { 0u8 };
    assert(a == ((a / 2) << 1) ^ (if a % 2 == 1 { 1u8 } else { 0u8 })) by (bit_vector);
    assert(gf_xtime(a / 2) == ((a / 2) << 1)) by (bit_vector);
    lemma_gf_mul_dist_left(gf_xtime(a / 2), low, b);
    lemma_gf_mul_xtime(a / 2, b);
    if a % 2 == 1 {
        lemma_gf_mul_one_left(b);
    } else {
        lemma_gf_mul_zero_left(b);
    }
}

pub proof fn lemma_gf_mul_comm(a: u8, b: u8)
    ensures
        gf_mul(a, b) == gf_mul(b, a),
    decreases a,
{
    lemma_xor_facts();
    if a == 0 {
        lemma_gf_mul_zero_left(b);
    } else {
        lemma_gf_mul_first_arg(a, b);
        lemma_gf_mul_comm(a / 2, b);
        lemma_gf_mul_xtime(b, a / 2);
    }
}

pub proof fn lemma_gf_mul_assoc(a: u8, b: u8, c: u8)
    ensures
        gf_mul(gf_mul(a, b), c) == gf_mul(a, gf_mul(b, c)),
    decreases c,
{
    lemma_xor_facts();
    if c != 0 {
        let mbc2 = gf_mul(b, c / 2);
        lemma_gf_mul_xtime(a, b);
        lemma_gf_mul_assoc(gf_xtime(a), b, c / 2);
        lemma_gf_mul_xtime(a, mbc2);
        lemma_gf_mul_dist_right(a, if c % 2 == 1 { b } else { 0u8 }, gf_mul(gf_xtime(b), c / 2));
        lemma_gf_mul_xtime(b, c / 2);
        lemma_gf_mul_comm(a, gf_xtime(mbc2));
        lemma_gf_mul_xtime(mbc2, a);
        lemma_gf_mul_comm(mbc2, a);
    }
}

/// The product written out bit by bit: one term per bit of `b`.  This is
/// `gf_mul` with the recursion unrolled, a form the bit-vector solver can
/// inline; `lemma_gf_mul_unrolled` ties the two together.
spec fn gf_mul_unrolled(a: u8, b: u8) -> u8 {
    (if b & 1 != 0 { a } else { 0 }) ^ (if b & 2 != 0 { gf_xtime(a) } else { 0 }) ^ (if b & 4 != 0 {
        gf_xtime(gf_xtime(a))
    } else {
        0
    }) ^ (if b & 8 != 0 {
        gf_xtime(gf_xtime(gf_xtime(a)))
    } else {
        0
    }) ^ (if b & 16 != 0 {
        gf_xtime(gf_xtime(gf_xtime(gf_xtime(a))))
    } else {
        0
    }) ^ (if b & 32 != 0 {
        gf_xtime(gf_xtime(gf_xtime(gf_xtime(gf_xtime(a)))))
    } else {
        0
    }) ^ (if b & 64 != 0 {
        gf_xtime(gf_xtime(gf_xtime(gf_xtime(gf_xtime(gf_xtime(a))))))
    } else {
        0
    }) ^ (if b & 128 != 0 {
        gf_xtime(gf_xtime(gf_xtime(gf_xtime(gf_xtime(gf_xtime(gf_xtime(a)))))))
    } else {
        0
    })
}

/// The unrolled product satisfies the same one-bit recursion as `gf_mul`.
proof fn lemma_unrolled_step(a: u8, b: u8)
    by (bit_vector)
    ensures
        gf_mul_unrolled(a, b) == (if b % 2 == 1 { a } else { 0 }) ^ gf_mul_unrolled(
            gf_xtime(a),
            b / 2,
        ),
{
}

proof fn lemma_gf_mul_unrolled(a: u8, b: u8)
    ensures
        gf_mul(a, b) == gf_mul_unrolled(a, b),
    decreases b,
{
    if b == 0 {
        assert(gf_mul_unrolled(a, 0) == 0) by (bit_vector);
    } else {
        lemma_gf_mul_unrolled(gf_xtime(a), b / 2);
        lemma_unrolled_step(a, b);
    }
}

/// A candidate no larger than a known inverse is never passed over: the
/// search reports an inverse whenever one exists.
proof fn lemma_search_finds(a: u8, x: u8, b0: u8)
    requires
        1 <= x <= b0,
        gf_mul(a, b0) == 1,
    ensures
        gf_inv_search(a, x) != 0,
        gf_mul(a, gf_inv_search(a, x)) == 1,
    decreases b0 - x,
{
    if gf_mul(a, x) != 1 {
        lemma_search_finds(a, (x + 1) as u8, b0);
    }
}

/// The inverse of each nonzero byte, written out as a table; the lemma
/// below holds every entry to the product definition.
spec fn gf_inv_witness(a: u8) -> u8 {
    match a {
        1u8 => 1u8,
        2u8 => 142u8,
        3u8 => 244u8,
        4u8 => 71u8,
        5u8 => 167u8,
        6u8 => 122u8,
        7u8 => 186u8,
        8u8 => 173u8,
        9u8 => 157u8,
        10u8 => 221u8,
        11u8 => 152u8,
        12u8 => 61u8,
        13u8 => 170u8,
        14u8 => 93u8,
        15u8 => 150u8,
        16u8 => 216u8,
        17u8 => 114u8,
        18u8 => 192u8,
        19u8 => 88u8,
        20u8 => 224u8,
        21u8 => 62u8,
        22u8 => 76u8,
        23u8 => 102u8,
        24u8 => 144u8,
        25u8 => 222u8,
        26u8 => 85u8,
        27u8 => 128u8,
        28u8 => 160u8,
        29u8 => 131u8,
        30u8 => 75u8,
        31u8 => 42u8,
        32u8 => 108u8,
        33u8 => 237u8,
        34u8 => 57u8,
        35u8 => 81u8,
        36u8 => 96u8,
        37u8 => 86u8,
        38u8 => 44u8,
        39u8 => 138u8,
        40u8 => 112u8,
        41u8 => 208u8,
        42u8 => 31u8,
        43u8 => 74u8,
        44u8 => 38u8,
        45u8 => 139u8,
        46u8 => 51u8,
        47u8 => 110u8,
        48u8 => 72u8,
        49u8 => 137u8,
        50u8 => 111u8,
        51u8 => 46u8,
        52u8 => 164u8,
        53u8 => 195u8,
        54u8 => 64u8,
        55u8 => 94u8,
        56u8 => 80u8,
        57u8 => 34u8,
        58u8 => 207u8,
        59u8 => 169u8,
        60u8 => 171u8,
        61u8 => 12u8,
        62u8 => 21u8,
        63u8 => 225u8,
        64u8 => 54u8,
        65u8 => 95u8,
        66u8 => 248u8,
        67u8 => 213u8,
        68u8 => 146u8,
        69u8 => 78u8,
        70u8 => 166u8,
        71u8 => 4u8,
        72u8 => 48u8,
        73u8 => 136u8,
        74u8 => 43u8,
        75u8 => 30u8,
        76u8 => 22u8,
        77u8 => 103u8,
        78u8 => 69u8,
        79u8 => 147u8,
        80u8 => 56u8,
        81u8 => 35u8,
        82u8 => 104u8,
        83u8 => 140u8,
        84u8 => 129u8,
        85u8 => 26u8,
        86u8 => 37u8,
        87u8 => 97u8,
        88u8 => 19u8,
        89u8 => 193u8,
        90u8 => 203u8,
        91u8 => 99u8,
        92u8 => 151u8,
        93u8 => 14u8,
        94u8 => 55u8,
        95u8 => 65u8,
        96u8 => 36u8,
        97u8 => 87u8,
        98u8 => 202u8,
        99u8 => 91u8,
        100u8 => 185u8,
        101u8 => 196u8,
        102u8 => 23u8,
        103u8 => 77u8,
        104u8 => 82u8,
        105u8 => 141u8,
        106u8 => 239u8,
        107u8 => 179u8,
        108u8 => 32u8,
        109u8 => 236u8,
        110u8 => 47u8,
        111u8 => 50u8,
        112u8 => 40u8,
        113u8 => 209u8,
        114u8 => 17u8,
        115u8 => 217u8,
        116u8 => 233u8,
        117u8 => 251u8,
        118u8 => 218u8,
        119u8 => 121u8,
        120u8 => 219u8,
        121u8 => 119u8,
        122u8 => 6u8,
        123u8 => 187u8,
        124u8 => 132u8,
        125u8 => 205u8,
        126u8 => 254u8,
        127u8 => 252u8,
        128u8 => 27u8,
        129u8 => 84u8,
        130u8 => 161u8,
        131u8 => 29u8,
        132u8 => 124u8,
        133u8 => 204u8,
        134u8 => 228u8,
        135u8 => 176u8,
        136u8 => 73u8,
        137u8 => 49u8,
        138u8 => 39u8,
        139u8 => 45u8,
        140u8 => 83u8,
        141u8 => 105u8,
        142u8 => 2u8,
        143u8 => 245u8,
        144u8 => 24u8,
        145u8 => 223u8,
        146u8 => 68u8,
        147u8 => 79u8,
        148u8 => 155u8,
        149u8 => 188u8,
        150u8 => 15u8,
        151u8 => 92u8,
        152u8 => 11u8,
        153u8 => 220u8,
        154u8 => 189u8,
        155u8 => 148u8,
        156u8 => 172u8,
        157u8 => 9u8,
        158u8 => 199u8,
        159u8 => 162u8,
        160u8 => 28u8,
        161u8 => 130u8,
        162u8 => 159u8,
        163u8 => 198u8,
        164u8 => 52u8,
        165u8 => 194u8,
        166u8 => 70u8,
        167u8 => 5u8,
        168u8 => 206u8,
        169u8 => 59u8,
        170u8 => 13u8,
        171u8 => 60u8,
        172u8 => 156u8,
        173u8 => 8u8,
        174u8 => 190u8,
        175u8 => 183u8,
        176u8 => 135u8,
        177u8 => 229u8,
        178u8 => 238u8,
        179u8 => 107u8,
        180u8 => 235u8,
        181u8 => 242u8,
        182u8 => 191u8,
        183u8 => 175u8,
        184u8 => 197u8,
        185u8 => 100u8,
        186u8 => 7u8,
        187u8 => 123u8,
        188u8 => 149u8,
        189u8 => 154u8,
        190u8 => 174u8,
        191u8 => 182u8,
        192u8 => 18u8,
        193u8 => 89u8,
        194u8 => 165u8,
        195u8 => 53u8,
        196u8 => 101u8,
        197u8 => 184u8,
        198u8 => 163u8,
        199u8 => 158u8,
        200u8 => 210u8,
        201u8 => 247u8,
        202u8 => 98u8,
        203u8 => 90u8,
        204u8 => 133u8,
        205u8 => 125u8,
        206u8 => 168u8,
        207u8 => 58u8,
        208u8 => 41u8,
        209u8 => 113u8,
        210u8 => 200u8,
        211u8 => 246u8,
        212u8 => 249u8,
        213u8 => 67u8,
        214u8 => 215u8,
        215u8 => 214u8,
        216u8 => 16u8,
        217u8 => 115u8,
        218u8 => 118u8,
        219u8 => 120u8,
        220u8 => 153u8,
        221u8 => 10u8,
        222u8 => 25u8,
        223u8 => 145u8,
        224u8 => 20u8,
        225u8 => 63u8,
        226u8 => 230u8,
        227u8 => 240u8,
        228u8 => 134u8,
        229u8 => 177u8,
        230u8 => 226u8,
        231u8 => 241u8,
        232u8 => 250u8,
        233u8 => 116u8,
        234u8 => 243u8,
        235u8 => 180u8,
        236u8 => 109u8,
        237u8 => 33u8,
        238u8 => 178u8,
        239u8 => 106u8,
        240u8 => 227u8,
        241u8 => 231u8,
        242u8 => 181u8,
        243u8 => 234u8,
        244u8 => 3u8,
        245u8 => 143u8,
        246u8 => 211u8,
        247u8 => 201u8,
        248u8 => 66u8,
        249u8 => 212u8,
        250u8 => 232u8,
        251u8 => 117u8,
        252u8 => 127u8,
        253u8 => 255u8,
        254u8 => 126u8,
        255u8 => 253u8,
        _ => 0u8,
    }
}

/// GF(2^8) under 0x11d is a field: every nonzero byte has a
/// multiplicative inverse, and the search spec reports it.
#[verifier::rlimit(100)]
pub proof fn lemma_gf_has_inverse(a: u8)
    requires
        a != 0,
    ensures
        gf_inv(a) != 0,
        gf_mul(a, gf_inv(a)) == 1,
{
    assert(gf_mul_unrolled(a, gf_inv_witness(a)) == 1) by (bit_vector)
        requires
            a != 0,
    ;
    let b0 = gf_inv_witness(a);
    lemma_gf_mul_unrolled(a, b0);
    assert(gf_mul(a, b0) == 1);
    assert(b0 != 0);
    lemma_search_finds(a, 1, b0);
}

/// Multiplicative inverse.  Fails with an arithmetic error exactly on zero
/// (no other byte of this field lacks an inverse: `lemma_gf_has_inverse`).
pub fn gf_inverse(a: u8) -> (r: Result<u8, CodecError>)
    ensures
        r is Ok <==> a != 0,
        a != 0 ==> r == Ok::<u8, CodecError>(gf_inv(a)) && gf_mul(a, gf_inv(a)) == 1 && gf_inv(a)
            != 0,
        a == 0 ==> r == Err::<u8, CodecError>(CodecError::Arithmetic),
{
    if a == 0 {
        return Err(CodecError::Arithmetic);
    }
    let mut i: usize = 1;
    while i < 256
        invariant
            1 <= i <= 256,
            a != 0,
            gf_inv(a) == (if i <= 255 { gf_inv_search(a, i as u8) } else { 0u8 }),
            forall|y: u8| 1 <= y < i ==> gf_mul(a, y) != 1,
        decreases 256 - i,
    {
        let p = gf_multiply(a, i as u8);
        if p == 1 {
            return Ok(i as u8);
        }
        i = i + 1;
    }
    // Unreachable: every nonzero byte of the field has an inverse, so the
    // search above cannot have run out of candidates.
    proof {
        lemma_gf_has_inverse(a);
        assert(false);
    }
    Err(CodecError::Arithmetic)
}

/// Field division: `a` times the inverse of `b`.  Division by zero fails
/// with an arithmetic error.
pub fn gf_divide(a: u8, b: u8) -> (r: Result<u8, CodecError>)
    ensures
        r is Ok <==> b != 0,
        b != 0 ==> r == Ok::<u8, CodecError>(gf_mul(a, gf_inv(b))) && gf_mul(r.unwrap(), b) == a,
        b == 0 ==> r == Err::<u8, CodecError>(CodecError::Arithmetic),
{
    match gf_inverse(b) {
        Ok(ib) => {
            let q = gf_multiply(a, ib);
            proof {
                lemma_gf_mul_assoc(a, gf_inv(b), b);
                lemma_gf_mul_comm(gf_inv(b), b);
                lemma_gf_mul_one_right(a);
            }
            Ok(q)
        },
        Err(_) => Err(CodecError::Arithmetic),
    }
}

} // verus!
