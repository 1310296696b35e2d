//! Bit-by-bit CRC-8 over fixed-size byte buffers, built on modulo-2 polynomial division.
//!
//! A buffer of `N` bytes is read as a polynomial over GF(2) of degree below `8 * N`, its
//! first byte holding the highest coefficients. The CRC of a buffer under a generator
//! byte is what long division by the generator leaves, read from the lowest byte.
use vstd::prelude::*;

pub mod gf2;
pub mod polynomial;

use crate::gf2::{
    bottom_from, degree, is_zero, lemma_below_and_divisible, lemma_below_more_significant,
    lemma_bottom_from, lemma_degree_is, lemma_degree_range, lemma_long_div_rem, lemma_mod_len,
    lemma_mod_shifted, lemma_mod_xor, lemma_multiple_span, long_div_rem, more_significant,
    poly_mod, shift_left, xor,
};
use crate::polynomial::{
    bit_of, bits_of, generator_bytes, lemma_bit_facts, lemma_bits_determine_byte,
    lemma_bits_index, lemma_bits_locate, Polynomial,
};

verus! {

/// Coefficients of the generator byte `g` widened to `n` bytes.
pub open spec fn generator(n: nat, g: u8) -> Seq<bool> {
    bits_of(generator_bytes(n, g))
}

/// What long division of `data` by the generator `g` leaves.
pub open spec fn crc_remainder(data: Seq<u8>, g: u8) -> Seq<bool> {
    long_div_rem(bits_of(data), generator(data.len(), g))
}

/// 1 for a set coefficient, 0 otherwise.
pub open spec fn bit_value(b: bool) -> u8 {
    if b {
        1u8
    } else {
        0u8
    }
}

/// The byte whose bit `j` is the coefficient of `x^j` in `p`, for `j < 8`.
pub open spec fn low_byte(p: Seq<bool>) -> u8 {
    bit_value(p[0])
        | (bit_value(p[1]) << 1u8)
        | (bit_value(p[2]) << 2u8)
        | (bit_value(p[3]) << 3u8)
        | (bit_value(p[4]) << 4u8)
        | (bit_value(p[5]) << 5u8)
        | (bit_value(p[6]) << 6u8)
        | (bit_value(p[7]) << 7u8)
}

/// The CRC of `data` under the generator `g`.
pub open spec fn crc(data: Seq<u8>, g: u8) -> u8 {
    low_byte(crc_remainder(data, g))
}

/// `data` carries a consistent check byte under `g`.
pub open spec fn crc_valid(data: Seq<u8>, g: u8) -> bool {
    crc(data, g) == 0
}

/// `data` with its last byte replaced by the check byte for the rest.
pub open spec fn crc_inserted(data: Seq<u8>, g: u8) -> Seq<u8> {
    let cleared = data.update(data.len() - 1, 0u8);
    cleared.update(data.len() - 1, g ^ crc(cleared, g))
}

proof fn lemma_low_byte_bits(b0: u8, b1: u8, b2: u8, b3: u8, b4: u8, b5: u8, b6: u8, b7: u8)
    by (bit_vector)
    requires
        b0 <= 1 && b1 <= 1 && b2 <= 1 && b3 <= 1 && b4 <= 1 && b5 <= 1 && b6 <= 1 && b7 <= 1,
    ensures
        ({
            let x = b0 | (b1 << 1u8) | (b2 << 2u8) | (b3 << 3u8) | (b4 << 4u8) | (b5 << 5u8)
                | (b6 << 6u8) | (b7 << 7u8);
            &&& ((x >> 0u8) & 1u8 == 1u8) == (b0 == 1)
            &&& ((x >> 1u8) & 1u8 == 1u8) == (b1 == 1)
            &&& ((x >> 2u8) & 1u8 == 1u8) == (b2 == 1)
            &&& ((x >> 3u8) & 1u8 == 1u8) == (b3 == 1)
            &&& ((x >> 4u8) & 1u8 == 1u8) == (b4 == 1)
            &&& ((x >> 5u8) & 1u8 == 1u8) == (b5 == 1)
            &&& ((x >> 6u8) & 1u8 == 1u8) == (b6 == 1)
            &&& ((x >> 7u8) & 1u8 == 1u8) == (b7 == 1)
        }),
{
}

proof fn lemma_nonzero_byte(g: u8)
    by (bit_vector)
    requires
        g != 0,
    ensures
        (g >> 0u8) & 1u8 == 1u8 || (g >> 1u8) & 1u8 == 1u8 || (g >> 2u8) & 1u8 == 1u8 || (g
            >> 3u8) & 1u8 == 1u8 || (g >> 4u8) & 1u8 == 1u8 || (g >> 5u8) & 1u8 == 1u8 || (g
            >> 6u8) & 1u8 == 1u8 || (g >> 7u8) & 1u8 == 1u8,
{
}

/// Bit `j` of `low_byte(p)` is the coefficient of `x^j`.
pub proof fn lemma_low_byte(p: Seq<bool>)
    requires
        p.len() >= 8,
    ensures
        forall|j: int| 0 <= j < 8 ==> bit_of(low_byte(p), j) == p[j],
{
    lemma_low_byte_bits(
        bit_value(p[0]),
        bit_value(p[1]),
        bit_value(p[2]),
        bit_value(p[3]),
        bit_value(p[4]),
        bit_value(p[5]),
        bit_value(p[6]),
        bit_value(p[7]),
    );
    assert forall|j: int| 0 <= j < 8 implies bit_of(low_byte(p), j) == p[j] by {
        if j == 0 {
        } else if j == 1 {
        } else if j == 2 {
        } else if j == 3 {
        } else if j == 4 {
        } else if j == 5 {
        } else if j == 6 {
        } else {
        }
    }
}

/// The generator occupies the lowest byte only, and is nonzero when `g` is.
pub proof fn lemma_generator(n: nat, g: u8)
    requires
        n >= 1,
    ensures
        generator(n, g).len() == 8 * n,
        forall|k: int| 8 <= k < 8 * n ==> !generator(n, g)[k],
        forall|j: int| 0 <= j < 8 ==> generator(n, g)[j] == bit_of(g, j),
        degree(generator(n, g)) < 8,
        g != 0 ==> degree(generator(n, g)) >= 0,
{
    let s = generator_bytes(n, g);
    let p = generator(n, g);
    assert forall|k: int| 8 <= k < 8 * n implies !p[k] by {
        lemma_bits_locate(s, k);
        lemma_bits_index(s, n - 1 - k / 8, k % 8);
        lemma_bit_facts(0, 0, (k % 8) as u8);
    }
    assert forall|j: int| 0 <= j < 8 implies p[j] == bit_of(g, j) by {
        lemma_bits_index(s, n - 1, j);
    }
    lemma_degree_range(p);
    if g != 0 {
        lemma_nonzero_byte(g);
        assert(p[0] || p[1] || p[2] || p[3] || p[4] || p[5] || p[6] || p[7]);
    }
}

/// The remainder lies in the lowest byte, which the CRC reads whole; it is congruent
/// to the data and below the generator.
pub proof fn lemma_crc_remainder(data: Seq<u8>, g: u8)
    requires
        data.len() >= 1,
        g != 0,
    ensures
        crc_remainder(data, g).len() == 8 * data.len(),
        forall|k: int| 8 <= k < 8 * data.len() ==> !crc_remainder(data, g)[k],
        forall|j: int| 0 <= j < 8 ==> bit_of(crc(data, g), j) == crc_remainder(data, g)[j],
        more_significant(generator(data.len(), g), crc_remainder(data, g)),
        poly_mod(crc_remainder(data, g), generator(data.len(), g)) == poly_mod(
            bits_of(data),
            generator(data.len(), g),
        ),
        crc(data, g) == 0 <==> is_zero(crc_remainder(data, g)),
{
    let gp = generator(data.len(), g);
    let r = crc_remainder(data, g);
    lemma_generator(data.len(), g);
    lemma_long_div_rem(bits_of(data), gp);
    lemma_below_more_significant(gp, r);
    lemma_low_byte(r);
    let c = crc(data, g);
    if c == 0 {
        assert forall|k: int| 0 <= k < r.len() implies !r[k] by {
            if k < 8 {
                lemma_bit_facts(0, 0, k as u8);
                assert(bit_of(c, k) == r[k]);
            }
        }
    }
    if is_zero(r) {
        assert(bit_of(c, 0) == r[0]);
        lemma_bit_facts(0, 0, 0);
        lemma_bit_facts(0, 0, 1);
        lemma_bit_facts(0, 0, 2);
        lemma_bit_facts(0, 0, 3);
        lemma_bit_facts(0, 0, 4);
        lemma_bit_facts(0, 0, 5);
        lemma_bit_facts(0, 0, 6);
        lemma_bit_facts(0, 0, 7);
        assert(!bit_of(c, 1) && !bit_of(c, 2) && !bit_of(c, 3) && !bit_of(c, 4));
        assert(!bit_of(c, 5) && !bit_of(c, 6) && !bit_of(c, 7) && !bit_of(c, 0));
        lemma_bits_determine_byte(c, 0);
    }
}

/// Get the CRC of a `data` buffer under a generator `polynomial`: the lowest byte of
/// what the long division of `data` by `polynomial` leaves.
pub fn fetch_crc8<const DATA_SIZE: usize>(data: [u8; DATA_SIZE], polynomial: u8) -> (r: u8)
    requires
        DATA_SIZE >= 1,
        DATA_SIZE <= usize::MAX / 8,
        polynomial != 0,
    ensures
        r == crc(data@, polynomial),
{
    proof {
        lemma_generator(DATA_SIZE as nat, polynomial);
        lemma_crc_remainder(data@, polynomial);
    }
    let Polynomial(result_arr) = Polynomial(data) / Polynomial::new_from_byte(polynomial);
    proof {
        let c = crc(data@, polynomial);
        let x = result_arr@[DATA_SIZE - 1];
        assert forall|j: int| 0 <= j < 8 implies bit_of(x, j) == bit_of(c, j) by {
            lemma_bits_index(result_arr@, DATA_SIZE - 1, j);
        }
        assert(bit_of(x, 0) == bit_of(c, 0) && bit_of(x, 1) == bit_of(c, 1));
        assert(bit_of(x, 2) == bit_of(c, 2) && bit_of(x, 3) == bit_of(c, 3));
        assert(bit_of(x, 4) == bit_of(c, 4) && bit_of(x, 5) == bit_of(c, 5));
        assert(bit_of(x, 6) == bit_of(c, 6) && bit_of(x, 7) == bit_of(c, 7));
        lemma_bits_determine_byte(x, c);
    }
    result_arr[DATA_SIZE - 1]
}

/// Whether `data` carries a valid CRC under the generator `polynomial`: its CRC is zero.
pub fn has_valid_crc8<const DATA_SIZE: usize>(data: [u8; DATA_SIZE], polynomial: u8) -> (r: bool)
    requires
        DATA_SIZE >= 1,
        DATA_SIZE <= usize::MAX / 8,
        polynomial != 0,
    ensures
        r == crc_valid(data@, polynomial),
{
    fetch_crc8(data, polynomial) == 0
}

/// Write into the last byte of `data` the check byte that makes the whole buffer valid
/// under the generator `polynomial`; any value it had is ignored.
pub fn insert_crc8<const DATA_SIZE: usize>(data: [u8; DATA_SIZE], polynomial: u8) -> (r: [u8; DATA_SIZE])
    requires
        DATA_SIZE >= 1,
        DATA_SIZE <= usize::MAX / 8,
        polynomial != 0,
    ensures
        r@ == crc_inserted(data@, polynomial),
        crc_valid(r@, polynomial),
{
    let mut buf = data;
    buf[DATA_SIZE - 1] = 0x00;
    buf[DATA_SIZE - 1] = polynomial ^ fetch_crc8(buf, polynomial);
    proof {
        assert(buf@ =~= crc_inserted(data@, polynomial));
        lemma_inserted_is_valid(data@, polynomial);
    }
    buf
}

/// A buffer is valid exactly when the generator divides it.
pub proof fn lemma_valid_iff_divisible(data: Seq<u8>, g: u8)
    requires
        data.len() >= 1,
        g != 0,
    ensures
        crc_valid(data, g) <==> is_zero(poly_mod(bits_of(data), generator(data.len(), g))),
{
    let gp = generator(data.len(), g);
    let r = crc_remainder(data, g);
    lemma_generator(data.len(), g);
    lemma_crc_remainder(data, g);
    if crc_valid(data, g) {
        lemma_degree_range(r);
        assert(poly_mod(r, gp) == r);
    }
    if is_zero(poly_mod(bits_of(data), gp)) {
        lemma_below_and_divisible(r, gp);
    }
}

/// Inserting the check byte makes any buffer valid under any nonzero generator.
pub proof fn lemma_inserted_is_valid(data: Seq<u8>, g: u8)
    requires
        data.len() >= 1,
        g != 0,
    ensures
        crc_valid(crc_inserted(data, g), g),
{
    let n = data.len();
    let cleared = data.update(n - 1, 0u8);
    let e = crc_inserted(data, g);
    let gp = generator(n, g);
    let r = crc_remainder(cleared, g);
    let c = crc(cleared, g);
    lemma_generator(n, g);
    lemma_crc_remainder(cleared, g);
    let sum = xor(bits_of(cleared), xor(gp, r));
    assert forall|k: int| 0 <= k < bits_of(e).len() implies bits_of(e)[k] == sum[k] by {
        lemma_bits_locate(e, k);
        let i = n - 1 - k / 8;
        let j = k % 8;
        lemma_bits_index(e, i, j);
        lemma_bits_index(cleared, i, j);
        if i == n - 1 {
            lemma_bit_facts(g, c, j as u8);
            lemma_bit_facts(0, 0, j as u8);
        }
    }
    assert(bits_of(e) =~= sum);
    assert(shift_left(gp, 0) =~= gp);
    lemma_mod_shifted(gp, 0);
    lemma_mod_xor(bits_of(cleared), xor(gp, r), gp);
    lemma_mod_xor(gp, r, gp);
    lemma_mod_len(bits_of(cleared), gp);
    lemma_mod_len(gp, gp);
    lemma_mod_len(r, gp);
    assert(is_zero(poly_mod(bits_of(e), gp)));
    lemma_valid_iff_divisible(e, g);
}

/// The CRC of a buffer whose check byte was inserted is zero.
pub proof fn lemma_inserted_crc_is_zero(data: Seq<u8>, g: u8)
    requires
        data.len() >= 1,
        g != 0,
    ensures
        crc(crc_inserted(data, g), g) == 0,
{
    lemma_inserted_is_valid(data, g);
}

/// The generator byte `g` has at least two terms.
pub open spec fn has_two_terms(g: u8) -> bool {
    exists|a: int, b: int| 0 <= a < b < 8 && #[trigger] bit_of(g, a) && #[trigger] bit_of(g, b)
}

proof fn lemma_flip_bit(x: u8, j: u8, t: u8)
    by (bit_vector)
    requires
        j < 8,
        t < 8,
    ensures
        (((x ^ (1u8 << j)) >> t) & 1u8 == 1u8) == (((x >> t) & 1u8 == 1u8) != (t == j)),
{
}

/// Flipping any one bit of a valid buffer makes it invalid, under every generator with at
/// least two terms. (A one-term generator `x^m` divides the flip of each bit at or above
/// `m`, so such flips go unnoticed.)
pub proof fn lemma_single_bit_flip_detected(data: Seq<u8>, g: u8, i: int, j: int)
    requires
        data.len() >= 1,
        has_two_terms(g),
        crc_valid(data, g),
        0 <= i < data.len(),
        0 <= j < 8,
    ensures
        !crc_valid(data.update(i, data[i] ^ (1u8 << (j as u8))), g),
{
    let n = data.len();
    let (a, b) = choose|a: int, b: int| 0 <= a < b < 8 && #[trigger] bit_of(g, a) && #[trigger] bit_of(g, b);
    assert(g != 0) by {
        lemma_bit_facts(0, 0, b as u8);
    }
    let f = data.update(i, data[i] ^ (1u8 << (j as u8)));
    let gp = generator(n, g);
    let k = 8 * (n - 1 - i) + j;
    let u = Seq::new(8 * n, |t: int| t == k);
    lemma_generator(n, g);
    lemma_bits_index(data, i, j);
    assert forall|t: int| 0 <= t < bits_of(f).len() implies bits_of(f)[t] == xor(bits_of(data), u)[t] by {
        lemma_bits_locate(f, t);
        let i2 = n - 1 - t / 8;
        lemma_bits_index(f, i2, t % 8);
        lemma_bits_index(data, i2, t % 8);
        if i2 == i {
            lemma_flip_bit(data[i], j as u8, (t % 8) as u8);
        }
    }
    assert(bits_of(f) =~= xor(bits_of(data), u));
    lemma_valid_iff_divisible(data, g);
    lemma_valid_iff_divisible(f, g);
    lemma_mod_xor(bits_of(data), u, gp);
    lemma_mod_len(bits_of(data), gp);
    lemma_mod_len(u, gp);
    if crc_valid(f, g) {
        assert(poly_mod(u, gp) =~= xor(poly_mod(bits_of(data), gp), poly_mod(bits_of(f), gp)));
        assert(is_zero(poly_mod(u, gp)));
        lemma_bottom_from(gp, 0);
        let lb = bottom_from(gp, 0);
        assert(gp[a]);
        lemma_degree_is(u, k);
        lemma_degree_range(gp);
        assert(gp[b]);
        lemma_multiple_span(u, gp, lb, k);
    }
}

} // verus!
