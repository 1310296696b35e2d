//! A fixed-width polynomial over GF(2) held as big-endian bytes: byte 0 carries the
//! highest coefficients, bit 0 of the last byte the coefficient of `x^0`.
use vstd::prelude::*;

use crate::gf2::{
    agree_above, degree, lemma_degree_is, lemma_degree_range, lemma_long_div_rem,
    lemma_not_more_significant, lemma_reduce_step, long_div_rem, more_significant, poly_mod,
    reduce_step, shift_left, xor,
};

verus! {

/// Bit `j` (0 = least significant) of a byte.
pub open spec fn bit_of(x: u8, j: int) -> bool {
    (x >> (j as u8)) & 1u8 == 1u8
}

/// Coefficients of the polynomial that the big-endian bytes `s` stand for.
pub open spec fn bits_of(s: Seq<u8>) -> Seq<bool> {
    Seq::new(8 * s.len(), |k: int| bit_of(s[s.len() - 1 - k / 8], k % 8))
}

/// The `n`-byte polynomial with generator byte `g` in its lowest byte.
pub open spec fn generator_bytes(n: nat, g: u8) -> Seq<u8> {
    Seq::new(n, |i: int| if i == n - 1 { g } else { 0u8 })
}

pub(crate) proof fn lemma_bit_facts(x: u8, y: u8, j: u8)
    by (bit_vector)
    requires
        j < 8,
    ensures
        (0u8 >> j) & 1u8 != 1u8,
        ((x ^ y) >> j) & 1u8 == 1u8 <==> (((x >> j) & 1u8 == 1u8) != ((y >> j) & 1u8 == 1u8)),
        (x & (1u8 << j)) != 0u8 <==> (x >> j) & 1u8 == 1u8,
{
}

pub(crate) proof fn lemma_bits_determine_byte(x: u8, y: u8)
    by (bit_vector)
    requires
        ((x >> 0u8) & 1u8 == 1u8) == ((y >> 0u8) & 1u8 == 1u8),
        ((x >> 1u8) & 1u8 == 1u8) == ((y >> 1u8) & 1u8 == 1u8),
        ((x >> 2u8) & 1u8 == 1u8) == ((y >> 2u8) & 1u8 == 1u8),
        ((x >> 3u8) & 1u8 == 1u8) == ((y >> 3u8) & 1u8 == 1u8),
        ((x >> 4u8) & 1u8 == 1u8) == ((y >> 4u8) & 1u8 == 1u8),
        ((x >> 5u8) & 1u8 == 1u8) == ((y >> 5u8) & 1u8 == 1u8),
        ((x >> 6u8) & 1u8 == 1u8) == ((y >> 6u8) & 1u8 == 1u8),
        ((x >> 7u8) & 1u8 == 1u8) == ((y >> 7u8) & 1u8 == 1u8),
    ensures
        x == y,
{
}

/// Bit `j` of byte `i` is the coefficient of `x^(8 * (len - 1 - i) + j)`.
pub proof fn lemma_bits_index(s: Seq<u8>, i: int, j: int)
    requires
        0 <= i < s.len(),
        0 <= j < 8,
    ensures
        0 <= 8 * (s.len() - 1 - i) + j < bits_of(s).len(),
        bits_of(s)[8 * (s.len() - 1 - i) + j] == bit_of(s[i], j),
{
    let k = 8 * (s.len() - 1 - i) + j;
    assert(k / 8 == s.len() - 1 - i);
    assert(k % 8 == j);
}

/// Each coefficient lies in one byte, at one bit.
pub proof fn lemma_bits_locate(s: Seq<u8>, k: int)
    requires
        0 <= k < bits_of(s).len(),
    ensures
        0 <= s.len() - 1 - k / 8 < s.len(),
        0 <= k % 8 < 8,
        k == 8 * (s.len() - 1 - (s.len() - 1 - k / 8)) + k % 8,
{
}

/// Byte sequences of one length with the same coefficients are equal.
pub proof fn lemma_bits_injective(s: Seq<u8>, t: Seq<u8>)
    requires
        s.len() == t.len(),
        bits_of(s) == bits_of(t),
    ensures
        s == t,
{
    assert forall|i: int| 0 <= i < s.len() implies s[i] == t[i] by {
        assert forall|j: int| 0 <= j < 8 implies bit_of(s[i], j) == bit_of(t[i], j) by {
            lemma_bits_index(s, i, j);
            lemma_bits_index(t, i, j);
        }
        assert(bit_of(s[i], 0) == bit_of(t[i], 0));
        assert(bit_of(s[i], 1) == bit_of(t[i], 1));
        assert(bit_of(s[i], 2) == bit_of(t[i], 2));
        assert(bit_of(s[i], 3) == bit_of(t[i], 3));
        assert(bit_of(s[i], 4) == bit_of(t[i], 4));
        assert(bit_of(s[i], 5) == bit_of(t[i], 5));
        assert(bit_of(s[i], 6) == bit_of(t[i], 6));
        assert(bit_of(s[i], 7) == bit_of(t[i], 7));
        lemma_bits_determine_byte(s[i], t[i]);
    }
    assert(s =~= t);
}

/// Where `q` has the first differing bit, `p` is not the more significant.
proof fn lemma_first_difference(p: Seq<bool>, q: Seq<bool>, k: int)
    requires
        p.len() == q.len(),
        0 <= k < p.len(),
        !p[k],
        q[k],
        agree_above(p, q, k),
    ensures
        !more_significant(p, q),
{
    if more_significant(p, q) {
        let k2 = choose|k2: int| 0 <= k2 < p.len() && p[k2] && !q[k2] && #[trigger] agree_above(p, q, k2);
        if k2 > k {
            assert(p[k2] == q[k2]);
        } else if k2 < k {
            assert(p[k] == q[k]);
        }
    }
}

proof fn lemma_shift_byte(x: u8, y: u8, s: u8, j: u8)
    by (bit_vector)
    requires
        0 < s < 8,
        j < 8,
    ensures
        ((((x << s) | (y >> (8 - s) as u8)) >> j) & 1u8 == 1u8) == if j >= s {
            (x >> (j - s) as u8) & 1u8 == 1u8
        } else {
            (y >> (j + 8 - s) as u8) & 1u8 == 1u8
        },
        (((x << s) >> j) & 1u8 == 1u8) == (j >= s && (x >> (j - s) as u8) & 1u8 == 1u8),
{
}

/// Shifting each byte by `s` bits and carrying in its lower neighbour's top bits
/// multiplies the polynomial by `x^s`.
proof fn lemma_shift_bits(a: Seq<u8>, r: Seq<u8>, s: u8)
    requires
        0 < s < 8,
        a.len() == r.len() > 0,
        forall|j: int|
            0 <= j < r.len() - 1 ==> r[j] == (a[j] << s) | (a[j + 1] >> (8 - s) as u8),
        r[r.len() - 1] == a[a.len() - 1] << s,
    ensures
        bits_of(r) == shift_left(bits_of(a), s as int),
{
    let t = shift_left(bits_of(a), s as int);
    assert forall|k: int| 0 <= k < bits_of(r).len() implies bits_of(r)[k] == t[k] by {
        lemma_bits_locate(r, k);
        let i = r.len() - 1 - k / 8;
        let j = k % 8;
        lemma_bits_index(r, i, j);
        lemma_shift_byte(a[i], if i + 1 < a.len() { a[i + 1] } else { 0u8 }, s, j as u8);
        if j >= s {
            lemma_bits_index(a, i, j - s);
        } else if i + 1 < a.len() {
            lemma_bits_index(a, i + 1, j + 8 - s);
        }
    }
    assert(bits_of(r) =~= t);
}

/// A polynomial of degree below `8 * MAX_BYTES`, stored in `MAX_BYTES` big-endian bytes.
#[derive(Debug, Clone, Copy, PartialEq)]
pub struct Polynomial<const MAX_BYTES: usize>(pub [u8; MAX_BYTES]);

impl<const MAX_BYTES: usize> View for Polynomial<MAX_BYTES> {
    type V = Seq<bool>;

    /// The coefficients, `self@[k]` being that of `x^k`.
    open spec fn view(&self) -> Seq<bool> {
        bits_of(self.0@)
    }
}

impl<const MAX_BYTES: usize> Polynomial<MAX_BYTES> {
    /// The polynomial with coefficients `c`; one exists when `c` has `8 * MAX_BYTES` of them.
    pub open spec fn from_coeffs(c: Seq<bool>) -> Self {
        choose|p: Self| p@ == c
    }

    /// A polynomial is determined by its coefficients.
    pub proof fn lemma_from_coeffs(p: Self)
        ensures
            Self::from_coeffs(p@) == p,
    {
        let q = Self::from_coeffs(p@);
        assert(q@ == p@);
        lemma_bits_injective(q.0@, p.0@);
        assert(q.0 =~= p.0);
    }

    /// Shift all the bytes over by `n` positions towards the most significant end,
    /// filling with zero bytes: the polynomial times `x^(8n)`, truncated.
    pub fn rotate_left(&self, n: usize) -> (r: Self)
        ensures
            forall|i: int|
                0 <= i < MAX_BYTES ==> r.0@[i] == if i + n < MAX_BYTES {
                    self.0@[i + n]
                } else {
                    0u8
                },
            r@ == shift_left(self@, 8 * n),
    {
        if n >= MAX_BYTES {
            let r = Polynomial([0u8; MAX_BYTES]);
            proof { self.lemma_rotated_bits(r, n); }
            return r;
        }
        let mut arr = self.0;
        for i in 0..(MAX_BYTES - n)
            invariant
                n < MAX_BYTES,
                forall|j: int| 0 <= j < i ==> arr@[j] == self.0@[j + n],
                forall|j: int| i <= j < MAX_BYTES ==> arr@[j] == self.0@[j],
        {
            arr[i] = arr[i + n];
        }
        for i in (MAX_BYTES - n)..MAX_BYTES
            invariant
                n < MAX_BYTES,
                forall|j: int| 0 <= j < MAX_BYTES - n ==> arr@[j] == self.0@[j + n],
                forall|j: int| MAX_BYTES - n <= j < i ==> arr@[j] == 0u8,
        {
            arr[i] = 0x00;
        }
        let r = Polynomial(arr);
        proof { self.lemma_rotated_bits(r, n); }
        r
    }

    proof fn lemma_rotated_bits(self, r: Self, n: usize)
        requires
            forall|i: int|
                0 <= i < MAX_BYTES ==> r.0@[i] == if i + n < MAX_BYTES {
                    self.0@[i + n]
                } else {
                    0u8
                },
        ensures
            r@ == shift_left(self@, 8 * n),
    {
        let s = shift_left(self@, 8 * n);
        assert forall|k: int| 0 <= k < r@.len() implies r@[k] == s[k] by {
            lemma_bits_locate(r.0@, k);
            let i = MAX_BYTES - 1 - k / 8;
            lemma_bits_index(r.0@, i, k % 8);
            lemma_bit_facts(0, 0, (k % 8) as u8);
            if i + n < MAX_BYTES {
                lemma_bits_index(self.0@, i + n, k % 8);
            }
        }
        assert(r@ =~= s);
    }

    /// Index of the most significant set bit, counting from 0 at the least significant
    /// bit: the degree. The zero polynomial gives 0.
    pub fn bit_len(&self) -> (r: usize)
        requires
            MAX_BYTES <= usize::MAX / 8,
        ensures
            r == if degree(self@) >= 0 {
                degree(self@)
            } else {
                0
            },
    {
        let arr = self.0;
        for byte_index in 0..MAX_BYTES
            invariant
                arr == self.0,
                MAX_BYTES <= usize::MAX / 8,
                forall|k: int| 8 * (MAX_BYTES - byte_index) <= k < 8 * MAX_BYTES ==> !self@[k],
        {
            let byte = arr[byte_index];
            for bit_index in 0u8..8u8
                invariant
                    arr == self.0,
                    byte == self.0@[byte_index as int],
                    byte_index < MAX_BYTES <= usize::MAX / 8,
                    forall|k: int|
                        8 * (MAX_BYTES - byte_index) - bit_index <= k < 8 * MAX_BYTES
                            ==> !self@[k],
            {
                proof {
                    lemma_bit_facts(byte, 0, (7 - bit_index) as u8);
                    lemma_bits_index(self.0@, byte_index as int, 7 - bit_index);
                }
                if byte & (0x01u8 << (7 - bit_index)) != 0 {
                    proof {
                        lemma_degree_is(self@, 8 * (MAX_BYTES - 1 - byte_index) + 7 - bit_index);
                    }
                    return (MAX_BYTES * 8) - (byte_index * 8 + bit_index as usize) - 1;
                }
            }
        }
        proof {
            lemma_degree_is(self@, -1);
        }
        0
    }

    /// Whether `self` has a set bit that `cmp` lacks at the most significant position where
    /// the two differ: read as big-endian binary numbers, `self` is the greater. Equal
    /// polynomials give `false`.
    pub fn is_more_sign(&self, cmp: Self) -> (r: bool)
        ensures
            r == more_significant(self@, cmp@),
    {
        let self_arr = self.0;
        let cmp_arr = cmp.0;
        for byte_index in 0..MAX_BYTES
            invariant
                self_arr == self.0,
                cmp_arr == cmp.0,
                agree_above(self@, cmp@, 8 * (MAX_BYTES - byte_index) - 1),
        {
            let self_byte = self_arr[byte_index];
            let cmp_byte = cmp_arr[byte_index];
            let ghost low = 8 * (MAX_BYTES - 1 - byte_index);
            // Bytes that are equal agree on every bit; otherwise look for the first differing bit.
            let mut bit_index: u8 = if self_byte == cmp_byte { 0 } else { 8 };
            proof {
                if self_byte == cmp_byte {
                    assert forall|k: int| low <= k < low + 8 implies self@[k] == cmp@[k] by {
                        lemma_bits_index(self.0@, byte_index as int, k - low);
                        lemma_bits_index(cmp.0@, byte_index as int, k - low);
                    }
                }
            }
            while bit_index > 0
                invariant
                    self_arr == self.0,
                    cmp_arr == cmp.0,
                    byte_index < MAX_BYTES,
                    low == 8 * (MAX_BYTES - 1 - byte_index),
                    self_byte == self.0@[byte_index as int],
                    cmp_byte == cmp.0@[byte_index as int],
                    bit_index <= 8,
                    agree_above(self@, cmp@, low + bit_index - 1),
                decreases bit_index,
            {
                bit_index = bit_index - 1;
                let self_has_bit = self_byte & (0x01u8 << bit_index) != 0;
                let cmp_has_bit = cmp_byte & (0x01u8 << bit_index) != 0;
                let ghost k = low + bit_index;
                proof {
                    lemma_bit_facts(self_byte, 0, bit_index);
                    lemma_bit_facts(cmp_byte, 0, bit_index);
                    lemma_bits_index(self.0@, byte_index as int, bit_index as int);
                    lemma_bits_index(cmp.0@, byte_index as int, bit_index as int);
                }
                if self_has_bit == cmp_has_bit {
                    continue;
                }
                proof {
                    if self_has_bit {
                        assert(agree_above(self@, cmp@, k));
                    } else {
                        lemma_first_difference(self@, cmp@, k);
                    }
                }
                return self_has_bit;
            }
        }
        proof {
            if more_significant(self@, cmp@) {
                let k = choose|k: int|
                    0 <= k < self@.len() && self@[k] && !cmp@[k] && #[trigger] agree_above(
                        self@,
                        cmp@,
                        k,
                    );
                assert(self@[k] == cmp@[k]);
            }
        }
        false
    }

    /// The polynomial with `byte` in its lowest byte and zero elsewhere.
    pub fn new_from_byte(byte: u8) -> (r: Self)
        requires
            MAX_BYTES >= 1,
        ensures
            r.0@ == generator_bytes(MAX_BYTES as nat, byte),
    {
        let mut arr = [0x00u8; MAX_BYTES];
        arr[MAX_BYTES - 1] = byte;
        let r = Polynomial(arr);
        assert(r.0@ =~= generator_bytes(MAX_BYTES as nat, byte));
        r
    }
}

impl<const MAX_BYTES: usize> vstd::std_specs::ops::ShlSpecImpl<usize> for Polynomial<MAX_BYTES> {
    open spec fn obeys_shl_spec() -> bool {
        true
    }

    open spec fn shl_req(self, rhs: usize) -> bool {
        true
    }

    open spec fn shl_spec(self, rhs: usize) -> Self {
        Self::from_coeffs(shift_left(self@, rhs as int))
    }
}

impl<const MAX_BYTES: usize> core::ops::Shl<usize> for Polynomial<MAX_BYTES> {
    type Output = Self;

    /// Multiply by `x^rhs`, dropping the terms that leave the width: whole bytes first,
    /// then the remaining bits, each byte taking the spill of its lower neighbour.
    fn shl(self, rhs: usize) -> (r: Self)
        ensures
            r@ == shift_left(self@, rhs as int),
    {
        let rotated_poly = self.rotate_left(rhs / 8);
        let Polynomial(mut rotated) = rotated_poly;
        let shl_amount = (rhs % 8) as u8;
        if shl_amount != 0 && MAX_BYTES > 0 {
            for i in 0..(MAX_BYTES - 1)
                invariant
                    0 < shl_amount < 8,
                    MAX_BYTES > 0,
                    forall|j: int|
                        0 <= j < i ==> rotated@[j] == (rotated_poly.0@[j] << shl_amount) | (
                        rotated_poly.0@[j + 1] >> (8 - shl_amount) as u8),
                    forall|j: int| i <= j < MAX_BYTES ==> rotated@[j] == rotated_poly.0@[j],
            {
                rotated[i] = (rotated[i] << shl_amount) | (rotated[i + 1] >> (8 - shl_amount));
            }
            rotated[MAX_BYTES - 1] = rotated[MAX_BYTES - 1] << shl_amount;
            proof {
                lemma_shift_bits(rotated_poly.0@, rotated@, shl_amount);
            }
        } else {
            proof {
                assert(shift_left(rotated_poly@, shl_amount as int) =~= rotated_poly@);
            }
        }
        let r = Polynomial(rotated);
        proof {
            assert(shift_left(rotated_poly@, shl_amount as int) =~= shift_left(self@, rhs as int));
            Self::lemma_from_coeffs(r);
        }
        r
    }
}

impl<const MAX_BYTES: usize> vstd::std_specs::ops::SubSpecImpl for Polynomial<MAX_BYTES> {
    open spec fn obeys_sub_spec() -> bool {
        true
    }

    open spec fn sub_req(self, rhs: Self) -> bool {
        true
    }

    open spec fn sub_spec(self, rhs: Self) -> Self {
        Self::from_coeffs(xor(self@, rhs@))
    }
}

impl<const MAX_BYTES: usize> core::ops::Sub for Polynomial<MAX_BYTES> {
    type Output = Self;

    /// Subtraction in GF(2), which is addition: byte-wise exclusive or.
    fn sub(self, other: Self) -> (r: Self)
        ensures
            r@ == xor(self@, other@),
            forall|i: int| 0 <= i < MAX_BYTES ==> r.0@[i] == self.0@[i] ^ other.0@[i],
    {
        let mut result_arr = [0u8; MAX_BYTES];
        let Polynomial(x) = self;
        let Polynomial(y) = other;
        for i in 0..MAX_BYTES
            invariant
                x == self.0,
                y == other.0,
                forall|j: int| 0 <= j < i ==> result_arr@[j] == x@[j] ^ y@[j],
        {
            result_arr[i] = x[i] ^ y[i];
        }
        let r = Self(result_arr);
        proof {
            assert forall|k: int| 0 <= k < r@.len() implies r@[k] == (self@[k] != other@[k]) by {
                lemma_bits_locate(r.0@, k);
                let i = MAX_BYTES - 1 - k / 8;
                lemma_bits_index(r.0@, i, k % 8);
                lemma_bits_index(x@, i, k % 8);
                lemma_bits_index(y@, i, k % 8);
                lemma_bit_facts(x@[i], y@[i], (k % 8) as u8);
            }
            assert(r@ =~= xor(self@, other@));
            Self::lemma_from_coeffs(r);
        }
        r
    }
}

impl<const MAX_BYTES: usize> vstd::std_specs::ops::DivSpecImpl for Polynomial<MAX_BYTES> {
    open spec fn obeys_div_spec() -> bool {
        true
    }

    open spec fn div_req(self, rhs: Self) -> bool {
        &&& degree(rhs@) >= 0
        &&& MAX_BYTES <= usize::MAX / 8
    }

    open spec fn div_spec(self, rhs: Self) -> Self {
        Self::from_coeffs(long_div_rem(self@, rhs@))
    }
}

impl<const MAX_BYTES: usize> core::ops::Div for Polynomial<MAX_BYTES> {
    type Output = Self;

    /// Long division by a nonzero divisor; returns the value left over. That value is
    /// congruent to `self` modulo `rhs` and below `rhs` as a binary number.
    fn div(self, rhs: Self) -> (r: Self)
        ensures
            r@ == long_div_rem(self@, rhs@),
            poly_mod(r@, rhs@) == poly_mod(self@, rhs@),
            more_significant(rhs@, r@),
    {
        let mut rem = self;
        while !rhs.is_more_sign(rem)
            invariant
                degree(rhs@) >= 0,
                MAX_BYTES <= usize::MAX / 8,
                long_div_rem(rem@, rhs@) == long_div_rem(self@, rhs@),
            decreases degree(rem@) + 1,
        {
            proof {
                lemma_not_more_significant(rhs@, rem@);
                lemma_reduce_step(rem@, rhs@);
                lemma_degree_range(reduce_step(rem@, rhs@));
            }
            rem = rem - (rhs << (rem.bit_len() - rhs.bit_len()));
        }
        proof {
            lemma_long_div_rem(self@, rhs@);
            Self::lemma_from_coeffs(rem);
        }
        rem
    }
}

} // verus!
