//! 256-bit machine words for the stack machine: four 64-bit limbs, least
//! significant first, with the arithmetic of `primitive_types::U256`.
use vstd::prelude::*;
use vstd::arithmetic::power::pow;
use vstd::arithmetic::power2::pow2;
use crate::bytes::{u64_be_at, u64_be_bytes, read_u64_be, push_u64_be};
use primitive_types::U256;

verus! {

/// A 256-bit unsigned word; `l0` holds the least significant 64 bits.
#[derive(Debug, Clone, Copy, PartialEq, Eq, Structural)]
pub struct Word {
    pub l0: u64,
    pub l1: u64,
    pub l2: u64,
    pub l3: u64,
}

/// 2^64.
pub open spec fn limb_base() -> nat {
    0x1_0000_0000_0000_0000nat
}

/// 2^256, the number of distinct words.
pub open spec fn word_modulus() -> nat {
    0x1_0000_0000_0000_0000_0000_0000_0000_0000_0000_0000_0000_0000_0000_0000_0000_0000nat
}

/// The word whose value is `n` modulo 2^256.
pub open spec fn from_val(n: nat) -> Word {
    Word {
        l0: (n % 0x1_0000_0000_0000_0000nat) as u64,
        l1: ((n / 0x1_0000_0000_0000_0000nat) % 0x1_0000_0000_0000_0000nat) as u64,
        l2: ((n / 0x1_0000_0000_0000_0000_0000_0000_0000_0000nat) % 0x1_0000_0000_0000_0000nat) as u64,
        l3: ((n / 0x1_0000_0000_0000_0000_0000_0000_0000_0000_0000_0000_0000_0000nat) % 0x1_0000_0000_0000_0000nat) as u64,
    }
}

/// The word holding the `u64` value `x`.
pub open spec fn word_of(x: u64) -> Word {
    Word { l0: x, l1: 0, l2: 0, l3: 0 }
}

/// 1 for true, 0 for false.
pub open spec fn bool_word(b: bool) -> Word {
    word_of(if b { 1 } else { 0 })
}

/// The word with every bit set.
pub open spec fn ones_word() -> Word {
    Word { l0: u64::MAX, l1: u64::MAX, l2: u64::MAX, l3: u64::MAX }
}

impl Word {
    /// The unsigned value of the word.
    pub open spec fn val(self) -> nat {
        self.l0 as nat + self.l1 as nat * 0x1_0000_0000_0000_0000nat
            + self.l2 as nat * 0x1_0000_0000_0000_0000_0000_0000_0000_0000nat
            + self.l3 as nat * 0x1_0000_0000_0000_0000_0000_0000_0000_0000_0000_0000_0000_0000nat
    }

    /// Whether the value fits in 64 bits.
    pub open spec fn spec_fits_u64(self) -> bool {
        self.l1 == 0 && self.l2 == 0 && self.l3 == 0
    }

    pub open spec fn spec_is_zero(self) -> bool {
        self.l0 == 0 && self.l1 == 0 && self.l2 == 0 && self.l3 == 0
    }
}

/// Sum modulo 2^256.
pub open spec fn add_mod(a: Word, b: Word) -> Word {
    from_val((a.val() + b.val()) % word_modulus())
}

/// Difference modulo 2^256.
pub open spec fn sub_mod(a: Word, b: Word) -> Word {
    from_val(((a.val() - b.val()) % (word_modulus() as int)) as nat)
}

/// Product modulo 2^256.
pub open spec fn mul_mod(a: Word, b: Word) -> Word {
    from_val((a.val() * b.val()) % word_modulus())
}

/// `a` shifted left by `s` bits, high bits dropped.
pub open spec fn shl_word(a: Word, s: nat) -> Word {
    from_val((a.val() * pow2(s)) % word_modulus())
}

/// `a` shifted right by `s` bits.
pub open spec fn shr_word(a: Word, s: nat) -> Word {
    from_val(a.val() / pow2(s))
}

pub open spec fn and_word(a: Word, b: Word) -> Word {
    Word { l0: a.l0 & b.l0, l1: a.l1 & b.l1, l2: a.l2 & b.l2, l3: a.l3 & b.l3 }
}

pub open spec fn or_word(a: Word, b: Word) -> Word {
    Word { l0: a.l0 | b.l0, l1: a.l1 | b.l1, l2: a.l2 | b.l2, l3: a.l3 | b.l3 }
}

pub open spec fn xor_word(a: Word, b: Word) -> Word {
    Word { l0: a.l0 ^ b.l0, l1: a.l1 ^ b.l1, l2: a.l2 ^ b.l2, l3: a.l3 ^ b.l3 }
}

pub open spec fn not_word(a: Word) -> Word {
    Word { l0: !a.l0, l1: !a.l1, l2: !a.l2, l3: !a.l3 }
}

/// The word stored big-endian at `s[i..i + 32]`.
pub open spec fn be_word_at(s: Seq<u8>, i: int) -> Word {
    Word { l3: u64_be_at(s, i), l2: u64_be_at(s, i + 8), l1: u64_be_at(s, i + 16), l0: u64_be_at(s, i + 24) }
}

/// The 32 big-endian bytes of a word.
pub open spec fn be_bytes(w: Word) -> Seq<u8> {
    u64_be_bytes(w.l3) + u64_be_bytes(w.l2) + u64_be_bytes(w.l1) + u64_be_bytes(w.l0)
}

/// A word is zero exactly when its value is.
pub proof fn lemma_zero_val(w: Word)
    ensures
        w.spec_is_zero() <==> w.val() == 0,
{
}

/// A value below 2^64 sits in the low limb alone.
pub proof fn lemma_small_val(w: Word)
    requires
        w.val() < limb_base(),
    ensures
        w.spec_fits_u64(),
        w.l0 == w.val(),
{
}

/// Every word's value is below 2^256.
pub proof fn lemma_val_bound(w: Word)
    ensures
        w.val() < word_modulus(),
{
}

/// `from_val` gives back every value below 2^256.
pub proof fn lemma_from_val(n: nat)
    requires
        n < word_modulus(),
    ensures
        from_val(n).val() == n,
{
    let b: int = 0x1_0000_0000_0000_0000int;
    let q1 = n as int / b;
    let q2 = q1 / b;
    let q3 = q2 / b;
    assert(n as int == q1 * b + n as int % b);
    assert(q1 == q2 * b + q1 % b);
    assert(q2 == q3 * b + q2 % b);
    assert(n as int / 0x1_0000_0000_0000_0000_0000_0000_0000_0000int == q2) by {
        vstd::arithmetic::div_mod::lemma_div_denominator(n as int, b, b);
    }
    assert(n as int / 0x1_0000_0000_0000_0000_0000_0000_0000_0000_0000_0000_0000_0000int == q3) by {
        vstd::arithmetic::div_mod::lemma_div_denominator(n as int, b, b);
        vstd::arithmetic::div_mod::lemma_div_denominator(n as int, b * b, b);
    }
    assert(q3 < b);
}

impl Word {
    pub fn zero() -> (r: Word)
        ensures
            r == word_of(0),
    {
        Word { l0: 0, l1: 0, l2: 0, l3: 0 }
    }

    pub fn from_u64(x: u64) -> (r: Word)
        ensures
            r == word_of(x),
    {
        Word { l0: x, l1: 0, l2: 0, l3: 0 }
    }

    pub fn ones() -> (r: Word)
        ensures
            r == ones_word(),
    {
        Word { l0: u64::MAX, l1: u64::MAX, l2: u64::MAX, l3: u64::MAX }
    }

    pub fn is_zero(&self) -> (r: bool)
        ensures
            r == self.spec_is_zero(),
    {
        self.l0 == 0 && self.l1 == 0 && self.l2 == 0 && self.l3 == 0
    }

    /// Whether the value fits in 64 bits.
    pub fn fits_u64(&self) -> (r: bool)
        ensures
            r == self.spec_fits_u64(),
    {
        self.l1 == 0 && self.l2 == 0 && self.l3 == 0
    }

    /// The value as a `u64`; it must fit.
    pub fn as_u64(&self) -> (r: u64)
        requires
            self.spec_fits_u64(),
        ensures
            r == self.l0,
            r == self.val(),
    {
        self.l0
    }

    pub fn and(self, b: Word) -> (r: Word)
        ensures
            r == and_word(self, b),
    {
        Word { l0: self.l0 & b.l0, l1: self.l1 & b.l1, l2: self.l2 & b.l2, l3: self.l3 & b.l3 }
    }

    pub fn or(self, b: Word) -> (r: Word)
        ensures
            r == or_word(self, b),
    {
        Word { l0: self.l0 | b.l0, l1: self.l1 | b.l1, l2: self.l2 | b.l2, l3: self.l3 | b.l3 }
    }

    pub fn xor(self, b: Word) -> (r: Word)
        ensures
            r == xor_word(self, b),
    {
        Word { l0: self.l0 ^ b.l0, l1: self.l1 ^ b.l1, l2: self.l2 ^ b.l2, l3: self.l3 ^ b.l3 }
    }

    pub fn not(self) -> (r: Word)
        ensures
            r == not_word(self),
    {
        Word { l0: !self.l0, l1: !self.l1, l2: !self.l2, l3: !self.l3 }
    }

    /// Reads the word stored big-endian at `s[i..i + 32]`.
    pub fn from_be_slice(s: &[u8], i: usize) -> (r: Word)
        requires
            i + 32 <= s@.len(),
        ensures
            r == be_word_at(s@, i as int),
    {
        let len = s.len();
        assert(i + 32 <= len);
        Word { l3: read_u64_be(s, i), l2: read_u64_be(s, i + 8), l1: read_u64_be(s, i + 16), l0: read_u64_be(s, i + 24) }
    }

    /// The 32 big-endian bytes of the word.
    pub fn to_be_vec(self) -> (r: Vec<u8>)
        ensures
            r@ == be_bytes(self),
    {
        let mut v: Vec<u8> = Vec::new();
        push_u64_be(&mut v, self.l3);
        push_u64_be(&mut v, self.l2);
        push_u64_be(&mut v, self.l1);
        push_u64_be(&mut v, self.l0);
        assert(v@ =~= be_bytes(self));
        v
    }

    /// The 32 big-endian bytes of the word as an array.
    pub fn to_be_array(self) -> (r: [u8; 32])
        ensures
            r@ == be_bytes(self),
    {
        let v = self.to_be_vec();
        let mut a = [0u8; 32];
        let mut i: usize = 0;
        while i < 32
            invariant
                i <= 32,
                v@ == be_bytes(self),
                v@.len() == 32,
                a@.len() == 32,
                forall|j: int| 0 <= j < i ==> a@[j] == v@[j],
            decreases 32 - i,
        {
            a[i] = v[i];
            i = i + 1;
        }
        assert(a@ =~= v@);
        a
    }
}

/// `U256::overflowing_add`: the sum modulo 2^256 (the flag is dropped).
#[verifier::external_body]
pub(crate) fn wrapping_add(a: Word, b: Word) -> (r: Word)
    ensures
        r == add_mod(a, b),
{
    let s = U256([a.l0, a.l1, a.l2, a.l3]).overflowing_add(U256([b.l0, b.l1, b.l2, b.l3])).0;
    Word { l0: s.0[0], l1: s.0[1], l2: s.0[2], l3: s.0[3] }
}

/// `U256::overflowing_sub`: the difference modulo 2^256 (the flag is dropped).
#[verifier::external_body]
pub(crate) fn wrapping_sub(a: Word, b: Word) -> (r: Word)
    ensures
        r == sub_mod(a, b),
{
    let s = U256([a.l0, a.l1, a.l2, a.l3]).overflowing_sub(U256([b.l0, b.l1, b.l2, b.l3])).0;
    Word { l0: s.0[0], l1: s.0[1], l2: s.0[2], l3: s.0[3] }
}

/// `U256::overflowing_mul`: the product modulo 2^256 (the flag is dropped).
#[verifier::external_body]
pub(crate) fn wrapping_mul(a: Word, b: Word) -> (r: Word)
    ensures
        r == mul_mod(a, b),
{
    let s = U256([a.l0, a.l1, a.l2, a.l3]).overflowing_mul(U256([b.l0, b.l1, b.l2, b.l3])).0;
    Word { l0: s.0[0], l1: s.0[1], l2: s.0[2], l3: s.0[3] }
}

/// `U256 + U256`, which panics on overflow: the exact sum.
#[verifier::external_body]
pub(crate) fn checked_sum(a: Word, b: Word) -> (r: Word)
    requires
        a.val() + b.val() < word_modulus(),
    ensures
        r == from_val(a.val() + b.val()),
{
    let s = U256([a.l0, a.l1, a.l2, a.l3]) + U256([b.l0, b.l1, b.l2, b.l3]);
    Word { l0: s.0[0], l1: s.0[1], l2: s.0[2], l3: s.0[3] }
}

/// `U256 * U256`, which panics on overflow: the exact product.
#[verifier::external_body]
pub(crate) fn checked_product(a: Word, b: Word) -> (r: Word)
    requires
        a.val() * b.val() < word_modulus(),
    ensures
        r == from_val(a.val() * b.val()),
{
    let s = U256([a.l0, a.l1, a.l2, a.l3]) * U256([b.l0, b.l1, b.l2, b.l3]);
    Word { l0: s.0[0], l1: s.0[1], l2: s.0[2], l3: s.0[3] }
}

/// `U256 / U256` by a nonzero divisor: the quotient rounded down.
#[verifier::external_body]
pub(crate) fn quotient(a: Word, b: Word) -> (r: Word)
    requires
        b.val() != 0,
    ensures
        r == from_val(a.val() / b.val()),
{
    let s = U256([a.l0, a.l1, a.l2, a.l3]) / U256([b.l0, b.l1, b.l2, b.l3]);
    Word { l0: s.0[0], l1: s.0[1], l2: s.0[2], l3: s.0[3] }
}

/// `U256 % U256` by a nonzero divisor: the remainder.
#[verifier::external_body]
pub(crate) fn remainder(a: Word, b: Word) -> (r: Word)
    requires
        b.val() != 0,
    ensures
        r == from_val(a.val() % b.val()),
{
    let s = U256([a.l0, a.l1, a.l2, a.l3]) % U256([b.l0, b.l1, b.l2, b.l3]);
    Word { l0: s.0[0], l1: s.0[1], l2: s.0[2], l3: s.0[3] }
}

/// `U256::pow`, which panics when the result overflows: `a` to the power `e`.
#[verifier::external_body]
pub(crate) fn power(a: Word, e: Word) -> (r: Word)
    requires
        pow(a.val() as int, e.val()) < word_modulus(),
    ensures
        r == from_val(pow(a.val() as int, e.val()) as nat),
{
    let s = U256([a.l0, a.l1, a.l2, a.l3]).pow(U256([e.l0, e.l1, e.l2, e.l3]));
    Word { l0: s.0[0], l1: s.0[1], l2: s.0[2], l3: s.0[3] }
}

/// `U256::overflowing_pow`: whether `a` to the power `e` reaches 2^256,
/// the case in which `U256::pow` panics (the wrapped value is dropped).
#[verifier::external_body]
pub(crate) fn pow_overflows(a: Word, e: Word) -> (r: bool)
    ensures
        r == (pow(a.val() as int, e.val()) >= word_modulus()),
{
    U256([a.l0, a.l1, a.l2, a.l3]).overflowing_pow(U256([e.l0, e.l1, e.l2, e.l3])).1
}

/// `U256 << u64`: shifts left, dropping the bits shifted out (zero from 256
/// on). The shift is converted with `as_usize`, which panics above
/// `usize::MAX`.
#[verifier::external_body]
pub(crate) fn shift_left(a: Word, s: u64) -> (r: Word)
    requires
        s <= usize::MAX,
    ensures
        r == shl_word(a, s as nat),
{
    let v = U256([a.l0, a.l1, a.l2, a.l3]) << s;
    Word { l0: v.0[0], l1: v.0[1], l2: v.0[2], l3: v.0[3] }
}

/// `U256 >> u64`: shifts right (zero from 256 on). The shift is converted
/// with `as_usize`, which panics above `usize::MAX`.
#[verifier::external_body]
pub(crate) fn shift_right(a: Word, s: u64) -> (r: Word)
    requires
        s <= usize::MAX,
    ensures
        r == shr_word(a, s as nat),
{
    let v = U256([a.l0, a.l1, a.l2, a.l3]) >> s;
    Word { l0: v.0[0], l1: v.0[1], l2: v.0[2], l3: v.0[3] }
}

/// `U256 < U256`: compares the values (the order compares limbs from the
/// most significant down).
#[verifier::external_body]
pub(crate) fn less_than(a: Word, b: Word) -> (r: bool)
    ensures
        r == (a.val() < b.val()),
{
    U256([a.l0, a.l1, a.l2, a.l3]) < U256([b.l0, b.l1, b.l2, b.l3])
}

} // verus!
