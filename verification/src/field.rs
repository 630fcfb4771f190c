//! 256-bit unsigned residues and BN254 scalar-field elements.
//!
//! `U256` is a little-endian four-limb 256-bit unsigned integer used for raw
//! residues; `FrElement` is a field element of the BN254 scalar field, kept in
//! canonical reduced form. Modular arithmetic is delegated to the `ruint` and
//! `ark` crates behind trusted wrappers whose contracts state the exact
//! mathematical result.

use vstd::prelude::*;
use vstd::arithmetic::div_mod::{
    lemma_div_denominator, lemma_fundamental_div_mod, lemma_fundamental_div_mod_converse_div,
    lemma_fundamental_div_mod_converse_mod, lemma_multiply_divide_lt,
};
use vstd::arithmetic::power2::pow2;

verus! {

/// Two to the 64th power.
pub open spec fn pow64() -> nat {
    18446744073709551616nat
}

/// Two to the 128th power.
pub open spec fn pow128() -> nat {
    340282366920938463463374607431768211456nat
}

/// Two to the 192nd power.
pub open spec fn pow192() -> nat {
    6277101735386680763835789423207666416102355444464034512896nat
}

/// Two to the 256th power: one more than the largest 256-bit value.
pub open spec fn pow256() -> nat {
    115792089237316195423570985008687907853269984665640564039457584007913129639936nat
}

/// The BN254 scalar-field modulus.
pub open spec fn m_nat() -> nat {
    21888242871839275222246405745257275088548364400416034343698204186575808495617nat
}

/// A 256-bit unsigned integer as four 64-bit little-endian limbs.
#[derive(Clone, Copy, Debug, PartialEq, Eq, Structural)]
pub struct U256 {
    pub l0: u64,
    pub l1: u64,
    pub l2: u64,
    pub l3: u64,
}

/// The 256-bit integer whose value is `n`, for `n` below `pow256()`.
pub open spec fn u256_of_nat(n: nat) -> U256 {
    U256 {
        l0: (n % pow64()) as u64,
        l1: ((n / pow64()) % pow64()) as u64,
        l2: ((n / pow128()) % pow64()) as u64,
        l3: ((n / pow192()) % pow64()) as u64,
    }
}

/// Bitwise and of two 256-bit values, stated 64 bits at a time.
pub open spec fn and256(a: nat, b: nat) -> nat {
    ((((a % pow64()) as u64) & ((b % pow64()) as u64)) + (((a / pow64() % pow64()) as u64) & ((b
        / pow64() % pow64()) as u64)) * pow64() + (((a / pow128() % pow64()) as u64) & ((b
        / pow128() % pow64()) as u64)) * pow128() + (((a / pow192() % pow64()) as u64) & ((b
        / pow192() % pow64()) as u64)) * pow192()) as nat
}

impl U256 {
    /// The mathematical value of this 256-bit integer.
    pub open spec fn val(self) -> nat {
        (self.l0 + self.l1 * pow64() + self.l2 * pow128() + self.l3 * pow192()) as nat
    }

    /// The zero value.
    pub fn zero() -> (r: U256)
        ensures
            r.val() == 0,
    {
        U256 { l0: 0, l1: 0, l2: 0, l3: 0 }
    }

    /// A 256-bit value from a single 64-bit integer.
    pub fn from_u64(x: u64) -> (r: U256)
        ensures
            r.val() == x,
    {
        U256 { l0: x, l1: 0, l2: 0, l3: 0 }
    }

    /// Whether this value is zero.
    pub fn is_zero(&self) -> (r: bool)
        ensures
            r == (self.val() == 0),
    {
        self.l0 == 0 && self.l1 == 0 && self.l2 == 0 && self.l3 == 0
    }

    /// Unsigned comparison: `self < other`.
    pub fn lt(&self, other: &U256) -> (r: bool)
        ensures
            r == (self.val() < other.val()),
    {
        proof {
            lemma_limb_order(*self, *other);
            lemma_limb_order(*other, *self);
        }
        if self.l3 != other.l3 {
            self.l3 < other.l3
        } else if self.l2 != other.l2 {
            self.l2 < other.l2
        } else if self.l1 != other.l1 {
            self.l1 < other.l1
        } else {
            self.l0 < other.l0
        }
    }

    /// Bitwise and, limb by limb.
    pub fn band(&self, other: &U256) -> (r: U256)
        ensures
            r.val() == and256(self.val(), other.val()),
    {
        proof {
            lemma_limb_recovery(*self);
            lemma_limb_recovery(*other);
        }
        U256 {
            l0: self.l0 & other.l0,
            l1: self.l1 & other.l1,
            l2: self.l2 & other.l2,
            l3: self.l3 & other.l3,
        }
    }
}

/// The modulus as a 256-bit constant.
pub fn modulus() -> (r: U256)
    ensures
        r.val() == m_nat(),
{
    U256 {
        l0: 4891460686036598785,
        l1: 2896914383306846353,
        l2: 13281191951274694749,
        l3: 3486998266802970665,
    }
}

/// Each limb can be recovered from the value by division and remainder.
pub proof fn lemma_limb_recovery(a: U256)
    ensures
        a.val() % pow64() == a.l0,
        (a.val() / pow64()) % pow64() == a.l1,
        (a.val() / pow128()) % pow64() == a.l2,
        a.val() / pow192() == a.l3,
{
    let v = a.val() as int;
    let b = pow64() as int;
    let q1: int = a.l1 + a.l2 * pow64() + a.l3 * pow128();
    let q2: int = a.l2 + a.l3 * pow64();
    assert(v == q1 * b + a.l0) by (nonlinear_arith)
        requires
            v == a.l0 + a.l1 * pow64() + a.l2 * pow128() + a.l3 * pow192(),
            q1 == a.l1 + a.l2 * pow64() + a.l3 * pow128(),
            b == pow64(),
            pow128() == pow64() * pow64(),
            pow192() == pow128() * pow64(),
    ;
    lemma_fundamental_div_mod_converse_mod(v, b, q1, a.l0 as int);
    lemma_fundamental_div_mod_converse_div(v, b, q1, a.l0 as int);
    assert(q1 == q2 * b + a.l1) by (nonlinear_arith)
        requires
            q1 == a.l1 + a.l2 * pow64() + a.l3 * pow128(),
            q2 == a.l2 + a.l3 * pow64(),
            b == pow64(),
            pow128() == pow64() * pow64(),
    ;
    lemma_fundamental_div_mod_converse_mod(q1, b, q2, a.l1 as int);
    lemma_fundamental_div_mod_converse_div(q1, b, q2, a.l1 as int);
    lemma_fundamental_div_mod_converse_mod(q2, b, a.l3 as int, a.l2 as int);
    lemma_fundamental_div_mod_converse_div(q2, b, a.l3 as int, a.l2 as int);
    lemma_div_denominator(v, b, b);
    assert(v / pow128() as int == q2);
    lemma_div_denominator(v, pow128() as int, b);
    assert(v / pow192() as int == q2 / b);
}

/// Lexicographic comparison of limbs, most significant first, agrees with
/// comparison of the values.
pub proof fn lemma_limb_order(a: U256, b: U256)
    ensures
        a.l3 < b.l3 ==> a.val() < b.val(),
        a.l3 == b.l3 && a.l2 < b.l2 ==> a.val() < b.val(),
        a.l3 == b.l3 && a.l2 == b.l2 && a.l1 < b.l1 ==> a.val() < b.val(),
        a.l3 == b.l3 && a.l2 == b.l2 && a.l1 == b.l1 && a.l0 < b.l0 ==> a.val() < b.val(),
        a.l3 == b.l3 && a.l2 == b.l2 && a.l1 == b.l1 && a.l0 == b.l0 ==> a.val() == b.val(),
{
}

/// Two 256-bit integers with the same value have the same limbs.
pub proof fn lemma_u256_injective(a: U256, b: U256)
    requires
        a.val() == b.val(),
    ensures
        a == b,
{
    lemma_limb_recovery(a);
    lemma_limb_recovery(b);
}

/// `u256_of_nat` inverts `val`.
pub proof fn lemma_u256_roundtrip(a: U256)
    ensures
        u256_of_nat(a.val()) == a,
{
    lemma_limb_recovery(a);
    assert(a.val() / pow192() < pow64()) by {
        lemma_multiply_divide_lt(a.val() as int, pow192() as int, pow64() as int);
    }
    assert((a.val() / pow192()) % pow64() == a.val() / pow192());
}

/// The value of `u256_of_nat(n)` is `n` whenever `n` fits in 256 bits.
pub proof fn lemma_u256_of_nat_val(n: nat)
    requires
        n < pow256(),
    ensures
        u256_of_nat(n).val() == n,
{
    let v = n as int;
    let b = pow64() as int;
    lemma_fundamental_div_mod(v, b);
    lemma_fundamental_div_mod(v / b, b);
    lemma_fundamental_div_mod(v / b / b, b);
    lemma_div_denominator(v, b, b);
    lemma_div_denominator(v, pow128() as int, b);
    assert(v / pow128() as int == v / b / b);
    assert(v / pow192() as int == v / b / b / b);
    assert(v / (pow192() as int) < pow64()) by {
        lemma_multiply_divide_lt(v, pow192() as int, pow64() as int);
    }
    assert((v / pow192() as int) % b == v / pow192() as int);
    let r0 = v % b;
    let r1 = (v / b) % b;
    let r2 = (v / b / b) % b;
    let r3 = v / b / b / b;
    assert(v == r0 + r1 * pow64() + r2 * pow128() + r3 * pow192()) by (nonlinear_arith)
        requires
            v == b * (v / b) + r0,
            v / b == b * (v / b / b) + r1,
            v / b / b == b * (v / b / b / b) + r2,
            r3 == v / b / b / b,
            b == pow64(),
            pow128() == pow64() * pow64(),
            pow192() == pow128() * pow64(),
    ;
}

/// Relies on ruint's `Uint::add_mod`: for a non-zero modulus it returns
/// `(self + rhs) % modulus`.
#[verifier::external_body]
pub(crate) fn u256_add_mod(a: &U256, b: &U256, m: &U256) -> (r: U256)
    requires
        m.val() > 0,
    ensures
        r.val() == (a.val() + b.val()) % m.val(),
{
    let ra = ruint::aliases::U256::from_limbs([a.l0, a.l1, a.l2, a.l3]);
    let rb = ruint::aliases::U256::from_limbs([b.l0, b.l1, b.l2, b.l3]);
    let rm = ruint::aliases::U256::from_limbs([m.l0, m.l1, m.l2, m.l3]);
    let rr = ra.add_mod(rb, rm);
    let ls = rr.as_limbs();
    U256 { l0: ls[0], l1: ls[1], l2: ls[2], l3: ls[3] }
}

/// Relies on ruint's `Uint::mul_mod`: for a non-zero modulus it returns
/// `(self * rhs) % modulus`, computed on the full double-width product.
#[verifier::external_body]
pub(crate) fn u256_mul_mod(a: &U256, b: &U256, m: &U256) -> (r: U256)
    requires
        m.val() > 0,
    ensures
        r.val() == (a.val() * b.val()) % m.val(),
{
    let ra = ruint::aliases::U256::from_limbs([a.l0, a.l1, a.l2, a.l3]);
    let rb = ruint::aliases::U256::from_limbs([b.l0, b.l1, b.l2, b.l3]);
    let rm = ruint::aliases::U256::from_limbs([m.l0, m.l1, m.l2, m.l3]);
    let rr = ra.mul_mod(rb, rm);
    let ls = rr.as_limbs();
    U256 { l0: ls[0], l1: ls[1], l2: ls[2], l3: ls[3] }
}

/// Relies on ruint's `Uint::wrapping_sub`: subtraction modulo `2^256`.
#[verifier::external_body]
pub(crate) fn u256_wrapping_sub(a: &U256, b: &U256) -> (r: U256)
    ensures
        b.val() <= a.val() ==> r.val() == ((a.val() - b.val()) as nat),
        b.val() > a.val() ==> r.val() == ((a.val() + pow256() - b.val()) as nat),
{
    let ra = ruint::aliases::U256::from_limbs([a.l0, a.l1, a.l2, a.l3]);
    let rb = ruint::aliases::U256::from_limbs([b.l0, b.l1, b.l2, b.l3]);
    let rr = ra.wrapping_sub(rb);
    let ls = rr.as_limbs();
    U256 { l0: ls[0], l1: ls[1], l2: ls[2], l3: ls[3] }
}

/// Relies on ruint's `Uint::wrapping_rem` (the `%` operator): the remainder
/// of division, defined for a non-zero divisor.
#[verifier::external_body]
pub(crate) fn u256_rem(a: &U256, m: &U256) -> (r: U256)
    requires
        m.val() > 0,
    ensures
        r.val() == a.val() % m.val(),
{
    let ra = ruint::aliases::U256::from_limbs([a.l0, a.l1, a.l2, a.l3]);
    let rm = ruint::aliases::U256::from_limbs([m.l0, m.l1, m.l2, m.l3]);
    let rr = ra.wrapping_rem(rm);
    let ls = rr.as_limbs();
    U256 { l0: ls[0], l1: ls[1], l2: ls[2], l3: ls[3] }
}

/// Relies on ruint's `Uint::wrapping_shl`: returns `(self * 2^rhs) % 2^256`.
#[verifier::external_body]
pub(crate) fn u256_shl(a: &U256, s: u64) -> (r: U256)
    ensures
        r.val() == (a.val() * pow2(s as nat)) % pow256(),
{
    let ra = ruint::aliases::U256::from_limbs([a.l0, a.l1, a.l2, a.l3]);
    let rr = ra.wrapping_shl(s as usize);
    let ls = rr.as_limbs();
    U256 { l0: ls[0], l1: ls[1], l2: ls[2], l3: ls[3] }
}

/// Relies on ruint's `Uint::wrapping_shr`: returns `self / 2^rhs`, rounded down.
#[verifier::external_body]
pub(crate) fn u256_shr(a: &U256, s: u64) -> (r: U256)
    ensures
        r.val() == a.val() / pow2(s as nat),
{
    let ra = ruint::aliases::U256::from_limbs([a.l0, a.l1, a.l2, a.l3]);
    let rr = ra.wrapping_shr(s as usize);
    let ls = rr.as_limbs();
    U256 { l0: ls[0], l1: ls[1], l2: ls[2], l3: ls[3] }
}

/// A BN254 scalar-field element, stored as its canonical representative
/// in `[0, m_nat())`.
#[derive(Clone, Copy, Debug, PartialEq, Eq, Structural)]
pub struct FrElement {
    pub rep: U256,
}

impl FrElement {
    /// The canonical value of this field element.
    pub open spec fn val(self) -> nat {
        self.rep.val()
    }

    /// Whether the stored representative is reduced.
    pub open spec fn is_canonical(self) -> bool {
        self.rep.val() < m_nat()
    }

    /// The canonical 256-bit representative of this field element.
    pub fn to_u256(&self) -> (r: U256)
        ensures
            r == self.rep,
    {
        self.rep
    }
}

/// Relies on ark's `Fp::new` and `PrimeField::into_bigint`: `Fr::new(b)` is
/// the field element `b mod M`, and `into_bigint` returns its canonical
/// representative.
#[verifier::external_body]
pub(crate) fn fr_from_u256(c: &U256) -> (r: FrElement)
    ensures
        r.val() == c.val() % m_nat(),
{
    let f = ark_bn254::Fr::new(ark_ff::BigInt::new([c.l0, c.l1, c.l2, c.l3]));
    let big = ark_ff::PrimeField::into_bigint(f);
    FrElement { rep: U256 { l0: big.0[0], l1: big.0[1], l2: big.0[2], l3: big.0[3] } }
}

/// Relies on ark's field addition on `Fr` (plus the `Fp::new` /
/// `into_bigint` conversions): returns `(a + b) mod M`.
#[verifier::external_body]
pub(crate) fn fr_add(a: &FrElement, b: &FrElement) -> (r: FrElement)
    requires
        a.is_canonical(),
        b.is_canonical(),
    ensures
        r.val() == (a.val() + b.val()) % m_nat(),
{
    let fa = ark_bn254::Fr::new(ark_ff::BigInt::new([a.rep.l0, a.rep.l1, a.rep.l2, a.rep.l3]));
    let fb = ark_bn254::Fr::new(ark_ff::BigInt::new([b.rep.l0, b.rep.l1, b.rep.l2, b.rep.l3]));
    let fc = fa + fb;
    let big = ark_ff::PrimeField::into_bigint(fc);
    FrElement { rep: U256 { l0: big.0[0], l1: big.0[1], l2: big.0[2], l3: big.0[3] } }
}

/// Relies on ark's field subtraction on `Fr` (plus the `Fp::new` /
/// `into_bigint` conversions): returns `(a + M - b) mod M`.
#[verifier::external_body]
pub(crate) fn fr_sub(a: &FrElement, b: &FrElement) -> (r: FrElement)
    requires
        a.is_canonical(),
        b.is_canonical(),
    ensures
        r.val() == ((a.val() + m_nat() - b.val()) as nat) % m_nat(),
{
    let fa = ark_bn254::Fr::new(ark_ff::BigInt::new([a.rep.l0, a.rep.l1, a.rep.l2, a.rep.l3]));
    let fb = ark_bn254::Fr::new(ark_ff::BigInt::new([b.rep.l0, b.rep.l1, b.rep.l2, b.rep.l3]));
    let fc = fa - fb;
    let big = ark_ff::PrimeField::into_bigint(fc);
    FrElement { rep: U256 { l0: big.0[0], l1: big.0[1], l2: big.0[2], l3: big.0[3] } }
}

/// Relies on ark's field multiplication on `Fr` (plus the `Fp::new` /
/// `into_bigint` conversions): returns `(a * b) mod M`.
#[verifier::external_body]
pub(crate) fn fr_mul(a: &FrElement, b: &FrElement) -> (r: FrElement)
    requires
        a.is_canonical(),
        b.is_canonical(),
    ensures
        r.val() == (a.val() * b.val()) % m_nat(),
{
    let fa = ark_bn254::Fr::new(ark_ff::BigInt::new([a.rep.l0, a.rep.l1, a.rep.l2, a.rep.l3]));
    let fb = ark_bn254::Fr::new(ark_ff::BigInt::new([b.rep.l0, b.rep.l1, b.rep.l2, b.rep.l3]));
    let fc = fa * fb;
    let big = ark_ff::PrimeField::into_bigint(fc);
    FrElement { rep: U256 { l0: big.0[0], l1: big.0[1], l2: big.0[2], l3: big.0[3] } }
}

pub assume_specification<T>[ rand::random::<T> ]() -> (r: T)
    where
        rand::distributions::Standard: rand::distributions::Distribution<T>,
;

/// A fresh 256-bit value drawn uniformly below the modulus.
pub(crate) fn random_residue() -> (r: U256)
    ensures
        r.val() < m_nat(),
{
    let raw = U256 {
        l0: rand::random::<u64>(),
        l1: rand::random::<u64>(),
        l2: rand::random::<u64>(),
        l3: rand::random::<u64>(),
    };
    let m = modulus();
    u256_rem(&raw, &m)
}

} // verus!
