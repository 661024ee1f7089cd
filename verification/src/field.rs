//! Exact arithmetic on residues modulo a fixed prime.
//!
//! A [`FieldElement`] carries its modulus alongside the canonical residue, so
//! values over distinct moduli are never mixed: every binary operation
//! requires both operands to live in the same field. All operations are
//! total over well-formed operands and return canonical residues.

use vstd::prelude::*;

verus! {

use vstd::arithmetic::div_mod::lemma_add_mod_noop;
use vstd::arithmetic::div_mod::lemma_add_mod_noop_right;
use vstd::arithmetic::div_mod::lemma_mod_add_multiples_vanish;
use vstd::arithmetic::div_mod::lemma_mul_mod_noop_left;
use vstd::arithmetic::div_mod::lemma_mul_mod_noop_right;
use vstd::arithmetic::div_mod::lemma_small_mod;
use vstd::arithmetic::div_mod::lemma_sub_mod_noop_right;
use vstd::arithmetic::mul::lemma_mul_is_associative;
use vstd::arithmetic::mul::lemma_mul_is_commutative;
use vstd::arithmetic::mul::lemma_mul_is_distributive_add;
use vstd::arithmetic::mul::lemma_mul_is_distributive_sub;
use vstd::arithmetic::mul::lemma_mul_upper_bound;

/// The canonical residue of `a + b` modulo `p`.
pub open spec fn add_mod(a: int, b: int, p: int) -> int {
    (a + b) % p
}

/// The canonical residue of `a - b` modulo `p`.
pub open spec fn sub_mod(a: int, b: int, p: int) -> int {
    (a - b) % p
}

/// The canonical residue of `a * b` modulo `p`.
pub open spec fn mul_mod(a: int, b: int, p: int) -> int {
    (a * b) % p
}

/// The canonical residue of `-a` modulo `p`.
pub open spec fn neg_mod(a: int, p: int) -> int {
    (0 - a) % p
}

/// A residue modulo a fixed prime, always held in canonical range
/// `[0, modulus)`. Equality is exact value equality after reduction.
#[derive(Clone, Copy, Debug, PartialEq, Eq, Structural)]
pub struct FieldElement {
    /// Canonical representative in `[0, modulus)`.
    pub value: u64,
    /// The prime modulus; primality is assumed by construction, not re-checked.
    pub modulus: u64,
}

impl FieldElement {
    /// Well-formedness: a meaningful modulus and a canonical residue.
    pub open spec fn valid(self) -> bool {
        2 <= self.modulus && self.value < self.modulus
    }

    /// Both elements are residues of the same field.
    pub open spec fn same_field(self, other: FieldElement) -> bool {
        self.modulus == other.modulus
    }

    /// Constructs an element from an integer, reducing it modulo `modulus`.
    pub fn new(value: u64, modulus: u64) -> (r: FieldElement)
        requires
            2 <= modulus,
        ensures
            r.valid(),
            r.modulus == modulus,
            r.value == value as int % modulus as int,
    {
        FieldElement { value: value % modulus, modulus }
    }

    /// The additive identity of the field with the given modulus.
    pub fn zero(modulus: u64) -> (r: FieldElement)
        requires
            2 <= modulus,
        ensures
            r.valid(),
            r.modulus == modulus,
            r.value == 0,
    {
        FieldElement { value: 0, modulus }
    }

    /// The multiplicative identity of the field with the given modulus.
    pub fn one(modulus: u64) -> (r: FieldElement)
        requires
            2 <= modulus,
        ensures
            r.valid(),
            r.modulus == modulus,
            r.value == 1,
    {
        FieldElement { value: 1, modulus }
    }

    /// Field addition; the result is the canonical residue of the sum.
    pub fn add(self, other: FieldElement) -> (r: FieldElement)
        requires
            self.valid(),
            other.valid(),
            self.same_field(other),
        ensures
            r.valid(),
            r.modulus == self.modulus,
            r.value == add_mod(self.value as int, other.value as int, self.modulus as int),
    {
        let p = self.modulus as u128;
        let s = self.value as u128 + other.value as u128;
        let r = s % p;
        FieldElement { value: r as u64, modulus: self.modulus }
    }

    /// Field subtraction; the result is the canonical residue of the difference.
    pub fn sub(self, other: FieldElement) -> (r: FieldElement)
        requires
            self.valid(),
            other.valid(),
            self.same_field(other),
        ensures
            r.valid(),
            r.modulus == self.modulus,
            r.value == sub_mod(self.value as int, other.value as int, self.modulus as int),
    {
        let p = self.modulus as u128;
        let s = (self.value as u128 + p) - other.value as u128;
        let r = s % p;
        proof {
            lemma_mod_add_multiples_vanish(self.value - other.value, self.modulus as int);
        }
        FieldElement { value: r as u64, modulus: self.modulus }
    }

    /// Field multiplication; the result is the canonical residue of the product.
    pub fn mul(self, other: FieldElement) -> (r: FieldElement)
        requires
            self.valid(),
            other.valid(),
            self.same_field(other),
        ensures
            r.valid(),
            r.modulus == self.modulus,
            r.value == mul_mod(self.value as int, other.value as int, self.modulus as int),
    {
        let p = self.modulus as u128;
        proof {
            lemma_mul_upper_bound(self.value as int, u64::MAX as int, other.value as int, u64::MAX as int);
        }
        let s = self.value as u128 * other.value as u128;
        let r = s % p;
        FieldElement { value: r as u64, modulus: self.modulus }
    }

    /// Field negation; the result is the canonical residue of the negation.
    pub fn neg(self) -> (r: FieldElement)
        requires
            self.valid(),
        ensures
            r.valid(),
            r.modulus == self.modulus,
            r.value == neg_mod(self.value as int, self.modulus as int),
    {
        let p = self.modulus;
        let s = (p - self.value) % p;
        proof {
            lemma_mod_add_multiples_vanish(0 - self.value, self.modulus as int);
        }
        FieldElement { value: s, modulus: p }
    }
}

/// Field law: addition is commutative, `a + b = b + a`.
pub proof fn lemma_add_commutative(a: int, b: int, p: int)
    requires
        2 <= p,
    ensures
        add_mod(a, b, p) == add_mod(b, a, p),
{
}

/// Field law: addition is associative, `(a + b) + c = a + (b + c)`.
pub proof fn lemma_add_associative(a: int, b: int, c: int, p: int)
    requires
        2 <= p,
    ensures
        add_mod(add_mod(a, b, p), c, p) == add_mod(a, add_mod(b, c, p), p),
{
    lemma_add_mod_noop_right(c, a + b, p);
    lemma_add_mod_noop_right(a, b + c, p);
}

/// Field law: multiplication is commutative, `a · b = b · a`.
pub proof fn lemma_mul_commutative(a: int, b: int, p: int)
    requires
        2 <= p,
    ensures
        mul_mod(a, b, p) == mul_mod(b, a, p),
{
    lemma_mul_is_commutative(a, b);
}

/// Field law: multiplication is associative, `(a · b) · c = a · (b · c)`.
pub proof fn lemma_mul_associative(a: int, b: int, c: int, p: int)
    requires
        2 <= p,
    ensures
        mul_mod(mul_mod(a, b, p), c, p) == mul_mod(a, mul_mod(b, c, p), p),
{
    lemma_mul_mod_noop_left(a * b, c, p);
    lemma_mul_mod_noop_right(a, b * c, p);
    lemma_mul_is_associative(a, b, c);
}

/// Field law: multiplication distributes over addition,
/// `a · (b + c) = a · b + a · c`.
pub proof fn lemma_mul_distributive(a: int, b: int, c: int, p: int)
    requires
        2 <= p,
    ensures
        mul_mod(a, add_mod(b, c, p), p) == add_mod(mul_mod(a, b, p), mul_mod(a, c, p), p),
{
    lemma_mul_mod_noop_right(a, b + c, p);
    lemma_mul_is_distributive_add(a, b, c);
    lemma_add_mod_noop(a * b, a * c, p);
}

/// Field law: zero is the additive identity, `a + 0 = a`, for a canonical
/// residue `a`.
pub proof fn lemma_add_zero(a: int, p: int)
    requires
        2 <= p,
        0 <= a < p,
    ensures
        add_mod(a, 0, p) == a,
{
    lemma_small_mod(a as nat, p as nat);
}

/// Field law: one is the multiplicative identity, `a · 1 = a`, for a
/// canonical residue `a`.
pub proof fn lemma_mul_one(a: int, p: int)
    requires
        2 <= p,
        0 <= a < p,
    ensures
        mul_mod(a, 1, p) == a,
{
    lemma_small_mod(a as nat, p as nat);
}

/// Field law: subtraction cancels, `a - a = 0`.
pub proof fn lemma_sub_self(a: int, p: int)
    requires
        2 <= p,
    ensures
        sub_mod(a, a, p) == 0,
{
    lemma_small_mod(0, p as nat);
}

/// Field law: the complement identity `a · (1 - b) = a - a · b`. This is the
/// algebraic basis for splitting a scalar into the two halves of the
/// equality tensor: the recursive builder computes `a - a·b` where the
/// defining polynomial has the factor `1 - b`.
pub proof fn lemma_complement_identity(a: int, b: int, p: int)
    requires
        2 <= p,
    ensures
        mul_mod(a, sub_mod(1, b, p), p) == sub_mod(a, mul_mod(a, b, p), p),
{
    lemma_mul_mod_noop_right(a, 1 - b, p);
    lemma_mul_is_distributive_sub(a, 1, b);
    lemma_sub_mod_noop_right(a, a * b, p);
}

} // verus!
