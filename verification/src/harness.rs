//! Differential harness: deterministic pseudorandom trial generation that
//! drives [`tensor_build`] and [`reference_build`] on identical inputs,
//! compares the resulting accumulators element-wise, and aggregates the
//! verdict per field configuration.
//!
//! A mismatch is not an error of the harness but its intended observable
//! output: any divergence between the two structurally unrelated builders on
//! identical inputs signals a defect in arithmetic execution. The builders'
//! shared contract lets the harness prove, rather than merely observe, that
//! the mismatch count of every trial is zero.

use vstd::prelude::*;

verus! {

use crate::field::FieldElement;
use crate::field::add_mod;
use crate::field::mul_mod;
use crate::tensor::in_field;
use crate::tensor::lemma_equivalence;
use crate::tensor::reference_build;
use crate::tensor::residues;
use crate::tensor::tensor_build;
use vstd::arithmetic::power2::lemma2_to64;
use vstd::arithmetic::power2::lemma2_to64_rest;
use vstd::arithmetic::power2::lemma_pow2_strictly_increases;
use vstd::arithmetic::power2::lemma_pow2_unfold;
use vstd::arithmetic::power2::pow2;

/// Declarative configuration of the BN254 scalar field: the 254-bit prime
/// modulus and its multiplicative generator, stated as mathematical
/// integers (the modulus by its four 64-bit limbs, most significant first).
/// Arithmetic at this width is an external collaborator's concern; the
/// batteries this crate runs drive word-sized moduli through [`FieldConfig`].
pub struct BN254Config;

impl BN254Config {
    /// The prime modulus of the BN254 scalar field.
    pub open spec fn modulus() -> int {
        ((0x30644e72e131a029 * 0x10000000000000000 + 0xb85045b68181585d) * 0x10000000000000000
            + 0x2833e84879b97091) * 0x10000000000000000 + 0x43e1f593f0000001int
    }

    /// The declared multiplicative generator of that field.
    pub open spec fn generator() -> int {
        5
    }
}

/// An immutable field configuration: modulus, generator and bit-width,
/// supplied once at construction. Primality of the modulus and correctness
/// of the generator are assumed by construction, not re-checked at runtime;
/// the bit-width is validated against the modulus.
#[derive(Clone, Copy, Debug, PartialEq, Eq, Structural)]
pub struct FieldConfig {
    /// The prime modulus.
    pub modulus: u64,
    /// A multiplicative generator of the field, in `[1, modulus)`.
    pub generator: u64,
    /// The bit-width of the modulus.
    pub bit_width: u32,
}

impl FieldConfig {
    /// Well-formedness: a meaningful modulus, a generator in range, and a
    /// bit-width that matches the modulus.
    pub open spec fn valid(self) -> bool {
        &&& 2 <= self.modulus
        &&& 1 <= self.generator < self.modulus
        &&& 1 <= self.bit_width <= 64
        &&& pow2((self.bit_width - 1) as nat) <= self.modulus < pow2(self.bit_width as nat)
    }
}

/// The fixed battery of field configurations: Mersenne primes of three
/// distinct bit-widths, so a divergence can be narrowed to the arithmetic
/// width that exhibits it.
pub fn preset_configs() -> (r: Vec<FieldConfig>)
    ensures
        r@.len() == 3,
        forall|i: int| 0 <= i < r@.len() ==> (#[trigger] r@[i]).valid(),
        r@[0] == (FieldConfig { modulus: 2305843009213693951, generator: 3, bit_width: 61 }),
        r@[1] == (FieldConfig { modulus: 2147483647, generator: 7, bit_width: 31 }),
        r@[2] == (FieldConfig { modulus: 131071, generator: 3, bit_width: 17 }),
{
    proof {
        lemma2_to64();
        lemma2_to64_rest();
    }
    let mut r: Vec<FieldConfig> = Vec::new();
    r.push(FieldConfig { modulus: 2305843009213693951, generator: 3, bit_width: 61 });
    r.push(FieldConfig { modulus: 2147483647, generator: 7, bit_width: 31 });
    r.push(FieldConfig { modulus: 131071, generator: 3, bit_width: 17 });
    r
}

/// The deterministic pseudorandom sequence drawn from a seed:
/// `v_0 = seed` reduced into the field, `v_{k+1} = v_k · seed + 1`.
pub open spec fn lcg_at(seed: int, p: int, k: nat) -> int
    decreases k,
{
    if k == 0 {
        seed % p
    } else {
        add_mod(mul_mod(lcg_at(seed, p, (k - 1) as nat), seed % p, p), 1, p)
    }
}

/// Generates `size` reproducible pseudorandom field elements from a seed,
/// without depending on any shared random-number process.
pub fn gen_vec(size: usize, seed: u64, modulus: u64) -> (r: Vec<FieldElement>)
    requires
        2 <= modulus,
    ensures
        r@.len() == size,
        in_field(r@, modulus as int),
        forall|k: int| 0 <= k < size ==>
            (#[trigger] r@[k]).value == lcg_at(seed as int, modulus as int, k as nat),
{
    let base = FieldElement::new(seed, modulus);
    let one = FieldElement::one(modulus);
    let mut current = base;
    let mut out: Vec<FieldElement> = Vec::new();
    let mut k: usize = 0;
    while k < size
        invariant
            k == out@.len(),
            k <= size,
            2 <= modulus,
            base.valid(),
            base.modulus == modulus,
            base.value == seed as int % modulus as int,
            one.valid(),
            one.modulus == modulus,
            one.value == 1,
            current.valid(),
            current.modulus == modulus,
            current.value == lcg_at(seed as int, modulus as int, k as nat),
            in_field(out@, modulus as int),
            forall|j: int| 0 <= j < k ==>
                (#[trigger] out@[j]).value == lcg_at(seed as int, modulus as int, j as nat),
        decreases size - k,
    {
        out.push(current);
        current = current.mul(base).add(one);
        k = k + 1;
    }
    out
}

/// A freshly zeroed accumulator of the given length over the given field.
pub fn zero_accumulator(len: usize, modulus: u64) -> (r: Vec<FieldElement>)
    requires
        2 <= modulus,
    ensures
        r@.len() == len,
        in_field(r@, modulus as int),
        forall|i: int| 0 <= i < len ==> (#[trigger] r@[i]).value == 0,
        forall|i: int| 0 <= i < len ==> (#[trigger] r@[i]).modulus == modulus,
{
    let cell = FieldElement::zero(modulus);
    let mut r: Vec<FieldElement> = Vec::new();
    let mut i: usize = 0;
    while i < len
        invariant
            i == r@.len(),
            i <= len,
            cell.modulus == modulus,
            cell.value == 0,
            2 <= modulus,
            in_field(r@, modulus as int),
            forall|j: int| 0 <= j < i ==> #[trigger] r@[j] == cell,
        decreases len - i,
    {
        r.push(cell);
        i = i + 1;
    }
    r
}

/// The number of positions among `0 ..= upto - 1` where the two sequences
/// hold different elements.
pub open spec fn mismatch_count(a: Seq<FieldElement>, b: Seq<FieldElement>, upto: int) -> nat
    decreases upto,
{
    if upto <= 0 {
        0
    } else {
        mismatch_count(a, b, upto - 1) + if a[upto - 1] == b[upto - 1] {
            0nat
        } else {
            1nat
        }
    }
}

proof fn lemma_mismatch_zero(a: Seq<FieldElement>, b: Seq<FieldElement>, upto: int)
    requires
        forall|i: int| 0 <= i < upto ==> a[i] == b[i],
    ensures
        mismatch_count(a, b, upto) == 0,
    decreases upto,
{
    if upto > 0 {
        lemma_mismatch_zero(a, b, upto - 1);
    }
}

/// Compares two accumulators element-wise and returns the exact number of
/// mismatching cells.
pub fn count_mismatches(a: &Vec<FieldElement>, b: &Vec<FieldElement>) -> (n: usize)
    requires
        a@.len() == b@.len(),
    ensures
        n == mismatch_count(a@, b@, a@.len() as int),
{
    let mut n: usize = 0;
    let mut i: usize = 0;
    while i < a.len()
        invariant
            i <= a@.len(),
            a@.len() == b@.len(),
            n == mismatch_count(a@, b@, i as int),
            n <= i,
        decreases a@.len() - i,
    {
        if !(a[i] == b[i]) {
            n = n + 1;
        }
        i = i + 1;
    }
    n
}

/// Computes `2^e` as a machine word.
pub fn pow2_usize(e: usize) -> (r: usize)
    requires
        pow2(e as nat) <= usize::MAX,
    ensures
        r == pow2(e as nat),
{
    proof {
        lemma2_to64();
    }
    let mut r: usize = 1;
    let mut i: usize = 0;
    while i < e
        invariant
            i <= e,
            r == pow2(i as nat),
            pow2(e as nat) <= usize::MAX,
        decreases e - i,
    {
        proof {
            lemma_pow2_unfold((i + 1) as nat);
            if i + 1 < e {
                lemma_pow2_strictly_increases((i + 1) as nat, e as nat);
            }
        }
        r = r * 2;
        i = i + 1;
    }
    r
}

/// One differential trial: generates a point of dimension `dim` and a scalar
/// from the two seeds, builds a zeroed accumulator pair, runs the recursive
/// builder on one and the iterative reference on the other, and counts the
/// mismatching cells. The builders' shared contract forces that count to
/// zero, which is stated here and proved rather than assumed.
pub fn run_trial(config: FieldConfig, dim: usize, point_seed: u64, scalar_seed: u64) -> (mismatches: usize)
    requires
        config.valid(),
        pow2(dim as nat) <= usize::MAX,
    ensures
        mismatches == 0,
{
    let m = config.modulus;
    let size = pow2_usize(dim);
    let point = gen_vec(dim, point_seed, m);
    let scalar = FieldElement::new(scalar_seed, m);
    let mut acc1 = zero_accumulator(size, m);
    let mut acc2 = zero_accumulator(size, m);
    let ghost zeroed = acc1@;
    proof {
        assert(residues(acc1@) =~= residues(acc2@));
    }
    tensor_build(&mut acc1, &point, scalar);
    reference_build(&mut acc2, &point, scalar);
    proof {
        lemma_equivalence(
            residues(zeroed),
            residues(acc1@),
            residues(acc2@),
            residues(point@),
            scalar.value as int,
            m as int,
        );
        assert forall|i: int| 0 <= i < acc1@.len() implies #[trigger] acc1@[i] == acc2@[i] by {
            assert(residues(acc1@)[i] == residues(acc2@)[i]);
        }
        lemma_mismatch_zero(acc1@, acc2@, acc1@.len() as int);
    }
    count_mismatches(&acc1, &acc2)
}

/// The outcome of one battery of differential trials: how many trials ran,
/// how many cells mismatched across all of them, and the verdict — any
/// mismatch fails the configuration.
#[derive(Clone, Copy, Debug, PartialEq, Eq, Structural)]
pub struct TrialReport {
    /// Number of trials driven.
    pub trials: usize,
    /// Total mismatching cells across all trials.
    pub mismatches: usize,
    /// True exactly when no cell mismatched.
    pub passed: bool,
}

/// Runs `trials` differential trials for one configuration at dimension
/// `dim`, with per-trial seeds derived deterministically from the trial
/// index, and aggregates the outcome.
pub fn run_battery(config: FieldConfig, dim: usize, trials: usize) -> (r: TrialReport)
    requires
        config.valid(),
        pow2(dim as nat) <= usize::MAX,
    ensures
        r.trials == trials,
        r.mismatches == 0,
        r.passed == (r.mismatches == 0),
{
    let mut mismatches: usize = 0;
    let mut t: usize = 0;
    while t < trials
        invariant
            t <= trials,
            mismatches == 0,
            config.valid(),
            pow2(dim as nat) <= usize::MAX,
        decreases trials - t,
    {
        let point_seed = (t as u64).wrapping_add(4);
        let scalar_seed = (t as u64).wrapping_add(4000);
        let m = run_trial(config, dim, point_seed, scalar_seed);
        mismatches = mismatches + m;
        t = t + 1;
    }
    TrialReport { trials, mismatches, passed: mismatches == 0 }
}

/// Runs the battery for every configuration in turn — the same algorithms
/// over several distinct modulus bit-widths — and reports one verdict per
/// configuration.
pub fn run_widths(configs: &Vec<FieldConfig>, dim: usize, trials: usize) -> (r: Vec<TrialReport>)
    requires
        pow2(dim as nat) <= usize::MAX,
        forall|i: int| 0 <= i < configs@.len() ==> (#[trigger] configs@[i]).valid(),
    ensures
        r@.len() == configs@.len(),
        forall|i: int| 0 <= i < r@.len() ==>
            (#[trigger] r@[i]).trials == trials && r@[i].mismatches == 0 && r@[i].passed,
{
    let mut r: Vec<TrialReport> = Vec::new();
    let mut c: usize = 0;
    while c < configs.len()
        invariant
            c == r@.len(),
            c <= configs@.len(),
            pow2(dim as nat) <= usize::MAX,
            forall|i: int| 0 <= i < configs@.len() ==> (#[trigger] configs@[i]).valid(),
            forall|i: int| 0 <= i < r@.len() ==>
                (#[trigger] r@[i]).trials == trials && r@[i].mismatches == 0 && r@[i].passed,
        decreases configs@.len() - c,
    {
        let report = run_battery(configs[c], dim, trials);
        r.push(report);
        c = c + 1;
    }
    r
}

} // verus!
