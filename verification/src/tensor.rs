//! Construction of the equality tensor: the evaluation table of the scaled
//! multilinear equality-indicator polynomial over the corners of an
//! `n`-dimensional hypercube.
//!
//! For a point `(x_0, ..., x_{n-1})` and a scalar `s`, the build adds into
//! cell `b` (an `n`-bit index, most significant bit first) exactly
//! `s · Π_i (x_i if bit_i(b) = 1 else 1 - x_i)`, reduced modulo the field
//! prime. Two structurally unrelated builders share that contract:
//! [`tensor_build`] splits the accumulator recursively and reuses partial
//! scalars, while [`reference_build`] recomputes every cell's product from
//! scratch. Builders only ever add into existing cells; pre-zeroing is the
//! caller's responsibility.

use vstd::prelude::*;

verus! {

use crate::field::FieldElement;
use crate::field::add_mod;
use crate::field::lemma_complement_identity;
use crate::field::mul_mod;
use crate::field::sub_mod;
use crate::field::lemma_add_associative;
use crate::field::lemma_mul_commutative;
use crate::field::lemma_mul_distributive;
use crate::field::lemma_mul_one;
use vstd::arithmetic::div_mod::lemma_add_mod_noop;
use vstd::arithmetic::div_mod::lemma_add_mod_noop_right;
use vstd::arithmetic::div_mod::lemma_mul_mod_noop_right;
use vstd::arithmetic::div_mod::lemma_small_mod;
use vstd::arithmetic::mul::lemma_mul_is_distributive_sub;
use vstd::arithmetic::power2::lemma2_to64;
use vstd::arithmetic::power2::lemma_pow2_pos;
use vstd::arithmetic::power2::lemma_pow2_unfold;
use vstd::arithmetic::power2::pow2;
use vstd::pervasive::VecAdditionalExecFns;

/// The residue values of a sequence of field elements, as mathematical
/// integers.
pub open spec fn residues(s: Seq<FieldElement>) -> Seq<int> {
    s.map_values(|e: FieldElement| e.value as int)
}

/// Every element of `s` is a canonical residue of the field with modulus `p`.
pub open spec fn in_field(s: Seq<FieldElement>, p: int) -> bool {
    forall|i: int| 0 <= i < s.len() ==> (#[trigger] s[i]).modulus == p && s[i].value < p
}

/// The weight one build with scalar `s` owes to cell `idx` of the tensor for
/// the given point: `s · Π_i (x_i if bit_i(idx) = 1 else 1 - x_i)` modulo
/// `p`, with bit `i` counted from the most significant of `n` bits. The
/// product is folded head first: the first coordinate decides between the
/// low half (`1 - x_0`) and the high half (`x_0`) of the index range.
pub open spec fn eq_cell(point: Seq<int>, s: int, p: int, idx: int) -> int
    decreases point.len(),
{
    if point.len() == 0 {
        s
    } else {
        let half = pow2((point.len() - 1) as nat) as int;
        let rest = point.subrange(1, point.len() as int);
        if idx < half {
            eq_cell(rest, mul_mod(s, sub_mod(1, point[0], p), p), p, idx)
        } else {
            eq_cell(rest, mul_mod(s, point[0], p), p, idx - half)
        }
    }
}

/// How one build call changes the accumulator: every cell has had its
/// [`eq_cell`] weight added, modulo `p`, and nothing else changed.
pub open spec fn adds_weights(
    before: Seq<int>,
    after: Seq<int>,
    point: Seq<int>,
    s: int,
    p: int,
) -> bool {
    &&& after.len() == before.len()
    &&& forall|i: int| 0 <= i < before.len() ==>
        #[trigger] after[i] == add_mod(before[i], eq_cell(point, s, p, i), p)
}

/// Recursive divide-and-conquer construction of the equality tensor.
///
/// Splits the accumulator into a low and a high half, recurses into the low
/// half with `s - s·x_0` and into the high half with `s·x_0`, and adds the
/// scalar into the single cell once the point is exhausted. The two halves
/// are disjoint, so no recursive branch ever touches the other's cells.
pub fn tensor_build(acc: &mut Vec<FieldElement>, point: &Vec<FieldElement>, scalar: FieldElement)
    requires
        scalar.valid(),
        in_field(point@, scalar.modulus as int),
        in_field(old(acc)@, scalar.modulus as int),
        old(acc)@.len() == pow2(point@.len()),
    ensures
        in_field(final(acc)@, scalar.modulus as int),
        adds_weights(
            residues(old(acc)@),
            residues(final(acc)@),
            residues(point@),
            scalar.value as int,
            scalar.modulus as int,
        ),
{
    let len = acc.len();
    build_range(acc, 0, len, point, 0, scalar);
    proof {
        let ghost p = scalar.modulus as int;
        let ghost s = scalar.value as int;
        assert(residues(point@).subrange(0, point@.len() as int) =~= residues(point@));
        assert forall|i: int| 0 <= i < old(acc)@.len() implies
            #[trigger] residues(acc@)[i] == add_mod(residues(old(acc)@)[i], eq_cell(residues(point@), s, p, i), p) by {
            assert(acc@[0 + i].value == add_mod(
                old(acc)@[0 + i].value as int,
                eq_cell(residues(point@).subrange(0, point@.len() as int), s, p, i),
                p,
            ));
        }
    }
}

/// Independent iterative construction of the equality tensor, used as ground
/// truth for differential comparison against [`tensor_build`].
///
/// For every cell index the full product is recomputed from scratch by
/// walking all coordinates and testing the corresponding index bit, most
/// significant first; no intermediate product is shared between cells. The
/// low branch multiplies by `1 - x_j` computed as a field subtraction from
/// one, where the recursive builder uses `s - s·x_j`; the two agree by the
/// complement identity, which is exactly what differential trials probe.
pub fn reference_build(acc: &mut Vec<FieldElement>, point: &Vec<FieldElement>, scalar: FieldElement)
    requires
        scalar.valid(),
        in_field(point@, scalar.modulus as int),
        in_field(old(acc)@, scalar.modulus as int),
        old(acc)@.len() == pow2(point@.len()),
    ensures
        in_field(final(acc)@, scalar.modulus as int),
        adds_weights(
            residues(old(acc)@),
            residues(final(acc)@),
            residues(point@),
            scalar.value as int,
            scalar.modulus as int,
        ),
{
    let ghost p = scalar.modulus as int;
    let ghost s = scalar.value as int;
    let ghost pr = residues(point@);
    let n = point.len();
    let size = acc.len();
    let mut i: usize = 0;
    while i < size
        invariant
            i <= size,
            size == acc@.len(),
            acc@.len() == old(acc)@.len(),
            n == point@.len(),
            size == pow2(n as nat),
            scalar.valid(),
            in_field(point@, p),
            p == scalar.modulus as int,
            s == scalar.value as int,
            pr == residues(point@),
            in_field(acc@, p),
            forall|k: int| 0 <= k < i ==>
                (#[trigger] acc@[k]).value == add_mod(
                    old(acc)@[k].value as int,
                    eq_cell(pr, s, p, k),
                    p,
                ),
            forall|k: int| i <= k < size ==> #[trigger] acc@[k] == old(acc)@[k],
        decreases size - i,
    {
        let mut contribution = scalar;
        let mut r = i;
        proof {
            if n > 0 {
                lemma_pow2_unfold(n as nat);
            }
            assert(pr.subrange(0, n as int) =~= pr);
        }
        let mut w = size / 2;
        let mut j: usize = 0;
        while j < n
            invariant
                j <= n,
                n == point@.len(),
                pr == residues(point@),
                in_field(point@, p),
                p == scalar.modulus as int,
                2 <= scalar.modulus,
                contribution.valid(),
                contribution.modulus == scalar.modulus,
                j < n ==> w == pow2((n - j - 1) as nat),
                r < pow2((n - j) as nat),
                eq_cell(pr, s, p, i as int) == eq_cell(
                    pr.subrange(j as int, n as int),
                    contribution.value as int,
                    p,
                    r as int,
                ),
            decreases n - j,
        {
            let ghost sub_j = pr.subrange(j as int, n as int);
            proof {
                assert(sub_j.subrange(1, sub_j.len() as int) =~= pr.subrange(j + 1, n as int));
                assert(sub_j[0] == point@[j as int].value as int);
            }
            let xj = point[j];
            if r >= w {
                contribution = contribution.mul(xj);
                r = r - w;
            } else {
                let one = FieldElement::one(contribution.modulus);
                contribution = contribution.mul(one.sub(xj));
            }
            proof {
                lemma_pow2_unfold((n - j) as nat);
                if j + 1 < n {
                    lemma_pow2_unfold((n - j - 1) as nat);
                    lemma_pow2_pos((n - j - 2) as nat);
                }
            }
            w = w / 2;
            j = j + 1;
        }
        proof {
            assert(pr.subrange(n as int, n as int).len() == 0);
            assert(eq_cell(pr, s, p, i as int) == contribution.value as int);
        }
        let cur = acc[i];
        acc.set(i, cur.add(contribution));
        i = i + 1;
    }
}

/// One recursive branch of [`tensor_build`], owning the `len` cells of the
/// accumulator that start at `off` and the coordinates of the point from
/// position `pi` on.
fn build_range(
    acc: &mut Vec<FieldElement>,
    off: usize,
    len: usize,
    point: &Vec<FieldElement>,
    pi: usize,
    scalar: FieldElement,
)
    requires
        scalar.valid(),
        pi <= point@.len(),
        in_field(point@, scalar.modulus as int),
        in_field(old(acc)@, scalar.modulus as int),
        len == pow2((point@.len() - pi) as nat),
        off + len <= old(acc)@.len(),
    ensures
        final(acc)@.len() == old(acc)@.len(),
        in_field(final(acc)@, scalar.modulus as int),
        forall|i: int| 0 <= i < len ==>
            (#[trigger] final(acc)@[off + i]).value == add_mod(
                old(acc)@[off + i].value as int,
                eq_cell(
                    residues(point@).subrange(pi as int, point@.len() as int),
                    scalar.value as int,
                    scalar.modulus as int,
                    i,
                ),
                scalar.modulus as int,
            ),
        forall|i: int| 0 <= i < old(acc)@.len() && !(off <= i < off + len) ==>
            #[trigger] final(acc)@[i] == old(acc)@[i],
    decreases point@.len() - pi,
{
    let ghost p = scalar.modulus as int;
    let ghost full = residues(point@).subrange(pi as int, point@.len() as int);
    if pi == point.len() {
        proof {
            lemma2_to64();
            assert(len == 1);
            assert(full.len() == 0);
        }
        let cur = acc[off];
        acc.set(off, cur.add(scalar));
    } else {
        proof {
            lemma_pow2_unfold((point@.len() - pi) as nat);
            lemma_pow2_pos((point@.len() - pi - 1) as nat);
        }
        let half = len / 2;
        let x0 = point[pi];
        let s1 = scalar.mul(x0);
        let s0 = scalar.sub(s1);
        proof {
            lemma_complement_identity(scalar.value as int, x0.value as int, p);
        }
        let ghost acc0 = acc@;
        build_range(acc, off, half, point, pi + 1, s0);
        let ghost acc1 = acc@;
        proof {
            assert(acc.len() == acc1.len());
        }
        let off2 = off + half;
        build_range(acc, off2, half, point, pi + 1, s1);
        proof {
            let tail = residues(point@).subrange(pi + 1, point@.len() as int);
            assert(full.subrange(1, full.len() as int) =~= tail);
            assert(full[0] == x0.value as int);
            assert forall|i: int| 0 <= i < len implies
                (#[trigger] final(acc)@[off + i]).value == add_mod(
                    acc0[off + i].value as int,
                    eq_cell(full, scalar.value as int, p, i),
                    p,
                ) by {
                if i < half {
                    assert(final(acc)@[off + i] == acc1[off + i]);
                    assert(eq_cell(full, scalar.value as int, p, i)
                        == eq_cell(tail, s0.value as int, p, i));
                } else {
                    let j = i - half;
                    assert(acc1[off2 + j] == acc0[off2 + j]);
                    assert(final(acc)@[off2 + j].value == add_mod(
                        acc1[off2 + j].value as int,
                        eq_cell(tail, s1.value as int, p, j),
                        p,
                    ));
                    assert(off2 + j == off + i);
                    assert(eq_cell(full, scalar.value as int, p, i)
                        == eq_cell(tail, s1.value as int, p, j));
                }
            }
        }
    }
}

/// Equivalence law: two builds from the same initial accumulator contents,
/// the same point and the same scalar produce identical contents, cell for
/// cell — whichever of the builders produced each. The build contract pins
/// every cell, so any two results that meet it are equal.
pub proof fn lemma_equivalence(
    before: Seq<int>,
    a: Seq<int>,
    b: Seq<int>,
    point: Seq<int>,
    s: int,
    p: int,
)
    requires
        adds_weights(before, a, point, s, p),
        adds_weights(before, b, point, s, p),
    ensures
        a == b,
{
    assert(a =~= b);
}

/// Determinism law: repeated construction from identical inputs on equally
/// prepared accumulators always yields bit-identical output.
pub proof fn lemma_determinism(
    before: Seq<int>,
    first: Seq<int>,
    second: Seq<int>,
    point: Seq<int>,
    s: int,
    p: int,
)
    requires
        adds_weights(before, first, point, s, p),
        adds_weights(before, second, point, s, p),
    ensures
        first == second,
{
    lemma_equivalence(before, first, second, point, s, p);
}

/// The cell weight is linear in the scalar: building with `s1 + s2` owes
/// each cell the sum of what builds with `s1` and with `s2` owe it.
pub proof fn lemma_cell_linearity(point: Seq<int>, s1: int, s2: int, p: int, idx: int)
    requires
        2 <= p,
    ensures
        eq_cell(point, add_mod(s1, s2, p), p, idx) == add_mod(
            eq_cell(point, s1, p, idx),
            eq_cell(point, s2, p, idx),
            p,
        ),
    decreases point.len(),
{
    if point.len() == 0 {
    } else {
        let half = pow2((point.len() - 1) as nat) as int;
        let rest = point.subrange(1, point.len() as int);
        let x = point[0];
        let t = if idx < half { sub_mod(1, x, p) } else { x };
        let sum = add_mod(s1, s2, p);
        lemma_mul_commutative(sum, t, p);
        lemma_mul_distributive(t, s1, s2, p);
        lemma_mul_commutative(t, s1, p);
        lemma_mul_commutative(t, s2, p);
        assert(mul_mod(sum, t, p) == add_mod(mul_mod(s1, t, p), mul_mod(s2, t, p), p));
        if idx < half {
            lemma_cell_linearity(rest, mul_mod(s1, t, p), mul_mod(s2, t, p), p, idx);
        } else {
            lemma_cell_linearity(rest, mul_mod(s1, t, p), mul_mod(s2, t, p), p, idx - half);
        }
    }
}

/// Additivity law: invoking a builder twice on the same non-reset
/// accumulator with scalars `s1` and then `s2` yields the same contents as
/// one invocation with `s1 + s2`, since builders add rather than overwrite.
pub proof fn lemma_additivity(
    acc0: Seq<int>,
    mid: Seq<int>,
    out: Seq<int>,
    point: Seq<int>,
    s1: int,
    s2: int,
    p: int,
)
    requires
        2 <= p,
        adds_weights(acc0, mid, point, s1, p),
        adds_weights(mid, out, point, s2, p),
    ensures
        adds_weights(acc0, out, point, add_mod(s1, s2, p), p),
{
    assert forall|i: int| 0 <= i < acc0.len() implies
        #[trigger] out[i] == add_mod(acc0[i], eq_cell(point, add_mod(s1, s2, p), p, i), p) by {
        lemma_cell_linearity(point, s1, s2, p, i);
        lemma_add_associative(acc0[i], eq_cell(point, s1, p, i), eq_cell(point, s2, p, i), p);
    }
}

/// The mod-`p` sum of the cell weights at indices `0 ..= count - 1`.
pub open spec fn weight_sum(point: Seq<int>, s: int, p: int, count: int) -> int
    decreases count,
{
    if count <= 0 {
        0
    } else {
        add_mod(weight_sum(point, s, p, count - 1), eq_cell(point, s, p, count - 1), p)
    }
}

proof fn lemma_weight_sum_bounds(point: Seq<int>, s: int, p: int, count: int)
    requires
        2 <= p,
    ensures
        0 <= weight_sum(point, s, p, count) < p,
    decreases count,
{
    if count <= 0 {
    } else {
        lemma_weight_sum_bounds(point, s, p, count - 1);
    }
}

/// Every weight in the low half of the index range is a weight of the low
/// sub-build, so their prefix sums agree.
proof fn lemma_sum_low(point: Seq<int>, s: int, p: int, count: int)
    requires
        2 <= p,
        point.len() > 0,
        count <= pow2((point.len() - 1) as nat),
    ensures
        weight_sum(point, s, p, count) == weight_sum(
            point.subrange(1, point.len() as int),
            mul_mod(s, sub_mod(1, point[0], p), p),
            p,
            count,
        ),
    decreases count,
{
    if count <= 0 {
    } else {
        lemma_sum_low(point, s, p, count - 1);
    }
}

/// Summing `count` further weights past the low half adds exactly the prefix
/// sum of the high sub-build.
proof fn lemma_sum_high(point: Seq<int>, s: int, p: int, count: int)
    requires
        2 <= p,
        point.len() > 0,
        0 <= count,
    ensures
        weight_sum(point, s, p, pow2((point.len() - 1) as nat) + count) == add_mod(
            weight_sum(point, s, p, pow2((point.len() - 1) as nat) as int),
            weight_sum(point.subrange(1, point.len() as int), mul_mod(s, point[0], p), p, count),
            p,
        ),
    decreases count,
{
    let half = pow2((point.len() - 1) as nat) as int;
    if count <= 0 {
        lemma_weight_sum_bounds(point, s, p, half);
        lemma_small_mod(weight_sum(point, s, p, half) as nat, p as nat);
    } else {
        lemma_sum_high(point, s, p, count - 1);
        lemma_add_associative(
            weight_sum(point, s, p, half),
            weight_sum(point.subrange(1, point.len() as int), mul_mod(s, point[0], p), p, count - 1),
            eq_cell(point, s, p, half + count - 1),
            p,
        );
    }
}

/// Sum law, totalled: the mod-`p` sum of all `2^n` cell weights of one build
/// equals the scalar itself — the equality-indicator products over all
/// corners of the hypercube form a partition of unity.
pub proof fn lemma_weight_sum_total(point: Seq<int>, s: int, p: int)
    requires
        2 <= p,
    ensures
        weight_sum(point, s, p, pow2(point.len()) as int) == s % p,
    decreases point.len(),
{
    if point.len() == 0 {
        lemma2_to64();
        assert(pow2(point.len()) == 1);
        assert(weight_sum(point, s, p, 0) == 0);
        assert(weight_sum(point, s, p, 1) == add_mod(0, eq_cell(point, s, p, 0), p));
    } else {
        let n = point.len();
        let rest = point.subrange(1, n as int);
        let x = point[0];
        let lo = mul_mod(s, sub_mod(1, x, p), p);
        let hi = mul_mod(s, x, p);
        let half = pow2((n - 1) as nat) as int;
        lemma_pow2_unfold(n);
        assert(pow2(n) == half + half);
        assert(rest.len() == n - 1);
        lemma_sum_low(point, s, p, half);
        lemma_sum_high(point, s, p, half);
        assert(weight_sum(point, s, p, pow2(n) as int) == add_mod(
            weight_sum(rest, lo, p, half),
            weight_sum(rest, hi, p, half),
            p,
        ));
        lemma_weight_sum_total(rest, lo, p);
        lemma_weight_sum_total(rest, hi, p);
        lemma_small_mod(lo as nat, p as nat);
        lemma_small_mod(hi as nat, p as nat);
        assert(weight_sum(point, s, p, pow2(n) as int) == add_mod(lo, hi, p));
        lemma_mul_mod_noop_right(s, 1 - x, p);
        assert(lo == (s * (1 - x)) % p);
        lemma_add_mod_noop(s * (1 - x), s * x, p);
        assert(s * (1 - x) + s * x == s) by {
            lemma_mul_is_distributive_sub(s, 1, x);
        }
    }
}

/// Sum law, product form: the sum of all cells equals `s` times the sum over
/// all `2^n` corners of the unit product terms (a build with scalar one).
pub proof fn lemma_sum_law(point: Seq<int>, s: int, p: int)
    requires
        2 <= p,
        0 <= s < p,
    ensures
        weight_sum(point, s, p, pow2(point.len()) as int) == mul_mod(
            s,
            weight_sum(point, 1, p, pow2(point.len()) as int),
            p,
        ),
        weight_sum(point, s, p, pow2(point.len()) as int) == s,
{
    lemma_weight_sum_total(point, s, p);
    lemma_weight_sum_total(point, 1, p);
    lemma_small_mod(s as nat, p as nat);
    lemma_small_mod(1nat, p as nat);
    lemma_mul_one(s, p);
}

/// The mod-`p` sum of the cells at indices `0 ..= count - 1` of a residue
/// sequence.
pub open spec fn cells_sum(cells: Seq<int>, p: int, count: int) -> int
    decreases count,
{
    if count <= 0 {
        0
    } else {
        add_mod(cells_sum(cells, p, count - 1), cells[count - 1], p)
    }
}

proof fn lemma_cells_sum_matches(
    before: Seq<int>,
    after: Seq<int>,
    point: Seq<int>,
    s: int,
    p: int,
    count: int,
)
    requires
        2 <= p,
        adds_weights(before, after, point, s, p),
        forall|i: int| 0 <= i < before.len() ==> before[i] == 0,
        count <= before.len(),
    ensures
        cells_sum(after, p, count) == weight_sum(point, s, p, count),
    decreases count,
{
    if count > 0 {
        lemma_cells_sum_matches(before, after, point, s, p, count - 1);
        assert(after[count - 1] == add_mod(0, eq_cell(point, s, p, count - 1), p));
        lemma_add_mod_noop_right(
            cells_sum(after, p, count - 1),
            eq_cell(point, s, p, count - 1),
            p,
        );
    }
}

/// Sum law over the accumulator itself: after one build with a canonical
/// scalar on a freshly zeroed accumulator, the mod-`p` sum of all cells
/// equals the scalar.
pub proof fn lemma_accumulator_sum(
    before: Seq<int>,
    after: Seq<int>,
    point: Seq<int>,
    s: int,
    p: int,
)
    requires
        2 <= p,
        0 <= s < p,
        forall|i: int| 0 <= i < before.len() ==> before[i] == 0,
        before.len() == pow2(point.len()),
        adds_weights(before, after, point, s, p),
    ensures
        cells_sum(after, p, after.len() as int) == s,
{
    lemma_cells_sum_matches(before, after, point, s, p, before.len() as int);
    lemma_weight_sum_total(point, s, p);
    lemma_small_mod(s as nat, p as nat);
}

/// A zero scalar contributes nothing to any cell.
pub proof fn lemma_cell_zero_scalar(point: Seq<int>, p: int, idx: int)
    requires
        2 <= p,
    ensures
        eq_cell(point, 0, p, idx) == 0,
    decreases point.len(),
{
    if point.len() == 0 {
    } else {
        let half = pow2((point.len() - 1) as nat) as int;
        let rest = point.subrange(1, point.len() as int);
        let t = if idx < half { sub_mod(1, point[0], p) } else { point[0] };
        assert(mul_mod(0, t, p) == 0) by {
            lemma_small_mod(0, p as nat);
        }
        if idx < half {
            lemma_cell_zero_scalar(rest, p, idx);
        } else {
            lemma_cell_zero_scalar(rest, p, idx - half);
        }
    }
}

/// Hypercube boundary, all-zeros corner: with every coordinate zero, cell 0
/// receives the full scalar and every other cell receives zero.
pub proof fn lemma_corner_all_zero(point: Seq<int>, s: int, p: int, idx: int)
    requires
        2 <= p,
        0 <= s < p,
        forall|i: int| 0 <= i < point.len() ==> point[i] == 0,
        0 <= idx < pow2(point.len()),
    ensures
        eq_cell(point, s, p, idx) == if idx == 0 {
            s
        } else {
            0
        },
    decreases point.len(),
{
    if point.len() == 0 {
        lemma2_to64();
    } else {
        lemma_pow2_unfold(point.len());
        let half = pow2((point.len() - 1) as nat) as int;
        let rest = point.subrange(1, point.len() as int);
        assert(point[0] == 0);
        assert(sub_mod(1, 0, p) == 1) by {
            lemma_small_mod(1nat, p as nat);
        }
        lemma_mul_one(s, p);
        assert(mul_mod(s, 0, p) == 0) by {
            lemma_small_mod(0, p as nat);
        }
        assert(forall|i: int| 0 <= i < rest.len() ==> rest[i] == 0);
        if idx < half {
            lemma_corner_all_zero(rest, s, p, idx);
        } else {
            lemma_pow2_pos((point.len() - 1) as nat);
            lemma_cell_zero_scalar(rest, p, idx - half);
        }
    }
}

/// Hypercube boundary, all-ones corner: with every coordinate one, the last
/// cell receives the full scalar and every other cell receives zero.
pub proof fn lemma_corner_all_one(point: Seq<int>, s: int, p: int, idx: int)
    requires
        2 <= p,
        0 <= s < p,
        forall|i: int| 0 <= i < point.len() ==> point[i] == 1,
        0 <= idx < pow2(point.len()),
    ensures
        eq_cell(point, s, p, idx) == if idx == pow2(point.len()) - 1 {
            s
        } else {
            0
        },
    decreases point.len(),
{
    if point.len() == 0 {
        lemma2_to64();
    } else {
        let n = point.len();
        let half = pow2((n - 1) as nat) as int;
        let rest = point.subrange(1, n as int);
        assert(point[0] == 1);
        assert(sub_mod(1, 1, p) == 0) by {
            lemma_small_mod(0, p as nat);
        }
        assert(mul_mod(s, 0, p) == 0) by {
            lemma_small_mod(0, p as nat);
        }
        lemma_mul_one(s, p);
        lemma_mul_commutative(s, 1, p);
        assert(forall|i: int| 0 <= i < rest.len() ==> rest[i] == 1);
        lemma_pow2_unfold(n);
        if idx < half {
            lemma_cell_zero_scalar(rest, p, idx);
        } else {
            lemma_corner_all_one(rest, s, p, idx - half);
        }
    }
}

/// A scalar-splitting rule for the diagnostic recursions. Each isolates one
/// ingredient of the full builder — a lone multiply, or a lone subtract — so
/// a divergence can be pinned on the combination rather than on either
/// operation alone.
#[derive(Clone, Copy, Debug, PartialEq, Eq, Structural)]
pub enum SplitRule {
    /// Low half keeps the scalar; high half receives `s · x`.
    MulOnly,
    /// Low half receives `s - x`; high half keeps the scalar.
    SubOnly,
}

/// The scalars handed to the low and the high half of one split, for the
/// given rule, current scalar `s` and leading coordinate `x`.
pub open spec fn split_scalars(rule: SplitRule, s: int, x: int, p: int) -> (int, int) {
    match rule {
        SplitRule::MulOnly => (s, mul_mod(s, x, p)),
        SplitRule::SubOnly => (sub_mod(s, x, p), s),
    }
}

/// The weight a diagnostic recursion with the given rule owes to cell `idx`,
/// by the same head-first index split as [`eq_cell`].
pub open spec fn diag_cell(rule: SplitRule, point: Seq<int>, s: int, p: int, idx: int) -> int
    decreases point.len(),
{
    if point.len() == 0 {
        s
    } else {
        let half = pow2((point.len() - 1) as nat) as int;
        let rest = point.subrange(1, point.len() as int);
        if idx < half {
            diag_cell(rule, rest, split_scalars(rule, s, point[0], p).0, p, idx)
        } else {
            diag_cell(rule, rest, split_scalars(rule, s, point[0], p).1, p, idx - half)
        }
    }
}

/// Diagnostic recursion that only ever multiplies the scalar: the low half
/// keeps it, the high half receives `s · x_0`.
pub fn mul_only_build(acc: &mut Vec<FieldElement>, point: &Vec<FieldElement>, scalar: FieldElement)
    requires
        scalar.valid(),
        in_field(point@, scalar.modulus as int),
        in_field(old(acc)@, scalar.modulus as int),
        old(acc)@.len() == pow2(point@.len()),
    ensures
        in_field(final(acc)@, scalar.modulus as int),
        final(acc)@.len() == old(acc)@.len(),
        forall|i: int| 0 <= i < old(acc)@.len() ==>
            (#[trigger] final(acc)@[i]).value == add_mod(
                old(acc)@[i].value as int,
                diag_cell(SplitRule::MulOnly, residues(point@), scalar.value as int, scalar.modulus as int, i),
                scalar.modulus as int,
            ),
{
    let len = acc.len();
    diag_range(acc, 0, len, point, 0, scalar, SplitRule::MulOnly);
    proof {
        assert(residues(point@).subrange(0, point@.len() as int) =~= residues(point@));
        assert forall|i: int| 0 <= i < old(acc)@.len() implies
            (#[trigger] final(acc)@[i]).value == add_mod(
                old(acc)@[i].value as int,
                diag_cell(SplitRule::MulOnly, residues(point@), scalar.value as int, scalar.modulus as int, i),
                scalar.modulus as int,
            ) by {
            assert(acc@[0 + i].value == add_mod(
                old(acc)@[0 + i].value as int,
                diag_cell(
                    SplitRule::MulOnly,
                    residues(point@).subrange(0, point@.len() as int),
                    scalar.value as int,
                    scalar.modulus as int,
                    i,
                ),
                scalar.modulus as int,
            ));
        }
    }
}

/// Diagnostic recursion that only ever subtracts from the scalar: the low
/// half receives `s - x_0`, the high half keeps it.
pub fn sub_only_build(acc: &mut Vec<FieldElement>, point: &Vec<FieldElement>, scalar: FieldElement)
    requires
        scalar.valid(),
        in_field(point@, scalar.modulus as int),
        in_field(old(acc)@, scalar.modulus as int),
        old(acc)@.len() == pow2(point@.len()),
    ensures
        in_field(final(acc)@, scalar.modulus as int),
        final(acc)@.len() == old(acc)@.len(),
        forall|i: int| 0 <= i < old(acc)@.len() ==>
            (#[trigger] final(acc)@[i]).value == add_mod(
                old(acc)@[i].value as int,
                diag_cell(SplitRule::SubOnly, residues(point@), scalar.value as int, scalar.modulus as int, i),
                scalar.modulus as int,
            ),
{
    let len = acc.len();
    diag_range(acc, 0, len, point, 0, scalar, SplitRule::SubOnly);
    proof {
        assert(residues(point@).subrange(0, point@.len() as int) =~= residues(point@));
        assert forall|i: int| 0 <= i < old(acc)@.len() implies
            (#[trigger] final(acc)@[i]).value == add_mod(
                old(acc)@[i].value as int,
                diag_cell(SplitRule::SubOnly, residues(point@), scalar.value as int, scalar.modulus as int, i),
                scalar.modulus as int,
            ) by {
            assert(acc@[0 + i].value == add_mod(
                old(acc)@[0 + i].value as int,
                diag_cell(
                    SplitRule::SubOnly,
                    residues(point@).subrange(0, point@.len() as int),
                    scalar.value as int,
                    scalar.modulus as int,
                    i,
                ),
                scalar.modulus as int,
            ));
        }
    }
}

/// One recursive branch of a diagnostic build, owning the `len` cells of the
/// accumulator that start at `off`.
fn diag_range(
    acc: &mut Vec<FieldElement>,
    off: usize,
    len: usize,
    point: &Vec<FieldElement>,
    pi: usize,
    scalar: FieldElement,
    rule: SplitRule,
)
    requires
        scalar.valid(),
        pi <= point@.len(),
        in_field(point@, scalar.modulus as int),
        in_field(old(acc)@, scalar.modulus as int),
        len == pow2((point@.len() - pi) as nat),
        off + len <= old(acc)@.len(),
    ensures
        final(acc)@.len() == old(acc)@.len(),
        in_field(final(acc)@, scalar.modulus as int),
        forall|i: int| 0 <= i < len ==>
            (#[trigger] final(acc)@[off + i]).value == add_mod(
                old(acc)@[off + i].value as int,
                diag_cell(
                    rule,
                    residues(point@).subrange(pi as int, point@.len() as int),
                    scalar.value as int,
                    scalar.modulus as int,
                    i,
                ),
                scalar.modulus as int,
            ),
        forall|i: int| 0 <= i < old(acc)@.len() && !(off <= i < off + len) ==>
            #[trigger] final(acc)@[i] == old(acc)@[i],
    decreases point@.len() - pi,
{
    let ghost p = scalar.modulus as int;
    let ghost full = residues(point@).subrange(pi as int, point@.len() as int);
    if pi == point.len() {
        proof {
            lemma2_to64();
            assert(len == 1);
            assert(full.len() == 0);
        }
        let cur = acc[off];
        acc.set(off, cur.add(scalar));
    } else {
        proof {
            lemma_pow2_unfold((point@.len() - pi) as nat);
            lemma_pow2_pos((point@.len() - pi - 1) as nat);
        }
        let half = len / 2;
        let x0 = point[pi];
        let s0: FieldElement;
        let s1: FieldElement;
        match rule {
            SplitRule::MulOnly => {
                s0 = scalar;
                s1 = scalar.mul(x0);
            },
            SplitRule::SubOnly => {
                s0 = scalar.sub(x0);
                s1 = scalar;
            },
        }
        let ghost acc0 = acc@;
        proof {
            build_pair_check(rule, scalar, x0, s0, s1, p);
        }
        diag_range(acc, off, half, point, pi + 1, s0, rule);
        let ghost acc1 = acc@;
        proof {
            assert(acc.len() == acc1.len());
        }
        let off2 = off + half;
        diag_range(acc, off2, half, point, pi + 1, s1, rule);
        proof {
            let tail = residues(point@).subrange(pi + 1, point@.len() as int);
            assert(full.subrange(1, full.len() as int) =~= tail);
            assert(full[0] == x0.value as int);
            assert forall|i: int| 0 <= i < len implies
                (#[trigger] final(acc)@[off + i]).value == add_mod(
                    acc0[off + i].value as int,
                    diag_cell(rule, full, scalar.value as int, p, i),
                    p,
                ) by {
                if i < half {
                    assert(final(acc)@[off + i] == acc1[off + i]);
                    assert(diag_cell(rule, full, scalar.value as int, p, i)
                        == diag_cell(rule, tail, s0.value as int, p, i));
                } else {
                    let j = i - half;
                    assert(acc1[off2 + j] == acc0[off2 + j]);
                    assert(final(acc)@[off2 + j].value == add_mod(
                        acc1[off2 + j].value as int,
                        diag_cell(rule, tail, s1.value as int, p, j),
                        p,
                    ));
                    assert(off2 + j == off + i);
                    assert(diag_cell(rule, full, scalar.value as int, p, i)
                        == diag_cell(rule, tail, s1.value as int, p, j));
                }
            }
        }
    }
}

/// The executable scalar split agrees with [`split_scalars`].
proof fn build_pair_check(
    rule: SplitRule,
    scalar: FieldElement,
    x0: FieldElement,
    s0: FieldElement,
    s1: FieldElement,
    p: int,
)
    requires
        p == scalar.modulus as int,
        match rule {
            SplitRule::MulOnly => s0 == scalar && s1.value as int == mul_mod(scalar.value as int, x0.value as int, p),
            SplitRule::SubOnly => s0.value as int == sub_mod(scalar.value as int, x0.value as int, p) && s1 == scalar,
        },
    ensures
        s0.value as int == split_scalars(rule, scalar.value as int, x0.value as int, p).0,
        s1.value as int == split_scalars(rule, scalar.value as int, x0.value as int, p).1,
{
}

/// Diagnostic recursion that only ever adds: every leaf receives the scalar
/// unchanged, so after one build every cell has had the scalar added once.
pub fn add_only_build(acc: &mut Vec<FieldElement>, depth: usize, scalar: FieldElement)
    requires
        scalar.valid(),
        in_field(old(acc)@, scalar.modulus as int),
        old(acc)@.len() == pow2(depth as nat),
    ensures
        in_field(final(acc)@, scalar.modulus as int),
        final(acc)@.len() == old(acc)@.len(),
        forall|i: int| 0 <= i < old(acc)@.len() ==>
            (#[trigger] final(acc)@[i]).value == add_mod(
                old(acc)@[i].value as int,
                scalar.value as int,
                scalar.modulus as int,
            ),
{
    let len = acc.len();
    add_range(acc, 0, len, depth, scalar);
    proof {
        assert forall|i: int| 0 <= i < old(acc)@.len() implies
            (#[trigger] final(acc)@[i]).value == add_mod(
                old(acc)@[i].value as int,
                scalar.value as int,
                scalar.modulus as int,
            ) by {
            assert(acc@[0 + i].value == add_mod(
                old(acc)@[0 + i].value as int,
                scalar.value as int,
                scalar.modulus as int,
            ));
        }
    }
}

/// One recursive branch of [`add_only_build`].
fn add_range(acc: &mut Vec<FieldElement>, off: usize, len: usize, depth: usize, scalar: FieldElement)
    requires
        scalar.valid(),
        in_field(old(acc)@, scalar.modulus as int),
        len == pow2(depth as nat),
        off + len <= old(acc)@.len(),
    ensures
        final(acc)@.len() == old(acc)@.len(),
        in_field(final(acc)@, scalar.modulus as int),
        forall|i: int| 0 <= i < len ==>
            (#[trigger] final(acc)@[off + i]).value == add_mod(
                old(acc)@[off + i].value as int,
                scalar.value as int,
                scalar.modulus as int,
            ),
        forall|i: int| 0 <= i < old(acc)@.len() && !(off <= i < off + len) ==>
            #[trigger] final(acc)@[i] == old(acc)@[i],
    decreases depth,
{
    if depth == 0 {
        proof {
            lemma2_to64();
            assert(len == 1);
        }
        let cur = acc[off];
        acc.set(off, cur.add(scalar));
    } else {
        proof {
            lemma_pow2_unfold(depth as nat);
            lemma_pow2_pos((depth - 1) as nat);
        }
        let half = len / 2;
        let ghost acc0 = acc@;
        add_range(acc, off, half, depth - 1, scalar);
        let ghost acc1 = acc@;
        proof {
            assert(acc.len() == acc1.len());
        }
        let off2 = off + half;
        add_range(acc, off2, half, depth - 1, scalar);
        proof {
            assert forall|i: int| 0 <= i < len implies
                (#[trigger] final(acc)@[off + i]).value == add_mod(
                    acc0[off + i].value as int,
                    scalar.value as int,
                    scalar.modulus as int,
                ) by {
                if i < half {
                    assert(final(acc)@[off + i] == acc1[off + i]);
                } else {
                    let j = i - half;
                    assert(acc1[off2 + j] == acc0[off2 + j]);
                    assert(final(acc)@[off2 + j].value == add_mod(
                        acc1[off2 + j].value as int,
                        scalar.value as int,
                        scalar.modulus as int,
                    ));
                    assert(off2 + j == off + i);
                }
            }
        }
    }
}

} // verus!
