use eq_tensor::field::FieldElement;
use eq_tensor::harness::gen_vec;
use eq_tensor::harness::zero_accumulator;
use eq_tensor::tensor::add_only_build;
use eq_tensor::tensor::mul_only_build;
use eq_tensor::tensor::reference_build;
use eq_tensor::tensor::sub_only_build;
use eq_tensor::tensor::tensor_build;

fn values(acc: &Vec<FieldElement>) -> Vec<u64> {
    let mut out = Vec::new();
    for e in acc {
        out.push(e.value);
    }
    out
}

fn point_of(values: &[u64], modulus: u64) -> Vec<FieldElement> {
    let mut out = Vec::new();
    for &v in values {
        out.push(FieldElement::new(v, modulus));
    }
    out
}

#[test]
fn concrete_scenario_mod_17() {
    // P = 17, point = [3, 5], scalar = 2: cells indexed 00, 01, 10, 11 by
    // coordinate bits, most significant first.
    let m: u64 = 17;
    let point = point_of(&[3, 5], m);
    let scalar = FieldElement::new(2, m);
    let mut acc = zero_accumulator(4, m);
    tensor_build(&mut acc, &point, scalar);
    assert_eq!(values(&acc), vec![16, 14, 10, 13]);

    let mut reference = zero_accumulator(4, m);
    reference_build(&mut reference, &point, scalar);
    assert_eq!(values(&reference), vec![16, 14, 10, 13]);
}

#[test]
fn zero_dimension_adds_into_sole_cell() {
    let m: u64 = 17;
    let point: Vec<FieldElement> = Vec::new();
    let scalar = FieldElement::new(5, m);
    let mut acc = vec![FieldElement::new(4, m)];
    tensor_build(&mut acc, &point, scalar);
    assert_eq!(values(&acc), vec![9]);
    let mut acc2 = vec![FieldElement::new(4, m)];
    reference_build(&mut acc2, &point, scalar);
    assert_eq!(values(&acc2), vec![9]);
}

#[test]
fn builders_add_rather_than_overwrite() {
    let m: u64 = 17;
    let point = point_of(&[3, 5], m);
    let scalar = FieldElement::new(2, m);
    let mut acc = Vec::new();
    for v in [1u64, 2, 3, 4] {
        acc.push(FieldElement::new(v, m));
    }
    tensor_build(&mut acc, &point, scalar);
    // [16, 14, 10, 13] on a zeroed accumulator, plus the pre-existing cells.
    assert_eq!(values(&acc), vec![0, 16, 13, 0]);
}

#[test]
fn equivalence_across_dimensions() {
    let m: u64 = 2147483647;
    for dim in 0..7usize {
        let size = 1usize << dim;
        for seed in [2u64, 3, 10, 123456789] {
            let point = gen_vec(dim, seed, m);
            let scalar = FieldElement::new(seed.wrapping_mul(97).wrapping_add(5), m);
            let mut a = zero_accumulator(size, m);
            let mut b = zero_accumulator(size, m);
            tensor_build(&mut a, &point, scalar);
            reference_build(&mut b, &point, scalar);
            assert_eq!(values(&a), values(&b));
        }
    }
}

#[test]
fn additivity_of_two_builds() {
    let m: u64 = 131071;
    let point = point_of(&[17, 99, 1000], m);
    let s1 = FieldElement::new(123, m);
    let s2 = FieldElement::new(45678, m);
    let mut twice = zero_accumulator(8, m);
    tensor_build(&mut twice, &point, s1);
    tensor_build(&mut twice, &point, s2);
    let mut once = zero_accumulator(8, m);
    tensor_build(&mut once, &point, s1.add(s2));
    assert_eq!(values(&twice), values(&once));
}

#[test]
fn determinism_of_repeated_builds() {
    let m: u64 = 2305843009213693951;
    let point = gen_vec(5, 77, m);
    let scalar = FieldElement::new(424242, m);
    let mut first = zero_accumulator(32, m);
    let mut second = zero_accumulator(32, m);
    tensor_build(&mut first, &point, scalar);
    tensor_build(&mut second, &point, scalar);
    assert_eq!(values(&first), values(&second));
}

#[test]
fn cell_sum_equals_scalar() {
    // The equality-indicator products over all corners sum to one, so the
    // cells of a fresh build sum to the scalar.
    let m: u64 = 131071;
    let point = point_of(&[40, 50000, 6, 12345], m);
    for s in [0u64, 1, 2, 77777] {
        let scalar = FieldElement::new(s, m);
        let mut acc = zero_accumulator(16, m);
        tensor_build(&mut acc, &point, scalar);
        let mut sum = FieldElement::zero(m);
        for i in 0..acc.len() {
            sum = sum.add(acc[i]);
        }
        assert_eq!(sum.value, s);
    }
}

#[test]
fn boundary_corners_of_the_hypercube() {
    let m: u64 = 17;
    let s: u64 = 11;
    let scalar = FieldElement::new(s, m);

    let all_zero = point_of(&[0, 0, 0], m);
    let mut acc = zero_accumulator(8, m);
    tensor_build(&mut acc, &all_zero, scalar);
    assert_eq!(values(&acc), vec![s, 0, 0, 0, 0, 0, 0, 0]);

    let all_one = point_of(&[1, 1, 1], m);
    let mut acc = zero_accumulator(8, m);
    tensor_build(&mut acc, &all_one, scalar);
    assert_eq!(values(&acc), vec![0, 0, 0, 0, 0, 0, 0, s]);
}

#[test]
fn add_only_reaches_every_cell_once() {
    let m: u64 = 17;
    let scalar = FieldElement::new(7, m);
    let mut acc = zero_accumulator(8, m);
    add_only_build(&mut acc, 3, scalar);
    assert_eq!(values(&acc), vec![7; 8]);
    add_only_build(&mut acc, 3, scalar);
    assert_eq!(values(&acc), vec![14; 8]);
}

#[test]
fn mul_only_matches_manual_reference() {
    let m: u64 = 2147483647;
    let dim = 6usize;
    let size = 1usize << dim;
    let point = gen_vec(dim, 9, m);
    let scalar = FieldElement::new(2009, m);
    let mut acc = zero_accumulator(size, m);
    mul_only_build(&mut acc, &point, scalar);
    for j in 0..size {
        let mut c = scalar;
        for (k, pk) in point.iter().enumerate() {
            let bit = (j >> (dim - 1 - k)) & 1;
            if bit == 1 {
                c = c.mul(*pk);
            }
        }
        assert_eq!(acc[j].value, c.value);
    }
}

#[test]
fn sub_only_matches_manual_reference() {
    let m: u64 = 2147483647;
    let dim = 6usize;
    let size = 1usize << dim;
    let point = gen_vec(dim, 13, m);
    let scalar = FieldElement::new(3009, m);
    let mut acc = zero_accumulator(size, m);
    sub_only_build(&mut acc, &point, scalar);
    for j in 0..size {
        let mut c = scalar;
        for (k, pk) in point.iter().enumerate() {
            let bit = (j >> (dim - 1 - k)) & 1;
            if bit == 0 {
                c = c.sub(*pk);
            }
        }
        assert_eq!(acc[j].value, c.value);
    }
}
