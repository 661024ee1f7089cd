use eq_tensor::field::FieldElement;

const P: u64 = 17;

#[test]
fn construction_reduces_modulo() {
    let a = FieldElement::new(100, P);
    assert_eq!(a.value, 15);
    assert_eq!(a.modulus, P);
    let b = FieldElement::new(16, P);
    assert_eq!(b.value, 16);
    let c = FieldElement::new(17, P);
    assert_eq!(c.value, 0);
}

#[test]
fn constants_are_canonical() {
    let z = FieldElement::zero(P);
    let o = FieldElement::one(P);
    assert_eq!(z.value, 0);
    assert_eq!(o.value, 1);
    assert_eq!(z.modulus, P);
    assert_eq!(o.modulus, P);
}

#[test]
fn arithmetic_concrete_values() {
    let a = FieldElement::new(9, P);
    let b = FieldElement::new(12, P);
    assert_eq!(a.add(b).value, 4);
    assert_eq!(a.sub(b).value, 14);
    assert_eq!(b.sub(a).value, 3);
    assert_eq!(a.mul(b).value, 6);
    assert_eq!(FieldElement::new(5, P).neg().value, 12);
    assert_eq!(FieldElement::zero(P).neg().value, 0);
}

#[test]
fn add_is_commutative_and_associative() {
    for x in 0..P {
        for y in 0..P {
            let a = FieldElement::new(x, P);
            let b = FieldElement::new(y, P);
            assert_eq!(a.add(b), b.add(a));
        }
    }
    let samples = [0u64, 1, 2, 7, 11, 16];
    for &x in &samples {
        for &y in &samples {
            for &z in &samples {
                let a = FieldElement::new(x, P);
                let b = FieldElement::new(y, P);
                let c = FieldElement::new(z, P);
                assert_eq!(a.add(b).add(c), a.add(b.add(c)));
            }
        }
    }
}

#[test]
fn mul_is_commutative_and_associative() {
    for x in 0..P {
        for y in 0..P {
            let a = FieldElement::new(x, P);
            let b = FieldElement::new(y, P);
            assert_eq!(a.mul(b), b.mul(a));
        }
    }
    let samples = [0u64, 1, 2, 7, 11, 16];
    for &x in &samples {
        for &y in &samples {
            for &z in &samples {
                let a = FieldElement::new(x, P);
                let b = FieldElement::new(y, P);
                let c = FieldElement::new(z, P);
                assert_eq!(a.mul(b).mul(c), a.mul(b.mul(c)));
            }
        }
    }
}

#[test]
fn mul_distributes_over_add() {
    for x in 0..P {
        for y in 0..P {
            let a = FieldElement::new(x, P);
            let b = FieldElement::new(y, P);
            let c = FieldElement::new((x + 3 * y) % P, P);
            assert_eq!(a.mul(b.add(c)), a.mul(b).add(a.mul(c)));
        }
    }
}

#[test]
fn identities_hold() {
    let zero = FieldElement::zero(P);
    let one = FieldElement::one(P);
    for x in 0..P {
        let a = FieldElement::new(x, P);
        assert_eq!(a.add(zero), a);
        assert_eq!(a.mul(one), a);
        assert_eq!(a.sub(a), zero);
    }
}

#[test]
fn complement_identity_exhaustive() {
    // a·(1 - b) == a - a·b, the algebraic basis of the scalar split.
    let one = FieldElement::one(P);
    for x in 0..P {
        for y in 0..P {
            let a = FieldElement::new(x, P);
            let b = FieldElement::new(y, P);
            assert_eq!(a.mul(one.sub(b)), a.sub(a.mul(b)));
        }
    }
}

#[test]
fn wide_modulus_arithmetic() {
    // A 61-bit Mersenne prime: products exercise the full 122-bit range.
    let m: u64 = 2305843009213693951;
    let a = FieldElement::new(m - 1, m);
    let b = FieldElement::new(m - 2, m);
    // (m-1)(m-2) = m^2 - 3m + 2 == 2 (mod m)
    assert_eq!(a.mul(b).value, 2);
    assert_eq!(a.add(b).value, m - 3);
    assert_eq!(b.sub(a).value, m - 1);
    assert_eq!(a.neg().value, 1);
}
