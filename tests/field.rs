use primitives::field::{Binary, Field, PrimeField};
use std::ops::{Add, Mul, Sub};

#[test]
fn field_addition_works() {
    const P: u32 = 7;
    let [a, b] = [3, 2].map(PrimeField::<P>::from);
    assert_eq!(a.add(b), PrimeField::<P>::from(5));
}

#[test]
fn field_subtraction_works() {
    const P: u32 = 7;
    let [a, b] = [3, 6].map(PrimeField::<P>::from);
    assert_eq!(a.sub(b), PrimeField::<P>::from(4));
}

#[test]
fn field_multiplication_works() {
    const P: u32 = 7;
    let [a, b] = [3, 6].map(PrimeField::<P>::from);
    assert_eq!(a.mul(b), PrimeField::<P>::from(4));
}

#[test]
fn inversion_works() {
    const P: u32 = 131;
    let res = PrimeField::<P>::from(7).inv().unwrap();
    println!("{:?}", res);
    assert_eq!(PrimeField::<P>::from(7) * res, PrimeField::<P>::one());
}

#[test]
fn field_division_works() {
    const P: u32 = 11;
    let [a, b] = [8, 2].map(PrimeField::<P>::from);
    assert_eq!(a.div(&b).unwrap(), PrimeField::<P>::from(4));
}

#[test]
fn binary_works() {
    const P: u32 = 7;
    let a = PrimeField::<P>::from(6);
    let result: Binary = a.into();
    let binary = Binary(vec![false, true, true]);
    assert_eq!(result, binary);
}

#[test]
fn pow_works() {
    const P: u32 = 131;
    let a = PrimeField::<P>::from(3);
    let result = a.pow(4);
    assert_eq!(result, PrimeField::<P>::from(81));
}

#[test]
fn construction_reduces_modulo_the_prime() {
    assert_eq!(PrimeField::<7>::from(23), PrimeField::<7>::from(2));
    assert_eq!(PrimeField::<7>::from(7), PrimeField::<7>::zero());
}

#[test]
fn addition_wraps_around_the_modulus() {
    let [a, b] = [5, 4].map(PrimeField::<7>::from);
    assert_eq!(a + b, PrimeField::<7>::from(2));
}

#[test]
fn subtraction_of_zero_and_of_itself() {
    let a = PrimeField::<7>::from(3);
    assert_eq!(a - PrimeField::<7>::zero(), a);
    assert_eq!(a - a, PrimeField::<7>::zero());
    assert_eq!(PrimeField::<7>::zero() - a, PrimeField::<7>::from(4));
}

#[test]
fn multiplication_near_the_largest_modulus() {
    const P: u32 = 2147483647;
    let a = PrimeField::<P>::from(P - 1);
    assert_eq!(a * a, PrimeField::<P>::one());
}

#[test]
fn inverse_of_every_nonzero_element() {
    const P: u32 = 131;
    for v in 1..P {
        let e = PrimeField::<P>::from(v);
        let i = e.inv().unwrap();
        assert_eq!(e * i, PrimeField::<P>::one());
    }
}

#[test]
fn inverse_of_zero_is_absent() {
    assert_eq!(PrimeField::<131>::zero().inv(), None);
}

#[test]
fn inverse_of_a_large_element() {
    const P: u32 = 2147483647;
    let e = PrimeField::<P>::from(123456789);
    let i = e.inv().unwrap();
    assert_eq!(e * i, PrimeField::<P>::one());
}

#[test]
fn division_is_multiplication_by_the_inverse() {
    const P: u32 = 13;
    let [a, b] = [9, 5].map(PrimeField::<P>::from);
    let q = a.div(&b).unwrap();
    assert_eq!(q, a * b.inv().unwrap());
    assert_eq!(q * b, a);
    assert_eq!(q, PrimeField::<P>::from(7));
}

#[test]
fn division_by_zero_is_absent() {
    let a = PrimeField::<11>::from(8);
    assert_eq!(a.div(&PrimeField::<11>::zero()), None);
}

#[test]
fn pow_of_zero_exponent_is_one() {
    assert_eq!(PrimeField::<131>::from(3).pow(0), PrimeField::<131>::one());
    assert_eq!(PrimeField::<131>::zero().pow(0), PrimeField::<131>::one());
}

#[test]
fn pow_with_exponent_above_the_modulus() {
    assert_eq!(PrimeField::<131>::from(3).pow(131), PrimeField::<131>::from(3));
    assert_eq!(PrimeField::<1009>::from(2).pow(10), PrimeField::<1009>::from(15));
}

#[test]
fn pow_equals_repeated_multiplication() {
    const P: u32 = 13;
    let e = PrimeField::<P>::from(5);
    let mut product = PrimeField::<P>::one();
    for n in 0..20u32 {
        assert_eq!(e.pow(n), product);
        product = product * e;
    }
    assert_eq!(e.pow(7), PrimeField::<P>::from(8));
}

#[test]
fn is_null_only_for_zero() {
    assert!(PrimeField::<7>::zero().is_null());
    assert!(PrimeField::<7>::from(14).is_null());
    assert!(!PrimeField::<7>::one().is_null());
}

#[test]
fn binary_of_zero_is_empty() {
    let result: Binary = PrimeField::<7>::zero().into();
    assert_eq!(result, Binary(vec![]));
}

#[test]
fn binary_from_integer() {
    assert_eq!(Binary::from_u32(13), Binary(vec![true, false, true, true]));
    assert_eq!(Binary::from_u32(1).into_bits(), vec![true]);
}
