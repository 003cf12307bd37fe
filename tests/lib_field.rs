use primitives::{Field, PrimeField};
use std::ops::{Add, Mul, Sub};

#[test]
fn lib_addition_works() {
    const P: u32 = 7;
    let [a, b] = [3, 2].map(PrimeField::<P>::from);
    assert_eq!(a.add(b), PrimeField::<P>::from(5));
}

#[test]
fn lib_subtraction_works() {
    const P: u32 = 7;
    let [a, b] = [3, 6].map(PrimeField::<P>::from);
    assert_eq!(a.sub(b), PrimeField::<P>::from(4));
}

#[test]
fn lib_multiplication_works() {
    const P: u32 = 7;
    let [a, b] = [3, 6].map(PrimeField::<P>::from);
    assert_eq!(a.mul(b), PrimeField::<P>::from(4));
}

#[test]
fn lib_division_works() {
    const P: u32 = 11;
    let [a, b] = [8, 2].map(PrimeField::<P>::from);
    assert_eq!(a.div(&b).unwrap(), PrimeField::<P>::from(4));
}
