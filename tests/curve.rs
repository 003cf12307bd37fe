use primitives::curve::{Affine, Curve, CurvePoint, Projective};
use primitives::field::{Field, PrimeField};

fn affine<const N: u32>(x: u32, y: u32) -> Affine<PrimeField<N>> {
    Affine { x: x.into(), y: y.into(), is_infinity: false }
}

fn infinity<const N: u32>() -> Affine<PrimeField<N>> {
    Affine { x: 0.into(), y: 0.into(), is_infinity: true }
}

#[test]
fn curve_addition_works() {
    const N: u32 = 23;
    let p_point = Affine::<PrimeField<N>> {
        x: 2.into(),
        y: 5.into(),
        is_infinity: false,
    };
    let p = CurvePoint::<PrimeField<N>>::from(p_point);
    let q_point = Affine::<PrimeField<N>> {
        x: 12.into(),
        y: 1.into(),
        is_infinity: false,
    };
    let q = CurvePoint::<PrimeField<N>>::from(q_point);
    let r: Affine<PrimeField<N>> = Affine::from(p + q);
    println!("r: {:#?}", r);
    assert_eq!(r, affine::<N>(11, 17));
}

#[test]
fn identity_is_neutral_on_both_sides() {
    const N: u32 = 23;
    let p = || CurvePoint::<PrimeField<N>>::from(affine::<N>(2, 5));
    let o = || CurvePoint::<PrimeField<N>>::from(infinity::<N>());
    assert_eq!(Affine::from(p() + o()), affine::<N>(2, 5));
    assert_eq!(Affine::from(o() + p()), affine::<N>(2, 5));
    assert_eq!(Affine::from(o() + o()), infinity::<N>());
}

#[test]
fn point_plus_its_negation_is_infinity() {
    const N: u32 = 23;
    let p = CurvePoint::<PrimeField<N>>::from(affine::<N>(2, 5));
    let minus_p = CurvePoint::<PrimeField<N>>::from(affine::<N>(2, 18));
    let r = Affine::from(p + minus_p);
    assert!(r.is_infinity);
    assert_eq!(r, infinity::<N>());
}

#[test]
fn two_torsion_point_doubles_to_infinity() {
    const N: u32 = 23;
    let p = || CurvePoint::<PrimeField<N>>::from(affine::<N>(4, 0));
    assert_eq!(Affine::from(p() + p()), infinity::<N>());
}

#[test]
fn affine_round_trip() {
    const N: u32 = 23;
    let a = affine::<N>(12, 1);
    assert_eq!(Affine::from(CurvePoint::from(a)), affine::<N>(12, 1));
    let o = infinity::<N>();
    let back = Affine::from(CurvePoint::<PrimeField<N>>::from(o));
    assert!(back.is_infinity);
    assert_eq!(back.x, PrimeField::<N>::zero());
    assert_eq!(back.y, PrimeField::<N>::one());
}

#[test]
fn projective_round_trip() {
    const N: u32 = 23;
    let c = CurvePoint::<PrimeField<N>>::from(affine::<N>(2, 5));
    let p: Projective<PrimeField<N>> = c.into();
    assert_eq!(p, Projective { x: 2.into(), y: 5.into(), z: 1.into() });
    let c = CurvePoint::from(p);
    assert_eq!(Affine::from(c), affine::<N>(2, 5));
}

#[test]
fn infinity_is_canonical_projective() {
    const N: u32 = 23;
    let p: Projective<PrimeField<N>> = CurvePoint::from(infinity::<N>()).into();
    assert_eq!(p, Projective { x: 0.into(), y: 1.into(), z: 0.into() });
}

#[test]
fn doubling_on_curve_with_zero_linear_coefficient() {
    // y^2 = x^3 + 7 over the field of 17 elements
    const N: u32 = 17;
    let p = || CurvePoint::<PrimeField<N>>::from(affine::<N>(1, 5));
    assert_eq!(Affine::from(p() + p()), affine::<N>(2, 10));
}

#[test]
fn scalar_mul_matches_repeated_addition() {
    const N: u32 = 17;
    let p = CurvePoint::<PrimeField<N>>::from(affine::<N>(1, 5));
    let expected = [
        infinity::<N>(),
        affine::<N>(1, 5),
        affine::<N>(2, 10),
        affine::<N>(5, 9),
        affine::<N>(12, 1),
        affine::<N>(12, 16),
        affine::<N>(5, 8),
        affine::<N>(2, 7),
    ];
    for (k, e) in expected.into_iter().enumerate() {
        let r = Affine::from(p.scalar_mul(PrimeField::<N>::from(k as u32)));
        assert_eq!(r, e);
    }
}
