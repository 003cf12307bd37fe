//! Points of an elliptic curve over a prime field, held in projective
//! coordinates, and the group law on them.
//!
//! The group law needs no curve coefficients for the addition of distinct
//! points; its doubling formula is the one for curves `y² = x³ + b`, whose
//! linear coefficient is zero.
use crate::extended_euclidean::divides;
use crate::field::{
    bits_of, field_inv, is_prime, lemma_field_inv, lemma_inverse_unique, lemma_mul_nonzero, Binary,
    Field, PrimeField,
};
use vstd::arithmetic::div_mod::lemma_small_mod;
use std::ops::Add;
use vstd::prelude::*;

verus! {

/// A group of curve points with multiplication by a scalar of the field.
pub trait Curve<CurveField: Field>: Add + Sized {
    /// The point's coordinates are well-formed field elements.
    spec fn wf(&self) -> bool;

    fn scalar_mul(&self, scalar: CurveField) -> Self
        requires
            CurveField::modulus_ok(),
            self.wf(),
            scalar.wf(),
    ;
}

/// Homogeneous coordinates `(X, Y, Z)` of the affine point `(X/Z, Y/Z)`;
/// `Z = 0` is the point at infinity, `(0, 1, 0)` in canonical form.
#[derive(Debug)]
pub struct Projective<CurveField: Field> {
    pub x: CurveField,
    pub y: CurveField,
    pub z: CurveField,
}

/// Affine coordinates `(x, y)`, or the point at infinity when `is_infinity`
/// holds, whatever `x` and `y` are then.
#[derive(Debug)]
pub struct Affine<CurveField: Field> {
    pub x: CurveField,
    pub y: CurveField,
    pub is_infinity: bool,
}

/// A curve point, stored in projective coordinates.
#[derive(Debug)]
pub struct CurvePoint<CurveField: Field> {
    point: Projective<CurveField>,
}

/// Coordinates as integers, the model of a projective point.
pub type Triple = (int, int, int);

/// `(a − b) mod m`.
pub open spec fn fsub(m: int, a: int, b: int) -> int {
    (a - b) % m
}

/// `(a · b) mod m`.
pub open spec fn fmul(m: int, a: int, b: int) -> int {
    (a * b) % m
}

/// The canonical point at infinity.
pub open spec fn identity() -> Triple {
    (0, 1, 0)
}

/// The triple stands for a point: `Z` is nonzero, or it is the canonical
/// point at infinity. It is never `(0, 0, 0)`.
pub open spec fn proper(p: Triple) -> bool {
    p.2 != 0 || p == identity()
}

/// Modulo an odd prime, `8` is not zero.
proof fn lemma_eight_nonzero(m: int)
    requires
        is_prime(m as nat),
        m > 2,
    ensures
        8int % m != 0,
{
    if m > 8 {
        lemma_small_mod(8, m as nat);
    } else if m == 4 || m == 6 || m == 8 {
        assert(divides(2, m));
    } else if m == 3 {
        assert(8int % 3 == 2);
    } else if m == 5 {
        assert(8int % 5 == 3);
    } else {
        assert(m == 7);
        assert(8int % 7 == 1);
    }
}

/// Modulo `m`, two different values of `[0, m)` stay different.
proof fn lemma_sub_nonzero(m: int, a: int, b: int)
    requires
        0 <= a < m,
        0 <= b < m,
        a != b,
    ensures
        0 < fsub(m, a, b) < m,
{
    if a > b {
        lemma_small_mod((a - b) as nat, m as nat);
    } else {
        vstd::arithmetic::div_mod::lemma_mod_add_multiples_vanish(a - b, m);
        lemma_small_mod((m + a - b) as nat, m as nat);
    }
}

/// Doubling in projective coordinates on a curve `y² = x³ + b`:
/// `w = 3X²`, `s = YZ`, `B = XYs`, `h = w² − 8B`,
/// `X' = 2hs`, `Y' = w(4B − h) − 8Y²s²`, `Z' = 8s³`.
pub open spec fn spec_double(m: int, p: Triple) -> Triple {
    let (x, y, z) = p;
    let w = fmul(m, 3int % m, fmul(m, x, x));
    let s = fmul(m, y, z);
    let b = fmul(m, fmul(m, x, y), s);
    let h = fsub(m, fmul(m, w, w), fmul(m, 8int % m, b));
    let ss = fmul(m, s, s);
    (
        fmul(m, fmul(m, 2int % m, h), s),
        fsub(
            m,
            fmul(m, w, fsub(m, fmul(m, 4int % m, b), h)),
            fmul(m, fmul(m, 8int % m, fmul(m, y, y)), ss),
        ),
        fmul(m, 8int % m, fmul(m, ss, s)),
    )
}

/// The group law on projective triples modulo `m`.
pub open spec fn spec_add(m: int, p: Triple, q: Triple) -> Triple {
    let (x1, y1, z1) = p;
    let (x2, y2, z2) = q;
    let u1 = fmul(m, y2, z1);
    let u2 = fmul(m, y1, z2);
    let v1 = fmul(m, x2, z1);
    let v2 = fmul(m, x1, z2);
    if p == identity() {
        q
    } else if q == identity() {
        p
    } else if v1 == v2 {
        if u1 != u2 || y1 == 0 {
            identity()
        } else {
            spec_double(m, p)
        }
    } else {
        let u = fsub(m, u1, u2);
        let v = fsub(m, v1, v2);
        let w = fmul(m, z1, z2);
        let vv = fmul(m, v, v);
        let vvv = fmul(m, vv, v);
        let a = fsub(
            m,
            fsub(m, fmul(m, fmul(m, u, u), w), vvv),
            fmul(m, fmul(m, 2int % m, vv), v2),
        );
        (
            fmul(m, v, a),
            fsub(m, fmul(m, u, fsub(m, fmul(m, vv, v2), a)), fmul(m, vvv, u2)),
            fmul(m, vvv, w),
        )
    }
}

/// Double-and-add over little-endian bits: `acc` gains `base` for each set
/// bit, and `base` doubles after each bit.
pub open spec fn spec_double_and_add(m: int, acc: Triple, base: Triple, bits: Seq<bool>) -> Triple
    decreases bits.len(),
{
    if bits.len() == 0 {
        acc
    } else {
        spec_double_and_add(
            m,
            if bits[0] {
                spec_add(m, acc, base)
            } else {
                acc
            },
            spec_add(m, base, base),
            bits.drop_first(),
        )
    }
}

/// The projective triple of an affine point: `(x, y, 1)`, or the point at
/// infinity.
pub open spec fn spec_from_affine(a: (int, int, bool)) -> Triple {
    if a.2 {
        identity()
    } else {
        (a.0, a.1, 1)
    }
}

/// The affine point of a projective triple: `(X/Z, Y/Z)`, or `(0, 1)` at
/// infinity when `Z` is zero.
pub open spec fn spec_to_affine(m: int, p: Triple) -> (int, int, bool) {
    if p.2 == 0 {
        (0, 1, true)
    } else {
        (fmul(m, p.0, field_inv(m, p.2)), fmul(m, p.1, field_inv(m, p.2)), false)
    }
}

/// The point at infinity is a neutral element on both sides:
/// `P + O = P` and `O + P = P`.
pub proof fn lemma_identity_law(m: int, p: Triple)
    ensures
        spec_add(m, p, identity()) == p,
        spec_add(m, identity(), p) == p,
{
}

/// A finite affine point plus its negation `(x, −y)` is the point at
/// infinity, modulo an odd prime.
pub proof fn lemma_inverse_law(m: int, x: int, y: int)
    requires
        is_prime(m as nat),
        m != 2,
        0 <= x < m,
        0 <= y < m,
    ensures
        spec_add(m, spec_from_affine((x, y, false)), spec_from_affine((x, fsub(m, 0, y), false)))
            == identity(),
{
    let ny = fsub(m, 0, y);
    lemma_small_mod(x as nat, m as nat);
    lemma_small_mod(y as nat, m as nat);
    lemma_small_mod(ny as nat, m as nat);
    assert(x * 1 == x && y * 1 == y && ny * 1 == ny);
    if y != 0 {
        assert(ny == m - y) by {
            vstd::arithmetic::div_mod::lemma_mod_add_multiples_vanish(-y, m);
            lemma_small_mod((m - y) as nat, m as nat);
        }
        if ny == y {
            assert(m == y * 2);
            vstd::arithmetic::div_mod::lemma_mod_multiples_basic(y, 2);
            assert(divides(2, m));
            assert(!divides(2, m));
        }
    }
}

/// Converting a well-formed affine point to a curve point and back gives the
/// same point: its coordinates when finite, the point at infinity otherwise.
pub proof fn lemma_affine_round_trip(m: int, a: (int, int, bool))
    requires
        is_prime(m as nat),
        0 <= a.0 < m,
        0 <= a.1 < m,
    ensures
        same_affine(spec_to_affine(m, spec_from_affine(a)), a),
{
    if !a.2 {
        lemma_field_inv(m, 1);
        lemma_small_mod(1, m as nat);
        lemma_inverse_unique(m, 1, field_inv(m, 1), 1);
        lemma_small_mod(a.0 as nat, m as nat);
        lemma_small_mod(a.1 as nat, m as nat);
    }
}

impl<const BASE: u32> View for Projective<PrimeField<BASE>> {
    type V = Triple;

    open spec fn view(&self) -> Triple {
        (self.x@, self.y@, self.z@)
    }
}

impl<const BASE: u32> Projective<PrimeField<BASE>> {
    /// Every coordinate is reduced.
    pub open spec fn wf(&self) -> bool {
        self.x.wf() && self.y.wf() && self.z.wf()
    }
}

impl<const BASE: u32> PartialEq for Projective<PrimeField<BASE>> {
    /// Equal coordinates, not equal points: `(X, Y, Z)` and `(cX, cY, cZ)`
    /// differ here.
    fn eq(&self, other: &Self) -> (r: bool)
        ensures
            r == (self@ == other@),
    {
        self.x == other.x && self.y == other.y && self.z == other.z
    }
}

impl<const BASE: u32> vstd::std_specs::cmp::PartialEqSpecImpl for Projective<PrimeField<BASE>> {
    open spec fn obeys_eq_spec() -> bool {
        true
    }

    open spec fn eq_spec(&self, other: &Self) -> bool {
        self@ == other@
    }
}

impl<const BASE: u32> View for Affine<PrimeField<BASE>> {
    type V = (int, int, bool);

    open spec fn view(&self) -> (int, int, bool) {
        (self.x@, self.y@, self.is_infinity)
    }
}

/// Two affine points are the same point: both at infinity, or both finite
/// with equal coordinates.
pub open spec fn same_affine(a: (int, int, bool), b: (int, int, bool)) -> bool {
    if a.2 || b.2 {
        a.2 && b.2
    } else {
        a.0 == b.0 && a.1 == b.1
    }
}

impl<const BASE: u32> PartialEq for Affine<PrimeField<BASE>> {
    /// The same point: the coordinates of the point at infinity are ignored.
    fn eq(&self, other: &Self) -> (r: bool)
        ensures
            r == same_affine(self@, other@),
    {
        if self.is_infinity || other.is_infinity {
            self.is_infinity && other.is_infinity
        } else {
            self.x == other.x && self.y == other.y
        }
    }
}

impl<const BASE: u32> vstd::std_specs::cmp::PartialEqSpecImpl for Affine<PrimeField<BASE>> {
    open spec fn obeys_eq_spec() -> bool {
        true
    }

    open spec fn eq_spec(&self, other: &Self) -> bool {
        same_affine(self@, other@)
    }
}

impl<const BASE: u32> Affine<PrimeField<BASE>> {
    /// Both coordinates are reduced.
    pub open spec fn wf(&self) -> bool {
        self.x.wf() && self.y.wf()
    }

    /// Divides by `Z`, or gives the point at infinity as `(0, 1)` when `Z` is
    /// zero. A conversion that needs a prime modulus, which a `From` impl
    /// cannot ask for.
    pub fn from(point: CurvePoint<PrimeField<BASE>>) -> (r: Self)
        requires
            PrimeField::<BASE>::modulus_ok(),
            point.wf(),
        ensures
            r.wf(),
            r@ == spec_to_affine(PrimeField::<BASE>::modulus(), point@),
    {
        let p = point.point;
        if p.z.is_null() {
            Affine { x: PrimeField::zero(), y: PrimeField::one(), is_infinity: true }
        } else {
            let x = p.x.div(&p.z).unwrap();
            let y = p.y.div(&p.z).unwrap();
            Affine { x, y, is_infinity: false }
        }
    }
}

impl<const BASE: u32> View for CurvePoint<PrimeField<BASE>> {
    type V = Triple;

    closed spec fn view(&self) -> Triple {
        self.point@
    }
}

impl<const BASE: u32> CurvePoint<PrimeField<BASE>> {
    /// The point at infinity, `(0, 1, 0)`.
    fn infinity() -> (r: Projective<PrimeField<BASE>>)
        requires
            PrimeField::<BASE>::modulus_ok(),
        ensures
            r@ == identity(),
            r.wf(),
    {
        Projective { x: PrimeField::zero(), y: PrimeField::one(), z: PrimeField::zero() }
    }

    /// Doubles a point of a curve `y² = x³ + b`.
    fn double(p: &Projective<PrimeField<BASE>>) -> (r: Projective<PrimeField<BASE>>)
        requires
            PrimeField::<BASE>::modulus_ok(),
            p.wf(),
        ensures
            r@ == spec_double(PrimeField::<BASE>::modulus(), p@),
            r.wf(),
            PrimeField::<BASE>::modulus() != 2 && p@.1 != 0 && p@.2 != 0 ==> r@.2 != 0,
    {
        let (x, y, z) = (p.x, p.y, p.z);
        let two = PrimeField::<BASE>::from(2);
        let three = PrimeField::<BASE>::from(3);
        let four = PrimeField::<BASE>::from(4);
        let eight = PrimeField::<BASE>::from(8);
        let w = three * (x * x);
        let s = y * z;
        let b = x * y * s;
        let h = w * w - eight * b;
        let ss = s * s;
        proof {
            let m = PrimeField::<BASE>::modulus();
            if m != 2 && y@ != 0 && z@ != 0 {
                lemma_mul_nonzero(m, y@, z@);
                lemma_mul_nonzero(m, s@, s@);
                lemma_mul_nonzero(m, ss@, s@);
                lemma_eight_nonzero(m);
                lemma_mul_nonzero(m, eight@, fmul(m, ss@, s@));
            }
        }
        Projective {
            x: two * h * s,
            y: w * (four * b - h) - eight * (y * y) * ss,
            z: eight * (ss * s),
        }
    }
}

impl<const BASE: u32> Add for CurvePoint<PrimeField<BASE>> {
    type Output = CurvePoint<PrimeField<BASE>>;

    fn add(self, to_add: Self) -> (r: Self)
        ensures
            r@ == spec_add(PrimeField::<BASE>::modulus(), self@, to_add@),
            r.wf(),
            PrimeField::<BASE>::modulus() != 2 && proper(self@) && proper(to_add@) ==> proper(
                r@,
            ),
    {
        let infinity = Self::infinity();
        if self.point == infinity {
            to_add
        } else if to_add.point == infinity {
            self
        } else {
            let (x_1, y_1, z_1) = (self.point.x, self.point.y, self.point.z);
            let (x_2, y_2, z_2) = (to_add.point.x, to_add.point.y, to_add.point.z);
            let (u_1, u_2) = (y_2 * z_1, y_1 * z_2);
            let (v_1, v_2) = (x_2 * z_1, x_1 * z_2);
            if v_1 == v_2 {
                if !(u_1 == u_2) || y_1.is_null() {
                    CurvePoint { point: infinity }
                } else {
                    CurvePoint { point: Self::double(&self.point) }
                }
            } else {
                let u = u_1 - u_2;
                let v = v_1 - v_2;
                let w = z_1 * z_2;
                let vv = v * v;
                let vvv = vv * v;
                let a = u * u * w - vvv - PrimeField::from(2) * vv * v_2;
                let x = v * a;
                let y = u * (vv * v_2 - a) - vvv * u_2;
                let z = vvv * w;
                proof {
                    let m = PrimeField::<BASE>::modulus();
                    if proper(self@) && proper(to_add@) {
                        lemma_sub_nonzero(m, v_1@, v_2@);
                        lemma_mul_nonzero(m, z_1@, z_2@);
                        lemma_mul_nonzero(m, v@, v@);
                        lemma_mul_nonzero(m, vv@, v@);
                        lemma_mul_nonzero(m, vvv@, w@);
                    }
                }
                CurvePoint { point: Projective { x, y, z } }
            }
        }
    }
}

impl<const BASE: u32> vstd::std_specs::ops::AddSpecImpl for CurvePoint<PrimeField<BASE>> {
    open spec fn obeys_add_spec() -> bool {
        false
    }

    open spec fn add_req(self, to_add: Self) -> bool {
        PrimeField::<BASE>::modulus_ok() && self.wf() && to_add.wf()
    }

    open spec fn add_spec(self, to_add: Self) -> Self {
        arbitrary()
    }
}

impl<const BASE: u32> Curve<PrimeField<BASE>> for CurvePoint<PrimeField<BASE>> {
    closed spec fn wf(&self) -> bool {
        self.point.wf()
    }

    /// Double-and-add over the little-endian bits of the scalar; zero gives
    /// the point at infinity.
    fn scalar_mul(&self, scalar: PrimeField<BASE>) -> (r: Self)
        ensures
            r@ == spec_double_and_add(
                PrimeField::<BASE>::modulus(),
                identity(),
                self@,
                bits_of(scalar@ as nat),
            ),
            r.wf(),
            PrimeField::<BASE>::modulus() != 2 && proper(self@) ==> proper(r@),
    {
        let bits = Binary::from(scalar).into_bits();
        let mut result = CurvePoint { point: Self::infinity() };
        let mut double = CurvePoint { point: Projective { x: self.point.x, y: self.point.y, z: self.point.z } };
        let ghost m = PrimeField::<BASE>::modulus();
        let mut i: usize = 0;
        proof {
            assert(bits@.subrange(0, bits@.len() as int) =~= bits@);
        }
        while i < bits.len()
            invariant
                PrimeField::<BASE>::modulus_ok(),
                m == PrimeField::<BASE>::modulus(),
                0 <= i <= bits@.len(),
                bits@ == bits_of(scalar@ as nat),
                result.wf(),
                double.wf(),
                PrimeField::<BASE>::modulus() != 2 && proper(self@) ==> proper(result@) && proper(
                    double@,
                ),
                spec_double_and_add(m, result@, double@, bits@.subrange(i as int, bits@.len() as int))
                    == spec_double_and_add(m, identity(), self@, bits@),
            decreases bits@.len() - i,
        {
            proof {
                assert(bits@.subrange(i as int, bits@.len() as int).drop_first() =~= bits@.subrange(
                    i + 1,
                    bits@.len() as int,
                ));
            }
            let d2 = CurvePoint { point: Projective { x: double.point.x, y: double.point.y, z: double.point.z } };
            if bits[i] {
                result = result + d2;
            }
            let d3 = CurvePoint { point: Projective { x: double.point.x, y: double.point.y, z: double.point.z } };
            double = double + d3;
            i = i + 1;
        }
        proof {
            assert(bits@.subrange(i as int, bits@.len() as int) =~= Seq::<bool>::empty());
        }
        result
    }
}

impl<const BASE: u32> From<Projective<PrimeField<BASE>>> for CurvePoint<PrimeField<BASE>> {
    fn from(point: Projective<PrimeField<BASE>>) -> (r: Self)
        ensures
            r@ == point@,
    {
        CurvePoint { point }
    }
}

impl<const BASE: u32> vstd::std_specs::convert::FromSpecImpl<Projective<PrimeField<BASE>>> for CurvePoint<PrimeField<BASE>> {
    open spec fn obeys_from_spec() -> bool {
        false
    }

    open spec fn from_spec(v: Projective<PrimeField<BASE>>) -> Self {
        arbitrary()
    }
}

impl<const BASE: u32> From<Affine<PrimeField<BASE>>> for CurvePoint<PrimeField<BASE>> {
    /// `(x, y, 1)`, or `(0, 1, 0)` for the point at infinity.
    fn from(from_point: Affine<PrimeField<BASE>>) -> (r: Self)
        ensures
            BASE > 1 ==> r@ == spec_from_affine(from_point@),
            BASE > 1 ==> proper(r@),
            BASE > 1 && from_point.wf() ==> r.wf(),
    {
        let zero = PrimeField::<BASE>::from(0);
        let one = PrimeField::<BASE>::from(1);
        proof {
            if BASE > 1 {
                vstd::arithmetic::div_mod::lemma_small_mod(0, BASE as nat);
                vstd::arithmetic::div_mod::lemma_small_mod(1, BASE as nat);
            }
        }
        if from_point.is_infinity {
            return CurvePoint { point: Projective { x: zero, y: one, z: zero } };
        }
        CurvePoint { point: Projective { x: from_point.x, y: from_point.y, z: one } }
    }
}

impl<const BASE: u32> vstd::std_specs::convert::FromSpecImpl<Affine<PrimeField<BASE>>> for CurvePoint<PrimeField<BASE>> {
    open spec fn obeys_from_spec() -> bool {
        false
    }

    open spec fn from_spec(v: Affine<PrimeField<BASE>>) -> Self {
        arbitrary()
    }
}

impl<const BASE: u32> From<CurvePoint<PrimeField<BASE>>> for Projective<PrimeField<BASE>> {
    fn from(point: CurvePoint<PrimeField<BASE>>) -> (r: Self)
        ensures
            r@ == point@,
    {
        point.point
    }
}

impl<const BASE: u32> vstd::std_specs::convert::FromSpecImpl<CurvePoint<PrimeField<BASE>>> for Projective<PrimeField<BASE>> {
    open spec fn obeys_from_spec() -> bool {
        false
    }

    open spec fn from_spec(v: CurvePoint<PrimeField<BASE>>) -> Self {
        arbitrary()
    }
}

} // verus!
