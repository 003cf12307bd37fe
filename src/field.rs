//! Integers modulo a prime fixed at the type level, and the little-endian bit
//! sequence of a value.
use crate::extended_euclidean::{
    abs, bezout, divides, extended_euclidean, lemma_bezout, lemma_gcd_prime,
};
use std::ops::{Add, Mul, Sub};
use vstd::arithmetic::div_mod::*;
use vstd::arithmetic::mul::*;
use vstd::arithmetic::power::*;
use vstd::prelude::*;

verus! {

/// `n` is a prime number.
pub open spec fn is_prime(n: nat) -> bool {
    n > 1 && forall|d: int| 1 < d < n ==> !divides(d, n as int)
}

/// Arithmetic in a finite field.
pub trait Field: Add + Sub + Mul + Sized {
    /// The modulus suits every operation below: a prime that fits in `i32`.
    spec fn modulus_ok() -> bool;

    /// The element is fully reduced.
    spec fn wf(&self) -> bool;

    fn pow(&self, to_exp: u32) -> Self
        requires
            Self::modulus_ok(),
            self.wf(),
    ;

    fn is_null(&self) -> bool;

    fn one() -> Self
        requires
            Self::modulus_ok(),
    ;

    fn zero() -> Self
        requires
            Self::modulus_ok(),
    ;

    fn inv(&self) -> Option<Self>
        requires
            Self::modulus_ok(),
            self.wf(),
    ;

    fn div(&self, to_div: &Self) -> Option<Self>
        requires
            Self::modulus_ok(),
            self.wf(),
            to_div.wf(),
    ;
}

/// An integer modulo `BASE`, held reduced into `[0, BASE)`.
#[derive(Debug, Clone, Copy)]
pub struct PrimeField<const BASE: u32> {
    value: u32,
}

impl<const BASE: u32> View for PrimeField<BASE> {
    type V = int;

    closed spec fn view(&self) -> int {
        self.value as int
    }
}

impl<const BASE: u32> PartialEq for PrimeField<BASE> {
    fn eq(&self, other: &Self) -> (r: bool)
        ensures
            r == (self@ == other@),
    {
        self.value == other.value
    }
}

impl<const BASE: u32> vstd::std_specs::cmp::PartialEqSpecImpl for PrimeField<BASE> {
    open spec fn obeys_eq_spec() -> bool {
        true
    }

    open spec fn eq_spec(&self, other: &Self) -> bool {
        self@ == other@
    }
}

impl<const BASE: u32> Eq for PrimeField<BASE> {

}

impl<const BASE: u32> PrimeField<BASE> {
    /// The modulus as a mathematical integer.
    pub open spec fn modulus() -> int {
        BASE as int
    }

    /// The element whose value is `n` reduced modulo `BASE`.
    fn reduce(n: u64) -> (r: Self)
        requires
            BASE > 0,
        ensures
            r@ == n as int % Self::modulus(),
            r.wf(),
    {
        PrimeField { value: (n % BASE as u64) as u32 }
    }
}

impl<const BASE: u32> From<u32> for PrimeField<BASE> {
    /// Reduces `value` modulo `BASE`; with a modulus of `0` there is nothing to
    /// reduce by, and the value is kept as it is.
    fn from(value: u32) -> (r: Self)
        ensures
            BASE > 0 ==> r@ == value as int % Self::modulus(),
            BASE > 0 ==> r.wf(),
    {
        if BASE == 0 {
            PrimeField { value }
        } else {
            PrimeField { value: value % BASE }
        }
    }
}

impl<const BASE: u32> vstd::std_specs::convert::FromSpecImpl<u32> for PrimeField<BASE> {
    open spec fn obeys_from_spec() -> bool {
        false
    }

    open spec fn from_spec(v: u32) -> Self {
        arbitrary()
    }
}

impl<const BASE: u32> Add for PrimeField<BASE> {
    type Output = PrimeField<BASE>;

    fn add(self, other: Self) -> (r: Self)
        ensures
            r@ == (self@ + other@) % Self::modulus(),
            r.wf(),
    {
        Self::reduce(self.value as u64 + other.value as u64)
    }
}

impl<const BASE: u32> vstd::std_specs::ops::AddSpecImpl for PrimeField<BASE> {
    open spec fn obeys_add_spec() -> bool {
        false
    }

    open spec fn add_req(self, other: Self) -> bool {
        BASE > 0
    }

    open spec fn add_spec(self, other: Self) -> Self {
        arbitrary()
    }
}

impl<const BASE: u32> Sub for PrimeField<BASE> {
    type Output = PrimeField<BASE>;

    /// Adds the modulus before the final reduction, so that no intermediate
    /// value is negative.
    fn sub(self, other: Self) -> (r: Self)
        ensures
            r@ == (self@ - other@) % Self::modulus(),
            r.wf(),
    {
        let m: u64 = BASE as u64;
        let o: u64 = other.value as u64 % m;
        let r = Self::reduce(self.value as u64 + m - o);
        proof {
            let (a, b, p) = (self@ as int, other@ as int, m as int);
            lemma_mod_add_multiples_vanish(a - b % p, p);
            lemma_sub_mod_noop_right(a, b, p);
            assert(p + (a - b % p) == a + p - b % p);
        }
        r
    }
}

impl<const BASE: u32> vstd::std_specs::ops::SubSpecImpl for PrimeField<BASE> {
    open spec fn obeys_sub_spec() -> bool {
        false
    }

    open spec fn sub_req(self, other: Self) -> bool {
        BASE > 0
    }

    open spec fn sub_spec(self, other: Self) -> Self {
        arbitrary()
    }
}

impl<const BASE: u32> Mul for PrimeField<BASE> {
    type Output = PrimeField<BASE>;

    /// Multiplies in 64 bits, where the product of two values cannot overflow.
    fn mul(self, other: Self) -> (r: Self)
        ensures
            r@ == (self@ * other@) % Self::modulus(),
            r.wf(),
    {
        proof {
            vstd::arithmetic::mul::lemma_mul_upper_bound(
                self.value as int,
                u32::MAX as int,
                other.value as int,
                u32::MAX as int,
            );
            assert(u32::MAX * u32::MAX <= u64::MAX) by (nonlinear_arith);
        }
        Self::reduce(self.value as u64 * other.value as u64)
    }
}

impl<const BASE: u32> vstd::std_specs::ops::MulSpecImpl for PrimeField<BASE> {
    open spec fn obeys_mul_spec() -> bool {
        false
    }

    open spec fn mul_req(self, other: Self) -> bool {
        BASE > 0
    }

    open spec fn mul_spec(self, other: Self) -> Self {
        arbitrary()
    }
}

/// The little-endian bits of `n`: lowest bit first, no trailing `false`.
pub open spec fn bits_of(n: nat) -> Seq<bool>
    decreases n,
{
    if n == 0 {
        Seq::empty()
    } else {
        seq![n % 2 == 1] + bits_of(n / 2)
    }
}

/// The number whose little-endian bits are `s`.
pub open spec fn bits_value(s: Seq<bool>) -> nat
    decreases s.len(),
{
    if s.len() == 0 {
        0
    } else {
        (if s[0] {
            1nat
        } else {
            0nat
        }) + 2 * bits_value(s.drop_first())
    }
}

/// Reading back the bits of `n` gives `n`.
pub proof fn lemma_bits_value(n: nat)
    ensures
        bits_value(bits_of(n)) == n,
    decreases n,
{
    if n > 0 {
        lemma_bits_value(n / 2);
        let s = bits_of(n);
        assert(s.drop_first() =~= bits_of(n / 2));
    }
}

/// One square-and-multiply step keeps `result * base^rest` fixed modulo `m`.
proof fn lemma_pow_step(r: int, d: int, bit: bool, v: nat, m: int)
    requires
        m > 0,
    ensures
        ((if bit {
            (r * d) % m
        } else {
            r
        }) * pow((d * d) % m, v)) % m == (r * pow(
            d,
            (if bit {
                1nat
            } else {
                0nat
            }) + 2 * v,
        )) % m,
{
    let a = if bit {
        (r * d) % m
    } else {
        r
    };
    lemma_pow_mod_noop(d * d, v, m);
    lemma_square_is_pow2(d);
    lemma_pow_multiplies(d, 2, v);
    assert(pow(d * d, v) == pow(d, 2 * v));
    lemma_mul_mod_noop_right(a, pow((d * d) % m, v), m);
    lemma_mul_mod_noop_right(a, pow(d, 2 * v), m);
    assert((a * pow((d * d) % m, v)) % m == (a * pow(d, 2 * v)) % m);
    if bit {
        lemma_mul_mod_noop_left(r * d, pow(d, 2 * v), m);
        lemma_mul_is_associative(r, d, pow(d, 2 * v));
        lemma_pow_adds(d, 1, 2 * v);
        lemma_pow1(d);
    }
}

impl<const BASE: u32> PrimeField<BASE> {
    /// `x` to the power `n`, reduced modulo the prime.
    pub open spec fn spec_pow(x: int, n: nat) -> int {
        pow(x, n) % Self::modulus()
    }

    /// The value of the `n`-fold field product `x · x · ... · x`, reducing after
    /// each multiplication; the empty product is one.
    pub open spec fn repeated_mul(x: int, n: nat) -> int
        decreases n,
    {
        if n == 0 {
            1int % Self::modulus()
        } else {
            (Self::repeated_mul(x, (n - 1) as nat) * x) % Self::modulus()
        }
    }

    /// Square-and-multiply agrees with multiplying out: `x^n` reduced is the
    /// `n`-fold field product of `x`.
    pub proof fn lemma_pow_is_repeated_mul(x: int, n: nat)
        requires
            Self::modulus() > 0,
        ensures
            Self::spec_pow(x, n) == Self::repeated_mul(x, n),
        decreases n,
    {
        let m = Self::modulus();
        if n == 0 {
            lemma_pow0(x);
        } else {
            Self::lemma_pow_is_repeated_mul(x, (n - 1) as nat);
            let prev = pow(x, (n - 1) as nat);
            assert(pow(x, n) == x * prev) by {
                reveal(pow);
            }
            lemma_mul_mod_noop_left(prev, x, m);
            lemma_mul_is_commutative(x, prev);
        }
    }
}

impl<const BASE: u32> Field for PrimeField<BASE> {
    open spec fn modulus_ok() -> bool {
        is_prime(BASE as nat) && BASE <= i32::MAX
    }

    open spec fn wf(&self) -> bool {
        0 <= self@ < Self::modulus()
    }

    /// Square-and-multiply over the little-endian bits of the exponent.
    fn pow(&self, to_exp: u32) -> (r: Self)
        ensures
            r@ == Self::spec_pow(self@, to_exp as nat),
            r.wf(),
    {
        if to_exp == 0 {
            let one = Self::one();
            assert(one@ == pow(self@, 0) % Self::modulus()) by {
                lemma_pow0(self@);
                lemma_small_mod(1, BASE as nat);
            }
            return one;
        }
        let binary = Binary::from_u32(to_exp);
        let bits: &Vec<bool> = &binary.0;
        let mut double = *self;
        let mut result = Self::one();
        let ghost m = Self::modulus();
        let ghost x = self@;
        proof {
            lemma_small_mod(1, BASE as nat);
            lemma_bits_value(to_exp as nat);
            assert(bits@.subrange(0, bits@.len() as int) =~= bits@);
            lemma_pow1(x);
            lemma_mod_twice(pow(x, to_exp as nat), m);
        }
        let mut i: usize = 0;
        while i < bits.len()
            invariant
                m == Self::modulus(),
                m > 1,
                x == self@,
                0 <= i <= bits@.len(),
                bits@ == bits_of(to_exp as nat),
                result.wf(),
                double.wf(),
                (result@ * pow(double@, bits_value(bits@.subrange(i as int, bits@.len() as int))))
                    % m == pow(x, to_exp as nat) % m,
            decreases bits@.len() - i,
        {
            let ghost rest = bits@.subrange(i as int, bits@.len() as int);
            let ghost next = bits@.subrange(i + 1, bits@.len() as int);
            let ghost (r0, d0) = (result@, double@);
            proof {
                assert(rest.drop_first() =~= next);
            }
            if bits[i] {
                result = result * double;
            }
            double = double * double;
            proof {
                lemma_pow_step(r0, d0, bits@[i as int], bits_value(next), m);
            }
            i = i + 1;
        }
        proof {
            assert(bits@.subrange(i as int, bits@.len() as int) =~= Seq::<bool>::empty());
            lemma_pow0(double@);
            lemma_small_mod(result@ as nat, m as nat);
        }
        result
    }

    fn is_null(&self) -> (r: bool)
        ensures
            r == (self@ == 0),
    {
        self.value == 0
    }

    fn one() -> (r: Self)
        ensures
            r@ == 1,
            r.wf(),
    {
        PrimeField { value: 1 }
    }

    fn zero() -> (r: Self)
        ensures
            r@ == 0,
            r.wf(),
    {
        PrimeField { value: 0 }
    }

    /// The inverse from the Bézout coefficient of the value in
    /// `extended_euclidean(value, BASE)`, moved into `[0, BASE)`.
    fn inv(&self) -> (r: Option<Self>)
        ensures
            r is None <==> self@ == 0,
            r matches Some(i) ==> i.wf() && (self@ * i@) % Self::modulus() == 1,
            r matches Some(i) ==> i@ == field_inv(Self::modulus(), self@),
    {
        if self.is_null() {
            return None;
        }
        let ghost (v, p) = (self@, Self::modulus());
        // both fit in i32, as the modulus does
        let vi: i32 = self.value as i32;
        let pi: i32 = BASE as i32;
        let g = extended_euclidean(vi, pi);
        proof {
            lemma_gcd_prime(v as nat, p as nat);
            assert(abs(vi as int) == v && abs(pi as int) == p);
        }
        // |x| <= BASE, so one addition of the modulus makes it nonnegative
        let res: u32 = if g.x < 0 {
            (g.x + pi) as u32
        } else {
            g.x as u32
        };
        let r = Self::reduce(res as u64);
        proof {
            let k: int = if g.x < 0 {
                v - g.y
            } else {
                -g.y
            };
            assert(v * res == p * k + 1) by (nonlinear_arith)
                requires
                    v * g.x + p * g.y == 1,
                    res == (if g.x < 0 {
                        g.x + p
                    } else {
                        g.x as int
                    }),
                    k == (if g.x < 0 {
                        v - g.y
                    } else {
                        -g.y
                    }),
            ;
            lemma_mod_multiples_vanish(k, 1, p);
            lemma_small_mod(1, p as nat);
            lemma_mul_mod_noop_right(v, res as int, p);
            lemma_field_inv(p, v);
            lemma_inverse_unique(p, v, r@, field_inv(p, v));
        }
        Some(r)
    }

    /// `self · to_div⁻¹`, absent when `to_div` is zero.
    fn div(&self, to_div: &Self) -> (r: Option<Self>)
        ensures
            r is None <==> to_div@ == 0,
            r matches Some(q) ==> q.wf() && q@ == (self@ * field_inv(Self::modulus(), to_div@))
                % Self::modulus(),
            r matches Some(q) ==> (q@ * to_div@) % Self::modulus() == self@,
    {
        match to_div.inv() {
            None => None,
            Some(inv) => {
                let q = *self * inv;
                proof {
                    lemma_division_unique_in(Self::modulus(), self@, to_div@, inv@, q@);
                }
                Some(q)
            },
        }
    }
}

/// The inverse of `x` modulo `m`: its Bézout coefficient against `m`, reduced.
pub open spec fn field_inv(m: int, x: int) -> int {
    bezout(x as nat, m as nat).0 % m
}

/// Modulo a prime, `field_inv` is an inverse of every nonzero value.
pub proof fn lemma_field_inv(m: int, x: int)
    requires
        is_prime(m as nat),
        0 < x < m,
    ensures
        0 <= field_inv(m, x) < m,
        (x * field_inv(m, x)) % m == 1,
{
    lemma_gcd_prime(x as nat, m as nat);
    lemma_bezout(x as nat, m as nat);
    let (bx, by) = bezout(x as nat, m as nat);
    assert(x * bx == m * (-by) + 1) by (nonlinear_arith)
        requires
            x * bx + m * by == 1,
    ;
    lemma_mod_multiples_vanish(-by, 1, m);
    lemma_small_mod(1, m as nat);
    lemma_mul_mod_noop_right(x, bx, m);
}

/// Modulo a prime, a product of nonzero values is nonzero.
pub proof fn lemma_mul_nonzero(m: int, a: int, b: int)
    requires
        is_prime(m as nat),
        0 < a < m,
        0 < b < m,
    ensures
        (a * b) % m != 0,
{
    if (a * b) % m == 0 {
        let i = field_inv(m, a);
        lemma_field_inv(m, a);
        // b ≡ b · (a · i) == (a · b) · i ≡ 0
        lemma_mul_mod_noop_right(b, a * i, m);
        lemma_small_mod(b as nat, m as nat);
        assert(b * (a * i) == (a * b) * i) by (nonlinear_arith);
        lemma_mul_mod_noop_left(a * b, i, m);
        assert((b * ((a * i) % m)) % m == b);
        assert(((a * b) % m) * i == 0 * i);
        assert(0 * i == 0);
        assert((((a * b) % m) * i) % m == 0);
        assert(b == 0);
    }
}

/// Modulo `m`, a value has at most one inverse in `[0, m)`.
pub proof fn lemma_inverse_unique(m: int, x: int, i: int, j: int)
    requires
        m > 1,
        0 <= i < m,
        0 <= j < m,
        (x * i) % m == 1,
        (x * j) % m == 1,
    ensures
        i == j,
{
    lemma_small_mod(i as nat, m as nat);
    lemma_small_mod(j as nat, m as nat);
    assert(1 * i == i && 1 * j == j);
    lemma_division_unique_in(m, 1, x, i, i);
}

/// Modulo `m`, `a · b⁻¹` is the one value `q` with `q · b = a`, and the
/// inverse of `b` is unique.
proof fn lemma_division_unique_in(m: int, a: int, b: int, i: int, q: int)
    requires
        m > 1,
        0 <= a < m,
        (b * i) % m == 1,
        q == (a * i) % m,
    ensures
        (q * b) % m == a,
        forall|j: int| #![trigger (b * j)] (b * j) % m == 1 ==> q == (a * j) % m,
{
    // q · b ≡ a · i · b ≡ a
    lemma_mul_mod_noop_left(a * i, b, m);
    lemma_mul_is_associative(a, i, b);
    lemma_mul_is_commutative(i, b);
    lemma_mul_mod_noop_right(a, b * i, m);
    lemma_small_mod(a as nat, m as nat);
    assert((q * b) % m == a);
    assert forall|j: int| #![trigger (b * j)] (b * j) % m == 1 implies q == (a * j) % m by {
        // a · j ≡ q · b · j ≡ q
        lemma_mul_mod_noop_left(q * b, j, m);
        lemma_mul_is_associative(q, b, j);
        lemma_mul_mod_noop_right(q, b * j, m);
        lemma_mul_mod_noop_left(a, j, m);
        lemma_mod_twice(a * i, m);
        lemma_small_mod(q as nat, m as nat);
    }
}

/// The little-endian bits of a value: lowest bit first, empty for zero.
#[derive(Debug, PartialEq, Eq)]
pub struct Binary(pub Vec<bool>);

impl View for Binary {
    type V = Seq<bool>;

    open spec fn view(&self) -> Seq<bool> {
        self.0@
    }
}

impl Binary {
    /// The bits of `n`, by repeated halving.
    pub fn from_u32(n: u32) -> (r: Binary)
        ensures
            r@ == bits_of(n as nat),
    {
        let mut result: Vec<bool> = Vec::new();
        let mut remainder: u32 = n;
        while remainder != 0
            invariant
                result@ + bits_of(remainder as nat) == bits_of(n as nat),
            decreases remainder,
        {
            let ghost before = result@;
            result.push(remainder % 2 == 1);
            proof {
                assert(before + bits_of(remainder as nat) =~= result@ + bits_of(
                    (remainder / 2) as nat,
                ));
            }
            remainder = remainder / 2;
        }
        assert(result@ =~= result@ + bits_of(0));
        Binary(result)
    }

    /// The bits, lowest first.
    pub fn into_bits(self) -> (r: Vec<bool>)
        ensures
            r@ == self@,
    {
        self.0
    }
}

impl<const BASE: u32> From<PrimeField<BASE>> for Binary {
    fn from(value: PrimeField<BASE>) -> (r: Binary)
        ensures
            r@ == bits_of(value@ as nat),
    {
        Binary::from_u32(value.value)
    }
}

impl<const BASE: u32> vstd::std_specs::convert::FromSpecImpl<PrimeField<BASE>> for Binary {
    open spec fn obeys_from_spec() -> bool {
        false
    }

    open spec fn from_spec(v: PrimeField<BASE>) -> Self {
        arbitrary()
    }
}

} // verus!
