//! The extended Euclidean algorithm: the gcd of two integers together with
//! Bézout coefficients.
use vstd::arithmetic::div_mod::*;
use vstd::prelude::*;

verus! {

/// The absolute value of an integer.
pub open spec fn abs(n: int) -> nat {
    if n < 0 {
        (-n) as nat
    } else {
        n as nat
    }
}

/// The greatest common divisor, by Euclid's recurrence.
pub open spec fn gcd(a: nat, b: nat) -> nat
    decreases b,
{
    if b == 0 {
        a
    } else {
        gcd(b, a % b)
    }
}

/// `d` divides `n`.
pub open spec fn divides(d: int, n: int) -> bool {
    d > 0 && n % d == 0
}

/// A multiple of `d` plus a multiple of `d` is a multiple of `d`.
proof fn lemma_divides_combination(d: int, x: int, y: int, k: int)
    requires
        divides(d, x),
        divides(d, y),
    ensures
        divides(d, x * k + y),
{
    lemma_fundamental_div_mod(x, d);
    lemma_fundamental_div_mod(y, d);
    let m = (x / d) * k + y / d;
    assert(x * k + y == m * d) by (nonlinear_arith)
        requires
            x == d * (x / d),
            y == d * (y / d),
            m == (x / d) * k + y / d,
    ;
    lemma_mod_multiples_basic(m, d);
}

/// Euclid's gcd divides both of its arguments.
pub proof fn lemma_gcd_divides(a: nat, b: nat)
    requires
        a > 0 || b > 0,
    ensures
        gcd(a, b) > 0,
        divides(gcd(a, b) as int, a as int),
        divides(gcd(a, b) as int, b as int),
    decreases b,
{
    if b == 0 {
        lemma_mod_self_0(a as int);
    } else {
        lemma_gcd_divides(b, a % b);
        let g = gcd(a, b) as int;
        lemma_fundamental_div_mod(a as int, b as int);
        lemma_divides_combination(g, b as int, (a % b) as int, (a / b) as int);
        assert(b as int * (a / b) as int + (a % b) as int == a as int) by (nonlinear_arith)
            requires
                a as int == b as int * (a as int / b as int) + a as int % b as int,
        ;
    }
}

/// Every common divisor of `a` and `b` divides Euclid's gcd: it is the greatest
/// common divisor.
pub proof fn lemma_gcd_greatest(a: nat, b: nat, c: int)
    requires
        divides(c, a as int),
        divides(c, b as int),
    ensures
        divides(c, gcd(a, b) as int),
    decreases b,
{
    if b != 0 {
        lemma_fundamental_div_mod(a as int, b as int);
        lemma_divides_combination(c, b as int, a as int, -(a as int / b as int));
        assert(b as int * -(a as int / b as int) + a as int == (a % b) as int) by (nonlinear_arith)
            requires
                a as int == b as int * (a as int / b as int) + a as int % b as int,
        ;
        lemma_gcd_greatest(b, a % b, c);
    }
}

/// Bézout coefficients `(x, y)` of `a` and `b`, by Euclid's recurrence.
pub open spec fn bezout(a: nat, b: nat) -> (int, int)
    decreases b,
{
    if b == 0 {
        (1, 0)
    } else {
        let (x, y) = bezout(b, a % b);
        (y, x - (a / b) as int * y)
    }
}

/// `a·x + b·y == gcd(a, b)` for `(x, y) == bezout(a, b)`.
pub proof fn lemma_bezout(a: nat, b: nat)
    ensures
        a * bezout(a, b).0 + b * bezout(a, b).1 == gcd(a, b),
    decreases b,
{
    if b != 0 {
        lemma_bezout(b, a % b);
        let (x, y) = bezout(b, a % b);
        lemma_fundamental_div_mod(a as int, b as int);
        let q = (a / b) as int;
        assert(a * y + b * (x - q * y) == b * x + (a % b) * y) by (nonlinear_arith)
            requires
                a == b * q + (a % b),
        ;
    }
}

/// The gcd of a prime and a positive number below it is one.
pub proof fn lemma_gcd_prime(v: nat, p: nat)
    requires
        0 < v < p,
        forall|d: int| 1 < d < p ==> !divides(d, p as int),
    ensures
        gcd(v, p) == 1,
{
    lemma_gcd_divides(v, p);
    let d = gcd(v, p);
    if d > v {
        lemma_small_mod(v, d);
    }
}

/// One step of the algorithm keeps the Bézout coefficients of consecutive rows
/// of opposite sign, and keeps `|s|·r' + |s'|·r` fixed.
proof fn lemma_coefficient_step(old_r: int, r: int, q: int, old_s: int, s: int, n: int)
    requires
        r > 0,
        q >= 0,
        0 <= old_r - q * r < r,
        old_s * s <= 0,
        abs(old_s) * r + abs(s) * old_r == n,
    ensures
        s * (old_s - q * s) <= 0,
        abs(s) * (old_r - q * r) + abs(old_s - q * s) * r == n,
        abs(q * s) <= abs(old_s - q * s) <= n,
{
    let ns = old_s - q * s;
    let nr = old_r - q * r;
    if s >= 0 {
        assert(old_s <= 0 || s == 0) by (nonlinear_arith)
            requires
                old_s * s <= 0,
                s >= 0,
        ;
        assert(q * s >= 0) by (nonlinear_arith)
            requires
                q >= 0,
                s >= 0,
        ;
        assert(ns <= 0 || s == 0);
        assert(s * ns <= 0) by (nonlinear_arith)
            requires
                s >= 0,
                ns <= 0 || s == 0,
        ;
        if s == 0 {
            assert(q * s == 0);
        }
        assert(abs(ns) == abs(old_s) + q * s);
        assert(abs(s) * nr + abs(ns) * r == n) by (nonlinear_arith)
            requires
                abs(s) == s,
                abs(ns) == abs(old_s) + q * s,
                nr == old_r - q * r,
                abs(old_s) * r + abs(s) * old_r == n,
        ;
        assert(abs(ns) <= n) by (nonlinear_arith)
            requires
                abs(s) * nr + abs(ns) * r == n,
                r >= 1,
                nr >= 0,
                abs(s) >= 0,
                abs(ns) >= 0,
        ;
    } else {
        assert(old_s >= 0) by (nonlinear_arith)
            requires
                old_s * s <= 0,
                s < 0,
        ;
        assert(q * s <= 0) by (nonlinear_arith)
            requires
                q >= 0,
                s < 0,
        ;
        assert(ns >= 0);
        assert(s * ns <= 0) by (nonlinear_arith)
            requires
                s < 0,
                ns >= 0,
        ;
        assert(abs(ns) == abs(old_s) - q * s);
        assert(abs(s) * nr + abs(ns) * r == n) by (nonlinear_arith)
            requires
                abs(s) == -s,
                abs(ns) == abs(old_s) - q * s,
                nr == old_r - q * r,
                abs(old_s) * r + abs(s) * old_r == n,
        ;
        assert(abs(ns) <= n) by (nonlinear_arith)
            requires
                abs(s) * nr + abs(ns) * r == n,
                r >= 1,
                nr >= 0,
                abs(s) >= 0,
                abs(ns) >= 0,
        ;
    }
}

/// The gcd `d` of two integers with Bézout coefficients: `d == a·x + b·y`.
#[derive(Debug, PartialEq, Eq, Clone, Copy, Structural)]
pub struct EuclideanResult {
    pub d: i32,
    pub x: i32,
    pub y: i32,
}

/// Runs the iterative extended Euclidean algorithm on `|a|` and `|b|`, then
/// gives the coefficients the signs of `a` and `b`. The gcd of `0` and `0` is `0`.
pub fn extended_euclidean(a: i32, b: i32) -> (r: EuclideanResult)
    requires
        a != i32::MIN,
        b != i32::MIN,
    ensures
        r.d == gcd(abs(a as int), abs(b as int)),
        a * r.x + b * r.y == r.d,
        abs(r.x as int) <= abs(b as int) || abs(r.x as int) <= 1,
        abs(r.y as int) <= abs(a as int) || abs(r.y as int) <= 1,
{
    let aa: i64 = if a < 0 {
        -(a as i64)
    } else {
        a as i64
    };
    let bb: i64 = if b < 0 {
        -(b as i64)
    } else {
        b as i64
    };
    let mut old_r: i64 = aa;
    let mut r: i64 = bb;
    let mut old_s: i64 = 1;
    let mut s: i64 = 0;
    let mut old_t: i64 = 0;
    let mut t: i64 = 1;
    assert(abs(1) == 1 && abs(0) == 0);
    assert(abs(old_s as int) * r + abs(s as int) * old_r == bb) by (nonlinear_arith)
        requires
            abs(old_s as int) == 1,
            abs(s as int) == 0,
            r == bb,
    ;
    assert(abs(old_t as int) * r + abs(t as int) * old_r == aa) by (nonlinear_arith)
        requires
            abs(old_t as int) == 0,
            abs(t as int) == 1,
            old_r == aa,
    ;
    while r != 0
        invariant
            0 <= aa <= i32::MAX,
            0 <= bb <= i32::MAX,
            0 <= old_r <= aa || old_r <= bb,
            0 <= old_r,
            0 <= r <= aa || r <= bb,
            0 <= r,
            gcd(old_r as nat, r as nat) == gcd(aa as nat, bb as nat),
            aa * old_s + bb * old_t == old_r,
            aa * s + bb * t == r,
            old_s * s <= 0,
            old_t * t <= 0,
            abs(old_s as int) * r + abs(s as int) * old_r == bb,
            abs(old_t as int) * r + abs(t as int) * old_r == aa,
            abs(old_s as int) <= bb || abs(old_s as int) <= 1,
            abs(s as int) <= bb || abs(s as int) <= 1,
            abs(old_t as int) <= aa || abs(old_t as int) <= 1,
            abs(t as int) <= aa || abs(t as int) <= 1,
        decreases r,
    {
        let q: i64 = old_r / r;
        proof {
            lemma_fundamental_div_mod(old_r as int, r as int);
            lemma_mod_pos_bound(old_r as int, r as int);
            lemma_div_pos_is_pos(old_r as int, r as int);
            assert(old_r == r * q + old_r % r);
            assert(q * r == r * q) by (nonlinear_arith);
            assert(q * r <= old_r);
            lemma_coefficient_step(old_r as int, r as int, q as int, old_s as int, s as int, bb as int);
            lemma_coefficient_step(old_r as int, r as int, q as int, old_t as int, t as int, aa as int);
        }
        let new_r: i64 = old_r - q * r;
        let new_s: i64 = old_s - q * s;
        let new_t: i64 = old_t - q * t;
        proof {
            assert(new_r == old_r % r);
            assert(aa * new_s + bb * new_t == new_r) by (nonlinear_arith)
                requires
                    aa * old_s + bb * old_t == old_r,
                    aa * s + bb * t == r,
                    new_s == old_s - q * s,
                    new_t == old_t - q * t,
                    new_r == old_r - q * r,
            ;
        }
        old_r = r;
        r = new_r;
        old_s = s;
        s = new_s;
        old_t = t;
        t = new_t;
    }
    let x: i64 = if a < 0 {
        -old_s
    } else {
        old_s
    };
    let y: i64 = if b < 0 {
        -old_t
    } else {
        old_t
    };
    proof {
        if a < 0 {
            assert(a * x == aa * old_s) by (nonlinear_arith)
                requires
                    x == -old_s,
                    aa == -a,
            ;
        }
        if b < 0 {
            assert(b * y == bb * old_t) by (nonlinear_arith)
                requires
                    y == -old_t,
                    bb == -b,
            ;
        }
    }
    EuclideanResult { d: old_r as i32, x: x as i32, y: y as i32 }
}

} // verus!
