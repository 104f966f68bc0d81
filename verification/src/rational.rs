//! Positive rational numbers in lowest terms, and multi-sets whose members
//! occur a fractional number of times. The initialization synthesizer uses them
//! to weigh the dependencies that initializing a variable would need.
use std::cmp::Ordering;

use vstd::prelude::*;

verus! {

/// `d` divides `x`.
pub open spec fn divides(d: nat, x: nat) -> bool {
    exists|k: nat| #[trigger] (k * d) == x
}

/// `g` is the greatest common divisor of `a` and `b`.
pub open spec fn is_gcd(g: nat, a: nat, b: nat) -> bool {
    &&& divides(g, a)
    &&& divides(g, b)
    &&& forall|d: nat| #[trigger] divides(d, a) && divides(d, b) ==> d <= g
}

/// What `Rational::gcd` computes: 0 when either argument is 0, and the
/// greatest common divisor otherwise.
pub open spec fn gcd_of(a: nat, b: nat) -> nat {
    if a == 0 || b == 0 {
        0
    } else {
        choose|g: nat| is_gcd(g, a, b)
    }
}

/// `x` is a multiple of `d` and of `d` only through the factor `k`.
proof fn lemma_divides_intro(d: nat, x: nat, k: nat)
    requires
        k * d == x,
    ensures
        divides(d, x),
{
}

/// Common divisors of `a` and `b` are those of `a - b` and `b`.
proof fn lemma_divides_sub(d: nat, a: nat, b: nat)
    requires
        a >= b,
    ensures
        (divides(d, a) && divides(d, b)) <==> (divides(d, (a - b) as nat) && divides(d, b)),
{
    if divides(d, a) && divides(d, b) {
        let ka = choose|k: nat| #[trigger] (k * d) == a;
        let kb = choose|k: nat| #[trigger] (k * d) == b;
        if d > 0 {
            assert(ka >= kb) by (nonlinear_arith)
                requires
                    ka * d == a,
                    kb * d == b,
                    a >= b,
                    d > 0,
            ;
        } else {
            assert(a == 0 && b == 0) by (nonlinear_arith)
                requires
                    ka * d == a,
                    kb * d == b,
                    d == 0,
            ;
        }
        let k = if d > 0 {
            (ka - kb) as nat
        } else {
            0nat
        };
        assert(k * d == a - b) by (nonlinear_arith)
            requires
                ka * d == a,
                kb * d == b,
                d > 0 ==> ka >= kb && k == ka - kb,
                d == 0 ==> a == 0 && b == 0 && k == 0,
        ;
        lemma_divides_intro(d, (a - b) as nat, k);
    }
    if divides(d, (a - b) as nat) && divides(d, b) {
        let k1 = choose|k: nat| #[trigger] (k * d) == (a - b) as nat;
        let kb = choose|k: nat| #[trigger] (k * d) == b;
        assert((k1 + kb) * d == a) by (nonlinear_arith)
            requires
                k1 * d == a - b,
                kb * d == b,
        ;
        lemma_divides_intro(d, a, (k1 + kb) as nat);
    }
}

/// A positive number is the greatest common divisor of itself and 0.
proof fn lemma_gcd_with_zero(b: nat)
    requires
        b > 0,
    ensures
        is_gcd(b, 0, b),
{
    lemma_divides_intro(b, 0, 0);
    lemma_divides_intro(b, b, 1);
    assert forall|d: nat| #[trigger] divides(d, 0) && divides(d, b) implies d <= b by {
        let k = choose|k: nat| #[trigger] (k * d) == b;
        assert(d <= b) by (nonlinear_arith)
            requires
                k * d == b,
                b > 0,
        ;
    }
}

/// The greatest common divisor is unique.
proof fn lemma_gcd_unique(g1: nat, g2: nat, a: nat, b: nat)
    requires
        is_gcd(g1, a, b),
        is_gcd(g2, a, b),
    ensures
        g1 == g2,
{
    assert(divides(g1, a) && divides(g1, b));
    assert(divides(g2, a) && divides(g2, b));
}

/// A rational number `num / den`.
#[derive(Clone, Debug, PartialEq, Eq, Copy, Structural)]
pub struct Rational(pub u32, pub u32);

/// The cross products `(a.num * b.den, b.num * a.den)` by which two rationals compare.
pub open spec fn cross(a: Rational, b: Rational) -> (int, int) {
    (a.0 * b.1, b.0 * a.1)
}

/// `a` is less than `b` as a fraction.
pub open spec fn value_lt(a: Rational, b: Rational) -> bool {
    cross(a, b).0 < cross(a, b).1
}

/// `a` and `b` are equal as fractions.
pub open spec fn value_eq(a: Rational, b: Rational) -> bool {
    cross(a, b).0 == cross(a, b).1
}

/// `a` is at most `b` as a fraction.
pub open spec fn value_le(a: Rational, b: Rational) -> bool {
    cross(a, b).0 <= cross(a, b).1
}

/// `num / den` divided through by the greatest common divisor of the two.
pub open spec fn reduced(num: nat, den: nat) -> Rational {
    Rational((num / gcd_of(num, den)) as u32, (den / gcd_of(num, den)) as u32)
}

/// The rational is positive and in lowest terms.
pub open spec fn lowest_terms(r: Rational) -> bool {
    r.0 > 0 && r.1 > 0 && is_gcd(1, r.0 as nat, r.1 as nat)
}

impl Default for Rational {
    fn default() -> (res: Self)
        ensures
            res == Rational(0, 0),
    {
        Rational(0, 0)
    }
}

impl Rational {
    /// The greatest common divisor of `a` and `b` by repeated subtraction;
    /// 0 when either is 0.
    pub fn gcd(a: u32, b: u32) -> (res: u32)
        ensures
            res as nat == gcd_of(a as nat, b as nat),
            a > 0 && b > 0 ==> is_gcd(res as nat, a as nat, b as nat),
    {
        let ghost a0 = a as nat;
        let ghost b0 = b as nat;
        let mut a = a;
        let mut b = b;
        if a == 0 || b == 0 {
            // the first subtraction step leaves a zero in `b`
            return 0;
        }
        loop
            invariant_except_break
                a > 0,
            invariant
                a0 > 0 && b0 > 0,
                b > 0,
                forall|d: nat|
                    (#[trigger] divides(d, a as nat) && divides(d, b as nat)) <==> (divides(
                        d,
                        a0,
                    ) && divides(d, b0)),
            ensures
                is_gcd(b as nat, a0, b0),
            decreases a + b,
        {
            let (na, nb) = if a > b {
                (a - b, b)
            } else {
                (b - a, a)
            };
            proof {
                assert forall|d: nat|
                    (#[trigger] divides(d, na as nat) && divides(d, nb as nat)) <==> (divides(
                        d,
                        a0,
                    ) && divides(d, b0)) by {
                    assert((divides(d, a as nat) && divides(d, b as nat)) <==> (divides(d, a0)
                        && divides(d, b0)));
                    if a > b {
                        lemma_divides_sub(d, a as nat, b as nat);
                        assert(na as nat == (a as nat - b as nat) as nat);
                    } else {
                        lemma_divides_sub(d, b as nat, a as nat);
                        assert(na as nat == (b as nat - a as nat) as nat);
                    }
                }
            }
            a = na;
            b = nb;
            if a == 0 {
                proof {
                    lemma_gcd_with_zero(b as nat);
                    assert forall|d: nat| #[trigger]
                        divides(d, a0) && divides(d, b0) implies d <= b by {
                        assert(divides(d, a as nat) && divides(d, b as nat));
                    }
                    assert(divides(b as nat, a as nat) && divides(b as nat, b as nat));
                }
                break ;
            }
        }
        proof {
            assert(is_gcd(b as nat, a0, b0));
            lemma_gcd_unique(b as nat, gcd_of(a0, b0), a0, b0);
        }
        b
    }

    /// The rational `num / den` in lowest terms.
    pub fn new(num: u32, den: u32) -> (res: Self)
        requires
            num > 0,
            den > 0,
        ensures
            res.0 * gcd_of(num as nat, den as nat) == num,
            res.1 * gcd_of(num as nat, den as nat) == den,
            value_eq(res, Rational(num, den)),
            lowest_terms(res),
            res == reduced(num as nat, den as nat),
    {
        let g = Self::gcd(num, den);
        proof {
            let kn = choose|k: nat| #[trigger] (k * (g as nat)) == num as nat;
            assert(g > 0) by (nonlinear_arith)
                requires
                    kn * (g as nat) == num as nat,
                    num > 0,
            ;
        }
        let res = Self(num / g, den / g);
        proof {
            lemma_new_lowest_terms(num as nat, den as nat, g as nat, res.0 as nat, res.1 as nat);
        }
        res
    }

    /// The rational 1.
    pub fn one() -> (res: Self)
        ensures
            res == Rational(1, 1),
    {
        Self(1, 1)
    }

    /// The numerator.
    pub fn num(self) -> (res: u32)
        ensures
            res == self.0,
    {
        self.0
    }

    /// The denominator.
    pub fn den(self) -> (res: u32)
        ensures
            res == self.1,
    {
        self.1
    }

    /// `self <= other` as fractions.
    pub fn le(self, other: Self) -> (res: bool)
        ensures
            res == value_le(self, other),
    {
        let (l, r) = cross_products(self, other);
        l <= r
    }

    /// `self < other` as fractions.
    pub fn lt(self, other: Self) -> (res: bool)
        ensures
            res == value_lt(self, other),
    {
        let (l, r) = cross_products(self, other);
        l < r
    }

    /// The smaller of the two; `self` when they are equal as fractions.
    pub fn min(self, other: Self) -> (res: Self)
        ensures
            res == (if value_le(self, other) {
                self
            } else {
                other
            }),
    {
        if self.le(other) {
            self
        } else {
            other
        }
    }
}

/// The order of two rationals as fractions.
pub open spec fn fraction_order(a: Rational, b: Rational) -> Option<Ordering> {
    if value_lt(a, b) {
        Some(Ordering::Less)
    } else if value_eq(a, b) {
        Some(Ordering::Equal)
    } else {
        Some(Ordering::Greater)
    }
}

impl PartialOrd for Rational {
    fn partial_cmp(&self, other: &Self) -> (res: Option<Ordering>) {
        let (l, r) = cross_products(*self, *other);
        if l < r {
            Some(Ordering::Less)
        } else if l == r {
            Some(Ordering::Equal)
        } else {
            Some(Ordering::Greater)
        }
    }
}

impl vstd::std_specs::cmp::PartialOrdSpecImpl for Rational {
    open spec fn obeys_partial_cmp_spec() -> bool {
        true
    }

    open spec fn partial_cmp_spec(&self, other: &Self) -> Option<Ordering> {
        fraction_order(*self, *other)
    }
}

/// The cross products of two rationals, computed without overflow.
fn cross_products(a: Rational, b: Rational) -> (res: (u64, u64))
    ensures
        res.0 as int == cross(a, b).0,
        res.1 as int == cross(a, b).1,
{
    let x0 = a.0 as u64;
    let x1 = a.1 as u64;
    let y0 = b.0 as u64;
    let y1 = b.1 as u64;
    proof {
        assert(x0 * y1 <= 0xffff_ffff * 0xffff_ffff) by (nonlinear_arith)
            requires
                x0 <= 0xffff_ffff,
                y1 <= 0xffff_ffff,
        ;
        assert(y0 * x1 <= 0xffff_ffff * 0xffff_ffff) by (nonlinear_arith)
            requires
                y0 <= 0xffff_ffff,
                x1 <= 0xffff_ffff,
        ;
    }
    let l = x0 * y1;
    let r = y0 * x1;
    (l, r)
}

/// Dividing `num` and `den` by their greatest common divisor leaves a fraction of the
/// same value whose only common divisor is 1.
proof fn lemma_new_lowest_terms(num: nat, den: nat, g: nat, n: nat, d: nat)
    requires
        num > 0,
        den > 0,
        is_gcd(g, num, den),
        g > 0,
        n == num / g,
        d == den / g,
    ensures
        n * g == num,
        d * g == den,
        n > 0,
        d > 0,
        n * den == num * d,
        is_gcd(1, n, d),
        g == gcd_of(num, den),
{
    let kn = choose|k: nat| #[trigger] (k * g) == num;
    let kd = choose|k: nat| #[trigger] (k * g) == den;
    vstd::arithmetic::div_mod::lemma_div_by_multiple(kn as int, g as int);
    vstd::arithmetic::div_mod::lemma_div_by_multiple(kd as int, g as int);
    assert(n == kn && d == kd);
    assert(n > 0 && d > 0) by (nonlinear_arith)
        requires
            n * g == num,
            d * g == den,
            num > 0,
            den > 0,
    ;
    assert(n * den == num * d) by (nonlinear_arith)
        requires
            n * g == num,
            d * g == den,
    ;
    lemma_divides_intro(1, n, n);
    lemma_divides_intro(1, d, d);
    assert forall|e: nat| #[trigger] divides(e, n) && divides(e, d) implies e <= 1 by {
        let a = choose|k: nat| #[trigger] (k * e) == n;
        let b = choose|k: nat| #[trigger] (k * e) == d;
        assert((a * (e * g)) == num && (b * (e * g)) == den) by (nonlinear_arith)
            requires
                a * e == n,
                b * e == d,
                n * g == num,
                d * g == den,
        ;
        lemma_divides_intro(e * g, num, a);
        lemma_divides_intro(e * g, den, b);
        assert(e * g <= g);
        assert(e <= 1) by (nonlinear_arith)
            requires
                e * g <= g,
                g > 0,
        ;
    }
    lemma_gcd_unique(g, gcd_of(num, den), num, den);
}

/// Positive numbers have a greatest common divisor.
proof fn lemma_gcd_exists(a: nat, b: nat)
    requires
        a > 0,
        b > 0,
    ensures
        is_gcd(gcd_of(a, b), a, b),
        gcd_of(a, b) > 0,
    decreases a + b,
{
    if a == b {
        lemma_divides_intro(a, a, 1);
        assert forall|d: nat| #[trigger] divides(d, a) && divides(d, b) implies d <= a by {
            let k = choose|k: nat| #[trigger] (k * d) == a;
            assert(d <= a) by (nonlinear_arith)
                requires
                    k * d == a,
                    a > 0,
            ;
        }
        assert(is_gcd(a, a, b));
    } else if a > b {
        lemma_gcd_exists((a - b) as nat, b);
        let g = gcd_of((a - b) as nat, b);
        assert forall|d: nat| (divides(d, a) && divides(d, b)) <==> (divides(d, (a - b) as nat) && divides(d, b)) by {
            lemma_divides_sub(d, a, b);
        }
        assert(is_gcd(g, a, b));
    } else {
        lemma_gcd_exists(a, (b - a) as nat);
        let g = gcd_of(a, (b - a) as nat);
        assert forall|d: nat| (divides(d, b) && divides(d, a)) <==> (divides(d, (b - a) as nat) && divides(d, a)) by {
            lemma_divides_sub(d, b, a);
        }
        assert(is_gcd(g, a, b));
    }
    let g = gcd_of(a, b);
    if g == 0 {
        let k = choose|k: nat| #[trigger] (k * g) == a;
        assert(k * g == 0) by (nonlinear_arith)
            requires
                g == 0,
        ;
    }
}

/// If `p` divides `x * r` and `y * r`, it divides `g * r` for the greatest common
/// divisor `g` of `x` and `y`.
proof fn lemma_divides_gcd_multiple(p: nat, r: nat, x: nat, y: nat, g: nat)
    requires
        x > 0,
        y > 0,
        is_gcd(g, x, y),
        divides(p, x * r),
        divides(p, y * r),
    ensures
        divides(p, g * r),
    decreases x + y,
{
    if x == y {
        lemma_divides_intro(x, x, 1);
        assert(divides(x, x));
        assert(x <= g);
        let k = choose|k: nat| #[trigger] (k * g) == x;
        assert(g <= x) by (nonlinear_arith)
            requires
                k * g == x,
                x > 0,
        ;
    } else if x > y {
        assert((x - y) * r == x * r - y * r) by (nonlinear_arith)
            requires
                x > y,
        ;
        assert(x * r >= y * r) by (nonlinear_arith)
            requires
                x > y,
        ;
        lemma_divides_sub(p, x * r, y * r);
        assert forall|d: nat| (divides(d, x) && divides(d, y)) <==> (divides(d, (x - y) as nat) && divides(d, y)) by {
            lemma_divides_sub(d, x, y);
        }
        assert(is_gcd(g, (x - y) as nat, y));
        lemma_divides_gcd_multiple(p, r, (x - y) as nat, y, g);
    } else {
        assert((y - x) * r == y * r - x * r) by (nonlinear_arith)
            requires
                y > x,
        ;
        assert(y * r >= x * r) by (nonlinear_arith)
            requires
                y > x,
        ;
        lemma_divides_sub(p, y * r, x * r);
        assert forall|d: nat| (divides(d, y) && divides(d, x)) <==> (divides(d, (y - x) as nat) && divides(d, x)) by {
            lemma_divides_sub(d, y, x);
        }
        assert(is_gcd(g, x, (y - x) as nat));
        lemma_divides_gcd_multiple(p, r, x, (y - x) as nat, g);
    }
}

/// Two fractions in lowest terms with the same value are the same fraction.
proof fn lemma_lowest_terms_unique(p: nat, q: nat, r: nat, s: nat)
    requires
        p > 0,
        q > 0,
        r > 0,
        s > 0,
        is_gcd(1, p, q),
        is_gcd(1, r, s),
        p * s == r * q,
    ensures
        p == r,
        q == s,
{
    // p divides q * r and p * r, so it divides gcd(p, q) * r = r
    assert(s * p == q * r) by (nonlinear_arith)
        requires
            p * s == r * q,
    ;
    lemma_divides_intro(p, q * r, s);
    lemma_divides_intro(p, p * r, r);
    assert(r * p == p * r) by (nonlinear_arith);
    lemma_divides_gcd_multiple(p, r, p, q, 1);
    assert(1 * r == r);
    // and r divides p in the same way
    assert(q * r == r * q) by (nonlinear_arith);
    lemma_divides_intro(r, s * p, q);
    assert(q * r == s * p) by (nonlinear_arith)
        requires
            p * s == r * q,
    ;
    lemma_divides_intro(r, r * p, p);
    assert(p * r == r * p) by (nonlinear_arith);
    lemma_divides_gcd_multiple(r, p, r, s, 1);
    assert(1 * p == p);
    let k1 = choose|k: nat| #[trigger] (k * p) == r;
    let k2 = choose|k: nat| #[trigger] (k * r) == p;
    assert(p == r) by (nonlinear_arith)
        requires
            k1 * p == r,
            k2 * r == p,
            p > 0,
            r > 0,
    ;
    assert(q == s) by (nonlinear_arith)
        requires
            p * s == r * q,
            p == r,
            p > 0,
    ;
}

/// Two positive fractions reduce to the same rational exactly when they have the
/// same value: `Rational::new(a, b) == Rational::new(c, d)` iff `a * d == c * b`.
pub proof fn law_new_equal_iff_same_value(a: u32, b: u32, c: u32, d: u32)
    requires
        a > 0,
        b > 0,
        c > 0,
        d > 0,
    ensures
        reduced(a as nat, b as nat) == reduced(c as nat, d as nat) <==> a * d == c * b,
{
    lemma_gcd_exists(a as nat, b as nat);
    lemma_gcd_exists(c as nat, d as nat);
    let g1 = gcd_of(a as nat, b as nat);
    let g2 = gcd_of(c as nat, d as nat);
    let p = (a as nat) / g1;
    let q = (b as nat) / g1;
    let r = (c as nat) / g2;
    let s = (d as nat) / g2;
    lemma_new_lowest_terms(a as nat, b as nat, g1, p, q);
    lemma_new_lowest_terms(c as nat, d as nat, g2, r, s);
    assert(p <= a && q <= b && r <= c && s <= d) by (nonlinear_arith)
        requires
            p * g1 == a,
            q * g1 == b,
            r * g2 == c,
            s * g2 == d,
            g1 > 0,
            g2 > 0,
    ;
    assert(reduced(a as nat, b as nat) == Rational(p as u32, q as u32));
    assert(reduced(c as nat, d as nat) == Rational(r as u32, s as u32));
    if a * d == c * b {
        assert(p * s == r * q) by (nonlinear_arith)
            requires
                p * g1 == a,
                q * g1 == b,
                r * g2 == c,
                s * g2 == d,
                g1 > 0,
                g2 > 0,
                a * d == c * b,
        ;
        lemma_lowest_terms_unique(p, q, r, s);
    }
    if reduced(a as nat, b as nat) == reduced(c as nat, d as nat) {
        assert(p == r && q == s);
        assert(a * d == c * b) by (nonlinear_arith)
            requires
                p * g1 == a,
                q * g1 == b,
                p * g2 == c,
                q * g2 == d,
        ;
    }
}

} // verus!
