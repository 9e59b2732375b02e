//! Exact amounts of coin.
//!
//! An amount is a ratio of two 64-bit integers in lowest terms, counted in
//! copper, so trading-post fees and per-unit shares never round. Contracts
//! speak of the amount as a real number.

use crate::text::{decimal, padded_decimal, to_padded_decimal, to_wide_decimal};
use vstd::prelude::*;
use vstd::string::*;

verus! {

/// `v` is the quotient of `n` by the positive `d`.
pub open spec fn is_ratio(v: real, n: int, d: int) -> bool {
    d > 0 && v * (d as real) == n as real
}

/// `v` is the quotient of two 64-bit integers, so that an amount can hold it.
pub open spec fn fits(v: real) -> bool {
    exists|n: i64, d: i64| #[trigger] is_ratio(v, n as int, d as int)
}

/// The amount `v`, where it can be held.
pub open spec fn is_amount(res: Option<Money>, v: real) -> bool {
    match res {
        Some(m) => fits(v) && m@ == v,
        None => !fits(v),
    }
}

/// The integer part of `v`: `v` rounded towards zero.
pub open spec fn is_integer_part(v: real, r: int) -> bool {
    if v >= 0 as real {
        (r as real) <= v && v < ((r + 1) as real)
    } else {
        ((r - 1) as real) < v && v <= (r as real)
    }
}

/// Share of a sale that the seller keeps: the listing fee is 5% and the
/// exchange fee 10% of the price.
pub open spec fn after_fees(price: real) -> real {
    price * (17 as real) / (20 as real)
}

/// Price at which a sale leaves `amount` after the fees.
pub open spec fn before_fees(amount: real) -> real {
    amount * (20 as real) / (17 as real)
}

/// `amount` and the listing fee of 5% on it.
pub open spec fn with_listing_fee(amount: real) -> real {
    amount * (21 as real) / (20 as real)
}

/// Greatest common divisor.
pub open spec fn gcd(a: nat, b: nat) -> nat
    decreases b,
{
    if b == 0 {
        a
    } else {
        gcd(b, a % b)
    }
}

/// Magnitude of an integer.
pub open spec fn magnitude(n: int) -> nat {
    if n < 0 {
        (-n) as nat
    } else {
        n as nat
    }
}

proof fn lemma_gcd_divides(a: nat, b: nat)
    requires
        a > 0 || b > 0,
    ensures
        gcd(a, b) > 0,
        a % gcd(a, b) == 0,
        b % gcd(a, b) == 0,
    decreases b,
{
    if b == 0 {
        assert(a % a == 0) by (nonlinear_arith)
            requires
                a > 0,
        ;
        assert(0nat % a == 0) by (nonlinear_arith)
            requires
                a > 0,
        ;
    } else {
        lemma_gcd_divides(b, a % b);
        let g: nat = gcd(b, a % b);
        let r: nat = a % b;
        let q: nat = a / b;
        assert(a == b * q + r) by (nonlinear_arith)
            requires
                b > 0,
                r == a % b,
                q == a / b,
        ;
        let kb: nat = b / g;
        let kr: nat = r / g;
        assert(b == g * kb) by (nonlinear_arith)
            requires
                g > 0,
                b % g == 0,
                kb == b / g,
        ;
        assert(r == g * kr) by (nonlinear_arith)
            requires
                g > 0,
                r % g == 0,
                kr == r / g,
        ;
        assert(a == g * (kb * q + kr)) by (nonlinear_arith)
            requires
                a == b * q + r,
                b == g * kb,
                r == g * kr,
        ;
        lemma_multiple_divides((kb * q + kr) as int, g as int);
    }
}

proof fn lemma_multiple_divides(k: int, g: int)
    requires
        g > 0,
    ensures
        (g * k) % g == 0,
        (g * k) / g == k,
{
    vstd::arithmetic::div_mod::lemma_mod_multiples_basic(k, g);
    vstd::arithmetic::div_mod::lemma_div_multiples_vanish(k, g);
    assert(g * k == k * g) by (nonlinear_arith);
}

/// Bezout coefficients of the greatest common divisor.
proof fn lemma_bezout(a: nat, b: nat) -> (c: (int, int))
    ensures
        a * c.0 + b * c.1 == gcd(a, b),
    decreases b,
{
    if b == 0 {
        (1int, 0int)
    } else {
        let d = lemma_bezout(b, a % b);
        let r: nat = a % b;
        let q: nat = a / b;
        assert(a == b * q + r) by (nonlinear_arith)
            requires
                b > 0,
                r == a % b,
                q == a / b,
        ;
        assert(a * d.1 + b * (d.0 - q * d.1) == b * d.0 + r * d.1) by (nonlinear_arith)
            requires
                a == b * q + r,
        ;
        (d.1, d.0 - q * d.1)
    }
}

/// Dividing both terms by their greatest common divisor leaves them coprime.
proof fn lemma_lowest_terms(a: nat, b: nat)
    requires
        b > 0,
    ensures
        gcd(a, b) > 0,
        a == (a / gcd(a, b)) * gcd(a, b),
        b == (b / gcd(a, b)) * gcd(a, b),
        b / gcd(a, b) > 0,
        gcd(a / gcd(a, b), b / gcd(a, b)) == 1,
{
    lemma_gcd_divides(a, b);
    let g: nat = gcd(a, b);
    let ka: nat = a / g;
    let kb: nat = b / g;
    assert(a == ka * g) by (nonlinear_arith)
        requires
            g > 0,
            a % g == 0,
            ka == a / g,
    ;
    assert(b == kb * g) by (nonlinear_arith)
        requires
            g > 0,
            b % g == 0,
            kb == b / g,
    ;
    assert(kb > 0) by (nonlinear_arith)
        requires
            b == kb * g,
            b > 0,
            g > 0,
    ;
    let c = lemma_bezout(a, b);
    let x: int = c.0;
    let y: int = c.1;
    assert(g * (ka * x + kb * y) == g) by (nonlinear_arith)
        requires
            a * x + b * y == g,
            a == ka * g,
            b == kb * g,
    ;
    assert(ka * x + kb * y == 1) by (nonlinear_arith)
        requires
            g * (ka * x + kb * y) == g,
            g > 0,
    ;
    lemma_gcd_divides(ka, kb);
    let h: nat = gcd(ka, kb);
    let ha: nat = ka / h;
    let hb: nat = kb / h;
    assert(ka == ha * h) by (nonlinear_arith)
        requires
            h > 0,
            ka % h == 0,
            ha == ka / h,
    ;
    assert(kb == hb * h) by (nonlinear_arith)
        requires
            h > 0,
            kb % h == 0,
            hb == kb / h,
    ;
    let t: int = ha * x + hb * y;
    assert(h * t == 1) by (nonlinear_arith)
        requires
            ka * x + kb * y == 1,
            ka == ha * h,
            kb == hb * h,
            t == ha * x + hb * y,
    ;
    assert(h == 1) by (nonlinear_arith)
        requires
            h * t == 1,
            h > 0,
    ;
}

/// The lowest terms of a ratio are its smallest ones.
proof fn lemma_lowest_terms_smallest(n: int, d: int, n2: int, d2: int)
    requires
        d > 0,
        d2 > 0,
        gcd(magnitude(n), d as nat) == 1,
        n * d2 == n2 * d,
    ensures
        d <= d2,
        magnitude(n) <= magnitude(n2),
        exists|k: int| k >= 1 && n2 == n * k && #[trigger] (d * k) == d2,
{
    let c = lemma_bezout(magnitude(n), d as nat);
    let x: int = if n < 0 {
        -c.0
    } else {
        c.0
    };
    let y: int = c.1;
    assert(n * x + d * y == 1) by {
        if n < 0 {
            assert((-n) * c.0 == n * (-c.0)) by (nonlinear_arith);
        }
    }
    let k: int = n2 * x + d2 * y;
    assert(d * k == d2) by (nonlinear_arith)
        requires
            n * x + d * y == 1,
            n * d2 == n2 * d,
            k == n2 * x + d2 * y,
    ;
    assert(k >= 1) by (nonlinear_arith)
        requires
            d * k == d2,
            d > 0,
            d2 > 0,
    ;
    assert(d <= d2) by (nonlinear_arith)
        requires
            d * k == d2,
            k >= 1,
            d > 0,
    ;
    assert(n2 == n * k) by (nonlinear_arith)
        requires
            n * d2 == n2 * d,
            d * k == d2,
            d > 0,
    ;
    assert(magnitude(n) <= magnitude(n2)) by (nonlinear_arith)
        requires
            n2 == n * k,
            k >= 1,
            magnitude(n) == (if n < 0 { -n } else { n }),
            magnitude(n2) == (if n2 < 0 { -n2 } else { n2 }),
    ;
}

/// Two ways to write one quotient.
proof fn lemma_same_quotient(v: real, n: int, d: int, n2: int, d2: int)
    requires
        is_ratio(v, n, d),
        is_ratio(v, n2, d2),
    ensures
        n * d2 == n2 * d,
{
    assert((n * d2) as real == (n2 * d) as real) by (nonlinear_arith)
        requires
            v * (d as real) == n as real,
            v * (d2 as real) == n2 as real,
    ;
}

/// Order of two quotients by their cross products.
proof fn lemma_quotient_order(v: real, n: int, d: int, w: real, m: int, e: int)
    requires
        is_ratio(v, n, d),
        is_ratio(w, m, e),
    ensures
        (v < w) <==> (n * e < m * d),
        (v == w) <==> (n * e == m * d),
{
    let p: real = (d as real) * (e as real);
    assert(p > 0 as real) by (nonlinear_arith)
        requires
            d > 0,
            e > 0,
            p == (d as real) * (e as real),
    ;
    assert((n * e) as real == v * p) by (nonlinear_arith)
        requires
            v * (d as real) == n as real,
            p == (d as real) * (e as real),
    ;
    assert((m * d) as real == w * p) by (nonlinear_arith)
        requires
            w * (e as real) == m as real,
            p == (d as real) * (e as real),
    ;
    assert((v < w) <==> (v * p < w * p)) by (nonlinear_arith)
        requires
            p > 0 as real,
    ;
    assert((v == w) <==> (v * p == w * p)) by (nonlinear_arith)
        requires
            p > 0 as real,
    ;
}

proof fn lemma_quotient(n: int, d: int)
    requires
        d > 0,
    ensures
        is_ratio((n as real) / (d as real), n, d),
{
    let v: real = (n as real) / (d as real);
    assert(v * (d as real) == n as real) by (nonlinear_arith)
        requires
            v == (n as real) / (d as real),
            d > 0,
    ;
}

proof fn lemma_quotient_unique(v: real, n: int, d: int)
    requires
        is_ratio(v, n, d),
    ensures
        v == (n as real) / (d as real),
{
    assert(v == (n as real) / (d as real)) by (nonlinear_arith)
        requires
            v * (d as real) == n as real,
            d > 0,
    ;
}

proof fn lemma_product_bound(a: int, b: int)
    requires
        -0x8000_0000_0000_0000 <= a <= 0x7fff_ffff_ffff_ffff,
        0 <= b <= 0x7fff_ffff_ffff_ffff,
    ensures
        -0x4000_0000_0000_0000_0000_0000_0000_0000 < a * b,
        a * b < 0x4000_0000_0000_0000_0000_0000_0000_0000,
{
    assert(-0x4000_0000_0000_0000_0000_0000_0000_0000 < a * b) by (nonlinear_arith)
        requires
            -0x8000_0000_0000_0000 <= a <= 0x7fff_ffff_ffff_ffff,
            0 <= b <= 0x7fff_ffff_ffff_ffff,
    ;
    assert(a * b < 0x4000_0000_0000_0000_0000_0000_0000_0000) by (nonlinear_arith)
        requires
            -0x8000_0000_0000_0000 <= a <= 0x7fff_ffff_ffff_ffff,
            0 <= b <= 0x7fff_ffff_ffff_ffff,
    ;
}

fn greatest_common_divisor(a: u128, b: u128) -> (g: u128)
    ensures
        g == gcd(a as nat, b as nat),
{
    let mut x: u128 = a;
    let mut y: u128 = b;
    while y != 0
        invariant
            gcd(x as nat, y as nat) == gcd(a as nat, b as nat),
        decreases y,
    {
        let r: u128 = x % y;
        x = y;
        y = r;
    }
    x
}

/// An exact amount of coin, in copper.
///
/// Currencies other than coin enter at the rate at which they are converted to
/// coin, so that one number orders every amount.
#[derive(Clone, Copy, Debug, PartialEq, Eq, Hash, Structural)]
pub struct Money {
    num: i64,
    den: i64,
}

impl View for Money {
    type V = real;

    closed spec fn view(&self) -> real {
        (self.num as real) / (self.den as real)
    }
}

impl Money {
    #[verifier::type_invariant]
    spec fn lowest_terms(&self) -> bool {
        &&& self.den > 0
        &&& gcd(magnitude(self.num as int), self.den as nat) == 1
    }

    /// The amount `n / d`, where it can be held.
    fn reduced(n: i128, d: i128) -> (res: Option<Money>)
        requires
            d > 0,
            n > i128::MIN,
        ensures
            is_amount(res, (n as real) / (d as real)),
    {
        let ghost v: real = (n as real) / (d as real);
        let a: u128 = if n < 0 {
            (-n) as u128
        } else {
            n as u128
        };
        let b: u128 = d as u128;
        let g: u128 = greatest_common_divisor(a, b);
        proof {
            lemma_lowest_terms(a as nat, b as nat);
        }
        let p: u128 = a / g;
        let q: u128 = b / g;
        let ghost sp: int = if n < 0 {
            -(p as int)
        } else {
            p as int
        };
        proof {
            lemma_quotient(n as int, d as int);
            assert(n == sp * g) by (nonlinear_arith)
                requires
                    a == p * g,
                    a == (if n < 0 { -n } else { n as int }),
                    sp == (if n < 0 { -(p as int) } else { p as int }),
            ;
            assert(is_ratio(v, sp, q as int)) by {
                assert(v * (q as real) == sp as real) by (nonlinear_arith)
                    requires
                        v * (d as real) == n as real,
                        d == q * g,
                        n == sp * g,
                        g > 0,
                ;
            }
            assert(magnitude(sp) == p);
            lemma_quotient_unique(v, sp, q as int);
            if fits(v) {
                let (fnum, fden) = choose|fnum: i64, fden: i64| #[trigger]
                    is_ratio(v, fnum as int, fden as int);
                lemma_same_quotient(v, sp, q as int, fnum as int, fden as int);
                lemma_lowest_terms_smallest(sp, q as int, fnum as int, fden as int);
            }
        }
        let most: u128 = if n < 0 {
            0x8000_0000_0000_0000
        } else {
            0x7fff_ffff_ffff_ffff
        };
        if p > most || q > 0x7fff_ffff_ffff_ffff {
            return None;
        }
        let num: i64 = if n < 0 {
            (-(p as i128)) as i64
        } else {
            p as i64
        };
        proof {
            assert(num as int == sp);
            assert(is_ratio(v, num as int, (q as i64) as int));
        }
        Some(Money { num, den: q as i64 })
    }

    proof fn lemma_ratio(&self)
        requires
            self.lowest_terms(),
        ensures
            is_ratio(self@, self.num as int, self.den as int),
            self.den > 0,
            fits(self@),
    {
        lemma_quotient(self.num as int, self.den as int);
    }

    /// No coin.
    pub fn zero() -> (m: Money)
        ensures
            m@ == 0 as real,
    {
        proof {
            lemma_one_divides(0);
        }
        Money { num: 0, den: 1 }
    }

    /// A whole number of copper.
    pub fn from_copper(copper: i32) -> (m: Money)
        ensures
            m@ == copper as real,
    {
        proof {
            lemma_one_divides(copper as int);
        }
        Money { num: copper as i64, den: 1 }
    }

    /// A whole number of copper.
    pub fn whole_copper(copper: i64) -> (m: Money)
        ensures
            m@ == copper as real,
    {
        proof {
            lemma_one_divides(copper as int);
        }
        Money { num: copper, den: 1 }
    }

    /// Numerator of the amount in lowest terms.
    pub fn numerator(&self) -> (n: i64)
        ensures
            is_ratio(self@, n as int, self.spec_denominator()),
    {
        proof {
            use_type_invariant(self);
            self.lemma_ratio();
        }
        self.num
    }

    /// Denominator of the amount in lowest terms.
    pub closed spec fn spec_denominator(&self) -> int {
        self.den as int
    }

    /// Denominator of the amount in lowest terms.
    pub fn denominator(&self) -> (d: i64)
        ensures
            d > 0,
            d == self.spec_denominator(),
            forall|n2: int, d2: int| #[trigger] is_ratio(self@, n2, d2) ==> d <= d2,
    {
        proof {
            use_type_invariant(self);
            self.lemma_ratio();
            use_type_invariant(self);
            assert forall|n2: int, d2: int| #[trigger] is_ratio(self@, n2, d2) implies self.den
                <= d2 by {
                lemma_same_quotient(self@, self.num as int, self.den as int, n2, d2);
                lemma_lowest_terms_smallest(self.num as int, self.den as int, n2, d2);
            }
        }
        self.den
    }

    /// Whether the amount is no coin at all.
    pub fn is_zero(&self) -> (b: bool)
        ensures
            b == (self@ == 0 as real),
    {
        proof {
            use_type_invariant(self);
            self.lemma_ratio();
            let v: real = self@;
            let n: int = self.num as int;
            let d: int = self.den as int;
            assert((v == 0 as real) == (n == 0)) by (nonlinear_arith)
                requires
                    v * (d as real) == n as real,
                    d > 0,
            ;
        }
        self.num == 0
    }

    /// Whether the two amounts are equal.
    pub fn equals(&self, other: &Money) -> (b: bool)
        ensures
            b == (self@ == other@),
    {
        proof {
            use_type_invariant(self);
            self.lemma_ratio();
            use_type_invariant(other);
            other.lemma_ratio();
            lemma_quotient_order(
                self@,
                self.num as int,
                self.den as int,
                other@,
                other.num as int,
                other.den as int,
            );
            lemma_product_bound(self.num as int, other.den as int);
            lemma_product_bound(other.num as int, self.den as int);
        }
        (self.num as i128) * (other.den as i128) == (other.num as i128) * (self.den as i128)
    }

    /// Whether the amount is smaller than `other`.
    pub fn less_than(&self, other: &Money) -> (b: bool)
        ensures
            b == (self@ < other@),
    {
        proof {
            use_type_invariant(self);
            self.lemma_ratio();
            use_type_invariant(other);
            other.lemma_ratio();
            lemma_quotient_order(
                self@,
                self.num as int,
                self.den as int,
                other@,
                other.num as int,
                other.den as int,
            );
            lemma_product_bound(self.num as int, other.den as int);
            lemma_product_bound(other.num as int, self.den as int);
        }
        (self.num as i128) * (other.den as i128) < (other.num as i128) * (self.den as i128)
    }

    /// The smaller of two amounts.
    pub fn min(self, other: Money) -> (m: Money)
        ensures
            m == self || m == other,
            m@ == (if other@ < self@ { other@ } else { self@ }),
    {
        if other.less_than(&self) {
            other
        } else {
            self
        }
    }

    /// The larger of two amounts.
    pub fn max(self, other: Money) -> (m: Money)
        ensures
            m == self || m == other,
            m@ == (if self@ < other@ { other@ } else { self@ }),
    {
        if self.less_than(&other) {
            other
        } else {
            self
        }
    }

    /// Sum of two amounts.
    pub fn plus(self, other: Money) -> (m: Money)
        requires
            fits(self@ + other@),
        ensures
            m@ == self@ + other@,
    {
        match self.checked_plus(other) {
            Some(m) => m,
            None => self,
        }
    }

    /// Sum of two amounts, where it can be held.
    pub fn checked_plus(self, other: Money) -> (res: Option<Money>)
        ensures
            is_amount(res, self@ + other@),
    {
        let ghost v: real = self@;
        let ghost w: real = other@;
        proof {
            use_type_invariant(&self);
            self.lemma_ratio();
            use_type_invariant(&other);
            other.lemma_ratio();
            lemma_product_bound(self.num as int, other.den as int);
            lemma_product_bound(other.num as int, self.den as int);
            lemma_product_bound(self.den as int, other.den as int);
        }
        let n: i128 = (self.num as i128) * (other.den as i128) + (other.num as i128) * (
        self.den as i128);
        let d: i128 = (self.den as i128) * (other.den as i128);
        proof {
            let a: int = self.num as int;
            let b: int = self.den as int;
            let c: int = other.num as int;
            let e: int = other.den as int;
            assert(d > 0) by (nonlinear_arith)
                requires
                    d == b * e,
                    b > 0,
                    e > 0,
            ;
            assert((v + w) * (d as real) == n as real) by (nonlinear_arith)
                requires
                    v * (b as real) == a as real,
                    w * (e as real) == c as real,
                    d == b * e,
                    n == a * e + c * b,
            ;
            assert(is_ratio(v + w, n as int, d as int));
            lemma_quotient_unique(v + w, n as int, d as int);
        }
        Money::reduced(n, d)
    }

    /// Difference of two amounts.
    pub fn minus(self, other: Money) -> (m: Money)
        requires
            fits(self@ - other@),
        ensures
            m@ == self@ - other@,
    {
        match self.checked_minus(other) {
            Some(m) => m,
            None => self,
        }
    }

    /// Difference of two amounts, where it can be held.
    pub fn checked_minus(self, other: Money) -> (res: Option<Money>)
        ensures
            is_amount(res, self@ - other@),
    {
        let ghost v: real = self@;
        let ghost w: real = other@;
        proof {
            use_type_invariant(&self);
            self.lemma_ratio();
            use_type_invariant(&other);
            other.lemma_ratio();
            lemma_product_bound(self.num as int, other.den as int);
            lemma_product_bound(other.num as int, self.den as int);
            lemma_product_bound(self.den as int, other.den as int);
        }
        let n: i128 = (self.num as i128) * (other.den as i128) - (other.num as i128) * (
        self.den as i128);
        let d: i128 = (self.den as i128) * (other.den as i128);
        proof {
            let a: int = self.num as int;
            let b: int = self.den as int;
            let c: int = other.num as int;
            let e: int = other.den as int;
            assert(d > 0) by (nonlinear_arith)
                requires
                    d == b * e,
                    b > 0,
                    e > 0,
            ;
            assert((v - w) * (d as real) == n as real) by (nonlinear_arith)
                requires
                    v * (b as real) == a as real,
                    w * (e as real) == c as real,
                    d == b * e,
                    n == a * e - c * b,
            ;
            assert(is_ratio(v - w, n as int, d as int));
            lemma_quotient_unique(v - w, n as int, d as int);
        }
        Money::reduced(n, d)
    }

    /// The amount multiplied by `p / q`, where it can be held.
    fn scaled(self, p: u32, q: u32) -> (res: Option<Money>)
        requires
            q > 0,
        ensures
            is_amount(res, self@ * (p as real) / (q as real)),
    {
        let ghost v: real = self@;
        proof {
            use_type_invariant(&self);
            self.lemma_ratio();
            lemma_product_bound(self.num as int, p as int);
            lemma_product_bound(self.den as int, q as int);
        }
        let n: i128 = (self.num as i128) * (p as i128);
        let d: i128 = (self.den as i128) * (q as i128);
        proof {
            let a: int = self.num as int;
            let b: int = self.den as int;
            let w: real = v * (p as real) / (q as real);
            assert(d > 0) by (nonlinear_arith)
                requires
                    d == b * q,
                    b > 0,
                    q > 0,
            ;
            assert(w * (q as real) == v * (p as real)) by (nonlinear_arith)
                requires
                    w == v * (p as real) / (q as real),
                    q > 0,
            ;
            assert(w * (d as real) == n as real) by (nonlinear_arith)
                requires
                    v * (b as real) == a as real,
                    w * (q as real) == v * (p as real),
                    d == b * q,
                    n == a * p,
            ;
            assert(is_ratio(w, n as int, d as int));
            lemma_quotient_unique(w, n as int, d as int);
        }
        Money::reduced(n, d)
    }

    /// The amount for `count` units.
    pub fn times(self, count: u32) -> (m: Money)
        requires
            fits(self@ * (count as real)),
        ensures
            m@ == self@ * (count as real),
    {
        match self.checked_times(count) {
            Some(m) => m,
            None => self,
        }
    }

    /// The amount for `count` units, where it can be held.
    pub fn checked_times(self, count: u32) -> (res: Option<Money>)
        ensures
            is_amount(res, self@ * (count as real)),
    {
        assert(self@ * (count as real) / (1u32 as real) == self@ * (count as real));
        self.scaled(count, 1)
    }

    /// The share of one of `count` units.
    pub fn divided_by(self, count: u32) -> (m: Money)
        requires
            count > 0,
            fits(self@ / (count as real)),
        ensures
            m@ == self@ / (count as real),
    {
        match self.checked_divided_by(count) {
            Some(m) => m,
            None => self,
        }
    }

    /// The share of one of `count` units, where it can be held.
    pub fn checked_divided_by(self, count: u32) -> (res: Option<Money>)
        requires
            count > 0,
        ensures
            is_amount(res, self@ / (count as real)),
    {
        assert(self@ * (1u32 as real) == self@);
        self.scaled(1, count)
    }

    /// What the seller keeps of a sale at this price.
    pub fn trading_post_sale_revenue(self) -> (m: Money)
        requires
            fits(after_fees(self@)),
        ensures
            m@ == after_fees(self@),
    {
        match self.checked_sale_revenue() {
            Some(m) => m,
            None => self,
        }
    }

    /// What the seller keeps of a sale at this price, where it can be held.
    pub fn checked_sale_revenue(self) -> (res: Option<Money>)
        ensures
            is_amount(res, after_fees(self@)),
    {
        self.scaled(17, 20)
    }

    /// What the seller keeps of sales at prices that add up to `copper`.
    pub fn sale_revenue_of(copper: i64) -> (m: Money)
        requires
            fits(after_fees(copper as real)),
        ensures
            m@ == after_fees(copper as real),
    {
        match Money::checked_sale_revenue_of(copper) {
            Some(m) => m,
            None => Money::zero(),
        }
    }

    /// What the seller keeps of sales at prices that add up to `copper`, where
    /// it can be held.
    pub fn checked_sale_revenue_of(copper: i64) -> (res: Option<Money>)
        ensures
            is_amount(res, after_fees(copper as real)),
    {
        let n: i128 = (copper as i128) * 17;
        let d: i128 = 20;
        proof {
            let v: real = after_fees(copper as real);
            assert(v * (20 as real) == (copper as real) * (17 as real));
            assert((copper as real) * (17 as real) == n as real);
            assert(is_ratio(v, n as int, d as int));
            lemma_quotient_unique(v, n as int, d as int);
        }
        Money::reduced(n, d)
    }

    /// Price to list at so that the sale leaves this amount.
    pub fn trading_post_listing_price(self) -> (m: Money)
        requires
            fits(before_fees(self@)),
        ensures
            m@ == before_fees(self@),
    {
        match self.checked_listing_price() {
            Some(m) => m,
            None => self,
        }
    }

    /// Price to list at so that the sale leaves this amount, where it can be held.
    pub fn checked_listing_price(self) -> (res: Option<Money>)
        ensures
            is_amount(res, before_fees(self@)),
    {
        self.scaled(20, 17)
    }

    /// The amount with the listing fee that has to be paid up front.
    pub fn increase_by_listing_fee(self) -> (m: Money)
        requires
            fits(with_listing_fee(self@)),
        ensures
            m@ == with_listing_fee(self@),
    {
        match self.checked_with_listing_fee() {
            Some(m) => m,
            None => self,
        }
    }

    /// The amount with the listing fee that has to be paid up front, where it can be held.
    pub fn checked_with_listing_fee(self) -> (res: Option<Money>)
        ensures
            is_amount(res, with_listing_fee(self@)),
    {
        self.scaled(21, 20)
    }

    /// The amount in whole copper, rounded towards zero.
    pub fn to_copper_value(&self) -> (copper: i64)
        ensures
            is_integer_part(self@, copper as int),
            copper == whole(self@),
    {
        proof {
            use_type_invariant(self);
            self.lemma_ratio();
        }
        let ghost v: real = self@;
        let copper: i128 = integer_part(self.num as i128, self.den as i128, Ghost(v));
        proof {
            lemma_integer_part_is_unique(v, copper as int);
            let n: int = self.num as int;
            if n < 0 {
                assert(v < 0 as real) by (nonlinear_arith)
                    requires
                        v * (self.den as real) == n as real,
                        self.den > 0,
                        n < 0,
                ;
                assert(copper <= 0);
            } else {
                assert(v >= 0 as real) by (nonlinear_arith)
                    requires
                        v * (self.den as real) == n as real,
                        self.den > 0,
                        n >= 0,
                ;
            }
        }
        copper as i64
    }
}

/// A quotient of 64-bit integers can be held.
pub proof fn lemma_fits(n: int, d: int)
    requires
        i64::MIN <= n <= i64::MAX,
        0 < d <= i64::MAX,
    ensures
        fits((n as real) / (d as real)),
        fits(n as real),
{
    lemma_quotient(n, d);
    assert(is_ratio((n as real) / (d as real), (n as i64) as int, (d as i64) as int));
    assert((n as real) * (1 as real) == n as real);
    assert(is_ratio(n as real, (n as i64) as int, 1i64 as int));
}

/// A sale at the price that leaves an amount leaves that amount, and the price
/// for what a sale leaves is the price of the sale.
pub proof fn law_fees_invert(amount: real)
    ensures
        after_fees(before_fees(amount)) == amount,
        before_fees(after_fees(amount)) == amount,
{
}

/// Fees never turn a gain into a loss, and a higher price leaves more.
pub proof fn law_fees_keep_order(a: real, b: real)
    ensures
        (a < b) == (after_fees(a) < after_fees(b)),
        (a < b) == (before_fees(a) < before_fees(b)),
        (a > 0 as real) == (after_fees(a) > 0 as real),
{
}

/// `n` as a number of two digits or more.
pub open spec fn two_digits(n: nat) -> Seq<char> {
    padded_decimal(n as int, 2)
}

/// So many copper as gold, silver and copper, a hundred of each making one of
/// the next.
pub open spec fn coin_text(copper: int) -> Seq<char> {
    let m = magnitude(copper);
    (if copper < 0 {
        "-"@
    } else {
        ""@
    }) + decimal(m / 10000) + "."@ + two_digits(m / 100 % 100) + "."@ + two_digits(m % 100) + "g"@
}

/// The amount as it is shown: its whole copper, or `0c` where it is nothing.
pub open spec fn amount_text(v: real) -> Seq<char> {
    if v == 0 as real {
        "0c"@
    } else {
        coin_text(whole(v))
    }
}

impl Money {
    /// The amount as it is shown, such as `0.12.34g`.
    pub fn render(&self) -> (text: String)
        ensures
            text@ == amount_text(self@),
    {
        assert(self@ * (1u32 as real) / (1u32 as real) == self@);
        self.render_share(1, 1)
    }

    /// The amount multiplied by `p / q` as it is shown.
    pub fn render_share(&self, p: u32, q: u32) -> (text: String)
        requires
            q > 0,
        ensures
            text@ == amount_text(self@ * (p as real) / (q as real)),
    {
        let ghost v: real = self@ * (p as real) / (q as real);
        proof {
            let x: real = self@;
            assert((v == 0 as real) == (x == 0 as real || p == 0)) by (nonlinear_arith)
                requires
                    v == x * (p as real) / (q as real),
                    q > 0,
                    p >= 0,
            ;
        }
        if p == 0 || self.is_zero() {
            return String::from_str("0c");
        }
        let copper: i128 = self.copper_share(p, q);
        let m: u128 = if copper < 0 {
            (-copper) as u128
        } else {
            copper as u128
        };
        let sign = if copper < 0 {
            "-"
        } else {
            ""
        };
        let silver: i64 = (m / 100 % 100) as i64;
        let rest: i64 = (m % 100) as i64;
        String::from_str(sign).concat(to_wide_decimal(m / 10000).as_str()).concat(".").concat(
            to_padded_decimal(silver, 2).as_str(),
        ).concat(".").concat(to_padded_decimal(rest, 2).as_str()).concat("g")
    }

    /// Sum of the amounts, where it and the sums on the way to it can be held.
    pub fn sum(amounts: &Vec<Money>) -> (res: Option<Money>)
        ensures
            match res {
                Some(m) => m@ == sum_of(amounts@),
                None => exists|i: int|
                    0 <= i <= amounts@.len() && !fits(sum_of(#[trigger] amounts@.take(i))),
            },
    {
        let mut total = Money::zero();
        let mut i: usize = 0;
        assert(amounts@.take(0) =~= Seq::empty());
        while i < amounts.len()
            invariant
                i <= amounts.len(),
                total@ == sum_of(amounts@.take(i as int)),
            decreases amounts.len() - i,
        {
            assert(amounts@.take(i + 1).drop_last() =~= amounts@.take(i as int));
            match total.checked_plus(amounts[i]) {
                Some(sum) => {
                    total = sum;
                },
                None => {
                    assert(!fits(sum_of(amounts@.take(i + 1))));
                    return None;
                },
            }
            i += 1;
        }
        assert(amounts@.take(i as int) =~= amounts@);
        Some(total)
    }
}

/// Sum of the amounts.
pub open spec fn sum_of(amounts: Seq<Money>) -> real
    decreases amounts.len(),
{
    if amounts.len() == 0 {
        0 as real
    } else {
        sum_of(amounts.drop_last()) + amounts.last()@
    }
}

/// The integer part of `v`.
pub open spec fn whole(v: real) -> int {
    choose|r: int| is_integer_part(v, r)
}

/// There is only one integer part.
pub proof fn lemma_integer_part_is_unique(v: real, r: int)
    requires
        is_integer_part(v, r),
    ensures
        whole(v) == r,
{
    let w: int = whole(v);
    assert(is_integer_part(v, w));
}

impl Money {
    /// The amount multiplied by `p / q` in whole copper, rounded towards zero.
    pub fn copper_share(&self, p: u32, q: u32) -> (copper: i128)
        requires
            q > 0,
        ensures
            is_integer_part(self@ * (p as real) / (q as real), copper as int),
            copper == whole(self@ * (p as real) / (q as real)),
            copper > i128::MIN,
    {
        proof {
            use_type_invariant(self);
            self.lemma_ratio();
            lemma_product_bound(self.num as int, p as int);
            lemma_product_bound(self.den as int, q as int);
        }
        let ghost v: real = self@ * (p as real) / (q as real);
        let n: i128 = (self.num as i128) * (p as i128);
        let d: i128 = (self.den as i128) * (q as i128);
        proof {
            let x: real = self@;
            let a: int = self.num as int;
            let b: int = self.den as int;
            assert(d > 0) by (nonlinear_arith)
                requires
                    d == b * q,
                    b > 0,
                    q > 0,
            ;
            assert(v * (q as real) == x * (p as real)) by (nonlinear_arith)
                requires
                    v == x * (p as real) / (q as real),
                    q > 0,
            ;
            assert(v * (d as real) == n as real) by (nonlinear_arith)
                requires
                    x * (b as real) == a as real,
                    v * (q as real) == x * (p as real),
                    d == b * q,
                    n == a * p,
            ;
        }
        assert(is_ratio(v, n as int, d as int));
        let copper: i128 = integer_part(n, d, Ghost(v));
        proof {
            lemma_integer_part_is_unique(v, copper as int);
        }
        copper
    }
}

fn integer_part(n: i128, d: i128, Ghost(v): Ghost<real>) -> (r: i128)
    requires
        n > i128::MIN,
        is_ratio(v, n as int, d as int),
    ensures
        is_integer_part(v, r as int),
        -magnitude(n as int) <= r <= magnitude(n as int),
{
    let m: i128 = if n < 0 {
        -n
    } else {
        n
    };
    let q: i128 = m / d;
    proof {
        assert(d * q <= m && m < d * q + d) by (nonlinear_arith)
            requires
                d > 0,
                m >= 0,
                q == m / d,
        ;
        assert(0 <= q <= m) by (nonlinear_arith)
            requires
                d > 0,
                m >= 0,
                q == m / d,
        ;
        let w: real = if v >= 0 as real {
            v
        } else {
            -v
        };
        assert((v >= 0 as real) == (n >= 0)) by (nonlinear_arith)
            requires
                v * (d as real) == n as real,
                d > 0,
        ;
        assert(w * (d as real) == m as real) by (nonlinear_arith)
            requires
                v * (d as real) == n as real,
                w == (if v >= 0 as real { v } else { -v }),
                (v >= 0 as real) == (n >= 0),
                m == (if n < 0 { -n } else { n as int }),
        ;
        assert((q as real) <= w && w < ((q + 1) as real)) by (nonlinear_arith)
            requires
                w * (d as real) == m as real,
                d * q <= m,
                m < d * q + d,
                d > 0,
        ;
    }
    if n < 0 {
        -q
    } else {
        q
    }
}

proof fn lemma_one_divides(n: int)
    ensures
        gcd(magnitude(n), 1) == 1,
        (n as real) / (1 as real) == n as real,
{
    reveal_with_fuel(gcd, 3);
    assert(magnitude(n) % 1 == 0);
}

/// Whole copper is never further from zero than the amount, and less than one copper
/// away from it. So it reaches a bound above zero exactly where the amount does.
pub proof fn law_whole_copper_rounds_towards_zero(v: real, bound: int)
    ensures
        v >= 0 as real ==> 0 <= whole(v) && (whole(v) as real) <= v && v - (whole(v) as real)
            < 1 as real,
        v <= 0 as real ==> 0 >= whole(v) && (whole(v) as real) >= v && (whole(v) as real) - v
            < 1 as real,
        bound > 0 ==> (whole(v) >= bound <==> v >= bound as real),
        bound <= 0 ==> (whole(v) >= bound <==> v > (bound - 1) as real),
{
    let f: int = v.floor();
    let r: int = if v >= 0 as real || v == f as real {
        f
    } else {
        f + 1
    };
    assert(is_integer_part(v, r));
    lemma_integer_part_is_unique(v, r);
}

/// Of a sale the seller pays five percent for the listing and ten for the exchange, and
/// keeps the rest. A price that leaves an amount is that amount with these fifteen
/// percent of the price.
pub proof fn law_fees_are_fifteen_percent(price: real)
    ensures
        after_fees(price) + price * (5 as real) / (100 as real) + price * (10 as real) / (
        100 as real) == price,
        before_fees(price) - before_fees(price) * (15 as real) / (100 as real) == price,
        with_listing_fee(price) - price == price * (5 as real) / (100 as real),
{
}

/// Copper as it is shown: gold, silver and copper make it up, with less than a hundred
/// silver and less than a hundred copper, and a minus sign stands before a debt.
pub proof fn law_coins_make_up_the_amount(copper: int) -> (coins: (nat, nat, nat))
    ensures
        10_000 * coins.0 + 100 * coins.1 + coins.2 == (if copper < 0 {
            -copper
        } else {
            copper
        }),
        coins.1 < 100 && coins.2 < 100,
        coin_text(copper) == (if copper < 0 {
            "-"@
        } else {
            ""@
        }) + decimal(coins.0) + "."@ + padded_decimal(coins.1 as int, 2) + "."@ + padded_decimal(
            coins.2 as int,
            2,
        ) + "g"@,
{
    let m: nat = magnitude(copper);
    let gold: nat = m / 10_000;
    let silver: nat = m / 100 % 100;
    let rest: nat = m % 100;
    assert(m / 100 == 100 * gold + silver) by {
        assert(m / 100 / 100 == m / 10_000);
    }
    (gold, silver, rest)
}

/// Nothing is shown as such, and any other amount by its whole copper.
pub proof fn law_amounts_are_shown_in_whole_copper(v: real)
    ensures
        v == 0 as real ==> amount_text(v) == "0c"@,
        v != 0 as real ==> amount_text(v) == coin_text(whole(v)),
        v > 0 as real ==> (whole(v) as real) <= v && v - (whole(v) as real) < 1 as real,
{
    law_whole_copper_rounds_towards_zero(v, 0);
}

/// A sum grows by what is added to it, and starts with nothing.
pub proof fn law_sums_grow_by_what_is_added(amounts: Seq<Money>, more: Money)
    ensures
        sum_of(Seq::empty()) == 0 as real,
        sum_of(amounts.push(more)) == sum_of(amounts) + more@,
{
    assert(amounts.push(more).drop_last() =~= amounts);
}

} // verus!
