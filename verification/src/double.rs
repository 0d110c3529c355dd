//! Numbers in the 64 bit floating point format, read from their bit patterns. Values are stated
//! as whole multiples of the smallest positive number of the format, of which one is `pow2(1074)`.
use vstd::arithmetic::power2::{
    lemma_pow2_adds, lemma_pow2_pos, lemma_pow2_strictly_increases, lemma_pow2_unfold,
};
use vstd::prelude::*;

verus! {

/// A number in the 64 bit floating point format.
#[derive(Clone, Copy, Debug, PartialEq, Eq, Structural)]
pub struct Double {
    pub bits: u64,
}

impl Double {
    /// Whether the sign bit is set.
    pub open spec fn negative(self) -> bool {
        self.bits >= 0x8000_0000_0000_0000
    }

    /// The pattern without the sign bit.
    pub open spec fn pattern(self) -> nat {
        self.bits as nat % 0x8000_0000_0000_0000
    }

    /// The exponent's field.
    pub open spec fn exponent(self) -> nat {
        self.pattern() / 0x10_0000_0000_0000
    }

    /// The fraction's field.
    pub open spec fn fraction(self) -> nat {
        self.pattern() % 0x10_0000_0000_0000
    }

    /// Whether the pattern is that of a number, and not of infinity or of no number.
    pub open spec fn finite(self) -> bool {
        self.exponent() < 2047
    }

    /// The size of the number.
    pub open spec fn magnitude(self) -> nat {
        if self.exponent() == 0 {
            self.fraction()
        } else {
            (0x10_0000_0000_0000 + self.fraction()) * vstd::arithmetic::power2::pow2(
                (self.exponent() - 1) as nat,
            )
        }
    }

    /// The value of the number.
    pub open spec fn scaled(self) -> int {
        if self.negative() {
            -(self.magnitude() as int)
        } else {
            self.magnitude() as int
        }
    }

    /// Zero, without a sign.
    pub fn zero() -> (r: Self)
        ensures
            r.finite(),
            !r.negative(),
            r.scaled() == 0,
    {
        Double { bits: 0 }
    }

    /// Whether this is a number.
    pub fn is_finite(self) -> (r: bool)
        ensures
            r == self.finite(),
    {
        self.bits % 0x8000_0000_0000_0000 / 0x10_0000_0000_0000 < 2047
    }

    /// Whether this is zero, of either sign.
    pub fn is_zero(self) -> (r: bool)
        ensures
            r == (self.finite() && self.scaled() == 0),
    {
        let pattern: u64 = self.bits % 0x8000_0000_0000_0000;
        proof {
            if self.exponent() > 0 {
                lemma_pow2_pos((self.exponent() - 1) as nat);
                assert(self.magnitude() > 0) by (nonlinear_arith)
                    requires
                        self.magnitude() == (0x10_0000_0000_0000 + self.fraction())
                            * vstd::arithmetic::power2::pow2((self.exponent() - 1) as nat),
                        vstd::arithmetic::power2::pow2((self.exponent() - 1) as nat) > 0,
                ;
            }
        }
        pattern == 0
    }

    /// Whether this is zero or a positive number.
    pub fn is_natural(self) -> (r: bool)
        ensures
            r == (self.finite() && self.scaled() >= 0),
    {
        self.is_finite() && (self.bits < 0x8000_0000_0000_0000 || self.is_zero())
    }

    /// Whether a number is less than another; neither is negative.
    pub fn less(self, other: Self) -> (r: bool)
        requires
            self.finite() && self.scaled() >= 0,
            other.finite() && other.scaled() >= 0,
        ensures
            r == (self.scaled() < other.scaled()),
    {
        proof {
            lemma_order(self, other);
            lemma_order(other, self);
        }
        self.bits % 0x8000_0000_0000_0000 < other.bits % 0x8000_0000_0000_0000
    }
}

/// Numbers are ordered by size as their patterns are.
proof fn lemma_order(a: Double, b: Double)
    ensures
        a.pattern() < b.pattern() ==> a.magnitude() < b.magnitude(),
        a.pattern() == b.pattern() ==> a.magnitude() == b.magnitude(),
{
    if a.pattern() < b.pattern() {
        let x = a.exponent();
        let y = b.exponent();
        let m = 0x10_0000_0000_0000 + a.fraction();
        let n = 0x10_0000_0000_0000 + b.fraction();
        assert(x <= y);
        if x == y {
            assert(a.fraction() < b.fraction());
            if x > 0 {
                let p = vstd::arithmetic::power2::pow2((x - 1) as nat);
                lemma_pow2_pos((x - 1) as nat);
                assert(m * p < n * p) by (nonlinear_arith)
                    requires
                        m < n,
                        p > 0,
                ;
            }
        } else {
            let q = vstd::arithmetic::power2::pow2((y - 1) as nat);
            lemma_pow2_pos((y - 1) as nat);
            assert(0x10_0000_0000_0000 * q <= n * q) by (nonlinear_arith)
                requires
                    0x10_0000_0000_0000 <= n,
                    q > 0,
            ;
            if x == 0 {
                assert(a.magnitude() < 0x10_0000_0000_0000);
                assert(0x10_0000_0000_0000 <= 0x10_0000_0000_0000 * q) by (nonlinear_arith)
                    requires
                        q > 0,
                ;
            } else {
                let p = vstd::arithmetic::power2::pow2((x - 1) as nat);
                lemma_pow2_pos((x - 1) as nat);
                lemma_pow2_unfold(x);
                if x < y - 1 {
                    lemma_pow2_strictly_increases(x, (y - 1) as nat);
                }
                assert(2 * p <= q);
                assert(m * p < 0x20_0000_0000_0000 * p) by (nonlinear_arith)
                    requires
                        m < 0x20_0000_0000_0000,
                        p > 0,
                ;
                assert(0x20_0000_0000_0000 * p <= 0x10_0000_0000_0000 * q) by (nonlinear_arith)
                    requires
                        2 * p <= q,
                ;
            }
        }
    }
}

/// A whole number divided by a power of two.
pub fn from_parts(whole: u64, down: u64) -> (r: Double)
    requires
        0 < whole <= 0x20_0000_0000_0000,
        down <= 60,
    ensures
        r.finite(),
        !r.negative(),
        r.scaled() == whole * vstd::arithmetic::power2::pow2((1074 - down) as nat),
{
    let mut m: u64 = whole;
    let mut exponent: u64 = 1075 - down;
    proof {
        vstd::arithmetic::power2::lemma2_to64();
    }
    while m < 0x10_0000_0000_0000
        invariant
            0 < m <= 0x20_0000_0000_0000,
            down <= 60,
            exponent <= 1075 - down,
            pow2_bound(m as nat, (1075 - down - exponent) as nat),
            m * vstd::arithmetic::power2::pow2((exponent - 1) as nat) == whole
                * vstd::arithmetic::power2::pow2((1074 - down) as nat),
        decreases 0x20_0000_0000_0000 - m,
    {
        proof {
            lemma_steps(m as nat, (1075 - down - exponent) as nat);
            lemma_pow2_unfold((exponent - 1) as nat);
            let p = vstd::arithmetic::power2::pow2((exponent - 2) as nat);
            assert((2 * m) * p == m * (2 * p)) by (nonlinear_arith);
        }
        m = m * 2;
        exponent = exponent - 1;
    }
    proof {
        lemma_steps_bound(m as nat, (1075 - down - exponent) as nat);
    }
    if m == 0x20_0000_0000_0000 {
        proof {
            lemma_pow2_unfold(exponent as nat);
            let p = vstd::arithmetic::power2::pow2((exponent - 1) as nat);
            assert((m / 2) * (2 * p) == m * p) by (nonlinear_arith)
                requires
                    m == 0x20_0000_0000_0000,
            ;
        }
        m = m / 2;
        exponent = exponent + 1;
    }
    let r = Double { bits: exponent * 0x10_0000_0000_0000 + (m - 0x10_0000_0000_0000) };
    assert(r.pattern() == r.bits);
    assert(r.exponent() == exponent);
    assert(r.fraction() == m - 0x10_0000_0000_0000);
    r
}

/// A number that was doubled so many times is at least that power of two.
spec fn pow2_bound(m: nat, steps: nat) -> bool {
    m >= vstd::arithmetic::power2::pow2(steps)
}

proof fn lemma_steps(m: nat, steps: nat)
    requires
        pow2_bound(m, steps),
        0 < m < 0x10_0000_0000_0000,
    ensures
        pow2_bound(2 * m, steps + 1),
        steps <= 53,
{
    lemma_pow2_unfold(steps + 1);
    lemma_steps_bound(m, steps);
}

proof fn lemma_steps_bound(m: nat, steps: nat)
    requires
        pow2_bound(m, steps),
        m <= 0x20_0000_0000_0000,
    ensures
        steps <= 53,
{
    vstd::arithmetic::power2::lemma2_to64();
    vstd::arithmetic::power2::lemma2_to64_rest();
    if steps > 53 {
        lemma_pow2_strictly_increases(53, steps);
    }
}

/// The distance between numbers of 53 binary digits at the size of a whole number.
pub open spec fn unit(whole: nat) -> nat
    decreases whole,
{
    if whole < 0x20_0000_0000_0000 {
        1
    } else {
        2 * unit(whole / 2)
    }
}

/// The whole number that is nearest to a quotient, and of two the even one.
pub open spec fn integer(num: nat, den: nat) -> nat {
    let below = num / den;
    let rest = num % den;
    if 2 * rest < den || (2 * rest == den && below % 2 == 0) {
        below
    } else {
        below + 1
    }
}

/// The multiple of a unit that is nearest to a whole number, and of two the even one.
pub open spec fn nearest(whole: nat, unit: nat) -> nat {
    integer(whole, unit) * unit
}

/// A whole number, rounded to 53 binary digits.
pub open spec fn rounded(whole: nat) -> nat {
    nearest(whole, unit(whole))
}

/// Halving a number so many times is dividing it by a power of two.
proof fn lemma_halved(whole: nat, u: nat)
    requires
        u > 0,
    ensures
        whole / u / 2 == whole / (2 * u),
{
    vstd::arithmetic::div_mod::lemma_div_denominator(whole as int, u as int, 2);
    assert(u * 2 == 2 * u);
}

/// A draw of 53 bits as a number from zero to a hundred.
pub fn percentage(draw: u64) -> (r: Double)
    requires
        draw < 0x20_0000_0000_0000,
    ensures
        r.finite(),
        !r.negative(),
        r.scaled() == rounded((100 * draw) as nat) * vstd::arithmetic::power2::pow2(1021),
{
    let whole: u64 = 100 * draw;
    if whole == 0 {
        assert(unit(0) == 1 && rounded(0) == 0);
        assert(0 * vstd::arithmetic::power2::pow2(1021) == 0) by (nonlinear_arith);
        return Double::zero();
    }
    let mut u: u64 = 1;
    let mut steps: u64 = 0;
    proof {
        vstd::arithmetic::power2::lemma2_to64();
    }
    assert(1 * unit(whole as nat) == unit(whole as nat));
    assert(whole as nat / 1 == whole);
    while whole / u >= 0x20_0000_0000_0000
        invariant
            0 < whole < 0x1000_0000_0000_0000,
            steps <= 7,
            u == vstd::arithmetic::power2::pow2(steps as nat),
            0 < u <= 128,
            whole / u > 0,
            unit(whole as nat) == u * unit((whole / u) as nat),
        decreases whole / u,
    {
        proof {
            let part = (whole / u) as nat;
            lemma_pow2_unfold((steps + 1) as nat);
            lemma_halved(whole as nat, u as nat);
            assert(u * (2 * unit(part / 2)) == (2 * u) * unit(part / 2)) by (nonlinear_arith);
            vstd::arithmetic::power2::lemma2_to64();
            if steps == 7 {
                assert(whole as int / 128 < 0x20_0000_0000_0000);
            }
            if steps < 6 {
                lemma_pow2_strictly_increases(steps as nat, 6);
            }
        }
        u = u * 2;
        steps = steps + 1;
    }
    assert(unit((whole / u) as nat) == 1);
    assert(u * 1 == u);
    let below: u64 = whole / u;
    let rest: u64 = whole % u;
    let m: u64 = if 2 * rest < u || (2 * rest == u && below % 2 == 0) {
        below
    } else {
        below + 1
    };
    proof {
        vstd::arithmetic::div_mod::lemma_fundamental_div_mod(whole as int, u as int);
        assert(m * u == rounded(whole as nat));
        lemma_pow2_adds(steps as nat, 1021);
        let p = vstd::arithmetic::power2::pow2(1021);
        assert(m * (u * p) == (m * u) * p) by (nonlinear_arith);
    }
    from_parts(m, 53 - steps)
}

/// Whether a draw of 53 bits, as a number from zero to a hundred, is less than a number.
pub open spec fn draws_below(draw: u64, bound: Double) -> bool {
    if bound.finite() {
        rounded((100 * draw) as nat) * vstd::arithmetic::power2::pow2(1021) < bound.scaled()
    } else {
        bound.fraction() == 0 && !bound.negative()
    }
}

/// Whether a draw of 53 bits, as a number from zero to a hundred, is less than a number.
pub fn is_below(draw: u64, bound: Double) -> (r: bool)
    requires
        draw < 0x20_0000_0000_0000,
    ensures
        r == draws_below(draw, bound),
{
    if !bound.is_finite() {
        return bound.bits == 0x7ff0_0000_0000_0000;
    }
    let value = percentage(draw);
    if !bound.is_natural() {
        return false;
    }
    value.less(bound)
}

/// Rounding to a whole number moves by half at most.
pub proof fn lemma_integer(num: nat, den: nat)
    requires
        den > 0,
    ensures
        -(den as int) <= 2 * (integer(num, den) * den - num) <= den,
{
    let below = num / den;
    vstd::arithmetic::div_mod::lemma_fundamental_div_mod(num as int, den as int);
    assert((below + 1) * den == below * den + den) by (nonlinear_arith);
    assert(below * den == den * below) by (nonlinear_arith);
}

/// A unit is positive, and there are 52 binary digits of them at least in a number that is rounded.
pub proof fn lemma_unit(whole: nat)
    ensures
        unit(whole) > 0,
        whole >= 0x20_0000_0000_0000 ==> 0x10_0000_0000_0000 * unit(whole) <= whole,
        whole < 0x20_0000_0000_0000 ==> unit(whole) == 1,
    decreases whole,
{
    if whole >= 0x20_0000_0000_0000 {
        lemma_unit(whole / 2);
    }
}

/// Rounding to 53 binary digits moves a number by a 2^53rd part of it at most.
pub proof fn lemma_rounded(whole: nat)
    ensures
        -(whole as int) <= 0x20_0000_0000_0000 * (rounded(whole) - whole) <= whole,
{
    lemma_unit(whole);
    lemma_integer(whole, unit(whole));
    if whole < 0x20_0000_0000_0000 {
        assert(whole / 1 == whole && whole % 1 == 0);
        assert(rounded(whole) == whole);
    }
}

/// A whole number, rounded to 53 binary digits.
pub fn round_whole(whole: u128) -> (r: u128)
    requires
        whole <= 0x100_0000_0000_0000_0000_0000_0000_0000,
    ensures
        r == rounded(whole as nat),
        r <= 2 * whole,
{
    let mut u: u128 = 1;
    assert(1 * unit(whole as nat) == unit(whole as nat));
    assert(whole as nat / 1 == whole);
    while whole / u >= 0x20_0000_0000_0000
        invariant
            whole <= 0x100_0000_0000_0000_0000_0000_0000_0000,
            0 < u <= 0x10_0000_0000_0000_0000,
            unit(whole as nat) == u * unit((whole / u) as nat),
        decreases whole / u,
    {
        proof {
            let part = (whole / u) as nat;
            lemma_halved(whole as nat, u as nat);
            assert(u * (2 * unit(part / 2)) == (2 * u) * unit(part / 2)) by (nonlinear_arith);
            vstd::arithmetic::div_mod::lemma_fundamental_div_mod(whole as int, u as int);
            assert(u * part >= u * 0x20_0000_0000_0000) by (nonlinear_arith)
                requires
                    part >= 0x20_0000_0000_0000,
                    u > 0,
            ;
        }
        u = u * 2;
    }
    assert(unit((whole / u) as nat) == 1);
    assert(u * 1 == u);
    let below: u128 = whole / u;
    let rest: u128 = whole % u;
    let m: u128 = if 2 * rest < u || (2 * rest == u && below % 2 == 0) {
        below
    } else {
        below + 1
    };
    proof {
        lemma_rounded(whole as nat);
        assert(m == integer(whole as nat, u as nat));
        assert(m * u == rounded(whole as nat));
        assert(rounded(whole as nat) <= 2 * whole);
    }
    m * u
}

/// How often a quotient is doubled until it has 53 binary digits before the point.
pub open spec fn scale(num: nat, den: nat) -> nat
    decreases 0x20_0000_0000_0000 * den - num,
{
    if num == 0 || num >= 0x10_0000_0000_0000 * den {
        0
    } else {
        1 + scale(2 * num, den)
    }
}

/// A number of seconds, given as a quotient, in nanoseconds. The quotient is rounded to 53 binary
/// digits, and so are the nanoseconds to a whole number.
pub open spec fn nanoseconds(num: nat, den: nat) -> nat {
    let doubled = vstd::arithmetic::power2::pow2(scale(num, den));
    integer(integer(num * doubled, den) * 1_000_000_000, doubled)
}

/// A doubled quotient has 53 binary digits.
proof fn lemma_scale(num: nat, den: nat)
    requires
        0 < num < 0x20_0000_0000_0000 * den,
    ensures
        0x10_0000_0000_0000 * den <= num * vstd::arithmetic::power2::pow2(scale(num, den))
            < 0x20_0000_0000_0000 * den,
    decreases 0x20_0000_0000_0000 * den - num,
{
    vstd::arithmetic::power2::lemma2_to64();
    let p = vstd::arithmetic::power2::pow2(scale(num, den));
    if num >= 0x10_0000_0000_0000 * den {
        assert(num * 1 == num);
    } else {
        let q = vstd::arithmetic::power2::pow2(scale(2 * num, den));
        lemma_scale(2 * num, den);
        lemma_pow2_unfold(scale(num, den));
        assert(num * (2 * q) == (2 * num) * q) by (nonlinear_arith);
    }
}

/// How far nanoseconds can be from the exact number of them.
pub proof fn lemma_nanoseconds(num: nat, den: nat)
    requires
        0 < num < 0x20_0000_0000_0000 * den,
    ensures
        ({
            let exact = 1_000_000_000 * num;
            let error = 0x20_0000_0000_0000 * (nanoseconds(num, den) * den - exact);
            &&& -(exact + 0x10_0000_0000_0000 * den) <= error
            &&& error <= exact + 0x10_0000_0000_0000 * den
        }),
{
    let p = vstd::arithmetic::power2::pow2(scale(num, den));
    lemma_pow2_pos(scale(num, den));
    lemma_scale(num, den);
    let m = integer(num * p, den);
    let ns = integer(m * 1_000_000_000, p);
    lemma_integer(num * p, den);
    lemma_integer(m * 1_000_000_000, p);
    lemma_error(num as int, den as int, p as int, m as int, ns as int);
}

proof fn lemma_error(num: int, den: int, p: int, m: int, ns: int)
    requires
        den > 0,
        p > 0,
        0x10_0000_0000_0000 * den <= num * p,
        -den <= 2 * (m * den - num * p) <= den,
        -p <= 2 * (ns * p - m * 1_000_000_000) <= p,
    ensures
        -(1_000_000_000 * num + 0x10_0000_0000_0000 * den) <= 0x20_0000_0000_0000 * (ns * den
            - 1_000_000_000 * num),
        0x20_0000_0000_0000 * (ns * den - 1_000_000_000 * num) <= 1_000_000_000 * num
            + 0x10_0000_0000_0000 * den,
{
    let e = ns * den - 1_000_000_000 * num;
    let a = ns * p - m * 1_000_000_000;
    let b = m * den - num * p;
    assert(e * p == a * den + 1_000_000_000 * b) by (nonlinear_arith)
        requires
            e == ns * den - 1_000_000_000 * num,
            a == ns * p - m * 1_000_000_000,
            b == m * den - num * p,
    ;
    assert(-(p * den) <= 2 * (a * den) <= p * den) by (nonlinear_arith)
        requires
            -p <= 2 * a <= p,
            den > 0,
    ;
    let k = 0x10_0000_0000_0000int;
    assert(k * (2 * (e * p)) <= k * (p * den) + 1_000_000_000 * (num * p));
    assert(k * (2 * (e * p)) >= -(k * (p * den) + 1_000_000_000 * (num * p)));
    let bound = k * den + 1_000_000_000 * num;
    assert((2 * k * e) * p <= bound * p) by (nonlinear_arith)
        requires
            k * (2 * (e * p)) <= k * (p * den) + 1_000_000_000 * (num * p),
            bound == k * den + 1_000_000_000 * num,
    ;
    assert(-bound * p <= (2 * k * e) * p) by (nonlinear_arith)
        requires
            k * (2 * (e * p)) >= -(k * (p * den) + 1_000_000_000 * (num * p)),
            bound == k * den + 1_000_000_000 * num,
    ;
    assert(2 * k * e <= bound) by (nonlinear_arith)
        requires
            (2 * k * e) * p <= bound * p,
            p > 0,
    ;
    assert(-bound <= 2 * k * e) by (nonlinear_arith)
        requires
            -bound * p <= (2 * k * e) * p,
            p > 0,
    ;
}

/// A number of seconds, given as a quotient, in nanoseconds.
pub fn to_nanoseconds(num: u128, den: u128) -> (r: u128)
    requires
        0 < den <= 0x8000_0000_0000_0000,
        num < 0x20_0000_0000_0000 * den,
    ensures
        r == nanoseconds(num as nat, den as nat),
{
    let mut n: u128 = num;
    let mut p: u128 = 1;
    let ghost mut steps: nat = 0;
    proof {
        vstd::arithmetic::power2::lemma2_to64();
        assert(num * 1 == num);
    }
    if num == 0 {
        proof {
            assert(0 * 1 == 0);
            assert(0nat / den as nat == 0 && 0nat % den as nat == 0) by {
                vstd::arithmetic::div_mod::lemma_div_basics(den as int);
                vstd::arithmetic::div_mod::lemma_small_mod(0, den as nat);
            }
            assert(integer(0, den as nat) == 0);
            assert(integer(0, 1) == 0);
        }
        return 0;
    }
    while n < 0x10_0000_0000_0000 * den
        invariant
            0 < den <= 0x8000_0000_0000_0000,
            0 < num,
            0 < n < 0x20_0000_0000_0000 * den,
            p == vstd::arithmetic::power2::pow2(steps),
            n == num * p,
            0 < p <= n,
            scale(num as nat, den as nat) == steps + scale(n as nat, den as nat),
        decreases 0x20_0000_0000_0000 * den - n,
    {
        proof {
            lemma_pow2_unfold(steps + 1);
            assert(num * (2 * p) == 2 * (num * p)) by (nonlinear_arith);
            steps = steps + 1;
        }
        n = n * 2;
        p = p * 2;
    }
    let m: u128 = tie_to_even(n, den);
    proof {
        lemma_integer(n as nat, den as nat);
        assert(m <= 0x20_0000_0000_0001) by (nonlinear_arith)
            requires
                2 * (m * den - n) <= den,
                n < 0x20_0000_0000_0000 * den,
                den > 0,
        ;
    }
    tie_to_even(m * 1_000_000_000, p)
}

/// The whole number that is nearest to a quotient, and of two the even one.
fn tie_to_even(num: u128, den: u128) -> (r: u128)
    requires
        0 < den <= 0x7fff_ffff_ffff_ffff_ffff_ffff_ffff_ffff,
        num <= 0x7fff_ffff_ffff_ffff_ffff_ffff_ffff_ffff,
    ensures
        r == integer(num as nat, den as nat),
{
    let below: u128 = num / den;
    let rest: u128 = num % den;
    assert(below <= num) by (nonlinear_arith)
        requires
            below == num as int / den as int,
            den >= 1,
            num >= 0,
    ;
    if 2 * rest < den || (2 * rest == den && below % 2 == 0) {
        below
    } else {
        below + 1
    }
}

/// The patterns of positive numbers go on with the numbers: the next pattern is that of the next number,
/// farther by the unit of its size, and an exponent higher by one is a number twice as large. The pattern
/// of one is that of `pow2(1074)` units.
pub proof fn law_patterns_are_numbers(number: Double, next: Double, twice: Double)
    requires
        number.bits < 0x7fe0_0000_0000_0000,
        next.bits == number.bits + 1,
        number.bits >= 0x0010_0000_0000_0000,
        twice.bits == number.bits + 0x0010_0000_0000_0000,
    ensures
        next.scaled() == number.scaled() + vstd::arithmetic::power2::pow2(
            (number.bits / 0x0010_0000_0000_0000 - 1) as nat,
        ),
        twice.scaled() == 2 * number.scaled(),
        (Double { bits: 0x3ff0_0000_0000_0000 }).scaled() == vstd::arithmetic::power2::pow2(1074),
        number.finite() && next.finite() && twice.finite(),
{
    let e = number.exponent();
    let p = vstd::arithmetic::power2::pow2((e - 1) as nat);
    let m = 0x10_0000_0000_0000 + number.fraction();
    lemma_pow2_unfold(e);
    assert(twice.exponent() == e + 1 && twice.fraction() == number.fraction());
    assert(m * (2 * p) == 2 * (m * p)) by (nonlinear_arith);
    assert((m + 1) * p == m * p + p) by (nonlinear_arith);
    if number.fraction() == 0xf_ffff_ffff_ffff {
        assert(next.exponent() == e + 1 && next.fraction() == 0);
        assert(0x10_0000_0000_0000 * (2 * p) == 0x20_0000_0000_0000 * p) by (nonlinear_arith);
    } else {
        assert(next.exponent() == e && next.fraction() == number.fraction() + 1);
    }
    let one = Double { bits: 0x3ff0_0000_0000_0000 };
    assert(one.exponent() == 1023 && one.fraction() == 0);
    lemma_pow2_adds(52, 1022);
    vstd::arithmetic::power2::lemma2_to64_rest();
}

/// A number with the sign bit is the same number with the other sign.
pub proof fn law_signs(number: Double, other: Double)
    requires
        number.bits < 0x8000_0000_0000_0000,
        other.bits == number.bits + 0x8000_0000_0000_0000,
    ensures
        other.scaled() == -number.scaled(),
        other.finite() == number.finite(),
{
}

} // verus!
