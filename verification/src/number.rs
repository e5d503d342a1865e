//! Exact rational cell values. The formula language only admits finite
//! decimal literals, so every value a formula can denote is a rational
//! number; arithmetic is computed exactly over `i64`-bounded rationals
//! in lowest terms, and a result that cannot be represented is reported
//! instead of silently rounded.

use vstd::prelude::*;

use crate::digits::{dec_digits, digit_char, push_dec, push_digit};

verus! {

/// A rational number at the specification level: numerator and
/// denominator, the denominator positive in well-formed values.
pub struct RatV {
    pub num: int,
    pub den: int,
}

/// Greatest common divisor, by Euclid's algorithm.
pub open spec fn gcd(a: nat, b: nat) -> nat
    decreases b,
{
    if b == 0 {
        a
    } else {
        gcd(b, a % b)
    }
}

pub proof fn lemma_gcd_pos(a: nat, b: nat)
    requires
        a >= 1 || b >= 1,
    ensures
        gcd(a, b) >= 1,
    decreases b,
{
    if b >= 1 {
        lemma_gcd_pos(b, a % b);
    }
}

pub proof fn lemma_gcd_le(a: nat, b: nat)
    requires
        b >= 1,
    ensures
        gcd(a, b) <= b,
    decreases b,
{
    if a % b == 0 {
        assert(gcd(a, b) == gcd(b, 0));
    } else {
        lemma_gcd_le(b, a % b);
    }
}

/// The normal form of the fraction `n / d`: sign moved to the numerator,
/// both parts divided by their greatest common divisor.
pub open spec fn rat_norm(n: int, d: int) -> RatV
    recommends
        d != 0,
{
    let na: nat = vstd::math::abs(n);
    let da: nat = vstd::math::abs(d);
    let g: nat = gcd(na, da);
    let pos: int = (na / g) as int;
    RatV { num: if (n < 0) != (d < 0) { -pos } else { pos }, den: (da / g) as int }
}

/// Whether a rational fits the engine's representation.
pub open spec fn rat_fits(r: RatV) -> bool {
    &&& 1 <= r.den <= i64::MAX as int
    &&& -(i64::MAX as int) <= r.num <= i64::MAX as int
}

pub open spec fn rat_add(a: RatV, b: RatV) -> RatV {
    rat_norm(a.num * b.den + b.num * a.den, a.den * b.den)
}

pub open spec fn rat_sub(a: RatV, b: RatV) -> RatV {
    rat_norm(a.num * b.den - b.num * a.den, a.den * b.den)
}

pub open spec fn rat_mul(a: RatV, b: RatV) -> RatV {
    rat_norm(a.num * b.num, a.den * b.den)
}

pub open spec fn rat_div(a: RatV, b: RatV) -> RatV
    recommends
        b.num != 0,
{
    rat_norm(a.num * b.den, a.den * b.num)
}

/// An exact rational number bounded by the machine's `i64` range, kept
/// in lowest terms with a positive denominator.
#[derive(Debug, Clone, Copy, PartialEq, Eq, Structural)]
pub struct Number {
    num: i64,
    den: i64,
}

impl View for Number {
    type V = RatV;

    closed spec fn view(&self) -> RatV {
        RatV { num: self.num as int, den: self.den as int }
    }
}

impl Number {
    #[verifier::type_invariant]
    closed spec fn wf(self) -> bool {
        rat_fits(self@)
    }

    /// The numerator and positive denominator of this value, in lowest
    /// terms.
    pub fn as_ratio(&self) -> (r: (i64, i64))
        ensures
            r.0 as int == self@.num,
            r.1 as int == self@.den,
            rat_fits(self@),
    {
        proof {
            use_type_invariant(self);
        }
        (self.num, self.den)
    }

    /// Whether this value is zero.
    pub fn is_zero(&self) -> (b: bool)
        ensures
            b == (self@.num == 0),
    {
        self.num == 0
    }

    /// The whole number `n`. The one value the representation cannot
    /// carry is `i64::MIN`, whose magnitude exceeds `i64::MAX`.
    pub fn from_int(n: i64) -> (r: Number)
        requires
            n != i64::MIN,
        ensures
            r@ == rat_norm(n as int, 1),
            r@ == (RatV { num: n as int, den: 1 }),
    {
        proof {
            let na = vstd::math::abs(n as int) as nat;
            assert(gcd(na, 1) == gcd(1, 0));
            assert(vstd::math::abs(1) == 1);
            vstd::arithmetic::div_mod::lemma_div_basics(na as int);
        }
        Number { num: n, den: 1 }
    }

    /// The fraction `n / d` in normal form; `None` when `d` is zero or
    /// the normal form exceeds the representation's range.
    pub fn from_ratio(n: i64, d: i64) -> (r: Option<Number>)
        ensures
            match r {
                Some(x) => d != 0 && x@ == rat_norm(n as int, d as int) && rat_fits(x@),
                None => d == 0 || !rat_fits(rat_norm(n as int, d as int)),
            },
    {
        if d == 0 {
            return None;
        }
        normalize128(n as i128, d as i128)
    }

    /// The exact sum; `None` when it cannot be represented.
    pub fn checked_add(&self, other: &Number) -> (r: Option<Number>)
        ensures
            match r {
                Some(x) => x@ == rat_add(self@, other@) && rat_fits(x@),
                None => !rat_fits(rat_add(self@, other@)),
            },
    {
        proof {
            use_type_invariant(self);
            use_type_invariant(other);
            lemma_rat_products_bounded(self@, other@);
        }
        let n = self.num as i128 * other.den as i128 + other.num as i128 * self.den as i128;
        let d = self.den as i128 * other.den as i128;
        normalize128(n, d)
    }

    /// The exact difference; `None` when it cannot be represented.
    pub fn checked_sub(&self, other: &Number) -> (r: Option<Number>)
        ensures
            match r {
                Some(x) => x@ == rat_sub(self@, other@) && rat_fits(x@),
                None => !rat_fits(rat_sub(self@, other@)),
            },
    {
        proof {
            use_type_invariant(self);
            use_type_invariant(other);
            lemma_rat_products_bounded(self@, other@);
        }
        let n = self.num as i128 * other.den as i128 - other.num as i128 * self.den as i128;
        let d = self.den as i128 * other.den as i128;
        normalize128(n, d)
    }

    /// The exact product; `None` when it cannot be represented.
    pub fn checked_mul(&self, other: &Number) -> (r: Option<Number>)
        ensures
            match r {
                Some(x) => x@ == rat_mul(self@, other@) && rat_fits(x@),
                None => !rat_fits(rat_mul(self@, other@)),
            },
    {
        proof {
            use_type_invariant(self);
            use_type_invariant(other);
            lemma_rat_products_bounded(self@, other@);
        }
        let n = self.num as i128 * other.num as i128;
        let d = self.den as i128 * other.den as i128;
        normalize128(n, d)
    }

    /// The exact quotient; `None` when it cannot be represented. The
    /// divisor must not be zero: exact arithmetic has no value for a
    /// division by zero, and the evaluator reports it as an error of its
    /// own before dividing.
    pub fn checked_div(&self, other: &Number) -> (r: Option<Number>)
        requires
            other@.num != 0,
        ensures
            match r {
                Some(x) => x@ == rat_div(self@, other@) && rat_fits(x@),
                None => !rat_fits(rat_div(self@, other@)),
            },
    {
        proof {
            use_type_invariant(self);
            use_type_invariant(other);
            lemma_rat_products_bounded(self@, other@);
            assert(self@.den * other@.num != 0) by (nonlinear_arith)
                requires
                    self@.den >= 1,
                    other@.num != 0,
            ;
        }
        let n = self.num as i128 * other.den as i128;
        let d = self.den as i128 * other.num as i128;
        normalize128(n, d)
    }
}

/// Both cross products of two representable rationals stay well inside
/// the `i128` range.
proof fn lemma_rat_products_bounded(a: RatV, b: RatV)
    requires
        rat_fits(a),
        rat_fits(b),
    ensures
        -(i64::MAX as int) * (i64::MAX as int) <= a.num * b.den <= (i64::MAX as int) * (i64::MAX as int),
        -(i64::MAX as int) * (i64::MAX as int) <= a.num * b.num <= (i64::MAX as int) * (i64::MAX as int),
        -(i64::MAX as int) * (i64::MAX as int) <= b.num * a.den <= (i64::MAX as int) * (i64::MAX as int),
        1 <= a.den * b.den <= (i64::MAX as int) * (i64::MAX as int),
        -(i64::MAX as int) * (i64::MAX as int) <= a.den * b.num <= (i64::MAX as int) * (i64::MAX as int),
{
    let m = i64::MAX as int;
    assert(-m * m <= a.num * b.den <= m * m) by (nonlinear_arith)
        requires
            -m <= a.num <= m,
            1 <= b.den <= m,
            m >= 1,
    ;
    assert(-m * m <= a.num * b.num <= m * m) by (nonlinear_arith)
        requires
            -m <= a.num <= m,
            -m <= b.num <= m,
            m >= 1,
    ;
    assert(-m * m <= b.num * a.den <= m * m) by (nonlinear_arith)
        requires
            -m <= b.num <= m,
            1 <= a.den <= m,
            m >= 1,
    ;
    assert(1 <= a.den * b.den <= m * m) by (nonlinear_arith)
        requires
            1 <= a.den <= m,
            1 <= b.den <= m,
            m >= 1,
    ;
    assert(-m * m <= a.den * b.num <= m * m) by (nonlinear_arith)
        requires
            1 <= a.den <= m,
            -m <= b.num <= m,
            m >= 1,
    ;
}

/// The greatest common divisor divides both of its arguments.
pub proof fn lemma_gcd_divides(a: nat, b: nat)
    requires
        a >= 1 || b >= 1,
    ensures
        gcd(a, b) >= 1,
        a as int % (gcd(a, b) as int) == 0,
        b as int % (gcd(a, b) as int) == 0,
    decreases b,
{
    lemma_gcd_pos(a, b);
    let g = gcd(a, b) as int;
    if b == 0 {
        vstd::arithmetic::div_mod::lemma_mod_self_0(g);
        assert(0int % g == 0) by {
            vstd::arithmetic::div_mod::lemma_small_mod(0, g as nat);
        }
    } else {
        lemma_gcd_divides(b, a % b);
        vstd::arithmetic::div_mod::lemma_fundamental_div_mod(a as int, b as int);
        let q = a as int / b as int;
        let r = a as int % b as int;
        assert(0int % g == 0) by {
            vstd::arithmetic::div_mod::lemma_small_mod(0, g as nat);
        }
        assert((a % b) as int == r);
        assert(b as int % g == 0);
        assert(r % g == 0);
        assert((b as int * q) % g == 0) by {
            vstd::arithmetic::div_mod::lemma_mul_mod_noop_left(b as int, q, g);
        }
        assert((b as int * q + r) % g == 0) by {
            vstd::arithmetic::div_mod::lemma_mod_adds(b as int * q, r, g);
        }
        assert(a as int == b as int * q + r);
    }
}

/// Exact division: when `g` divides `x`, the quotient times `g` is `x`.
proof fn lemma_div_exact(x: int, g: int)
    requires
        g >= 1,
        x >= 0,
        x % g == 0,
    ensures
        (x / g) * g == x,
{
    vstd::arithmetic::div_mod::lemma_fundamental_div_mod(x, g);
    assert((x / g) * g == g * (x / g)) by (nonlinear_arith);
}

/// Normalizing preserves value: the normal form of `n / d` denotes the
/// same rational, stated by cross multiplication. The same identity then
/// holds of every arithmetic result, since each is the normal form of
/// the textbook cross-product fraction.
pub proof fn lemma_rat_norm_preserves_value(n: int, d: int)
    requires
        d != 0,
    ensures
        rat_norm(n, d).num * d == n * rat_norm(n, d).den,
{
    let na = vstd::math::abs(n);
    let da = vstd::math::abs(d);
    lemma_gcd_divides(na, da);
    let g = gcd(na, da) as int;
    let pos = na as int / g;
    let denr = da as int / g;
    lemma_div_exact(na as int, g);
    lemma_div_exact(da as int, g);
    assert(pos * (da as int) == (na as int) * denr) by (nonlinear_arith)
        requires
            pos * g == na as int,
            denr * g == da as int,
            g >= 1,
    ;
    let r = rat_norm(n, d);
    if n >= 0 && d > 0 {
        assert(r.num == pos && r.den == denr && n == na as int && d == da as int);
    } else if n >= 0 && d < 0 {
        assert(r.num == -pos && r.den == denr && n == na as int && d == -(da as int));
        assert((-pos) * (-(da as int)) == pos * (da as int)) by (nonlinear_arith);
    } else if n < 0 && d > 0 {
        assert(r.num == -pos && r.den == denr && n == -(na as int) && d == da as int);
        assert((-pos) * (da as int) == -(pos * (da as int))) by (nonlinear_arith);
        assert((-(na as int)) * denr == -((na as int) * denr)) by (nonlinear_arith);
    } else {
        assert(r.num == pos && r.den == denr && n == -(na as int) && d == -(da as int));
        assert(pos * (-(da as int)) == -(pos * (da as int))) by (nonlinear_arith);
        assert((-(na as int)) * denr == -((na as int) * denr)) by (nonlinear_arith);
    }
}

/// A fraction whose parts are already within the `i64` range has a
/// normal form within it too: normalizing never grows either part.
pub proof fn lemma_rat_norm_fits(n: int, d: int)
    requires
        -(i64::MAX as int) <= n <= i64::MAX as int,
        1 <= d <= i64::MAX as int,
    ensures
        rat_fits(rat_norm(n, d)),
{
    let na = vstd::math::abs(n);
    let da = vstd::math::abs(d);
    lemma_gcd_pos(na, da);
    lemma_gcd_le(na, da);
    let g = gcd(na, da);
    vstd::arithmetic::div_mod::lemma_div_nonincreasing(na as int, g as int);
    vstd::arithmetic::div_mod::lemma_div_nonincreasing(da as int, g as int);
    vstd::arithmetic::div_mod::lemma_fundamental_div_mod(da as int, g as int);
    assert(da as int / g as int >= 1) by (nonlinear_arith)
        requires
            1 <= g as int <= da as int,
            da as int == (g as int) * (da as int / g as int) + (da as int) % (g as int),
            0 <= (da as int) % (g as int) < g as int,
            da as int / g as int >= 0,
    ;
}

/// Euclid's algorithm on machine words.
fn gcd_u128(a: u128, b: u128) -> (r: u128)
    ensures
        r as nat == gcd(a as nat, b as nat),
    decreases b,
{
    if b == 0 {
        a
    } else {
        gcd_u128(b, a % b)
    }
}

/// Brings the fraction `n / d` to normal form, if it fits the `i64`
/// range.
fn normalize128(n: i128, d: i128) -> (r: Option<Number>)
    requires
        d != 0,
        -i128::MAX <= n,
        -i128::MAX <= d,
    ensures
        match r {
            Some(x) => x@ == rat_norm(n as int, d as int) && rat_fits(x@),
            None => !rat_fits(rat_norm(n as int, d as int)),
        },
{
    let neg = (n < 0) != (d < 0);
    let na = (if n < 0 { -n } else { n }) as u128;
    let da = (if d < 0 { -d } else { d }) as u128;
    proof {
        assert(na as int == vstd::math::abs(n as int));
        assert(da as int == vstd::math::abs(d as int));
        lemma_gcd_pos(na as nat, da as nat);
        lemma_gcd_le(na as nat, da as nat);
    }
    let g = gcd_u128(na, da);
    let num_m = na / g;
    let den_m = da / g;
    proof {
        vstd::arithmetic::div_mod::lemma_fundamental_div_mod(da as int, g as int);
        assert(den_m >= 1) by (nonlinear_arith)
            requires
                1 <= g as int <= da as int,
                da as int == (g as int) * (da as int / g as int) + (da as int) % (g as int),
                0 <= (da as int) % (g as int) < g as int,
                den_m as int == da as int / g as int,
                den_m as int >= 0,
        ;
    }
    if num_m > i64::MAX as u128 || den_m > i64::MAX as u128 {
        return None;
    }
    let num = if neg {
        -(num_m as i64)
    } else {
        num_m as i64
    };
    Some(Number { num, den: den_m as i64 })
}

/// How many fractional digits a rendered value may carry; expansion
/// stops there when the denominator does not divide a power of ten.
pub const FRAC_DIGIT_CAP: u64 = 40;

/// The fractional digits of `rem / den`, by decimal long division, up to
/// `fuel` digits.
pub open spec fn frac_digits(rem: nat, den: nat, fuel: nat) -> Seq<char>
    recommends
        1 <= den,
        rem < den,
    decreases fuel,
{
    if fuel == 0 || rem == 0 {
        Seq::empty()
    } else {
        seq![digit_char(((rem * 10) / den) as int)] + frac_digits((rem * 10) % den, den, (fuel - 1) as nat)
    }
}

/// The decimal text of a rational: optional sign, integer part, and the
/// fractional digits when there is a remainder. Exact whenever the
/// denominator divides a power of ten, else truncated at
/// `FRAC_DIGIT_CAP` digits.
pub open spec fn spec_fmt_rat(r: RatV) -> Seq<char>
    recommends
        rat_fits(r),
{
    let sign: Seq<char> = if r.num < 0 { seq!['-'] } else { Seq::empty() };
    let na = vstd::math::abs(r.num) as nat;
    let q = na / r.den as nat;
    let rem = na % r.den as nat;
    if rem == 0 {
        sign + dec_digits(q)
    } else {
        sign + dec_digits(q) + seq!['.'] + frac_digits(rem, r.den as nat, FRAC_DIGIT_CAP as nat)
    }
}

/// Appends the decimal text of `x` to `out`.
pub fn push_number(out: &mut String, x: &Number)
    ensures
        final(out)@ == old(out)@ + spec_fmt_rat(x@),
{
    proof {
        use_type_invariant(x);
    }
    if x.num < 0 {
        proof {
            reveal_strlit("-");
        }
        out.append("-");
    }
    let na = (if x.num < 0 { -(x.num as i128) } else { x.num as i128 }) as u128;
    let den = x.den as u128;
    proof {
        assert(na as int == vstd::math::abs(x@.num));
    }
    let q = na / den;
    let mut rem = na % den;
    push_dec(out, q);
    if rem != 0 {
        proof {
            reveal_strlit(".");
        }
        out.append(".");
        let ghost target = old(out)@ + spec_fmt_rat(x@);
        proof {
            assert(out@ + frac_digits(rem as nat, den as nat, FRAC_DIGIT_CAP as nat) =~= target);
        }
        let mut fuel: u64 = FRAC_DIGIT_CAP;
        while rem != 0 && fuel > 0
            invariant
                1 <= den <= i64::MAX as u128,
                rem < den,
                out@ + frac_digits(rem as nat, den as nat, fuel as nat) =~= target,
            decreases fuel,
        {
            let r10 = rem * 10;
            proof {
                vstd::arithmetic::div_mod::lemma_fundamental_div_mod(r10 as int, den as int);
                assert(r10 / den < 10) by (nonlinear_arith)
                    requires
                        1 <= den as int,
                        (r10 as int) < (den as int) * 10,
                        r10 as int == (den as int) * (r10 as int / den as int) + (r10 as int) % (
                        den as int),
                        0 <= (r10 as int) % (den as int),
                        r10 as int / den as int >= 0,
                ;
            }
            let digit = (r10 / den) as u8;
            push_digit(out, digit);
            let ghost pre = frac_digits(rem as nat, den as nat, fuel as nat);
            rem = r10 % den;
            fuel = fuel - 1;
            proof {
                assert(pre == seq![digit_char(digit as int)] + frac_digits(
                    rem as nat,
                    den as nat,
                    fuel as nat,
                ));
                assert(out@ + frac_digits(rem as nat, den as nat, fuel as nat) =~= target);
            }
        }
        proof {
            assert(frac_digits(rem as nat, den as nat, fuel as nat) =~= Seq::<char>::empty());
            assert(out@ + Seq::<char>::empty() =~= out@);
        }
    } else {
        proof {
            assert(out@ =~= old(out)@ + spec_fmt_rat(x@));
        }
    }
}

} // verus!
