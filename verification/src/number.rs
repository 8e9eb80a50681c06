use vstd::prelude::*;
use vstd::arithmetic::div_mod::{
    lemma_fundamental_div_mod, lemma_mod_multiples_basic, lemma_mod_self_0, lemma_small_mod,
};

verus! {

/// An exact rational operand value: `num / den` with `den >= 1`.
///
/// The engine computes on exact rationals rather than machine floats, so
/// every arithmetic step has a precise contract; results that no longer fit
/// the 64-bit numerator or denominator after reduction are reported as an
/// overflow rather than silently rounded.
#[derive(Clone, Copy, PartialEq, Eq, Structural, Debug)]
pub struct Number {
    pub num: i64,
    pub den: i64,
}

impl Number {
    pub open spec fn wf(self) -> bool {
        self.den >= 1
    }
}

/// Magnitude of an integer.
pub open spec fn sabs(n: int) -> nat {
    if n >= 0 {
        n as nat
    } else {
        (-n) as nat
    }
}

/// Greatest common divisor by Euclid's rule; `gcd(a, 0) == a`.
pub open spec fn gcd(a: nat, b: nat) -> nat
    decreases b,
{
    if b == 0 {
        a
    } else {
        gcd(b, a % b)
    }
}

pub proof fn lemma_gcd_divides(a: nat, b: nat)
    requires
        a > 0 || b > 0,
    ensures
        gcd(a, b) >= 1,
        a % gcd(a, b) == 0,
        b % gcd(a, b) == 0,
    decreases b,
{
    if b == 0 {
        lemma_mod_self_0(a as int);
        lemma_small_mod(0, a);
    } else {
        lemma_gcd_divides(b, a % b);
        let g = gcd(b, a % b);
        let q = a as int / b as int;
        let bq = b as int / g as int;
        let rq = (a % b) as int / g as int;
        lemma_fundamental_div_mod(a as int, b as int);
        lemma_fundamental_div_mod(b as int, g as int);
        lemma_fundamental_div_mod((a % b) as int, g as int);
        assert(a as int == (q * bq + rq) * g as int) by (nonlinear_arith)
            requires
                a as int == b as int * q + (a % b) as int,
                b as int == g as int * bq,
                (a % b) as int == g as int * rq,
        {}
        lemma_mod_multiples_basic(q * bq + rq, g as int);
    }
}

/// The canonical (reduced) rational for `n / d`, or `None` when even the
/// reduced form does not fit the 64-bit fields.
pub open spec fn norm(n: int, d: int) -> Option<Number>
    recommends
        d >= 1,
{
    let g = gcd(sabs(n), d as nat);
    let rn = sabs(n) / g;
    let rd = (d as nat) / g;
    if rn <= i64::MAX as nat && rd <= i64::MAX as nat {
        Some(
            Number {
                num: if n >= 0 {
                    rn as i64
                } else {
                    (-(rn as int)) as i64
                },
                den: rd as i64,
            },
        )
    } else {
        None
    }
}

pub proof fn lemma_norm_props(n: int, d: int)
    requires
        d >= 1,
    ensures
        norm(n, d) is Some ==> norm(n, d)->0.wf(),
        norm(n, d) is Some ==> norm(n, d)->0.num * d == n * norm(n, d)->0.den,
        n == 0 ==> norm(n, d) == Some(Number { num: 0, den: 1 }),
{
    lemma_gcd_divides(sabs(n), d as nat);
    let g = gcd(sabs(n), d as nat);
    let rn = sabs(n) / g;
    let rd = (d as nat) / g;
    assert(sabs(n) % g == 0);
    assert((d as nat) % g == 0);
    lemma_fundamental_div_mod(sabs(n) as int, g as int);
    lemma_fundamental_div_mod(d, g as int);
    assert(sabs(n) as int % g as int == 0);
    assert(d % g as int == 0);
    assert(rn as int == sabs(n) as int / g as int);
    assert(rd as int == d / g as int);
    assert(sabs(n) as int == g as int * rn as int);
    assert(d == g as int * rd as int);
    assert(rd >= 1) by (nonlinear_arith)
        requires
            d == g as int * rd as int,
            d >= 1,
            rd >= 0,
    {}
    assert(rn as int * d == sabs(n) as int * rd as int) by (nonlinear_arith)
        requires
            sabs(n) as int == g as int * rn as int,
            d == g as int * rd as int,
    {}
    if rn <= i64::MAX as nat && rd <= i64::MAX as nat {
        let v = norm(n, d)->0;
        assert(v.den as int == rd as int);
        if n >= 0 {
            assert(v.num as int == rn as int);
            assert(sabs(n) as int == n);
            assert(v.num * d == n * v.den) by (nonlinear_arith)
                requires
                    v.num as int == rn as int,
                    v.den as int == rd as int,
                    rn as int * d == sabs(n) as int * rd as int,
                    sabs(n) as int == n,
            {}
        } else {
            assert(v.num as int == -(rn as int));
            assert(sabs(n) as int == -n);
            assert(v.num * d == n * v.den) by (nonlinear_arith)
                requires
                    v.num as int == -(rn as int),
                    v.den as int == rd as int,
                    rn as int * d == sabs(n) as int * rd as int,
                    sabs(n) as int == -n,
            {}
        }
    }
    if n == 0 {
        lemma_small_mod(0, d as nat);
        assert(gcd(0, d as nat) == gcd(d as nat, 0));
        assert(g == d as nat);
        assert(rd == 1) by (nonlinear_arith)
            requires
                d == g as int * rd as int,
                g as int == d,
                d >= 1,
                rd as int >= 1,
        {}
    }
}

/// Euclid's algorithm; relied on by `make` to produce canonical rationals.
fn gcd_u128(a0: u128, b0: u128) -> (g: u128)
    requires
        a0 > 0 || b0 > 0,
    ensures
        g as nat == gcd(a0 as nat, b0 as nat),
        g >= 1,
{
    let mut a = a0;
    let mut b = b0;
    while b != 0
        invariant
            gcd(a as nat, b as nat) == gcd(a0 as nat, b0 as nat),
            a > 0 || b > 0,
        decreases b,
    {
        let r = a % b;
        a = b;
        b = r;
    }
    proof {
        lemma_gcd_divides(a0 as nat, b0 as nat);
    }
    a
}

/// Builds the canonical rational for `n / d`; `None` exactly when the
/// reduced numerator or denominator exceeds the 64-bit range.
pub fn make(n: i128, d: i128) -> (r: Option<Number>)
    requires
        d >= 1,
        n > i128::MIN,
    ensures
        r == norm(n as int, d as int),
{
    let neg = n < 0;
    let un: u128 = if n < 0 {
        (-n) as u128
    } else {
        n as u128
    };
    let ud: u128 = d as u128;
    assert(un as nat == sabs(n as int));
    let g = gcd_u128(un, ud);
    proof {
        lemma_gcd_divides(un as nat, ud as nat);
        lemma_fundamental_div_mod(un as int, g as int);
        lemma_fundamental_div_mod(ud as int, g as int);
    }
    let rn = un / g;
    let rd = ud / g;
    if rn <= i64::MAX as u128 && rd <= i64::MAX as u128 {
        let num = if neg {
            -(rn as i64)
        } else {
            rn as i64
        };
        Some(Number { num, den: rd as i64 })
    } else {
        None
    }
}

/// The canonical sum `a + b`.
pub open spec fn add_norm(a: Number, b: Number) -> Option<Number> {
    norm(a.num * b.den + b.num * a.den, a.den * b.den)
}

/// The canonical difference `a - b`.
pub open spec fn sub_norm(a: Number, b: Number) -> Option<Number> {
    norm(a.num * b.den - b.num * a.den, a.den * b.den)
}

/// The canonical product `a * b`.
pub open spec fn mul_norm(a: Number, b: Number) -> Option<Number> {
    norm(a.num * b.num, a.den * b.den)
}

/// The canonical quotient `a / b`, defined for `b.num != 0`.
pub open spec fn div_norm(a: Number, b: Number) -> Option<Number> {
    if b.num > 0 {
        norm(a.num * b.den, a.den * b.num)
    } else {
        norm(-(a.num * b.den), a.den * -b.num)
    }
}

proof fn lemma_prod_range(x: i64, y: i64)
    ensures
        -(0x8000000000000000 * 0x8000000000000000) <= x as int * y as int <= 0x8000000000000000
            * 0x8000000000000000,
        y >= 1 ==> -(0x8000000000000000 * 0x7FFFFFFFFFFFFFFF) <= x as int * y as int
            <= 0x8000000000000000 * 0x7FFFFFFFFFFFFFFF,
{
    assert(-(0x8000000000000000 * 0x8000000000000000) <= x as int * y as int
        <= 0x8000000000000000 * 0x8000000000000000) by (nonlinear_arith)
        requires
            -0x8000000000000000 <= x as int <= 0x7FFFFFFFFFFFFFFF,
            -0x8000000000000000 <= y as int <= 0x7FFFFFFFFFFFFFFF,
    {}
    if y >= 1 {
        assert(-(0x8000000000000000 * 0x7FFFFFFFFFFFFFFF) <= x as int * y as int
            <= 0x8000000000000000 * 0x7FFFFFFFFFFFFFFF) by (nonlinear_arith)
            requires
                -0x8000000000000000 <= x as int <= 0x7FFFFFFFFFFFFFFF,
                1 <= y as int <= 0x7FFFFFFFFFFFFFFF,
        {}
    }
}

proof fn lemma_den_prod(x: i64, y: i64)
    requires
        x >= 1,
        y >= 1,
    ensures
        1 <= x as int * y as int <= 0x7FFFFFFFFFFFFFFF * 0x7FFFFFFFFFFFFFFF,
{
    assert(1 <= x as int * y as int <= 0x7FFFFFFFFFFFFFFF * 0x7FFFFFFFFFFFFFFF)
        by (nonlinear_arith)
        requires
            1 <= x as int <= 0x7FFFFFFFFFFFFFFF,
            1 <= y as int <= 0x7FFFFFFFFFFFFFFF,
    {}
}

pub fn rat_add(a: Number, b: Number) -> (r: Option<Number>)
    requires
        a.wf(),
        b.wf(),
    ensures
        r == add_norm(a, b),
{
    proof {
        lemma_prod_range(a.num, b.den);
        lemma_prod_range(b.num, a.den);
        lemma_den_prod(a.den, b.den);
    }
    let n: i128 = (a.num as i128) * (b.den as i128) + (b.num as i128) * (a.den as i128);
    let d: i128 = (a.den as i128) * (b.den as i128);
    make(n, d)
}

pub fn rat_sub(a: Number, b: Number) -> (r: Option<Number>)
    requires
        a.wf(),
        b.wf(),
    ensures
        r == sub_norm(a, b),
{
    proof {
        lemma_prod_range(a.num, b.den);
        lemma_prod_range(b.num, a.den);
        lemma_den_prod(a.den, b.den);
    }
    let n: i128 = (a.num as i128) * (b.den as i128) - (b.num as i128) * (a.den as i128);
    let d: i128 = (a.den as i128) * (b.den as i128);
    make(n, d)
}

pub fn rat_mul(a: Number, b: Number) -> (r: Option<Number>)
    requires
        a.wf(),
        b.wf(),
    ensures
        r == mul_norm(a, b),
{
    proof {
        lemma_prod_range(a.num, b.num);
        lemma_den_prod(a.den, b.den);
    }
    let n: i128 = (a.num as i128) * (b.num as i128);
    let d: i128 = (a.den as i128) * (b.den as i128);
    make(n, d)
}

pub fn rat_div(a: Number, b: Number) -> (r: Option<Number>)
    requires
        a.wf(),
        b.wf(),
        b.num != 0,
    ensures
        r == div_norm(a, b),
{
    proof {
        lemma_prod_range(a.num, b.den);
        lemma_prod_range(a.den, b.num);
    }
    if b.num > 0 {
        proof {
            assert(1 <= a.den as int * b.num as int <= 0x7FFFFFFFFFFFFFFF * 0x7FFFFFFFFFFFFFFF)
                by (nonlinear_arith)
                requires
                    1 <= a.den as int <= 0x7FFFFFFFFFFFFFFF,
                    1 <= b.num as int <= 0x7FFFFFFFFFFFFFFF,
            {}
        }
        make((a.num as i128) * (b.den as i128), (a.den as i128) * (b.num as i128))
    } else {
        proof {
            assert(1 <= a.den as int * (-(b.num as int)) <= 0x7FFFFFFFFFFFFFFF
                * 0x8000000000000000) by (nonlinear_arith)
                requires
                    1 <= a.den as int <= 0x7FFFFFFFFFFFFFFF,
                    1 <= -(b.num as int) <= 0x8000000000000000,
            {}
        }
        make(
            -((a.num as i128) * (b.den as i128)),
            (a.den as i128) * (-(b.num as i128)),
        )
    }
}

/// The canonical negation `-a`.
pub open spec fn neg_norm(a: Number) -> Option<Number> {
    norm(-(a.num as int), a.den as int)
}

pub fn rat_neg(a: Number) -> (r: Option<Number>)
    requires
        a.wf(),
    ensures
        r == neg_norm(a),
{
    make(-(a.num as i128), a.den as i128)
}

/// The canonical magnitude `|a|`.
pub open spec fn abs_norm(a: Number) -> Option<Number> {
    norm(sabs(a.num as int) as int, a.den as int)
}

pub fn rat_abs(a: Number) -> (r: Option<Number>)
    requires
        a.wf(),
    ensures
        r == abs_norm(a),
{
    let n: i128 = if a.num < 0 {
        -(a.num as i128)
    } else {
        a.num as i128
    };
    make(n, a.den as i128)
}

/// The canonical reciprocal `1 / a`, defined for `a.num != 0`.
pub open spec fn inv_norm(a: Number) -> Option<Number> {
    if a.num > 0 {
        norm(a.den as int, a.num as int)
    } else {
        norm(-(a.den as int), -(a.num as int))
    }
}

pub fn rat_inv(a: Number) -> (r: Option<Number>)
    requires
        a.wf(),
        a.num != 0,
    ensures
        r == inv_norm(a),
{
    if a.num > 0 {
        make(a.den as i128, a.num as i128)
    } else {
        make(-(a.den as i128), -(a.num as i128))
    }
}

/// The canonical form of `a / 100`, the percent transform.
pub open spec fn percent_norm(a: Number) -> Option<Number> {
    norm(a.num as int, a.den * 100)
}

pub fn rat_percent(a: Number) -> (r: Option<Number>)
    requires
        a.wf(),
    ensures
        r == percent_norm(a),
{
    proof {
        lemma_den_prod(a.den, 100);
    }
    make(a.num as i128, (a.den as i128) * 100)
}

/// Whether `|a| <= 1`; the domain test for the inverse trigonometric
/// functions.
pub open spec fn le_one(a: Number) -> bool {
    sabs(a.num as int) <= a.den
}

pub fn rat_le_one(a: Number) -> (r: bool)
    requires
        a.wf(),
    ensures
        r == le_one(a),
{
    let un: i128 = if a.num < 0 {
        -(a.num as i128)
    } else {
        a.num as i128
    };
    un <= a.den as i128
}

} // verus!
