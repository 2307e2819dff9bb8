//! Whole numbers in single precision: which of them are held exactly, and what the others
//! round to.

use vstd::prelude::*;

verus! {

/// The spacing of the whole numbers that single precision holds around `n`: the least power of
/// two that leaves `n` no more than 24 significant bits.
pub open spec fn spacing(n: nat) -> nat
    decreases n,
{
    if n < 0x100_0000 {
        1
    } else {
        2 * spacing(n / 2)
    }
}

/// The multiple of the spacing that is nearest to `n`; of two that are equally near, the even
/// one.
pub open spec fn rounded(n: nat) -> nat {
    let unit = spacing(n);
    let below = n / unit;
    let rest = n % unit;
    if 2 * rest < unit || (2 * rest == unit && below % 2 == 0) {
        below * unit
    } else {
        (below + 1) * unit
    }
}

/// A spacing is at least one, and leaves at most 24 significant bits, and at least 24 of them
/// where it is more than one.
proof fn lemma_spacing(n: nat)
    ensures
        spacing(n) >= 1,
        n < 0x100_0000 * spacing(n),
        spacing(n) > 1 ==> n >= 0x80_0000 * spacing(n),
    decreases n,
{
    if n >= 0x100_0000 {
        lemma_spacing(n / 2);
    }
}

/// A larger number has the same spacing or at least twice the spacing.
proof fn lemma_spacing_grows(a: nat, b: nat)
    requires
        a <= b,
    ensures
        spacing(a) == spacing(b) || 2 * spacing(a) <= spacing(b),
    decreases b,
{
    if b >= 0x100_0000 {
        if a >= 0x100_0000 {
            lemma_spacing_grows(a / 2, b / 2);
        } else {
            lemma_spacing(b / 2);
        }
    }
}

/// What single precision holds exactly is not changed.
pub proof fn lemma_rounded_exact(n: nat)
    requires
        n < 0x100_0000,
    ensures
        rounded(n) == n,
{
    let unit = spacing(n);
    assert(unit == 1);
    assert(n / unit == n && n % unit == 0);
    assert(n * unit == n);
}

/// Rounding stays within half a spacing, and so below twice the number.
pub proof fn lemma_rounded_near(n: nat)
    ensures
        2 * rounded(n) <= 2 * n + spacing(n),
        2 * n <= 2 * rounded(n) + spacing(n),
        rounded(n) <= 2 * n,
        (n / spacing(n)) * spacing(n) <= rounded(n),
{
    lemma_spacing(n);
    let unit = spacing(n);
    let below = n / unit;
    let rest = n % unit;
    vstd::arithmetic::div_mod::lemma_fundamental_div_mod(n as int, unit as int);
    assert((below + 1) * unit == below * unit + unit) by (nonlinear_arith);
    assert(unit * below == below * unit) by (nonlinear_arith);
    assert(rest < unit);
    if unit == 1 {
    } else {
        assert(unit <= n);
    }
}

/// Rounding keeps the order.
pub proof fn lemma_rounded_monotone(a: nat, b: nat)
    requires
        a <= b,
    ensures
        rounded(a) <= rounded(b),
{
    let u = spacing(a);
    let v = spacing(b);
    lemma_spacing(a);
    lemma_spacing(b);
    lemma_spacing_grows(a, b);
    lemma_rounded_near(b);
    let qa = a / u;
    let qb = b / v;
    vstd::arithmetic::div_mod::lemma_fundamental_div_mod(a as int, u as int);
    vstd::arithmetic::div_mod::lemma_fundamental_div_mod(b as int, v as int);
    assert((qa + 1) * u == qa * u + u) by (nonlinear_arith);
    if u == v {
        assert(qa <= qb) by (nonlinear_arith)
            requires
                a <= b,
                u > 0,
                qa == a / u,
                qb == b / u,
        ;
        if qa < qb {
            assert((qa + 1) * u <= qb * u) by (nonlinear_arith)
                requires
                    qa + 1 <= qb,
            ;
        } else {
            assert(u * qa == qa * u) by (nonlinear_arith);
        }
    } else {
        assert(qa < 0x100_0000) by (nonlinear_arith)
            requires
                a < 0x100_0000 * u,
                u > 0,
                qa == a / u,
        ;
        assert((qa + 1) * u <= 0x100_0000 * u) by (nonlinear_arith)
            requires
                qa + 1 <= 0x100_0000,
        ;
        assert(qb >= 0x80_0000) by (nonlinear_arith)
            requires
                b >= 0x80_0000 * v,
                v > 0,
                qb == b / v,
        ;
        assert(qb * v >= 0x80_0000 * v) by (nonlinear_arith)
            requires
                qb >= 0x80_0000,
        ;
    }
}

/// Rounds a whole number to single precision.
pub fn round_whole(n: u128) -> (r: u128)
    requires
        n < 0x1_0000_0000_0000_0000_0000,
    ensures
        r == rounded(n as nat),
        n < 0x100_0000 ==> r == n,
{
    proof {
        if n < 0x100_0000 {
            lemma_rounded_exact(n as nat);
        }
    }
    let mut unit: u128 = 1;
    let mut rest: u128 = n;
    while rest >= 0x100_0000
        invariant
            n < 0x1_0000_0000_0000_0000_0000,
            1 <= unit,
            unit * rest <= n,
            spacing(n as nat) == unit * spacing(rest as nat),
        decreases rest,
    {
        let ghost before = rest as nat;
        assert(unit * rest >= unit) by (nonlinear_arith)
            requires
                rest >= 1,
        ;
        assert(2 * unit * (rest / 2) <= unit * rest) by (nonlinear_arith)
            requires
                2 * (rest / 2) <= rest,
                unit >= 0,
        ;
        assert(unit * (2 * spacing(before / 2)) == (2 * unit) * spacing(before / 2))
            by (nonlinear_arith);
        unit = 2 * unit;
        rest = rest / 2;
    }
    assert(unit * 1 == unit);
    proof {
        lemma_spacing(n as nat);
        lemma_rounded_near(n as nat);
    }
    let below: u128 = n / unit;
    let left: u128 = n % unit;
    assert(below * unit <= n) by {
        vstd::arithmetic::div_mod::lemma_fundamental_div_mod(n as int, unit as int);
        assert(unit * below == below * unit) by (nonlinear_arith);
    }
    if 2 * left < unit || (2 * left == unit && below % 2 == 0) {
        below * unit
    } else {
        assert((below + 1) * unit == below * unit + unit) by (nonlinear_arith);
        (below + 1) * unit
    }
}

} // verus!
