//! Greatest common divisors and least common multiples of week counts and
//! minute counts.

use vstd::prelude::*;

verus! {

/// `d` divides `n`.
pub open spec fn divides(d: nat, n: nat) -> bool {
    exists|k: nat| #[trigger] (k * d) == n
}

/// Greatest common divisor, by Euclid's algorithm.
pub open spec fn spec_gcd(a: nat, b: nat) -> nat
    decreases b,
{
    if b == 0 {
        a
    } else {
        spec_gcd(b, a % b)
    }
}

/// Least common multiple of two positive numbers.
pub open spec fn spec_lcm(a: nat, b: nat) -> nat {
    (a / spec_gcd(a, b)) * b
}

/// The greatest common divisor divides both numbers, is positive unless both
/// are zero, and is at most each positive one.
pub proof fn lemma_gcd_divides(a: nat, b: nat)
    ensures
        divides(spec_gcd(a, b), a),
        divides(spec_gcd(a, b), b),
        a > 0 || b > 0 ==> spec_gcd(a, b) > 0,
        a > 0 ==> spec_gcd(a, b) <= a,
        b > 0 ==> spec_gcd(a, b) <= b,
    decreases b,
{
    let g = spec_gcd(a, b);
    if b == 0 {
        assert(1 * a == a);
        assert(0 * a == 0);
    } else {
        lemma_gcd_divides(b, a % b);
        let kb = choose|k: nat| #[trigger] (k * g) == b;
        let kr = choose|k: nat| #[trigger] (k * g) == a % b;
        let q: nat = a / b;
        assert(a == b * q + a % b) by {
            vstd::arithmetic::div_mod::lemma_fundamental_div_mod(a as int, b as int);
        }
        assert(a == (q * kb + kr) * g) by (nonlinear_arith)
            requires
                a == b * q + a % b,
                b == kb * g,
                a % b == kr * g,
        ;
        assert(((q * kb + kr) as nat) * g == a);
        if a > 0 {
            let ka = (q * kb + kr) as nat;
            assert(g <= a) by (nonlinear_arith)
                requires
                    a > 0,
                    ka * g == a,
            ;
        }
    }
}

/// Divisibility is transitive.
pub proof fn lemma_divides_transitive(a: nat, b: nat, c: nat)
    requires
        divides(a, b),
        divides(b, c),
    ensures
        divides(a, c),
{
    let k1 = choose|k: nat| #[trigger] (k * a) == b;
    let k2 = choose|k: nat| #[trigger] (k * b) == c;
    assert((k2 * k1) * a == c) by (nonlinear_arith)
        requires
            k1 * a == b,
            k2 * b == c,
    ;
}

/// The least common multiple of two positive numbers is a positive multiple
/// of each.
pub proof fn lemma_lcm_multiple(a: nat, b: nat)
    requires
        a > 0,
        b > 0,
    ensures
        divides(a, spec_lcm(a, b)),
        divides(b, spec_lcm(a, b)),
        spec_lcm(a, b) >= b,
        spec_lcm(a, b) >= a,
{
    lemma_gcd_divides(a, b);
    let g = spec_gcd(a, b);
    let ka = choose|k: nat| #[trigger] (k * g) == a;
    let kb = choose|k: nat| #[trigger] (k * g) == b;
    assert(a / g == ka) by {
        vstd::arithmetic::div_mod::lemma_div_multiples_vanish(ka as int, g as int);
        assert(g * ka == ka * g) by (nonlinear_arith);
    }
    assert(ka >= 1) by (nonlinear_arith)
        requires
            ka * g == a,
            a > 0,
    ;
    assert(kb * a == ka * b) by (nonlinear_arith)
        requires
            ka * g == a,
            kb * g == b,
    ;
    assert(spec_lcm(a, b) == ka * b);
    assert(ka * b >= b) by (nonlinear_arith)
        requires
            ka >= 1,
    ;
    assert(kb >= 1) by (nonlinear_arith)
        requires
            kb * g == b,
            b > 0,
    ;
    assert(kb * a >= a) by (nonlinear_arith)
        requires
            kb >= 1,
    ;
}

/// Greatest common divisor.
pub fn gcd(a: u32, b: u32) -> (r: u32)
    ensures
        r == spec_gcd(a as nat, b as nat),
{
    let mut x: u32 = a;
    let mut y: u32 = b;
    while y != 0
        invariant
            spec_gcd(x as nat, y as nat) == spec_gcd(a as nat, b as nat),
        decreases y,
    {
        let t: u32 = x % y;
        x = y;
        y = t;
    }
    x
}

/// Least common multiple of two positive numbers, when it fits in a `u32`.
pub fn lcm(a: u32, b: u32) -> (r: u32)
    requires
        a > 0,
        b > 0,
        spec_lcm(a as nat, b as nat) <= u32::MAX,
    ensures
        r == spec_lcm(a as nat, b as nat),
        r > 0,
{
    proof {
        lemma_gcd_divides(a as nat, b as nat);
        lemma_lcm_multiple(a as nat, b as nat);
    }
    let g: u32 = gcd(a, b);
    let q: u32 = a / g;
    proof {
        assert(q * b == spec_lcm(a as nat, b as nat));
    }
    q * b
}

} // verus!
