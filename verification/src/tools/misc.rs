use vstd::prelude::*;
use vstd::arithmetic::div_mod::{
    lemma_add_mod_noop, lemma_fundamental_div_mod, lemma_mul_mod_noop_right, lemma_sub_mod_noop,
    lemma_small_mod,
};

verus! {

/// `d` divides `n` (for a positive `d`).
pub open spec fn divides(d: int, n: int) -> bool {
    d > 0 && n % d == 0
}

/// `g` is the greatest common divisor of `a` and `b`: zero exactly when both
/// are zero, otherwise a common divisor that every common divisor divides.
pub open spec fn is_gcd(a: int, b: int, g: int) -> bool {
    &&& g >= 0
    &&& (g == 0 <==> (a == 0 && b == 0))
    &&& g > 0 ==> divides(g, a) && divides(g, b)
    &&& forall|d: int| divides(d, a) && divides(d, b) ==> #[trigger] divides(d, g)
}

/// The common divisors of `x` and `y` are those of `y` and `x % y`.
proof fn lemma_common_divisors_step(x: int, y: int, d: int)
    requires
        x >= 0,
        y > 0,
        d > 0,
    ensures
        (divides(d, x) && divides(d, y)) <==> (divides(d, y) && divides(d, x % y)),
{
    let q = x / y;
    let r = x % y;
    lemma_fundamental_div_mod(x, y);
    assert(x == y * q + r);
    lemma_mul_mod_noop_right(q, y, d);
    assert(q * y == y * q) by (nonlinear_arith);
    if divides(d, y) {
        assert((q * y) % d == (q * (y % d)) % d);
        assert(q * (y % d) == 0) by (nonlinear_arith)
            requires
                y % d == 0,
        ;
        assert(0int % d == 0);
        assert((q * y) % d == 0);
        if divides(d, x) {
            lemma_sub_mod_noop(x, q * y, d);
            assert((x - q * y) % d == ((x % d) - ((q * y) % d)) % d);
            assert(r == x - q * y);
        }
        if divides(d, r) {
            lemma_add_mod_noop(q * y, r, d);
            assert(x == q * y + r);
        }
    }
}

/// The greatest common divisor, by Euclid's recursion.
pub open spec fn spec_gcd(a: nat, b: nat) -> nat
    decreases b,
{
    if b == 0 {
        a
    } else {
        spec_gcd(b, a % b)
    }
}

/// Euclid's recursion computes the greatest common divisor.
pub proof fn lemma_spec_gcd(a: nat, b: nat)
    ensures
        is_gcd(a as int, b as int, spec_gcd(a, b) as int),
    decreases b,
{
    if b > 0 {
        let r = a % b;
        lemma_spec_gcd(b, r);
        let g = spec_gcd(a, b) as int;
        assert(g == spec_gcd(b, r));
        if g > 0 {
            lemma_common_divisors_step(a as int, b as int, g);
        }
        assert forall|d: int| divides(d, a as int) && divides(d, b as int) implies #[trigger] divides(d, g) by {
            lemma_common_divisors_step(a as int, b as int, d);
        }
    } else {
        if a > 0 {
            vstd::arithmetic::div_mod::lemma_mod_self_0(a as int);
        }
    }
}

/// There is only one greatest common divisor.
pub proof fn lemma_gcd_unique(a: int, b: int, g1: int, g2: int)
    requires
        is_gcd(a, b, g1),
        is_gcd(a, b, g2),
    ensures
        g1 == g2,
{
    if g1 > 0 {
        assert(divides(g1, g2));
        assert(divides(g2, g1));
        if g1 < g2 {
            lemma_small_mod(g1 as nat, g2 as nat);
        }
        if g2 < g1 {
            lemma_small_mod(g2 as nat, g1 as nat);
        }
    }
}

/// Bezout's identity: the greatest common divisor is an integer combination
/// of the two numbers.
pub proof fn lemma_bezout(a: nat, b: nat) -> (r: (int, int))
    ensures
        r.0 * a + r.1 * b == spec_gcd(a, b),
    decreases b,
{
    if b == 0 {
        (1, 0)
    } else {
        let q = (a / b) as int;
        let rem = (a % b) as int;
        lemma_fundamental_div_mod(a as int, b as int);
        let (x, y) = lemma_bezout(b, a % b);
        assert(x * b + y * rem == spec_gcd(b, a % b));
        assert(a == b * q + rem);
        assert(y * a + (x - y * q) * b == x * b + y * rem) by (nonlinear_arith)
            requires
                a == b * q + rem,
        ;
        (y, x - y * q)
    }
}

/// The greatest common divisor with zero is the other number.
pub proof fn lemma_gcd_zero(a: nat)
    ensures
        spec_gcd(a, 0) == a,
        spec_gcd(0, a) == a,
{
    if a > 0 {
        assert(0nat % a == 0) by {
            lemma_small_mod(0, a);
        }
        assert(spec_gcd(0, a) == spec_gcd(a, 0));
    }
}

/// Scaling both numbers by `k` scales their greatest common divisor by `k`.
pub proof fn lemma_gcd_scale(k: nat, a: nat, b: nat)
    requires
        k > 0,
    ensures
        spec_gcd(k * a, k * b) == k * spec_gcd(a, b),
    decreases b,
{
    if b > 0 {
        assert(k * b > 0) by (nonlinear_arith)
            requires
                k > 0,
                b > 0,
        ;
        vstd::arithmetic::div_mod::lemma_truncate_middle(a as int, k as int, b as int);
        assert((k * a) % (k * b) == k * (a % b));
        lemma_gcd_scale(k, b, a % b);
    } else {
        assert(k * b == 0) by (nonlinear_arith)
            requires
                b == 0,
        ;
    }
}

/// Euclid's algorithm.
pub fn gcd(a: usize, b: usize) -> (g: usize)
    ensures
        is_gcd(a as int, b as int, g as int),
        g == spec_gcd(a as nat, b as nat),
{
    let mut a = a;
    let mut b = b;
    let ghost a0 = a as int;
    let ghost b0 = b as int;
    while b != 0
        invariant
            a0 == 0 && b0 == 0 ==> a == 0 && b == 0,
            spec_gcd(a as nat, b as nat) == spec_gcd(a0 as nat, b0 as nat),
            a0 >= 0,
            b0 >= 0,
            (a == 0 && b == 0) ==> a0 == 0 && b0 == 0,
            forall|d: int|
                (divides(d, a0) && divides(d, b0)) <==> (#[trigger] divides(d, a as int) && divides(
                    d,
                    b as int,
                )),
        decreases b,
    {
        let r = a % b;
        proof {
            assert forall|d: int|
                (divides(d, a0) && divides(d, b0)) <==> (#[trigger] divides(d, b as int) && divides(
                    d,
                    r as int,
                )) by {
                assert((divides(d, a0) && divides(d, b0)) <==> (divides(d, a as int) && divides(
                    d,
                    b as int,
                )));
                if d > 0 {
                    lemma_common_divisors_step(a as int, b as int, d);
                }
            }
        }
        a = b;
        b = r;
    }
    proof {
        if a > 0 {
            assert(divides(a as int, a as int)) by {
                vstd::arithmetic::div_mod::lemma_mod_self_0(a as int);
            }
            assert(divides(a as int, 0));
            assert(divides(a as int, a0) && divides(a as int, b0));
        }
        assert forall|d: int| divides(d, a0) && divides(d, b0) implies #[trigger] divides(
            d,
            a as int,
        ) by {
            assert(divides(d, a as int) && divides(d, b as int));
        }
    }
    a
}

} // verus!
