use vstd::prelude::*;
use vstd::arithmetic::div_mod::{
    lemma_add_mod_noop, lemma_mod_equivalence, lemma_mul_mod_noop_right, lemma_mul_mod_noop_left,
    lemma_fundamental_div_mod, lemma_mod_mod, lemma_small_mod, lemma_mod_multiples_vanish,
    lemma_mod_bound,
};
use crate::tools::misc::{spec_gcd, lemma_bezout};

verus! {

/// Where `j` steps of `m` places, wrapping around `n` places, lead from `s`.
pub open spec fn orbit(s: int, j: int, m: int, n: int) -> int {
    (s + j * m) % n
}

/// One more step.
pub proof fn lemma_orbit_next(s: int, j: int, m: int, n: int)
    requires
        n > 0,
    ensures
        orbit(s, j + 1, m, n) == (orbit(s, j, m, n) + m) % n,
{
    assert((j + 1) * m == j * m + m) by (nonlinear_arith);
    lemma_add_mod_noop(s + j * m, m, n);
    lemma_add_mod_noop(orbit(s, j, m, n), m, n);
    vstd::arithmetic::div_mod::lemma_mod_twice(s + j * m, n);
    lemma_small_mod((m % n) as nat, n as nat);
}

/// The orbit starts at `s`.
pub proof fn lemma_orbit_zero(s: int, m: int, n: int)
    requires
        n > 0,
        0 <= s < n,
    ensures
        orbit(s, 0, m, n) == s,
{
    assert(0 * m == 0) by (nonlinear_arith);
    lemma_small_mod(s as nat, n as nat);
}

/// Two steps of the orbit that land on the same place are a whole number of
/// rounds apart.
pub proof fn lemma_orbit_back(s: int, a: int, b: int, m: int, n: int)
    requires
        n > 0,
        0 <= s < n,
        orbit(s, a, m, n) == orbit(s, b, m, n),
    ensures
        orbit(s, a - b, m, n) == s,
{
    lemma_mod_equivalence(s + a * m, s + b * m, n);
    assert((s + a * m) - (s + b * m) == (a - b) * m) by (nonlinear_arith);
    assert(((a - b) * m) % n == 0);
    lemma_add_mod_noop(s, (a - b) * m, n);
    lemma_small_mod(s as nat, n as nat);
}

/// Once the orbit is back at `s` after `len` steps it repeats.
pub proof fn lemma_orbit_periodic(s: int, len: int, j: int, m: int, n: int)
    requires
        n > 0,
        0 <= s < n,
        len > 0,
        orbit(s, len, m, n) == s,
    ensures
        orbit(s, j, m, n) == orbit(s, j % len, m, n),
{
    lemma_orbit_zero(s, m, n);
    lemma_orbit_back(s, len, 0, m, n);
    assert(orbit(s, len, m, n) == orbit(s, 0, m, n));
    lemma_add_mod_noop(s, len * m, n);
    lemma_small_mod(s as nat, n as nat);
    lemma_mod_bound(s + len * m, n);
    // (len * m) % n == 0
    assert((len * m) % n == 0) by {
        lemma_mod_equivalence(s + len * m, s, n);
        assert((s + len * m) - s == len * m);
    }
    let q = j / len;
    let r = j % len;
    lemma_fundamental_div_mod(j, len);
    assert(j * m == r * m + q * (len * m)) by (nonlinear_arith)
        requires
            j == len * q + r,
    ;
    lemma_mul_mod_noop_right(q, len * m, n);
    assert(q * 0 == 0) by (nonlinear_arith);
    assert((q * (len * m)) % n == 0);
    lemma_add_mod_noop(s + r * m, q * (len * m), n);
    vstd::arithmetic::div_mod::lemma_mod_twice(s + r * m, n);
    lemma_small_mod(((s + r * m) % n) as nat, n as nat);
    assert(s + j * m == (s + r * m) + q * (len * m));
}

/// When `g` divides both `m` and `n`, the orbit stays in the residue class
/// of `s` modulo `g`.
pub proof fn lemma_orbit_residue(s: int, j: int, m: int, n: int, g: int)
    requires
        n > 0,
        g > 0,
        n % g == 0,
        m % g == 0,
    ensures
        orbit(s, j, m, n) % g == s % g,
{
    let c = n / g;
    lemma_fundamental_div_mod(n, g);
    assert(n == g * c);
    assert(c > 0) by (nonlinear_arith)
        requires
            n == g * c,
            n > 0,
            g > 0,
    ;
    lemma_mod_mod(s + j * m, g, c);
    lemma_mul_mod_noop_right(j, m, g);
    assert(j * 0 == 0) by (nonlinear_arith);
    lemma_add_mod_noop(s, j * m, g);
    vstd::arithmetic::div_mod::lemma_mod_twice(s, g);
    lemma_small_mod((s % g) as nat, g as nat);
    lemma_mod_bound(s, g);
}

/// The orbit of `s` reaches every place in its residue class modulo the
/// greatest common divisor of `n` and `m` before it first returns to `s`.
pub proof fn lemma_orbit_covers(s: int, p: int, m: nat, n: nat, len: int)
    requires
        n > 0,
        0 <= s < n,
        0 <= p < n,
        spec_gcd(n, m) > 0,
        p % (spec_gcd(n, m) as int) == s % (spec_gcd(n, m) as int),
        len > 0,
        orbit(s, len, m as int, n as int) == s,
    ensures
        exists|j: int| 0 <= j < len && orbit(s, j, m as int, n as int) == p,
{
    let g = spec_gcd(n, m) as int;
    let (x, y) = lemma_bezout(n, m);
    assert(x * n + y * m == g);
    lemma_mod_equivalence(p, s, g);
    let t = (p - s) / g;
    lemma_fundamental_div_mod(p - s, g);
    assert(p - s == g * t);
    let j0 = t * y;
    assert(s + j0 * m == p + (-(t * x)) * n) by (nonlinear_arith)
        requires
            x * n + y * m == g,
            p - s == g * t,
            j0 == t * y,
    ;
    lemma_mod_multiples_vanish(-(t * x), p, n as int);
    assert((n * (-(t * x)) + p) == p + (-(t * x)) * n) by (nonlinear_arith);
    lemma_small_mod(p as nat, n as nat);
    assert(orbit(s, j0, m as int, n as int) == p);
    lemma_orbit_periodic(s, len, j0, m as int, n as int);
    lemma_mod_bound(j0, len);
    assert(orbit(s, j0 % len, m as int, n as int) == p);
}

} // verus!
