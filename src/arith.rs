use vstd::prelude::*;
use vstd::arithmetic::div_mod::*;
use vstd::set_lib::*;
use vstd::relations::injective_on;

verus! {

/// Greatest common divisor, following Euclid's recursion.
pub open spec fn gcd_spec(a: nat, b: nat) -> nat
    decreases b,
{
    if b == 0 {
        a
    } else {
        gcd_spec(b, a % b)
    }
}

/// Euclid's algorithm.
pub fn gcd(a: usize, b: usize) -> (r: usize)
    ensures
        r == gcd_spec(a as nat, b as nat),
    decreases b,
{
    if b == 0 {
        a
    } else {
        gcd(b, a % b)
    }
}

proof fn lemma_divides_comb(g: int, x: int, y: int, k: int)
    requires
        g > 0,
        x % g == 0,
        y % g == 0,
    ensures
        (y - k * x) % g == 0,
{
    lemma_fundamental_div_mod(x, g);
    lemma_fundamental_div_mod(y, g);
    let i = x / g;
    let j = y / g;
    assert(y - k * x == (j - k * i) * g) by (nonlinear_arith)
        requires
            x == g * i,
            y == g * j,
    ;
    lemma_mod_multiples_basic(j - k * i, g);
}

/// The gcd of `a > 0` and `b` is positive and divides both.
pub proof fn lemma_gcd_divides(a: nat, b: nat)
    requires
        a > 0,
    ensures
        gcd_spec(a, b) > 0,
        a % gcd_spec(a, b) == 0,
        b % gcd_spec(a, b) == 0,
    decreases b,
{
    if b == 0 {
        lemma_mod_self_0(a as int);
    } else {
        lemma_gcd_divides(b, a % b);
        let g = gcd_spec(a, b) as int;
        lemma_fundamental_div_mod(a as int, b as int);
        lemma_divides_comb(g, b as int, (a % b) as int, -(a as int / b as int));
        assert((a % b) as int - (-(a as int / b as int)) * (b as int) == a as int) by (nonlinear_arith)
            requires
                a as int == (b as int) * (a as int / b as int) + (a % b) as int,
        ;
    }
}

/// Every common divisor of `a > 0` and `b` divides their gcd.
proof fn lemma_common_divides_gcd(a: nat, b: nat, c: int)
    requires
        a > 0,
        c > 0,
        (a as int) % c == 0,
        (b as int) % c == 0,
    ensures
        (gcd_spec(a, b) as int) % c == 0,
    decreases b,
{
    if b > 0 {
        lemma_fundamental_div_mod(a as int, b as int);
        lemma_divides_comb(c, b as int, a as int, a as int / b as int);
        lemma_common_divides_gcd(b, a % b, c);
    }
}

/// If `n` divides `u * p` for some `u > 0`, then `u` is at least `n / gcd(n, p)`.
proof fn lemma_return_time(n: int, p: int, u: int)
    requires
        n > 0,
        p >= 0,
        u > 0,
        (u * p) % n == 0,
    ensures
        u * gcd_spec(n as nat, p as nat) >= n,
    decreases u,
{
    let d = gcd_spec(n as nat, p as nat) as int;
    lemma_gcd_divides(n as nat, p as nat);
    let r = n % u;
    lemma_fundamental_div_mod(n, u);
    if r > 0 {
        lemma_mod_multiples_basic(p, n);
        assert(p * n == n * p) by (nonlinear_arith);
        lemma_divides_comb(n, u * p, n * p, n / u);
        assert(n * p - (n / u) * (u * p) == r * p) by (nonlinear_arith)
            requires
                n == u * (n / u) + r,
        ;
        lemma_return_time(n, p, r);
        assert(u * d >= n) by (nonlinear_arith)
            requires
                r * d >= n,
                u > r,
                d > 0,
        ;
    } else {
        let c = n / u;
        lemma_fundamental_div_mod(u * p, n);
        let k = (u * p) / n;
        assert(u * p == u * (k * c)) by (nonlinear_arith)
            requires
                u * p == n * k,
                n == u * c,
        ;
        assert(p == k * c) by (nonlinear_arith)
            requires
                u * p == u * (k * c),
                u > 0,
        ;
        assert(c > 0) by (nonlinear_arith)
            requires
                n == u * c,
                n > 0,
                u > 0,
        ;
        lemma_mod_multiples_basic(k, c);
        lemma_mod_multiples_basic(u, c);
        assert(u * c == c * u) by (nonlinear_arith);
        lemma_common_divides_gcd(n as nat, p as nat, c);
        lemma_fundamental_div_mod(d, c);
        assert(u * d >= n) by (nonlinear_arith)
            requires
                d == c * (d / c),
                d > 0,
                c > 0,
                n == u * c,
                u > 0,
        ;
    }
}

/// The position reached from `i` after `s` steps of `p` around a ring of size `n`.
pub open spec fn orbit(n: int, p: int, i: int, s: int) -> int {
    (i + s * p) % n
}

/// Facts on the cycle of `j -> (j + p) % n` through `i < gcd(n, p)`:
/// it stays in the residue class of `i` modulo the gcd, returns to `i`
/// after `n / gcd(n, p)` steps and not earlier, and meets no position twice.
pub proof fn lemma_orbit(n: int, p: int, i: int, u: int, v: int)
    requires
        n > 0,
        p >= 0,
        0 <= i < gcd_spec(n as nat, p as nat),
        0 <= u < v,
    ensures
        gcd_spec(n as nat, p as nat) > 0,
        n % (gcd_spec(n as nat, p as nat) as int) == 0,
        0 <= orbit(n, p, i, u) < n,
        orbit(n, p, i, u) % (gcd_spec(n as nat, p as nat) as int) == i,
        orbit(n, p, i, n / (gcd_spec(n as nat, p as nat) as int)) == i,
        v < n / (gcd_spec(n as nat, p as nat) as int) ==> orbit(n, p, i, u) != orbit(n, p, i, v),
{
    let d = gcd_spec(n as nat, p as nat) as int;
    lemma_gcd_divides(n as nat, p as nat);
    lemma_mod_bound(i + u * p, n);
    // the class modulo d is kept
    lemma_fundamental_div_mod(i + u * p, n);
    lemma_divides_comb(d, p, 0, -u);
    assert(0 - (-u) * p == u * p) by (nonlinear_arith);
    lemma_divides_comb(d, n, (i + u * p) - i, (i + u * p) / n);
    assert(orbit(n, p, i, u) == i + (u * p - ((i + u * p) / n) * n));
    lemma_fundamental_div_mod(u * p - ((i + u * p) / n) * n, d);
    let w = (u * p - ((i + u * p) / n) * n) / d;
    assert(orbit(n, p, i, u) == i + w * d) by (nonlinear_arith)
        requires
            orbit(n, p, i, u) == i + (u * p - ((i + u * p) / n) * n),
            u * p - ((i + u * p) / n) * n == d * w,
    ;
    lemma_mod_multiples_vanish(w, i, d);
    lemma_small_mod(i as nat, d as nat);
    // the cycle closes after n / d steps
    lemma_fundamental_div_mod(n, d);
    lemma_fundamental_div_mod(p, d);
    assert((n / d) * p == (p / d) * n) by (nonlinear_arith)
        requires
            n == d * (n / d),
            p == d * (p / d),
    ;
    lemma_mod_multiples_vanish(p / d, i, n);
    assert(i < n) by (nonlinear_arith)
        requires
            i < d,
            n == d * (n / d),
            n > 0,
            d > 0,
    ;
    lemma_small_mod(i as nat, n as nat);
    // no position is met twice before the cycle closes
    if v < n / d && orbit(n, p, i, u) == orbit(n, p, i, v) {
        lemma_mod_equivalence(i + v * p, i + u * p, n);
        assert((i + v * p) - (i + u * p) == (v - u) * p) by (nonlinear_arith);
        lemma_return_time(n, p, v - u);
        assert((v - u) * d < n) by (nonlinear_arith)
            requires
                v - u < n / d,
                n == d * (n / d),
                d > 0,
        ;
    }
}

/// The cycle through `i < gcd(n, p)` visits every position of the residue class of `i`.
pub proof fn lemma_orbit_covers(n: int, p: int, i: int, x: int)
    requires
        n > 0,
        p >= 0,
        0 <= i < gcd_spec(n as nat, p as nat),
        0 <= x < n,
        x % (gcd_spec(n as nat, p as nat) as int) == i,
    ensures
        exists|s: int| 0 <= s < n / (gcd_spec(n as nat, p as nat) as int) && orbit(n, p, i, s) == x,
{
    let d = gcd_spec(n as nat, p as nat) as int;
    lemma_orbit(n, p, i, 0, 1);
    let m = n / d;
    lemma_fundamental_div_mod(n, d);
    let steps = set_int_range(0, m);
    let f = |s: int| orbit(n, p, i, s);
    let g = |t: int| i + t * d;
    let class = steps.map(g);
    lemma_int_range(0, m);
    // the orbit has m distinct members
    assert(injective_on(f, steps)) by {
        assert forall|a: int, b: int| steps.contains(a) && steps.contains(b) && f(a) == f(b) implies a == b by {
            if a < b {
                lemma_orbit(n, p, i, a, b);
            } else if b < a {
                lemma_orbit(n, p, i, b, a);
            }
        }
    }
    lemma_map_size(steps, steps.map(f), f);
    // the class has m members
    assert(injective_on(g, steps)) by {
        assert forall|a: int, b: int| steps.contains(a) && steps.contains(b) && g(a) == g(b) implies a == b by {
            assert(a * d == b * d);
            if a != b {
                assert(a * d != b * d) by (nonlinear_arith)
                    requires
                        a != b,
                        d > 0,
                ;
            }
        }
    }
    lemma_map_size(steps, class, g);
    // the orbit lies in the class
    assert forall|y: int| steps.map(f).contains(y) implies class.contains(y) by {
        let s = choose|s: int| steps.contains(s) && f(s) == y;
        lemma_orbit(n, p, i, s, s + 1);
        lemma_fundamental_div_mod(y, d);
        let t = y / d;
        assert(0 <= t < m) by (nonlinear_arith)
            requires
                y == d * t + i,
                0 <= y < n,
                0 <= i < d,
                n == d * m,
        ;
        assert(t * d == d * t) by (nonlinear_arith);
        assert(g(t) == y);
        assert(steps.contains(t));
    }
    lemma_subset_equality(steps.map(f), class);
    lemma_fundamental_div_mod(x, d);
    let t = x / d;
    assert(0 <= t < m) by (nonlinear_arith)
        requires
            x == d * t + i,
            0 <= x < n,
            0 <= i < d,
            n == d * m,
    ;
    assert(t * d == d * t) by (nonlinear_arith);
    assert(g(t) == x);
    assert(steps.contains(t));
    assert(class.contains(g(t)));
    assert(steps.map(f).contains(x));
}

} // verus!
