//! Divisibility and primality as mathematical specifications, with the
//! arithmetic lemmas the factoring algorithm rests on.

use vstd::prelude::*;
use vstd::arithmetic::div_mod::{lemma_fundamental_div_mod, lemma_mod_multiples_basic};

verus! {

/// `d` divides `n`: some natural multiple of `d` equals `n`.
pub open spec fn divides(d: nat, n: nat) -> bool {
    exists|k: nat| n == #[trigger] (d * k)
}

/// A natural number is prime when it is at least 2 and has no divisor
/// strictly between 1 and itself.
pub open spec fn is_prime(p: nat) -> bool {
    p >= 2 && forall|d: nat| 1 < d < p ==> !(#[trigger] divides(d, p))
}

/// A composite number: at least 2, but not prime.
pub open spec fn is_composite(n: nat) -> bool {
    n >= 2 && !is_prime(n)
}

/// Divisibility is transitive.
pub proof fn lemma_divides_transitive(a: nat, b: nat, c: nat)
    requires
        divides(a, b),
        divides(b, c),
    ensures
        divides(a, c),
{
    let k1 = choose|k: nat| b == #[trigger] (a * k);
    let k2 = choose|k: nat| c == #[trigger] (b * k);
    assert(c == a * (k1 * k2)) by (nonlinear_arith)
        requires
            b == a * k1,
            c == b * k2,
    ;
}

/// A divisor of a positive number is positive and no larger than it.
pub proof fn lemma_divides_bounds(d: nat, n: nat)
    requires
        divides(d, n),
        n >= 1,
    ensures
        1 <= d <= n,
{
    let k = choose|k: nat| n == #[trigger] (d * k);
    assert(d >= 1 && d <= n) by (nonlinear_arith)
        requires
            n == d * k,
            n >= 1,
    ;
}

/// A zero remainder is the same thing as divisibility.
pub proof fn lemma_mod_zero_is_divides(d: nat, n: nat)
    requires
        d >= 1,
    ensures
        n % d == 0 <==> divides(d, n),
{
    if n % d == 0 {
        lemma_fundamental_div_mod(n as int, d as int);
        assert(n == d * ((n as int / d as int) as nat));
    }
    if divides(d, n) {
        let k = choose|k: nat| n == #[trigger] (d * k);
        lemma_mod_multiples_basic(k as int, d as int);
        assert(k as int * d as int == n as int) by (nonlinear_arith)
            requires
                n == d * k,
        ;
        assert(n as int % d as int == 0);
    }
}

/// A number at least 2 with no divisor whose square stays within it is prime:
/// a proper divisor always brings a cofactor, and the smaller of the two
/// squares to at most the number itself.
pub proof fn lemma_prime_if_no_divisor_below(n: nat, bound: nat)
    requires
        n >= 2,
        bound * bound > n,
        forall|d: nat| 2 <= d < bound ==> !(#[trigger] divides(d, n)),
    ensures
        is_prime(n),
{
    assert forall|d: nat| 1 < d < n implies !(#[trigger] divides(d, n)) by {
        if divides(d, n) {
            let k = choose|k: nat| n == #[trigger] (d * k);
            assert(d < bound || k < bound) by (nonlinear_arith)
                requires
                    n == d * k,
                    bound * bound > n,
                    d >= 2,
                    n >= 2,
            ;
            if d >= bound {
                assert(k >= 2) by (nonlinear_arith)
                    requires
                        n == d * k,
                        1 < d < n,
                ;
                assert(divides(k, n)) by {
                    assert(n == k * d) by (nonlinear_arith)
                        requires
                            n == d * k,
                    ;
                }
            }
        }
    }
}

/// Dividing a positive multiple by the divisor gives back the cofactor.
pub proof fn lemma_div_exact(d: nat, n: nat)
    requires
        divides(d, n),
        d >= 1,
        n >= 1,
    ensures
        n == d * (n / d),
        n / d >= 1,
{
    lemma_mod_zero_is_divides(d, n);
    lemma_fundamental_div_mod(n as int, d as int);
    assert(n / d >= 1) by (nonlinear_arith)
        requires
            n == d * (n / d),
            n >= 1,
    ;
}

/// Common divisors pass to differences: if `p` divides both `x` and a
/// larger `y`, it divides `y - x`.
pub proof fn lemma_divides_diff(p: nat, x: nat, y: nat)
    requires
        divides(p, x),
        divides(p, y),
        x <= y,
    ensures
        divides(p, (y - x) as nat),
{
    let k1 = choose|k: nat| x == #[trigger] (p * k);
    let k2 = choose|k: nat| y == #[trigger] (p * k);
    if p == 0 {
        assert(x == 0 && y == 0) by (nonlinear_arith)
            requires
                x == p * k1,
                y == p * k2,
                p == 0,
        ;
        assert((y - x) as nat == p * 0) by (nonlinear_arith)
            requires
                x == 0,
                y == 0,
                p == 0,
        ;
    } else {
        assert(k1 <= k2) by (nonlinear_arith)
            requires
                x == p * k1,
                y == p * k2,
                x <= y,
                p >= 1,
        ;
        assert((y - x) as nat == p * ((k2 - k1) as nat)) by (nonlinear_arith)
            requires
                x == p * k1,
                y == p * k2,
                k1 <= k2,
        ;
    }
}

/// The descent behind Euclid's lemma: a prime that divides `a * b` with
/// `0 < a < p` already divides `b`.
proof fn lemma_euclid_descent(p: nat, a: nat, b: nat)
    requires
        is_prime(p),
        0 < a < p,
        divides(p, a * b),
    ensures
        divides(p, b),
    decreases a,
{
    lemma_fundamental_div_mod(p as int, a as int);
    let q = p / a;
    let r = p % a;
    assert(p == a * q + r);
    if r == 0 {
        // a divides the prime p and is smaller, so a is 1
        assert(divides(a, p)) by {
            assert(p == a * q);
        }
        if a > 1 {
            assert(!divides(a, p));
            assert(false);
        }
        assert(a * b == b);
    } else {
        // p divides q * (a * b) and p * b, hence their difference r * b
        let k = choose|k: nat| a * b == #[trigger] (p * k);
        assert(divides(p, q * (a * b))) by {
            assert(q * (a * b) == p * (q * k)) by (nonlinear_arith)
                requires
                    a * b == p * k,
            ;
        }
        assert(divides(p, p * b)) by {
            assert(p * b == p * b);
        }
        assert(q * (a * b) <= p * b) by (nonlinear_arith)
            requires
                p == a * q + r,
                r >= 0,
                a >= 1,
                b >= 0,
                q >= 0,
        ;
        lemma_divides_diff(p, q * (a * b), p * b);
        assert((p * b - q * (a * b)) as nat == r * b) by (nonlinear_arith)
            requires
                p == a * q + r,
        ;
        assert(divides(p, r * b));
        lemma_euclid_descent(p, r, b);
    }
}

/// Euclid's lemma: a prime dividing a product divides one of the factors.
pub proof fn lemma_euclid(p: nat, a: nat, b: nat)
    requires
        is_prime(p),
        divides(p, a * b),
    ensures
        divides(p, a) || divides(p, b),
{
    lemma_fundamental_div_mod(a as int, p as int);
    let a1 = a % p;
    if a1 == 0 {
        lemma_mod_zero_is_divides(p, a);
    } else {
        // a * b and (a % p) * b differ by a multiple of p
        let q = a / p;
        assert(a == p * q + a1);
        assert(divides(p, p * (q * b))) by {
            assert(p * (q * b) == p * (q * b));
        }
        assert(a1 * b <= a * b) by (nonlinear_arith)
            requires
                a == p * q + a1,
                p >= 2,
                q >= 0,
                a1 >= 0,
                b >= 0,
        ;
        assert(p * (q * b) <= a * b) by (nonlinear_arith)
            requires
                a == p * q + a1,
                a1 >= 0,
                b >= 0,
        ;
        lemma_divides_diff(p, p * (q * b), a * b);
        assert((a * b - p * (q * b)) as nat == a1 * b) by (nonlinear_arith)
            requires
                a == p * q + a1,
        ;
        assert(divides(p, a1 * b));
        assert(a1 < p) by {
            vstd::arithmetic::div_mod::lemma_mod_division_less_than_divisor(a as int, p as int);
        }
        lemma_euclid_descent(p, a1, b);
    }
}

} // verus!
