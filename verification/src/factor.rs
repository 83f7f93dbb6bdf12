//! Factoring proper: trial division for the small primes, Pollard's rho
//! (Brent's variant with batched gcd) for the large ones, and a primality
//! oracle to decide when the worklist is done.

use vstd::prelude::*;
use crate::arith::{
    divides, is_prime, is_composite, lemma_divides_transitive, lemma_divides_bounds,
    lemma_mod_zero_is_divides, lemma_prime_if_no_divisor_below, lemma_div_exact,
};
use vstd::arithmetic::div_mod::lemma_fundamental_div_mod;
use crate::factorization::{
    Factorization, entries_product, valid_entries, sorted_entries, is_factorization,
    pow_nat, lemma_pow_nat_pos, lemma_pow_nat_monotone_base, lemma_pow_nat_two_exceeds,
    lemma_entries_product_push, lemma_entries_product_entry_bound,
    lemma_largest_key_is_largest_prime_divisor,
};

verus! {

/// Trial division handles every prime below this bound.
const TRIAL_FACTOR_LIMIT: u32 = 100;

/// How many pseudo-random sequence steps one rho attempt may take before it
/// gives up and a fresh offset constant is tried.
const RHO_STEP_BUDGET: u32 = 0x0040_0000;

/// How many offset constants are tried before falling back to a direct
/// search for the smallest factor.
const RHO_RESTART_LIMIT: u32 = 64;

/// Rejected inputs: the only failure the library reports.
#[derive(Debug, Clone, Copy, PartialEq, Eq, Structural)]
pub enum FactorError {
    /// The argument lies outside the domain (factoring zero).
    InvalidArgument,
}

/// The product of a sequence of numbers.
spec fn seq_prod(s: Seq<u32>) -> nat
    decreases s.len(),
{
    if s.len() == 0 {
        1
    } else {
        seq_prod(s.drop_last()) * (s.last() as nat)
    }
}

/// The sum of a sequence of numbers.
spec fn seq_sum(s: Seq<u32>) -> int
    decreases s.len(),
{
    if s.len() == 0 {
        0
    } else {
        seq_sum(s.drop_last()) + s.last()
    }
}

/// A product of positive numbers is positive.
proof fn lemma_seq_prod_pos(s: Seq<u32>)
    requires
        forall|i: int| 0 <= i < s.len() ==> #[trigger] s[i] >= 1,
    ensures
        seq_prod(s) >= 1,
    decreases s.len(),
{
    if s.len() > 0 {
        lemma_seq_prod_pos(s.drop_last());
        assert(seq_prod(s.drop_last()) * (s.last() as nat) >= 1) by (nonlinear_arith)
            requires
                seq_prod(s.drop_last()) >= 1,
                s.last() >= 1,
        ;
    }
}

/// The sum of numbers that are all at least 2 is at least twice their count.
proof fn lemma_seq_sum_lower(s: Seq<u32>)
    requires
        forall|i: int| 0 <= i < s.len() ==> #[trigger] s[i] >= 2,
    ensures
        seq_sum(s) >= 2 * s.len(),
    decreases s.len(),
{
    if s.len() > 0 {
        lemma_seq_sum_lower(s.drop_last());
    }
}

/// Relies on `primal::is_prime`: deterministic Miller–Rabin whose witness
/// table covers the whole 64-bit range, so it is an exact primality test.
#[verifier::external_body]
fn primality_oracle(u: u64) -> (r: bool)
    ensures
        r == is_prime(u as nat),
{
    primal::is_prime(u)
}

/// Relies on `num::integer::gcd` (Stein's binary algorithm): the result
/// divides both arguments, every common divisor divides it, and it is zero
/// only when both arguments are.
#[verifier::external_body]
fn gcd_u32(a: u32, b: u32) -> (r: u32)
    ensures
        divides(r as nat, a as nat),
        divides(r as nat, b as nat),
        forall|d: nat|
            #![trigger divides(d, a as nat), divides(d, b as nat)]
            divides(d, a as nat) && divides(d, b as nat) ==> divides(d, r as nat),
        r == 0 ==> a == 0 && b == 0,
{
    num::integer::gcd(a, b)
}

/// One step of the pseudo-random sequence: `(x*x + c) mod m`, squared in 64
/// bits so the intermediate cannot overflow.
fn next_random(m: u32, c: u32, x: u32) -> (r: u32)
    requires
        m >= 1,
    ensures
        r < m,
        r as nat == (x as nat * x as nat + c as nat) % m as nat,
{
    proof {
        assert((x as u64) * (x as u64) <= 0xffff_ffff_0000_0000u64 - 0xffff_ffffu64)
            by (nonlinear_arith)
            requires
                x <= 0xffff_ffffu32,
        ;
    }
    (((x as u64) * (x as u64) + (c as u64)) % (m as u64)) as u32
}

/// `x - y` under modulo-`m` arithmetic, adding `m` first when `x < y` so the
/// subtraction stays in unsigned range.
fn sub_mod(m: u32, x: u32, y: u32) -> (r: u32)
    requires
        x < m,
        y < m,
    ensures
        r < m,
        x >= y ==> r == x - y,
        x < y ==> r == m - y + x,
{
    if x >= y {
        x - y
    } else {
        m - y + x
    }
}

/// `(a * b) mod m`, multiplied in 64 bits so the product cannot overflow.
fn mul_mod(m: u32, a: u32, b: u32) -> (r: u32)
    requires
        a < m,
        b < m,
    ensures
        r < m,
        r as nat == (a as nat * b as nat) % m as nat,
{
    proof {
        assert((a as u64) * (b as u64) < 0xffff_ffff_ffff_ffffu64) by (nonlinear_arith)
            requires
                a <= 0xffff_ffffu32,
                b <= 0xffff_ffffu32,
        ;
    }
    (((a as u64) * (b as u64)) % (m as u64)) as u32
}

/// The smallest factor of a composite, by direct search. This is the
/// provably terminating fallback behind the rho engine.
fn smallest_factor(n: u32) -> (f: u32)
    requires
        is_composite(n as nat),
    ensures
        1 < f < n,
        divides(f as nat, n as nat),
{
    let mut d: u32 = 2;
    // `d <= n / d` says `d * d <= n` without any risk of overflow
    while d <= n / d
        invariant
            2 <= d,
            is_composite(n as nat),
            forall|e: nat| 2 <= e < d ==> !(#[trigger] divides(e, n as nat)),
        decreases n - d,
    {
        proof {
            lemma_fundamental_div_mod(n as int, d as int);
            assert((d as int) * (d as int) <= n as int) by (nonlinear_arith)
                requires
                    n as int == (d as int) * ((n as int) / (d as int)) + (n as int) % (d as int),
                    (n as int) % (d as int) >= 0,
                    (d as int) <= (n as int) / (d as int),
                    d >= 2,
            ;
        }
        if n % d == 0 {
            proof {
                lemma_mod_zero_is_divides(d as nat, n as nat);
                assert(d < n) by (nonlinear_arith)
                    requires
                        (d as int) * (d as int) <= n as int,
                        d >= 2,
                ;
            }
            return d;
        }
        d += 1;
        proof {
            assert(!divides((d - 1) as nat, n as nat)) by {
                lemma_mod_zero_is_divides((d - 1) as nat, n as nat);
            }
        }
    }
    proof {
        lemma_fundamental_div_mod(n as int, d as int);
        assert((d as int) * (d as int) > n as int) by (nonlinear_arith)
            requires
                n as int == (d as int) * ((n as int) / (d as int)) + (n as int) % (d as int),
                (n as int) % (d as int) < (d as int),
                (d as int) > (n as int) / (d as int),
                d >= 2,
        ;
        lemma_prime_if_no_divisor_below(n as nat, d as nat);
        assert(false);
    }
    vstd::pervasive::unreached()
}

/// One run of Brent's cycle search with a fixed offset constant `c`: batches
/// of sequence steps are folded into a running product whose gcd with `n` is
/// taken once per batch; on a hit the batch is replayed one step at a time to
/// isolate the collision. Gives up (`None`) once the step budget is spent.
/// Any factor returned divides `n`; it may be `n` itself (a degenerate
/// cycle), which the caller treats as a miss.
fn rho_attempt(n: u32, c: u32) -> (r: Option<u32>)
    requires
        n >= 2,
    ensures
        r matches Some(f) ==> 1 < f <= n && divides(f as nat, n as nat),
{
    let mut budget: u32 = RHO_STEP_BUDGET;
    let mut limit_power: u32 = 0;
    let mut k: u32 = 0;
    let mut y: u32 = 1;
    while budget > 0
        invariant
            n >= 2,
            y < n,
            limit_power <= 31,
        decreases budget,
    {
        budget -= 1;
        let ghost budget_mark = budget;
        if limit_power < 31 {
            limit_power += 1;
        }
        let limit: u32 = 1u32 << limit_power;
        let product_limit: u32 = 1u32 << (limit_power / 2);
        proof {
            assert(1u32 << (limit_power / 2) >= 1 && 1u32 << limit_power >= 1) by (bit_vector)
                requires
                    limit_power <= 31u32,
            ;
        }
        let x = y;
        while k < limit && budget > 0
            invariant
                n >= 2,
                x < n,
                y < n,
                product_limit >= 1,
                budget <= budget_mark,
            decreases budget,
        {
            let saved_y = y;
            let mut product: u32 = 1;
            let mut j: u32 = 0;
            let mut j_limit: u32 = product_limit;
            if limit - k < j_limit {
                j_limit = limit - k;
            }
            if budget < j_limit {
                j_limit = budget;
            }
            while j < j_limit
                invariant
                    n >= 2,
                    x < n,
                    y < n,
                    product < n,
                decreases j_limit - j,
            {
                y = next_random(n, c, y);
                let d = sub_mod(n, x, y);
                product = mul_mod(n, product, d);
                j += 1;
            }
            budget -= j_limit;
            let g = gcd_u32(product, n);
            proof {
                if g != 1 {
                    lemma_divides_bounds(g as nat, n as nat);
                }
            }
            if g == 1 {
                k += j_limit;
            } else {
                // replay the batch step by step to isolate the collision
                y = saved_y;
                let mut i: u32 = 0;
                while i < j_limit
                    invariant
                        n >= 2,
                        x < n,
                        y < n,
                    decreases j_limit - i,
                {
                    y = next_random(n, c, y);
                    let d = sub_mod(n, x, y);
                    let g2 = gcd_u32(d, n);
                    if g2 != 1 {
                        proof {
                            lemma_divides_bounds(g2 as nat, n as nat);
                        }
                        return Some(g2);
                    }
                    i += 1;
                }
                // the batched gcd saw a factor, so a single step must as
                // well; this point is never reached, but the batch gcd is
                // itself a sound answer
                return Some(g);
            }
        }
    }
    None
}

/// Finds a non-trivial factor of a composite using Pollard's rho algorithm.
///
/// The expected runtime is on the order of the fourth root of `n`. A rho
/// attempt that finds only the trivial factor `n` (a degenerate cycle) or
/// exhausts its budget is retried with the next offset constant; after
/// [`RHO_RESTART_LIMIT`] attempts the smallest factor is searched for
/// directly, so the function terminates on every composite.
///
/// The returned factor may itself be composite.
fn find_large_factor(n: u32) -> (f: u32)
    requires
        is_composite(n as nat),
    ensures
        1 < f < n,
        divides(f as nat, n as nat),
{
    let mut c: u32 = 1;
    let mut attempt: u32 = 0;
    while attempt < RHO_RESTART_LIMIT
        invariant
            is_composite(n as nat),
        decreases RHO_RESTART_LIMIT - attempt,
    {
        match rho_attempt(n, c) {
            Some(f) => {
                if f != n {
                    return f;
                }
            },
            None => {},
        }
        c = if c == u32::MAX {
            1
        } else {
            c + 1
        };
        attempt += 1;
    }
    smallest_factor(n)
}

/// Factors an integer into its prime factors.
///
/// Fails exactly on the input 0. Factoring 1 is legal and yields the empty
/// mapping. Any other result is the prime factorization of `n`: prime keys
/// in strictly increasing order, positive multiplicities, and the product
/// of `key^value` over all entries equal to `n`.
pub fn factor(n: u32) -> (r: Result<Factorization, FactorError>)
    ensures
        r is Err <==> n == 0,
        n != 0 ==> (r matches Ok(f) && is_factorization(f@, n as nat)),
{
    if n == 0 {
        return Err(FactorError::InvalidArgument);
    }
    let mut factorization = Factorization::new();
    proof {
        assert(entries_product(factorization@) == 1);
    }

    // remove small factors
    let mut rest: u32 = n;
    let mut trial_factor: u32 = 2;
    // `rest / trial_factor >= trial_factor` says `trial_factor^2 <= rest`
    // without any risk of overflow
    while trial_factor < TRIAL_FACTOR_LIMIT && rest / trial_factor >= trial_factor
        invariant
            n >= 1,
            rest >= 1,
            2 <= trial_factor <= TRIAL_FACTOR_LIMIT + 1,
            trial_factor == 2 || trial_factor % 2 == 1,
            valid_entries(factorization@),
            sorted_entries(factorization@),
            entries_product(factorization@) * (rest as nat) == n as nat,
            factorization@.len() > 0 ==> factorization@.last().0 < trial_factor,
            forall|d: nat| 2 <= d < trial_factor ==> !(#[trigger] divides(d, rest as nat)),
        decreases TRIAL_FACTOR_LIMIT + 2 - trial_factor,
    {
        let ghost rest0 = rest;
        let ghost fact0 = factorization@;
        let mut exponent: u32 = 0;
        proof {
            assert(pow_nat(trial_factor as nat, 0) == 1);
            assert(divides(rest as nat, rest0 as nat)) by {
                assert(rest0 as nat == (rest as nat) * 1);
            }
        }
        while rest % trial_factor == 0
            invariant
                2 <= trial_factor,
                rest >= 1,
                pow_nat(trial_factor as nat, exponent as nat) * (rest as nat) == rest0 as nat,
                divides(rest as nat, rest0 as nat),
            decreases rest,
        {
            proof {
                lemma_mod_zero_is_divides(trial_factor as nat, rest as nat);
                lemma_div_exact(trial_factor as nat, rest as nat);
                let p = pow_nat(trial_factor as nat, exponent as nat);
                let rq: nat = (rest as nat) / (trial_factor as nat);
                // the exponent stays far away from overflow
                assert(p <= rest0 as nat) by (nonlinear_arith)
                    requires
                        p * (rest as nat) == rest0 as nat,
                        rest >= 1,
                        p >= 0,
                ;
                lemma_pow_nat_monotone_base(2, trial_factor as nat, exponent as nat);
                lemma_pow_nat_two_exceeds(exponent as nat);
                // dividing out one more copy of the candidate
                assert(pow_nat(trial_factor as nat, (exponent + 1) as nat) == (trial_factor as nat)
                    * p);
                assert((trial_factor as nat) * p * rq == rest0 as nat) by (nonlinear_arith)
                    requires
                        p * (rest as nat) == rest0 as nat,
                        rest as nat == (trial_factor as nat) * rq,
                ;
                assert(divides(rq, rest as nat)) by {
                    assert(rest as nat == rq * (trial_factor as nat)) by (nonlinear_arith)
                        requires
                            rest as nat == (trial_factor as nat) * rq,
                    ;
                }
                lemma_divides_transitive(rq, rest as nat, rest0 as nat);
                assert(rq < rest as nat) by (nonlinear_arith)
                    requires
                        rest as nat == (trial_factor as nat) * rq,
                        trial_factor >= 2,
                        rq >= 1,
                ;
            }
            rest = rest / trial_factor;
            exponent = exponent + 1;
        }
        proof {
            lemma_mod_zero_is_divides(trial_factor as nat, rest as nat);
        }
        if exponent != 0 {
            proof {
                // the candidate divides what the iteration started from
                let p1 = pow_nat(trial_factor as nat, (exponent - 1) as nat);
                assert(pow_nat(trial_factor as nat, exponent as nat) == (trial_factor as nat)
                    * p1);
                assert(rest0 as nat == (trial_factor as nat) * (p1 * (rest as nat)))
                    by (nonlinear_arith)
                    requires
                        ((trial_factor as nat) * p1) * (rest as nat) == rest0 as nat,
                ;
                assert(divides(trial_factor as nat, rest0 as nat));
                // and is prime: any proper divisor of it would divide that
                // value too, which the invariant rules out
                assert forall|d: nat| 1 < d < trial_factor as nat implies !(#[trigger] divides(
                    d,
                    trial_factor as nat,
                )) by {
                    if divides(d, trial_factor as nat) {
                        lemma_divides_transitive(d, trial_factor as nat, rest0 as nat);
                    }
                }
                assert(is_prime(trial_factor as nat));
                lemma_entries_product_push(fact0, trial_factor, exponent);
            }
            factorization.push_entry(trial_factor, exponent);
            proof {
                let t = fact0.push((trial_factor, exponent));
                assert forall|i: int| 0 <= i < t.len() implies is_prime(
                    (#[trigger] t[i]).0 as nat,
                ) && t[i].1 >= 1 by {
                    if i < fact0.len() {
                        assert(t[i] == fact0[i]);
                        assert(is_prime(fact0[i].0 as nat) && fact0[i].1 >= 1);
                    }
                }
                assert forall|i: int, j: int| 0 <= i < j < t.len() implies (#[trigger] t[i]).0
                    < (#[trigger] t[j]).0 by {
                    if j < fact0.len() {
                        assert(fact0[i].0 < fact0[j].0);
                    } else {
                        assert(t[j].0 == trial_factor);
                        if i < fact0.len() - 1 {
                            assert(fact0[i].0 < fact0[fact0.len() - 1].0);
                        }
                    }
                }
                assert(entries_product(t) * (rest as nat) == n as nat) by (nonlinear_arith)
                    requires
                        entries_product(t) == entries_product(fact0) * pow_nat(
                            trial_factor as nat,
                            exponent as nat,
                        ),
                        pow_nat(trial_factor as nat, exponent as nat) * (rest as nat)
                            == rest0 as nat,
                        entries_product(fact0) * (rest0 as nat) == n as nat,
                ;
            }
        }
        let ghost tf_old = trial_factor;
        if trial_factor == 2 {
            trial_factor = 3;
        } else {
            trial_factor += 2;
        }
        proof {
            assert forall|d: nat| 2 <= d < trial_factor implies !(#[trigger] divides(
                d,
                rest as nat,
            )) by {
                if divides(d, rest as nat) {
                    if d < tf_old as nat {
                        lemma_divides_transitive(d, rest as nat, rest0 as nat);
                    } else if d == tf_old as nat {
                        // the inner loop ran until the candidate stopped dividing
                    } else {
                        // d is even: two divides it, and two divides nothing here
                        assert(d % 2 == 0);
                        lemma_mod_zero_is_divides(2, d);
                        lemma_divides_transitive(2, d, rest as nat);
                        lemma_divides_transitive(2, rest as nat, rest0 as nat);
                        assert(!divides(2, rest0 as nat));
                    }
                }
            }
            if exponent != 0 {
                assert(factorization@ == fact0.push((tf_old, exponent)));
                assert(entries_product(factorization@) * (rest as nat) == n as nat);
            } else {
                assert(factorization@ == fact0);
                assert(pow_nat(tf_old as nat, exponent as nat) * (rest as nat) == rest0 as nat);
                assert(pow_nat(tf_old as nat, exponent as nat) == 1);
                assert((rest as nat) * 1 == rest as nat);
                assert(rest as nat == rest0 as nat) by (nonlinear_arith)
                    requires
                        pow_nat(tf_old as nat, exponent as nat) * (rest as nat) == rest0 as nat,
                        pow_nat(tf_old as nat, exponent as nat) == 1,
                ;
                assert(rest == rest0);
                assert(entries_product(factorization@) * (rest as nat) == n as nat);
            }
        }
    }
    proof {
        lemma_fundamental_div_mod(rest as int, trial_factor as int);
    }
    if rest / trial_factor < trial_factor {
        // rest is 1 or prime
        proof {
            assert((rest as nat) < (trial_factor as nat) * (trial_factor as nat))
                by (nonlinear_arith)
                requires
                    rest as int == (trial_factor as int) * ((rest as int) / (trial_factor as int))
                        + (rest as int) % (trial_factor as int),
                    (rest as int) % (trial_factor as int) < (trial_factor as int),
                    (rest as int) / (trial_factor as int) < (trial_factor as int),
                    trial_factor >= 2,
            ;
        }
        if rest > 1 {
            proof {
                lemma_prime_if_no_divisor_below(rest as nat, trial_factor as nat);
                // rest clears the trial bound, so it exceeds every key so far
                if rest < trial_factor {
                    assert(divides(rest as nat, rest as nat)) by {
                        assert(rest as nat == (rest as nat) * 1);
                    }
                }
                assert(rest >= trial_factor);
                lemma_entries_product_push(factorization@, rest, 1);
            }
            let ghost fact0 = factorization@;
            factorization.push_entry(rest, 1);
            proof {
                let t = fact0.push((rest, 1u32));
                assert forall|i: int| 0 <= i < t.len() implies is_prime(
                    (#[trigger] t[i]).0 as nat,
                ) && t[i].1 >= 1 by {
                    if i < fact0.len() {
                        assert(t[i] == fact0[i]);
                        assert(is_prime(fact0[i].0 as nat) && fact0[i].1 >= 1);
                    }
                }
                assert forall|i: int, j: int| 0 <= i < j < t.len() implies (#[trigger] t[i]).0
                    < (#[trigger] t[j]).0 by {
                    if j < fact0.len() {
                        assert(fact0[i].0 < fact0[j].0);
                    } else {
                        assert(t[j].0 == rest);
                        if i < fact0.len() - 1 {
                            assert(fact0[i].0 < fact0[fact0.len() - 1].0);
                        }
                    }
                }
                assert(pow_nat(rest as nat, 0) == 1);
                assert(pow_nat(rest as nat, 1) == rest as nat);
                assert(entries_product(factorization@) == entries_product(fact0) * (rest as nat));
                assert(entries_product(factorization@) == n as nat);
            }
        }
        proof {
            if rest == 1 {
                assert(entries_product(factorization@) == n as nat) by (nonlinear_arith)
                    requires
                        entries_product(factorization@) * (rest as nat) == n as nat,
                        rest == 1,
                ;
            }
            assert(is_factorization(factorization@, n as nat));
        }
        Ok(factorization)
    } else {
        // the remainder holds only factors above the trial bound; split it
        // with Pollard's rho until the oracle says every piece is prime
        proof {
            assert((rest as nat) >= (trial_factor as nat) * (trial_factor as nat))
                by (nonlinear_arith)
                requires
                    rest as int == (trial_factor as int) * ((rest as int) / (trial_factor as int))
                        + (rest as int) % (trial_factor as int),
                    (rest as int) % (trial_factor as int) >= 0,
                    (rest as int) / (trial_factor as int) >= (trial_factor as int),
                    trial_factor >= 2,
            ;
            assert((trial_factor as nat) * (trial_factor as nat) >= 4) by (nonlinear_arith)
                requires
                    trial_factor >= 2,
            ;
        }
        let mut unfactored: Vec<u32> = Vec::new();
        unfactored.push(rest);
        proof {
            assert(unfactored@.drop_last() =~= Seq::<u32>::empty());
            assert(seq_prod(Seq::<u32>::empty()) == 1);
            assert(unfactored@.last() == rest);
            assert(unfactored@.len() == 1);
            assert(seq_prod(unfactored@) == seq_prod(unfactored@.drop_last()) * (
            unfactored@.last() as nat));
            assert(seq_prod(unfactored@.drop_last()) == 1);
            assert(seq_prod(unfactored@) == rest as nat) by (nonlinear_arith)
                requires
                    seq_prod(unfactored@) == seq_prod(unfactored@.drop_last()) * (
                    unfactored@.last() as nat),
                    seq_prod(unfactored@.drop_last()) == 1,
                    unfactored@.last() == rest,
            ;
        }
        while unfactored.len() != 0
            invariant
                n >= 1,
                valid_entries(factorization@),
                sorted_entries(factorization@),
                entries_product(factorization@) * seq_prod(unfactored@) == n as nat,
                forall|i: int| 0 <= i < unfactored@.len() ==> #[trigger] unfactored@[i] >= 2,
            decreases seq_sum(unfactored@) - unfactored@.len(),
        {
            let ghost wl0 = unfactored@;
            let u = unfactored.pop().unwrap();
            let ghost rem = unfactored@;
            proof {
                assert(rem =~= wl0.drop_last());
                assert(u == wl0.last());
                assert(seq_prod(wl0) == seq_prod(rem) * (u as nat));
                assert(seq_sum(wl0) == seq_sum(rem) + u);
                assert forall|i: int| 0 <= i < rem.len() implies #[trigger] rem[i] >= 2 by {
                    assert(rem[i] == wl0[i]);
                }
                lemma_seq_prod_pos(rem);
            }
            if primality_oracle(u as u64) {
                proof {
                    let fp = entries_product(factorization@);
                    assert(fp * (seq_prod(rem) * (u as nat)) == n as nat) by (nonlinear_arith)
                        requires
                            fp * seq_prod(wl0) == n as nat,
                            seq_prod(wl0) == seq_prod(rem) * (u as nat),
                    ;
                    assert(fp <= n as nat) by (nonlinear_arith)
                        requires
                            fp * (seq_prod(rem) * (u as nat)) == n as nat,
                            seq_prod(rem) >= 1,
                            u >= 2,
                            fp >= 0,
                    ;
                }
                let ghost fact0 = factorization@;
                factorization.record_prime(u);
                proof {
                    assert(entries_product(factorization@) * seq_prod(rem) == n as nat)
                        by (nonlinear_arith)
                        requires
                            entries_product(factorization@) == entries_product(fact0) * (
                            u as nat),
                            entries_product(fact0) * (seq_prod(rem) * (u as nat)) == n as nat,
                    ;
                    lemma_seq_sum_lower(rem);
                }
            } else {
                proof {
                    assert(is_composite(u as nat));
                }
                let f = find_large_factor(u);
                let q = u / f;
                proof {
                    lemma_div_exact(f as nat, u as nat);
                    assert(q as nat == (u as nat) / (f as nat));
                    assert(u as nat == (f as nat) * (q as nat));
                    assert(q >= 2) by (nonlinear_arith)
                        requires
                            u as nat == (f as nat) * (q as nat),
                            f < u,
                            f >= 2,
                            q >= 1,
                    ;
                    assert(f + q <= u) by (nonlinear_arith)
                        requires
                            u as nat == (f as nat) * (q as nat),
                            f >= 2,
                            q >= 2,
                    ;
                }
                unfactored.push(f);
                unfactored.push(q);
                proof {
                    let t = rem.push(f).push(q);
                    assert(unfactored@ == t);
                    assert(t.drop_last() =~= rem.push(f));
                    assert(t.last() == q);
                    assert(rem.push(f).drop_last() =~= rem);
                    assert(rem.push(f).last() == f);
                    assert(seq_prod(rem.push(f)) == seq_prod(rem) * (f as nat));
                    assert(seq_sum(rem.push(f)) == seq_sum(rem) + f);
                    assert(seq_prod(t) == (seq_prod(rem) * (f as nat)) * (q as nat));
                    assert(seq_sum(t) == seq_sum(rem) + f + q);
                    let fp = entries_product(factorization@);
                    assert(fp * seq_prod(t) == n as nat) by (nonlinear_arith)
                        requires
                            seq_prod(t) == (seq_prod(rem) * (f as nat)) * (q as nat),
                            u as nat == (f as nat) * (q as nat),
                            fp * (seq_prod(rem) * (u as nat)) == n as nat,
                            fp * seq_prod(wl0) == n as nat,
                            seq_prod(wl0) == seq_prod(rem) * (u as nat),
                    ;
                    assert forall|i: int| 0 <= i < t.len() implies #[trigger] t[i] >= 2 by {
                        if i < rem.len() {
                            assert(t[i] == rem[i]);
                        }
                    }
                    lemma_seq_sum_lower(t);
                }
            }
        }
        proof {
            assert(unfactored@ =~= Seq::<u32>::empty());
            assert(seq_prod(unfactored@) == 1);
            assert(entries_product(factorization@) == n as nat) by (nonlinear_arith)
                requires
                    entries_product(factorization@) * seq_prod(unfactored@) == n as nat,
                    seq_prod(unfactored@) == 1,
            ;
            assert(is_factorization(factorization@, n as nat));
        }
        Ok(factorization)
    }
}

/// Finds the largest prime factor of an integer.
///
/// Fails exactly on the input 0, as [`factor`] does; returns nothing for 1,
/// whose factorization is empty; otherwise returns the greatest key of the
/// factorization of `n`.
pub fn largest_prime_factor(n: u32) -> (r: Result<Option<u32>, FactorError>)
    ensures
        r is Err <==> n == 0,
        n == 1 ==> (r matches Ok(o) && o is None),
        n >= 2 ==> (r matches Ok(o) && o matches Some(p) && is_prime(p as nat) && divides(
            p as nat,
            n as nat,
        ) && forall|q: nat|
            is_prime(q) && #[trigger] divides(q, n as nat) ==> q <= p as nat),
{
    match factor(n) {
        Err(e) => Err(e),
        Ok(f) => {
            proof {
                if n == 1 {
                    if f@.len() > 0 {
                        lemma_entries_product_entry_bound(f@, 0);
                        lemma_pow_nat_monotone_base(2, f@[0].0 as nat, f@[0].1 as nat);
                        assert(pow_nat(f@[0].0 as nat, f@[0].1 as nat) >= 2) by {
                            lemma_pow_nat_pos(f@[0].0 as nat, (f@[0].1 - 1) as nat);
                            assert(pow_nat(f@[0].0 as nat, f@[0].1 as nat) == (f@[0].0 as nat)
                                * pow_nat(f@[0].0 as nat, (f@[0].1 - 1) as nat));
                            assert((f@[0].0 as nat) * pow_nat(f@[0].0 as nat, (f@[0].1 - 1) as nat)
                                >= 2) by (nonlinear_arith)
                                requires
                                    f@[0].0 >= 2,
                                    pow_nat(f@[0].0 as nat, (f@[0].1 - 1) as nat) >= 1,
                            ;
                        }
                        assert(false);
                    }
                }
                if n >= 2 {
                    lemma_largest_key_is_largest_prime_divisor(f@, n as nat);
                }
            }
            Ok(f.largest())
        },
    }
}


} // verus!
