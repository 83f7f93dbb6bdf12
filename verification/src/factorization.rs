//! The factorization map: an ordered mapping from prime factor to
//! multiplicity, kept as a vector of entries sorted by key.

use vstd::prelude::*;
use crate::arith::{divides, is_prime, lemma_divides_transitive, lemma_divides_bounds, lemma_euclid};

verus! {

/// `b` raised to `e`, over the naturals.
pub open spec fn pow_nat(b: nat, e: nat) -> nat
    decreases e,
{
    if e == 0 {
        1
    } else {
        b * pow_nat(b, (e - 1) as nat)
    }
}

/// The product of `key^value` over a sequence of entries.
pub open spec fn entries_product(s: Seq<(u32, u32)>) -> nat
    decreases s.len(),
{
    if s.len() == 0 {
        1
    } else {
        entries_product(s.drop_last()) * pow_nat(s.last().0 as nat, s.last().1 as nat)
    }
}

/// Every entry pairs a prime key with a positive multiplicity.
pub open spec fn valid_entries(s: Seq<(u32, u32)>) -> bool {
    forall|i: int| 0 <= i < s.len() ==> is_prime((#[trigger] s[i]).0 as nat) && s[i].1 >= 1
}

/// Keys are strictly increasing.
pub open spec fn sorted_entries(s: Seq<(u32, u32)>) -> bool {
    forall|i: int, j: int| 0 <= i < j < s.len() ==> (#[trigger] s[i]).0 < (#[trigger] s[j]).0
}

/// A sequence of entries is the prime factorization of `n`: prime keys,
/// positive multiplicities, strictly increasing keys, and the product of
/// `key^value` over all entries equal to `n`.
pub open spec fn is_factorization(s: Seq<(u32, u32)>, n: nat) -> bool {
    valid_entries(s) && sorted_entries(s) && entries_product(s) == n
}

/// A positive base gives a positive power.
pub proof fn lemma_pow_nat_pos(b: nat, e: nat)
    requires
        b >= 1,
    ensures
        pow_nat(b, e) >= 1,
    decreases e,
{
    if e > 0 {
        lemma_pow_nat_pos(b, (e - 1) as nat);
        assert(pow_nat(b, e) == b * pow_nat(b, (e - 1) as nat));
        assert(b * pow_nat(b, (e - 1) as nat) >= 1) by (nonlinear_arith)
            requires
                b >= 1,
                pow_nat(b, (e - 1) as nat) >= 1,
        ;
    }
}

/// Powers are monotone in the base.
pub proof fn lemma_pow_nat_monotone_base(a: nat, b: nat, e: nat)
    requires
        1 <= a <= b,
    ensures
        pow_nat(a, e) <= pow_nat(b, e),
    decreases e,
{
    if e > 0 {
        lemma_pow_nat_monotone_base(a, b, (e - 1) as nat);
        lemma_pow_nat_pos(a, (e - 1) as nat);
        assert(a * pow_nat(a, (e - 1) as nat) <= b * pow_nat(b, (e - 1) as nat))
            by (nonlinear_arith)
            requires
                1 <= a <= b,
                1 <= pow_nat(a, (e - 1) as nat) <= pow_nat(b, (e - 1) as nat),
        ;
    }
}

/// A power of two strictly exceeds its exponent.
pub proof fn lemma_pow_nat_two_exceeds(e: nat)
    ensures
        pow_nat(2, e) > e,
    decreases e,
{
    if e > 0 {
        lemma_pow_nat_two_exceeds((e - 1) as nat);
    }
}

/// A prime raised to a positive power is divisible by that prime.
pub proof fn lemma_base_divides_pow(b: nat, e: nat)
    requires
        e >= 1,
    ensures
        divides(b, pow_nat(b, e)),
{
    assert(pow_nat(b, e) == b * pow_nat(b, (e - 1) as nat));
}

/// The product of entries with positive keys is positive.
pub proof fn lemma_entries_product_pos(s: Seq<(u32, u32)>)
    requires
        forall|i: int| 0 <= i < s.len() ==> (#[trigger] s[i]).0 >= 1,
    ensures
        entries_product(s) >= 1,
    decreases s.len(),
{
    if s.len() > 0 {
        lemma_entries_product_pos(s.drop_last());
        lemma_pow_nat_pos(s.last().0 as nat, s.last().1 as nat);
        assert(entries_product(s.drop_last()) * pow_nat(s.last().0 as nat, s.last().1 as nat)
            >= 1) by (nonlinear_arith)
            requires
                entries_product(s.drop_last()) >= 1,
                pow_nat(s.last().0 as nat, s.last().1 as nat) >= 1,
        ;
    }
}

/// Appending an entry multiplies the product by that entry's power.
pub proof fn lemma_entries_product_push(s: Seq<(u32, u32)>, p: u32, e: u32)
    ensures
        entries_product(s.push((p, e))) == entries_product(s) * pow_nat(p as nat, e as nat),
{
    assert(s.push((p, e)).drop_last() =~= s);
    assert(s.push((p, e)).last() == (p, e));
}

/// Inserting an entry multiplies the product by that entry's power.
pub proof fn lemma_entries_product_insert(s: Seq<(u32, u32)>, i: int, p: u32, e: u32)
    requires
        0 <= i <= s.len(),
    ensures
        entries_product(s.insert(i, (p, e))) == entries_product(s) * pow_nat(
            p as nat,
            e as nat,
        ),
    decreases s.len(),
{
    if i == s.len() {
        assert(s.insert(i, (p, e)) =~= s.push((p, e)));
        lemma_entries_product_push(s, p, e);
    } else {
        let t = s.insert(i, (p, e));
        assert(t.drop_last() =~= s.drop_last().insert(i, (p, e)));
        assert(t.last() == s.last());
        lemma_entries_product_insert(s.drop_last(), i, p, e);
        let q = pow_nat(s.last().0 as nat, s.last().1 as nat);
        let w = pow_nat(p as nat, e as nat);
        assert((entries_product(s.drop_last()) * w) * q == (entries_product(s.drop_last()) * q)
            * w) by (nonlinear_arith);
    }
}

/// Raising one entry's multiplicity by one multiplies the product by its key.
pub proof fn lemma_entries_product_bump(s: Seq<(u32, u32)>, i: int)
    requires
        0 <= i < s.len(),
        s[i].1 < u32::MAX,
    ensures
        entries_product(s.update(i, (s[i].0, (s[i].1 + 1) as u32))) == entries_product(s) * (
        s[i].0 as nat),
    decreases s.len(),
{
    let t = s.update(i, (s[i].0, (s[i].1 + 1) as u32));
    let p = s[i].0 as nat;
    let e = s[i].1 as nat;
    if i == s.len() - 1 {
        assert(t.drop_last() =~= s.drop_last());
        assert(pow_nat(p, e + 1) == p * pow_nat(p, e));
        assert(entries_product(s.drop_last()) * (p * pow_nat(p, e)) == (entries_product(
            s.drop_last(),
        ) * pow_nat(p, e)) * p) by (nonlinear_arith);
    } else {
        assert(t.drop_last() =~= s.drop_last().update(i, (s[i].0, (s[i].1 + 1) as u32)));
        assert(t.last() == s.last());
        lemma_entries_product_bump(s.drop_last(), i);
        let q = pow_nat(s.last().0 as nat, s.last().1 as nat);
        assert((entries_product(s.drop_last()) * p) * q == (entries_product(s.drop_last()) * q)
            * p) by (nonlinear_arith);
    }
}

/// The product is at least the power contributed by any single entry.
pub proof fn lemma_entries_product_entry_bound(s: Seq<(u32, u32)>, i: int)
    requires
        0 <= i < s.len(),
        forall|j: int| 0 <= j < s.len() ==> (#[trigger] s[j]).0 >= 1,
    ensures
        entries_product(s) >= pow_nat(s[i].0 as nat, s[i].1 as nat),
    decreases s.len(),
{
    let q = pow_nat(s.last().0 as nat, s.last().1 as nat);
    lemma_pow_nat_pos(s.last().0 as nat, s.last().1 as nat);
    lemma_entries_product_pos(s.drop_last());
    if i == s.len() - 1 {
        assert(entries_product(s.drop_last()) * q >= q) by (nonlinear_arith)
            requires
                entries_product(s.drop_last()) >= 1,
                q >= 0,
        ;
    } else {
        lemma_entries_product_entry_bound(s.drop_last(), i);
        assert(entries_product(s.drop_last()) * q >= entries_product(s.drop_last()))
            by (nonlinear_arith)
            requires
                q >= 1,
                entries_product(s.drop_last()) >= 1,
        ;
    }
}

/// Every key of an entry with positive multiplicity divides the product.
pub proof fn lemma_key_divides_product(s: Seq<(u32, u32)>, i: int)
    requires
        0 <= i < s.len(),
        s[i].1 >= 1,
    ensures
        divides(s[i].0 as nat, entries_product(s)),
    decreases s.len(),
{
    let p = s[i].0 as nat;
    let q = pow_nat(s.last().0 as nat, s.last().1 as nat);
    let r = entries_product(s.drop_last());
    if i == s.len() - 1 {
        lemma_base_divides_pow(p, s[i].1 as nat);
        assert(divides(q, entries_product(s))) by {
            assert(entries_product(s) == q * r) by (nonlinear_arith)
                requires
                    entries_product(s) == r * q,
            ;
        }
        lemma_divides_transitive(p, q, entries_product(s));
    } else {
        lemma_key_divides_product(s.drop_last(), i);
        assert(divides(r, entries_product(s))) by {
            assert(entries_product(s) == r * q);
        }
        lemma_divides_transitive(p, r, entries_product(s));
    }
}

/// A prime dividing a power of a prime is that prime.
pub proof fn lemma_prime_divides_pow(q: nat, p: nat, e: nat)
    requires
        is_prime(q),
        is_prime(p),
        divides(q, pow_nat(p, e)),
    ensures
        q == p,
    decreases e,
{
    if e == 0 {
        lemma_divides_bounds(q, 1);
        assert(false);
    } else {
        assert(pow_nat(p, e) == p * pow_nat(p, (e - 1) as nat));
        lemma_euclid(q, p, pow_nat(p, (e - 1) as nat));
        if divides(q, p) {
            lemma_divides_bounds(q, p);
            if q < p {
                assert(!divides(q, p));
            }
        } else {
            lemma_prime_divides_pow(q, p, (e - 1) as nat);
        }
    }
}

/// Every prime divisor of the product appears among the keys: the
/// factorization is complete.
pub proof fn lemma_prime_divisor_is_key(s: Seq<(u32, u32)>, q: nat)
    requires
        valid_entries(s),
        is_prime(q),
        divides(q, entries_product(s)),
    ensures
        exists|i: int| 0 <= i < s.len() && (#[trigger] s[i]).0 as nat == q,
    decreases s.len(),
{
    if s.len() == 0 {
        lemma_divides_bounds(q, 1);
        assert(false);
    } else {
        let w = pow_nat(s.last().0 as nat, s.last().1 as nat);
        lemma_euclid(q, entries_product(s.drop_last()), w);
        if divides(q, w) {
            assert(is_prime(s[s.len() - 1].0 as nat));
            lemma_prime_divides_pow(q, s.last().0 as nat, s.last().1 as nat);
            assert((s[s.len() - 1]).0 as nat == q);
        } else {
            assert forall|i: int| 0 <= i < s.drop_last().len() implies is_prime(
                (#[trigger] s.drop_last()[i]).0 as nat,
            ) && s.drop_last()[i].1 >= 1 by {
                assert(s.drop_last()[i] == s[i]);
                assert(is_prime(s[i].0 as nat) && s[i].1 >= 1);
            }
            lemma_prime_divisor_is_key(s.drop_last(), q);
            let i = choose|i: int| 0 <= i < s.drop_last().len() && (#[trigger] s.drop_last()[
                i]).0 as nat == q;
            assert((s[i]).0 as nat == q);
        }
    }
}

/// The greatest key of a factorization is the greatest prime divisor of the
/// number it factors: every key divides the number, and every prime divisor
/// of the number is a key, so the last key (the keys are increasing) is the
/// largest prime divisor.
pub proof fn lemma_largest_key_is_largest_prime_divisor(s: Seq<(u32, u32)>, n: nat)
    requires
        is_factorization(s, n),
        n >= 2,
    ensures
        s.len() > 0,
        is_prime((s[s.len() - 1]).0 as nat),
        divides((s[s.len() - 1]).0 as nat, n),
        forall|q: nat|
            is_prime(q) && #[trigger] divides(q, n) ==> q <= (s[s.len() - 1]).0 as nat,
{
    assert(s.len() > 0) by {
        if s.len() == 0 {
            assert(entries_product(s) == 1);
        }
    }
    lemma_key_divides_product(s, s.len() - 1);
    assert forall|q: nat| is_prime(q) && #[trigger] divides(q, n) implies q <= (s[s.len()
        - 1]).0 as nat by {
        lemma_prime_divisor_is_key(s, q);
        let i = choose|i: int| 0 <= i < s.len() && (#[trigger] s[i]).0 as nat == q;
        if i < s.len() - 1 {
            assert(s[i].0 < s[s.len() - 1].0);
        }
    }
}

/// An ordered mapping from prime factor to multiplicity.
///
/// The entries are held sorted by key; [`is_factorization`] states what a
/// value of this type returned by [`crate::factor`] means.
#[derive(Debug, Clone, PartialEq, Eq)]
pub struct Factorization {
    entries: Vec<(u32, u32)>,
}

impl View for Factorization {
    type V = Seq<(u32, u32)>;

    closed spec fn view(&self) -> Seq<(u32, u32)> {
        self.entries@
    }
}

impl Factorization {
    /// The empty mapping.
    pub fn new() -> (r: Factorization)
        ensures
            r@ == Seq::<(u32, u32)>::empty(),
    {
        Factorization { entries: Vec::new() }
    }

    /// Appends an entry; the caller keeps the keys increasing.
    pub fn push_entry(&mut self, p: u32, e: u32)
        ensures
            final(self)@ == old(self)@.push((p, e)),
    {
        self.entries.push((p, e));
    }

    /// Records one more occurrence of the prime `p`: raises its
    /// multiplicity if `p` is already a key, inserts it with multiplicity 1
    /// otherwise. The product bound keeps the multiplicity from overflowing.
    pub fn record_prime(&mut self, p: u32)
        requires
            valid_entries(old(self)@),
            sorted_entries(old(self)@),
            is_prime(p as nat),
            entries_product(old(self)@) <= u32::MAX as nat,
        ensures
            valid_entries(final(self)@),
            sorted_entries(final(self)@),
            entries_product(final(self)@) == entries_product(old(self)@) * (p as nat),
    {
        let ghost s = self.entries@;
        let mut i: usize = 0;
        while i < self.entries.len() && self.entries[i].0 < p
            invariant
                0 <= i <= self.entries.len(),
                self.entries@ == s,
                forall|j: int| 0 <= j < i ==> (#[trigger] s[j]).0 < p,
            decreases self.entries.len() - i,
        {
            i += 1;
        }
        if i < self.entries.len() && self.entries[i].0 == p {
            let e = self.entries[i].1;
            proof {
                lemma_entries_product_entry_bound(s, i as int);
                lemma_pow_nat_monotone_base(2, p as nat, e as nat);
                lemma_pow_nat_two_exceeds(e as nat);
                lemma_entries_product_bump(s, i as int);
            }
            self.entries[i] = (p, e + 1);
            proof {
                let t = s.update(i as int, (p, (e + 1) as u32));
                assert(self.entries@ =~= t);
                assert forall|j: int| 0 <= j < t.len() implies is_prime(
                    (#[trigger] t[j]).0 as nat,
                ) && t[j].1 >= 1 by {
                    assert(is_prime(s[j].0 as nat) && s[j].1 >= 1);
                }
                assert forall|j: int, k: int| 0 <= j < k < t.len() implies (#[trigger] t[j]).0
                    < (#[trigger] t[k]).0 by {
                    assert(s[j].0 < s[k].0);
                }
                assert(entries_product(self.entries@) == entries_product(s) * (p as nat));
            }
        } else {
            proof {
                lemma_entries_product_insert(s, i as int, p, 1);
                assert(pow_nat(p as nat, 0) == 1);
                assert(pow_nat(p as nat, 1) == p * pow_nat(p as nat, 0));
            }
            self.entries.insert(i, (p, 1));
            proof {
                let t = s.insert(i as int, (p, 1u32));
                assert(self.entries@ == t);
                assert forall|j: int| 0 <= j < t.len() implies is_prime(
                    (#[trigger] t[j]).0 as nat,
                ) && t[j].1 >= 1 by {
                    if j < i {
                        assert(t[j] == s[j]);
                        assert(is_prime(s[j].0 as nat) && s[j].1 >= 1);
                    } else if j > i {
                        assert(t[j] == s[j - 1]);
                        assert(is_prime(s[j - 1].0 as nat) && s[j - 1].1 >= 1);
                    }
                }
                assert forall|j: int, k: int| 0 <= j < k < t.len() implies (#[trigger] t[j]).0
                    < (#[trigger] t[k]).0 by {
                    // entries before the insertion point stay below p, the one
                    // at it (when there is one) and all later ones lie above
                    if i < s.len() {
                        assert(s[i as int].0 > p);
                        assert(forall|m: int| i < m < s.len() ==> (#[trigger] s[m]).0 > s[
                            i as int].0);
                    }
                    if j < i {
                        assert(t[j] == s[j]);
                    }
                    if k > i {
                        assert(t[k] == s[k - 1]);
                    }
                }
                assert(entries_product(self.entries@) == entries_product(s) * (p as nat));
            }
        }
    }

    /// The greatest key, or nothing when the mapping is empty.
    pub fn largest(&self) -> (r: Option<u32>)
        ensures
            r == if self@.len() == 0 {
                Option::<u32>::None
            } else {
                Option::Some(self@.last().0)
            },
    {
        if self.entries.len() == 0 {
            None
        } else {
            Some(self.entries[self.entries.len() - 1].0)
        }
    }

    /// The entries, in increasing key order, as plain pairs.
    pub fn entries(&self) -> (r: Vec<(u32, u32)>)
        ensures
            r@ == self@,
    {
        let mut r: Vec<(u32, u32)> = Vec::new();
        let mut i: usize = 0;
        while i < self.entries.len()
            invariant
                0 <= i <= self.entries.len(),
                r@ == self.entries@.subrange(0, i as int),
            decreases self.entries.len() - i,
        {
            r.push(self.entries[i]);
            proof {
                assert(r@ =~= self.entries@.subrange(0, i + 1 as int));
            }
            i += 1;
        }
        proof {
            assert(r@ =~= self.entries@);
        }
        r
    }
}

} // verus!
