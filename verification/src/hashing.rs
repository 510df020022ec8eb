//! The string hash and the double-hashing probe sequence.
//!
//! A key is hashed as a polynomial in a fixed prime over its character code
//! points, reduced modulo the table capacity after every step so the
//! accumulator stays below the modulus. Two such hashes with distinct primes
//! combine into the probe sequence: attempt `a` lands on
//! `(hash_a + a * (hash_b + 1)) mod capacity`.

use crate::prime::spec_is_prime;
use vstd::arithmetic::div_mod::lemma_fundamental_div_mod;
use vstd::arithmetic::div_mod::lemma_mod_bound;
use vstd::arithmetic::div_mod::lemma_mod_multiples_basic;
use vstd::arithmetic::div_mod::lemma_small_mod;
use vstd::prelude::*;
use vstd::relations::injective_on;
use vstd::set_lib::lemma_int_range;
use vstd::set_lib::lemma_len_subset;
use vstd::set_lib::lemma_map_size;
use vstd::set_lib::set_int_range;

verus! {

/// First parameterizing prime of the string hash.
pub const PRIME_1: u128 = 5003;

/// Second parameterizing prime, for the probe step hash.
pub const PRIME_2: u128 = 5281;

/// The value of the polynomial `sum(prime^(len-1-i) * code_point(i))` over
/// the characters of `s`, before any modular reduction.
pub open spec fn poly(s: Seq<char>, prime: int) -> int
    decreases s.len(),
{
    if s.len() == 0 {
        0
    } else {
        poly(s.drop_last(), prime) * prime + s.last() as int
    }
}

/// The polynomial hash of `s` with parameter `prime`, reduced modulo `m`.
pub open spec fn poly_hash(s: Seq<char>, prime: int, m: int) -> int {
    poly(s, prime) % m
}

/// The slot index probed on the given attempt for a key, in a table of the
/// given capacity: double hashing with step `hash_b + 1`.
pub open spec fn spec_probe(s: Seq<char>, cap: int, attempt: int) -> int {
    (poly_hash(s, PRIME_1 as int, cap) + attempt * (poly_hash(s, PRIME_2 as int, cap) + 1)) % cap
}

/// The probe step for a key is nonzero modulo the capacity. This fails only
/// when `hash_b + 1 == capacity`, the one boundary at which double hashing
/// degenerates to re-probing a single slot.
pub open spec fn step_nonzero(s: Seq<char>, cap: int) -> bool {
    (poly_hash(s, PRIME_2 as int, cap) + 1) % cap != 0
}

/// A product of two factors, each nonzero and below a prime, is nonzero
/// modulo that prime (Euclid's lemma, by descent on the first factor).
proof fn lemma_prime_mul_mod_nonzero(p: int, d: int, s: int)
    requires
        spec_is_prime(p),
        0 < d < p,
        0 < s < p,
    ensures
        (d * s) % p != 0,
    decreases d,
{
    if d == 1 {
        lemma_small_mod(s as nat, p as nat);
        assert((1 * s) % p == s);
    } else {
        if (d * s) % p == 0 {
            let q = p / d;
            let r = p % d;
            lemma_mod_bound(p, d);
            lemma_fundamental_div_mod(p, d);
            assert(p == d * q + r);
            assert(r != 0) by {
                if r == 0 {
                    // d would divide p, contradicting primality
                    assert(p % d == 0);
                    assert(2 <= d < p);
                    assert(!spec_is_prime(p));
                }
            }
            let k = (d * s) / p;
            lemma_fundamental_div_mod(d * s, p);
            assert(d * s == p * k);
            assert(r * s == (s - q * k) * p) by (nonlinear_arith)
                requires
                    p == d * q + r,
                    d * s == p * k,
            ;
            lemma_mod_multiples_basic(s - q * k, p);
            assert((r * s) % p == 0);
            lemma_prime_mul_mod_nonzero(p, r, s);
            assert(false);
        }
    }
}

/// Two mod-`m` residues that agree make their difference a multiple of `m`.
proof fn lemma_eq_mod_diff(x: int, y: int, m: int)
    requires
        m > 0,
        x % m == y % m,
        y >= x,
    ensures
        (y - x) % m == 0,
{
    lemma_fundamental_div_mod(x, m);
    lemma_fundamental_div_mod(y, m);
    assert(y - x == (y / m - x / m) * m) by (nonlinear_arith)
        requires
            x == m * (x / m) + x % m,
            y == m * (y / m) + y % m,
            x % m == y % m,
    ;
    lemma_mod_multiples_basic(y / m - x / m, m);
}

/// Probe coverage: with a prime capacity and a nondegenerate probe step,
/// distinct attempts below the capacity land on distinct slot indices, so
/// the first `capacity` attempts visit every slot exactly once.
pub proof fn lemma_probe_injective(s: Seq<char>, cap: int, a1: int, a2: int)
    requires
        spec_is_prime(cap),
        step_nonzero(s, cap),
        0 <= a1 < a2 < cap,
    ensures
        spec_probe(s, cap, a1) != spec_probe(s, cap, a2),
{
    let h = poly_hash(s, PRIME_1 as int, cap);
    let st = poly_hash(s, PRIME_2 as int, cap) + 1;
    lemma_mod_bound(poly(s, PRIME_2 as int), cap);
    assert(1 <= st <= cap);
    assert(st < cap) by {
        if st == cap {
            lemma_mod_multiples_basic(1, cap);
            assert((1 * cap) % cap == 0);
            assert(st % cap == 0);
        }
    }
    if spec_probe(s, cap, a1) == spec_probe(s, cap, a2) {
        let d = a2 - a1;
        assert(h + a1 * st <= h + a2 * st && (h + a2 * st) - (h + a1 * st) == d * st)
            by (nonlinear_arith)
            requires
                0 <= a1 < a2,
                st >= 1,
                d == a2 - a1,
        ;
        lemma_eq_mod_diff(h + a1 * st, h + a2 * st, cap);
        assert((d * st) % cap == 0);
        lemma_prime_mul_mod_nonzero(cap, d, st);
        assert(false);
    }
}

/// Probe coverage, the other way round: with a prime capacity and a
/// nondegenerate step, every slot index is hit by some attempt below the
/// capacity, by pigeonhole from the injectivity of the probe function.
pub proof fn lemma_probe_covers(s: Seq<char>, cap: int, i: int)
    requires
        spec_is_prime(cap),
        step_nonzero(s, cap),
        0 <= i < cap,
    ensures
        exists|a: int| 0 <= a < cap && spec_probe(s, cap, a) == i,
{
    if !(exists|a: int| 0 <= a < cap && spec_probe(s, cap, a) == i) {
        let dom = set_int_range(0, cap);
        let f = |a: int| spec_probe(s, cap, a);
        let img = dom.map(f);
        lemma_int_range(0, cap);
        assert(injective_on(f, dom)) by {
            assert forall|a1: int, a2: int|
                #![trigger f(a1), f(a2)]
                dom.contains(a1) && dom.contains(a2) && f(a1) == f(a2) implies a1 == a2 by {
                if a1 < a2 {
                    lemma_probe_injective(s, cap, a1, a2);
                } else if a2 < a1 {
                    lemma_probe_injective(s, cap, a2, a1);
                }
            }
        }
        lemma_map_size(dom, img, f);
        let target = set_int_range(0, cap).remove(i);
        assert(img.subset_of(target)) by {
            assert forall|x: int| img.contains(x) implies target.contains(x) by {
                let a = choose|a: int| dom.contains(a) && f(a) == x;
                lemma_mod_bound(
                    poly_hash(s, PRIME_1 as int, cap) + a * (poly_hash(s, PRIME_2 as int, cap)
                        + 1),
                    cap,
                );
                assert(0 <= x < cap && x != i);
            }
        }
        lemma_len_subset(img, target);
        assert(target.len() == cap - 1) by {
            assert(set_int_range(0, cap).contains(i));
        }
        assert(false);
    }
}

} // verus!
