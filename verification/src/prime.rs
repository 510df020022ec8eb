//! Primality testing by trial division and search for the next prime.
//!
//! The table keeps its capacity prime so that the double-hashing probe
//! sequence visits distinct slots. `Prime::next_prime` rounds a requested
//! base size up to the prime that becomes the physical capacity.

use vstd::arithmetic::div_mod::lemma_fundamental_div_mod;
use vstd::arithmetic::div_mod::lemma_mod_multiples_basic;
use vstd::prelude::*;

verus! {

/// A number is prime when it is at least 2 and no smaller number from 2 up
/// divides it.
pub open spec fn spec_is_prime(n: int) -> bool {
    n >= 2 && forall|d: int| 2 <= d < n ==> #[trigger] (n % d) != 0
}

/// `p` is the least prime at or above `n`.
pub open spec fn is_next_prime_from(n: int, p: int) -> bool {
    &&& n <= p
    &&& spec_is_prime(p)
    &&& forall|q: int| n <= q < p ==> !spec_is_prime(q)
}

/// There is only one least prime at or above `n`.
pub proof fn lemma_next_prime_unique(n: int, p1: int, p2: int)
    requires
        is_next_prime_from(n, p1),
        is_next_prime_from(n, p2),
    ensures
        p1 == p2,
{
    if p1 < p2 {
        assert(!spec_is_prime(p1));
    } else if p2 < p1 {
        assert(!spec_is_prime(p2));
    }
}

/// A candidate integer for primality testing and prime search.
pub struct Prime(pub usize);

/// If `n` has a proper divisor, it has one no larger than the square root.
pub(crate) proof fn lemma_composite_has_small_factor(n: int, d: int)
    requires
        2 <= d < n,
        n % d == 0,
    ensures
        exists|f: int| 2 <= f < n && f * f <= n && (#[trigger] (n % f)) == 0,
{
    let c = n / d;
    lemma_fundamental_div_mod(n, d);
    assert(n == d * c);
    assert(c >= 2) by (nonlinear_arith)
        requires
            n == d * c,
            2 <= d < n,
    ;
    assert(c < n) by (nonlinear_arith)
        requires
            n == d * c,
            2 <= d,
            2 <= c,
    ;
    lemma_mod_multiples_basic(d, c);
    assert((c * d) % c == 0);
    assert(n % c == 0);
    if d * d <= n {
        assert(2 <= d < n && d * d <= n && n % d == 0);
    } else {
        assert(c * c <= n) by (nonlinear_arith)
            requires
                n == d * c,
                d * d > n,
                2 <= d,
                2 <= c,
        ;
        assert(2 <= c < n && c * c <= n && n % c == 0);
    }
}

/// A divisor of an even divisor makes the whole number even.
proof fn lemma_even_factor(n: int, d: int)
    requires
        2 <= d < n,
        d % 2 == 0,
        n % d == 0,
    ensures
        n % 2 == 0,
{
    let c = n / d;
    let h = d / 2;
    lemma_fundamental_div_mod(n, d);
    lemma_fundamental_div_mod(d, 2);
    assert(n == (h * c) * 2) by (nonlinear_arith)
        requires
            n == d * c,
            d == 2 * h,
    ;
    lemma_mod_multiples_basic(h * c, 2);
}

impl Prime {
    /// Trial division: `None` below 2, otherwise whether the number is prime.
    pub fn is_prime(&self) -> (r: Option<bool>)
        ensures
            r is None <==> self.0 < 2,
            r matches Some(b) ==> b == spec_is_prime(self.0 as int),
    {
        let n = self.0;
        if n < 2 {
            return None;
        }
        if n < 4 {
            assert(spec_is_prime(n as int)) by {
                assert forall|d: int| 2 <= d < n implies #[trigger] (n as int % d) != 0 by {
                    assert(d == 2 && n == 3);
                    assert(n as int % d == 1);
                }
            }
            return Some(true);
        }
        if n % 2 == 0 {
            assert(!spec_is_prime(n as int));
            return Some(false);
        }
        let mut i: usize = 3;
        while i <= n / i
            invariant
                n >= 4,
                n % 2 != 0,
                i >= 3,
                i % 2 != 0,
                forall|d: int| 2 <= d < i ==> #[trigger] (n as int % d) != 0,
            decreases n - i,
        {
            proof {
                lemma_fundamental_div_mod(n as int, i as int);
                assert(i as int * i as int <= n as int) by (nonlinear_arith)
                    requires
                        i as int <= n as int / i as int,
                        i >= 3,
                        n as int == i as int * (n as int / i as int) + n as int % i as int,
                        n as int % i as int >= 0,
                ;
                assert(i as int + 2 < n as int) by (nonlinear_arith)
                    requires
                        i >= 3,
                        i as int * i as int <= n as int,
                ;
            }
            if n % i == 0 {
                assert(!spec_is_prime(n as int));
                return Some(false);
            }
            assert(n as int % ((i + 1) as int) != 0) by {
                if n as int % ((i + 1) as int) == 0 {
                    lemma_even_factor(n as int, (i + 1) as int);
                }
            }
            i = i + 2;
        }
        proof {
            lemma_fundamental_div_mod(n as int, i as int);
            assert(i as int * i as int > n as int) by (nonlinear_arith)
                requires
                    i as int > n as int / i as int,
                    i >= 3,
                    n as int == i as int * (n as int / i as int) + n as int % i as int,
                    0 <= n as int % i as int,
                    (n as int % i as int) < (i as int),
            ;
        }
        assert(spec_is_prime(n as int)) by {
            if !spec_is_prime(n as int) {
                let d = choose|d: int| 2 <= d < n && #[trigger] (n as int % d) == 0;
                lemma_composite_has_small_factor(n as int, d);
                let f = choose|f: int|
                    2 <= f < n && f * f <= n && (#[trigger] (n as int % f)) == 0;
                assert(f < i) by (nonlinear_arith)
                    requires
                        f * f <= n as int,
                        i as int * i as int > n as int,
                        f >= 2,
                        i >= 3,
                ;
            }
        }
        Some(true)
    }

    /// Advance the candidate upward until it is prime, and return it.
    ///
    /// There is always a prime between any starting point and `usize::MAX`
    /// in practice, but no such bound is provable here, so the exactness of
    /// the result is stated under that premise; the search itself never
    /// wraps, falling back to the prime 2 in the (unreachable) case that it
    /// runs off the end of the machine's integers.
    pub fn next_prime(&mut self) -> (r: usize)
        ensures
            spec_is_prime(r as int),
            final(self).0 == r,
            (exists|p: int|
                old(self).0 <= p <= usize::MAX && spec_is_prime(p)) ==> is_next_prime_from(
                old(self).0 as int,
                r as int,
            ),
    {
        let start: usize = self.0;
        let mut c: usize = if start < 2 {
            2
        } else {
            start
        };
        while !trial_prime(c)
            invariant
                c >= 2,
                c >= start,
                forall|q: int| start <= q < c ==> !spec_is_prime(q),
            decreases usize::MAX - c,
        {
            if c == usize::MAX {
                // No prime in the whole range: impossible on real machines,
                // but not provable, so settle on the prime 2.
                assert(forall|q: int| start <= q < usize::MAX ==> !spec_is_prime(q));
                assert(!spec_is_prime(usize::MAX as int));
                assert(spec_is_prime(2)) by {
                    assert(forall|d: int| 2 <= d < 2 ==> #[trigger] (2int % d) != 0);
                }
                self.0 = 2;
                return 2;
            }
            c = c + 1;
        }
        self.0 = c;
        c
    }
}

/// Whether the candidate is prime; a plain boolean for use in a search loop.
fn trial_prime(c: usize) -> (b: bool)
    requires
        c >= 2,
    ensures
        b == spec_is_prime(c as int),
{
    let p = Prime(c);
    match p.is_prime() {
        Some(true) => true,
        _ => false,
    }
}

} // verus!
