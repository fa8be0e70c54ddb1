use vstd::prelude::*;
use vstd::arithmetic::div_mod::{lemma_fundamental_div_mod, lemma_mod_multiples_vanish};
use vstd::arithmetic::mul::lemma_mul_is_associative;

verus! {

/// `n` is prime: at least 2 and without a divisor strictly between 1 and itself.
pub open spec fn is_prime(n: int) -> bool {
    n >= 2 && forall|d: int| 2 <= d < n ==> #[trigger] (n % d) != 0
}

/// No integer `d` with `2 <= d` and `d * d <= n` divides `n`.
pub open spec fn no_divisor_to_root(n: int) -> bool {
    forall|d: int| 2 <= d && d * d <= n ==> #[trigger] (n % d) != 0
}

/// `b` raised to the power `e`.
pub open spec fn power(b: int, e: nat) -> int
    decreases e,
{
    if e == 0 {
        1
    } else {
        b * power(b, (e - 1) as nat)
    }
}

/// Divisibility is transitive.
pub proof fn lemma_divides_trans(a: int, b: int, c: int)
    requires
        0 < a,
        0 < b,
        b % a == 0,
        c % b == 0,
    ensures
        c % a == 0,
{
    lemma_fundamental_div_mod(b, a);
    lemma_fundamental_div_mod(c, b);
    lemma_mul_is_associative(a, b / a, c / b);
    lemma_mod_multiples_vanish((b / a) * (c / b), 0, a);
}

/// A divisor `m >= 2` of a positive `n` has a prime at most `m` that divides `n`.
pub proof fn lemma_prime_divisor_below(n: int, m: int)
    requires
        0 < n,
        2 <= m,
        n % m == 0,
    ensures
        exists|p: int| is_prime(p) && p <= m && #[trigger] (n % p) == 0,
    decreases m,
{
    if is_prime(m) {
        assert(is_prime(m) && m <= m && n % m == 0);
    } else {
        let e = choose|e: int| 2 <= e < m && #[trigger] (m % e) == 0;
        lemma_divides_trans(e, m, n);
        lemma_prime_divisor_below(n, e);
        let p = choose|p: int| is_prime(p) && p <= e && #[trigger] (n % p) == 0;
        assert(is_prime(p) && p <= m && n % p == 0);
    }
}

/// A proper divisor `d` of `n` comes with a divisor `e >= 2` of `n` with `e * e <= n`.
pub proof fn lemma_divisor_to_root(n: int, d: int)
    requires
        2 <= d < n,
        n % d == 0,
    ensures
        exists|e: int| 2 <= e && e * e <= n && #[trigger] (n % e) == 0,
{
    lemma_fundamental_div_mod(n, d);
    let q = n / d;
    assert(n == d * q);
    assert(q >= 2) by (nonlinear_arith)
        requires
            n == d * q,
            2 <= d < n,
    ;
    if d <= q {
        assert(d * d <= n) by (nonlinear_arith)
            requires
                n == d * q,
                2 <= d <= q,
        ;
        assert(2 <= d && d * d <= n && n % d == 0);
    } else {
        assert(q * q <= n) by (nonlinear_arith)
            requires
                n == d * q,
                2 <= q < d,
        ;
        lemma_mod_multiples_vanish(d, 0, q);
        assert(q * d == n) by (nonlinear_arith)
            requires
                n == d * q,
        ;
        assert(2 <= q && q * q <= n && n % q == 0);
    }
}

/// A number `n >= 2` that is not prime has a prime divisor `p` with `p * p <= n`.
pub proof fn lemma_composite_prime_divisor(n: int)
    requires
        n >= 2,
        !is_prime(n),
    ensures
        exists|p: int| is_prime(p) && p * p <= n && #[trigger] (n % p) == 0,
{
    let d = choose|d: int| 2 <= d < n && #[trigger] (n % d) == 0;
    lemma_divisor_to_root(n, d);
    let e = choose|e: int| 2 <= e && e * e <= n && #[trigger] (n % e) == 0;
    lemma_prime_divisor_below(n, e);
    let p = choose|p: int| is_prime(p) && p <= e && #[trigger] (n % p) == 0;
    assert(p * p <= e * e) by (nonlinear_arith)
        requires
            2 <= p <= e,
    ;
    assert(is_prime(p) && p * p <= n && n % p == 0);
}

/// Trial division up to the square root decides primality: for `n >= 2`, `n` is prime
/// exactly when no `d` in `[2, sqrt(n)]` divides it.
pub proof fn lemma_prime_iff_no_divisor_to_root(n: int)
    requires
        n >= 2,
    ensures
        is_prime(n) <==> no_divisor_to_root(n),
{
    if is_prime(n) {
        assert forall|d: int| 2 <= d && d * d <= n implies #[trigger] (n % d) != 0 by {
            assert(d < n) by (nonlinear_arith)
                requires
                    2 <= d,
                    d * d <= n,
            ;
        }
    } else {
        lemma_composite_prime_divisor(n);
    }
}

/// The primes at most `n`, in ascending order.
pub open spec fn primes_through(n: int) -> Seq<int>
    decreases n,
{
    if n < 2 {
        Seq::empty()
    } else if is_prime(n) {
        primes_through(n - 1).push(n)
    } else {
        primes_through(n - 1)
    }
}

/// The sequence is strictly ascending.
pub open spec fn strictly_ascending(s: Seq<int>) -> bool {
    forall|i: int, j: int| 0 <= i < j < s.len() ==> #[trigger] s[i] < #[trigger] s[j]
}

/// `primes_through(n)` is ascending, holds only primes at most `n`, and holds each of them.
pub proof fn lemma_primes_through(n: int)
    ensures
        strictly_ascending(primes_through(n)),
        forall|i: int|
            0 <= i < primes_through(n).len() ==> is_prime(#[trigger] primes_through(n)[i])
                && primes_through(n)[i] <= n,
        forall|p: int| is_prime(p) && p <= n ==> #[trigger] primes_through(n).contains(p),
    decreases n,
{
    if n >= 2 {
        lemma_primes_through(n - 1);
        let s = primes_through(n - 1);
        assert forall|p: int| is_prime(p) && p <= n implies #[trigger] primes_through(n).contains(p) by {
            if p < n {
                assert(s.contains(p));
                let i = choose|i: int| 0 <= i < s.len() && s[i] == p;
                if is_prime(n) {
                    assert(primes_through(n)[i] == p);
                } else {
                    assert(primes_through(n)[i] == p);
                }
            } else {
                assert(primes_through(n)[s.len() as int] == p);
            }
        }
    }
}

/// For `a <= b`, `primes_through(a)` is a prefix of `primes_through(b)`, and what follows
/// it there exceeds `a`.
pub proof fn lemma_primes_through_prefix(a: int, b: int)
    requires
        a <= b,
    ensures
        primes_through(a).len() <= primes_through(b).len(),
        primes_through(b).subrange(0, primes_through(a).len() as int) == primes_through(a),
        forall|i: int|
            primes_through(a).len() <= i < primes_through(b).len() ==> #[trigger] primes_through(b)[i]
                > a,
    decreases b - a,
{
    if a < b {
        lemma_primes_through_prefix(a, b - 1);
        lemma_primes_through(b - 1);
        let s = primes_through(b - 1);
        let t = primes_through(b);
        let k = primes_through(a).len() as int;
        assert(t.subrange(0, k) =~= s.subrange(0, k));
    } else {
        assert(primes_through(b).subrange(0, primes_through(a).len() as int) =~= primes_through(a));
    }
}

} // verus!
