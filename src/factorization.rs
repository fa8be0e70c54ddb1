use vstd::prelude::*;
use vstd::arithmetic::div_mod::{lemma_fundamental_div_mod, lemma_mod_multiples_vanish};
use crate::arith::{
    is_prime, no_divisor_to_root, power, primes_through, strictly_ascending, lemma_divides_trans,
    lemma_prime_divisor_below, lemma_prime_iff_no_divisor_to_root, lemma_primes_through,
};
use crate::sieve::{SieveCalculator, as_ints, extended_limit};
use crate::error::{PrimesError, Diagnosable, message_of};

verus! {

/// The trial-division budget of a calculator made by `new`: with it every `u64` is factored.
pub const DEFAULT_MAX_DIVISOR: u64 = 0x1_0000_0000;

/// The largest prime a calculator made by `new` takes from a sieve for trial division.
pub const DEFAULT_THRESHOLD: u64 = 0x1_0000;

/// How far `factorize_with_sieve` extends a sieve: the smallest of the threshold, the sieve's
/// ceiling and the input.
pub open spec fn sieve_bound(threshold: int, ceiling: int, n: int) -> int {
    let a = if threshold > ceiling {
        ceiling
    } else {
        threshold
    };
    if a > n {
        n
    } else {
        a
    }
}

/// The product of `prime^multiplicity` over the pairs.
pub open spec fn factors_product(f: Seq<(u64, u64)>) -> int
    decreases f.len(),
{
    if f.len() == 0 {
        1
    } else {
        factors_product(f.drop_last()) * power(f.last().0 as int, f.last().1 as nat)
    }
}

/// `f` is the prime-power decomposition of `n`: primes strictly ascending, multiplicities at
/// least 1, and the product equal to `n`.
pub open spec fn is_factorization(f: Seq<(u64, u64)>, n: int) -> bool {
    &&& forall|i: int| 0 <= i < f.len() ==> is_prime(#[trigger] f[i].0 as int) && f[i].1 >= 1
    &&& forall|i: int, j: int| 0 <= i < j < f.len() ==> #[trigger] f[i].0 < #[trigger] f[j].0
    &&& factors_product(f) == n
}

/// Appending a pair multiplies the product by its prime power.
proof fn lemma_product_push(f: Seq<(u64, u64)>, x: (u64, u64))
    ensures
        factors_product(f.push(x)) == factors_product(f) * power(x.0 as int, x.1 as nat),
{
    assert(f.push(x).drop_last() =~= f);
}

/// Factors positive integers into prime powers by trial division, within a budget on the
/// largest divisor tried.
pub struct FactorizationCalculator {
    max_divisor: u64,
    threshold: u64,
    failure: Option<PrimesError>,
}

impl FactorizationCalculator {
    /// The largest divisor trial division may reach before giving up.
    pub closed spec fn max_divisor(&self) -> int {
        self.max_divisor as int
    }

    /// How far a sieve is consulted: the largest prime taken from it for trial division.
    pub closed spec fn threshold(&self) -> int {
        self.threshold as int
    }

    /// A calculator with the budget `DEFAULT_MAX_DIVISOR` and the threshold `DEFAULT_THRESHOLD`.
    pub fn new() -> (c: Self)
        ensures
            c.max_divisor() == DEFAULT_MAX_DIVISOR,
            c.threshold() == DEFAULT_THRESHOLD,
            c.failure() is None,
    {
        Self::with_config(DEFAULT_MAX_DIVISOR, DEFAULT_THRESHOLD)
    }

    /// A calculator whose trial division gives up beyond `max_divisor`, and which takes primes
    /// up to `threshold` from a sieve.
    pub fn with_config(max_divisor: u64, threshold: u64) -> (c: Self)
        ensures
            c.max_divisor() == max_divisor,
            c.threshold() == threshold,
            c.failure() is None,
    {
        FactorizationCalculator { max_divisor, threshold, failure: None }
    }

    /// How far a sieve is consulted.
    pub fn sieve_threshold(&self) -> (r: u64)
        ensures
            r == self.threshold(),
    {
        self.threshold
    }

    /// The largest divisor trial division may reach.
    pub fn max_trial_divisor(&self) -> (r: u64)
        ensures
            r == self.max_divisor(),
    {
        self.max_divisor
    }

    /// The prime-power decomposition of `n`, primes ascending; `factorize(1)` is empty.
    /// Fails with `InvalidArgument` for 0, and with `ResourceExhausted` when a divisor beyond
    /// the budget would have to be tried, which cannot happen when `n < (max + 1)^2`.
    pub fn factorize(&mut self, n: u64) -> (r: Result<Vec<(u64, u64)>, PrimesError>)
        ensures
            final(self).max_divisor() == old(self).max_divisor(),
            final(self).threshold() == old(self).threshold(),
            n == 0 <==> r == Err::<Vec<(u64, u64)>, PrimesError>(PrimesError::InvalidArgument),
            n >= 1 && (n as int) < (old(self).max_divisor() + 1) * (old(self).max_divisor() + 1)
                ==> r is Ok,
            r is Ok ==> is_factorization(r->Ok_0@, n as int) && final(self).failure() is None,
            n == 1 ==> r is Ok && r->Ok_0@.len() == 0,
            r is Err ==> final(self).failure() == Some(r->Err_0),
            n >= 1 && r is Err ==> r == Err::<Vec<(u64, u64)>, PrimesError>(
                PrimesError::ResourceExhausted,
            ),
            r == Err::<Vec<(u64, u64)>, PrimesError>(PrimesError::ResourceExhausted) ==> (
            old(self).max_divisor() + 1) * (old(self).max_divisor() + 1) <= n,
    {
        if n == 0 {
            self.failure = Some(PrimesError::InvalidArgument);
            return Err(PrimesError::InvalidArgument);
        }
        self.trial_divide(n, Vec::new(), n, 2)
    }

    /// As `factorize`, but first trial-divides by the primes of `sieve` up to the smallest of
    /// the threshold, the sieve's ceiling and `n`, extending the sieve that far as needed.
    pub fn factorize_with_sieve(&mut self, n: u64, sieve: &mut SieveCalculator) -> (r: Result<
        Vec<(u64, u64)>,
        PrimesError,
    >)
        requires
            old(sieve).wf(),
        ensures
            final(self).max_divisor() == old(self).max_divisor(),
            final(self).threshold() == old(self).threshold(),
            final(sieve).wf(),
            final(sieve).ceiling() == old(sieve).ceiling(),
            old(sieve).limit() <= final(sieve).limit(),
            n >= 1 ==> final(sieve).limit() == extended_limit(
                old(sieve).limit(),
                sieve_bound(old(self).threshold(), old(sieve).ceiling(), n as int),
            ),
            final(sieve).failure() == old(sieve).failure(),
            n == 0 <==> r == Err::<Vec<(u64, u64)>, PrimesError>(PrimesError::InvalidArgument),
            n >= 1 && (n as int) < (old(self).max_divisor() + 1) * (old(self).max_divisor() + 1)
                ==> r is Ok,
            r is Ok ==> is_factorization(r->Ok_0@, n as int) && final(self).failure() is None,
            n == 1 ==> r is Ok && r->Ok_0@.len() == 0,
            r is Err ==> final(self).failure() == Some(r->Err_0),
            n >= 1 && r is Err ==> r == Err::<Vec<(u64, u64)>, PrimesError>(
                PrimesError::ResourceExhausted,
            ),
            r == Err::<Vec<(u64, u64)>, PrimesError>(PrimesError::ResourceExhausted) ==> (
            old(self).max_divisor() + 1) * (old(self).max_divisor() + 1) <= n,
    {
        if n == 0 {
            self.failure = Some(PrimesError::InvalidArgument);
            return Err(PrimesError::InvalidArgument);
        }
        let mut bound = self.threshold;
        if bound > sieve.max_limit() {
            bound = sieve.max_limit();
        }
        if bound > n {
            bound = n;
        }
        sieve.grow_to(bound);
        let ps = sieve.known_primes();
        let limit = sieve.current_limit();
        let ghost all = primes_through(limit as int);
        proof {
            lemma_primes_through(limit as int);
        }
        let mut out: Vec<(u64, u64)> = Vec::new();
        let mut rem: u64 = n;
        let mut i: usize = 0;
        while i < ps.len() && ps[i] <= rem / ps[i]
            invariant
                1 <= rem <= n,
                sieve.wf(),
                limit == sieve.limit(),
                as_ints(ps@) == all,
                ps@.len() == all.len(),
                forall|t: int| 0 <= t < ps@.len() ==> #[trigger] ps@[t] as int == all[t],
                all == primes_through(limit as int),
                strictly_ascending(all),
                forall|t: int| 0 <= t < all.len() ==> is_prime(#[trigger] all[t]) && all[t] <= limit,
                i <= ps@.len(),
                n == 1 ==> out@.len() == 0,
                i == 0 ==> out@.len() == 0,
                factors_product(out@) * rem == n,
                forall|k: int| 0 <= k < out@.len() ==> is_prime(#[trigger] out@[k].0 as int) && out@[k].1 >= 1,
                forall|k: int, j: int| 0 <= k < j < out@.len() ==> #[trigger] out@[k].0 < #[trigger] out@[j].0,
                i > 0 ==> forall|k: int| 0 <= k < out@.len() ==> #[trigger] out@[k].0 <= all[i - 1],
                forall|t: int| 0 <= t < i ==> (rem as int) % #[trigger] all[t] != 0,
            decreases ps@.len() - i,
        {
            let p = ps[i];
            assert(all[i as int] == p);
            if rem % p == 0 {
                let ghost prev = out@;
                let ghost prev_rem = rem;
                proof {
                    if i > 0 {
                        assert(all[i - 1] < all[i as int]);
                    }
                }
                let c = divide_out(n, &mut out, &mut rem, p);
                proof {
                    assert forall|t: int| 0 <= t < i + 1 implies (rem as int) % #[trigger] all[t] != 0 by {
                        if t < i && (rem as int) % all[t] == 0 {
                            lemma_divides_trans(all[t], rem as int, prev_rem as int);
                        }
                    }
                    assert forall|k: int, j: int| 0 <= k < j < out@.len() implies #[trigger] out@[k].0
                        < #[trigger] out@[j].0 by {
                        if j == prev.len() {
                            assert(out@[k] == prev[k]);
                        } else {
                            assert(out@[k] == prev[k] && out@[j] == prev[j]);
                        }
                    }
                    assert forall|k: int| 0 <= k < out@.len() implies #[trigger] out@[k].0 <= all[i as int] by {
                        if k < prev.len() {
                            assert(out@[k] == prev[k]);
                        }
                    }
                    assert forall|k: int| 0 <= k < out@.len() implies is_prime(#[trigger] out@[k].0 as int)
                        && out@[k].1 >= 1 by {
                        if k < prev.len() {
                            assert(out@[k] == prev[k]);
                        }
                    }
                }
            } else {
                proof {
                    if i > 0 {
                        assert(all[i - 1] < all[i as int]);
                    }
                }
            }
            i = i + 1;
        }
        let d: u64 = if i < ps.len() {
            ps[i]
        } else {
            limit + 1
        };
        proof {
            if i < ps.len() {
                assert(all[i as int] == d);
            }
            assert forall|k: int| 0 <= k < out@.len() implies #[trigger] out@[k].0 < d by {
                if i > 0 {
                    if i < ps.len() {
                        assert(all[i - 1] < all[i as int]);
                    }
                }
            }
            assert forall|e: int| 2 <= e < d implies #[trigger] (rem as int % e) != 0 by {
                if (rem as int) % e == 0 {
                    lemma_prime_divisor_below(rem as int, e);
                    let q = choose|q: int| is_prime(q) && q <= e && #[trigger] ((rem as int) % q) == 0;
                    assert(all.contains(q));
                    let t = choose|t: int| 0 <= t < all.len() && all[t] == q;
                    if t >= i {
                        assert(all[i as int] <= all[t]);
                    }
                }
            }
        }
        self.trial_divide(n, out, rem, d)
    }

    /// Trial division of the cofactor `rem` by `d, d + 1, ...` up to its square root; what
    /// remains above 1 is prime. `out` holds the prime powers already divided out of `n`, all
    /// below `d`, and no integer in `[2, d)` divides `rem`.
    fn trial_divide(&mut self, n: u64, found: Vec<(u64, u64)>, cofactor: u64, start: u64) -> (r: Result<
        Vec<(u64, u64)>,
        PrimesError,
    >)
        requires
            2 <= start,
            1 <= cofactor <= n,
            n == 1 ==> found@.len() == 0,
            factors_product(found@) * cofactor == n,
            forall|i: int|
                0 <= i < found@.len() ==> is_prime(#[trigger] found@[i].0 as int) && found@[i].1 >= 1,
            forall|i: int, j: int|
                0 <= i < j < found@.len() ==> #[trigger] found@[i].0 < #[trigger] found@[j].0,
            forall|i: int| 0 <= i < found@.len() ==> #[trigger] found@[i].0 < start,
            forall|e: int| 2 <= e < start ==> #[trigger] (cofactor as int % e) != 0,
        ensures
            final(self).max_divisor() == old(self).max_divisor(),
            final(self).threshold() == old(self).threshold(),
            (n as int) < (old(self).max_divisor() + 1) * (old(self).max_divisor() + 1) ==> r is Ok,
            r is Ok ==> is_factorization(r->Ok_0@, n as int) && final(self).failure() is None,
            n == 1 ==> r is Ok && r->Ok_0@.len() == 0,
            r is Err ==> r == Err::<Vec<(u64, u64)>, PrimesError>(PrimesError::ResourceExhausted)
                && final(self).failure() == Some(r->Err_0)
                && (old(self).max_divisor() + 1) * (old(self).max_divisor() + 1) <= n,
    {
        let mut out = found;
        let mut rem = cofactor;
        let mut d = start;
        while d <= rem / d
            invariant
                2 <= d,
                1 <= rem <= n,
                self.max_divisor == old(self).max_divisor,
                self.threshold == old(self).threshold,
                n == 1 ==> out@.len() == 0,
                factors_product(out@) * rem == n,
                forall|i: int| 0 <= i < out@.len() ==> is_prime(#[trigger] out@[i].0 as int) && out@[i].1 >= 1,
                forall|i: int, j: int| 0 <= i < j < out@.len() ==> #[trigger] out@[i].0 < #[trigger] out@[j].0,
                forall|i: int| 0 <= i < out@.len() ==> #[trigger] out@[i].0 < d,
                forall|e: int| 2 <= e < d ==> #[trigger] (rem as int % e) != 0,
            decreases n - d,
        {
            proof {
                lemma_fundamental_div_mod(rem as int, d as int);
                assert(d * d <= rem) by (nonlinear_arith)
                    requires
                        d <= rem / d,
                        rem == d * (rem / d) + rem % d,
                        0 <= rem % d,
                        2 <= d,
                ;
                assert(d < d * d) by (nonlinear_arith)
                    requires
                        2 <= d,
                ;
            }
            if d > self.max_divisor {
                proof {
                    assert((self.max_divisor + 1) * (self.max_divisor + 1) <= d * d) by (nonlinear_arith)
                        requires
                            self.max_divisor + 1 <= d,
                    ;
                }
                self.failure = Some(PrimesError::ResourceExhausted);
                return Err(PrimesError::ResourceExhausted);
            }
            let ghost prev_rem = rem;
            if rem % d == 0 {
                proof {
                    assert forall|e: int| 2 <= e < d implies #[trigger] ((d as int) % e) != 0 by {
                        if (d as int) % e == 0 {
                            lemma_divides_trans(e, d as int, rem as int);
                        }
                    }
                }
                let ghost prev = out@;
                let c = divide_out(n, &mut out, &mut rem, d);
                proof {
                    assert forall|e: int| 2 <= e < d + 1 implies #[trigger] (rem as int % e) != 0 by {
                        if e < d && (rem as int) % e == 0 {
                            lemma_divides_trans(e, rem as int, (prev_rem) as int);
                        }
                    }
                }
            }
            d = d + 1;
        }
        if rem > 1 {
            proof {
                lemma_fundamental_div_mod(rem as int, d as int);
                assert(rem < d * d) by (nonlinear_arith)
                    requires
                        rem / d < d,
                        rem == d * (rem / d) + rem % d,
                        rem % d < d,
                        2 <= d,
                ;
                assert forall|e: int| 2 <= e && e * e <= rem implies #[trigger] (rem as int % e) != 0 by {
                    assert(e < d) by (nonlinear_arith)
                        requires
                            2 <= e,
                            e * e <= rem,
                            rem < d * d,
                            2 <= d,
                    ;
                }
                assert(no_divisor_to_root(rem as int));
                lemma_prime_iff_no_divisor_to_root(rem as int);
                assert(is_prime(rem as int));
                if rem < d {
                    assert((rem as int) % (rem as int) == 0);
                }
                lemma_product_push(out@, (rem, 1));
                assert(power(rem as int, 0) == 1);
                assert(power(rem as int, 1) == rem * power(rem as int, 0));
                assert(factors_product(out@.push((rem, 1u64))) == factors_product(out@) * rem);
            }
            let ghost prev = out@;
            out.push((rem, 1));
            assert(forall|i: int| 0 <= i < prev.len() ==> #[trigger] prev[i].0 < d <= rem);
            assert(out@ == prev.push((rem, 1u64)));
            assert(is_prime(out@[prev.len() as int].0 as int));
            assert(factors_product(out@) == n);
            assert forall|i: int, j: int| 0 <= i < j < out@.len() implies #[trigger] out@[i].0
                < #[trigger] out@[j].0 by {
                if j == prev.len() {
                    assert(out@[i] == prev[i]);
                } else {
                    assert(out@[i] == prev[i] && out@[j] == prev[j]);
                }
            }
            assert forall|i: int| 0 <= i < out@.len() implies is_prime(#[trigger] out@[i].0 as int)
                && out@[i].1 >= 1 by {
                if i < prev.len() {
                    assert(out@[i] == prev[i]);
                }
            }
        }
        proof {
            if rem == 1 {
                let fp = factors_product(out@);
                assert(fp * rem == fp) by (nonlinear_arith)
                    requires
                        rem == 1,
                ;
            }
        }
        self.failure = None;
        Ok(out)
    }
}

/// Divides every factor `d` out of `rem` and records `d` with its multiplicity.
fn divide_out(n: u64, out: &mut Vec<(u64, u64)>, rem: &mut u64, d: u64) -> (c: u64)
    requires
        is_prime(d as int),
        1 <= *old(rem) <= n,
        *old(rem) % d == 0,
        factors_product(old(out)@) * *old(rem) == n,
        forall|i: int| 0 <= i < old(out)@.len() ==> #[trigger] old(out)@[i].0 < d,
    ensures
        1 <= *final(rem) < *old(rem),
        *final(rem) % d != 0,
        (*old(rem) as int) % (*final(rem) as int) == 0,
        factors_product(final(out)@) * *final(rem) == n,
        c >= 1,
        final(out)@ == old(out)@.push((d, c)),
{
    let ghost start = *rem;
    let mut count: u64 = 0;
    while *rem % d == 0
        invariant
            2 <= d,
            1 <= *rem <= start <= n,
            count + *rem <= start,
            count == 0 ==> *rem == start,
            start % d == 0,
            (start as int) % (*rem as int) == 0,
            factors_product(out@) * power(d as int, count as nat) * *rem == n,
        decreases *rem,
    {
        let q = *rem / d;
        proof {
            let r0 = *rem;
            lemma_fundamental_div_mod(r0 as int, d as int);
            assert(r0 == d * q);
            assert(1 <= q && q < r0) by (nonlinear_arith)
                requires
                    r0 == d * q,
                    2 <= d,
                    1 <= r0,
            ;
            lemma_mod_multiples_vanish(d as int, 0, q as int);
            assert(q * d == r0) by (nonlinear_arith)
                requires
                    r0 == d * q,
            ;
            lemma_divides_trans(q as int, r0 as int, start as int);
            let fp = factors_product(out@);
            let pw = power(d as int, count as nat);
            assert(power(d as int, (count + 1) as nat) == d * pw);
            assert(fp * pw * r0 == fp * (d * pw) * q) by (nonlinear_arith)
                requires
                    r0 == d * q,
            ;
        }
        *rem = q;
        count = count + 1;
    }
    proof {
        lemma_product_push(out@, (d, count));
    }
    out.push((d, count));
    count
}

impl Diagnosable for FactorizationCalculator {
    closed spec fn failure(&self) -> Option<PrimesError> {
        self.failure
    }

    fn last_error(&self) -> (r: Option<String>) {
        message_of(self.failure)
    }
}

} // verus!
