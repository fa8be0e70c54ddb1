use vstd::prelude::*;
use vstd::arithmetic::div_mod::{lemma_fundamental_div_mod, lemma_mod_multiples_vanish, lemma_small_mod};
use crate::arith::{
    is_prime, primes_through, strictly_ascending, lemma_composite_prime_divisor,
    lemma_primes_through, lemma_primes_through_prefix,
};
use crate::error::{PrimesError, Diagnosable, message_of};

verus! {

/// The largest ceiling a sieve accepts; its table then stays addressable on any target.
pub const MAX_CEILING: u64 = 0x8000_0000;

/// The ceiling of a sieve made by `new`.
pub const DEFAULT_CEILING: u64 = 0x0100_0000;

/// The integers of a sequence of `u64`.
pub open spec fn as_ints(s: Seq<u64>) -> Seq<int> {
    s.map_values(|p: u64| p as int)
}

/// For `0 < x`: `x <= top / x` exactly when `x * x <= top`.
proof fn lemma_le_div_iff_square(x: int, top: int)
    requires
        0 < x,
        0 <= top,
    ensures
        (x <= top / x) <==> (x * x <= top),
{
    lemma_fundamental_div_mod(top, x);
    let q = top / x;
    let r = top % x;
    if x <= q {
        assert(x * x <= x * q) by (nonlinear_arith)
            requires
                0 < x <= q,
        ;
    } else {
        assert(x * x >= x * (q + 1)) by (nonlinear_arith)
            requires
                0 < x,
                q + 1 <= x,
        ;
        assert(x * (q + 1) == x * q + x) by (nonlinear_arith);
    }
}

/// No multiple of `p` lies strictly between `lo` and the first multiple of `p` above `lo`.
proof fn lemma_first_multiple_above(lo: int, p: int, i: int)
    requires
        0 < p,
        0 <= lo < i < (lo / p + 1) * p,
    ensures
        i % p != 0,
{
    lemma_fundamental_div_mod(i, p);
    lemma_fundamental_div_mod(lo, p);
    if i % p == 0 {
        let t = i / p;
        let u = lo / p;
        assert(i == p * t);
        assert(t <= u) by (nonlinear_arith)
            requires
                0 < p,
                p * t < (u + 1) * p,
        ;
        assert(p * t <= p * u) by (nonlinear_arith)
            requires
                0 < p,
                t <= u,
        ;
    }
}

/// No multiple of `p` lies strictly between two consecutive multiples of it.
proof fn lemma_between_multiples(m: int, p: int, i: int)
    requires
        0 < p,
        m % p == 0,
        m < i < m + p,
    ensures
        i % p != 0,
{
    lemma_fundamental_div_mod(m, p);
    lemma_mod_multiples_vanish(m / p, i - m, p);
    lemma_small_mod((i - m) as nat, p as nat);
}

/// The limit after extending a sieve at `current` to `requested`.
pub open spec fn extended_limit(current: int, requested: int) -> int {
    if requested > current {
        requested
    } else {
        current
    }
}

/// A sieve of Eratosthenes that classifies every integer in `[0, limit]` and grows on request.
pub struct SieveCalculator {
    limit: u64,
    ceiling: u64,
    table: Vec<bool>,
    primes: Vec<u64>,
    failure: Option<PrimesError>,
}

impl SieveCalculator {
    /// The largest integer currently classified.
    pub closed spec fn limit(&self) -> int {
        self.limit as int
    }

    /// The largest limit this sieve may be extended to.
    pub closed spec fn ceiling(&self) -> int {
        self.ceiling as int
    }

    /// The primality table: entry `n` tells whether `n` is prime.
    pub closed spec fn table(&self) -> Seq<bool> {
        self.table@
    }

    /// The primes discovered so far, ascending.
    pub closed spec fn primes(&self) -> Seq<int> {
        as_ints(self.primes@)
    }

    /// The table classifies `[0, limit]` correctly and the cache lists exactly the primes in it.
    pub open spec fn wf(&self) -> bool {
        &&& 1 <= self.limit() <= self.ceiling() <= MAX_CEILING
        &&& self.table().len() == self.limit() + 1
        &&& forall|i: int| 0 <= i <= self.limit() ==> #[trigger] self.table()[i] == is_prime(i)
        &&& self.primes() == primes_through(self.limit())
    }

    /// A sieve that classifies `[0, 1]` and may grow up to `DEFAULT_CEILING`.
    pub fn new() -> (s: Self)
        ensures
            s.wf(),
            s.limit() == 1,
            s.ceiling() == DEFAULT_CEILING,
            s.failure() is None,
    {
        Self::with_ceiling(DEFAULT_CEILING)
    }

    /// A sieve that classifies `[0, 1]` and may grow up to `ceiling`, kept within
    /// `[1, MAX_CEILING]`.
    pub fn with_ceiling(ceiling: u64) -> (s: Self)
        ensures
            s.wf(),
            s.limit() == 1,
            s.ceiling() == if ceiling > MAX_CEILING {
                MAX_CEILING as int
            } else if ceiling < 1 {
                1
            } else {
                ceiling as int
            },
            s.failure() is None,
    {
        let c = if ceiling > MAX_CEILING {
            MAX_CEILING
        } else if ceiling < 1 {
            1
        } else {
            ceiling
        };
        let s = SieveCalculator {
            limit: 1,
            ceiling: c,
            table: vec![false, false],
            primes: Vec::new(),
            failure: None,
        };
        assert(s.primes() =~= primes_through(1));
        s
    }

    /// The largest integer currently classified.
    pub fn current_limit(&self) -> (r: u64)
        ensures
            r == self.limit(),
    {
        self.limit
    }

    /// The largest limit this sieve may be extended to.
    pub fn max_limit(&self) -> (r: u64)
        ensures
            r == self.ceiling(),
    {
        self.ceiling
    }

    /// The primes discovered so far, ascending.
    pub fn known_primes(&self) -> (r: &Vec<u64>)
        ensures
            as_ints(r@) == self.primes(),
    {
        &self.primes
    }

    /// Classifies `(limit, top]`, sieving with the known primes, which cover `sqrt(top)`.
    fn sieve_segment(&mut self, top: u64)
        requires
            old(self).wf(),
            old(self).limit() < top <= old(self).ceiling(),
            top < (old(self).limit() + 1) * (old(self).limit() + 1),
        ensures
            final(self).wf(),
            final(self).limit() == top,
            final(self).ceiling() == old(self).ceiling(),
            final(self).failure() == old(self).failure(),
    {
        let lim = self.limit;
        let ghost primes = self.primes();
        proof {
            lemma_primes_through(lim as int);
        }
        let mut n: u64 = lim + 1;
        while n <= top
            invariant
                lim < n <= top + 1,
                top <= MAX_CEILING,
                self.limit == lim,
                self.ceiling == old(self).ceiling,
                self.failure == old(self).failure,
                self.primes() == primes,
                self.table@.len() == n,
                forall|i: int| 0 <= i <= lim ==> #[trigger] self.table@[i] == is_prime(i),
                forall|i: int| lim < i < n ==> #[trigger] self.table@[i],
            decreases top + 1 - n,
        {
            self.table.push(true);
            n = n + 1;
        }
        let mut j: usize = 0;
        while j < self.primes.len() && self.primes[j] <= top / self.primes[j]
            invariant
                1 <= lim < top <= MAX_CEILING,
                self.limit == lim,
                self.ceiling == old(self).ceiling,
                self.failure == old(self).failure,
                self.primes() == primes,
                primes == primes_through(lim as int),
                strictly_ascending(primes),
                forall|t: int| 0 <= t < primes.len() ==> is_prime(#[trigger] primes[t]) && primes[t] <= lim,
                j <= self.primes@.len(),
                self.primes@.len() == primes.len(),
                forall|t: int| 0 <= t < primes.len() ==> #[trigger] self.primes@[t] as int == primes[t],
                self.table@.len() == top + 1,
                forall|i: int| 0 <= i <= lim ==> #[trigger] self.table@[i] == is_prime(i),
                forall|i: int|
                    lim < i <= top ==> (#[trigger] self.table@[i] <==> forall|t: int|
                        0 <= t < j ==> i % #[trigger] primes[t] != 0),
            decreases self.primes@.len() - j,
        {
            let p = self.primes[j];
            assert(primes[j as int] == p);
            proof {
                lemma_fundamental_div_mod(lim as int, p as int);
                assert(lim < (lim / p + 1) * p <= lim + p) by (nonlinear_arith)
                    requires
                        0 < p,
                        lim == p * (lim / p) + lim % p,
                        0 <= lim % p < p,
                ;
            }
            let mut m: u64 = (lim / p + 1) * p;
            proof {
                assert(m % p == 0) by {
                    lemma_mod_multiples_vanish((lim / p + 1) as int, 0, p as int);
                    assert((lim / p + 1) * p == p * (lim / p + 1)) by (nonlinear_arith);
                }
                assert forall|i: int| lim < i < m implies #[trigger] (i % (p as int)) != 0 by {
                    lemma_first_multiple_above(lim as int, p as int, i);
                }
            }
            while m <= top
                invariant
                    1 <= lim < top <= MAX_CEILING,
                    2 <= p <= lim,
                    self.limit == lim,
                    self.primes() == primes,
                    self.ceiling == old(self).ceiling,
                    self.failure == old(self).failure,
                    primes[j as int] == p,
                    j < primes.len(),
                    lim < m <= top + p,
                    m % p == 0,
                    self.table@.len() == top + 1,
                    forall|i: int| 0 <= i <= lim ==> #[trigger] self.table@[i] == is_prime(i),
                    forall|i: int|
                        lim < i <= top ==> (#[trigger] self.table@[i] <==> (forall|t: int|
                            0 <= t < j ==> i % #[trigger] primes[t] != 0) && (i < m ==> i % (p as int) != 0)),
                decreases top + p - m,
            {
                self.table.set(m as usize, false);
                proof {
                    assert forall|i: int| m < i < m + p implies #[trigger] (i % (p as int)) != 0 by {
                        lemma_between_multiples(m as int, p as int, i);
                    }
                    lemma_mod_multiples_vanish(1, m as int, p as int);
                }
                m = m + p;
            }
            assert forall|i: int|
                lim < i <= top implies (#[trigger] self.table@[i] <==> forall|t: int|
                    0 <= t < j + 1 ==> i % #[trigger] primes[t] != 0) by {
                if self.table@[i] {
                    assert(i % primes[j as int] != 0);
                } else {
                    if forall|t: int| 0 <= t < j ==> i % #[trigger] primes[t] != 0 {
                        assert(i % primes[j as int] == 0);
                    }
                }
            }
            j = j + 1;
        }
        proof {
            assert forall|i: int| lim < i <= top implies #[trigger] self.table@[i] == is_prime(i) by {
                if self.table@[i] {
                    if !is_prime(i) {
                        lemma_composite_prime_divisor(i);
                        let q = choose|q: int| is_prime(q) && q * q <= i && #[trigger] (i % q) == 0;
                        assert(q <= lim) by (nonlinear_arith)
                            requires
                                2 <= q,
                                q * q <= i,
                                i <= top,
                                top < (lim + 1) * (lim + 1),
                        ;
                        assert(primes.contains(q));
                        let t = choose|t: int| 0 <= t < primes.len() && primes[t] == q;
                        if t >= j {
                            let x = primes[j as int];
                            assert(x <= q);
                            assert(x * x <= q * q) by (nonlinear_arith)
                                requires
                                    2 <= x <= q,
                            ;
                            lemma_le_div_iff_square(x, top as int);
                        }
                    }
                } else {
                    let t = choose|t: int| 0 <= t < j && i % #[trigger] primes[t] == 0;
                    let d = primes[t];
                    assert(2 <= d < i && i % d == 0);
                }
            }
        }
        let mut k: u64 = lim + 1;
        assert forall|t: int| 0 <= t < self.primes@.len() implies #[trigger] self.primes@[t] < k by {
            assert(self.primes@[t] as int == primes[t]);
        }
        while k <= top
            invariant
                lim < k <= top + 1,
                self.limit == lim,
                self.ceiling == old(self).ceiling,
                self.failure == old(self).failure,
                top <= MAX_CEILING,
                self.table@.len() == top + 1,
                forall|i: int| 0 <= i <= top ==> #[trigger] self.table@[i] == is_prime(i),
                self.primes() == primes_through(k - 1),
                forall|t: int| 0 <= t < self.primes@.len() ==> #[trigger] self.primes@[t] < k,
            decreases top + 1 - k,
        {
            if self.table[k as usize] {
                self.primes.push(k);
                assert(self.primes() =~= primes_through(k as int));
            } else {
                assert(self.primes() =~= primes_through(k as int));
            }
            k = k + 1;
        }
        self.limit = top;
    }

    /// Extends the classification to `[0, limit]`, a segment at a time: each segment ends
    /// below the square of the next integer after the current limit, so the primes already
    /// known suffice to sieve it.
    pub(crate) fn grow_to(&mut self, limit: u64)
        requires
            old(self).wf(),
            limit <= old(self).ceiling(),
        ensures
            final(self).wf(),
            final(self).limit() == extended_limit(old(self).limit(), limit as int),
            final(self).ceiling() == old(self).ceiling(),
            final(self).failure() == old(self).failure(),
    {
        while self.limit < limit
            invariant
                self.wf(),
                limit <= self.ceiling(),
                old(self).limit() <= self.limit() <= extended_limit(old(self).limit(), limit as int),
                self.ceiling() == old(self).ceiling(),
                self.failure() == old(self).failure(),
            decreases limit - self.limit,
        {
            let lim = self.limit;
            assert(lim * (lim + 2) <= MAX_CEILING * (MAX_CEILING + 2)) by (nonlinear_arith)
                requires
                    1 <= lim <= MAX_CEILING,
            ;
            let bound = lim * (lim + 2);
            let top = if limit < bound {
                limit
            } else {
                bound
            };
            assert(lim < bound) by (nonlinear_arith)
                requires
                    1 <= lim,
                    bound == lim * (lim + 2),
            ;
            assert(top < (lim + 1) * (lim + 1)) by (nonlinear_arith)
                requires
                    top <= lim * (lim + 2),
            ;
            self.sieve_segment(top);
        }
    }

    /// Grows the sieve so that every integer in `[0, limit]` is classified; a `limit` at
    /// most the current one changes nothing. Fails with `ResourceExhausted`, leaving the sieve
    /// as it was, when `limit` exceeds the ceiling.
    pub fn extend_to(&mut self, limit: u64) -> (r: Result<(), PrimesError>)
        requires
            old(self).wf(),
        ensures
            final(self).wf(),
            final(self).ceiling() == old(self).ceiling(),
            r is Ok <==> limit <= old(self).ceiling(),
            r is Ok ==> final(self).limit() == extended_limit(old(self).limit(), limit as int)
                && final(self).failure() is None,
            r is Err ==> r == Err::<(), PrimesError>(PrimesError::ResourceExhausted)
                && final(self).limit() == old(self).limit()
                && final(self).table() == old(self).table()
                && final(self).primes() == old(self).primes()
                && final(self).failure() == Some(PrimesError::ResourceExhausted),
    {
        if limit > self.ceiling {
            self.failure = Some(PrimesError::ResourceExhausted);
            return Err(PrimesError::ResourceExhausted);
        }
        self.grow_to(limit);
        self.failure = None;
        Ok(())
    }

    /// Whether `n` is prime. Fails with `OutOfRange` when `n` exceeds the current limit:
    /// reading never extends the sieve.
    pub fn is_prime(&mut self, n: u64) -> (r: Result<bool, PrimesError>)
        requires
            old(self).wf(),
        ensures
            final(self).wf(),
            final(self).limit() == old(self).limit(),
            final(self).ceiling() == old(self).ceiling(),
            n <= old(self).limit() ==> r == Ok::<bool, PrimesError>(is_prime(n as int))
                && final(self).failure() is None,
            n > old(self).limit() ==> r == Err::<bool, PrimesError>(PrimesError::OutOfRange)
                && final(self).failure() == Some(PrimesError::OutOfRange),
    {
        if n > self.limit {
            self.failure = Some(PrimesError::OutOfRange);
            return Err(PrimesError::OutOfRange);
        }
        self.failure = None;
        Ok(self.table[n as usize])
    }

    /// The primes at most `limit`, ascending, after extending the sieve to `limit`. Fails with
    /// `ResourceExhausted`, leaving the sieve as it was, when `limit` exceeds the ceiling.
    pub fn primes_up_to(&mut self, limit: u64) -> (r: Result<Vec<u64>, PrimesError>)
        requires
            old(self).wf(),
        ensures
            final(self).wf(),
            final(self).ceiling() == old(self).ceiling(),
            r is Ok <==> limit <= old(self).ceiling(),
            r is Ok ==> as_ints(r->Ok_0@) == primes_through(limit as int)
                && final(self).limit() == extended_limit(old(self).limit(), limit as int)
                && final(self).failure() is None,
            r is Err ==> r == Err::<Vec<u64>, PrimesError>(PrimesError::ResourceExhausted)
                && final(self).limit() == old(self).limit()
                && final(self).failure() == Some(PrimesError::ResourceExhausted),
    {
        if limit > self.ceiling {
            self.failure = Some(PrimesError::ResourceExhausted);
            return Err(PrimesError::ResourceExhausted);
        }
        self.grow_to(limit);
        let ghost all = primes_through(self.limit());
        let ghost want = primes_through(limit as int);
        proof {
            lemma_primes_through_prefix(limit as int, self.limit());
            lemma_primes_through(limit as int);
            assert forall|t: int| 0 <= t < want.len() implies #[trigger] all[t] <= limit by {
                assert(all.subrange(0, want.len() as int)[t] == want[t]);
            }
        }
        let mut out: Vec<u64> = Vec::new();
        let mut i: usize = 0;
        while i < self.primes.len() && self.primes[i] <= limit
            invariant
                self.wf(),
                all == primes_through(self.limit()),
                self.primes() == all,
                want.len() <= all.len(),
                all.subrange(0, want.len() as int) == want,
                forall|t: int| 0 <= t < want.len() ==> #[trigger] all[t] <= limit,
                forall|t: int| want.len() <= t < all.len() ==> #[trigger] all[t] > limit,
                i <= want.len(),
                as_ints(out@) == all.subrange(0, i as int),
            decreases self.primes@.len() - i,
        {
            assert(all[i as int] == self.primes@[i as int] as int);
            let ghost prev = out@;
            out.push(self.primes[i]);
            assert(as_ints(out@) =~= as_ints(prev).push(all[i as int]));
            assert(as_ints(out@) =~= all.subrange(0, i + 1));
            i = i + 1;
        }
        proof {
            if i < want.len() {
                assert(all[i as int] == self.primes@[i as int] as int);
            }
        }
        self.failure = None;
        Ok(out)
    }

    /// The `k`-th prime, counting from 1 (`nth_prime(1) == 2`). The limit doubles until `k`
    /// primes are known; fails with `ResourceExhausted` when the ceiling holds fewer than `k`
    /// primes, and with `InvalidArgument` when `k` is 0.
    pub fn nth_prime(&mut self, k: u64) -> (r: Result<u64, PrimesError>)
        requires
            old(self).wf(),
        ensures
            final(self).wf(),
            final(self).ceiling() == old(self).ceiling(),
            old(self).limit() <= final(self).limit(),
            k == 0 ==> r == Err::<u64, PrimesError>(PrimesError::InvalidArgument)
                && final(self).limit() == old(self).limit(),
            k > 0 ==> (r is Ok <==> k <= primes_through(old(self).ceiling()).len()),
            r is Ok ==> r->Ok_0 as int == primes_through(old(self).ceiling())[k - 1]
                && final(self).failure() is None,
            k > 0 && r is Err ==> r == Err::<u64, PrimesError>(PrimesError::ResourceExhausted),
            r is Err ==> final(self).failure() == Some(r->Err_0),
    {
        if k == 0 {
            self.failure = Some(PrimesError::InvalidArgument);
            return Err(PrimesError::InvalidArgument);
        }
        while (self.primes.len() as u64) < k
            invariant
                self.wf(),
                old(self).limit() <= self.limit(),
                self.ceiling() == old(self).ceiling(),
            decreases self.ceiling() - self.limit(),
        {
            if self.limit >= self.ceiling {
                self.failure = Some(PrimesError::ResourceExhausted);
                return Err(PrimesError::ResourceExhausted);
            }
            let next = if self.limit > self.ceiling / 2 {
                self.ceiling
            } else {
                self.limit * 2
            };
            self.grow_to(next);
        }
        proof {
            lemma_primes_through_prefix(self.limit(), self.ceiling());
            let a = primes_through(self.limit());
            let b = primes_through(self.ceiling());
            assert(b.subrange(0, a.len() as int)[k - 1] == a[k - 1]);
            assert(a[k - 1] == self.primes@[k - 1] as int);
        }
        self.failure = None;
        Ok(self.primes[(k - 1) as usize])
    }
}

/// Extending to `l1` and then to `l2 >= l1` gives the same primality table and prime list as
/// extending to `l2` directly: `stepped` is the sieve after the two extensions from a sieve at
/// `start`, `direct` the one after the single extension.
pub proof fn lemma_extend_in_steps(
    start: int,
    l1: int,
    l2: int,
    stepped: &SieveCalculator,
    direct: &SieveCalculator,
)
    requires
        l1 <= l2,
        stepped.wf(),
        direct.wf(),
        stepped.limit() == extended_limit(extended_limit(start, l1), l2),
        direct.limit() == extended_limit(start, l2),
    ensures
        stepped.limit() == direct.limit(),
        stepped.table() == direct.table(),
        stepped.primes() == direct.primes(),
{
    assert(stepped.table() =~= direct.table());
}

impl Diagnosable for SieveCalculator {
    closed spec fn failure(&self) -> Option<PrimesError> {
        self.failure
    }

    fn last_error(&self) -> (r: Option<String>) {
        message_of(self.failure)
    }
}

} // verus!
