//! Rate and concurrency limiting primitives, and the hashed keys the
//! throttling tables are indexed by.

use vstd::prelude::*;

verus! {

/// A configured request rate: so many requests per period.
#[derive(Clone, Copy, Debug)]
pub struct Rate {
    pub requests: u64,
    pub period_secs: u64,
}

/// A token-style rate limiter over a configured rate.
#[derive(Clone, Copy, Debug)]
pub struct RateLimiter {
    pub max_requests: u64,
    pub period_secs: u64,
    pub used: u64,
}

impl RateLimiter {
    pub fn new(rate: &Rate) -> (r: RateLimiter)
        ensures
            r.max_requests == rate.requests,
            r.period_secs == rate.period_secs,
            r.used == 0,
    {
        RateLimiter { max_requests: rate.requests, period_secs: rate.period_secs, used: 0 }
    }

    /// Take one slot of the current period if any is left.
    pub fn is_allowed(&mut self) -> (r: bool)
        ensures
            r == (old(self).used < old(self).max_requests),
            final(self).max_requests == old(self).max_requests,
            final(self).period_secs == old(self).period_secs,
            final(self).used == (if old(self).used < old(self).max_requests {
                (old(self).used + 1) as u64
            } else {
                old(self).used
            }),
    {
        if self.used < self.max_requests {
            self.used = self.used + 1;
            true
        } else {
            false
        }
    }
}

/// A concurrency limiter: a ceiling on simultaneous holders.
#[derive(Clone, Copy, Debug)]
pub struct ConcurrencyLimiter {
    pub max_concurrent: u64,
    pub concurrent: u64,
}

impl ConcurrencyLimiter {
    pub fn new(max_concurrent: u64) -> (r: ConcurrencyLimiter)
        ensures
            r.max_concurrent == max_concurrent,
            r.concurrent == 0,
    {
        ConcurrencyLimiter { max_concurrent, concurrent: 0 }
    }

    /// Take a slot if one is free.
    pub fn acquire(&mut self) -> (r: bool)
        ensures
            r == (old(self).concurrent < old(self).max_concurrent),
            final(self).max_concurrent == old(self).max_concurrent,
            final(self).concurrent == (if old(self).concurrent < old(self).max_concurrent {
                (old(self).concurrent + 1) as u64
            } else {
                old(self).concurrent
            }),
    {
        if self.concurrent < self.max_concurrent {
            self.concurrent = self.concurrent + 1;
            true
        } else {
            false
        }
    }

    /// Give a slot back.
    pub fn release(&mut self)
        ensures
            final(self).max_concurrent == old(self).max_concurrent,
            final(self).concurrent == (if old(self).concurrent > 0 {
                (old(self).concurrent - 1) as u64
            } else {
                0u64
            }),
    {
        if self.concurrent > 0 {
            self.concurrent = self.concurrent - 1;
        }
    }
}

/// The limiters of one authenticated account.
#[derive(Clone, Copy, Debug)]
pub struct AuthenticatedLimiter {
    pub request_limiter: RateLimiter,
    pub concurrent_requests: ConcurrencyLimiter,
    pub concurrent_uploads: ConcurrencyLimiter,
}

impl View for AuthenticatedLimiter {
    type V = AuthenticatedLimiter;

    open spec fn view(&self) -> AuthenticatedLimiter {
        *self
    }
}

impl AuthenticatedLimiter {
    /// A fresh limiter from the configured rates.
    pub open spec fn fresh(rate: Rate, concurrent: u64) -> AuthenticatedLimiter {
        AuthenticatedLimiter {
            request_limiter: RateLimiter {
                max_requests: rate.requests,
                period_secs: rate.period_secs,
                used: 0,
            },
            concurrent_requests: ConcurrencyLimiter { max_concurrent: concurrent, concurrent: 0 },
            concurrent_uploads: ConcurrencyLimiter { max_concurrent: concurrent, concurrent: 0 },
        }
    }
}

/// The limits applied to one throttling bucket.
#[derive(Clone, Copy, Debug)]
pub struct Limiter {
    pub rate: Option<RateLimiter>,
    pub concurrency: Option<ConcurrencyLimiter>,
}

/// A throttling-table key: the hash of the concurrency/rate conditions a
/// message or session matched.
pub struct ThrottleKey {
    pub hash: [u8; 32],
}

impl ThrottleKey {
    pub fn new(hash: [u8; 32]) -> (r: ThrottleKey)
        ensures
            r.hash@ == hash@,
    {
        ThrottleKey { hash }
    }

    /// Whether two keys carry the same hash.
    pub fn same_hash(&self, other: &ThrottleKey) -> (r: bool)
        ensures
            r == (self.hash@ == other.hash@),
    {
        let mut i: usize = 0;
        while i < 32
            invariant
                0 <= i <= 32,
                self.hash@.len() == 32,
                other.hash@.len() == 32,
                forall|j: int| 0 <= j < i ==> self.hash@[j] == other.hash@[j],
            decreases 32 - i,
        {
            if self.hash[i] != other.hash[i] {
                return false;
            }
            i = i + 1;
        }
        assert(self.hash@ =~= other.hash@);
        true
    }
}

/// A pass-through hasher for keys that are already hashes: it keeps the
/// first eight bytes it is fed, read as a little-endian word.
pub struct ThrottleKeyHasher {
    pub hash: u64,
}

impl ThrottleKeyHasher {
    pub fn new() -> (r: ThrottleKeyHasher)
        ensures
            r.hash == 0,
    {
        ThrottleKeyHasher { hash: 0 }
    }

    /// The eight leading bytes of the key, combined little-endian.
    pub open spec fn spec_word(bytes: Seq<u8>) -> u64 {
        (bytes[0] as u64) | (bytes[1] as u64) << 8 | (bytes[2] as u64) << 16 | (bytes[3] as u64)
            << 24 | (bytes[4] as u64) << 32 | (bytes[5] as u64) << 40 | (bytes[6] as u64) << 48 | (
        bytes[7] as u64) << 56
    }

    /// Feed the key bytes; only the first eight count.
    pub fn write_bytes(&mut self, bytes: &[u8])
        requires
            bytes@.len() >= 8,
        ensures
            final(self).hash == ThrottleKeyHasher::spec_word(bytes@),
    {
        let w = (bytes[0] as u64) | (bytes[1] as u64) << 8 | (bytes[2] as u64) << 16 | (
        bytes[3] as u64) << 24 | (bytes[4] as u64) << 32 | (bytes[5] as u64) << 40 | (
        bytes[6] as u64) << 48 | (bytes[7] as u64) << 56;
        self.hash = w;
    }

    pub fn finish(&self) -> (r: u64)
        ensures
            r == self.hash,
    {
        self.hash
    }
}

/// Builder handing out fresh pass-through hashers.
#[derive(Clone, Copy, Debug)]
pub struct ThrottleKeyHasherBuilder {
}

impl ThrottleKeyHasherBuilder {
    pub fn build_hasher(&self) -> (r: ThrottleKeyHasher)
        ensures
            r.hash == 0,
    {
        ThrottleKeyHasher::new()
    }
}

} // verus!
