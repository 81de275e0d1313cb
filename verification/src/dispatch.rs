//! The query facade: the single entry point protocol front ends call. It
//! normalizes addresses through the configured mapping rules, consults the
//! time-bounded caches, applies the two-attempt catch-all fallback, and
//! tracks authentication failures for fail2ban lockout.
//!
//! The facade takes the current time as a plain argument so that cache
//! expiry is decided by the caller's clock, never read ambiently.

use vstd::prelude::*;

use crate::assoc::{assoc_map, assoc_unique, lemma_assoc_contains, lemma_assoc_get, lemma_assoc_push, lemma_assoc_remove};
use crate::lookup::{credentials_ok, queried_principal, query_target};
use crate::manage::wf;
use crate::mapping::AddressMapping;
use crate::store::Store;
use crate::strutil::{lower, str_eq};
use crate::types::{AuthResult, Credentials, DirectoryError, Principal, QueryBy, Type};

verus! {

/// A cached answer and when it was stored.
#[derive(Clone, Copy)]
pub struct CacheSlot {
    pub value: bool,
    pub stored_at: u64,
}

impl View for CacheSlot {
    type V = CacheSlot;

    open spec fn view(&self) -> CacheSlot {
        *self
    }
}

/// The fresh cached answer for a key, if one is stored and not expired.
pub open spec fn cache_hit(m: Map<Seq<char>, CacheSlot>, key: Seq<char>, now: u64, ttl: u64) -> Option<
    bool,
> {
    if m.contains_key(key) && m[key].stored_at <= now && now - m[key].stored_at <= ttl {
        Some(m[key].value)
    } else {
        None
    }
}

/// A read-through cache of domain and recipient answers, bounded in time:
/// an entry older than the time-to-live is ignored. Both positive and
/// negative answers are cached.
pub struct CachedDirectory {
    ttl: u64,
    domains: Vec<(String, CacheSlot)>,
    rcpts: Vec<(String, CacheSlot)>,
}

impl CachedDirectory {
    /// The representation keeps one entry per key.
    pub closed spec fn inv(&self) -> bool {
        assoc_unique(self.domains@) && assoc_unique(self.rcpts@)
    }

    /// The configured time-to-live in seconds.
    pub closed spec fn spec_ttl(&self) -> u64 {
        self.ttl
    }

    /// The domain answers by key.
    pub closed spec fn domains_view(&self) -> Map<Seq<char>, CacheSlot> {
        assoc_map(self.domains@)
    }

    /// The recipient answers by key.
    pub closed spec fn rcpts_view(&self) -> Map<Seq<char>, CacheSlot> {
        assoc_map(self.rcpts@)
    }

    /// An empty cache with the given time-to-live in seconds.
    pub fn new(ttl: u64) -> (r: CachedDirectory)
        ensures
            r.inv(),
            r.spec_ttl() == ttl,
            r.domains_view() == Map::<Seq<char>, CacheSlot>::empty(),
            r.rcpts_view() == Map::<Seq<char>, CacheSlot>::empty(),
    {
        CachedDirectory { ttl, domains: Vec::new(), rcpts: Vec::new() }
    }

    pub fn get_domain(&self, domain: &str, now: u64) -> (r: Option<bool>)
        requires
            self.inv(),
        ensures
            r == cache_hit(self.domains_view(), domain@, now, self.spec_ttl()),
    {
        lookup_entry(&self.domains, domain, now, self.ttl)
    }

    pub fn set_domain(&mut self, domain: &str, value: bool, now: u64)
        requires
            old(self).inv(),
        ensures
            final(self).inv(),
            final(self).spec_ttl() == old(self).spec_ttl(),
            final(self).rcpts_view() == old(self).rcpts_view(),
            final(self).domains_view() == old(self).domains_view().insert(
                domain@,
                CacheSlot { value, stored_at: now },
            ),
    {
        set_entry(&mut self.domains, domain, value, now);
    }

    pub fn get_rcpt(&self, address: &str, now: u64) -> (r: Option<bool>)
        requires
            self.inv(),
        ensures
            r == cache_hit(self.rcpts_view(), address@, now, self.spec_ttl()),
    {
        lookup_entry(&self.rcpts, address, now, self.ttl)
    }

    pub fn set_rcpt(&mut self, address: &str, value: bool, now: u64)
        requires
            old(self).inv(),
        ensures
            final(self).inv(),
            final(self).spec_ttl() == old(self).spec_ttl(),
            final(self).domains_view() == old(self).domains_view(),
            final(self).rcpts_view() == old(self).rcpts_view().insert(
                address@,
                CacheSlot { value, stored_at: now },
            ),
    {
        set_entry(&mut self.rcpts, address, value, now);
    }
}

/// Scan for the key's entry and apply the freshness bound.
fn lookup_entry(entries: &Vec<(String, CacheSlot)>, key: &str, now: u64, ttl: u64) -> (r: Option<
    bool,
>)
    requires
        assoc_unique(entries@),
    ensures
        r == cache_hit(assoc_map(entries@), key@, now, ttl),
{
    let n = entries.len();
    let mut i: usize = 0;
    while i < n
        invariant
            assoc_unique(entries@),
            n == entries@.len(),
            0 <= i <= n,
            forall|j: int| 0 <= j < i ==> (#[trigger] entries@[j]).0@ != key@,
        decreases n - i,
    {
        if str_eq(entries[i].0.as_str(), key) {
            proof {
                lemma_assoc_get(entries@, i as int);
            }
            let slot = entries[i].1;
            if slot.stored_at <= now && now - slot.stored_at <= ttl {
                return Some(slot.value);
            } else {
                return None;
            }
        }
        i = i + 1;
    }
    proof {
        lemma_assoc_contains(entries@, key@);
    }
    None
}

/// Replace or add the key's entry.
fn set_entry(entries: &mut Vec<(String, CacheSlot)>, key: &str, value: bool, now: u64)
    requires
        assoc_unique(old(entries)@),
    ensures
        assoc_unique(final(entries)@),
        assoc_map(final(entries)@) == assoc_map(old(entries)@).insert(
            key@,
            CacheSlot { value, stored_at: now },
        ),
{
    let slot = CacheSlot { value, stored_at: now };
    let n = entries.len();
    let mut i: usize = 0;
    while i < n
        invariant
            entries == old(entries),
            assoc_unique(entries@),
            n == entries@.len(),
            0 <= i <= n,
            slot == (CacheSlot { value, stored_at: now }),
            forall|j: int| 0 <= j < i ==> (#[trigger] entries@[j]).0@ != key@,
        decreases n - i,
    {
        if str_eq(entries[i].0.as_str(), key) {
            proof {
                lemma_assoc_remove(entries@, i as int);
            }
            let ghost before = entries@;
            entries.remove(i);
            let ghost mid = entries@;
            proof {
                lemma_assoc_contains(mid, key@);
                assert forall|j: int|
                    0 <= j < mid.len() implies (#[trigger] mid[j]).0@ != key@ by {
                    if mid[j].0@ == key@ {
                        assert(exists|w: int| 0 <= w < mid.len() && (#[trigger] mid[w]).0@ == key@);
                    }
                }
            }
            let owned = key.to_owned();
            proof {
                lemma_assoc_push(mid, owned, slot);
            }
            entries.push((owned, slot));
            proof {
                assert(entries@.drop_last() =~= mid);
                assert(assoc_map(entries@) =~= assoc_map(before).insert(key@, slot));
                assert forall|a: int, b: int|
                    0 <= a < b < entries@.len() implies (#[trigger] entries@[a]).0@ != (
                #[trigger] entries@[b]).0@ by {
                    if b == entries@.len() - 1 {
                        assert(entries@[a] == mid[a]);
                    }
                }
            }
            return ;
        }
        i = i + 1;
    }
    let ghost before = entries@;
    let owned = key.to_owned();
    proof {
        lemma_assoc_push(before, owned, slot);
    }
    entries.push((owned, slot));
    proof {
        assert(entries@.drop_last() =~= before);
        assert(assoc_map(entries@) =~= assoc_map(before).insert(key@, slot));
        assert forall|a: int, b: int|
            0 <= a < b < entries@.len() implies (#[trigger] entries@[a]).0@ != (
        #[trigger] entries@[b]).0@ by {
            if b == entries@.len() - 1 {
                assert(entries@[a] == before[a]);
            }
        }
    }
}

/// Authentication-failure tracking for fail2ban lockout: a failure count
/// per (remote address, login) pair, and the addresses banned once the
/// threshold was crossed. A threshold of zero disables tracking.
pub struct BlockedIps {
    threshold: u32,
    failures: Vec<((String, String), u32)>,
    banned: Vec<String>,
}

impl BlockedIps {
    pub closed spec fn inv(&self) -> bool {
        assoc_unique(self.failures@)
    }

    pub closed spec fn spec_threshold(&self) -> u32 {
        self.threshold
    }

    /// Failure counts by (remote address, login).
    pub closed spec fn failures_view(&self) -> Map<(Seq<char>, Seq<char>), u32> {
        assoc_map(self.failures@)
    }

    /// The banned remote addresses, in ban order.
    pub closed spec fn banned_view(&self) -> Seq<Seq<char>> {
        crate::strutil::str_seq_view(self.banned@)
    }

    /// Fresh tracking state; a zero threshold disables fail2ban.
    pub fn new(threshold: u32) -> (r: BlockedIps)
        ensures
            r.inv(),
            r.spec_threshold() == threshold,
            r.failures_view() == Map::<(Seq<char>, Seq<char>), u32>::empty(),
            r.banned_view() == Seq::<Seq<char>>::empty(),
    {
        let r = BlockedIps { threshold, failures: Vec::new(), banned: Vec::new() };
        proof {
            assert(crate::strutil::str_seq_view(r.banned@) =~= Seq::<Seq<char>>::empty());
        }
        r
    }

    pub fn has_fail2ban(&self) -> (r: bool)
        ensures
            r == (self.spec_threshold() > 0),
    {
        self.threshold > 0
    }

    /// Record one authentication failure for the pair; true when the count
    /// reaches the threshold, which also bans the remote address. Counts
    /// saturate rather than wrap.
    pub fn is_fail2banned(&mut self, remote_ip: &str, login: &str) -> (r: bool)
        requires
            old(self).inv(),
        ensures
            final(self).inv(),
            final(self).spec_threshold() == old(self).spec_threshold(),
            ({
                let key = (remote_ip@, login@);
                let prior = if old(self).failures_view().contains_key(key) {
                    old(self).failures_view()[key]
                } else {
                    0u32
                };
                let count = if prior < u32::MAX {
                    (prior + 1) as u32
                } else {
                    prior
                };
                &&& final(self).failures_view() == old(self).failures_view().insert(key, count)
                &&& r == (old(self).spec_threshold() > 0 && count >= old(self).spec_threshold())
                &&& final(self).banned_view() == (if r {
                    old(self).banned_view().push(remote_ip@)
                } else {
                    old(self).banned_view()
                })
            }),
    {
        let prior = self.find_count(remote_ip, login);
        let count = if prior < u32::MAX {
            prior + 1
        } else {
            prior
        };
        self.set_count(remote_ip, login, count);
        let banned_now = self.threshold > 0 && count >= self.threshold;
        if banned_now {
            let ghost before = self.banned@;
            self.banned.push(remote_ip.to_owned());
            proof {
                assert(crate::strutil::str_seq_view(self.banned@) =~= crate::strutil::str_seq_view(
                    before,
                ).push(remote_ip@));
            }
        }
        banned_now
    }

    /// The stored count for a pair, zero when absent.
    fn find_count(&self, remote_ip: &str, login: &str) -> (r: u32)
        requires
            self.inv(),
        ensures
            r == (if self.failures_view().contains_key((remote_ip@, login@)) {
                self.failures_view()[(remote_ip@, login@)]
            } else {
                0u32
            }),
    {
        let n = self.failures.len();
        let mut i: usize = 0;
        while i < n
            invariant
                self.inv(),
                n == self.failures@.len(),
                0 <= i <= n,
                forall|j: int|
                    0 <= j < i ==> (#[trigger] self.failures@[j]).0@ != (remote_ip@, login@),
            decreases n - i,
        {
            let hit = str_eq(self.failures[i].0.0.as_str(), remote_ip) && str_eq(
                self.failures[i].0.1.as_str(),
                login,
            );
            if hit {
                proof {
                    lemma_assoc_get(self.failures@, i as int);
                    assert(self.failures@[i as int].0@ == (remote_ip@, login@));
                }
                return self.failures[i].1;
            }
            proof {
                assert(self.failures@[i as int].0@ == (
                    self.failures@[i as int].0.0@,
                    self.failures@[i as int].0.1@,
                ));
            }
            i = i + 1;
        }
        proof {
            lemma_assoc_contains(self.failures@, (remote_ip@, login@));
        }
        0
    }

    /// Store the count for a pair, replacing any previous one.
    fn set_count(&mut self, remote_ip: &str, login: &str, count: u32)
        requires
            old(self).inv(),
        ensures
            final(self).inv(),
            final(self).spec_threshold() == old(self).spec_threshold(),
            final(self).banned_view() == old(self).banned_view(),
            final(self).failures_view() == old(self).failures_view().insert(
                (remote_ip@, login@),
                count,
            ),
    {
        let n = self.failures.len();
        let mut i: usize = 0;
        while i < n
            invariant
                self == old(self),
                self.inv(),
                n == self.failures@.len(),
                0 <= i <= n,
                forall|j: int|
                    0 <= j < i ==> (#[trigger] self.failures@[j]).0@ != (remote_ip@, login@),
            decreases n - i,
        {
            let hit = str_eq(self.failures[i].0.0.as_str(), remote_ip) && str_eq(
                self.failures[i].0.1.as_str(),
                login,
            );
            if hit {
                proof {
                    assert(self.failures@[i as int].0@ == (remote_ip@, login@));
                    lemma_assoc_remove(self.failures@, i as int);
                }
                let ghost before = self.failures@;
                self.failures.remove(i);
                let ghost mid = self.failures@;
                proof {
                    lemma_assoc_contains(mid, (remote_ip@, login@));
                    assert forall|j: int|
                        0 <= j < mid.len() implies (#[trigger] mid[j]).0@ != (
                    remote_ip@,
                    login@,
                    ) by {
                        if mid[j].0@ == (remote_ip@, login@) {
                            assert(exists|w: int|
                                0 <= w < mid.len() && (#[trigger] mid[w]).0@ == (
                                remote_ip@,
                                login@,
                                ));
                        }
                    }
                }
                let pair = (remote_ip.to_owned(), login.to_owned());
                proof {
                    lemma_assoc_push(mid, pair, count);
                }
                self.failures.push((pair, count));
                proof {
                    assert(self.failures@.drop_last() =~= mid);
                    assert(assoc_map(self.failures@) =~= assoc_map(before).insert(
                        (remote_ip@, login@),
                        count,
                    ));
                    assert forall|a: int, b: int|
                        0 <= a < b < self.failures@.len() implies (
                    #[trigger] self.failures@[a]).0@ != (#[trigger] self.failures@[b]).0@ by {
                        if b == self.failures@.len() - 1 {
                            assert(self.failures@[a] == mid[a]);
                        }
                    }
                }
                return ;
            }
            proof {
                assert(self.failures@[i as int].0@ == (
                    self.failures@[i as int].0.0@,
                    self.failures@[i as int].0.1@,
                ));
            }
            i = i + 1;
        }
        let ghost before = self.failures@;
        let pair = (remote_ip.to_owned(), login.to_owned());
        proof {
            lemma_assoc_push(before, pair, count);
        }
        self.failures.push((pair, count));
        proof {
            assert(self.failures@.drop_last() =~= before);
            assert(assoc_map(self.failures@) =~= assoc_map(before).insert(
                (remote_ip@, login@),
                count,
            ));
            assert forall|a: int, b: int|
                0 <= a < b < self.failures@.len() implies (#[trigger] self.failures@[a]).0@ != (
            #[trigger] self.failures@[b]).0@ by {
                if b == self.failures@.len() - 1 {
                    assert(self.failures@[a] == before[a]);
                }
            }
        }
    }
}

/// The backend a directory is configured with. The embedded store is the
/// verified backend; network-backed directories (LDAP, SQL, IMAP and SMTP
/// probes) live outside this core and drive the same store through its
/// public surface.
pub enum DirectoryInner {
    Internal(Store),
}

/// The polymorphic directory entry point: one object protocol front ends
/// query, applying address mapping, caching and fail2ban uniformly over the
/// configured backend.
pub struct Directory {
    pub store: DirectoryInner,
    pub catch_all: AddressMapping,
    pub subaddressing: AddressMapping,
    pub cache: Option<CachedDirectory>,
    pub blocked_ips: BlockedIps,
}

impl Directory {
    /// The directory state behind the facade.
    pub open spec fn sview(&self) -> crate::store::StoreData {
        match self.store {
            DirectoryInner::Internal(s) => s@,
        }
    }

    pub open spec fn inv(&self) -> bool {
        &&& match self.store {
            DirectoryInner::Internal(s) => s.inv() && wf(s@),
        }
        &&& match self.cache {
            Some(c) => c.inv(),
            None => true,
        }
        &&& self.blocked_ips.inv()
    }

    /// Pure dispatch to the configured backend.
    pub fn query(&self, by: QueryBy<'_>, return_member_of: bool) -> (r: Result<
        Option<Principal<u32>>,
        DirectoryError,
    >)
        requires
            self.inv(),
        ensures
            match r {
                Ok(Some(p)) => {
                    &&& query_target(self.sview(), by, Some(p@.id))
                    &&& queried_principal(self.sview(), p@.id, p@.member_of, return_member_of)
                },
                Ok(None) => query_target(self.sview(), by, None),
                Err(_) => false,
            },
    {
        match &self.store {
            DirectoryInner::Internal(store) => store.query(by, return_member_of),
        }
    }

    /// Whether a domain is local, through the read-through cache: a fresh
    /// cached answer is served as is; otherwise the backend answers and the
    /// answer is cached, whichever way it went.
    pub fn is_local_domain(&mut self, domain: &str, now: u64) -> (r: Result<bool, DirectoryError>)
        requires
            old(self).inv(),
        ensures
            final(self).inv(),
            final(self).sview() == old(self).sview(),
            final(self).blocked_ips == old(self).blocked_ips,
            ({
                let live = old(self).sview().domains.contains(lower(domain@));
                match old(self).cache {
                    None => r matches Ok(b) && b == live && final(self).cache is None,
                    Some(c) => {
                        match cache_hit(c.domains_view(), domain@, now, c.spec_ttl()) {
                            Some(v) => r matches Ok(b) && b == v && final(self).cache == old(
                                self,
                            ).cache,
                            None => r matches Ok(b) && b == live && (final(self).cache matches Some(
                                c2,
                            ) && c2.domains_view() == c.domains_view().insert(
                                domain@,
                                CacheSlot { value: live, stored_at: now },
                            ) && c2.rcpts_view() == c.rcpts_view() && c2.spec_ttl()
                                == c.spec_ttl()),
                        }
                    },
                }
            }),
    {
        if let Some(cache) = &self.cache {
            if let Some(v) = cache.get_domain(domain, now) {
                return Ok(v);
            }
        }
        let live = match &self.store {
            DirectoryInner::Internal(store) => match store.is_local_domain(domain) {
                Ok(b) => b,
                Err(e) => {
                    proof {
                        assert(false);
                    }
                    return Err(e);
                },
            },
        };
        if let Some(cache) = &mut self.cache {
            cache.set_domain(domain, live, now);
        }
        Ok(live)
    }

    /// Whether an address is a deliverable recipient: the subaddress-
    /// normalized form is tried first, then the catch-all form, each through
    /// the cache before the backend is asked.
    pub fn rcpt(&mut self, email: &str, now: u64) -> (r: Result<bool, DirectoryError>)
        requires
            old(self).inv(),
        ensures
            final(self).inv(),
            final(self).sview() == old(self).sview(),
            final(self).blocked_ips == old(self).blocked_ips,
            final(self).subaddressing == old(self).subaddressing,
            final(self).catch_all == old(self).catch_all,
            r is Ok,
            ({
                let s = old(self).sview();
                let addr = old(self).subaddressing.spec_subaddress(email@);
                let live1 = s.emails.contains_key(lower(addr));
                let ca = old(self).catch_all.spec_catch_all(email@);
                match old(self).cache {
                    None => (r matches Ok(b) && b == (live1 || (ca matches Some(c)
                        && s.emails.contains_key(lower(c))))),
                    Some(c0) => match cache_hit(c0.rcpts_view(), addr, now, c0.spec_ttl()) {
                        Some(v) => r matches Ok(b) && b == v && final(self).cache == old(
                            self,
                        ).cache,
                        None => {
                            if live1 {
                                r matches Ok(b) && b == true
                            } else {
                                match ca {
                                    None => r matches Ok(b) && b == false,
                                    Some(cav) => match cache_hit(
                                        c0.rcpts_view(),
                                        cav,
                                        now,
                                        c0.spec_ttl(),
                                    ) {
                                        Some(v2) => r matches Ok(b) && b == v2,
                                        None => r matches Ok(b) && b == s.emails.contains_key(
                                            lower(cav),
                                        ),
                                    },
                                }
                            }
                        },
                    },
                }
            }),
    {
        let address = self.subaddressing.to_subaddress(email);
        if let Some(cache) = &self.cache {
            if let Some(v) = cache.get_rcpt(address.as_str(), now) {
                return Ok(v);
            }
        }
        let live1 = match &self.store {
            DirectoryInner::Internal(store) => match store.rcpt(address.as_str()) {
                Ok(b) => b,
                Err(e) => {
                    proof {
                        assert(false);
                    }
                    return Err(e);
                },
            },
        };
        if live1 {
            if let Some(cache) = &mut self.cache {
                cache.set_rcpt(address.as_str(), true, now);
            }
            return Ok(true);
        }
        let catch_all = match self.catch_all.to_catch_all(email) {
            Some(c) => c,
            None => {
                if let Some(cache) = &mut self.cache {
                    cache.set_rcpt(address.as_str(), false, now);
                }
                return Ok(false);
            },
        };
        if let Some(cache) = &self.cache {
            if let Some(v) = cache.get_rcpt(catch_all.as_str(), now) {
                return Ok(v);
            }
        }
        let live2 = match &self.store {
            DirectoryInner::Internal(store) => match store.rcpt(catch_all.as_str()) {
                Ok(b) => b,
                Err(e) => {
                    proof {
                        assert(false);
                    }
                    return Err(e);
                },
            },
        };
        if let Some(cache) = &mut self.cache {
            cache.set_rcpt(catch_all.as_str(), live2, now);
        }
        Ok(live2)
    }

    /// Resolve an address to its owning principal ids: the subaddress-
    /// normalized form first; whenever that first result is empty and a
    /// catch-all rewriting exists, one retry against the catch-all address;
    /// no deeper fallback, and no resolution is the empty list, never an
    /// error.
    pub fn email_to_ids(&self, email: &str) -> (r: Result<Vec<u32>, DirectoryError>)
        requires
            self.inv(),
        ensures
            ({
                let s = self.sview();
                let addr = self.subaddressing.spec_subaddress(email@);
                let ca = self.catch_all.spec_catch_all(email@);
                match r {
                    Ok(v) => {
                        if !crate::lookup::email_ids_empty(s, lower(addr)) {
                            crate::lookup::email_ids_ok(s, lower(addr), v@)
                        } else {
                            match ca {
                                Some(cav) => crate::lookup::email_ids_ok(s, lower(cav), v@),
                                None => v@ == Seq::<u32>::empty(),
                            }
                        }
                    },
                    Err(_) => false,
                }
            }),
    {
        let address = self.subaddressing.to_subaddress(email);
        let first = match &self.store {
            DirectoryInner::Internal(store) => match store.email_to_ids(address.as_str()) {
                Ok(v) => v,
                Err(e) => {
                    proof {
                        assert(false);
                    }
                    return Err(e);
                },
            },
        };
        proof {
            crate::lookup::lemma_email_ids_empty(self.sview(), lower(address@), first@);
        }
        if !first.is_empty() {
            return Ok(first);
        }
        match self.catch_all.to_catch_all(email) {
            Some(ca) => {
                match &self.store {
                    DirectoryInner::Internal(store) => store.email_to_ids(ca.as_str()),
                }
            },
            None => Ok(first),
        }
    }

    /// SMTP VRFY: subaddress-normalize and ask the backend; no catch-all
    /// retry on this diagnostic path.
    pub fn vrfy(&self, address: &str) -> (r: Result<Vec<String>, DirectoryError>)
        requires
            self.inv(),
        ensures
            r matches Ok(v) && crate::lookup::vrfy_ok(
                self.sview(),
                lower(self.subaddressing.spec_subaddress(address@)),
                crate::strutil::str_seq_view(v@),
            ),
    {
        let normalized = self.subaddressing.to_subaddress(address);
        match &self.store {
            DirectoryInner::Internal(store) => store.vrfy(normalized.as_str()),
        }
    }

    /// SMTP EXPN: subaddress-normalize and ask the backend; no catch-all
    /// retry on this diagnostic path.
    pub fn expn(&self, address: &str) -> (r: Result<Vec<String>, DirectoryError>)
        requires
            self.inv(),
        ensures
            r matches Ok(v) && crate::lookup::expn_ok(
                self.sview(),
                lower(self.subaddressing.spec_subaddress(address@)),
                crate::strutil::str_seq_view(v@),
            ),
    {
        let normalized = self.subaddressing.to_subaddress(address);
        match &self.store {
            DirectoryInner::Internal(store) => store.expn(normalized.as_str()),
        }
    }

    /// Authenticate a credential set. Success hands back the principal;
    /// failure is tracked per (remote address, login) when fail2ban is
    /// enabled, and once the threshold is crossed the caller is told the
    /// address is now banned rather than merely rejected.
    pub fn authenticate(
        &mut self,
        credentials: &Credentials,
        remote_ip: &str,
        return_member_of: bool,
    ) -> (r: Result<AuthResult<Principal<u32>>, DirectoryError>)
        requires
            old(self).inv(),
        ensures
            final(self).inv(),
            final(self).sview() == old(self).sview(),
            final(self).cache == old(self).cache,
            ({
                let s = old(self).sview();
                let login = lower(credentials.spec_login());
                let ok = s.names.contains_key(login) && credentials_ok(
                    s,
                    s.names[login].account_id,
                    *credentials,
                );
                match r {
                    Ok(AuthResult::Success(p)) => ok && p@.id == s.names[login].account_id
                        && queried_principal(s, p@.id, p@.member_of, return_member_of) && final(self).blocked_ips == old(self).blocked_ips,
                    Ok(AuthResult::Failure) => !ok && (if old(self).blocked_ips.spec_threshold()
                        > 0 {
                        ({
                            let key = (remote_ip@, credentials.spec_login());
                            let prior = if old(self).blocked_ips.failures_view().contains_key(
                                key,
                            ) {
                                old(self).blocked_ips.failures_view()[key]
                            } else {
                                0u32
                            };
                            let count = if prior < u32::MAX {
                                (prior + 1) as u32
                            } else {
                                prior
                            };
                            &&& count < old(self).blocked_ips.spec_threshold()
                            &&& final(self).blocked_ips.failures_view() == old(
                                self,
                            ).blocked_ips.failures_view().insert(key, count)
                            &&& final(self).blocked_ips.banned_view() == old(
                                self,
                            ).blocked_ips.banned_view()
                        })
                    } else {
                        final(self).blocked_ips == old(self).blocked_ips
                    }),
                    Ok(AuthResult::Banned) => !ok && old(self).blocked_ips.spec_threshold() > 0
                        && ({
                        let key = (remote_ip@, credentials.spec_login());
                        let prior = if old(self).blocked_ips.failures_view().contains_key(key) {
                            old(self).blocked_ips.failures_view()[key]
                        } else {
                            0u32
                        };
                        let count = if prior < u32::MAX {
                            (prior + 1) as u32
                        } else {
                            prior
                        };
                        &&& count >= old(self).blocked_ips.spec_threshold()
                        &&& final(self).blocked_ips.failures_view() == old(
                            self,
                        ).blocked_ips.failures_view().insert(key, count)
                        &&& final(self).blocked_ips.banned_view() == old(
                            self,
                        ).blocked_ips.banned_view().push(remote_ip@)
                    }),
                    Err(_) => false,
                }
            }),
    {
        let outcome = match &self.store {
            DirectoryInner::Internal(store) => store.query(
                QueryBy::Credentials(credentials),
                return_member_of,
            ),
        };
        match outcome {
            Ok(Some(principal)) => Ok(AuthResult::Success(principal)),
            Ok(None) => {
                if self.blocked_ips.has_fail2ban() {
                    let login = credentials.login();
                    if self.blocked_ips.is_fail2banned(remote_ip, login) {
                        Ok(AuthResult::Banned)
                    } else {
                        Ok(AuthResult::Failure)
                    }
                } else {
                    Ok(AuthResult::Failure)
                }
            },
            Err(e) => {
                proof {
                    assert(false);
                }
                Err(e)
            },
        }
    }
}

} // verus!
