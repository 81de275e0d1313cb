//! The IMAP session state machine: not authenticated, authenticated, or a
//! mailbox selected; and the per-account limiter table.

use vstd::prelude::*;

use crate::assoc::{assoc_map, assoc_unique, lemma_assoc_contains, lemma_assoc_get, lemma_assoc_push};
use crate::throttle::{AuthenticatedLimiter, ConcurrencyLimiter, Rate, RateLimiter};

verus! {

/// The mailbox a session has selected, and whether with SELECT (which
/// tracks the recent flags) rather than EXAMINE.
#[derive(Clone, Copy, Debug)]
pub struct SelectedMailbox {
    pub id: u32,
    pub is_select: bool,
}

/// What an authenticated session carries: the account and the mailboxes
/// with untracked recent flags.
pub struct SessionData {
    pub account_id: u32,
    pub recent: Vec<u32>,
}

impl SessionData {
    /// Drop the recent marker of one mailbox.
    pub fn clear_recent(&mut self, mailbox: u32)
        requires
            crate::assoc::no_dups(old(self).recent@),
        ensures
            final(self).account_id == old(self).account_id,
            crate::assoc::no_dups(final(self).recent@),
            forall|m: u32|
                final(self).recent@.contains(m) == (old(self).recent@.contains(m) && m != mailbox),
    {
        crate::update::remove_u32(&mut self.recent, mailbox);
    }
}

/// The protocol state of one IMAP session.
pub enum State {
    NotAuthenticated { auth_failures: u32 },
    Authenticated { data: SessionData },
    Selected { data: SessionData, mailbox: SelectedMailbox },
}

impl State {
    /// How many authentication attempts have failed so far.
    pub fn auth_failures(&self) -> (r: u32)
        requires
            self is NotAuthenticated,
        ensures
            self matches State::NotAuthenticated { auth_failures } && r == auth_failures,
    {
        match self {
            State::NotAuthenticated { auth_failures } => *auth_failures,
            _ => 0,
        }
    }

    /// The session data of an authenticated session.
    pub fn session_data(&self) -> (r: &SessionData)
        requires
            self is Authenticated || self is Selected,
        ensures
            match self {
                State::Authenticated { data } => r == data,
                State::Selected { data, .. } => r == data,
                _ => false,
            },
    {
        match self {
            State::Authenticated { data } => data,
            State::Selected { data, .. } => data,
            State::NotAuthenticated { .. } => {
                proof {
                    assert(false);
                }
                match self {
                    State::NotAuthenticated { .. } => unreached(),
                    State::Authenticated { data } => data,
                    State::Selected { data, .. } => data,
                }
            },
        }
    }

    /// The session data and the selected mailbox.
    pub fn mailbox_state(&self) -> (r: (&SessionData, &SelectedMailbox))
        requires
            self is Selected,
        ensures
            self matches State::Selected { data, mailbox } && r.0 == data && r.1 == mailbox,
    {
        match self {
            State::Selected { data, mailbox } => (data, mailbox),
            _ => {
                proof {
                    assert(false);
                }
                unreached()
            },
        }
    }

    /// The session data, and the mailbox if one is selected.
    pub fn session_mailbox_state(&self) -> (r: (&SessionData, Option<&SelectedMailbox>))
        requires
            self is Authenticated || self is Selected,
        ensures
            match self {
                State::Authenticated { data } => r.0 == data && r.1 is None,
                State::Selected { data, mailbox } => r.0 == data && (r.1 matches Some(m) && m
                    == mailbox),
                _ => false,
            },
    {
        match self {
            State::Authenticated { data } => (data, None),
            State::Selected { data, mailbox } => (data, Some(mailbox)),
            State::NotAuthenticated { .. } => {
                proof {
                    assert(false);
                }
                unreached()
            },
        }
    }

    /// The session data and mailbox of a selected session.
    pub fn select_data(&self) -> (r: (&SessionData, &SelectedMailbox))
        requires
            self is Selected,
        ensures
            self matches State::Selected { data, mailbox } && r.0 == data && r.1 == mailbox,
    {
        match self {
            State::Selected { data, mailbox } => (data, mailbox),
            _ => {
                proof {
                    assert(false);
                }
                unreached()
            },
        }
    }

    /// Whether the session has authenticated.
    pub fn is_authenticated(&self) -> (r: bool)
        ensures
            r == (self is Authenticated || self is Selected),
    {
        match self {
            State::Authenticated { .. } => true,
            State::Selected { .. } => true,
            State::NotAuthenticated { .. } => false,
        }
    }

    /// Leave the selected mailbox: a SELECTed mailbox gives its recent
    /// marker up; true exactly when a mailbox was selected.
    pub fn close_mailbox(&mut self) -> (r: bool)
        requires
            *old(self) matches State::Selected { data, .. } ==> crate::assoc::no_dups(data.recent@),
        ensures
            r == (*old(self) is Selected),
            match *old(self) {
                State::Selected { data, mailbox } => {
                    &&& *final(self) matches State::Selected { data: d2, mailbox: m2 } && m2
                        == mailbox && d2.account_id == data.account_id
                    &&& if mailbox.is_select {
                        *final(self) matches State::Selected { data: d2, .. } && (forall|m: u32|
                            d2.recent@.contains(m) == (data.recent@.contains(m) && m
                                != mailbox.id))
                    } else {
                        *final(self) == *old(self)
                    }
                },
                _ => *final(self) == *old(self),
            },
    {
        match self {
            State::Selected { data, mailbox } => {
                if mailbox.is_select {
                    let id = mailbox.id;
                    data.clear_recent(id);
                }
                true
            },
            _ => false,
        }
    }
}

/// The IMAP server state the session accessors need: the per-account
/// limiter table and the configured rates.
pub struct IMAP {
    pub rate_limiter: Vec<(u32, AuthenticatedLimiter)>,
    pub rate_requests: Rate,
    pub rate_concurrent: u64,
}

impl IMAP {
    pub closed spec fn inv(&self) -> bool {
        assoc_unique(self.rate_limiter@)
    }

    /// The limiter table by account id.
    pub closed spec fn limiters(&self) -> Map<u32, AuthenticatedLimiter> {
        assoc_map(self.rate_limiter@)
    }

    pub fn new(rate_requests: Rate, rate_concurrent: u64) -> (r: IMAP)
        ensures
            r.inv(),
            r.limiters() == Map::<u32, AuthenticatedLimiter>::empty(),
            r.rate_requests == rate_requests,
            r.rate_concurrent == rate_concurrent,
    {
        IMAP { rate_limiter: Vec::new(), rate_requests, rate_concurrent }
    }

    /// The account's limiter, creating a fresh one from the configured
    /// rates on first use.
    pub fn get_authenticated_limiter(&mut self, account_id: u32) -> (r: AuthenticatedLimiter)
        requires
            old(self).inv(),
        ensures
            final(self).inv(),
            final(self).rate_requests == old(self).rate_requests,
            final(self).rate_concurrent == old(self).rate_concurrent,
            if old(self).limiters().contains_key(account_id) {
                r == old(self).limiters()[account_id] && final(self).limiters() == old(
                    self,
                ).limiters()
            } else {
                r == AuthenticatedLimiter::fresh(old(self).rate_requests, old(self).rate_concurrent)
                    && final(self).limiters() == old(self).limiters().insert(account_id, r)
            },
    {
        let n = self.rate_limiter.len();
        let mut i: usize = 0;
        while i < n
            invariant
                self == old(self),
                self.inv(),
                n == self.rate_limiter@.len(),
                0 <= i <= n,
                forall|j: int| 0 <= j < i ==> (#[trigger] self.rate_limiter@[j]).0 != account_id,
            decreases n - i,
        {
            if self.rate_limiter[i].0 == account_id {
                proof {
                    lemma_assoc_get(self.rate_limiter@, i as int);
                }
                return self.rate_limiter[i].1;
            }
            i = i + 1;
        }
        proof {
            lemma_assoc_contains(self.rate_limiter@, account_id);
        }
        let limiter = AuthenticatedLimiter {
            request_limiter: RateLimiter::new(&self.rate_requests),
            concurrent_requests: ConcurrencyLimiter::new(self.rate_concurrent),
            concurrent_uploads: ConcurrencyLimiter::new(self.rate_concurrent),
        };
        proof {
            assert(limiter == AuthenticatedLimiter::fresh(
                self.rate_requests,
                self.rate_concurrent,
            ));
            lemma_assoc_push(self.rate_limiter@, account_id, limiter);
        }
        let ghost before = self.rate_limiter@;
        self.rate_limiter.push((account_id, limiter));
        proof {
            assert(self.rate_limiter@.drop_last() =~= before);
            assert forall|a: int, b: int|
                0 <= a < b < self.rate_limiter@.len() implies (
            #[trigger] self.rate_limiter@[a]).0@ != (#[trigger] self.rate_limiter@[b]).0@ by {
                if b == self.rate_limiter@.len() - 1 {
                    assert(self.rate_limiter@[a] == before[a]);
                }
            }
        }
        limiter
    }
}

} // verus!
