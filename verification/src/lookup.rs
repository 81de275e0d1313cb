//! The internal backend's query surface: the lookups that the dispatch
//! facade routes to the embedded store.

use vstd::prelude::*;

use crate::auth::{principal_auth_ok, verify_principal_secret};
use crate::manage::wf;
use crate::store::{Store, StoreData};
use crate::strutil::{lower, to_lower};
use crate::types::{Credentials, DirectoryError, Principal, PrincipalData, QueryBy, Type};

verus! {

/// The record `query` hands back for account `id`: the stored record, with
/// its group list filled from the membership index only on request.
pub open spec fn queried_principal(
    s: StoreData,
    id: u32,
    member_of: Seq<u32>,
    return_member_of: bool,
) -> bool {
    &&& s.principals.contains_key(id)
    &&& if return_member_of {
        &&& forall|g: u32| member_of.contains(g) <==> s.member_of.contains((id, g))
        &&& crate::store::sorted_strict(member_of)
    } else {
        member_of.len() == 0
    }
}

/// What a query resolves to before the record is fetched.
pub open spec fn query_target(s: StoreData, by: QueryBy<'_>, found: Option<u32>) -> bool {
    match by {
        QueryBy::Name(n) => match found {
            Some(id) => s.names.contains_key(lower(n@)) && id == s.names[lower(n@)].account_id,
            None => !s.names.contains_key(lower(n@)),
        },
        QueryBy::Id(id) => match found {
            Some(i) => i == id && s.principals.contains_key(id),
            None => !s.principals.contains_key(id),
        },
        QueryBy::Credentials(c) => {
            let login = lower(c.spec_login());
            match found {
                Some(id) => s.names.contains_key(login) && id == s.names[login].account_id
                    && credentials_ok(s, id, *c),
                None => !s.names.contains_key(login) || !credentials_ok(
                    s,
                    s.names[login].account_id,
                    *c,
                ),
            }
        },
    }
}

/// Whether the presented credentials authenticate the stored record.
pub open spec fn credentials_ok(s: StoreData, id: u32, c: Credentials) -> bool {
    match c {
        Credentials::Plain { username, secret } => s.principals.contains_key(id)
            && principal_auth_ok(s.principals[id], secret@),
        Credentials::XOauth2 { username, secret } => s.principals.contains_key(id)
            && principal_auth_ok(s.principals[id], secret@),
        Credentials::OAuthBearer { token } => s.principals.contains_key(id) && principal_auth_ok(
            s.principals[id],
            token@,
        ),
    }
}

/// What `email_to_ids` returns for a looked-up key: the indexed principal,
/// except that a mailing-list address expands to its members.
pub open spec fn email_ids_ok(s: StoreData, key: Seq<char>, v: Seq<u32>) -> bool {
    if s.emails.contains_key(key) {
        if s.emails[key].typ == Type::List {
            &&& crate::store::sorted_strict(v)
            &&& forall|m: u32| v.contains(m) <==> s.members.contains((s.emails[key].account_id, m))
        } else {
            v == seq![s.emails[key].account_id]
        }
    } else {
        v == Seq::<u32>::empty()
    }
}

/// When `email_to_ids` resolves a key to nothing: the key is not indexed,
/// or it names a mailing list with no members.
pub open spec fn email_ids_empty(s: StoreData, key: Seq<char>) -> bool {
    ||| !s.emails.contains_key(key)
    ||| (s.emails[key].typ == Type::List && (forall|m: u32|
        !s.members.contains((s.emails[key].account_id, m))))
}

/// A resolution result is empty exactly when the key resolves to nothing.
pub proof fn lemma_email_ids_empty(s: StoreData, key: Seq<char>, v: Seq<u32>)
    requires
        email_ids_ok(s, key, v),
    ensures
        (v.len() == 0) == email_ids_empty(s, key),
{
    if s.emails.contains_key(key) && s.emails[key].typ == Type::List {
        if v.len() > 0 {
            assert(v.contains(v[0]));
        }
        if exists|m: u32| s.members.contains((s.emails[key].account_id, m)) {
            let m = choose|m: u32| s.members.contains((s.emails[key].account_id, m));
            assert(v.contains(m));
        }
    }
}

/// What `vrfy` returns for a looked-up key.
pub open spec fn vrfy_ok(s: StoreData, key: Seq<char>, v: Seq<Seq<char>>) -> bool {
    if s.emails.contains_key(key) {
        v.len() == 1 && v[0] == key
    } else {
        v.len() == 0
    }
}

/// What `expn` returns for a looked-up key: the member names of the mailing
/// list owning it.
pub open spec fn expn_ok(s: StoreData, key: Seq<char>, v: Seq<Seq<char>>) -> bool {
    if s.emails.contains_key(key) && s.emails[key].typ == Type::List {
        forall|n: Seq<char>|
            v.contains(n) <==> exists|m: u32|
                #[trigger] s.members.contains((s.emails[key].account_id, m))
                    && s.principals.contains_key(m) && s.principals[m].name == n
    } else {
        v.len() == 0
    }
}

impl Store {
    /// Resolve a principal by name, id or credentials. Backends answer
    /// `None` for an unknown target or failed credentials; the record's
    /// group list is filled only when `return_member_of` is set.
    pub fn query(&self, by: QueryBy<'_>, return_member_of: bool) -> (r: Result<
        Option<Principal<u32>>,
        DirectoryError,
    >)
        requires
            self.inv(),
            wf(self@),
        ensures
            match r {
                Ok(Some(p)) => {
                    &&& query_target(self@, by, Some(p@.id))
                    &&& queried_principal(self@, p@.id, p@.member_of, return_member_of)
                    &&& p@ == (PrincipalData {
                        member_of: p@.member_of,
                        ..self@.principals[p@.id]
                    })
                },
                Ok(None) => query_target(self@, by, None),
                Err(_) => false,
            },
    {
        let (account_id, secret) = match by {
            QueryBy::Name(name) => {
                let key = to_lower(name);
                match self.get_name_entry(key.as_str()) {
                    Some(it) => (it.account_id, None),
                    None => {
                        return Ok(None);
                    },
                }
            },
            QueryBy::Id(id) => (id, None),
            QueryBy::Credentials(c) => {
                let login = to_lower(c.login());
                match self.get_name_entry(login.as_str()) {
                    Some(it) => (
                        it.account_id,
                        Some(
                            match c {
                                Credentials::Plain { secret, .. } => secret.as_str(),
                                Credentials::XOauth2 { secret, .. } => secret.as_str(),
                                Credentials::OAuthBearer { token } => token.as_str(),
                            },
                        ),
                    ),
                    None => {
                        return Ok(None);
                    },
                }
            },
        };
        proof {
            assert(match by {
                QueryBy::Name(n) => self@.names.contains_key(lower(n@)) && account_id
                    == self@.names[lower(n@)].account_id,
                QueryBy::Id(id) => account_id == id,
                QueryBy::Credentials(c) => self@.names.contains_key(lower(c.spec_login()))
                    && account_id == self@.names[lower(c.spec_login())].account_id,
            });
        }
        let mut principal = match self.get_principal(account_id) {
            Some(p) => p,
            None => {
                // Under well-formedness a name-index entry always has its
                // record, so only a lookup by id can reach this point.
                proof {
                    match by {
                        QueryBy::Name(n) => {
                            assert(false);
                        },
                        QueryBy::Id(id) => {},
                        QueryBy::Credentials(c) => {
                            assert(false);
                        },
                    }
                }
                return Ok(None);
            },
        };
        if let Some(given) = secret {
            if !verify_principal_secret(&principal, given) {
                return Ok(None);
            }
        }
        if return_member_of {
            principal.member_of = self.get_member_of(account_id);
        }
        proof {
            assert(principal@.member_of =~= principal.member_of@);
            assert(principal@ =~= (PrincipalData {
                member_of: principal@.member_of,
                ..self@.principals[account_id]
            }));
        }
        Ok(Some(principal))
    }

    /// Whether the domain is registered locally, case-insensitively.
    pub fn is_local_domain(&self, domain: &str) -> (r: Result<bool, DirectoryError>)
        requires
            self.inv(),
        ensures
            r matches Ok(b) && b == self@.domains.contains(lower(domain@)),
    {
        let key = to_lower(domain);
        Ok(self.has_domain(key.as_str()))
    }

    /// Whether the address is a deliverable local recipient: an exact entry
    /// of the e-mail index, case-insensitively.
    pub fn rcpt(&self, address: &str) -> (r: Result<bool, DirectoryError>)
        requires
            self.inv(),
        ensures
            r matches Ok(b) && b == self@.emails.contains_key(lower(address@)),
    {
        let key = to_lower(address);
        Ok(self.get_email_entry(key.as_str()).is_some())
    }

    /// The ids owning an address: the indexed principal, except that a
    /// mailing-list address expands to the list's members.
    pub fn email_to_ids(&self, address: &str) -> (r: Result<Vec<u32>, DirectoryError>)
        requires
            self.inv(),
        ensures
            r matches Ok(v) && email_ids_ok(self@, lower(address@), v@),
    {
        let key = to_lower(address);
        match self.get_email_entry(key.as_str()) {
            Some(it) => {
                if it.typ == Type::List {
                    Ok(self.get_members(it.account_id))
                } else {
                    let mut v: Vec<u32> = Vec::new();
                    v.push(it.account_id);
                    proof {
                        assert(v@ =~= seq![self@.emails[lower(address@)].account_id]);
                    }
                    Ok(v)
                }
            },
            None => {
                let v: Vec<u32> = Vec::new();
                proof {
                    assert(v@ =~= Seq::<u32>::empty());
                }
                Ok(v)
            },
        }
    }

    /// SMTP VRFY against the internal directory: the address itself, in
    /// stored form, when it is deliverable; empty otherwise.
    pub fn vrfy(&self, address: &str) -> (r: Result<Vec<String>, DirectoryError>)
        requires
            self.inv(),
        ensures
            r matches Ok(v) && vrfy_ok(self@, lower(address@), crate::strutil::str_seq_view(v@)),
    {
        let key = to_lower(address);
        let mut v: Vec<String> = Vec::new();
        if self.get_email_entry(key.as_str()).is_some() {
            v.push(key);
            proof {
                assert(crate::strutil::str_seq_view(v@)[0] == v@[0]@);
            }
        }
        Ok(v)
    }

    /// SMTP EXPN against the internal directory: the member names of the
    /// mailing list owning the address; empty for anything else.
    pub fn expn(&self, address: &str) -> (r: Result<Vec<String>, DirectoryError>)
        requires
            self.inv(),
            wf(self@),
        ensures
            r matches Ok(v) && expn_ok(self@, lower(address@), crate::strutil::str_seq_view(v@)),
    {
        let key = to_lower(address);
        let mut v: Vec<String> = Vec::new();
        match self.get_email_entry(key.as_str()) {
            Some(it) => {
                if it.typ == Type::List {
                    let ids = self.get_members(it.account_id);
                    let n = ids.len();
                    let mut i: usize = 0;
                    while i < n
                        invariant
                            self.inv(),
                            wf(self@),
                            n == ids@.len(),
                            0 <= i <= n,
                            forall|g: u32| ids@.contains(g) <==> self@.members.contains(
                                (it.account_id, g),
                            ),
                            forall|m: Seq<char>|
                                crate::strutil::str_seq_view(v@).contains(m) <==> exists|g: u32|
                                    #[trigger] ids@.take(i as int).contains(g)
                                        && self@.principals.contains_key(g)
                                        && self@.principals[g].name == m,
                        decreases n - i,
                    {
                        let ghost prevv = crate::strutil::str_seq_view(v@);
                        assert(ids@.take(i + 1) =~= ids@.take(i as int).push(ids@[i as int]));
                        match self.get_principal(ids[i]) {
                            Some(p) => {
                                v.push(p.name);
                                proof {
                                    let sv = crate::strutil::str_seq_view(v@);
                                    assert(sv =~= prevv.push(
                                        self@.principals[ids@[i as int]].name,
                                    ));
                                    assert forall|m: Seq<char>| sv.contains(m) implies exists|
                                        g: u32,
                                    |
                                        #[trigger] ids@.take(i + 1).contains(g)
                                            && self@.principals.contains_key(g)
                                            && self@.principals[g].name == m by {
                                        let j = choose|j: int| 0 <= j < sv.len() && sv[j] == m;
                                        if j < prevv.len() {
                                            assert(prevv[j] == m);
                                            assert(prevv.contains(m));
                                            let g = choose|g: u32|
                                                #[trigger] ids@.take(i as int).contains(g)
                                                    && self@.principals.contains_key(g)
                                                    && self@.principals[g].name == m;
                                            let jj = choose|jj: int|
                                                0 <= jj < ids@.take(i as int).len() && ids@.take(
                                                    i as int,
                                                )[jj] == g;
                                            assert(ids@.take(i + 1)[jj] == g);
                                            assert(ids@.take(i + 1).contains(g));
                                        } else {
                                            let g = ids@[i as int];
                                            assert(ids@.take(i + 1)[i as int] == g);
                                            assert(ids@.take(i + 1).contains(g));
                                        }
                                    }
                                    assert forall|m: Seq<char>|
                                        (exists|g: u32|
                                            #[trigger] ids@.take(i + 1).contains(g)
                                                && self@.principals.contains_key(g)
                                                && self@.principals[g].name == m) implies sv.contains(
                                        m,
                                    ) by {
                                        let g = choose|g: u32|
                                            #[trigger] ids@.take(i + 1).contains(g)
                                                && self@.principals.contains_key(g)
                                                && self@.principals[g].name == m;
                                        if ids@.take(i as int).contains(g) {
                                            assert(prevv.contains(m));
                                            let j = choose|j: int|
                                                0 <= j < prevv.len() && prevv[j] == m;
                                            assert(sv[j] == m);
                                        } else {
                                            let jj = choose|jj: int|
                                                0 <= jj < ids@.take(i + 1).len() && #[trigger] ids@.take(
                                                    i + 1,
                                                )[jj] == g;
                                            if jj < i {
                                                assert(ids@.take(i as int)[jj] == g);
                                            }
                                            assert(g == ids@[i as int]);
                                            assert(sv[sv.len() - 1] == m);
                                        }
                                    }
                                }
                            },
                            None => {
                                proof {
                                    assert(ids@.contains(ids@[i as int]));
                                    assert(self@.members.contains((it.account_id, ids@[i as int])));
                                    assert(self@.member_of.contains((ids@[i as int], it.account_id)));
                                    assert(false);
                                }
                            },
                        }
                        i = i + 1;
                    }
                    proof {
                        assert(ids@.take(n as int) =~= ids@);
                        assert forall|m: Seq<char>|
                            crate::strutil::str_seq_view(v@).contains(m) <==> exists|g: u32|
                                #[trigger] self@.members.contains((it.account_id, g))
                                    && self@.principals.contains_key(g) && self@.principals[g].name
                                    == m by {
                            if crate::strutil::str_seq_view(v@).contains(m) {
                                let g = choose|g: u32|
                                    #[trigger] ids@.contains(g) && self@.principals.contains_key(g)
                                        && self@.principals[g].name == m;
                            }
                            if exists|g: u32|
                                #[trigger] self@.members.contains((it.account_id, g))
                                    && self@.principals.contains_key(g) && self@.principals[g].name
                                    == m {
                                let g = choose|g: u32|
                                    #[trigger] self@.members.contains((it.account_id, g))
                                        && self@.principals.contains_key(g)
                                        && self@.principals[g].name == m;
                                assert(ids@.contains(g));
                            }
                        }
                    }
                }
            },
            None => {},
        }
        Ok(v)
    }
}

} // verus!
