//! The directory management engine: invariant-preserving CRUD over
//! principals and domains, built only on the store's point reads and atomic
//! guarded batches.
//!
//! Names, e-mail addresses and domains are stored lowercased; every lookup
//! lowercases its argument first, which makes the whole directory
//! case-insensitive.

use vstd::assert_sets_equal;
use vstd::map::*;
use vstd::prelude::*;

use crate::store::{apply_op, apply_ops, guard_holds, guards_hold, lemma_apply_one, lemma_apply_push, lemma_apply_three, lemma_push_contains, ops_view, Op, OpData, Store, StoreData};
use crate::assoc::{assoc_map, assoc_unique, lemma_assoc_contains, lemma_assoc_get, no_dups};
use crate::strutil::{dec_str, email_domain, is_lower, lemma_lex_le_antisymmetric, lemma_lex_le_total, lemma_lex_le_transitive, lex_le, lower, str_lex_le, str_seq_view, str_vec_contains, to_lower, u32_to_string};
use crate::types::{
    DirectoryError, DirectoryErrorData, ManagementError, ManagementErrorData, Principal,
    PrincipalData, PrincipalField, PrincipalIdType, QueryBy, Type,
};

verus! {

/// Well-formedness of one principal record within a directory state.
pub open spec fn wf_principal(s: StoreData, i: u32) -> bool {
    let p = s.principals[i];
    &&& p.id == i
    &&& i < s.next_id
    &&& p.name.len() > 0
    &&& is_lower(p.name)
    &&& s.names.contains_key(p.name)
    &&& s.names[p.name].account_id == i
    &&& s.names[p.name].typ == p.typ.spec_base_type()
    &&& p.member_of.len() == 0
    &&& forall|k: int|
        0 <= k < p.emails.len() ==> {
            &&& is_lower(#[trigger] p.emails[k])
            &&& s.emails.contains_key(p.emails[k])
            &&& s.emails[p.emails[k]].account_id == i
        }
    &&& forall|k: int, l: int| 0 <= k < l < p.emails.len() ==> p.emails[k] != p.emails[l]
}

/// Well-formedness of the whole directory state: the referential integrity
/// that every management operation preserves.
pub open spec fn wf(s: StoreData) -> bool {
    // The name index points at existing records carrying that name.
    &&& forall|n: Seq<char>|
        #[trigger] s.names.contains_key(n) ==> {
            &&& s.principals.contains_key(s.names[n].account_id)
            &&& s.principals[s.names[n].account_id].name == n
        }
        // Every record is indexed under its own name, lowercased and
        // non-empty, and its e-mail addresses are indexed back to it.
    &&& forall|i: u32| #[trigger] s.principals.contains_key(i) ==> wf_principal(s, i)
    // The e-mail index points at existing records listing that address.
    &&& forall|e: Seq<char>|
        #[trigger] s.emails.contains_key(e) ==> {
            &&& s.principals.contains_key(s.emails[e].account_id)
            &&& s.principals[s.emails[e].account_id].emails.contains(e)
            &&& s.emails[e].typ == s.principals[s.emails[e].account_id].typ.spec_base_type()
        }
        // Group membership is a bidirectional pair of entries.
    &&& forall|a: u32, b: u32|
        #[trigger] s.member_of.contains((a, b)) <==> #[trigger] s.members.contains((b, a))
    // Membership endpoints are existing principals.
    &&& forall|a: u32, b: u32|
        #[trigger] s.member_of.contains((a, b)) ==> s.principals.contains_key(a)
            && s.principals.contains_key(b)
    // Domains are stored lowercased and dot-qualified.
    &&& forall|d: Seq<char>|
        #[trigger] s.domains.contains(d) ==> is_lower(d) && d.contains('.')
}

/// The record written for an auto-provisioned account.
pub open spec fn fresh_principal(id: u32, name: Seq<char>) -> PrincipalData<u32> {
    PrincipalData {
        id,
        typ: Type::Individual,
        quota: 0,
        name,
        secrets: Seq::empty(),
        emails: Seq::empty(),
        member_of: Seq::empty(),
        description: None,
    }
}

/// The state after auto-provisioning a fresh account under `name`.
pub open spec fn provisioned(s: StoreData, name: Seq<char>) -> StoreData {
    StoreData {
        names: s.names.insert(
            name,
            PrincipalIdType { account_id: s.next_id, typ: Type::Individual },
        ),
        principals: s.principals.insert(s.next_id, fresh_principal(s.next_id, name)),
        next_id: (s.next_id + 1) as u32,
        ..s
    }
}

pub proof fn lemma_provisioned_wf(s: StoreData, name: Seq<char>)
    requires
        wf(s),
        !s.names.contains_key(name),
        name.len() > 0,
        is_lower(name),
        s.next_id < u32::MAX,
    ensures
        wf(provisioned(s, name)),
{
    let t = provisioned(s, name);
    let id = s.next_id;
    assert(!s.principals.contains_key(id));
    assert forall|n: Seq<char>| #[trigger] t.names.contains_key(n) implies {
        &&& t.principals.contains_key(t.names[n].account_id)
        &&& t.principals[t.names[n].account_id].name == n
    } by {
        if n == name {
        } else {
            assert(s.names.contains_key(n));
            assert(s.names[n].account_id != id);
        }
    }
    assert forall|i: u32| #[trigger] t.principals.contains_key(i) implies wf_principal(t, i) by {
        if i == id {
            assert(t.principals[i] == fresh_principal(id, name));
        } else {
            assert(s.principals.contains_key(i));
            assert(wf_principal(s, i));
            assert(s.principals[i].name != name);
            assert(t.principals[i] == s.principals[i]);
        }
    }
    assert forall|e: Seq<char>| #[trigger] t.emails.contains_key(e) implies {
        &&& t.principals.contains_key(t.emails[e].account_id)
        &&& t.principals[t.emails[e].account_id].emails.contains(e)
        &&& t.emails[e].typ == t.principals[t.emails[e].account_id].typ.spec_base_type()
    } by {
        assert(s.emails.contains_key(e));
        assert(s.emails[e].account_id != id);
    }
}

impl Store {
    /// Name-index lookup: the id of the account with this (case-insensitive)
    /// name. Absence is not an error.
    pub fn get_account_id(&self, name: &str) -> (r: Result<Option<u32>, DirectoryError>)
        requires
            self.inv(),
        ensures
            match r {
                Ok(Some(id)) => self@.names.contains_key(lower(name@)) && id == self@.names[lower(
                    name@,
                )].account_id,
                Ok(None) => !self@.names.contains_key(lower(name@)),
                Err(_) => false,
            },
    {
        let key = to_lower(name);
        match self.get_name_entry(key.as_str()) {
            Some(it) => Ok(Some(it.account_id)),
            None => Ok(None),
        }
    }

    /// Reverse lookup: the stored name of this account id. A missing record
    /// is reported as absence, never as an error.
    pub fn get_account_name(&self, account_id: u32) -> (r: Result<Option<String>, DirectoryError>)
        requires
            self.inv(),
        ensures
            match r {
                Ok(Some(n)) => self@.principals.contains_key(account_id) && n@
                    == self@.principals[account_id].name,
                Ok(None) => !self@.principals.contains_key(account_id),
                Err(_) => false,
            },
    {
        match self.get_principal(account_id) {
            Some(p) => Ok(Some(p.name)),
            None => Ok(None),
        }
    }

    /// Look up an account id by name, creating a fresh individual account if
    /// the name is unknown. Idempotent: a second call with the same name
    /// returns the same id and changes nothing.
    pub fn get_or_create_account_id(&mut self, name: &str) -> (r: Result<u32, DirectoryError>)
        requires
            old(self).inv(),
            wf(old(self)@),
            old(self)@.next_id < u32::MAX,
        ensures
            final(self).inv(),
            wf(final(self)@),
            name@.len() == 0 ==> (r matches Err(e) && e@ == DirectoryErrorData::Management(
                ManagementErrorData::MissingField(PrincipalField::Name),
            ) && final(self)@ == old(self)@),
            name@.len() > 0 && old(self)@.names.contains_key(lower(name@)) ==> (r matches Ok(id)
                && id == old(self)@.names[lower(name@)].account_id && final(self)@ == old(self)@),
            name@.len() > 0 && !old(self)@.names.contains_key(lower(name@)) ==> (r matches Ok(id)
                && id == old(self)@.next_id && final(self)@ == provisioned(old(self)@, lower(name@))),
    {
        if name.unicode_len() == 0 {
            return Err(
                DirectoryError::Management(ManagementError::MissingField(PrincipalField::Name)),
            );
        }
        let key = to_lower(name);
        if let Some(it) = self.get_name_entry(key.as_str()) {
            return Ok(it.account_id);
        }
        // The name is free: assign a fresh id and insert the name entry and
        // record under a guard asserting the name is still free.
        let account_id = self.allocate_id();
        let record = Principal {
            id: account_id,
            typ: Type::Individual,
            quota: 0,
            name: key.clone(),
            secrets: Vec::new(),
            emails: Vec::new(),
            member_of: Vec::new(),
            description: None,
        };
        proof {
            assert(record@ =~= fresh_principal(account_id, key@));
        }
        let mut batch: Vec<Op> = Vec::new();
        batch.push(Op::AssertNameAbsent(key.clone()));
        batch.push(
            Op::SetName(key.clone(), PrincipalIdType::new(account_id, Type::Individual)),
        );
        batch.push(Op::SetPrincipal(account_id, record));
        let ghost bops = ops_view(batch@);
        let ghost pre = self@;
        proof {
            assert(bops[0] == batch@[0]@);
            assert(bops[1] == batch@[1]@);
            assert(bops[2] == batch@[2]@);
            assert(guard_holds(pre, bops[0]));
            assert(guard_holds(pre, bops[1]));
            assert(guard_holds(pre, bops[2]));
            assert(guards_hold(pre, bops));
        }
        match self.write(batch) {
            Ok(_) => {
                proof {
                    lemma_apply_three(pre, bops);
                    assert(self@ =~= provisioned(old(self)@, key@));
                    lemma_provisioned_wf(old(self)@, key@);
                }
                Ok(account_id)
            },
            Err(e) => {
                // The guard was checked a moment ago in the same state, so
                // the batch cannot be rejected.
                proof {
                    assert(false);
                }
                Err(DirectoryError::Store(e))
            },
        }
    }

    /// Register a local domain; the name must be dot-qualified and is stored
    /// lowercased.
    pub fn create_domain(&mut self, domain: &str) -> (r: Result<(), DirectoryError>)
        requires
            old(self).inv(),
            wf(old(self)@),
        ensures
            final(self).inv(),
            wf(final(self)@),
            !domain@.contains('.') ==> (r matches Err(e) && e@ == DirectoryErrorData::Management(
                ManagementErrorData::MissingField(PrincipalField::Name),
            ) && final(self)@ == old(self)@),
            domain@.contains('.') ==> (r matches Ok(u) && final(self)@ == (StoreData {
                domains: old(self)@.domains.insert(lower(domain@)),
                ..old(self)@
            })),
    {
        if !crate::strutil::contains_char(domain, '.') {
            return Err(
                DirectoryError::Management(ManagementError::MissingField(PrincipalField::Name)),
            );
        }
        let key = to_lower(domain);
        proof {
            lemma_lower_keeps_dot(domain@);
            crate::strutil::lemma_lower_is_lower(domain@);
        }
        let mut batch: Vec<Op> = Vec::new();
        batch.push(Op::SetDomain(key));
        let ghost bops = ops_view(batch@);
        let ghost pre = self@;
        proof {
            assert(bops[0] == batch@[0]@);
            assert(guards_hold(pre, bops));
        }
        match self.write(batch) {
            Ok(_) => {
                proof {
                    lemma_apply_one(pre, bops);
                    assert(self@ =~= (StoreData {
                        domains: old(self)@.domains.insert(lower(domain@)),
                        ..old(self)@
                    }));
                    assert forall|d: Seq<char>|
                        #[trigger] self@.domains.contains(d) implies is_lower(d) && d.contains(
                        '.',
                    ) by {
                        if d != lower(domain@) {
                            assert(old(self)@.domains.contains(d));
                        }
                    }
                }
                Ok(())
            },
            Err(e) => {
                proof {
                    assert(false);
                }
                Err(DirectoryError::Store(e))
            },
        }
    }

    /// Remove a local domain; principals keep any addresses under it.
    pub fn delete_domain(&mut self, domain: &str) -> (r: Result<(), DirectoryError>)
        requires
            old(self).inv(),
            wf(old(self)@),
        ensures
            final(self).inv(),
            wf(final(self)@),
            !domain@.contains('.') ==> (r matches Err(e) && e@ == DirectoryErrorData::Management(
                ManagementErrorData::MissingField(PrincipalField::Name),
            ) && final(self)@ == old(self)@),
            domain@.contains('.') ==> (r matches Ok(u) && final(self)@ == (StoreData {
                domains: old(self)@.domains.remove(lower(domain@)),
                ..old(self)@
            })),
    {
        if !crate::strutil::contains_char(domain, '.') {
            return Err(
                DirectoryError::Management(ManagementError::MissingField(PrincipalField::Name)),
            );
        }
        let key = to_lower(domain);
        let mut batch: Vec<Op> = Vec::new();
        batch.push(Op::ClearDomain(key));
        let ghost bops = ops_view(batch@);
        let ghost pre = self@;
        proof {
            assert(bops[0] == batch@[0]@);
            assert(guards_hold(pre, bops));
        }
        match self.write(batch) {
            Ok(_) => {
                proof {
                    lemma_apply_one(pre, bops);
                    assert(self@ =~= (StoreData {
                        domains: old(self)@.domains.remove(lower(domain@)),
                        ..old(self)@
                    }));
                    assert forall|d: Seq<char>|
                        #[trigger] self@.domains.contains(d) implies is_lower(d) && d.contains(
                        '.',
                    ) by {
                        assert(old(self)@.domains.contains(d));
                    }
                }
                Ok(())
            },
            Err(e) => {
                proof {
                    assert(false);
                }
                Err(DirectoryError::Store(e))
            },
        }
    }
}

/// Strictly ascending in lexicographic order.
pub open spec fn sorted_lex_strict(s: Seq<Seq<char>>) -> bool {
    forall|i: int, j: int|
        0 <= i < j < s.len() ==> lex_le(#[trigger] s[i], #[trigger] s[j]) && s[i] != s[j]
}

/// Insert into a lexicographically sorted list of distinct strings, keeping
/// it sorted.
pub(crate) fn insert_sorted_str(v: &mut Vec<String>, x: String)
    requires
        sorted_lex_strict(str_seq_view(old(v)@)),
        !str_seq_view(old(v)@).contains(x@),
    ensures
        sorted_lex_strict(str_seq_view(final(v)@)),
        str_seq_view(final(v)@).to_set() == str_seq_view(old(v)@).to_set().insert(x@),
        final(v)@.len() == old(v)@.len() + 1,
{
    let n = v.len();
    let mut i: usize = 0;
    while i < n && str_lex_le(v[i].as_str(), x.as_str())
        invariant
            v == old(v),
            n == v@.len(),
            0 <= i <= n,
            !str_seq_view(v@).contains(x@),
            forall|j: int|
                0 <= j < i ==> lex_le(#[trigger] str_seq_view(v@)[j], x@) && str_seq_view(v@)[j]
                    != x@,
        decreases n - i,
    {
        proof {
            assert(str_seq_view(v@)[i as int] == v@[i as int]@);
            if v@[i as int]@ == x@ {
                assert(str_seq_view(v@).contains(x@));
            }
        }
        i = i + 1;
    }
    proof {
        if i < n {
            assert(str_seq_view(v@)[i as int] == v@[i as int]@);
        }
        assert forall|j: int|
            i <= j < v@.len() implies lex_le(x@, #[trigger] str_seq_view(v@)[j]) && str_seq_view(
            v@,
        )[j] != x@ by {
            if str_seq_view(v@)[j] == x@ {
                assert(str_seq_view(v@).contains(x@));
            }
            if j == i {
                lemma_lex_le_total(x@, str_seq_view(v@)[j]);
            } else {
                assert(lex_le(str_seq_view(v@)[i as int], str_seq_view(v@)[j]));
                lemma_lex_le_total(x@, str_seq_view(v@)[i as int]);
                lemma_lex_le_transitive(x@, str_seq_view(v@)[i as int], str_seq_view(v@)[j]);
            }
        }
    }
    let ghost before = v@;
    let ghost xv = x@;
    v.insert(i, x);
    proof {
        assert(v@ =~= before.take(i as int).push(x).add(before.skip(i as int)));
        let sv = str_seq_view(v@);
        let sb = str_seq_view(before);
        assert forall|j: int| 0 <= j < v@.len() implies #[trigger] sv[j] == (if j < i {
            sb[j]
        } else if j == i {
            xv
        } else {
            sb[j - 1]
        }) by {
            assert(sv[j] == v@[j]@);
            if j < i {
                assert(v@[j] == before[j]);
            } else if j > i {
                assert(v@[j] == before[j - 1]);
            }
        }
        assert forall|a: int, b: int| 0 <= a < b < sv.len() implies lex_le(
            #[trigger] sv[a],
            #[trigger] sv[b],
        ) && sv[a] != sv[b] by {
            if a == i {
                assert(sv[b] == sb[b - 1]);
            } else if b == i {
                assert(sv[a] == sb[a]);
            } else if a < i && b > i {
                assert(lex_le(sb[a], xv) && lex_le(xv, sb[b - 1]));
                lemma_lex_le_transitive(sb[a], xv, sb[b - 1]);
                if sb[a] == sb[b - 1] {
                    lemma_lex_le_antisymmetric(sb[a], xv);
                }
            }
        }
        assert forall|y: Seq<char>| sv.to_set().contains(y) implies sb.to_set().insert(
            xv,
        ).contains(y) by {
            let j = choose|j: int| 0 <= j < sv.len() && sv[j] == y;
            if j < i {
                assert(sb[j] == y);
            } else if j > i {
                assert(sb[j - 1] == y);
            }
        }
        assert forall|y: Seq<char>| sb.to_set().insert(xv).contains(y) implies sv.to_set().contains(
            y,
        ) by {
            if y == xv {
                assert(sv[i as int] == y);
            } else {
                let j = choose|j: int| 0 <= j < sb.len() && sb[j] == y;
                if j < i {
                    assert(sv[j] == y);
                } else {
                    assert(sv[j + 1] == y);
                }
            }
        }
        assert(sv.to_set() =~= sb.to_set().insert(xv));
    }
}

impl Store {
    /// List account names ascending from a cursor: every listed name is a
    /// stored name at or after `start_from` that carries the requested base
    /// type, the list is sorted, and it holds the first `limit` such names
    /// (`limit == 0` means all of them).
    pub fn list_accounts(
        &self,
        start_from: Option<&str>,
        typ: Option<Type>,
        limit: usize,
    ) -> (r: Result<Vec<String>, DirectoryError>)
        requires
            self.inv(),
        ensures
            r matches Ok(v) && ({
                let from = match start_from {
                    Some(f) => f@,
                    None => Seq::<char>::empty(),
                };
                let keys = Set::new(
                    |n: Seq<char>|
                        self@.names.contains_key(n) && lex_le(from, n) && (typ matches Some(t)
                            ==> self@.names[n].typ == t),
                );
                &&& sorted_lex_strict(str_seq_view(v@))
                &&& forall|j: int|
                    0 <= j < v@.len() ==> keys.contains(#[trigger] str_seq_view(v@)[j])
                &&& (limit == 0 ==> str_seq_view(v@).to_set() == keys)
                &&& (limit > 0 ==> v@.len() <= limit && (v@.len() == limit || str_seq_view(
                    v@,
                ).to_set() == keys))
                &&& forall|n: Seq<char>|
                    keys.contains(n) && !str_seq_view(v@).to_set().contains(n)
                        ==> forall|j: int|
                        0 <= j < v@.len() ==> lex_le(#[trigger] str_seq_view(v@)[j], n)
            }),
    {
        let snap = self.names_snapshot();
        let ghost from = match start_from {
            Some(f) => f@,
            None => Seq::<char>::empty(),
        };
        let ghost keys = Set::new(
            |n: Seq<char>|
                self@.names.contains_key(n) && lex_le(from, n) && (typ matches Some(t)
                    ==> self@.names[n].typ == t),
        );
        let n = snap.len();
        let mut sorted: Vec<String> = Vec::new();
        let mut i: usize = 0;
        while i < n
            invariant
                n == snap@.len(),
                0 <= i <= n,
                assoc_unique(snap@),
                assoc_map(snap@) == self@.names,
                sorted_lex_strict(str_seq_view(sorted@)),
                forall|j: int|
                    0 <= j < sorted@.len() ==> keys.contains(#[trigger] str_seq_view(sorted@)[j]),
                forall|j: int|
                    0 <= j < i && keys.contains((#[trigger] snap@[j]).0@) ==> str_seq_view(
                        sorted@,
                    ).to_set().contains(snap@[j].0@),
                forall|m: Seq<char>|
                    #[trigger] str_seq_view(sorted@).to_set().contains(m) ==> exists|j: int|
                        0 <= j < i && (#[trigger] snap@[j]).0@ == m,
                from == (match start_from {
                    Some(f) => f@,
                    None => Seq::<char>::empty(),
                }),
                keys == Set::new(
                    |n0: Seq<char>|
                        self@.names.contains_key(n0) && lex_le(from, n0) && (typ matches Some(t)
                            ==> self@.names[n0].typ == t),
                ),
            decreases n - i,
        {
            let entry_name = &snap[i].0;
            let entry_it = snap[i].1;
            let passes_from = match start_from {
                Some(f) => str_lex_le(f, entry_name.as_str()),
                None => {
                    proof {
                        lemma_lex_empty(entry_name@);
                    }
                    true
                },
            };
            let passes_typ = match typ {
                Some(t) => entry_it.typ == t,
                None => true,
            };
            if passes_from && passes_typ {
                proof {
                    lemma_assoc_get(snap@, i as int);
                    assert(keys.contains(snap@[i as int].0@));
                    if str_seq_view(sorted@).to_set().contains(entry_name@) {
                        let j = choose|j: int|
                            0 <= j < i && (#[trigger] snap@[j]).0@ == entry_name@;
                        assert(snap@[j].0@ == snap@[i as int].0@);
                        assert(false);
                    }
                }
                let ghost oldsv = str_seq_view(sorted@);
                insert_sorted_str(&mut sorted, entry_name.clone());
                proof {
                    assert forall|m: Seq<char>|
                        #[trigger] str_seq_view(sorted@).to_set().contains(m) implies exists|
                        j: int,
                    |
                        0 <= j < i + 1 && (#[trigger] snap@[j]).0@ == m by {
                        if m == entry_name@ {
                            assert(snap@[i as int].0@ == m);
                        }
                    }
                    assert forall|j: int|
                        0 <= j < sorted@.len() implies keys.contains(
                        #[trigger] str_seq_view(sorted@)[j],
                    ) by {
                        let sv = str_seq_view(sorted@);
                        assert(sv.to_set().contains(sv[j]));
                        if sv[j] != entry_name@ {
                            assert(oldsv.to_set().contains(sv[j]));
                            let k = choose|k: int| 0 <= k < oldsv.len() && oldsv[k] == sv[j];
                            assert(keys.contains(oldsv[k]));
                        }
                    }
                }
            } else {
                proof {
                    if keys.contains(snap@[i as int].0@) {
                        lemma_assoc_get(snap@, i as int);
                    }
                }
            }
            i = i + 1;
        }
        proof {
            // Everything the scan kept is a key, and every key was kept.
            assert forall|m: Seq<char>| keys.contains(m) implies str_seq_view(
                sorted@,
            ).to_set().contains(m) by {
                lemma_assoc_contains(snap@, m);
                let j = choose|j: int| 0 <= j < snap@.len() && (#[trigger] snap@[j]).0@ == m;
            }
            assert(str_seq_view(sorted@).to_set() =~= keys);
        }
        if limit > 0 && sorted.len() > limit {
            let ghost before = sorted@;
            sorted.truncate(limit);
            proof {
                assert(sorted@ =~= before.take(limit as int));
                let sv = str_seq_view(sorted@);
                let sb = str_seq_view(before);
                assert forall|j: int| 0 <= j < sorted@.len() implies #[trigger] sv[j] == sb[j] by {
                    assert(sorted@[j] == before[j]);
                }
                assert forall|m: Seq<char>|
                    keys.contains(m) && !sv.to_set().contains(m) implies forall|j: int|
                    0 <= j < sorted@.len() ==> lex_le(#[trigger] sv[j], m) by {
                    let k = choose|k: int| 0 <= k < sb.len() && sb[k] == m;
                    assert forall|j: int| 0 <= j < sorted@.len() implies lex_le(
                        #[trigger] sv[j],
                        m,
                    ) by {
                        if k < limit {
                            assert(sv[k as int] == m);
                            assert(sv.to_set().contains(m));
                        }
                        if j < k {
                            assert(lex_le(sb[j], sb[k]));
                        } else {
                            assert(lex_le(sb[k], sb[j]) && sb[k] != sb[j]);
                            assert(sv[j] == sb[j]);
                            assert(sv.to_set().contains(sb[j]));
                            assert(false);
                        }
                    }
                }
            }
        }
        Ok(sorted)
    }

    /// List registered domains ascending from a cursor; `limit == 0` lists
    /// them all.
    pub fn list_domains(&self, start_from: Option<&str>, limit: usize) -> (r: Result<
        Vec<String>,
        DirectoryError,
    >)
        requires
            self.inv(),
        ensures
            r matches Ok(v) && ({
                let from = match start_from {
                    Some(f) => f@,
                    None => Seq::<char>::empty(),
                };
                let keys = Set::new(
                    |d: Seq<char>| self@.domains.contains(d) && lex_le(from, d),
                );
                &&& sorted_lex_strict(str_seq_view(v@))
                &&& forall|j: int|
                    0 <= j < v@.len() ==> keys.contains(#[trigger] str_seq_view(v@)[j])
                &&& (limit == 0 ==> str_seq_view(v@).to_set() == keys)
                &&& (limit > 0 ==> v@.len() <= limit && (v@.len() == limit || str_seq_view(
                    v@,
                ).to_set() == keys))
                &&& forall|d: Seq<char>|
                    keys.contains(d) && !str_seq_view(v@).to_set().contains(d)
                        ==> forall|j: int|
                        0 <= j < v@.len() ==> lex_le(#[trigger] str_seq_view(v@)[j], d)
            }),
    {
        let snap = self.domains_snapshot();
        let ghost from = match start_from {
            Some(f) => f@,
            None => Seq::<char>::empty(),
        };
        let ghost keys = Set::new(|d: Seq<char>| self@.domains.contains(d) && lex_le(from, d));
        let n = snap.len();
        let mut sorted: Vec<String> = Vec::new();
        let mut i: usize = 0;
        while i < n
            invariant
                n == snap@.len(),
                0 <= i <= n,
                no_dups(str_seq_view(snap@)),
                str_seq_view(snap@).to_set() == self@.domains,
                sorted_lex_strict(str_seq_view(sorted@)),
                forall|j: int|
                    0 <= j < sorted@.len() ==> keys.contains(#[trigger] str_seq_view(sorted@)[j]),
                forall|j: int|
                    0 <= j < i && keys.contains(#[trigger] snap@[j]@) ==> str_seq_view(
                        sorted@,
                    ).to_set().contains(snap@[j]@),
                forall|m: Seq<char>|
                    #[trigger] str_seq_view(sorted@).to_set().contains(m) ==> exists|j: int|
                        0 <= j < i && #[trigger] snap@[j]@ == m,
                from == (match start_from {
                    Some(f) => f@,
                    None => Seq::<char>::empty(),
                }),
                keys == Set::new(|d: Seq<char>| self@.domains.contains(d) && lex_le(from, d)),
            decreases n - i,
        {
            let entry = &snap[i];
            let passes_from = match start_from {
                Some(f) => str_lex_le(f, entry.as_str()),
                None => {
                    proof {
                        lemma_lex_empty(entry@);
                    }
                    true
                },
            };
            if passes_from {
                proof {
                    assert(str_seq_view(snap@)[i as int] == snap@[i as int]@);
                    assert(self@.domains.contains(snap@[i as int]@));
                    assert(keys.contains(snap@[i as int]@));
                    if str_seq_view(sorted@).to_set().contains(entry@) {
                        let j = choose|j: int| 0 <= j < i && #[trigger] snap@[j]@ == entry@;
                        assert(str_seq_view(snap@)[j] == snap@[j]@);
                        assert(str_seq_view(snap@)[j] == str_seq_view(snap@)[i as int]);
                        assert(false);
                    }
                }
                let ghost oldsv = str_seq_view(sorted@);
                insert_sorted_str(&mut sorted, entry.clone());
                proof {
                    assert forall|m: Seq<char>|
                        #[trigger] str_seq_view(sorted@).to_set().contains(m) implies exists|
                        j: int,
                    |
                        0 <= j < i + 1 && #[trigger] snap@[j]@ == m by {
                        if m == entry@ {
                            assert(snap@[i as int]@ == m);
                        }
                    }
                    assert forall|j: int|
                        0 <= j < sorted@.len() implies keys.contains(
                        #[trigger] str_seq_view(sorted@)[j],
                    ) by {
                        let sv = str_seq_view(sorted@);
                        assert(sv.to_set().contains(sv[j]));
                        if sv[j] != entry@ {
                            assert(oldsv.to_set().contains(sv[j]));
                            let k = choose|k: int| 0 <= k < oldsv.len() && oldsv[k] == sv[j];
                            assert(keys.contains(oldsv[k]));
                        }
                    }
                }
            }
            i = i + 1;
        }
        proof {
            assert forall|m: Seq<char>| keys.contains(m) implies str_seq_view(
                sorted@,
            ).to_set().contains(m) by {
                assert(str_seq_view(snap@).to_set().contains(m));
                let j = choose|j: int|
                    0 <= j < str_seq_view(snap@).len() && str_seq_view(snap@)[j] == m;
                assert(snap@[j]@ == m);
            }
            assert(str_seq_view(sorted@).to_set() =~= keys);
        }
        if limit > 0 && sorted.len() > limit {
            let ghost before = sorted@;
            sorted.truncate(limit);
            proof {
                assert(sorted@ =~= before.take(limit as int));
                let sv = str_seq_view(sorted@);
                let sb = str_seq_view(before);
                assert forall|j: int| 0 <= j < sorted@.len() implies #[trigger] sv[j] == sb[j] by {
                    assert(sorted@[j] == before[j]);
                }
                assert forall|m: Seq<char>|
                    keys.contains(m) && !sv.to_set().contains(m) implies forall|j: int|
                    0 <= j < sorted@.len() ==> lex_le(#[trigger] sv[j], m) by {
                    let k = choose|k: int| 0 <= k < sb.len() && sb[k] == m;
                    assert forall|j: int| 0 <= j < sorted@.len() implies lex_le(
                        #[trigger] sv[j],
                        m,
                    ) by {
                        if k < limit {
                            assert(sv[k as int] == m);
                            assert(sv.to_set().contains(m));
                        }
                        if j < k {
                            assert(lex_le(sb[j], sb[k]));
                        } else {
                            assert(lex_le(sb[k], sb[j]) && sb[k] != sb[j]);
                            assert(sv[j] == sb[j]);
                            assert(sv.to_set().contains(sb[j]));
                            assert(false);
                        }
                    }
                }
            }
        }
        Ok(sorted)
    }
}

/// The fields a translation between transport and storage form carries over
/// unchanged.
pub open spec fn carried<A, B>(a: PrincipalData<A>, b: PrincipalData<B>) -> bool {
    &&& a.id == b.id
    &&& a.typ == b.typ
    &&& a.quota == b.quota
    &&& a.name == b.name
    &&& a.secrets == b.secrets
    &&& a.emails == b.emails
    &&& a.description == b.description
}

/// The names of the existing principals among `ids`, in order; missing ids
/// are silently skipped.
pub open spec fn names_of(s: StoreData, ids: Seq<u32>) -> Seq<Seq<char>>
    decreases ids.len(),
{
    if ids.len() == 0 {
        Seq::empty()
    } else {
        names_of(s, ids.drop_last()) + (if s.principals.contains_key(ids.last()) {
            seq![s.principals[ids.last()].name]
        } else {
            Seq::<Seq<char>>::empty()
        })
    }
}

/// Resolving a list of group names to ids, in order, optionally provisioning
/// the missing ones: the state after the walk, and the ids or the first name
/// that could not be resolved. Provisions made before a failure remain.
pub open spec fn resolve_groups(s: StoreData, ms: Seq<Seq<char>>, create: bool) -> (
    StoreData,
    Result<Seq<u32>, Seq<char>>,
)
    decreases ms.len(),
{
    if ms.len() == 0 {
        (s, Ok(Seq::empty()))
    } else {
        let m0 = lower(ms[0]);
        if s.names.contains_key(m0) {
            let id = s.names[m0].account_id;
            let (s2, rest) = resolve_groups(s, ms.drop_first(), create);
            (
                s2,
                match rest {
                    Ok(ids) => Ok(seq![id] + ids),
                    Err(e) => Err(e),
                },
            )
        } else if create && ms[0].len() > 0 {
            let id = s.next_id;
            let (s2, rest) = resolve_groups(provisioned(s, m0), ms.drop_first(), create);
            (
                s2,
                match rest {
                    Ok(ids) => Ok(seq![id] + ids),
                    Err(e) => Err(e),
                },
            )
        } else {
            (s, Err(ms[0]))
        }
    }
}

/// Without provisioning, resolution never changes the state.
pub proof fn lemma_resolve_groups_pure(s: StoreData, ms: Seq<Seq<char>>)
    ensures
        resolve_groups(s, ms, false).0 == s,
    decreases ms.len(),
{
    if ms.len() > 0 {
        let m0 = lower(ms[0]);
        if s.names.contains_key(m0) {
            lemma_resolve_groups_pure(s, ms.drop_first());
        }
    }
}

impl Store {
    /// Translate a stored record to transport form: group ids become group
    /// names; ids with no record are skipped.
    pub fn map_group_ids(&self, principal: Principal<u32>) -> (r: Result<
        Principal<String>,
        DirectoryError,
    >)
        requires
            self.inv(),
        ensures
            match r {
                Ok(q) => carried(q@, principal@) && q@.member_of == names_of(
                    self@,
                    principal@.member_of,
                ),
                Err(_) => false,
            },
    {
        let ghost pv = principal@;
        let ids = principal.member_of;
        let mut mapped = Principal {
            id: principal.id,
            typ: principal.typ,
            quota: principal.quota,
            name: principal.name,
            secrets: principal.secrets,
            emails: principal.emails,
            member_of: Vec::<String>::new(),
            description: principal.description,
        };
        let n = ids.len();
        let mut i: usize = 0;
        proof {
            assert(pv.member_of =~= ids@);
            assert(carried(mapped@, pv));
        }
        while i < n
            invariant
                self.inv(),
                n == ids@.len(),
                0 <= i <= n,
                carried(mapped@, pv),
                str_seq_view(mapped.member_of@) =~= names_of(self@, ids@.take(i as int)),
            decreases n - i,
        {
            let ghost prev = str_seq_view(mapped.member_of@);
            proof {
                assert(ids@.take(i + 1).drop_last() =~= ids@.take(i as int));
                assert(ids@.take(i + 1).last() == ids@[i as int]);
            }
            match self.get_account_name(ids[i]) {
                Ok(Some(name)) => {
                    mapped.member_of.push(name);
                    proof {
                        assert(str_seq_view(mapped.member_of@) =~= prev.push(
                            self@.principals[ids@[i as int]].name,
                        ));
                        assert(names_of(self@, ids@.take(i + 1)) =~= prev + seq![
                            self@.principals[ids@[i as int]].name,
                        ]);
                        assert(str_seq_view(mapped.member_of@) =~= names_of(
                            self@,
                            ids@.take(i + 1),
                        ));
                    }
                },
                Ok(None) => {
                    proof {
                        assert(names_of(self@, ids@.take(i + 1)) =~= prev);
                    }
                },
                Err(_) => {
                    proof {
                        assert(false);
                    }
                },
            }
            i = i + 1;
        }
        proof {
            assert(ids@.take(n as int) =~= ids@);
            assert(mapped@.member_of =~= str_seq_view(mapped.member_of@));
            assert(mapped@.member_of == names_of(self@, pv.member_of));
        }
        Ok(mapped)
    }

    /// Translate a transport record to storage form: group names become ids.
    /// With `create_if_missing` an unknown group is provisioned on the spot;
    /// otherwise it fails with not-found, leaving the store unchanged.
    pub fn map_group_names(&mut self, principal: Principal<String>, create_if_missing: bool) -> (r:
        Result<Principal<u32>, DirectoryError>)
        requires
            old(self).inv(),
            wf(old(self)@),
            create_if_missing ==> old(self)@.next_id + principal.member_of@.len() < u32::MAX,
        ensures
            final(self).inv(),
            wf(final(self)@),
            final(self)@.next_id >= old(self)@.next_id,
            ({
                let (fs, fr) = resolve_groups(
                    old(self)@,
                    str_seq_view(principal.member_of@),
                    create_if_missing,
                );
                &&& final(self)@ == fs
                &&& match fr {
                    Ok(ids) => r matches Ok(q) && carried(principal@, q@) && q@.member_of == ids,
                    Err(m) => r matches Err(e) && e@ == DirectoryErrorData::Management(
                        ManagementErrorData::NotFound(m),
                    ),
                }
            }),
    {
        let ghost s0 = self@;
        let ghost pv = principal@;
        let ghost msv = str_seq_view(principal.member_of@);
        let members = principal.member_of;
        let mut mapped = Principal {
            id: principal.id,
            typ: principal.typ,
            quota: principal.quota,
            name: principal.name,
            secrets: principal.secrets,
            emails: principal.emails,
            member_of: Vec::<u32>::new(),
            description: principal.description,
        };
        let n = members.len();
        let mut i: usize = 0;
        proof {
            assert(msv.skip(0) =~= msv);
        }
        while i < n
            invariant
                self.inv(),
                wf(self@),
                n == members@.len(),
                0 <= i <= n,
                s0 == old(self)@,
                pv == principal@,
                msv == str_seq_view(principal.member_of@),
                msv == str_seq_view(members@),
                carried(mapped@, pv),
                pv.member_of == msv,
                self@.next_id >= s0.next_id,
                create_if_missing ==> self@.next_id <= s0.next_id + i,
                create_if_missing ==> s0.next_id + n < u32::MAX,
                ({
                    let (fs, fr) = resolve_groups(s0, msv, create_if_missing);
                    let (cs, cr) = resolve_groups(self@, msv.skip(i as int), create_if_missing);
                    &&& fs == cs
                    &&& fr == match cr {
                        Ok(t) => Ok::<Seq<u32>, Seq<char>>(mapped.member_of@ + t),
                        Err(e) => Err::<Seq<u32>, Seq<char>>(e),
                    }
                }),
            decreases n - i,
        {
            let ghost pre = self@;
            let ghost tail = msv.skip(i as int);
            proof {
                assert(tail[0] == msv[i as int]);
                assert(msv[i as int] == members@[i as int]@);
                assert(tail.drop_first() =~= msv.skip(i + 1));
            }
            let member = &members[i];
            let resolved: u32;
            if member.as_str().is_empty() {
                // An empty group reference is never provisioned; it can only
                // resolve if an entry for the empty key exists.
                let key = to_lower(member.as_str());
                if let Some(it) = self.get_name_entry(key.as_str()) {
                    resolved = it.account_id;
                } else {
                    proof {
                        let (cs, cr) = resolve_groups(self@, tail, create_if_missing);
                        assert(key@ == lower(tail[0]));
                        assert(lower(tail[0]).len() == tail[0].len());
                        assert(cs == self@);
                        assert(cr == Err::<Seq<u32>, Seq<char>>(tail[0]));
                    }
                    return Err(
                        DirectoryError::Management(ManagementError::NotFound(member.clone())),
                    );
                }
            } else if create_if_missing {
                match self.get_or_create_account_id(member.as_str()) {
                    Ok(id) => {
                        resolved = id;
                    },
                    Err(e) => {
                        proof {
                            assert(false);
                        }
                        return Err(e);
                    },
                }
            } else {
                match self.get_account_id(member.as_str()) {
                    Ok(Some(id)) => {
                        resolved = id;
                    },
                    Ok(None) => {
                        proof {
                            let (cs, cr) = resolve_groups(self@, tail, create_if_missing);
                            assert(!self@.names.contains_key(lower(tail[0])));
                            assert(cs == self@);
                            assert(cr == Err::<Seq<u32>, Seq<char>>(tail[0]));
                        }
                        return Err(
                            DirectoryError::Management(
                                ManagementError::NotFound(member.clone()),
                            ),
                        );
                    },
                    Err(_) => {
                        proof {
                            assert(false);
                        }
                        return Err(DirectoryError::Unsupported);
                    },
                }
            }
            let ghost prev_ids = mapped.member_of@;
            mapped.member_of.push(resolved);
            proof {
                let (cs, cr) = resolve_groups(pre, tail, create_if_missing);
                let (cs2, cr2) = resolve_groups(self@, msv.skip(i + 1), create_if_missing);
                assert(cs == cs2 && cr == (match cr2 {
                    Ok(t) => Ok::<Seq<u32>, Seq<char>>(seq![resolved] + t),
                    Err(e) => Err::<Seq<u32>, Seq<char>>(e),
                }));
                assert(mapped.member_of@ =~= prev_ids.push(resolved));
                if cr2 is Ok {
                    assert(prev_ids + (seq![resolved] + cr2->Ok_0) =~= prev_ids.push(resolved)
                        + cr2->Ok_0);
                }
            }
            i = i + 1;
        }
        proof {
            assert(msv.skip(n as int) =~= Seq::<Seq<char>>::empty());
            let (cs, cr) = resolve_groups(self@, msv.skip(n as int), create_if_missing);
            assert(cs == self@ && cr == Ok::<Seq<u32>, Seq<char>>(Seq::empty()));
            assert(mapped.member_of@ + Seq::<u32>::empty() =~= mapped.member_of@);
            assert(mapped@.member_of =~= mapped.member_of@);
        }
        Ok(mapped)
    }
}

/// Validation of the addresses a new account claims, walking them in order
/// with `acc` holding the lowercased addresses already accepted: an address
/// already indexed or already claimed in this request is a conflict, and a
/// domain-qualified address must name a registered local domain.
pub open spec fn validate_emails(
    s: StoreData,
    es: Seq<Seq<char>>,
    acc: Seq<Seq<char>>,
) -> Result<Seq<Seq<char>>, ManagementErrorData>
    decreases es.len(),
{
    if es.len() == 0 {
        Ok(acc)
    } else {
        let le = lower(es[0]);
        if s.emails.contains_key(le) || acc.contains(le) {
            Err(ManagementErrorData::AlreadyExists { field: PrincipalField::Emails, value: le })
        } else {
            match crate::strutil::email_domain(le) {
                Some(d) => if !s.domains.contains(d) {
                    Err(ManagementErrorData::NotFound(d))
                } else {
                    validate_emails(s, es.drop_first(), acc.push(le))
                },
                None => validate_emails(s, es.drop_first(), acc.push(le)),
            }
        }
    }
}

/// The state after a new account is created: a fresh record under the
/// lowercased name, one e-mail entry per accepted address, and a
/// bidirectional membership pair per resolved group.
pub open spec fn created(
    s: StoreData,
    pm: PrincipalData<Seq<char>>,
    gs: Seq<u32>,
    les: Seq<Seq<char>>,
) -> StoreData {
    let id = s.next_id;
    let ln = lower(pm.name);
    let it = PrincipalIdType { account_id: id, typ: pm.typ.spec_base_type() };
    StoreData {
        names: s.names.insert(ln, it),
        principals: s.principals.insert(
            id,
            PrincipalData {
                id,
                typ: pm.typ,
                quota: pm.quota,
                name: ln,
                secrets: pm.secrets,
                emails: les,
                member_of: Seq::empty(),
                description: pm.description,
            },
        ),
        emails: Map::new(
            |e: Seq<char>| s.emails.contains_key(e) || les.contains(e),
            |e: Seq<char>|
                if les.contains(e) {
                    it
                } else {
                    s.emails[e]
                },
        ),
        member_of: Set::new(
            |pr: (u32, u32)| s.member_of.contains(pr) || (pr.0 == id && gs.contains(pr.1)),
        ),
        members: Set::new(
            |pr: (u32, u32)| s.members.contains(pr) || (pr.1 == id && gs.contains(pr.0)),
        ),
        next_id: (id + 1) as u32,
        ..s
    }
}

/// Ids resolved without provisioning name existing principals.
pub proof fn lemma_resolve_groups_ok(s: StoreData, ms: Seq<Seq<char>>)
    requires
        wf(s),
    ensures
        resolve_groups(s, ms, false).1 matches Ok(gs) ==> forall|j: int|
            0 <= j < gs.len() ==> s.principals.contains_key(#[trigger] gs[j]),
    decreases ms.len(),
{
    if ms.len() > 0 {
        let m0 = lower(ms[0]);
        if s.names.contains_key(m0) {
            lemma_resolve_groups_ok(s, ms.drop_first());
            lemma_resolve_groups_pure(s, ms.drop_first());
            let (_, rest) = resolve_groups(s, ms.drop_first(), false);
            if rest is Ok {
                let gs = resolve_groups(s, ms, false).1->Ok_0;
                assert(gs =~= seq![s.names[m0].account_id] + rest->Ok_0);
                assert forall|j: int|
                    0 <= j < gs.len() implies s.principals.contains_key(#[trigger] gs[j]) by {
                    if j > 0 {
                        assert(gs[j] == rest->Ok_0[j - 1]);
                    }
                }
            }
        }
    }
}

pub proof fn lemma_created_wf(
    s: StoreData,
    pm: PrincipalData<Seq<char>>,
    gs: Seq<u32>,
    les: Seq<Seq<char>>,
)
    requires
        wf(s),
        s.next_id < u32::MAX,
        pm.name.len() > 0,
        !s.names.contains_key(lower(pm.name)),
        forall|j: int| 0 <= j < gs.len() ==> s.principals.contains_key(#[trigger] gs[j]),
        forall|k: int|
            0 <= k < les.len() ==> is_lower(#[trigger] les[k]) && !s.emails.contains_key(les[k]),
        forall|k: int, l: int| 0 <= k < l < les.len() ==> les[k] != les[l],
    ensures
        wf(created(s, pm, gs, les)),
{
    let t = created(s, pm, gs, les);
    let id = s.next_id;
    let ln = lower(pm.name);
    crate::strutil::lemma_lower_is_lower(pm.name);
    assert(!s.principals.contains_key(id));
    assert forall|n: Seq<char>| #[trigger] t.names.contains_key(n) implies {
        &&& t.principals.contains_key(t.names[n].account_id)
        &&& t.principals[t.names[n].account_id].name == n
    } by {
        if n != ln {
            assert(s.names.contains_key(n));
            assert(s.names[n].account_id != id);
        }
    }
    assert forall|i: u32| #[trigger] t.principals.contains_key(i) implies wf_principal(t, i) by {
        if i == id {
            let p = t.principals[id];
            assert(p.name == ln && ln.len() == pm.name.len());
            assert forall|k: int| 0 <= k < p.emails.len() implies {
                &&& is_lower(#[trigger] p.emails[k])
                &&& t.emails.contains_key(p.emails[k])
                &&& t.emails[p.emails[k]].account_id == id
            } by {
                assert(les.contains(les[k]));
            }
        } else {
            assert(s.principals.contains_key(i));
            assert(wf_principal(s, i));
            let q = s.principals[i];
            assert(q.name != ln);
            assert(t.principals[i] == q);
            assert forall|k: int| 0 <= k < q.emails.len() implies {
                &&& is_lower(#[trigger] q.emails[k])
                &&& t.emails.contains_key(q.emails[k])
                &&& t.emails[q.emails[k]].account_id == i
            } by {
                assert(s.emails.contains_key(q.emails[k]));
                if les.contains(q.emails[k]) {
                    let l = choose|l: int| 0 <= l < les.len() && les[l] == q.emails[k];
                    assert(!s.emails.contains_key(les[l]));
                }
            }
        }
    }
    assert forall|e: Seq<char>| #[trigger] t.emails.contains_key(e) implies {
        &&& t.principals.contains_key(t.emails[e].account_id)
        &&& t.principals[t.emails[e].account_id].emails.contains(e)
        &&& t.emails[e].typ == t.principals[t.emails[e].account_id].typ.spec_base_type()
    } by {
        if les.contains(e) {
            assert(t.emails[e].account_id == id);
            assert(t.principals[id].emails == les);
        } else {
            assert(s.emails.contains_key(e));
            let pid = s.emails[e].account_id;
            assert(pid != id);
            assert(t.principals[pid] == s.principals[pid]);
        }
    }
    assert forall|a: u32, b: u32| #[trigger] t.member_of.contains((a, b))
        <==> #[trigger] t.members.contains((b, a)) by {}
    assert forall|a: u32, b: u32| #[trigger] t.member_of.contains((a, b)) implies
        t.principals.contains_key(a) && t.principals.contains_key(b) by {
        if s.member_of.contains((a, b)) {
        } else {
            assert(a == id && gs.contains(b));
            let j = choose|j: int| 0 <= j < gs.len() && gs[j] == b;
        }
    }
}

/// The state after an account's identity records are cleared: its name and
/// quota entries, its record, every e-mail entry it owned, and every
/// membership pair naming it, in both directions.
pub open spec fn deleted(s: StoreData, id: u32) -> StoreData {
    StoreData {
        names: s.names.remove(s.principals[id].name),
        principals: s.principals.remove(id),
        emails: Map::new(
            |e: Seq<char>| s.emails.contains_key(e) && !s.principals[id].emails.contains(e),
            |e: Seq<char>| s.emails[e],
        ),
        member_of: Set::new(
            |pr: (u32, u32)| s.member_of.contains(pr) && pr.0 != id && pr.1 != id,
        ),
        members: Set::new(|pr: (u32, u32)| s.members.contains(pr) && pr.0 != id && pr.1 != id),
        quotas: s.quotas.remove(id),
        ..s
    }
}

pub proof fn lemma_deleted_wf(s: StoreData, id: u32)
    requires
        wf(s),
        s.principals.contains_key(id),
    ensures
        wf(deleted(s, id)),
{
    let t = deleted(s, id);
    let p = s.principals[id];
    assert forall|n: Seq<char>| #[trigger] t.names.contains_key(n) implies {
        &&& t.principals.contains_key(t.names[n].account_id)
        &&& t.principals[t.names[n].account_id].name == n
    } by {
        assert(s.names.contains_key(n) && n != p.name);
        let pid = s.names[n].account_id;
        assert(s.principals[pid].name == n);
        assert(pid != id);
    }
    assert forall|i: u32| #[trigger] t.principals.contains_key(i) implies wf_principal(t, i) by {
        assert(i != id && s.principals.contains_key(i));
        assert(wf_principal(s, i));
        let q = s.principals[i];
        assert(q.name != p.name);
        assert forall|k: int| 0 <= k < q.emails.len() implies {
            &&& is_lower(#[trigger] q.emails[k])
            &&& t.emails.contains_key(q.emails[k])
            &&& t.emails[q.emails[k]].account_id == i
        } by {
            assert(s.emails.contains_key(q.emails[k]) && s.emails[q.emails[k]].account_id == i);
            if p.emails.contains(q.emails[k]) {
                let l = choose|l: int| 0 <= l < p.emails.len() && p.emails[l] == q.emails[k];
                assert(s.emails[p.emails[l]].account_id == id);
            }
        }
    }
    assert forall|e: Seq<char>| #[trigger] t.emails.contains_key(e) implies {
        &&& t.principals.contains_key(t.emails[e].account_id)
        &&& t.principals[t.emails[e].account_id].emails.contains(e)
        &&& t.emails[e].typ == t.principals[t.emails[e].account_id].typ.spec_base_type()
    } by {
        assert(s.emails.contains_key(e) && !p.emails.contains(e));
        let pid = s.emails[e].account_id;
        if pid == id {
            assert(p.emails.contains(e));
        }
        assert(pid != id);
    }
}

impl Store {
    /// Delete an account: resolve the target, then clear its name entry,
    /// record, quota counter, e-mail entries and membership pairs in both
    /// directions, as one final atomic batch. Account-scoped message data
    /// and blobs live outside the directory keyspaces and are purged by
    /// their own stores before this batch commits.
    #[verifier::rlimit(50)]
    pub fn delete_account(&mut self, by: QueryBy<'_>) -> (r: Result<(), DirectoryError>)
        requires
            old(self).inv(),
            wf(old(self)@),
            !(by is Credentials),
        ensures
            final(self).inv(),
            wf(final(self)@),
            ({
                let target = match by {
                    QueryBy::Name(n) => if old(self)@.names.contains_key(lower(n@)) {
                        Some(old(self)@.names[lower(n@)].account_id)
                    } else {
                        None
                    },
                    QueryBy::Id(i) => Some(i),
                    QueryBy::Credentials(_) => None,
                };
                match target {
                    Some(id) => {
                        if old(self)@.principals.contains_key(id) {
                            r matches Ok(u) && final(self)@ == deleted(old(self)@, id)
                        } else {
                            r matches Err(e) && e@ == DirectoryErrorData::Management(
                                ManagementErrorData::NotFound(dec_str(id as int)),
                            ) && final(self)@ == old(self)@
                        }
                    },
                    None => r matches Err(e) && (by matches QueryBy::Name(n) && e@
                        == DirectoryErrorData::Management(ManagementErrorData::NotFound(n@)))
                        && final(self)@ == old(self)@,
                }
            }),
    {
        let account_id = match by {
            QueryBy::Name(name) => match self.get_account_id(name) {
                Ok(Some(id)) => id,
                Ok(None) => {
                    return Err(
                        DirectoryError::Management(ManagementError::NotFound(name.to_owned())),
                    );
                },
                Err(e) => {
                    proof {
                        assert(false);
                    }
                    return Err(e);
                },
            },
            QueryBy::Id(id) => id,
            QueryBy::Credentials(_) => {
                proof {
                    assert(false);
                }
                return Err(DirectoryError::Unsupported);
            },
        };
        let principal = match self.get_principal(account_id) {
            Some(p) => p,
            None => {
                proof {
                    if by is Name {
                        assert(false);
                    }
                }
                return Err(
                    DirectoryError::Management(
                        ManagementError::NotFound(u32_to_string(account_id)),
                    ),
                );
            },
        };
        let ghost s0 = self@;
        let member_of = self.get_member_of(account_id);
        let members = self.get_members(account_id);
        let mut batch: Vec<Op> = Vec::new();
        let ghost pv = principal@;
        batch.push(Op::ClearName(principal.name.clone()));
        batch.push(Op::ClearPrincipal(account_id));
        batch.push(Op::ClearQuota(account_id));
        let ghost base_ops = batch@;
        proof {
            lemma_apply_push(s0, Seq::<Op>::empty(), base_ops[0]);
            lemma_apply_push(s0, Seq::<Op>::empty().push(base_ops[0]), base_ops[1]);
            lemma_apply_push(
                s0,
                Seq::<Op>::empty().push(base_ops[0]).push(base_ops[1]),
                base_ops[2],
            );
            assert(batch@ =~= Seq::<Op>::empty().push(base_ops[0]).push(base_ops[1]).push(
                base_ops[2],
            ));
            assert(ops_view(Seq::<Op>::empty()) =~= Seq::<OpData>::empty());
        }
        let ghost cur0 = apply_ops(s0, ops_view(batch@));
        proof {
            assert(cur0 == (StoreData {
                names: s0.names.remove(pv.name),
                principals: s0.principals.remove(account_id),
                quotas: s0.quotas.remove(account_id),
                ..s0
            }));
        }
        // Clear every e-mail entry the account owned.
        let en = principal.emails.len();
        let mut i: usize = 0;
        while i < en
            invariant
                en == principal.emails@.len(),
                0 <= i <= en,
                guards_hold(s0, ops_view(batch@)),
                apply_ops(s0, ops_view(batch@)) == (StoreData {
                    emails: Map::new(
                        |e: Seq<char>| cur0.emails.contains_key(e) && !pv.emails.take(
                            i as int,
                        ).contains(e),
                        |e: Seq<char>| cur0.emails[e],
                    ),
                    ..cur0
                }),
                pv.emails == str_seq_view(principal.emails@),
            decreases en - i,
        {
            let ghost pre = apply_ops(s0, ops_view(batch@));
            let ghost bpre = batch@;
            let op = Op::ClearEmail(principal.emails[i].clone());
            proof {
                lemma_apply_push(s0, batch@, op);
            }
            batch.push(op);
            proof {
                assert(pv.emails[i as int] == principal.emails@[i as int]@);
                assert(pv.emails.take(i + 1) =~= pv.emails.take(i as int).push(
                    pv.emails[i as int],
                ));
                lemma_push_contains(pv.emails.take(i as int), pv.emails[i as int]);
                assert(apply_ops(s0, ops_view(batch@)).emails =~= Map::new(
                    |e: Seq<char>| cur0.emails.contains_key(e) && !pv.emails.take(
                        i + 1,
                    ).contains(e),
                    |e: Seq<char>| cur0.emails[e],
                ));
                assert(apply_ops(s0, ops_view(batch@)) =~= (StoreData {
                    emails: Map::new(
                        |e: Seq<char>| cur0.emails.contains_key(e) && !pv.emails.take(
                            i + 1,
                        ).contains(e),
                        |e: Seq<char>| cur0.emails[e],
                    ),
                    ..cur0
                }));
                assert forall|k: int|
                    0 <= k < ops_view(batch@).len() implies guard_holds(
                    s0,
                    #[trigger] ops_view(batch@)[k],
                ) by {
                    assert(ops_view(batch@) =~= ops_view(bpre).push(op@));
                    if k < ops_view(bpre).len() {
                        assert(ops_view(batch@)[k] == ops_view(bpre)[k]);
                    }
                }
            }
            i = i + 1;
        }
        let ghost cur1 = apply_ops(s0, ops_view(batch@));
        proof {
            assert(pv.emails.take(en as int) =~= pv.emails);
        }
        // Clear the pairs for groups this account belongs to.
        let gn = member_of.len();
        let mut i: usize = 0;
        while i < gn
            invariant
                gn == member_of@.len(),
                0 <= i <= gn,
                guards_hold(s0, ops_view(batch@)),
                forall|g: u32| member_of@.contains(g) <==> s0.member_of.contains((account_id, g)),
                apply_ops(s0, ops_view(batch@)) == (StoreData {
                    member_of: Set::new(
                        |pr: (u32, u32)|
                            cur1.member_of.contains(pr) && !(pr.0 == account_id
                                && member_of@.take(i as int).contains(pr.1)),
                    ),
                    members: Set::new(
                        |pr: (u32, u32)|
                            cur1.members.contains(pr) && !(pr.1 == account_id
                                && member_of@.take(i as int).contains(pr.0)),
                    ),
                    ..cur1
                }),
            decreases gn - i,
        {
            let g = member_of[i];
            let ghost bpre = batch@;
            let ghost pre = apply_ops(s0, ops_view(batch@));
            let op1 = Op::ClearMemberOf(account_id, g);
            let op2 = Op::ClearMembers(g, account_id);
            proof {
                lemma_apply_push(s0, batch@, op1);
                lemma_apply_push(s0, batch@.push(op1), op2);
            }
            batch.push(op1);
            batch.push(op2);
            proof {
                assert(member_of@.take(i + 1) =~= member_of@.take(i as int).push(
                    member_of@[i as int],
                ));
                lemma_push_contains(member_of@.take(i as int), member_of@[i as int]);
                let lhs_mo = apply_ops(s0, ops_view(batch@)).member_of;
                let rhs_mo = Set::new(
                    |pr: (u32, u32)|
                        cur1.member_of.contains(pr) && !(pr.0 == account_id && member_of@.take(
                            i + 1,
                        ).contains(pr.1)),
                );
                assert_sets_equal!(lhs_mo, rhs_mo, pr => {
                    assert(member_of@.take(i + 1).contains(pr.1) == (member_of@.take(
                        i as int,
                    ).contains(pr.1) || pr.1 == member_of@[i as int]));
                });
                assert(apply_ops(s0, ops_view(batch@)).member_of == rhs_mo);
                let lhs_ms = apply_ops(s0, ops_view(batch@)).members;
                let rhs_ms = Set::new(
                    |pr: (u32, u32)|
                        cur1.members.contains(pr) && !(pr.1 == account_id && member_of@.take(
                            i + 1,
                        ).contains(pr.0)),
                );
                assert_sets_equal!(lhs_ms, rhs_ms, pr => {
                    assert(member_of@.take(i + 1).contains(pr.0) == (member_of@.take(
                        i as int,
                    ).contains(pr.0) || pr.0 == member_of@[i as int]));
                });
                assert(apply_ops(s0, ops_view(batch@)).members == rhs_ms);
                assert(apply_ops(s0, ops_view(batch@)) =~= (StoreData {
                    member_of: Set::new(
                        |pr: (u32, u32)|
                            cur1.member_of.contains(pr) && !(pr.0 == account_id
                                && member_of@.take(i + 1).contains(pr.1)),
                    ),
                    members: Set::new(
                        |pr: (u32, u32)|
                            cur1.members.contains(pr) && !(pr.1 == account_id
                                && member_of@.take(i + 1).contains(pr.0)),
                    ),
                    ..cur1
                }));
                assert forall|k: int|
                    0 <= k < ops_view(batch@).len() implies guard_holds(
                    s0,
                    #[trigger] ops_view(batch@)[k],
                ) by {
                    assert(ops_view(batch@) =~= ops_view(bpre).push(op1@).push(op2@));
                    if k < ops_view(bpre).len() {
                        assert(ops_view(batch@)[k] == ops_view(bpre)[k]);
                    }
                }
            }
            i = i + 1;
        }
        let ghost cur2 = apply_ops(s0, ops_view(batch@));
        // Clear the pairs for members of this account, when it is a group.
        let mn = members.len();
        let mut i: usize = 0;
        while i < mn
            invariant
                mn == members@.len(),
                0 <= i <= mn,
                guards_hold(s0, ops_view(batch@)),
                forall|m: u32| members@.contains(m) <==> s0.members.contains((account_id, m)),
                apply_ops(s0, ops_view(batch@)) == (StoreData {
                    member_of: Set::new(
                        |pr: (u32, u32)|
                            cur2.member_of.contains(pr) && !(pr.1 == account_id
                                && members@.take(i as int).contains(pr.0)),
                    ),
                    members: Set::new(
                        |pr: (u32, u32)|
                            cur2.members.contains(pr) && !(pr.0 == account_id
                                && members@.take(i as int).contains(pr.1)),
                    ),
                    ..cur2
                }),
            decreases mn - i,
        {
            let m = members[i];
            let ghost bpre = batch@;
            let op1 = Op::ClearMemberOf(m, account_id);
            let op2 = Op::ClearMembers(account_id, m);
            proof {
                lemma_apply_push(s0, batch@, op1);
                lemma_apply_push(s0, batch@.push(op1), op2);
            }
            batch.push(op1);
            batch.push(op2);
            proof {
                assert(members@.take(i + 1) =~= members@.take(i as int).push(members@[i as int]));
                lemma_push_contains(members@.take(i as int), members@[i as int]);
                let lhs_mo = apply_ops(s0, ops_view(batch@)).member_of;
                let rhs_mo = Set::new(
                    |pr: (u32, u32)|
                        cur2.member_of.contains(pr) && !(pr.1 == account_id && members@.take(
                            i + 1,
                        ).contains(pr.0)),
                );
                assert_sets_equal!(lhs_mo, rhs_mo, pr => {
                    assert(members@.take(i + 1).contains(pr.0) == (members@.take(
                        i as int,
                    ).contains(pr.0) || pr.0 == members@[i as int]));
                });
                assert(apply_ops(s0, ops_view(batch@)).member_of == rhs_mo);
                let lhs_ms = apply_ops(s0, ops_view(batch@)).members;
                let rhs_ms = Set::new(
                    |pr: (u32, u32)|
                        cur2.members.contains(pr) && !(pr.0 == account_id && members@.take(
                            i + 1,
                        ).contains(pr.1)),
                );
                assert_sets_equal!(lhs_ms, rhs_ms, pr => {
                    assert(members@.take(i + 1).contains(pr.1) == (members@.take(
                        i as int,
                    ).contains(pr.1) || pr.1 == members@[i as int]));
                });
                assert(apply_ops(s0, ops_view(batch@)).members == rhs_ms);
                assert(apply_ops(s0, ops_view(batch@)) =~= (StoreData {
                    member_of: Set::new(
                        |pr: (u32, u32)|
                            cur2.member_of.contains(pr) && !(pr.1 == account_id
                                && members@.take(i + 1).contains(pr.0)),
                    ),
                    members: Set::new(
                        |pr: (u32, u32)|
                            cur2.members.contains(pr) && !(pr.0 == account_id
                                && members@.take(i + 1).contains(pr.1)),
                    ),
                    ..cur2
                }));
                assert forall|k: int|
                    0 <= k < ops_view(batch@).len() implies guard_holds(
                    s0,
                    #[trigger] ops_view(batch@)[k],
                ) by {
                    assert(ops_view(batch@) =~= ops_view(bpre).push(op1@).push(op2@));
                    if k < ops_view(bpre).len() {
                        assert(ops_view(batch@)[k] == ops_view(bpre)[k]);
                    }
                }
            }
            i = i + 1;
        }
        let ghost ops = ops_view(batch@);
        match self.write(batch) {
            Ok(_) => {
                proof {
                    assert(pv.emails.take(en as int) =~= pv.emails);
                    assert(member_of@.take(gn as int) =~= member_of@);
                    assert(members@.take(mn as int) =~= members@);
                    assert(pv.name == s0.principals[account_id].name);
                    assert(pv.emails =~= s0.principals[account_id].emails);
                    assert forall|pr: (u32, u32)|
                        self@.member_of.contains(pr) == (s0.member_of.contains(pr) && pr.0
                            != account_id && pr.1 != account_id) by {
                        if s0.member_of.contains(pr) {
                            if pr.0 == account_id {
                                assert(member_of@.contains(pr.1));
                            }
                            if pr.1 == account_id {
                                assert(s0.members.contains((account_id, pr.0)));
                                assert(members@.contains(pr.0));
                            }
                        }
                    }
                    assert forall|pr: (u32, u32)|
                        self@.members.contains(pr) == (s0.members.contains(pr) && pr.0
                            != account_id && pr.1 != account_id) by {
                        if s0.members.contains(pr) {
                            if pr.0 == account_id {
                                assert(members@.contains(pr.1));
                            }
                            if pr.1 == account_id {
                                assert(s0.member_of.contains((account_id, pr.0)));
                                assert(member_of@.contains(pr.0));
                            }
                        }
                    }
                    assert(self@.emails =~= deleted(s0, account_id).emails);
                    assert(self@.member_of =~= deleted(s0, account_id).member_of);
                    assert(self@.members =~= deleted(s0, account_id).members);
                    assert(self@ =~= deleted(s0, account_id));
                    lemma_deleted_wf(s0, account_id);
                }
                Ok(())
            },
            Err(e) => {
                proof {
                    assert(false);
                }
                Err(DirectoryError::Store(e))
            },
        }
    }
}

impl Store {
    /// Create an account from a transport-form record. Validates that the
    /// name is present and free after lowercasing, that every group exists,
    /// and that every address is unclaimed and locally deliverable; then
    /// commits the record, its index entries and its membership pairs as one
    /// guarded batch. Returns the fresh numeric id.
    pub fn create_account(&mut self, principal: Principal<String>) -> (r: Result<
        u32,
        DirectoryError,
    >)
        requires
            old(self).inv(),
            wf(old(self)@),
            old(self)@.next_id < u32::MAX,
        ensures
            final(self).inv(),
            wf(final(self)@),
            ({
                let pm = principal@;
                let s0 = old(self)@;
                if pm.name.len() == 0 {
                    r matches Err(e) && e@ == DirectoryErrorData::Management(
                        ManagementErrorData::MissingField(PrincipalField::Name),
                    ) && final(self)@ == s0
                } else {
                    match resolve_groups(s0, pm.member_of, false).1 {
                        Err(m) => r matches Err(e) && e@ == DirectoryErrorData::Management(
                            ManagementErrorData::NotFound(m),
                        ) && final(self)@ == s0,
                        Ok(gs) => if s0.names.contains_key(lower(pm.name)) {
                            r matches Err(e) && e@ == DirectoryErrorData::Management(
                                ManagementErrorData::AlreadyExists {
                                    field: PrincipalField::Name,
                                    value: lower(pm.name),
                                },
                            ) && final(self)@ == s0
                        } else {
                            match validate_emails(s0, pm.emails, Seq::empty()) {
                                Err(me) => r matches Err(e) && e@
                                    == DirectoryErrorData::Management(me) && final(self)@ == s0,
                                Ok(les) => r matches Ok(id) && id == s0.next_id && final(self)@
                                    == created(s0, pm, gs, les),
                            }
                        },
                    }
                }
            }),
    {
        let ghost s0 = self@;
        let ghost pm = principal@;
        proof {
            assert(pm.member_of =~= str_seq_view(principal.member_of@));
        }
        // The record must carry a name.
        if !principal.has_name() {
            return Err(
                DirectoryError::Management(ManagementError::MissingField(PrincipalField::Name)),
            );
        }
        // Resolve group names to ids; unknown groups fail the operation.
        let mapped = match self.map_group_names(principal, false) {
            Ok(m) => m,
            Err(e) => {
                proof {
                    lemma_resolve_groups_pure(s0, pm.member_of);
                }
                return Err(e);
            },
        };
        proof {
            lemma_resolve_groups_pure(s0, pm.member_of);
        }
        // The lowercased name must still be free.
        let lname = to_lower(mapped.name.as_str());
        if self.get_name_entry(lname.as_str()).is_some() {
            return Err(
                DirectoryError::Management(
                    ManagementError::AlreadyExists {
                        field: PrincipalField::Name,
                        value: lname,
                    },
                ),
            );
        }
        // Lowercase and validate every claimed address.
        let ghost emv = pm.emails;
        let ghost gs = mapped.member_of@;
        let mut les: Vec<String> = Vec::new();
        let en = mapped.emails.len();
        let mut i: usize = 0;
        proof {
            assert(mapped@.member_of =~= mapped.member_of@);
            assert(resolve_groups(s0, pm.member_of, false).1 == Ok::<Seq<u32>, Seq<char>>(gs));
            assert(emv =~= str_seq_view(mapped.emails@));
            assert(emv.skip(0) =~= emv);
            assert(str_seq_view(les@) =~= Seq::<Seq<char>>::empty());
        }
        while i < en
            invariant
                self.inv(),
                wf(self@),
                self@ == s0,
                s0 == old(self)@,
                pm == principal@,
                en == mapped.emails@.len(),
                0 <= i <= en,
                pm.name.len() > 0,
                resolve_groups(s0, pm.member_of, false).1 == Ok::<Seq<u32>, Seq<char>>(gs),
                gs == mapped.member_of@,
                carried(pm, mapped@),
                !s0.names.contains_key(lower(pm.name)),
                lname@ == lower(pm.name),
                emv == pm.emails,
                emv == str_seq_view(mapped.emails@),
                validate_emails(s0, emv, Seq::empty()) == validate_emails(
                    s0,
                    emv.skip(i as int),
                    str_seq_view(les@),
                ),
                forall|k: int|
                    0 <= k < les@.len() ==> is_lower(#[trigger] str_seq_view(les@)[k])
                        && !s0.emails.contains_key(str_seq_view(les@)[k]),
                forall|k: int, l: int|
                    0 <= k < l < les@.len() ==> str_seq_view(les@)[k] != str_seq_view(les@)[l],
            decreases en - i,
        {
            let ghost tail = emv.skip(i as int);
            let ghost lesv = str_seq_view(les@);
            proof {
                assert(tail[0] == emv[i as int]);
                assert(emv[i as int] == mapped.emails@[i as int]@);
                assert(tail.drop_first() =~= emv.skip(i + 1));
            }
            let le = to_lower(mapped.emails[i].as_str());
            proof {
                crate::strutil::lemma_lower_is_lower(mapped.emails@[i as int]@);
            }
            let taken = match self.rcpt(le.as_str()) {
                Ok(b) => b,
                Err(_) => {
                    proof {
                        assert(false);
                    }
                    false
                },
            };
            proof {
                crate::strutil::lemma_lower_is_lower(le@);
            }
            if taken || str_vec_contains(&les, le.as_str()) {
                proof {
                    assert(le@ == lower(tail[0]));
                    assert(validate_emails(s0, tail, lesv) == Err::<
                        Seq<Seq<char>>,
                        ManagementErrorData,
                    >(
                        ManagementErrorData::AlreadyExists {
                            field: PrincipalField::Emails,
                            value: le@,
                        },
                    ));
                }
                return Err(
                    DirectoryError::Management(
                        ManagementError::AlreadyExists {
                            field: PrincipalField::Emails,
                            value: le,
                        },
                    ),
                );
            }
            match crate::strutil::email_domain_of(le.as_str()) {
                Some(domain) => {
                    proof {
                        lemma_sub_lower(le@, domain@);
                    }
                    let local = match self.is_local_domain(domain.as_str()) {
                        Ok(b) => b,
                        Err(_) => {
                            proof {
                                assert(false);
                            }
                            false
                        },
                    };
                    if !local {
                        proof {
                            assert(le@ == lower(tail[0]));
                            assert(validate_emails(s0, tail, lesv) == Err::<
                                Seq<Seq<char>>,
                                ManagementErrorData,
                            >(ManagementErrorData::NotFound(domain@)));
                        }
                        return Err(
                            DirectoryError::Management(ManagementError::NotFound(domain)),
                        );
                    }
                },
                None => {},
            }
            les.push(le);
            proof {
                assert(str_seq_view(les@) =~= lesv.push(lower(tail[0])));
                lemma_push_contains(lesv, lower(tail[0]));
            }
            i = i + 1;
        }
        proof {
            assert(emv.skip(en as int) =~= Seq::<Seq<char>>::empty());
            assert(validate_emails(s0, emv, Seq::empty()) == Ok::<
                Seq<Seq<char>>,
                ManagementErrorData,
            >(str_seq_view(les@)));
        }
        let ghost lesv = str_seq_view(les@);
        // Assign the fresh id and build the creation batch.
        let account_id = self.allocate_id();
        let ghost s1 = self@;
        let it = PrincipalIdType::new(account_id, mapped.typ.into_base_type());
        let record = Principal {
            id: account_id,
            typ: mapped.typ,
            quota: mapped.quota,
            name: lname.clone(),
            secrets: mapped.secrets,
            emails: crate::strutil::clone_string_vec(&les),
            member_of: Vec::new(),
            description: mapped.description,
        };
        let ghost recv = record@;
        proof {
            assert(recv.emails =~= lesv);
            assert(recv.member_of =~= Seq::<u32>::empty());
        }
        let mut batch: Vec<Op> = Vec::new();
        proof {
            assert(ops_view(batch@) =~= Seq::<OpData>::empty());
        }
        let op_guard = Op::AssertNameAbsent(lname.clone());
        proof {
            lemma_apply_push(s1, batch@, op_guard);
        }
        batch.push(op_guard);
        let op_rec = Op::SetPrincipal(account_id, record);
        proof {
            lemma_apply_push(s1, batch@, op_rec);
        }
        batch.push(op_rec);
        let op_name = Op::SetName(lname.clone(), it);
        proof {
            lemma_apply_push(s1, batch@, op_name);
        }
        batch.push(op_name);
        let ghost cur0 = apply_ops(s1, ops_view(batch@));
        proof {
            assert(cur0 == (StoreData {
                names: s1.names.insert(lname@, it),
                principals: s1.principals.insert(account_id, recv),
                ..s1
            }));
            assert forall|k: int|
                0 <= k < ops_view(batch@).len() implies guard_holds(
                s1,
                #[trigger] ops_view(batch@)[k],
            ) by {}
        }
        // One e-mail index entry per accepted address.
        let mut i: usize = 0;
        proof {
            assert(lesv.take(0) =~= Seq::<Seq<char>>::empty());
            assert(apply_ops(s1, ops_view(batch@)).emails =~= Map::new(
                |e: Seq<char>| cur0.emails.contains_key(e) || lesv.take(0).contains(e),
                |e: Seq<char>|
                    if lesv.take(0).contains(e) {
                        it
                    } else {
                        cur0.emails[e]
                    },
            ));
            assert(apply_ops(s1, ops_view(batch@)) =~= (StoreData {
                emails: Map::new(
                    |e: Seq<char>| cur0.emails.contains_key(e) || lesv.take(0).contains(e),
                    |e: Seq<char>|
                        if lesv.take(0).contains(e) {
                            it
                        } else {
                            cur0.emails[e]
                        },
                ),
                ..cur0
            }));
        }
        while i < les.len()
            invariant
                0 <= i <= les@.len(),
                lesv == str_seq_view(les@),
                guards_hold(s1, ops_view(batch@)),
                apply_ops(s1, ops_view(batch@)) == (StoreData {
                    emails: Map::new(
                        |e: Seq<char>| cur0.emails.contains_key(e) || lesv.take(
                            i as int,
                        ).contains(e),
                        |e: Seq<char>|
                            if lesv.take(i as int).contains(e) {
                                it
                            } else {
                                cur0.emails[e]
                            },
                    ),
                    ..cur0
                }),
            decreases les@.len() - i,
        {
            let ghost bpre = batch@;
            let op = Op::SetEmail(les[i].clone(), it);
            proof {
                lemma_apply_push(s1, batch@, op);
            }
            batch.push(op);
            proof {
                assert(lesv[i as int] == les@[i as int]@);
                assert(lesv.take(i + 1) =~= lesv.take(i as int).push(lesv[i as int]));
                lemma_push_contains(lesv.take(i as int), lesv[i as int]);
                assert forall|e: Seq<char>|
                    lesv.take(i + 1).contains(e) == (lesv.take(i as int).contains(e) || e
                        == lesv[i as int]) by {
                    assert(lesv.take(i + 1).contains(e) == lesv.take(i as int).push(
                        lesv[i as int],
                    ).contains(e));
                }
                assert(apply_ops(s1, ops_view(batch@)) == apply_op(
                    apply_ops(s1, ops_view(bpre)),
                    op@,
                ));
                assert(apply_ops(s1, ops_view(batch@)).emails == Map::new(
                    |e: Seq<char>| cur0.emails.contains_key(e) || lesv.take(
                        i as int,
                    ).contains(e),
                    |e: Seq<char>|
                        if lesv.take(i as int).contains(e) {
                            it
                        } else {
                            cur0.emails[e]
                        },
                ).insert(lesv[i as int], it));
                let lhsm = apply_ops(s1, ops_view(batch@)).emails;
                let rhsm = Map::new(
                    |e: Seq<char>| cur0.emails.contains_key(e) || lesv.take(i + 1).contains(e),
                    |e: Seq<char>|
                        if lesv.take(i + 1).contains(e) {
                            it
                        } else {
                            cur0.emails[e]
                        },
                );
                assert_maps_equal!(lhsm, rhsm, e => {
                    assert(lesv.take(i + 1).contains(e) == (lesv.take(i as int).contains(e)
                        || e == lesv[i as int]));
                });
                assert(apply_ops(s1, ops_view(batch@)).emails == rhsm);
                assert(apply_ops(s1, ops_view(batch@)) =~= (StoreData {
                    emails: Map::new(
                        |e: Seq<char>| cur0.emails.contains_key(e) || lesv.take(
                            i + 1,
                        ).contains(e),
                        |e: Seq<char>|
                            if lesv.take(i + 1).contains(e) {
                                it
                            } else {
                                cur0.emails[e]
                            },
                    ),
                    ..cur0
                }));
                assert forall|k: int|
                    0 <= k < ops_view(batch@).len() implies guard_holds(
                    s1,
                    #[trigger] ops_view(batch@)[k],
                ) by {
                    assert(ops_view(batch@) =~= ops_view(bpre).push(op@));
                    if k < ops_view(bpre).len() {
                        assert(ops_view(batch@)[k] == ops_view(bpre)[k]);
                    }
                }
            }
            i = i + 1;
        }
        let ghost cur1 = apply_ops(s1, ops_view(batch@));
        proof {
            assert(lesv.take(lesv.len() as int) =~= lesv);
        }
        // One bidirectional membership pair per requested group.
        let mut i: usize = 0;
        proof {
            assert(gs.take(0) =~= Seq::<u32>::empty());
            assert(apply_ops(s1, ops_view(batch@)).member_of =~= Set::new(
                |pr: (u32, u32)|
                    cur1.member_of.contains(pr) || (pr.0 == account_id && gs.take(0).contains(
                        pr.1,
                    )),
            ));
            assert(apply_ops(s1, ops_view(batch@)).members =~= Set::new(
                |pr: (u32, u32)|
                    cur1.members.contains(pr) || (pr.1 == account_id && gs.take(0).contains(
                        pr.0,
                    )),
            ));
            assert(apply_ops(s1, ops_view(batch@)) =~= (StoreData {
                member_of: Set::new(
                    |pr: (u32, u32)|
                        cur1.member_of.contains(pr) || (pr.0 == account_id && gs.take(0).contains(
                            pr.1,
                        )),
                ),
                members: Set::new(
                    |pr: (u32, u32)|
                        cur1.members.contains(pr) || (pr.1 == account_id && gs.take(0).contains(
                            pr.0,
                        )),
                ),
                ..cur1
            }));
        }
        while i < mapped.member_of.len()
            invariant
                0 <= i <= mapped.member_of@.len(),
                gs == mapped.member_of@,
                guards_hold(s1, ops_view(batch@)),
                apply_ops(s1, ops_view(batch@)) == (StoreData {
                    member_of: Set::new(
                        |pr: (u32, u32)|
                            cur1.member_of.contains(pr) || (pr.0 == account_id && gs.take(
                                i as int,
                            ).contains(pr.1)),
                    ),
                    members: Set::new(
                        |pr: (u32, u32)|
                            cur1.members.contains(pr) || (pr.1 == account_id && gs.take(
                                i as int,
                            ).contains(pr.0)),
                    ),
                    ..cur1
                }),
            decreases mapped.member_of@.len() - i,
        {
            let g = mapped.member_of[i];
            let ghost bpre = batch@;
            let op1 = Op::SetMemberOf(account_id, g);
            let op2 = Op::SetMembers(g, account_id);
            proof {
                lemma_apply_push(s1, batch@, op1);
                lemma_apply_push(s1, batch@.push(op1), op2);
            }
            batch.push(op1);
            batch.push(op2);
            proof {
                assert(gs.take(i + 1) =~= gs.take(i as int).push(gs[i as int]));
                lemma_push_contains(gs.take(i as int), gs[i as int]);
                assert forall|x: u32|
                    gs.take(i + 1).contains(x) == (gs.take(i as int).contains(x) || x
                        == gs[i as int]) by {
                    assert(gs.take(i + 1).contains(x) == gs.take(i as int).push(
                        gs[i as int],
                    ).contains(x));
                }
                assert(apply_ops(s1, ops_view(batch@)) == apply_op(
                    apply_op(apply_ops(s1, ops_view(bpre)), op1@),
                    op2@,
                ));
                let lhs_mo = apply_ops(s1, ops_view(batch@)).member_of;
                let rhs_mo = Set::new(
                    |pr: (u32, u32)|
                        cur1.member_of.contains(pr) || (pr.0 == account_id && gs.take(
                            i + 1,
                        ).contains(pr.1)),
                );
                assert_sets_equal!(lhs_mo, rhs_mo, pr => {
                    assert(gs.take(i + 1).contains(pr.1) == (gs.take(i as int).contains(pr.1)
                        || pr.1 == gs[i as int]));
                });
                assert(apply_ops(s1, ops_view(batch@)).member_of == rhs_mo);
                let lhs_ms = apply_ops(s1, ops_view(batch@)).members;
                let rhs_ms = Set::new(
                    |pr: (u32, u32)|
                        cur1.members.contains(pr) || (pr.1 == account_id && gs.take(
                            i + 1,
                        ).contains(pr.0)),
                );
                assert_sets_equal!(lhs_ms, rhs_ms, pr => {
                    assert(gs.take(i + 1).contains(pr.0) == (gs.take(i as int).contains(pr.0)
                        || pr.0 == gs[i as int]));
                });
                assert(apply_ops(s1, ops_view(batch@)).members == rhs_ms);
                assert(apply_ops(s1, ops_view(batch@)) =~= (StoreData {
                    member_of: Set::new(
                        |pr: (u32, u32)|
                            cur1.member_of.contains(pr) || (pr.0 == account_id && gs.take(
                                i + 1,
                            ).contains(pr.1)),
                    ),
                    members: Set::new(
                        |pr: (u32, u32)|
                            cur1.members.contains(pr) || (pr.1 == account_id && gs.take(
                                i + 1,
                            ).contains(pr.0)),
                    ),
                    ..cur1
                }));
                assert forall|k: int|
                    0 <= k < ops_view(batch@).len() implies guard_holds(
                    s1,
                    #[trigger] ops_view(batch@)[k],
                ) by {
                    assert(ops_view(batch@) =~= ops_view(bpre).push(op1@).push(op2@));
                    if k < ops_view(bpre).len() {
                        assert(ops_view(batch@)[k] == ops_view(bpre)[k]);
                    }
                }
            }
            i = i + 1;
        }
        match self.write(batch) {
            Ok(_) => {
                proof {
                    assert(gs.take(gs.len() as int) =~= gs);
                    assert(self@.emails =~= created(s0, pm, gs, lesv).emails);
                    assert(self@.member_of =~= created(s0, pm, gs, lesv).member_of);
                    assert(self@.members =~= created(s0, pm, gs, lesv).members);
                    assert(self@ =~= created(s0, pm, gs, lesv));
                    lemma_resolve_groups_ok(s0, pm.member_of);
                    assert(resolve_groups(s0, pm.member_of, false).1 matches Ok(g2) && g2 == gs);
                    lemma_created_wf(s0, pm, gs, lesv);
                }
                Ok(account_id)
            },
            Err(e) => {
                proof {
                    assert(false);
                }
                Err(DirectoryError::Store(e))
            },
        }
    }
}

/// A lowered string's substring stays lowered: helper for the domain cut out
/// of a lowered address.
pub proof fn lemma_sub_lower(le: Seq<char>, d: Seq<char>)
    requires
        is_lower(le),
        crate::strutil::email_domain(le) == Some(d),
    ensures
        lower(d) == d,
{
    lemma_domain_sub(le, d);
    crate::strutil::lemma_lower_is_lower(d);
}

/// The domain cut out of an address is made of the address's characters.
proof fn lemma_domain_sub(le: Seq<char>, d: Seq<char>)
    requires
        crate::strutil::email_domain(le) == Some(d),
        is_lower(le),
    ensures
        is_lower(d),
{
    let rest = crate::strutil::after_first_at(le)->Some_0;
    lemma_after_lower(le, rest);
    lemma_until_lower(rest);
}

proof fn lemma_after_lower(e: Seq<char>, rest: Seq<char>)
    requires
        is_lower(e),
        crate::strutil::after_first_at(e) == Some(rest),
    ensures
        is_lower(rest),
    decreases e.len(),
{
    if e.len() > 0 {
        assert(is_lower(e.drop_first())) by {
            assert forall|k: int|
                0 <= k < e.drop_first().len() implies crate::strutil::lower_char(
                #[trigger] e.drop_first()[k],
            ) == e.drop_first()[k] by {
                assert(e.drop_first()[k] == e[k + 1]);
            }
        }
        if e[0] == '@' {
        } else {
            lemma_after_lower(e.drop_first(), rest);
        }
    }
}

proof fn lemma_until_lower(e: Seq<char>)
    requires
        is_lower(e),
    ensures
        is_lower(crate::strutil::until_first_at(e)),
    decreases e.len(),
{
    if e.len() > 0 && e[0] != '@' {
        assert(is_lower(e.drop_first())) by {
            assert forall|k: int|
                0 <= k < e.drop_first().len() implies crate::strutil::lower_char(
                #[trigger] e.drop_first()[k],
            ) == e.drop_first()[k] by {
                assert(e.drop_first()[k] == e[k + 1]);
            }
        }
        lemma_until_lower(e.drop_first());
        let u = crate::strutil::until_first_at(e);
        assert(u =~= seq![e[0]] + crate::strutil::until_first_at(e.drop_first()));
        assert forall|k: int|
            0 <= k < u.len() implies crate::strutil::lower_char(#[trigger] u[k]) == u[k] by {
            if k > 0 {
                assert(u[k] == crate::strutil::until_first_at(e.drop_first())[k - 1]);
            }
        }
    }
}

/// The default-admin outcome: the one stored secret is a SHA-512 crypt hash
/// that verifies the returned password, and the state holds exactly the
/// bootstrap account.
pub open spec fn admin_bootstrapped(s0: StoreData, fs: StoreData, pw: Seq<char>) -> bool {
    exists|h: Seq<char>|
        (#[trigger] crate::auth::secret_matches(h, pw)) && crate::auth::is_crypt_hash(h) && fs
            == created(s0, admin_record("admin"@, seq![h]), Seq::empty(), Seq::empty())
}

/// The record the bootstrap writes: a superuser with one secret and no
/// addresses.
pub open spec fn admin_record(name: Seq<char>, secrets: Seq<Seq<char>>) -> PrincipalData<
    Seq<char>,
> {
    PrincipalData {
        id: 0,
        typ: Type::Superuser,
        quota: 0,
        name,
        secrets,
        emails: Seq::empty(),
        member_of: Seq::empty(),
        description: Some("Superuser"@),
    }
}

impl Store {
    /// One-shot administrative bootstrap. With an explicit user and password
    /// the account is created, or its secrets replaced if it exists, and
    /// nothing else happens. Without one, a default `admin` superuser with a
    /// random password is created when no principal exists at all; the
    /// plaintext password is handed back exactly once so the caller can log
    /// it. An error without a state change means the system random source
    /// was unavailable — reported as unsupported, since hashing a fresh
    /// secret is then a capability the environment lacks.
    pub fn init(&mut self, admin: Option<(String, String)>) -> (r: Result<
        Option<String>,
        DirectoryError,
    >)
        requires
            old(self).inv(),
            wf(old(self)@),
            old(self)@.next_id < u32::MAX,
        ensures
            final(self).inv(),
            wf(final(self)@),
            ({
                let s0 = old(self)@;
                match admin {
                    Some((user, pass)) => {
                        if s0.names.contains_key(lower(user@)) {
                            let id = s0.names[lower(user@)].account_id;
                            r matches Ok(o) && o is None && final(self)@ == (StoreData {
                                principals: s0.principals.insert(
                                    id,
                                    PrincipalData {
                                        secrets: seq![pass@],
                                        ..s0.principals[id]
                                    },
                                ),
                                ..s0
                            })
                        } else if user@.len() == 0 {
                            r matches Err(e) && e@ == DirectoryErrorData::Management(
                                ManagementErrorData::MissingField(PrincipalField::Name),
                            ) && final(self)@ == s0
                        } else {
                            r matches Ok(o) && o is None && final(self)@ == created(
                                s0,
                                admin_record(user@, seq![pass@]),
                                Seq::empty(),
                                Seq::empty(),
                            )
                        }
                    },
                    None => {
                        if exists|i: u32| s0.principals.contains_key(i) {
                            r matches Ok(o) && o is None && final(self)@ == s0
                        } else {
                            match r {
                                Ok(Some(pw)) => pw@.len() == 12 && admin_bootstrapped(
                                    s0,
                                    final(self)@,
                                    pw@,
                                ),
                                Ok(None) => false,
                                Err(e) => e@ == DirectoryErrorData::Unsupported && final(self)@
                                    == s0,
                            }
                        }
                    },
                }
            }),
    {
        let ghost s0 = self@;
        match admin {
            Some((user, pass)) => {
                let key = to_lower(user.as_str());
                match self.get_name_entry(key.as_str()) {
                    Some(it) => {
                        let id = it.account_id;
                        let mut changes: Vec<crate::types::PrincipalUpdate> = Vec::new();
                        let mut secrets: Vec<String> = Vec::new();
                        secrets.push(pass);
                        changes.push(
                            crate::types::PrincipalUpdate {
                                action: crate::types::PrincipalAction::Assign,
                                field: PrincipalField::Secrets,
                                value: crate::types::PrincipalValue::StringList(secrets),
                            },
                        );
                        let ghost chs = crate::update::updates_view(changes@);
                        let ghost ptype = PrincipalIdType {
                            account_id: id,
                            typ: s0.principals[id].typ.spec_base_type(),
                        };
                        let ghost u0 = crate::update::initial_upd(s0, id);
                        proof {
                            assert(chs.len() == 1);
                            assert(chs[0] == changes@[0]@);
                            crate::update::lemma_apply_changes_snoc(s0, id, ptype, u0, chs, 0);
                            assert(chs.take(0) =~= Seq::<
                                crate::types::PrincipalUpdateData,
                            >::empty());
                            assert(chs.take(1) =~= chs);
                            let u1 = crate::update::apply_change(s0, id, ptype, u0, chs[0])->Ok_0;
                            assert(crate::update::apply_changes(s0, id, ptype, u0, chs) == Ok::<
                                crate::update::UpdState,
                                crate::types::DirectoryErrorData,
                            >(u1));
                            assert(crate::update::touches_record(chs)) by {
                                assert(!(chs[0].field == PrincipalField::MemberOf || chs[0].field
                                    == PrincipalField::Members));
                            }
                        }
                        match self.update_account(crate::types::QueryBy::Id(id), changes) {
                            Ok(_) => {
                                proof {
                                    let u1 = crate::update::apply_change(
                                        s0,
                                        id,
                                        ptype,
                                        u0,
                                        chs[0],
                                    )->Ok_0;
                                    assert(u1.t =~= s0);
                                    assert(u1.p =~= (PrincipalData {
                                        secrets: seq![chs[0].value->StringList_0[0]],
                                        ..s0.principals[id]
                                    }));
                                    assert(self@ =~= (StoreData {
                                        principals: s0.principals.insert(id, u1.p),
                                        ..s0
                                    }));
                                }
                                Ok(None)
                            },
                            Err(e) => {
                                proof {
                                    assert(false);
                                }
                                Err(e)
                            },
                        }
                    },
                    None => {
                        let mut secrets: Vec<String> = Vec::new();
                        secrets.push(pass);
                        let record = Principal {
                            id: 0,
                            typ: Type::Superuser,
                            quota: 0,
                            name: user,
                            secrets,
                            emails: Vec::new(),
                            member_of: Vec::new(),
                            description: Some("Superuser".to_owned()),
                        };
                        proof {
                            assert(record@ =~= admin_record(user@, seq![record.secrets@[0]@]));
                        }
                        match self.create_account(record) {
                            Ok(_) => {
                                proof {
                                    lemma_create_trivial(s0, admin_record(user@, seq![pass@]));
                                }
                                Ok(None)
                            },
                            Err(e) => {
                                proof {
                                    lemma_create_trivial(s0, admin_record(user@, seq![pass@]));
                                }
                                Err(e)
                            },
                        }
                    },
                }
            },
            None => {
                if !self.no_principals() {
                    return Ok(None);
                }
                let password = crate::auth::generate_password();
                let hashed = match crate::auth::hash_secret(password.as_str()) {
                    Some(h) => h,
                    None => {
                        return Err(DirectoryError::Unsupported);
                    },
                };
                let ghost hv = hashed@;
                let mut secrets: Vec<String> = Vec::new();
                secrets.push(hashed);
                let record = Principal {
                    id: 0,
                    typ: Type::Superuser,
                    quota: 0,
                    name: String::from_str("admin"),
                    secrets,
                    emails: Vec::new(),
                    member_of: Vec::new(),
                    description: Some("Superuser".to_owned()),
                };
                proof {
                    reveal_strlit("admin");
                    assert(record@ =~= admin_record("admin"@, seq![hv]));
                    assert(record@.name.len() == 5);
                    if s0.names.contains_key(lower("admin"@)) {
                        assert(s0.principals.contains_key(s0.names[lower("admin"@)].account_id));
                    }
                }
                match self.create_account(record) {
                    Ok(_) => {
                        proof {
                            lemma_create_trivial(s0, admin_record("admin"@, seq![hv]));
                            assert(crate::auth::secret_matches(hv, password@));
                            assert(crate::auth::is_crypt_hash(hv));
                            assert(admin_bootstrapped(s0, self@, password@));
                        }
                        Ok(Some(password))
                    },
                    Err(e) => {
                        proof {
                            lemma_create_trivial(s0, admin_record("admin"@, seq![hv]));
                            assert(false);
                        }
                        Err(e)
                    },
                }
            },
        }
    }
}

/// Creating a record with no addresses and no groups resolves and validates
/// trivially.
pub proof fn lemma_create_trivial(s0: StoreData, pm: PrincipalData<Seq<char>>)
    requires
        pm.member_of.len() == 0,
        pm.emails.len() == 0,
    ensures
        resolve_groups(s0, pm.member_of, false) == (
            s0,
            Ok::<Seq<u32>, Seq<char>>(Seq::empty()),
        ),
        validate_emails(s0, pm.emails, Seq::empty()) == Ok::<
            Seq<Seq<char>>,
            ManagementErrorData,
        >(Seq::<Seq<char>>::empty()),
{
    assert(pm.member_of =~= Seq::<Seq<char>>::empty());
    assert(pm.emails =~= Seq::<Seq<char>>::empty());
}

/// The empty string precedes everything.
pub proof fn lemma_lex_empty(s: Seq<char>)
    ensures
        lex_le(Seq::<char>::empty(), s),
{
}

/// Lowercasing never adds or removes a dot.
pub proof fn lemma_lower_keeps_dot(s: Seq<char>)
    ensures
        lower(s).contains('.') == s.contains('.'),
{
    if s.contains('.') {
        let i = choose|i: int| 0 <= i < s.len() && s[i] == '.';
        assert(lower(s)[i] == '.');
    }
    if lower(s).contains('.') {
        let i = choose|i: int| 0 <= i < lower(s).len() && lower(s)[i] == '.';
        assert(crate::strutil::lower_char(s[i]) == '.');
        assert(s[i] == '.');
    }
}

} // verus!
