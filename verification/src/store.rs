//! An embedded storage adapter for the directory: typed keyspaces with
//! point reads, atomic guarded batch writes, and monotone id allocation.
//!
//! A batch is a list of operations applied all-or-nothing. Assert guards are
//! evaluated against the state the batch is applied to; if any guard fails
//! the whole batch is rejected with a conflict error and nothing changes.
//! This is the compare-and-swap primitive on which the management engine
//! builds its uniqueness and membership invariants.

use vstd::prelude::*;

use crate::assoc::{
    assoc_map, assoc_unique, lemma_assoc_contains, lemma_assoc_get, lemma_assoc_push,
    lemma_assoc_remove, lemma_to_set_push, lemma_to_set_remove, no_dups,
};
use crate::strutil::{str_eq, str_seq_view};
use crate::types::{Principal, PrincipalData, PrincipalIdType, StoreError};

verus! {

/// The view of the domain keyspace.
pub open spec fn domain_view(s: Seq<String>) -> Set<Seq<char>> {
    str_seq_view(s).to_set()
}

/// The mathematical state of the store: one map or set per keyspace, plus
/// the id sequence.
#[verifier::ext_equal]
pub ghost struct StoreData {
    /// Secondary index: lowercased principal name to id and base type.
    pub names: Map<Seq<char>, PrincipalIdType>,
    /// Primary records by id.
    pub principals: Map<u32, PrincipalData<u32>>,
    /// Secondary index: lowercased e-mail address to id and base type.
    pub emails: Map<Seq<char>, PrincipalIdType>,
    /// Registered local domains, lowercased.
    pub domains: Set<Seq<char>>,
    /// Membership pairs (principal, group it belongs to).
    pub member_of: Set<(u32, u32)>,
    /// Membership pairs (group, principal belonging to it).
    pub members: Set<(u32, u32)>,
    /// Disk usage counters by id.
    pub quotas: Map<u32, i64>,
    /// The next id the sequence will assign.
    pub next_id: u32,
}

/// One operation of a batch.
pub enum Op {
    /// Guard: the name index must not hold this key.
    AssertNameAbsent(String),
    /// Guard: the record of this id must still be exactly this value.
    AssertPrincipal(u32, Principal<u32>),
    SetName(String, PrincipalIdType),
    ClearName(String),
    SetPrincipal(u32, Principal<u32>),
    ClearPrincipal(u32),
    SetEmail(String, PrincipalIdType),
    ClearEmail(String),
    SetDomain(String),
    ClearDomain(String),
    SetMemberOf(u32, u32),
    ClearMemberOf(u32, u32),
    SetMembers(u32, u32),
    ClearMembers(u32, u32),
    ClearQuota(u32),
}

/// The view of one operation.
pub ghost enum OpData {
    AssertNameAbsent(Seq<char>),
    AssertPrincipal(u32, PrincipalData<u32>),
    SetName(Seq<char>, PrincipalIdType),
    ClearName(Seq<char>),
    SetPrincipal(u32, PrincipalData<u32>),
    ClearPrincipal(u32),
    SetEmail(Seq<char>, PrincipalIdType),
    ClearEmail(Seq<char>),
    SetDomain(Seq<char>),
    ClearDomain(Seq<char>),
    SetMemberOf(u32, u32),
    ClearMemberOf(u32, u32),
    SetMembers(u32, u32),
    ClearMembers(u32, u32),
    ClearQuota(u32),
}

impl View for Op {
    type V = OpData;

    open spec fn view(&self) -> OpData {
        match self {
            Op::AssertNameAbsent(n) => OpData::AssertNameAbsent(n@),
            Op::AssertPrincipal(id, p) => OpData::AssertPrincipal(*id, p@),
            Op::SetName(n, it) => OpData::SetName(n@, *it),
            Op::ClearName(n) => OpData::ClearName(n@),
            Op::SetPrincipal(id, p) => OpData::SetPrincipal(*id, p@),
            Op::ClearPrincipal(id) => OpData::ClearPrincipal(*id),
            Op::SetEmail(e, it) => OpData::SetEmail(e@, *it),
            Op::ClearEmail(e) => OpData::ClearEmail(e@),
            Op::SetDomain(d) => OpData::SetDomain(d@),
            Op::ClearDomain(d) => OpData::ClearDomain(d@),
            Op::SetMemberOf(a, b) => OpData::SetMemberOf(*a, *b),
            Op::ClearMemberOf(a, b) => OpData::ClearMemberOf(*a, *b),
            Op::SetMembers(a, b) => OpData::SetMembers(*a, *b),
            Op::ClearMembers(a, b) => OpData::ClearMembers(*a, *b),
            Op::ClearQuota(id) => OpData::ClearQuota(*id),
        }
    }
}

/// The views of a batch.
pub open spec fn ops_view(b: Seq<Op>) -> Seq<OpData> {
    b.map_values(|o: Op| o@)
}

/// Whether one guard holds of a state.
pub open spec fn guard_holds(s: StoreData, op: OpData) -> bool {
    match op {
        OpData::AssertNameAbsent(n) => !s.names.contains_key(n),
        OpData::AssertPrincipal(id, p) => s.principals.contains_key(id) && s.principals[id] == p,
        _ => true,
    }
}

/// Whether every guard of a batch holds of the state the batch is applied
/// to.
pub open spec fn guards_hold(s: StoreData, ops: Seq<OpData>) -> bool {
    forall|i: int| 0 <= i < ops.len() ==> guard_holds(s, #[trigger] ops[i])
}

/// The effect of one operation on the state; guards change nothing.
pub open spec fn apply_op(s: StoreData, op: OpData) -> StoreData {
    match op {
        OpData::AssertNameAbsent(_) => s,
        OpData::AssertPrincipal(_, _) => s,
        OpData::SetName(n, it) => StoreData { names: s.names.insert(n, it), ..s },
        OpData::ClearName(n) => StoreData { names: s.names.remove(n), ..s },
        OpData::SetPrincipal(id, p) => StoreData { principals: s.principals.insert(id, p), ..s },
        OpData::ClearPrincipal(id) => StoreData { principals: s.principals.remove(id), ..s },
        OpData::SetEmail(e, it) => StoreData { emails: s.emails.insert(e, it), ..s },
        OpData::ClearEmail(e) => StoreData { emails: s.emails.remove(e), ..s },
        OpData::SetDomain(d) => StoreData { domains: s.domains.insert(d), ..s },
        OpData::ClearDomain(d) => StoreData { domains: s.domains.remove(d), ..s },
        OpData::SetMemberOf(a, b) => StoreData { member_of: s.member_of.insert((a, b)), ..s },
        OpData::ClearMemberOf(a, b) => StoreData { member_of: s.member_of.remove((a, b)), ..s },
        OpData::SetMembers(a, b) => StoreData { members: s.members.insert((a, b)), ..s },
        OpData::ClearMembers(a, b) => StoreData { members: s.members.remove((a, b)), ..s },
        OpData::ClearQuota(id) => StoreData { quotas: s.quotas.remove(id), ..s },
    }
}

/// The effect of a whole batch, in order.
pub open spec fn apply_ops(s: StoreData, ops: Seq<OpData>) -> StoreData
    decreases ops.len(),
{
    if ops.len() == 0 {
        s
    } else {
        apply_op(apply_ops(s, ops.drop_last()), ops.last())
    }
}

pub proof fn lemma_apply_one(s: StoreData, ops: Seq<OpData>)
    requires
        ops.len() == 1,
    ensures
        apply_ops(s, ops) == apply_op(s, ops[0]),
{
    let e = Seq::<OpData>::empty();
    assert(ops.drop_last() =~= e);
    assert(apply_ops(s, e) == s);
    assert(apply_ops(s, ops) == apply_op(apply_ops(s, ops.drop_last()), ops.last()));
}

pub proof fn lemma_apply_three(s: StoreData, ops: Seq<OpData>)
    requires
        ops.len() == 3,
    ensures
        apply_ops(s, ops) == apply_op(apply_op(apply_op(s, ops[0]), ops[1]), ops[2]),
{
    let e = Seq::<OpData>::empty();
    assert(ops.drop_last() =~= ops.take(2));
    assert(ops.take(2).drop_last() =~= ops.take(1));
    assert(ops.take(1).drop_last() =~= e);
    assert(ops.take(2).last() == ops[1]);
    assert(ops.take(1).last() == ops[0]);
    assert(apply_ops(s, e) == s);
    assert(apply_ops(s, ops.take(1)) == apply_op(apply_ops(s, ops.take(1).drop_last()), ops.take(1).last()));
    assert(apply_ops(s, ops.take(2)) == apply_op(apply_ops(s, ops.take(2).drop_last()), ops.take(2).last()));
    assert(apply_ops(s, ops) == apply_op(apply_ops(s, ops.drop_last()), ops.last()));
}

pub proof fn lemma_apply_push(s: StoreData, b: Seq<Op>, op: Op)
    ensures
        ops_view(b.push(op)) == ops_view(b).push(op@),
        apply_ops(s, ops_view(b.push(op))) == apply_op(apply_ops(s, ops_view(b)), op@),
{
    assert(ops_view(b.push(op)) =~= ops_view(b).push(op@));
    assert(ops_view(b).push(op@).drop_last() =~= ops_view(b));
    assert(apply_ops(s, ops_view(b).push(op@)) == apply_op(
        apply_ops(s, ops_view(b).push(op@).drop_last()),
        ops_view(b).push(op@).last(),
    ));
}

pub proof fn lemma_apply_ops_snoc(s: StoreData, ops: Seq<OpData>, i: int)
    requires
        0 <= i < ops.len(),
    ensures
        apply_ops(s, ops.take(i + 1)) == apply_op(apply_ops(s, ops.take(i)), ops[i]),
{
    assert(ops.take(i + 1).drop_last() =~= ops.take(i));
    assert(ops.take(i + 1).last() == ops[i]);
}

/// The embedded store.
pub struct Store {
    names: Vec<(String, PrincipalIdType)>,
    principals: Vec<(u32, Principal<u32>)>,
    emails: Vec<(String, PrincipalIdType)>,
    domains: Vec<String>,
    member_of: Vec<(u32, u32)>,
    members: Vec<(u32, u32)>,
    quotas: Vec<(u32, i64)>,
    next_id: u32,
}

impl View for Store {
    type V = StoreData;

    closed spec fn view(&self) -> StoreData {
        StoreData {
            names: assoc_map(self.names@),
            principals: assoc_map(self.principals@),
            emails: assoc_map(self.emails@),
            domains: domain_view(self.domains@),
            member_of: self.member_of@.to_set(),
            members: self.members@.to_set(),
            quotas: assoc_map(self.quotas@),
            next_id: self.next_id,
        }
    }
}

impl Store {
    /// The representation invariant: no keyspace repeats a key.
    pub closed spec fn inv(&self) -> bool {
        &&& assoc_unique(self.names@)
        &&& assoc_unique(self.principals@)
        &&& assoc_unique(self.emails@)
        &&& no_dups(str_seq_view(self.domains@))
        &&& no_dups(self.member_of@)
        &&& no_dups(self.members@)
        &&& assoc_unique(self.quotas@)
    }

    /// A fresh store: every keyspace empty, the id sequence at zero.
    pub fn new() -> (r: Store)
        ensures
            r.inv(),
            r@.names == Map::<Seq<char>, PrincipalIdType>::empty(),
            r@.principals == Map::<u32, PrincipalData<u32>>::empty(),
            r@.emails == Map::<Seq<char>, PrincipalIdType>::empty(),
            r@.domains == Set::<Seq<char>>::empty(),
            r@.member_of == Set::<(u32, u32)>::empty(),
            r@.members == Set::<(u32, u32)>::empty(),
            r@.quotas == Map::<u32, i64>::empty(),
            r@.next_id == 0,
    {
        let r = Store {
            names: Vec::new(),
            principals: Vec::new(),
            emails: Vec::new(),
            domains: Vec::new(),
            member_of: Vec::new(),
            members: Vec::new(),
            quotas: Vec::new(),
            next_id: 0,
        };
        proof {
            assert(str_seq_view(r.domains@) =~= Seq::<Seq<char>>::empty());
            assert(r@.domains =~= Set::<Seq<char>>::empty());
            assert(r@.member_of =~= Set::<(u32, u32)>::empty());
            assert(r@.members =~= Set::<(u32, u32)>::empty());
        }
        r
    }

    /// Allocate the next id of the sequence; ids are never reused.
    pub fn allocate_id(&mut self) -> (r: u32)
        requires
            old(self).inv(),
            old(self)@.next_id < u32::MAX,
        ensures
            final(self).inv(),
            r == old(self)@.next_id,
            final(self)@ == (StoreData { next_id: (old(self)@.next_id + 1) as u32, ..old(self)@ }),
    {
        let id = self.next_id;
        self.next_id = self.next_id + 1;
        id
    }

    /// Point read of the name index.
    pub fn get_name_entry(&self, name: &str) -> (r: Option<PrincipalIdType>)
        requires
            self.inv(),
        ensures
            match r {
                Some(it) => self@.names.contains_key(name@) && self@.names[name@] == it,
                None => !self@.names.contains_key(name@),
            },
    {
        match find_str_key(&self.names, name) {
            Some(i) => {
                proof {
                    lemma_assoc_get(self.names@, i as int);
                }
                Some(self.names[i].1)
            },
            None => None,
        }
    }

    /// Point read of the e-mail index.
    pub fn get_email_entry(&self, email: &str) -> (r: Option<PrincipalIdType>)
        requires
            self.inv(),
        ensures
            match r {
                Some(it) => self@.emails.contains_key(email@) && self@.emails[email@] == it,
                None => !self@.emails.contains_key(email@),
            },
    {
        match find_str_key(&self.emails, email) {
            Some(i) => {
                proof {
                    lemma_assoc_get(self.emails@, i as int);
                }
                Some(self.emails[i].1)
            },
            None => None,
        }
    }

    /// Point read of a principal record.
    pub fn get_principal(&self, id: u32) -> (r: Option<Principal<u32>>)
        requires
            self.inv(),
        ensures
            match r {
                Some(p) => self@.principals.contains_key(id) && p@ == self@.principals[id],
                None => !self@.principals.contains_key(id),
            },
    {
        match find_principal_key(&self.principals, id) {
            Some(i) => {
                proof {
                    lemma_assoc_get(self.principals@, i as int);
                }
                Some(self.principals[i].1.duplicate())
            },
            None => None,
        }
    }

    /// Whether the domain keyspace holds this domain.
    pub fn has_domain(&self, domain: &str) -> (r: bool)
        requires
            self.inv(),
        ensures
            r == self@.domains.contains(domain@),
    {
        match find_domain(&self.domains, domain) {
            Some(i) => {
                proof {
                    assert(str_seq_view(self.domains@)[i as int] == domain@);
                }
                true
            },
            None => false,
        }
    }

    /// Whether no principal record exists at all.
    pub fn no_principals(&self) -> (r: bool)
        requires
            self.inv(),
        ensures
            r == (forall|i: u32| !self@.principals.contains_key(i)),
    {
        let empty = self.principals.len() == 0;
        proof {
            if empty {
                assert forall|i: u32| !self@.principals.contains_key(i) by {
                    lemma_assoc_contains(self.principals@, i);
                }
            } else {
                lemma_assoc_get(self.principals@, 0);
                assert(self@.principals.contains_key(self.principals@[0].0));
            }
        }
        empty
    }

    /// A copy of the name index, for range listings.
    pub fn names_snapshot(&self) -> (r: Vec<(String, PrincipalIdType)>)
        requires
            self.inv(),
        ensures
            r@ == self.names_seq(),
            assoc_unique(r@),
            assoc_map(r@) == self@.names,
    {
        let n = self.names.len();
        let mut r: Vec<(String, PrincipalIdType)> = Vec::new();
        let mut i: usize = 0;
        while i < n
            invariant
                n == self.names@.len(),
                0 <= i <= n,
                r@ =~= self.names@.take(i as int),
            decreases n - i,
        {
            r.push((self.names[i].0.clone(), self.names[i].1));
            assert(self.names@.take(i + 1) =~= self.names@.take(i as int).push(
                self.names@[i as int],
            ));
            i = i + 1;
        }
        assert(self.names@.take(n as int) =~= self.names@);
        r
    }

    /// The underlying sequence of name-index entries, for contracts that
    /// relate a snapshot to the view.
    pub closed spec fn names_seq(&self) -> Seq<(String, PrincipalIdType)> {
        self.names@
    }

    /// A copy of the domain keyspace, for range listings.
    pub fn domains_snapshot(&self) -> (r: Vec<String>)
        requires
            self.inv(),
        ensures
            no_dups(str_seq_view(r@)),
            str_seq_view(r@).to_set() == self@.domains,
    {
        let n = self.domains.len();
        let mut r: Vec<String> = Vec::new();
        let mut i: usize = 0;
        while i < n
            invariant
                n == self.domains@.len(),
                0 <= i <= n,
                r@ =~= self.domains@.take(i as int),
            decreases n - i,
        {
            r.push(self.domains[i].clone());
            assert(self.domains@.take(i + 1) =~= self.domains@.take(i as int).push(
                self.domains@[i as int],
            ));
            i = i + 1;
        }
        assert(self.domains@.take(n as int) =~= self.domains@);
        assert(str_seq_view(r@) =~= str_seq_view(self.domains@));
        r
    }

    /// The groups this principal belongs to, ascending.
    pub fn get_member_of(&self, id: u32) -> (r: Vec<u32>)
        requires
            self.inv(),
        ensures
            sorted_strict(r@),
            forall|g: u32| r@.contains(g) <==> self@.member_of.contains((id, g)),
    {
        let n = self.member_of.len();
        let mut r: Vec<u32> = Vec::new();
        let mut i: usize = 0;
        while i < n
            invariant
                self.inv(),
                n == self.member_of@.len(),
                0 <= i <= n,
                sorted_strict(r@),
                forall|g: u32| r@.contains(g) <==> self.member_of@.take(i as int).contains(
                    (id, g),
                ),
            decreases n - i,
        {
            let pair = self.member_of[i];
            assert(self.member_of@.take(i + 1) =~= self.member_of@.take(i as int).push(
                self.member_of@[i as int],
            ));
            if pair.0 == id {
                if !vec_contains_sorted(&r, pair.1) {
                    insert_sorted(&mut r, pair.1);
                }
                proof {
                    lemma_push_contains(self.member_of@.take(i as int), self.member_of@[i as int]);
                }
            } else {
                proof {
                    lemma_push_contains(self.member_of@.take(i as int), self.member_of@[i as int]);
                }
            }
            i = i + 1;
        }
        proof {
            assert(self.member_of@.take(n as int) =~= self.member_of@);
            assert forall|g: u32| r@.contains(g) <==> self@.member_of.contains((id, g)) by {
                assert(self.member_of@.contains((id, g)) == self@.member_of.contains((id, g)));
            }
        }
        r
    }

    /// The principals belonging to this group, ascending.
    pub fn get_members(&self, id: u32) -> (r: Vec<u32>)
        requires
            self.inv(),
        ensures
            sorted_strict(r@),
            forall|m: u32| r@.contains(m) <==> self@.members.contains((id, m)),
    {
        let n = self.members.len();
        let mut r: Vec<u32> = Vec::new();
        let mut i: usize = 0;
        while i < n
            invariant
                self.inv(),
                n == self.members@.len(),
                0 <= i <= n,
                sorted_strict(r@),
                forall|m: u32| r@.contains(m) <==> self.members@.take(i as int).contains((id, m)),
            decreases n - i,
        {
            let pair = self.members[i];
            assert(self.members@.take(i + 1) =~= self.members@.take(i as int).push(
                self.members@[i as int],
            ));
            if pair.0 == id {
                if !vec_contains_sorted(&r, pair.1) {
                    insert_sorted(&mut r, pair.1);
                }
                proof {
                    lemma_push_contains(self.members@.take(i as int), self.members@[i as int]);
                }
            } else {
                proof {
                    lemma_push_contains(self.members@.take(i as int), self.members@[i as int]);
                }
            }
            i = i + 1;
        }
        proof {
            assert(self.members@.take(n as int) =~= self.members@);
            assert forall|m: u32| r@.contains(m) <==> self@.members.contains((id, m)) by {
                assert(self.members@.contains((id, m)) == self@.members.contains((id, m)));
            }
        }
        r
    }

    /// Apply a batch atomically: if every guard holds of the current state
    /// the operations are applied in order, otherwise nothing changes and a
    /// conflict is reported.
    pub fn write(&mut self, batch: Vec<Op>) -> (r: Result<(), StoreError>)
        requires
            old(self).inv(),
        ensures
            final(self).inv(),
            r matches Ok(_) <==> guards_hold(old(self)@, ops_view(batch@)),
            r matches Ok(_) ==> final(self)@ == apply_ops(old(self)@, ops_view(batch@)),
            r matches Err(e) ==> e == StoreError::AssertValueFailed && final(self)@ == old(
                self,
            )@,
    {
        let n = batch.len();
        // Check every guard against the current state.
        let mut j: usize = 0;
        while j < n
            invariant
                self.inv(),
                self == old(self),
                n == batch@.len(),
                0 <= j <= n,
                forall|k: int| 0 <= k < j ==> guard_holds(self@, #[trigger] ops_view(batch@)[k]),
            decreases n - j,
        {
            assert(ops_view(batch@)[j as int] == batch@[j as int]@);
            match &batch[j] {
                Op::AssertNameAbsent(name) => {
                    if self.get_name_entry(name.as_str()).is_some() {
                        assert(!guard_holds(self@, ops_view(batch@)[j as int]));
                        return Err(StoreError::AssertValueFailed);
                    }
                },
                Op::AssertPrincipal(id, expected) => {
                    match find_principal_key(&self.principals, *id) {
                        Some(i) => {
                            proof {
                                lemma_assoc_get(self.principals@, i as int);
                            }
                            if !self.principals[i].1.same_as(expected) {
                                assert(!guard_holds(self@, ops_view(batch@)[j as int]));
                                return Err(StoreError::AssertValueFailed);
                            }
                        },
                        None => {
                            assert(!guard_holds(self@, ops_view(batch@)[j as int]));
                            return Err(StoreError::AssertValueFailed);
                        },
                    }
                },
                _ => {
                    assert(guard_holds(self@, ops_view(batch@)[j as int]));
                },
            }
            j = j + 1;
        }
        assert(guards_hold(self@, ops_view(batch@)));
        // Apply every operation in order.
        let ghost s0 = self@;
        let mut j: usize = 0;
        proof {
            assert(ops_view(batch@).take(0) =~= Seq::<OpData>::empty());
        }
        while j < n
            invariant
                self.inv(),
                n == batch@.len(),
                0 <= j <= n,
                self@ == apply_ops(s0, ops_view(batch@).take(j as int)),
            decreases n - j,
        {
            proof {
                lemma_apply_ops_snoc(s0, ops_view(batch@), j as int);
                assert(ops_view(batch@)[j as int] == batch@[j as int]@);
            }
            match &batch[j] {
                Op::AssertNameAbsent(_) => {},
                Op::AssertPrincipal(_, _) => {},
                Op::SetName(name, it) => {
                    set_str_key(&mut self.names, name.clone(), *it);
                },
                Op::ClearName(name) => {
                    del_str_key(&mut self.names, name.as_str());
                },
                Op::SetPrincipal(id, p) => {
                    set_principal_key(&mut self.principals, *id, p.duplicate());
                },
                Op::ClearPrincipal(id) => {
                    del_principal_key(&mut self.principals, *id);
                },
                Op::SetEmail(email, it) => {
                    set_str_key(&mut self.emails, email.clone(), *it);
                },
                Op::ClearEmail(email) => {
                    del_str_key(&mut self.emails, email.as_str());
                },
                Op::SetDomain(d) => {
                    set_domain(&mut self.domains, d.clone());
                },
                Op::ClearDomain(d) => {
                    del_domain(&mut self.domains, d.as_str());
                },
                Op::SetMemberOf(a, b) => {
                    insert_pair(&mut self.member_of, *a, *b);
                },
                Op::ClearMemberOf(a, b) => {
                    remove_pair(&mut self.member_of, *a, *b);
                },
                Op::SetMembers(a, b) => {
                    insert_pair(&mut self.members, *a, *b);
                },
                Op::ClearMembers(a, b) => {
                    remove_pair(&mut self.members, *a, *b);
                },
                Op::ClearQuota(id) => {
                    del_quota_key(&mut self.quotas, *id);
                },
            }
            assert(self@ =~= apply_op(
                apply_ops(s0, ops_view(batch@).take(j as int)),
                ops_view(batch@)[j as int],
            ));
            j = j + 1;
        }
        proof {
            assert(ops_view(batch@).take(n as int) =~= ops_view(batch@));
        }
        Ok(())
    }
}

/// Strictly ascending, hence duplicate-free.
pub open spec fn sorted_strict(s: Seq<u32>) -> bool {
    forall|i: int, j: int| 0 <= i < j < s.len() ==> s[i] < s[j]
}

pub proof fn lemma_push_contains<A>(s: Seq<A>, a: A)
    ensures
        forall|x: A| s.push(a).contains(x) <==> (s.contains(x) || x == a),
{
    assert forall|x: A| s.push(a).contains(x) implies (s.contains(x) || x == a) by {
        let i = choose|i: int| 0 <= i < s.push(a).len() && s.push(a)[i] == x;
        if i < s.len() {
            assert(s[i] == x);
        }
    }
    assert forall|x: A| (s.contains(x) || x == a) implies s.push(a).contains(x) by {
        if x == a {
            assert(s.push(a)[s.len() as int] == x);
        } else {
            let i = choose|i: int| 0 <= i < s.len() && s[i] == x;
            assert(s.push(a)[i] == x);
        }
    }
}

/// Membership probe in a sorted list.
fn vec_contains_sorted(v: &Vec<u32>, x: u32) -> (r: bool)
    ensures
        r == v@.contains(x),
{
    let n = v.len();
    let mut i: usize = 0;
    while i < n
        invariant
            n == v@.len(),
            0 <= i <= n,
            forall|j: int| 0 <= j < i ==> v@[j] != x,
        decreases n - i,
    {
        if v[i] == x {
            return true;
        }
        i = i + 1;
    }
    false
}

/// Insert into a strictly sorted list, keeping it strictly sorted.
fn insert_sorted(v: &mut Vec<u32>, x: u32)
    requires
        sorted_strict(old(v)@),
        !old(v)@.contains(x),
    ensures
        sorted_strict(final(v)@),
        forall|g: u32| final(v)@.contains(g) <==> (old(v)@.contains(g) || g == x),
{
    let n = v.len();
    let mut i: usize = 0;
    while i < n && v[i] < x
        invariant
            n == v@.len(),
            0 <= i <= n,
            forall|j: int| 0 <= j < i ==> v@[j] < x,
        decreases n - i,
    {
        i = i + 1;
    }
    assert forall|j: int| i <= j < v@.len() implies v@[j] > x by {
        assert(v@[j] >= v@[i as int] || j == i);
        assert(v@[j] != x);
    }
    let ghost before = v@;
    v.insert(i, x);
    proof {
        assert(v@ =~= before.take(i as int).push(x) + before.skip(i as int));
        assert forall|a: int, b: int| 0 <= a < b < v@.len() implies v@[a] < v@[b] by {
            let oa = if a < i {
                a
            } else {
                a - 1
            };
            let ob = if b < i {
                b
            } else {
                b - 1
            };
            if a < i {
                assert(v@[a] == before[a]);
            } else if a == i {
                assert(v@[a] == x);
            } else {
                assert(v@[a] == before[oa]);
            }
            if b < i {
                assert(v@[b] == before[b]);
            } else if b == i {
                assert(v@[b] == x);
            } else {
                assert(v@[b] == before[ob]);
            }
        }
        assert forall|g: u32| v@.contains(g) implies (before.contains(g) || g == x) by {
            let j = choose|j: int| 0 <= j < v@.len() && v@[j] == g;
            if j < i {
                assert(before[j] == g);
            } else if j == i {
            } else {
                assert(before[j - 1] == g);
            }
        }
        assert forall|g: u32| (before.contains(g) || g == x) implies v@.contains(g) by {
            if g == x {
                assert(v@[i as int] == g);
            } else {
                let j = choose|j: int| 0 <= j < before.len() && before[j] == g;
                if j < i {
                    assert(v@[j] == g);
                } else {
                    assert(v@[j + 1] == g);
                }
            }
        }
    }
}

/// Find the entry with this key in a string-keyed list.
fn find_str_key(v: &Vec<(String, PrincipalIdType)>, k: &str) -> (r: Option<usize>)
    requires
        assoc_unique(v@),
    ensures
        match r {
            Some(i) => i < v@.len() && v@[i as int].0@ == k@,
            None => !assoc_map(v@).contains_key(k@),
        },
{
    let n = v.len();
    let mut i: usize = 0;
    while i < n
        invariant
            n == v@.len(),
            0 <= i <= n,
            forall|j: int| 0 <= j < i ==> (#[trigger] v@[j]).0@ != k@,
        decreases n - i,
    {
        if str_eq(v[i].0.as_str(), k) {
            return Some(i);
        }
        i = i + 1;
    }
    proof {
        lemma_assoc_contains(v@, k@);
    }
    None
}

/// Find the entry with this key in the principal list.
fn find_principal_key(v: &Vec<(u32, Principal<u32>)>, k: u32) -> (r: Option<usize>)
    requires
        assoc_unique(v@),
    ensures
        match r {
            Some(i) => i < v@.len() && v@[i as int].0 == k,
            None => !assoc_map(v@).contains_key(k),
        },
{
    let n = v.len();
    let mut i: usize = 0;
    while i < n
        invariant
            n == v@.len(),
            0 <= i <= n,
            forall|j: int| 0 <= j < i ==> (#[trigger] v@[j]).0 != k,
        decreases n - i,
    {
        if v[i].0 == k {
            return Some(i);
        }
        i = i + 1;
    }
    proof {
        lemma_assoc_contains(v@, k);
    }
    None
}

/// Set a key of a string-keyed index, replacing any previous value.
fn set_str_key(v: &mut Vec<(String, PrincipalIdType)>, k: String, val: PrincipalIdType)
    requires
        assoc_unique(old(v)@),
    ensures
        assoc_unique(final(v)@),
        assoc_map(final(v)@) == assoc_map(old(v)@).insert(k@, val),
{
    del_str_key(v, k.as_str());
    let ghost mid = v@;
    proof {
        lemma_assoc_contains(mid, k@);
        lemma_assoc_push(mid, k, val);
    }
    v.push((k, val));
    proof {
        assert(assoc_map(v@) =~= assoc_map(mid).insert(v@.last().0@, val));
        assert(assoc_map(v@) =~= assoc_map(old(v)@).insert(v@.last().0@, val));
    }
}

/// Remove a key of a string-keyed index if present.
fn del_str_key(v: &mut Vec<(String, PrincipalIdType)>, k: &str)
    requires
        assoc_unique(old(v)@),
    ensures
        assoc_unique(final(v)@),
        assoc_map(final(v)@) == assoc_map(old(v)@).remove(k@),
        forall|j: int| 0 <= j < final(v)@.len() ==> (#[trigger] final(v)@[j]).0@ != k@,
    decreases old(v)@.len(),
{
    match find_str_key(v, k) {
        Some(i) => {
            proof {
                lemma_assoc_remove(v@, i as int);
            }
            let ghost before = v@;
            v.remove(i);
            del_str_key(v, k);
            proof {
                assert(assoc_map(v@) =~= assoc_map(before).remove(k@));
            }
        },
        None => {
            proof {
                assert(assoc_map(v@) =~= assoc_map(v@).remove(k@));
                lemma_assoc_contains(v@, k@);
                assert forall|j: int| 0 <= j < v@.len() implies (#[trigger] v@[j]).0@ != k@ by {
                    if v@[j].0@ == k@ {
                        assert(exists|i: int| 0 <= i < v@.len() && (#[trigger] v@[i]).0@ == k@);
                    }
                }
            }
        },
    }
}

/// Set a principal record, replacing any previous value.
fn set_principal_key(v: &mut Vec<(u32, Principal<u32>)>, k: u32, p: Principal<u32>)
    requires
        assoc_unique(old(v)@),
    ensures
        assoc_unique(final(v)@),
        assoc_map(final(v)@) == assoc_map(old(v)@).insert(k, p@),
{
    del_principal_key(v, k);
    let ghost mid = v@;
    proof {
        lemma_assoc_contains(mid, k);
        lemma_assoc_push(mid, k, p);
    }
    v.push((k, p));
    proof {
        assert(assoc_map(v@) =~= assoc_map(old(v)@).insert(k, v@.last().1@));
    }
}

/// Remove a principal record if present.
fn del_principal_key(v: &mut Vec<(u32, Principal<u32>)>, k: u32)
    requires
        assoc_unique(old(v)@),
    ensures
        assoc_unique(final(v)@),
        assoc_map(final(v)@) == assoc_map(old(v)@).remove(k),
        forall|j: int| 0 <= j < final(v)@.len() ==> (#[trigger] final(v)@[j]).0 != k,
    decreases old(v)@.len(),
{
    match find_principal_key(v, k) {
        Some(i) => {
            proof {
                lemma_assoc_remove(v@, i as int);
            }
            let ghost before = v@;
            v.remove(i);
            del_principal_key(v, k);
            proof {
                assert(assoc_map(v@) =~= assoc_map(before).remove(k));
            }
        },
        None => {
            proof {
                assert(assoc_map(v@) =~= assoc_map(v@).remove(k));
                lemma_assoc_contains(v@, k);
                assert forall|j: int| 0 <= j < v@.len() implies (#[trigger] v@[j]).0 != k by {
                    if v@[j].0 == k {
                        assert(exists|i: int| 0 <= i < v@.len() && (#[trigger] v@[i]).0@ == k);
                    }
                }
            }
        },
    }
}

/// Remove a quota counter if present.
fn del_quota_key(v: &mut Vec<(u32, i64)>, k: u32)
    requires
        assoc_unique(old(v)@),
    ensures
        assoc_unique(final(v)@),
        assoc_map(final(v)@) == assoc_map(old(v)@).remove(k),
    decreases old(v)@.len(),
{
    let n = v.len();
    let mut i: usize = 0;
    while i < n
        invariant
            v == old(v),
            n == v@.len(),
            assoc_unique(v@),
            0 <= i <= n,
            forall|j: int| 0 <= j < i ==> (#[trigger] v@[j]).0 != k,
        decreases n - i,
    {
        if v[i].0 == k {
            proof {
                lemma_assoc_remove(v@, i as int);
            }
            v.remove(i);
            return ;
        }
        i = i + 1;
    }
    proof {
        lemma_assoc_contains(v@, k);
        assert(assoc_map(v@) =~= assoc_map(v@).remove(k));
    }
}

/// Find a domain entry.
fn find_domain(v: &Vec<String>, d: &str) -> (r: Option<usize>)
    ensures
        match r {
            Some(i) => i < v@.len() && v@[i as int]@ == d@,
            None => !str_seq_view(v@).to_set().contains(d@),
        },
{
    let n = v.len();
    let mut i: usize = 0;
    while i < n
        invariant
            n == v@.len(),
            0 <= i <= n,
            forall|j: int| 0 <= j < i ==> #[trigger] v@[j]@ != d@,
        decreases n - i,
    {
        if str_eq(v[i].as_str(), d) {
            return Some(i);
        }
        i = i + 1;
    }
    proof {
        if str_seq_view(v@).to_set().contains(d@) {
            let j = choose|j: int|
                0 <= j < str_seq_view(v@).len() && str_seq_view(v@)[j] == d@;
            assert(v@[j]@ == d@);
        }
    }
    None
}

/// Add a domain if absent.
fn set_domain(v: &mut Vec<String>, d: String)
    requires
        no_dups(str_seq_view(old(v)@)),
    ensures
        no_dups(str_seq_view(final(v)@)),
        str_seq_view(final(v)@).to_set() == str_seq_view(old(v)@).to_set().insert(d@),
{
    match find_domain(v, d.as_str()) {
        Some(i) => {
            proof {
                assert(str_seq_view(v@)[i as int] == d@);
                assert(str_seq_view(v@).to_set().contains(d@));
                assert(str_seq_view(v@).to_set() =~= str_seq_view(v@).to_set().insert(d@));
            }
        },
        None => {
            let ghost before = v@;
            v.push(d);
            proof {
                assert(str_seq_view(v@) =~= str_seq_view(before).push(v@.last()@));
                lemma_to_set_push(str_seq_view(before), v@.last()@);
                assert forall|a: int, b: int|
                    0 <= a < b < str_seq_view(v@).len() implies str_seq_view(v@)[a]
                    != str_seq_view(v@)[b] by {
                    if b == str_seq_view(v@).len() - 1 {
                        assert(str_seq_view(before)[a] == str_seq_view(v@)[a]);
                    }
                }
            }
        },
    }
}

/// Remove a domain if present.
fn del_domain(v: &mut Vec<String>, d: &str)
    requires
        no_dups(str_seq_view(old(v)@)),
    ensures
        no_dups(str_seq_view(final(v)@)),
        str_seq_view(final(v)@).to_set() == str_seq_view(old(v)@).to_set().remove(d@),
{
    match find_domain(v, d) {
        Some(i) => {
            proof {
                assert(str_seq_view(v@)[i as int] == d@);
                lemma_to_set_remove(str_seq_view(v@), i as int);
            }
            let ghost before = v@;
            v.remove(i);
            proof {
                assert(str_seq_view(v@) =~= str_seq_view(before).remove(i as int));
            }
        },
        None => {
            proof {
                assert(str_seq_view(v@).to_set() =~= str_seq_view(v@).to_set().remove(d@));
            }
        },
    }
}

/// Add a membership pair if absent.
fn insert_pair(v: &mut Vec<(u32, u32)>, a: u32, b: u32)
    requires
        no_dups(old(v)@),
    ensures
        no_dups(final(v)@),
        final(v)@.to_set() == old(v)@.to_set().insert((a, b)),
{
    let n = v.len();
    let mut i: usize = 0;
    while i < n
        invariant
            v == old(v),
            no_dups(v@),
            n == v@.len(),
            0 <= i <= n,
            forall|j: int| 0 <= j < i ==> v@[j] != (a, b),
        decreases n - i,
    {
        if v[i].0 == a && v[i].1 == b {
            proof {
                assert(v@.to_set().contains((a, b)));
                assert(v@.to_set() =~= v@.to_set().insert((a, b)));
            }
            return ;
        }
        i = i + 1;
    }
    let ghost before = v@;
    v.push((a, b));
    proof {
        lemma_to_set_push(before, (a, b));
        assert forall|x: int, y: int| 0 <= x < y < v@.len() implies v@[x] != v@[y] by {
            if y == v@.len() - 1 {
                assert(v@[x] == before[x]);
            }
        }
    }
}

/// Remove a membership pair if present.
fn remove_pair(v: &mut Vec<(u32, u32)>, a: u32, b: u32)
    requires
        no_dups(old(v)@),
    ensures
        no_dups(final(v)@),
        final(v)@.to_set() == old(v)@.to_set().remove((a, b)),
{
    let n = v.len();
    let mut i: usize = 0;
    while i < n
        invariant
            v == old(v),
            n == v@.len(),
            no_dups(v@),
            0 <= i <= n,
            forall|j: int| 0 <= j < i ==> v@[j] != (a, b),
        decreases n - i,
    {
        if v[i].0 == a && v[i].1 == b {
            proof {
                lemma_to_set_remove(v@, i as int);
            }
            v.remove(i);
            return ;
        }
        i = i + 1;
    }
    proof {
        if v@.to_set().contains((a, b)) {
            let j = choose|j: int| 0 <= j < v@.len() && v@[j] == (a, b);
        }
        assert(v@.to_set() =~= v@.to_set().remove((a, b)));
    }
}

} // verus!
