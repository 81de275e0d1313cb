//! Field updates over an existing principal: a closed table of
//! (action, field, value) combinations, validated against the live store and
//! committed as one guarded batch. A validation failure aborts before any
//! write; combinations outside the table are unsupported.

use vstd::assert_sets_equal;
use vstd::map::*;
use vstd::prelude::*;

use crate::assoc::no_dups;
use crate::manage::{wf, wf_principal};
use crate::store::{
    apply_op, apply_ops, guard_holds, guards_hold, lemma_apply_push, lemma_push_contains,
    ops_view, Op, OpData, Store, StoreData,
};
use crate::strutil::{email_domain, is_lower, lower, to_lower};
use crate::types::{
    DirectoryError, DirectoryErrorData, ManagementError, ManagementErrorData, Principal,
    PrincipalAction, PrincipalData, PrincipalField, PrincipalIdType, PrincipalUpdate,
    PrincipalUpdateData, PrincipalValueData, QueryBy, Type,
};

verus! {

/// The working state an update walks through: the accumulated final store
/// (record excluded), the evolving record, and the account's current group
/// sets, both directions.
#[verifier::ext_equal]
pub ghost struct UpdState {
    pub t: StoreData,
    pub p: PrincipalData<u32>,
    pub mo: Set<u32>,
    pub ms: Set<u32>,
}

/// The final state an update run commits: the accumulated store with the
/// evolving record written back.
pub open spec fn merged(u: UpdState, id: u32) -> StoreData {
    StoreData { principals: u.t.principals.insert(id, u.p), ..u.t }
}

/// Validation of a replacement address list: an address the record already
/// carries is kept without checks; a new one must be unclaimed and locally
/// deliverable; a repeated one is a conflict.
pub open spec fn emails_replaced(
    s0: StoreData,
    owned: Seq<Seq<char>>,
    es: Seq<Seq<char>>,
    acc: Seq<Seq<char>>,
) -> Result<Seq<Seq<char>>, ManagementErrorData>
    decreases es.len(),
{
    if es.len() == 0 {
        Ok(acc)
    } else {
        let le = lower(es[0]);
        if acc.contains(le) {
            Err(ManagementErrorData::AlreadyExists { field: PrincipalField::Emails, value: le })
        } else if owned.contains(le) {
            emails_replaced(s0, owned, es.drop_first(), acc.push(le))
        } else if s0.emails.contains_key(le) {
            Err(ManagementErrorData::AlreadyExists { field: PrincipalField::Emails, value: le })
        } else {
            match email_domain(le) {
                Some(d) => if !s0.domains.contains(d) {
                    Err(ManagementErrorData::NotFound(d))
                } else {
                    emails_replaced(s0, owned, es.drop_first(), acc.push(le))
                },
                None => emails_replaced(s0, owned, es.drop_first(), acc.push(le)),
            }
        }
    }
}

/// Resolution of a replacement group list against the live name index.
pub open spec fn members_resolved(s0: StoreData, list: Seq<Seq<char>>, acc: Set<u32>) -> Result<
    Set<u32>,
    Seq<char>,
>
    decreases list.len(),
{
    if list.len() == 0 {
        Ok(acc)
    } else {
        let m0 = lower(list[0]);
        if s0.names.contains_key(m0) {
            members_resolved(s0, list.drop_first(), acc.insert(s0.names[m0].account_id))
        } else {
            Err(list[0])
        }
    }
}

/// The effect of one requested change on the working state, or the error
/// that aborts the whole update.
pub open spec fn apply_change(
    s0: StoreData,
    id: u32,
    ptype: PrincipalIdType,
    u: UpdState,
    ch: PrincipalUpdateData,
) -> Result<UpdState, DirectoryErrorData> {
    match (ch.action, ch.field, ch.value) {
        (PrincipalAction::Assign, PrincipalField::Name, PrincipalValueData::String(n)) => {
            let ln = lower(n);
            if u.p.name == ln {
                Ok(u)
            } else if ln.len() == 0 {
                Err(
                    DirectoryErrorData::Management(
                        ManagementErrorData::MissingField(PrincipalField::Name),
                    ),
                )
            } else if s0.names.contains_key(ln) {
                Err(
                    DirectoryErrorData::Management(
                        ManagementErrorData::AlreadyExists {
                            field: PrincipalField::Name,
                            value: ln,
                        },
                    ),
                )
            } else {
                Ok(
                    UpdState {
                        t: StoreData { names: u.t.names.remove(u.p.name).insert(ln, ptype), ..u.t },
                        p: PrincipalData { name: ln, ..u.p },
                        ..u
                    },
                )
            }
        },
        (PrincipalAction::Assign, PrincipalField::Type, PrincipalValueData::String(ts)) => {
            match Type::spec_parse(ts) {
                Some(nt) => if (u.p.typ == Type::Individual || u.p.typ == Type::Superuser) && (nt
                    == Type::Individual || nt == Type::Superuser) {
                    Ok(UpdState { p: PrincipalData { typ: nt, ..u.p }, ..u })
                } else {
                    Err(DirectoryErrorData::Unsupported)
                },
                None => Err(DirectoryErrorData::Unsupported),
            }
        },
        (PrincipalAction::Assign, PrincipalField::Secrets, PrincipalValueData::StringList(l)) => {
            Ok(UpdState { p: PrincipalData { secrets: l, ..u.p }, ..u })
        },
        (
            PrincipalAction::Assign,
            PrincipalField::Description,
            PrincipalValueData::String(d),
        ) => {
            Ok(
                UpdState {
                    p: PrincipalData {
                        description: if d.len() > 0 {
                            Some(d)
                        } else {
                            None
                        },
                        ..u.p
                    },
                    ..u
                },
            )
        },
        (PrincipalAction::Assign, PrincipalField::Quota, PrincipalValueData::Integer(q)) => {
            Ok(UpdState { p: PrincipalData { quota: q, ..u.p }, ..u })
        },
        (PrincipalAction::Assign, PrincipalField::Emails, PrincipalValueData::StringList(es)) => {
            match emails_replaced(s0, u.p.emails, es, Seq::empty()) {
                Ok(les) => Ok(
                    UpdState {
                        t: StoreData {
                            emails: Map::new(
                                |e: Seq<char>|
                                    (u.t.emails.contains_key(e) && !(u.p.emails.contains(e)
                                        && !les.contains(e))) || (les.contains(e)
                                        && !u.p.emails.contains(e)),
                                |e: Seq<char>|
                                    if les.contains(e) && !u.p.emails.contains(e) {
                                        ptype
                                    } else {
                                        u.t.emails[e]
                                    },
                            ),
                            ..u.t
                        },
                        p: PrincipalData { emails: les, ..u.p },
                        ..u
                    },
                ),
                Err(me) => Err(DirectoryErrorData::Management(me)),
            }
        },
        (PrincipalAction::AddItem, PrincipalField::Emails, PrincipalValueData::String(e)) => {
            let le = lower(e);
            if u.p.emails.contains(le) {
                Ok(u)
            } else if s0.emails.contains_key(le) {
                Err(
                    DirectoryErrorData::Management(
                        ManagementErrorData::AlreadyExists {
                            field: PrincipalField::Emails,
                            value: le,
                        },
                    ),
                )
            } else {
                match email_domain(le) {
                    Some(d) => if !s0.domains.contains(d) {
                        Err(DirectoryErrorData::Management(ManagementErrorData::NotFound(d)))
                    } else {
                        Ok(
                            UpdState {
                                t: StoreData { emails: u.t.emails.insert(le, ptype), ..u.t },
                                p: PrincipalData { emails: u.p.emails.push(le), ..u.p },
                                ..u
                            },
                        )
                    },
                    None => Ok(
                        UpdState {
                            t: StoreData { emails: u.t.emails.insert(le, ptype), ..u.t },
                            p: PrincipalData { emails: u.p.emails.push(le), ..u.p },
                            ..u
                        },
                    ),
                }
            }
        },
        (PrincipalAction::RemoveItem, PrincipalField::Emails, PrincipalValueData::String(e)) => {
            let le = lower(e);
            match u.p.emails.index_of_first(le) {
                Some(i) => Ok(
                    UpdState {
                        t: StoreData { emails: u.t.emails.remove(le), ..u.t },
                        p: PrincipalData { emails: u.p.emails.remove(i), ..u.p },
                        ..u
                    },
                ),
                None => Ok(u),
            }
        },
        (
            PrincipalAction::Assign,
            PrincipalField::MemberOf,
            PrincipalValueData::StringList(list),
        ) => {
            match members_resolved(s0, list, Set::empty()) {
                Ok(new_mo) => Ok(
                    UpdState {
                        t: StoreData {
                            member_of: Set::new(
                                |pr: (u32, u32)|
                                    if pr.0 == id {
                                        new_mo.contains(pr.1)
                                    } else {
                                        u.t.member_of.contains(pr)
                                    },
                            ),
                            members: Set::new(
                                |pr: (u32, u32)|
                                    if pr.1 == id {
                                        new_mo.contains(pr.0)
                                    } else {
                                        u.t.members.contains(pr)
                                    },
                            ),
                            ..u.t
                        },
                        mo: new_mo,
                        ms: if new_mo.contains(id) {
                            u.ms.insert(id)
                        } else {
                            u.ms.remove(id)
                        },
                        ..u
                    },
                ),
                Err(m) => Err(DirectoryErrorData::Management(ManagementErrorData::NotFound(m))),
            }
        },
        (PrincipalAction::AddItem, PrincipalField::MemberOf, PrincipalValueData::String(m)) => {
            let lm = lower(m);
            if s0.names.contains_key(lm) {
                let g = s0.names[lm].account_id;
                Ok(
                    UpdState {
                        t: StoreData {
                            member_of: u.t.member_of.insert((id, g)),
                            members: u.t.members.insert((g, id)),
                            ..u.t
                        },
                        mo: u.mo.insert(g),
                        ms: if g == id {
                            u.ms.insert(g)
                        } else {
                            u.ms
                        },
                        ..u
                    },
                )
            } else {
                Err(DirectoryErrorData::Management(ManagementErrorData::NotFound(m)))
            }
        },
        (PrincipalAction::RemoveItem, PrincipalField::MemberOf, PrincipalValueData::String(m)) => {
            let lm = lower(m);
            if s0.names.contains_key(lm) {
                let g = s0.names[lm].account_id;
                Ok(
                    UpdState {
                        t: StoreData {
                            member_of: u.t.member_of.remove((id, g)),
                            members: u.t.members.remove((g, id)),
                            ..u.t
                        },
                        mo: u.mo.remove(g),
                        ms: if g == id {
                            u.ms.remove(g)
                        } else {
                            u.ms
                        },
                        ..u
                    },
                )
            } else {
                Ok(u)
            }
        },
        (
            PrincipalAction::Assign,
            PrincipalField::Members,
            PrincipalValueData::StringList(list),
        ) => {
            match members_resolved(s0, list, Set::empty()) {
                Ok(new_ms) => Ok(
                    UpdState {
                        t: StoreData {
                            member_of: Set::new(
                                |pr: (u32, u32)|
                                    if pr.1 == id {
                                        new_ms.contains(pr.0)
                                    } else {
                                        u.t.member_of.contains(pr)
                                    },
                            ),
                            members: Set::new(
                                |pr: (u32, u32)|
                                    if pr.0 == id {
                                        new_ms.contains(pr.1)
                                    } else {
                                        u.t.members.contains(pr)
                                    },
                            ),
                            ..u.t
                        },
                        ms: new_ms,
                        mo: if new_ms.contains(id) {
                            u.mo.insert(id)
                        } else {
                            u.mo.remove(id)
                        },
                        ..u
                    },
                ),
                Err(m) => Err(DirectoryErrorData::Management(ManagementErrorData::NotFound(m))),
            }
        },
        (PrincipalAction::AddItem, PrincipalField::Members, PrincipalValueData::String(m)) => {
            let lm = lower(m);
            if s0.names.contains_key(lm) {
                let g = s0.names[lm].account_id;
                Ok(
                    UpdState {
                        t: StoreData {
                            member_of: u.t.member_of.insert((g, id)),
                            members: u.t.members.insert((id, g)),
                            ..u.t
                        },
                        ms: u.ms.insert(g),
                        mo: if g == id {
                            u.mo.insert(g)
                        } else {
                            u.mo
                        },
                        ..u
                    },
                )
            } else {
                Err(DirectoryErrorData::Management(ManagementErrorData::NotFound(m)))
            }
        },
        (PrincipalAction::RemoveItem, PrincipalField::Members, PrincipalValueData::String(m)) => {
            let lm = lower(m);
            if s0.names.contains_key(lm) {
                let g = s0.names[lm].account_id;
                Ok(
                    UpdState {
                        t: StoreData {
                            member_of: u.t.member_of.remove((g, id)),
                            members: u.t.members.remove((id, g)),
                            ..u.t
                        },
                        ms: u.ms.remove(g),
                        mo: if g == id {
                            u.mo.remove(g)
                        } else {
                            u.mo
                        },
                        ..u
                    },
                )
            } else {
                Ok(u)
            }
        },
        _ => Err(DirectoryErrorData::Unsupported),
    }
}

/// A whole change list folded over the working state.
pub open spec fn apply_changes(
    s0: StoreData,
    id: u32,
    ptype: PrincipalIdType,
    u: UpdState,
    chs: Seq<PrincipalUpdateData>,
) -> Result<UpdState, DirectoryErrorData>
    decreases chs.len(),
{
    if chs.len() == 0 {
        Ok(u)
    } else {
        match apply_change(s0, id, ptype, u, chs[0]) {
            Ok(u2) => apply_changes(s0, id, ptype, u2, chs.drop_first()),
            Err(e) => Err(e),
        }
    }
}

/// The working state an update starts from.
pub open spec fn initial_upd(s0: StoreData, id: u32) -> UpdState {
    UpdState {
        t: s0,
        p: s0.principals[id],
        mo: Set::new(|g: u32| s0.member_of.contains((id, g))),
        ms: Set::new(|m: u32| s0.members.contains((id, m))),
    }
}

/// Whether a change list touches anything besides the membership keyspaces,
/// which decides whether the record itself is rewritten under an optimistic
/// guard.
pub open spec fn touches_record(chs: Seq<PrincipalUpdateData>) -> bool {
    chs.len() > 0 && exists|i: int|
        0 <= i < chs.len() && !((#[trigger] chs[i]).field == PrincipalField::MemberOf || chs[i].field
            == PrincipalField::Members)
}

/// The closed form of the accumulated name index: the account's entry moved
/// to its current working name.
pub open spec fn names_form(s0: StoreData, id: u32, ptype: PrincipalIdType, u: UpdState) -> Map<
    Seq<char>,
    PrincipalIdType,
> {
    if u.p.name == s0.principals[id].name {
        s0.names
    } else {
        s0.names.remove(s0.principals[id].name).insert(u.p.name, ptype)
    }
}

/// The closed form of the accumulated e-mail index: entries of other
/// accounts unchanged, one entry per address the working record carries.
pub open spec fn emails_form(s0: StoreData, id: u32, ptype: PrincipalIdType, u: UpdState) -> Map<
    Seq<char>,
    PrincipalIdType,
> {
    Map::new(
        |e: Seq<char>|
            (s0.emails.contains_key(e) && !s0.principals[id].emails.contains(e))
                || u.p.emails.contains(e),
        |e: Seq<char>|
            if u.p.emails.contains(e) {
                ptype
            } else {
                s0.emails[e]
            },
    )
}

/// The closed form of the accumulated membership pairs.
pub open spec fn member_of_form(s0: StoreData, id: u32, u: UpdState) -> Set<(u32, u32)> {
    Set::new(
        |pr: (u32, u32)|
            if pr.0 == id {
                u.mo.contains(pr.1)
            } else if pr.1 == id {
                u.ms.contains(pr.0)
            } else {
                s0.member_of.contains(pr)
            },
    )
}

pub open spec fn members_form(s0: StoreData, id: u32, u: UpdState) -> Set<(u32, u32)> {
    Set::new(
        |pr: (u32, u32)|
            if pr.0 == id {
                u.ms.contains(pr.1)
            } else if pr.1 == id {
                u.mo.contains(pr.0)
            } else {
                s0.members.contains(pr)
            },
    )
}

/// The induction invariant every applied change preserves: only the
/// account's own entries differ from the start state, in the closed forms
/// above, and the working record stays storable.
pub open spec fn upd_inv(s0: StoreData, id: u32, ptype: PrincipalIdType, u: UpdState) -> bool {
    let p0 = s0.principals[id];
    &&& s0.principals.contains_key(id)
    &&& u.t.principals == s0.principals
    &&& u.t.domains == s0.domains
    &&& u.t.quotas == s0.quotas
    &&& u.t.next_id == s0.next_id
    &&& u.t.names == names_form(s0, id, ptype, u)
    &&& u.t.emails == emails_form(s0, id, ptype, u)
    &&& u.t.member_of == member_of_form(s0, id, u)
    &&& u.t.members == members_form(s0, id, u)
    &&& u.p.id == id
    &&& u.p.member_of.len() == 0
    &&& u.p.typ.spec_base_type() == p0.typ.spec_base_type()
    &&& u.p.name.len() > 0
    &&& is_lower(u.p.name)
    &&& u.p.name == p0.name || !s0.names.contains_key(u.p.name)
    &&& forall|k: int|
        0 <= k < u.p.emails.len() ==> is_lower(#[trigger] u.p.emails[k]) && (p0.emails.contains(
            u.p.emails[k],
        ) || !s0.emails.contains_key(u.p.emails[k]))
    &&& forall|k: int, l: int| 0 <= k < l < u.p.emails.len() ==> u.p.emails[k] != u.p.emails[l]
    &&& forall|g: u32| #[trigger] u.mo.contains(g) ==> s0.principals.contains_key(g)
    &&& forall|m: u32| #[trigger] u.ms.contains(m) ==> s0.principals.contains_key(m)
    &&& u.mo.contains(id) == u.ms.contains(id)
}

pub proof fn lemma_initial_upd_inv(s0: StoreData, id: u32, ptype: PrincipalIdType)
    requires
        wf(s0),
        s0.principals.contains_key(id),
        ptype == (PrincipalIdType {
            account_id: id,
            typ: s0.principals[id].typ.spec_base_type(),
        }),
    ensures
        upd_inv(s0, id, ptype, initial_upd(s0, id)),
{
    let u = initial_upd(s0, id);
    let p0 = s0.principals[id];
    assert(wf_principal(s0, id));
    assert(u.t.names == names_form(s0, id, ptype, u));
    assert(u.t.emails =~= emails_form(s0, id, ptype, u)) by {
        assert forall|e: Seq<char>| #[trigger] emails_form(s0, id, ptype, u).contains_key(e)
            implies s0.emails.contains_key(e) by {
            if p0.emails.contains(e) {
                let k = choose|k: int| 0 <= k < p0.emails.len() && p0.emails[k] == e;
            }
        }
        assert forall|e: Seq<char>|
            s0.emails.contains_key(e) implies #[trigger] emails_form(
            s0,
            id,
            ptype,
            u,
        ).contains_key(e) by {}
        assert forall|e: Seq<char>| #[trigger] s0.emails.contains_key(e) implies emails_form(
            s0,
            id,
            ptype,
            u,
        )[e] == s0.emails[e] by {
            if p0.emails.contains(e) {
                let k = choose|k: int| 0 <= k < p0.emails.len() && p0.emails[k] == e;
                assert(s0.emails[p0.emails[k]].account_id == id);
                assert(s0.emails[e].typ == p0.typ.spec_base_type());
                assert(s0.emails[e] == ptype);
            }
        }
    }
    assert(u.t.emails == emails_form(s0, id, ptype, u));
    assert(u.t.member_of == member_of_form(s0, id, u));
    assert(u.t.members == members_form(s0, id, u));
    assert(u.p.name.len() > 0 && is_lower(u.p.name));
    assert(u.p.member_of.len() == 0);
    assert(u.t.member_of =~= member_of_form(s0, id, u)) by {
        assert forall|pr: (u32, u32)|
            s0.member_of.contains(pr) == member_of_form(s0, id, u).contains(pr) by {
            if pr.1 == id && pr.0 != id {
                assert(s0.member_of.contains(pr) == s0.members.contains((id, pr.0)));
            }
        }
    }
    assert(u.t.members =~= members_form(s0, id, u)) by {
        assert forall|pr: (u32, u32)|
            s0.members.contains(pr) == members_form(s0, id, u).contains(pr) by {
            if pr.1 == id && pr.0 != id {
                assert(s0.members.contains(pr) == s0.member_of.contains((id, pr.0)));
            }
        }
    }
    assert forall|k: int|
        0 <= k < u.p.emails.len() implies is_lower(#[trigger] u.p.emails[k]) && (
    p0.emails.contains(u.p.emails[k]) || !s0.emails.contains_key(u.p.emails[k])) by {
        assert(p0.emails.contains(p0.emails[k]));
    }
    assert(u.mo.contains(id) == u.ms.contains(id));
    assert(u.t.principals == s0.principals);
    assert(u.t.names == names_form(s0, id, ptype, u));
    assert(u.p.id == id);
    assert(u.p.typ.spec_base_type() == p0.typ.spec_base_type());
    assert(u.p.name == p0.name || !s0.names.contains_key(u.p.name));
    assert(forall|k: int, l: int| 0 <= k < l < u.p.emails.len() ==> u.p.emails[k] != u.p.emails[l]);
    assert forall|g: u32| #[trigger] u.mo.contains(g) implies s0.principals.contains_key(g) by {
        assert(s0.member_of.contains((id, g)));
    }
    assert forall|m: u32| #[trigger] u.ms.contains(m) implies s0.principals.contains_key(m) by {
        assert(s0.members.contains((id, m)));
        assert(s0.member_of.contains((m, id)));
    }
}

/// Every address accepted by replacement validation is lowercased, distinct,
/// and either already owned or unclaimed.
pub proof fn lemma_emails_replaced_ok(
    s0: StoreData,
    owned: Seq<Seq<char>>,
    es: Seq<Seq<char>>,
    acc: Seq<Seq<char>>,
)
    requires
        forall|k: int, l: int| 0 <= k < l < acc.len() ==> acc[k] != acc[l],
        forall|k: int|
            0 <= k < acc.len() ==> is_lower(#[trigger] acc[k]) && (owned.contains(acc[k])
                || !s0.emails.contains_key(acc[k])),
    ensures
        emails_replaced(s0, owned, es, acc) matches Ok(les) ==> {
            &&& forall|k: int, l: int| 0 <= k < l < les.len() ==> les[k] != les[l]
            &&& forall|k: int|
                0 <= k < les.len() ==> is_lower(#[trigger] les[k]) && (owned.contains(les[k])
                    || !s0.emails.contains_key(les[k]))
        },
    decreases es.len(),
{
    if es.len() > 0 {
        let le = lower(es[0]);
        crate::strutil::lemma_lower_is_lower(es[0]);
        if !acc.contains(le) {
            let acc2 = acc.push(le);
            if owned.contains(le) || (!s0.emails.contains_key(le)) {
                assert forall|k: int, l: int| 0 <= k < l < acc2.len() implies acc2[k]
                    != acc2[l] by {
                    if l == acc2.len() - 1 {
                        assert(acc.contains(acc[k]));
                    }
                }
                assert forall|k: int|
                    0 <= k < acc2.len() implies is_lower(#[trigger] acc2[k]) && (owned.contains(
                    acc2[k],
                ) || !s0.emails.contains_key(acc2[k])) by {
                    if k < acc.len() {
                        assert(acc2[k] == acc[k]);
                    }
                }
                lemma_emails_replaced_ok(s0, owned, es.drop_first(), acc2);
            }
        }
    }
}

/// Every id accepted by group resolution names an existing principal.
pub proof fn lemma_members_resolved_ok(s0: StoreData, list: Seq<Seq<char>>, acc: Set<u32>)
    requires
        wf(s0),
        forall|g: u32| #[trigger] acc.contains(g) ==> s0.principals.contains_key(g),
    ensures
        members_resolved(s0, list, acc) matches Ok(ms) ==> forall|g: u32|
            #[trigger] ms.contains(g) ==> s0.principals.contains_key(g),
    decreases list.len(),
{
    if list.len() > 0 {
        let m0 = lower(list[0]);
        if s0.names.contains_key(m0) {
            lemma_members_resolved_ok(s0, list.drop_first(), acc.insert(s0.names[m0].account_id));
        }
    }
}

/// An address the working record carries is lowercased and either original
/// or unclaimed.
proof fn lemma_own_email_fact(s0: StoreData, id: u32, ptype: PrincipalIdType, u: UpdState, e: Seq<char>)
    requires
        upd_inv(s0, id, ptype, u),
        u.p.emails.contains(e),
    ensures
        is_lower(e),
        s0.principals[id].emails.contains(e) || !s0.emails.contains_key(e),
{
    let k = choose|k: int| 0 <= k < u.p.emails.len() && u.p.emails[k] == e;
    assert(is_lower(u.p.emails[k]));
}

/// One applied change preserves the update invariant.
pub proof fn lemma_apply_change_inv(
    s0: StoreData,
    id: u32,
    ptype: PrincipalIdType,
    u: UpdState,
    ch: PrincipalUpdateData,
)
    requires
        wf(s0),
        upd_inv(s0, id, ptype, u),
        ptype == (PrincipalIdType {
            account_id: id,
            typ: s0.principals[id].typ.spec_base_type(),
        }),
        apply_change(s0, id, ptype, u, ch) is Ok,
    ensures
        upd_inv(s0, id, ptype, apply_change(s0, id, ptype, u, ch)->Ok_0),
{
    let p0 = s0.principals[id];
    let u2 = apply_change(s0, id, ptype, u, ch)->Ok_0;
    assert(wf_principal(s0, id));
    match (ch.action, ch.field, ch.value) {
        (PrincipalAction::Assign, PrincipalField::Name, PrincipalValueData::String(n)) => {
            let ln = lower(n);
            if u.p.name == ln {
            } else {
                crate::strutil::lemma_lower_is_lower(n);
                assert(s0.names.contains_key(p0.name));
                assert(ln != p0.name);
                if u.p.name == p0.name {
                    assert(u.t.names == s0.names);
                    assert(u2.t.names =~= s0.names.remove(p0.name).insert(ln, ptype));
                } else {
                    assert(!s0.names.contains_key(u.p.name));
                    assert(u.t.names == s0.names.remove(p0.name).insert(u.p.name, ptype));
                    assert(u2.t.names =~= s0.names.remove(p0.name).insert(ln, ptype));
                }
                assert(u2.t.names == names_form(s0, id, ptype, u2));
                assert(u2.t.emails =~= emails_form(s0, id, ptype, u2));
                assert(u2.t.member_of =~= member_of_form(s0, id, u2));
                assert(u2.t.members =~= members_form(s0, id, u2));
            }
        },
        (PrincipalAction::Assign, PrincipalField::Type, PrincipalValueData::String(ts)) => {
            let nt = Type::spec_parse(ts)->Some_0;
            assert(u.p.typ == Type::Individual || u.p.typ == Type::Superuser);
            assert(nt.spec_base_type() == u.p.typ.spec_base_type());
            assert(u2.t.names == names_form(s0, id, ptype, u2));
            assert(u2.t.emails =~= emails_form(s0, id, ptype, u2));
            assert(u2.t.member_of =~= member_of_form(s0, id, u2));
            assert(u2.t.members =~= members_form(s0, id, u2));
        },
        (PrincipalAction::Assign, PrincipalField::Secrets, PrincipalValueData::StringList(l)) => {
            assert(u2.t.emails =~= emails_form(s0, id, ptype, u2));
        },
        (
            PrincipalAction::Assign,
            PrincipalField::Description,
            PrincipalValueData::String(d),
        ) => {
            assert(u2.t.emails =~= emails_form(s0, id, ptype, u2));
        },
        (PrincipalAction::Assign, PrincipalField::Quota, PrincipalValueData::Integer(q)) => {
            assert(u2.t.emails =~= emails_form(s0, id, ptype, u2));
        },
        (PrincipalAction::Assign, PrincipalField::Emails, PrincipalValueData::StringList(es)) => {
            let les = emails_replaced(s0, u.p.emails, es, Seq::empty())->Ok_0;
            lemma_emails_replaced_ok(s0, u.p.emails, es, Seq::empty());
            assert forall|e: Seq<char>| #[trigger] les.contains(e) implies is_lower(e) && (
            p0.emails.contains(e) || !s0.emails.contains_key(e)) by {
                let k = choose|k: int| 0 <= k < les.len() && les[k] == e;
                assert(is_lower(les[k]));
                if u.p.emails.contains(e) {
                    lemma_own_email_fact(s0, id, ptype, u, e);
                }
            }
            assert(u2.t.emails =~= emails_form(s0, id, ptype, u2)) by {
                assert forall|e: Seq<char>|
                    #[trigger] u2.t.emails.contains_key(e) == emails_form(
                    s0,
                    id,
                    ptype,
                    u2,
                ).contains_key(e) && (u2.t.emails.contains_key(e) ==> u2.t.emails[e]
                    == emails_form(s0, id, ptype, u2)[e]) by {
                    if u.p.emails.contains(e) {
                        lemma_own_email_fact(s0, id, ptype, u, e);
                    }
                    if les.contains(e) {
                        assert(is_lower(e) && (p0.emails.contains(e) || !s0.emails.contains_key(
                            e,
                        )));
                    }
                    if s0.emails.contains_key(e) && p0.emails.contains(e) {
                        let k = choose|k: int|
                            0 <= k < p0.emails.len() && p0.emails[k] == e;
                        assert(s0.emails[p0.emails[k]].account_id == id);
                        assert(s0.emails[e] == ptype);
                    }
                }
                assert(u2.t.emails =~= emails_form(s0, id, ptype, u2));
            }
            assert(u2.t.names == names_form(s0, id, ptype, u2));
            assert(u2.t.member_of =~= member_of_form(s0, id, u2));
            assert(u2.t.members =~= members_form(s0, id, u2));
            assert forall|k: int|
                0 <= k < u2.p.emails.len() implies is_lower(#[trigger] u2.p.emails[k]) && (
            p0.emails.contains(u2.p.emails[k]) || !s0.emails.contains_key(u2.p.emails[k])) by {
                assert(les.contains(les[k]));
            }
        },
        (PrincipalAction::AddItem, PrincipalField::Emails, PrincipalValueData::String(e)) => {
            let le = lower(e);
            crate::strutil::lemma_lower_is_lower(e);
            if u.p.emails.contains(le) {
            } else {
                assert(!s0.emails.contains_key(le));
                crate::store::lemma_push_contains(u.p.emails, le);
                assert(u2.t.emails =~= emails_form(s0, id, ptype, u2)) by {
                    assert forall|x: Seq<char>|
                        #[trigger] u2.t.emails.contains_key(x) == emails_form(
                        s0,
                        id,
                        ptype,
                        u2,
                    ).contains_key(x) && (u2.t.emails.contains_key(x) ==> u2.t.emails[x]
                        == emails_form(s0, id, ptype, u2)[x]) by {
                        if u.p.emails.contains(x) {
                            lemma_own_email_fact(s0, id, ptype, u, x);
                        }
                        if s0.emails.contains_key(x) && p0.emails.contains(x) {
                            let k = choose|k: int|
                                0 <= k < p0.emails.len() && p0.emails[k] == x;
                            assert(s0.emails[p0.emails[k]].account_id == id);
                            assert(s0.emails[x] == ptype);
                        }
                    }
                    assert(u2.t.emails =~= emails_form(s0, id, ptype, u2));
                }
                assert(u2.t.member_of =~= member_of_form(s0, id, u2));
                assert(u2.t.members =~= members_form(s0, id, u2));
                assert forall|k: int|
                    0 <= k < u2.p.emails.len() implies is_lower(#[trigger] u2.p.emails[k]) && (
                p0.emails.contains(u2.p.emails[k]) || !s0.emails.contains_key(
                    u2.p.emails[k],
                )) by {
                    if k < u.p.emails.len() {
                        assert(u2.p.emails[k] == u.p.emails[k]);
                        assert(is_lower(u.p.emails[k]));
                    }
                }
                assert forall|k: int, l: int|
                    0 <= k < l < u2.p.emails.len() implies u2.p.emails[k] != u2.p.emails[l] by {
                    if l == u2.p.emails.len() - 1 {
                        assert(u.p.emails.contains(u.p.emails[k]));
                    }
                }
            }
        },
        (PrincipalAction::RemoveItem, PrincipalField::Emails, PrincipalValueData::String(e)) => {
            let le = lower(e);
            match u.p.emails.index_of_first(le) {
                Some(i) => {
                    u.p.emails.index_of_first_ensures(le);
                    assert(u.p.emails[i] == le);
                    crate::assoc::lemma_to_set_remove(u.p.emails, i);
                    assert forall|x: Seq<char>|
                        u2.p.emails.contains(x) == (u.p.emails.contains(x) && x != le) by {
                        assert(u2.p.emails.to_set().contains(x) == u.p.emails.to_set().remove(
                            le,
                        ).contains(x));
                        if u.p.emails.contains(x) && x == le {
                        }
                    }
                    assert(u2.t.emails =~= emails_form(s0, id, ptype, u2)) by {
                        assert forall|x: Seq<char>|
                            #[trigger] u2.t.emails.contains_key(x) == emails_form(
                            s0,
                            id,
                            ptype,
                            u2,
                        ).contains_key(x) && (u2.t.emails.contains_key(x) ==> u2.t.emails[x]
                            == emails_form(s0, id, ptype, u2)[x]) by {
                            if u.p.emails.contains(x) {
                                lemma_own_email_fact(s0, id, ptype, u, x);
                            }
                            if x == le {
                                lemma_own_email_fact(s0, id, ptype, u, le);
                            }
                            if s0.emails.contains_key(x) && p0.emails.contains(x) {
                                let k = choose|k: int|
                                    0 <= k < p0.emails.len() && p0.emails[k] == x;
                                assert(s0.emails[p0.emails[k]].account_id == id);
                                assert(s0.emails[x] == ptype);
                            }
                        }
                        assert(u2.t.emails =~= emails_form(s0, id, ptype, u2));
                    }
                    assert(u2.t.member_of =~= member_of_form(s0, id, u2));
                    assert(u2.t.members =~= members_form(s0, id, u2));
                    assert forall|k: int|
                        0 <= k < u2.p.emails.len() implies is_lower(#[trigger] u2.p.emails[k]) && (
                    p0.emails.contains(u2.p.emails[k]) || !s0.emails.contains_key(
                        u2.p.emails[k],
                    )) by {
                        assert(u2.p.emails.contains(u2.p.emails[k]));
                        assert(u.p.emails.contains(u2.p.emails[k]));
                        lemma_own_email_fact(s0, id, ptype, u, u2.p.emails[k]);
                    }
                    assert forall|k: int, l: int|
                        0 <= k < l < u2.p.emails.len() implies u2.p.emails[k]
                        != u2.p.emails[l] by {
                        let ko = if k < i {
                            k
                        } else {
                            k + 1
                        };
                        let lo = if l < i {
                            l
                        } else {
                            l + 1
                        };
                        assert(u2.p.emails[k] == u.p.emails[ko]);
                        assert(u2.p.emails[l] == u.p.emails[lo]);
                    }
                },
                None => {},
            }
        },
        (
            PrincipalAction::Assign,
            PrincipalField::MemberOf,
            PrincipalValueData::StringList(list),
        ) => {
            let new_mo = members_resolved(s0, list, Set::empty())->Ok_0;
            lemma_members_resolved_ok(s0, list, Set::empty());
            assert(u2.t.member_of =~= member_of_form(s0, id, u2));
            assert(u2.t.members =~= members_form(s0, id, u2));
            assert(u2.t.emails =~= emails_form(s0, id, ptype, u2));
        },
        (PrincipalAction::AddItem, PrincipalField::MemberOf, PrincipalValueData::String(m)) => {
            let lm = lower(m);
            let g = s0.names[lm].account_id;
            assert(s0.principals.contains_key(g));
            assert(u2.t.member_of =~= member_of_form(s0, id, u2));
            assert(u2.t.members =~= members_form(s0, id, u2));
            assert(u2.t.emails =~= emails_form(s0, id, ptype, u2));
        },
        (PrincipalAction::RemoveItem, PrincipalField::MemberOf, PrincipalValueData::String(m)) => {
            if s0.names.contains_key(lower(m)) {
                assert(u2.t.member_of =~= member_of_form(s0, id, u2));
                assert(u2.t.members =~= members_form(s0, id, u2));
                assert(u2.t.emails =~= emails_form(s0, id, ptype, u2));
            }
        },
        (
            PrincipalAction::Assign,
            PrincipalField::Members,
            PrincipalValueData::StringList(list),
        ) => {
            let new_ms = members_resolved(s0, list, Set::empty())->Ok_0;
            lemma_members_resolved_ok(s0, list, Set::empty());
            assert(u2.t.member_of =~= member_of_form(s0, id, u2));
            assert(u2.t.members =~= members_form(s0, id, u2));
            assert(u2.t.emails =~= emails_form(s0, id, ptype, u2));
        },
        (PrincipalAction::AddItem, PrincipalField::Members, PrincipalValueData::String(m)) => {
            let lm = lower(m);
            let g = s0.names[lm].account_id;
            assert(s0.principals.contains_key(g));
            assert(u2.t.member_of =~= member_of_form(s0, id, u2));
            assert(u2.t.members =~= members_form(s0, id, u2));
            assert(u2.t.emails =~= emails_form(s0, id, ptype, u2));
        },
        (PrincipalAction::RemoveItem, PrincipalField::Members, PrincipalValueData::String(m)) => {
            if s0.names.contains_key(lower(m)) {
                assert(u2.t.member_of =~= member_of_form(s0, id, u2));
                assert(u2.t.members =~= members_form(s0, id, u2));
                assert(u2.t.emails =~= emails_form(s0, id, ptype, u2));
            }
        },
        _ => {},
    }
}

/// The committed state of a successful update run is well-formed.
pub proof fn lemma_upd_final_wf(s0: StoreData, id: u32, ptype: PrincipalIdType, u: UpdState)
    requires
        wf(s0),
        upd_inv(s0, id, ptype, u),
        ptype == (PrincipalIdType {
            account_id: id,
            typ: s0.principals[id].typ.spec_base_type(),
        }),
    ensures
        wf(merged(u, id)),
{
    let p0 = s0.principals[id];
    let f = merged(u, id);
    assert(wf_principal(s0, id));
    assert forall|n: Seq<char>| #[trigger] f.names.contains_key(n) implies {
        &&& f.principals.contains_key(f.names[n].account_id)
        &&& f.principals[f.names[n].account_id].name == n
    } by {
        if n == u.p.name {
            if u.p.name == p0.name {
                assert(f.names[n] == s0.names[p0.name]);
                assert(s0.names[p0.name].account_id == id);
            } else {
                assert(f.names[n] == ptype);
            }
        } else {
            assert(s0.names.contains_key(n));
            assert(n != p0.name || u.p.name == p0.name);
            let pid = s0.names[n].account_id;
            if pid == id {
                assert(s0.principals[pid].name == n);
                assert(n == p0.name);
                assert(u.p.name == p0.name);
                assert(false);
            }
            assert(f.principals[pid] == s0.principals[pid]);
        }
    }
    assert forall|i: u32| #[trigger] f.principals.contains_key(i) implies crate::manage::wf_principal(
        f,
        i,
    ) by {
        if i == id {
            assert(f.principals[id] == u.p);
            if u.p.name == p0.name {
                assert(f.names.contains_key(u.p.name) && f.names[u.p.name] == s0.names[p0.name]);
                assert(s0.names[p0.name].typ == p0.typ.spec_base_type());
            } else {
                assert(f.names.contains_key(u.p.name) && f.names[u.p.name] == ptype);
            }
            assert(u.p.typ.spec_base_type() == ptype.typ);
            assert forall|k: int| 0 <= k < u.p.emails.len() implies {
                &&& is_lower(#[trigger] u.p.emails[k])
                &&& f.emails.contains_key(u.p.emails[k])
                &&& f.emails[u.p.emails[k]].account_id == id
            } by {
                assert(u.p.emails.contains(u.p.emails[k]));
            }
        } else {
            assert(s0.principals.contains_key(i));
            assert(wf_principal(s0, i));
            let q = s0.principals[i];
            assert(f.principals[i] == q);
            assert(q.name != p0.name);
            assert(f.names.contains_key(q.name) && f.names[q.name] == s0.names[q.name]) by {
                if u.p.name != p0.name {
                    assert(q.name != u.p.name) by {
                        if q.name == u.p.name {
                            assert(!s0.names.contains_key(u.p.name));
                        }
                    }
                }
            }
            assert forall|k: int| 0 <= k < q.emails.len() implies {
                &&& is_lower(#[trigger] q.emails[k])
                &&& f.emails.contains_key(q.emails[k])
                &&& f.emails[q.emails[k]].account_id == i
            } by {
                assert(s0.emails.contains_key(q.emails[k]) && s0.emails[q.emails[k]].account_id
                    == i);
                assert(!p0.emails.contains(q.emails[k])) by {
                    if p0.emails.contains(q.emails[k]) {
                        let l = choose|l: int|
                            0 <= l < p0.emails.len() && p0.emails[l] == q.emails[k];
                        assert(s0.emails[p0.emails[l]].account_id == id);
                    }
                }
                assert(!u.p.emails.contains(q.emails[k])) by {
                    if u.p.emails.contains(q.emails[k]) {
                        lemma_own_email_fact(s0, id, ptype, u, q.emails[k]);
                    }
                }
                assert(f.emails.contains_key(q.emails[k]));
                assert(f.emails[q.emails[k]] == s0.emails[q.emails[k]]);
            }
        }
    }
    assert forall|e: Seq<char>| #[trigger] f.emails.contains_key(e) implies {
        &&& f.principals.contains_key(f.emails[e].account_id)
        &&& f.principals[f.emails[e].account_id].emails.contains(e)
        &&& f.emails[e].typ == f.principals[f.emails[e].account_id].typ.spec_base_type()
    } by {
        if u.p.emails.contains(e) {
            assert(f.emails[e] == ptype);
            assert(f.principals[id] == u.p);
        } else {
            assert(s0.emails.contains_key(e) && !p0.emails.contains(e));
            let pid = s0.emails[e].account_id;
            assert(s0.principals[pid].emails.contains(e));
            assert(pid != id);
            assert(f.principals[pid] == s0.principals[pid]);
        }
    }
    assert forall|a: u32, b: u32| #[trigger] f.member_of.contains((a, b))
        <==> #[trigger] f.members.contains((b, a)) by {
        if a != id && b != id {
            assert(f.member_of.contains((a, b)) == s0.member_of.contains((a, b)));
            assert(f.members.contains((b, a)) == s0.members.contains((b, a)));
        }
    }
    assert forall|a: u32, b: u32| #[trigger] f.member_of.contains((a, b)) implies
        f.principals.contains_key(a) && f.principals.contains_key(b) by {
        if a == id {
            assert(u.mo.contains(b));
        } else if b == id {
            assert(u.ms.contains(a));
        } else {
            assert(s0.member_of.contains((a, b)));
        }
    }
}

/// The views of a change list.
pub open spec fn updates_view(s: Seq<PrincipalUpdate>) -> Seq<PrincipalUpdateData> {
    s.map_values(|c: PrincipalUpdate| c@)
}

/// One step of the change fold, from the front.
pub proof fn lemma_apply_changes_snoc(
    s0: StoreData,
    id: u32,
    ptype: PrincipalIdType,
    u0: UpdState,
    chs: Seq<PrincipalUpdateData>,
    k: int,
)
    requires
        0 <= k < chs.len(),
    ensures
        apply_changes(s0, id, ptype, u0, chs.take(k + 1)) == (match apply_changes(
            s0,
            id,
            ptype,
            u0,
            chs.take(k),
        ) {
            Ok(u) => apply_change(s0, id, ptype, u, chs[k]),
            Err(e) => Err(e),
        }),
    decreases k,
{
    if k == 0 {
        assert(chs.take(1)[0] == chs[0]);
        assert(chs.take(1).drop_first() =~= Seq::<PrincipalUpdateData>::empty());
        assert(chs.take(0) =~= Seq::<PrincipalUpdateData>::empty());
        match apply_change(s0, id, ptype, u0, chs[0]) {
            Ok(u2) => {
                assert(apply_changes(s0, id, ptype, u2, Seq::empty()) == Ok::<
                    UpdState,
                    DirectoryErrorData,
                >(u2));
            },
            Err(e) => {},
        }
    } else {
        assert(chs.take(k + 1)[0] == chs[0]);
        assert(chs.take(k + 1).drop_first() =~= chs.drop_first().take(k));
        assert(chs.take(k).drop_first() =~= chs.drop_first().take(k - 1));
        assert(chs.take(k)[0] == chs[0]);
        assert(chs.drop_first()[k - 1] == chs[k]);
        match apply_change(s0, id, ptype, u0, chs[0]) {
            Ok(u2) => {
                lemma_apply_changes_snoc(s0, id, ptype, u2, chs.drop_first(), k - 1);
            },
            Err(e) => {},
        }
    }
}

/// Once a prefix of the fold fails, the whole fold fails the same way.
pub proof fn lemma_apply_changes_err_prop(
    s0: StoreData,
    id: u32,
    ptype: PrincipalIdType,
    u0: UpdState,
    chs: Seq<PrincipalUpdateData>,
    j: int,
)
    requires
        0 <= j <= chs.len(),
        apply_changes(s0, id, ptype, u0, chs.take(j)) is Err,
    ensures
        apply_changes(s0, id, ptype, u0, chs) == apply_changes(s0, id, ptype, u0, chs.take(j)),
    decreases chs.len() - j,
{
    if j == chs.len() {
        assert(chs.take(j) =~= chs);
    } else {
        lemma_apply_changes_snoc(s0, id, ptype, u0, chs, j);
        lemma_apply_changes_err_prop(s0, id, ptype, u0, chs, j + 1);
    }
}

/// A failing change at position `k` fails the whole update with its error.
pub proof fn lemma_exit_err(
    s0: StoreData,
    id: u32,
    ptype: PrincipalIdType,
    u0: UpdState,
    chs: Seq<PrincipalUpdateData>,
    k: int,
    u: UpdState,
    e: DirectoryErrorData,
)
    requires
        0 <= k < chs.len(),
        apply_changes(s0, id, ptype, u0, chs.take(k)) == Ok::<UpdState, DirectoryErrorData>(u),
        apply_change(s0, id, ptype, u, chs[k]) == Err::<UpdState, DirectoryErrorData>(e),
    ensures
        apply_changes(s0, id, ptype, u0, chs) == Err::<UpdState, DirectoryErrorData>(e),
{
    lemma_apply_changes_snoc(s0, id, ptype, u0, chs, k);
    lemma_apply_changes_err_prop(s0, id, ptype, u0, chs, k + 1);
}

/// A change list that only touches membership never alters the record.
pub proof fn lemma_membership_only_keeps_record(
    s0: StoreData,
    id: u32,
    ptype: PrincipalIdType,
    u: UpdState,
    chs: Seq<PrincipalUpdateData>,
)
    requires
        forall|i: int|
            0 <= i < chs.len() ==> ((#[trigger] chs[i]).field == PrincipalField::MemberOf
                || chs[i].field == PrincipalField::Members),
        apply_changes(s0, id, ptype, u, chs) is Ok,
    ensures
        apply_changes(s0, id, ptype, u, chs)->Ok_0.p == u.p,
    decreases chs.len(),
{
    if chs.len() > 0 {
        assert(chs[0].field == PrincipalField::MemberOf || chs[0].field
            == PrincipalField::Members);
        let u2 = apply_change(s0, id, ptype, u, chs[0])->Ok_0;
        assert(u2.p == u.p);
        assert forall|i: int|
            0 <= i < chs.drop_first().len() implies ((#[trigger] chs.drop_first()[i]).field
            == PrincipalField::MemberOf || chs.drop_first()[i].field
            == PrincipalField::Members) by {
            assert(chs.drop_first()[i] == chs[i + 1]);
        }
        lemma_membership_only_keeps_record(s0, id, ptype, u2, chs.drop_first());
    }
}

/// Remove a value from a duplicate-free list if present.
pub(crate) fn remove_u32(v: &mut Vec<u32>, x: u32)
    requires
        no_dups(old(v)@),
    ensures
        no_dups(final(v)@),
        forall|g: u32| final(v)@.contains(g) == (old(v)@.contains(g) && g != x),
{
    let n = v.len();
    let mut i: usize = 0;
    while i < n
        invariant
            v == old(v),
            no_dups(v@),
            n == v@.len(),
            0 <= i <= n,
            forall|j: int| 0 <= j < i ==> v@[j] != x,
        decreases n - i,
    {
        if v[i] == x {
            let ghost before = v@;
            proof {
                crate::assoc::lemma_to_set_remove(before, i as int);
            }
            v.remove(i);
            proof {
                assert forall|g: u32|
                    v@.contains(g) == (before.contains(g) && g != x) by {
                    assert(v@.to_set().contains(g) == before.to_set().remove(x).contains(g));
                }
            }
            return ;
        }
        i = i + 1;
    }
    proof {
        assert forall|g: u32| v@.contains(g) == (v@.contains(g) && g != x) by {
            if v@.contains(g) && g == x {
                let j = choose|j: int| 0 <= j < v@.len() && v@[j] == g;
            }
        }
    }
}

/// Add a value to a duplicate-free list if absent.
fn insert_u32(v: &mut Vec<u32>, x: u32)
    requires
        no_dups(old(v)@),
    ensures
        no_dups(final(v)@),
        forall|g: u32| final(v)@.contains(g) == (old(v)@.contains(g) || g == x),
{
    let n = v.len();
    let mut i: usize = 0;
    while i < n
        invariant
            v == old(v),
            no_dups(v@),
            n == v@.len(),
            0 <= i <= n,
            forall|j: int| 0 <= j < i ==> v@[j] != x,
        decreases n - i,
    {
        if v[i] == x {
            proof {
                assert(v@.contains(x));
                assert forall|g: u32| v@.contains(g) == (v@.contains(g) || g == x) by {}
            }
            return ;
        }
        i = i + 1;
    }
    let ghost before = v@;
    v.push(x);
    proof {
        crate::store::lemma_push_contains(before, x);
        assert forall|a: int, b: int| 0 <= a < b < v@.len() implies v@[a] != v@[b] by {
            if b == v@.len() - 1 {
                assert(v@[a] == before[a]);
                assert(before.contains(before[a]));
            }
        }
    }
}

/// Find the first position of a string in a list.
fn find_str(v: &Vec<String>, x: &str) -> (r: Option<usize>)
    ensures
        match r {
            Some(i) => i < v@.len() && v@[i as int]@ == x@ && (forall|j: int|
                0 <= j < i ==> v@[j]@ != x@),
            None => forall|j: int| 0 <= j < v@.len() ==> v@[j]@ != x@,
        },
{
    let n = v.len();
    let mut i: usize = 0;
    while i < n
        invariant
            n == v@.len(),
            0 <= i <= n,
            forall|j: int| 0 <= j < i ==> v@[j]@ != x@,
        decreases n - i,
    {
        if crate::strutil::str_eq(v[i].as_str(), x) {
            return Some(i);
        }
        i = i + 1;
    }
    None
}

impl Store {
    /// Apply a list of field changes to an existing account. The combination
    /// table is closed: anything outside it is unsupported. Changes are
    /// validated against the live store and committed as one batch; any
    /// validation failure aborts before a single write. The record itself is
    /// rewritten under an optimistic unchanged-since-read guard unless every
    /// change is a pure membership edit, which by design skips that guard.
    pub fn update_account(&mut self, by: QueryBy<'_>, changes: Vec<PrincipalUpdate>) -> (r: Result<
        (),
        DirectoryError,
    >)
        requires
            old(self).inv(),
            wf(old(self)@),
            !(by is Credentials),
        ensures
            final(self).inv(),
            wf(final(self)@),
            ({
                let s0 = old(self)@;
                let chs = updates_view(changes@);
                let target = match by {
                    QueryBy::Name(n) => if s0.names.contains_key(lower(n@)) {
                        Some(s0.names[lower(n@)].account_id)
                    } else {
                        None
                    },
                    QueryBy::Id(i) => Some(i),
                    QueryBy::Credentials(_) => None,
                };
                match target {
                    None => (by matches QueryBy::Name(n) && r matches Err(e) && e@
                        == DirectoryErrorData::Management(ManagementErrorData::NotFound(n@)))
                        && final(self)@ == s0,
                    Some(id) => {
                        if !s0.principals.contains_key(id) {
                            r matches Err(e) && e@ == DirectoryErrorData::Management(
                                ManagementErrorData::NotFound(crate::strutil::dec_str(id as int)),
                            ) && final(self)@ == s0
                        } else {
                            let ptype = PrincipalIdType {
                                account_id: id,
                                typ: s0.principals[id].typ.spec_base_type(),
                            };
                            match apply_changes(s0, id, ptype, initial_upd(s0, id), chs) {
                                Err(e) => r matches Err(er) && er@ == e && final(self)@ == s0,
                                Ok(u) => r matches Ok(ok) && final(self)@ == (
                                if touches_record(chs) {
                                    merged(u, id)
                                } else {
                                    u.t
                                }),
                            }
                        }
                    },
                }
            }),
    {
        let ghost s0 = self@;
        let ghost chs = updates_view(changes@);
        // Resolve the target account.
        let account_id = match by {
            QueryBy::Name(name) => match self.get_account_id(name) {
                Ok(Some(id)) => id,
                Ok(None) => {
                    return Err(
                        DirectoryError::Management(ManagementError::NotFound(name.to_owned())),
                    );
                },
                Err(e) => {
                    proof {
                        assert(false);
                    }
                    return Err(e);
                },
            },
            QueryBy::Id(id) => id,
            QueryBy::Credentials(_) => {
                proof {
                    assert(false);
                }
                return Err(DirectoryError::Unsupported);
            },
        };
        let original = match self.get_principal(account_id) {
            Some(p) => p,
            None => {
                proof {
                    if by is Name {
                        assert(false);
                    }
                }
                return Err(
                    DirectoryError::Management(
                        ManagementError::NotFound(crate::strutil::u32_to_string(account_id)),
                    ),
                );
            },
        };
        let mut principal = original.duplicate();
        let mut mo_vec = self.get_member_of(account_id);
        let mut ms_vec = self.get_members(account_id);
        let ptype = PrincipalIdType::new(account_id, original.typ.into_base_type());
        let ghost u0 = initial_upd(s0, account_id);
        let ghost mut u = u0;
        let mut touches = false;
        proof {
            lemma_initial_upd_inv(s0, account_id, ptype);
            assert(chs.take(0) =~= Seq::<PrincipalUpdateData>::empty());
            assert(!touches_record(chs.take(0)));
            assert forall|g: u32| mo_vec@.contains(g) == u.mo.contains(g) by {}
            assert forall|m: u32| ms_vec@.contains(m) == u.ms.contains(m) by {}
            assert(crate::store::sorted_strict(mo_vec@));
            assert forall|a: int, b: int| 0 <= a < b < mo_vec@.len() implies mo_vec@[a]
                != mo_vec@[b] by {}
        }
        let n = changes.len();
        let mut k: usize = 0;
        while k < n
            invariant
                self.inv(),
                wf(self@),
                self@ == s0,
                s0 == old(self)@,
                (match by {
                    QueryBy::Name(nm) => s0.names.contains_key(lower(nm@)) && account_id
                        == s0.names[lower(nm@)].account_id,
                    QueryBy::Id(i) => account_id == i,
                    QueryBy::Credentials(_) => false,
                }),
                n == changes@.len(),
                0 <= k <= n,
                chs == updates_view(changes@),
                s0.principals.contains_key(account_id),
                ptype == (PrincipalIdType {
                    account_id: account_id,
                    typ: s0.principals[account_id].typ.spec_base_type(),
                }),
                u0 == initial_upd(s0, account_id),
                apply_changes(s0, account_id, ptype, u0, chs.take(k as int)) == Ok::<
                    UpdState,
                    DirectoryErrorData,
                >(u),
                upd_inv(s0, account_id, ptype, u),
                principal@ == u.p,
                original@ == s0.principals[account_id],
                no_dups(mo_vec@),
                no_dups(ms_vec@),
                forall|g: u32| mo_vec@.contains(g) == u.mo.contains(g),
                forall|m: u32| ms_vec@.contains(m) == u.ms.contains(m),
                touches == touches_record(chs.take(k as int)),
            decreases n - k,
        {
            proof {
                assert(chs[k as int] == changes@[k as int]@);
                lemma_apply_changes_snoc(s0, account_id, ptype, u0, chs, k as int);
            }
            let ghost ch = chs[k as int];
            let change = &changes[k];
            let is_membership = match change.field {
                PrincipalField::MemberOf => true,
                PrincipalField::Members => true,
                _ => false,
            };
            match (&change.action, &change.field, &change.value) {
                (
                    PrincipalAction::Assign,
                    PrincipalField::Name,
                    crate::types::PrincipalValue::String(nv),
                ) => {
                    let ln = to_lower(nv.as_str());
                    if crate::strutil::str_eq(principal.name.as_str(), ln.as_str()) {
                        // No change requested.
                    } else if ln.as_str().is_empty() {
                        proof {
                            lemma_exit_err(s0, account_id, ptype, u0, chs, k as int, u,
                                DirectoryErrorData::Management(
                                    ManagementErrorData::MissingField(PrincipalField::Name),
                                ));
                        }
                        return Err(
                            DirectoryError::Management(
                                ManagementError::MissingField(PrincipalField::Name),
                            ),
                        );
                    } else if self.get_name_entry(ln.as_str()).is_some() {
                        proof {
                            lemma_exit_err(s0, account_id, ptype, u0, chs, k as int, u,
                                DirectoryErrorData::Management(
                                    ManagementErrorData::AlreadyExists {
                                        field: PrincipalField::Name,
                                        value: ln@,
                                    },
                                ));
                        }
                        return Err(
                            DirectoryError::Management(
                                ManagementError::AlreadyExists {
                                    field: PrincipalField::Name,
                                    value: ln,
                                },
                            ),
                        );
                    } else {
                        principal.name = ln;
                        proof {
                            u = apply_change(s0, account_id, ptype, u, ch)->Ok_0;
                            assert(principal@ =~= u.p);
                        }
                    }
                },
                (
                    PrincipalAction::Assign,
                    PrincipalField::Type,
                    crate::types::PrincipalValue::String(tv),
                ) => {
                    let nt = match Type::parse(tv.as_str()) {
                        Some(t) => t,
                        None => {
                            proof {
                                lemma_exit_err(s0, account_id, ptype, u0, chs, k as int, u,
                                    DirectoryErrorData::Unsupported);
                            }
                            return Err(DirectoryError::Unsupported);
                        },
                    };
                    let old_ok = match principal.typ {
                        Type::Individual => true,
                        Type::Superuser => true,
                        _ => false,
                    };
                    let new_ok = match nt {
                        Type::Individual => true,
                        Type::Superuser => true,
                        _ => false,
                    };
                    if old_ok && new_ok {
                        principal.typ = nt;
                        proof {
                            u = apply_change(s0, account_id, ptype, u, ch)->Ok_0;
                            assert(principal@ =~= u.p);
                        }
                    } else {
                        proof {
                            lemma_exit_err(s0, account_id, ptype, u0, chs, k as int, u,
                                DirectoryErrorData::Unsupported);
                        }
                        return Err(DirectoryError::Unsupported);
                    }
                },
                (
                    PrincipalAction::Assign,
                    PrincipalField::Secrets,
                    crate::types::PrincipalValue::StringList(l),
                ) => {
                    principal.secrets = crate::strutil::clone_string_vec(l);
                    proof {
                        u = apply_change(s0, account_id, ptype, u, ch)->Ok_0;
                        assert(principal@ =~= u.p);
                    }
                },
                (
                    PrincipalAction::Assign,
                    PrincipalField::Description,
                    crate::types::PrincipalValue::String(d),
                ) => {
                    principal.description = if d.as_str().is_empty() {
                        None
                    } else {
                        Some(d.clone())
                    };
                    proof {
                        u = apply_change(s0, account_id, ptype, u, ch)->Ok_0;
                        assert(principal@ =~= u.p);
                    }
                },
                (
                    PrincipalAction::Assign,
                    PrincipalField::Quota,
                    crate::types::PrincipalValue::Integer(q),
                ) => {
                    principal.quota = *q;
                    proof {
                        u = apply_change(s0, account_id, ptype, u, ch)->Ok_0;
                        assert(principal@ =~= u.p);
                    }
                },
                (
                    PrincipalAction::Assign,
                    PrincipalField::Emails,
                    crate::types::PrincipalValue::StringList(es),
                ) => {
                    let ghost esv = crate::strutil::str_seq_view(es@);
                    let mut les: Vec<String> = Vec::new();
                    let en = es.len();
                    let mut j: usize = 0;
                    proof {
                        assert(esv.skip(0) =~= esv);
                        assert(crate::strutil::str_seq_view(les@) =~= Seq::<Seq<char>>::empty());
                        assert(ch.value == PrincipalValueData::StringList(esv));
                    }
                    while j < en
                        invariant
                            self.inv(),
                            wf(self@),
                            self@ == s0,
                            s0 == old(self)@,
                                        (match by {
                                QueryBy::Name(nm) => s0.names.contains_key(lower(nm@)) && account_id
                                    == s0.names[lower(nm@)].account_id,
                                QueryBy::Id(i) => account_id == i,
                                QueryBy::Credentials(_) => false,
                            }),
                            en == es@.len(),
                            0 <= j <= en,
                            esv == crate::strutil::str_seq_view(es@),
                            emails_replaced(s0, u.p.emails, esv, Seq::empty()) == emails_replaced(
                                s0,
                                u.p.emails,
                                esv.skip(j as int),
                                crate::strutil::str_seq_view(les@),
                            ),
                            principal@ == u.p,
                            chs == updates_view(changes@),
                            0 <= k < chs.len(),
                            ch == chs[k as int],
                            ch.action == PrincipalAction::Assign,
                            ch.field == PrincipalField::Emails,
                            ch.value == PrincipalValueData::StringList(esv),
                            s0.principals.contains_key(account_id),
                            ptype == (PrincipalIdType {
                                account_id: account_id,
                                typ: s0.principals[account_id].typ.spec_base_type(),
                            }),
                            u0 == initial_upd(s0, account_id),
                            apply_changes(s0, account_id, ptype, u0, chs.take(k as int)) == Ok::<
                                UpdState,
                                DirectoryErrorData,
                            >(u),
                        decreases en - j,
                    {
                        let ghost tail = esv.skip(j as int);
                        let ghost lesv = crate::strutil::str_seq_view(les@);
                        proof {
                            assert(tail[0] == esv[j as int]);
                            assert(esv[j as int] == es@[j as int]@);
                            assert(tail.drop_first() =~= esv.skip(j + 1));
                        }
                        let le = to_lower(es[j].as_str());
                        if crate::strutil::str_vec_contains(&les, le.as_str()) {
                            proof {
                                assert(le@ == lower(tail[0]));
                                assert(emails_replaced(s0, u.p.emails, tail, lesv) == Err::<
                                    Seq<Seq<char>>,
                                    ManagementErrorData,
                                >(
                                    ManagementErrorData::AlreadyExists {
                                        field: PrincipalField::Emails,
                                        value: le@,
                                    },
                                ));
                                lemma_exit_err(s0, account_id, ptype, u0, chs, k as int, u,
                                    DirectoryErrorData::Management(
                                        ManagementErrorData::AlreadyExists {
                                            field: PrincipalField::Emails,
                                            value: le@,
                                        },
                                    ));
                            }
                            return Err(
                                DirectoryError::Management(
                                    ManagementError::AlreadyExists {
                                        field: PrincipalField::Emails,
                                        value: le,
                                    },
                                ),
                            );
                        }
                        if !crate::strutil::str_vec_contains(&principal.emails, le.as_str()) {
                            let taken = match self.rcpt(le.as_str()) {
                                Ok(b) => b,
                                Err(_) => {
                                    proof {
                                        assert(false);
                                    }
                                    false
                                },
                            };
                            proof {
                                crate::strutil::lemma_lower_is_lower(le@);
                            }
                            if taken {
                                proof {
                                    assert(le@ == lower(tail[0]));
                                    lemma_exit_err(s0, account_id, ptype, u0, chs, k as int, u,
                                        DirectoryErrorData::Management(
                                            ManagementErrorData::AlreadyExists {
                                                field: PrincipalField::Emails,
                                                value: le@,
                                            },
                                        ));
                                }
                                return Err(
                                    DirectoryError::Management(
                                        ManagementError::AlreadyExists {
                                            field: PrincipalField::Emails,
                                            value: le,
                                        },
                                    ),
                                );
                            }
                            match crate::strutil::email_domain_of(le.as_str()) {
                                Some(domain) => {
                                    proof {
                                        crate::manage::lemma_sub_lower(le@, domain@);
                                    }
                                    let local = match self.is_local_domain(domain.as_str()) {
                                        Ok(b) => b,
                                        Err(_) => {
                                            proof {
                                                assert(false);
                                            }
                                            false
                                        },
                                    };
                                    if !local {
                                        proof {
                                            assert(le@ == lower(tail[0]));
                                            lemma_exit_err(s0, account_id, ptype, u0, chs,
                                                k as int, u,
                                                DirectoryErrorData::Management(
                                                    ManagementErrorData::NotFound(domain@),
                                                ));
                                        }
                                        return Err(
                                            DirectoryError::Management(
                                                ManagementError::NotFound(domain),
                                            ),
                                        );
                                    }
                                },
                                None => {},
                            }
                        }
                        les.push(le);
                        proof {
                            assert(crate::strutil::str_seq_view(les@) =~= lesv.push(
                                lower(tail[0]),
                            ));
                        }
                        j = j + 1;
                    }
                    proof {
                        assert(esv.skip(en as int) =~= Seq::<Seq<char>>::empty());
                        assert(emails_replaced(s0, u.p.emails, esv, Seq::empty()) == Ok::<
                            Seq<Seq<char>>,
                            ManagementErrorData,
                        >(crate::strutil::str_seq_view(les@)));
                    }
                    principal.emails = les;
                    proof {
                        u = apply_change(s0, account_id, ptype, u, ch)->Ok_0;
                        assert(principal@ =~= u.p);
                    }
                },
                (
                    PrincipalAction::AddItem,
                    PrincipalField::Emails,
                    crate::types::PrincipalValue::String(ev),
                ) => {
                    let le = to_lower(ev.as_str());
                    if !crate::strutil::str_vec_contains(&principal.emails, le.as_str()) {
                        let taken = match self.rcpt(le.as_str()) {
                            Ok(b) => b,
                            Err(_) => {
                                proof {
                                    assert(false);
                                }
                                false
                            },
                        };
                        proof {
                            crate::strutil::lemma_lower_is_lower(le@);
                        }
                        if taken {
                            proof {
                                lemma_exit_err(s0, account_id, ptype, u0, chs, k as int, u,
                                    DirectoryErrorData::Management(
                                        ManagementErrorData::AlreadyExists {
                                            field: PrincipalField::Emails,
                                            value: le@,
                                        },
                                    ));
                            }
                            return Err(
                                DirectoryError::Management(
                                    ManagementError::AlreadyExists {
                                        field: PrincipalField::Emails,
                                        value: le,
                                    },
                                ),
                            );
                        }
                        match crate::strutil::email_domain_of(le.as_str()) {
                            Some(domain) => {
                                proof {
                                    crate::manage::lemma_sub_lower(le@, domain@);
                                }
                                let local = match self.is_local_domain(domain.as_str()) {
                                    Ok(b) => b,
                                    Err(_) => {
                                        proof {
                                            assert(false);
                                        }
                                        false
                                    },
                                };
                                if !local {
                                    proof {
                                        lemma_exit_err(s0, account_id, ptype, u0, chs, k as int,
                                            u,
                                            DirectoryErrorData::Management(
                                                ManagementErrorData::NotFound(domain@),
                                            ));
                                    }
                                    return Err(
                                        DirectoryError::Management(
                                            ManagementError::NotFound(domain),
                                        ),
                                    );
                                }
                            },
                            None => {},
                        }
                        principal.emails.push(le);
                        proof {
                            u = apply_change(s0, account_id, ptype, u, ch)->Ok_0;
                            assert(principal@ =~= u.p);
                        }
                    }
                },
                (
                    PrincipalAction::RemoveItem,
                    PrincipalField::Emails,
                    crate::types::PrincipalValue::String(ev),
                ) => {
                    let le = to_lower(ev.as_str());
                    match find_str(&principal.emails, le.as_str()) {
                        Some(idx) => {
                            proof {
                                u.p.emails.index_of_first_ensures(le@);
                                assert(u.p.emails[idx as int] == principal.emails@[idx as int]@);
                                assert(u.p.emails.contains(le@));
                                assert(u.p.emails.index_of_first(le@) == Some(idx as int)) by {
                                    let fi = u.p.emails.index_of_first(le@)->Some_0;
                                    if fi < idx {
                                        assert(principal.emails@[fi]@ == u.p.emails[fi]);
                                    }
                                    if fi > idx {
                                        assert(u.p.emails[idx as int] == le@);
                                    }
                                }
                            }
                            principal.emails.remove(idx);
                            proof {
                                u = apply_change(s0, account_id, ptype, u, ch)->Ok_0;
                                assert(principal@ =~= u.p);
                            }
                        },
                        None => {
                            proof {
                                u.p.emails.index_of_first_ensures(le@);
                                if u.p.emails.contains(le@) {
                                    let fi = choose|fi: int|
                                        0 <= fi < u.p.emails.len() && u.p.emails[fi] == le@;
                                    assert(principal.emails@[fi]@ == le@);
                                }
                                assert(u.p.emails.index_of_first(le@) is None);
                            }
                        },
                    }
                },
                (
                    PrincipalAction::Assign,
                    PrincipalField::MemberOf,
                    crate::types::PrincipalValue::StringList(list),
                ) => {
                    match self.resolve_member_list(list) {
                        Ok(new_mo) => {
                            proof {
                                assert(ch.value == PrincipalValueData::StringList(
                                    crate::strutil::str_seq_view(list@),
                                ));
                            }
                            mo_vec = new_mo;
                            if crate::strutil::u32_vec_contains(&mo_vec, account_id) {
                                insert_u32(&mut ms_vec, account_id);
                            } else {
                                remove_u32(&mut ms_vec, account_id);
                            }
                            proof {
                                u = apply_change(s0, account_id, ptype, u, ch)->Ok_0;
                            }
                        },
                        Err(e) => {
                            proof {
                                assert(ch.value == PrincipalValueData::StringList(
                                    crate::strutil::str_seq_view(list@),
                                ));
                                lemma_exit_err(s0, account_id, ptype, u0, chs, k as int, u, e@);
                            }
                            return Err(e);
                        },
                    }
                },
                (
                    PrincipalAction::AddItem,
                    PrincipalField::MemberOf,
                    crate::types::PrincipalValue::String(m),
                ) => {
                    let key = to_lower(m.as_str());
                    match self.get_name_entry(key.as_str()) {
                        Some(it) => {
                            insert_u32(&mut mo_vec, it.account_id);
                            if it.account_id == account_id {
                                insert_u32(&mut ms_vec, account_id);
                            }
                            proof {
                                u = apply_change(s0, account_id, ptype, u, ch)->Ok_0;
                            }
                        },
                        None => {
                            proof {
                                lemma_exit_err(s0, account_id, ptype, u0, chs, k as int, u,
                                    DirectoryErrorData::Management(
                                        ManagementErrorData::NotFound(m@),
                                    ));
                            }
                            return Err(
                                DirectoryError::Management(ManagementError::NotFound(m.clone())),
                            );
                        },
                    }
                },
                (
                    PrincipalAction::RemoveItem,
                    PrincipalField::MemberOf,
                    crate::types::PrincipalValue::String(m),
                ) => {
                    let key = to_lower(m.as_str());
                    match self.get_name_entry(key.as_str()) {
                        Some(it) => {
                            remove_u32(&mut mo_vec, it.account_id);
                            if it.account_id == account_id {
                                remove_u32(&mut ms_vec, account_id);
                            }
                            proof {
                                u = apply_change(s0, account_id, ptype, u, ch)->Ok_0;
                            }
                        },
                        None => {},
                    }
                },
                (
                    PrincipalAction::Assign,
                    PrincipalField::Members,
                    crate::types::PrincipalValue::StringList(list),
                ) => {
                    match self.resolve_member_list(list) {
                        Ok(new_ms) => {
                            proof {
                                assert(ch.value == PrincipalValueData::StringList(
                                    crate::strutil::str_seq_view(list@),
                                ));
                            }
                            ms_vec = new_ms;
                            if crate::strutil::u32_vec_contains(&ms_vec, account_id) {
                                insert_u32(&mut mo_vec, account_id);
                            } else {
                                remove_u32(&mut mo_vec, account_id);
                            }
                            proof {
                                u = apply_change(s0, account_id, ptype, u, ch)->Ok_0;
                            }
                        },
                        Err(e) => {
                            proof {
                                assert(ch.value == PrincipalValueData::StringList(
                                    crate::strutil::str_seq_view(list@),
                                ));
                                lemma_exit_err(s0, account_id, ptype, u0, chs, k as int, u, e@);
                            }
                            return Err(e);
                        },
                    }
                },
                (
                    PrincipalAction::AddItem,
                    PrincipalField::Members,
                    crate::types::PrincipalValue::String(m),
                ) => {
                    let key = to_lower(m.as_str());
                    match self.get_name_entry(key.as_str()) {
                        Some(it) => {
                            insert_u32(&mut ms_vec, it.account_id);
                            if it.account_id == account_id {
                                insert_u32(&mut mo_vec, account_id);
                            }
                            proof {
                                u = apply_change(s0, account_id, ptype, u, ch)->Ok_0;
                            }
                        },
                        None => {
                            proof {
                                lemma_exit_err(s0, account_id, ptype, u0, chs, k as int, u,
                                    DirectoryErrorData::Management(
                                        ManagementErrorData::NotFound(m@),
                                    ));
                            }
                            return Err(
                                DirectoryError::Management(ManagementError::NotFound(m.clone())),
                            );
                        },
                    }
                },
                (
                    PrincipalAction::RemoveItem,
                    PrincipalField::Members,
                    crate::types::PrincipalValue::String(m),
                ) => {
                    let key = to_lower(m.as_str());
                    match self.get_name_entry(key.as_str()) {
                        Some(it) => {
                            remove_u32(&mut ms_vec, it.account_id);
                            if it.account_id == account_id {
                                remove_u32(&mut mo_vec, account_id);
                            }
                            proof {
                                u = apply_change(s0, account_id, ptype, u, ch)->Ok_0;
                            }
                        },
                        None => {},
                    }
                },
                _ => {
                    proof {
                        lemma_exit_err(s0, account_id, ptype, u0, chs, k as int, u,
                            DirectoryErrorData::Unsupported);
                    }
                    return Err(DirectoryError::Unsupported);
                },
            }
            if !is_membership {
                touches = true;
            }
            proof {
                lemma_apply_change_inv(s0, account_id, ptype, old_u_of(s0, account_id, ptype, u0, chs, k as int), ch);
                assert(chs.take(k + 1).contains(ch)) by {
                    assert(chs.take(k + 1)[k as int] == ch);
                }
                assert(touches == touches_record(chs.take(k + 1))) by {
                    if touches_record(chs.take(k + 1)) {
                        let i = choose|i: int|
                            0 <= i < chs.take(k + 1).len() && !((#[trigger] chs.take(
                                k + 1,
                            )[i]).field == PrincipalField::MemberOf || chs.take(k + 1)[i].field
                                == PrincipalField::Members);
                        if i < k {
                            assert(chs.take(k as int)[i] == chs.take(k + 1)[i]);
                            assert(touches_record(chs.take(k as int)));
                        }
                    }
                    if touches {
                        if touches_record(chs.take(k as int)) {
                            let i = choose|i: int|
                                0 <= i < chs.take(k as int).len() && !((#[trigger] chs.take(
                                    k as int,
                                )[i]).field == PrincipalField::MemberOf || chs.take(
                                    k as int,
                                )[i].field == PrincipalField::Members);
                            assert(chs.take(k + 1)[i] == chs.take(k as int)[i]);
                        } else {
                            assert(!((chs.take(k + 1)[k as int]).field == PrincipalField::MemberOf
                                || chs.take(k + 1)[k as int].field == PrincipalField::Members));
                        }
                    }
                }
            }
            k = k + 1;
        }
        proof {
            assert(chs.take(n as int) =~= chs);
            if !touches {
                if chs.len() == 0 {
                    assert(chs.take(0) =~= chs);
                } else {
                    assert(!touches_record(chs));
                    assert forall|i: int|
                        0 <= i < chs.len() implies ((#[trigger] chs[i]).field
                        == PrincipalField::MemberOf || chs[i].field
                        == PrincipalField::Members) by {
                        if !(chs[i].field == PrincipalField::MemberOf || chs[i].field
                            == PrincipalField::Members) {
                            assert(touches_record(chs));
                        }
                    }
                    lemma_membership_only_keeps_record(s0, account_id, ptype, u0, chs);
                }
            }
        }
        // All changes validated: build the commit batch.
        self.commit_update(account_id, ptype, original, principal, mo_vec, ms_vec, touches, Ghost(s0), Ghost(u))
    }

    /// Resolve a replacement group list against the name index, rejecting
    /// the first unknown name.
    fn resolve_member_list(&self, list: &Vec<String>) -> (r: Result<Vec<u32>, DirectoryError>)
        requires
            self.inv(),
        ensures
            ({
                let res = members_resolved(
                    self@,
                    crate::strutil::str_seq_view(list@),
                    Set::empty(),
                );
                match r {
                    Ok(v) => {
                        &&& res matches Ok(st)
                        &&& no_dups(v@)
                        &&& forall|g: u32| v@.contains(g) == st.contains(g)
                    },
                    Err(e) => res matches Err(m) && e@ == DirectoryErrorData::Management(
                        ManagementErrorData::NotFound(m),
                    ),
                }
            }),
    {
        let ghost listv = crate::strutil::str_seq_view(list@);
        let mut out: Vec<u32> = Vec::new();
        let n = list.len();
        let mut j: usize = 0;
        proof {
            assert(listv.skip(0) =~= listv);
            assert(out@.to_set() =~= Set::<u32>::empty());
        }
        while j < n
            invariant
                self.inv(),
                n == list@.len(),
                0 <= j <= n,
                listv == crate::strutil::str_seq_view(list@),
                no_dups(out@),
                ({
                    let full = members_resolved(self@, listv, Set::empty());
                    let rest = members_resolved(self@, listv.skip(j as int), out@.to_set());
                    full == rest
                }),
                forall|g: u32| out@.contains(g) == out@.to_set().contains(g),
            decreases n - j,
        {
            let ghost tail = listv.skip(j as int);
            proof {
                assert(tail[0] == listv[j as int]);
                assert(listv[j as int] == list@[j as int]@);
                assert(tail.drop_first() =~= listv.skip(j + 1));
            }
            let key = to_lower(list[j].as_str());
            match self.get_name_entry(key.as_str()) {
                Some(it) => {
                    let ghost before = out@;
                    insert_u32(&mut out, it.account_id);
                    proof {
                        assert(out@.to_set() =~= before.to_set().insert(it.account_id)) by {
                            assert forall|g: u32|
                                out@.to_set().contains(g) == before.to_set().insert(
                                it.account_id,
                            ).contains(g) by {
                                assert(out@.contains(g) == (before.contains(g) || g
                                    == it.account_id));
                            }
                        }
                    }
                },
                None => {
                    return Err(
                        DirectoryError::Management(ManagementError::NotFound(list[j].clone())),
                    );
                },
            }
            j = j + 1;
        }
        proof {
            assert(listv.skip(n as int) =~= Seq::<Seq<char>>::empty());
        }
        Ok(out)
    }
}

impl Store {
    /// Commit a validated update: clear the account's old index entries and
    /// pairs, write the new ones, and rewrite the record under its guard
    /// when any non-membership field changed.
    fn commit_update(
        &mut self,
        account_id: u32,
        ptype: PrincipalIdType,
        original: Principal<u32>,
        principal: Principal<u32>,
        mo_vec: Vec<u32>,
        ms_vec: Vec<u32>,
        touches: bool,
        Ghost(s0): Ghost<StoreData>,
        Ghost(u): Ghost<UpdState>,
    ) -> (r: Result<(), DirectoryError>)
        requires
            old(self).inv(),
            old(self)@ == s0,
            wf(s0),
            upd_inv(s0, account_id, ptype, u),
            ptype == (PrincipalIdType {
                account_id: account_id,
                typ: s0.principals[account_id].typ.spec_base_type(),
            }),
            original@ == s0.principals[account_id],
            principal@ == u.p,
            !touches ==> u.p == s0.principals[account_id],
            forall|g: u32| mo_vec@.contains(g) == u.mo.contains(g),
            forall|m: u32| ms_vec@.contains(m) == u.ms.contains(m),
        ensures
            final(self).inv(),
            wf(final(self)@),
            r matches Ok(ok),
            final(self)@ == (if touches {
                merged(u, account_id)
            } else {
                u.t
            }),
    {
        let ghost p0 = s0.principals[account_id];
        proof {
            assert(wf_principal(s0, account_id));
        }
        let mo0 = self.get_member_of(account_id);
        let ms0 = self.get_members(account_id);
        let mut batch: Vec<Op> = Vec::new();
        proof {
            assert(ops_view(batch@) =~= Seq::<OpData>::empty());
        }
        // Move the name entry.
        let op1 = Op::ClearName(original.name.clone());
        proof {
            lemma_apply_push(s0, batch@, op1);
        }
        batch.push(op1);
        let op2 = Op::SetName(principal.name.clone(), ptype);
        proof {
            lemma_apply_push(s0, batch@, op2);
        }
        batch.push(op2);
        let ghost cur0 = apply_ops(s0, ops_view(batch@));
        proof {
            assert(cur0 == (StoreData {
                names: s0.names.remove(p0.name).insert(u.p.name, ptype),
                ..s0
            }));
            assert(cur0.names =~= names_form(s0, account_id, ptype, u)) by {
                if u.p.name == p0.name {
                    assert(s0.names[p0.name] == ptype);
                }
            }
            assert(cur0 =~= (StoreData { names: u.t.names, ..s0 }));
        }
        let ghost cur0 = apply_ops(s0, ops_view(batch@));
        // Clear the old e-mail entries.
        let en0 = original.emails.len();
        let mut i: usize = 0;
        proof {
            assert(original@.emails.take(0) =~= Seq::<Seq<char>>::empty());
            let m0 = Map::new(
                |e: Seq<char>| cur0.emails.contains_key(e) && !original@.emails.take(0).contains(
                    e,
                ),
                |e: Seq<char>| cur0.emails[e],
            );
            assert(cur0.emails =~= m0);
        }
        while i < en0
            invariant
                en0 == original.emails@.len(),
                0 <= i <= en0,
                original@.emails == crate::strutil::str_seq_view(original.emails@),
                guards_hold(s0, ops_view(batch@)),
                apply_ops(s0, ops_view(batch@)) == (StoreData {
                    emails: Map::new(
                        |e: Seq<char>| cur0.emails.contains_key(e) && !original@.emails.take(
                            i as int,
                        ).contains(e),
                        |e: Seq<char>| cur0.emails[e],
                    ),
                    ..cur0
                }),
            decreases en0 - i,
        {
            let ghost bpre = batch@;
            let op = Op::ClearEmail(original.emails[i].clone());
            proof {
                lemma_apply_push(s0, batch@, op);
            }
            batch.push(op);
            proof {
                let ev = original@.emails;
                assert(ev[i as int] == original.emails@[i as int]@);
                assert(ev.take(i + 1) =~= ev.take(i as int).push(ev[i as int]));
                lemma_push_contains(ev.take(i as int), ev[i as int]);
                let lhs = apply_ops(s0, ops_view(batch@)).emails;
                let rhs = Map::new(
                    |e: Seq<char>| cur0.emails.contains_key(e) && !ev.take(i + 1).contains(e),
                    |e: Seq<char>| cur0.emails[e],
                );
                assert_maps_equal!(lhs, rhs, e => {
                    assert(ev.take(i + 1).contains(e) == (ev.take(i as int).contains(e) || e
                        == ev[i as int]));
                });
                assert(apply_ops(s0, ops_view(batch@)) =~= (StoreData { emails: rhs, ..cur0 }));
                assert forall|kk: int|
                    0 <= kk < ops_view(batch@).len() implies guard_holds(
                    s0,
                    #[trigger] ops_view(batch@)[kk],
                ) by {
                    assert(ops_view(batch@) =~= ops_view(bpre).push(op@));
                    if kk < ops_view(bpre).len() {
                        assert(ops_view(batch@)[kk] == ops_view(bpre)[kk]);
                    }
                }
            }
            i = i + 1;
        }
        let ghost cur1 = apply_ops(s0, ops_view(batch@));
        proof {
            assert(original@.emails.take(en0 as int) =~= original@.emails);
        }
        // Write the new e-mail entries.
        let en1 = principal.emails.len();
        let mut i: usize = 0;
        proof {
            let m0 = Map::new(
                |e: Seq<char>| cur1.emails.contains_key(e) || u.p.emails.take(0).contains(e),
                |e: Seq<char>|
                    if u.p.emails.take(0).contains(e) {
                        ptype
                    } else {
                        cur1.emails[e]
                    },
            );
            assert(u.p.emails.take(0) =~= Seq::<Seq<char>>::empty());
            assert(cur1.emails =~= m0);
        }
        while i < en1
            invariant
                en1 == principal.emails@.len(),
                0 <= i <= en1,
                u.p.emails == crate::strutil::str_seq_view(principal.emails@),
                guards_hold(s0, ops_view(batch@)),
                apply_ops(s0, ops_view(batch@)) == (StoreData {
                    emails: Map::new(
                        |e: Seq<char>| cur1.emails.contains_key(e) || u.p.emails.take(
                            i as int,
                        ).contains(e),
                        |e: Seq<char>|
                            if u.p.emails.take(i as int).contains(e) {
                                ptype
                            } else {
                                cur1.emails[e]
                            },
                    ),
                    ..cur1
                }),
            decreases en1 - i,
        {
            let ghost bpre = batch@;
            let op = Op::SetEmail(principal.emails[i].clone(), ptype);
            proof {
                lemma_apply_push(s0, batch@, op);
            }
            batch.push(op);
            proof {
                let pv = u.p.emails;
                assert(pv[i as int] == principal.emails@[i as int]@);
                assert(pv.take(i + 1) =~= pv.take(i as int).push(pv[i as int]));
                lemma_push_contains(pv.take(i as int), pv[i as int]);
                let lhs = apply_ops(s0, ops_view(batch@)).emails;
                let rhs = Map::new(
                    |e: Seq<char>| cur1.emails.contains_key(e) || pv.take(i + 1).contains(e),
                    |e: Seq<char>|
                        if pv.take(i + 1).contains(e) {
                            ptype
                        } else {
                            cur1.emails[e]
                        },
                );
                assert_maps_equal!(lhs, rhs, e => {
                    assert(pv.take(i + 1).contains(e) == (pv.take(i as int).contains(e) || e
                        == pv[i as int]));
                });
                assert(apply_ops(s0, ops_view(batch@)) =~= (StoreData { emails: rhs, ..cur1 }));
                assert forall|kk: int|
                    0 <= kk < ops_view(batch@).len() implies guard_holds(
                    s0,
                    #[trigger] ops_view(batch@)[kk],
                ) by {
                    assert(ops_view(batch@) =~= ops_view(bpre).push(op@));
                    if kk < ops_view(bpre).len() {
                        assert(ops_view(batch@)[kk] == ops_view(bpre)[kk]);
                    }
                }
            }
            i = i + 1;
        }
        let ghost cur2 = apply_ops(s0, ops_view(batch@));
        proof {
            assert(u.p.emails.take(en1 as int) =~= u.p.emails);
            assert(cur2.emails =~= emails_form(s0, account_id, ptype, u)) by {
                assert forall|e: Seq<char>|
                    #[trigger] cur2.emails.contains_key(e) == emails_form(
                    s0,
                    account_id,
                    ptype,
                    u,
                ).contains_key(e) && (cur2.emails.contains_key(e) ==> cur2.emails[e]
                    == emails_form(s0, account_id, ptype, u)[e]) by {
                    if p0.emails.contains(e) {
                        let kk = choose|kk: int|
                            0 <= kk < p0.emails.len() && p0.emails[kk] == e;
                        assert(s0.emails.contains_key(p0.emails[kk]));
                        assert(s0.emails[p0.emails[kk]].account_id == account_id);
                        assert(s0.emails[e] == ptype);
                    }
                }
                assert(cur2.emails =~= emails_form(s0, account_id, ptype, u));
            }
            assert(cur2 =~= (StoreData { names: u.t.names, emails: u.t.emails, ..s0 }));
        }
        // Clear the old membership pairs, both directions.
        let gn0 = mo0.len();
        let mut i: usize = 0;
        while i < gn0
            invariant
                gn0 == mo0@.len(),
                0 <= i <= gn0,
                forall|g: u32| mo0@.contains(g) <==> s0.member_of.contains((account_id, g)),
                guards_hold(s0, ops_view(batch@)),
                apply_ops(s0, ops_view(batch@)) == (StoreData {
                    member_of: Set::new(
                        |pr: (u32, u32)|
                            cur2.member_of.contains(pr) && !(pr.0 == account_id && mo0@.take(
                                i as int,
                            ).contains(pr.1)),
                    ),
                    members: Set::new(
                        |pr: (u32, u32)|
                            cur2.members.contains(pr) && !(pr.1 == account_id && mo0@.take(
                                i as int,
                            ).contains(pr.0)),
                    ),
                    ..cur2
                }),
            decreases gn0 - i,
        {
            let g = mo0[i];
            let ghost bpre = batch@;
            let opa = Op::ClearMemberOf(account_id, g);
            let opb = Op::ClearMembers(g, account_id);
            proof {
                lemma_apply_push(s0, batch@, opa);
                lemma_apply_push(s0, batch@.push(opa), opb);
            }
            batch.push(opa);
            batch.push(opb);
            proof {
                assert(mo0@.take(i + 1) =~= mo0@.take(i as int).push(mo0@[i as int]));
                lemma_push_contains(mo0@.take(i as int), mo0@[i as int]);
                let lhs_mo = apply_ops(s0, ops_view(batch@)).member_of;
                let rhs_mo = Set::new(
                    |pr: (u32, u32)|
                        cur2.member_of.contains(pr) && !(pr.0 == account_id && mo0@.take(
                            i + 1,
                        ).contains(pr.1)),
                );
                assert_sets_equal!(lhs_mo, rhs_mo, pr => {
                    assert(mo0@.take(i + 1).contains(pr.1) == (mo0@.take(i as int).contains(pr.1)
                        || pr.1 == mo0@[i as int]));
                });
                let lhs_ms = apply_ops(s0, ops_view(batch@)).members;
                let rhs_ms = Set::new(
                    |pr: (u32, u32)|
                        cur2.members.contains(pr) && !(pr.1 == account_id && mo0@.take(
                            i + 1,
                        ).contains(pr.0)),
                );
                assert_sets_equal!(lhs_ms, rhs_ms, pr => {
                    assert(mo0@.take(i + 1).contains(pr.0) == (mo0@.take(i as int).contains(pr.0)
                        || pr.0 == mo0@[i as int]));
                });
                assert(apply_ops(s0, ops_view(batch@)) =~= (StoreData {
                    member_of: rhs_mo,
                    members: rhs_ms,
                    ..cur2
                }));
                assert forall|kk: int|
                    0 <= kk < ops_view(batch@).len() implies guard_holds(
                    s0,
                    #[trigger] ops_view(batch@)[kk],
                ) by {
                    assert(ops_view(batch@) =~= ops_view(bpre).push(opa@).push(opb@));
                    if kk < ops_view(bpre).len() {
                        assert(ops_view(batch@)[kk] == ops_view(bpre)[kk]);
                    }
                }
            }
            i = i + 1;
        }
        let ghost cur3 = apply_ops(s0, ops_view(batch@));
        let mn0 = ms0.len();
        let mut i: usize = 0;
        while i < mn0
            invariant
                mn0 == ms0@.len(),
                0 <= i <= mn0,
                forall|m: u32| ms0@.contains(m) <==> s0.members.contains((account_id, m)),
                guards_hold(s0, ops_view(batch@)),
                apply_ops(s0, ops_view(batch@)) == (StoreData {
                    member_of: Set::new(
                        |pr: (u32, u32)|
                            cur3.member_of.contains(pr) && !(pr.1 == account_id && ms0@.take(
                                i as int,
                            ).contains(pr.0)),
                    ),
                    members: Set::new(
                        |pr: (u32, u32)|
                            cur3.members.contains(pr) && !(pr.0 == account_id && ms0@.take(
                                i as int,
                            ).contains(pr.1)),
                    ),
                    ..cur3
                }),
            decreases mn0 - i,
        {
            let m = ms0[i];
            let ghost bpre = batch@;
            let opa = Op::ClearMemberOf(m, account_id);
            let opb = Op::ClearMembers(account_id, m);
            proof {
                lemma_apply_push(s0, batch@, opa);
                lemma_apply_push(s0, batch@.push(opa), opb);
            }
            batch.push(opa);
            batch.push(opb);
            proof {
                assert(ms0@.take(i + 1) =~= ms0@.take(i as int).push(ms0@[i as int]));
                lemma_push_contains(ms0@.take(i as int), ms0@[i as int]);
                let lhs_mo = apply_ops(s0, ops_view(batch@)).member_of;
                let rhs_mo = Set::new(
                    |pr: (u32, u32)|
                        cur3.member_of.contains(pr) && !(pr.1 == account_id && ms0@.take(
                            i + 1,
                        ).contains(pr.0)),
                );
                assert_sets_equal!(lhs_mo, rhs_mo, pr => {
                    assert(ms0@.take(i + 1).contains(pr.0) == (ms0@.take(i as int).contains(pr.0)
                        || pr.0 == ms0@[i as int]));
                });
                let lhs_ms = apply_ops(s0, ops_view(batch@)).members;
                let rhs_ms = Set::new(
                    |pr: (u32, u32)|
                        cur3.members.contains(pr) && !(pr.0 == account_id && ms0@.take(
                            i + 1,
                        ).contains(pr.1)),
                );
                assert_sets_equal!(lhs_ms, rhs_ms, pr => {
                    assert(ms0@.take(i + 1).contains(pr.1) == (ms0@.take(i as int).contains(pr.1)
                        || pr.1 == ms0@[i as int]));
                });
                assert(apply_ops(s0, ops_view(batch@)) =~= (StoreData {
                    member_of: rhs_mo,
                    members: rhs_ms,
                    ..cur3
                }));
                assert forall|kk: int|
                    0 <= kk < ops_view(batch@).len() implies guard_holds(
                    s0,
                    #[trigger] ops_view(batch@)[kk],
                ) by {
                    assert(ops_view(batch@) =~= ops_view(bpre).push(opa@).push(opb@));
                    if kk < ops_view(bpre).len() {
                        assert(ops_view(batch@)[kk] == ops_view(bpre)[kk]);
                    }
                }
            }
            i = i + 1;
        }
        let ghost cur4 = apply_ops(s0, ops_view(batch@));
        proof {
            assert(mo0@.take(gn0 as int) =~= mo0@);
            assert(ms0@.take(mn0 as int) =~= ms0@);
            assert(cur4.member_of =~= Set::new(
                |pr: (u32, u32)|
                    s0.member_of.contains(pr) && pr.0 != account_id && pr.1 != account_id,
            )) by {
                assert forall|pr: (u32, u32)|
                    cur4.member_of.contains(pr) == (s0.member_of.contains(pr) && pr.0 != account_id
                        && pr.1 != account_id) by {
                    if s0.member_of.contains(pr) {
                        if pr.0 == account_id {
                            assert(mo0@.contains(pr.1));
                        }
                        if pr.1 == account_id {
                            assert(s0.members.contains((account_id, pr.0)));
                            assert(ms0@.contains(pr.0));
                        }
                    }
                }
            }
            assert(cur4.members =~= Set::new(
                |pr: (u32, u32)|
                    s0.members.contains(pr) && pr.0 != account_id && pr.1 != account_id,
            )) by {
                assert forall|pr: (u32, u32)|
                    cur4.members.contains(pr) == (s0.members.contains(pr) && pr.0 != account_id
                        && pr.1 != account_id) by {
                    if s0.members.contains(pr) {
                        if pr.0 == account_id {
                            assert(ms0@.contains(pr.1));
                        }
                        if pr.1 == account_id {
                            assert(s0.member_of.contains((account_id, pr.0)));
                            assert(mo0@.contains(pr.0));
                        }
                    }
                }
            }
        }
        // Write the new membership pairs, both directions.
        let gn1 = mo_vec.len();
        let mut i: usize = 0;
        while i < gn1
            invariant
                gn1 == mo_vec@.len(),
                0 <= i <= gn1,
                forall|g: u32| mo_vec@.contains(g) == u.mo.contains(g),
                guards_hold(s0, ops_view(batch@)),
                apply_ops(s0, ops_view(batch@)) == (StoreData {
                    member_of: Set::new(
                        |pr: (u32, u32)|
                            cur4.member_of.contains(pr) || (pr.0 == account_id && mo_vec@.take(
                                i as int,
                            ).contains(pr.1)),
                    ),
                    members: Set::new(
                        |pr: (u32, u32)|
                            cur4.members.contains(pr) || (pr.1 == account_id && mo_vec@.take(
                                i as int,
                            ).contains(pr.0)),
                    ),
                    ..cur4
                }),
            decreases gn1 - i,
        {
            let g = mo_vec[i];
            let ghost bpre = batch@;
            let opa = Op::SetMemberOf(account_id, g);
            let opb = Op::SetMembers(g, account_id);
            proof {
                lemma_apply_push(s0, batch@, opa);
                lemma_apply_push(s0, batch@.push(opa), opb);
            }
            batch.push(opa);
            batch.push(opb);
            proof {
                assert(mo_vec@.take(i + 1) =~= mo_vec@.take(i as int).push(mo_vec@[i as int]));
                lemma_push_contains(mo_vec@.take(i as int), mo_vec@[i as int]);
                let lhs_mo = apply_ops(s0, ops_view(batch@)).member_of;
                let rhs_mo = Set::new(
                    |pr: (u32, u32)|
                        cur4.member_of.contains(pr) || (pr.0 == account_id && mo_vec@.take(
                            i + 1,
                        ).contains(pr.1)),
                );
                assert_sets_equal!(lhs_mo, rhs_mo, pr => {
                    assert(mo_vec@.take(i + 1).contains(pr.1) == (mo_vec@.take(
                        i as int,
                    ).contains(pr.1) || pr.1 == mo_vec@[i as int]));
                });
                let lhs_ms = apply_ops(s0, ops_view(batch@)).members;
                let rhs_ms = Set::new(
                    |pr: (u32, u32)|
                        cur4.members.contains(pr) || (pr.1 == account_id && mo_vec@.take(
                            i + 1,
                        ).contains(pr.0)),
                );
                assert_sets_equal!(lhs_ms, rhs_ms, pr => {
                    assert(mo_vec@.take(i + 1).contains(pr.0) == (mo_vec@.take(
                        i as int,
                    ).contains(pr.0) || pr.0 == mo_vec@[i as int]));
                });
                assert(apply_ops(s0, ops_view(batch@)) =~= (StoreData {
                    member_of: rhs_mo,
                    members: rhs_ms,
                    ..cur4
                }));
                assert forall|kk: int|
                    0 <= kk < ops_view(batch@).len() implies guard_holds(
                    s0,
                    #[trigger] ops_view(batch@)[kk],
                ) by {
                    assert(ops_view(batch@) =~= ops_view(bpre).push(opa@).push(opb@));
                    if kk < ops_view(bpre).len() {
                        assert(ops_view(batch@)[kk] == ops_view(bpre)[kk]);
                    }
                }
            }
            i = i + 1;
        }
        let ghost cur5 = apply_ops(s0, ops_view(batch@));
        let mn1 = ms_vec.len();
        let mut i: usize = 0;
        while i < mn1
            invariant
                mn1 == ms_vec@.len(),
                0 <= i <= mn1,
                forall|m: u32| ms_vec@.contains(m) == u.ms.contains(m),
                guards_hold(s0, ops_view(batch@)),
                apply_ops(s0, ops_view(batch@)) == (StoreData {
                    member_of: Set::new(
                        |pr: (u32, u32)|
                            cur5.member_of.contains(pr) || (pr.1 == account_id && ms_vec@.take(
                                i as int,
                            ).contains(pr.0)),
                    ),
                    members: Set::new(
                        |pr: (u32, u32)|
                            cur5.members.contains(pr) || (pr.0 == account_id && ms_vec@.take(
                                i as int,
                            ).contains(pr.1)),
                    ),
                    ..cur5
                }),
            decreases mn1 - i,
        {
            let m = ms_vec[i];
            let ghost bpre = batch@;
            let opa = Op::SetMemberOf(m, account_id);
            let opb = Op::SetMembers(account_id, m);
            proof {
                lemma_apply_push(s0, batch@, opa);
                lemma_apply_push(s0, batch@.push(opa), opb);
            }
            batch.push(opa);
            batch.push(opb);
            proof {
                assert(ms_vec@.take(i + 1) =~= ms_vec@.take(i as int).push(ms_vec@[i as int]));
                lemma_push_contains(ms_vec@.take(i as int), ms_vec@[i as int]);
                let lhs_mo = apply_ops(s0, ops_view(batch@)).member_of;
                let rhs_mo = Set::new(
                    |pr: (u32, u32)|
                        cur5.member_of.contains(pr) || (pr.1 == account_id && ms_vec@.take(
                            i + 1,
                        ).contains(pr.0)),
                );
                assert_sets_equal!(lhs_mo, rhs_mo, pr => {
                    assert(ms_vec@.take(i + 1).contains(pr.0) == (ms_vec@.take(
                        i as int,
                    ).contains(pr.0) || pr.0 == ms_vec@[i as int]));
                });
                let lhs_ms = apply_ops(s0, ops_view(batch@)).members;
                let rhs_ms = Set::new(
                    |pr: (u32, u32)|
                        cur5.members.contains(pr) || (pr.0 == account_id && ms_vec@.take(
                            i + 1,
                        ).contains(pr.1)),
                );
                assert_sets_equal!(lhs_ms, rhs_ms, pr => {
                    assert(ms_vec@.take(i + 1).contains(pr.1) == (ms_vec@.take(
                        i as int,
                    ).contains(pr.1) || pr.1 == ms_vec@[i as int]));
                });
                assert(apply_ops(s0, ops_view(batch@)) =~= (StoreData {
                    member_of: rhs_mo,
                    members: rhs_ms,
                    ..cur5
                }));
                assert forall|kk: int|
                    0 <= kk < ops_view(batch@).len() implies guard_holds(
                    s0,
                    #[trigger] ops_view(batch@)[kk],
                ) by {
                    assert(ops_view(batch@) =~= ops_view(bpre).push(opa@).push(opb@));
                    if kk < ops_view(bpre).len() {
                        assert(ops_view(batch@)[kk] == ops_view(bpre)[kk]);
                    }
                }
            }
            i = i + 1;
        }
        let ghost cur6 = apply_ops(s0, ops_view(batch@));
        proof {
            assert(mo_vec@.take(gn1 as int) =~= mo_vec@);
            assert(ms_vec@.take(mn1 as int) =~= ms_vec@);
            assert(cur6.member_of =~= member_of_form(s0, account_id, u)) by {
                assert forall|pr: (u32, u32)|
                    cur6.member_of.contains(pr) == member_of_form(s0, account_id, u).contains(
                    pr,
                ) by {
                    if pr.0 == account_id && pr.1 == account_id {
                        assert(u.mo.contains(account_id) == u.ms.contains(account_id));
                    }
                }
            }
            assert(cur6.members =~= members_form(s0, account_id, u)) by {
                assert forall|pr: (u32, u32)|
                    cur6.members.contains(pr) == members_form(s0, account_id, u).contains(pr) by {
                    if pr.0 == account_id && pr.1 == account_id {
                        assert(u.mo.contains(account_id) == u.ms.contains(account_id));
                    }
                }
            }
            assert(cur6 =~= u.t);
        }
        // Rewrite the record itself, guarded, unless only membership moved.
        if touches {
            let ghost bpre = batch@;
            let opg = Op::AssertPrincipal(account_id, original);
            proof {
                lemma_apply_push(s0, batch@, opg);
            }
            batch.push(opg);
            let ghost bmid = batch@;
            let opr = Op::SetPrincipal(account_id, principal);
            proof {
                lemma_apply_push(s0, batch@, opr);
            }
            batch.push(opr);
            proof {
                assert(apply_ops(s0, ops_view(batch@)) =~= merged(u, account_id));
                assert forall|kk: int|
                    0 <= kk < ops_view(batch@).len() implies guard_holds(
                    s0,
                    #[trigger] ops_view(batch@)[kk],
                ) by {
                    assert(ops_view(batch@) =~= ops_view(bpre).push(opg@).push(opr@));
                    if kk < ops_view(bpre).len() {
                        assert(ops_view(batch@)[kk] == ops_view(bpre)[kk]);
                    }
                }
            }
        }
        let ghost fin = apply_ops(s0, ops_view(batch@));
        proof {
            lemma_upd_final_wf(s0, account_id, ptype, u);
            if !touches {
                assert(u.t.principals.insert(account_id, u.p) =~= u.t.principals);
                assert(merged(u, account_id) =~= u.t);
            }
            assert(fin == (if touches {
                merged(u, account_id)
            } else {
                u.t
            }));
        }
        match self.write(batch) {
            Ok(_) => Ok(()),
            Err(e) => {
                proof {
                    assert(false);
                }
                Err(DirectoryError::Store(e))
            },
        }
    }
}

/// The working state before the change at position `k`.
pub open spec fn old_u_of(
    s0: StoreData,
    id: u32,
    ptype: PrincipalIdType,
    u0: UpdState,
    chs: Seq<PrincipalUpdateData>,
    k: int,
) -> UpdState {
    apply_changes(s0, id, ptype, u0, chs.take(k))->Ok_0
}

} // verus!
