//! The directory's global laws, stated and proved over the same views the
//! operation contracts use. Each law holds of every well-formed state, which
//! every management operation is proved to preserve.

use vstd::prelude::*;

use crate::dispatch::Directory;
use crate::lookup::email_ids_ok;
use crate::manage::{deleted, provisioned, lemma_provisioned_wf, created, wf, wf_principal};
use crate::store::StoreData;
use crate::strutil::{lemma_lower_is_lower, lower};
use crate::types::{
    PrincipalAction, PrincipalData, PrincipalField, PrincipalIdType, PrincipalUpdateData,
    PrincipalValueData, Type,
};
use crate::update::{apply_change, UpdState};

verus! {

/// Uniqueness: two distinct well-formed principals never share a name, and
/// no address is listed by both.
pub proof fn lemma_uniqueness(s: StoreData, a: u32, b: u32)
    requires
        wf(s),
        s.principals.contains_key(a),
        s.principals.contains_key(b),
        a != b,
    ensures
        s.principals[a].name != s.principals[b].name,
        forall|e: Seq<char>|
            !(#[trigger] s.principals[a].emails.contains(e) && s.principals[b].emails.contains(e)),
{
    assert(wf_principal(s, a));
    assert(wf_principal(s, b));
    assert(s.names[s.principals[a].name].account_id == a);
    assert(s.names[s.principals[b].name].account_id == b);
    assert forall|e: Seq<char>|
        !(#[trigger] s.principals[a].emails.contains(e) && s.principals[b].emails.contains(
            e,
        )) by {
        if s.principals[a].emails.contains(e) && s.principals[b].emails.contains(e) {
            let i = choose|i: int|
                0 <= i < s.principals[a].emails.len() && s.principals[a].emails[i] == e;
            let j = choose|j: int|
                0 <= j < s.principals[b].emails.len() && s.principals[b].emails[j] == e;
            assert(s.emails[s.principals[a].emails[i]].account_id == a);
            assert(s.emails[s.principals[b].emails[j]].account_id == b);
        }
    }
}

/// Bidirectional membership: after any successful sequence of operations,
/// `a` is among the groups of `b` exactly when `b` is among the members of
/// `a`; both directions of the pair always exist together.
pub proof fn lemma_bidirectional_membership(s: StoreData, a: u32, b: u32)
    requires
        wf(s),
    ensures
        s.member_of.contains((a, b)) <==> s.members.contains((b, a)),
{
}

/// Idempotent provisioning: once a name has been auto-provisioned, looking
/// the name up finds exactly the id the provisioning returned, and exactly
/// one principal carries the name — so a second `get_or_create_account_id`
/// takes the lookup branch of its contract: the same id, no state change.
pub proof fn lemma_provisioning_idempotent(s: StoreData, raw: Seq<char>)
    requires
        wf(s),
        raw.len() > 0,
        !s.names.contains_key(lower(raw)),
        s.next_id < u32::MAX,
    ensures
        ({
            let n = lower(raw);
            let s1 = provisioned(s, n);
            &&& s1.names.contains_key(n)
            &&& s1.names[n].account_id == s.next_id
            &&& forall|i: u32|
                (#[trigger] s1.principals.contains_key(i) && s1.principals[i].name == n) <==> i
                    == s.next_id
        }),
{
    let n = lower(raw);
    lemma_lower_is_lower(raw);
    lemma_provisioned_wf(s, n);
    let s1 = provisioned(s, n);
    assert forall|i: u32|
        (#[trigger] s1.principals.contains_key(i) && s1.principals[i].name == n) <==> i
            == s.next_id by {
        if s1.principals.contains_key(i) && s1.principals[i].name == n {
            assert(wf_principal(s1, i));
            assert(s1.names[n].account_id == i);
        }
    }
}

/// Case-insensitivity: lookups key on the lowercased name, so two spellings
/// with one lowercase form always resolve alike; and a created account is
/// found under any spelling of its name.
pub proof fn lemma_case_insensitive_lookup(s: StoreData, a: Seq<char>, b: Seq<char>)
    requires
        lower(a) == lower(b),
    ensures
        s.names.contains_key(lower(a)) == s.names.contains_key(lower(b)),
        s.names.contains_key(lower(a)) ==> s.names[lower(a)].account_id == s.names[lower(
            b,
        )].account_id,
{
}

/// Case-insensitivity at creation: the account created from a record is
/// indexed under the lowercase form of its name, so a lookup of any spelling
/// with that lowercase form yields the fresh id.
pub proof fn lemma_create_then_lookup(
    s: StoreData,
    pm: PrincipalData<Seq<char>>,
    gs: Seq<u32>,
    les: Seq<Seq<char>>,
    q: Seq<char>,
)
    requires
        lower(q) == lower(pm.name),
    ensures
        created(s, pm, gs, les).names.contains_key(lower(q)),
        created(s, pm, gs, les).names[lower(q)].account_id == s.next_id,
{
    lemma_lower_is_lower(pm.name);
}

/// Delete completeness: after an account's identity records are cleared, a
/// lookup of its old name finds nothing, and no group lists it as a member
/// in either direction.
pub proof fn lemma_delete_completeness(s: StoreData, id: u32)
    requires
        wf(s),
        s.principals.contains_key(id),
    ensures
        !deleted(s, id).names.contains_key(s.principals[id].name),
        forall|g: u32| !deleted(s, id).members.contains((g, id)),
        forall|g: u32| !deleted(s, id).member_of.contains((id, g)),
{
}

/// Catch-all fallback: when the normalized address resolves to nothing but
/// the catch-all rewriting of the original address is a recipient, the
/// two-attempt outcome that `rcpt`'s contract equates its result to (on a
/// cold cache) is true, `email_to_ids`'s contract takes its retry branch,
/// and that retry resolves to the catch-all owner's ids.
pub proof fn lemma_catch_all_fallback(d: Directory, email: Seq<char>, ca: Seq<char>, ids: Seq<u32>)
    requires
        d.catch_all.spec_catch_all(email) == Some(ca),
        !d.sview().emails.contains_key(lower(d.subaddressing.spec_subaddress(email))),
        d.sview().emails.contains_key(lower(ca)),
        email_ids_ok(d.sview(), lower(ca), ids),
    ensures
        (d.sview().emails.contains_key(lower(d.subaddressing.spec_subaddress(email))) || (
        d.catch_all.spec_catch_all(email) matches Some(c) && d.sview().emails.contains_key(
            lower(c),
        ))),
        crate::lookup::email_ids_empty(d.sview(), lower(d.subaddressing.spec_subaddress(email))),
        d.sview().emails[lower(ca)].typ != Type::List ==> ids == seq![
            d.sview().emails[lower(ca)].account_id,
        ],
{
}

/// Type restriction: a group can never be turned into an individual, while
/// an individual becomes a superuser, all other fields untouched.
pub proof fn lemma_type_restriction(s0: StoreData, id: u32, ptype: PrincipalIdType, u: UpdState)
    ensures
        u.p.typ == Type::Group ==> apply_change(
            s0,
            id,
            ptype,
            u,
            PrincipalUpdateData {
                action: PrincipalAction::Assign,
                field: PrincipalField::Type,
                value: PrincipalValueData::String("individual"@),
            },
        ) == Err::<UpdState, crate::types::DirectoryErrorData>(
            crate::types::DirectoryErrorData::Unsupported,
        ),
        u.p.typ == Type::Individual ==> apply_change(
            s0,
            id,
            ptype,
            u,
            PrincipalUpdateData {
                action: PrincipalAction::Assign,
                field: PrincipalField::Type,
                value: PrincipalValueData::String("superuser"@),
            },
        ) == Ok::<UpdState, crate::types::DirectoryErrorData>(
            UpdState { p: PrincipalData { typ: Type::Superuser, ..u.p }, ..u },
        ),
{
    reveal_strlit("individual");
    reveal_strlit("superuser");
    assert(Type::spec_parse("individual"@) == Some(Type::Individual));
    assert("superuser"@ != "individual"@) by {
        assert("superuser"@[0] == 's' && "individual"@[0] == 'i');
    }
    assert(Type::spec_parse("superuser"@) == Some(Type::Superuser));
}

} // verus!
