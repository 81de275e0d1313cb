//! The principal record model: the entity schema shared by every directory
//! backend, the update description used by the management engine, and the
//! error taxonomy.

use vstd::prelude::*;

use crate::strutil::{clone_string_vec, clone_u32_vec, str_eq, str_seq_view, str_vec_eq, u32_vec_eq};

verus! {

/// The kind of a principal. `Individual` and `Superuser` are mutually
/// convertible; no other type conversion is permitted.
#[derive(Clone, Copy, Debug, PartialEq, Eq, Structural)]
pub enum Type {
    Individual,
    Group,
    Resource,
    Location,
    Superuser,
    List,
    Other,
}

impl Type {
    /// The base type under which a principal is indexed: a superuser is
    /// indexed as an individual.
    pub open spec fn spec_base_type(self) -> Type {
        match self {
            Type::Superuser => Type::Individual,
            t => t,
        }
    }

    pub fn into_base_type(self) -> (r: Type)
        ensures
            r == self.spec_base_type(),
    {
        match self {
            Type::Superuser => Type::Individual,
            t => t,
        }
    }

    /// The JMAP account-type label of this principal type.
    pub open spec fn spec_jmap(self) -> Seq<char> {
        match self {
            Type::Individual => "individual"@,
            Type::Superuser => "individual"@,
            Type::Group => "group"@,
            Type::Resource => "resource"@,
            Type::Location => "location"@,
            Type::Other => "other"@,
            Type::List => "list"@,
        }
    }

    pub fn to_jmap(&self) -> (r: &'static str)
        ensures
            r@ == self.spec_jmap(),
    {
        match self {
            Type::Individual | Type::Superuser => "individual",
            Type::Group => "group",
            Type::Resource => "resource",
            Type::Location => "location",
            Type::Other => "other",
            Type::List => "list",
        }
    }
}

impl Type {
    /// The principal type a textual label names, if any.
    pub open spec fn spec_parse(s: Seq<char>) -> Option<Type> {
        if s == "individual"@ {
            Some(Type::Individual)
        } else if s == "superuser"@ {
            Some(Type::Superuser)
        } else if s == "group"@ {
            Some(Type::Group)
        } else if s == "resource"@ {
            Some(Type::Resource)
        } else if s == "location"@ {
            Some(Type::Location)
        } else if s == "list"@ {
            Some(Type::List)
        } else if s == "other"@ {
            Some(Type::Other)
        } else {
            None
        }
    }

    pub fn parse(s: &str) -> (r: Option<Type>)
        ensures
            r == Type::spec_parse(s@),
    {
        if str_eq(s, "individual") {
            Some(Type::Individual)
        } else if str_eq(s, "superuser") {
            Some(Type::Superuser)
        } else if str_eq(s, "group") {
            Some(Type::Group)
        } else if str_eq(s, "resource") {
            Some(Type::Resource)
        } else if str_eq(s, "location") {
            Some(Type::Location)
        } else if str_eq(s, "list") {
            Some(Type::List)
        } else if str_eq(s, "other") {
            Some(Type::Other)
        } else {
            None
        }
    }
}

impl Default for Type {
    fn default() -> (r: Self)
        ensures
            r == Type::Individual,
    {
        Type::Individual
    }
}

/// An identity record. `T` is how group references are carried: names in
/// transport form (`Principal<String>`), numeric ids at rest
/// (`Principal<u32>`).
pub struct Principal<T> {
    pub id: u32,
    pub typ: Type,
    pub quota: u32,
    pub name: String,
    pub secrets: Vec<String>,
    pub emails: Vec<String>,
    pub member_of: Vec<T>,
    pub description: Option<String>,
}

/// The mathematical content of a principal record; `M` is the view of the
/// group-reference representation.
#[verifier::ext_equal]
pub ghost struct PrincipalData<M> {
    pub id: u32,
    pub typ: Type,
    pub quota: u32,
    pub name: Seq<char>,
    pub secrets: Seq<Seq<char>>,
    pub emails: Seq<Seq<char>>,
    pub member_of: Seq<M>,
    pub description: Option<Seq<char>>,
}

impl<T: View> View for Principal<T> {
    type V = PrincipalData<T::V>;

    open spec fn view(&self) -> PrincipalData<T::V> {
        PrincipalData {
            id: self.id,
            typ: self.typ,
            quota: self.quota,
            name: self.name@,
            secrets: str_seq_view(self.secrets@),
            emails: str_seq_view(self.emails@),
            member_of: self.member_of@.map_values(|m: T| m@),
            description: match self.description {
                Some(d) => Some(d@),
                None => None,
            },
        }
    }
}

impl<T> Principal<T> {
    pub fn name(&self) -> (r: &str)
        ensures
            r@ == self.name@,
    {
        self.name.as_str()
    }

    pub fn has_name(&self) -> (r: bool)
        ensures
            r == (self.name@.len() != 0),
    {
        !self.name.as_str().is_empty()
    }

    pub fn description(&self) -> (r: Option<&str>)
        ensures
            match r {
                Some(d) => self.description matches Some(o) && o@ == d@,
                None => self.description is None,
            },
    {
        match &self.description {
            Some(d) => Some(d.as_str()),
            None => None,
        }
    }
}

impl Principal<u32> {
    /// A deep copy of a stored record.
    pub fn duplicate(&self) -> (r: Principal<u32>)
        ensures
            r@ == self@,
    {
        let r = Principal {
            id: self.id,
            typ: self.typ,
            quota: self.quota,
            name: self.name.clone(),
            secrets: clone_string_vec(&self.secrets),
            emails: clone_string_vec(&self.emails),
            member_of: clone_u32_vec(&self.member_of),
            description: match &self.description {
                Some(d) => Some(d.clone()),
                None => None,
            },
        };
        assert(r@ =~= self@);
        r
    }

    /// Equality of two stored records, over views.
    pub fn same_as(&self, other: &Principal<u32>) -> (r: bool)
        ensures
            r == (self@ == other@),
    {
        if self.id != other.id || self.typ != other.typ || self.quota != other.quota {
            return false;
        }
        if !str_eq(self.name.as_str(), other.name.as_str()) {
            return false;
        }
        if !str_vec_eq(&self.secrets, &other.secrets) {
            return false;
        }
        if !str_vec_eq(&self.emails, &other.emails) {
            return false;
        }
        if !u32_vec_eq(&self.member_of, &other.member_of) {
            proof {
                if self@.member_of == other@.member_of {
                    assert(self@.member_of.len() == self.member_of@.len());
                    assert(other@.member_of.len() == other.member_of@.len());
                    assert forall|i: int|
                        0 <= i < self.member_of@.len() implies self.member_of@[i]
                        == other.member_of@[i] by {
                        assert(self@.member_of[i] == self.member_of@[i]);
                        assert(other@.member_of[i] == other.member_of@[i]);
                    }
                    assert(self.member_of@ =~= other.member_of@);
                }
            }
            return false;
        }
        let descs_eq = match (&self.description, &other.description) {
            (Some(a), Some(b)) => str_eq(a.as_str(), b.as_str()),
            (None, None) => true,
            _ => false,
        };
        if !descs_eq {
            assert(self@.description != other@.description);
            return false;
        }
        assert(self@.member_of =~= self.member_of@);
        assert(other@.member_of =~= other.member_of@);
        assert(self@ =~= other@);
        true
    }
}

/// How a directory operation picks its target principal.
pub enum QueryBy<'x> {
    Name(&'x str),
    Id(u32),
    Credentials(&'x Credentials),
}

/// Credential material handed to `authenticate`, already decoded from the
/// wire.
pub enum Credentials {
    Plain { username: String, secret: String },
    XOauth2 { username: String, secret: String },
    OAuthBearer { token: String },
}

impl Credentials {
    /// The login name a failure is tracked under.
    pub open spec fn spec_login(&self) -> Seq<char> {
        match self {
            Credentials::Plain { username, .. } => username@,
            Credentials::XOauth2 { username, .. } => username@,
            Credentials::OAuthBearer { token } => token@,
        }
    }

    pub fn login(&self) -> (r: &str)
        ensures
            r@ == self.spec_login(),
    {
        match self {
            Credentials::Plain { username, .. } => username.as_str(),
            Credentials::XOauth2 { username, .. } => username.as_str(),
            Credentials::OAuthBearer { token } => token.as_str(),
        }
    }
}

/// The outcome of an authentication attempt: wrong credentials and a
/// fail2ban lockout must be distinguishable by the caller.
pub enum AuthResult<T> {
    Success(T),
    Failure,
    Banned,
}

/// A field of a principal record that an update may address.
#[derive(Clone, Copy, Debug, PartialEq, Eq, Structural)]
pub enum PrincipalField {
    Name,
    Type,
    Quota,
    Description,
    Secrets,
    Emails,
    MemberOf,
    Members,
}

/// What an update does to a field.
#[derive(Clone, Copy, Debug, PartialEq, Eq, Structural)]
pub enum PrincipalAction {
    Assign,
    AddItem,
    RemoveItem,
}

/// A value carried by an update.
pub enum PrincipalValue {
    String(String),
    StringList(Vec<String>),
    Integer(u32),
}

/// The view of an update value.
pub ghost enum PrincipalValueData {
    String(Seq<char>),
    StringList(Seq<Seq<char>>),
    Integer(u32),
}

impl View for PrincipalValue {
    type V = PrincipalValueData;

    open spec fn view(&self) -> PrincipalValueData {
        match self {
            PrincipalValue::String(s) => PrincipalValueData::String(s@),
            PrincipalValue::StringList(l) => PrincipalValueData::StringList(
                l@.map_values(|s: String| s@),
            ),
            PrincipalValue::Integer(i) => PrincipalValueData::Integer(*i),
        }
    }
}

/// One requested change: an (action, field, value) triple. Combinations
/// outside the closed table understood by `update_account` are rejected.
pub struct PrincipalUpdate {
    pub action: PrincipalAction,
    pub field: PrincipalField,
    pub value: PrincipalValue,
}

/// The view of one requested change.
pub ghost struct PrincipalUpdateData {
    pub action: PrincipalAction,
    pub field: PrincipalField,
    pub value: PrincipalValueData,
}

impl View for PrincipalUpdate {
    type V = PrincipalUpdateData;

    open spec fn view(&self) -> PrincipalUpdateData {
        PrincipalUpdateData { action: self.action, field: self.field, value: self.value@ }
    }
}

/// Validation failures surfaced to the administrative caller.
#[derive(Debug)]
pub enum ManagementError {
    MissingField(PrincipalField),
    AlreadyExists { field: PrincipalField, value: String },
    NotFound(String),
}

/// The view of a validation failure.
pub ghost enum ManagementErrorData {
    MissingField(PrincipalField),
    AlreadyExists { field: PrincipalField, value: Seq<char> },
    NotFound(Seq<char>),
}

impl View for ManagementError {
    type V = ManagementErrorData;

    open spec fn view(&self) -> ManagementErrorData {
        match self {
            ManagementError::MissingField(f) => ManagementErrorData::MissingField(*f),
            ManagementError::AlreadyExists { field, value } => ManagementErrorData::AlreadyExists {
                field: *field,
                value: value@,
            },
            ManagementError::NotFound(v) => ManagementErrorData::NotFound(v@),
        }
    }
}

/// Errors of the storage adapter.
#[derive(Clone, Copy, Debug, PartialEq, Eq, Structural)]
pub enum StoreError {
    /// An optimistic guard in a batch did not hold: a concurrent writer won.
    AssertValueFailed,
}

/// The directory-level error taxonomy.
#[derive(Debug)]
pub enum DirectoryError {
    /// A storage conflict or failure, surfaced so the caller can decide
    /// whether a retry is safe.
    Store(StoreError),
    /// A validation failure; propagated verbatim, never retried.
    Management(ManagementError),
    /// A backend did not answer in time.
    TimedOut,
    /// The operation or field/action combination is not supported.
    Unsupported,
}

/// The view of a directory error.
pub ghost enum DirectoryErrorData {
    Store(StoreError),
    Management(ManagementErrorData),
    TimedOut,
    Unsupported,
}

impl View for DirectoryError {
    type V = DirectoryErrorData;

    open spec fn view(&self) -> DirectoryErrorData {
        match self {
            DirectoryError::Store(e) => DirectoryErrorData::Store(*e),
            DirectoryError::Management(e) => DirectoryErrorData::Management(e@),
            DirectoryError::TimedOut => DirectoryErrorData::TimedOut,
            DirectoryError::Unsupported => DirectoryErrorData::Unsupported,
        }
    }
}

/// The id and base type held by a name or e-mail index entry.
#[derive(Clone, Copy, Debug)]
pub struct PrincipalIdType {
    pub account_id: u32,
    pub typ: Type,
}

impl View for PrincipalIdType {
    type V = PrincipalIdType;

    open spec fn view(&self) -> PrincipalIdType {
        *self
    }
}

impl PrincipalIdType {
    pub fn new(account_id: u32, typ: Type) -> (r: Self)
        ensures
            r.account_id == account_id,
            r.typ == typ,
    {
        PrincipalIdType { account_id, typ }
    }
}

} // verus!
