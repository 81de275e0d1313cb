//! End-to-end tests of the management engine against the embedded store.

use directory::store::Store;
use directory::types::{
    Credentials, DirectoryError, ManagementError, Principal, PrincipalAction, PrincipalField,
    PrincipalUpdate, PrincipalValue, QueryBy, Type,
};

fn principal(name: &str, typ: Type, emails: Vec<String>, member_of: Vec<String>) -> Principal<String> {
    Principal {
        id: 0,
        typ,
        quota: 0,
        name: name.to_string(),
        secrets: Vec::new(),
        emails,
        member_of,
        description: None,
    }
}

#[test]
fn create_account_and_lookup_is_case_insensitive() {
    let mut store = Store::new();
    store.create_domain("example.com").unwrap();
    let id = store
        .create_account(principal("Bob", Type::Individual, vec!["bob@example.com".to_string()], vec![]))
        .unwrap();
    assert_eq!(store.get_account_id("bob").unwrap(), Some(id));
    assert_eq!(store.get_account_id("Bob").unwrap(), Some(id));
    assert_eq!(store.get_account_id("BOB").unwrap(), Some(id));
    assert_eq!(store.get_account_name(id).unwrap(), Some("bob".to_string()));
}

#[test]
fn scenario_duplicate_email_rejected() {
    let mut store = Store::new();
    store.create_domain("example.com").unwrap();
    let alice = store
        .create_account(principal(
            "alice",
            Type::Individual,
            vec!["alice@example.com".to_string()],
            vec![],
        ))
        .unwrap();
    assert_eq!(store.get_account_id("alice").unwrap(), Some(alice));
    let err = store
        .create_account(principal(
            "alice2",
            Type::Individual,
            vec!["alice@example.com".to_string()],
            vec![],
        ))
        .unwrap_err();
    match err {
        DirectoryError::Management(ManagementError::AlreadyExists { field, value }) => {
            assert_eq!(field, PrincipalField::Emails);
            assert_eq!(value, "alice@example.com");
        }
        other => panic!("unexpected error: {:?}", other),
    }
    let domains = store.list_domains(None, 0).unwrap();
    assert_eq!(domains, vec!["example.com".to_string()]);
}

#[test]
fn duplicate_name_rejected() {
    let mut store = Store::new();
    store
        .create_account(principal("carol", Type::Individual, vec![], vec![]))
        .unwrap();
    let err = store
        .create_account(principal("Carol", Type::Individual, vec![], vec![]))
        .unwrap_err();
    assert!(matches!(
        err,
        DirectoryError::Management(ManagementError::AlreadyExists {
            field: PrincipalField::Name,
            ..
        })
    ));
}

#[test]
fn email_requires_local_domain() {
    let mut store = Store::new();
    let err = store
        .create_account(principal(
            "dave",
            Type::Individual,
            vec!["dave@elsewhere.org".to_string()],
            vec![],
        ))
        .unwrap_err();
    match err {
        DirectoryError::Management(ManagementError::NotFound(domain)) => {
            assert_eq!(domain, "elsewhere.org");
        }
        other => panic!("unexpected error: {:?}", other),
    }
}

#[test]
fn missing_name_rejected() {
    let mut store = Store::new();
    let err = store
        .create_account(principal("", Type::Individual, vec![], vec![]))
        .unwrap_err();
    assert!(matches!(
        err,
        DirectoryError::Management(ManagementError::MissingField(PrincipalField::Name))
    ));
}

#[test]
fn unknown_group_rejected() {
    let mut store = Store::new();
    let err = store
        .create_account(principal(
            "erin",
            Type::Individual,
            vec![],
            vec!["nosuchgroup".to_string()],
        ))
        .unwrap_err();
    match err {
        DirectoryError::Management(ManagementError::NotFound(name)) => {
            assert_eq!(name, "nosuchgroup");
        }
        other => panic!("unexpected error: {:?}", other),
    }
}

#[test]
fn get_or_create_is_idempotent() {
    let mut store = Store::new();
    let first = store.get_or_create_account_id("sync-user").unwrap();
    let second = store.get_or_create_account_id("sync-user").unwrap();
    let third = store.get_or_create_account_id("SYNC-USER").unwrap();
    assert_eq!(first, second);
    assert_eq!(first, third);
    let names = store.list_accounts(None, None, 0).unwrap();
    assert_eq!(names, vec!["sync-user".to_string()]);
}

#[test]
fn membership_is_bidirectional() {
    let mut store = Store::new();
    let group = store
        .create_account(principal("staff", Type::Group, vec![], vec![]))
        .unwrap();
    let user = store
        .create_account(principal(
            "frank",
            Type::Individual,
            vec![],
            vec!["staff".to_string()],
        ))
        .unwrap();
    assert_eq!(store.get_member_of(user), vec![group]);
    assert_eq!(store.get_members(group), vec![user]);
}

#[test]
fn delete_account_clears_everything() {
    let mut store = Store::new();
    store.create_domain("example.com").unwrap();
    let group = store
        .create_account(principal("team", Type::Group, vec![], vec![]))
        .unwrap();
    let user = store
        .create_account(principal(
            "gina",
            Type::Individual,
            vec!["gina@example.com".to_string()],
            vec!["team".to_string()],
        ))
        .unwrap();
    assert_eq!(store.get_members(group), vec![user]);
    store.delete_account(QueryBy::Name("gina")).unwrap();
    assert_eq!(store.get_account_id("gina").unwrap(), None);
    assert!(store.get_members(group).is_empty());
    assert!(!store.rcpt("gina@example.com").unwrap());
    // The freed name can be claimed again, under a fresh id.
    let reborn = store
        .create_account(principal("gina", Type::Individual, vec![], vec![]))
        .unwrap();
    assert_ne!(reborn, user);
}

#[test]
fn delete_unknown_account_fails() {
    let mut store = Store::new();
    let err = store.delete_account(QueryBy::Name("ghost")).unwrap_err();
    assert!(matches!(
        err,
        DirectoryError::Management(ManagementError::NotFound(_))
    ));
}

#[test]
fn list_accounts_sorted_filtered_and_limited() {
    let mut store = Store::new();
    for name in ["zeta", "alpha", "mid"] {
        store
            .create_account(principal(name, Type::Individual, vec![], vec![]))
            .unwrap();
    }
    store
        .create_account(principal("group1", Type::Group, vec![], vec![]))
        .unwrap();
    let all = store.list_accounts(None, None, 0).unwrap();
    assert_eq!(
        all,
        vec![
            "alpha".to_string(),
            "group1".to_string(),
            "mid".to_string(),
            "zeta".to_string()
        ]
    );
    let limited = store.list_accounts(None, None, 2).unwrap();
    assert_eq!(limited, vec!["alpha".to_string(), "group1".to_string()]);
    let from = store.list_accounts(Some("mid"), None, 0).unwrap();
    assert_eq!(from, vec!["mid".to_string(), "zeta".to_string()]);
    let groups = store.list_accounts(None, Some(Type::Group), 0).unwrap();
    assert_eq!(groups, vec!["group1".to_string()]);
}

#[test]
fn update_type_restriction() {
    let mut store = Store::new();
    store
        .create_account(principal("crew", Type::Group, vec![], vec![]))
        .unwrap();
    let err = store
        .update_account(
            QueryBy::Name("crew"),
            vec![PrincipalUpdate {
                action: PrincipalAction::Assign,
                field: PrincipalField::Type,
                value: PrincipalValue::String("individual".to_string()),
            }],
        )
        .unwrap_err();
    assert!(matches!(err, DirectoryError::Unsupported));

    let id = store
        .create_account(principal("henry", Type::Individual, vec![], vec![]))
        .unwrap();
    store
        .update_account(
            QueryBy::Id(id),
            vec![PrincipalUpdate {
                action: PrincipalAction::Assign,
                field: PrincipalField::Type,
                value: PrincipalValue::String("superuser".to_string()),
            }],
        )
        .unwrap();
    let p = store.query(QueryBy::Id(id), false).unwrap().unwrap();
    assert_eq!(p.typ, Type::Superuser);
}

#[test]
fn update_name_emails_and_membership() {
    let mut store = Store::new();
    store.create_domain("example.com").unwrap();
    let group = store
        .create_account(principal("ops", Type::Group, vec![], vec![]))
        .unwrap();
    let id = store
        .create_account(principal(
            "ivan",
            Type::Individual,
            vec!["ivan@example.com".to_string()],
            vec![],
        ))
        .unwrap();
    store
        .update_account(
            QueryBy::Name("ivan"),
            vec![
                PrincipalUpdate {
                    action: PrincipalAction::Assign,
                    field: PrincipalField::Name,
                    value: PrincipalValue::String("Ivan2".to_string()),
                },
                PrincipalUpdate {
                    action: PrincipalAction::AddItem,
                    field: PrincipalField::Emails,
                    value: PrincipalValue::String("Ivan2@Example.com".to_string()),
                },
                PrincipalUpdate {
                    action: PrincipalAction::AddItem,
                    field: PrincipalField::MemberOf,
                    value: PrincipalValue::String("ops".to_string()),
                },
                PrincipalUpdate {
                    action: PrincipalAction::Assign,
                    field: PrincipalField::Quota,
                    value: PrincipalValue::Integer(1024),
                },
            ],
        )
        .unwrap();
    assert_eq!(store.get_account_id("ivan").unwrap(), None);
    assert_eq!(store.get_account_id("ivan2").unwrap(), Some(id));
    assert!(store.rcpt("ivan2@example.com").unwrap());
    assert!(store.rcpt("ivan@example.com").unwrap());
    assert_eq!(store.get_member_of(id), vec![group]);
    let p = store.query(QueryBy::Id(id), false).unwrap().unwrap();
    assert_eq!(p.quota, 1024);

    store
        .update_account(
            QueryBy::Id(id),
            vec![
                PrincipalUpdate {
                    action: PrincipalAction::RemoveItem,
                    field: PrincipalField::Emails,
                    value: PrincipalValue::String("ivan@example.com".to_string()),
                },
                PrincipalUpdate {
                    action: PrincipalAction::RemoveItem,
                    field: PrincipalField::MemberOf,
                    value: PrincipalValue::String("ops".to_string()),
                },
            ],
        )
        .unwrap();
    assert!(!store.rcpt("ivan@example.com").unwrap());
    assert!(store.rcpt("ivan2@example.com").unwrap());
    assert!(store.get_member_of(id).is_empty());
    assert!(store.get_members(group).is_empty());
}

#[test]
fn update_set_emails_diffs_entries() {
    let mut store = Store::new();
    store.create_domain("example.com").unwrap();
    let id = store
        .create_account(principal(
            "judy",
            Type::Individual,
            vec!["a@example.com".to_string(), "b@example.com".to_string()],
            vec![],
        ))
        .unwrap();
    store
        .update_account(
            QueryBy::Id(id),
            vec![PrincipalUpdate {
                action: PrincipalAction::Assign,
                field: PrincipalField::Emails,
                value: PrincipalValue::StringList(vec![
                    "b@example.com".to_string(),
                    "c@example.com".to_string(),
                ]),
            }],
        )
        .unwrap();
    assert!(!store.rcpt("a@example.com").unwrap());
    assert!(store.rcpt("b@example.com").unwrap());
    assert!(store.rcpt("c@example.com").unwrap());
}

#[test]
fn update_unsupported_combination() {
    let mut store = Store::new();
    store
        .create_account(principal("kim", Type::Individual, vec![], vec![]))
        .unwrap();
    let err = store
        .update_account(
            QueryBy::Name("kim"),
            vec![PrincipalUpdate {
                action: PrincipalAction::AddItem,
                field: PrincipalField::Quota,
                value: PrincipalValue::Integer(1),
            }],
        )
        .unwrap_err();
    assert!(matches!(err, DirectoryError::Unsupported));
}

#[test]
fn mailing_list_expands_to_members() {
    let mut store = Store::new();
    store.create_domain("example.com").unwrap();
    let list = store
        .create_account(principal(
            "announce",
            Type::List,
            vec!["announce@example.com".to_string()],
            vec![],
        ))
        .unwrap();
    let a = store
        .create_account(principal("lara", Type::Individual, vec![], vec![]))
        .unwrap();
    let b = store
        .create_account(principal("mike", Type::Individual, vec![], vec![]))
        .unwrap();
    store
        .update_account(
            QueryBy::Id(list),
            vec![PrincipalUpdate {
                action: PrincipalAction::Assign,
                field: PrincipalField::Members,
                value: PrincipalValue::StringList(vec![
                    "lara".to_string(),
                    "mike".to_string(),
                ]),
            }],
        )
        .unwrap();
    let mut expect = vec![a, b];
    expect.sort();
    assert_eq!(store.email_to_ids("announce@example.com").unwrap(), expect);
    let mut names = store.expn("announce@example.com").unwrap();
    names.sort();
    assert_eq!(names, vec!["lara".to_string(), "mike".to_string()]);
    assert_eq!(
        store.vrfy("announce@example.com").unwrap(),
        vec!["announce@example.com".to_string()]
    );
    assert_eq!(store.email_to_ids("lara@example.com").unwrap(), Vec::<u32>::new());
}

#[test]
fn query_by_credentials_verifies_secrets() {
    let mut store = Store::new();
    let mut p = principal("nina", Type::Individual, vec![], vec![]);
    p.secrets = vec!["opensesame".to_string()];
    let id = store.create_account(p).unwrap();
    let good = Credentials::Plain {
        username: "Nina".to_string(),
        secret: "opensesame".to_string(),
    };
    let found = store.query(QueryBy::Credentials(&good), true).unwrap();
    assert_eq!(found.unwrap().id, id);
    let bad = Credentials::Plain {
        username: "nina".to_string(),
        secret: "wrong".to_string(),
    };
    assert!(store.query(QueryBy::Credentials(&bad), false).unwrap().is_none());
}

#[test]
fn hashed_secret_round_trip() {
    let hashed = directory::auth::hash_secret("hunter2").expect("system random source");
    assert!(hashed.starts_with("$6$"));
    // The verifier must actually check the hash, not echo its input.
    assert!(directory::auth::verify_secret(&hashed, "hunter2"));
    assert!(!directory::auth::verify_secret(&hashed, "hunter3"));

    let mut store = Store::new();
    let mut p = principal("oscar", Type::Individual, vec![], vec![]);
    p.secrets = vec![hashed];
    store.create_account(p).unwrap();
    let good = Credentials::Plain {
        username: "oscar".to_string(),
        secret: "hunter2".to_string(),
    };
    assert!(store.query(QueryBy::Credentials(&good), false).unwrap().is_some());
}

#[test]
fn init_bootstraps_default_admin_once() {
    let mut store = Store::new();
    let password = store.init(None).unwrap().expect("fresh store bootstraps");
    assert_eq!(password.chars().count(), 12);
    let creds = Credentials::Plain {
        username: "admin".to_string(),
        secret: password,
    };
    let admin = store.query(QueryBy::Credentials(&creds), false).unwrap().unwrap();
    assert_eq!(admin.typ, Type::Superuser);
    // A populated store is left alone.
    assert_eq!(store.init(None).unwrap(), None);
}

#[test]
fn init_sets_explicit_admin_password() {
    let mut store = Store::new();
    assert_eq!(
        store
            .init(Some(("root".to_string(), "first-pass".to_string())))
            .unwrap(),
        None
    );
    let first = Credentials::Plain {
        username: "root".to_string(),
        secret: "first-pass".to_string(),
    };
    assert!(store.query(QueryBy::Credentials(&first), false).unwrap().is_some());
    // A second run replaces the secrets of the existing account.
    store
        .init(Some(("root".to_string(), "second-pass".to_string())))
        .unwrap();
    assert!(store.query(QueryBy::Credentials(&first), false).unwrap().is_none());
    let second = Credentials::Plain {
        username: "root".to_string(),
        secret: "second-pass".to_string(),
    };
    assert!(store.query(QueryBy::Credentials(&second), false).unwrap().is_some());
}

#[test]
fn domain_requires_dot() {
    let mut store = Store::new();
    let err = store.create_domain("localhost").unwrap_err();
    assert!(matches!(
        err,
        DirectoryError::Management(ManagementError::MissingField(PrincipalField::Name))
    ));
    store.create_domain("Example.COM").unwrap();
    assert!(store.is_local_domain("example.com").unwrap());
    store.delete_domain("EXAMPLE.com").unwrap();
    assert!(!store.is_local_domain("example.com").unwrap());
}

#[test]
fn map_group_ids_translates_and_skips_missing() {
    let mut store = Store::new();
    let g = store
        .create_account(principal("wheel", Type::Group, vec![], vec![]))
        .unwrap();
    let p = Principal::<u32> {
        id: 7,
        typ: Type::Individual,
        quota: 0,
        name: "pat".to_string(),
        secrets: vec![],
        emails: vec![],
        member_of: vec![g, 9999],
        description: Some("desc".to_string()),
    };
    let mapped = store.map_group_ids(p).unwrap();
    assert_eq!(mapped.member_of, vec!["wheel".to_string()]);
    assert_eq!(mapped.name(), "pat");
    assert!(mapped.has_name());
    assert_eq!(mapped.description(), Some("desc"));
}

#[test]
fn map_group_names_can_provision() {
    let mut store = Store::new();
    let p = principal("quinn", Type::Individual, vec![], vec!["fresh-group".to_string()]);
    let mapped = store.map_group_names(p, true).unwrap();
    assert_eq!(mapped.member_of.len(), 1);
    assert_eq!(
        store.get_account_id("fresh-group").unwrap(),
        Some(mapped.member_of[0])
    );
}

#[test]
fn update_unknown_account_fails() {
    let mut store = Store::new();
    let by_name = store
        .update_account(QueryBy::Name("nobody"), vec![])
        .unwrap_err();
    assert!(matches!(
        by_name,
        DirectoryError::Management(ManagementError::NotFound(_))
    ));
    let by_id = store.update_account(QueryBy::Id(17), vec![]).unwrap_err();
    match by_id {
        DirectoryError::Management(ManagementError::NotFound(text)) => assert_eq!(text, "17"),
        other => panic!("unexpected error: {:?}", other),
    }
}

#[test]
fn update_add_item_rejects_taken_email() {
    let mut store = Store::new();
    store.create_domain("example.com").unwrap();
    store
        .create_account(principal(
            "tina",
            Type::Individual,
            vec!["tina@example.com".to_string()],
            vec![],
        ))
        .unwrap();
    store
        .create_account(principal("uri", Type::Individual, vec![], vec![]))
        .unwrap();
    let err = store
        .update_account(
            QueryBy::Name("uri"),
            vec![PrincipalUpdate {
                action: PrincipalAction::AddItem,
                field: PrincipalField::Emails,
                value: PrincipalValue::String("tina@example.com".to_string()),
            }],
        )
        .unwrap_err();
    assert!(matches!(
        err,
        DirectoryError::Management(ManagementError::AlreadyExists {
            field: PrincipalField::Emails,
            ..
        })
    ));
    // A failed update leaves no partial writes behind.
    assert!(!store.rcpt("uri@example.com").unwrap());
}

#[test]
fn update_rename_to_taken_name_fails_atomically() {
    let mut store = Store::new();
    store
        .create_account(principal("vera", Type::Individual, vec![], vec![]))
        .unwrap();
    let walt = store
        .create_account(principal("walt", Type::Individual, vec![], vec![]))
        .unwrap();
    let err = store
        .update_account(
            QueryBy::Name("walt"),
            vec![
                PrincipalUpdate {
                    action: PrincipalAction::Assign,
                    field: PrincipalField::Quota,
                    value: PrincipalValue::Integer(9),
                },
                PrincipalUpdate {
                    action: PrincipalAction::Assign,
                    field: PrincipalField::Name,
                    value: PrincipalValue::String("Vera".to_string()),
                },
            ],
        )
        .unwrap_err();
    assert!(matches!(
        err,
        DirectoryError::Management(ManagementError::AlreadyExists {
            field: PrincipalField::Name,
            ..
        })
    ));
    // The earlier quota change in the same batch was rolled up with it.
    let p = store.query(QueryBy::Id(walt), false).unwrap().unwrap();
    assert_eq!(p.quota, 0);
    assert_eq!(store.get_account_id("walt").unwrap(), Some(walt));
}

#[test]
fn list_domains_cursor_and_limit() {
    let mut store = Store::new();
    for d in ["c.example", "a.example", "b.example"] {
        store.create_domain(d).unwrap();
    }
    assert_eq!(
        store.list_domains(None, 0).unwrap(),
        vec![
            "a.example".to_string(),
            "b.example".to_string(),
            "c.example".to_string()
        ]
    );
    assert_eq!(
        store.list_domains(Some("b"), 0).unwrap(),
        vec!["b.example".to_string(), "c.example".to_string()]
    );
    assert_eq!(store.list_domains(None, 1).unwrap(), vec!["a.example".to_string()]);
}

#[test]
fn bootstrap_stores_a_hashed_secret() {
    let mut store = Store::new();
    let password = store.init(None).unwrap().expect("fresh store bootstraps");
    let admin = store.query(QueryBy::Name("admin"), false).unwrap().unwrap();
    assert_eq!(admin.secrets.len(), 1);
    // The stored secret is the crypt hash, never the plaintext password.
    assert!(admin.secrets[0].starts_with("$6$"));
    assert_ne!(admin.secrets[0], password);
}
