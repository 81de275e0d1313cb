//! Tests of the dispatch facade: address mapping, caching, catch-all
//! fallback and fail2ban tracking.

use directory::dispatch::{BlockedIps, CachedDirectory, Directory, DirectoryInner};
use directory::mapping::{AddressMapping, CompiledPattern, MappingTemplate, TemplatePart};
use directory::store::Store;
use directory::types::{AuthResult, Credentials, Principal, Type};

fn directory_with(store: Store, cache: Option<CachedDirectory>, threshold: u32) -> Directory {
    Directory {
        store: DirectoryInner::Internal(store),
        catch_all: AddressMapping::Enable,
        subaddressing: AddressMapping::Enable,
        cache,
        blocked_ips: BlockedIps::new(threshold),
    }
}

fn store_with_catch_all() -> Store {
    let mut store = Store::new();
    store.create_domain("example.com").unwrap();
    store
        .create_account(Principal {
            id: 0,
            typ: Type::Individual,
            quota: 0,
            name: "postmaster".to_string(),
            secrets: vec!["pmpass".to_string()],
            emails: vec!["@example.com".to_string()],
            member_of: vec![],
            description: None,
        })
        .unwrap();
    store
}

#[test]
fn subaddress_mapping_strips_plus_tag() {
    let m = AddressMapping::Enable;
    assert_eq!(m.to_subaddress("user+tag@example.com"), "user@example.com");
    assert_eq!(m.to_subaddress("user@example.com"), "user@example.com");
    assert_eq!(m.to_subaddress("plain"), "plain");
    assert_eq!(
        m.to_catch_all("user+tag@example.com"),
        Some("@example.com".to_string())
    );
    assert_eq!(m.to_catch_all("plain"), None);
    let off = AddressMapping::Disable;
    assert_eq!(off.to_subaddress("user+tag@example.com"), "user+tag@example.com");
    assert_eq!(off.to_catch_all("user+tag@example.com"), None);
}

#[test]
fn custom_mapping_uses_last_match_captures() {
    let pattern = CompiledPattern::compile("([^.]+)\\.([^.]+)@(.+)$").expect("valid pattern");
    let template = MappingTemplate {
        parts: vec![
            TemplatePart::Capture(1),
            TemplatePart::Literal("@".to_string()),
            TemplatePart::Capture(3),
        ],
    };
    let m = AddressMapping::Custom { pattern, template };
    // The rewrite keeps the first dotted part and the domain.
    assert_eq!(m.to_subaddress("john.doe@example.com"), "john@example.com");
    // A non-matching address passes through unchanged.
    assert_eq!(m.to_subaddress("nodots@example.com"), "nodots@example.com");
    let pattern2 = CompiledPattern::compile("@(.+)$").expect("valid pattern");
    let template2 = MappingTemplate {
        parts: vec![TemplatePart::Literal("@".to_string()), TemplatePart::Capture(1)],
    };
    let m2 = AddressMapping::Custom { pattern: pattern2, template: template2 };
    assert_eq!(m2.to_catch_all("a@b.org"), Some("@b.org".to_string()));
    assert_eq!(m2.to_catch_all("nodomain"), None);
}

#[test]
fn catch_all_fallback_resolves_unknown_local_part() {
    let store = store_with_catch_all();
    let expected = store.get_account_id("postmaster").unwrap().unwrap();
    let mut d = directory_with(store, None, 0);
    // The specific address has no owner, the catch-all does.
    assert!(d.rcpt("specific+x@example.com", 100).unwrap());
    assert_eq!(d.email_to_ids("specific+x@example.com").unwrap(), vec![expected]);
    // An address under a foreign domain resolves nowhere.
    assert!(!d.rcpt("someone@elsewhere.org", 100).unwrap());
    assert!(d.email_to_ids("someone@elsewhere.org").unwrap().is_empty());
}

#[test]
fn rcpt_cache_serves_fresh_entries_and_expires() {
    let store = store_with_catch_all();
    let mut d = directory_with(store, Some(CachedDirectory::new(10)), 0);
    assert!(d.rcpt("anyone@example.com", 100).unwrap());
    // Remove the catch-all account behind the cache's back.
    match &mut d.store {
        DirectoryInner::Internal(s) => {
            s.delete_account(directory::types::QueryBy::Name("postmaster")).unwrap();
        }
    }
    // Within the time-to-live the stale cached answer is served...
    assert!(d.rcpt("anyone@example.com", 105).unwrap());
    // ...and after expiry the live answer wins.
    assert!(!d.rcpt("anyone@example.com", 200).unwrap());
}

#[test]
fn domain_cache_works_both_ways() {
    let mut store = Store::new();
    store.create_domain("example.com").unwrap();
    let mut d = directory_with(store, Some(CachedDirectory::new(10)), 0);
    assert!(d.is_local_domain("example.com", 0).unwrap());
    assert!(!d.is_local_domain("other.org", 0).unwrap());
    match &mut d.store {
        DirectoryInner::Internal(s) => {
            s.create_domain("other.org").unwrap();
        }
    }
    // The negative answer was cached too.
    assert!(!d.is_local_domain("other.org", 5).unwrap());
    assert!(d.is_local_domain("other.org", 50).unwrap());
}

#[test]
fn authenticate_tracks_failures_and_bans() {
    let store = store_with_catch_all();
    let mut d = directory_with(store, None, 2);
    let good = Credentials::Plain {
        username: "postmaster".to_string(),
        secret: "pmpass".to_string(),
    };
    match d.authenticate(&good, "10.0.0.9", false).unwrap() {
        AuthResult::Success(p) => assert_eq!(p.name(), "postmaster"),
        _ => panic!("expected success"),
    }
    let bad = Credentials::Plain {
        username: "postmaster".to_string(),
        secret: "nope".to_string(),
    };
    assert!(matches!(
        d.authenticate(&bad, "10.0.0.9", false).unwrap(),
        AuthResult::Failure
    ));
    // The second failure crosses the threshold of two.
    assert!(matches!(
        d.authenticate(&bad, "10.0.0.9", false).unwrap(),
        AuthResult::Banned
    ));
    // Another client address is tracked separately.
    assert!(matches!(
        d.authenticate(&bad, "10.0.0.10", false).unwrap(),
        AuthResult::Failure
    ));
}

#[test]
fn authenticate_without_fail2ban_only_fails() {
    let store = store_with_catch_all();
    let mut d = directory_with(store, None, 0);
    let bad = Credentials::Plain {
        username: "postmaster".to_string(),
        secret: "nope".to_string(),
    };
    for _ in 0..5 {
        assert!(matches!(
            d.authenticate(&bad, "10.0.0.9", false).unwrap(),
            AuthResult::Failure
        ));
    }
}

#[test]
fn vrfy_and_expn_normalize_subaddresses() {
    let mut store = Store::new();
    store.create_domain("example.com").unwrap();
    store
        .create_account(Principal {
            id: 0,
            typ: Type::Individual,
            quota: 0,
            name: "rosa".to_string(),
            secrets: vec![],
            emails: vec!["rosa@example.com".to_string()],
            member_of: vec![],
            description: None,
        })
        .unwrap();
    let d = directory_with(store, None, 0);
    assert_eq!(
        d.vrfy("rosa+anything@example.com").unwrap(),
        vec!["rosa@example.com".to_string()]
    );
    assert!(d.expn("rosa@example.com").unwrap().is_empty());
}

#[test]
fn empty_mailing_list_still_falls_back_to_catch_all() {
    // The first address is indexed but resolves to nothing: a mailing list
    // with no members. The catch-all retry must still happen.
    let mut store = store_with_catch_all();
    store
        .create_account(Principal {
            id: 0,
            typ: Type::List,
            quota: 0,
            name: "emptylist".to_string(),
            secrets: vec![],
            emails: vec!["emptylist@example.com".to_string()],
            member_of: vec![],
            description: None,
        })
        .unwrap();
    let expected = store.get_account_id("postmaster").unwrap().unwrap();
    let d = directory_with(store, None, 0);
    assert_eq!(d.email_to_ids("emptylist@example.com").unwrap(), vec![expected]);
}
