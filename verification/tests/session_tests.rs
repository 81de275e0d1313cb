//! Tests of the session state machine, limiter tables, capability objects
//! and the plain shared types.

use directory::capabilities::{
    Config, CoreCapabilities, MailCapabilities, SieveAccountCapabilities,
    SieveSessionCapabilities, WebSocketCapabilities,
};
use directory::ipc::{BlobQuota, DeliveryResult, IngestError, SocketOpts};
use directory::session::{IMAP, SelectedMailbox, SessionData, State};
use directory::throttle::{
    ConcurrencyLimiter, Limiter, Rate, RateLimiter, ThrottleKey, ThrottleKeyHasher,
    ThrottleKeyHasherBuilder,
};
use directory::types::Type;

fn config() -> Config {
    Config {
        upload_max_size: 50_000_000,
        upload_max_concurrent: 4,
        request_max_size: 10_000_000,
        request_max_concurrent: 8,
        request_max_calls: 16,
        get_max_objects: 500,
        set_max_objects: 500,
        mailbox_max_depth: 10,
        mailbox_name_max_len: 255,
        mail_attachments_max_size: 50_000_000,
        sieve_max_script_name: 512,
        sieve_max_scripts: 256,
    }
}

#[test]
fn state_accessors_follow_the_machine() {
    let fresh = State::NotAuthenticated { auth_failures: 2 };
    assert_eq!(fresh.auth_failures(), 2);
    assert!(!fresh.is_authenticated());

    let authed = State::Authenticated {
        data: SessionData { account_id: 7, recent: vec![1, 2] },
    };
    assert!(authed.is_authenticated());
    assert_eq!(authed.session_data().account_id, 7);
    let (data, mailbox) = authed.session_mailbox_state();
    assert_eq!(data.account_id, 7);
    assert!(mailbox.is_none());

    let selected = State::Selected {
        data: SessionData { account_id: 7, recent: vec![1, 2] },
        mailbox: SelectedMailbox { id: 2, is_select: true },
    };
    let (data, mailbox) = selected.mailbox_state();
    assert_eq!(data.account_id, 7);
    assert_eq!(mailbox.id, 2);
    let (_, mailbox) = selected.select_data();
    assert!(mailbox.is_select);
}

#[test]
fn close_mailbox_clears_recent_only_on_select() {
    let mut selected = State::Selected {
        data: SessionData { account_id: 7, recent: vec![1, 2, 3] },
        mailbox: SelectedMailbox { id: 2, is_select: true },
    };
    assert!(selected.close_mailbox());
    match &selected {
        State::Selected { data, .. } => assert_eq!(data.recent, vec![1, 3]),
        _ => panic!("state changed shape"),
    }

    let mut examined = State::Selected {
        data: SessionData { account_id: 7, recent: vec![1, 2, 3] },
        mailbox: SelectedMailbox { id: 2, is_select: false },
    };
    assert!(examined.close_mailbox());
    match &examined {
        State::Selected { data, .. } => assert_eq!(data.recent, vec![1, 2, 3]),
        _ => panic!("state changed shape"),
    }

    let mut unauth = State::NotAuthenticated { auth_failures: 0 };
    assert!(!unauth.close_mailbox());
}

#[test]
fn limiter_table_reuses_entries() {
    let mut imap = IMAP::new(Rate { requests: 100, period_secs: 60 }, 5);
    let mut first = imap.get_authenticated_limiter(42);
    assert_eq!(first.request_limiter.max_requests, 100);
    assert_eq!(first.concurrent_requests.max_concurrent, 5);
    assert!(first.request_limiter.is_allowed());
    let again = imap.get_authenticated_limiter(42);
    assert_eq!(again.request_limiter.used, 0);
    let other = imap.get_authenticated_limiter(43);
    assert_eq!(other.concurrent_uploads.max_concurrent, 5);
}

#[test]
fn rate_and_concurrency_limiters_enforce_ceilings() {
    let mut rate = RateLimiter::new(&Rate { requests: 2, period_secs: 60 });
    assert!(rate.is_allowed());
    assert!(rate.is_allowed());
    assert!(!rate.is_allowed());
    let mut conc = ConcurrencyLimiter::new(1);
    assert!(conc.acquire());
    assert!(!conc.acquire());
    conc.release();
    assert!(conc.acquire());
    let bucket = Limiter { rate: Some(rate), concurrency: Some(conc) };
    assert_eq!(bucket.rate.unwrap().max_requests, 2);
}

#[test]
fn throttle_keys_compare_and_hash_by_prefix() {
    let a = ThrottleKey::new([7u8; 32]);
    let b = ThrottleKey::new([7u8; 32]);
    let mut c_bytes = [7u8; 32];
    c_bytes[31] = 8;
    let c = ThrottleKey::new(c_bytes);
    assert!(a.same_hash(&b));
    assert!(!a.same_hash(&c));

    let builder = ThrottleKeyHasherBuilder {};
    let mut hasher = builder.build_hasher();
    assert_eq!(hasher.finish(), 0);
    hasher.write_bytes(&[1, 0, 0, 0, 0, 0, 0, 0, 99, 99]);
    assert_eq!(hasher.finish(), 1);
    let mut hasher2 = ThrottleKeyHasher::new();
    hasher2.write_bytes(&[0, 1, 0, 0, 0, 0, 0, 0]);
    assert_eq!(hasher2.finish(), 256);
}

#[test]
fn capability_objects_reflect_configuration() {
    let cfg = config();
    let core = CoreCapabilities::new(&cfg);
    assert_eq!(core.max_size_upload, 50_000_000);
    assert_eq!(core.max_concurrent_requests, 8);
    assert_eq!(
        core.collation_algorithms,
        vec![
            "i;ascii-numeric".to_string(),
            "i;ascii-casemap".to_string(),
            "i;unicode-casemap".to_string()
        ]
    );

    let ws = WebSocketCapabilities::new("https://mail.example.com");
    assert_eq!(ws.url, "wss://mail.example.com/jmap/ws");
    assert!(ws.supports_push);

    let mail = MailCapabilities::new(&cfg);
    assert_eq!(mail.max_mailbox_depth, 10);
    assert_eq!(mail.email_query_sort_options.len(), 9);
    assert_eq!(mail.email_query_sort_options[0], "receivedAt");

    let sieve = SieveAccountCapabilities::new(
        &cfg,
        vec!["vacation".to_string(), "envelope".to_string()],
        vec![],
        1_048_576,
        1,
    );
    assert_eq!(sieve.extensions, vec!["envelope".to_string(), "vacation".to_string()]);
    assert_eq!(sieve.notification_methods, Some(vec!["mailto".to_string()]));
    assert_eq!(sieve.max_script_size, 1_048_576);

    let session = SieveSessionCapabilities::default();
    assert_eq!(session.implementation, "Sieve");
}

#[test]
fn ingest_errors_map_to_delivery_results() {
    let over = IngestError::OverQuota.to_delivery_result();
    match over {
        DeliveryResult::PermanentFailure { code, .. } => assert_eq!(code, [5, 2, 2]),
        _ => panic!("quota overrun must be permanent"),
    }
    let perm = IngestError::Permanent { code: [5, 5, 0], reason: "bad".to_string() }
        .to_delivery_result();
    match perm {
        DeliveryResult::PermanentFailure { code, .. } => assert_eq!(code, [5, 5, 0]),
        _ => panic!("permanent failure must stay permanent"),
    }
    let temp = IngestError::Temporary.to_delivery_result();
    assert!(temp.is_retriable());
}

#[test]
fn blob_quota_accounts_and_limits() {
    let mut quota = BlobQuota::new();
    quota.add_blob(100);
    quota.add_blob(50);
    assert_eq!(quota.bytes, 150);
    assert_eq!(quota.count, 2);
    assert!(quota.allows(50, 200, 3));
    assert!(!quota.allows(51, 200, 3));
    assert!(!quota.allows(1, 200, 2));
    assert!(quota.allows(1_000_000, 0, 0));

    let opts = SocketOpts { nodelay: true, ttl: Some(64), linger_millis: None };
    assert!(opts.nodelay);
    assert_eq!(opts.ttl, Some(64));
}

#[test]
fn type_labels_round_trip() {
    assert_eq!(Type::Individual.to_jmap(), "individual");
    assert_eq!(Type::Superuser.to_jmap(), "individual");
    assert_eq!(Type::Group.to_jmap(), "group");
    assert_eq!(Type::parse("list"), Some(Type::List));
    assert_eq!(Type::parse("nonsense"), None);
    assert_eq!(Type::Superuser.into_base_type(), Type::Individual);
}

#[test]
fn decimal_formatting_matches() {
    assert_eq!(directory::strutil::u32_to_string(0), "0");
    assert_eq!(directory::strutil::u32_to_string(7), "7");
    assert_eq!(directory::strutil::u32_to_string(40962), "40962");
    assert_eq!(directory::strutil::u32_to_string(u32::MAX), "4294967295");
}

#[test]
fn email_domain_extraction() {
    assert_eq!(
        directory::strutil::email_domain_of("user@example.com"),
        Some("example.com".to_string())
    );
    assert_eq!(directory::strutil::email_domain_of("nodomain"), None);
    assert_eq!(
        directory::strutil::email_domain_of("a@b@c"),
        Some("b".to_string())
    );
}
