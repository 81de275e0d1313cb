//! The JMAP session capability objects advertised to clients, built from
//! the server's configured limits.

use vstd::prelude::*;

use crate::manage::{insert_sorted_str, sorted_lex_strict};
use crate::strutil::{str_seq_view, substring};

verus! {

/// The configured server limits the capability objects are built from.
pub struct Config {
    pub upload_max_size: usize,
    pub upload_max_concurrent: usize,
    pub request_max_size: usize,
    pub request_max_concurrent: u64,
    pub request_max_calls: usize,
    pub get_max_objects: usize,
    pub set_max_objects: usize,
    pub mailbox_max_depth: usize,
    pub mailbox_name_max_len: usize,
    pub mail_attachments_max_size: usize,
    pub sieve_max_script_name: usize,
    pub sieve_max_scripts: usize,
}

/// The core JMAP capability object.
pub struct CoreCapabilities {
    pub max_size_upload: usize,
    pub max_concurrent_upload: usize,
    pub max_size_request: usize,
    pub max_concurrent_requests: usize,
    pub max_calls_in_request: usize,
    pub max_objects_in_get: usize,
    pub max_objects_in_set: usize,
    pub collation_algorithms: Vec<String>,
}

impl CoreCapabilities {
    pub fn new(config: &Config) -> (r: CoreCapabilities)
        ensures
            r.max_size_upload == config.upload_max_size,
            r.max_concurrent_upload == config.upload_max_concurrent,
            r.max_size_request == config.request_max_size,
            r.max_concurrent_requests == config.request_max_concurrent as usize,
            r.max_calls_in_request == config.request_max_calls,
            r.max_objects_in_get == config.get_max_objects,
            r.max_objects_in_set == config.set_max_objects,
            str_seq_view(r.collation_algorithms@) == seq![
                "i;ascii-numeric"@,
                "i;ascii-casemap"@,
                "i;unicode-casemap"@,
            ],
    {
        let mut collation_algorithms: Vec<String> = Vec::new();
        collation_algorithms.push(String::from_str("i;ascii-numeric"));
        collation_algorithms.push(String::from_str("i;ascii-casemap"));
        collation_algorithms.push(String::from_str("i;unicode-casemap"));
        proof {
            assert(str_seq_view(collation_algorithms@) =~= seq![
                "i;ascii-numeric"@,
                "i;ascii-casemap"@,
                "i;unicode-casemap"@,
            ]);
        }
        CoreCapabilities {
            max_size_upload: config.upload_max_size,
            max_concurrent_upload: config.upload_max_concurrent,
            max_size_request: config.request_max_size,
            max_concurrent_requests: config.request_max_concurrent as usize,
            max_calls_in_request: config.request_max_calls,
            max_objects_in_get: config.get_max_objects,
            max_objects_in_set: config.set_max_objects,
            collation_algorithms,
        }
    }
}

/// The WebSocket capability object: the push endpoint under the session's
/// base URL.
pub struct WebSocketCapabilities {
    pub url: String,
    pub supports_push: bool,
}

impl WebSocketCapabilities {
    /// The advertised endpoint swaps the `http` scheme prefix for `ws`.
    pub fn new(base_url: &str) -> (r: WebSocketCapabilities)
        requires
            base_url@.len() >= 4,
            base_url@.subrange(0, 4) == "http"@,
        ensures
            r.url@ == "ws"@ + base_url@.skip(4) + "/jmap/ws"@,
            r.supports_push == true,
    {
        let n = base_url.unicode_len();
        let mut url = String::from_str("ws");
        let rest = substring(base_url, 4, n);
        url.append(rest.as_str());
        url.append("/jmap/ws");
        WebSocketCapabilities { url, supports_push: true }
    }
}

/// The per-session Sieve capability object.
pub struct SieveSessionCapabilities {
    pub implementation: String,
}

impl Default for SieveSessionCapabilities {
    fn default() -> (r: Self)
        ensures
            r.implementation@ == "Sieve"@,
    {
        SieveSessionCapabilities { implementation: String::from_str("Sieve") }
    }
}

/// The per-account Sieve capability object.
pub struct SieveAccountCapabilities {
    pub max_script_name: usize,
    pub max_script_size: usize,
    pub max_scripts: usize,
    pub max_redirects: usize,
    pub extensions: Vec<String>,
    pub notification_methods: Option<Vec<String>>,
    pub ext_lists: Option<Vec<String>>,
}

impl SieveAccountCapabilities {
    /// Build from the configured limits, the enabled extension names
    /// (duplicate-free, sorted here for a stable advertisement) and the
    /// configured notification URIs, defaulting to `mailto`.
    pub fn new(
        config: &Config,
        extensions: Vec<String>,
        notification_uris: Vec<String>,
        max_script_size: usize,
        max_redirects: usize,
    ) -> (r: SieveAccountCapabilities)
        requires
            forall|i: int, j: int|
                0 <= i < j < extensions@.len() ==> #[trigger] extensions@[i]@ != #[trigger] extensions@[j]@,
        ensures
            r.max_script_name == config.sieve_max_script_name,
            r.max_script_size == max_script_size,
            r.max_scripts == config.sieve_max_scripts,
            r.max_redirects == max_redirects,
            sorted_lex_strict(str_seq_view(r.extensions@)),
            str_seq_view(r.extensions@).to_set() == str_seq_view(extensions@).to_set(),
            (match r.notification_methods {
                Some(ms) => {
                    if notification_uris@.len() == 0 {
                        str_seq_view(ms@) == seq!["mailto"@]
                    } else {
                        ms@ == notification_uris@
                    }
                },
                None => false,
            }),
            r.ext_lists is None,
    {
        let mut methods = notification_uris;
        if methods.is_empty() {
            methods.push(String::from_str("mailto"));
            proof {
                assert(str_seq_view(methods@) =~= seq!["mailto"@]);
            }
        }
        let mut sorted: Vec<String> = Vec::new();
        let n = extensions.len();
        let mut i: usize = 0;
        while i < n
            invariant
                n == extensions@.len(),
                0 <= i <= n,
                forall|a: int, b: int|
                    0 <= a < b < extensions@.len() ==> #[trigger] extensions@[a]@
                        != #[trigger] extensions@[b]@,
                sorted_lex_strict(str_seq_view(sorted@)),
                str_seq_view(sorted@).to_set() =~= str_seq_view(
                    extensions@.take(i as int),
                ).to_set(),
            decreases n - i,
        {
            proof {
                if str_seq_view(sorted@).to_set().contains(extensions@[i as int]@) {
                    let j = choose|j: int|
                        0 <= j < i && str_seq_view(extensions@.take(i as int))[j]
                            == extensions@[i as int]@;
                    assert(extensions@[j]@ == extensions@[i as int]@);
                    assert(false);
                }
                if str_seq_view(sorted@).contains(extensions@[i as int]@) {
                    assert(str_seq_view(sorted@).to_set().contains(extensions@[i as int]@));
                }
            }
            insert_sorted_str(&mut sorted, extensions[i].clone());
            proof {
                assert(str_seq_view(extensions@.take(i + 1)) =~= str_seq_view(
                    extensions@.take(i as int),
                ).push(extensions@[i as int]@));
                crate::assoc::lemma_to_set_push(
                    str_seq_view(extensions@.take(i as int)),
                    extensions@[i as int]@,
                );
            }
            i = i + 1;
        }
        proof {
            assert(extensions@.take(n as int) =~= extensions@);
        }
        SieveAccountCapabilities {
            max_script_name: config.sieve_max_script_name,
            max_script_size,
            max_scripts: config.sieve_max_scripts,
            max_redirects,
            extensions: sorted,
            notification_methods: Some(methods),
            ext_lists: None,
        }
    }
}

/// The mail capability object.
pub struct MailCapabilities {
    pub max_mailboxes_per_email: Option<usize>,
    pub max_mailbox_depth: usize,
    pub max_size_mailbox_name: usize,
    pub max_size_attachments_per_email: usize,
    pub email_query_sort_options: Vec<String>,
    pub may_create_top_level_mailbox: bool,
}

impl MailCapabilities {
    pub fn new(config: &Config) -> (r: MailCapabilities)
        ensures
            r.max_mailboxes_per_email is None,
            r.max_mailbox_depth == config.mailbox_max_depth,
            r.max_size_mailbox_name == config.mailbox_name_max_len,
            r.max_size_attachments_per_email == config.mail_attachments_max_size,
            r.may_create_top_level_mailbox == true,
            str_seq_view(r.email_query_sort_options@) == seq![
                "receivedAt"@,
                "size"@,
                "from"@,
                "to"@,
                "subject"@,
                "sentAt"@,
                "hasKeyword"@,
                "allInThreadHaveKeyword"@,
                "someInThreadHaveKeyword"@,
            ],
    {
        let mut opts: Vec<String> = Vec::new();
        opts.push(String::from_str("receivedAt"));
        opts.push(String::from_str("size"));
        opts.push(String::from_str("from"));
        opts.push(String::from_str("to"));
        opts.push(String::from_str("subject"));
        opts.push(String::from_str("sentAt"));
        opts.push(String::from_str("hasKeyword"));
        opts.push(String::from_str("allInThreadHaveKeyword"));
        opts.push(String::from_str("someInThreadHaveKeyword"));
        proof {
            assert(str_seq_view(opts@) =~= seq![
                "receivedAt"@,
                "size"@,
                "from"@,
                "to"@,
                "subject"@,
                "sentAt"@,
                "hasKeyword"@,
                "allInThreadHaveKeyword"@,
                "someInThreadHaveKeyword"@,
            ]);
        }
        MailCapabilities {
            max_mailboxes_per_email: None,
            max_mailbox_depth: config.mailbox_max_depth,
            max_size_mailbox_name: config.mailbox_name_max_len,
            max_size_attachments_per_email: config.mail_attachments_max_size,
            email_query_sort_options: opts,
            may_create_top_level_mailbox: true,
        }
    }
}

/// The submission capability object.
pub struct SubmissionCapabilities {
    pub max_delayed_send: usize,
    pub submission_extensions: Vec<(String, Vec<String>)>,
}

/// A capability advertised with no parameters.
#[derive(Default)]
pub struct EmptyCapabilities {
}

} // verus!
