//! Plain message types shared across the server's internal channels: the
//! outcome of a local delivery attempt, ingestion failures, and blob quota
//! accounting.

use vstd::prelude::*;

verus! {

/// The outcome of delivering one message to one recipient.
pub enum DeliveryResult {
    Success,
    TemporaryFailure { reason: String },
    PermanentFailure { code: [u8; 3], reason: String },
}

impl DeliveryResult {
    /// Whether the sender may retry later.
    pub fn is_retriable(&self) -> (r: bool)
        ensures
            r == (self is TemporaryFailure),
    {
        match self {
            DeliveryResult::TemporaryFailure { .. } => true,
            _ => false,
        }
    }
}

/// Why an ingestion attempt did not store the message.
pub enum IngestError {
    Temporary,
    OverQuota,
    Permanent { code: [u8; 3], reason: String },
}

impl IngestError {
    /// The delivery outcome reported upstream for this failure: quota
    /// overruns answer with the policy code for exceeded storage, other
    /// permanent failures carry their own code, everything else is
    /// temporary.
    pub fn to_delivery_result(self) -> (r: DeliveryResult)
        ensures
            match self {
                IngestError::OverQuota => r matches DeliveryResult::PermanentFailure {
                    code,
                    ..
                } && code@ == seq![5u8, 2u8, 2u8],
                IngestError::Permanent { code, .. } => r matches DeliveryResult::PermanentFailure {
                    code: c,
                    ..
                } && c@ == code@,
                IngestError::Temporary => r is TemporaryFailure,
            },
    {
        match self {
            IngestError::OverQuota => {
                let code = [5u8, 2u8, 2u8];
                proof {
                    assert(code@ =~= seq![5u8, 2u8, 2u8]);
                }
                DeliveryResult::PermanentFailure {
                    code,
                    reason: String::from_str("Mailbox over quota."),
                }
            },
            IngestError::Permanent { code, reason } => DeliveryResult::PermanentFailure {
                code,
                reason,
            },
            IngestError::Temporary => DeliveryResult::TemporaryFailure {
                reason: String::from_str("Transient server failure."),
            },
        }
    }
}

/// A per-account blob usage total: bytes stored and blob count.
#[derive(Clone, Copy, Debug)]
pub struct BlobQuota {
    pub bytes: usize,
    pub count: usize,
}

impl BlobQuota {
    /// An empty total.
    pub fn new() -> (r: BlobQuota)
        ensures
            r.bytes == 0,
            r.count == 0,
    {
        BlobQuota { bytes: 0, count: 0 }
    }

    /// Account one more blob of the given size, saturating at the numeric
    /// limits.
    pub fn add_blob(&mut self, size: usize)
        ensures
            final(self).bytes == (if old(self).bytes + size <= usize::MAX {
                (old(self).bytes + size) as usize
            } else {
                usize::MAX
            }),
            final(self).count == (if old(self).count < usize::MAX {
                (old(self).count + 1) as usize
            } else {
                usize::MAX
            }),
    {
        if self.bytes <= usize::MAX - size {
            self.bytes = self.bytes + size;
        } else {
            self.bytes = usize::MAX;
        }
        if self.count < usize::MAX {
            self.count = self.count + 1;
        }
    }

    /// Whether a new blob of the given size would stay within the limits;
    /// a zero limit means unlimited, as for principal quotas.
    pub fn allows(&self, size: usize, max_bytes: usize, max_count: usize) -> (r: bool)
        ensures
            r == ((max_bytes == 0 || self.bytes + size <= max_bytes) && (max_count == 0
                || self.count < max_count)),
    {
        let bytes_ok = max_bytes == 0 || (size <= max_bytes && self.bytes <= max_bytes - size);
        let count_ok = max_count == 0 || self.count < max_count;
        bytes_ok && count_ok
    }
}

/// The options applied to every accepted listener socket.
#[derive(Clone, Copy, Debug)]
pub struct SocketOpts {
    pub nodelay: bool,
    pub ttl: Option<u32>,
    pub linger_millis: Option<u64>,
}

} // verus!
