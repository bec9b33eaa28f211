//! DNS lookup results.
use vstd::prelude::*;

use crate::ping::status_text;

verus! {

/// The host whose name is looked up.
pub const DNS_HOST: &'static str = "google.com";

/// How long a lookup may take, in milliseconds.
pub const DNS_TIMEOUT_MS: u64 = 3000;

/// Whether the DNS lookup got an answer in time.
#[derive(Debug, Clone, Copy, PartialEq, Eq, Structural)]
pub enum DnsStatus {
    Success,
    Timeout,
}

impl DnsStatus {
    /// The CSV text of the status: `ok` or `timeout`.
    pub fn as_csv_value(self) -> (s: &'static str)
        ensures
            s@ == status_text(self == DnsStatus::Success),
    {
        match self {
            DnsStatus::Success => "ok",
            DnsStatus::Timeout => "timeout",
        }
    }
}

/// The outcome of one DNS lookup: its duration in nanoseconds when it was answered.
#[derive(Debug, Clone, Copy, PartialEq, Eq, Structural)]
pub struct DnsResult {
    pub latency_ns: Option<u64>,
    pub status: DnsStatus,
}

impl DnsResult {
    /// A DNS lookup that got no answer in time.
    pub fn timeout() -> (r: Self)
        ensures
            r == (DnsResult { latency_ns: None, status: DnsStatus::Timeout }),
    {
        DnsResult { latency_ns: None, status: DnsStatus::Timeout }
    }

    /// A DNS lookup answered after `latency_ns` nanoseconds.
    pub fn ok(latency_ns: u64) -> (r: Self)
        ensures
            r == (DnsResult { latency_ns: Some(latency_ns), status: DnsStatus::Success }),
    {
        DnsResult { latency_ns: Some(latency_ns), status: DnsStatus::Success }
    }

    /// The result of a lookup that took `elapsed_ns` nanoseconds: `answer`
    /// is whether the name resolved to an address, `None` when no answer
    /// came before the timeout. Only a resolved name counts as success.
    pub fn from_lookup(answer: Option<bool>, elapsed_ns: u64) -> (r: Self)
        ensures
            r == if answer == Some(true) {
                DnsResult { latency_ns: Some(elapsed_ns), status: DnsStatus::Success }
            } else {
                DnsResult { latency_ns: None, status: DnsStatus::Timeout }
            },
    {
        match answer {
            Some(true) => DnsResult::ok(elapsed_ns),
            _ => DnsResult::timeout(),
        }
    }
}

/// Settings of the DNS check.
#[derive(Debug, Clone, Copy, PartialEq, Eq, Structural)]
pub struct DnsMonitor {
    timeout_ms: u64,
}

impl DnsMonitor {
    /// The DNS check with its usual timeout of three seconds.
    pub fn new() -> (r: Self)
        ensures
            r.timeout_ms() == DNS_TIMEOUT_MS,
    {
        DnsMonitor { timeout_ms: DNS_TIMEOUT_MS }
    }

    /// How long a lookup may take, in milliseconds.
    pub closed spec fn timeout_ms_spec(&self) -> u64 {
        self.timeout_ms
    }

    /// How long a lookup may take, in milliseconds.
    #[verifier::when_used_as_spec(timeout_ms_spec)]
    pub fn timeout_ms(&self) -> (r: u64)
        ensures
            r == self.timeout_ms_spec(),
    {
        self.timeout_ms
    }
}

} // verus!
