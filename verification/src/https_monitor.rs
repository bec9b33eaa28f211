//! HTTPS connectivity results.
use vstd::prelude::*;

use crate::ping::status_text;

verus! {

/// The Google HTTPS address that is checked.
pub const HTTPS_GOOGLE_URL: &'static str = "https://www.google.com";

/// The Cloudflare HTTPS address that is checked.
pub const HTTPS_CLOUDFLARE_URL: &'static str = "https://1.1.1.1";

/// How long a request may take, in seconds.
pub const HTTPS_TIMEOUT_SECS: u64 = 3;

/// Whether the HTTPS request got an answer in time.
#[derive(Debug, Clone, Copy, PartialEq, Eq, Structural)]
pub enum HttpsStatus {
    Success,
    Timeout,
}

impl HttpsStatus {
    /// The CSV text of the status: `ok` or `timeout`.
    pub fn as_csv_value(self) -> (s: &'static str)
        ensures
            s@ == status_text(self == HttpsStatus::Success),
    {
        match self {
            HttpsStatus::Success => "ok",
            HttpsStatus::Timeout => "timeout",
        }
    }
}

/// The outcome of one HTTPS request: its duration in nanoseconds when it was answered.
#[derive(Debug, Clone, Copy, PartialEq, Eq, Structural)]
pub struct HttpsResult {
    pub latency_ns: Option<u64>,
    pub status: HttpsStatus,
}

impl HttpsResult {
    /// A HTTPS request that got no answer in time.
    pub fn timeout() -> (r: Self)
        ensures
            r == (HttpsResult { latency_ns: None, status: HttpsStatus::Timeout }),
    {
        HttpsResult { latency_ns: None, status: HttpsStatus::Timeout }
    }

    /// A HTTPS request answered after `latency_ns` nanoseconds.
    pub fn ok(latency_ns: u64) -> (r: Self)
        ensures
            r == (HttpsResult { latency_ns: Some(latency_ns), status: HttpsStatus::Success }),
    {
        HttpsResult { latency_ns: Some(latency_ns), status: HttpsStatus::Success }
    }

    /// The result of a request that took `elapsed_ns` nanoseconds: any
    /// response counts as success.
    pub fn from_response(responded: bool, elapsed_ns: u64) -> (r: Self)
        ensures
            r == if responded {
                HttpsResult { latency_ns: Some(elapsed_ns), status: HttpsStatus::Success }
            } else {
                HttpsResult { latency_ns: None, status: HttpsStatus::Timeout }
            },
    {
        if responded {
            HttpsResult::ok(elapsed_ns)
        } else {
            HttpsResult::timeout()
        }
    }
}

} // verus!
