//! Router web interface results.
use vstd::prelude::*;
use vstd::string::*;

use crate::ping::status_text;
use crate::validation::{ipv4_text, Ipv4Address};

verus! {

/// How long a request may take, in seconds.
pub const HTTP_TIMEOUT_SECS: u64 = 3;

/// Whether the HTTP request got an answer in time.
#[derive(Debug, Clone, Copy, PartialEq, Eq, Structural)]
pub enum HttpStatus {
    Success,
    Timeout,
}

impl HttpStatus {
    /// The CSV text of the status: `ok` or `timeout`.
    pub fn as_csv_value(self) -> (s: &'static str)
        ensures
            s@ == status_text(self == HttpStatus::Success),
    {
        match self {
            HttpStatus::Success => "ok",
            HttpStatus::Timeout => "timeout",
        }
    }
}

/// The outcome of one HTTP request: its duration in nanoseconds when it was answered.
#[derive(Debug, Clone, Copy, PartialEq, Eq, Structural)]
pub struct HttpResult {
    pub latency_ns: Option<u64>,
    pub status: HttpStatus,
}

impl HttpResult {
    /// A HTTP request that got no answer in time.
    pub fn timeout() -> (r: Self)
        ensures
            r == (HttpResult { latency_ns: None, status: HttpStatus::Timeout }),
    {
        HttpResult { latency_ns: None, status: HttpStatus::Timeout }
    }

    /// A HTTP request answered after `latency_ns` nanoseconds.
    pub fn ok(latency_ns: u64) -> (r: Self)
        ensures
            r == (HttpResult { latency_ns: Some(latency_ns), status: HttpStatus::Success }),
    {
        HttpResult { latency_ns: Some(latency_ns), status: HttpStatus::Success }
    }

    /// The result of a request that took `elapsed_ns` nanoseconds: any
    /// response at all, redirects and authentication errors included,
    /// counts as success.
    pub fn from_response(responded: bool, elapsed_ns: u64) -> (r: Self)
        ensures
            r == if responded {
                HttpResult { latency_ns: Some(elapsed_ns), status: HttpStatus::Success }
            } else {
                HttpResult { latency_ns: None, status: HttpStatus::Timeout }
            },
    {
        if responded {
            HttpResult::ok(elapsed_ns)
        } else {
            HttpResult::timeout()
        }
    }
}

/// The address of the router's web interface: `http://` and its IPv4 address.
pub fn router_http_url(router_ip: Ipv4Address) -> (url: String)
    ensures
        url@ == "http://"@ + ipv4_text(router_ip),
{
    let mut url = "http://".to_owned();
    let ip = router_ip.to_text();
    url.append(ip.as_str());
    url
}

} // verus!
