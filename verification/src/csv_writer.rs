//! The measurement CSV: its header and one record per sample.
use vstd::prelude::*;
use vstd::string::*;

use crate::dns_monitor::{DnsResult, DnsStatus};
use crate::environment_monitor::{field_text, text_or_empty, EnvironmentText};
use crate::http_monitor::{HttpResult, HttpStatus};
use crate::https_monitor::{HttpsResult, HttpsStatus};
use crate::ping::{status_text, PingResult, PingStatus};
use crate::text::{millis_text, push_millis};

verus! {

/// One row of measurements.
#[derive(Debug, Clone, PartialEq, Eq)]
pub struct CsvSample {
    pub timestamp: String,
    pub router: PingResult,
    pub internet: PingResult,
    pub router_http: HttpResult,
    pub dns_lookup: DnsResult,
    pub https_google: HttpsResult,
    pub https_cloudflare: HttpsResult,
    pub environment: EnvironmentText,
}

/// The column names, in order.
pub open spec fn spec_header() -> Seq<Seq<char>> {
    seq![
        "timestamp"@,
        "script_version"@,
        "router_ms"@,
        "internet_ms"@,
        "router_http_ms"@,
        "dns_lookup_ms"@,
        "https_google_ms"@,
        "https_cloudflare_ms"@,
        "outside_temperature_c"@,
        "outside_relative_humidity"@,
        "outside_apparent_temperature_c"@,
        "router_status"@,
        "internet_status"@,
        "router_http_status"@,
        "dns_status"@,
        "https_google_status"@,
        "https_cloudflare_status"@,
    ]
}

/// A latency cell: milliseconds with two decimals, empty for a failed check.
///
/// The exact number of nanoseconds is rounded to the hundredth, halves to
/// even. A binary floating-point value, formatted to two decimals, rounds a
/// written half by the bits it happens to hold instead: a ping reporting
/// `12.365 ms` gives `12.36` here, where such a value gives `12.37`.
pub open spec fn latency_text(value: Option<u64>) -> Seq<char> {
    match value {
        Some(ns) => millis_text(ns as nat),
        None => seq![],
    }
}

/// The cells of one row, in the order of [`spec_header`].
pub open spec fn spec_sample_fields(s: CsvSample, version: Seq<char>) -> Seq<Seq<char>> {
    seq![
        s.timestamp@,
        version,
        latency_text(s.router.latency_ns),
        latency_text(s.internet.latency_ns),
        latency_text(s.router_http.latency_ns),
        latency_text(s.dns_lookup.latency_ns),
        latency_text(s.https_google.latency_ns),
        latency_text(s.https_cloudflare.latency_ns),
        text_or_empty(s.environment.outside_temperature_c),
        text_or_empty(s.environment.outside_relative_humidity),
        text_or_empty(s.environment.outside_apparent_temperature_c),
        status_text(s.router.status == PingStatus::Success),
        status_text(s.internet.status == PingStatus::Success),
        status_text(s.router_http.status == HttpStatus::Success),
        status_text(s.dns_lookup.status == DnsStatus::Success),
        status_text(s.https_google.status == HttpsStatus::Success),
        status_text(s.https_cloudflare.status == HttpsStatus::Success),
    ]
}

/// The texts of a vector of strings.
pub open spec fn string_views(v: Seq<String>) -> Seq<Seq<char>> {
    v.map_values(|s: String| s@)
}

/// The bytes that the `csv` crate writes for one record with the given
/// fields (a comma-separated line ending in a line feed, with fields quoted
/// where the CSV format needs it).
pub uninterp spec fn csv_record_bytes(fields: Seq<Seq<char>>) -> Seq<u8>;

/// A cell that the CSV format writes as it is: ASCII text without a comma,
/// a double quote, a carriage return or a line feed.
pub open spec fn plain_cell(f: Seq<char>) -> bool {
    forall|i: int|
        0 <= i < f.len() ==> (#[trigger] f[i] as u32) < 128 && f[i] != ',' && f[i] != '"' && f[i]
            != '\r' && f[i] != '\n'
}

/// The cells joined by commas.
pub open spec fn join_commas(fields: Seq<Seq<char>>) -> Seq<char>
    decreases fields.len(),
{
    if fields.len() == 0 {
        seq![]
    } else if fields.len() == 1 {
        fields[0]
    } else {
        join_commas(fields.drop_last()) + seq![','] + fields.last()
    }
}

/// A record of two or more plain cells: the cells joined by commas and a
/// line feed, one byte per (ASCII) character.
pub open spec fn plain_record_bytes(fields: Seq<Seq<char>>) -> Seq<u8> {
    (join_commas(fields) + seq!['\n']).map_values(|c: char| c as u8)
}

/// Encodes one record with `csv::Writer` (`from_writer` on a byte vector,
/// `write_record`, then `into_inner`). Trusted: writing into memory does not
/// fail, so a record is always returned (the only other error, unequal
/// record lengths, needs an earlier record of the same writer); its bytes
/// are `csv_record_bytes` of the fields; and when there are at least two
/// cells and none needs quoting, the default writer (`,` between cells,
/// quotes only where needed, `\n` at the end) writes the cells as they are.
#[verifier::external_body]
fn encode_csv_record(fields: &Vec<String>) -> (r: Option<Vec<u8>>)
    ensures
        r is Some,
        r matches Some(bytes) ==> bytes@ == csv_record_bytes(string_views(fields@)),
        r matches Some(bytes) ==> (fields@.len() >= 2 && forall|k: int|
            0 <= k < fields@.len() ==> plain_cell(#[trigger] fields@[k]@)) ==> bytes@
            == plain_record_bytes(string_views(fields@)),
{
    let mut writer = csv::Writer::from_writer(Vec::new());
    if writer.write_record(fields).is_err() {
        return None;
    }
    match writer.into_inner() {
        Ok(bytes) => Some(bytes),
        Err(_) => None,
    }
}

/// A latency cell.
pub fn latency_field(value: Option<u64>) -> (s: String)
    ensures
        s@ == latency_text(value),
{
    let mut s = String::new();
    match value {
        Some(ns) => push_millis(&mut s, ns),
        None => {},
    }
    assert(s@ =~= latency_text(value));
    s
}

/// A ping status cell.
pub fn status_field(status: PingStatus) -> (s: &'static str)
    ensures
        s@ == status_text(status == PingStatus::Success),
{
    status.as_csv_value()
}

/// The column names.
pub fn csv_header() -> (r: Vec<String>)
    ensures
        string_views(r@) == spec_header(),
{
    let mut r: Vec<String> = Vec::new();
    r.push("timestamp".to_owned());
    r.push("script_version".to_owned());
    r.push("router_ms".to_owned());
    r.push("internet_ms".to_owned());
    r.push("router_http_ms".to_owned());
    r.push("dns_lookup_ms".to_owned());
    r.push("https_google_ms".to_owned());
    r.push("https_cloudflare_ms".to_owned());
    r.push("outside_temperature_c".to_owned());
    r.push("outside_relative_humidity".to_owned());
    r.push("outside_apparent_temperature_c".to_owned());
    r.push("router_status".to_owned());
    r.push("internet_status".to_owned());
    r.push("router_http_status".to_owned());
    r.push("dns_status".to_owned());
    r.push("https_google_status".to_owned());
    r.push("https_cloudflare_status".to_owned());
    assert(string_views(r@) =~= spec_header());
    r
}

/// The cells of one row; `version` is the program's version.
pub fn sample_fields(sample: &CsvSample, version: &str) -> (r: Vec<String>)
    ensures
        string_views(r@) == spec_sample_fields(*sample, version@),
{
    let mut r: Vec<String> = Vec::new();
    r.push(sample.timestamp.clone());
    r.push(version.to_owned());
    r.push(latency_field(sample.router.latency_ns));
    r.push(latency_field(sample.internet.latency_ns));
    r.push(latency_field(sample.router_http.latency_ns));
    r.push(latency_field(sample.dns_lookup.latency_ns));
    r.push(latency_field(sample.https_google.latency_ns));
    r.push(latency_field(sample.https_cloudflare.latency_ns));
    r.push(field_text(&sample.environment.outside_temperature_c));
    r.push(field_text(&sample.environment.outside_relative_humidity));
    r.push(field_text(&sample.environment.outside_apparent_temperature_c));
    r.push(status_field(sample.router.status).to_owned());
    r.push(status_field(sample.internet.status).to_owned());
    r.push(sample.router_http.status.as_csv_value().to_owned());
    r.push(sample.dns_lookup.status.as_csv_value().to_owned());
    r.push(sample.https_google.status.as_csv_value().to_owned());
    r.push(sample.https_cloudflare.status.as_csv_value().to_owned());
    assert(string_views(r@) =~= spec_sample_fields(*sample, version@));
    r
}

proof fn lemma_header_plain()
    ensures
        forall|k: int| 0 <= k < spec_header().len() ==> plain_cell(#[trigger] spec_header()[k]),
{
    reveal_strlit("timestamp");
    reveal_strlit("script_version");
    reveal_strlit("router_ms");
    reveal_strlit("internet_ms");
    reveal_strlit("router_http_ms");
    reveal_strlit("dns_lookup_ms");
    reveal_strlit("https_google_ms");
    reveal_strlit("https_cloudflare_ms");
    reveal_strlit("outside_temperature_c");
    reveal_strlit("outside_relative_humidity");
    reveal_strlit("outside_apparent_temperature_c");
    reveal_strlit("router_status");
    reveal_strlit("internet_status");
    reveal_strlit("router_http_status");
    reveal_strlit("dns_status");
    reveal_strlit("https_google_status");
    reveal_strlit("https_cloudflare_status");
}

/// The encoded header line: the column names joined by commas, then a line
/// feed.
pub fn header_record() -> (r: Option<Vec<u8>>)
    ensures
        r is Some,
        r matches Some(bytes) ==> bytes@ == csv_record_bytes(spec_header()),
        r matches Some(bytes) ==> bytes@ == plain_record_bytes(spec_header()),
{
    let fields = csv_header();
    proof {
        lemma_header_plain();
        assert forall|k: int| 0 <= k < fields@.len() implies plain_cell(#[trigger] fields@[k]@) by {
            assert(fields@[k]@ == string_views(fields@)[k]);
        }
    }
    encode_csv_record(&fields)
}

/// The encoded line of one sample: always produced; when its cells need no
/// quoting, they are joined by commas and end in a line feed.
pub fn sample_record(sample: &CsvSample, version: &str) -> (r: Option<Vec<u8>>)
    ensures
        r is Some,
        r matches Some(bytes) ==> bytes@ == csv_record_bytes(
            spec_sample_fields(*sample, version@),
        ),
        r matches Some(bytes) ==> (forall|k: int|
            0 <= k < 17 ==> plain_cell(#[trigger] spec_sample_fields(*sample, version@)[k]))
            ==> bytes@ == plain_record_bytes(spec_sample_fields(*sample, version@)),
{
    let fields = sample_fields(sample, version);
    proof {
        assert(string_views(fields@).len() == 17);
        assert forall|k: int| 0 <= k < fields@.len() implies fields@[k]@ == (#[trigger] string_views(
            fields@,
        )[k]) by {}
    }
    encode_csv_record(&fields)
}

// ---------------------------------------------------------------------------
// Laws.
// ---------------------------------------------------------------------------

/// Every row has one cell per column of the header.
pub proof fn law_rows_match_header(sample: CsvSample, version: Seq<char>)
    ensures
        spec_sample_fields(sample, version).len() == spec_header().len(),
        spec_header().len() == 17,
{
}

proof fn lemma_latency_cell(value: Option<u64>)
    ensures
        latency_text(value).len() == 0 <==> value is None,
{
    if let Some(ns) = value {
        crate::text::lemma_nat_text(crate::text::div_round_half_even(ns as nat, 10_000) / 100);
    }
}

proof fn lemma_status_cell(ok: bool)
    ensures
        status_text(ok) == "timeout"@ <==> !ok,
{
    reveal_strlit("ok");
    reveal_strlit("timeout");
    if ok {
        assert("ok"@.len() != "timeout"@.len());
    }
}

/// A failed check leaves its latency cell empty, and only then; its status
/// cell reads `timeout` exactly when the check timed out.
pub proof fn law_failed_check_cells(s: CsvSample, version: Seq<char>)
    ensures
        ({
            let f = spec_sample_fields(s, version);
            &&& (f[2].len() == 0 <==> s.router.latency_ns is None)
            &&& (f[3].len() == 0 <==> s.internet.latency_ns is None)
            &&& (f[4].len() == 0 <==> s.router_http.latency_ns is None)
            &&& (f[5].len() == 0 <==> s.dns_lookup.latency_ns is None)
            &&& (f[6].len() == 0 <==> s.https_google.latency_ns is None)
            &&& (f[7].len() == 0 <==> s.https_cloudflare.latency_ns is None)
            &&& (f[11] == "timeout"@ <==> s.router.status == PingStatus::Timeout)
            &&& (f[12] == "timeout"@ <==> s.internet.status == PingStatus::Timeout)
            &&& (f[13] == "timeout"@ <==> s.router_http.status == HttpStatus::Timeout)
            &&& (f[14] == "timeout"@ <==> s.dns_lookup.status == DnsStatus::Timeout)
            &&& (f[15] == "timeout"@ <==> s.https_google.status == HttpsStatus::Timeout)
            &&& (f[16] == "timeout"@ <==> s.https_cloudflare.status == HttpsStatus::Timeout)
        }),
{
    lemma_latency_cell(s.router.latency_ns);
    lemma_latency_cell(s.internet.latency_ns);
    lemma_latency_cell(s.router_http.latency_ns);
    lemma_latency_cell(s.dns_lookup.latency_ns);
    lemma_latency_cell(s.https_google.latency_ns);
    lemma_latency_cell(s.https_cloudflare.latency_ns);
    lemma_status_cell(s.router.status == PingStatus::Success);
    lemma_status_cell(s.internet.status == PingStatus::Success);
    lemma_status_cell(s.router_http.status == HttpStatus::Success);
    lemma_status_cell(s.dns_lookup.status == DnsStatus::Success);
    lemma_status_cell(s.https_google.status == HttpsStatus::Success);
    lemma_status_cell(s.https_cloudflare.status == HttpsStatus::Success);
}

} // verus!
