//! Decisions of the monitoring loop: which connectivity events a sample
//! brings, what the event log receives, and the progress line.
use vstd::prelude::*;
use vstd::string::*;

use crate::csv_writer::CsvSample;
use crate::environment_monitor::EnvironmentText;
use crate::event_log::{
    connectivity_event_text, high_heat_event_text, reading_or_unavailable,
    spec_connectivity_event, spec_high_heat_event,
};
use crate::dns_monitor::DNS_HOST;
use crate::http_monitor::router_http_url;
use crate::https_monitor::{HTTPS_CLOUDFLARE_URL, HTTPS_GOOGLE_URL};
use crate::validation::{ipv4_text, Ipv4Address};
use crate::text::{
    div_round_half_even, millis_text, nat_text, one_decimal_text, push_char, push_decimal,
    push_millis, push_one_decimal, text_of,
};

verus! {

/// Which checks of one sample timed out.
#[derive(Debug, Clone, Copy, PartialEq, Eq, Structural)]
pub struct SampleStatuses {
    pub router_timeout: bool,
    pub internet_timeout: bool,
    pub router_http_timeout: bool,
    pub dns_timeout: bool,
    pub https_google_timeout: bool,
    pub https_cloudflare_timeout: bool,
}

/// The statuses of a sample: a check timed out when it has no latency.
pub open spec fn spec_statuses(s: CsvSample) -> SampleStatuses {
    SampleStatuses {
        router_timeout: s.router.latency_ns is None,
        internet_timeout: s.internet.latency_ns is None,
        router_http_timeout: s.router_http.latency_ns is None,
        dns_timeout: s.dns_lookup.latency_ns is None,
        https_google_timeout: s.https_google.latency_ns is None,
        https_cloudflare_timeout: s.https_cloudflare.latency_ns is None,
    }
}

/// No check timed out (what is assumed before the first sample).
pub open spec fn all_reachable() -> SampleStatuses {
    SampleStatuses {
        router_timeout: false,
        internet_timeout: false,
        router_http_timeout: false,
        dns_timeout: false,
        https_google_timeout: false,
        https_cloudflare_timeout: false,
    }
}

impl SampleStatuses {
    /// The statuses of a sample.
    pub fn from_sample(sample: &CsvSample) -> (r: Self)
        ensures
            r == spec_statuses(*sample),
    {
        SampleStatuses {
            router_timeout: sample.router.latency_ns.is_none(),
            internet_timeout: sample.internet.latency_ns.is_none(),
            router_http_timeout: sample.router_http.latency_ns.is_none(),
            dns_timeout: sample.dns_lookup.latency_ns.is_none(),
            https_google_timeout: sample.https_google.latency_ns.is_none(),
            https_cloudflare_timeout: sample.https_cloudflare.latency_ns.is_none(),
        }
    }
}

/// The event for one check: present when it times out now and did not before.
pub open spec fn transition_event(was: bool, is: bool, name: Seq<char>) -> Seq<Seq<char>> {
    if is && !was {
        seq![name]
    } else {
        seq![]
    }
}

/// The connectivity events a sample brings, in the order of the checks:
/// one for each check that times out now and did not in the previous
/// sample (before the first sample, no check counts as timed out).
pub open spec fn spec_new_timeouts(previous: Option<SampleStatuses>, current: SampleStatuses) -> Seq<
    Seq<char>,
> {
    let p = match previous {
        Some(s) => s,
        None => all_reachable(),
    };
    transition_event(p.router_timeout, current.router_timeout, "ROUTER_PING_TIMEOUT detected"@)
        + transition_event(
        p.internet_timeout,
        current.internet_timeout,
        "INTERNET_PING_TIMEOUT detected"@,
    ) + transition_event(
        p.router_http_timeout,
        current.router_http_timeout,
        "ROUTER_HTTP_TIMEOUT detected"@,
    ) + transition_event(p.dns_timeout, current.dns_timeout, "DNS_LOOKUP_TIMEOUT detected"@)
        + transition_event(
        p.https_google_timeout,
        current.https_google_timeout,
        "HTTPS_GOOGLE_TIMEOUT detected"@,
    ) + transition_event(
        p.https_cloudflare_timeout,
        current.https_cloudflare_timeout,
        "HTTPS_CLOUDFLARE_TIMEOUT detected"@,
    )
}

/// The event log entries for a list of events, in order.
pub open spec fn spec_event_entries(
    timestamp: Seq<char>,
    events: Seq<Seq<char>>,
    env: EnvironmentText,
) -> Seq<char>
    decreases events.len(),
{
    if events.len() == 0 {
        seq![]
    } else {
        spec_event_entries(timestamp, events.drop_last(), env) + spec_connectivity_event(
            timestamp,
            events.last(),
            env,
        )
    }
}

/// What the event log receives for a sample: the high heat entry when the
/// readings were refreshed and show high heat, then one entry per new
/// connectivity timeout.
pub open spec fn spec_sample_entries(
    timestamp: Seq<char>,
    env: EnvironmentText,
    heat_alert: bool,
    events: Seq<Seq<char>>,
) -> Seq<char> {
    (if heat_alert {
        spec_high_heat_event(timestamp, env)
    } else {
        seq![]
    }) + spec_event_entries(timestamp, events, env)
}

/// Remembers the statuses of the previous sample, to report only the
/// moments at which a check starts to time out.
#[derive(Debug, Clone, Copy, PartialEq, Eq, Structural)]
pub struct ConnectivityTracker {
    pub previous: Option<SampleStatuses>,
}

fn push_event(events: &mut Vec<&'static str>, was: bool, is: bool, name: &'static str)
    ensures
        final(events)@.map_values(|e: &'static str| e@) == old(events)@.map_values(
            |e: &'static str| e@,
        ) + transition_event(was, is, name@),
{
    if is && !was {
        events.push(name);
    }
    assert(events@.map_values(|e: &'static str| e@) =~= old(events)@.map_values(
        |e: &'static str| e@,
    ) + transition_event(was, is, name@));
}

impl ConnectivityTracker {
    /// A tracker that has seen no sample yet.
    pub fn new() -> (r: Self)
        ensures
            r.previous is None,
    {
        ConnectivityTracker { previous: None }
    }

    /// The events a sample with statuses `current` brings; afterwards the
    /// tracker remembers `current`.
    pub fn new_timeouts(&mut self, current: SampleStatuses) -> (events: Vec<&'static str>)
        ensures
            events@.map_values(|e: &'static str| e@) == spec_new_timeouts(
                old(self).previous,
                current,
            ),
            final(self).previous == Some(current),
    {
        let p = match self.previous {
            Some(s) => s,
            None => SampleStatuses {
                router_timeout: false,
                internet_timeout: false,
                router_http_timeout: false,
                dns_timeout: false,
                https_google_timeout: false,
                https_cloudflare_timeout: false,
            },
        };
        let mut events: Vec<&'static str> = Vec::new();
        assert(events@.map_values(|e: &'static str| e@) =~= seq![]);
        push_event(
            &mut events,
            p.router_timeout,
            current.router_timeout,
            "ROUTER_PING_TIMEOUT detected",
        );
        push_event(
            &mut events,
            p.internet_timeout,
            current.internet_timeout,
            "INTERNET_PING_TIMEOUT detected",
        );
        push_event(
            &mut events,
            p.router_http_timeout,
            current.router_http_timeout,
            "ROUTER_HTTP_TIMEOUT detected",
        );
        push_event(&mut events, p.dns_timeout, current.dns_timeout, "DNS_LOOKUP_TIMEOUT detected");
        push_event(
            &mut events,
            p.https_google_timeout,
            current.https_google_timeout,
            "HTTPS_GOOGLE_TIMEOUT detected",
        );
        push_event(
            &mut events,
            p.https_cloudflare_timeout,
            current.https_cloudflare_timeout,
            "HTTPS_CLOUDFLARE_TIMEOUT detected",
        );
        assert(events@.map_values(|e: &'static str| e@) =~= spec_new_timeouts(
            self.previous,
            current,
        ));
        self.previous = Some(current);
        events
    }

    /// What the event log receives for one sample (`heat_alert`: the
    /// readings were refreshed for this sample and show high heat);
    /// afterwards the tracker remembers the sample's statuses.
    pub fn record_sample(&mut self, sample: &CsvSample, heat_alert: bool) -> (text: String)
        ensures
            text@ == spec_sample_entries(
                sample.timestamp@,
                sample.environment,
                heat_alert,
                spec_new_timeouts(old(self).previous, spec_statuses(*sample)),
            ),
            final(self).previous == Some(spec_statuses(*sample)),
    {
        let mut text = if heat_alert {
            high_heat_event_text(sample.timestamp.as_str(), &sample.environment)
        } else {
            String::new()
        };
        let ghost heat = text@;
        let current = SampleStatuses::from_sample(sample);
        let events = self.new_timeouts(current);
        let ghost names = events@.map_values(|e: &'static str| e@);
        let mut k: usize = 0;
        assert(names.take(0) =~= seq![]);
        assert(heat + seq![] =~= heat);
        while k < events.len()
            invariant
                k <= events.len(),
                names == events@.map_values(|e: &'static str| e@),
                text@ == heat + spec_event_entries(
                    sample.timestamp@,
                    names.take(k as int),
                    sample.environment,
                ),
            decreases events.len() - k,
        {
            let entry = connectivity_event_text(
                sample.timestamp.as_str(),
                events[k],
                &sample.environment,
            );
            text.append(entry.as_str());
            assert(names.take(k + 1).drop_last() =~= names.take(k as int));
            assert(names.take(k + 1).last() == events@[k as int]@);
            k = k + 1;
            assert(text@ =~= heat + spec_event_entries(
                sample.timestamp@,
                names.take(k as int),
                sample.environment,
            ));
        }
        assert(names.take(k as int) =~= names);
        text
    }
}

// ---------------------------------------------------------------------------
// The progress line.
// ---------------------------------------------------------------------------

/// How a check reads on the progress line: `ok (8.21 ms)` or `timeout`.
pub open spec fn spec_check_text(latency: Option<u64>) -> Seq<char> {
    match latency {
        Some(ns) => "ok ("@ + millis_text(ns as nat) + " ms)"@,
        None => "timeout"@,
    }
}

/// How a check reads on the progress line.
pub fn check_status_text(latency: Option<u64>) -> (s: String)
    ensures
        s@ == spec_check_text(latency),
{
    match latency {
        Some(ns) => {
            let mut s = "ok (".to_owned();
            push_millis(&mut s, ns);
            s.append(" ms)");
            s
        },
        None => "timeout".to_owned(),
    }
}

/// The spinner character for the `n`-th sample.
pub open spec fn spinner_text(n: nat) -> Seq<char> {
    if n % 4 == 0 {
        "|"@
    } else if n % 4 == 1 {
        "/"@
    } else if n % 4 == 2 {
        "-"@
    } else {
        "\\"@
    }
}

/// The spinner character for the `n`-th sample.
pub fn spinner(n: u64) -> (s: &'static str)
    ensures
        s@ == spinner_text(n as nat),
{
    let k = n % 4;
    if k == 0 {
        "|"
    } else if k == 1 {
        "/"
    } else if k == 2 {
        "-"
    } else {
        "\\"
    }
}

/// The share of samples taken, in tenths of a percent, at most 100%.
///
/// It is exact, rounded halves to even. A percentage computed in binary
/// floating point rounds a half by the bits it happens to hold instead:
/// sample 1 of 2000 (exactly 0.05%) shows `0.0` here, where such a value
/// shows `0.1`.
pub open spec fn percent_tenths(n: nat, total: nat) -> nat {
    if n >= total {
        1000
    } else {
        div_round_half_even(n * 1000, total)
    }
}

/// `s` padded on the left with spaces to at least `width` characters.
pub open spec fn pad_left(s: Seq<char>, width: nat) -> Seq<char> {
    if s.len() >= width {
        s
    } else {
        Seq::new((width - s.len()) as nat, |i: int| ' ') + s
    }
}

/// The percentage with one decimal, right-aligned in five characters.
pub open spec fn spec_percent_text(n: nat, total: nat) -> Seq<char> {
    pad_left(one_decimal_text(percent_tenths(n, total)), 5)
}

/// The percentage with one decimal, right-aligned in five characters.
pub fn percent_text(n: u64, total: u64) -> (s: String)
    requires
        total > 0,
    ensures
        s@ == spec_percent_text(n as nat, total as nat),
{
    let tenths: u64 = if n >= total {
        1000
    } else {
        let scaled = (n as u128) * 1000;
        let q = scaled / (total as u128);
        let rem = scaled % (total as u128);
        assert(q < 1000) by {
            vstd::arithmetic::div_mod::lemma_fundamental_div_mod(scaled as int, total as int);
            assert(q * total <= scaled);
            assert(scaled < 1000 * total) by (nonlinear_arith)
                requires
                    scaled == n * 1000,
                    n < total,
            ;
            assert(q < 1000) by (nonlinear_arith)
                requires
                    q * total <= scaled,
                    scaled < 1000 * total,
                    total > 0,
            ;
        }
        if 2 * rem > total as u128 || (2 * rem == total as u128 && q % 2 == 1) {
            (q + 1) as u64
        } else {
            q as u64
        }
    };
    let mut body = String::new();
    push_one_decimal(&mut body, tenths);
    assert(body@ == one_decimal_text(percent_tenths(n as nat, total as nat)));
    let len = body.unicode_len();
    let mut s = String::new();
    let mut k: usize = len;
    while k < 5
        invariant
            len <= k <= 5 || (len > 5 && k == len),
            s@ == Seq::new((k - len) as nat, |i: int| ' '),
        decreases 5 - k,
    {
        push_char(&mut s, ' ');
        k = k + 1;
        assert(s@ =~= Seq::new((k - len) as nat, |i: int| ' '));
    }
    s.append(body.as_str());
    assert(s@ =~= spec_percent_text(n as nat, total as nat));
    s
}

/// The verbose detail of the checks.
pub open spec fn spec_checks_detail(s: CsvSample) -> Seq<char> {
    " | router="@ + spec_check_text(s.router.latency_ns) + " internet="@ + spec_check_text(
        s.internet.latency_ns,
    ) + " router_http="@ + spec_check_text(s.router_http.latency_ns) + " dns="@
        + spec_check_text(s.dns_lookup.latency_ns) + " https_google="@ + spec_check_text(
        s.https_google.latency_ns,
    ) + " https_cloudflare="@ + spec_check_text(s.https_cloudflare.latency_ns)
}

/// The verbose detail of the weather.
pub open spec fn spec_weather_detail(env: EnvironmentText) -> Seq<char> {
    " weather=temp:"@ + reading_or_unavailable(env.outside_temperature_c, "C"@) + " humidity:"@
        + reading_or_unavailable(env.outside_relative_humidity, "%"@) + " apparent:"@
        + reading_or_unavailable(env.outside_apparent_temperature_c, "C"@)
}

/// The progress line after sample `n` of `total`: it clears the terminal
/// line, then shows a spinner, the percentage, the count and the finish
/// time, and, when verbose, every check and the weather.
pub open spec fn spec_progress_line(
    n: nat,
    total: nat,
    finish_time: Seq<char>,
    s: CsvSample,
    verbose: bool,
) -> Seq<char> {
    "\r\x1b[2K"@ + spinner_text(n) + " Monitoring... "@ + spec_percent_text(n, total) + "% ("@
        + nat_text(n) + "/"@ + nat_text(total) + ") | finishes at "@ + finish_time + if verbose {
        spec_checks_detail(s) + spec_weather_detail(s.environment)
    } else {
        seq![]
    }
}

fn append_check(text: &mut String, label: &str, latency: Option<u64>)
    ensures
        final(text)@ == old(text)@ + label@ + spec_check_text(latency),
{
    text.append(label);
    let status = check_status_text(latency);
    text.append(status.as_str());
}

fn append_reading_text(text: &mut String, label: &str, value: &Option<String>, unit: &str)
    ensures
        final(text)@ == old(text)@ + label@ + reading_or_unavailable(*value, unit@),
{
    text.append(label);
    match value {
        Some(t) => {
            text.append(t.as_str());
            text.append(unit);
        },
        None => text.append("unavailable"),
    }
}

fn checks_detail(sample: &CsvSample) -> (text: String)
    ensures
        text@ == spec_checks_detail(*sample),
{
    let mut text = String::new();
    append_check(&mut text, " | router=", sample.router.latency_ns);
    append_check(&mut text, " internet=", sample.internet.latency_ns);
    append_check(&mut text, " router_http=", sample.router_http.latency_ns);
    append_check(&mut text, " dns=", sample.dns_lookup.latency_ns);
    append_check(&mut text, " https_google=", sample.https_google.latency_ns);
    append_check(&mut text, " https_cloudflare=", sample.https_cloudflare.latency_ns);
    assert(text@ =~= spec_checks_detail(*sample));
    text
}

fn weather_detail(env: &EnvironmentText) -> (text: String)
    ensures
        text@ == spec_weather_detail(*env),
{
    let mut text = String::new();
    append_reading_text(&mut text, " weather=temp:", &env.outside_temperature_c, "C");
    append_reading_text(&mut text, " humidity:", &env.outside_relative_humidity, "%");
    append_reading_text(&mut text, " apparent:", &env.outside_apparent_temperature_c, "C");
    assert(text@ =~= spec_weather_detail(*env));
    text
}

fn progress_head(n: u64, total: u64, finish_time: &str) -> (line: String)
    requires
        total > 0,
    ensures
        line@ == "\r\x1b[2K"@ + spinner_text(n as nat) + " Monitoring... "@ + spec_percent_text(
            n as nat,
            total as nat,
        ) + "% ("@ + nat_text(n as nat) + "/"@ + nat_text(total as nat) + ") | finishes at "@
            + finish_time@,
{
    let mut line = "\r\x1b[2K".to_owned();
    line.append(spinner(n));
    line.append(" Monitoring... ");
    let percent = percent_text(n, total);
    line.append(percent.as_str());
    line.append("% (");
    push_decimal(&mut line, n);
    line.append("/");
    push_decimal(&mut line, total);
    line.append(") | finishes at ");
    line.append(finish_time);
    line
}

/// The progress line after sample `n` of `total`.
pub fn progress_line(
    n: u64,
    total: u64,
    finish_time: &str,
    sample: &CsvSample,
    verbose: bool,
) -> (line: String)
    requires
        total > 0,
    ensures
        line@ == spec_progress_line(n as nat, total as nat, finish_time@, *sample, verbose),
{
    let mut line = progress_head(n, total, finish_time);
    if verbose {
        let checks = checks_detail(sample);
        line.append(checks.as_str());
        let weather = weather_detail(&sample.environment);
        line.append(weather.as_str());
    }
    assert(line@ =~= spec_progress_line(n as nat, total as nat, finish_time@, *sample, verbose));
    line
}

// ---------------------------------------------------------------------------
// The startup summary.
// ---------------------------------------------------------------------------

/// What the monitor shows when it starts in the foreground: the targets,
/// the weather location (`None` when no location is known), the duration,
/// the number of samples, the finish time and both output files.
pub open spec fn spec_startup_text(
    router_ip: Ipv4Address,
    internet_ip: Ipv4Address,
    weather: Option<Seq<char>>,
    duration: Seq<char>,
    samples: nat,
    finish_time: Seq<char>,
    output_path: Seq<char>,
    event_log_path: Seq<char>,
) -> Seq<char> {
    "Monitoring started\nRouter IP: "@ + ipv4_text(router_ip) + "\nInternet IP: "@ + ipv4_text(
        internet_ip,
    ) + "\nRouter HTTP: http://"@ + ipv4_text(router_ip) + "\nDNS Lookup: "@ + DNS_HOST@
        + "\nHTTPS Google: "@ + HTTPS_GOOGLE_URL@ + "\nHTTPS Cloudflare: "@
        + HTTPS_CLOUDFLARE_URL@ + match weather {
        Some(label) => "\nWeather: enabled ("@ + label + ")"@,
        None => "\nWeather: disabled (location unavailable)"@,
    } + "\nDuration: "@ + duration + "\nSamples: "@ + nat_text(samples) + "\nWill finish at: "@
        + finish_time + "\nOutput file: "@ + output_path + "\nEvent log: "@ + event_log_path
        + "\n"@
}

/// What the monitor shows when it starts in the foreground.
pub fn startup_text(
    router_ip: Ipv4Address,
    internet_ip: Ipv4Address,
    weather: Option<&str>,
    duration: &str,
    samples: u64,
    finish_time: &str,
    output_path: &str,
    event_log_path: &str,
) -> (text: String)
    ensures
        text@ == spec_startup_text(
            router_ip,
            internet_ip,
            text_of(weather),
            duration@,
            samples as nat,
            finish_time@,
            output_path@,
            event_log_path@,
        ),
{
    let mut text = "Monitoring started\nRouter IP: ".to_owned();
    text.append(router_ip.to_text().as_str());
    text.append("\nInternet IP: ");
    text.append(internet_ip.to_text().as_str());
    text.append("\nRouter HTTP: ");
    text.append(router_http_url(router_ip).as_str());
    text.append("\nDNS Lookup: ");
    text.append(DNS_HOST);
    text.append("\nHTTPS Google: ");
    text.append(HTTPS_GOOGLE_URL);
    text.append("\nHTTPS Cloudflare: ");
    text.append(HTTPS_CLOUDFLARE_URL);
    match weather {
        Some(label) => {
            text.append("\nWeather: enabled (");
            text.append(label);
            text.append(")");
        },
        None => text.append("\nWeather: disabled (location unavailable)"),
    }
    text.append("\nDuration: ");
    text.append(duration);
    text.append("\nSamples: ");
    push_decimal(&mut text, samples);
    text.append("\nWill finish at: ");
    text.append(finish_time);
    text.append("\nOutput file: ");
    text.append(output_path);
    text.append("\nEvent log: ");
    text.append(event_log_path);
    text.append("\n");
    proof {
        reveal_strlit("\nRouter HTTP: ");
        reveal_strlit("http://");
        reveal_strlit("\nRouter HTTP: http://");
    }
    assert(text@ =~= spec_startup_text(
        router_ip,
        internet_ip,
        text_of(weather),
        duration@,
        samples as nat,
        finish_time@,
        output_path@,
        event_log_path@,
    ));
    text
}

// ---------------------------------------------------------------------------
// Laws.
// ---------------------------------------------------------------------------

/// A sample with the same statuses as the one before brings no event: a
/// check that keeps timing out is reported once, when it starts.
pub proof fn law_no_event_without_change(s: SampleStatuses)
    ensures
        spec_new_timeouts(Some(s), s) == Seq::<Seq<char>>::empty(),
{
    assert(spec_new_timeouts(Some(s), s) =~= Seq::<Seq<char>>::empty());
}

/// Before the first sample every check counts as reachable.
pub proof fn law_first_sample(s: SampleStatuses)
    ensures
        spec_new_timeouts(None, s) == spec_new_timeouts(Some(all_reachable()), s),
{
}

proof fn lemma_names_distinct()
    ensures
        "ROUTER_PING_TIMEOUT detected"@ != "INTERNET_PING_TIMEOUT detected"@,
        "ROUTER_PING_TIMEOUT detected"@ != "ROUTER_HTTP_TIMEOUT detected"@,
        "ROUTER_PING_TIMEOUT detected"@ != "DNS_LOOKUP_TIMEOUT detected"@,
        "ROUTER_PING_TIMEOUT detected"@ != "HTTPS_GOOGLE_TIMEOUT detected"@,
        "ROUTER_PING_TIMEOUT detected"@ != "HTTPS_CLOUDFLARE_TIMEOUT detected"@,
        "INTERNET_PING_TIMEOUT detected"@ != "ROUTER_HTTP_TIMEOUT detected"@,
        "INTERNET_PING_TIMEOUT detected"@ != "DNS_LOOKUP_TIMEOUT detected"@,
        "INTERNET_PING_TIMEOUT detected"@ != "HTTPS_GOOGLE_TIMEOUT detected"@,
        "INTERNET_PING_TIMEOUT detected"@ != "HTTPS_CLOUDFLARE_TIMEOUT detected"@,
        "ROUTER_HTTP_TIMEOUT detected"@ != "DNS_LOOKUP_TIMEOUT detected"@,
        "ROUTER_HTTP_TIMEOUT detected"@ != "HTTPS_GOOGLE_TIMEOUT detected"@,
        "ROUTER_HTTP_TIMEOUT detected"@ != "HTTPS_CLOUDFLARE_TIMEOUT detected"@,
        "DNS_LOOKUP_TIMEOUT detected"@ != "HTTPS_GOOGLE_TIMEOUT detected"@,
        "DNS_LOOKUP_TIMEOUT detected"@ != "HTTPS_CLOUDFLARE_TIMEOUT detected"@,
        "HTTPS_GOOGLE_TIMEOUT detected"@ != "HTTPS_CLOUDFLARE_TIMEOUT detected"@,
{
    reveal_strlit("ROUTER_PING_TIMEOUT detected");
    reveal_strlit("INTERNET_PING_TIMEOUT detected");
    reveal_strlit("ROUTER_HTTP_TIMEOUT detected");
    reveal_strlit("DNS_LOOKUP_TIMEOUT detected");
    reveal_strlit("HTTPS_GOOGLE_TIMEOUT detected");
    reveal_strlit("HTTPS_CLOUDFLARE_TIMEOUT detected");
    assert("ROUTER_PING_TIMEOUT detected"@[0] != "INTERNET_PING_TIMEOUT detected"@[0]);
    assert("ROUTER_PING_TIMEOUT detected"@[7] != "ROUTER_HTTP_TIMEOUT detected"@[7]);
    assert("ROUTER_PING_TIMEOUT detected"@[0] != "DNS_LOOKUP_TIMEOUT detected"@[0]);
    assert("ROUTER_PING_TIMEOUT detected"@[0] != "HTTPS_GOOGLE_TIMEOUT detected"@[0]);
    assert("ROUTER_PING_TIMEOUT detected"@[0] != "HTTPS_CLOUDFLARE_TIMEOUT detected"@[0]);
    assert("INTERNET_PING_TIMEOUT detected"@[0] != "ROUTER_HTTP_TIMEOUT detected"@[0]);
    assert("INTERNET_PING_TIMEOUT detected"@[0] != "DNS_LOOKUP_TIMEOUT detected"@[0]);
    assert("INTERNET_PING_TIMEOUT detected"@[0] != "HTTPS_GOOGLE_TIMEOUT detected"@[0]);
    assert("INTERNET_PING_TIMEOUT detected"@[0] != "HTTPS_CLOUDFLARE_TIMEOUT detected"@[0]);
    assert("ROUTER_HTTP_TIMEOUT detected"@[0] != "DNS_LOOKUP_TIMEOUT detected"@[0]);
    assert("ROUTER_HTTP_TIMEOUT detected"@[0] != "HTTPS_GOOGLE_TIMEOUT detected"@[0]);
    assert("ROUTER_HTTP_TIMEOUT detected"@[0] != "HTTPS_CLOUDFLARE_TIMEOUT detected"@[0]);
    assert("DNS_LOOKUP_TIMEOUT detected"@[0] != "HTTPS_GOOGLE_TIMEOUT detected"@[0]);
    assert("DNS_LOOKUP_TIMEOUT detected"@[0] != "HTTPS_CLOUDFLARE_TIMEOUT detected"@[0]);
    assert("HTTPS_GOOGLE_TIMEOUT detected"@[6] != "HTTPS_CLOUDFLARE_TIMEOUT detected"@[6]);
}

proof fn lemma_piece_contains(was: bool, is: bool, name: Seq<char>, x: Seq<char>)
    ensures
        transition_event(was, is, name).contains(x) <==> (is && !was && x == name),
{
    if is && !was {
        assert(transition_event(was, is, name)[0] == name);
    }
}

proof fn lemma_events_contain(p: SampleStatuses, current: SampleStatuses, x: Seq<char>)
    ensures
        spec_new_timeouts(Some(p), current).contains(x) <==> (
        (current.router_timeout && !p.router_timeout && x == "ROUTER_PING_TIMEOUT detected"@)
            || (current.internet_timeout && !p.internet_timeout && x
            == "INTERNET_PING_TIMEOUT detected"@) || (current.router_http_timeout
            && !p.router_http_timeout && x == "ROUTER_HTTP_TIMEOUT detected"@) || (
        current.dns_timeout && !p.dns_timeout && x == "DNS_LOOKUP_TIMEOUT detected"@) || (
        current.https_google_timeout && !p.https_google_timeout && x
            == "HTTPS_GOOGLE_TIMEOUT detected"@) || (current.https_cloudflare_timeout
            && !p.https_cloudflare_timeout && x == "HTTPS_CLOUDFLARE_TIMEOUT detected"@)),
{
    let a = transition_event(
        p.router_timeout,
        current.router_timeout,
        "ROUTER_PING_TIMEOUT detected"@,
    );
    let b = transition_event(
        p.internet_timeout,
        current.internet_timeout,
        "INTERNET_PING_TIMEOUT detected"@,
    );
    let c = transition_event(
        p.router_http_timeout,
        current.router_http_timeout,
        "ROUTER_HTTP_TIMEOUT detected"@,
    );
    let d = transition_event(p.dns_timeout, current.dns_timeout, "DNS_LOOKUP_TIMEOUT detected"@);
    let f = transition_event(
        p.https_google_timeout,
        current.https_google_timeout,
        "HTTPS_GOOGLE_TIMEOUT detected"@,
    );
    let g = transition_event(
        p.https_cloudflare_timeout,
        current.https_cloudflare_timeout,
        "HTTPS_CLOUDFLARE_TIMEOUT detected"@,
    );
    assert(spec_new_timeouts(Some(p), current) == a + b + c + d + f + g);
    vstd::seq_lib::lemma_seq_concat_contains_all_elements(a, b, x);
    vstd::seq_lib::lemma_seq_concat_contains_all_elements(a + b, c, x);
    vstd::seq_lib::lemma_seq_concat_contains_all_elements(a + b + c, d, x);
    vstd::seq_lib::lemma_seq_concat_contains_all_elements(a + b + c + d, f, x);
    vstd::seq_lib::lemma_seq_concat_contains_all_elements(a + b + c + d + f, g, x);
    lemma_piece_contains(
        p.router_timeout,
        current.router_timeout,
        "ROUTER_PING_TIMEOUT detected"@,
        x,
    );
    lemma_piece_contains(
        p.internet_timeout,
        current.internet_timeout,
        "INTERNET_PING_TIMEOUT detected"@,
        x,
    );
    lemma_piece_contains(
        p.router_http_timeout,
        current.router_http_timeout,
        "ROUTER_HTTP_TIMEOUT detected"@,
        x,
    );
    lemma_piece_contains(p.dns_timeout, current.dns_timeout, "DNS_LOOKUP_TIMEOUT detected"@, x);
    lemma_piece_contains(
        p.https_google_timeout,
        current.https_google_timeout,
        "HTTPS_GOOGLE_TIMEOUT detected"@,
        x,
    );
    lemma_piece_contains(
        p.https_cloudflare_timeout,
        current.https_cloudflare_timeout,
        "HTTPS_CLOUDFLARE_TIMEOUT detected"@,
        x,
    );
}

/// A check's event is written exactly when the check times out in this
/// sample and did not in the previous one (before the first sample, no
/// check counts as timed out).
pub proof fn law_event_marks_onset(previous: Option<SampleStatuses>, current: SampleStatuses)
    ensures
        ({
            let p = match previous {
                Some(s) => s,
                None => all_reachable(),
            };
            let e = spec_new_timeouts(previous, current);
            &&& e.contains("ROUTER_PING_TIMEOUT detected"@) <==> (current.router_timeout
                && !p.router_timeout)
            &&& e.contains("INTERNET_PING_TIMEOUT detected"@) <==> (current.internet_timeout
                && !p.internet_timeout)
            &&& e.contains("ROUTER_HTTP_TIMEOUT detected"@) <==> (current.router_http_timeout
                && !p.router_http_timeout)
            &&& e.contains("DNS_LOOKUP_TIMEOUT detected"@) <==> (current.dns_timeout
                && !p.dns_timeout)
            &&& e.contains("HTTPS_GOOGLE_TIMEOUT detected"@) <==> (current.https_google_timeout
                && !p.https_google_timeout)
            &&& e.contains("HTTPS_CLOUDFLARE_TIMEOUT detected"@) <==> (
            current.https_cloudflare_timeout && !p.https_cloudflare_timeout)
        }),
{
    lemma_names_distinct();
    let p = match previous {
        Some(s) => s,
        None => all_reachable(),
    };
    assert(spec_new_timeouts(previous, current) == spec_new_timeouts(Some(p), current));
    lemma_events_contain(p, current, "ROUTER_PING_TIMEOUT detected"@);
    lemma_events_contain(p, current, "INTERNET_PING_TIMEOUT detected"@);
    lemma_events_contain(p, current, "ROUTER_HTTP_TIMEOUT detected"@);
    lemma_events_contain(p, current, "DNS_LOOKUP_TIMEOUT detected"@);
    lemma_events_contain(p, current, "HTTPS_GOOGLE_TIMEOUT detected"@);
    lemma_events_contain(p, current, "HTTPS_CLOUDFLARE_TIMEOUT detected"@);
}

/// Each check's event follows that check's own result: it is written for
/// a sample exactly when that check has no latency in it and had one in
/// the previous sample (or there was no previous sample).
pub proof fn law_events_follow_own_check(previous: Option<CsvSample>, current: CsvSample)
    ensures
        ({
            let e = spec_new_timeouts(
                match previous {
                    Some(p) => Some(spec_statuses(p)),
                    None => None,
                },
                spec_statuses(current),
            );
            &&& e.contains("ROUTER_PING_TIMEOUT detected"@) <==> (current.router.latency_ns is None
                && (previous is None || previous->Some_0.router.latency_ns is Some))
            &&& e.contains("INTERNET_PING_TIMEOUT detected"@) <==> (
            current.internet.latency_ns is None && (previous is None
                || previous->Some_0.internet.latency_ns is Some))
            &&& e.contains("ROUTER_HTTP_TIMEOUT detected"@) <==> (
            current.router_http.latency_ns is None && (previous is None
                || previous->Some_0.router_http.latency_ns is Some))
            &&& e.contains("DNS_LOOKUP_TIMEOUT detected"@) <==> (
            current.dns_lookup.latency_ns is None && (previous is None
                || previous->Some_0.dns_lookup.latency_ns is Some))
            &&& e.contains("HTTPS_GOOGLE_TIMEOUT detected"@) <==> (
            current.https_google.latency_ns is None && (previous is None
                || previous->Some_0.https_google.latency_ns is Some))
            &&& e.contains("HTTPS_CLOUDFLARE_TIMEOUT detected"@) <==> (
            current.https_cloudflare.latency_ns is None && (previous is None
                || previous->Some_0.https_cloudflare.latency_ns is Some))
        }),
{
    let prev = match previous {
        Some(p) => Some(spec_statuses(p)),
        None => None,
    };
    law_event_marks_onset(prev, spec_statuses(current));
}

/// The percentage shown never exceeds 100% and reaches it with the last sample.
pub proof fn law_percent_bounds(n: nat, total: nat)
    requires
        total > 0,
    ensures
        percent_tenths(n, total) <= 1000,
        n >= total ==> percent_tenths(n, total) == 1000,
        n == 0 ==> percent_tenths(n, total) == 0,
{
    if n < total {
        let q = (n * 1000) / total;
        let r = (n * 1000) % total;
        vstd::arithmetic::div_mod::lemma_fundamental_div_mod((n * 1000) as int, total as int);
        assert(n * 1000 < 1000 * total) by (nonlinear_arith)
            requires
                n < total,
        ;
        assert(q < 1000) by (nonlinear_arith)
            requires
                q * total <= n * 1000,
                n * 1000 < 1000 * total,
                total > 0,
                n * 1000 == total * q + r,
                r >= 0,
        ;
        if n == 0 {
            assert(q == 0 && r == 0) by {
                vstd::arithmetic::div_mod::lemma_div_of0(total as int);
                vstd::arithmetic::div_mod::lemma_small_mod(0, total);
            }
        }
    }
}

} // verus!
