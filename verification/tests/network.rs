use router_monitor::dns_monitor::{DnsMonitor, DnsResult, DnsStatus, DNS_HOST};
use router_monitor::http_monitor::{router_http_url, HttpResult, HttpStatus};
use router_monitor::https_monitor::{HttpsResult, HttpsStatus, HTTPS_CLOUDFLARE_URL, HTTPS_GOOGLE_URL};
use router_monitor::ping::{
    parse_latency_from_line, parse_latency_ms, ping_args, ping_result_from_output, Platform,
    PingResult, PingStatus,
};
use router_monitor::validation::{parse_ipv4_address, Ipv4Address};

fn millis(latency_ns: Option<u64>) -> Option<f64> {
    latency_ns.map(|ns| ns as f64 / 1_000_000.0)
}

#[test]
fn dns_status_values_are_csv_safe() {
    assert_eq!(DnsStatus::Success.as_csv_value(), "ok");
    assert_eq!(DnsStatus::Timeout.as_csv_value(), "timeout");
}

#[test]
fn https_status_values_are_csv_safe() {
    assert_eq!(HttpsStatus::Success.as_csv_value(), "ok");
    assert_eq!(HttpsStatus::Timeout.as_csv_value(), "timeout");
}

#[test]
fn ping_and_http_status_values_are_csv_safe() {
    assert_eq!(PingStatus::Success.as_csv_value(), "ok");
    assert_eq!(PingStatus::Timeout.as_csv_value(), "timeout");
    assert_eq!(HttpStatus::Success.as_csv_value(), "ok");
    assert_eq!(HttpStatus::Timeout.as_csv_value(), "timeout");
}

#[test]
fn records_successful_https_result() {
    let result = HttpsResult::ok(24_310_000);

    assert_eq!(result.status, HttpsStatus::Success);
    assert_eq!(millis(result.latency_ns), Some(24.31));
}

#[test]
fn results_from_attempts() {
    assert_eq!(HttpsResult::from_response(false, 5), HttpsResult::timeout());
    assert_eq!(HttpsResult::from_response(true, 5), HttpsResult::ok(5));
    assert_eq!(HttpResult::from_response(true, 7).latency_ns, Some(7));
    assert_eq!(HttpResult::from_response(false, 7).status, HttpStatus::Timeout);
    assert_eq!(DnsResult::from_lookup(Some(true), 9), DnsResult::ok(9));
    assert_eq!(DnsResult::from_lookup(Some(false), 9), DnsResult::timeout());
    assert_eq!(DnsResult::from_lookup(None, 9), DnsResult::timeout());
    assert_eq!(DnsMonitor::new().timeout_ms(), 3000);
    assert_eq!(DNS_HOST, "google.com");
    assert_eq!(HTTPS_GOOGLE_URL, "https://www.google.com");
    assert_eq!(HTTPS_CLOUDFLARE_URL, "https://1.1.1.1");
}

#[test]
fn parses_linux_latency_output() {
    let output = "64 bytes from 1.1.1.1: icmp_seq=1 ttl=57 time=8.21 ms";
    assert_eq!(millis(parse_latency_ms(output)), Some(8.21));
}

#[test]
fn parses_macos_latency_output() {
    let output = "64 bytes from 1.1.1.1: icmp_seq=0 ttl=57 time=8.210 ms";
    assert_eq!(millis(parse_latency_ms(output)), Some(8.210));
}

#[test]
fn returns_none_when_latency_is_missing() {
    assert_eq!(parse_latency_ms("Request timeout for icmp_seq 0"), None);
}

#[test]
fn latency_edge_cases() {
    let line = |s: &str| parse_latency_from_line(&s.chars().collect());
    assert_eq!(line("time= 12 ms"), Some(12_000_000));
    assert_eq!(line("time=0.0456 ms"), Some(45_600));
    assert_eq!(line("time=0.0000005 ms"), Some(0));
    assert_eq!(line("time=. ms"), None);
    assert_eq!(line("time=1.2.3 ms"), None);
    assert_eq!(line("time=ms"), None);
    assert_eq!(line("ttl=57 time=3 time=4"), Some(3_000_000));
    assert_eq!(
        parse_latency_ms("PING 1.1.1.1\n64 bytes: time=\n64 bytes: time=9.5 ms\n"),
        Some(9_500_000)
    );
    assert_eq!(parse_latency_ms("a time=\n5 ms"), None);
}

#[test]
fn ping_results_from_command_outcome() {
    let output = "64 bytes from 1.1.1.1: icmp_seq=1 ttl=57 time=8.21 ms";
    assert_eq!(ping_result_from_output(true, output), PingResult::ok(8_210_000));
    assert_eq!(ping_result_from_output(false, output), PingResult::timeout());
    assert_eq!(
        ping_result_from_output(true, "Request timeout"),
        PingResult {
            latency_ns: None,
            status: PingStatus::Timeout
        }
    );
}

#[test]
fn ping_arguments_per_platform() {
    assert_eq!(
        ping_args("1.1.1.1", Platform::Linux),
        vec!["-c", "1", "-n", "-W", "1", "1.1.1.1"]
    );
    assert_eq!(
        ping_args("1.1.1.1", Platform::MacOs),
        vec!["-c", "1", "-n", "-W", "1000", "1.1.1.1"]
    );
    assert_eq!(ping_args("1.1.1.1", Platform::Other), vec!["-c", "1", "1.1.1.1"]);
}

#[test]
fn accepts_valid_ipv4_addresses() {
    for address in ["192.168.1.1", "192.168.0.1", "10.0.0.1", "172.16.1.254"] {
        assert!(parse_ipv4_address(address).is_ok(), "{address}");
    }
}

#[test]
fn rejects_invalid_ipv4_addresses() {
    for address in [
        "999.999.999.999",
        "abc.def.ghi.jkl",
        "192.168.1",
        "router.local",
    ] {
        assert!(parse_ipv4_address(address).is_err(), "{address}");
    }
}

#[test]
fn ipv4_edge_cases() {
    assert_eq!(
        parse_ipv4_address("255.255.255.255").unwrap(),
        Ipv4Address::new(255, 255, 255, 255)
    );
    assert_eq!(parse_ipv4_address("0.0.0.0").unwrap().octets(), [0, 0, 0, 0]);
    for address in ["01.1.1.1", "256.0.0.1", "1.2.3.4.", "1..2.3", "1.2.3.4.5", " 1.2.3.4", "1234.1.1.1", ""] {
        assert!(parse_ipv4_address(address).is_err(), "{address}");
    }
    assert_eq!(
        parse_ipv4_address("router.local").unwrap_err(),
        "Invalid IPv4 address 'router.local'. Please provide a value like 192.168.1.1."
    );
}

#[test]
fn ipv4_text_round_trip() {
    for address in ["192.168.1.1", "10.0.0.1", "0.0.0.0", "255.255.255.255", "172.16.1.254"] {
        assert_eq!(parse_ipv4_address(address).unwrap().to_text(), address);
    }
    let a = Ipv4Address::new(8, 8, 4, 4);
    assert_eq!(parse_ipv4_address(&a.to_text()).unwrap(), a);
}

#[test]
fn builds_default_router_http_url_from_router_ip() {
    assert_eq!(
        router_http_url(Ipv4Address::new(192, 168, 0, 1)),
        "http://192.168.0.1"
    );
}
