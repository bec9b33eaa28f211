use router_monitor::background::{background_args, background_started_text};
use router_monitor::cli::{
    default_output_filename, ends_with_path_separator, expand_tilde, join_path,
    resolve_output_path, should_treat_as_directory, OutputTarget,
};
use router_monitor::csv_writer::{
    csv_header, header_record, latency_field, sample_fields, sample_record, status_field,
    CsvSample,
};
use router_monitor::dns_monitor::DnsResult;
use router_monitor::environment_monitor::{
    cached_static_text, field_text, location_label, place_text, EnvironmentText,
    RaspberryPiTemperatureSensor, RefreshSchedule, RASPBERRY_PI_THERMAL_PATH,
    REFRESH_INTERVAL_NANOS,
};
use router_monitor::event_log::{
    connectivity_event_text, environment_lines, event_log_path, high_heat_event_text,
    path_has_extension, with_extension,
};
use router_monitor::http_monitor::HttpResult;
use router_monitor::https_monitor::HttpsResult;
use router_monitor::monitor::{
    check_status_text, percent_text, progress_line, spinner, startup_text, ConnectivityTracker,
    SampleStatuses,
};
use router_monitor::ping::{PingResult, PingStatus};
use router_monitor::validation::Ipv4Address;

fn text(value: &str) -> Option<String> {
    Some(value.to_string())
}

fn environment() -> EnvironmentText {
    EnvironmentText {
        outside_temperature_c: text("32.1"),
        outside_relative_humidity: text("71"),
        outside_apparent_temperature_c: text("38.5"),
        raspberry_pi_temperature_c: text("54.2"),
    }
}

fn no_environment() -> EnvironmentText {
    EnvironmentText {
        outside_temperature_c: None,
        outside_relative_humidity: None,
        outside_apparent_temperature_c: None,
        raspberry_pi_temperature_c: None,
    }
}

fn healthy_sample(timestamp: &str) -> CsvSample {
    CsvSample {
        timestamp: timestamp.to_string(),
        router: PingResult::ok(1_234_000),
        internet: PingResult::ok(8_214_000),
        router_http: HttpResult::ok(3_000_000),
        dns_lookup: DnsResult::ok(15_555_000),
        https_google: HttpsResult::ok(24_310_000),
        https_cloudflare: HttpsResult::ok(10_000),
        environment: environment(),
    }
}

// --- CSV -------------------------------------------------------------------

#[test]
fn formats_failed_latency_as_empty_string() {
    assert_eq!(latency_field(None), "");
}

#[test]
fn formats_successful_latency_as_numeric_text() {
    assert_eq!(latency_field(Some(8_214_000)), "8.21");
}

#[test]
fn latency_cells_round_half_to_even() {
    assert_eq!(latency_field(Some(0)), "0.00");
    assert_eq!(latency_field(Some(8_215_000)), "8.22");
    assert_eq!(latency_field(Some(8_225_000)), "8.22");
    assert_eq!(latency_field(Some(8_225_001)), "8.23");
    assert_eq!(latency_field(Some(1_500_000_000)), "1500.00");
    assert_eq!(latency_field(Some(4_999)), "0.00");
    assert_eq!(latency_field(Some(5_001)), "0.01");
    assert_eq!(latency_field(Some(12_365_000)), "12.36");
    assert_eq!(latency_field(Some(12_375_000)), "12.38");
}

#[test]
fn status_cells() {
    assert_eq!(status_field(PingStatus::Success), "ok");
    assert_eq!(status_field(PingStatus::Timeout), "timeout");
}

#[test]
fn header_lists_the_documented_columns() {
    assert_eq!(
        csv_header().join(","),
        "timestamp,script_version,router_ms,internet_ms,router_http_ms,dns_lookup_ms,\
https_google_ms,https_cloudflare_ms,outside_temperature_c,outside_relative_humidity,\
outside_apparent_temperature_c,router_status,internet_status,router_http_status,dns_status,\
https_google_status,https_cloudflare_status"
    );
    assert_eq!(
        String::from_utf8(header_record().unwrap()).unwrap(),
        format!("{}\n", csv_header().join(","))
    );
}

#[test]
fn sample_row_has_one_cell_per_column() {
    let sample = healthy_sample("2026-06-13 20:15:41");
    let fields = sample_fields(&sample, "0.1.0");
    assert_eq!(fields.len(), csv_header().len());
    assert_eq!(
        fields,
        vec![
            "2026-06-13 20:15:41",
            "0.1.0",
            "1.23",
            "8.21",
            "3.00",
            "15.56",
            "24.31",
            "0.01",
            "32.1",
            "71",
            "38.5",
            "ok",
            "ok",
            "ok",
            "ok",
            "ok",
            "ok",
        ]
    );
}

#[test]
fn failed_checks_leave_empty_cells() {
    let sample = CsvSample {
        timestamp: "t".to_string(),
        router: PingResult::timeout(),
        internet: PingResult::ok(8_214_000),
        router_http: HttpResult::timeout(),
        dns_lookup: DnsResult::timeout(),
        https_google: HttpsResult::timeout(),
        https_cloudflare: HttpsResult::timeout(),
        environment: no_environment(),
    };
    assert_eq!(
        String::from_utf8(sample_record(&sample, "1.0").unwrap()).unwrap(),
        "t,1.0,,8.21,,,,,,,,timeout,ok,timeout,timeout,timeout,timeout\n"
    );
}

#[test]
fn csv_record_quotes_cells_that_need_it() {
    let mut sample = healthy_sample("2026-06-13, 20:15:41");
    sample.environment = no_environment();
    let record = String::from_utf8(sample_record(&sample, "0.1.0").unwrap()).unwrap();
    assert!(record.starts_with("\"2026-06-13, 20:15:41\",0.1.0,1.23,"));
    assert!(record.ends_with(",ok\n"));
}

// --- Event log -------------------------------------------------------------

#[test]
fn builds_sidecar_event_log_path() {
    assert_eq!(event_log_path("router.csv"), "router.events.log");
}

#[test]
fn event_log_path_edge_cases() {
    assert_eq!(event_log_path("/tmp/out/router.csv"), "/tmp/out/router.events.log");
    assert_eq!(event_log_path("router"), "router.events.log");
    assert_eq!(event_log_path("a.b.csv"), "a.b.events.log");
    assert_eq!(event_log_path(".hidden"), ".hidden.events.log");
    assert_eq!(event_log_path("dir/"), "dir.events.log");
    assert_eq!(event_log_path("/"), "/");
    assert_eq!(event_log_path(""), "");
    assert_eq!(event_log_path("dir/.."), "dir/..");
    assert_eq!(with_extension("notes.txt", "md"), "notes.md");
    assert!(path_has_extension("router.csv"));
    assert!(!path_has_extension("router"));
    assert!(!path_has_extension(".profile"));
}

#[test]
fn writes_environment_values_with_connectivity_events() {
    assert_eq!(
        connectivity_event_text("2026-06-13 20:15:41", "TCP disconnect detected", &environment()),
        "2026-06-13 20:15:41 TCP disconnect detected\nTemperature: 32.1C\nHumidity: 71%\nApparent temperature: 38.5C\nRaspberry Pi temperature: 54.2C\n"
    );
}

#[test]
fn unavailable_readings_are_named() {
    assert_eq!(
        environment_lines(&no_environment()),
        "Temperature: unavailable\nHumidity: unavailable\nApparent temperature: unavailable\n"
    );
}

#[test]
fn high_heat_entry() {
    assert_eq!(
        high_heat_event_text("2026-06-13 20:15:41", &environment()),
        "2026-06-13 20:15:41 HIGH_HEAT_CONDITIONS temperature=32.1 humidity=71 apparent=38.5\n"
    );
    assert_eq!(
        high_heat_event_text("t", &no_environment()),
        "t HIGH_HEAT_CONDITIONS temperature= humidity= apparent=\n"
    );
}

// --- Output path -----------------------------------------------------------

#[test]
fn explicit_csv_output_remains_a_file_path() {
    let path = "router.csv";

    assert_eq!(
        resolve_output_path(path, false, "router-monitor-20260613-193000.csv"),
        OutputTarget::File(path.to_string())
    );
}

#[test]
fn directories_receive_the_default_file_name() {
    let file = default_output_filename("20260613-193000");
    assert_eq!(file, "router-monitor-20260613-193000.csv");
    assert_eq!(
        resolve_output_path("existing-output-dir", false, &file),
        OutputTarget::Directory {
            dir: "existing-output-dir".to_string(),
            file: "existing-output-dir/router-monitor-20260613-193000.csv".to_string(),
        }
    );
    assert_eq!(
        resolve_output_path("out/", false, &file),
        OutputTarget::Directory {
            dir: "out/".to_string(),
            file: "out/router-monitor-20260613-193000.csv".to_string(),
        }
    );
    assert_eq!(
        resolve_output_path("data.d", true, &file),
        OutputTarget::Directory {
            dir: "data.d".to_string(),
            file: "data.d/router-monitor-20260613-193000.csv".to_string(),
        }
    );
}

#[test]
fn directory_rules() {
    assert!(should_treat_as_directory("logs", false));
    assert!(should_treat_as_directory("logs.csv/", false));
    assert!(should_treat_as_directory("logs.csv\\", false));
    assert!(should_treat_as_directory("logs.csv", true));
    assert!(!should_treat_as_directory("logs.csv", false));
    assert!(ends_with_path_separator("a/"));
    assert!(ends_with_path_separator("a\\"));
    assert!(!ends_with_path_separator("a"));
    assert!(!ends_with_path_separator(""));
}

#[test]
fn joins_paths_like_path_push() {
    assert_eq!(join_path("/home/me", "out.csv"), "/home/me/out.csv");
    assert_eq!(join_path("/home/me/", "out.csv"), "/home/me/out.csv");
    assert_eq!(join_path("", "out.csv"), "out.csv");
    assert_eq!(join_path("/home/me", "/abs.csv"), "/abs.csv");
}

#[test]
fn expands_home_directory() {
    assert_eq!(expand_tilde("~", Some("/home/me")), Ok("/home/me".to_string()));
    assert_eq!(
        expand_tilde("~/logs/out.csv", Some("/home/me")),
        Ok("/home/me/logs/out.csv".to_string())
    );
    assert_eq!(expand_tilde("~other/x", Some("/home/me")), Ok("~other/x".to_string()));
    assert_eq!(expand_tilde("logs/out.csv", None), Ok("logs/out.csv".to_string()));
    assert_eq!(
        expand_tilde("~/x", None),
        Err("Cannot expand '~' because the HOME environment variable is not set.".to_string())
    );
}

// --- Monitoring decisions --------------------------------------------------

#[test]
fn reports_a_timeout_when_it_starts() {
    let mut tracker = ConnectivityTracker::new();
    let mut sample = healthy_sample("t1");
    sample.environment = no_environment();
    assert_eq!(tracker.record_sample(&sample, false), "");

    sample.timestamp = "t2".to_string();
    sample.router = PingResult::timeout();
    sample.dns_lookup = DnsResult::timeout();
    let expected_env = "Temperature: unavailable\nHumidity: unavailable\nApparent temperature: unavailable\n";
    assert_eq!(
        tracker.record_sample(&sample, false),
        format!(
            "t2 ROUTER_PING_TIMEOUT detected\n{expected_env}t2 DNS_LOOKUP_TIMEOUT detected\n{expected_env}"
        )
    );

    sample.timestamp = "t3".to_string();
    assert_eq!(tracker.record_sample(&sample, false), "");

    sample.router = PingResult::ok(1);
    assert_eq!(tracker.record_sample(&sample, false), "");
    sample.router = PingResult::timeout();
    sample.timestamp = "t5".to_string();
    assert_eq!(
        tracker.record_sample(&sample, false),
        format!("t5 ROUTER_PING_TIMEOUT detected\n{expected_env}")
    );
}

#[test]
fn first_sample_compares_with_all_reachable() {
    let mut tracker = ConnectivityTracker::new();
    let statuses = SampleStatuses {
        router_timeout: false,
        internet_timeout: true,
        router_http_timeout: false,
        dns_timeout: false,
        https_google_timeout: true,
        https_cloudflare_timeout: true,
    };
    assert_eq!(
        tracker.new_timeouts(statuses),
        vec![
            "INTERNET_PING_TIMEOUT detected",
            "HTTPS_GOOGLE_TIMEOUT detected",
            "HTTPS_CLOUDFLARE_TIMEOUT detected",
        ]
    );
    assert_eq!(tracker.previous, Some(statuses));
    assert!(tracker.new_timeouts(statuses).is_empty());
}

#[test]
fn heat_alert_comes_before_connectivity_events() {
    let mut tracker = ConnectivityTracker::new();
    let mut sample = healthy_sample("t");
    sample.https_google = HttpsResult::timeout();
    let text = tracker.record_sample(&sample, true);
    assert!(text.starts_with("t HIGH_HEAT_CONDITIONS temperature=32.1 humidity=71 apparent=38.5\nt HTTPS_GOOGLE_TIMEOUT detected\nTemperature: 32.1C\n"));
}

#[test]
fn progress_line_pieces() {
    assert_eq!(spinner(0), "|");
    assert_eq!(spinner(1), "/");
    assert_eq!(spinner(2), "-");
    assert_eq!(spinner(3), "\\");
    assert_eq!(spinner(6), "-");
    assert_eq!(percent_text(1, 3), " 33.3");
    assert_eq!(percent_text(2, 3), " 66.7");
    assert_eq!(percent_text(3, 3), "100.0");
    assert_eq!(percent_text(7, 3), "100.0");
    assert_eq!(percent_text(0, 3), "  0.0");
    assert_eq!(percent_text(1, 16), "  6.2");
    assert_eq!(percent_text(3, 16), " 18.8");
    assert_eq!(percent_text(1, 2000), "  0.0");
    assert_eq!(percent_text(3, 2000), "  0.2");
    assert_eq!(check_status_text(Some(8_214_000)), "ok (8.21 ms)");
    assert_eq!(check_status_text(None), "timeout");
}

#[test]
fn progress_line_text() {
    let mut sample = healthy_sample("t");
    sample.internet = PingResult::timeout();
    assert_eq!(
        progress_line(1, 4, "2026-06-13 20:20:41", &sample, false),
        "\r\x1b[2K/ Monitoring...  25.0% (1/4) | finishes at 2026-06-13 20:20:41"
    );
    sample.environment.outside_relative_humidity = None;
    assert_eq!(
        progress_line(4, 4, "F", &sample, true),
        "\r\x1b[2K| Monitoring... 100.0% (4/4) | finishes at F | router=ok (1.23 ms) internet=timeout router_http=ok (3.00 ms) dns=ok (15.56 ms) https_google=ok (24.31 ms) https_cloudflare=ok (0.01 ms) weather=temp:32.1C humidity:unavailable apparent:38.5C"
    );
}

// --- Environment -----------------------------------------------------------

#[test]
fn caches_environment_reading_until_refresh_interval() {
    let mut schedule = RefreshSchedule::new();
    let started_at: u64 = 1_000;

    let first = schedule.begin_sample(started_at);
    let cached = schedule.begin_sample(started_at + 60_000_000_000);
    let refreshed = schedule.begin_sample(started_at + REFRESH_INTERVAL_NANOS);

    assert!(first);
    assert!(!cached);
    assert!(refreshed);
    assert_eq!(schedule.last_refresh, Some(started_at + REFRESH_INTERVAL_NANOS));
    assert!(!schedule.should_refresh(started_at + REFRESH_INTERVAL_NANOS + 1));
}

#[test]
fn displays_city_level_location_label() {
    assert_eq!(
        location_label(
            Some("Milan"),
            Some("Lombardy"),
            Some("Italy"),
            "45.4840",
            "9.2040",
            "ipapi.co",
            "city-level"
        ),
        "Milan, Lombardy, Italy (45.4840, 9.2040; ipapi.co, city-level)"
    );
}

#[test]
fn location_label_without_place_names() {
    assert_eq!(
        location_label(None, None, None, "45.4840", "9.2040", "manual", "manual"),
        "45.4840, 9.2040 (manual, manual)"
    );
    assert_eq!(place_text(None, Some("Lombardy"), Some("Italy")), "Lombardy, Italy");
    assert_eq!(place_text(Some("Milan"), None, None), "Milan");
}

#[test]
fn cached_labels_are_kept_only_when_known() {
    assert_eq!(cached_static_text(Some("ipapi.co"), "manual"), "ipapi.co");
    assert_eq!(cached_static_text(Some("ipwho.is"), "manual"), "ipwho.is");
    assert_eq!(cached_static_text(Some("city-level"), "manual"), "city-level");
    assert_eq!(cached_static_text(Some("elsewhere"), "manual"), "manual");
    assert_eq!(cached_static_text(None, "city-level"), "city-level");
}

#[test]
fn formats_environment_fields_for_csv() {
    assert_eq!(field_text(&text("31.4")), "31.4");
    assert_eq!(field_text(&text("68")), "68");
    assert_eq!(field_text(&None), "");
}

#[test]
fn raspberry_pi_sensor_path() {
    assert_eq!(
        RaspberryPiTemperatureSensor::default().path(),
        "/sys/class/thermal/thermal_zone0/temp"
    );
    assert_eq!(RASPBERRY_PI_THERMAL_PATH, "/sys/class/thermal/thermal_zone0/temp");
    assert_eq!(RaspberryPiTemperatureSensor::new("/tmp/t").path(), "/tmp/t");
}

// --- Background child --------------------------------------------------------

#[test]
fn background_child_arguments() {
    let parts = vec!["4m".to_string(), "20s".to_string()];
    assert_eq!(
        background_args(
            &parts,
            Ipv4Address::new(192, 168, 0, 1),
            Ipv4Address::new(8, 8, 8, 8),
            "/tmp/router.csv",
            Some(("45.484", "9.204")),
            true
        ),
        vec![
            "4m",
            "20s",
            "--router-ip",
            "192.168.0.1",
            "--internet-ip",
            "8.8.8.8",
            "--output",
            "/tmp/router.csv",
            "--latitude",
            "45.484",
            "--longitude",
            "9.204",
            "--beep",
        ]
    );
    assert_eq!(
        background_args(
            &parts,
            Ipv4Address::new(1, 1, 1, 1),
            Ipv4Address::new(1, 0, 0, 1),
            "o.csv",
            None,
            false
        ),
        vec!["4m", "20s", "--router-ip", "1.1.1.1", "--internet-ip", "1.0.0.1", "--output", "o.csv"]
    );
}

#[test]
fn background_start_message() {
    assert_eq!(
        background_started_text(4242, "2026-06-13 20:20:41", "router.csv", "router.events.log"),
        "Monitoring started in background\nProcess ID: 4242\nWill finish at: 2026-06-13 20:20:41\nOutput file: router.csv\nEvent log: router.events.log\n"
    );
}

#[test]
fn startup_summary() {
    assert_eq!(
        startup_text(
            Ipv4Address::new(192, 168, 1, 1),
            Ipv4Address::new(1, 1, 1, 1),
            Some("Milan, Lombardy, Italy (45.4840, 9.2040; ipapi.co, city-level)"),
            "4m 20s",
            260,
            "2026-06-13 20:20:41",
            "router.csv",
            "router.events.log",
        ),
        "Monitoring started\n\
Router IP: 192.168.1.1\n\
Internet IP: 1.1.1.1\n\
Router HTTP: http://192.168.1.1\n\
DNS Lookup: google.com\n\
HTTPS Google: https://www.google.com\n\
HTTPS Cloudflare: https://1.1.1.1\n\
Weather: enabled (Milan, Lombardy, Italy (45.4840, 9.2040; ipapi.co, city-level))\n\
Duration: 4m 20s\n\
Samples: 260\n\
Will finish at: 2026-06-13 20:20:41\n\
Output file: router.csv\n\
Event log: router.events.log\n"
    );
    assert!(startup_text(
        Ipv4Address::new(192, 168, 1, 1),
        Ipv4Address::new(1, 1, 1, 1),
        None,
        "15",
        15,
        "F",
        "o.csv",
        "o.events.log",
    )
    .contains("\nWeather: disabled (location unavailable)\nDuration: 15\nSamples: 15\n"));
}
