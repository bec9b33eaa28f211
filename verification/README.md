# router-monitor

`router-monitor` samples a home router, its web interface, DNS, HTTPS and
an Internet host once per second and writes the measurements to a CSV file,
with a sidecar event log of connectivity timeouts and heat conditions.

## Layout

- `src/` is the library, written in Verus. Verus proves the contract of
  every function in it except two small trusted wrappers, whose contracts
  are taken as given: `push_char` (around `String::push`) and
  `encode_csv_record` (around the `csv` crate's writer). The modules:
  - `duration`, `decimal`: monitoring durations such as `4m 20s`, read
    exactly into nanoseconds;
  - `validation`: IPv4 addresses;
  - `ping`: the latency a `ping` run reports and the arguments it takes;
  - `dns_monitor`, `http_monitor`, `https_monitor`: check results;
  - `csv_writer`: the CSV header and rows (encoded by the `csv` crate);
  - `event_log`: event log entries and the sidecar path;
  - `environment_monitor`: when weather readings are refreshed, location
    labels;
  - `monitor`: which events a sample brings, the progress line and the
    startup summary;
  - `cli`: the output path, `~` expansion, the default file name;
  - `background`: the arguments of the background process;
  - `text`, `errors`: text helpers and error messages.
- `app/` is the program around it: argument parsing, the network checks,
  weather and geolocation requests, the files, and the monitoring loop.
- `tests/` runs the library on concrete values.
