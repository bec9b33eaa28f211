//! Starting the monitor again as a background process: the arguments the
//! child receives.
use vstd::prelude::*;
use vstd::string::*;

use crate::text::{nat_text, push_decimal};
use crate::validation::{ipv4_text, Ipv4Address};

verus! {

/// The environment variable that marks the background child.
pub const BACKGROUND_CHILD_ENV: &'static str = "ROUTER_MONITOR_BACKGROUND_CHILD";

/// The texts of a vector of strings.
pub open spec fn texts(v: Seq<String>) -> Seq<Seq<char>> {
    v.map_values(|s: String| s@)
}

/// The child's arguments: the duration parts as given, both addresses, the
/// output path, the coordinates when a location is known (as text), and
/// `--beep` when asked for.
pub open spec fn spec_background_args(
    duration_parts: Seq<Seq<char>>,
    router_ip: Ipv4Address,
    internet_ip: Ipv4Address,
    output_path: Seq<char>,
    location: Option<(Seq<char>, Seq<char>)>,
    beep: bool,
) -> Seq<Seq<char>> {
    duration_parts + seq![
        "--router-ip"@,
        ipv4_text(router_ip),
        "--internet-ip"@,
        ipv4_text(internet_ip),
        "--output"@,
        output_path,
    ] + match location {
        Some((latitude, longitude)) => seq!["--latitude"@, latitude, "--longitude"@, longitude],
        None => seq![],
    } + if beep {
        seq!["--beep"@]
    } else {
        seq![]
    }
}

/// The child's arguments.
pub fn background_args(
    duration_parts: &Vec<String>,
    router_ip: Ipv4Address,
    internet_ip: Ipv4Address,
    output_path: &str,
    location: Option<(&str, &str)>,
    beep: bool,
) -> (r: Vec<String>)
    ensures
        texts(r@) == spec_background_args(
            texts(duration_parts@),
            router_ip,
            internet_ip,
            output_path@,
            match location {
                Some((a, b)) => Some((a@, b@)),
                None => None,
            },
            beep,
        ),
{
    let mut r: Vec<String> = Vec::new();
    let mut k: usize = 0;
    while k < duration_parts.len()
        invariant
            k <= duration_parts.len(),
            r@.len() == k,
            forall|i: int| 0 <= i < k ==> (#[trigger] r@[i])@ == duration_parts@[i]@,
        decreases duration_parts.len() - k,
    {
        let part = duration_parts[k].as_str().to_owned();
        r.push(part);
        k = k + 1;
    }
    assert(texts(r@) =~= texts(duration_parts@));
    let ghost head = texts(r@);
    r.push("--router-ip".to_owned());
    r.push(router_ip.to_text());
    r.push("--internet-ip".to_owned());
    r.push(internet_ip.to_text());
    r.push("--output".to_owned());
    r.push(output_path.to_owned());
    match location {
        Some((latitude, longitude)) => {
            r.push("--latitude".to_owned());
            r.push(latitude.to_owned());
            r.push("--longitude".to_owned());
            r.push(longitude.to_owned());
        },
        None => {},
    }
    if beep {
        r.push("--beep".to_owned());
    }
    assert(texts(r@) =~= spec_background_args(
        texts(duration_parts@),
        router_ip,
        internet_ip,
        output_path@,
        match location {
            Some((a, b)) => Some((a@, b@)),
            None => None,
        },
        beep,
    ));
    r
}

/// What the monitor shows once the background process `pid` is started.
pub open spec fn spec_background_started_text(
    pid: nat,
    finish_time: Seq<char>,
    output_path: Seq<char>,
    event_log_path: Seq<char>,
) -> Seq<char> {
    "Monitoring started in background\nProcess ID: "@ + nat_text(pid) + "\nWill finish at: "@
        + finish_time + "\nOutput file: "@ + output_path + "\nEvent log: "@ + event_log_path
        + "\n"@
}

/// What the monitor shows once the background process `pid` is started.
pub fn background_started_text(
    pid: u32,
    finish_time: &str,
    output_path: &str,
    event_log_path: &str,
) -> (text: String)
    ensures
        text@ == spec_background_started_text(
            pid as nat,
            finish_time@,
            output_path@,
            event_log_path@,
        ),
{
    let mut text = "Monitoring started in background\nProcess ID: ".to_owned();
    push_decimal(&mut text, pid as u64);
    text.append("\nWill finish at: ");
    text.append(finish_time);
    text.append("\nOutput file: ");
    text.append(output_path);
    text.append("\nEvent log: ");
    text.append(event_log_path);
    text.append("\n");
    text
}

/// The child receives every duration part, as given and in order, first;
/// then the two addresses, the output path, the coordinates when a location
/// is known and `--beep` when asked for; nothing else.
pub proof fn law_child_gets_every_part(
    duration_parts: Seq<Seq<char>>,
    router_ip: Ipv4Address,
    internet_ip: Ipv4Address,
    output_path: Seq<char>,
    location: Option<(Seq<char>, Seq<char>)>,
    beep: bool,
)
    ensures
        ({
            let a = spec_background_args(
                duration_parts,
                router_ip,
                internet_ip,
                output_path,
                location,
                beep,
            );
            let n = duration_parts.len() as int;
            &&& a.len() == n + 6 + (if location is Some { 4int } else { 0int }) + (if beep {
                1int
            } else {
                0int
            })
            &&& a.take(n) == duration_parts
            &&& forall|i: int| 0 <= i < n ==> #[trigger] a[i] == duration_parts[i]
            &&& a[n] == "--router-ip"@ && a[n + 1] == ipv4_text(router_ip)
            &&& a[n + 2] == "--internet-ip"@ && a[n + 3] == ipv4_text(internet_ip)
            &&& a[n + 4] == "--output"@ && a[n + 5] == output_path
        }),
{
    let a = spec_background_args(duration_parts, router_ip, internet_ip, output_path, location, beep);
    let n = duration_parts.len() as int;
    assert(a.take(n) =~= duration_parts);
}

} // verus!
