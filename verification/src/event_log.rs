//! The event log: the texts it records and where it is written.
use vstd::prelude::*;
use vstd::string::*;

use crate::environment_monitor::{text_or_empty, EnvironmentText};
use crate::text::{chars_of, copy_range, push_char, string_from_chars};

verus! {

/// A reading followed by its unit, or `unavailable`.
pub open spec fn reading_or_unavailable(value: Option<String>, unit: Seq<char>) -> Seq<char> {
    match value {
        Some(t) => t@ + unit,
        None => "unavailable"@,
    }
}

/// The environment lines written under a connectivity event.
pub open spec fn spec_environment_lines(env: EnvironmentText) -> Seq<char> {
    "Temperature: "@ + reading_or_unavailable(env.outside_temperature_c, "C"@) + "\n"@
        + "Humidity: "@ + reading_or_unavailable(env.outside_relative_humidity, "%"@) + "\n"@
        + "Apparent temperature: "@ + reading_or_unavailable(
        env.outside_apparent_temperature_c,
        "C"@,
    ) + "\n"@ + match env.raspberry_pi_temperature_c {
        Some(t) => "Raspberry Pi temperature: "@ + t@ + "C\n"@,
        None => seq![],
    }
}

/// The entry for a connectivity event: a line with the time and the event,
/// then the environment lines.
pub open spec fn spec_connectivity_event(
    timestamp: Seq<char>,
    event: Seq<char>,
    env: EnvironmentText,
) -> Seq<char> {
    timestamp + " "@ + event + "\n"@ + spec_environment_lines(env)
}

/// The entry for high heat conditions.
pub open spec fn spec_high_heat_event(timestamp: Seq<char>, env: EnvironmentText) -> Seq<char> {
    timestamp + " HIGH_HEAT_CONDITIONS temperature="@ + text_or_empty(env.outside_temperature_c)
        + " humidity="@ + text_or_empty(env.outside_relative_humidity) + " apparent="@
        + text_or_empty(env.outside_apparent_temperature_c) + "\n"@
}

fn append_reading(s: &mut String, value: &Option<String>, unit: &str)
    ensures
        final(s)@ == old(s)@ + reading_or_unavailable(*value, unit@),
{
    match value {
        Some(t) => {
            s.append(t.as_str());
            s.append(unit);
        },
        None => {
            s.append("unavailable");
        },
    }
}

/// The environment lines written under a connectivity event.
pub fn environment_lines(env: &EnvironmentText) -> (s: String)
    ensures
        s@ == spec_environment_lines(*env),
{
    let mut s = "Temperature: ".to_owned();
    append_reading(&mut s, &env.outside_temperature_c, "C");
    s.append("\n");
    s.append("Humidity: ");
    append_reading(&mut s, &env.outside_relative_humidity, "%");
    s.append("\n");
    s.append("Apparent temperature: ");
    append_reading(&mut s, &env.outside_apparent_temperature_c, "C");
    s.append("\n");
    match &env.raspberry_pi_temperature_c {
        Some(t) => {
            s.append("Raspberry Pi temperature: ");
            s.append(t.as_str());
            s.append("C\n");
        },
        None => {},
    }
    assert(s@ =~= spec_environment_lines(*env));
    s
}

/// The entry for a connectivity event.
pub fn connectivity_event_text(timestamp: &str, event: &str, env: &EnvironmentText) -> (s: String)
    ensures
        s@ == spec_connectivity_event(timestamp@, event@, *env),
{
    let mut s = timestamp.to_owned();
    s.append(" ");
    s.append(event);
    s.append("\n");
    let lines = environment_lines(env);
    s.append(lines.as_str());
    assert(s@ =~= spec_connectivity_event(timestamp@, event@, *env));
    s
}

/// The entry for high heat conditions.
pub fn high_heat_event_text(timestamp: &str, env: &EnvironmentText) -> (s: String)
    ensures
        s@ == spec_high_heat_event(timestamp@, *env),
{
    let mut s = timestamp.to_owned();
    s.append(" HIGH_HEAT_CONDITIONS temperature=");
    match &env.outside_temperature_c {
        Some(t) => s.append(t.as_str()),
        None => {},
    }
    s.append(" humidity=");
    match &env.outside_relative_humidity {
        Some(t) => s.append(t.as_str()),
        None => {},
    }
    s.append(" apparent=");
    match &env.outside_apparent_temperature_c {
        Some(t) => s.append(t.as_str()),
        None => {},
    }
    s.append("\n");
    assert(s@ =~= spec_high_heat_event(timestamp@, *env));
    s
}

// ---------------------------------------------------------------------------
// The sidecar path (`Path::with_extension("events.log")` on a Unix path).
// ---------------------------------------------------------------------------

/// Where the last component of a path ends once trailing `/` and trailing
/// `.` components are set aside (a lone `/` is kept).
pub open spec fn path_name_end(s: Seq<char>) -> nat
    decreases s.len(),
{
    if s.len() > 1 && s.last() == '/' {
        path_name_end(s.drop_last())
    } else if s.len() >= 2 && s.last() == '.' && s[s.len() - 2] == '/' {
        path_name_end(s.drop_last())
    } else {
        s.len()
    }
}

/// The index of the last `c` in `s`, or -1.
pub open spec fn last_index_of(s: Seq<char>, c: char) -> int
    decreases s.len(),
{
    if s.len() == 0 {
        -1
    } else if s.last() == c {
        s.len() - 1
    } else {
        last_index_of(s.drop_last(), c)
    }
}

/// Where the last component of a path starts.
pub open spec fn path_name_start(s: Seq<char>) -> int {
    last_index_of(s.subrange(0, path_name_end(s) as int), '/') + 1
}

/// The last component of a path, as `Path::file_name` gives it.
pub open spec fn path_file_name(s: Seq<char>) -> Option<Seq<char>> {
    let name = s.subrange(path_name_start(s), path_name_end(s) as int);
    if name.len() == 0 || name == "."@ || name == ".."@ {
        None
    } else {
        Some(name)
    }
}

/// The length of a file name's stem: up to its last dot, unless that dot
/// is its first character.
pub open spec fn stem_len(name: Seq<char>) -> int {
    if last_index_of(name, '.') > 0 {
        last_index_of(name, '.')
    } else {
        name.len() as int
    }
}

/// The path with its extension replaced by `ext`, as
/// `Path::with_extension` gives it: the text up to the end of the file
/// stem, a dot and `ext`. A path without a file name is left as it is.
pub open spec fn spec_with_extension(s: Seq<char>, ext: Seq<char>) -> Seq<char> {
    match path_file_name(s) {
        None => s,
        Some(name) => s.subrange(0, path_name_start(s) + stem_len(name)) + seq!['.'] + ext,
    }
}

/// The event log's path for a CSV path: the same path with the extension
/// `events.log` (`router.csv` gives `router.events.log`).
pub open spec fn spec_event_log_path(csv_path: Seq<char>) -> Seq<char> {
    spec_with_extension(csv_path, "events.log"@)
}

fn last_index(v: &Vec<char>, end: usize, c: char) -> (r: Option<usize>)
    requires
        end <= v.len(),
    ensures
        match r {
            Some(i) => i < end && last_index_of(v@.subrange(0, end as int), c) == i,
            None => last_index_of(v@.subrange(0, end as int), c) == -1,
        },
{
    let mut j = end;
    while j > 0
        invariant
            j <= end <= v.len(),
            last_index_of(v@.subrange(0, end as int), c) == last_index_of(
                v@.subrange(0, j as int),
                c,
            ),
        decreases j,
    {
        assert(v@.subrange(0, j as int).drop_last() =~= v@.subrange(0, j - 1));
        if v[j - 1] == c {
            return Some(j - 1);
        }
        j = j - 1;
    }
    None
}

fn is_dot_name(v: &Vec<char>, start: usize, end: usize) -> (b: bool)
    requires
        start <= end <= v.len(),
    ensures
        b == (v@.subrange(start as int, end as int) == "."@ || v@.subrange(start as int, end as int)
            == ".."@),
{
    proof {
        reveal_strlit(".");
        reveal_strlit("..");
    }
    let len = end - start;
    if len == 1 && v[start] == '.' {
        assert(v@.subrange(start as int, end as int) =~= "."@);
        true
    } else if len == 2 && v[start] == '.' && v[start + 1] == '.' {
        assert(v@.subrange(start as int, end as int) =~= ".."@);
        true
    } else {
        proof {
            let name = v@.subrange(start as int, end as int);
            if name == "."@ {
                assert(name[0] == v@[start as int]);
            }
            if name == ".."@ {
                assert(name[0] == v@[start as int]);
                assert(name[1] == v@[start + 1]);
            }
        }
        false
    }
}

/// Where the last component of the path `v` lies, if it has one
/// (`Path::file_name`).
pub fn file_name_range(v: &Vec<char>) -> (r: Option<(usize, usize)>)
    ensures
        match r {
            Some((start, end)) => start <= end <= v.len() && path_file_name(v@) == Some(
                v@.subrange(start as int, end as int),
            ) && start == path_name_start(v@) && end == path_name_end(v@),
            None => path_file_name(v@) is None,
        },
{
    let mut end = v.len();
    assert(v@.subrange(0, end as int) =~= v@);
    while (end > 1 && v[end - 1] == '/') || (end >= 2 && v[end - 1] == '.' && v[end - 2] == '/')
        invariant
            end <= v.len(),
            path_name_end(v@) == path_name_end(v@.subrange(0, end as int)),
        decreases end,
    {
        assert(v@.subrange(0, end as int).drop_last() =~= v@.subrange(0, end - 1));
        end = end - 1;
    }
    assert(path_name_end(v@) == end) by {
        assert(v@.subrange(0, end as int).len() == end);
    }
    let start = match last_index(v, end, '/') {
        Some(i) => i + 1,
        None => 0,
    };
    assert(start == path_name_start(v@));
    if start == end || is_dot_name(v, start, end) {
        return None;
    }
    Some((start, end))
}

/// The length of the stem of the file name `name`.
fn stem_length(name: &Vec<char>) -> (r: usize)
    ensures
        r == stem_len(name@),
        r <= name.len(),
{
    assert(name@.subrange(0, name.len() as int) =~= name@);
    match last_index(name, name.len(), '.') {
        Some(j) => {
            if j > 0 {
                j
            } else {
                name.len()
            }
        },
        None => name.len(),
    }
}

/// The path with its extension replaced by `ext` (`Path::with_extension`).
pub fn with_extension(path: &str, ext: &str) -> (r: String)
    ensures
        r@ == spec_with_extension(path@, ext@),
{
    let v = chars_of(path);
    match file_name_range(&v) {
        None => string_from_chars(&v),
        Some((start, end)) => {
            let name = copy_range(&v, start, end);
            let stem = stem_length(&name);
            let head = copy_range(&v, 0, start + stem);
            let mut r = string_from_chars(&head);
            push_char(&mut r, '.');
            r.append(ext);
            assert(r@ =~= spec_with_extension(path@, ext@));
            r
        },
    }
}

/// The event log's path for a CSV path.
pub fn event_log_path(csv_path: &str) -> (r: String)
    ensures
        r@ == spec_event_log_path(csv_path@),
{
    with_extension(csv_path, "events.log")
}

/// Whether the path's file name has an extension (`Path::extension`):
/// a dot in it after its first character.
pub open spec fn has_extension(s: Seq<char>) -> bool {
    match path_file_name(s) {
        None => false,
        Some(name) => last_index_of(name, '.') > 0,
    }
}

/// Whether the path's file name has an extension.
pub fn path_has_extension(path: &str) -> (b: bool)
    ensures
        b == has_extension(path@),
{
    let v = chars_of(path);
    match file_name_range(&v) {
        None => false,
        Some((start, end)) => {
            let name = copy_range(&v, start, end);
            assert(name@.subrange(0, name.len() as int) =~= name@);
            match last_index(&name, name.len(), '.') {
                Some(j) => j > 0,
                None => false,
            }
        },
    }
}

// ---------------------------------------------------------------------------
// Laws.
// ---------------------------------------------------------------------------

proof fn lemma_last_index_bounds(s: Seq<char>, c: char)
    ensures
        -1 <= last_index_of(s, c) < s.len(),
    decreases s.len(),
{
    if s.len() > 0 {
        lemma_last_index_bounds(s.drop_last(), c);
    }
}

proof fn lemma_name_end_bound(s: Seq<char>)
    ensures
        path_name_end(s) <= s.len(),
    decreases s.len(),
{
    if s.len() > 0 {
        lemma_name_end_bound(s.drop_last());
    }
}

/// The event log sits next to the CSV file: its path keeps the CSV path's
/// directory part and ends in `.events.log`.
pub proof fn law_event_log_next_to_csv(s: Seq<char>)
    requires
        path_file_name(s) is Some,
    ensures
        ({
            let r = spec_event_log_path(s);
            let dir = path_name_start(s);
            &&& 0 <= dir <= s.len()
            &&& r.len() >= dir + ".events.log"@.len()
            &&& r.subrange(0, dir) == s.subrange(0, dir)
            &&& r.subrange(r.len() - ".events.log"@.len(), r.len() as int) == ".events.log"@
        }),
{
    reveal_strlit("events.log");
    reveal_strlit(".events.log");
    let end = path_name_end(s);
    lemma_name_end_bound(s);
    lemma_last_index_bounds(s.subrange(0, end as int), '/');
    let start = path_name_start(s);
    let name = s.subrange(start, end as int);
    lemma_last_index_bounds(name, '.');
    let stem = stem_len(name);
    let r = spec_event_log_path(s);
    assert(r == s.subrange(0, start + stem) + seq!['.'] + "events.log"@);
    assert(r.subrange(0, start) =~= s.subrange(0, start));
    assert(r.subrange(r.len() - ".events.log"@.len(), r.len() as int) =~= ".events.log"@);
}

/// The last `c` of `x + [c] + y` is the one after `x` when `y` holds none.
proof fn lemma_last_index_after(x: Seq<char>, c: char, y: Seq<char>)
    requires
        forall|k: int| 0 <= k < y.len() ==> #[trigger] y[k] != c,
    ensures
        last_index_of(x + seq![c] + y, c) == x.len(),
        last_index_of(y, c) == -1,
    decreases y.len(),
{
    if y.len() > 0 {
        let y1 = y.drop_last();
        assert forall|k: int| 0 <= k < y1.len() implies #[trigger] y1[k] != c by {
            assert(y1[k] == y[k]);
        }
        lemma_last_index_after(x, c, y1);
        assert((x + seq![c] + y).drop_last() =~= x + seq![c] + y1);
        assert(y.last() == y[y.len() - 1]);
    } else {
        assert(x + seq![c] + y =~= x.push(c));
        assert((x + seq![c] + y).drop_last() =~= x);
    }
}

/// Whether a path has an extension depends on its file name only: a dot
/// in a directory part (`../logs`, `/home/john.smith/logs`) does not count.
/// For a file name `name` (no `/`, not empty, not `.`) under any directory
/// text `dir`, the path `dir/name` has the same file name as `name` alone,
/// and an extension exactly when `name` has one.
pub proof fn law_extension_of_file_name(dir: Seq<char>, name: Seq<char>)
    requires
        name.len() > 0,
        name != seq!['.'],
        forall|k: int| 0 <= k < name.len() ==> #[trigger] name[k] != '/',
    ensures
        path_file_name(dir + seq!['/'] + name) == path_file_name(name),
        has_extension(dir + seq!['/'] + name) == has_extension(name),
{
    let s = dir + seq!['/'] + name;
    assert(s.last() == name.last());
    assert(name.last() == name[name.len() - 1]);
    assert(name.last() != '/');
    // Neither path ends in `/` or in a `/.` component.
    if name.len() >= 2 {
        assert(s[s.len() - 2] == name[name.len() - 2]);
        assert(name[name.len() - 2] != '/');
    } else {
        assert(s[s.len() - 2] == '/');
        assert(name.last() != '.') by {
            if name.last() == '.' {
                assert(name =~= seq!['.']);
            }
        }
    }
    assert(path_name_end(s) == s.len());
    assert(path_name_end(name) == name.len());
    assert(s.subrange(0, s.len() as int) =~= s);
    assert(name.subrange(0, name.len() as int) =~= name);
    lemma_last_index_after(dir, '/', name);
    assert(path_name_start(s) == dir.len() + 1);
    assert(path_name_start(name) == 0);
    assert(s.subrange(dir.len() + 1int, s.len() as int) =~= name);
}

} // verus!
