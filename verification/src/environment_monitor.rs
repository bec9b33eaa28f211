//! Weather and board temperature readings, as text, and when to refresh them.
use vstd::prelude::*;
use vstd::string::*;

use crate::text::{chars_of, text_of};

verus! {

/// Environmental readings written as decimal text: temperatures in degrees
/// Celsius with one decimal, relative humidity in percent with none. A
/// reading that is unavailable is `None`.
#[derive(Debug, Clone, PartialEq, Eq)]
pub struct EnvironmentText {
    pub outside_temperature_c: Option<String>,
    pub outside_relative_humidity: Option<String>,
    pub outside_apparent_temperature_c: Option<String>,
    pub raspberry_pi_temperature_c: Option<String>,
}

/// The text of an optional reading, empty when it is unavailable.
pub open spec fn text_or_empty(value: Option<String>) -> Seq<char> {
    match value {
        Some(t) => t@,
        None => seq![],
    }
}

/// The text of an optional reading, empty when it is unavailable.
pub fn field_text(value: &Option<String>) -> (s: String)
    ensures
        s@ == text_or_empty(*value),
{
    match value {
        Some(t) => t.clone(),
        None => String::new(),
    }
}

// ---------------------------------------------------------------------------
// When the readings are refreshed.
// ---------------------------------------------------------------------------

/// How long readings are cached, in nanoseconds (five minutes).
pub const REFRESH_INTERVAL_NANOS: u64 = 300_000_000_000;

/// A sample at `now` (nanoseconds since the monitor started) refreshes the
/// readings when none were taken yet or the last refresh is at least
/// [`REFRESH_INTERVAL_NANOS`] old.
pub open spec fn spec_should_refresh(last_refresh: Option<u64>, now: u64) -> bool {
    match last_refresh {
        None => true,
        Some(t) => now >= t + REFRESH_INTERVAL_NANOS,
    }
}

/// When the cached readings were last refreshed.
#[derive(Debug, Clone, Copy, PartialEq, Eq, Structural)]
pub struct RefreshSchedule {
    pub last_refresh: Option<u64>,
}

impl RefreshSchedule {
    /// A schedule that has never refreshed.
    pub fn new() -> (r: Self)
        ensures
            r.last_refresh is None,
    {
        RefreshSchedule { last_refresh: None }
    }

    /// Whether a sample at `now` refreshes the readings.
    pub fn should_refresh(&self, now: u64) -> (b: bool)
        ensures
            b == spec_should_refresh(self.last_refresh, now),
    {
        match self.last_refresh {
            None => true,
            Some(t) => now >= t && now - t >= REFRESH_INTERVAL_NANOS,
        }
    }

    /// Takes a sample at `now`: tells whether it refreshes the readings, and
    /// if so remembers `now` as the last refresh.
    pub fn begin_sample(&mut self, now: u64) -> (refreshed: bool)
        ensures
            refreshed == spec_should_refresh(old(self).last_refresh, now),
            final(self).last_refresh == if refreshed {
                Some(now)
            } else {
                old(self).last_refresh
            },
    {
        let refreshed = self.should_refresh(now);
        if refreshed {
            self.last_refresh = Some(now);
        }
        refreshed
    }
}

/// The first sample always refreshes the readings.
pub proof fn law_first_sample_refreshes(now: u64)
    ensures
        spec_should_refresh(None, now),
{
}

/// Readings refreshed at `t` are reused by every sample before `t` plus the
/// interval, and refreshed again by the first sample from then on.
pub proof fn law_refresh_interval(t: u64, now: u64)
    requires
        t <= now,
    ensures
        spec_should_refresh(Some(t), now) <==> now - t >= REFRESH_INTERVAL_NANOS,
{
}

// ---------------------------------------------------------------------------
// Location labels.
// ---------------------------------------------------------------------------

fn str_equal(a: &str, b: &str) -> (r: bool)
    ensures
        r == (a@ == b@),
{
    let x = chars_of(a);
    let y = chars_of(b);
    if x.len() != y.len() {
        return false;
    }
    let mut i: usize = 0;
    while i < x.len()
        invariant
            i <= x.len() == y.len(),
            x@ == a@,
            y@ == b@,
            forall|k: int| 0 <= k < i ==> x@[k] == y@[k],
        decreases x.len() - i,
    {
        if x[i] != y[i] {
            assert(a@ != b@) by {
                if a@ == b@ {
                    assert(x@[i as int] == y@[i as int]);
                }
            }
            return false;
        }
        i = i + 1;
    }
    assert(x@ =~= y@);
    true
}

/// A cached source or precision label, kept when it is one of the labels
/// the monitor writes, replaced by `default` otherwise.
pub open spec fn spec_cached_label(value: Option<Seq<char>>, default: Seq<char>) -> Seq<char> {
    match value {
        Some(v) => if v == "manual"@ || v == "ipapi.co"@ || v == "ipwho.is"@ || v == "city-level"@ {
            v
        } else {
            default
        },
        None => default,
    }
}

/// A cached source or precision label.
pub fn cached_static_text(value: Option<&str>, default: &'static str) -> (r: &'static str)
    ensures
        r@ == spec_cached_label(
            match value {
                Some(v) => Some(v@),
                None => None,
            },
            default@,
        ),
{
    match value {
        Some(v) => {
            if str_equal(v, "manual") {
                "manual"
            } else if str_equal(v, "ipapi.co") {
                "ipapi.co"
            } else if str_equal(v, "ipwho.is") {
                "ipwho.is"
            } else if str_equal(v, "city-level") {
                "city-level"
            } else {
                default
            }
        },
        None => default,
    }
}

/// The place names that are present, joined by `, `.
pub open spec fn spec_place(city: Option<Seq<char>>, region: Option<Seq<char>>, country: Option<Seq<char>>) -> Seq<char> {
    let parts = (if city is Some { seq![city->Some_0] } else { seq![] }) + (if region is Some {
        seq![region->Some_0]
    } else {
        seq![]
    }) + (if country is Some {
        seq![country->Some_0]
    } else {
        seq![]
    });
    join_comma(parts)
}

/// Texts joined by `, `.
pub open spec fn join_comma(parts: Seq<Seq<char>>) -> Seq<char>
    decreases parts.len(),
{
    if parts.len() == 0 {
        seq![]
    } else if parts.len() == 1 {
        parts[0]
    } else {
        join_comma(parts.drop_last()) + ", "@ + parts.last()
    }
}

/// How a location is shown: the place and the coordinates, or the
/// coordinates alone when no place name is known; then where the location
/// comes from and how precise it is. The coordinates are given as text.
pub open spec fn spec_location_label(
    place: Seq<char>,
    latitude: Seq<char>,
    longitude: Seq<char>,
    source: Seq<char>,
    precision: Seq<char>,
) -> Seq<char> {
    if place.len() == 0 {
        latitude + ", "@ + longitude + " ("@ + source + ", "@ + precision + ")"@
    } else {
        place + " ("@ + latitude + ", "@ + longitude + "; "@ + source + ", "@ + precision + ")"@
    }
}

/// The place names that are present, joined by `, `.
pub fn place_text(city: Option<&str>, region: Option<&str>, country: Option<&str>) -> (r: String)
    ensures
        r@ == spec_place(text_of(city), text_of(region), text_of(country)),
{
    let mut parts: Vec<&str> = Vec::new();
    match city {
        Some(c) => parts.push(c),
        None => {},
    }
    match region {
        Some(c) => parts.push(c),
        None => {},
    }
    match country {
        Some(c) => parts.push(c),
        None => {},
    }
    let ghost views = parts@.map_values(|p: &str| p@);
    assert(views =~= (if city is Some {
        seq![text_of(city)->Some_0]
    } else {
        seq![]
    }) + (if region is Some {
        seq![text_of(region)->Some_0]
    } else {
        seq![]
    }) + (if country is Some {
        seq![text_of(country)->Some_0]
    } else {
        seq![]
    }));
    let mut r = String::new();
    let mut k: usize = 0;
    assert(views.take(0) =~= seq![]);
    while k < parts.len()
        invariant
            k <= parts.len(),
            views == parts@.map_values(|p: &str| p@),
            r@ == join_comma(views.take(k as int)),
        decreases parts.len() - k,
    {
        let ghost next = views.take(k + 1);
        assert(next.drop_last() =~= views.take(k as int));
        assert(next.last() == parts@[k as int]@);
        if k > 0 {
            r.append(", ");
        } else {
            assert(next.len() == 1);
        }
        r.append(parts[k]);
        k = k + 1;
    }
    assert(views.take(k as int) =~= views);
    r
}

/// How a location is shown; the coordinates are given as text.
pub fn location_label(
    city: Option<&str>,
    region: Option<&str>,
    country: Option<&str>,
    latitude: &str,
    longitude: &str,
    source: &str,
    precision: &str,
) -> (r: String)
    ensures
        r@ == spec_location_label(
            spec_place(text_of(city), text_of(region), text_of(country)),
            latitude@,
            longitude@,
            source@,
            precision@,
        ),
{
    let place = place_text(city, region, country);
    let empty = place.unicode_len() == 0;
    let mut r = String::new();
    if empty {
        r.append(latitude);
        r.append(", ");
        r.append(longitude);
        r.append(" (");
    } else {
        r.append(place.as_str());
        r.append(" (");
        r.append(latitude);
        r.append(", ");
        r.append(longitude);
        r.append("; ");
    }
    r.append(source);
    r.append(", ");
    r.append(precision);
    r.append(")");
    r
}

// ---------------------------------------------------------------------------
// The board temperature sensor.
// ---------------------------------------------------------------------------

/// Where a Raspberry Pi reports its CPU temperature, in millidegrees Celsius.
pub const RASPBERRY_PI_THERMAL_PATH: &'static str = "/sys/class/thermal/thermal_zone0/temp";

/// The Raspberry Pi CPU temperature sensor: the file it is read from.
#[derive(Debug, Clone, PartialEq, Eq)]
pub struct RaspberryPiTemperatureSensor {
    path: String,
}

impl RaspberryPiTemperatureSensor {
    /// The file the sensor is read from.
    pub closed spec fn path_text(&self) -> Seq<char> {
        self.path@
    }

    /// A sensor read from `path`.
    pub fn new(path: &str) -> (r: Self)
        ensures
            r.path_text() == path@,
    {
        RaspberryPiTemperatureSensor { path: path.to_owned() }
    }

    /// The file the sensor is read from.
    pub fn path(&self) -> (r: &str)
        ensures
            r@ == self.path_text(),
    {
        self.path.as_str()
    }
}

impl Default for RaspberryPiTemperatureSensor {
    fn default() -> (r: Self)
        ensures
            r.path_text() == RASPBERRY_PI_THERMAL_PATH@,
    {
        RaspberryPiTemperatureSensor { path: RASPBERRY_PI_THERMAL_PATH.to_owned() }
    }
}

} // verus!
