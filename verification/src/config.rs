//! Settings: which route, stop and direction to show, where the feeds and the
//! static schedule are, and how many departures to list.
use vstd::prelude::*;
use crate::text::{chars_of, parse_unsigned, spec_parse_unsigned};

verus! {

pub struct Config {
    pub route_id: String,
    pub stop_id: String,
    pub direction_id: u8,
    pub trip_update_url: String,
    pub alerts_url: String,
    pub departure_count: usize,
    pub gtfs_dir: String,
}

/// The raw values of the settings, each absent when it was not given.
pub struct Settings {
    pub route_id: Option<String>,
    pub stop_id: Option<String>,
    pub direction_id: Option<String>,
    pub trip_update_url: Option<String>,
    pub alerts_url: Option<String>,
    pub departure_count: Option<String>,
    pub gtfs_dir: Option<String>,
}

/// A text setting: the given value, or the default.
pub open spec fn text_or(v: Option<String>, default: Seq<char>) -> Seq<char> {
    match v {
        Some(s) => s@,
        None => default,
    }
}

/// A number setting: the given value when `str::parse` accepts it for a type
/// whose greatest value is `max`, or else the default.
pub open spec fn number_or(v: Option<String>, max: nat, default: nat) -> nat {
    match v {
        Some(s) => match spec_parse_unsigned(s@, max) {
            Some(n) => n,
            None => default,
        },
        None => default,
    }
}

/// The G Line.
pub open spec fn default_route_id() -> Seq<char> {
    "113G"@
}

/// Wheat Ridge / Ward Road.
pub open spec fn default_stop_id() -> Seq<char> {
    "34510"@
}

pub open spec fn default_trip_update_url() -> Seq<char> {
    "https://open-data.rtd-denver.com/files/gtfs-rt/rtd/TripUpdate.pb"@
}

pub open spec fn default_alerts_url() -> Seq<char> {
    "https://open-data.rtd-denver.com/files/gtfs-rt/rtd/Alerts.pb"@
}

pub open spec fn default_gtfs_dir() -> Seq<char> {
    "rtd-purchased-commuter"@
}

/// Eastbound.
pub open spec fn default_direction_id() -> nat {
    0
}

pub open spec fn default_departure_count() -> nat {
    5
}

fn text_setting(v: Option<String>, default: &str) -> (res: String)
    ensures
        res@ == text_or(v, default@),
{
    match v {
        Some(s) => s,
        None => default.to_owned(),
    }
}

fn number_setting(v: &Option<String>, max: u64, default: u64) -> (res: u64)
    requires
        default <= max,
    ensures
        res == number_or(*v, max as nat, default as nat),
{
    match v {
        Some(s) => {
            let cs = chars_of(s.as_str());
            match parse_unsigned(&cs, max) {
                Some(n) => n,
                None => default,
            }
        },
        None => default,
    }
}

impl Config {
    /// The configuration from the given settings, with the defaults for the G Line
    /// eastbound at Wheat Ridge / Ward Road where a setting is absent, and where a
    /// number does not parse.
    pub fn from_settings(settings: Settings) -> (res: Config)
        ensures
            res.route_id@ == text_or(settings.route_id, default_route_id()),
            res.stop_id@ == text_or(settings.stop_id, default_stop_id()),
            res.direction_id == number_or(
                settings.direction_id,
                u8::MAX as nat,
                default_direction_id(),
            ),
            res.trip_update_url@ == text_or(settings.trip_update_url, default_trip_update_url()),
            res.alerts_url@ == text_or(settings.alerts_url, default_alerts_url()),
            res.departure_count == number_or(
                settings.departure_count,
                usize::MAX as nat,
                default_departure_count(),
            ),
            res.gtfs_dir@ == text_or(settings.gtfs_dir, default_gtfs_dir()),
    {
        let direction_id = number_setting(&settings.direction_id, u8::MAX as u64, 0) as u8;
        let departure_count = number_setting(&settings.departure_count, usize::MAX as u64, 5) as usize;
        Config {
            route_id: text_setting(settings.route_id, "113G"),
            stop_id: text_setting(settings.stop_id, "34510"),
            direction_id,
            trip_update_url: text_setting(
                settings.trip_update_url,
                "https://open-data.rtd-denver.com/files/gtfs-rt/rtd/TripUpdate.pb",
            ),
            alerts_url: text_setting(
                settings.alerts_url,
                "https://open-data.rtd-denver.com/files/gtfs-rt/rtd/Alerts.pb",
            ),
            departure_count,
            gtfs_dir: text_setting(settings.gtfs_dir, "rtd-purchased-commuter"),
        }
    }
}

} // verus!
