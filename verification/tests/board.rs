use trmnl_rtd::board::{departure_board, departure_output, merge_departures};
use trmnl_rtd::config::{Config, Settings};
use trmnl_rtd::gtfs_rt::{Alert, RealtimeData, RealtimeDeparture};
use trmnl_rtd::schedule::{
    load_schedule, GtfsCalendar, GtfsRoute, GtfsStop, GtfsStopTime, GtfsTables, GtfsTrip,
    ScheduledDeparture, Weekday,
};

fn config() -> Config {
    Config::from_settings(Settings {
        route_id: None,
        stop_id: None,
        direction_id: None,
        trip_update_url: None,
        alerts_url: None,
        departure_count: None,
        gtfs_dir: None,
    })
}

fn dep(trip: &str, secs: u32, label: &str) -> ScheduledDeparture {
    ScheduledDeparture { trip_id: trip.to_string(), departure_time: secs, departure_time_str: label.to_string() }
}

fn rt(trip: &str, delay: Option<i32>, est: Option<u32>) -> RealtimeDeparture {
    RealtimeDeparture { trip_id: trip.to_string(), delay_seconds: delay, estimated_time: est }
}

const T0715: u32 = 7 * 3600 + 15 * 60;

#[test]
fn no_report_means_scheduled() {
    let out = departure_output(&dep("a", T0715, "07:15"), None);
    assert_eq!(out.scheduled, "07:15");
    assert_eq!(out.estimated, None);
    assert_eq!(out.status, "scheduled");
}

#[test]
fn estimate_in_the_scheduled_minute_is_on_time() {
    let r = rt("a", Some(40), Some(T0715 + 40));
    let out = departure_output(&dep("a", T0715, "07:15"), Some(&r));
    assert_eq!(out.estimated, Some("07:15".to_string()));
    assert_eq!(out.status, "on_time");
}

#[test]
fn later_estimate_is_delayed() {
    let r = rt("a", None, Some(7 * 3600 + 48 * 60));
    let out = departure_output(&dep("a", 7 * 3600 + 45 * 60, "07:45"), Some(&r));
    assert_eq!(out.estimated, Some("07:48".to_string()));
    assert_eq!(out.status, "delayed");
}

#[test]
fn delay_without_estimate_moves_the_scheduled_time() {
    let r = rt("a", Some(180), None);
    let out = departure_output(&dep("a", 7 * 3600 + 45 * 60, "07:45"), Some(&r));
    assert_eq!(out.estimated, Some("07:48".to_string()));
    assert_eq!(out.status, "delayed");
    let r = rt("a", Some(-120), None);
    let out = departure_output(&dep("a", 60, "00:01"), Some(&r));
    assert_eq!(out.estimated, Some("23:59".to_string()));
    assert_eq!(out.status, "delayed");
}

#[test]
fn zero_delay_or_no_data_is_on_time() {
    let r = rt("a", Some(0), None);
    let out = departure_output(&dep("a", T0715, "07:15"), Some(&r));
    assert_eq!((out.estimated, out.status.as_str()), (None, "on_time"));
    let r = rt("a", None, None);
    let out = departure_output(&dep("a", T0715, "07:15"), Some(&r));
    assert_eq!((out.estimated, out.status.as_str()), (None, "on_time"));
}

#[test]
fn the_last_report_of_a_trip_is_used() {
    let upcoming = vec![dep("a", T0715, "07:15"), dep("b", T0715 + 1800, "07:45")];
    let realtime = vec![rt("a", Some(600), None), rt("a", Some(0), None), rt("c", Some(60), None)];
    let outs = merge_departures(&upcoming, &realtime);
    assert_eq!(outs.len(), 2);
    assert_eq!(outs[0].status, "on_time");
    assert_eq!(outs[1].status, "scheduled");
}

fn tables() -> GtfsTables {
    GtfsTables {
        routes: vec![Ok(GtfsRoute {
            route_id: "113G".to_string(),
            route_short_name: "G".to_string(),
            route_long_name: "G Line".to_string(),
            route_color: "009B3A".to_string(),
        })],
        trips: vec![
            Ok(GtfsTrip { route_id: "113G".to_string(), service_id: "WK".to_string(), trip_id: "t715".to_string(), trip_headsign: "Union Station".to_string(), direction_id: 0 }),
            Ok(GtfsTrip { route_id: "113G".to_string(), service_id: "WK".to_string(), trip_id: "t745".to_string(), trip_headsign: "Union Station".to_string(), direction_id: 0 }),
        ],
        stop_times: vec![
            Ok(GtfsStopTime { trip_id: "t745".to_string(), departure_time: "07:45:00".to_string(), stop_id: "34510".to_string() }),
            Ok(GtfsStopTime { trip_id: "t715".to_string(), departure_time: "07:15:00".to_string(), stop_id: "34510".to_string() }),
        ],
        stops: vec![Ok(GtfsStop { stop_id: "34510".to_string(), stop_name: "Wheat Ridge / Ward Road Station".to_string(), location_type: None, parent_station: None })],
        calendar: vec![Ok(GtfsCalendar { service_id: "WK".to_string(), monday: 0, tuesday: 0, wednesday: 0, thursday: 0, friday: 0, saturday: 0, sunday: 1 })],
    }
}

#[test]
fn board_matches_the_readme_example() {
    let schedule = load_schedule(&config(), &tables()).ok().unwrap();
    let realtime = RealtimeData {
        departures: vec![rt("t715", Some(0), None), rt("t745", None, Some(7 * 3600 + 48 * 60 + 30))],
        alerts: vec![Alert { header: "Track work".to_string(), description: "Single tracking".to_string() }],
    };
    let board = departure_board(schedule, 7 * 3600 + 10 * 60, Weekday::Sun, 5, realtime, "2026-03-29T07:10:00-06:00".to_string());
    assert_eq!(board.station, "Wheat Ridge / Ward Road Station");
    assert_eq!(board.line, "G");
    assert_eq!(board.line_color, "009B3A");
    assert_eq!(board.direction, "Union Station");
    assert_eq!(board.departures.len(), 2);
    assert_eq!(board.departures[0].scheduled, "07:15");
    assert_eq!(board.departures[0].estimated, None);
    assert_eq!(board.departures[0].status, "on_time");
    assert_eq!(board.departures[1].scheduled, "07:45");
    assert_eq!(board.departures[1].estimated, Some("07:48".to_string()));
    assert_eq!(board.departures[1].status, "delayed");
    assert_eq!(board.alerts.len(), 1);
    assert_eq!(board.alerts[0].header, "Track work");
    assert_eq!(board.alerts[0].description, "Single tracking");
    assert_eq!(board.updated_at, "2026-03-29T07:10:00-06:00");
}

#[test]
fn board_lists_at_most_count_departures_from_now() {
    let schedule = load_schedule(&config(), &tables()).ok().unwrap();
    let realtime = RealtimeData { departures: vec![], alerts: vec![] };
    let board = departure_board(schedule, 7 * 3600 + 20 * 60, Weekday::Sun, 1, realtime, String::new());
    assert_eq!(board.departures.len(), 1);
    assert_eq!(board.departures[0].scheduled, "07:45");
    assert_eq!(board.departures[0].status, "scheduled");
}
