use trmnl_rtd::config::{Config, Settings};
use trmnl_rtd::schedule::{
    load_calendar, load_route_info, load_schedule, load_station_name, load_stop_times, load_trips,
    GtfsCalendar, GtfsRoute, GtfsStop, GtfsStopTime, GtfsTables, GtfsTrip, Row, ScheduleError,
    Weekday,
};

fn config() -> Config {
    Config::from_settings(Settings {
        route_id: None,
        stop_id: None,
        direction_id: None,
        trip_update_url: None,
        alerts_url: None,
        departure_count: None,
        gtfs_dir: None,
    })
}

fn route(id: &str, short: &str, color: &str) -> Row<GtfsRoute> {
    Ok(GtfsRoute {
        route_id: id.to_string(),
        route_short_name: short.to_string(),
        route_long_name: format!("{} Line", short),
        route_color: color.to_string(),
    })
}

fn trip(route: &str, service: &str, id: &str, headsign: &str, dir: u8) -> Row<GtfsTrip> {
    Ok(GtfsTrip {
        route_id: route.to_string(),
        service_id: service.to_string(),
        trip_id: id.to_string(),
        trip_headsign: headsign.to_string(),
        direction_id: dir,
    })
}

fn stop_time(trip: &str, time: &str, stop: &str) -> Row<GtfsStopTime> {
    Ok(GtfsStopTime { trip_id: trip.to_string(), departure_time: time.to_string(), stop_id: stop.to_string() })
}

fn stop(id: &str, name: &str, parent: Option<&str>) -> Row<GtfsStop> {
    Ok(GtfsStop {
        stop_id: id.to_string(),
        stop_name: name.to_string(),
        location_type: None,
        parent_station: parent.map(|p| p.to_string()),
    })
}

fn calendar(service: &str, days: [u8; 7]) -> Row<GtfsCalendar> {
    Ok(GtfsCalendar {
        service_id: service.to_string(),
        monday: days[0],
        tuesday: days[1],
        wednesday: days[2],
        thursday: days[3],
        friday: days[4],
        saturday: days[5],
        sunday: days[6],
    })
}

fn tables() -> GtfsTables {
    GtfsTables {
        routes: vec![route("113B", "B", "4E9D2D"), route("113G", "G", "009B3A")],
        trips: vec![
            trip("113G", "WK", "g1", "", 0),
            trip("113G", "WK", "g2", "Union Station", 0),
            trip("113G", "SA", "g3", "Union Station Saturday", 0),
            trip("113G", "WK", "g4", "Wheat Ridge", 1),
            trip("113B", "WK", "b1", "Union Station", 0),
            trip("113G", "WK", "g5", "Union Station", 0),
            trip("113G", "XX", "g6", "Union Station", 0),
        ],
        stop_times: vec![
            stop_time("g1", "07:45:00", "34510"),
            stop_time("g1", "07:55:00", "34520"),
            stop_time("g2", "07:15:00", "34510"),
            stop_time("g3", "09:00:00", "34510"),
            stop_time("g4", "06:00:00", "34510"),
            stop_time("b1", "06:30:00", "34510"),
            stop_time("g5", "07:15:30", "34510"),
            stop_time("g6", "05:00:00", "34510"),
        ],
        stops: vec![
            stop("34510", "Wheat Ridge / Ward Road Station Track 1", Some("34500")),
            stop("34500", "Wheat Ridge / Ward Road Station", None),
        ],
        calendar: vec![
            calendar("WK", [1, 1, 1, 1, 1, 0, 0]),
            calendar("SA", [0, 0, 0, 0, 0, 1, 0]),
        ],
    }
}

fn times(v: &[trmnl_rtd::schedule::ScheduledDeparture]) -> Vec<(String, String)> {
    v.iter().map(|d| (d.trip_id.clone(), d.departure_time_str.clone())).collect()
}

fn pair(a: &str, b: &str) -> (String, String) {
    (a.to_string(), b.to_string())
}

#[test]
fn schedule_holds_route_station_and_headsign() {
    let s = load_schedule(&config(), &tables()).ok().unwrap();
    assert_eq!(s.route_info.short_name, "G");
    assert_eq!(s.route_info.color, "009B3A");
    assert_eq!(s.station_name, "Wheat Ridge / Ward Road Station");
    // The first selected trip has no headsign; the next one's is taken.
    assert_eq!(s.headsign, "Union Station");
}

#[test]
fn weekday_departures_are_sorted_by_time() {
    let s = load_schedule(&config(), &tables()).ok().unwrap();
    let monday = s.upcoming_departures(0, Weekday::Mon, 10);
    assert_eq!(times(&monday), vec![pair("g2", "07:15"), pair("g5", "07:15"), pair("g1", "07:45")]);
    assert_eq!(monday[1].departure_time, 7 * 3600 + 15 * 60 + 30);
    let saturday = s.upcoming_departures(0, Weekday::Sat, 10);
    assert_eq!(times(&saturday), vec![pair("g3", "09:00")]);
    assert!(s.upcoming_departures(0, Weekday::Sun, 10).is_empty());
}

#[test]
fn upcoming_departures_start_at_now_and_stop_at_count() {
    let s = load_schedule(&config(), &tables()).ok().unwrap();
    let at_715_30 = s.upcoming_departures(7 * 3600 + 15 * 60 + 30, Weekday::Tue, 10);
    assert_eq!(times(&at_715_30), vec![pair("g5", "07:15"), pair("g1", "07:45")]);
    let one = s.upcoming_departures(0, Weekday::Wed, 1);
    assert_eq!(times(&one), vec![pair("g2", "07:15")]);
    assert!(s.upcoming_departures(0, Weekday::Wed, 0).is_empty());
    assert!(s.upcoming_departures(8 * 3600, Weekday::Thu, 5).is_empty());
}

#[test]
fn route_not_found_is_an_error() {
    let mut t = tables();
    t.routes = vec![route("113B", "B", "4E9D2D")];
    match load_schedule(&config(), &t) {
        Err(e) => assert_eq!(e.message(), "Route 113G not found"),
        Ok(_) => panic!("expected an error"),
    }
}

#[test]
fn stop_not_found_is_an_error() {
    let mut t = tables();
    t.stops = vec![stop("1", "Elsewhere", None)];
    match load_schedule(&config(), &t) {
        Err(ScheduleError::StopNotFound(id)) => assert_eq!(id, "34510"),
        _ => panic!("expected StopNotFound"),
    }
    let err = load_station_name(&t.stops, &"34510".to_string()).err().unwrap();
    assert_eq!(err.message(), "Stop 34510 not found");
}

#[test]
fn unreadable_rows_are_errors() {
    let mut t = tables();
    t.calendar.push(Err("CSV deserialize error: record 3".to_string()));
    match load_schedule(&config(), &t) {
        Err(ScheduleError::Csv(m)) => assert_eq!(m, "CSV deserialize error: record 3"),
        _ => panic!("expected a CSV error"),
    }
    let mut t = tables();
    t.stop_times.insert(0, Err("bad row".to_string()));
    assert!(matches!(load_schedule(&config(), &t), Err(ScheduleError::Csv(_))));
}

#[test]
fn route_lookup_stops_at_the_first_match() {
    let rows = vec![route("113G", "G", "009B3A"), Err("later bad row".to_string())];
    let info = load_route_info(&rows, &"113G".to_string()).ok().unwrap();
    assert_eq!(info.color, "009B3A");
    let rows = vec![Err("early bad row".to_string()), route("113G", "G", "009B3A")];
    assert!(matches!(load_route_info(&rows, &"113G".to_string()), Err(ScheduleError::Csv(_))));
}

#[test]
fn station_name_falls_back_to_the_stop_name() {
    let rows = vec![stop("34510", "Platform", Some("999"))];
    assert_eq!(load_station_name(&rows, &"34510".to_string()).ok().unwrap(), "Platform");
    let rows = vec![stop("34510", "Platform", None)];
    assert_eq!(load_station_name(&rows, &"34510".to_string()).ok().unwrap(), "Platform");
}

#[test]
fn calendar_rows_list_their_weekdays() {
    let rows = vec![calendar("WK", [1, 1, 1, 1, 1, 0, 0]), calendar("WE", [0, 0, 0, 0, 0, 1, 1])];
    let cal = load_calendar(&rows).ok().unwrap();
    assert_eq!(cal.len(), 2);
    assert_eq!(cal[0].weekdays, vec![Weekday::Mon, Weekday::Tue, Weekday::Wed, Weekday::Thu, Weekday::Fri]);
    assert_eq!(cal[1].weekdays, vec![Weekday::Sat, Weekday::Sun]);
}

#[test]
fn trips_are_grouped_by_service_in_first_seen_order() {
    let (groups, headsign) = load_trips(&tables().trips, &"113G".to_string(), 0).ok().unwrap();
    let ids: Vec<(String, Vec<String>)> = groups.iter().map(|g| (g.service_id.clone(), g.trip_ids.clone())).collect();
    assert_eq!(
        ids,
        vec![
            ("WK".to_string(), vec!["g1".to_string(), "g2".to_string(), "g5".to_string()]),
            ("SA".to_string(), vec!["g3".to_string()]),
            ("XX".to_string(), vec!["g6".to_string()]),
        ]
    );
    assert_eq!(headsign, "Union Station");
}

#[test]
fn stop_times_keep_parsed_departures_of_our_trips_at_our_stop() {
    let rows = vec![
        stop_time("g1", "07:45:00", "34510"),
        stop_time("g1", "bad", "34510"),
        stop_time("zz", "08:00:00", "34510"),
        stop_time("g2", "25:05:00", "34510"),
        stop_time("g2", "07:00:00", "1"),
    ];
    let ids = vec!["g1".to_string(), "g2".to_string()];
    let entries = load_stop_times(&rows, &ids, &"34510".to_string()).ok().unwrap();
    let got: Vec<(String, u32, String)> = entries.iter().map(|e| (e.trip_id.clone(), e.time, e.time_str.clone())).collect();
    assert_eq!(
        got,
        vec![("g1".to_string(), 27900, "07:45".to_string()), ("g2".to_string(), 3900, "01:05".to_string())]
    );
}

#[test]
fn weekday_indices_follow_the_week() {
    assert_eq!(Weekday::Mon.index(), 0);
    assert_eq!(Weekday::Sun.index(), 6);
    assert_eq!(Weekday::from_index(5), Weekday::Sat);
}

#[test]
fn the_last_stop_time_of_a_trip_and_the_last_calendar_row_of_a_service_count() {
    let mut t = tables();
    t.stop_times.push(stop_time("g2", "07:20:00", "34510"));
    t.calendar.push(calendar("SA", [0, 0, 0, 0, 0, 0, 1]));
    let s = load_schedule(&config(), &t).ok().unwrap();
    let monday = s.upcoming_departures(0, Weekday::Mon, 10);
    assert_eq!(times(&monday), vec![pair("g5", "07:15"), pair("g2", "07:20"), pair("g1", "07:45")]);
    assert!(s.upcoming_departures(0, Weekday::Sat, 10).is_empty());
    assert_eq!(times(&s.upcoming_departures(0, Weekday::Sun, 10)), vec![pair("g3", "09:00")]);
}

#[test]
fn trips_in_the_other_direction_or_on_other_routes_are_left_out() {
    let s = load_schedule(&config(), &tables()).ok().unwrap();
    for day in [Weekday::Mon, Weekday::Tue, Weekday::Wed, Weekday::Thu, Weekday::Fri, Weekday::Sat, Weekday::Sun] {
        for d in s.upcoming_departures(0, day, 100) {
            assert!(d.trip_id != "g4" && d.trip_id != "b1" && d.trip_id != "g6");
        }
    }
}
