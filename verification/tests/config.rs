use trmnl_rtd::config::{Config, Settings};

fn no_settings() -> Settings {
    Settings {
        route_id: None,
        stop_id: None,
        direction_id: None,
        trip_update_url: None,
        alerts_url: None,
        departure_count: None,
        gtfs_dir: None,
    }
}

#[test]
fn defaults_are_the_g_line_at_ward_road() {
    let c = Config::from_settings(no_settings());
    assert_eq!(c.route_id, "113G");
    assert_eq!(c.stop_id, "34510");
    assert_eq!(c.direction_id, 0);
    assert_eq!(c.departure_count, 5);
    assert_eq!(c.gtfs_dir, "rtd-purchased-commuter");
    assert_eq!(c.trip_update_url, "https://open-data.rtd-denver.com/files/gtfs-rt/rtd/TripUpdate.pb");
    assert_eq!(c.alerts_url, "https://open-data.rtd-denver.com/files/gtfs-rt/rtd/Alerts.pb");
}

#[test]
fn given_settings_override_defaults() {
    let mut s = no_settings();
    s.route_id = Some("113B".to_string());
    s.stop_id = Some("12345".to_string());
    s.direction_id = Some("1".to_string());
    s.departure_count = Some("+3".to_string());
    s.gtfs_dir = Some("/data/gtfs".to_string());
    s.alerts_url = Some("http://localhost/alerts".to_string());
    let c = Config::from_settings(s);
    assert_eq!(c.route_id, "113B");
    assert_eq!(c.stop_id, "12345");
    assert_eq!(c.direction_id, 1);
    assert_eq!(c.departure_count, 3);
    assert_eq!(c.gtfs_dir, "/data/gtfs");
    assert_eq!(c.alerts_url, "http://localhost/alerts");
}

#[test]
fn numbers_that_do_not_parse_fall_back_to_defaults() {
    let mut s = no_settings();
    s.direction_id = Some("256".to_string());
    s.departure_count = Some("five".to_string());
    let c = Config::from_settings(s);
    assert_eq!(c.direction_id, 0);
    assert_eq!(c.departure_count, 5);
    let mut s = no_settings();
    s.direction_id = Some(" 1".to_string());
    s.departure_count = Some("".to_string());
    let c = Config::from_settings(s);
    assert_eq!(c.direction_id, 0);
    assert_eq!(c.departure_count, 5);
}
