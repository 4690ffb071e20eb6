use trmnl_rtd::config::{Config, Settings};
use trmnl_rtd::gtfs_rt::{
    extract_translation, parse_alerts, parse_trip_updates, realtime_from_feeds, EntitySelector,
    FeedEntity, FeedMessage, ServiceAlert, StopTimeEvent, StopTimeUpdate, TranslatedString,
    Translation, TripDescriptor, TripUpdate,
};

fn config() -> Config {
    Config::from_settings(Settings {
        route_id: None,
        stop_id: None,
        direction_id: None,
        trip_update_url: None,
        alerts_url: None,
        departure_count: None,
        gtfs_dir: None,
    })
}

fn s(v: &str) -> Option<String> {
    Some(v.to_string())
}

fn event(delay: Option<i32>, time: Option<i64>) -> Option<StopTimeEvent> {
    Some(StopTimeEvent { delay, time })
}

fn stop_update(stop: &str, arrival: Option<StopTimeEvent>, departure: Option<StopTimeEvent>) -> StopTimeUpdate {
    StopTimeUpdate { stop_id: s(stop), arrival, departure }
}

fn trip_entity(trip: &str, route: &str, dir: Option<u32>, updates: Vec<StopTimeUpdate>, delay: Option<i32>) -> FeedEntity {
    FeedEntity {
        trip_update: Some(TripUpdate {
            trip: TripDescriptor { trip_id: s(trip), route_id: s(route), direction_id: dir },
            stop_time_update: updates,
            delay,
        }),
        alert: None,
    }
}

fn translated(parts: &[(&str, Option<&str>)]) -> Option<TranslatedString> {
    Some(TranslatedString {
        translation: parts
            .iter()
            .map(|(t, l)| Translation { text: t.to_string(), language: l.map(|x| x.to_string()) })
            .collect(),
    })
}

fn alert_entity(route: Option<&str>, stop: Option<&str>, header: Option<TranslatedString>, description: Option<TranslatedString>) -> FeedEntity {
    FeedEntity {
        trip_update: None,
        alert: Some(ServiceAlert {
            informed_entity: vec![EntitySelector { route_id: route.map(|x| x.to_string()), stop_id: stop.map(|x| x.to_string()) }],
            header_text: header,
            description_text: description,
        }),
    }
}

#[test]
fn trip_updates_are_filtered_by_route_direction_and_stop() {
    let feed = FeedMessage {
        entity: vec![
            trip_entity("t1", "113G", Some(0), vec![stop_update("34510", None, event(Some(60), None))], None),
            trip_entity("t2", "113B", Some(0), vec![stop_update("34510", None, event(Some(60), None))], None),
            trip_entity("t3", "113G", Some(1), vec![stop_update("34510", None, event(Some(60), None))], None),
            trip_entity("t4", "113G", None, vec![stop_update("34511", None, event(Some(60), None))], None),
            trip_entity("t5", "113G", None, vec![stop_update("34510", None, event(Some(0), None))], None),
            FeedEntity { trip_update: None, alert: None },
        ],
    };
    let deps = parse_trip_updates(&feed, &config());
    let ids: Vec<&str> = deps.iter().map(|d| d.trip_id.as_str()).collect();
    assert_eq!(ids, vec!["t1", "t5"]);
    assert_eq!(deps[0].delay_seconds, Some(60));
    assert_eq!(deps[1].delay_seconds, Some(0));
}

#[test]
fn departure_event_is_preferred_over_arrival() {
    let feed = FeedMessage {
        entity: vec![
            trip_entity("a", "113G", None, vec![stop_update("34510", event(Some(30), None), event(Some(90), None))], None),
            trip_entity("b", "113G", None, vec![stop_update("34510", event(Some(30), None), None)], None),
            trip_entity("c", "113G", None, vec![stop_update("34510", None, None)], Some(240)),
        ],
    };
    let deps = parse_trip_updates(&feed, &config());
    assert_eq!(deps.len(), 3);
    assert_eq!(deps[0].delay_seconds, Some(90));
    assert_eq!(deps[1].delay_seconds, Some(30));
    // No event at the stop: the trip-level delay.
    assert_eq!(deps[2].delay_seconds, Some(240));
    assert_eq!(deps[2].estimated_time, None);
}

#[test]
fn only_the_first_update_for_the_stop_counts() {
    let feed = FeedMessage {
        entity: vec![trip_entity(
            "t",
            "113G",
            None,
            vec![
                stop_update("1", None, event(Some(5), None)),
                stop_update("34510", None, event(Some(10), None)),
                stop_update("34510", None, event(Some(20), None)),
            ],
            None,
        )],
    };
    let deps = parse_trip_updates(&feed, &config());
    assert_eq!(deps.len(), 1);
    assert_eq!(deps[0].delay_seconds, Some(10));
}

#[test]
fn estimated_times_are_read_on_a_denver_clock() {
    // 2024-01-15 12:00 UTC is 05:00 MST; 2024-07-15 18:00 UTC is 12:00 MDT.
    let feed = FeedMessage {
        entity: vec![
            trip_entity("w", "113G", None, vec![stop_update("34510", None, event(None, Some(1705320000)))], None),
            trip_entity("s", "113G", None, vec![stop_update("34510", None, event(None, Some(1721066400)))], None),
        ],
    };
    let deps = parse_trip_updates(&feed, &config());
    assert_eq!(deps[0].estimated_time, Some(5 * 3600));
    assert_eq!(deps[1].estimated_time, Some(12 * 3600));
}

#[test]
fn missing_trip_id_reads_as_empty() {
    let mut e = trip_entity("x", "113G", None, vec![stop_update("34510", None, None)], None);
    if let Some(tu) = e.trip_update.as_mut() {
        tu.trip.trip_id = None;
    }
    let deps = parse_trip_updates(&FeedMessage { entity: vec![e] }, &config());
    assert_eq!(deps[0].trip_id, "");
}

#[test]
fn translation_prefers_english_then_unspecified_then_first() {
    let t = translated(&[("Hola", Some("es")), ("Hi", Some("en")), ("Neutral", None)]);
    assert_eq!(extract_translation(t.as_ref()), "Hi");
    let t = translated(&[("Hola", Some("es")), ("Neutral", None)]);
    assert_eq!(extract_translation(t.as_ref()), "Neutral");
    let t = translated(&[("Hola", Some("es")), ("Salut", Some("fr"))]);
    assert_eq!(extract_translation(t.as_ref()), "Hola");
    let t = translated(&[]);
    assert_eq!(extract_translation(t.as_ref()), "");
    assert_eq!(extract_translation(None), "");
}

#[test]
fn alerts_for_our_route_or_stop_with_text_are_kept() {
    let feed = FeedMessage {
        entity: vec![
            alert_entity(Some("113G"), None, translated(&[("Delays", Some("en"))]), None),
            alert_entity(None, Some("34510"), None, translated(&[("Elevator out", None)])),
            alert_entity(Some("113B"), Some("1"), translated(&[("Other line", None)]), None),
            alert_entity(Some("113G"), None, None, None),
            alert_entity(Some("113G"), None, translated(&[("", Some("en"))]), translated(&[])),
        ],
    };
    let alerts = parse_alerts(&feed, &config());
    assert_eq!(alerts.len(), 2);
    assert_eq!(alerts[0].header, "Delays");
    assert_eq!(alerts[0].description, "");
    assert_eq!(alerts[1].header, "");
    assert_eq!(alerts[1].description, "Elevator out");
}

#[test]
fn alerts_with_no_informed_entities_do_not_apply() {
    let mut e = alert_entity(Some("113G"), None, translated(&[("x", None)]), None);
    if let Some(a) = e.alert.as_mut() {
        a.informed_entity.clear();
    }
    assert!(parse_alerts(&FeedMessage { entity: vec![e] }, &config()).is_empty());
}

#[test]
fn both_feeds_are_read() {
    let trips = FeedMessage {
        entity: vec![trip_entity("t1", "113G", Some(0), vec![stop_update("34510", None, event(Some(0), None))], None)],
    };
    let alerts = FeedMessage {
        entity: vec![alert_entity(Some("113G"), None, translated(&[("Notice", None)]), None)],
    };
    let data = realtime_from_feeds(&trips, &alerts, &config());
    assert_eq!(data.departures.len(), 1);
    assert_eq!(data.alerts.len(), 1);
    assert_eq!(data.alerts[0].header, "Notice");
}
