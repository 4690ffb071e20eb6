use std::io::Write;

use trmnl_rtd::refresh::{
    after_fetch, after_remove, after_store, choose_slot, cron_task, earliest_of, earliest_start_date,
    extract_gtfs_files, needed_files, pending_keys, plan_refresh, promotion_start, start_date_fields,
    CronTask, GtfsFile, PendingObject, PromotionAction, Slot,
};

// 2024-01-01 and 2025-12-01 as days from the common era (Jan 1 of year 1 is day 1).
const JAN_1_2024: i32 = 738886;
const DEC_1_2025: i32 = 739586;

#[test]
fn earliest_start_date_scans_all_rows() {
    let csv = "service_id,monday,start_date,end_date\nWK,1,20251201,20260101\nSA,0,20240101,20241231\n";
    assert_eq!(earliest_start_date(csv), Some(JAN_1_2024));
}

#[test]
fn earliest_start_date_handles_quotes_blanks_and_crlf() {
    let csv = "\"service_id\", \"start_date\" ,end_date\r\n\r\n  \r\nWK, \"20251201\" ,x\r\nXX,notadate,y\r\nYY\r\n";
    assert_eq!(earliest_start_date(csv), Some(DEC_1_2025));
}

#[test]
fn earliest_start_date_needs_a_header_column_and_a_date() {
    assert_eq!(earliest_start_date(""), None);
    assert_eq!(earliest_start_date("service_id,end_date\nWK,20240101\n"), None);
    assert_eq!(earliest_start_date("start_date\nbad\n"), None);
    assert_eq!(earliest_start_date("start_date\n"), None);
}

#[test]
fn start_date_fields_are_cleaned() {
    let fields = start_date_fields("a,start_date\n1, \"x\" \n2\n").unwrap();
    assert_eq!(fields, vec!["x".to_string()]);
    assert_eq!(start_date_fields("a,b\n"), None);
}

#[test]
fn earliest_of_ignores_missing_days() {
    assert_eq!(earliest_of(&vec![None, Some(5), Some(3), None, Some(4)]), Some(3));
    assert_eq!(earliest_of(&vec![None, None]), None);
    assert_eq!(earliest_of(&vec![]), None);
}

#[test]
fn future_schedules_go_to_pending() {
    assert_eq!(choose_slot(Some(DEC_1_2025), JAN_1_2024), Slot::Pending);
    assert_eq!(choose_slot(Some(JAN_1_2024), JAN_1_2024), Slot::Active);
    assert_eq!(choose_slot(Some(JAN_1_2024), DEC_1_2025), Slot::Active);
    assert_eq!(choose_slot(None, JAN_1_2024), Slot::Active);
}

fn files(calendar: &str) -> Vec<GtfsFile> {
    needed_files()
        .into_iter()
        .map(|name| {
            let contents = if name == "calendar.txt" { calendar.to_string() } else { format!("{} contents", name) };
            GtfsFile { name, contents }
        })
        .collect()
}

#[test]
fn current_schedule_is_written_to_active_and_pending_is_cleared() {
    let plan = plan_refresh(&files("service_id,start_date\nWK,20240101\n"), DEC_1_2025);
    assert_eq!(plan.slot, Slot::Active);
    let keys: Vec<&str> = plan.uploads.iter().map(|u| u.key.as_str()).collect();
    assert_eq!(keys, vec!["active/routes.txt", "active/trips.txt", "active/stop_times.txt", "active/stops.txt", "active/calendar.txt"]);
    assert_eq!(plan.uploads[0].contents, "routes.txt contents");
    assert_eq!(plan.deletions, pending_keys());
    assert_eq!(plan.deletions[2], "pending/stop_times.txt");
}

#[test]
fn future_schedule_is_written_to_pending() {
    let plan = plan_refresh(&files("service_id,start_date\nWK,20251201\n"), JAN_1_2024);
    assert_eq!(plan.slot, Slot::Pending);
    assert_eq!(plan.uploads[4].key, "pending/calendar.txt");
    assert!(plan.deletions.is_empty());
}

#[test]
fn missing_calendar_counts_as_current() {
    let only_routes = vec![GtfsFile { name: "routes.txt".to_string(), contents: String::new() }];
    let plan = plan_refresh(&only_routes, JAN_1_2024);
    assert_eq!(plan.slot, Slot::Active);
    assert_eq!(plan.uploads.len(), 1);
    assert_eq!(plan.uploads[0].key, "active/routes.txt");
}

#[test]
fn promotion_moves_every_needed_file() {
    let mut action = promotion_start();
    let mut ops: Vec<String> = Vec::new();
    loop {
        action = match action {
            PromotionAction::Fetch { index, key } => {
                ops.push(format!("get {}", key));
                after_fetch(index, PendingObject::Text(format!("text {}", index)))
            }
            PromotionAction::Store { index, key, contents } => {
                ops.push(format!("put {} {}", key, contents));
                after_store(index)
            }
            PromotionAction::Remove { index, key } => {
                ops.push(format!("delete {}", key));
                after_remove(index, index % 2 == 0)
            }
            PromotionAction::Done => break,
            PromotionAction::Fail(m) => panic!("{}", m),
        };
    }
    assert_eq!(ops.len(), 15);
    assert_eq!(ops[0], "get pending/routes.txt");
    assert_eq!(ops[1], "put active/routes.txt text 0");
    assert_eq!(ops[2], "delete pending/routes.txt");
    assert_eq!(ops[12], "get pending/calendar.txt");
    assert_eq!(ops[13], "put active/calendar.txt text 4");
    assert_eq!(ops[14], "delete pending/calendar.txt");
}

#[test]
fn promotion_stops_on_a_missing_or_empty_object() {
    match after_fetch(1, PendingObject::Missing) {
        PromotionAction::Fail(m) => assert_eq!(m, "trips.txt not found in pending slot"),
        _ => panic!("expected a failure"),
    }
    match after_fetch(2, PendingObject::NoBody) {
        PromotionAction::Fail(m) => assert_eq!(m, "pending/stop_times.txt has no body"),
        _ => panic!("expected a failure"),
    }
    assert!(matches!(after_remove(4, false), PromotionAction::Done));
    assert!(matches!(after_remove(0, false), PromotionAction::Fetch { index: 1, .. }));
}

#[test]
fn cron_patterns_choose_the_task() {
    assert_eq!(cron_task("0 3 * * 1"), CronTask::RefreshGtfs);
    assert_eq!(cron_task("*/15 * * * *"), CronTask::Departures);
    assert_eq!(cron_task("0 3 * * 2"), CronTask::Departures);
}

fn zip_of_bytes(entries: &[(&str, &[u8])]) -> Vec<u8> {
    let mut w = zip::ZipWriter::new(std::io::Cursor::new(Vec::new()));
    let options = zip::write::SimpleFileOptions::default().compression_method(zip::CompressionMethod::Stored);
    for (name, bytes) in entries {
        w.start_file(*name, options).unwrap();
        w.write_all(bytes).unwrap();
    }
    w.finish().unwrap().into_inner()
}

fn zip_of(entries: &[(&str, &str)]) -> Vec<u8> {
    let raw: Vec<(&str, &[u8])> = entries.iter().map(|(n, t)| (*n, t.as_bytes())).collect();
    zip_of_bytes(&raw)
}

#[test]
fn needed_files_are_read_from_the_archive() {
    let bytes = zip_of(&[
        ("agency.txt", "agency"),
        ("calendar.txt", "service_id,start_date\n"),
        ("stops.txt", "stop_id\n"),
        ("stop_times.txt", "trip_id\n"),
        ("trips.txt", "route_id\n"),
        ("routes.txt", "route_id,route_short_name\n"),
    ]);
    let files = extract_gtfs_files(bytes).ok().unwrap();
    let names: Vec<&str> = files.iter().map(|f| f.name.as_str()).collect();
    assert_eq!(names, vec!["routes.txt", "trips.txt", "stop_times.txt", "stops.txt", "calendar.txt"]);
    assert_eq!(files[0].contents, "route_id,route_short_name\n");
    assert_eq!(files[4].contents, "service_id,start_date\n");
}

#[test]
fn a_missing_file_is_reported() {
    let bytes = zip_of(&[("routes.txt", "r"), ("trips.txt", "t")]);
    let err = extract_gtfs_files(bytes).err().unwrap();
    assert!(err.starts_with("Missing stop_times.txt in zip: "), "{}", err);
}

#[test]
fn bytes_that_are_no_archive_are_reported() {
    let err = extract_gtfs_files(b"not a zip".to_vec()).err().unwrap();
    assert!(err.starts_with("Failed to open zip: "), "{}", err);
}

#[test]
fn a_file_that_is_not_text_is_reported() {
    let bytes = zip_of_bytes(&[("routes.txt", &[0xff, 0xfe, 0x00])]);
    let err = extract_gtfs_files(bytes).err().unwrap();
    assert!(err.starts_with("Failed to read routes.txt: "), "{}", err);
}

#[test]
fn the_first_failing_file_in_order_is_reported() {
    let bytes = zip_of_bytes(&[
        ("routes.txt", b"r"),
        ("stop_times.txt", &[0xff, 0xfe]),
        ("calendar.txt", b"c"),
    ]);
    let err = extract_gtfs_files(bytes).err().unwrap();
    assert!(err.starts_with("Missing trips.txt in zip: "), "{}", err);
    let bytes = zip_of_bytes(&[
        ("routes.txt", b"r"),
        ("trips.txt", b"t"),
        ("stop_times.txt", &[0xff, 0xfe]),
    ]);
    let err = extract_gtfs_files(bytes).err().unwrap();
    assert!(err.starts_with("Failed to read stop_times.txt: "), "{}", err);
}

#[test]
fn reordering_calendar_rows_keeps_the_earliest_start_date() {
    let a = "service_id,start_date\nA,20250301\nB,20240101\nC,20251201\n";
    let b = "service_id,start_date\nC,20251201\nA,20250301\nB,20240101\n";
    assert_eq!(earliest_start_date(a), earliest_start_date(b));
    assert_eq!(earliest_start_date(b), Some(JAN_1_2024));
}
