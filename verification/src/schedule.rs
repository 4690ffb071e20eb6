//! The static GTFS schedule: from the rows of `routes.txt`, `stops.txt`,
//! `calendar.txt`, `trips.txt` and `stop_times.txt`, the departures from our
//! stop on each weekday, in time order.
use vstd::prelude::*;
use vstd::multiset::Multiset;
use crate::clock::{format_time_hhmm, parse_gtfs_time, spec_hhmm, spec_parse_gtfs_time, SECONDS_PER_DAY};
use crate::config::Config;
use crate::text::string_views;

verus! {

// ---------------------------------------------------------------------------
// Rows of the GTFS files
// ---------------------------------------------------------------------------

pub struct GtfsRoute {
    pub route_id: String,
    pub route_short_name: String,
    pub route_long_name: String,
    pub route_color: String,
}

pub struct GtfsTrip {
    pub route_id: String,
    pub service_id: String,
    pub trip_id: String,
    pub trip_headsign: String,
    pub direction_id: u8,
}

pub struct GtfsStopTime {
    pub trip_id: String,
    pub departure_time: String,
    pub stop_id: String,
}

pub struct GtfsStop {
    pub stop_id: String,
    pub stop_name: String,
    pub location_type: Option<u8>,
    pub parent_station: Option<String>,
}

pub struct GtfsCalendar {
    pub service_id: String,
    pub monday: u8,
    pub tuesday: u8,
    pub wednesday: u8,
    pub thursday: u8,
    pub friday: u8,
    pub saturday: u8,
    pub sunday: u8,
}

/// A row as the CSV reader handed it over: the record, or the reader's error message.
pub type Row<T> = Result<T, String>;

/// The rows of the five GTFS files that the schedule is built from.
pub struct GtfsTables {
    pub routes: Vec<Row<GtfsRoute>>,
    pub trips: Vec<Row<GtfsTrip>>,
    pub stop_times: Vec<Row<GtfsStopTime>>,
    pub stops: Vec<Row<GtfsStop>>,
    pub calendar: Vec<Row<GtfsCalendar>>,
}

#[derive(PartialEq, Eq, Structural, Clone, Copy, Debug)]
pub enum Weekday {
    Mon,
    Tue,
    Wed,
    Thu,
    Fri,
    Sat,
    Sun,
}

/// The weekdays in calendar order.
pub open spec fn weekday_index(wd: Weekday) -> int {
    match wd {
        Weekday::Mon => 0,
        Weekday::Tue => 1,
        Weekday::Wed => 2,
        Weekday::Thu => 3,
        Weekday::Fri => 4,
        Weekday::Sat => 5,
        Weekday::Sun => 6,
    }
}

pub open spec fn weekday_at(i: int) -> Weekday {
    if i == 0 {
        Weekday::Mon
    } else if i == 1 {
        Weekday::Tue
    } else if i == 2 {
        Weekday::Wed
    } else if i == 3 {
        Weekday::Thu
    } else if i == 4 {
        Weekday::Fri
    } else if i == 5 {
        Weekday::Sat
    } else {
        Weekday::Sun
    }
}

/// The weekdays are numbered as the calendar counts days after Monday:
/// Monday 0, Tuesday 1, and so on to Sunday 6, and each number reads back as
/// its day.
pub proof fn law_weekday_numbering()
    ensures
        weekday_index(Weekday::Mon) == 0,
        weekday_index(Weekday::Tue) == 1,
        weekday_index(Weekday::Wed) == 2,
        weekday_index(Weekday::Thu) == 3,
        weekday_index(Weekday::Fri) == 4,
        weekday_index(Weekday::Sat) == 5,
        weekday_index(Weekday::Sun) == 6,
        forall|wd: Weekday| weekday_at(#[trigger] weekday_index(wd)) == wd,
        forall|k: int| 0 <= k < 7 ==> weekday_index(#[trigger] weekday_at(k)) == k,
{
}

impl Weekday {
    /// The day's place in the week, Monday first.
    pub fn index(&self) -> (res: usize)
        ensures
            res == weekday_index(*self),
            res < 7,
    {
        match self {
            Weekday::Mon => 0,
            Weekday::Tue => 1,
            Weekday::Wed => 2,
            Weekday::Thu => 3,
            Weekday::Fri => 4,
            Weekday::Sat => 5,
            Weekday::Sun => 6,
        }
    }

    /// The day at a place in the week, Monday first.
    pub fn from_index(i: usize) -> (res: Weekday)
        requires
            i < 7,
        ensures
            res == weekday_at(i as int),
            weekday_index(res) == i,
    {
        if i == 0 {
            Weekday::Mon
        } else if i == 1 {
            Weekday::Tue
        } else if i == 2 {
            Weekday::Wed
        } else if i == 3 {
            Weekday::Thu
        } else if i == 4 {
            Weekday::Fri
        } else if i == 5 {
            Weekday::Sat
        } else {
            Weekday::Sun
        }
    }
}

// ---------------------------------------------------------------------------
// Results
// ---------------------------------------------------------------------------

pub struct ScheduledDeparture {
    pub trip_id: String,
    /// Seconds since midnight.
    pub departure_time: u32,
    pub departure_time_str: String,
}

pub struct ScheduledDepartureView {
    pub trip_id: Seq<char>,
    pub departure_time: u32,
    pub departure_time_str: Seq<char>,
}

impl View for ScheduledDeparture {
    type V = ScheduledDepartureView;

    open spec fn view(&self) -> ScheduledDepartureView {
        ScheduledDepartureView {
            trip_id: self.trip_id@,
            departure_time: self.departure_time,
            departure_time_str: self.departure_time_str@,
        }
    }
}

pub open spec fn scheduled_views(v: Seq<ScheduledDeparture>) -> Seq<ScheduledDepartureView> {
    v.map_values(|d: ScheduledDeparture| d@)
}

pub struct RouteInfo {
    pub short_name: String,
    pub color: String,
}

pub struct RouteInfoView {
    pub short_name: Seq<char>,
    pub color: Seq<char>,
}

impl View for RouteInfo {
    type V = RouteInfoView;

    open spec fn view(&self) -> RouteInfoView {
        RouteInfoView { short_name: self.short_name@, color: self.color@ }
    }
}

/// Why a schedule could not be loaded.
pub enum ScheduleError {
    /// A row of a GTFS file could not be read; the reader's message.
    Csv(String),
    /// No route has the configured route id.
    RouteNotFound(String),
    /// No stop has the configured stop id.
    StopNotFound(String),
}

pub enum ScheduleErrorView {
    Csv(Seq<char>),
    RouteNotFound(Seq<char>),
    StopNotFound(Seq<char>),
}

impl View for ScheduleError {
    type V = ScheduleErrorView;

    open spec fn view(&self) -> ScheduleErrorView {
        match self {
            ScheduleError::Csv(m) => ScheduleErrorView::Csv(m@),
            ScheduleError::RouteNotFound(r) => ScheduleErrorView::RouteNotFound(r@),
            ScheduleError::StopNotFound(s) => ScheduleErrorView::StopNotFound(s@),
        }
    }
}

pub open spec fn error_message(e: ScheduleErrorView) -> Seq<char> {
    match e {
        ScheduleErrorView::Csv(m) => m,
        ScheduleErrorView::RouteNotFound(r) => "Route "@ + r + " not found"@,
        ScheduleErrorView::StopNotFound(s) => "Stop "@ + s + " not found"@,
    }
}

impl ScheduleError {
    /// The error as a sentence.
    pub fn message(&self) -> (res: String)
        ensures
            res@ == error_message(self@),
    {
        match self {
            ScheduleError::Csv(m) => m.clone(),
            ScheduleError::RouteNotFound(r) => {
                let mut s = "Route ".to_owned();
                s.append(r.as_str());
                s.append(" not found");
                s
            },
            ScheduleError::StopNotFound(id) => {
                let mut s = "Stop ".to_owned();
                s.append(id.as_str());
                s.append(" not found");
                s
            },
        }
    }
}

// ---------------------------------------------------------------------------
// Rows: errors and lookups
// ---------------------------------------------------------------------------

/// The message of the first row that could not be read.
pub open spec fn first_error<T>(rows: Seq<Row<T>>) -> Option<Seq<char>>
    decreases rows.len(),
{
    if rows.len() == 0 {
        None
    } else {
        match first_error(rows.drop_last()) {
            Some(e) => Some(e),
            None => match rows.last() {
                Err(e) => Some(e@),
                Ok(_) => None,
            },
        }
    }
}

fn copy_string(s: &String) -> (res: String)
    ensures
        res@ == s@,
{
    s.clone()
}

// ---------------------------------------------------------------------------
// routes.txt
// ---------------------------------------------------------------------------

/// The route info of the first route with the id `route_id`, unless a row
/// that could not be read comes first.
pub open spec fn spec_route_info(rows: Seq<Row<GtfsRoute>>, route_id: Seq<char>) -> Result<
    RouteInfoView,
    ScheduleErrorView,
>
    decreases rows.len(),
{
    if rows.len() == 0 {
        Err(ScheduleErrorView::RouteNotFound(route_id))
    } else {
        match rows[0] {
            Err(e) => Err(ScheduleErrorView::Csv(e@)),
            Ok(r) => if r.route_id@ == route_id {
                Ok(RouteInfoView { short_name: r.route_short_name@, color: r.route_color@ })
            } else {
                spec_route_info(rows.drop_first(), route_id)
            },
        }
    }
}

/// The short name and the color of the route `route_id`, as routes.txt
/// writes it.
pub fn load_route_info(rows: &Vec<Row<GtfsRoute>>, route_id: &String) -> (res: Result<
    RouteInfo,
    ScheduleError,
>)
    ensures
        match (res, spec_route_info(rows@, route_id@)) {
            (Ok(r), Ok(v)) => r@ == v,
            (Err(e), Err(v)) => e@ == v,
            _ => false,
        },
{
    let mut i: usize = 0;
    assert(rows@.subrange(0, rows@.len() as int) =~= rows@);
    while i < rows.len()
        invariant
            i <= rows.len(),
            spec_route_info(rows@, route_id@) == spec_route_info(
                rows@.subrange(i as int, rows@.len() as int),
                route_id@,
            ),
        decreases rows.len() - i,
    {
        assert(rows@.subrange(i as int, rows@.len() as int).drop_first() =~= rows@.subrange(
            i + 1,
            rows@.len() as int,
        ));
        match &rows[i] {
            Err(e) => {
                return Err(ScheduleError::Csv(copy_string(e)));
            },
            Ok(route) => {
                if route.route_id == *route_id {
                    return Ok(
                        RouteInfo {
                            short_name: copy_string(&route.route_short_name),
                            color: copy_string(&route.route_color),
                        },
                    );
                }
            },
        }
        i = i + 1;
    }
    Err(ScheduleError::RouteNotFound(copy_string(route_id)))
}

// ---------------------------------------------------------------------------
// Rows: the first error
// ---------------------------------------------------------------------------

/// The message of the first row that could not be read, if any.
pub fn first_row_error<T>(rows: &Vec<Row<T>>) -> (res: Option<String>)
    ensures
        match first_error(rows@) {
            Some(e) => res matches Some(m) && m@ == e,
            None => res is None,
        },
{
    let mut i: usize = 0;
    while i < rows.len()
        invariant
            i <= rows.len(),
            first_error(rows@.take(i as int)) is None,
        decreases rows.len() - i,
    {
        assert(rows@.take(i + 1).drop_last() =~= rows@.take(i as int));
        match &rows[i] {
            Err(e) => {
                proof {
                    lemma_first_error_prefix(rows@, i + 1);
                }
                return Some(copy_string(e));
            },
            Ok(_) => {},
        }
        i = i + 1;
    }
    assert(rows@.take(rows.len() as int) =~= rows@);
    None
}

/// An error among the first rows is the first error of all of them.
proof fn lemma_first_error_prefix<T>(rows: Seq<Row<T>>, i: int)
    requires
        0 <= i <= rows.len(),
        first_error(rows.take(i)) is Some,
    ensures
        first_error(rows) == first_error(rows.take(i)),
    decreases rows.len() - i,
{
    if i < rows.len() {
        assert(rows.take(i + 1).drop_last() =~= rows.take(i));
        lemma_first_error_prefix(rows, i + 1);
    } else {
        assert(rows.take(i) =~= rows);
    }
}

// ---------------------------------------------------------------------------
// stops.txt
// ---------------------------------------------------------------------------

/// The last readable stop row with the id `id`.
pub open spec fn last_stop_with_id(rows: Seq<Row<GtfsStop>>, id: Seq<char>) -> Option<GtfsStop>
    decreases rows.len(),
{
    if rows.len() == 0 {
        None
    } else {
        match rows.last() {
            Ok(s) => if s.stop_id@ == id {
                Some(s)
            } else {
                last_stop_with_id(rows.drop_last(), id)
            },
            Err(_) => last_stop_with_id(rows.drop_last(), id),
        }
    }
}

/// The name to show for the stop `stop_id`: the name of its parent station
/// where it names one that `stops.txt` holds, else its own name.
pub open spec fn spec_station_name(rows: Seq<Row<GtfsStop>>, stop_id: Seq<char>) -> Result<
    Seq<char>,
    ScheduleErrorView,
> {
    match first_error(rows) {
        Some(e) => Err(ScheduleErrorView::Csv(e)),
        None => match last_stop_with_id(rows, stop_id) {
            None => Err(ScheduleErrorView::StopNotFound(stop_id)),
            Some(s) => match s.parent_station {
                Some(pid) => match last_stop_with_id(rows, pid@) {
                    Some(p) => Ok(p.stop_name@),
                    None => Ok(s.stop_name@),
                },
                None => Ok(s.stop_name@),
            },
        },
    }
}

fn find_last_stop<'a>(rows: &'a Vec<Row<GtfsStop>>, id: &String) -> (res: Option<&'a GtfsStop>)
    ensures
        match last_stop_with_id(rows@, id@) {
            Some(s) => res == Some(&s),
            None => res is None,
        },
{
    let mut i: usize = rows.len();
    assert(rows@.take(rows.len() as int) =~= rows@);
    while i > 0
        invariant
            i <= rows.len(),
            last_stop_with_id(rows@, id@) == last_stop_with_id(rows@.take(i as int), id@),
        decreases i,
    {
        assert(rows@.take(i as int).drop_last() =~= rows@.take(i - 1));
        match &rows[i - 1] {
            Ok(s) => {
                if s.stop_id == *id {
                    return Some(s);
                }
            },
            Err(_) => {},
        }
        i = i - 1;
    }
    None
}

/// The name to show for our stop: its parent station's name when there is one.
pub fn load_station_name(rows: &Vec<Row<GtfsStop>>, stop_id: &String) -> (res: Result<
    String,
    ScheduleError,
>)
    ensures
        match (res, spec_station_name(rows@, stop_id@)) {
            (Ok(r), Ok(v)) => r@ == v,
            (Err(e), Err(v)) => e@ == v,
            _ => false,
        },
{
    if let Some(e) = first_row_error(rows) {
        return Err(ScheduleError::Csv(e));
    }
    match find_last_stop(rows, stop_id) {
        None => Err(ScheduleError::StopNotFound(copy_string(stop_id))),
        Some(stop) => {
            match &stop.parent_station {
                Some(pid) => match find_last_stop(rows, pid) {
                    Some(parent) => Ok(copy_string(&parent.stop_name)),
                    None => Ok(copy_string(&stop.stop_name)),
                },
                None => Ok(copy_string(&stop.stop_name)),
            }
        },
    }
}

// ---------------------------------------------------------------------------
// calendar.txt
// ---------------------------------------------------------------------------

/// The weekdays on which a service runs.
pub struct ServiceDays {
    pub service_id: String,
    pub weekdays: Vec<Weekday>,
}

/// The weekday `wd` if the calendar flag is 1, else nothing.
pub open spec fn day_if(flag: u8, wd: Weekday) -> Seq<Weekday> {
    if flag == 1 {
        seq![wd]
    } else {
        Seq::empty()
    }
}

/// The days a calendar row marks with 1, Monday first.
pub open spec fn calendar_weekdays(c: GtfsCalendar) -> Seq<Weekday> {
    day_if(c.monday, Weekday::Mon) + day_if(c.tuesday, Weekday::Tue) + day_if(
        c.wednesday,
        Weekday::Wed,
    ) + day_if(c.thursday, Weekday::Thu) + day_if(c.friday, Weekday::Fri) + day_if(
        c.saturday,
        Weekday::Sat,
    ) + day_if(c.sunday, Weekday::Sun)
}

pub open spec fn service_days_view(d: ServiceDays) -> (Seq<char>, Seq<Weekday>) {
    (d.service_id@, d.weekdays@)
}

pub open spec fn service_days_views(v: Seq<ServiceDays>) -> Seq<(Seq<char>, Seq<Weekday>)> {
    v.map_values(|d: ServiceDays| service_days_view(d))
}

proof fn lemma_day_if_contains(flag: u8, day: Weekday, wd: Weekday)
    ensures
        day_if(flag, day).contains(wd) <==> (flag == 1 && day == wd),
{
    if flag == 1 {
        assert(day_if(flag, day)[0] == day);
    }
}

proof fn lemma_concat_contains(a: Seq<Weekday>, b: Seq<Weekday>, x: Weekday)
    ensures
        (a + b).contains(x) <==> a.contains(x) || b.contains(x),
{
    if (a + b).contains(x) {
        let k = choose|k: int| 0 <= k < (a + b).len() && (a + b)[k] == x;
        if k < a.len() {
            assert(a[k] == x);
        } else {
            assert(b[k - a.len()] == x);
        }
    }
    if a.contains(x) {
        let k = choose|k: int| 0 <= k < a.len() && a[k] == x;
        assert((a + b)[k] == x);
    }
    if b.contains(x) {
        let k = choose|k: int| 0 <= k < b.len() && b[k] == x;
        assert((a + b)[a.len() + k] == x);
    }
}

/// A calendar row's service runs on a weekday exactly when the row marks that
/// day's own column with 1: `monday` for Monday, through `sunday` for Sunday.
pub proof fn law_calendar_columns(c: GtfsCalendar)
    ensures
        calendar_weekdays(c).contains(Weekday::Mon) <==> c.monday == 1,
        calendar_weekdays(c).contains(Weekday::Tue) <==> c.tuesday == 1,
        calendar_weekdays(c).contains(Weekday::Wed) <==> c.wednesday == 1,
        calendar_weekdays(c).contains(Weekday::Thu) <==> c.thursday == 1,
        calendar_weekdays(c).contains(Weekday::Fri) <==> c.friday == 1,
        calendar_weekdays(c).contains(Weekday::Sat) <==> c.saturday == 1,
        calendar_weekdays(c).contains(Weekday::Sun) <==> c.sunday == 1,
{
    assert forall|wd: Weekday| #[trigger] calendar_weekdays(c).contains(wd) <==> (
        (c.monday == 1 && wd == Weekday::Mon) || (c.tuesday == 1 && wd == Weekday::Tue) || (
        c.wednesday == 1 && wd == Weekday::Wed) || (c.thursday == 1 && wd == Weekday::Thu) || (
        c.friday == 1 && wd == Weekday::Fri) || (c.saturday == 1 && wd == Weekday::Sat) || (
        c.sunday == 1 && wd == Weekday::Sun)) by {
        let a1 = day_if(c.monday, Weekday::Mon);
        let a2 = day_if(c.tuesday, Weekday::Tue);
        let a3 = day_if(c.wednesday, Weekday::Wed);
        let a4 = day_if(c.thursday, Weekday::Thu);
        let a5 = day_if(c.friday, Weekday::Fri);
        let a6 = day_if(c.saturday, Weekday::Sat);
        let a7 = day_if(c.sunday, Weekday::Sun);
        lemma_day_if_contains(c.monday, Weekday::Mon, wd);
        lemma_day_if_contains(c.tuesday, Weekday::Tue, wd);
        lemma_day_if_contains(c.wednesday, Weekday::Wed, wd);
        lemma_day_if_contains(c.thursday, Weekday::Thu, wd);
        lemma_day_if_contains(c.friday, Weekday::Fri, wd);
        lemma_day_if_contains(c.saturday, Weekday::Sat, wd);
        lemma_day_if_contains(c.sunday, Weekday::Sun, wd);
        lemma_concat_contains(a1, a2, wd);
        lemma_concat_contains(a1 + a2, a3, wd);
        lemma_concat_contains(a1 + a2 + a3, a4, wd);
        lemma_concat_contains(a1 + a2 + a3 + a4, a5, wd);
        lemma_concat_contains(a1 + a2 + a3 + a4 + a5, a6, wd);
        lemma_concat_contains(a1 + a2 + a3 + a4 + a5 + a6, a7, wd);
    }
    assert(calendar_weekdays(c).contains(Weekday::Mon) <==> c.monday == 1);
    assert(calendar_weekdays(c).contains(Weekday::Tue) <==> c.tuesday == 1);
    assert(calendar_weekdays(c).contains(Weekday::Wed) <==> c.wednesday == 1);
    assert(calendar_weekdays(c).contains(Weekday::Thu) <==> c.thursday == 1);
    assert(calendar_weekdays(c).contains(Weekday::Fri) <==> c.friday == 1);
    assert(calendar_weekdays(c).contains(Weekday::Sat) <==> c.saturday == 1);
    assert(calendar_weekdays(c).contains(Weekday::Sun) <==> c.sunday == 1);
}

/// A readable calendar row as a service and its weekdays.
pub open spec fn calendar_entry(r: Row<GtfsCalendar>) -> (Seq<char>, Seq<Weekday>) {
    match r {
        Ok(c) => (c.service_id@, calendar_weekdays(c)),
        Err(_) => (Seq::empty(), Seq::empty()),
    }
}

/// Each calendar row as a service and its weekdays, in file order.
pub open spec fn spec_calendar(rows: Seq<Row<GtfsCalendar>>) -> Result<
    Seq<(Seq<char>, Seq<Weekday>)>,
    ScheduleErrorView,
> {
    match first_error(rows) {
        Some(e) => Err(ScheduleErrorView::Csv(e)),
        None => Ok(rows.map_values(|r: Row<GtfsCalendar>| calendar_entry(r))),
    }
}

/// The weekdays of the service `service_id`: those of its last calendar row.
pub open spec fn weekdays_of(cal: Seq<(Seq<char>, Seq<Weekday>)>, service_id: Seq<char>) -> Option<
    Seq<Weekday>,
>
    decreases cal.len(),
{
    if cal.len() == 0 {
        None
    } else if cal.last().0 == service_id {
        Some(cal.last().1)
    } else {
        weekdays_of(cal.drop_last(), service_id)
    }
}

fn push_if(w: &mut Vec<Weekday>, flag: u8, wd: Weekday)
    ensures
        final(w)@ == old(w)@ + day_if(flag, wd),
{
    if flag == 1 {
        w.push(wd);
    }
    assert(w@ =~= old(w)@ + day_if(flag, wd));
}

fn row_weekdays(c: &GtfsCalendar) -> (res: Vec<Weekday>)
    ensures
        res@ == calendar_weekdays(*c),
{
    let mut w: Vec<Weekday> = Vec::new();
    push_if(&mut w, c.monday, Weekday::Mon);
    push_if(&mut w, c.tuesday, Weekday::Tue);
    push_if(&mut w, c.wednesday, Weekday::Wed);
    push_if(&mut w, c.thursday, Weekday::Thu);
    push_if(&mut w, c.friday, Weekday::Fri);
    push_if(&mut w, c.saturday, Weekday::Sat);
    push_if(&mut w, c.sunday, Weekday::Sun);
    assert(w@ =~= calendar_weekdays(*c));
    w
}

/// The weekdays of each service in `calendar.txt`, in file order.
pub fn load_calendar(rows: &Vec<Row<GtfsCalendar>>) -> (res: Result<Vec<ServiceDays>, ScheduleError>)
    ensures
        match (res, spec_calendar(rows@)) {
            (Ok(r), Ok(v)) => service_days_views(r@) == v,
            (Err(e), Err(v)) => e@ == v,
            _ => false,
        },
{
    if let Some(e) = first_row_error(rows) {
        return Err(ScheduleError::Csv(e));
    }
    let mut res: Vec<ServiceDays> = Vec::new();
    let mut i: usize = 0;
    while i < rows.len()
        invariant
            i <= rows.len(),
            service_days_views(res@) == rows@.take(i as int).map_values(
                |r: Row<GtfsCalendar>| calendar_entry(r),
            ),
        decreases rows.len() - i,
    {
        let ghost before = service_days_views(res@);
        match &rows[i] {
            Ok(c) => {
                let d = ServiceDays { service_id: copy_string(&c.service_id), weekdays: row_weekdays(c) };
                res.push(d);
                assert(service_days_views(res@) =~= before.push(calendar_entry(rows@[i as int])));
            },
            Err(e) => {
                let d = ServiceDays { service_id: String::new(), weekdays: Vec::new() };
                res.push(d);
                assert(service_days_views(res@) =~= before.push(calendar_entry(rows@[i as int])));
            },
        }
        assert(rows@.take(i + 1).map_values(|r: Row<GtfsCalendar>| calendar_entry(r))
            =~= rows@.take(i as int).map_values(|r: Row<GtfsCalendar>| calendar_entry(r)).push(
            calendar_entry(rows@[i as int]),
        ));
        i = i + 1;
    }
    assert(rows@.take(rows.len() as int) =~= rows@);
    Ok(res)
}

/// The weekdays of a service, by its last entry.
pub fn service_weekdays<'a>(cal: &'a Vec<ServiceDays>, service_id: &String) -> (res: Option<&'a Vec<Weekday>>)
    ensures
        match weekdays_of(service_days_views(cal@), service_id@) {
            Some(w) => res matches Some(r) && r@ == w,
            None => res is None,
        },
{
    let ghost views = service_days_views(cal@);
    let mut i: usize = cal.len();
    assert(views.take(cal.len() as int) =~= views);
    while i > 0
        invariant
            i <= cal.len(),
            views == service_days_views(cal@),
            weekdays_of(views, service_id@) == weekdays_of(views.take(i as int), service_id@),
        decreases i,
    {
        assert(views.take(i as int).drop_last() =~= views.take(i - 1));
        if cal[i - 1].service_id == *service_id {
            return Some(&cal[i - 1].weekdays);
        }
        i = i - 1;
    }
    None
}

// ---------------------------------------------------------------------------
// trips.txt
// ---------------------------------------------------------------------------

/// The trips of one service, in file order.
pub struct ServiceTrips {
    pub service_id: String,
    pub trip_ids: Vec<String>,
}


pub open spec fn service_trips_view(g: ServiceTrips) -> (Seq<char>, Seq<Seq<char>>) {
    (g.service_id@, string_views(g.trip_ids@))
}

pub open spec fn service_trips_views(v: Seq<ServiceTrips>) -> Seq<(Seq<char>, Seq<Seq<char>>)> {
    v.map_values(|g: ServiceTrips| service_trips_view(g))
}

/// A trip on the route `route_id` in the direction `direction_id`.
pub open spec fn trip_selected(t: GtfsTrip, route_id: Seq<char>, direction_id: u8) -> bool {
    t.route_id@ == route_id && t.direction_id == direction_id
}

/// Where the group of the service `service_id` stands.
pub open spec fn group_index(g: Seq<(Seq<char>, Seq<Seq<char>>)>, service_id: Seq<char>) -> Option<
    int,
>
    decreases g.len(),
{
    if g.len() == 0 {
        None
    } else if g.last().0 == service_id {
        Some(g.len() - 1)
    } else {
        group_index(g.drop_last(), service_id)
    }
}

/// The groups with the trip `trip_id` added to its service's group, which is
/// opened at the end if the service has none yet.
pub open spec fn add_trip(
    g: Seq<(Seq<char>, Seq<Seq<char>>)>,
    service_id: Seq<char>,
    trip_id: Seq<char>,
) -> Seq<(Seq<char>, Seq<Seq<char>>)> {
    match group_index(g, service_id) {
        Some(k) => g.update(k, (g[k].0, g[k].1.push(trip_id))),
        None => g.push((service_id, seq![trip_id])),
    }
}

/// The selected trips grouped by service, services in the order of their first trip.
pub open spec fn spec_trip_groups(rows: Seq<Row<GtfsTrip>>, route_id: Seq<char>, direction_id: u8) -> Seq<
    (Seq<char>, Seq<Seq<char>>),
>
    decreases rows.len(),
{
    if rows.len() == 0 {
        Seq::empty()
    } else {
        let g = spec_trip_groups(rows.drop_last(), route_id, direction_id);
        match rows.last() {
            Ok(t) => if trip_selected(t, route_id, direction_id) {
                add_trip(g, t.service_id@, t.trip_id@)
            } else {
                g
            },
            Err(_) => g,
        }
    }
}

/// The headsign of the first selected trip that has one.
pub open spec fn spec_headsign(rows: Seq<Row<GtfsTrip>>, route_id: Seq<char>, direction_id: u8) -> Seq<
    char,
>
    decreases rows.len(),
{
    if rows.len() == 0 {
        Seq::empty()
    } else {
        let h = spec_headsign(rows.drop_last(), route_id, direction_id);
        match rows.last() {
            Ok(t) => if trip_selected(t, route_id, direction_id) && h.len() == 0 {
                t.trip_headsign@
            } else {
                h
            },
            Err(_) => h,
        }
    }
}

pub open spec fn spec_trips(rows: Seq<Row<GtfsTrip>>, route_id: Seq<char>, direction_id: u8) -> Result<
    (Seq<(Seq<char>, Seq<Seq<char>>)>, Seq<char>),
    ScheduleErrorView,
> {
    match first_error(rows) {
        Some(e) => Err(ScheduleErrorView::Csv(e)),
        None => Ok(
            (
                spec_trip_groups(rows, route_id, direction_id),
                spec_headsign(rows, route_id, direction_id),
            ),
        ),
    }
}

fn find_group(groups: &Vec<ServiceTrips>, service_id: &String) -> (res: Option<usize>)
    ensures
        match res {
            Some(k) => k < groups.len() && group_index(service_trips_views(groups@), service_id@)
                == Some(k as int),
            None => group_index(service_trips_views(groups@), service_id@) is None,
        },
{
    let ghost views = service_trips_views(groups@);
    let mut i: usize = groups.len();
    assert(views.take(groups.len() as int) =~= views);
    while i > 0
        invariant
            i <= groups.len(),
            views == service_trips_views(groups@),
            group_index(views, service_id@) == group_index(views.take(i as int), service_id@),
        decreases i,
    {
        assert(views.take(i as int).drop_last() =~= views.take(i - 1));
        if groups[i - 1].service_id == *service_id {
            return Some(i - 1);
        }
        i = i - 1;
    }
    None
}

/// The trips on our route and direction, grouped by service, and the headsign to show.
pub fn load_trips(rows: &Vec<Row<GtfsTrip>>, route_id: &String, direction_id: u8) -> (res: Result<
    (Vec<ServiceTrips>, String),
    ScheduleError,
>)
    ensures
        match (res, spec_trips(rows@, route_id@, direction_id)) {
            (Ok((g, h)), Ok((vg, vh))) => service_trips_views(g@) == vg && h@ == vh,
            (Err(e), Err(v)) => e@ == v,
            _ => false,
        },
{
    if let Some(e) = first_row_error(rows) {
        return Err(ScheduleError::Csv(e));
    }
    let mut groups: Vec<ServiceTrips> = Vec::new();
    let mut headsign = String::new();
    let mut i: usize = 0;
    while i < rows.len()
        invariant
            i <= rows.len(),
            service_trips_views(groups@) == spec_trip_groups(
                rows@.take(i as int),
                route_id@,
                direction_id,
            ),
            headsign@ == spec_headsign(rows@.take(i as int), route_id@, direction_id),
        decreases rows.len() - i,
    {
        assert(rows@.take(i + 1).drop_last() =~= rows@.take(i as int));
        assert(rows@.take(i + 1).last() == rows@[i as int]);
        match &rows[i] {
            Ok(trip) => {
                if trip.route_id == *route_id && trip.direction_id == direction_id {
                    if headsign.as_str().is_empty() {
                        headsign = copy_string(&trip.trip_headsign);
                    }
                    let ghost before = service_trips_views(groups@);
                    match find_group(&groups, &trip.service_id) {
                        Some(k) => {
                            assert(group_index(before, trip.service_id@) == Some(k as int));
                            let mut group = groups.remove(k);
                            group.trip_ids.push(copy_string(&trip.trip_id));
                            let ghost gv = service_trips_view(group);
                            groups.insert(k, group);
                            assert(gv == (before[k as int].0, before[k as int].1.push(trip.trip_id@)))
                                by {
                                assert(string_views(group.trip_ids@) =~= before[k as int].1.push(
                                    trip.trip_id@,
                                ));
                            }
                            assert(service_trips_views(groups@) =~= before.update(k as int, gv));
                            assert(service_trips_views(groups@) == add_trip(
                                before,
                                trip.service_id@,
                                trip.trip_id@,
                            ));
                        },
                        None => {
                            let mut ids: Vec<String> = Vec::new();
                            ids.push(copy_string(&trip.trip_id));
                            let group = ServiceTrips { service_id: copy_string(&trip.service_id), trip_ids: ids };
                            assert(string_views(group.trip_ids@) =~= seq![trip.trip_id@]);
                            groups.push(group);
                            assert(service_trips_views(groups@) =~= before.push(
                                (trip.service_id@, seq![trip.trip_id@]),
                            ));
                            assert(service_trips_views(groups@) == add_trip(
                                before,
                                trip.service_id@,
                                trip.trip_id@,
                            ));
                        },
                    }
                }
            },
            Err(_) => {},
        }
        i = i + 1;
    }
    assert(rows@.take(rows.len() as int) =~= rows@);
    Ok((groups, headsign))
}

// ---------------------------------------------------------------------------
// stop_times.txt
// ---------------------------------------------------------------------------

/// When a trip leaves our stop, as a time of day and as `HH:MM`.
pub struct StopTimeEntry {
    pub trip_id: String,
    pub time: u32,
    pub time_str: String,
}

pub open spec fn stop_time_entry_view(e: StopTimeEntry) -> (Seq<char>, u32, Seq<char>) {
    (e.trip_id@, e.time, e.time_str@)
}

pub open spec fn stop_time_entry_views(v: Seq<StopTimeEntry>) -> Seq<(Seq<char>, u32, Seq<char>)> {
    v.map_values(|e: StopTimeEntry| stop_time_entry_view(e))
}

/// The trip ids of all groups, group after group.
pub open spec fn flatten_trip_ids(g: Seq<(Seq<char>, Seq<Seq<char>>)>) -> Seq<Seq<char>>
    decreases g.len(),
{
    if g.len() == 0 {
        Seq::empty()
    } else {
        flatten_trip_ids(g.drop_last()) + g.last().1
    }
}

/// What a stop time row tells: a departure of one of the trips `trip_ids` from
/// the stop `stop_id`, at a time that parses.
pub open spec fn stop_time_entry(r: Row<GtfsStopTime>, trip_ids: Seq<Seq<char>>, stop_id: Seq<char>) -> Option<
    (Seq<char>, u32, Seq<char>),
> {
    match r {
        Ok(st) => if trip_ids.contains(st.trip_id@) && st.stop_id@ == stop_id {
            match spec_parse_gtfs_time(st.departure_time@) {
                Some(t) => Some((st.trip_id@, t as u32, spec_hhmm(t))),
                None => None,
            }
        } else {
            None
        },
        Err(_) => None,
    }
}

pub open spec fn spec_stop_time_entries(
    rows: Seq<Row<GtfsStopTime>>,
    trip_ids: Seq<Seq<char>>,
    stop_id: Seq<char>,
) -> Seq<(Seq<char>, u32, Seq<char>)>
    decreases rows.len(),
{
    if rows.len() == 0 {
        Seq::empty()
    } else {
        let prev = spec_stop_time_entries(rows.drop_last(), trip_ids, stop_id);
        match stop_time_entry(rows.last(), trip_ids, stop_id) {
            Some(e) => prev.push(e),
            None => prev,
        }
    }
}

pub open spec fn spec_stop_times(
    rows: Seq<Row<GtfsStopTime>>,
    trip_ids: Seq<Seq<char>>,
    stop_id: Seq<char>,
) -> Result<Seq<(Seq<char>, u32, Seq<char>)>, ScheduleErrorView> {
    match first_error(rows) {
        Some(e) => Err(ScheduleErrorView::Csv(e)),
        None => Ok(spec_stop_time_entries(rows, trip_ids, stop_id)),
    }
}

/// The departure of the trip `trip_id`: its last entry.
pub open spec fn stop_time_of(entries: Seq<(Seq<char>, u32, Seq<char>)>, trip_id: Seq<char>) -> Option<
    (Seq<char>, u32, Seq<char>),
>
    decreases entries.len(),
{
    if entries.len() == 0 {
        None
    } else if entries.last().0 == trip_id {
        Some(entries.last())
    } else {
        stop_time_of(entries.drop_last(), trip_id)
    }
}

/// Every entry's time is a time of day, shown as `HH:MM`.
pub open spec fn entries_within_day(entries: Seq<(Seq<char>, u32, Seq<char>)>) -> bool {
    forall|k: int|
        0 <= k < entries.len() ==> (#[trigger] entries[k]).1 < SECONDS_PER_DAY && entries[k].2
            == spec_hhmm(entries[k].1 as int)
}

fn contains_string(v: &Vec<String>, s: &String) -> (res: bool)
    ensures
        res == string_views(v@).contains(s@),
{
    let mut i: usize = 0;
    while i < v.len()
        invariant
            i <= v.len(),
            forall|k: int| 0 <= k < i ==> v@[k]@ != s@,
        decreases v.len() - i,
    {
        if v[i] == *s {
            assert(string_views(v@)[i as int] == s@);
            return true;
        }
        i = i + 1;
    }
    assert(!string_views(v@).contains(s@)) by {
        if string_views(v@).contains(s@) {
            let k = choose|k: int| 0 <= k < string_views(v@).len() && string_views(v@)[k] == s@;
            assert(v@[k]@ == s@);
        }
    }
    false
}

/// All trip ids of the groups, group after group.
pub fn all_trip_ids(groups: &Vec<ServiceTrips>) -> (res: Vec<String>)
    ensures
        string_views(res@) == flatten_trip_ids(service_trips_views(groups@)),
{
    let ghost gv = service_trips_views(groups@);
    let mut res: Vec<String> = Vec::new();
    let mut i: usize = 0;
    while i < groups.len()
        invariant
            i <= groups.len(),
            gv == service_trips_views(groups@),
            string_views(res@) == flatten_trip_ids(gv.take(i as int)),
        decreases groups.len() - i,
    {
        let ids = &groups[i].trip_ids;
        let ghost base = string_views(res@);
        let mut j: usize = 0;
        while j < ids.len()
            invariant
                j <= ids.len(),
                i < groups.len(),
                ids@ == groups@[i as int].trip_ids@,
                string_views(res@) == base + string_views(ids@).take(j as int),
            decreases ids.len() - j,
        {
            let ghost prev = res@;
            res.push(copy_string(&ids[j]));
            assert(res@ =~= prev.push(res@.last()));
            assert(string_views(res@) =~= string_views(prev).push(ids@[j as int]@));
            assert(string_views(res@) =~= base + string_views(ids@).take(j + 1));
            j = j + 1;
        }
        assert(string_views(ids@).take(ids.len() as int) =~= string_views(ids@));
        assert(gv.take(i + 1).drop_last() =~= gv.take(i as int));
        assert(gv.take(i + 1).last() == gv[i as int]);
        i = i + 1;
    }
    assert(gv.take(groups.len() as int) =~= gv);
    res
}

/// The departures from our stop of the trips `trip_ids`, in file order.
pub fn load_stop_times(rows: &Vec<Row<GtfsStopTime>>, trip_ids: &Vec<String>, stop_id: &String) -> (res:
    Result<Vec<StopTimeEntry>, ScheduleError>)
    ensures
        match (res, spec_stop_times(rows@, string_views(trip_ids@), stop_id@)) {
            (Ok(r), Ok(v)) => stop_time_entry_views(r@) == v,
            (Err(e), Err(v)) => e@ == v,
            _ => false,
        },
        res matches Ok(r) ==> entries_within_day(stop_time_entry_views(r@)),
{
    if let Some(e) = first_row_error(rows) {
        return Err(ScheduleError::Csv(e));
    }
    let ghost ids = string_views(trip_ids@);
    let mut res: Vec<StopTimeEntry> = Vec::new();
    let mut i: usize = 0;
    while i < rows.len()
        invariant
            i <= rows.len(),
            ids == string_views(trip_ids@),
            stop_time_entry_views(res@) == spec_stop_time_entries(
                rows@.take(i as int),
                ids,
                stop_id@,
            ),
            entries_within_day(stop_time_entry_views(res@)),
        decreases rows.len() - i,
    {
        assert(rows@.take(i + 1).drop_last() =~= rows@.take(i as int));
        assert(rows@.take(i + 1).last() == rows@[i as int]);
        let ghost before = stop_time_entry_views(res@);
        match &rows[i] {
            Ok(st) => {
                if contains_string(trip_ids, &st.trip_id) && st.stop_id == *stop_id {
                    match parse_gtfs_time(st.departure_time.as_str()) {
                        Some(time) => {
                            let e = StopTimeEntry {
                                trip_id: copy_string(&st.trip_id),
                                time,
                                time_str: format_time_hhmm(time),
                            };
                            res.push(e);
                            assert(stop_time_entry_views(res@) =~= before.push(
                                stop_time_entry_view(e),
                            ));
                        },
                        None => {},
                    }
                }
            },
            Err(_) => {},
        }
        i = i + 1;
    }
    assert(rows@.take(rows.len() as int) =~= rows@);
    Ok(res)
}

// ---------------------------------------------------------------------------
// Departures by weekday
// ---------------------------------------------------------------------------

/// The departure of the trip `trip_id` from our stop, if it has one.
pub open spec fn trip_departure(entries: Seq<(Seq<char>, u32, Seq<char>)>, trip_id: Seq<char>) -> Option<
    ScheduledDepartureView,
> {
    match stop_time_of(entries, trip_id) {
        Some(e) => Some(
            ScheduledDepartureView { trip_id, departure_time: e.1, departure_time_str: e.2 },
        ),
        None => None,
    }
}

/// The departures of the trips `trip_ids` that have one, in that order.
pub open spec fn trips_departures(
    trip_ids: Seq<Seq<char>>,
    entries: Seq<(Seq<char>, u32, Seq<char>)>,
) -> Seq<ScheduledDepartureView>
    decreases trip_ids.len(),
{
    if trip_ids.len() == 0 {
        Seq::empty()
    } else {
        let prev = trips_departures(trip_ids.drop_last(), entries);
        match trip_departure(entries, trip_ids.last()) {
            Some(d) => prev.push(d),
            None => prev,
        }
    }
}

/// Whether the service `service_id` runs on the weekday `wd`.
pub open spec fn runs_on(cal: Seq<(Seq<char>, Seq<Weekday>)>, service_id: Seq<char>, wd: Weekday) -> bool {
    weekdays_of(cal, service_id) matches Some(ws) && ws.contains(wd)
}

/// The departures on the weekday `wd`, service group after service group, before sorting.
pub open spec fn weekday_departures(
    groups: Seq<(Seq<char>, Seq<Seq<char>>)>,
    cal: Seq<(Seq<char>, Seq<Weekday>)>,
    entries: Seq<(Seq<char>, u32, Seq<char>)>,
    wd: Weekday,
) -> Seq<ScheduledDepartureView>
    decreases groups.len(),
{
    if groups.len() == 0 {
        Seq::empty()
    } else {
        let prev = weekday_departures(groups.drop_last(), cal, entries, wd);
        if runs_on(cal, groups.last().0, wd) {
            prev + trips_departures(groups.last().1, entries)
        } else {
            prev
        }
    }
}

/// Where a departure at the time `t` goes in `s`: after the last departure no later than `t`.
pub open spec fn insert_pos(s: Seq<ScheduledDepartureView>, t: u32) -> int
    decreases s.len(),
{
    if s.len() == 0 {
        0
    } else if s.last().departure_time <= t {
        s.len() as int
    } else {
        insert_pos(s.drop_last(), t)
    }
}

pub open spec fn insert_sorted(s: Seq<ScheduledDepartureView>, d: ScheduledDepartureView) -> Seq<
    ScheduledDepartureView,
> {
    let p = insert_pos(s, d.departure_time);
    s.take(p) + seq![d] + s.skip(p)
}

/// `s` sorted by departure time, stably (as `sort_by_key` sorts): departures
/// at the same time keep their order.
pub open spec fn sort_by_time(s: Seq<ScheduledDepartureView>) -> Seq<ScheduledDepartureView>
    decreases s.len(),
{
    if s.len() == 0 {
        Seq::empty()
    } else {
        insert_sorted(sort_by_time(s.drop_last()), s.last())
    }
}

pub open spec fn sorted_by_time(s: Seq<ScheduledDepartureView>) -> bool {
    forall|i: int, j: int| 0 <= i <= j < s.len() ==> s[i].departure_time <= s[j].departure_time
}

/// Every departure is at a time of day, and its text is that time as `HH:MM`.
pub open spec fn times_within_day(s: Seq<ScheduledDepartureView>) -> bool {
    forall|i: int|
        0 <= i < s.len() ==> (#[trigger] s[i]).departure_time < SECONDS_PER_DAY
            && s[i].departure_time_str == spec_hhmm(s[i].departure_time as int)
}

proof fn lemma_insert_pos_bounds(s: Seq<ScheduledDepartureView>, t: u32)
    ensures
        0 <= insert_pos(s, t) <= s.len(),
        forall|k: int| insert_pos(s, t) <= k < s.len() ==> s[k].departure_time > t,
        insert_pos(s, t) > 0 ==> s[insert_pos(s, t) - 1].departure_time <= t,
    decreases s.len(),
{
    if s.len() > 0 && s.last().departure_time > t {
        lemma_insert_pos_bounds(s.drop_last(), t);
        assert forall|k: int| insert_pos(s, t) <= k < s.len() implies s[k].departure_time > t by {
            if k < s.len() - 1 {
                assert(s[k] == s.drop_last()[k]);
            }
        }
        if insert_pos(s, t) > 0 {
            assert(s[insert_pos(s, t) - 1] == s.drop_last()[insert_pos(s, t) - 1]);
        }
    }
}

proof fn lemma_insert_sorted(s: Seq<ScheduledDepartureView>, d: ScheduledDepartureView)
    requires
        sorted_by_time(s),
    ensures
        sorted_by_time(insert_sorted(s, d)),
        insert_sorted(s, d).to_multiset() =~= s.to_multiset().insert(d),
        insert_sorted(s, d).len() == s.len() + 1,
{
    let p = insert_pos(s, d.departure_time);
    lemma_insert_pos_bounds(s, d.departure_time);
    let r = insert_sorted(s, d);
    assert forall|i: int, j: int| 0 <= i <= j < r.len() implies r[i].departure_time
        <= r[j].departure_time by {
        if i < p && j > p {
            assert(r[j] == s[j - 1]);
            assert(s[i].departure_time <= s[p - 1].departure_time);
        } else if i < p && j == p {
            assert(s[i].departure_time <= s[p - 1].departure_time);
        } else if i == p && j > p {
            assert(r[j] == s[j - 1]);
        } else if i > p {
            assert(r[i] == s[i - 1] && r[j] == s[j - 1]);
        }
    }
    vstd::seq_lib::lemma_multiset_commutative(s.take(p) + seq![d], s.skip(p));
    vstd::seq_lib::lemma_multiset_commutative(s.take(p), seq![d]);
    vstd::seq_lib::lemma_multiset_commutative(s.take(p), s.skip(p));
    assert(s.take(p) + s.skip(p) =~= s);
    assert(seq![d].to_multiset() =~= Multiset::empty().insert(d)) by {
        broadcast use vstd::seq_lib::group_to_multiset_ensures;
        assert(seq![d] =~= Seq::<ScheduledDepartureView>::empty().push(d));
    }
}

/// Sorting by time gives a sorted permutation.
pub proof fn lemma_sort_by_time(s: Seq<ScheduledDepartureView>)
    ensures
        sorted_by_time(sort_by_time(s)),
        sort_by_time(s).to_multiset() =~= s.to_multiset(),
        sort_by_time(s).len() == s.len(),
    decreases s.len(),
{
    broadcast use vstd::seq_lib::group_to_multiset_ensures;
    if s.len() > 0 {
        lemma_sort_by_time(s.drop_last());
        lemma_insert_sorted(sort_by_time(s.drop_last()), s.last());
        assert(s.drop_last().push(s.last()) =~= s);
    } else {
        assert(s.to_multiset() =~= Multiset::empty());
        assert(Seq::<ScheduledDepartureView>::empty().to_multiset() =~= Multiset::empty());
    }
}

/// A departure that one of the trips `trip_ids` makes from our stop.
pub open spec fn made_by_one_of(
    trip_ids: Seq<Seq<char>>,
    entries: Seq<(Seq<char>, u32, Seq<char>)>,
    d: ScheduledDepartureView,
) -> bool {
    trip_ids.contains(d.trip_id) && trip_departure(entries, d.trip_id) == Some(d)
}

/// A departure of a trip whose service runs on the weekday `wd`.
pub open spec fn departure_origin(
    groups: Seq<(Seq<char>, Seq<Seq<char>>)>,
    cal: Seq<(Seq<char>, Seq<Weekday>)>,
    entries: Seq<(Seq<char>, u32, Seq<char>)>,
    wd: Weekday,
    d: ScheduledDepartureView,
) -> bool {
    exists|gi: int|
        0 <= gi < groups.len() && runs_on(cal, #[trigger] groups[gi].0, wd) && made_by_one_of(
            groups[gi].1,
            entries,
            d,
        )
}

proof fn lemma_trips_departures_origin(
    trip_ids: Seq<Seq<char>>,
    entries: Seq<(Seq<char>, u32, Seq<char>)>,
)
    ensures
        forall|k: int|
            0 <= k < trips_departures(trip_ids, entries).len() ==> made_by_one_of(
                trip_ids,
                entries,
                #[trigger] trips_departures(trip_ids, entries)[k],
            ),
    decreases trip_ids.len(),
{
    if trip_ids.len() > 0 {
        let p = trip_ids.drop_last();
        lemma_trips_departures_origin(p, entries);
        let r = trips_departures(trip_ids, entries);
        let prev = trips_departures(p, entries);
        assert forall|k: int| 0 <= k < r.len() implies made_by_one_of(
            trip_ids,
            entries,
            #[trigger] r[k],
        ) by {
            if k < prev.len() {
                assert(r[k] == prev[k]);
                assert(made_by_one_of(p, entries, prev[k]));
                let j = choose|j: int| 0 <= j < p.len() && p[j] == prev[k].trip_id;
                assert(trip_ids[j] == p[j]);
            } else {
                assert(trip_ids[trip_ids.len() - 1] == trip_ids.last());
            }
        }
    }
}

proof fn lemma_weekday_departures_origin(
    groups: Seq<(Seq<char>, Seq<Seq<char>>)>,
    cal: Seq<(Seq<char>, Seq<Weekday>)>,
    entries: Seq<(Seq<char>, u32, Seq<char>)>,
    wd: Weekday,
)
    ensures
        forall|k: int|
            0 <= k < weekday_departures(groups, cal, entries, wd).len() ==> departure_origin(
                groups,
                cal,
                entries,
                wd,
                #[trigger] weekday_departures(groups, cal, entries, wd)[k],
            ),
    decreases groups.len(),
{
    if groups.len() > 0 {
        let p = groups.drop_last();
        lemma_weekday_departures_origin(p, cal, entries, wd);
        let r = weekday_departures(groups, cal, entries, wd);
        let prev = weekday_departures(p, cal, entries, wd);
        let n = groups.len() - 1;
        lemma_trips_departures_origin(groups.last().1, entries);
        let tail = trips_departures(groups.last().1, entries);
        assert forall|k: int| 0 <= k < r.len() implies departure_origin(
            groups,
            cal,
            entries,
            wd,
            #[trigger] r[k],
        ) by {
            if k < prev.len() {
                assert(r[k] == prev[k]);
                assert(departure_origin(p, cal, entries, wd, prev[k]));
                let gi = choose|gi: int|
                    0 <= gi < p.len() && runs_on(cal, #[trigger] p[gi].0, wd) && made_by_one_of(
                        p[gi].1,
                        entries,
                        prev[k],
                    );
                assert(groups[gi] == p[gi]);
            } else {
                assert(r[k] == tail[k - prev.len()]);
                assert(made_by_one_of(groups.last().1, entries, tail[k - prev.len()]));
                assert(groups[n] == groups.last());
            }
        }
    }
}

/// Each departure listed for a weekday is the departure from our stop of a
/// selected trip whose service runs on that weekday: its time and text are
/// the ones `stop_times.txt` gives for that trip.
pub proof fn law_departures_run_that_day(
    groups: Seq<(Seq<char>, Seq<Seq<char>>)>,
    cal: Seq<(Seq<char>, Seq<Weekday>)>,
    entries: Seq<(Seq<char>, u32, Seq<char>)>,
    wd: Weekday,
)
    ensures
        forall|k: int|
            0 <= k < sort_by_time(weekday_departures(groups, cal, entries, wd)).len()
                ==> departure_origin(
                groups,
                cal,
                entries,
                wd,
                #[trigger] sort_by_time(weekday_departures(groups, cal, entries, wd))[k],
            ),
{
    broadcast use vstd::seq_lib::group_to_multiset_ensures;
    let s = weekday_departures(groups, cal, entries, wd);
    let t = sort_by_time(s);
    lemma_sort_by_time(s);
    lemma_weekday_departures_origin(groups, cal, entries, wd);
    assert forall|k: int| 0 <= k < t.len() implies departure_origin(
        groups,
        cal,
        entries,
        wd,
        #[trigger] t[k],
    ) by {
        assert(t.contains(t[k]));
        assert(t.to_multiset().count(t[k]) > 0);
        assert(s.to_multiset().count(t[k]) > 0);
        assert(s.contains(t[k]));
        let j = choose|j: int| 0 <= j < s.len() && s[j] == t[k];
        assert(departure_origin(groups, cal, entries, wd, s[j]));
    }
}

proof fn lemma_trips_departures_complete(
    trip_ids: Seq<Seq<char>>,
    entries: Seq<(Seq<char>, u32, Seq<char>)>,
    ti: int,
)
    requires
        0 <= ti < trip_ids.len(),
        stop_time_of(entries, trip_ids[ti]) is Some,
    ensures
        trips_departures(trip_ids, entries).contains(
            ({
                let e = stop_time_of(entries, trip_ids[ti])->0;
                ScheduledDepartureView {
                    trip_id: trip_ids[ti],
                    departure_time: e.1,
                    departure_time_str: e.2,
                }
            }),
        ),
    decreases trip_ids.len(),
{
    let e = stop_time_of(entries, trip_ids[ti])->0;
    let d = ScheduledDepartureView { trip_id: trip_ids[ti], departure_time: e.1, departure_time_str: e.2 };
    let r = trips_departures(trip_ids, entries);
    let p = trip_ids.drop_last();
    let prev = trips_departures(p, entries);
    if ti < trip_ids.len() - 1 {
        assert(p[ti] == trip_ids[ti]);
        lemma_trips_departures_complete(p, entries, ti);
        let k = choose|k: int| 0 <= k < prev.len() && prev[k] == d;
        assert(r[k] == prev[k]);
    } else {
        assert(trip_ids.last() == trip_ids[ti]);
        assert(r[r.len() - 1] == d);
    }
}

proof fn lemma_weekday_departures_complete(
    groups: Seq<(Seq<char>, Seq<Seq<char>>)>,
    cal: Seq<(Seq<char>, Seq<Weekday>)>,
    entries: Seq<(Seq<char>, u32, Seq<char>)>,
    wd: Weekday,
    gi: int,
    d: ScheduledDepartureView,
)
    requires
        0 <= gi < groups.len(),
        runs_on(cal, groups[gi].0, wd),
        trips_departures(groups[gi].1, entries).contains(d),
    ensures
        weekday_departures(groups, cal, entries, wd).contains(d),
    decreases groups.len(),
{
    let p = groups.drop_last();
    let r = weekday_departures(groups, cal, entries, wd);
    let prev = weekday_departures(p, cal, entries, wd);
    if gi < groups.len() - 1 {
        assert(p[gi] == groups[gi]);
        lemma_weekday_departures_complete(p, cal, entries, wd, gi, d);
        let k = choose|k: int| 0 <= k < prev.len() && prev[k] == d;
        if runs_on(cal, groups.last().0, wd) {
            assert(r[k] == prev[k]);
        } else {
            assert(r == prev);
        }
    } else {
        assert(groups.last() == groups[gi]);
        let tail = trips_departures(groups[gi].1, entries);
        let k = choose|k: int| 0 <= k < tail.len() && tail[k] == d;
        assert(r[prev.len() + k] == tail[k]);
    }
}

/// Every selected trip whose service runs on the weekday `wd` and that has a
/// departure from our stop has that departure in the weekday's list, with the
/// time and text that `stop_times.txt` gives for it, whichever service group
/// the trip is in.
pub proof fn law_weekday_lists_every_departure(
    groups: Seq<(Seq<char>, Seq<Seq<char>>)>,
    cal: Seq<(Seq<char>, Seq<Weekday>)>,
    entries: Seq<(Seq<char>, u32, Seq<char>)>,
    wd: Weekday,
    gi: int,
    ti: int,
)
    requires
        0 <= gi < groups.len(),
        0 <= ti < groups[gi].1.len(),
        weekdays_of(cal, groups[gi].0) matches Some(ws) && ws.contains(wd),
        stop_time_of(entries, groups[gi].1[ti]) is Some,
    ensures
        sort_by_time(weekday_departures(groups, cal, entries, wd)).contains(
            ({
                let e = stop_time_of(entries, groups[gi].1[ti])->0;
                ScheduledDepartureView {
                    trip_id: groups[gi].1[ti],
                    departure_time: e.1,
                    departure_time_str: e.2,
                }
            }),
        ),
{
    broadcast use vstd::seq_lib::group_to_multiset_ensures;
    let e = stop_time_of(entries, groups[gi].1[ti])->0;
    let d = ScheduledDepartureView {
        trip_id: groups[gi].1[ti],
        departure_time: e.1,
        departure_time_str: e.2,
    };
    lemma_trips_departures_complete(groups[gi].1, entries, ti);
    lemma_weekday_departures_complete(groups, cal, entries, wd, gi, d);
    let s = weekday_departures(groups, cal, entries, wd);
    lemma_sort_by_time(s);
    assert(s.to_multiset().count(d) > 0);
    assert(sort_by_time(s).to_multiset().count(d) > 0);
}

fn copy_departure(d: &ScheduledDeparture) -> (res: ScheduledDeparture)
    ensures
        res@ == d@,
{
    ScheduledDeparture {
        trip_id: copy_string(&d.trip_id),
        departure_time: d.departure_time,
        departure_time_str: copy_string(&d.departure_time_str),
    }
}

/// Inserts a departure after the last one that leaves no later.
fn insert_by_time(list: &mut Vec<ScheduledDeparture>, d: ScheduledDeparture)
    ensures
        scheduled_views(final(list)@) == insert_sorted(scheduled_views(old(list)@), d@),
{
    let ghost v = scheduled_views(list@);
    let mut j: usize = list.len();
    assert(v.take(list.len() as int) =~= v);
    while j > 0 && list[j - 1].departure_time > d.departure_time
        invariant
            j <= list.len(),
            v == scheduled_views(list@),
            insert_pos(v, d.departure_time) == insert_pos(v.take(j as int), d.departure_time),
        decreases j,
    {
        assert(v.take(j as int).drop_last() =~= v.take(j - 1));
        j = j - 1;
    }
    proof {
        if j > 0 {
            assert(v.take(j as int).last() == v[j - 1]);
        }
    }
    assert(insert_pos(v, d.departure_time) == j);
    let ghost dv = d@;
    list.insert(j, d);
    assert(scheduled_views(list@) =~= v.take(j as int) + seq![dv] + v.skip(j as int));
}

/// The departure of a trip from its entry, if it has one.
fn find_departure(entries: &Vec<StopTimeEntry>, trip_id: &String) -> (res: Option<ScheduledDeparture>)
    ensures
        match trip_departure(stop_time_entry_views(entries@), trip_id@) {
            Some(d) => res matches Some(r) && r@ == d,
            None => res is None,
        },
{
    let ghost views = stop_time_entry_views(entries@);
    let mut i: usize = entries.len();
    assert(views.take(entries.len() as int) =~= views);
    while i > 0
        invariant
            i <= entries.len(),
            views == stop_time_entry_views(entries@),
            stop_time_of(views, trip_id@) == stop_time_of(views.take(i as int), trip_id@),
        decreases i,
    {
        assert(views.take(i as int).drop_last() =~= views.take(i - 1));
        let e = &entries[i - 1];
        if e.trip_id == *trip_id {
            assert(views.take(i as int).last() == views[i - 1]);
            return Some(
                ScheduledDeparture {
                    trip_id: copy_string(trip_id),
                    departure_time: e.time,
                    departure_time_str: copy_string(&e.time_str),
                },
            );
        }
        i = i - 1;
    }
    None
}

fn weekday_listed(ws: &Vec<Weekday>, wd: Weekday) -> (res: bool)
    ensures
        res == ws@.contains(wd),
{
    let mut i: usize = 0;
    while i < ws.len()
        invariant
            i <= ws.len(),
            forall|k: int| 0 <= k < i ==> ws@[k] != wd,
        decreases ws.len() - i,
    {
        if ws[i] == wd {
            assert(ws@[i as int] == wd);
            return true;
        }
        i = i + 1;
    }
    false
}

proof fn lemma_stop_time_of_within(entries: Seq<(Seq<char>, u32, Seq<char>)>, trip_id: Seq<char>)
    requires
        entries_within_day(entries),
    ensures
        stop_time_of(entries, trip_id) matches Some(e) ==> e.1 < SECONDS_PER_DAY && e.2 == spec_hhmm(
            e.1 as int,
        ),
    decreases entries.len(),
{
    if entries.len() > 0 {
        assert(entries.last() == entries[entries.len() - 1]);
        assert(entries_within_day(entries.drop_last()));
        lemma_stop_time_of_within(entries.drop_last(), trip_id);
    }
}

/// The departures on one weekday, sorted by time.
fn departures_for_weekday(
    groups: &Vec<ServiceTrips>,
    cal: &Vec<ServiceDays>,
    entries: &Vec<StopTimeEntry>,
    wd: Weekday,
) -> (res: Vec<ScheduledDeparture>)
    requires
        entries_within_day(stop_time_entry_views(entries@)),
    ensures
        scheduled_views(res@) == sort_by_time(
            weekday_departures(
                service_trips_views(groups@),
                service_days_views(cal@),
                stop_time_entry_views(entries@),
                wd,
            ),
        ),
        times_within_day(scheduled_views(res@)),
{
    let ghost gv = service_trips_views(groups@);
    let ghost cv = service_days_views(cal@);
    let ghost ev = stop_time_entry_views(entries@);
    let mut list: Vec<ScheduledDeparture> = Vec::new();
    let mut i: usize = 0;
    while i < groups.len()
        invariant
            i <= groups.len(),
            gv == service_trips_views(groups@),
            cv == service_days_views(cal@),
            ev == stop_time_entry_views(entries@),
            entries_within_day(ev),
            scheduled_views(list@) == sort_by_time(weekday_departures(gv.take(i as int), cv, ev, wd)),
            times_within_day(scheduled_views(list@)),
        decreases groups.len() - i,
    {
        let group = &groups[i];
        assert(gv.take(i + 1).drop_last() =~= gv.take(i as int));
        assert(gv.take(i + 1).last() == gv[i as int]);
        let ghost base = weekday_departures(gv.take(i as int), cv, ev, wd);
        let runs = match service_weekdays(cal, &group.service_id) {
            Some(ws) => weekday_listed(ws, wd),
            None => false,
        };
        if runs {
            let ids = &group.trip_ids;
            let ghost idv = string_views(ids@);
            let mut j: usize = 0;
            assert(base + trips_departures(idv.take(0), ev) =~= base);
            while j < ids.len()
                invariant
                    j <= ids.len(),
                    i < groups.len(),
                    ids@ == groups@[i as int].trip_ids@,
                    idv == string_views(ids@),
                    ev == stop_time_entry_views(entries@),
                    entries_within_day(ev),
                    scheduled_views(list@) == sort_by_time(base + trips_departures(idv.take(j as int), ev)),
                    times_within_day(scheduled_views(list@)),
                decreases ids.len() - j,
            {
                assert(idv.take(j + 1).drop_last() =~= idv.take(j as int));
                assert(idv.take(j + 1).last() == ids@[j as int]@);
                let ghost pre = base + trips_departures(idv.take(j as int), ev);
                match find_departure(entries, &ids[j]) {
                    Some(d) => {
                        proof {
                            lemma_stop_time_of_within(ev, ids@[j as int]@);
                            lemma_sort_by_time(pre);
                            lemma_insert_sorted(sort_by_time(pre), d@);
                            assert(pre.push(d@).drop_last() =~= pre);
                            assert(base + trips_departures(idv.take(j + 1), ev) =~= pre.push(d@));
                        }
                        let ghost dv = d@;
                        let ghost old_list = scheduled_views(list@);
                        insert_by_time(&mut list, d);
                        proof {
                            let r = scheduled_views(list@);
                            assert forall|k: int| 0 <= k < r.len() implies (#[trigger] r[k]).departure_time
                                < SECONDS_PER_DAY && r[k].departure_time_str == spec_hhmm(
                                r[k].departure_time as int,
                            ) by {
                                let p = insert_pos(old_list, dv.departure_time);
                                lemma_insert_pos_bounds(old_list, dv.departure_time);
                                if k < p {
                                    assert(r[k] == old_list[k]);
                                } else if k > p {
                                    assert(r[k] == old_list[k - 1]);
                                }
                            }
                        }
                    },
                    None => {
                        assert(base + trips_departures(idv.take(j + 1), ev) =~= pre);
                    },
                }
                j = j + 1;
            }
            assert(idv.take(ids.len() as int) =~= idv);
        }
        i = i + 1;
    }
    assert(gv.take(groups.len() as int) =~= gv);
    list
}

// ---------------------------------------------------------------------------
// The schedule
// ---------------------------------------------------------------------------

/// A weekday's departures are in time order, at times of day, each shown as
/// `HH:MM`.
pub open spec fn in_time_order(s: Seq<ScheduledDepartureView>) -> bool {
    sorted_by_time(s) && times_within_day(s)
}

/// The departures on each weekday, Monday first, each weekday's in time order.
pub struct Timetable {
    by_weekday: Vec<Vec<ScheduledDeparture>>,
}

impl Timetable {
    /// The departures on the weekday `wd`.
    pub closed spec fn departures_on(&self, wd: Weekday) -> Seq<ScheduledDepartureView> {
        scheduled_views(self.by_weekday@[weekday_index(wd)]@)
    }

    #[verifier::type_invariant]
    spec fn seven_days_in_order(&self) -> bool {
        &&& self.by_weekday@.len() == 7
        &&& forall|wd: Weekday| in_time_order(#[trigger] self.departures_on(wd))
    }
}

pub struct Schedule {
    pub route_info: RouteInfo,
    pub station_name: String,
    pub headsign: String,
    pub departures_by_weekday: Timetable,
}

impl Schedule {
    /// The departures on the weekday `wd`.
    pub open spec fn departures_on(&self, wd: Weekday) -> Seq<ScheduledDepartureView> {
        self.departures_by_weekday.departures_on(wd)
    }
}

/// Why the schedule cannot be loaded, if it cannot: the first table, in the
/// order routes, stops, calendar, trips, stop times, that fails.
pub open spec fn schedule_error(config: Config, t: GtfsTables) -> Option<ScheduleErrorView> {
    match spec_route_info(t.routes@, config.route_id@) {
        Err(e) => Some(e),
        Ok(_) => match spec_station_name(t.stops@, config.stop_id@) {
            Err(e) => Some(e),
            Ok(_) => match spec_calendar(t.calendar@) {
                Err(e) => Some(e),
                Ok(_) => match spec_trips(t.trips@, config.route_id@, config.direction_id) {
                    Err(e) => Some(e),
                    Ok((g, _)) => match spec_stop_times(
                        t.stop_times@,
                        flatten_trip_ids(g),
                        config.stop_id@,
                    ) {
                        Err(e) => Some(e),
                        Ok(_) => None,
                    },
                },
            },
        },
    }
}

/// What a loaded schedule holds: the route info, the station name, the
/// headsign, and on each weekday the departures of the selected trips of the
/// services that run that day, sorted by time.
pub open spec fn schedule_matches(s: Schedule, config: Config, t: GtfsTables) -> bool {
    &&& forall|wd: Weekday| in_time_order(#[trigger] s.departures_on(wd))
    &&& spec_route_info(t.routes@, config.route_id@) == Ok::<RouteInfoView, ScheduleErrorView>(
        s.route_info@,
    )
    &&& spec_station_name(t.stops@, config.stop_id@) == Ok::<Seq<char>, ScheduleErrorView>(
        s.station_name@,
    )
    &&& match (
        spec_calendar(t.calendar@),
        spec_trips(t.trips@, config.route_id@, config.direction_id),
    ) {
        (Ok(cal), Ok((groups, headsign))) => {
            &&& s.headsign@ == headsign
            &&& match spec_stop_times(t.stop_times@, flatten_trip_ids(groups), config.stop_id@) {
                Ok(entries) => forall|wd: Weekday|
                    #[trigger] s.departures_on(wd) == sort_by_time(
                        weekday_departures(groups, cal, entries, wd),
                    ),
                Err(_) => false,
            }
        },
        _ => false,
    }
}

/// Builds the schedule of our stop from the GTFS tables.
pub fn load_schedule(config: &Config, tables: &GtfsTables) -> (res: Result<Schedule, ScheduleError>)
    ensures
        match schedule_error(*config, *tables) {
            Some(e) => res matches Err(r) && r@ == e,
            None => res matches Ok(s) && schedule_matches(s, *config, *tables),
        },
{
    let route_info = match load_route_info(&tables.routes, &config.route_id) {
        Ok(r) => r,
        Err(e) => return Err(e),
    };
    let station_name = match load_station_name(&tables.stops, &config.stop_id) {
        Ok(n) => n,
        Err(e) => return Err(e),
    };
    let cal = match load_calendar(&tables.calendar) {
        Ok(c) => c,
        Err(e) => return Err(e),
    };
    let (groups, headsign) = match load_trips(&tables.trips, &config.route_id, config.direction_id) {
        Ok(t) => t,
        Err(e) => return Err(e),
    };
    let trip_ids = all_trip_ids(&groups);
    let entries = match load_stop_times(&tables.stop_times, &trip_ids, &config.stop_id) {
        Ok(e) => e,
        Err(e) => return Err(e),
    };
    let ghost gv = service_trips_views(groups@);
    let ghost cv = service_days_views(cal@);
    let ghost ev = stop_time_entry_views(entries@);
    let mut by_day: Vec<Vec<ScheduledDeparture>> = Vec::new();
    let mut d: usize = 0;
    while d < 7
        invariant
            d <= 7,
            by_day@.len() == d,
            gv == service_trips_views(groups@),
            cv == service_days_views(cal@),
            ev == stop_time_entry_views(entries@),
            entries_within_day(ev),
            forall|k: int|
                0 <= k < d ==> scheduled_views(#[trigger] by_day@[k]@) == sort_by_time(
                    weekday_departures(gv, cv, ev, weekday_at(k)),
                ) && times_within_day(scheduled_views(by_day@[k]@)),
        decreases 7 - d,
    {
        let wd = Weekday::from_index(d);
        let list = departures_for_weekday(&groups, &cal, &entries, wd);
        by_day.push(list);
        d = d + 1;
    }
    proof {
        assert forall|wd: Weekday| #[trigger] scheduled_views(by_day@[weekday_index(wd)]@)
            == sort_by_time(weekday_departures(gv, cv, ev, wd)) && in_time_order(
            scheduled_views(by_day@[weekday_index(wd)]@),
        ) by {
            assert(weekday_at(weekday_index(wd)) == wd);
            lemma_sort_by_time(weekday_departures(gv, cv, ev, wd));
        }
    }
    let departures_by_weekday = Timetable { by_weekday: by_day };
    let schedule = Schedule { route_info, station_name, headsign, departures_by_weekday };
    Ok(schedule)
}

// ---------------------------------------------------------------------------
// Upcoming departures
// ---------------------------------------------------------------------------

/// The departures of `s` at or after the time `now`, in order.
pub open spec fn at_or_after(s: Seq<ScheduledDepartureView>, now: u32) -> Seq<ScheduledDepartureView>
    decreases s.len(),
{
    if s.len() == 0 {
        Seq::empty()
    } else {
        let prev = at_or_after(s.drop_last(), now);
        if s.last().departure_time >= now {
            prev.push(s.last())
        } else {
            prev
        }
    }
}

/// The first `count` departures of `s` at or after `now`.
pub open spec fn spec_upcoming(s: Seq<ScheduledDepartureView>, now: u32, count: nat) -> Seq<
    ScheduledDepartureView,
> {
    let f = at_or_after(s, now);
    if count < f.len() {
        f.take(count as int)
    } else {
        f
    }
}

proof fn lemma_at_or_after_add(a: Seq<ScheduledDepartureView>, b: Seq<ScheduledDepartureView>, now: u32)
    ensures
        at_or_after(a + b, now) == at_or_after(a, now) + at_or_after(b, now),
    decreases b.len(),
{
    if b.len() == 0 {
        assert(a + b =~= a);
        assert(at_or_after(a, now) + at_or_after(b, now) =~= at_or_after(a, now));
    } else {
        lemma_at_or_after_add(a, b.drop_last(), now);
        assert((a + b).drop_last() =~= a + b.drop_last());
        assert((a + b).last() == b.last());
        if b.last().departure_time >= now {
            assert(at_or_after(a, now) + at_or_after(b, now) =~= (at_or_after(a, now)
                + at_or_after(b.drop_last(), now)).push(b.last()));
        }
    }
}

/// What `at_or_after` keeps is in order where `s` is, and at or after `now`.
proof fn lemma_at_or_after_sorted(s: Seq<ScheduledDepartureView>, now: u32)
    requires
        sorted_by_time(s),
    ensures
        sorted_by_time(at_or_after(s, now)),
        forall|k: int|
            0 <= k < at_or_after(s, now).len() ==> (#[trigger] at_or_after(s, now)[k]).departure_time
                >= now,
        forall|k: int|
            0 <= k < at_or_after(s, now).len() ==> s.contains(#[trigger] at_or_after(s, now)[k]),
        at_or_after(s, now).len() <= s.len(),
    decreases s.len(),
{
    if s.len() > 0 {
        let p = s.drop_last();
        assert(sorted_by_time(p));
        lemma_at_or_after_sorted(p, now);
        let f = at_or_after(p, now);
        assert forall|k: int| 0 <= k < f.len() implies s.contains(#[trigger] f[k]) by {
            assert(p.contains(f[k]));
            let j = choose|j: int| 0 <= j < p.len() && p[j] == f[k];
            assert(s[j] == f[k]);
        }
        if s.last().departure_time >= now {
            let r = f.push(s.last());
            assert forall|i: int, j: int| 0 <= i <= j < r.len() implies r[i].departure_time
                <= r[j].departure_time by {
                if j == r.len() - 1 && i < j {
                    let m = choose|m: int| 0 <= m < s.len() && s[m] == f[i];
                    assert(s[m].departure_time <= s[s.len() - 1].departure_time);
                }
            }
            assert(s[s.len() - 1] == s.last());
            assert forall|k: int| 0 <= k < r.len() implies s.contains(#[trigger] r[k]) by {
                if k == r.len() - 1 {
                    assert(s[s.len() - 1] == r[k]);
                } else {
                    assert(r[k] == f[k]);
                }
            }
        }
    }
}

/// The upcoming departures come in time order, all at or after `now`, no more
/// than `count` of them, each a departure of the day, and they are the
/// earliest such: the first of them leads the day's departures at or after `now`.
pub proof fn law_upcoming_in_order(s: Seq<ScheduledDepartureView>, now: u32, count: nat)
    requires
        sorted_by_time(s),
    ensures
        sorted_by_time(spec_upcoming(s, now, count)),
        spec_upcoming(s, now, count).len() <= count,
        forall|k: int|
            0 <= k < spec_upcoming(s, now, count).len() ==> (#[trigger] spec_upcoming(
                s,
                now,
                count,
            )[k]).departure_time >= now && s.contains(spec_upcoming(s, now, count)[k]),
        spec_upcoming(s, now, count) == at_or_after(s, now).take(
            spec_upcoming(s, now, count).len() as int,
        ),
{
    lemma_at_or_after_sorted(s, now);
    let f = at_or_after(s, now);
    let u = spec_upcoming(s, now, count);
    if count < f.len() {
        assert forall|k: int| 0 <= k < u.len() implies (#[trigger] u[k]).departure_time >= now
            && s.contains(u[k]) by {
            assert(u[k] == f[k]);
        }
    } else {
        assert(f.take(f.len() as int) =~= f);
    }
}

proof fn lemma_at_or_after_filter(
    s: Seq<ScheduledDepartureView>,
    now: u32,
    keep: spec_fn(ScheduledDepartureView) -> bool,
)
    requires
        forall|d: ScheduledDepartureView| #[trigger] keep(d) == (d.departure_time >= now),
    ensures
        at_or_after(s, now) == s.filter(keep),
    decreases s.len(),
{
    reveal(Seq::filter);
    if s.len() > 0 {
        lemma_at_or_after_filter(s.drop_last(), now, keep);
    }
}

/// The upcoming departures are the day's departures at or after `now`, in the
/// day's order, as many of them as `count` allows: the first `count` when there
/// are more, all of them when there are not.
pub proof fn law_upcoming_takes_count(s: Seq<ScheduledDepartureView>, now: u32, count: nat)
    ensures
        ({
            let later = s.filter(|d: ScheduledDepartureView| d.departure_time >= now);
            let n = if count < later.len() {
                count as int
            } else {
                later.len() as int
            };
            spec_upcoming(s, now, count) == later.take(n)
        }),
{
    let keep = |d: ScheduledDepartureView| d.departure_time >= now;
    lemma_at_or_after_filter(s, now, keep);
    let later = s.filter(keep);
    if count >= later.len() {
        assert(later.take(later.len() as int) =~= later);
    }
}

impl Schedule {
    /// Up to `count` departures on `weekday` at or after `now_time`, in time order.
    pub fn upcoming_departures(&self, now_time: u32, weekday: Weekday, count: usize) -> (res: Vec<
        ScheduledDeparture,
    >)
        ensures
            scheduled_views(res@) == spec_upcoming(self.departures_on(weekday), now_time, count as nat),
            in_time_order(self.departures_on(weekday)),
    {
        proof {
            use_type_invariant(&self.departures_by_weekday);
        }
        let idx = weekday.index();
        let mut res: Vec<ScheduledDeparture> = Vec::new();
        let list = &self.departures_by_weekday.by_weekday[idx];
        let ghost s = scheduled_views(list@);
        assert(s == self.departures_on(weekday));
        if count == 0 {
            assert(scheduled_views(res@) =~= at_or_after(s, now_time).take(0));
            return res;
        }
        let mut i: usize = 0;
        while i < list.len()
            invariant
                i <= list.len(),
                s == scheduled_views(list@),
                s == self.departures_on(weekday),
                in_time_order(s),
                0 < count,
                scheduled_views(res@) == at_or_after(s.take(i as int), now_time),
                res.len() < count,
            decreases list.len() - i,
        {
            assert(s.take(i + 1).drop_last() =~= s.take(i as int));
            assert(s.take(i + 1).last() == s[i as int]);
            let ghost before = scheduled_views(res@);
            if list[i].departure_time >= now_time {
                res.push(copy_departure(&list[i]));
                assert(scheduled_views(res@) =~= before.push(s[i as int]));
                if res.len() == count {
                    proof {
                        lemma_at_or_after_add(s.take(i + 1), s.skip(i + 1), now_time);
                        assert(s.take(i + 1) + s.skip(i + 1) =~= s);
                        assert(at_or_after(s, now_time).take(count as int) =~= scheduled_views(res@));
                        assert(at_or_after(s, now_time).len() >= count);
                        if at_or_after(s, now_time).len() == count {
                            assert(at_or_after(s, now_time).take(count as int) =~= at_or_after(
                                s,
                                now_time,
                            ));
                        }
                    }
                    return res;
                }
            }
            i = i + 1;
        }
        assert(s.take(list.len() as int) =~= s);
        res
    }
}

} // verus!
