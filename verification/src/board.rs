//! The departure board: the upcoming scheduled departures, each merged with
//! what the realtime feed says of its trip, and the active alerts.
use vstd::prelude::*;
use crate::clock::{
    format_time_hhmm, law_hhmm_same_minute, spec_hhmm, spec_wrapping_add, wrapping_add_seconds,
    SECONDS_PER_DAY,
};
use crate::gtfs_rt::{
    alert_views, departure_views, estimates_within_day, Alert, AlertView, RealtimeData,
    RealtimeDeparture, RealtimeDepartureView,
};
use crate::schedule::{
    law_upcoming_in_order, scheduled_views, spec_upcoming, times_within_day, Schedule,
    ScheduledDeparture, ScheduledDepartureView, Weekday,
};

verus! {

pub struct DepartureOutput {
    pub scheduled: String,
    pub estimated: Option<String>,
    pub status: String,
}

pub struct DepartureOutputView {
    pub scheduled: Seq<char>,
    pub estimated: Option<Seq<char>>,
    pub status: Seq<char>,
}

impl View for DepartureOutput {
    type V = DepartureOutputView;

    open spec fn view(&self) -> DepartureOutputView {
        DepartureOutputView {
            scheduled: self.scheduled@,
            estimated: match self.estimated {
                Some(e) => Some(e@),
                None => None,
            },
            status: self.status@,
        }
    }
}

pub struct AlertOutput {
    pub header: String,
    pub description: String,
}

pub struct Output {
    pub station: String,
    pub line: String,
    pub line_color: String,
    pub direction: String,
    pub departures: Vec<DepartureOutput>,
    pub alerts: Vec<AlertOutput>,
    pub updated_at: String,
}

pub open spec fn output_views(v: Seq<DepartureOutput>) -> Seq<DepartureOutputView> {
    v.map_values(|d: DepartureOutput| d@)
}

pub open spec fn alert_output_views(v: Seq<AlertOutput>) -> Seq<AlertView> {
    v.map_values(|a: AlertOutput| AlertView { header: a.header@, description: a.description@ })
}

/// What the realtime feed says of the trip `trip_id`: its last report.
pub open spec fn realtime_for(rts: Seq<RealtimeDepartureView>, trip_id: Seq<char>) -> Option<
    RealtimeDepartureView,
>
    decreases rts.len(),
{
    if rts.len() == 0 {
        None
    } else if rts.last().trip_id == trip_id {
        Some(rts.last())
    } else {
        realtime_for(rts.drop_last(), trip_id)
    }
}

/// A scheduled departure on the board, given the realtime report of its trip:
/// - no report: `scheduled`;
/// - an estimated time: that time, `on_time` when it reads as the scheduled
///   `HH:MM`, else `delayed`;
/// - else a delay: none is `on_time`, any other is `delayed` with the scheduled
///   time moved by the delay;
/// - else `on_time`.
pub open spec fn spec_departure_output(
    dep: ScheduledDepartureView,
    rt: Option<RealtimeDepartureView>,
) -> DepartureOutputView {
    match rt {
        None => DepartureOutputView {
            scheduled: dep.departure_time_str,
            estimated: None,
            status: "scheduled"@,
        },
        Some(r) => match r.estimated_time {
            Some(est) => DepartureOutputView {
                scheduled: dep.departure_time_str,
                estimated: Some(spec_hhmm(est as int)),
                status: if spec_hhmm(est as int) == dep.departure_time_str {
                    "on_time"@
                } else {
                    "delayed"@
                },
            },
            None => match r.delay_seconds {
                Some(delay) => if delay == 0 {
                    DepartureOutputView {
                        scheduled: dep.departure_time_str,
                        estimated: None,
                        status: "on_time"@,
                    }
                } else {
                    DepartureOutputView {
                        scheduled: dep.departure_time_str,
                        estimated: Some(
                            spec_hhmm(spec_wrapping_add(dep.departure_time as int, delay as int)),
                        ),
                        status: "delayed"@,
                    }
                },
                None => DepartureOutputView {
                    scheduled: dep.departure_time_str,
                    estimated: None,
                    status: "on_time"@,
                },
            },
        },
    }
}

/// Each departure merged with the report of its trip, in order.
pub open spec fn spec_departure_outputs(
    deps: Seq<ScheduledDepartureView>,
    rts: Seq<RealtimeDepartureView>,
) -> Seq<DepartureOutputView> {
    deps.map_values(
        |d: ScheduledDepartureView| spec_departure_output(d, realtime_for(rts, d.trip_id)),
    )
}

fn find_realtime<'a>(rts: &'a Vec<RealtimeDeparture>, trip_id: &String) -> (res: Option<
    &'a RealtimeDeparture,
>)
    ensures
        match realtime_for(departure_views(rts@), trip_id@) {
            Some(r) => res matches Some(x) && x@ == r && rts@.contains(*x),
            None => res is None,
        },
{
    let ghost views = departure_views(rts@);
    let mut i: usize = rts.len();
    assert(views.take(rts.len() as int) =~= views);
    while i > 0
        invariant
            i <= rts.len(),
            views == departure_views(rts@),
            realtime_for(views, trip_id@) == realtime_for(views.take(i as int), trip_id@),
        decreases i,
    {
        assert(views.take(i as int).drop_last() =~= views.take(i - 1));
        assert(views.take(i as int).last() == views[i - 1]);
        if rts[i - 1].trip_id == *trip_id {
            return Some(&rts[i - 1]);
        }
        i = i - 1;
    }
    None
}

/// The board entry of one scheduled departure, given its trip's realtime report.
pub fn departure_output(dep: &ScheduledDeparture, rt: Option<&RealtimeDeparture>) -> (res:
    DepartureOutput)
    requires
        dep.departure_time < crate::clock::SECONDS_PER_DAY,
        rt matches Some(r) ==> (r.estimated_time matches Some(t) ==> t
            < crate::clock::SECONDS_PER_DAY),
    ensures
        res@ == spec_departure_output(
            dep@,
            match rt {
                Some(r) => Some(r@),
                None => None,
            },
        ),
{
    proof {
        reveal_strlit("scheduled");
        reveal_strlit("on_time");
        reveal_strlit("delayed");
    }
    let scheduled = dep.departure_time_str.clone();
    match rt {
        None => DepartureOutput { scheduled, estimated: None, status: "scheduled".to_owned() },
        Some(r) => match r.estimated_time {
            Some(est) => {
                let est_str = format_time_hhmm(est);
                let status = if est_str == dep.departure_time_str {
                    "on_time".to_owned()
                } else {
                    "delayed".to_owned()
                };
                DepartureOutput { scheduled, estimated: Some(est_str), status }
            },
            None => match r.delay_seconds {
                Some(delay) => {
                    if delay == 0 {
                        DepartureOutput { scheduled, estimated: None, status: "on_time".to_owned() }
                    } else {
                        let est = wrapping_add_seconds(dep.departure_time, delay);
                        DepartureOutput {
                            scheduled,
                            estimated: Some(format_time_hhmm(est)),
                            status: "delayed".to_owned(),
                        }
                    }
                },
                None => DepartureOutput { scheduled, estimated: None, status: "on_time".to_owned() },
            },
        },
    }
}

/// Each departure merged with the last realtime report of its trip.
pub fn merge_departures(upcoming: &Vec<ScheduledDeparture>, realtime: &Vec<RealtimeDeparture>) -> (res:
    Vec<DepartureOutput>)
    requires
        times_within_day(scheduled_views(upcoming@)),
        estimates_within_day(realtime@),
    ensures
        output_views(res@) == spec_departure_outputs(
            scheduled_views(upcoming@),
            departure_views(realtime@),
        ),
{
    let ghost uv = scheduled_views(upcoming@);
    let ghost rv = departure_views(realtime@);
    let mut res: Vec<DepartureOutput> = Vec::new();
    let mut i: usize = 0;
    while i < upcoming.len()
        invariant
            i <= upcoming.len(),
            uv == scheduled_views(upcoming@),
            rv == departure_views(realtime@),
            times_within_day(uv),
            estimates_within_day(realtime@),
            output_views(res@) == spec_departure_outputs(uv.take(i as int), rv),
        decreases upcoming.len() - i,
    {
        let dep = &upcoming[i];
        assert(uv[i as int] == dep@);
        let rt = find_realtime(realtime, &dep.trip_id);
        proof {
            if let Some(x) = rt {
                let k = choose|k: int| 0 <= k < realtime@.len() && realtime@[k] == *x;
                assert(realtime@[k].estimated_time == x.estimated_time);
            }
        }
        let out = departure_output(dep, rt);
        let ghost before = output_views(res@);
        res.push(out);
        assert(output_views(res@) =~= before.push(out@));
        assert(spec_departure_outputs(uv.take(i + 1), rv) =~= spec_departure_outputs(
            uv.take(i as int),
            rv,
        ).push(spec_departure_output(uv[i as int], realtime_for(rv, uv[i as int].trip_id))));
        i = i + 1;
    }
    assert(uv.take(upcoming.len() as int) =~= uv);
    res
}

/// The alerts as the board shows them, in order.
pub fn alert_outputs(alerts: &Vec<Alert>) -> (res: Vec<AlertOutput>)
    ensures
        alert_output_views(res@) == alert_views(alerts@),
{
    let ghost av = alert_views(alerts@);
    let mut res: Vec<AlertOutput> = Vec::new();
    let mut i: usize = 0;
    while i < alerts.len()
        invariant
            i <= alerts.len(),
            av == alert_views(alerts@),
            alert_output_views(res@) == av.take(i as int),
        decreases alerts.len() - i,
    {
        let a = &alerts[i];
        let out = AlertOutput { header: a.header.clone(), description: a.description.clone() };
        let ghost before = alert_output_views(res@);
        res.push(out);
        assert(alert_output_views(res@) =~= before.push(av[i as int]));
        assert(av.take(i + 1) =~= av.take(i as int).push(av[i as int]));
        i = i + 1;
    }
    assert(av.take(alerts.len() as int) =~= av);
    res
}

/// The board: our station and line, the upcoming departures on `weekday` at or
/// after `now_time` (at most `count`), each merged with the realtime report of
/// its trip, the alerts, and the time of the update.
pub fn departure_board(
    schedule: Schedule,
    now_time: u32,
    weekday: Weekday,
    count: usize,
    realtime: RealtimeData,
    updated_at: String,
) -> (res: Output)
    requires
        estimates_within_day(realtime.departures@),
    ensures
        res.station@ == schedule.station_name@,
        res.line@ == schedule.route_info.short_name@,
        res.line_color@ == schedule.route_info.color@,
        res.direction@ == schedule.headsign@,
        output_views(res.departures@) == spec_departure_outputs(
            spec_upcoming(schedule.departures_on(weekday), now_time, count as nat),
            departure_views(realtime.departures@),
        ),
        alert_output_views(res.alerts@) == alert_views(realtime.alerts@),
        res.updated_at@ == updated_at@,
{
    let upcoming = schedule.upcoming_departures(now_time, weekday, count);
    proof {
        law_upcoming_in_order(schedule.departures_on(weekday), now_time, count as nat);
        let u = scheduled_views(upcoming@);
        let s = schedule.departures_on(weekday);
        assert forall|k: int| 0 <= k < u.len() implies (#[trigger] u[k]).departure_time
            < crate::clock::SECONDS_PER_DAY by {
            assert(s.contains(u[k]));
            let j = choose|j: int| 0 <= j < s.len() && s[j] == u[k];
            assert(s[j].departure_time < crate::clock::SECONDS_PER_DAY);
        }
    }
    let departures = merge_departures(&upcoming, &realtime.departures);
    let alerts = alert_outputs(&realtime.alerts);
    Output {
        station: schedule.station_name,
        line: schedule.route_info.short_name,
        line_color: schedule.route_info.color,
        direction: schedule.headsign,
        departures,
        alerts,
        updated_at,
    }
}

/// How a departure's status follows from its trip's report: without a report
/// it is `scheduled`; with an estimated time it is `on_time` exactly when the
/// estimate falls in the scheduled minute, else `delayed`; with only a delay it
/// is `on_time` exactly when the delay is zero; with neither it is `on_time`.
/// A `delayed` departure always shows an estimate, an `on_time` one shows one
/// only when it came from the feed.
pub proof fn law_departure_status(dep: ScheduledDepartureView, rt: Option<RealtimeDepartureView>)
    requires
        dep.departure_time < SECONDS_PER_DAY,
        dep.departure_time_str == spec_hhmm(dep.departure_time as int),
        rt matches Some(r) ==> (r.estimated_time matches Some(t) ==> t < SECONDS_PER_DAY),
    ensures
        ({
            let out = spec_departure_output(dep, rt);
            &&& out.scheduled == dep.departure_time_str
            &&& rt is None ==> out.status == "scheduled"@ && out.estimated is None
            &&& rt matches Some(r) ==> match r.estimated_time {
                Some(est) => (out.status == "on_time"@) == (est / 60 == dep.departure_time / 60)
                    && (out.status == "on_time"@ || out.status == "delayed"@),
                None => match r.delay_seconds {
                    Some(d) => (out.status == "on_time"@) == (d == 0) && (out.status
                        == "delayed"@) == (d != 0),
                    None => out.status == "on_time"@,
                },
            }
            &&& out.status == "delayed"@ ==> out.estimated is Some
        }),
{
    reveal_strlit("on_time");
    reveal_strlit("delayed");
    reveal_strlit("scheduled");
    assert("on_time"@ != "delayed"@) by {
        assert("on_time"@[0] != "delayed"@[0]);
    }
    assert("scheduled"@ != "delayed"@) by {
        assert("scheduled"@[0] != "delayed"@[0]);
    }
    if let Some(r) = rt {
        if let Some(est) = r.estimated_time {
            law_hhmm_same_minute(est as int, dep.departure_time as int);
        }
    }
}

} // verus!
