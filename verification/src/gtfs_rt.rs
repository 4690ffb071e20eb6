//! The GTFS-realtime feeds, as far as this board reads them: trip updates give
//! the live state of trips at our stop, alerts give service notices for our
//! route or stop.
use vstd::prelude::*;
use crate::clock::{denver_clock, denver_time_of_day, SECONDS_PER_DAY};
use crate::config::Config;

verus! {

// ---------------------------------------------------------------------------
// The decoded feed
// ---------------------------------------------------------------------------

pub struct FeedMessage {
    pub entity: Vec<FeedEntity>,
}

pub struct FeedEntity {
    pub trip_update: Option<TripUpdate>,
    pub alert: Option<ServiceAlert>,
}

pub struct TripUpdate {
    pub trip: TripDescriptor,
    pub stop_time_update: Vec<StopTimeUpdate>,
    pub delay: Option<i32>,
}

pub struct TripDescriptor {
    pub trip_id: Option<String>,
    pub route_id: Option<String>,
    pub direction_id: Option<u32>,
}

pub struct StopTimeUpdate {
    pub stop_id: Option<String>,
    pub arrival: Option<StopTimeEvent>,
    pub departure: Option<StopTimeEvent>,
}

pub struct StopTimeEvent {
    pub delay: Option<i32>,
    pub time: Option<i64>,
}

pub struct ServiceAlert {
    pub informed_entity: Vec<EntitySelector>,
    pub header_text: Option<TranslatedString>,
    pub description_text: Option<TranslatedString>,
}

pub struct EntitySelector {
    pub route_id: Option<String>,
    pub stop_id: Option<String>,
}

pub struct TranslatedString {
    pub translation: Vec<Translation>,
}

pub struct Translation {
    pub text: String,
    pub language: Option<String>,
}

// ---------------------------------------------------------------------------
// What the board takes from the feeds
// ---------------------------------------------------------------------------

/// The live state of one trip at our stop.
pub struct RealtimeDeparture {
    pub trip_id: String,
    pub delay_seconds: Option<i32>,
    /// The estimated time of day on a Denver clock, in seconds since midnight.
    pub estimated_time: Option<u32>,
}

pub struct RealtimeDepartureView {
    pub trip_id: Seq<char>,
    pub delay_seconds: Option<i32>,
    pub estimated_time: Option<u32>,
}

impl View for RealtimeDeparture {
    type V = RealtimeDepartureView;

    open spec fn view(&self) -> RealtimeDepartureView {
        RealtimeDepartureView {
            trip_id: self.trip_id@,
            delay_seconds: self.delay_seconds,
            estimated_time: self.estimated_time,
        }
    }
}

pub struct Alert {
    pub header: String,
    pub description: String,
}

pub struct AlertView {
    pub header: Seq<char>,
    pub description: Seq<char>,
}

impl View for Alert {
    type V = AlertView;

    open spec fn view(&self) -> AlertView {
        AlertView { header: self.header@, description: self.description@ }
    }
}

pub struct RealtimeData {
    pub departures: Vec<RealtimeDeparture>,
    pub alerts: Vec<Alert>,
}

pub open spec fn departure_views(v: Seq<RealtimeDeparture>) -> Seq<RealtimeDepartureView> {
    v.map_values(|d: RealtimeDeparture| d@)
}

pub open spec fn alert_views(v: Seq<Alert>) -> Seq<AlertView> {
    v.map_values(|a: Alert| a@)
}

// ---------------------------------------------------------------------------
// Specification
// ---------------------------------------------------------------------------

/// Every estimated time is a time of day.
pub open spec fn estimates_within_day(v: Seq<RealtimeDeparture>) -> bool {
    forall|k: int|
        0 <= k < v.len() ==> match (#[trigger] v[k]).estimated_time {
            Some(t) => t < SECONDS_PER_DAY,
            None => true,
        }
}

/// An optional text field that is present and equal to `s`.
pub open spec fn is_text(o: Option<String>, s: Seq<char>) -> bool {
    o matches Some(v) && v@ == s
}

/// A trip on our route, and in our direction unless the feed leaves the direction out.
pub open spec fn trip_selected(tu: TripUpdate, config: Config) -> bool {
    &&& is_text(tu.trip.route_id, config.route_id@)
    &&& (tu.trip.direction_id matches Some(d) ==> d == config.direction_id as u32)
}

/// The first stop time update for the stop `stop`.
pub open spec fn first_stop_update(us: Seq<StopTimeUpdate>, stop: Seq<char>) -> Option<
    StopTimeUpdate,
>
    decreases us.len(),
{
    if us.len() == 0 {
        None
    } else if is_text(us[0].stop_id, stop) {
        Some(us[0])
    } else {
        first_stop_update(us.drop_first(), stop)
    }
}

/// The departure event of an update, or else its arrival event.
pub open spec fn event_of(u: StopTimeUpdate) -> Option<StopTimeEvent> {
    if u.departure is Some {
        u.departure
    } else {
        u.arrival
    }
}

/// What a trip update tells of the trip at the stop `u`.
pub open spec fn departure_from(tu: TripUpdate, u: StopTimeUpdate) -> RealtimeDepartureView {
    RealtimeDepartureView {
        trip_id: match tu.trip.trip_id {
            Some(t) => t@,
            None => Seq::<char>::empty(),
        },
        delay_seconds: match event_of(u) {
            Some(e) => e.delay,
            None => tu.delay,
        },
        estimated_time: match event_of(u) {
            Some(e) => match e.time {
                Some(t) => denver_clock(t),
                None => None,
            },
            None => None,
        },
    }
}

/// The departure that one feed entity gives for our trips and stop, if any.
pub open spec fn entity_departure(e: FeedEntity, config: Config) -> Option<RealtimeDepartureView> {
    match e.trip_update {
        Some(tu) => if trip_selected(tu, config) {
            match first_stop_update(tu.stop_time_update@, config.stop_id@) {
                Some(u) => Some(departure_from(tu, u)),
                None => None,
            }
        } else {
            None
        },
        None => None,
    }
}

/// The departures of a trip update feed, in feed order.
pub open spec fn spec_trip_departures(es: Seq<FeedEntity>, config: Config) -> Seq<
    RealtimeDepartureView,
>
    decreases es.len(),
{
    if es.len() == 0 {
        Seq::empty()
    } else {
        let prev = spec_trip_departures(es.drop_last(), config);
        match entity_departure(es.last(), config) {
            Some(d) => prev.push(d),
            None => prev,
        }
    }
}

/// The first translation whose language is `"en"`.
pub open spec fn first_english(ts: Seq<Translation>) -> Option<Translation>
    decreases ts.len(),
{
    if ts.len() == 0 {
        None
    } else if is_text(ts[0].language, "en"@) {
        Some(ts[0])
    } else {
        first_english(ts.drop_first())
    }
}

/// The first translation that names no language.
pub open spec fn first_unspecified(ts: Seq<Translation>) -> Option<Translation>
    decreases ts.len(),
{
    if ts.len() == 0 {
        None
    } else if ts[0].language is None {
        Some(ts[0])
    } else {
        first_unspecified(ts.drop_first())
    }
}

/// The text of a translated string: English first, then one in no named
/// language, then the first; empty where there is none.
pub open spec fn spec_translation(ts: Option<TranslatedString>) -> Seq<char> {
    match ts {
        None => Seq::empty(),
        Some(t) => match first_english(t.translation@) {
            Some(tr) => tr.text@,
            None => match first_unspecified(t.translation@) {
                Some(tr) => tr.text@,
                None => if t.translation@.len() > 0 {
                    t.translation@[0].text@
                } else {
                    Seq::empty()
                },
            },
        },
    }
}

/// An alert that names our route or our stop among the entities it informs.
pub open spec fn alert_applies(a: ServiceAlert, config: Config) -> bool {
    exists|i: int|
        0 <= i < a.informed_entity@.len() && (is_text(
            #[trigger] a.informed_entity@[i].route_id,
            config.route_id@,
        ) || is_text(a.informed_entity@[i].stop_id, config.stop_id@))
}

/// The alert that one feed entity gives for our route or stop, if it has any text.
pub open spec fn entity_alert(e: FeedEntity, config: Config) -> Option<AlertView> {
    match e.alert {
        Some(a) => {
            let header = spec_translation(a.header_text);
            let description = spec_translation(a.description_text);
            if alert_applies(a, config) && (header.len() > 0 || description.len() > 0) {
                Some(AlertView { header, description })
            } else {
                None
            }
        },
        None => None,
    }
}

/// The alerts of an alert feed, in feed order.
pub open spec fn spec_alerts(es: Seq<FeedEntity>, config: Config) -> Seq<AlertView>
    decreases es.len(),
{
    if es.len() == 0 {
        Seq::empty()
    } else {
        let prev = spec_alerts(es.drop_last(), config);
        match entity_alert(es.last(), config) {
            Some(a) => prev.push(a),
            None => prev,
        }
    }
}

// ---------------------------------------------------------------------------
// Executable functions
// ---------------------------------------------------------------------------

fn text_is(o: &Option<String>, s: &String) -> (res: bool)
    ensures
        res == is_text(*o, s@),
{
    match o {
        Some(v) => *v == *s,
        None => false,
    }
}

fn find_stop_update<'a>(us: &'a Vec<StopTimeUpdate>, stop: &String) -> (res: Option<
    &'a StopTimeUpdate,
>)
    ensures
        match first_stop_update(us@, stop@) {
            Some(u) => res == Some(&u),
            None => res is None,
        },
{
    let mut i: usize = 0;
    assert(us@.subrange(0, us@.len() as int) =~= us@);
    while i < us.len()
        invariant
            i <= us.len(),
            first_stop_update(us@, stop@) == first_stop_update(
                us@.subrange(i as int, us@.len() as int),
                stop@,
            ),
        decreases us.len() - i,
    {
        assert(us@.subrange(i as int, us@.len() as int).drop_first() =~= us@.subrange(
            i + 1,
            us@.len() as int,
        ));
        if text_is(&us[i].stop_id, stop) {
            return Some(&us[i]);
        }
        i = i + 1;
    }
    None
}

fn departure_for(tu: &TripUpdate, u: &StopTimeUpdate) -> (res: RealtimeDeparture)
    ensures
        res@ == departure_from(*tu, *u),
        match res.estimated_time {
            Some(t) => t < SECONDS_PER_DAY,
            None => true,
        },
{
    let trip_id = match &tu.trip.trip_id {
        Some(t) => t.clone(),
        None => String::new(),
    };
    let event = if u.departure.is_some() {
        &u.departure
    } else {
        &u.arrival
    };
    let (delay_seconds, estimated_time) = match event {
        Some(e) => {
            let est = match e.time {
                Some(t) => denver_time_of_day(t),
                None => None,
            };
            (e.delay, est)
        },
        None => (tu.delay, None),
    };
    RealtimeDeparture { trip_id, delay_seconds, estimated_time }
}

/// The departures at our stop of the trips on our route and direction that a
/// trip update feed reports, in feed order: for each such trip, its first
/// update for our stop, with that update's departure event (or else its
/// arrival event), or the trip's own delay where the update has neither.
pub fn parse_trip_updates(feed: &FeedMessage, config: &Config) -> (res: Vec<RealtimeDeparture>)
    ensures
        departure_views(res@) == spec_trip_departures(feed.entity@, *config),
        estimates_within_day(res@),
{
    let mut departures: Vec<RealtimeDeparture> = Vec::new();
    let es = &feed.entity;
    let mut i: usize = 0;
    while i < es.len()
        invariant
            i <= es.len(),
            es@ == feed.entity@,
            departure_views(departures@) == spec_trip_departures(es@.take(i as int), *config),
            estimates_within_day(departures@),
        decreases es.len() - i,
    {
        let entity = &es[i];
        assert(es@.take(i + 1).drop_last() =~= es@.take(i as int));
        assert(es@.take(i + 1).last() == *entity);
        let ghost before = departure_views(departures@);
        match &entity.trip_update {
            Some(tu) => {
                let on_route = text_is(&tu.trip.route_id, &config.route_id);
                let in_direction = match tu.trip.direction_id {
                    Some(d) => d == config.direction_id as u32,
                    None => true,
                };
                if on_route && in_direction {
                    match find_stop_update(&tu.stop_time_update, &config.stop_id) {
                        Some(u) => {
                            let d = departure_for(tu, u);
                            let ghost old_deps = departures@;
                            departures.push(d);
                            assert(departures@ =~= old_deps.push(d));
                            assert(departure_views(departures@) =~= before.push(
                                departure_from(*tu, *u),
                            ));
                        },
                        None => {},
                    }
                }
            },
            None => {},
        }
        i = i + 1;
    }
    assert(es@.take(es.len() as int) =~= es@);
    departures
}

fn find_english<'a>(ts: &'a Vec<Translation>, en: &String) -> (res: Option<&'a Translation>)
    requires
        en@ == "en"@,
    ensures
        match first_english(ts@) {
            Some(t) => res == Some(&t),
            None => res is None,
        },
{
    let mut i: usize = 0;
    assert(ts@.subrange(0, ts@.len() as int) =~= ts@);
    while i < ts.len()
        invariant
            i <= ts.len(),
            en@ == "en"@,
            first_english(ts@) == first_english(ts@.subrange(i as int, ts@.len() as int)),
        decreases ts.len() - i,
    {
        assert(ts@.subrange(i as int, ts@.len() as int).drop_first() =~= ts@.subrange(
            i + 1,
            ts@.len() as int,
        ));
        if text_is(&ts[i].language, en) {
            return Some(&ts[i]);
        }
        i = i + 1;
    }
    None
}

fn find_unspecified(ts: &Vec<Translation>) -> (res: Option<&Translation>)
    ensures
        match first_unspecified(ts@) {
            Some(t) => res == Some(&t),
            None => res is None,
        },
{
    let mut i: usize = 0;
    assert(ts@.subrange(0, ts@.len() as int) =~= ts@);
    while i < ts.len()
        invariant
            i <= ts.len(),
            first_unspecified(ts@) == first_unspecified(ts@.subrange(i as int, ts@.len() as int)),
        decreases ts.len() - i,
    {
        assert(ts@.subrange(i as int, ts@.len() as int).drop_first() =~= ts@.subrange(
            i + 1,
            ts@.len() as int,
        ));
        if ts[i].language.is_none() {
            return Some(&ts[i]);
        }
        i = i + 1;
    }
    None
}

/// The text of a translated string: the English translation, else one that
/// names no language, else the first; empty where there is no translation.
pub fn extract_translation(ts: Option<&TranslatedString>) -> (res: String)
    ensures
        res@ == spec_translation(
            match ts {
                Some(t) => Some(*t),
                None => None,
            },
        ),
{
    let ts = match ts {
        Some(t) => t,
        None => return String::new(),
    };
    let en = "en".to_owned();
    match find_english(&ts.translation, &en) {
        Some(t) => t.text.clone(),
        None => match find_unspecified(&ts.translation) {
            Some(t) => t.text.clone(),
            None => if ts.translation.len() > 0 {
                ts.translation[0].text.clone()
            } else {
                String::new()
            },
        },
    }
}

fn applies(a: &ServiceAlert, config: &Config) -> (res: bool)
    ensures
        res == alert_applies(*a, *config),
{
    let ies = &a.informed_entity;
    let mut i: usize = 0;
    while i < ies.len()
        invariant
            i <= ies.len(),
            ies@ == a.informed_entity@,
            forall|k: int|
                0 <= k < i ==> !(is_text(#[trigger] ies@[k].route_id, config.route_id@) || is_text(
                    ies@[k].stop_id,
                    config.stop_id@,
                )),
        decreases ies.len() - i,
    {
        let route_match = text_is(&ies[i].route_id, &config.route_id);
        let stop_match = text_is(&ies[i].stop_id, &config.stop_id);
        if route_match || stop_match {
            assert(is_text(a.informed_entity@[i as int].route_id, config.route_id@) || is_text(
                a.informed_entity@[i as int].stop_id,
                config.stop_id@,
            ));
            return true;
        }
        i = i + 1;
    }
    false
}

/// The alerts of an alert feed that name our route or our stop and have a
/// header or a description, in feed order.
pub fn parse_alerts(feed: &FeedMessage, config: &Config) -> (res: Vec<Alert>)
    ensures
        alert_views(res@) == spec_alerts(feed.entity@, *config),
{
    let mut alerts: Vec<Alert> = Vec::new();
    let es = &feed.entity;
    let mut i: usize = 0;
    while i < es.len()
        invariant
            i <= es.len(),
            es@ == feed.entity@,
            alert_views(alerts@) == spec_alerts(es@.take(i as int), *config),
        decreases es.len() - i,
    {
        let entity = &es[i];
        assert(es@.take(i + 1).drop_last() =~= es@.take(i as int));
        assert(es@.take(i + 1).last() == *entity);
        let ghost before = alert_views(alerts@);
        match &entity.alert {
            Some(alert) => {
                if applies(alert, config) {
                    let header = extract_translation(alert.header_text.as_ref());
                    let description = extract_translation(alert.description_text.as_ref());
                    if !header.as_str().is_empty() || !description.as_str().is_empty() {
                        let a = Alert { header, description };
                        alerts.push(a);
                        assert(alert_views(alerts@) =~= before.push(a@));
                    }
                }
            },
            None => {},
        }
        i = i + 1;
    }
    assert(es@.take(es.len() as int) =~= es@);
    alerts
}

/// What the board takes from the two feeds.
pub fn realtime_from_feeds(trip_updates: &FeedMessage, alerts: &FeedMessage, config: &Config) -> (res:
    RealtimeData)
    ensures
        departure_views(res.departures@) == spec_trip_departures(trip_updates.entity@, *config),
        estimates_within_day(res.departures@),
        alert_views(res.alerts@) == spec_alerts(alerts.entity@, *config),
{
    let departures = parse_trip_updates(trip_updates, config);
    let alerts = parse_alerts(alerts, config);
    RealtimeData { departures, alerts }
}

/// A feed entity whose alert names our route or stop and reads as `a`.
pub open spec fn shows_alert(e: FeedEntity, config: Config, a: AlertView) -> bool {
    match e.alert {
        Some(al) => alert_applies(al, config) && entity_alert(e, config) == Some(a),
        None => false,
    }
}

proof fn lemma_alerts_keep_entity(es: Seq<FeedEntity>, config: Config, j: int)
    requires
        0 <= j < es.len(),
        entity_alert(es[j], config) is Some,
    ensures
        spec_alerts(es, config).contains(entity_alert(es[j], config)->0),
    decreases es.len(),
{
    let r = spec_alerts(es, config);
    let p = es.drop_last();
    let prev = spec_alerts(p, config);
    if j < es.len() - 1 {
        assert(p[j] == es[j]);
        lemma_alerts_keep_entity(p, config, j);
        let k = choose|k: int| 0 <= k < prev.len() && prev[k] == entity_alert(es[j], config)->0;
        assert(r[k] == prev[k]);
    } else {
        assert(es.last() == es[j]);
        assert(r[r.len() - 1] == entity_alert(es[j], config)->0);
    }
}

/// An alert with a header or a description is on the board whenever one of
/// its informed entities, at any position, names our route or our stop.
pub proof fn law_alert_kept_when_any_entity_matches(es: Seq<FeedEntity>, config: Config, j: int, i: int)
    requires
        0 <= j < es.len(),
        es[j].alert is Some,
        0 <= i < es[j].alert->0.informed_entity@.len(),
        (es[j].alert->0.informed_entity@[i].route_id matches Some(r) && r@ == config.route_id@)
            || (es[j].alert->0.informed_entity@[i].stop_id matches Some(st) && st@
            == config.stop_id@),
        spec_translation(es[j].alert->0.header_text).len() > 0 || spec_translation(
            es[j].alert->0.description_text,
        ).len() > 0,
    ensures
        spec_alerts(es, config).contains(
            AlertView {
                header: spec_translation(es[j].alert->0.header_text),
                description: spec_translation(es[j].alert->0.description_text),
            },
        ),
{
    let a = es[j].alert->0;
    assert(is_text(a.informed_entity@[i].route_id, config.route_id@) || is_text(
        a.informed_entity@[i].stop_id,
        config.stop_id@,
    ));
    assert(alert_applies(a, config));
    lemma_alerts_keep_entity(es, config, j);
}

/// Every alert on the board has a header or a description, and comes from a
/// feed alert that names our route or our stop.
pub proof fn law_alerts_have_text(es: Seq<FeedEntity>, config: Config)
    ensures
        forall|k: int|
            0 <= k < spec_alerts(es, config).len() ==> (#[trigger] spec_alerts(es, config)[k]).header.len()
                > 0 || spec_alerts(es, config)[k].description.len() > 0,
        forall|k: int|
            0 <= k < spec_alerts(es, config).len() ==> exists|j: int|
                0 <= j < es.len() && shows_alert(es[j], config, #[trigger] spec_alerts(es, config)[k]),
        spec_alerts(es, config).len() <= es.len(),
    decreases es.len(),
{
    if es.len() > 0 {
        let p = es.drop_last();
        law_alerts_have_text(p, config);
        let n = es.len() - 1;
        let prev = spec_alerts(p, config);
        assert forall|k: int| 0 <= k < prev.len() implies exists|j: int|
            0 <= j < es.len() && shows_alert(es[j], config, #[trigger] prev[k]) by {
            let j = choose|j: int|
                0 <= j < p.len() && shows_alert(p[j], config, prev[k]);
            assert(es[j] == p[j]);
        }
        if let Some(a) = entity_alert(es.last(), config) {
            assert(es[n] == es.last());
        }
    }
}

/// A feed entity that is a trip update on our route and direction and reads as `d`.
pub open spec fn reports_departure(e: FeedEntity, config: Config, d: RealtimeDepartureView) -> bool {
    match e.trip_update {
        Some(tu) => trip_selected(tu, config) && entity_departure(e, config) == Some(d),
        None => false,
    }
}

/// Every realtime departure comes from a trip update on our route, in our
/// direction unless the feed leaves it out, with an update for our stop; each
/// feed entity gives at most one.
pub proof fn law_departures_from_our_trips(es: Seq<FeedEntity>, config: Config)
    ensures
        forall|k: int|
            0 <= k < spec_trip_departures(es, config).len() ==> exists|j: int|
                0 <= j < es.len() && reports_departure(
                    es[j],
                    config,
                    #[trigger] spec_trip_departures(es, config)[k],
                ),
        spec_trip_departures(es, config).len() <= es.len(),
    decreases es.len(),
{
    if es.len() > 0 {
        let p = es.drop_last();
        law_departures_from_our_trips(p, config);
        let prev = spec_trip_departures(p, config);
        assert forall|k: int| 0 <= k < prev.len() implies exists|j: int|
            0 <= j < es.len() && reports_departure(es[j], config, #[trigger] prev[k]) by {
            let j = choose|j: int| 0 <= j < p.len() && reports_departure(p[j], config, prev[k]);
            assert(es[j] == p[j]);
        }
        if let Some(d) = entity_departure(es.last(), config) {
            assert(es[es.len() - 1] == es.last());
        }
    }
}

} // verus!
