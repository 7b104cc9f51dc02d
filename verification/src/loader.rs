//! Building timetable data from the records of a GTFS feed: the services of each day from
//! the calendars, then the stops, transfers, routes, the trips of the days asked for and the
//! stops of those trips. Also the lookups made on the data once it is built: a station by its
//! exact name, and a word index of station names.
use std::collections::HashSet;
use vstd::prelude::*;

use crate::gtfs::{Calendar, DayFilter, color_for_type, type_color};
use crate::search_data::{
    Builder, same_except_transfers, same_except_transfers_and_departures, Day, GTFSData, RouteId, RouteType, ServiceId, Stop, StopId, StopStereoType, StopTime, Transfer, TripId,
    services_on,
};
use crate::suggester::{Suggester, is_long_word_of, lemma_with_word_ids, words_of};
use crate::time::{Duration, Time};

verus! {

broadcast use vstd::std_specs::hash::group_hash_axioms;

/// The flag a calendar has for the day.
pub open spec fn day_flag(c: Calendar, day: Day) -> u8 {
    match day {
        Day::Monday => c.monday,
        Day::Tuesday => c.tuesday,
        Day::Wednesday => c.wednesday,
        Day::Thursday => c.thursday,
        Day::Friday => c.friday,
        Day::Saturday => c.saturday,
        Day::Sunday => c.sunday,
    }
}

/// The flag a calendar has for the day.
fn flag_of(c: &Calendar, day: Day) -> (f: u8)
    ensures
        f == day_flag(*c, day),
{
    match day {
        Day::Monday => c.monday,
        Day::Tuesday => c.tuesday,
        Day::Wednesday => c.wednesday,
        Day::Thursday => c.thursday,
        Day::Friday => c.friday,
        Day::Saturday => c.saturday,
        Day::Sunday => c.sunday,
    }
}

/// The services of the calendars that run on the day.
pub open spec fn calendar_services(calendars: Seq<Calendar>, day: Day) -> Set<ServiceId> {
    Set::new(
        |s: ServiceId|
            exists|i: int| 0 <= i < calendars.len() && #[trigger] calendars[i].service_id == s && day_flag(calendars[i], day) > 0,
    )
}

/// A service runs on a day exactly when some calendar of it sets that day's own field:
/// Monday by `monday`, Tuesday by `tuesday`, and so on to Sunday by `sunday`.
pub proof fn law_services_run_on_their_days(calendars: Seq<Calendar>, s: ServiceId)
    ensures
        calendar_services(calendars, Day::Monday).contains(s) <==> exists|i: int|
            0 <= i < calendars.len() && #[trigger] calendars[i].service_id == s && calendars[i].monday > 0,
        calendar_services(calendars, Day::Tuesday).contains(s) <==> exists|i: int|
            0 <= i < calendars.len() && #[trigger] calendars[i].service_id == s && calendars[i].tuesday > 0,
        calendar_services(calendars, Day::Wednesday).contains(s) <==> exists|i: int|
            0 <= i < calendars.len() && #[trigger] calendars[i].service_id == s && calendars[i].wednesday > 0,
        calendar_services(calendars, Day::Thursday).contains(s) <==> exists|i: int|
            0 <= i < calendars.len() && #[trigger] calendars[i].service_id == s && calendars[i].thursday > 0,
        calendar_services(calendars, Day::Friday).contains(s) <==> exists|i: int|
            0 <= i < calendars.len() && #[trigger] calendars[i].service_id == s && calendars[i].friday > 0,
        calendar_services(calendars, Day::Saturday).contains(s) <==> exists|i: int|
            0 <= i < calendars.len() && #[trigger] calendars[i].service_id == s && calendars[i].saturday > 0,
        calendar_services(calendars, Day::Sunday).contains(s) <==> exists|i: int|
            0 <= i < calendars.len() && #[trigger] calendars[i].service_id == s && calendars[i].sunday > 0,
{
}

/// The days of the week, Monday first.
pub open spec fn week_days() -> Seq<Day> {
    seq![Day::Monday, Day::Tuesday, Day::Wednesday, Day::Thursday, Day::Friday, Day::Saturday, Day::Sunday]
}

/// The days of the week, Monday first.
fn all_days() -> (v: Vec<Day>)
    ensures
        v@ == week_days(),
{
    let v = vec![Day::Monday, Day::Tuesday, Day::Wednesday, Day::Thursday, Day::Friday, Day::Saturday, Day::Sunday];
    assert(v@ =~= week_days());
    v
}

/// The days with their services as the data holds them.
pub open spec fn services_view(v: Seq<(Day, Vec<ServiceId>)>) -> Seq<(Day, Seq<ServiceId>)> {
    Seq::new(v.len(), |i: int| (v[i].0, v[i].1@))
}

/// The services of the calendars that run on the day.
fn services_of(calendars: &Vec<Calendar>, day: Day) -> (v: Vec<ServiceId>)
    ensures
        v@.to_set() == calendar_services(calendars@, day),
{
    let mut v: Vec<ServiceId> = Vec::new();
    let mut i: usize = 0;
    while i < calendars.len()
        invariant
            i <= calendars@.len(),
            v@.to_set() == calendar_services(calendars@.take(i as int), day),
        decreases calendars@.len() - i,
    {
        let ghost before = v@;
        if flag_of(&calendars[i], day) > 0 {
            v.push(calendars[i].service_id);
            proof {
                before.lemma_push_to_set_commute(calendars@[i as int].service_id);
            }
        }
        proof {
            let t = calendars@.take(i + 1);
            let t0 = calendars@.take(i as int);
            assert forall|s: ServiceId| v@.to_set().contains(s) <==> calendar_services(t, day).contains(s) by {
                if calendar_services(t0, day).contains(s) {
                    let j = choose|j: int| 0 <= j < t0.len() && #[trigger] t0[j].service_id == s && day_flag(t0[j], day) > 0;
                    assert(t[j] == t0[j]);
                }
                if calendar_services(t, day).contains(s) {
                    let j = choose|j: int| 0 <= j < t.len() && #[trigger] t[j].service_id == s && day_flag(t[j], day) > 0;
                    if j < i {
                        assert(t0[j] == t[j]);
                        assert(calendar_services(t0, day).contains(s));
                    }
                }
                if day_flag(calendars@[i as int], day) > 0 && s == calendars@[i as int].service_id {
                    assert(t[i as int].service_id == s);
                }
            }
            assert(v@.to_set() =~= calendar_services(t, day));
        }
        i = i + 1;
    }
    assert(calendars@.take(i as int) =~= calendars@);
    v
}

/// For each day on which some service runs, Monday first, the services that run on it.
pub fn services_by_day(calendars: &Vec<Calendar>) -> (v: Vec<(Day, Vec<ServiceId>)>)
    ensures
        forall|day: Day| #[trigger] services_on(services_view(v@), day) == calendar_services(calendars@, day),
        forall|i: int| 0 <= i < v@.len() ==> (#[trigger] v@[i]).1@.len() > 0,
        forall|i: int, j: int| 0 <= i < j < v@.len() ==> v@[i].0 != v@[j].0,
{
    let days = all_days();
    let mut v: Vec<(Day, Vec<ServiceId>)> = Vec::new();
    let mut k: usize = 0;
    while k < 7
        invariant
            k <= 7,
            days@ == week_days(),
            forall|i: int| 0 <= i < v@.len() ==> (#[trigger] v@[i]).1@.len() > 0,
            forall|i: int| 0 <= i < v@.len() ==> exists|j: int| 0 <= j < k && #[trigger] week_days()[j] == (#[trigger] v@[i]).0,
            forall|i: int, j: int| 0 <= i < j < v@.len() ==> v@[i].0 != v@[j].0,
            forall|j: int|
                0 <= j < k ==> #[trigger] services_on(services_view(v@), week_days()[j]) == calendar_services(
                    calendars@,
                    week_days()[j],
                ),
            forall|day: Day|
                (forall|j: int| 0 <= j < k ==> #[trigger] week_days()[j] != day) ==> services_on(services_view(v@), day)
                    == Set::<ServiceId>::empty(),
        decreases 7 - k,
    {
        let day = days[k];
        let services = services_of(calendars, day);
        let ghost before = v@;
        if services.len() > 0 {
            v.push((day, services));
        }
        proof {
            assert forall|i: int| 0 <= i < before.len() implies before[i].0 != day by {
                let w = choose|w: int| 0 <= w < k && #[trigger] week_days()[w] == (#[trigger] before[i]).0;
                assert(week_days()[w] != week_days()[k as int]);
            }
            if services@.len() > 0 {
                assert(v@.drop_last() =~= before);
            }
            lemma_services_on_push(before, v@, day);
            assert forall|j: int| 0 <= j < k + 1 implies #[trigger] services_on(services_view(v@), week_days()[j])
                == calendar_services(calendars@, week_days()[j]) by {
                if j < k {
                    assert(week_days()[j] != day);
                } else {
                    if services@.len() == 0 {
                        assert(services@.to_set() =~= Set::<ServiceId>::empty());
                    }
                }
            }
            assert forall|i: int| 0 <= i < v@.len() implies exists|j: int| 0 <= j < k + 1 && #[trigger] week_days()[j] == (#[trigger] v@[i]).0 by {
                if i < before.len() {
                    assert(v@[i] == before[i]);
                } else {
                    assert(week_days()[k as int] == v@[i].0);
                }
            }
            assert forall|i: int, j: int| 0 <= i < j < v@.len() implies v@[i].0 != v@[j].0 by {
                if j == before.len() {
                    assert(v@[i] == before[i]);
                    let w = choose|w: int| 0 <= w < k && #[trigger] week_days()[w] == before[i].0;
                    assert(week_days()[w] != week_days()[k as int]);
                }
            }
        }
        k = k + 1;
    }
    proof {
        assert forall|day: Day| #[trigger] services_on(services_view(v@), day) == calendar_services(calendars@, day) by {
            let j: int = match day {
                Day::Monday => 0,
                Day::Tuesday => 1,
                Day::Wednesday => 2,
                Day::Thursday => 3,
                Day::Friday => 4,
                Day::Saturday => 5,
                Day::Sunday => 6,
            };
            assert(week_days()[j] == day);
        }
    }
    v
}

/// The services on a day after pushing its entry when it has services: the others keep
/// theirs, and the day gets the pushed ones.
proof fn lemma_services_on_push(before: Seq<(Day, Vec<ServiceId>)>, after: Seq<(Day, Vec<ServiceId>)>, day: Day)
    requires
        after == before || (after.len() == before.len() + 1 && after.drop_last() == before && after.last().0 == day),
        forall|i: int| 0 <= i < before.len() ==> before[i].0 != day,
    ensures
        forall|d: Day| d != day ==> #[trigger] services_on(services_view(after), d) == services_on(services_view(before), d),
        services_on(services_view(before), day) == Set::<ServiceId>::empty(),
        after != before ==> services_on(services_view(after), day) == after.last().1@.to_set(),
    decreases before.len(),
{
    lemma_services_on_absent(services_view(before), day);
    if after != before {
        lemma_services_on_append(services_view(before), (day, after.last().1@));
        assert(services_view(after) =~= services_view(before).push((day, after.last().1@)));
    }
}

/// A day with no entry has no services.
proof fn lemma_services_on_absent(v: Seq<(Day, Seq<ServiceId>)>, day: Day)
    requires
        forall|i: int| 0 <= i < v.len() ==> v[i].0 != day,
    ensures
        services_on(v, day) == Set::<ServiceId>::empty(),
    decreases v.len(),
{
    if v.len() > 0 {
        lemma_services_on_absent(v.drop_first(), day);
    }
}

/// An entry appended counts only for its day, and for it only when the day had no entry.
proof fn lemma_services_on_append(v: Seq<(Day, Seq<ServiceId>)>, e: (Day, Seq<ServiceId>))
    requires
        forall|i: int| 0 <= i < v.len() ==> v[i].0 != e.0,
    ensures
        forall|d: Day| d != e.0 ==> #[trigger] services_on(v.push(e), d) == services_on(v, d),
        services_on(v.push(e), e.0) == e.1.to_set(),
    decreases v.len(),
{
    if v.len() > 0 {
        lemma_services_on_append(v.drop_first(), e);
        assert(v.push(e).drop_first() =~= v.drop_first().push(e));
        assert(v.push(e)[0] == v[0]);
        assert forall|d: Day| d != e.0 implies #[trigger] services_on(v.push(e), d) == services_on(v, d) by {
            if v[0].0 != d {
                assert(services_on(v.push(e), d) == services_on(v.drop_first().push(e), d));
                assert(services_on(v.drop_first().push(e), d) == services_on(v.drop_first(), d));
            }
        }
    } else {
        assert(v.push(e).drop_first() =~= Seq::<(Day, Seq<ServiceId>)>::empty());
        assert(v.push(e)[0] == e);
        assert forall|d: Day| d != e.0 implies #[trigger] services_on(v.push(e), d) == services_on(v, d) by {
            assert(services_on(v.push(e), d) == services_on(v.push(e).drop_first(), d));
        }
    }
}

/// The start date of the last calendar, if there is one.
pub open spec fn last_start_date(calendars: Seq<Calendar>) -> Seq<char> {
    if calendars.len() == 0 {
        Seq::empty()
    } else {
        calendars.last().start_date@
    }
}

/// A record of `stops.txt`: a stop, station, entrance or node, with the bit patterns of its
/// latitude and longitude.
#[derive(Debug)]
pub struct StopRecord {
    pub stop_id: StopId,
    pub stop_name: String,
    pub location: (u64, u64),
    pub location_type: u8,
    pub parent_station: Option<StopId>,
}

/// A record of `transfers.txt`.
#[derive(Debug, Clone, Copy)]
pub struct TransferRecord {
    pub from_stop_id: StopId,
    pub to_stop_id: StopId,
    pub min_transfer_time: Option<Duration>,
}

/// A record of `routes.txt`.
#[derive(Debug)]
pub struct RouteRecord {
    pub route_id: RouteId,
    pub route_short_name: String,
    pub route_type: RouteType,
}

/// A record of `trips.txt`.
#[derive(Debug, Clone, Copy)]
pub struct TripRecord {
    pub route_id: RouteId,
    pub service_id: ServiceId,
    pub trip_id: TripId,
}

/// A record of `stop_times.txt`.
#[derive(Debug, Clone, Copy)]
pub struct StopTimeRecord {
    pub trip_id: TripId,
    pub arrival_time: Time,
    pub departure_time: Time,
    pub stop_id: StopId,
}

/// The records of a feed that the data is built from.
#[derive(Debug)]
pub struct Feed {
    pub calendars: Vec<Calendar>,
    pub stops: Vec<StopRecord>,
    pub transfers: Vec<TransferRecord>,
    pub routes: Vec<RouteRecord>,
    pub trips: Vec<TripRecord>,
    pub stop_times: Vec<StopTimeRecord>,
}

/// The parts of station names left out of their short names: the city, the prefixes of rail
/// lines, "Bhf" and what stands in brackets.
pub const STOP_NAME_DECORATIONS: &'static str = "Berlin, |S |S\\+U |U | Bhf| \\(Berlin\\)| \\[.*]";

/// Whether regex's `Regex::new` accepts the pattern.
pub uninterp spec fn pattern_compiles(pattern: Seq<char>) -> bool;

/// What regex's `Regex::replace_all` leaves of a text when every match of the pattern is
/// replaced by nothing.
pub uninterp spec fn pattern_removed(pattern: Seq<char>, text: Seq<char>) -> Seq<char>;

/// regex's `Regex::new`, then `Regex::replace_all` with an empty replacement.
/// Claims that the pattern is compiled exactly when it is accepted, and that the result is
/// then the text with the matches removed.
#[verifier::external_body]
fn remove_matches(pattern: &str, text: &str) -> (r: Option<String>)
    ensures
        r is Some <==> pattern_compiles(pattern@),
        r matches Some(t) ==> t@ == pattern_removed(pattern@, text@),
{
    regex::Regex::new(pattern).ok().map(|re| re.replace_all(text, "").into_owned())
}

/// The short name of a station: its name without the decorations.
pub open spec fn short_name(name: Seq<char>) -> Seq<char> {
    if pattern_compiles(STOP_NAME_DECORATIONS@) {
        pattern_removed(STOP_NAME_DECORATIONS@, name)
    } else {
        name
    }
}

/// A station's name without the city, rail line prefixes, "Bhf" and bracketed parts.
pub fn strip_stop_name(stop_name: &str) -> (r: String)
    ensures
        r@ == short_name(stop_name@),
{
    match remove_matches(STOP_NAME_DECORATIONS, stop_name) {
        Some(stripped) => stripped,
        None => stop_name.to_owned(),
    }
}

/// The record is loaded: it is not a generic node.
pub open spec fn is_loaded(r: StopRecord) -> bool {
    r.location_type != 3
}

/// The record can be loaded: a node, a stop with or without a station, a station without one
/// or an entrance with one.
pub open spec fn stop_record_valid(r: StopRecord) -> bool {
    ||| r.location_type == 3
    ||| r.location_type == 0
    ||| r.location_type == 1 && r.parent_station is None
    ||| r.location_type == 2 && r.parent_station is Some
}

/// The last loaded record with the id, which is what the data keeps of it.
pub open spec fn last_loaded(stops: Seq<StopRecord>, id: StopId) -> Option<StopRecord>
    decreases stops.len(),
{
    if stops.len() == 0 {
        None
    } else if is_loaded(stops.last()) && stops.last().stop_id == id {
        Some(stops.last())
    } else {
        last_loaded(stops.drop_last(), id)
    }
}

/// The ids of the loaded records.
pub open spec fn loaded_ids(stops: Seq<StopRecord>) -> Set<StopId> {
    Set::new(|id: StopId| last_loaded(stops, id) is Some)
}

/// The stations that loaded records name as theirs.
pub open spec fn parent_ids(stops: Seq<StopRecord>) -> Set<StopId> {
    Set::new(
        |p: StopId| exists|i: int| 0 <= i < stops.len() && is_loaded(stops[i]) && #[trigger] stops[i].parent_station == Some(p),
    )
}

/// Each station that a loaded record names as its own is loaded as a station.
pub open spec fn parents_are_stations(stops: Seq<StopRecord>) -> bool {
    forall|p: StopId| #[trigger] parent_ids(stops).contains(p) ==> (last_loaded(stops, p) matches Some(r) && r.location_type == 1)
}

/// The kind of the stop is that of the record.
pub open spec fn kind_matches(st: StopStereoType, r: StopRecord) -> bool {
    match st {
        StopStereoType::StopOrPlatform { station, .. } => r.location_type == 0 && station == r.parent_station,
        StopStereoType::Station { .. } => r.location_type == 1,
        StopStereoType::EntranceExit { station } => r.location_type == 2 && r.parent_station == Some(station),
    }
}

/// The stop is what the record describes.
pub open spec fn stop_matches(s: Stop, r: StopRecord) -> bool {
    &&& s.stop_id == r.stop_id
    &&& s.full_stop_name@ == r.stop_name@
    &&& s.short_stop_name@ == short_name(r.stop_name@)
    &&& s.location == r.location
    &&& kind_matches(s.stereotype, r)
}

/// Adds the stop of the record to the data built, when it is loaded.
fn add_stop(builder: &mut Builder, r: &StopRecord)
    requires
        old(builder).wf(),
        stop_record_valid(*r),
    ensures
        final(builder).wf(),
        final(builder).data().stop_map().dom() == if is_loaded(*r) {
            old(builder).data().stop_map().dom().insert(r.stop_id)
        } else {
            old(builder).data().stop_map().dom()
        },
        forall|k: StopId| #[trigger] old(builder).data().stop_map().contains_key(k) && (k != r.stop_id || !is_loaded(*r))
            ==> final(builder).data().stop_map()[k] == old(builder).data().stop_map()[k],
        is_loaded(*r) ==> stop_matches(final(builder).data().stop_map()[r.stop_id], *r)
            && final(builder).data().stop_map()[r.stop_id].transfers@.len() == 0,
        final(builder).children_map().dom() == if is_loaded(*r) && r.parent_station is Some {
            old(builder).children_map().dom().insert(r.parent_station->0)
        } else {
            old(builder).children_map().dom()
        },
        final(builder).data().trip_map() == old(builder).data().trip_map(),
        final(builder).route_map() == old(builder).route_map(),
        final(builder).departure_count() == old(builder).departure_count(),
        final(builder).data().day_services() == old(builder).data().day_services(),
        final(builder).data().start_date() == old(builder).data().start_date(),
{
    if r.location_type == 3 {
        return;
    }
    let name = r.stop_name.clone();
    let short = strip_stop_name(&r.stop_name);
    if r.location_type == 1 {
        builder.add_station(r.stop_id, name, short, r.location);
    } else if r.location_type == 0 {
        builder.add_stop_or_platform(r.stop_id, name, short, r.location, r.parent_station);
        proof {
            if let Some(p) = r.parent_station {
                assert(final(builder).children_map().dom() =~= old(builder).children_map().dom().insert(p));
            }
        }
    } else {
        let station = match r.parent_station {
            Some(p) => p,
            None => vstd::pervasive::unreached(),
        };
        builder.add_entrance_or_exit(r.stop_id, name, short, r.location, station);
        assert(final(builder).children_map().dom() =~= old(builder).children_map().dom().insert(station));
    }
}

/// What the last loaded records say after one more record.
proof fn lemma_stops_step(stops: Seq<StopRecord>, i: int)
    requires
        0 <= i < stops.len(),
    ensures
        forall|k: StopId| #[trigger] last_loaded(stops.take(i + 1), k) == if is_loaded(stops[i]) && stops[i].stop_id == k {
            Some(stops[i])
        } else {
            last_loaded(stops.take(i), k)
        },
        loaded_ids(stops.take(i + 1)) == if is_loaded(stops[i]) {
            loaded_ids(stops.take(i)).insert(stops[i].stop_id)
        } else {
            loaded_ids(stops.take(i))
        },
        parent_ids(stops.take(i + 1)) == if is_loaded(stops[i]) && stops[i].parent_station is Some {
            parent_ids(stops.take(i)).insert(stops[i].parent_station->0)
        } else {
            parent_ids(stops.take(i))
        },
{
    let t = stops.take(i + 1);
    let t0 = stops.take(i);
    assert(t.drop_last() =~= t0);
    assert(t.last() == stops[i]);
    assert forall|k: StopId| #[trigger] last_loaded(t, k) == if is_loaded(stops[i]) && stops[i].stop_id == k {
        Some(stops[i])
    } else {
        last_loaded(t0, k)
    } by {}
    let expected = if is_loaded(stops[i]) {
        loaded_ids(t0).insert(stops[i].stop_id)
    } else {
        loaded_ids(t0)
    };
    assert(loaded_ids(t) =~= expected);
    let expected_parents = if is_loaded(stops[i]) && stops[i].parent_station is Some {
        parent_ids(t0).insert(stops[i].parent_station->0)
    } else {
        parent_ids(t0)
    };
    assert forall|p: StopId| parent_ids(t).contains(p) <==> expected_parents.contains(p) by {
        if parent_ids(t).contains(p) {
            let j = choose|j: int| 0 <= j < t.len() && is_loaded(t[j]) && #[trigger] t[j].parent_station == Some(p);
            if j < i {
                assert(t0[j] == t[j]);
                assert(parent_ids(t0).contains(p));
            }
        }
        if parent_ids(t0).contains(p) {
            let j = choose|j: int| 0 <= j < t0.len() && is_loaded(t0[j]) && #[trigger] t0[j].parent_station == Some(p);
            assert(t[j] == t0[j]);
        }
        if is_loaded(stops[i]) && stops[i].parent_station == Some(p) {
            assert(t[i] == stops[i]);
        }
    }
    assert(parent_ids(t) =~= expected_parents);
}

/// Adds the loaded stops of the records to the data built; a later record with the id of an
/// earlier one takes its place.
fn add_stops(builder: &mut Builder, stops: &Vec<StopRecord>)
    requires
        old(builder).wf(),
        old(builder).data().stop_map().is_empty(),
        old(builder).children_map().is_empty(),
        forall|i: int| 0 <= i < stops@.len() ==> stop_record_valid(#[trigger] stops@[i]),
    ensures
        final(builder).wf(),
        final(builder).data().stop_map().dom() == loaded_ids(stops@),
        forall|k: StopId| #[trigger] final(builder).data().stop_map().contains_key(k) ==> stop_matches(
            final(builder).data().stop_map()[k],
            last_loaded(stops@, k)->0,
        ) && final(builder).data().stop_map()[k].transfers@.len() == 0,
        final(builder).children_map().dom() == parent_ids(stops@),
        final(builder).data().trip_map() == old(builder).data().trip_map(),
        final(builder).route_map() == old(builder).route_map(),
        final(builder).departure_count() == old(builder).departure_count(),
        final(builder).data().day_services() == old(builder).data().day_services(),
        final(builder).data().start_date() == old(builder).data().start_date(),
{
    let ghost recs = stops@;
    let ghost start = *builder;
    proof {
        assert(recs.take(0) =~= Seq::<StopRecord>::empty());
        assert(loaded_ids(recs.take(0)) =~= Set::<StopId>::empty());
        assert(parent_ids(recs.take(0)) =~= Set::<StopId>::empty());
        assert(builder.data().stop_map().dom() =~= Set::<StopId>::empty());
        assert(builder.children_map().dom() =~= Set::<StopId>::empty());
    }
    let mut i: usize = 0;
    while i < stops.len()
        invariant
            i <= recs.len(),
            recs == stops@,
            forall|j: int| 0 <= j < recs.len() ==> stop_record_valid(#[trigger] recs[j]),
            builder.wf(),
            builder.data().stop_map().dom() == loaded_ids(recs.take(i as int)),
            forall|k: StopId| #[trigger] builder.data().stop_map().contains_key(k) ==> stop_matches(
                builder.data().stop_map()[k],
                last_loaded(recs.take(i as int), k)->0,
            ) && builder.data().stop_map()[k].transfers@.len() == 0,
            builder.children_map().dom() == parent_ids(recs.take(i as int)),
            builder.data().trip_map() == start.data().trip_map(),
            builder.route_map() == start.route_map(),
            builder.departure_count() == start.departure_count(),
            builder.data().day_services() == start.data().day_services(),
            builder.data().start_date() == start.data().start_date(),
        decreases recs.len() - i,
    {
        let ghost before = *builder;
        add_stop(builder, &stops[i]);
        proof {
            lemma_stops_step(recs, i as int);
            assert forall|k: StopId| #[trigger] builder.data().stop_map().contains_key(k) implies stop_matches(
                builder.data().stop_map()[k],
                last_loaded(recs.take(i + 1), k)->0,
            ) && builder.data().stop_map()[k].transfers@.len() == 0 by {
                if !(is_loaded(recs[i as int]) && recs[i as int].stop_id == k) {
                    assert(before.data().stop_map().contains_key(k));
                }
            }
        }
        i = i + 1;
    }
    assert(recs.take(i as int) =~= recs);
}

/// The transfers of the records from the stop, in order.
pub open spec fn transfers_from(transfers: Seq<TransferRecord>, k: StopId) -> Seq<Transfer>
    decreases transfers.len(),
{
    if transfers.len() == 0 {
        Seq::empty()
    } else {
        transfers_from(transfers.drop_last(), k) + if transfers.last().from_stop_id == k {
            seq![Transfer { to_stop_id: transfers.last().to_stop_id, min_transfer_time: transfers.last().min_transfer_time }]
        } else {
            Seq::empty()
        }
    }
}

/// The two stops are the same but for the transfers, which `new` has more of.
pub open spec fn with_transfers(new: Stop, old: Stop, added: Seq<Transfer>) -> bool {
    &&& same_except_transfers(new, old)
    &&& new.transfers@ == old.transfers@ + added
}

/// Adds the transfers of the records to the stops they leave from.
fn add_transfers(builder: &mut Builder, transfers: &Vec<TransferRecord>)
    requires
        old(builder).wf(),
        forall|j: int| 0 <= j < transfers@.len() ==> old(builder).data().stop_map().contains_key(#[trigger] transfers@[j].from_stop_id),
    ensures
        final(builder).wf(),
        final(builder).data().stop_map().dom() == old(builder).data().stop_map().dom(),
        forall|k: StopId| #[trigger] final(builder).data().stop_map().contains_key(k) ==> with_transfers(
            final(builder).data().stop_map()[k],
            old(builder).data().stop_map()[k],
            transfers_from(transfers@, k),
        ),
        final(builder).children_map() == old(builder).children_map(),
        final(builder).data().trip_map() == old(builder).data().trip_map(),
        final(builder).route_map() == old(builder).route_map(),
        final(builder).departure_count() == old(builder).departure_count(),
        final(builder).data().day_services() == old(builder).data().day_services(),
        final(builder).data().start_date() == old(builder).data().start_date(),
{
    let ghost recs = transfers@;
    let ghost start = *builder;
    proof {
        assert forall|k: StopId| #[trigger] builder.data().stop_map().contains_key(k) implies with_transfers(
            builder.data().stop_map()[k],
            start.data().stop_map()[k],
            transfers_from(recs.take(0), k),
        ) by {
            assert(recs.take(0) =~= Seq::<TransferRecord>::empty());
            assert(builder.data().stop_map()[k].transfers@ =~= start.data().stop_map()[k].transfers@ + Seq::<Transfer>::empty());
        }
    }
    let mut i: usize = 0;
    while i < transfers.len()
        invariant
            i <= recs.len(),
            recs == transfers@,
            forall|j: int| 0 <= j < recs.len() ==> start.data().stop_map().contains_key(#[trigger] recs[j].from_stop_id),
            builder.wf(),
            builder.data().stop_map().dom() == start.data().stop_map().dom(),
            forall|k: StopId| #[trigger] builder.data().stop_map().contains_key(k) ==> with_transfers(
                builder.data().stop_map()[k],
                start.data().stop_map()[k],
                transfers_from(recs.take(i as int), k),
            ),
            builder.children_map() == start.children_map(),
            builder.data().trip_map() == start.data().trip_map(),
            builder.route_map() == start.route_map(),
            builder.departure_count() == start.departure_count(),
            builder.data().day_services() == start.data().day_services(),
            builder.data().start_date() == start.data().start_date(),
        decreases recs.len() - i,
    {
        let t = transfers[i];
        let ghost before = *builder;
        assert(start.data().stop_map().contains_key(recs[i as int].from_stop_id));
        builder.add_transfer(t.from_stop_id, t.to_stop_id, t.min_transfer_time);
        proof {
            assert(recs.take(i + 1).drop_last() =~= recs.take(i as int));
            assert(recs.take(i + 1).last() == t);
            assert forall|k: StopId| #[trigger] builder.data().stop_map().contains_key(k) implies with_transfers(
                builder.data().stop_map()[k],
                start.data().stop_map()[k],
                transfers_from(recs.take(i + 1), k),
            ) by {
                assert(before.data().stop_map().contains_key(k));
                if k == t.from_stop_id {
                    assert(builder.data().stop_map()[k].transfers@ =~= start.data().stop_map()[k].transfers@
                        + transfers_from(recs.take(i + 1), k));
                } else {
                    assert(transfers_from(recs.take(i + 1), k) =~= transfers_from(recs.take(i as int), k));
                }
            }
        }
        i = i + 1;
    }
    assert(recs.take(i as int) =~= recs);
}

/// The colour of the last pair that names the route, as the colours file lists them.
pub open spec fn color_lookup(colors: Seq<(String, String)>, name: Seq<char>) -> Option<Seq<char>>
    decreases colors.len(),
{
    if colors.len() == 0 {
        None
    } else if colors.last().0@ == name {
        Some(colors.last().1@)
    } else {
        color_lookup(colors.drop_last(), name)
    }
}

/// The colour a route is drawn in: its own from the colours file, else that of its kind.
pub open spec fn route_color(colors: Seq<(String, String)>, r: RouteRecord) -> Seq<char> {
    match color_lookup(colors, r.route_short_name@) {
        Some(c) => c,
        None => type_color(r.route_type),
    }
}

/// The colour of the last pair that names the route, if any.
fn find_color(colors: &Vec<(String, String)>, name: &String) -> (c: Option<String>)
    ensures
        match c {
            Some(s) => color_lookup(colors@, name@) == Some(s@),
            None => color_lookup(colors@, name@) is None,
        },
{
    let mut found: Option<String> = None;
    let mut i: usize = 0;
    while i < colors.len()
        invariant
            i <= colors@.len(),
            match found {
                Some(s) => color_lookup(colors@.take(i as int), name@) == Some(s@),
                None => color_lookup(colors@.take(i as int), name@) is None,
            },
        decreases colors@.len() - i,
    {
        assert(colors@.take(i + 1).drop_last() =~= colors@.take(i as int));
        assert(colors@.take(i + 1).last() == colors@[i as int]);
        if colors[i].0 == *name {
            found = Some(colors[i].1.clone());
        }
        i = i + 1;
    }
    assert(colors@.take(i as int) =~= colors@);
    found
}

/// The last record of the route, which is what the data keeps of it.
pub open spec fn last_route(routes: Seq<RouteRecord>, id: RouteId) -> Option<RouteRecord>
    decreases routes.len(),
{
    if routes.len() == 0 {
        None
    } else if routes.last().route_id == id {
        Some(routes.last())
    } else {
        last_route(routes.drop_last(), id)
    }
}

/// The ids of the routes.
pub open spec fn route_ids(routes: Seq<RouteRecord>) -> Set<RouteId> {
    Set::new(|id: RouteId| last_route(routes, id) is Some)
}

/// The route is what the record describes, in the colour it is drawn in.
pub open spec fn route_matches(route: crate::search_data::Route, r: RouteRecord, colors: Seq<(String, String)>) -> bool {
    &&& route.route_id == r.route_id
    &&& route.route_short_name@ == r.route_short_name@
    &&& route.route_type == r.route_type
    &&& route.route_color@ == route_color(colors, r)
}

/// Adds the routes of the records, each in its colour; a later record with the id of an
/// earlier one takes its place.
fn add_routes(builder: &mut Builder, routes: &Vec<RouteRecord>, colors: &Vec<(String, String)>)
    requires
        old(builder).wf(),
        old(builder).route_map().is_empty(),
    ensures
        final(builder).wf(),
        final(builder).route_map().dom() == route_ids(routes@),
        forall|id: RouteId| #[trigger] final(builder).route_map().contains_key(id) ==> route_matches(
            final(builder).route_map()[id],
            last_route(routes@, id)->0,
            colors@,
        ),
        final(builder).data() == old(builder).data(),
        final(builder).children_map() == old(builder).children_map(),
        final(builder).departure_count() == old(builder).departure_count(),
{
    let ghost recs = routes@;
    let ghost start = *builder;
    proof {
        assert(recs.take(0) =~= Seq::<RouteRecord>::empty());
        assert(route_ids(recs.take(0)) =~= Set::<RouteId>::empty());
        assert(builder.route_map().dom() =~= Set::<RouteId>::empty());
    }
    let mut i: usize = 0;
    while i < routes.len()
        invariant
            i <= recs.len(),
            recs == routes@,
            builder.wf(),
            builder.route_map().dom() == route_ids(recs.take(i as int)),
            forall|id: RouteId| #[trigger] builder.route_map().contains_key(id) ==> route_matches(
                builder.route_map()[id],
                last_route(recs.take(i as int), id)->0,
                colors@,
            ),
            builder.data() == start.data(),
            builder.children_map() == start.children_map(),
            builder.departure_count() == start.departure_count(),
        decreases recs.len() - i,
    {
        let r = &routes[i];
        let color = match find_color(colors, &r.route_short_name) {
            Some(c) => c,
            None => color_for_type(r.route_type).to_owned(),
        };
        builder.add_route(r.route_id, r.route_short_name.clone(), r.route_type, color);
        proof {
            let t = recs.take(i + 1);
            let t0 = recs.take(i as int);
            assert(t.drop_last() =~= t0);
            assert(t.last() == *r);
            assert(route_ids(t) =~= route_ids(t0).insert(r.route_id));
        }
        i = i + 1;
    }
    assert(recs.take(i as int) =~= recs);
}

/// The trip runs on a service kept: all are when no day is chosen.
pub open spec fn trip_kept(r: TripRecord, services: Option<Set<ServiceId>>) -> bool {
    match services {
        Some(kept) => kept.contains(r.service_id),
        None => true,
    }
}

/// The last kept record of the trip.
pub open spec fn kept_trip(trips: Seq<TripRecord>, services: Option<Set<ServiceId>>, id: TripId) -> Option<TripRecord>
    decreases trips.len(),
{
    if trips.len() == 0 {
        None
    } else if trip_kept(trips.last(), services) && trips.last().trip_id == id {
        Some(trips.last())
    } else {
        kept_trip(trips.drop_last(), services, id)
    }
}

/// The ids of the kept trips.
pub open spec fn kept_trip_ids(trips: Seq<TripRecord>, services: Option<Set<ServiceId>>) -> Set<TripId> {
    Set::new(|id: TripId| kept_trip(trips, services, id) is Some)
}

/// The services kept as a set.
pub open spec fn services_view_of(services: Option<HashSet<ServiceId>>) -> Option<Set<ServiceId>> {
    match services {
        Some(s) => Some(s@),
        None => None,
    }
}

/// Adds the trips of the records that run on a service kept; returns their ids.
fn add_trips(builder: &mut Builder, trips: &Vec<TripRecord>, services: &Option<HashSet<ServiceId>>) -> (added: HashSet<TripId>)
    requires
        old(builder).wf(),
        old(builder).data().trip_map().is_empty(),
        forall|j: int|
            0 <= j < trips@.len() && trip_kept(#[trigger] trips@[j], services_view_of(*services)) ==> old(
                builder,
            ).route_map().contains_key(trips@[j].route_id),
    ensures
        final(builder).wf(),
        final(builder).data().trip_map().dom() == kept_trip_ids(trips@, services_view_of(*services)),
        added@ == kept_trip_ids(trips@, services_view_of(*services)),
        forall|t: TripId| #[trigger] final(builder).data().trip_map().contains_key(t) ==> {
            let rec = kept_trip(trips@, services_view_of(*services), t)->0;
            &&& final(builder).data().trip_map()[t].route == old(builder).route_map()[rec.route_id]
            &&& final(builder).data().trip_map()[t].service_id == rec.service_id
            &&& final(builder).data().trip_map()[t].stop_times@.len() == 0
        },
        final(builder).data().stop_map() == old(builder).data().stop_map(),
        final(builder).children_map() == old(builder).children_map(),
        final(builder).route_map() == old(builder).route_map(),
        final(builder).departure_count() == old(builder).departure_count(),
        final(builder).data().day_services() == old(builder).data().day_services(),
        final(builder).data().start_date() == old(builder).data().start_date(),
{
    let ghost recs = trips@;
    let ghost kept = services_view_of(*services);
    let ghost start = *builder;
    let mut added: HashSet<TripId> = HashSet::new();
    proof {
        assert(recs.take(0) =~= Seq::<TripRecord>::empty());
        assert(kept_trip_ids(recs.take(0), kept) =~= Set::<TripId>::empty());
        assert(builder.data().trip_map().dom() =~= Set::<TripId>::empty());
    }
    let mut i: usize = 0;
    while i < trips.len()
        invariant
            i <= recs.len(),
            recs == trips@,
            kept == services_view_of(*services),
            forall|j: int| 0 <= j < recs.len() && trip_kept(#[trigger] recs[j], kept) ==> start.route_map().contains_key(recs[j].route_id),
            builder.wf(),
            builder.data().trip_map().dom() == kept_trip_ids(recs.take(i as int), kept),
            added@ == kept_trip_ids(recs.take(i as int), kept),
            forall|t: TripId| #[trigger] builder.data().trip_map().contains_key(t) ==> {
                let rec = kept_trip(recs.take(i as int), kept, t)->0;
                &&& builder.data().trip_map()[t].route == start.route_map()[rec.route_id]
                &&& builder.data().trip_map()[t].service_id == rec.service_id
                &&& builder.data().trip_map()[t].stop_times@.len() == 0
            },
            builder.data().stop_map() == start.data().stop_map(),
            builder.children_map() == start.children_map(),
            builder.route_map() == start.route_map(),
            builder.departure_count() == start.departure_count(),
            builder.data().day_services() == start.data().day_services(),
            builder.data().start_date() == start.data().start_date(),
        decreases recs.len() - i,
    {
        let r = trips[i];
        let ghost t = recs.take(i + 1);
        let ghost t0 = recs.take(i as int);
        proof {
            assert(t.drop_last() =~= t0);
            assert(t.last() == r);
        }
        let keep = match services {
            Some(s) => s.contains(&r.service_id),
            None => true,
        };
        if keep {
            builder.add_trip(r.trip_id, r.route_id, r.service_id);
            added.insert(r.trip_id);
            proof {
                assert(kept_trip_ids(t, kept) =~= kept_trip_ids(t0, kept).insert(r.trip_id));
            }
        } else {
            proof {
                assert(kept_trip_ids(t, kept) =~= kept_trip_ids(t0, kept));
            }
        }
        i = i + 1;
    }
    assert(recs.take(i as int) =~= recs);
    added
}

/// A kept trip found is one of the records.
proof fn lemma_kept_trip_found(trips: Seq<TripRecord>, services: Option<Set<ServiceId>>, id: TripId)
    requires
        kept_trip(trips, services, id) is Some,
    ensures
        exists|j: int| 0 <= j < trips.len() && trips[j] == kept_trip(trips, services, id)->0 && trip_kept(trips[j], services)
            && trips[j].trip_id == id,
    decreases trips.len(),
{
    if !(trip_kept(trips.last(), services) && trips.last().trip_id == id) {
        lemma_kept_trip_found(trips.drop_last(), services, id);
        let j = choose|j: int| 0 <= j < trips.drop_last().len() && trips.drop_last()[j] == kept_trip(trips.drop_last(), services, id)->0
            && trip_kept(trips.drop_last()[j], services) && trips.drop_last()[j].trip_id == id;
        assert(trips[j] == trips.drop_last()[j]);
    } else {
        assert(trips[trips.len() - 1] == trips.last());
    }
}

/// The stops of the trip in the records, in order.
pub open spec fn times_of(stop_times: Seq<StopTimeRecord>, t: TripId) -> Seq<StopTime>
    decreases stop_times.len(),
{
    if stop_times.len() == 0 {
        Seq::empty()
    } else {
        times_of(stop_times.drop_last(), t) + if stop_times.last().trip_id == t {
            seq![
                StopTime {
                    arrival_time: stop_times.last().arrival_time,
                    departure_time: stop_times.last().departure_time,
                    stop_id: stop_times.last().stop_id,
                },
            ]
        } else {
            Seq::empty()
        }
    }
}

/// The two stops are the same but for the departures of a stop or platform.
pub open spec fn same_but_departures(new: Stop, old: Stop) -> bool {
    &&& same_except_transfers_and_departures(new, old)
    &&& new.transfers@ == old.transfers@
    &&& match (new.stereotype, old.stereotype) {
        (
            StopStereoType::StopOrPlatform { station: s1, .. },
            StopStereoType::StopOrPlatform { station: s2, .. },
        ) => s1 == s2,
        (StopStereoType::StopOrPlatform { .. }, _) => false,
        (_, StopStereoType::StopOrPlatform { .. }) => false,
        _ => new.stereotype == old.stereotype,
    }
}

/// Adds the stops of the records whose trip was added to their trips, in order.
fn add_stop_times(builder: &mut Builder, stop_times: &Vec<StopTimeRecord>, added: &HashSet<TripId>)
    requires
        old(builder).wf(),
        old(builder).data().trip_map().dom() == added@,
        old(builder).departure_count() + stop_times@.len() < u64::MAX,
        forall|j: int|
            0 <= j < stop_times@.len() && added@.contains(#[trigger] stop_times@[j].trip_id) ==> old(
                builder,
            ).data().stop_map().contains_key(stop_times@[j].stop_id) && old(builder).data().stop_map()[stop_times@[j].stop_id].stereotype is StopOrPlatform,
    ensures
        final(builder).wf(),
        final(builder).data().trip_map().dom() == old(builder).data().trip_map().dom(),
        forall|t: TripId| #[trigger] final(builder).data().trip_map().contains_key(t) ==> {
            &&& final(builder).data().trip_map()[t].route == old(builder).data().trip_map()[t].route
            &&& final(builder).data().trip_map()[t].service_id == old(builder).data().trip_map()[t].service_id
            &&& final(builder).data().trip_map()[t].stop_times@ == old(builder).data().trip_map()[t].stop_times@ + times_of(
                stop_times@,
                t,
            )
        },
        final(builder).data().stop_map().dom() == old(builder).data().stop_map().dom(),
        forall|k: StopId| #[trigger] final(builder).data().stop_map().contains_key(k) ==> same_but_departures(
            final(builder).data().stop_map()[k],
            old(builder).data().stop_map()[k],
        ),
        final(builder).children_map() == old(builder).children_map(),
        final(builder).route_map() == old(builder).route_map(),
        final(builder).data().day_services() == old(builder).data().day_services(),
        final(builder).data().start_date() == old(builder).data().start_date(),
{
    let ghost recs = stop_times@;
    let ghost start = *builder;
    proof {
        assert(recs.take(0) =~= Seq::<StopTimeRecord>::empty());
        assert forall|t: TripId| #[trigger] builder.data().trip_map().contains_key(t) implies builder.data().trip_map()[t].stop_times@
            == start.data().trip_map()[t].stop_times@ + times_of(recs.take(0), t) by {
            assert(builder.data().trip_map()[t].stop_times@ =~= start.data().trip_map()[t].stop_times@ + Seq::<StopTime>::empty());
        }
    }
    let mut i: usize = 0;
    while i < stop_times.len()
        invariant
            i <= recs.len(),
            recs == stop_times@,
            start.data().trip_map().dom() == added@,
            start.departure_count() + recs.len() < u64::MAX,
            forall|j: int|
                0 <= j < recs.len() && added@.contains(#[trigger] recs[j].trip_id) ==> start.data().stop_map().contains_key(
                    recs[j].stop_id,
                ) && start.data().stop_map()[recs[j].stop_id].stereotype is StopOrPlatform,
            builder.wf(),
            builder.departure_count() <= start.departure_count() + i,
            builder.data().trip_map().dom() == start.data().trip_map().dom(),
            forall|t: TripId| #[trigger] builder.data().trip_map().contains_key(t) ==> {
                &&& builder.data().trip_map()[t].route == start.data().trip_map()[t].route
                &&& builder.data().trip_map()[t].service_id == start.data().trip_map()[t].service_id
                &&& builder.data().trip_map()[t].stop_times@ == start.data().trip_map()[t].stop_times@ + times_of(
                    recs.take(i as int),
                    t,
                )
            },
            builder.data().stop_map().dom() == start.data().stop_map().dom(),
            forall|k: StopId| #[trigger] builder.data().stop_map().contains_key(k) ==> same_but_departures(
                builder.data().stop_map()[k],
                start.data().stop_map()[k],
            ),
            builder.children_map() == start.children_map(),
            builder.route_map() == start.route_map(),
            builder.data().day_services() == start.data().day_services(),
            builder.data().start_date() == start.data().start_date(),
        decreases recs.len() - i,
    {
        let st = stop_times[i];
        let ghost before = *builder;
        proof {
            assert(recs.take(i + 1).drop_last() =~= recs.take(i as int));
            assert(recs.take(i + 1).last() == st);
        }
        if added.contains(&st.trip_id) {
            assert(added@.contains(recs[i as int].trip_id));
            assert(builder.data().stop_map()[st.stop_id].stereotype is StopOrPlatform);
            builder.add_trip_stop(st.trip_id, st.arrival_time, st.departure_time, st.stop_id);
            proof {
                assert forall|t: TripId| #[trigger] builder.data().trip_map().contains_key(t) implies builder.data().trip_map()[t].stop_times@
                    == start.data().trip_map()[t].stop_times@ + times_of(recs.take(i + 1), t) by {
                    if t == st.trip_id {
                        assert(builder.data().trip_map()[t].stop_times@ =~= start.data().trip_map()[t].stop_times@ + times_of(
                            recs.take(i + 1),
                            t,
                        ));
                    } else {
                        assert(times_of(recs.take(i + 1), t) =~= times_of(recs.take(i as int), t));
                    }
                }
                assert forall|k: StopId| #[trigger] builder.data().stop_map().contains_key(k) implies same_but_departures(
                    builder.data().stop_map()[k],
                    start.data().stop_map()[k],
                ) by {
                    assert(before.data().stop_map().contains_key(k));
                }
            }
        } else {
            proof {
                assert forall|t: TripId| #[trigger] builder.data().trip_map().contains_key(t) implies builder.data().trip_map()[t].stop_times@
                    == start.data().trip_map()[t].stop_times@ + times_of(recs.take(i + 1), t) by {
                    assert(added@.contains(t));
                    assert(times_of(recs.take(i + 1), t) =~= times_of(recs.take(i as int), t));
                }
            }
        }
        i = i + 1;
    }
    assert(recs.take(i as int) =~= recs);
}

/// The services whose trips are loaded: all, or those of the day chosen.
pub open spec fn kept_services(calendars: Seq<Calendar>, day_filter: DayFilter) -> Option<Set<ServiceId>> {
    match day_filter {
        DayFilter::All => None,
        DayFilter::Single(day) => Some(calendar_services(calendars, day)),
    }
}

/// The services of the day in the list of the services of each day.
fn day_services_set(by_day: &Vec<(Day, Vec<ServiceId>)>, day: Day) -> (r: HashSet<ServiceId>)
    ensures
        r@ == services_on(services_view(by_day@), day),
{
    let ghost v = services_view(by_day@);
    let mut k: usize = 0;
    assert(v.skip(0) =~= v);
    while k < by_day.len()
        invariant
            k <= by_day@.len() == v.len(),
            v == services_view(by_day@),
            services_on(v, day) == services_on(v.skip(k as int), day),
        decreases by_day@.len() - k,
    {
        assert(v.skip(k as int)[0] == v[k as int]);
        if by_day[k].0 == day {
            let services = &by_day[k].1;
            let mut set: HashSet<ServiceId> = HashSet::new();
            let mut j: usize = 0;
            while j < services.len()
                invariant
                    j <= services@.len(),
                    set@ == services@.take(j as int).to_set(),
                decreases services@.len() - j,
            {
                set.insert(services[j]);
                proof {
                    assert(services@.take(j + 1) =~= services@.take(j as int).push(services@[j as int]));
                    services@.take(j as int).lemma_push_to_set_commute(services@[j as int]);
                }
                j = j + 1;
            }
            assert(services@.take(j as int) =~= services@);
            return set;
        }
        assert(v.skip(k as int).drop_first() =~= v.skip(k + 1));
        k = k + 1;
    }
    let set = HashSet::new();
    assert(set@ =~= Set::<ServiceId>::empty());
    set
}

/// The records can be loaded: every stop record is of a kind known, with a station where it
/// needs one and none where it must have none; the stations named are loaded as stations;
/// transfers leave from loaded stops; when a day is chosen some service runs on it; the trips
/// kept have known routes; and their stops are loaded stops or platforms.
pub open spec fn feed_loadable(feed: Feed, day_filter: DayFilter) -> bool {
    let stops = feed.stops@;
    let services = kept_services(feed.calendars@, day_filter);
    let kept_ids = kept_trip_ids(feed.trips@, services);
    &&& forall|i: int| 0 <= i < stops.len() ==> stop_record_valid(#[trigger] stops[i])
    &&& parents_are_stations(stops)
    &&& forall|j: int| 0 <= j < feed.transfers@.len() ==> loaded_ids(stops).contains(#[trigger] feed.transfers@[j].from_stop_id)
    &&& day_filter matches DayFilter::Single(day) ==> calendar_services(feed.calendars@, day).len() > 0
    &&& forall|j: int|
        0 <= j < feed.trips@.len() && trip_kept(#[trigger] feed.trips@[j], services) ==> route_ids(feed.routes@).contains(
            feed.trips@[j].route_id,
        )
    &&& forall|j: int|
        0 <= j < feed.stop_times@.len() && kept_ids.contains(#[trigger] feed.stop_times@[j].trip_id) ==> (last_loaded(
            stops,
            feed.stop_times@[j].stop_id,
        ) matches Some(r) && r.location_type == 0)
    &&& feed.stop_times@.len() < u64::MAX
}

/// The data of a feed: the services of each day; the loaded stops, each as its last record
/// says, with its transfers; the trips that run on the services kept, each with its route in
/// the colour it is drawn in and its stops in order.
pub fn load_data(feed: Feed, day_filter: DayFilter, route_colors: &Vec<(String, String)>) -> (d: GTFSData)
    requires
        feed_loadable(feed, day_filter),
    ensures
        d.wf(),
        forall|day: Day| #[trigger] services_on(d.day_services(), day) == calendar_services(feed.calendars@, day),
        d.start_date() == last_start_date(feed.calendars@),
        d.stop_map().dom() == loaded_ids(feed.stops@),
        forall|k: StopId| #[trigger] d.stop_map().contains_key(k) ==> {
            &&& stop_matches(d.stop_map()[k], last_loaded(feed.stops@, k)->0)
            &&& d.stop_map()[k].transfers@ == transfers_from(feed.transfers@, k)
        },
        d.trip_map().dom() == kept_trip_ids(feed.trips@, kept_services(feed.calendars@, day_filter)),
        forall|t: TripId| #[trigger] d.trip_map().contains_key(t) ==> {
            let rec = kept_trip(feed.trips@, kept_services(feed.calendars@, day_filter), t)->0;
            &&& route_matches(d.trip_map()[t].route, last_route(feed.routes@, rec.route_id)->0, route_colors@)
            &&& d.trip_map()[t].service_id == rec.service_id
            &&& d.trip_map()[t].stop_times@ == times_of(feed.stop_times@, t)
        },
{
    let ghost f = feed;
    let Feed { calendars, stops, transfers, routes, trips, stop_times } = feed;
    let by_day = services_by_day(&calendars);
    let ghost by_day_view = services_view(by_day@);
    let services = match day_filter {
        DayFilter::All => None,
        DayFilter::Single(day) => Some(day_services_set(&by_day, day)),
    };
    let ghost kept = kept_services(calendars@, day_filter);
    assert(services_view_of(services) == kept);
    let start_date = if calendars.len() > 0 {
        calendars[calendars.len() - 1].start_date.clone()
    } else {
        String::new()
    };
    let mut builder = GTFSData::builder(by_day, start_date);
    let ghost b0 = builder;
    assert(b0.data().day_services() =~= by_day_view);
    add_stops(&mut builder, &stops);
    let ghost b1 = builder;
    add_transfers(&mut builder, &transfers);
    let ghost b2 = builder;
    add_routes(&mut builder, &routes, route_colors);
    let ghost b3 = builder;
    proof {
        assert forall|j: int| 0 <= j < trips@.len() && trip_kept(#[trigger] trips@[j], kept) implies b3.route_map().contains_key(
            trips@[j].route_id,
        ) by {}
    }
    let added = add_trips(&mut builder, &trips, &services);
    let ghost b4 = builder;
    proof {
        assert forall|j: int| 0 <= j < stop_times@.len() && added@.contains(#[trigger] stop_times@[j].trip_id) implies b4.data().stop_map().contains_key(
            stop_times@[j].stop_id,
        ) && b4.data().stop_map()[stop_times@[j].stop_id].stereotype is StopOrPlatform by {
            let id = stop_times@[j].stop_id;
            assert(b1.data().stop_map().contains_key(id));
        }
    }
    add_stop_times(&mut builder, &stop_times, &added);
    let ghost b5 = builder;
    proof {
        assert forall|k: StopId| #[trigger] b5.children_map().contains_key(k) implies b5.data().stop_map().contains_key(k)
            && b5.data().stop_map()[k].stereotype is Station by {
            assert(parent_ids(stops@).contains(k));
            assert(b1.data().stop_map().contains_key(k));
        }
    }
    let d = builder.build();
    proof {
        assert forall|k: StopId| #[trigger] d.stop_map().contains_key(k) implies {
            &&& stop_matches(d.stop_map()[k], last_loaded(stops@, k)->0)
            &&& d.stop_map()[k].transfers@ == transfers_from(transfers@, k)
        } by {
            let r = last_loaded(stops@, k)->0;
            assert(b1.data().stop_map().contains_key(k));
            assert(stop_matches(b1.data().stop_map()[k], r));
            assert(with_transfers(b2.data().stop_map()[k], b1.data().stop_map()[k], transfers_from(transfers@, k)));
            assert(b4.data().stop_map().contains_key(k));
            assert(same_but_departures(b5.data().stop_map()[k], b4.data().stop_map()[k]));
            assert(stop_matches(b5.data().stop_map()[k], r));
            assert(d.stop_map()[k].transfers@ =~= transfers_from(transfers@, k));
        }
        assert forall|t: TripId| #[trigger] d.trip_map().contains_key(t) implies {
            let rec = kept_trip(trips@, kept, t)->0;
            &&& route_matches(d.trip_map()[t].route, last_route(routes@, rec.route_id)->0, route_colors@)
            &&& d.trip_map()[t].service_id == rec.service_id
            &&& d.trip_map()[t].stop_times@ == times_of(stop_times@, t)
        } by {
            let rec = kept_trip(trips@, kept, t)->0;
            lemma_kept_trip_found(trips@, kept, t);
            assert(b4.data().trip_map().contains_key(t));
            assert(b3.route_map().contains_key(rec.route_id));
            assert(b4.data().trip_map()[t].stop_times@ =~= Seq::<StopTime>::empty());
            assert(b5.data().trip_map()[t].stop_times@ =~= times_of(stop_times@, t));
        }
    }
    d
}

/// Why a search for a station failed.
#[derive(Debug)]
pub enum SearchError {
    /// No station has the name searched for.
    NotFound(String),
    /// Several stations have the name searched for.
    Ambiguous(Vec<Stop>),
}

/// The full names of the stops, separated by `, `.
pub open spec fn names_joined(stops: Seq<Stop>) -> Seq<char>
    decreases stops.len(),
{
    if stops.len() == 0 {
        Seq::empty()
    } else if stops.len() == 1 {
        stops[0].full_stop_name@
    } else {
        names_joined(stops.drop_last()) + seq![',', ' '] + stops.last().full_stop_name@
    }
}

/// The message of a failed search.
pub open spec fn search_error_message(e: SearchError) -> Seq<char> {
    match e {
        SearchError::NotFound(search) => "Couldn't find stations for search term \""@ + search@ + seq!['"'],
        SearchError::Ambiguous(stops) => "Found several stations or search term ("@ + names_joined(stops@)
            + seq![')'],
    }
}

impl SearchError {
    /// The message of the error.
    pub fn to_string(&self) -> (s: String)
        ensures
            s@ == search_error_message(*self),
    {
        match self {
            SearchError::NotFound(search) => {
                let mut out = String::from_str("Couldn't find stations for search term \"");
                out.append(search.as_str());
                let quote = "\"";
                proof {
                    reveal_strlit("\"");
                    assert(quote@ =~= seq!['"']);
                }
                out.append(quote);
                out
            },
            SearchError::Ambiguous(stops) => {
                let mut out = String::from_str("Found several stations or search term (");
                let ghost start = out@;
                let mut i: usize = 0;
                while i < stops.len()
                    invariant
                        i <= stops@.len(),
                        out@ == start + names_joined(stops@.take(i as int)),
                    decreases stops@.len() - i,
                {
                    proof {
                        assert(stops@.take(i + 1).drop_last() =~= stops@.take(i as int));
                        assert(stops@.take(i + 1).last() == stops@[i as int]);
                    }
                    if i > 0 {
                        let separator = ", ";
                        proof {
                            reveal_strlit(", ");
                            assert(separator@ =~= seq![',', ' ']);
                        }
                        out.append(separator);
                    }
                    out.append(stops[i].full_stop_name.as_str());
                    proof {
                        let taken = stops@.take(i + 1);
                        if i == 0 {
                            assert(taken[0] == stops@[0]);
                        }
                        assert(out@ =~= start + names_joined(taken));
                    }
                    i = i + 1;
                }
                let close = ")";
                proof {
                    reveal_strlit(")");
                    assert(close@ =~= seq![')']);
                    assert(stops@.take(stops@.len() as int) =~= stops@);
                }
                out.append(close);
                out
            },
        }
    }
}

/// The stop with the id is a station with exactly the name.
pub open spec fn station_named(data: GTFSData, k: StopId, name: Seq<char>) -> bool {
    &&& data.stop_map().contains_key(k)
    &&& data.stop_map()[k].spec_is_station()
    &&& data.stop_map()[k].full_stop_name@ == name
}

/// The station with exactly the name, when there is one; every station is looked at.
pub fn get_station_by_name<'r>(data: &'r GTFSData, exact_name: &str) -> (r: Result<&'r Stop, SearchError>)
    requires
        data.wf(),
        forall|k1: StopId, k2: StopId| station_named(*data, k1, exact_name@) && station_named(*data, k2, exact_name@) ==> k1 == k2,
    ensures
        match r {
            Ok(stop) => station_named(*data, stop.stop_id, exact_name@) && *stop == data.stop_map()[stop.stop_id],
            Err(SearchError::NotFound(name)) => name@ == exact_name@ && forall|k: StopId| !station_named(*data, k, exact_name@),
            Err(SearchError::Ambiguous(_)) => false,
        },
{
    let ids = crate::search_data::map_keys(data.stop_table());
    let target = exact_name.to_owned();
    let mut candidates: Vec<&Stop> = Vec::new();
    let mut i: usize = 0;
    while i < ids.len()
        invariant
            i <= ids@.len(),
            data.wf(),
            ids@.to_set() == data.stop_map().dom(),
            ids@.no_duplicates(),
            target@ == exact_name@,
            candidates@.len() <= 1,
            candidates@.len() == 0 ==> forall|j: int| 0 <= j < i ==> !station_named(*data, #[trigger] ids@[j], exact_name@),
            candidates@.len() == 1 ==> station_named(*data, candidates@[0].stop_id, exact_name@) && *candidates@[0]
                == data.stop_map()[candidates@[0].stop_id],
            forall|k1: StopId, k2: StopId| station_named(*data, k1, exact_name@) && station_named(*data, k2, exact_name@) ==> k1 == k2,
        decreases ids@.len() - i,
    {
        let k = ids[i];
        assert(ids@.to_set().contains(ids@[i as int]));
        assert(data.stop_map()[k].stop_id == k);
        match data.get_stop(&k) {
            Some(stop) => {
                if stop.is_station() && stop.full_stop_name == target {
                    if candidates.len() == 0 {
                        candidates.push(stop);
                    }
                }
            },
            None => {},
        }
        i = i + 1;
    }
    if candidates.len() == 0 {
        proof {
            assert forall|k: StopId| !station_named(*data, k, exact_name@) by {
                if station_named(*data, k, exact_name@) {
                    assert(ids@.to_set().contains(k));
                    let j = choose|j: int| 0 <= j < ids@.len() && ids@[j] == k;
                }
            }
        }
        Err(SearchError::NotFound(exact_name.to_owned()))
    } else {
        Ok(candidates[0])
    }
}

/// Whether at most one station has exactly the name, as `get_station_by_name` needs; every
/// station is looked at.
pub fn station_name_unique(data: &GTFSData, exact_name: &str) -> (b: bool)
    requires
        data.wf(),
    ensures
        b == forall|k1: StopId, k2: StopId|
            station_named(*data, k1, exact_name@) && station_named(*data, k2, exact_name@) ==> k1 == k2,
{
    let ids = crate::search_data::map_keys(data.stop_table());
    let target = exact_name.to_owned();
    let mut found: Option<StopId> = None;
    let mut i: usize = 0;
    while i < ids.len()
        invariant
            i <= ids@.len(),
            data.wf(),
            ids@.to_set() == data.stop_map().dom(),
            ids@.no_duplicates(),
            target@ == exact_name@,
            found matches Some(f) ==> station_named(*data, f, exact_name@) && exists|j: int| 0 <= j < i && ids@[j] == f,
            forall|j: int| 0 <= j < i && station_named(*data, #[trigger] ids@[j], exact_name@) ==> found == Some(ids@[j]),
        decreases ids@.len() - i,
    {
        let k = ids[i];
        assert(ids@.to_set().contains(ids@[i as int]));
        assert(data.stop_map()[k].stop_id == k);
        match data.get_stop(&k) {
            Some(stop) => {
                if stop.is_station() && stop.full_stop_name == target {
                    match found {
                        Some(f) => {
                            proof {
                                let j = choose|j: int| 0 <= j < i && ids@[j] == f;
                                assert(ids@[j] != ids@[i as int]);
                                assert(station_named(*data, k, exact_name@));
                            }
                            return false;
                        },
                        None => {
                            found = Some(k);
                        },
                    }
                }
            },
            None => {},
        }
        i = i + 1;
    }
    proof {
        assert forall|k1: StopId, k2: StopId|
            station_named(*data, k1, exact_name@) && station_named(*data, k2, exact_name@) implies k1 == k2 by {
            assert(ids@.to_set().contains(k1));
            assert(ids@.to_set().contains(k2));
            let j1 = choose|j: int| 0 <= j < ids@.len() && ids@[j] == k1;
            let j2 = choose|j: int| 0 <= j < ids@.len() && ids@[j] == k2;
        }
    }
    true
}

/// The stop with the id is a station.
pub open spec fn is_station_id(data: GTFSData, k: StopId) -> bool {
    data.stop_map().contains_key(k) && data.stop_map()[k].spec_is_station()
}

/// For each name of a station among `ids`, the ids of those stations with it.
pub open spec fn name_index(data: GTFSData, ids: Set<StopId>) -> Map<Seq<char>, Set<u64>> {
    Map::new(
        |n: Seq<char>| exists|k: StopId| ids.contains(k) && #[trigger] station_named(data, k, n),
        |n: Seq<char>| Set::new(|k: StopId| ids.contains(k) && station_named(data, k, n)),
    )
}

/// For each word longer than two bytes, in lowercase, of the name of a station among `ids`,
/// the ids of those stations whose name has it.
pub open spec fn word_index(data: GTFSData, ids: Set<StopId>) -> Map<Seq<char>, Set<u64>> {
    Map::new(
        |w: Seq<char>|
            exists|k: StopId| #[trigger] ids.contains(k) && is_station_id(data, k) && is_long_word_of(
                words_of(data.stop_map()[k].full_stop_name@),
                w,
            ),
        |w: Seq<char>|
            Set::new(
                |k: StopId| ids.contains(k) && is_station_id(data, k) && is_long_word_of(words_of(data.stop_map()[k].full_stop_name@), w),
            ),
    )
}

/// A word search over the names of the stations, each name finding the station's id.
pub fn build_station_word_index(data: &GTFSData) -> (s: Suggester)
    requires
        data.wf(),
        forall|k: StopId| #[trigger] is_station_id(*data, k) ==> data.stop_map()[k].full_stop_name@.len() > 0,
    ensures
        s.names() == name_index(*data, data.stop_map().dom()),
        s.words() == word_index(*data, data.stop_map().dom()),
{
    let ids = crate::search_data::map_keys(data.stop_table());
    let mut suggester = Suggester::new();
    proof {
        assert(ids@.take(0).to_set() =~= Set::<StopId>::empty());
        assert(suggester.names() =~= name_index(*data, Set::<StopId>::empty()));
        assert(suggester.words() =~= word_index(*data, Set::<StopId>::empty()));
    }
    let mut i: usize = 0;
    while i < ids.len()
        invariant
            i <= ids@.len(),
            data.wf(),
            forall|k: StopId| #[trigger] is_station_id(*data, k) ==> data.stop_map()[k].full_stop_name@.len() > 0,
            ids@.to_set() == data.stop_map().dom(),
            ids@.no_duplicates(),
            suggester.names() == name_index(*data, ids@.take(i as int).to_set()),
            suggester.words() == word_index(*data, ids@.take(i as int).to_set()),
        decreases ids@.len() - i,
    {
        let k = ids[i];
        let ghost done = ids@.take(i as int).to_set();
        let ghost next = ids@.take(i + 1).to_set();
        proof {
            assert(ids@.take(i + 1) =~= ids@.take(i as int).push(k));
            ids@.take(i as int).lemma_push_to_set_commute(k);
            assert(next == done.insert(k));
            assert(ids@.to_set().contains(ids@[i as int]));
            assert(!done.contains(k)) by {
                if done.contains(k) {
                    let j = choose|j: int| 0 <= j < i && ids@.take(i as int)[j] == k;
                    assert(ids@[j] == ids@[i as int]);
                }
            }
        }
        match data.get_stop(&k) {
            Some(stop) => {
                if stop.is_station() {
                    let ghost names0 = suggester.names();
                    let ghost words0 = suggester.words();
                    assert(data.stop_map()[k].stop_id == k);
                    assert(is_station_id(*data, k));
                    suggester.insert(stop.full_stop_name.as_str(), stop.stop_id);
                    proof {
                        let name = data.stop_map()[k].full_stop_name@;
                        assert forall|n: Seq<char>| #[trigger] suggester.names().contains_key(n) <==> name_index(*data, next).contains_key(n) by {
                            if n == name {
                                assert(next.contains(k) && station_named(*data, k, n));
                            }
                            if name_index(*data, next).contains_key(n) {
                                let w = choose|w: StopId| next.contains(w) && #[trigger] station_named(*data, w, n);
                                if w != k {
                                    assert(done.contains(w) && station_named(*data, w, n));
                                }
                            }
                        }
                        assert forall|n: Seq<char>| #[trigger] suggester.names().contains_key(n) implies suggester.names()[n]
                            =~= name_index(*data, next)[n] by {
                            if n != name && names0.contains_key(n) {
                                assert forall|w: StopId| name_index(*data, next)[n].contains(w) <==> names0[n].contains(w) by {}
                            }
                        }
                        assert(suggester.names() =~= name_index(*data, next));
                        lemma_with_word_ids(words0, words_of(name), k);
                        assert forall|w: Seq<char>| #[trigger] suggester.words().contains_key(w) <==> word_index(*data, next).contains_key(w) by {
                            if is_long_word_of(words_of(name), w) {
                                assert(next.contains(k) && is_station_id(*data, k));
                            }
                            if words0.contains_key(w) {
                                let u = choose|u: StopId| #[trigger] done.contains(u) && is_station_id(*data, u) && is_long_word_of(
                                    words_of(data.stop_map()[u].full_stop_name@),
                                    w,
                                );
                                assert(next.contains(u));
                            }
                            if word_index(*data, next).contains_key(w) {
                                let u = choose|u: StopId| #[trigger] next.contains(u) && is_station_id(*data, u) && is_long_word_of(
                                    words_of(data.stop_map()[u].full_stop_name@),
                                    w,
                                );
                                if u != k {
                                    assert(done.contains(u));
                                }
                            }
                        }
                        assert forall|w: Seq<char>| #[trigger] suggester.words().contains_key(w) implies suggester.words()[w]
                            =~= word_index(*data, next)[w] by {}
                        assert(suggester.words() =~= word_index(*data, next));
                    }
                } else {
                    proof {
                        assert(name_index(*data, next) =~= name_index(*data, done)) by {
                            assert forall|n: Seq<char>| #[trigger] name_index(*data, next).contains_key(n) implies name_index(*data, done).contains_key(n) by {
                                let w = choose|w: StopId| next.contains(w) && #[trigger] station_named(*data, w, n);
                                assert(done.contains(w));
                            }
                            assert forall|n: Seq<char>| #[trigger] name_index(*data, next).contains_key(n) implies name_index(*data, next)[n]
                                =~= name_index(*data, done)[n] by {}
                        }
                        assert(word_index(*data, next) =~= word_index(*data, done)) by {
                            assert forall|w: Seq<char>| #[trigger] word_index(*data, next).contains_key(w) implies word_index(*data, done).contains_key(w) by {
                                let u = choose|u: StopId| #[trigger] next.contains(u) && is_station_id(*data, u) && is_long_word_of(
                                    words_of(data.stop_map()[u].full_stop_name@),
                                    w,
                                );
                                assert(done.contains(u));
                            }
                            assert forall|w: Seq<char>| #[trigger] word_index(*data, done).contains_key(w) implies word_index(*data, next).contains_key(w) by {
                                let u = choose|u: StopId| #[trigger] done.contains(u) && is_station_id(*data, u) && is_long_word_of(
                                    words_of(data.stop_map()[u].full_stop_name@),
                                    w,
                                );
                                assert(next.contains(u));
                            }
                            assert forall|w: Seq<char>| #[trigger] word_index(*data, next).contains_key(w) implies word_index(*data, next)[w]
                                =~= word_index(*data, done)[w] by {}
                        }
                    }
                }
            },
            None => {},
        }
        i = i + 1;
    }
    assert(ids@.take(i as int) =~= ids@);
    suggester
}

/// Why the records of a feed cannot be loaded.
#[derive(Debug, Clone, Copy, PartialEq, Eq, Structural)]
pub enum FeedError {
    /// A stop record of an unknown kind, a station with a station or an entrance without one.
    BadStop(StopId),
    /// A station named by a stop record that is not loaded as a station.
    ParentNotStation(StopId),
    /// A transfer from a stop that is not loaded.
    UnknownTransferStop(StopId),
    /// No service runs on the day chosen.
    NoServiceOnDay(Day),
    /// A kept trip of a route with no record.
    UnknownRoute(TripId),
    /// A stop of a kept trip that is not a loaded stop or platform.
    BadTripStop(TripId),
    /// More stop times than can be counted.
    TooManyStopTimes,
}

/// The kinds of the loaded records, by id: those of the last record with each id.
pub open spec fn loaded_kinds(stops: Seq<StopRecord>) -> Map<StopId, u8> {
    Map::new(|id: StopId| last_loaded(stops, id) is Some, |id: StopId| (last_loaded(stops, id)->0).location_type)
}

/// The kinds of the loaded records, by id.
fn kinds_of(stops: &Vec<StopRecord>) -> (m: std::collections::HashMap<StopId, u8>)
    ensures
        m@ == loaded_kinds(stops@),
{
    let mut m: std::collections::HashMap<StopId, u8> = std::collections::HashMap::new();
    let mut i: usize = 0;
    assert(m@ =~= loaded_kinds(stops@.take(0)));
    while i < stops.len()
        invariant
            i <= stops@.len(),
            m@ == loaded_kinds(stops@.take(i as int)),
        decreases stops@.len() - i,
    {
        let r = &stops[i];
        proof {
            lemma_stops_step(stops@, i as int);
        }
        if r.location_type != 3 {
            m.insert(r.stop_id, r.location_type);
        }
        assert(m@ =~= loaded_kinds(stops@.take(i + 1)));
        i = i + 1;
    }
    assert(stops@.take(i as int) =~= stops@);
    m
}

/// The stop records are valid and name loaded stations as their stations.
fn check_stops(stops: &Vec<StopRecord>, kinds: &std::collections::HashMap<StopId, u8>) -> (r: Result<(), FeedError>)
    requires
        kinds@ == loaded_kinds(stops@),
    ensures
        r is Ok <==> (forall|i: int| 0 <= i < stops@.len() ==> stop_record_valid(#[trigger] stops@[i])) && parents_are_stations(
            stops@,
        ),
{
    let mut i: usize = 0;
    while i < stops.len()
        invariant
            i <= stops@.len(),
            kinds@ == loaded_kinds(stops@),
            forall|j: int| 0 <= j < i ==> stop_record_valid(#[trigger] stops@[j]),
            forall|j: int|
                0 <= j < i && is_loaded(#[trigger] stops@[j]) && stops@[j].parent_station is Some ==> (last_loaded(
                    stops@,
                    stops@[j].parent_station->0,
                ) matches Some(p) && p.location_type == 1),
        decreases stops@.len() - i,
    {
        let r = &stops[i];
        let valid = r.location_type == 3 || r.location_type == 0 || (r.location_type == 1 && r.parent_station.is_none())
            || (r.location_type == 2 && r.parent_station.is_some());
        if !valid {
            return Err(FeedError::BadStop(r.stop_id));
        }
        if r.location_type != 3 {
            if let Some(p) = r.parent_station {
                proof {
                    assert(is_loaded(stops@[i as int]) && stops@[i as int].parent_station == Some(p));
                    assert(parent_ids(stops@).contains(p));
                }
                match kinds.get(&p) {
                    Some(kind) => {
                        if *kind != 1 {
                            return Err(FeedError::ParentNotStation(p));
                        }
                    },
                    None => {
                        return Err(FeedError::ParentNotStation(p));
                    },
                }
            }
        }
        i = i + 1;
    }
    proof {
        assert forall|p: StopId| #[trigger] parent_ids(stops@).contains(p) implies (last_loaded(stops@, p) matches Some(r)
            && r.location_type == 1) by {
            let j = choose|j: int| 0 <= j < stops@.len() && is_loaded(stops@[j]) && #[trigger] stops@[j].parent_station == Some(p);
            assert(is_loaded(stops@[j]) && stops@[j].parent_station is Some);
        }
    }
    Ok(())
}

/// The transfers leave from loaded stops.
fn check_transfers(transfers: &Vec<TransferRecord>, kinds: &std::collections::HashMap<StopId, u8>, ghost_stops: Ghost<Seq<StopRecord>>) -> (r: Result<(), FeedError>)
    requires
        kinds@ == loaded_kinds(ghost_stops@),
    ensures
        r is Ok <==> forall|j: int| 0 <= j < transfers@.len() ==> loaded_ids(ghost_stops@).contains(#[trigger] transfers@[j].from_stop_id),
{
    let mut i: usize = 0;
    while i < transfers.len()
        invariant
            i <= transfers@.len(),
            kinds@ == loaded_kinds(ghost_stops@),
            forall|j: int| 0 <= j < i ==> loaded_ids(ghost_stops@).contains(#[trigger] transfers@[j].from_stop_id),
        decreases transfers@.len() - i,
    {
        if !kinds.contains_key(&transfers[i].from_stop_id) {
            assert(!loaded_ids(ghost_stops@).contains(transfers@[i as int].from_stop_id));
            return Err(FeedError::UnknownTransferStop(transfers[i].from_stop_id));
        }
        i = i + 1;
    }
    Ok(())
}

/// The ids of the routes.
fn route_id_set(routes: &Vec<RouteRecord>) -> (s: HashSet<RouteId>)
    ensures
        s@ == route_ids(routes@),
{
    let mut s: HashSet<RouteId> = HashSet::new();
    let mut i: usize = 0;
    assert(s@ =~= route_ids(routes@.take(0)));
    while i < routes.len()
        invariant
            i <= routes@.len(),
            s@ == route_ids(routes@.take(i as int)),
        decreases routes@.len() - i,
    {
        s.insert(routes[i].route_id);
        proof {
            let t = routes@.take(i + 1);
            assert(t.drop_last() =~= routes@.take(i as int));
            assert(t.last() == routes@[i as int]);
            assert(s@ =~= route_ids(t));
        }
        i = i + 1;
    }
    assert(routes@.take(i as int) =~= routes@);
    s
}

/// The kept trips have known routes; returns their ids.
fn check_trips(trips: &Vec<TripRecord>, route_set: &HashSet<RouteId>, services: &Option<HashSet<ServiceId>>) -> (r: Result<
    HashSet<TripId>,
    FeedError,
>)
    ensures
        r is Ok <==> forall|j: int|
            0 <= j < trips@.len() && trip_kept(#[trigger] trips@[j], services_view_of(*services)) ==> route_set@.contains(
                trips@[j].route_id,
            ),
        r matches Ok(ids) ==> ids@ == kept_trip_ids(trips@, services_view_of(*services)),
{
    let ghost kept = services_view_of(*services);
    let mut seen: HashSet<TripId> = HashSet::new();
    let mut i: usize = 0;
    assert(seen@ =~= kept_trip_ids(trips@.take(0), kept));
    while i < trips.len()
        invariant
            i <= trips@.len(),
            kept == services_view_of(*services),
            seen@ == kept_trip_ids(trips@.take(i as int), kept),
            forall|j: int| 0 <= j < i && trip_kept(#[trigger] trips@[j], kept) ==> route_set@.contains(trips@[j].route_id),
        decreases trips@.len() - i,
    {
        let r = trips[i];
        let t = Ghost(trips@.take(i + 1));
        let t0 = Ghost(trips@.take(i as int));
        proof {
            assert(t@.drop_last() =~= t0@);
            assert(t@.last() == r);
        }
        let keep = match services {
            Some(set) => set.contains(&r.service_id),
            None => true,
        };
        if keep {
            if !route_set.contains(&r.route_id) {
                return Err(FeedError::UnknownRoute(r.trip_id));
            }
            seen.insert(r.trip_id);
            proof {
                assert(seen@ =~= kept_trip_ids(t@, kept));
            }
        } else {
            proof {
                assert(seen@ =~= kept_trip_ids(t@, kept));
            }
        }
        i = i + 1;
    }
    assert(trips@.take(i as int) =~= trips@);
    Ok(seen)
}

/// A kept record's trip is found.
proof fn lemma_kept_trip_present(trips: Seq<TripRecord>, services: Option<Set<ServiceId>>, j: int)
    requires
        0 <= j < trips.len(),
        trip_kept(trips[j], services),
    ensures
        kept_trip(trips, services, trips[j].trip_id) is Some,
    decreases trips.len(),
{
    if j < trips.len() - 1 {
        if !(trip_kept(trips.last(), services) && trips.last().trip_id == trips[j].trip_id) {
            assert(trips.drop_last()[j] == trips[j]);
            lemma_kept_trip_present(trips.drop_last(), services, j);
        }
    }
}

/// The stops of kept trips are loaded stops or platforms, and not too many.
fn check_stop_times(stop_times: &Vec<StopTimeRecord>, kept: &HashSet<TripId>, kinds: &std::collections::HashMap<StopId, u8>, ghost_stops: Ghost<Seq<StopRecord>>) -> (r: Result<(), FeedError>)
    requires
        kinds@ == loaded_kinds(ghost_stops@),
    ensures
        r is Ok <==> (forall|j: int|
            0 <= j < stop_times@.len() && kept@.contains(#[trigger] stop_times@[j].trip_id) ==> (last_loaded(
                ghost_stops@,
                stop_times@[j].stop_id,
            ) matches Some(rec) && rec.location_type == 0)) && stop_times@.len() < u64::MAX,
{
    if stop_times.len() as u64 == u64::MAX {
        return Err(FeedError::TooManyStopTimes);
    }
    let mut i: usize = 0;
    while i < stop_times.len()
        invariant
            i <= stop_times@.len() < u64::MAX,
            kinds@ == loaded_kinds(ghost_stops@),
            forall|j: int|
                0 <= j < i && kept@.contains(#[trigger] stop_times@[j].trip_id) ==> (last_loaded(ghost_stops@, stop_times@[j].stop_id) matches Some(
                    rec,
                ) && rec.location_type == 0),
        decreases stop_times@.len() - i,
    {
        let st = stop_times[i];
        if kept.contains(&st.trip_id) {
            let ok = match kinds.get(&st.stop_id) {
                Some(kind) => *kind == 0,
                None => false,
            };
            if !ok {
                return Err(FeedError::BadTripStop(st.trip_id));
            }
        }
        i = i + 1;
    }
    Ok(())
}

/// Whether the records can be loaded, and if not, why: the first problem found, looking at
/// the stops, transfers, the day, the trips and the stops of trips in turn.
pub fn check_feed(feed: &Feed, day_filter: DayFilter) -> (r: Result<(), FeedError>)
    ensures
        r is Ok <==> feed_loadable(*feed, day_filter),
{
    let kinds = kinds_of(&feed.stops);
    check_stops(&feed.stops, &kinds)?;
    check_transfers(&feed.transfers, &kinds, Ghost(feed.stops@))?;
    let services = match day_filter {
        DayFilter::All => None,
        DayFilter::Single(day) => {
            let list = services_of(&feed.calendars, day);
            if list.len() == 0 {
                proof {
                    assert(list@.to_set() =~= Set::<ServiceId>::empty());
                }
                return Err(FeedError::NoServiceOnDay(day));
            }
            proof {
                assert(list@.to_set().contains(list@[0]));
            }
            let mut set: HashSet<ServiceId> = HashSet::new();
            let mut j: usize = 0;
            while j < list.len()
                invariant
                    j <= list@.len(),
                    set@ == list@.take(j as int).to_set(),
                decreases list@.len() - j,
            {
                set.insert(list[j]);
                proof {
                    assert(list@.take(j + 1) =~= list@.take(j as int).push(list@[j as int]));
                    list@.take(j as int).lemma_push_to_set_commute(list@[j as int]);
                }
                j = j + 1;
            }
            assert(list@.take(j as int) =~= list@);
            Some(set)
        },
    };
    assert(services_view_of(services) == kept_services(feed.calendars@, day_filter));
    let route_set = route_id_set(&feed.routes);
    let kept = check_trips(&feed.trips, &route_set, &services)?;
    check_stop_times(&feed.stop_times, &kept, &kinds, Ghost(feed.stops@))?;
    Ok(())
}

} // verus!
