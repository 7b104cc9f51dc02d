//! The selections that the backend makes from the records of a GTFS feed: routes by id, an
//! underground route by name, the services that run on Sundays and the stops of a station.
//! The records come in as read from the feed's files.
use std::collections::HashSet;
use vstd::prelude::*;
use vstd::string::*;

use crate::search_data::{ServiceId, TripId};
use crate::time::Duration;

verus! {

broadcast use vstd::std_specs::hash::group_hash_axioms;

/// A record with a trip id.
#[derive(Debug, Clone, Copy)]
pub struct WithTripId {
    pub trip_id: TripId,
}

/// A record of `calendar.txt`, with the days the backend reads.
#[derive(Debug)]
pub struct Calendar {
    pub service_id: ServiceId,
    pub monday: u8,
    pub sunday: u8,
    pub start_date: String,
    pub end_date: String,
}

/// A record of `routes.txt`.
#[derive(Debug)]
pub struct Route {
    pub route_id: String,
    pub agency_id: u16,
    pub route_short_name: String,
    pub route_long_name: Option<String>,
    pub route_type: u16,
    pub route_color: Option<String>,
    pub route_text_color: Option<String>,
    pub route_desc: Option<String>,
}

impl Clone for Route {
    fn clone(&self) -> (r: Self)
        ensures
            r == *self,
    {
        Route {
            route_id: self.route_id.clone(),
            agency_id: self.agency_id,
            route_short_name: self.route_short_name.clone(),
            route_long_name: clone_text(&self.route_long_name),
            route_type: self.route_type,
            route_color: clone_text(&self.route_color),
            route_text_color: clone_text(&self.route_text_color),
            route_desc: clone_text(&self.route_desc),
        }
    }
}

/// A copy of an optional text.
fn clone_text(t: &Option<String>) -> (r: Option<String>)
    ensures
        r == *t,
{
    match t {
        Some(s) => Some(s.clone()),
        None => None,
    }
}

/// A record of `trips.txt`.
#[derive(Debug)]
pub struct Trip {
    pub route_id: String,
    pub service_id: ServiceId,
    pub trip_id: TripId,
    pub trip_headsign: String,
    pub trip_short_name: Option<String>,
    pub direction_id: u8,
    pub block_id: Option<String>,
    pub shape_id: u16,
    pub wheelchair_accessible: Option<u8>,
    pub bikes_allowed: Option<u8>,
}

impl Clone for Trip {
    fn clone(&self) -> (r: Self)
        ensures
            r == *self,
    {
        Trip {
            route_id: self.route_id.clone(),
            service_id: self.service_id,
            trip_id: self.trip_id,
            trip_headsign: self.trip_headsign.clone(),
            trip_short_name: clone_text(&self.trip_short_name),
            direction_id: self.direction_id,
            block_id: clone_text(&self.block_id),
            shape_id: self.shape_id,
            wheelchair_accessible: self.wheelchair_accessible,
            bikes_allowed: self.bikes_allowed,
        }
    }
}

/// The fields of a record of `stops.txt` that say which station a stop belongs to.
#[derive(Debug)]
pub struct StopRecord {
    pub stop_id: String,
    pub parent_station: Option<String>,
}

impl Clone for StopRecord {
    fn clone(&self) -> (r: Self)
        ensures
            r == *self,
    {
        StopRecord { stop_id: self.stop_id.clone(), parent_station: clone_text(&self.parent_station) }
    }
}

/// Why a selection found nothing.
#[derive(Debug, PartialEq, Eq, Structural, Clone, Copy)]
pub enum SourceError {
    NotFound,
}

/// The route type of underground lines.
pub const UBAHN_ROUTE_TYPE: u16 = 400;

/// The last route with each id, as `routes.txt` lists them.
pub open spec fn latest_by_id(records: Seq<Route>) -> Map<Seq<char>, Route>
    decreases records.len(),
{
    if records.len() == 0 {
        Map::empty()
    } else {
        latest_by_id(records.drop_last()).insert(records.last().route_id@, records.last())
    }
}

/// The first route with the short name that is an underground line, if any.
pub open spec fn first_ubahn_route(records: Seq<Route>, short_name: Seq<char>) -> Option<int>
    decreases records.len(),
{
    if records.len() == 0 {
        None
    } else if records[0].route_short_name@ == short_name && records[0].route_type == UBAHN_ROUTE_TYPE {
        Some(0)
    } else {
        match first_ubahn_route(records.drop_first(), short_name) {
            Some(i) => Some(i + 1),
            None => None,
        }
    }
}

/// The services of the calendars that run on Sundays.
pub open spec fn sunday_services(calendars: Seq<Calendar>) -> Set<ServiceId> {
    Set::new(|s: ServiceId| exists|i: int| 0 <= i < calendars.len() && #[trigger] calendars[i].service_id == s && calendars[i].sunday == 1)
}

/// The stop belongs to the station `station_id`.
pub open spec fn is_child_of(s: StopRecord, station_id: Seq<char>) -> bool {
    match s.parent_station {
        Some(p) => p@ == station_id,
        None => false,
    }
}

/// The ids of the stops whose parent station is `station_id`.
pub open spec fn children_of(stops: Seq<StopRecord>, station_id: Seq<char>) -> Set<Seq<char>> {
    Set::new(
        |id: Seq<char>|
            exists|i: int|
                0 <= i < stops.len() && #[trigger] stops[i].stop_id@ == id && is_child_of(stops[i], station_id),
    )
}

/// Where a route with the id is in `routes`, if it is there.
fn find_route(routes: &Vec<Route>, id: &String) -> (r: Option<usize>)
    ensures
        match r {
            Some(j) => j < routes@.len() && routes@[j as int].route_id@ == id@,
            None => forall|i: int| 0 <= i < routes@.len() ==> routes@[i].route_id@ != id@,
        },
{
    let mut j: usize = 0;
    while j < routes.len()
        invariant
            j <= routes@.len(),
            forall|i: int| 0 <= i < j ==> routes@[i].route_id@ != id@,
        decreases routes@.len() - j,
    {
        if routes[j].route_id == *id {
            return Some(j);
        }
        j = j + 1;
    }
    None
}

/// Whether `texts` holds `t`.
fn contains_text(texts: &Vec<String>, t: &String) -> (b: bool)
    ensures
        b == exists|i: int| 0 <= i < texts@.len() && #[trigger] texts@[i]@ == t@,
{
    let mut j: usize = 0;
    while j < texts.len()
        invariant
            j <= texts@.len(),
            forall|i: int| 0 <= i < j ==> texts@[i]@ != t@,
        decreases texts@.len() - j,
    {
        if texts[j] == *t {
            return true;
        }
        j = j + 1;
    }
    false
}

/// A GTFS feed in a directory.
#[derive(Debug)]
pub struct GTFSSource {
    pub dir_path: String,
}

impl GTFSSource {
    /// The feed in the directory.
    pub fn new(dir_path: &str) -> (s: GTFSSource)
        ensures
            s.dir_path@ == dir_path@,
    {
        GTFSSource { dir_path: dir_path.to_owned() }
    }

    /// The routes of `routes.txt` by id: for each id, the last route listed with it, once.
    pub fn routes_by_id(&self, records: Vec<Route>) -> (routes: Vec<Route>)
        ensures
            forall|i: int, j: int| 0 <= i < j < routes@.len() ==> routes@[i].route_id@ != routes@[j].route_id@,
            Map::new(
                |id: Seq<char>| exists|i: int| 0 <= i < routes@.len() && #[trigger] routes@[i].route_id@ == id,
                |id: Seq<char>| routes@[choose|i: int| 0 <= i < routes@.len() && #[trigger] routes@[i].route_id@ == id],
            ) == latest_by_id(records@),
    {
        let mut routes: Vec<Route> = Vec::new();
        let mut k: usize = 0;
        while k < records.len()
            invariant
                k <= records@.len(),
                forall|i: int, j: int| 0 <= i < j < routes@.len() ==> routes@[i].route_id@ != routes@[j].route_id@,
                forall|id: Seq<char>| (exists|i: int| 0 <= i < routes@.len() && #[trigger] routes@[i].route_id@ == id)
                    <==> latest_by_id(records@.take(k as int)).contains_key(id),
                forall|i: int| 0 <= i < routes@.len() ==> latest_by_id(records@.take(k as int))[(#[trigger] routes@[i]).route_id@]
                    == routes@[i],
            decreases records@.len() - k,
        {
            let record = records[k].clone();
            let ghost prev = routes@;
            assert(records@.take(k + 1).drop_last() =~= records@.take(k as int));
            let position = find_route(&routes, &record.route_id);
            let found = position.is_some();
            let j: usize = match position {
                Some(j) => j,
                None => routes.len(),
            };
            if found {
                routes.set(j, record);
            } else {
                routes.push(record);
            }
            proof {
                let m = latest_by_id(records@.take(k + 1));
                assert(m == latest_by_id(records@.take(k as int)).insert(record.route_id@, record));
                assert forall|a: int, b: int| 0 <= a < b < routes@.len() implies routes@[a].route_id@ != routes@[b].route_id@ by {
                    if found {
                        if a == j {
                            assert(prev[b].route_id@ != prev[j as int].route_id@);
                        } else if b == j {
                            assert(prev[a].route_id@ != prev[j as int].route_id@);
                        }
                    } else if b == prev.len() {
                        assert(routes@[a] == prev[a]);
                    }
                }
                assert forall|id: Seq<char>| (exists|i: int| 0 <= i < routes@.len() && #[trigger] routes@[i].route_id@ == id)
                    <==> m.contains_key(id) by {
                    if id == record.route_id@ {
                        if found {
                            assert(routes@[j as int].route_id@ == id);
                        } else {
                            assert(routes@[prev.len() as int].route_id@ == id);
                        }
                    } else {
                        if exists|i: int| 0 <= i < routes@.len() && #[trigger] routes@[i].route_id@ == id {
                            let i = choose|i: int| 0 <= i < routes@.len() && #[trigger] routes@[i].route_id@ == id;
                            assert(prev[i].route_id@ == id);
                        }
                        if latest_by_id(records@.take(k as int)).contains_key(id) {
                            let i = choose|i: int| 0 <= i < prev.len() && #[trigger] prev[i].route_id@ == id;
                            assert(routes@[i].route_id@ == id);
                        }
                    }
                }
                assert forall|i: int| 0 <= i < routes@.len() implies m[(#[trigger] routes@[i]).route_id@] == routes@[i] by {
                    if found && i == j {
                    } else if !found && i == prev.len() {
                    } else {
                        assert(routes@[i] == prev[i]);
                    }
                }
            }
            k = k + 1;
        }
        proof {
            assert(records@.take(k as int) =~= records@);
            let m = Map::new(
                |id: Seq<char>| exists|i: int| 0 <= i < routes@.len() && #[trigger] routes@[i].route_id@ == id,
                |id: Seq<char>| routes@[choose|i: int| 0 <= i < routes@.len() && #[trigger] routes@[i].route_id@ == id],
            );
            assert(m =~= latest_by_id(records@));
        }
        routes
    }

    /// The first route of `routes.txt` with the short name that is an underground line.
    pub fn get_ubahn_route(&self, records: &Vec<Route>, short_name: &str) -> (r: Result<Route, SourceError>)
        ensures
            match first_ubahn_route(records@, short_name@) {
                Some(i) => r == Ok::<Route, SourceError>(records@[i]),
                None => r == Err::<Route, SourceError>(SourceError::NotFound),
            },
    {
        let target = short_name.to_owned();
        let mut k: usize = 0;
        assert(records@.skip(0) =~= records@);
        while k < records.len()
            invariant
                k <= records@.len(),
                target@ == short_name@,
                first_ubahn_route(records@, short_name@) == match first_ubahn_route(records@.skip(k as int), short_name@) {
                    Some(i) => Some(i + k),
                    None => None,
                },
            decreases records@.len() - k,
        {
            assert(records@.skip(k as int)[0] == records@[k as int]);
            if records[k].route_short_name == target && records[k].route_type == UBAHN_ROUTE_TYPE {
                return Ok(records[k].clone());
            }
            assert(records@.skip(k as int).drop_first() =~= records@.skip(k + 1));
            k = k + 1;
        }
        Err(SourceError::NotFound)
    }

    /// The services of `calendar.txt` that run on Sundays.
    pub fn get_sunday_services(&self, calendars: &Vec<Calendar>) -> (services: HashSet<ServiceId>)
        ensures
            services@ == sunday_services(calendars@),
    {
        let mut services: HashSet<ServiceId> = HashSet::new();
        let mut k: usize = 0;
        while k < calendars.len()
            invariant
                k <= calendars@.len(),
                services@ == sunday_services(calendars@.take(k as int)),
            decreases calendars@.len() - k,
        {
            if calendars[k].sunday == 1 {
                services.insert(calendars[k].service_id);
            }
            k = k + 1;
            proof {
                let t = calendars@.take(k as int);
                assert forall|s: ServiceId| services@.contains(s) <==> sunday_services(t).contains(s) by {
                    if sunday_services(calendars@.take(k - 1)).contains(s) {
                        let i = choose|i: int| 0 <= i < k - 1 && #[trigger] calendars@.take(k - 1)[i].service_id == s
                            && calendars@.take(k - 1)[i].sunday == 1;
                        assert(t[i].service_id == s);
                    }
                    if sunday_services(t).contains(s) {
                        let i = choose|i: int| 0 <= i < k && #[trigger] t[i].service_id == s && t[i].sunday == 1;
                        if i < k - 1 {
                            assert(calendars@.take(k - 1)[i].service_id == s);
                        }
                    }
                    if calendars@[k - 1].sunday == 1 && s == calendars@[k - 1].service_id {
                        assert(t[k - 1].service_id == s);
                    }
                }
                assert(services@ =~= sunday_services(t));
            }
        }
        assert(calendars@.take(k as int) =~= calendars@);
        services
    }

    /// The ids of the stops of `stops.txt` that belong to the station, each once.
    pub fn stops_of_station(&self, stops: &Vec<StopRecord>, station_id: &str) -> (ids: Vec<String>)
        ensures
            forall|i: int, j: int| 0 <= i < j < ids@.len() ==> ids@[i]@ != ids@[j]@,
            Set::new(|id: Seq<char>| exists|i: int| 0 <= i < ids@.len() && #[trigger] ids@[i]@ == id) == children_of(
                stops@,
                station_id@,
            ),
    {
        let target = station_id.to_owned();
        let mut ids: Vec<String> = Vec::new();
        let mut k: usize = 0;
        while k < stops.len()
            invariant
                k <= stops@.len(),
                target@ == station_id@,
                forall|i: int, j: int| 0 <= i < j < ids@.len() ==> ids@[i]@ != ids@[j]@,
                forall|id: Seq<char>| (exists|i: int| 0 <= i < ids@.len() && #[trigger] ids@[i]@ == id) <==> children_of(
                    stops@.take(k as int),
                    station_id@,
                ).contains(id),
            decreases stops@.len() - k,
        {
            let ghost prev = ids@;
            proof {
                assert forall|id: Seq<char>| (exists|i: int| 0 <= i < prev.len() && #[trigger] prev[i]@ == id) <==> children_of(
                    stops@.take(k as int),
                    station_id@,
                ).contains(id) by {
                    if exists|i: int| 0 <= i < prev.len() && #[trigger] prev[i]@ == id {
                        let i = choose|i: int| 0 <= i < prev.len() && #[trigger] prev[i]@ == id;
                        assert(ids@[i]@ == id);
                    }
                }
            }
            let is_child = match &stops[k].parent_station {
                Some(p) => *p == target,
                None => false,
            };
            if is_child {
                let id = stops[k].stop_id.clone();
                if !contains_text(&ids, &id) {
                    ids.push(id);
                }
            }
            proof {
                let t = stops@.take(k + 1);
                let t0 = stops@.take(k as int);
                assert forall|a: int, b: int| 0 <= a < b < ids@.len() implies ids@[a]@ != ids@[b]@ by {
                    if b >= prev.len() {
                        assert(ids@[a] == prev[a]);
                    }
                }
                assert forall|id: Seq<char>| (exists|i: int| 0 <= i < ids@.len() && #[trigger] ids@[i]@ == id)
                    <==> children_of(t, station_id@).contains(id) by {
                    if exists|i: int| 0 <= i < ids@.len() && #[trigger] ids@[i]@ == id {
                        let i = choose|i: int| 0 <= i < ids@.len() && #[trigger] ids@[i]@ == id;
                        if i < prev.len() {
                            assert(prev[i]@ == id);
                            assert(children_of(t0, station_id@).contains(id));
                            let w = choose|w: int| 0 <= w < t0.len() && #[trigger] t0[w].stop_id@ == id && is_child_of(t0[w], station_id@);
                            assert(t[w] == t0[w]);
                        } else {
                            assert(t[k as int] == stops@[k as int]);
                        }
                    }
                    if children_of(t, station_id@).contains(id) {
                        let w = choose|w: int| 0 <= w < t.len() && #[trigger] t[w].stop_id@ == id && is_child_of(t[w], station_id@);
                        if w < k {
                            assert(t0[w] == t[w]);
                            assert(children_of(t0, station_id@).contains(id));
                            let i = choose|i: int| 0 <= i < prev.len() && #[trigger] prev[i]@ == id;
                            assert(ids@[i] == prev[i]);
                        } else {
                            assert(t[w] == stops@[k as int]);
                            if exists|i: int| 0 <= i < prev.len() && #[trigger] prev[i]@ == id {
                                let i = choose|i: int| 0 <= i < prev.len() && #[trigger] prev[i]@ == id;
                                assert(ids@[i] == prev[i]);
                            } else {
                                assert(ids@[prev.len() as int]@ == id);
                            }
                        }
                    }
                }
            }
            k = k + 1;
        }
        assert(stops@.take(k as int) =~= stops@);
        ids
    }
}


/// A stop of a combined route as numbers: the stop, the sum of the times to reach it and how
/// many trips that sum is over.
pub open spec fn combined_view(c: Seq<(u64, Duration, u16)>) -> Seq<(u64, int, int)> {
    c.map_values(|e: (u64, Duration, u16)| (e.0, e.1@, e.2 as int))
}

/// A stop of a trip as numbers: the stop and the time to reach it, if known.
pub open spec fn trip_view(t: Seq<(u64, Option<Duration>)>) -> Seq<(u64, Option<int>)> {
    t.map_values(
        |e: (u64, Option<Duration>)|
            (
                e.0,
                match e.1 {
                    Some(d) => Some(d@),
                    None => None,
                },
            ),
    )
}

/// A stop of a trip as the first entry of a combined route: its time counts once if known.
pub open spec fn fresh_entry(e: (u64, Option<int>)) -> (u64, int, int) {
    match e.1 {
        Some(d) => (e.0, d, 1),
        None => (e.0, 0, 0),
    }
}

/// The stops of a trip as entries of a combined route.
pub open spec fn fresh_entries(t: Seq<(u64, Option<int>)>) -> Seq<(u64, int, int)> {
    t.map_values(|e: (u64, Option<int>)| fresh_entry(e))
}

/// An entry of a combined route with one more trip's time to the stop added, if known.
pub open spec fn bumped(c: (u64, int, int), e: (u64, Option<int>)) -> (u64, int, int) {
    match e.1 {
        Some(d) => (c.0, c.1 + d, c.2 + 1),
        None => c,
    }
}

/// The first position of `id` in `ids`, if it is there.
pub open spec fn first_index_of(ids: Seq<u64>, id: u64) -> Option<int> {
    if exists|i: int| 0 <= i < ids.len() && ids[i] == id {
        Some(choose|i: int| 0 <= i < ids.len() && ids[i] == id && forall|j: int| 0 <= j < i ==> ids[j] != id)
    } else {
        None
    }
}

/// The stops of a combined route.
pub open spec fn combined_ids(c: Seq<(u64, int, int)>) -> Seq<u64> {
    c.map_values(|e: (u64, int, int)| e.0)
}

/// The stops of a trip.
pub open spec fn trip_ids(t: Seq<(u64, Option<int>)>) -> Seq<u64> {
    t.map_values(|e: (u64, Option<int>)| e.0)
}

/// The `n` entries of `c` from `oc` on, each with the time of the entry of `t` from `ot` on
/// added.
pub open spec fn overlay(c: Seq<(u64, int, int)>, t: Seq<(u64, Option<int>)>, oc: int, ot: int, n: int) -> Seq<
    (u64, int, int),
> {
    Seq::new(n as nat, |k: int| bumped(c[oc + k], t[ot + k]))
}

/// The `n` stops of `c` from `oc` on are those of `t` from `ot` on.
pub open spec fn ids_agree(c: Seq<(u64, int, int)>, t: Seq<(u64, Option<int>)>, oc: int, ot: int, n: int) -> bool {
    forall|k: int| 0 <= k < n ==> #[trigger] c[oc + k].0 == t[ot + k].0
}

pub open spec fn min_int(a: int, b: int) -> int {
    if a < b {
        a
    } else {
        b
    }
}

/// A trip merged into a combined route: a trip that starts on the route adds its times to
/// the stops it shares with the route and extends it at the end; a trip on which the route
/// starts also extends it at the front. `None` when the trip and the route do not overlap
/// so, or their shared stops differ.
pub open spec fn merged(c: Seq<(u64, int, int)>, t: Seq<(u64, Option<int>)>) -> Option<Seq<(u64, int, int)>> {
    if c.len() == 0 {
        Some(fresh_entries(t))
    } else if t.len() > 0 && first_index_of(combined_ids(c), t[0].0) is Some {
        let o = first_index_of(combined_ids(c), t[0].0)->0;
        let n = min_int(c.len() - o, t.len() as int);
        if ids_agree(c, t, o, 0, n) {
            Some(c.take(o) + overlay(c, t, o, 0, n) + c.skip(o + n) + fresh_entries(t.skip(n)))
        } else {
            None
        }
    } else {
        match first_index_of(trip_ids(t), c[0].0) {
            Some(o) => {
                let n = min_int(c.len() as int, t.len() - o);
                if ids_agree(c, t, 0, o, n) {
                    Some(fresh_entries(t.take(o)) + overlay(c, t, 0, o, n) + c.skip(n) + fresh_entries(t.skip(o + n)))
                } else {
                    None
                }
            },
            None => None,
        }
    }
}

/// The sums of times fit in an `i32` and the counts in a `u16`.
pub open spec fn entries_fit(s: Seq<(u64, int, int)>) -> bool {
    forall|i: int| 0 <= i < s.len() ==> i32::MIN <= #[trigger] s[i].1 <= i32::MAX && 0 <= s[i].2 <= u16::MAX
}

/// Where the stop first comes in the combined route.
fn position_in_combined(c: &Vec<(u64, Duration, u16)>, id: u64) -> (r: Option<usize>)
    ensures
        match r {
            Some(i) => i < c@.len() && first_index_of(combined_ids(combined_view(c@)), id) == Some(i as int),
            None => first_index_of(combined_ids(combined_view(c@)), id) is None,
        },
{
    let ghost ids = combined_ids(combined_view(c@));
    let mut i: usize = 0;
    while i < c.len()
        invariant
            i <= c@.len(),
            ids.len() == c@.len(),
            ids == combined_ids(combined_view(c@)),
            forall|j: int| 0 <= j < i ==> ids[j] != id,
        decreases c@.len() - i,
    {
        assert(ids[i as int] == c@[i as int].0);
        if c[i].0 == id {
            proof {
                assert(exists|k: int| 0 <= k < ids.len() && ids[k] == id);
                let k = choose|k: int| 0 <= k < ids.len() && ids[k] == id && forall|j: int| 0 <= j < k ==> ids[j] != id;
                assert(ids[i as int] == id);
                assert(k == i);
            }
            return Some(i);
        }
        i = i + 1;
    }
    None
}

/// Where the stop first comes in the trip.
fn position_in_trip(t: &Vec<(u64, Option<Duration>)>, id: u64) -> (r: Option<usize>)
    ensures
        match r {
            Some(i) => i < t@.len() && first_index_of(trip_ids(trip_view(t@)), id) == Some(i as int),
            None => first_index_of(trip_ids(trip_view(t@)), id) is None,
        },
{
    let ghost ids = trip_ids(trip_view(t@));
    let mut i: usize = 0;
    while i < t.len()
        invariant
            i <= t@.len(),
            ids.len() == t@.len(),
            ids == trip_ids(trip_view(t@)),
            forall|j: int| 0 <= j < i ==> ids[j] != id,
        decreases t@.len() - i,
    {
        assert(ids[i as int] == t@[i as int].0);
        if t[i].0 == id {
            proof {
                assert(exists|k: int| 0 <= k < ids.len() && ids[k] == id);
                let k = choose|k: int| 0 <= k < ids.len() && ids[k] == id && forall|j: int| 0 <= j < k ==> ids[j] != id;
                assert(ids[i as int] == id);
                assert(k == i);
            }
            return Some(i);
        }
        i = i + 1;
    }
    None
}

/// The stop of a trip as the first entry of a combined route.
fn fresh(e: (u64, Option<Duration>)) -> (r: (u64, Duration, u16))
    ensures
        combined_view(seq![r]) == seq![fresh_entry(trip_view(seq![e])[0])],
{
    let r = match e.1 {
        Some(d) => (e.0, d, 1u16),
        None => (e.0, Duration::seconds(0), 0u16),
    };
    assert(combined_view(seq![r]) =~= seq![fresh_entry(trip_view(seq![e])[0])]);
    r
}

/// Appends the stops `from..to` of the trip as fresh entries.
fn extend_fresh(out: &mut Vec<(u64, Duration, u16)>, t: &Vec<(u64, Option<Duration>)>, from: usize, to: usize)
    requires
        from <= to <= t@.len(),
    ensures
        combined_view(final(out)@) == combined_view(old(out)@) + fresh_entries(trip_view(t@).subrange(from as int, to as int)),
{
    let ghost start = old(out)@;
    let mut k: usize = from;
    while k < to
        invariant
            from <= k <= to <= t@.len(),
            combined_view(out@) == combined_view(start) + fresh_entries(trip_view(t@).subrange(from as int, k as int)),
        decreases to - k,
    {
        let ghost before = out@;
        let e = fresh(t[k]);
        out.push(e);
        proof {
            assert(combined_view(out@) =~= combined_view(before) + combined_view(seq![e]));
            assert(trip_view(t@).subrange(from as int, k + 1) =~= trip_view(t@).subrange(from as int, k as int).push(
                trip_view(seq![t@[k as int]])[0],
            ));
            assert(fresh_entries(trip_view(t@).subrange(from as int, k + 1)) =~= fresh_entries(
                trip_view(t@).subrange(from as int, k as int),
            ) + seq![fresh_entry(trip_view(seq![t@[k as int]])[0])]);
        }
        k = k + 1;
    }
}

/// Appends the entries `from..to` of the combined route.
fn extend_copied(out: &mut Vec<(u64, Duration, u16)>, c: &Vec<(u64, Duration, u16)>, from: usize, to: usize)
    requires
        from <= to <= c@.len(),
    ensures
        combined_view(final(out)@) == combined_view(old(out)@) + combined_view(c@).subrange(from as int, to as int),
{
    let ghost start = old(out)@;
    let ghost cv = combined_view(c@);
    let mut k: usize = from;
    while k < to
        invariant
            from <= k <= to <= c@.len(),
            cv == combined_view(c@),
            combined_view(out@) == combined_view(start) + cv.subrange(from as int, k as int),
        decreases to - k,
    {
        let ghost before = out@;
        out.push(c[k]);
        proof {
            assert(combined_view(out@) =~= combined_view(before).push(cv[k as int]));
            assert(cv.subrange(from as int, k + 1) =~= cv.subrange(from as int, k as int).push(cv[k as int]));
        }
        k = k + 1;
    }
}

/// Appends `n` entries of the combined route from `oc` on, each with the time of the stop of
/// the trip from `ot` on added.
fn extend_bumped(
    out: &mut Vec<(u64, Duration, u16)>,
    c: &Vec<(u64, Duration, u16)>,
    t: &Vec<(u64, Option<Duration>)>,
    oc: usize,
    ot: usize,
    n: usize,
)
    requires
        oc + n <= c@.len(),
        ot + n <= t@.len(),
        entries_fit(overlay(combined_view(c@), trip_view(t@), oc as int, ot as int, n as int)),
    ensures
        combined_view(final(out)@) == combined_view(old(out)@) + overlay(
            combined_view(c@),
            trip_view(t@),
            oc as int,
            ot as int,
            n as int,
        ),
{
    let ghost start = old(out)@;
    let ghost cv = combined_view(c@);
    let ghost tv = trip_view(t@);
    let c_len = c.len();
    let t_len = t.len();
    let mut k: usize = 0;
    while k < n
        invariant
            k <= n,
            c_len == c@.len(),
            t_len == t@.len(),
            oc + n <= c_len,
            ot + n <= t_len,
            cv == combined_view(c@),
            tv == trip_view(t@),
            entries_fit(overlay(cv, tv, oc as int, ot as int, n as int)),
            combined_view(out@) == combined_view(start) + overlay(cv, tv, oc as int, ot as int, k as int),
        decreases n - k,
    {
        let ghost before = out@;
        let (id, acc, count) = c[oc + k];
        let ghost expected = overlay(cv, tv, oc as int, ot as int, n as int)[k as int];
        assert(expected == bumped(cv[oc + k], tv[ot + k]));
        assert(i32::MIN <= expected.1 <= i32::MAX && 0 <= expected.2 <= u16::MAX);
        let entry = match t[ot + k].1 {
            Some(d) => {
                let mut sum = acc;
                sum.add_assign(d);
                (id, sum, count + 1)
            },
            None => (id, acc, count),
        };
        out.push(entry);
        proof {
            assert(combined_view(out@) =~= combined_view(before).push(expected));
            assert(overlay(cv, tv, oc as int, ot as int, k + 1) =~= overlay(cv, tv, oc as int, ot as int, k as int).push(
                expected,
            ));
        }
        k = k + 1;
    }
}

/// Entries that fit, in part of a sequence of entries that fit.
proof fn lemma_part_fits(a: Seq<(u64, int, int)>, b: Seq<(u64, int, int)>, c: Seq<(u64, int, int)>, d: Seq<(u64, int, int)>)
    requires
        entries_fit(a + b + c + d),
    ensures
        entries_fit(b),
{
    assert forall|k: int| 0 <= k < b.len() implies i32::MIN <= #[trigger] b[k].1 <= i32::MAX && 0 <= b[k].2 <= u16::MAX by {
        assert((a + b + c + d)[a.len() + k] == b[k]);
    }
}

/// The merge of a trip that starts at the stop `offset` of the combined route.
fn merge_from_route(c: &Vec<(u64, Duration, u16)>, t: &Vec<(u64, Option<Duration>)>, offset: usize) -> (out: Vec<(u64, Duration, u16)>)
    requires
        offset < c@.len(),
        t@.len() > 0,
        ids_agree(combined_view(c@), trip_view(t@), offset as int, 0, min_int(c@.len() - offset, t@.len() as int)),
        entries_fit(
            combined_view(c@).take(offset as int) + overlay(
                combined_view(c@),
                trip_view(t@),
                offset as int,
                0,
                min_int(c@.len() - offset, t@.len() as int),
            ) + combined_view(c@).skip(offset + min_int(c@.len() - offset, t@.len() as int)) + fresh_entries(
                trip_view(t@).skip(min_int(c@.len() - offset, t@.len() as int)),
            ),
        ),
    ensures
        ({
            let cv = combined_view(c@);
            let tv = trip_view(t@);
            let n = min_int(c@.len() - offset, t@.len() as int);
            combined_view(out@) == cv.take(offset as int) + overlay(cv, tv, offset as int, 0, n) + cv.skip(offset + n)
                + fresh_entries(tv.skip(n))
        }),
{
    let ghost cv = combined_view(c@);
    let ghost tv = trip_view(t@);
    let n = if c.len() - offset < t.len() {
        c.len() - offset
    } else {
        t.len()
    };
    proof {
        lemma_part_fits(
            cv.take(offset as int),
            overlay(cv, tv, offset as int, 0, n as int),
            cv.skip(offset + n),
            fresh_entries(tv.skip(n as int)),
        );
    }
    let mut out: Vec<(u64, Duration, u16)> = Vec::new();
    extend_copied(&mut out, c, 0, offset);
    extend_bumped(&mut out, c, t, offset, 0, n);
    extend_copied(&mut out, c, offset + n, c.len());
    extend_fresh(&mut out, t, n, t.len());
    proof {
        assert(combined_view(Seq::<(u64, Duration, u16)>::empty()) =~= Seq::<(u64, int, int)>::empty());
        assert(cv.subrange(0, offset as int) =~= cv.take(offset as int));
        assert(cv.subrange(offset + n, cv.len() as int) =~= cv.skip(offset + n));
        assert(tv.subrange(n as int, tv.len() as int) =~= tv.skip(n as int));
    }
    out
}

/// The merge of a trip on which the combined route starts, at the trip's stop `offset`.
fn merge_onto_route(c: &Vec<(u64, Duration, u16)>, t: &Vec<(u64, Option<Duration>)>, offset: usize) -> (out: Vec<(u64, Duration, u16)>)
    requires
        offset < t@.len(),
        c@.len() > 0,
        ids_agree(combined_view(c@), trip_view(t@), 0, offset as int, min_int(c@.len() as int, t@.len() - offset)),
        entries_fit(
            fresh_entries(trip_view(t@).take(offset as int)) + overlay(
                combined_view(c@),
                trip_view(t@),
                0,
                offset as int,
                min_int(c@.len() as int, t@.len() - offset),
            ) + combined_view(c@).skip(min_int(c@.len() as int, t@.len() - offset)) + fresh_entries(
                trip_view(t@).skip(offset + min_int(c@.len() as int, t@.len() - offset)),
            ),
        ),
    ensures
        ({
            let cv = combined_view(c@);
            let tv = trip_view(t@);
            let n = min_int(c@.len() as int, t@.len() - offset);
            combined_view(out@) == fresh_entries(tv.take(offset as int)) + overlay(cv, tv, 0, offset as int, n)
                + cv.skip(n) + fresh_entries(tv.skip(offset + n))
        }),
{
    let ghost cv = combined_view(c@);
    let ghost tv = trip_view(t@);
    let n = if c.len() < t.len() - offset {
        c.len()
    } else {
        t.len() - offset
    };
    proof {
        lemma_part_fits(
            fresh_entries(tv.take(offset as int)),
            overlay(cv, tv, 0, offset as int, n as int),
            cv.skip(n as int),
            fresh_entries(tv.skip(offset + n)),
        );
    }
    let mut out: Vec<(u64, Duration, u16)> = Vec::new();
    extend_fresh(&mut out, t, 0, offset);
    extend_bumped(&mut out, c, t, 0, offset, n);
    extend_copied(&mut out, c, n, c.len());
    extend_fresh(&mut out, t, offset + n, t.len());
    proof {
        assert(combined_view(Seq::<(u64, Duration, u16)>::empty()) =~= Seq::<(u64, int, int)>::empty());
        assert(tv.subrange(0, offset as int) =~= tv.take(offset as int));
        assert(cv.subrange(n as int, cv.len() as int) =~= cv.skip(n as int));
        assert(tv.subrange(offset + n, tv.len() as int) =~= tv.skip(offset + n));
    }
    out
}

impl GTFSSource {
    /// Merges the stops of a trip, each with the time to reach it from the stop before, into
    /// a combined route: the route's stop entries sum the times of the trips that pass them
    /// and count those trips.
    pub fn merge_trip(combined_trip_ids: &mut Vec<(u64, Duration, u16)>, trip_stop_ids: Vec<(u64, Option<Duration>)>)
        requires
            merged(combined_view(old(combined_trip_ids)@), trip_view(trip_stop_ids@)) is Some,
            entries_fit(merged(combined_view(old(combined_trip_ids)@), trip_view(trip_stop_ids@))->0),
        ensures
            merged(combined_view(old(combined_trip_ids)@), trip_view(trip_stop_ids@)) == Some(
                combined_view(final(combined_trip_ids)@),
            ),
    {
        let ghost cv = combined_view(combined_trip_ids@);
        let ghost tv = trip_view(trip_stop_ids@);
        let t = &trip_stop_ids;
        let out = if combined_trip_ids.len() == 0 {
            let mut out: Vec<(u64, Duration, u16)> = Vec::new();
            extend_fresh(&mut out, t, 0, t.len());
            assert(combined_view(Seq::<(u64, Duration, u16)>::empty()) =~= Seq::<(u64, int, int)>::empty());
            assert(tv.subrange(0, tv.len() as int) =~= tv);
            out
        } else {
            let start = if t.len() > 0 {
                assert(tv[0].0 == t@[0].0);
                position_in_combined(combined_trip_ids, t[0].0)
            } else {
                None
            };
            match start {
                Some(offset) => {
                    merge_from_route(combined_trip_ids, t, offset)
                },
                None => {
                    assert(cv[0].0 == combined_trip_ids@[0].0);
                    match position_in_trip(t, combined_trip_ids[0].0) {
                        Some(offset) => {
                            merge_onto_route(combined_trip_ids, t, offset)
                        },
                        None => vstd::pervasive::unreached(),
                    }
                },
            }
        };
        *combined_trip_ids = out;
    }
}

/// The trip is on the route (when one is given), run by one of the services, and goes in the
/// direction (when one is given).
pub open spec fn trip_selected(
    trip: Trip,
    route_id: Option<Seq<char>>,
    service_ids: Set<ServiceId>,
    direction: Option<u8>,
) -> bool {
    &&& (route_id matches Some(r) ==> trip.route_id@ == r)
    &&& service_ids.contains(trip.service_id)
    &&& (direction matches Some(d) ==> trip.direction_id == d)
}

/// The selected trips, in order.
pub open spec fn selected_trips(
    records: Seq<Trip>,
    route_id: Option<Seq<char>>,
    service_ids: Set<ServiceId>,
    direction: Option<u8>,
) -> Seq<Trip>
    decreases records.len(),
{
    if records.len() == 0 {
        Seq::empty()
    } else {
        let before = selected_trips(records.drop_last(), route_id, service_ids, direction);
        if trip_selected(records.last(), route_id, service_ids, direction) {
            before.push(records.last())
        } else {
            before
        }
    }
}

/// The view of an optional text.
pub open spec fn text_view(t: Option<String>) -> Option<Seq<char>> {
    match t {
        Some(s) => Some(s@),
        None => None,
    }
}

/// The last stop with each id, as `stops.txt` lists them.
pub open spec fn latest_stops_by_id(records: Seq<StopRecord>) -> Map<Seq<char>, StopRecord>
    decreases records.len(),
{
    if records.len() == 0 {
        Map::empty()
    } else {
        latest_stops_by_id(records.drop_last()).insert(records.last().stop_id@, records.last())
    }
}

/// The station of a stop: its parent station where it has one, else the stop itself.
pub open spec fn station_of(by_id: Map<Seq<char>, StopRecord>, stop: StopRecord) -> StopRecord {
    match stop.parent_station {
        Some(p) => by_id[p@],
        None => stop,
    }
}

/// The stops, by their ids.
pub open spec fn stops_map(stops: Seq<StopRecord>) -> Map<Seq<char>, StopRecord> {
    Map::new(
        |id: Seq<char>| exists|i: int| 0 <= i < stops.len() && #[trigger] stops[i].stop_id@ == id,
        |id: Seq<char>| stops[choose|i: int| 0 <= i < stops.len() && #[trigger] stops[i].stop_id@ == id],
    )
}

/// No two stops share an id.
pub open spec fn ids_distinct(stops: Seq<StopRecord>) -> bool {
    forall|i: int, j: int| 0 <= i < j < stops.len() ==> stops[i].stop_id@ != stops[j].stop_id@
}

/// Where a stop with the id is in `stops`, if it is there.
fn find_stop(stops: &Vec<StopRecord>, id: &String) -> (r: Option<usize>)
    ensures
        match r {
            Some(j) => j < stops@.len() && stops@[j as int].stop_id@ == id@,
            None => forall|i: int| 0 <= i < stops@.len() ==> stops@[i].stop_id@ != id@,
        },
{
    let mut j: usize = 0;
    while j < stops.len()
        invariant
            j <= stops@.len(),
            forall|i: int| 0 <= i < j ==> stops@[i].stop_id@ != id@,
        decreases stops@.len() - j,
    {
        if stops[j].stop_id == *id {
            return Some(j);
        }
        j = j + 1;
    }
    None
}

impl GTFSSource {
    /// The trips of `trips.txt`, in order, that are on the route (when one is given), run by
    /// one of the services, and go in the direction (when one is given).
    pub fn get_trips(
        &self,
        records: &Vec<Trip>,
        route_id: Option<String>,
        service_ids: HashSet<ServiceId>,
        direction: Option<u8>,
    ) -> (trips: Vec<Trip>)
        ensures
            trips@ == selected_trips(records@, text_view(route_id), service_ids@, direction),
    {
        let mut trips: Vec<Trip> = Vec::new();
        let mut k: usize = 0;
        while k < records.len()
            invariant
                k <= records@.len(),
                trips@ == selected_trips(records@.take(k as int), text_view(route_id), service_ids@, direction),
            decreases records@.len() - k,
        {
            proof {
                assert(records@.take(k + 1).drop_last() =~= records@.take(k as int));
                assert(records@.take(k + 1).last() == records@[k as int]);
            }
            let record = &records[k];
            let on_route = match &route_id {
                Some(r) => *r == record.route_id,
                None => true,
            };
            let in_direction = match direction {
                Some(d) => d == record.direction_id,
                None => true,
            };
            if on_route && service_ids.contains(&record.service_id) && in_direction {
                trips.push(record.clone());
            }
            k = k + 1;
        }
        proof {
            assert(records@.take(k as int) =~= records@);
        }
        trips
    }

    /// The stops of `stops.txt` by id: for each id, the last stop listed with it, once.
    pub fn stops_by_id(&self, stops: Vec<StopRecord>) -> (by_id: Vec<StopRecord>)
        ensures
            ids_distinct(by_id@),
            stops_map(by_id@) == latest_stops_by_id(stops@),
    {
        let mut by_id: Vec<StopRecord> = Vec::new();
        let mut k: usize = 0;
        while k < stops.len()
            invariant
                k <= stops@.len(),
                ids_distinct(by_id@),
                forall|id: Seq<char>| (exists|i: int| 0 <= i < by_id@.len() && #[trigger] by_id@[i].stop_id@ == id)
                    <==> latest_stops_by_id(stops@.take(k as int)).contains_key(id),
                forall|i: int| 0 <= i < by_id@.len() ==> latest_stops_by_id(stops@.take(k as int))[(
                #[trigger] by_id@[i]).stop_id@] == by_id@[i],
            decreases stops@.len() - k,
        {
            let record = stops[k].clone();
            let ghost prev = by_id@;
            assert(stops@.take(k + 1).drop_last() =~= stops@.take(k as int));
            let position = find_stop(&by_id, &record.stop_id);
            let found = position.is_some();
            let j: usize = match position {
                Some(j) => j,
                None => by_id.len(),
            };
            if found {
                by_id.set(j, record);
            } else {
                by_id.push(record);
            }
            proof {
                let m = latest_stops_by_id(stops@.take(k + 1));
                assert(m == latest_stops_by_id(stops@.take(k as int)).insert(record.stop_id@, record));
                assert forall|a: int, b: int| 0 <= a < b < by_id@.len() implies by_id@[a].stop_id@
                    != by_id@[b].stop_id@ by {
                    if found {
                        if a == j {
                            assert(prev[b].stop_id@ != prev[j as int].stop_id@);
                        } else if b == j {
                            assert(prev[a].stop_id@ != prev[j as int].stop_id@);
                        }
                    } else if b == prev.len() {
                        assert(by_id@[a] == prev[a]);
                    }
                }
                assert forall|id: Seq<char>| (exists|i: int| 0 <= i < by_id@.len() && #[trigger] by_id@[i].stop_id@ == id)
                    <==> m.contains_key(id) by {
                    if id == record.stop_id@ {
                        if found {
                            assert(by_id@[j as int].stop_id@ == id);
                        } else {
                            assert(by_id@[prev.len() as int].stop_id@ == id);
                        }
                    } else {
                        if exists|i: int| 0 <= i < by_id@.len() && #[trigger] by_id@[i].stop_id@ == id {
                            let i = choose|i: int| 0 <= i < by_id@.len() && #[trigger] by_id@[i].stop_id@ == id;
                            assert(prev[i].stop_id@ == id);
                        }
                        if latest_stops_by_id(stops@.take(k as int)).contains_key(id) {
                            let i = choose|i: int| 0 <= i < prev.len() && #[trigger] prev[i].stop_id@ == id;
                            assert(by_id@[i].stop_id@ == id);
                        }
                    }
                }
                assert forall|i: int| 0 <= i < by_id@.len() implies m[(#[trigger] by_id@[i]).stop_id@] == by_id@[i] by {
                    if found && i == j {
                    } else if !found && i == prev.len() {
                    } else {
                        assert(by_id@[i] == prev[i]);
                    }
                }
            }
            k = k + 1;
        }
        proof {
            assert(stops@.take(k as int) =~= stops@);
            let m = stops_map(by_id@);
            assert forall|id: Seq<char>| #[trigger] m.contains_key(id) implies m[id] == latest_stops_by_id(stops@)[id] by {
                let i = choose|i: int| 0 <= i < by_id@.len() && #[trigger] by_id@[i].stop_id@ == id;
                assert(by_id@[i].stop_id@ == id);
            }
            assert(m =~= latest_stops_by_id(stops@));
        }
        by_id
    }

    /// For each stop, in order, its id and its station: its parent station where it has one,
    /// else the stop itself.
    pub fn parent_stations_by_id(stops_by_id: &Vec<StopRecord>) -> (stations: Vec<(String, StopRecord)>)
        requires
            ids_distinct(stops_by_id@),
            forall|i: int|
                0 <= i < stops_by_id@.len() ==> ((#[trigger] stops_by_id@[i]).parent_station matches Some(p)
                    ==> stops_map(stops_by_id@).contains_key(p@)),
        ensures
            stations@.len() == stops_by_id@.len(),
            forall|i: int|
                0 <= i < stations@.len() ==> (#[trigger] stations@[i]).0@ == stops_by_id@[i].stop_id@
                    && stations@[i].1 == station_of(stops_map(stops_by_id@), stops_by_id@[i]),
    {
        let ghost by_id = stops_map(stops_by_id@);
        let mut stations: Vec<(String, StopRecord)> = Vec::new();
        let mut k: usize = 0;
        while k < stops_by_id.len()
            invariant
                k <= stops_by_id@.len(),
                by_id == stops_map(stops_by_id@),
                ids_distinct(stops_by_id@),
                forall|i: int|
                    0 <= i < stops_by_id@.len() ==> ((#[trigger] stops_by_id@[i]).parent_station matches Some(p)
                        ==> by_id.contains_key(p@)),
                stations@.len() == k,
                forall|i: int|
                    0 <= i < k ==> (#[trigger] stations@[i]).0@ == stops_by_id@[i].stop_id@ && stations@[i].1
                        == station_of(by_id, stops_by_id@[i]),
            decreases stops_by_id@.len() - k,
        {
            let stop = &stops_by_id[k];
            let station = match &stop.parent_station {
                Some(parent) => {
                    let found = find_stop(stops_by_id, parent);
                    match found {
                        Some(j) => {
                            proof {
                                assert(by_id.contains_key(parent@));
                                let w = choose|w: int| 0 <= w < stops_by_id@.len() && #[trigger] stops_by_id@[w].stop_id@ == parent@;
                                assert(w == j) by {
                                    if w != j {
                                        if w < j {
                                            assert(stops_by_id@[w].stop_id@ != stops_by_id@[j as int].stop_id@);
                                        } else {
                                            assert(stops_by_id@[j as int].stop_id@ != stops_by_id@[w].stop_id@);
                                        }
                                    }
                                }
                            }
                            stops_by_id[j].clone()
                        },
                        None => {
                            proof {
                                assert(by_id.contains_key(parent@));
                                let w = choose|w: int| 0 <= w < stops_by_id@.len() && #[trigger] stops_by_id@[w].stop_id@ == parent@;
                                assert(stops_by_id@[w].stop_id@ != parent@);
                            }
                            stop.clone()
                        },
                    }
                },
                None => stop.clone(),
            };
            stations.push((stop.stop_id.clone(), station));
            k = k + 1;
        }
        stations
    }
}

} // verus!
