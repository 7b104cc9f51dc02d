//! Parsed and indexed timetable data for searching: stops with their departures, trips with
//! their stop times, and the services that run on each day of the week.
//!
//! Routes are all kept; trips and stops can be limited to those that some searches need
//! (see `FilterBuilder`). Departures are stored on the stops and refer to stops of trips.
use std::collections::{HashMap, HashSet};
use vstd::prelude::*;
use vstd::std_specs::iter::IteratorSpec;

use crate::departures::{DepartureEntries, Departures, TripStopRef, all_refs, all_refs_timed, copy_refs, insert_departure, lemma_all_refs_timed_insert, lemma_refs_in_timed, lemma_all_refs_insert, lemma_refs_in_from_entries, refs_in};
use crate::time::{Duration, Period, Time};

verus! {

broadcast use vstd::std_specs::hash::group_hash_axioms;

pub type AgencyId = u16;

pub type RouteId = u32;

pub type TripId = u64;

pub type StopId = u64;

pub type ShapeId = u16;

pub type ServiceId = u16;

/// A day of the week.
#[derive(Debug, PartialEq, Eq, Structural, Hash, Clone, Copy, PartialOrd, Ord)]
pub enum Day {
    Monday,
    Tuesday,
    Wednesday,
    Thursday,
    Friday,
    Saturday,
    Sunday,
}

impl Day {
    /// The three letter key of the day, as it is displayed.
    pub fn as_str(&self) -> (s: &'static str)
        ensures
            s@ == day_key(*self),
    {
        proof {
            reveal_strlit("mon");
            reveal_strlit("tue");
            reveal_strlit("wed");
            reveal_strlit("thu");
            reveal_strlit("fri");
            reveal_strlit("sat");
            reveal_strlit("sun");
        }
        match self {
            Day::Monday => "mon",
            Day::Tuesday => "tue",
            Day::Wednesday => "wed",
            Day::Thursday => "thu",
            Day::Friday => "fri",
            Day::Saturday => "sat",
            Day::Sunday => "sun",
        }
    }
}

/// The three letter key of a day.
pub open spec fn day_key(day: Day) -> Seq<char> {
    match day {
        Day::Monday => seq!['m', 'o', 'n'],
        Day::Tuesday => seq!['t', 'u', 'e'],
        Day::Wednesday => seq!['w', 'e', 'd'],
        Day::Thursday => seq!['t', 'h', 'u'],
        Day::Friday => seq!['f', 'r', 'i'],
        Day::Saturday => seq!['s', 'a', 't'],
        Day::Sunday => seq!['s', 'u', 'n'],
    }
}

/// The kind of transport of a route.
#[derive(Debug, PartialEq, Eq, Structural, Hash, Clone, Copy, PartialOrd, Ord)]
pub enum RouteType {
    Rail,
    Bus,
    RailwayService,
    SuburbanRailway,
    UrbanRailway,
    BusService,
    TramService,
    WaterTransportService,
}

/// A route: what its trips are shown as.
#[derive(Debug)]
pub struct Route {
    pub route_id: RouteId,
    pub route_short_name: String,
    pub route_type: RouteType,
    pub route_color: String,
}

impl Clone for Route {
    fn clone(&self) -> (r: Self)
        ensures
            r == *self,
    {
        Route {
            route_id: self.route_id,
            route_short_name: self.route_short_name.clone(),
            route_type: self.route_type,
            route_color: self.route_color.clone(),
        }
    }
}

/// An arrival at and departure from a stop on a trip.
#[derive(Debug, Clone, Copy)]
pub struct StopTime {
    pub arrival_time: Time,
    pub departure_time: Time,
    pub stop_id: StopId,
}

/// A trip of a route, run by one service, with its stops in order.
#[derive(Debug)]
pub struct Trip {
    pub route: Route,
    pub service_id: ServiceId,
    pub trip_id: TripId,
    pub stop_times: Vec<StopTime>,
}

impl Clone for Trip {
    fn clone(&self) -> (r: Self)
        ensures
            r.same_as(self),
    {
        let stop_times = self.stop_times.clone();
        assert(stop_times@ =~= self.stop_times@);
        Trip { route: self.route.clone(), service_id: self.service_id, trip_id: self.trip_id, stop_times }
    }
}

impl Trip {
    /// The two trips hold the same values.
    pub open spec fn same_as(&self, other: &Trip) -> bool {
        &&& self.route == other.route
        &&& self.service_id == other.service_id
        &&& self.trip_id == other.trip_id
        &&& self.stop_times@ == other.stop_times@
    }
}

/// A transfer from one stop to another, with the time it takes if one is given.
#[derive(Debug, Clone, Copy)]
pub struct Transfer {
    pub to_stop_id: StopId,
    pub min_transfer_time: Option<Duration>,
}

/// What kind of location a stop is.
#[derive(Debug)]
#[allow(inconsistent_fields)]
pub enum StopStereoType {
    /// Where passengers board; it may belong to a station.
    StopOrPlatform { station: Option<StopId>, departures: Departures },
    /// A station, with the stops or platforms (and entrances) that belong to it.
    Station { stops_or_platforms: Vec<StopId> },
    /// An entrance or exit of a station.
    EntranceExit { station: StopId },
}

/// A stop, station or entrance.
#[derive(Debug)]
pub struct Stop {
    pub stop_id: StopId,
    pub full_stop_name: String,
    pub short_stop_name: String,
    /// The latitude and longitude, as the bit patterns of `f64` values.
    pub location: (u64, u64),
    pub stereotype: StopStereoType,
    pub transfers: Vec<Transfer>,
}

/// The two stereotypes hold the same values.
pub open spec fn same_stereotype(a: StopStereoType, b: StopStereoType) -> bool {
    match (a, b) {
        (
            StopStereoType::StopOrPlatform { station: s1, departures: d1 },
            StopStereoType::StopOrPlatform { station: s2, departures: d2 },
        ) => s1 == s2 && d1@ == d2@,
        (
            StopStereoType::Station { stops_or_platforms: c1 },
            StopStereoType::Station { stops_or_platforms: c2 },
        ) => c1@ == c2@,
        (StopStereoType::EntranceExit { station: s1 }, StopStereoType::EntranceExit { station: s2 }) => s1
            == s2,
        _ => false,
    }
}

impl Clone for Stop {
    fn clone(&self) -> (r: Self)
        ensures
            r.same_as(self),
    {
        let stereotype = match &self.stereotype {
            StopStereoType::StopOrPlatform { station, departures } => StopStereoType::StopOrPlatform {
                station: *station,
                departures: departures.duplicate(),
            },
            StopStereoType::Station { stops_or_platforms } => {
                let c = stops_or_platforms.clone();
                assert(c@ =~= stops_or_platforms@);
                StopStereoType::Station { stops_or_platforms: c }
            },
            StopStereoType::EntranceExit { station } => StopStereoType::EntranceExit { station: *station },
        };
        let transfers = self.transfers.clone();
        assert(transfers@ =~= self.transfers@);
        Stop {
            stop_id: self.stop_id,
            full_stop_name: self.full_stop_name.clone(),
            short_stop_name: self.short_stop_name.clone(),
            location: self.location,
            stereotype,
            transfers,
        }
    }
}

impl Stop {
    /// The id of the parent station, or its own id for a station or a stop without one.
    pub open spec fn spec_station_id(&self) -> StopId {
        match self.stereotype {
            StopStereoType::StopOrPlatform { station, .. } => match station {
                Some(s) => s,
                None => self.stop_id,
            },
            StopStereoType::Station { .. } => self.stop_id,
            StopStereoType::EntranceExit { station } => station,
        }
    }

    /// The id of the parent station, if there is one.
    pub open spec fn spec_parent_station(&self) -> Option<StopId> {
        match self.stereotype {
            StopStereoType::StopOrPlatform { station, .. } => station,
            StopStereoType::Station { .. } => None,
            StopStereoType::EntranceExit { station } => Some(station),
        }
    }

    /// The stop is a top level one: a station, or a stop without a station.
    pub open spec fn spec_is_station(&self) -> bool {
        match self.stereotype {
            StopStereoType::StopOrPlatform { station, .. } => station is None,
            StopStereoType::Station { .. } => true,
            StopStereoType::EntranceExit { .. } => false,
        }
    }

    /// The ids of the stops that belong to this station (none for other kinds).
    pub open spec fn spec_children(&self) -> Seq<StopId> {
        match self.stereotype {
            StopStereoType::Station { stops_or_platforms } => stops_or_platforms@,
            _ => Seq::empty(),
        }
    }

    /// The trip stops leaving this stop in `period`, in order of departure time (none for
    /// stations and entrances).
    pub open spec fn spec_departures(&self, period: (nat, nat)) -> Seq<TripStopRef> {
        match self.stereotype {
            StopStereoType::StopOrPlatform { departures, .. } => refs_in(departures@, period.0, period.1),
            _ => Seq::empty(),
        }
    }

    /// The trip stops leaving this stop in `period`, in order of departure time.
    pub fn departures(&self, period: Period) -> (v: Vec<TripStopRef>)
        ensures
            v@ == self.spec_departures(period@),
    {
        match &self.stereotype {
            StopStereoType::StopOrPlatform { station: _, departures } => departures.range(period),
            StopStereoType::Station { stops_or_platforms: _ } => Vec::new(),
            StopStereoType::EntranceExit { station: _ } => Vec::new(),
        }
    }

    /// The id of the parent station, or its own id if it has none.
    pub fn station_id(&self) -> (id: StopId)
        ensures
            id == self.spec_station_id(),
    {
        match &self.stereotype {
            StopStereoType::StopOrPlatform { station, departures: _ } => match station {
                Some(s) => *s,
                None => self.stop_id,
            },
            StopStereoType::Station { stops_or_platforms: _ } => self.stop_id,
            StopStereoType::EntranceExit { station } => *station,
        }
    }

    /// The id of the parent station, or `None` for a station.
    pub fn parent_station(&self) -> (id: Option<StopId>)
        ensures
            id == self.spec_parent_station(),
    {
        match &self.stereotype {
            StopStereoType::StopOrPlatform { station, departures: _ } => *station,
            StopStereoType::Station { stops_or_platforms: _ } => None,
            StopStereoType::EntranceExit { station } => Some(*station),
        }
    }

    /// The ids of the stops that belong to this station.
    pub fn children(&self) -> (v: Vec<StopId>)
        ensures
            v@ == self.spec_children(),
    {
        match &self.stereotype {
            StopStereoType::Station { stops_or_platforms } => stops_or_platforms.clone(),
            _ => Vec::new(),
        }
    }

    /// Whether this is a top level stop.
    pub fn is_station(&self) -> (b: bool)
        ensures
            b == self.spec_is_station(),
    {
        match &self.stereotype {
            StopStereoType::StopOrPlatform { station, departures: _ } => station.is_none(),
            StopStereoType::Station { stops_or_platforms: _ } => true,
            StopStereoType::EntranceExit { station: _ } => false,
        }
    }

    /// The two stops hold the same values.
    pub open spec fn same_as(&self, other: &Stop) -> bool {
        &&& self.stop_id == other.stop_id
        &&& self.full_stop_name == other.full_stop_name
        &&& self.short_stop_name == other.short_stop_name
        &&& self.location == other.location
        &&& self.transfers@ == other.transfers@
        &&& same_stereotype(self.stereotype, other.stereotype)
    }

    /// Two stops are the same stop when their ids are.
    pub fn same_stop(&self, rhs: &Stop) -> (b: bool)
        ensures
            b == (self.stop_id == rhs.stop_id),
    {
        self.stop_id == rhs.stop_id
    }
}


/// The services listed for the first entry of `day`, or none.
pub open spec fn services_on(days: Seq<(Day, Seq<ServiceId>)>, day: Day) -> Set<ServiceId>
    decreases days.len(),
{
    if days.len() == 0 {
        Set::empty()
    } else if days[0].0 == day {
        days[0].1.to_set()
    } else {
        services_on(days.drop_first(), day)
    }
}

/// Every departure of `s` that refers to a trip of `trips` refers to one of that trip's stops.
pub open spec fn stop_refs_valid(s: Stop, trips: Map<TripId, Trip>) -> bool {
    match s.stereotype {
        StopStereoType::StopOrPlatform { departures, .. } => all_refs(
            departures@,
            |r: TripStopRef| trips.contains_key(r.0) ==> r.1 < trips[r.0].stop_times@.len(),
        ),
        _ => true,
    }
}

/// Every departure of `s` refers to one of the stops of a trip of `trips`.
pub open spec fn stop_refs_present(s: Stop, trips: Map<TripId, Trip>) -> bool {
    match s.stereotype {
        StopStereoType::StopOrPlatform { departures, .. } => all_refs(
            departures@,
            |r: TripStopRef| trips.contains_key(r.0) && r.1 < trips[r.0].stop_times@.len(),
        ),
        _ => true,
    }
}

/// The ref is to one of the stops of a trip of `trips`.
pub open spec fn ref_present(trips: Map<TripId, Trip>) -> spec_fn(TripStopRef) -> bool {
    |r: TripStopRef| trips.contains_key(r.0) && r.1 < trips[r.0].stop_times@.len()
}

/// The departure time of the stop of a trip of `trips` that the ref is to.
pub open spec fn ref_departure(trips: Map<TripId, Trip>) -> spec_fn(TripStopRef) -> nat {
    |r: TripStopRef| trips[r.0].stop_times@[r.1 as int].departure_time@
}

/// Each departure of `s` to a stop of a trip of `trips` is filed under the departure time of
/// that stop.
pub open spec fn stop_times_match(s: Stop, trips: Map<TripId, Trip>) -> bool {
    match s.stereotype {
        StopStereoType::StopOrPlatform { departures, .. } => all_refs_timed(
            departures@,
            ref_present(trips),
            ref_departure(trips),
        ),
        _ => true,
    }
}

/// Indexed timetable data: trips and stops by id, the services of each day, and the start date
/// of the timetable.
pub struct GTFSData {
    pub(crate) trips: HashMap<TripId, Trip>,
    pub(crate) stops: HashMap<StopId, Stop>,
    services_by_day: Vec<(Day, Vec<ServiceId>)>,
    timetable_start_date: String,
}

impl GTFSData {
    /// The trips by id.
    pub closed spec fn trip_map(&self) -> Map<TripId, Trip> {
        self.trips@
    }

    /// The stops by id.
    pub closed spec fn stop_map(&self) -> Map<StopId, Stop> {
        self.stops@
    }

    /// The services of each day, as given when the data was built.
    pub closed spec fn day_services(&self) -> Seq<(Day, Seq<ServiceId>)> {
        Seq::new(self.services_by_day@.len(), |i: int| (self.services_by_day@[i].0, self.services_by_day@[i].1@))
    }

    /// The start date of the timetable.
    pub closed spec fn start_date(&self) -> Seq<char> {
        self.timetable_start_date@
    }

    /// The data is consistent: each stop and trip is filed under its own id, and each departure
    /// that refers to a trip present refers to one of its stops.
    pub open spec fn wf(&self) -> bool {
        &&& forall|id: StopId| #[trigger] self.stop_map().contains_key(id) ==> self.stop_map()[id].stop_id == id
        &&& forall|id: TripId| #[trigger] self.trip_map().contains_key(id) ==> self.trip_map()[id].trip_id == id
        &&& forall|id: StopId| #[trigger] self.stop_map().contains_key(id) ==> stop_refs_valid(self.stop_map()[id], self.trip_map())
        &&& forall|id: StopId| #[trigger] self.stop_map().contains_key(id) ==> stop_times_match(self.stop_map()[id], self.trip_map())
    }

    /// A builder of data with the given services for each day and timetable start date.
    pub fn builder(services_by_day: Vec<(Day, Vec<ServiceId>)>, timetable_start_date: String) -> (b: Builder)
        ensures
            b.data().trip_map().is_empty(),
            b.data().stop_map().is_empty(),
            b.data().day_services() == Seq::new(services_by_day@.len(), |i: int| (services_by_day@[i].0, services_by_day@[i].1@)),
            b.data().start_date() == timetable_start_date@,
            b.wf(),
            b.departure_count() == 0,
            b.children_map().is_empty(),
            b.route_map().is_empty(),
    {
        let data = GTFSData {
            services_by_day,
            timetable_start_date,
            stops: HashMap::new(),
            trips: HashMap::new(),
        };
        let b = Builder {
            data,
            stop_children: HashMap::new(),
            stations_with_children: Vec::new(),
            routes: HashMap::new(),
            departure_count: 0,
        };
        assert(b.data.stop_map() =~= Map::empty());
        b
    }

    /// A builder of a copy of this data keeping only the stops and trips asked for.
    pub fn build_from<'r>(&'r self) -> (f: FilterBuilder<'r>)
        requires
            self.wf(),
        ensures
            f.existing() == self,
            f.new_data().trip_map().is_empty(),
            f.new_data().stop_map().is_empty(),
            f.new_data().day_services() == self.day_services(),
            f.new_data().start_date() == self.start_date(),
            f.wf(),
    {
        let mut services_by_day: Vec<(Day, Vec<ServiceId>)> = Vec::new();
        let mut k: usize = 0;
        assert(self.day_services().skip(0) =~= self.day_services());
        while k < self.services_by_day.len()
            invariant
                k <= self.services_by_day@.len(),
                services_by_day@.len() == k,
                forall|i: int| 0 <= i < k ==> #[trigger] services_by_day@[i].0 == self.services_by_day@[i].0
                    && services_by_day@[i].1@ == self.services_by_day@[i].1@,
            decreases self.services_by_day@.len() - k,
        {
            let services = copy_services(&self.services_by_day[k].1);
            services_by_day.push((self.services_by_day[k].0, services));
            k = k + 1;
        }
        let new_data = GTFSData {
            services_by_day,
            timetable_start_date: self.timetable_start_date.clone(),
            stops: HashMap::new(),
            trips: HashMap::new(),
        };
        assert(new_data.day_services() =~= self.day_services());
        assert(new_data.stop_map() =~= Map::empty());
        FilterBuilder { existing_data: self, new_data }
    }

    /// The start date of the timetable, from the calendar records.
    pub fn timetable_start_date(&self) -> (s: &str)
        ensures
            s@ == self.start_date(),
    {
        self.timetable_start_date.as_str()
    }

    /// The route that the trip is part of.
    pub fn get_route_for_trip(&self, trip_id: &TripId) -> (r: &Route)
        requires
            self.trip_map().contains_key(*trip_id),
        ensures
            *r == self.trip_map()[*trip_id].route,
    {
        let trip = self.trips.get(trip_id).unwrap();
        &trip.route
    }

    /// The services that run on `day`.
    pub fn services_of_day(&self, day: Day) -> (r: HashSet<ServiceId>)
        ensures
            r@ == services_on(self.day_services(), day),
    {
        let mut k: usize = 0;
        assert(self.day_services().skip(0) =~= self.day_services());
        while k < self.services_by_day.len()
            invariant
                k <= self.services_by_day@.len(),
                forall|i: int| 0 <= i < k ==> self.services_by_day@[i].0 != day,
                services_on(self.day_services(), day) == services_on(self.day_services().skip(k as int), day),
            decreases self.services_by_day@.len() - k,
        {
            if self.services_by_day[k].0 == day {
                let services = &self.services_by_day[k].1;
                let mut set: HashSet<ServiceId> = HashSet::new();
                let mut j: usize = 0;
                while j < services.len()
                    invariant
                        j <= services@.len(),
                        set@ == services@.take(j as int).to_set(),
                    decreases services@.len() - j,
                {
                    set.insert(services[j]);
                    proof {
                        assert(services@.take(j + 1) =~= services@.take(j as int).push(services@[j as int]));
                        services@.take(j as int).lemma_push_to_set_commute(services@[j as int]);
                    }
                    j = j + 1;
                }
                assert(services@.take(j as int) =~= services@);
                assert(self.day_services().skip(k as int)[0] == self.day_services()[k as int]);
                return set;
            }
            proof {
                assert(self.day_services().skip(k as int).drop_first() =~= self.day_services().skip(k + 1));
            }
            k = k + 1;
        }
        proof {
            assert(self.day_services().skip(k as int).len() == 0);
        }
        let set = HashSet::new();
        assert(set@ =~= Set::<ServiceId>::empty());
        set
    }

    /// The stop with the given id.
    pub fn get_stop(&self, id: &StopId) -> (s: Option<&Stop>)
        ensures
            match s {
                Some(stop) => self.stop_map().contains_key(*id) && *stop == self.stop_map()[*id],
                None => !self.stop_map().contains_key(*id),
            },
    {
        self.stops.get(id)
    }

    /// The trip with the given id.
    pub fn get_trip(&self, id: &TripId) -> (t: Option<&Trip>)
        ensures
            match t {
                Some(trip) => self.trip_map().contains_key(*id) && *trip == self.trip_map()[*id],
                None => !self.trip_map().contains_key(*id),
            },
    {
        self.trips.get(id)
    }

    /// All the trips leaving `stop` in `period` that run on one of `services`, each with its
    /// stop times from that stop on.
    pub fn trips_from<'a>(&'a self, stop: &Stop, services: &HashSet<ServiceId>, period: Period) -> (v: Vec<(&'a Trip, &'a [StopTime])>)
        requires
            self.wf(),
            stop_refs_valid(*stop, self.trip_map()),
            stop_times_match(*stop, self.trip_map()),
        ensures
            v@.len() == trips_from_refs(self.trip_map(), services@, stop.spec_departures(period@)).len(),
            forall|i: int| #![trigger v@[i]] 0 <= i < v@.len() ==> {
                let r = trips_from_refs(self.trip_map(), services@, stop.spec_departures(period@))[i];
                &&& *v@[i].0 == self.trip_map()[r.0]
                &&& v@[i].1@ == self.trip_map()[r.0].stop_times@.skip(r.1 as int)
                &&& v@[i].1@.len() > 0
                &&& period@.0 <= v@[i].1@[0].departure_time@ < period@.1
                &&& self.trip_map().contains_key(r.0) && v@[i].0.trip_id == r.0
                &&& r.1 < v@[i].0.stop_times@.len()
            },
    {
        let departures = stop.departures(period);
        let ghost deps = stop.spec_departures(period@);
        proof {
            if let StopStereoType::StopOrPlatform { departures: d, .. } = &stop.stereotype {
                lemma_refs_in_from_entries(
                    d@,
                    period@.0,
                    period@.1,
                    |r: TripStopRef| self.trip_map().contains_key(r.0) ==> r.1 < self.trip_map()[r.0].stop_times@.len(),
                );
                lemma_refs_in_timed(d@, period@.0, period@.1, ref_present(self.trip_map()), ref_departure(self.trip_map()));
            }
        }
        let mut v: Vec<(&'a Trip, &'a [StopTime])> = Vec::new();
        let mut k: usize = 0;
        while k < departures.len()
            invariant
                self.wf(),
                k <= departures@.len(),
                departures@ == deps,
                forall|j: int| 0 <= j < deps.len() ==> (self.trip_map().contains_key((#[trigger] deps[j]).0)
                    ==> deps[j].1 < self.trip_map()[deps[j].0].stop_times@.len()),
                forall|j: int| 0 <= j < deps.len() && #[trigger] ref_present(self.trip_map())(deps[j])
                    ==> period@.0 <= ref_departure(self.trip_map())(deps[j]) < period@.1,
                v@.len() == trips_from_refs(self.trip_map(), services@, deps.take(k as int)).len(),
                forall|i: int| #![trigger v@[i]] 0 <= i < v@.len() ==> {
                    let r = trips_from_refs(self.trip_map(), services@, deps.take(k as int))[i];
                    &&& *v@[i].0 == self.trip_map()[r.0]
                    &&& v@[i].1@ == self.trip_map()[r.0].stop_times@.skip(r.1 as int)
                    &&& v@[i].1@.len() > 0
                    &&& period@.0 <= v@[i].1@[0].departure_time@ < period@.1
                    &&& self.trip_map().contains_key(r.0) && v@[i].0.trip_id == r.0
                    &&& r.1 < v@[i].0.stop_times@.len()
                },
            decreases departures@.len() - k,
        {
            let (trip_id, idx) = departures[k];
            proof {
                assert(deps.take(k + 1).drop_last() =~= deps.take(k as int));
            }
            match self.trips.get(&trip_id) {
                Some(trip) => {
                    if services.contains(&trip.service_id) {
                        let times = trip.stop_times.as_slice();
                        let rest = &times[idx..times.len()];
                        v.push((trip, rest));
                        assert(rest@ =~= self.trip_map()[trip_id].stop_times@.skip(idx as int));
                        assert(ref_present(self.trip_map())(deps[k as int]));
                        assert(trip.trip_id == trip_id);
                        assert(rest@[0] == self.trip_map()[trip_id].stop_times@[idx as int]);
                    }
                },
                None => {},
            }
            k = k + 1;
        }
        assert(deps.take(k as int) =~= deps);
        v
    }

    /// Data with the given trips, stops, services of each day and start date.
    pub(crate) fn from_parts(
        trips: HashMap<TripId, Trip>,
        stops: HashMap<StopId, Stop>,
        services_by_day: Vec<(Day, Vec<ServiceId>)>,
        timetable_start_date: String,
    ) -> (d: GTFSData)
        ensures
            d.trip_map() == trips@,
            d.stop_map() == stops@,
            d.day_services() == Seq::new(services_by_day@.len(), |i: int| (services_by_day@[i].0, services_by_day@[i].1@)),
            d.start_date() == timetable_start_date@,
    {
        GTFSData { trips, stops, services_by_day, timetable_start_date }
    }

    /// A copy of the services of each day.
    pub(crate) fn copy_services_by_day(&self) -> (v: Vec<(Day, Vec<ServiceId>)>)
        ensures
            Seq::new(v@.len(), |i: int| (v@[i].0, v@[i].1@)) == self.day_services(),
    {
        let mut services_by_day: Vec<(Day, Vec<ServiceId>)> = Vec::new();
        let mut k: usize = 0;
        while k < self.services_by_day.len()
            invariant
                k <= self.services_by_day@.len(),
                services_by_day@.len() == k,
                forall|i: int| 0 <= i < k ==> #[trigger] services_by_day@[i].0 == self.services_by_day@[i].0
                    && services_by_day@[i].1@ == self.services_by_day@[i].1@,
            decreases self.services_by_day@.len() - k,
        {
            let services = copy_services(&self.services_by_day[k].1);
            services_by_day.push((self.services_by_day[k].0, services));
            k = k + 1;
        }
        assert(Seq::new(services_by_day@.len(), |i: int| (services_by_day@[i].0, services_by_day@[i].1@)) =~= self.day_services());
        services_by_day
    }

    /// A copy of the start date of the timetable.
    pub(crate) fn copy_start_date(&self) -> (s: String)
        ensures
            s@ == self.start_date(),
    {
        self.timetable_start_date.clone()
    }

    /// The trips by id, as a map.
    pub(crate) fn trip_table(&self) -> (m: &HashMap<TripId, Trip>)
        ensures
            m@ == self.trip_map(),
    {
        &self.trips
    }

    /// The stops by id, as a map.
    pub(crate) fn stop_table(&self) -> (m: &HashMap<StopId, Stop>)
        ensures
            m@ == self.stop_map(),
    {
        &self.stops
    }

    /// Adds the stops and trips, replacing those with the same ids.
    pub(crate) fn merge(&mut self, stops: HashMap<StopId, Stop>, trips: HashMap<TripId, Trip>)
        ensures
            final(self).stop_map() == old(self).stop_map().union_prefer_right(stops@),
            final(self).trip_map() == old(self).trip_map().union_prefer_right(trips@),
            final(self).day_services() == old(self).day_services(),
            final(self).start_date() == old(self).start_date(),
    {
        let mut stops = stops;
        let mut trips = trips;
        let stop_ids = map_keys(&stops);
        let ghost all_stops = stops@;
        let mut i: usize = 0;
        while i < stop_ids.len()
            invariant
                i <= stop_ids@.len(),
                stop_ids@.to_set() == all_stops.dom(),
                stop_ids@.no_duplicates(),
                stops@ == all_stops.remove_keys(stop_ids@.take(i as int).to_set()),
                self.stops@ == old(self).stops@.union_prefer_right(all_stops.restrict(stop_ids@.take(i as int).to_set())),
                self.trips@ == old(self).trips@,
                self.services_by_day@ == old(self).services_by_day@,
                self.timetable_start_date@ == old(self).timetable_start_date@,
            decreases stop_ids@.len() - i,
        {
            let id = stop_ids[i];
            proof {
                assert(stop_ids@.take(i + 1) =~= stop_ids@.take(i as int).push(id));
                stop_ids@.take(i as int).lemma_push_to_set_commute(id);
                assert(all_stops.contains_key(id)) by {
                    assert(stop_ids@.to_set().contains(id));
                }
                assert(!stop_ids@.take(i as int).contains(id));
            }
            let stop = stops.remove(&id).unwrap();
            self.stops.insert(id, stop);
            i = i + 1;
            proof {
                assert(stops@ =~= all_stops.remove_keys(stop_ids@.take(i as int).to_set()));
                assert(self.stops@ =~= old(self).stops@.union_prefer_right(all_stops.restrict(stop_ids@.take(i as int).to_set())));
            }
        }
        proof {
            assert(stop_ids@.take(i as int) =~= stop_ids@);
            assert(all_stops.restrict(stop_ids@.to_set()) =~= all_stops);
        }
        let trip_ids = map_keys(&trips);
        let ghost all_trips = trips@;
        let mut j: usize = 0;
        while j < trip_ids.len()
            invariant
                j <= trip_ids@.len(),
                trip_ids@.to_set() == all_trips.dom(),
                trip_ids@.no_duplicates(),
                trips@ == all_trips.remove_keys(trip_ids@.take(j as int).to_set()),
                self.trips@ == old(self).trips@.union_prefer_right(all_trips.restrict(trip_ids@.take(j as int).to_set())),
                self.stops@ == old(self).stops@.union_prefer_right(all_stops),
                self.services_by_day@ == old(self).services_by_day@,
                self.timetable_start_date@ == old(self).timetable_start_date@,
            decreases trip_ids@.len() - j,
        {
            let id = trip_ids[j];
            proof {
                assert(trip_ids@.take(j + 1) =~= trip_ids@.take(j as int).push(id));
                trip_ids@.take(j as int).lemma_push_to_set_commute(id);
                assert(all_trips.contains_key(id)) by {
                    assert(trip_ids@.to_set().contains(id));
                }
                assert(!trip_ids@.take(j as int).contains(id));
            }
            let trip = trips.remove(&id).unwrap();
            self.trips.insert(id, trip);
            j = j + 1;
            proof {
                assert(trips@ =~= all_trips.remove_keys(trip_ids@.take(j as int).to_set()));
                assert(self.trips@ =~= old(self).trips@.union_prefer_right(all_trips.restrict(trip_ids@.take(j as int).to_set())));
            }
        }
        proof {
            assert(trip_ids@.take(j as int) =~= trip_ids@);
            assert(all_trips.restrict(trip_ids@.to_set()) =~= all_trips);
        }
    }

    /// The data holds finitely many stops and trips.
    pub proof fn lemma_finite(&self)
        ensures
            self.stop_map().dom().finite(),
            self.trip_map().dom().finite(),
    {
    }

    /// All the stops, in no particular order.
    pub fn stops(&self) -> (v: Vec<&Stop>)
        ensures
            v@.len() == self.stop_map().len(),
            v@.unref().to_set() == self.stop_map().values(),
    {
        let mut v: Vec<&Stop> = Vec::new();
        for s in it: self.stops.values()
            invariant
                it.seq() == vstd::std_specs::hash::spec_values_iter(&self.stops).remaining(),
                v@ == it.seq().take(it.index()),
            ensures
                v@ == vstd::std_specs::hash::spec_values_iter(&self.stops).remaining(),
        {
            proof {
                assert(it.seq().take(it.index() + 1) =~= it.seq().take(it.index()).push(s));
            }
            v.push(s);
        }
        proof {
            vstd::std_specs::hash::axiom_spec_values_iter(&self.stops);
        }
        v
    }

    /// All the trips, in no particular order.
    pub fn trips(&self) -> (v: Vec<&Trip>)
        ensures
            v@.len() == self.trip_map().len(),
            v@.unref().to_set() == self.trip_map().values(),
    {
        let mut v: Vec<&Trip> = Vec::new();
        for t in it: self.trips.values()
            invariant
                it.seq() == vstd::std_specs::hash::spec_values_iter(&self.trips).remaining(),
                v@ == it.seq().take(it.index()),
            ensures
                v@ == vstd::std_specs::hash::spec_values_iter(&self.trips).remaining(),
        {
            proof {
                assert(it.seq().take(it.index() + 1) =~= it.seq().take(it.index()).push(t));
            }
            v.push(t);
        }
        proof {
            vstd::std_specs::hash::axiom_spec_values_iter(&self.trips);
        }
        v
    }
}

/// The departures among `refs` whose trip is present and runs on one of `services`.
pub open spec fn trips_from_refs(trips: Map<TripId, Trip>, services: Set<ServiceId>, refs: Seq<TripStopRef>) -> Seq<TripStopRef>
    decreases refs.len(),
{
    if refs.len() == 0 {
        Seq::empty()
    } else {
        let r = refs.last();
        trips_from_refs(trips, services, refs.drop_last()) + if trips.contains_key(r.0) && services.contains(
            trips[r.0].service_id,
        ) {
            seq![r]
        } else {
            Seq::empty()
        }
    }
}

/// The keys of the map, each once.
pub(crate) fn map_keys<V>(m: &HashMap<u64, V>) -> (v: Vec<u64>)
    ensures
        v@.to_set() == m@.dom(),
        v@.no_duplicates(),
        v@.len() == m@.dom().len(),
{
    let mut v: Vec<u64> = Vec::new();
    for id in it: m.keys()
        invariant
            it.seq() == vstd::std_specs::hash::spec_keys_iter(m).remaining(),
            v@ == it.seq().take(it.index()).map_values(|k: &u64| *k),
        ensures
            v@ == vstd::std_specs::hash::spec_keys_iter(m).remaining().map_values(|k: &u64| *k),
    {
        v.push(*id);
        proof {
            assert(it.seq().take(it.index() + 1).map_values(|k: &u64| *k) =~= v@);
        }
    }
    proof {
        vstd::std_specs::hash::axiom_spec_keys_iter(m);
        assert(v@ =~= vstd::std_specs::hash::spec_keys_iter(m).remaining().unref());
    }
    v
}

/// A copy of the service ids.
fn copy_services(services: &Vec<ServiceId>) -> (v: Vec<ServiceId>)
    ensures
        v@ == services@,
{
    let v = services.clone();
    assert(v@ =~= services@);
    v
}


/// `s` has the given id, names and location, and no transfers.
pub open spec fn new_stop_fields(s: Stop, stop_id: StopId, full_stop_name: String, short_stop_name: String, location: (u64, u64)) -> bool {
    &&& s.stop_id == stop_id
    &&& s.full_stop_name == full_stop_name
    &&& s.short_stop_name == short_stop_name
    &&& s.location == location
    &&& s.transfers@.len() == 0
}

/// The two stops are the same except for their transfers.
pub open spec fn same_except_transfers(a: Stop, b: Stop) -> bool {
    &&& a.stop_id == b.stop_id
    &&& a.full_stop_name == b.full_stop_name
    &&& a.short_stop_name == b.short_stop_name
    &&& a.location == b.location
    &&& same_stereotype(a.stereotype, b.stereotype)
}

/// The children map after recording that `child` belongs to `station`.
pub open spec fn add_child(children: Map<StopId, Seq<StopId>>, station: StopId, child: StopId) -> Map<StopId, Seq<StopId>> {
    if children.contains_key(station) {
        children.insert(station, children[station].push(child))
    } else {
        children.insert(station, seq![child])
    }
}

/// Builds timetable data: stops first, then transfers, routes, trips and the stops of trips.
pub struct Builder {
    data: GTFSData,
    stop_children: HashMap<StopId, Vec<StopId>>,
    stations_with_children: Vec<StopId>,
    routes: HashMap<RouteId, Route>,
    departure_count: u64,
}

impl Builder {
    /// The data built so far (stations do not list their children yet).
    pub closed spec fn data(&self) -> GTFSData {
        self.data
    }

    /// The children recorded for each station so far.
    pub closed spec fn children_map(&self) -> Map<StopId, Seq<StopId>> {
        Map::new(|k: StopId| self.stop_children@.contains_key(k), |k: StopId| self.stop_children@[k]@)
    }

    /// The routes added so far.
    pub closed spec fn route_map(&self) -> Map<RouteId, Route> {
        self.routes@
    }

    /// The number of trip stops added so far.
    pub closed spec fn departure_count(&self) -> nat {
        self.departure_count as nat
    }

    /// The builder is consistent: its data is, and the list of stations with children holds
    /// each of them once.
    pub closed spec fn wf(&self) -> bool {
        &&& self.data.wf()
        &&& forall|id: StopId| #[trigger] self.data.stop_map().contains_key(id) ==> stop_refs_present(self.data.stop_map()[id], self.data.trip_map())
        &&& self.stations_with_children@.no_duplicates()
        &&& forall|k: StopId| self.stop_children@.contains_key(k) <==> self.stations_with_children@.contains(k)
    }

    /// Adds a station without children yet.
    pub fn add_station(&mut self, stop_id: StopId, full_stop_name: String, short_stop_name: String, location: (u64, u64))
        requires
            old(self).wf(),
        ensures
            final(self).wf(),
            final(self).data().stop_map().dom() == old(self).data().stop_map().dom().insert(stop_id),
            forall|k: StopId| k != stop_id && old(self).data().stop_map().contains_key(k)
                ==> final(self).data().stop_map()[k] == old(self).data().stop_map()[k],
            new_stop_fields(final(self).data().stop_map()[stop_id], stop_id, full_stop_name, short_stop_name, location),
            final(self).data().stop_map()[stop_id].stereotype matches StopStereoType::Station { stops_or_platforms }
                && stops_or_platforms@.len() == 0,
            final(self).data().trip_map() == old(self).data().trip_map(),
            final(self).children_map() == old(self).children_map(),
            final(self).route_map() == old(self).route_map(),
            final(self).departure_count() == old(self).departure_count(),
            final(self).data().day_services() == old(self).data().day_services(),
            final(self).data().start_date() == old(self).data().start_date(),
    {
        let stop = Stop {
            stop_id,
            full_stop_name,
            short_stop_name,
            location,
            stereotype: StopStereoType::Station { stops_or_platforms: Vec::new() },
            transfers: Vec::new(),
        };
        self.data.stops.insert(stop_id, stop);
        proof {
            self.lemma_data_wf_after_stop_insert(old(self).data, stop_id);
        }
    }

    /// Adds a stop or platform, recording it as a child of its station if it has one.
    pub fn add_stop_or_platform(
        &mut self,
        stop_id: StopId,
        full_stop_name: String,
        short_stop_name: String,
        location: (u64, u64),
        station: Option<StopId>,
    )
        requires
            old(self).wf(),
        ensures
            final(self).wf(),
            final(self).data().stop_map().dom() == old(self).data().stop_map().dom().insert(stop_id),
            forall|k: StopId| k != stop_id && old(self).data().stop_map().contains_key(k)
                ==> final(self).data().stop_map()[k] == old(self).data().stop_map()[k],
            new_stop_fields(final(self).data().stop_map()[stop_id], stop_id, full_stop_name, short_stop_name, location),
            final(self).data().stop_map()[stop_id].stereotype matches StopStereoType::StopOrPlatform { station: s, departures }
                && s == station && departures@.len() == 0,
            final(self).data().trip_map() == old(self).data().trip_map(),
            final(self).children_map() == match station {
                Some(st) => add_child(old(self).children_map(), st, stop_id),
                None => old(self).children_map(),
            },
            final(self).route_map() == old(self).route_map(),
            final(self).departure_count() == old(self).departure_count(),
            final(self).data().day_services() == old(self).data().day_services(),
            final(self).data().start_date() == old(self).data().start_date(),
    {
        let stop = Stop {
            stop_id,
            full_stop_name,
            short_stop_name,
            location,
            stereotype: StopStereoType::StopOrPlatform { station, departures: Departures::new() },
            transfers: Vec::new(),
        };
        self.data.stops.insert(stop_id, stop);
        proof {
            self.lemma_data_wf_after_stop_insert(old(self).data, stop_id);
        }
        if let Some(station) = station {
            self.record_child(station, stop_id);
        }
    }

    /// Adds an entrance or exit of a station, recording it as a child of the station.
    pub fn add_entrance_or_exit(
        &mut self,
        stop_id: StopId,
        full_stop_name: String,
        short_stop_name: String,
        location: (u64, u64),
        station: StopId,
    )
        requires
            old(self).wf(),
        ensures
            final(self).wf(),
            final(self).data().stop_map().dom() == old(self).data().stop_map().dom().insert(stop_id),
            forall|k: StopId| k != stop_id && old(self).data().stop_map().contains_key(k)
                ==> final(self).data().stop_map()[k] == old(self).data().stop_map()[k],
            new_stop_fields(final(self).data().stop_map()[stop_id], stop_id, full_stop_name, short_stop_name, location),
            final(self).data().stop_map()[stop_id].stereotype == (StopStereoType::EntranceExit { station }),
            final(self).data().trip_map() == old(self).data().trip_map(),
            final(self).children_map() == add_child(old(self).children_map(), station, stop_id),
            final(self).route_map() == old(self).route_map(),
            final(self).departure_count() == old(self).departure_count(),
            final(self).data().day_services() == old(self).data().day_services(),
            final(self).data().start_date() == old(self).data().start_date(),
    {
        let stop = Stop {
            stop_id,
            full_stop_name,
            short_stop_name,
            location,
            stereotype: StopStereoType::EntranceExit { station },
            transfers: Vec::new(),
        };
        self.data.stops.insert(stop_id, stop);
        proof {
            self.lemma_data_wf_after_stop_insert(old(self).data, stop_id);
        }
        self.record_child(station, stop_id);
    }

    /// After filing a stop without departures under its id, the data stays consistent.
    proof fn lemma_data_wf_after_stop_insert(&self, old_data: GTFSData, stop_id: StopId)
        requires
            old_data.wf(),
            self.data.trip_map() == old_data.trip_map(),
            self.data.stop_map() == old_data.stop_map().insert(stop_id, self.data.stop_map()[stop_id]),
            self.data.stop_map()[stop_id].stop_id == stop_id,
            stop_refs_valid(self.data.stop_map()[stop_id], self.data.trip_map()),
            stop_refs_present(self.data.stop_map()[stop_id], self.data.trip_map()),
            stop_times_match(self.data.stop_map()[stop_id], self.data.trip_map()),
            forall|id: StopId| #[trigger] old_data.stop_map().contains_key(id) ==> stop_refs_present(old_data.stop_map()[id], old_data.trip_map()),
        ensures
            self.data.wf(),
            forall|id: StopId| #[trigger] self.data.stop_map().contains_key(id) ==> stop_refs_present(self.data.stop_map()[id], self.data.trip_map()),
    {
        assert forall|id: StopId| #[trigger] self.data.stop_map().contains_key(id) implies stop_times_match(
            self.data.stop_map()[id],
            self.data.trip_map(),
        ) by {
            if id != stop_id {
                assert(old_data.stop_map().contains_key(id));
            }
        }
        assert forall|id: StopId| #[trigger] self.data.stop_map().contains_key(id) implies stop_refs_present(
            self.data.stop_map()[id],
            self.data.trip_map(),
        ) by {
            if id != stop_id {
                assert(old_data.stop_map().contains_key(id));
            }
        }
        assert forall|id: StopId| #[trigger] self.data.stop_map().contains_key(id) implies stop_refs_valid(
            self.data.stop_map()[id],
            self.data.trip_map(),
        ) by {
            if id != stop_id {
                assert(old_data.stop_map().contains_key(id));
            }
        }
        assert forall|id: StopId| #[trigger] self.data.stop_map().contains_key(id) implies self.data.stop_map()[id].stop_id
            == id by {
            if id != stop_id {
                assert(old_data.stop_map().contains_key(id));
            }
        }
    }

    /// Records that `child` belongs to `station`.
    fn record_child(&mut self, station: StopId, child: StopId)
        requires
            old(self).wf(),
        ensures
            final(self).wf(),
            final(self).data == old(self).data,
            final(self).children_map() == add_child(old(self).children_map(), station, child),
            final(self).route_map() == old(self).route_map(),
            final(self).departure_count() == old(self).departure_count(),
    {
        let children = match self.stop_children.remove(&station) {
            Some(mut children) => {
                children.push(child);
                children
            },
            None => {
                self.stations_with_children.push(station);
                let mut children = Vec::new();
                children.push(child);
                children
            },
        };
        self.stop_children.insert(station, children);
        proof {
            assert(self.children_map() =~= add_child(old(self).children_map(), station, child));
            if !old(self).stop_children@.contains_key(station) {
                let l = old(self).stations_with_children@;
                assert(!l.contains(station));
                assert(self.stations_with_children@ == l.push(station));
                assert forall|i: int, j: int| 0 <= i < j < l.len() + 1 implies self.stations_with_children@[i]
                    != self.stations_with_children@[j] by {
                    if j == l.len() {
                        assert(l[i] == self.stations_with_children@[i]);
                    }
                }
            }
            assert forall|k: StopId| self.stop_children@.contains_key(k) <==> self.stations_with_children@.contains(k) by {
                if k != station {
                    assert(old(self).stop_children@.contains_key(k) == self.stop_children@.contains_key(k));
                    if old(self).stations_with_children@.contains(k) {
                        let i = choose|i: int| 0 <= i < old(self).stations_with_children@.len()
                            && old(self).stations_with_children@[i] == k;
                        assert(self.stations_with_children@[i] == k);
                    }
                } else {
                    if !old(self).stop_children@.contains_key(station) {
                        assert(self.stations_with_children@.last() == station);
                    }
                }
            }
        }
    }

    /// Adds a transfer from the stop `from_stop_id`, which must have been added.
    pub fn add_transfer(&mut self, from_stop_id: StopId, to_stop_id: StopId, min_transfer_time: Option<Duration>)
        requires
            old(self).wf(),
            old(self).data().stop_map().contains_key(from_stop_id),
        ensures
            final(self).wf(),
            final(self).data().stop_map().dom() == old(self).data().stop_map().dom(),
            forall|k: StopId| k != from_stop_id && old(self).data().stop_map().contains_key(k)
                ==> final(self).data().stop_map()[k] == old(self).data().stop_map()[k],
            same_except_transfers(final(self).data().stop_map()[from_stop_id], old(self).data().stop_map()[from_stop_id]),
            final(self).data().stop_map()[from_stop_id].transfers@ == old(self).data().stop_map()[from_stop_id].transfers@.push(
                Transfer { to_stop_id, min_transfer_time },
            ),
            final(self).data().trip_map() == old(self).data().trip_map(),
            final(self).children_map() == old(self).children_map(),
            final(self).route_map() == old(self).route_map(),
            final(self).departure_count() == old(self).departure_count(),
            final(self).data().day_services() == old(self).data().day_services(),
            final(self).data().start_date() == old(self).data().start_date(),
    {
        let mut stop = self.data.stops.remove(&from_stop_id).unwrap();
        stop.transfers.push(Transfer { to_stop_id, min_transfer_time });
        self.data.stops.insert(from_stop_id, stop);
        proof {
            assert(self.data.stop_map() =~= old(self).data.stop_map().insert(from_stop_id, self.data.stop_map()[from_stop_id]));
            let old_stop = old(self).data.stop_map()[from_stop_id];
            assert(stop_refs_valid(old_stop, self.data.trip_map()));
            assert(stop_refs_present(old_stop, self.data.trip_map()));
            assert(stop_times_match(old_stop, self.data.trip_map()));
            self.lemma_data_wf_after_stop_insert(old(self).data, from_stop_id);
            assert(self.data.stop_map().dom() =~= old(self).data.stop_map().dom());
        }
    }

    /// Adds a route.
    pub fn add_route(&mut self, route_id: RouteId, route_short_name: String, route_type: RouteType, route_color: String)
        requires
            old(self).wf(),
        ensures
            final(self).wf(),
            final(self).route_map() == old(self).route_map().insert(
                route_id,
                Route { route_id, route_short_name, route_type, route_color },
            ),
            final(self).data() == old(self).data(),
            final(self).children_map() == old(self).children_map(),
            final(self).departure_count() == old(self).departure_count(),
    {
        self.routes.insert(route_id, Route { route_id, route_short_name, route_type, route_color });
    }

    /// Adds a trip of a route that has been added, in place of a trip with that id and no stops
    /// yet; its stops come with `add_trip_stop`.
    pub fn add_trip(&mut self, trip_id: TripId, route_id: RouteId, service_id: ServiceId)
        requires
            old(self).wf(),
            old(self).route_map().contains_key(route_id),
            old(self).data().trip_map().contains_key(trip_id) ==> old(self).data().trip_map()[trip_id].stop_times@.len()
                == 0,
        ensures
            final(self).wf(),
            final(self).data().trip_map().dom() == old(self).data().trip_map().dom().insert(trip_id),
            forall|k: TripId| k != trip_id && old(self).data().trip_map().contains_key(k)
                ==> final(self).data().trip_map()[k] == old(self).data().trip_map()[k],
            final(self).data().trip_map()[trip_id].route == old(self).route_map()[route_id],
            final(self).data().trip_map()[trip_id].service_id == service_id,
            final(self).data().trip_map()[trip_id].trip_id == trip_id,
            final(self).data().trip_map()[trip_id].stop_times@.len() == 0,
            final(self).data().stop_map() == old(self).data().stop_map(),
            final(self).children_map() == old(self).children_map(),
            final(self).route_map() == old(self).route_map(),
            final(self).departure_count() == old(self).departure_count(),
            final(self).data().day_services() == old(self).data().day_services(),
            final(self).data().start_date() == old(self).data().start_date(),
    {
        let route = self.routes.get(&route_id).unwrap().clone();
        self.data.trips.insert(trip_id, Trip { trip_id, route, service_id, stop_times: Vec::new() });
        proof {
            let od = old(self).data;
            assert forall|id: StopId| #[trigger] self.data.stop_map().contains_key(id) implies stop_refs_present(
                self.data.stop_map()[id],
                self.data.trip_map(),
            ) && stop_refs_valid(self.data.stop_map()[id], self.data.trip_map()) && stop_times_match(
                self.data.stop_map()[id],
                self.data.trip_map(),
            ) by {
                let s = od.stop_map()[id];
                assert(stop_refs_present(s, od.trip_map()));
                assert(stop_times_match(s, od.trip_map()));
                if let StopStereoType::StopOrPlatform { departures, .. } = s.stereotype {
                    let d = departures@;
                    let g = ref_present(self.data.trip_map());
                    let f = ref_departure(self.data.trip_map());
                    assert forall|i: int, j: int| 0 <= i < d.len() && 0 <= j < d[i].1.len() && g(#[trigger] d[i].1[j])
                        implies f(d[i].1[j]) == d[i].0 by {
                        let r = d[i].1[j];
                        assert(ref_present(od.trip_map())(r));
                    }
                    assert forall|i: int, j: int| 0 <= i < d.len() && 0 <= j < d[i].1.len() implies
                        (self.data.trip_map().contains_key((#[trigger] d[i].1[j]).0) && d[i].1[j].1
                        < self.data.trip_map()[d[i].1[j].0].stop_times@.len()) by {
                        let r = d[i].1[j];
                        assert(od.trip_map().contains_key(r.0) && r.1 < od.trip_map()[r.0].stop_times@.len());
                    }
                }
            }
            assert(self.data.trip_map().dom() =~= od.trip_map().dom().insert(trip_id));
        }
    }

    /// Adds the next stop of the trip `trip_id`, at the stop or platform `stop_id`, and files
    /// the departure under that stop.
    pub fn add_trip_stop(&mut self, trip_id: TripId, arrival_time: Time, departure_time: Time, stop_id: StopId)
        requires
            old(self).wf(),
            old(self).data().trip_map().contains_key(trip_id),
            old(self).data().stop_map().contains_key(stop_id),
            old(self).data().stop_map()[stop_id].stereotype is StopOrPlatform,
            old(self).departure_count() < u64::MAX,
        ensures
            final(self).wf(),
            final(self).data().trip_map().dom() == old(self).data().trip_map().dom(),
            forall|k: TripId| k != trip_id && old(self).data().trip_map().contains_key(k)
                ==> final(self).data().trip_map()[k] == old(self).data().trip_map()[k],
            final(self).data().trip_map()[trip_id].route == old(self).data().trip_map()[trip_id].route,
            final(self).data().trip_map()[trip_id].service_id == old(self).data().trip_map()[trip_id].service_id,
            final(self).data().trip_map()[trip_id].trip_id == trip_id,
            final(self).data().trip_map()[trip_id].stop_times@ == old(self).data().trip_map()[trip_id].stop_times@.push(
                StopTime { arrival_time, departure_time, stop_id },
            ),
            final(self).data().stop_map().dom() == old(self).data().stop_map().dom(),
            forall|k: StopId| k != stop_id && old(self).data().stop_map().contains_key(k)
                ==> final(self).data().stop_map()[k] == old(self).data().stop_map()[k],
            added_departure(
                final(self).data().stop_map()[stop_id],
                old(self).data().stop_map()[stop_id],
                departure_time@,
                (trip_id, old(self).data().trip_map()[trip_id].stop_times@.len() as usize),
            ),
            final(self).departure_count() == old(self).departure_count() + 1,
            final(self).data().day_services() == old(self).data().day_services(),
            final(self).data().start_date() == old(self).data().start_date(),
            final(self).children_map() == old(self).children_map(),
            final(self).route_map() == old(self).route_map(),
    {
        let ghost od = old(self).data;
        let mut trip = self.data.trips.remove(&trip_id).unwrap();
        let idx = trip.stop_times.len();
        trip.stop_times.push(StopTime { arrival_time, departure_time, stop_id });
        self.data.trips.insert(trip_id, trip);
        let stop = self.data.stops.remove(&stop_id).unwrap();
        let Stop { stop_id: id, full_stop_name, short_stop_name, location, stereotype, transfers } = stop;
        let stereotype = match stereotype {
            StopStereoType::StopOrPlatform { station, mut departures } => {
                departures.insert(departure_time, (trip_id, idx));
                StopStereoType::StopOrPlatform { station, departures }
            },
            other => other,
        };
        self.data.stops.insert(stop_id, Stop { stop_id: id, full_stop_name, short_stop_name, location, stereotype, transfers });
        self.departure_count = self.departure_count + 1;
        proof {
            let nd = self.data;
            let r = (trip_id, idx);
            assert(nd.trip_map() =~= od.trip_map().insert(trip_id, nd.trip_map()[trip_id]));
            assert(nd.stop_map() =~= od.stop_map().insert(stop_id, nd.stop_map()[stop_id]));
            assert(nd.trip_map().dom() =~= od.trip_map().dom());
            assert(nd.stop_map().dom() =~= od.stop_map().dom());
            let present = |q: TripStopRef| nd.trip_map().contains_key(q.0) && q.1 < nd.trip_map()[q.0].stop_times@.len();
            let valid = |q: TripStopRef| nd.trip_map().contains_key(q.0) ==> q.1 < nd.trip_map()[q.0].stop_times@.len();
            assert forall|sid: StopId| #[trigger] nd.stop_map().contains_key(sid) implies stop_refs_present(
                nd.stop_map()[sid],
                nd.trip_map(),
            ) && stop_refs_valid(nd.stop_map()[sid], nd.trip_map()) && nd.stop_map()[sid].stop_id == sid
                && stop_times_match(nd.stop_map()[sid], nd.trip_map()) by {
                let os = od.stop_map()[sid];
                assert(stop_refs_present(os, od.trip_map()));
                if let StopStereoType::StopOrPlatform { departures, .. } = os.stereotype {
                    let d = departures@;
                    assert forall|i: int, j: int| 0 <= i < d.len() && 0 <= j < d[i].1.len() implies present(
                        #[trigger] d[i].1[j],
                    ) by {
                        let q = d[i].1[j];
                        assert(od.trip_map().contains_key(q.0) && q.1 < od.trip_map()[q.0].stop_times@.len());
                    }
                    assert(all_refs(d, present));
                    assert(stop_times_match(os, od.trip_map()));
                    let g = ref_present(nd.trip_map());
                    let f = ref_departure(nd.trip_map());
                    assert forall|i: int, j: int| 0 <= i < d.len() && 0 <= j < d[i].1.len() && g(#[trigger] d[i].1[j])
                        implies f(d[i].1[j]) == d[i].0 by {
                        let q = d[i].1[j];
                        assert(ref_present(od.trip_map())(q));
                        if q.0 == trip_id {
                            assert(nd.trip_map()[trip_id].stop_times@[q.1 as int] == od.trip_map()[trip_id].stop_times@[q.1 as int]);
                        }
                    }
                    if sid == stop_id {
                        lemma_all_refs_insert(d, departure_time@, r, present);
                        lemma_all_refs_timed_insert(d, departure_time@, r, g, f);
                    }
                }
            }
        }
    }

    /// The data, with each station listing the stops recorded as its children.
    pub fn build(self) -> (d: GTFSData)
        requires
            self.wf(),
            forall|k: StopId| #[trigger] self.children_map().contains_key(k) ==> self.data().stop_map().contains_key(k)
                && self.data().stop_map()[k].stereotype is Station,
        ensures
            d.wf(),
            d.trip_map() == self.data().trip_map(),
            d.day_services() == self.data().day_services(),
            d.start_date() == self.data().start_date(),
            d.stop_map().dom() == self.data().stop_map().dom(),
            forall|k: StopId| #[trigger] d.stop_map().contains_key(k) ==> with_children(
                d.stop_map()[k],
                self.data().stop_map()[k],
                self.children_map(),
            ),
    {
        let ghost children = self.children_map();
        let ghost od = self.data;
        let Builder { mut data, mut stop_children, stations_with_children, routes: _, departure_count: _ } = self;
        let mut i: usize = 0;
        proof {
            assert forall|j: int| 0 <= j < stations_with_children@.len() implies stop_children@.contains_key(
                #[trigger] stations_with_children@[j],
            ) && stop_children@[stations_with_children@[j]]@ == children[stations_with_children@[j]] by {
                assert(stations_with_children@.contains(stations_with_children@[j]));
            }
        }
        while i < stations_with_children.len()
            invariant
                i <= stations_with_children@.len(),
                stations_with_children@.no_duplicates(),
                forall|k: StopId| children.contains_key(k) <==> stations_with_children@.contains(k),
                forall|k: StopId| #[trigger] children.contains_key(k) ==> od.stop_map().contains_key(k)
                    && od.stop_map()[k].stereotype is Station,
                forall|j: int| i <= j < stations_with_children@.len() ==> stop_children@.contains_key(
                    #[trigger] stations_with_children@[j],
                ) && stop_children@[stations_with_children@[j]]@ == children[stations_with_children@[j]],
                od.wf(),
                data.trip_map() == od.trip_map(),
                data.day_services() == od.day_services(),
                data.start_date() == od.start_date(),
                data.stop_map().dom() == od.stop_map().dom(),
                forall|k: StopId| #[trigger] data.stop_map().contains_key(k) ==> if stations_with_children@.take(
                    i as int,
                ).contains(k) {
                    with_children(data.stop_map()[k], od.stop_map()[k], children)
                } else {
                    data.stop_map()[k] == od.stop_map()[k]
                },
            decreases stations_with_children@.len() - i,
        {
            let station_id = stations_with_children[i];
            proof {
                assert(stations_with_children@.contains(station_id));
                assert(stop_children@.contains_key(stations_with_children@[i as int]));
            }
            let kids = stop_children.remove(&station_id).unwrap();
            let station = data.stops.remove(&station_id).unwrap();
            let Stop { stop_id, full_stop_name, short_stop_name, location, stereotype, transfers } = station;
            let stereotype = match stereotype {
                StopStereoType::Station { stops_or_platforms: _ } => StopStereoType::Station { stops_or_platforms: kids },
                other => other,
            };
            data.stops.insert(
                station_id,
                Stop { stop_id, full_stop_name, short_stop_name, location, stereotype, transfers },
            );
            proof {
                let swc = stations_with_children@;
                assert(swc.take(i + 1) =~= swc.take(i as int).push(station_id));
                assert(!swc.take(i as int).contains(station_id)) by {
                    if swc.take(i as int).contains(station_id) {
                        let j = choose|j: int| 0 <= j < i && swc.take(i as int)[j] == station_id;
                        assert(swc[j] == swc[i as int]);
                    }
                }
                assert forall|j: int| i + 1 <= j < swc.len() implies stop_children@.contains_key(#[trigger] swc[j])
                    && stop_children@[swc[j]]@ == children[swc[j]] by {
                    assert(swc[j] != swc[i as int]);
                }
                assert(data.stop_map().dom() =~= od.stop_map().dom());
                assert forall|k: StopId| #[trigger] data.stop_map().contains_key(k) implies if swc.take(i + 1).contains(k) {
                    with_children(data.stop_map()[k], od.stop_map()[k], children)
                } else {
                    data.stop_map()[k] == od.stop_map()[k]
                } by {
                    if k == station_id {
                        assert(swc.take(i + 1).contains(k)) by {
                            assert(swc.take(i + 1)[i as int] == k);
                        }
                        assert(children.contains_key(k));
                    } else {
                        assert(swc.take(i + 1).contains(k) == swc.take(i as int).contains(k)) by {
                            let t1 = swc.take(i + 1);
                            if t1.contains(k) {
                                let j = choose|j: int| 0 <= j < t1.len() && #[trigger] t1[j] == k;
                                assert(swc.take(i as int)[j] == k);
                            }
                            let t0 = swc.take(i as int);
                            if t0.contains(k) {
                                let j = choose|j: int| 0 <= j < t0.len() && #[trigger] t0[j] == k;
                                assert(swc.take(i + 1)[j] == k);
                            }
                        }
                    }
                }
            }
            i = i + 1;
        }
        proof {
            assert(stations_with_children@.take(i as int) =~= stations_with_children@);
            assert forall|k: StopId| #[trigger] data.stop_map().contains_key(k) implies with_children(
                data.stop_map()[k],
                od.stop_map()[k],
                children,
            ) && stop_refs_valid(data.stop_map()[k], data.trip_map()) && data.stop_map()[k].stop_id == k by {
                assert(od.stop_map().contains_key(k));
                if !stations_with_children@.contains(k) {
                    assert(!children.contains_key(k));
                }
            }
        }
        data
    }
}

/// `new` is `old`, or, when `children` holds the stop's id, `old` as a station listing those
/// children.
pub open spec fn with_children(new: Stop, old: Stop, children: Map<StopId, Seq<StopId>>) -> bool {
    if children.contains_key(old.stop_id) {
        &&& same_except_transfers_and_departures(new, old)
        &&& new.transfers@ == old.transfers@
        &&& new.stereotype matches StopStereoType::Station { stops_or_platforms }
        &&& stops_or_platforms@ == children[old.stop_id]
    } else {
        new == old
    }
}

/// `new` is `old` with the departure `r` added at time `t`.
pub open spec fn added_departure(new: Stop, old: Stop, t: nat, r: TripStopRef) -> bool {
    &&& same_except_transfers_and_departures(new, old)
    &&& new.transfers@ == old.transfers@
    &&& match (new.stereotype, old.stereotype) {
        (
            StopStereoType::StopOrPlatform { station: s1, departures: d1 },
            StopStereoType::StopOrPlatform { station: s2, departures: d2 },
        ) => s1 == s2 && d1@ == insert_departure(d2@, t, r),
        _ => false,
    }
}

/// The two stops have the same id, names and location.
pub open spec fn same_except_transfers_and_departures(a: Stop, b: Stop) -> bool {
    &&& a.stop_id == b.stop_id
    &&& a.full_stop_name == b.full_stop_name
    &&& a.short_stop_name == b.short_stop_name
    &&& a.location == b.location
}

/// Copies the stops and trips that searches need from existing data.
pub struct FilterBuilder<'r> {
    existing_data: &'r GTFSData,
    new_data: GTFSData,
}

impl<'r> FilterBuilder<'r> {
    /// The data copied from.
    pub closed spec fn existing(&self) -> &'r GTFSData {
        self.existing_data
    }

    /// The data kept so far.
    pub closed spec fn new_data(&self) -> GTFSData {
        self.new_data
    }

    /// The existing data is consistent, each kept trip is a copy of an existing one, and each
    /// kept stop refers only to stops of existing trips.
    pub open spec fn wf(&self) -> bool {
        &&& self.existing().wf()
        &&& self.new_data().wf()
        &&& forall|t: TripId| #[trigger] self.new_data().trip_map().contains_key(t) ==> self.existing().trip_map().contains_key(t)
            && self.new_data().trip_map()[t].same_as(&self.existing().trip_map()[t])
        &&& forall|s: StopId| #[trigger] self.new_data().stop_map().contains_key(s) ==> stop_refs_valid(
            self.new_data().stop_map()[s],
            self.existing().trip_map(),
        ) && stop_times_match(self.new_data().stop_map()[s], self.existing().trip_map())
    }

    /// Keeps a copy of `stop`, unless a stop with its id is kept already.
    pub fn keep_stop(&mut self, stop: &Stop)
        requires
            old(self).wf(),
            stop_refs_valid(*stop, old(self).existing().trip_map()),
            stop_times_match(*stop, old(self).existing().trip_map()),
        ensures
            final(self).wf(),
            final(self).existing() == old(self).existing(),
            final(self).new_data().trip_map() == old(self).new_data().trip_map(),
            final(self).new_data().day_services() == old(self).new_data().day_services(),
            final(self).new_data().start_date() == old(self).new_data().start_date(),
            final(self).new_data().stop_map().dom() == old(self).new_data().stop_map().dom().insert(stop.stop_id),
            forall|k: StopId| #[trigger] old(self).new_data().stop_map().contains_key(k)
                ==> final(self).new_data().stop_map()[k] == old(self).new_data().stop_map()[k],
            !old(self).new_data().stop_map().contains_key(stop.stop_id)
                ==> final(self).new_data().stop_map()[stop.stop_id].same_as(stop),
    {
        if !self.new_data.stops.contains_key(&stop.stop_id) {
            let copy = stop.clone();
            self.new_data.stops.insert(stop.stop_id, copy);
            proof {
                lemma_refs_valid_same(copy, *stop, self.existing_data.trip_map());
                lemma_refs_valid_subset(copy, self.existing_data.trip_map(), self.new_data.trip_map());
                lemma_times_match_subset(copy, self.existing_data.trip_map(), self.new_data.trip_map());
                let nd = self.new_data;
                let od = old(self).new_data;
                assert forall|id: StopId| #[trigger] nd.stop_map().contains_key(id) implies stop_refs_valid(
                    nd.stop_map()[id],
                    nd.trip_map(),
                ) && stop_refs_valid(nd.stop_map()[id], self.existing_data.trip_map()) && nd.stop_map()[id].stop_id == id
                    && stop_times_match(nd.stop_map()[id], nd.trip_map()) && stop_times_match(
                    nd.stop_map()[id],
                    self.existing_data.trip_map(),
                ) by {
                    if id != stop.stop_id {
                        assert(od.stop_map().contains_key(id));
                    }
                }
            }
        }
        assert(self.new_data.stop_map().dom() =~= old(self).new_data.stop_map().dom().insert(stop.stop_id));
    }

    /// Keeps a copy of the trip `trip_id`, which must be in the existing data.
    pub fn keep_trip(&mut self, trip_id: TripId)
        requires
            old(self).wf(),
            old(self).existing().trip_map().contains_key(trip_id),
        ensures
            final(self).wf(),
            final(self).existing() == old(self).existing(),
            final(self).new_data().stop_map() == old(self).new_data().stop_map(),
            final(self).new_data().day_services() == old(self).new_data().day_services(),
            final(self).new_data().start_date() == old(self).new_data().start_date(),
            final(self).new_data().trip_map().dom() == old(self).new_data().trip_map().dom().insert(trip_id),
            forall|k: TripId| #[trigger] old(self).new_data().trip_map().contains_key(k)
                ==> final(self).new_data().trip_map()[k] == old(self).new_data().trip_map()[k],
            final(self).new_data().trip_map()[trip_id].same_as(&old(self).existing().trip_map()[trip_id]),
    {
        if !self.new_data.trips.contains_key(&trip_id) {
            let trip = self.existing_data.trips.get(&trip_id).unwrap().clone();
            self.new_data.trips.insert(trip_id, trip);
            proof {
                let nd = self.new_data;
                let od = old(self).new_data;
                assert forall|id: StopId| #[trigger] nd.stop_map().contains_key(id) implies stop_refs_valid(
                    nd.stop_map()[id],
                    nd.trip_map(),
                ) && stop_times_match(nd.stop_map()[id], nd.trip_map()) by {
                    assert(od.stop_map().contains_key(id));
                    lemma_refs_valid_subset(nd.stop_map()[id], self.existing_data.trip_map(), nd.trip_map());
                    lemma_times_match_subset(nd.stop_map()[id], self.existing_data.trip_map(), nd.trip_map());
                }
                assert forall|id: TripId| #[trigger] nd.trip_map().contains_key(id) implies nd.trip_map()[id].trip_id == id by {
                    if id != trip_id {
                        assert(od.trip_map().contains_key(id));
                    }
                }
            }
        }
        assert(self.new_data.trip_map().dom() =~= old(self).new_data.trip_map().dom().insert(trip_id));
    }

    /// The data kept.
    pub fn build(self) -> (d: GTFSData)
        requires
            self.wf(),
        ensures
            d == self.new_data(),
            d.wf(),
    {
        self.new_data
    }
}

/// Copies keep the departures valid.
proof fn lemma_refs_valid_same(a: Stop, b: Stop, trips: Map<TripId, Trip>)
    requires
        a.same_as(&b),
        stop_refs_valid(b, trips),
    ensures
        stop_refs_valid(a, trips),
{
}

/// Departure times that match some trips match a subset of them with the same stops.
proof fn lemma_times_match_subset(s: Stop, trips: Map<TripId, Trip>, sub: Map<TripId, Trip>)
    requires
        stop_times_match(s, trips),
        forall|t: TripId| #[trigger] sub.contains_key(t) ==> trips.contains_key(t) && sub[t].stop_times@ == trips[t].stop_times@,
    ensures
        stop_times_match(s, sub),
{
    if let StopStereoType::StopOrPlatform { departures, .. } = s.stereotype {
        let d = departures@;
        let g = ref_present(sub);
        let f = ref_departure(sub);
        assert forall|i: int, j: int| 0 <= i < d.len() && 0 <= j < d[i].1.len() && g(#[trigger] d[i].1[j]) implies f(
            d[i].1[j],
        ) == d[i].0 by {
            let r = d[i].1[j];
            assert(ref_present(trips)(r));
        }
    }
}

/// Departures valid against some trips stay valid against a subset of them with the same stops.
proof fn lemma_refs_valid_subset(s: Stop, trips: Map<TripId, Trip>, sub: Map<TripId, Trip>)
    requires
        stop_refs_valid(s, trips),
        forall|t: TripId| #[trigger] sub.contains_key(t) ==> trips.contains_key(t) && sub[t].stop_times@ == trips[t].stop_times@,
    ensures
        stop_refs_valid(s, sub),
{
    if let StopStereoType::StopOrPlatform { departures, .. } = s.stereotype {
        let d = departures@;
        assert forall|i: int, j: int| 0 <= i < d.len() && 0 <= j < d[i].1.len() && sub.contains_key((#[trigger] d[i].1[j]).0)
            implies d[i].1[j].1 < sub[d[i].1[j].0].stop_times@.len() by {
            let r = d[i].1[j];
            assert(trips.contains_key(r.0) ==> r.1 < trips[r.0].stop_times@.len());
        }
    }
}

} // verus!
