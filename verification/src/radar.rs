//! The trips and stations that a radar drawing shows, gathered from the items of a search in
//! the order they come: stations as they are first reached, and for each trip the connections
//! into it, each followed by the segments ridden after it.
use std::collections::HashMap;
use vstd::prelude::*;
use vstd::std_specs::iter::IteratorSpec;
use vstd::string::*;
use vstd::utf8::encode_utf8;

use chrono::{Datelike, Timelike};

use crate::journey_graph::{Item, Plotter, fresh_search, handed_out, is_data_stop, searchable, station_item_id};
use crate::search_data::{Day, GTFSData, RouteType, Stop, StopId, TripId};
use crate::time::{Duration, Period, Time};

verus! {

broadcast use {vstd::std_specs::hash::group_hash_axioms, crate::time::lemma_time_fits};

/// A ride from one stop to another.
#[derive(Debug, Clone, Copy)]
pub struct TripSegment<'s> {
    pub from: &'s Stop,
    pub to: &'s Stop,
    pub departure_time: Time,
    pub arrival_time: Time,
}

/// A trip as drawn: each part is a connection into the trip and the segments that follow it.
#[derive(Debug)]
pub struct RadarTrip<'s> {
    pub trip_id: TripId,
    pub route_name: String,
    pub route_type: RouteType,
    pub parts: Vec<(TripSegment<'s>, Vec<TripSegment<'s>>)>,
}

/// A station as drawn: where it is reached first, and how many characters of its name to
/// leave out as shared with the station it was reached from.
#[derive(Debug, Clone, Copy)]
pub struct StationMark<'s> {
    pub stop: &'s Stop,
    pub earliest_arrival: Time,
    pub name_trunk_length: usize,
}

/// `c` is white space, as `char::is_whitespace` says (Unicode's `White_Space`).
pub open spec fn is_white_space(c: char) -> bool {
    let n = c as u32;
    (0x9 <= n <= 0xd) || n == 0x20 || n == 0x85 || n == 0xa0 || n == 0x1680 || (0x2000 <= n <= 0x200a) || n
        == 0x2028 || n == 0x2029 || n == 0x202f || n == 0x205f || n == 0x3000
}

/// Whether `c` is white space.
pub(crate) fn white_space(c: char) -> (b: bool)
    ensures
        b == is_white_space(c),
{
    let n = c as u32;
    (0x9 <= n && n <= 0xd) || n == 0x20 || n == 0x85 || n == 0xa0 || n == 0x1680 || (0x2000 <= n && n <= 0x200a)
        || n == 0x2028 || n == 0x2029 || n == 0x202f || n == 0x205f || n == 0x3000
}

/// One past the position of the last white space character among the first `limit`
/// characters of `chars`, or 0 if there is none.
pub open spec fn last_space_before(chars: Seq<char>, limit: nat) -> nat
    decreases chars.len(),
{
    if chars.len() == 0 {
        0
    } else if is_white_space(chars.last()) && chars.len() - 1 < limit {
        chars.len() as nat
    } else {
        last_space_before(chars.drop_last(), limit)
    }
}

/// How many characters of a station's name to leave out, given the length of the start it
/// shares with the station it was reached from: up to the last space in that start when it
/// is longer than 10, else none.
pub open spec fn trunk_division(name: Seq<char>, name_trunk_length: nat) -> nat {
    if name_trunk_length > 10 {
        last_space_before(name, name_trunk_length)
    } else {
        0
    }
}

/// The radar gathered so far.
pub struct RadarPlan<'s> {
    start_time: Time,
    end_time: Time,
    expires_time: Time,
    trips: HashMap<TripId, RadarTrip<'s>>,
    stations: HashMap<StopId, StationMark<'s>>,
}

impl<'s> RadarPlan<'s> {
    /// The trips gathered, by id.
    pub closed spec fn trip_map(&self) -> Map<TripId, RadarTrip<'s>> {
        self.trips@
    }

    /// The stations gathered, by id.
    pub closed spec fn station_map(&self) -> Map<StopId, StationMark<'s>> {
        self.stations@
    }

    /// The earliest departure of a segment gathered, or the end of the search.
    pub closed spec fn expires(&self) -> Time {
        self.expires_time
    }

    /// The start of the search.
    pub closed spec fn start(&self) -> Time {
        self.start_time
    }

    /// The end of the search.
    pub closed spec fn end(&self) -> Time {
        self.end_time
    }

    /// Every trip gathered has at least one part and is filed under its id; the times fit.
    pub closed spec fn wf(&self) -> bool {
        &&& forall|t: TripId| #[trigger] self.trips@.contains_key(t) ==> self.trips@[t].parts@.len() > 0
            && self.trips@[t].trip_id == t
        &&& self.start_time@ < self.end_time@ <= u32::MAX
        &&& self.expires_time@ <= self.end_time@
    }

    /// Stations arriving later than this are past what the radar shows.
    pub open spec fn station_limit(&self) -> int {
        self.end()@ + self.expires()@ - self.start()@
    }

    /// A search from `start_time` to `end_time`, with nothing gathered yet.
    pub fn new(start_time: Time, end_time: Time) -> (p: RadarPlan<'s>)
        requires
            start_time@ < end_time@ <= u32::MAX,
        ensures
            p.wf(),
            p.start() == start_time,
            p.end() == end_time,
            p.expires() == end_time,
            p.trip_map() == Map::<TripId, RadarTrip<'s>>::empty(),
            p.station_map() == Map::<StopId, StationMark<'s>>::empty(),
    {
        RadarPlan {
            start_time,
            end_time,
            expires_time: end_time,
            trips: HashMap::new(),
            stations: HashMap::new(),
        }
    }

    /// The item can be gathered: a station to show is new and reached within the day; a segment
    /// belongs to a trip connected to already and starts where the last segment of that trip
    /// ended, in place or in time.
    pub open spec fn acceptable(&self, item: Item<'s>) -> bool {
        match item {
            Item::Station { stop, earliest_arrival, name_trunk_length } => {
                (earliest_arrival@ > self.station_limit() || name_trunk_length == encode_utf8(
                    stop.short_stop_name@,
                ).len() as usize) || (!self.station_map().contains_key(stop.spec_station_id()) && earliest_arrival@ < 86400)
            },
            Item::SegmentOfTrip { trip_id, from_stop, departure_time, .. } => {
                &&& self.trip_map().contains_key(trip_id)
                &&& self.trip_map()[trip_id].parts@.last().1@.len() > 0 ==> {
                    let pre = self.trip_map()[trip_id].parts@.last().1@.last();
                    pre.to.stop_id == from_stop.stop_id || pre.arrival_time@ == departure_time@
                }
            },
            _ => true,
        }
    }

    /// Whether the item can be gathered.
    pub fn accepts(&self, item: &Item<'s>) -> (b: bool)
        requires
            self.wf(),
        ensures
            b == self.acceptable(*item),
    {
        match item {
            Item::Station { stop, earliest_arrival, name_trunk_length } => {
                if self.past_limit(*earliest_arrival) || *name_trunk_length == stop.short_stop_name.as_str().len() {
                    true
                } else {
                    let station_id = stop.station_id();
                    let present = self.stations.contains_key(&station_id);
                    assert(present == self.station_map().contains_key(stop.spec_station_id()));
                    !present && earliest_arrival.seconds_since_midnight() < 86400
                }
            },
            Item::SegmentOfTrip { trip_id, from_stop, departure_time, .. } => {
                match self.trips.get(trip_id) {
                    None => false,
                    Some(trip) => {
                        let part = &trip.parts[trip.parts.len() - 1];
                        if part.1.len() > 0 {
                            let pre = &part.1[part.1.len() - 1];
                            pre.to.stop_id == from_stop.stop_id
                                || pre.arrival_time.seconds_since_midnight() == departure_time.seconds_since_midnight()
                        } else {
                            true
                        }
                    },
                }
            },
            _ => true,
        }
    }

    /// Whether a station reached at `arrival` is past what the radar shows.
    fn past_limit(&self, arrival: Time) -> (b: bool)
        requires
            self.wf(),
        ensures
            b == (arrival@ > self.station_limit()),
    {
        let limit: i64 = self.end_time.seconds_since_midnight() as i64 + self.expires_time.seconds_since_midnight() as i64
            - self.start_time.seconds_since_midnight() as i64;
        arrival.seconds_since_midnight() as i64 > limit
    }

    /// One past the last white space among the first `limit` characters of `name`, or 0.
    fn last_space(name: &str, limit: usize) -> (n: usize)
        ensures
            n == last_space_before(name@, limit as nat),
    {
        let mut n: usize = 0;
        let mut i: usize = 0;
        let ghost chars = name@;
        for c in it: name.chars()
            invariant
                it.seq() == chars,
                chars == name@,
                i == (if it.index() < limit { it.index() } else { limit as int }),
                n == last_space_before(chars.take(it.index()), limit as nat),
            ensures
                n == last_space_before(chars.take(chars.len() as int), limit as nat),
        {
            proof {
                vstd::string::axiom_spec_iter(name);
                let k = it.index();
                assert(chars.take(k + 1).drop_last() =~= chars.take(k));
                assert(chars.take(k + 1).last() == c);
            }
            if i < limit {
                if white_space(c) {
                    n = i + 1;
                }
                i = i + 1;
            }
        }
        proof {
            assert(chars.take(chars.len() as int) =~= chars);
        }
        n
    }

    /// Whether the radar goes on after the item: not once a station is reached later than the
    /// radar shows.
    pub open spec fn keeps_going(&self, item: Item<'s>) -> bool {
        match item {
            Item::Station { earliest_arrival, .. } => earliest_arrival@ <= self.station_limit(),
            _ => true,
        }
    }

    /// What gathering the item does to the radar: from this one to `after`.
    pub open spec fn takes(&self, after: RadarPlan<'s>, item: Item<'s>) -> bool {
        match item {
            Item::Station { stop, earliest_arrival, name_trunk_length } => if earliest_arrival@ > self.station_limit() {
                &&& after.station_map() == self.station_map()
                &&& after.trip_map() == self.trip_map()
                &&& after.expires() == self.expires()
            } else {
                &&& after.trip_map() == self.trip_map()
                &&& after.expires() == self.expires()
                &&& after.station_map() == if name_trunk_length == encode_utf8(stop.short_stop_name@).len() as usize {
                    self.station_map()
                } else {
                    self.station_map().insert(
                        stop.spec_station_id(),
                        StationMark {
                            stop,
                            earliest_arrival,
                            name_trunk_length: trunk_division(stop.short_stop_name@, name_trunk_length as nat) as usize,
                        },
                    )
                }
            },
            Item::Transfer { .. } => {
                &&& after.station_map() == self.station_map()
                &&& after.trip_map() == self.trip_map()
                &&& after.expires() == self.expires()
            },
            Item::SegmentOfTrip { departure_time, arrival_time, from_stop, to_stop, trip_id, .. } => {
                let old_trip = self.trip_map()[trip_id];
                let new_trip = after.trip_map()[trip_id];
                let last = old_trip.parts@.len() - 1;
                &&& after.station_map() == self.station_map()
                &&& after.expires()@ == if departure_time@ < self.expires()@ {
                    departure_time@
                } else {
                    self.expires()@
                }
                &&& after.trip_map().dom() == self.trip_map().dom()
                &&& forall|t: TripId| #[trigger] self.trip_map().contains_key(t) && t != trip_id ==> after.trip_map()[t] == self.trip_map()[t]
                &&& new_trip.trip_id == old_trip.trip_id
                &&& new_trip.route_name@ == old_trip.route_name@
                &&& new_trip.route_type == old_trip.route_type
                &&& new_trip.parts@.len() == old_trip.parts@.len()
                &&& new_trip.parts@.take(last) == old_trip.parts@.take(last)
                &&& new_trip.parts@[last].0 == old_trip.parts@[last].0
                &&& new_trip.parts@[last].1@ == old_trip.parts@[last].1@.push(
                    TripSegment { from: from_stop, to: to_stop, departure_time, arrival_time },
                )
            },
            Item::ConnectionToTrip {
                departure_time,
                arrival_time,
                from_stop,
                to_stop,
                route_name,
                route_type,
                trip_id,
                ..
            } => {
                let adjusted = if self.station_map().contains_key(from_stop.spec_station_id()) {
                    self.station_map()[from_stop.spec_station_id()].earliest_arrival
                } else {
                    departure_time
                };
                let connection = TripSegment { from: from_stop, to: to_stop, departure_time: adjusted, arrival_time };
                let new_trip = after.trip_map()[trip_id];
                &&& after.station_map() == self.station_map()
                &&& after.expires() == self.expires()
                &&& after.trip_map().dom() == self.trip_map().dom().insert(trip_id)
                &&& forall|t: TripId| #[trigger] self.trip_map().contains_key(t) && t != trip_id ==> after.trip_map()[t] == self.trip_map()[t]
                &&& new_trip.trip_id == trip_id
                &&& self.trip_map().contains_key(trip_id) ==> {
                    &&& new_trip.route_name@ == self.trip_map()[trip_id].route_name@
                    &&& new_trip.route_type == self.trip_map()[trip_id].route_type
                    &&& new_trip.parts@.drop_last() == self.trip_map()[trip_id].parts@
                }
                &&& !self.trip_map().contains_key(trip_id) ==> {
                    &&& new_trip.route_name@ == route_name@
                    &&& new_trip.route_type == route_type
                    &&& new_trip.parts@.len() == 1
                }
                &&& new_trip.parts@.last().0 == connection
                &&& new_trip.parts@.last().1@.len() == 0
            },
        }
    }

    /// Gathers an item of the search; says whether to go on, which is not so once a station
    /// is reached later than the radar shows.
    pub fn add_item(&mut self, item: Item<'s>) -> (go_on: bool)
        requires
            old(self).wf(),
            old(self).acceptable(item),
        ensures
            final(self).wf(),
            final(self).start() == old(self).start(),
            final(self).end() == old(self).end(),
            go_on == old(self).keeps_going(item),
            old(self).takes(*final(self), item),
    {
        match item {
            Item::Station { stop, earliest_arrival, name_trunk_length } => {
                if self.past_limit(earliest_arrival) {
                    return false;
                }
                let name = stop.short_stop_name.as_str();
                if name_trunk_length == name.len() {
                    return true;
                }
                let trunk = if name_trunk_length > 10 {
                    Self::last_space(name, name_trunk_length)
                } else {
                    0
                };
                self.stations.insert(
                    stop.station_id(),
                    StationMark { stop, earliest_arrival, name_trunk_length: trunk },
                );
                true
            },
            Item::Transfer { .. } => true,
            Item::SegmentOfTrip { departure_time, arrival_time, from_stop, to_stop, trip_id, .. } => {
                if departure_time.is_before(self.expires_time) {
                    self.expires_time = departure_time;
                }
                let trip = self.trips.remove(&trip_id).unwrap();
                let ghost old_trip = trip;
                let RadarTrip { trip_id: id, route_name, route_type, mut parts } = trip;
                let last = parts.len() - 1;
                let mut part = parts.remove(last);
                part.1.push(TripSegment { from: from_stop, to: to_stop, departure_time, arrival_time });
                parts.insert(last, part);
                let trip = RadarTrip { trip_id: id, route_name, route_type, parts };
                proof {
                    assert(trip.parts@.take(last as int) =~= old_trip.parts@.take(last as int));
                }
                self.trips.insert(trip_id, trip);
                proof {
                    assert(self.trips@.dom() =~= old(self).trips@.dom());
                }
                true
            },
            Item::ConnectionToTrip {
                departure_time,
                arrival_time,
                from_stop,
                to_stop,
                route_name,
                route_type,
                trip_id,
                ..
            } => {
                let adjusted_departure_time = match self.stations.get(&from_stop.station_id()) {
                    Some(station) => station.earliest_arrival,
                    None => departure_time,
                };
                let mut trip = match self.trips.remove(&trip_id) {
                    Some(t) => t,
                    None => RadarTrip {
                        trip_id,
                        route_name: route_name.to_owned(),
                        route_type,
                        parts: Vec::new(),
                    },
                };
                let ghost before = trip;
                trip.parts.push(
                    (TripSegment { from: from_stop, to: to_stop, departure_time: adjusted_departure_time, arrival_time }, Vec::new()),
                );
                proof {
                    assert(trip.parts@.drop_last() =~= before.parts@);
                }
                self.trips.insert(trip_id, trip);
                proof {
                    assert(self.trips@.dom() =~= old(self).trips@.dom().insert(trip_id));
                }
                true
            },
        }
    }

    /// The trips gathered.
    pub fn trips(&self) -> (m: &HashMap<TripId, RadarTrip<'s>>)
        ensures
            m@ == self.trip_map(),
    {
        &self.trips
    }

    /// The stations gathered.
    pub fn stations(&self) -> (m: &HashMap<StopId, StationMark<'s>>)
        ensures
            m@ == self.station_map(),
    {
        &self.stations
    }
}

/// A kind of transport that a search can use.
#[derive(Debug, Clone, Copy, PartialEq, Eq, Structural, Hash)]
pub enum TransitMode {
    SBahn,
    UBahn,
    Bus,
    Tram,
    Regional,
    Boat,
}

/// The name a mode of transport is shown with.
pub open spec fn mode_label(mode: TransitMode) -> Seq<char> {
    match mode {
        TransitMode::SBahn => seq!['S', '-', 'B', 'a', 'h', 'n'],
        TransitMode::UBahn => seq!['U', '-', 'B', 'a', 'h', 'n'],
        TransitMode::Bus => seq!['B', 'u', 's'],
        TransitMode::Tram => seq!['T', 'r', 'a', 'm'],
        TransitMode::Regional => seq!['R', 'e', 'g', 'i', 'o', 'n', 'a', 'l'],
        TransitMode::Boat => seq!['B', 'o', 'a', 't'],
    }
}

/// The key of a mode of transport in addresses.
pub open spec fn mode_key(mode: TransitMode) -> Seq<char> {
    match mode {
        TransitMode::SBahn => seq!['s', 'b', 'a', 'h', 'n'],
        TransitMode::UBahn => seq!['u', 'b', 'a', 'h', 'n'],
        TransitMode::Bus => seq!['b', 'u', 's'],
        TransitMode::Tram => seq!['t', 'r', 'a', 'm'],
        TransitMode::Regional => seq!['r', 'e', 'g', 'i', 'o', 'n', 'a', 'l'],
        TransitMode::Boat => seq!['b', 'o', 'a', 't'],
    }
}

impl TransitMode {
    /// The modes used when none are asked for.
    pub fn defaults() -> (v: Vec<TransitMode>)
        ensures
            v@ == seq![TransitMode::SBahn, TransitMode::UBahn],
    {
        vec![TransitMode::SBahn, TransitMode::UBahn]
    }

    /// The key of the mode in addresses.
    pub fn key(&self) -> (s: &'static str)
        ensures
            s@ == mode_key(*self),
    {
        proof {
            reveal_strlit("sbahn");
            reveal_strlit("ubahn");
            reveal_strlit("bus");
            reveal_strlit("tram");
            reveal_strlit("regional");
            reveal_strlit("boat");
        }
        match self {
            TransitMode::SBahn => "sbahn",
            TransitMode::UBahn => "ubahn",
            TransitMode::Bus => "bus",
            TransitMode::Tram => "tram",
            TransitMode::Regional => "regional",
            TransitMode::Boat => "boat",
        }
    }

    /// The name of the mode as shown.
    pub fn label(&self) -> (s: &'static str)
        ensures
            s@ == mode_label(*self),
    {
        proof {
            reveal_strlit("S-Bahn");
            reveal_strlit("U-Bahn");
            reveal_strlit("Bus");
            reveal_strlit("Tram");
            reveal_strlit("Regional");
            reveal_strlit("Boat");
        }
        match self {
            TransitMode::SBahn => "S-Bahn",
            TransitMode::UBahn => "U-Bahn",
            TransitMode::Bus => "Bus",
            TransitMode::Tram => "Tram",
            TransitMode::Regional => "Regional",
            TransitMode::Boat => "Boat",
        }
    }
}

/// Whether one of the modes of transport stands for the kind of route: S-Bahn for suburban
/// railways, U-Bahn for urban railways, bus for both kinds of bus service, tram for trams,
/// regional for both kinds of railway service, boat for water transport.
pub open spec fn modes_cover(modes: Seq<TransitMode>, route_type: RouteType) -> bool {
    ||| modes.contains(TransitMode::SBahn) && route_type == RouteType::SuburbanRailway
    ||| modes.contains(TransitMode::UBahn) && route_type == RouteType::UrbanRailway
    ||| modes.contains(TransitMode::Bus) && (route_type == RouteType::BusService || route_type == RouteType::Bus)
    ||| modes.contains(TransitMode::Tram) && route_type == RouteType::TramService
    ||| modes.contains(TransitMode::Regional) && (route_type == RouteType::RailwayService || route_type
        == RouteType::Rail)
    ||| modes.contains(TransitMode::Boat) && route_type == RouteType::WaterTransportService
}

/// Each kind of route is searched exactly when the mode of transport it belongs to is
/// chosen: S-Bahn for suburban railways, U-Bahn for urban railways, bus for both kinds of
/// bus service, tram for trams, regional for both kinds of railway service, boat for water
/// transport; so no mode brings in a kind of route of another.
pub proof fn law_modes_choose_route_types(modes: Seq<TransitMode>, rt: RouteType)
    ensures
        mode_types(modes).contains(rt) == modes_cover(modes, rt),
        rt == RouteType::SuburbanRailway ==> (modes_cover(modes, rt) <==> modes.contains(TransitMode::SBahn)),
        rt == RouteType::UrbanRailway ==> (modes_cover(modes, rt) <==> modes.contains(TransitMode::UBahn)),
        rt == RouteType::BusService ==> (modes_cover(modes, rt) <==> modes.contains(TransitMode::Bus)),
        rt == RouteType::Bus ==> (modes_cover(modes, rt) <==> modes.contains(TransitMode::Bus)),
        rt == RouteType::TramService ==> (modes_cover(modes, rt) <==> modes.contains(TransitMode::Tram)),
        rt == RouteType::RailwayService ==> (modes_cover(modes, rt) <==> modes.contains(TransitMode::Regional)),
        rt == RouteType::Rail ==> (modes_cover(modes, rt) <==> modes.contains(TransitMode::Regional)),
        rt == RouteType::WaterTransportService ==> (modes_cover(modes, rt) <==> modes.contains(TransitMode::Boat)),
{
}

/// The weekday numbered from Monday: 0 is Monday, 1 Tuesday, 2 Wednesday, 3 Thursday,
/// 4 Friday, 5 Saturday, 6 Sunday; each number below seven gives a different day.
pub proof fn law_weekday_numbers(n: u32, m: u32)
    requires
        n < 7,
        m < 7,
    ensures
        day_from_monday(n) == seq![
            Day::Monday,
            Day::Tuesday,
            Day::Wednesday,
            Day::Thursday,
            Day::Friday,
            Day::Saturday,
            Day::Sunday,
        ][n as int],
        day_from_monday(n) == day_from_monday(m) ==> n == m,
{
}

/// Whether the modes hold the mode.
fn has_mode(modes: &[TransitMode], mode: TransitMode) -> (b: bool)
    ensures
        b == modes@.contains(mode),
{
    let mut i: usize = 0;
    while i < modes.len()
        invariant
            i <= modes@.len(),
            forall|j: int| 0 <= j < i ==> modes@[j] != mode,
        decreases modes@.len() - i,
    {
        if modes[i] == mode {
            return true;
        }
        i = i + 1;
    }
    false
}

/// The day of the week from its number counted from Monday.
pub open spec fn day_from_monday(n: u32) -> Day {
    if n == 0 {
        Day::Monday
    } else if n == 1 {
        Day::Tuesday
    } else if n == 2 {
        Day::Wednesday
    } else if n == 3 {
        Day::Thursday
    } else if n == 4 {
        Day::Friday
    } else if n == 5 {
        Day::Saturday
    } else {
        Day::Sunday
    }
}

/// The day of the week and the time of day in Berlin at a moment, as `chrono` with
/// `chrono-tz` computes them.
pub uninterp spec fn berlin_weekday_and_seconds(unix_seconds: i64) -> (u32, u32);

/// chrono's `DateTime::from_timestamp`, `with_timezone(&chrono_tz::Europe::Berlin)`,
/// `weekday().num_days_from_monday()` and `num_seconds_from_midnight()`.
/// Claims that the result is a function of the moment alone, a weekday number below 7 and a
/// second of the day below 86400, as chrono documents them.
#[verifier::external_body]
fn berlin_local(unix_seconds: i64) -> (r: (u32, u32))
    requires
        0 <= unix_seconds <= 253402300799,
    ensures
        r == berlin_weekday_and_seconds(unix_seconds),
        r.0 < 7,
        r.1 < 86400,
{
    let utc = chrono::DateTime::from_timestamp(unix_seconds, 0).unwrap();
    let local = utc.with_timezone(&chrono_tz::Europe::Berlin);
    (local.weekday().num_days_from_monday(), local.num_seconds_from_midnight())
}

/// The day of the week and the time of day, in Berlin, of a moment given in seconds since
/// 1970 (UTC), within the years up to 9999.
pub fn day_time(unix_seconds: i64) -> (r: (Day, Time))
    requires
        0 <= unix_seconds <= 253402300799,
    ensures
        r.0 == day_from_monday(berlin_weekday_and_seconds(unix_seconds).0),
        r.1@ == berlin_weekday_and_seconds(unix_seconds).1,
{
    let (weekday, seconds) = berlin_local(unix_seconds);
    (day_of_weekday(weekday), Time::from_seconds_since_midnight(seconds))
}

/// The day of the week from its number counted from Monday.
pub fn day_of_weekday(n: u32) -> (d: Day)
    ensures
        d == day_from_monday(n),
{
    if n == 0 {
        Day::Monday
    } else if n == 1 {
        Day::Tuesday
    } else if n == 2 {
        Day::Wednesday
    } else if n == 3 {
        Day::Thursday
    } else if n == 4 {
        Day::Friday
    } else if n == 5 {
        Day::Saturday
    } else {
        Day::Sunday
    }
}

/// The search handed out an item that the radar cannot take: a station shown twice or reached
/// after the day, or a segment of a trip not connected to or not following on from the last.
#[derive(Debug)]
pub enum RadarError<'s> {
    UnexpectedItem(Item<'s>),
}

/// A radar as `RadarPlan::new` makes it: from `start` to `end`, with nothing gathered.
pub open spec fn fresh_radar<'s>(p: RadarPlan<'s>, start: Time, end: Time) -> bool {
    &&& p.wf()
    &&& p.start() == start
    &&& p.end() == end
    &&& p.expires() == end
    &&& p.trip_map() == Map::<TripId, RadarTrip<'s>>::empty()
    &&& p.station_map() == Map::<StopId, StationMark<'s>>::empty()
}

/// The radars as the items are gathered one by one: the radar before each item can take it,
/// takes it into the next radar, and goes on unless the item is the last.
pub open spec fn radar_taken<'s>(plans: Seq<RadarPlan<'s>>, items: Seq<Item<'s>>) -> bool {
    &&& plans.len() == items.len() + 1
    &&& forall|i: int|
        #![trigger items[i]]
        0 <= i < items.len() ==> plans[i].acceptable(items[i]) && plans[i].takes(plans[i + 1], items[i])
    &&& forall|i: int| #![trigger items[i]] 0 <= i < items.len() - 1 ==> plans[i].keeps_going(items[i])
}

/// The kinds of route that the modes of transport stand for.
pub open spec fn mode_types(modes: Seq<TransitMode>) -> Set<RouteType> {
    Set::new(|t: RouteType| modes_cover(modes, t))
}

/// Searches from `origin` on `day`, from `start_time` for `max_duration`, with the modes of
/// transport `modes`, and gathers the radar of what the search reaches until a station is
/// reached later than the radar shows or the search ends. The origin's station is shown first;
/// every trip runs a kind of route that the modes stand for. The search never shows a station
/// twice, so the radar refuses only a station reached after the day or a segment of a trip.
pub fn search<'s>(
    data: &'s GTFSData,
    origin: &'s Stop,
    day: Day,
    start_time: Time,
    max_duration: Duration,
    modes: &[TransitMode],
) -> (r: Result<RadarPlan<'s>, RadarError<'s>>)
    requires
        0 < max_duration@,
        start_time@ + max_duration@ <= u32::MAX,
        searchable(*data, (start_time@ + max_duration@) as nat),
        is_data_stop(*data, *origin),
    ensures
        exists|states: Seq<Plotter<'s>>, items: Seq<Item<'s>>, plans: Seq<RadarPlan<'s>>|
            #![trigger handed_out(states, items), radar_taken(plans, items)]
            {
                &&& handed_out(states, items)
                &&& fresh_search(
                    states[0],
                    *data,
                    day,
                    (start_time@, (start_time@ + max_duration@) as nat),
                    *origin,
                    mode_types(modes@),
                )
                &&& radar_taken(plans, items)
                &&& fresh_radar(plans[0], start_time, plans[0].end())
                &&& plans[0].end()@ == start_time@ + max_duration@
                &&& match r {
                    Ok(plan) => {
                        &&& plan == plans.last()
                        &&& if items.len() > 0 && !plans[items.len() - 1].keeps_going(items.last()) {
                            true
                        } else {
                            exists|end: Plotter<'s>| #[trigger] states.last().hands_out(end, None)
                        }
                    },
                    Err(RadarError::UnexpectedItem(x)) => {
                        &&& items.len() > 0 ==> plans[items.len() - 1].keeps_going(items.last())
                        &&& exists|after: Plotter<'s>| #[trigger] states.last().hands_out(after, Some(x))
                        &&& !plans.last().acceptable(x)
                    },
                }
            },
        r matches Ok(plan) ==> plan.wf() && plan.start() == start_time && plan.end()@ == start_time@ + max_duration@,
        r matches Ok(plan) ==> forall|t: TripId| #[trigger] plan.trip_map().contains_key(t) ==> modes_cover(
            modes@,
            plan.trip_map()[t].route_type,
        ),
        r matches Ok(plan) ==> forall|t: TripId| #[trigger] plan.trip_map().contains_key(t) ==> data.trip_map().contains_key(t),
        r matches Ok(plan) ==> forall|s: StopId| #[trigger] plan.station_map().contains_key(s) ==> is_data_stop(
            *data,
            *plan.station_map()[s].stop,
        ),
        r matches Err(RadarError::UnexpectedItem(x)) ==> x is SegmentOfTrip || (x matches Item::Station {
            earliest_arrival,
            ..
        } && earliest_arrival@ >= 86400),
        r matches Ok(plan) ==> (encode_utf8(origin.short_stop_name@).len() as usize != 0 ==> {
            &&& plan.station_map().contains_key(origin.spec_station_id())
            &&& plan.station_map()[origin.spec_station_id()].stop == origin
            &&& plan.station_map()[origin.spec_station_id()].earliest_arrival@ == start_time@
            &&& plan.station_map()[origin.spec_station_id()].name_trunk_length == 0
        }),
{
    let end_time = start_time.add(max_duration);
    let period = Period::between(start_time, end_time);
    let mut plotter = Plotter::new(day, period, data);
    plotter.add_origin_station(origin);
    if has_mode(modes, TransitMode::SBahn) {
        plotter.add_route_type(RouteType::SuburbanRailway);
    }
    if has_mode(modes, TransitMode::UBahn) {
        plotter.add_route_type(RouteType::UrbanRailway);
    }
    if has_mode(modes, TransitMode::Bus) {
        plotter.add_route_type(RouteType::BusService);
        plotter.add_route_type(RouteType::Bus);
    }
    if has_mode(modes, TransitMode::Tram) {
        plotter.add_route_type(RouteType::TramService);
    }
    if has_mode(modes, TransitMode::Regional) {
        plotter.add_route_type(RouteType::RailwayService);
        plotter.add_route_type(RouteType::Rail);
    }
    if has_mode(modes, TransitMode::Boat) {
        plotter.add_route_type(RouteType::WaterTransportService);
    }
    proof {
        assert forall|rt: RouteType| plotter.route_type_seq().contains(rt) implies modes_cover(modes@, rt) by {
            assert(plotter.route_type_seq().to_set().contains(rt));
        }
    }
    let mut plan = RadarPlan::new(start_time, end_time);
    proof {
        assert(plotter.period_of() == (start_time@, end_time@));
        assert(plotter.queued().len() == 1);
        assert(plotter.arrivals() == Map::<StopId, Time>::empty());
        assert(plotter.lone_origin());
    }
    proof {
        assert(plotter.route_type_seq().to_set() =~= mode_types(modes@));
        assert(fresh_search(
            plotter,
            *data,
            day,
            (start_time@, (start_time@ + max_duration@) as nat),
            *origin,
            mode_types(modes@),
        ));
    }
    let ghost shown = encode_utf8(origin.short_stop_name@).len() as usize != 0;
    let ghost mut first = true;
    let ghost first_state = plotter;
    let ghost first_plan = plan;
    let ghost mut states: Seq<Plotter<'s>> = seq![plotter];
    let ghost mut items: Seq<Item<'s>> = Seq::empty();
    let ghost mut plans: Seq<RadarPlan<'s>> = seq![plan];
    let ghost mut end: Plotter<'s> = plotter;
    loop
        invariant_except_break
            states.last() == plotter,
            items.len() > 0 ==> plans[items.len() - 1].keeps_going(items.last()),
        invariant
            handed_out(states, items),
            radar_taken(plans, items),
            states[0] == first_state,
            plans[0] == first_plan,
            plans.last() == plan,
            fresh_search(
                first_state,
                *data,
                day,
                (start_time@, (start_time@ + max_duration@) as nat),
                *origin,
                mode_types(modes@),
            ),
            fresh_radar(first_plan, start_time, end_time),
            first ==> {
                &&& plotter.lone_origin()
                &&& plotter.queued()[0].to_stop == origin
                &&& plotter.queued()[0].arrival_time@ == start_time@
                &&& plotter.emitted() == Set::<StopId>::empty()
                &&& plotter.pending().len() == 0
                &&& plan.station_map() == Map::<StopId, StationMark<'s>>::empty()
                &&& plan.expires() == end_time
            },
            !first && shown ==> {
                &&& plan.station_map().contains_key(origin.spec_station_id())
                &&& plan.station_map()[origin.spec_station_id()].stop == origin
                &&& plan.station_map()[origin.spec_station_id()].earliest_arrival@ == start_time@
                &&& plan.station_map()[origin.spec_station_id()].name_trunk_length == 0
            },
            shown == (encode_utf8(origin.short_stop_name@).len() as usize != 0),
            plotter.data_of() == *data,
            forall|s: StopId| #[trigger] plan.station_map().contains_key(s) ==> plotter.emitted().contains(s),
            forall|s: StopId, k: int|
                #![trigger plan.station_map().contains_key(s), plotter.pending()[k]]
                plan.station_map().contains_key(s) && 0 <= k < plotter.pending().len() ==> station_item_id(
                    plotter.pending()[k],
                ) != Some(s),
            forall|t: TripId| #[trigger] plan.trip_map().contains_key(t) ==> data.trip_map().contains_key(t),
            forall|s: StopId| #[trigger] plan.station_map().contains_key(s) ==> is_data_stop(
                *data,
                *plan.station_map()[s].stop,
            ),
            forall|rt: RouteType| plotter.route_type_seq().contains(rt) ==> modes_cover(modes@, rt),
            forall|t: TripId| #[trigger] plan.trip_map().contains_key(t) ==> modes_cover(
                modes@,
                plan.trip_map()[t].route_type,
            ),
            plotter.wf(),
            plan.wf(),
            plan.start() == start_time,
            plan.end() == end_time,
            end_time@ == start_time@ + max_duration@,
        ensures
            !first,
            if items.len() > 0 && !plans[items.len() - 1].keeps_going(items.last()) {
                true
            } else {
                states.last().hands_out(end, None)
            },
        decreases plotter.stops_to_reach(), plotter.queued().len(), plotter.pending().len(),
    {
        let ghost was_first = first;
        let ghost before_plan = plan;
        let ghost before_plotter = plotter;
        let ghost before_states = states;
        let ghost before_items = items;
        let ghost before_plans = plans;
        let next = plotter.next();
        proof {
            assert forall|s: StopId, k: int|
                #![trigger plan.station_map().contains_key(s), plotter.pending()[k]]
                plan.station_map().contains_key(s) && 0 <= k < plotter.pending().len() implies station_item_id(
                    plotter.pending()[k],
                ) != Some(s) by {
                if before_plotter.pending().len() > 0 {
                    assert(plotter.pending()[k] == before_plotter.pending()[k + 1]);
                } else if station_item_id(plotter.pending()[k]) is Some {
                    assert(plan.station_map().contains_key(s) ==> before_plotter.emitted().contains(s));
                }
            }
            match next {
                Some(x) => {
                    if station_item_id(x) is Some {
                        let id = station_item_id(x)->0;
                        if before_plotter.pending().len() > 0 {
                            assert(x == before_plotter.pending()[0]);
                        }
                        assert(!plan.station_map().contains_key(id));
                    }
                },
                None => {},
            }
        }
        proof {
            first = false;
        }
        match next {
            None => {
                proof {
                    assert(!was_first);
                    end = plotter;
                }
                break;
            },
            Some(item) => {
                if !plan.accepts(&item) {
                    proof {
                        assert(handed_out(states, items));
                        assert(states.last().hands_out(plotter, Some(item)));
                    }
                    return Err(RadarError::UnexpectedItem(item));
                }
                proof {
                    if was_first {
                        assert(item matches Item::Station { stop, earliest_arrival, name_trunk_length } && stop == origin
                            && earliest_arrival@ == start_time@ && name_trunk_length == 0);
                    }
                }
                let go_on = plan.add_item(item);
                proof {
                    let id = origin.spec_station_id();
                    if was_first {
                        assert(start_time@ <= before_plan.station_limit());
                        assert(go_on);
                        if shown {
                            assert(trunk_division(origin.short_stop_name@, 0) == 0);
                            assert(plan.station_map().contains_key(id));
                            assert(plan.station_map()[id].stop == origin);
                            assert(plan.station_map()[id].name_trunk_length == 0);
                        }
                    } else if shown {
                        assert(before_plan.station_map().contains_key(id));
                        match item {
                            Item::Station { stop, .. } => {
                                if plan.station_map() != before_plan.station_map() {
                                    assert(stop.spec_station_id() != id);
                                }
                            },
                            _ => {},
                        }
                        assert(plan.station_map().contains_key(id));
                        assert(plan.station_map()[id] == before_plan.station_map()[id]);
                    }
                }
                proof {
                    states = states.push(plotter);
                    items = items.push(item);
                    plans = plans.push(plan);
                    let n = before_items.len();
                    assert forall|i: int| #![trigger items[i]] 0 <= i < items.len() implies states[i].hands_out(
                        states[i + 1],
                        Some(items[i]),
                    ) by {
                        if i < n {
                            assert(items[i] == before_items[i]);
                            assert(states[i] == before_states[i] && states[i + 1] == before_states[i + 1]);
                        }
                    }
                    assert forall|i: int| #![trigger items[i]] 0 <= i < items.len() implies plans[i].acceptable(items[i])
                        && plans[i].takes(plans[i + 1], items[i]) by {
                        if i < n {
                            assert(items[i] == before_items[i]);
                            assert(plans[i] == before_plans[i] && plans[i + 1] == before_plans[i + 1]);
                        }
                    }
                    assert forall|i: int| #![trigger items[i]] 0 <= i < items.len() - 1 implies plans[i].keeps_going(
                        items[i],
                    ) by {
                        assert(items[i] == before_items[i]);
                        assert(plans[i] == before_plans[i]);
                        if i < n - 1 {
                        } else {
                            assert(before_items[n - 1] == before_items.last());
                        }
                    }
                    assert(radar_taken(plans, items));
                    assert(handed_out(states, items));
                }
                if !go_on {
                    break;
                }
            },
        }
    }
    proof {
        assert(handed_out(states, items));
        assert(radar_taken(plans, items));
    }
    Ok(plan)
}

} // verus!
