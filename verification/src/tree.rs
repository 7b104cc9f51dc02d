//! The journey tree for a front end: the stations a search reaches, each with the seconds it
//! takes to reach it, and the connections and trip segments between them, each drawn once,
//! with stations referred to by their position in the list.
use std::collections::HashMap;
use vstd::prelude::*;

use crate::journey_graph::{Item, Plotter, fresh_search, handed_out, is_data_stop, item_in_data, searchable};
use crate::loader::{get_station_by_name, station_name_unique, station_named, SearchError};
use crate::requests::{name_unique, option_types, url_decode, url_decoded, RadarOptions, RequestRefusal};
use crate::search_data::{day_key, Day, GTFSData, RouteType, Stop, StopId, TripId};
use crate::time::{Duration, Period, Time};

verus! {

broadcast use {vstd::std_specs::hash::group_hash_axioms, crate::time::lemma_time_fits};

/// What a connection is drawn as: a walk or wait, or a ride on a kind of route.
#[derive(Debug, Clone, Copy, PartialEq, Eq, Structural)]
pub enum FEConnectionType {
    Connection,
    Rail,
    Bus,
    RailwayService,
    SuburbanRailway,
    UrbanRailwayService,
    BusService,
    TramService,
    Other(u16),
}

/// The connection type of a kind of route.
pub open spec fn connection_type_of(route_type: RouteType) -> FEConnectionType {
    match route_type {
        RouteType::Rail => FEConnectionType::Rail,
        RouteType::Bus => FEConnectionType::Bus,
        RouteType::RailwayService => FEConnectionType::RailwayService,
        RouteType::SuburbanRailway => FEConnectionType::SuburbanRailway,
        RouteType::UrbanRailway => FEConnectionType::UrbanRailwayService,
        RouteType::BusService => FEConnectionType::BusService,
        RouteType::TramService => FEConnectionType::TramService,
        RouteType::WaterTransportService => FEConnectionType::Other(1000),
    }
}

/// A trip is drawn as the kind of route it runs: each kind of route has a connection type of
/// its own (water transport, with no type of its own, keeps its GTFS code 1000), none is a
/// plain connection, and no two kinds share one.
pub proof fn law_connection_types_keep_kind(a: RouteType, b: RouteType)
    ensures
        connection_type_of(a) == connection_type_of(b) ==> a == b,
        connection_type_of(a) != FEConnectionType::Connection,
        a == RouteType::Rail <==> connection_type_of(a) == FEConnectionType::Rail,
        a == RouteType::Bus <==> connection_type_of(a) == FEConnectionType::Bus,
        a == RouteType::RailwayService <==> connection_type_of(a) == FEConnectionType::RailwayService,
        a == RouteType::SuburbanRailway <==> connection_type_of(a) == FEConnectionType::SuburbanRailway,
        a == RouteType::UrbanRailway <==> connection_type_of(a) == FEConnectionType::UrbanRailwayService,
        a == RouteType::BusService <==> connection_type_of(a) == FEConnectionType::BusService,
        a == RouteType::TramService <==> connection_type_of(a) == FEConnectionType::TramService,
        a == RouteType::WaterTransportService <==> connection_type_of(a) == FEConnectionType::Other(1000),
{
}

impl FEConnectionType {
    /// The connection type of a kind of route; water transport, which has no type of its
    /// own, keeps its GTFS code.
    pub fn from(route_type: RouteType) -> (k: FEConnectionType)
        ensures
            k == connection_type_of(route_type),
    {
        match route_type {
            RouteType::Rail => FEConnectionType::Rail,
            RouteType::Bus => FEConnectionType::Bus,
            RouteType::RailwayService => FEConnectionType::RailwayService,
            RouteType::SuburbanRailway => FEConnectionType::SuburbanRailway,
            RouteType::UrbanRailway => FEConnectionType::UrbanRailwayService,
            RouteType::BusService => FEConnectionType::BusService,
            RouteType::TramService => FEConnectionType::TramService,
            RouteType::WaterTransportService => FEConnectionType::Other(1000),
        }
    }
}

/// A station reached: where it is (the bit patterns of its latitude and longitude), its
/// name and the time it takes to reach it.
#[derive(Debug)]
pub struct FEStop {
    pub location: (u64, u64),
    pub name: String,
    pub seconds: Duration,
}

/// A ride between two stations on a trip, by their positions in the list of stations.
#[derive(Debug, Clone, Copy)]
pub struct FESegment {
    pub from_seconds: Duration,
    pub to_seconds: Duration,
    pub from: usize,
    pub to: usize,
}

/// A walk, wait or boarding between two stations, by their positions in the list of
/// stations, with the route boarded if any.
#[derive(Debug, Clone, Copy)]
pub struct FEConnection<'s> {
    pub from_seconds: Duration,
    pub to_seconds: Duration,
    pub from: usize,
    pub to: usize,
    pub route_name: Option<&'s str>,
}

/// A trip drawn: its route and the segments ridden on it.
#[derive(Debug)]
pub struct FERoute<'s> {
    pub route_name: &'s str,
    pub kind: FEConnectionType,
    pub segments: Vec<FESegment>,
}

/// The journey tree of a search.
#[derive(Debug)]
pub struct FEData<'s> {
    pub stops: Vec<FEStop>,
    pub connections: Vec<FEConnection<'s>>,
    pub trips: Vec<FERoute<'s>>,
    pub timetable_date: String,
    pub departure_day: String,
    pub departure_time: Time,
    pub duration_minutes: i32,
}

/// The search handed out an item that the tree cannot take: a connection to a station not
/// reached yet, or a time too far from the start.
#[derive(Debug)]
pub enum TreeError<'s> {
    UnexpectedItem(Item<'s>),
}

/// What the tree holds so far: the stations (location, name, seconds), the position of each
/// station by id, the connections (seconds from, seconds to, from, to, route), the trips
/// (id, route, kind, segments) and what has been drawn.
pub struct TreeState {
    pub stops: Seq<((u64, u64), Seq<char>, int)>,
    pub index: Map<StopId, usize>,
    pub conns: Seq<(int, int, usize, usize, Option<Seq<char>>)>,
    pub trips: Seq<(TripId, Seq<char>, FEConnectionType, Seq<(int, int, usize, usize)>)>,
    pub drawn: Set<(usize, usize, Option<Seq<char>>, FEConnectionType)>,
}

/// The number fits in an `i32`.
pub open spec fn fits_i32(n: int) -> bool {
    i32::MIN <= n <= i32::MAX
}

/// The text with every occurrence of a non-empty pattern replaced, the occurrences taken
/// from the left without overlapping.
pub open spec fn text_replaced(s: Seq<char>, from: Seq<char>, to: Seq<char>) -> Seq<char>
    decreases s.len(),
{
    if from.len() == 0 || s.len() < from.len() {
        s
    } else if s.take(from.len() as int) == from {
        to + text_replaced(s.skip(from.len() as int), from, to)
    } else {
        seq![s[0]] + text_replaced(s.drop_first(), from, to)
    }
}

/// std's `str::replace`, with a pattern that is not empty.
/// Claims that every match of the pattern, found from the left without overlapping as std's
/// `match_indices` documents them, is replaced.
#[verifier::external_body]
fn replace_text(s: &str, from: &str, to: &str) -> (r: String)
    requires
        from@.len() > 0,
    ensures
        r@ == text_replaced(s@, from@, to@),
{
    s.replace(from, to)
}

/// The items begin with the origin, reached at the start.
pub open spec fn starts_at_origin(items: Seq<Item>, origin: Stop, start: nat) -> bool {
    &&& items.len() > 0
    &&& items[0] matches Item::Station { stop, earliest_arrival, name_trunk_length } && *stop == origin
        && earliest_arrival@ == start && name_trunk_length == 0
}

/// The name a station is shown with: without " (Berlin)".
pub open spec fn shown_name(name: Seq<char>) -> Seq<char> {
    text_replaced(name, " (Berlin)"@, ""@)
}

/// The positions of the stations an item goes from and to: the station it reaches must be
/// in the tree; one it leaves from that is not is taken as the one it reaches.
pub open spec fn ends(st: TreeState, from_station: StopId, to_station: StopId) -> Option<(usize, usize)> {
    if st.index.contains_key(to_station) {
        let to = st.index[to_station];
        Some((if st.index.contains_key(from_station) { st.index[from_station] } else { to }, to))
    } else {
        None
    }
}

/// The tree after a connection, drawn when it is new.
pub open spec fn with_connection(
    st: TreeState,
    from: usize,
    to: usize,
    route_name: Option<Seq<char>>,
    from_seconds: int,
    to_seconds: int,
) -> Option<TreeState> {
    let key = (from, to, route_name, FEConnectionType::Connection);
    if st.drawn.contains(key) {
        Some(st)
    } else if fits_i32(from_seconds) && fits_i32(to_seconds) {
        Some(
            TreeState {
                conns: st.conns.push((from_seconds, to_seconds, from, to, route_name)),
                drawn: st.drawn.insert(key),
                ..st
            },
        )
    } else {
        None
    }
}

/// The position of the trip among those drawn, if it is there.
pub open spec fn trip_position(trips: Seq<(TripId, Seq<char>, FEConnectionType, Seq<(int, int, usize, usize)>)>, trip_id: TripId) -> Option<
    int,
> {
    if exists|i: int| 0 <= i < trips.len() && trips[i].0 == trip_id {
        Some(choose|i: int| 0 <= i < trips.len() && trips[i].0 == trip_id)
    } else {
        None
    }
}

/// The tree after a segment of a trip, drawn when it is new, on the trip as first drawn.
pub open spec fn with_segment(
    st: TreeState,
    from: usize,
    to: usize,
    trip_id: TripId,
    route_name: Seq<char>,
    kind: FEConnectionType,
    from_seconds: int,
    to_seconds: int,
) -> Option<TreeState> {
    let key = (from, to, Some(route_name), kind);
    let seg = (from_seconds, to_seconds, from, to);
    if st.drawn.contains(key) {
        Some(st)
    } else if fits_i32(from_seconds) && fits_i32(to_seconds) {
        let trips = match trip_position(st.trips, trip_id) {
            Some(p) => st.trips.update(p, (st.trips[p].0, st.trips[p].1, st.trips[p].2, st.trips[p].3.push(seg))),
            None => st.trips.push((trip_id, route_name, kind, seq![seg])),
        };
        Some(TreeState { trips, drawn: st.drawn.insert(key), ..st })
    } else {
        None
    }
}

/// The tree after an item of the search.
pub open spec fn tree_step(st: TreeState, item: Item, start: int) -> Option<TreeState> {
    match item {
        Item::Station { stop, earliest_arrival, .. } => {
            let seconds = earliest_arrival@ - start;
            if fits_i32(seconds) {
                Some(
                    TreeState {
                        stops: st.stops.push((stop.location, shown_name(stop.full_stop_name@), seconds)),
                        index: st.index.insert(stop.spec_station_id(), st.stops.len() as usize),
                        ..st
                    },
                )
            } else {
                None
            }
        },
        Item::Transfer { departure_time, arrival_time, from_stop, to_stop } => match ends(
            st,
            from_stop.spec_station_id(),
            to_stop.spec_station_id(),
        ) {
            Some((from, to)) => with_connection(st, from, to, None, departure_time@ - start, arrival_time@ - start),
            None => None,
        },
        Item::ConnectionToTrip { departure_time, arrival_time, from_stop, to_stop, route_name, .. } => match ends(
            st,
            from_stop.spec_station_id(),
            to_stop.spec_station_id(),
        ) {
            Some((from, to)) => with_connection(
                st,
                from,
                to,
                Some(route_name@),
                departure_time@ - start,
                arrival_time@ - start,
            ),
            None => None,
        },
        Item::SegmentOfTrip { departure_time, arrival_time, from_stop, to_stop, trip_id, route_name, route_type, .. } => match ends(
            st,
            from_stop.spec_station_id(),
            to_stop.spec_station_id(),
        ) {
            Some((from, to)) => with_segment(
                st,
                from,
                to,
                trip_id,
                route_name@,
                connection_type_of(route_type),
                departure_time@ - start,
                arrival_time@ - start,
            ),
            None => None,
        },
    }
}

/// The empty tree.
pub open spec fn empty_tree() -> TreeState {
    TreeState { stops: Seq::empty(), index: Map::empty(), conns: Seq::empty(), trips: Seq::empty(), drawn: Set::empty() }
}

/// The tree after the items, in order; `None` once an item cannot be taken.
pub open spec fn tree_of(items: Seq<Item>, start: int) -> Option<TreeState>
    decreases items.len(),
{
    if items.len() == 0 {
        Some(empty_tree())
    } else {
        match tree_of(items.drop_last(), start) {
            Some(st) => tree_step(st, items.last(), start),
            None => None,
        }
    }
}

/// Every position in the tree names one of its stops.
pub open spec fn tree_bounded(st: TreeState) -> bool {
    &&& forall|k: StopId| #[trigger] st.index.contains_key(k) ==> st.index[k] < st.stops.len()
    &&& forall|i: int| 0 <= i < st.conns.len() ==> (#[trigger] st.conns[i]).2 < st.stops.len() && st.conns[i].3 < st.stops.len()
    &&& forall|i: int, j: int|
        0 <= i < st.trips.len() && 0 <= j < st.trips[i].3.len() ==> (#[trigger] st.trips[i].3[j]).2 < st.stops.len()
            && st.trips[i].3[j].3 < st.stops.len()
}

/// Each item keeps every position in the tree naming one of its stops.
pub proof fn lemma_tree_step_bounded(st: TreeState, item: Item, start: int)
    requires
        tree_bounded(st),
        tree_step(st, item, start) is Some,
    ensures
        tree_bounded(tree_step(st, item, start)->0),
{
    let n = tree_step(st, item, start)->0;
    match item {
        Item::SegmentOfTrip { departure_time, arrival_time, from_stop, to_stop, trip_id, route_name, route_type, .. } => {
            let (from, to) = ends(st, from_stop.spec_station_id(), to_stop.spec_station_id())->0;
            let seg = (departure_time@ - start, arrival_time@ - start, from, to);
            assert forall|i: int, j: int|
                0 <= i < n.trips.len() && 0 <= j < n.trips[i].3.len() implies (#[trigger] n.trips[i].3[j]).2 < n.stops.len()
                    && n.trips[i].3[j].3 < n.stops.len() by {
                if n.trips != st.trips {
                    match trip_position(st.trips, trip_id) {
                        Some(p) => {
                            if i == p && j == st.trips[p].3.len() {
                                assert(n.trips[i].3[j] == seg);
                            } else if i == p {
                                assert(n.trips[i].3[j] == st.trips[i].3[j]);
                            } else {
                                assert(n.trips[i] == st.trips[i]);
                            }
                        },
                        None => {
                            if i < st.trips.len() {
                                assert(n.trips[i] == st.trips[i]);
                            } else {
                                assert(n.trips[i].3 == seq![seg]);
                            }
                        },
                    }
                }
            }
        },
        Item::Station { .. } => {
            assert forall|i: int| 0 <= i < n.conns.len() implies (#[trigger] n.conns[i]).2 < n.stops.len() && n.conns[i].3
                < n.stops.len() by {
                assert(n.conns[i] == st.conns[i]);
            }
        },
        _ => {
            assert forall|i: int| 0 <= i < n.conns.len() implies (#[trigger] n.conns[i]).2 < n.stops.len() && n.conns[i].3
                < n.stops.len() by {
                if i < st.conns.len() {
                    assert(n.conns[i] == st.conns[i]);
                }
            }
        },
    }
}

/// Every position in a tree built from items names one of its stops.
pub proof fn lemma_tree_of_bounded(items: Seq<Item>, start: int)
    requires
        tree_of(items, start) is Some,
    ensures
        tree_bounded(tree_of(items, start)->0),
    decreases items.len(),
{
    if items.len() > 0 {
        lemma_tree_of_bounded(items.drop_last(), start);
        lemma_tree_step_bounded(tree_of(items.drop_last(), start)->0, items.last(), start);
    }
}

/// The trips drawn have distinct ids.
pub open spec fn trips_distinct(trips: Seq<(TripId, Seq<char>, FEConnectionType, Seq<(int, int, usize, usize)>)>) -> bool {
    forall|i: int, j: int| 0 <= i < j < trips.len() ==> trips[i].0 != trips[j].0
}

/// A station as the tree holds it.
pub open spec fn stop_view(s: FEStop) -> ((u64, u64), Seq<char>, int) {
    (s.location, s.name@, s.seconds@)
}

/// A route's name as the tree holds it.
pub open spec fn name_view(n: Option<&str>) -> Option<Seq<char>> {
    match n {
        Some(s) => Some(s@),
        None => None,
    }
}

/// A connection as the tree holds it.
pub open spec fn conn_view(c: FEConnection) -> (int, int, usize, usize, Option<Seq<char>>) {
    (c.from_seconds@, c.to_seconds@, c.from, c.to, name_view(c.route_name))
}

/// A segment as the tree holds it.
pub open spec fn seg_view(s: FESegment) -> (int, int, usize, usize) {
    (s.from_seconds@, s.to_seconds@, s.from, s.to)
}

/// A trip as the tree holds it.
pub open spec fn trip_view(t: (TripId, FERoute)) -> (TripId, Seq<char>, FEConnectionType, Seq<(int, int, usize, usize)>) {
    (t.0, t.1.route_name@, t.1.kind, t.1.segments@.map_values(|s: FESegment| seg_view(s)))
}

/// What has been drawn, as the tree holds it.
pub open spec fn key_view(k: (usize, usize, Option<String>, FEConnectionType)) -> (usize, usize, Option<Seq<char>>, FEConnectionType) {
    (
        k.0,
        k.1,
        match k.2 {
            Some(s) => Some(s@),
            None => None,
        },
        k.3,
    )
}

/// The tree being built from the items of a search.
pub struct TreeBuilder<'s> {
    stops: Vec<FEStop>,
    index: HashMap<StopId, usize>,
    conns: Vec<FEConnection<'s>>,
    trips: Vec<(TripId, FERoute<'s>)>,
    drawn: Vec<(usize, usize, Option<String>, FEConnectionType)>,
}

/// Whether the two optional names are the same.
fn same_name(a: &Option<String>, b: Option<&str>) -> (r: bool)
    ensures
        r == (match a {
            Some(s) => Some(s@),
            None => None,
        } == name_view(b)),
{
    match (a, b) {
        (None, None) => true,
        (Some(x), Some(y)) => {
            let y = y.to_owned();
            *x == y
        },
        _ => false,
    }
}

impl<'s> TreeBuilder<'s> {
    /// What the tree holds.
    pub closed spec fn state(&self) -> TreeState {
        TreeState {
            stops: self.stops@.map_values(|s: FEStop| stop_view(s)),
            index: self.index@,
            conns: self.conns@.map_values(|c: FEConnection<'s>| conn_view(c)),
            trips: self.trips@.map_values(|t: (TripId, FERoute<'s>)| trip_view(t)),
            drawn: self.drawn@.map_values(|k: (usize, usize, Option<String>, FEConnectionType)| key_view(k)).to_set(),
        }
    }

    /// The trip ids are distinct.
    pub closed spec fn wf(&self) -> bool {
        trips_distinct(self.state().trips)
    }

    /// An empty tree.
    pub fn new() -> (b: TreeBuilder<'s>)
        ensures
            b.state() == empty_tree(),
            b.wf(),
    {
        let b = TreeBuilder { stops: Vec::new(), index: HashMap::new(), conns: Vec::new(), trips: Vec::new(), drawn: Vec::new() };
        assert(b.state().stops =~= Seq::<((u64, u64), Seq<char>, int)>::empty());
        assert(b.state().conns =~= Seq::<(int, int, usize, usize, Option<Seq<char>>)>::empty());
        assert(b.state().trips =~= Seq::<(TripId, Seq<char>, FEConnectionType, Seq<(int, int, usize, usize)>)>::empty());
        assert(b.state().drawn =~= Set::<(usize, usize, Option<Seq<char>>, FEConnectionType)>::empty());
        assert(b.state().index =~= Map::<StopId, usize>::empty());
        b
    }

    /// Whether the key has been drawn.
    fn is_drawn(&self, from: usize, to: usize, route_name: Option<&str>, kind: FEConnectionType) -> (r: bool)
        ensures
            r == self.state().drawn.contains((from, to, name_view(route_name), kind)),
    {
        let ghost key = (from, to, name_view(route_name), kind);
        let ghost keys = self.drawn@.map_values(|k: (usize, usize, Option<String>, FEConnectionType)| key_view(k));
        let mut i: usize = 0;
        while i < self.drawn.len()
            invariant
                i <= self.drawn@.len(),
                keys == self.drawn@.map_values(|k: (usize, usize, Option<String>, FEConnectionType)| key_view(k)),
                key == (from, to, name_view(route_name), kind),
                forall|j: int| 0 <= j < i ==> keys[j] != key,
            decreases self.drawn@.len() - i,
        {
            let d = &self.drawn[i];
            assert(keys[i as int] == key_view(*d));
            let same_route = same_name(&d.2, route_name);
            let same_kind = d.3 == kind;
            let m = d.0 == from && d.1 == to && same_kind && same_route;
            if m {
                assert(keys[i as int] == key);
                return true;
            }
            i = i + 1;
        }
        assert(!keys.contains(key));
        false
    }

    /// Records the key as drawn.
    fn draw(&mut self, from: usize, to: usize, route_name: Option<&str>, kind: FEConnectionType)
        ensures
            final(self).state() == (TreeState { drawn: old(self).state().drawn.insert((from, to, name_view(route_name), kind)), ..old(self).state() }),
            final(self).wf() == old(self).wf(),
    {
        let name = match route_name {
            Some(n) => Some(n.to_owned()),
            None => None,
        };
        let ghost before = self.drawn@.map_values(|k: (usize, usize, Option<String>, FEConnectionType)| key_view(k));
        self.drawn.push((from, to, name, kind));
        proof {
            let after = self.drawn@.map_values(|k: (usize, usize, Option<String>, FEConnectionType)| key_view(k));
            assert(after =~= before.push((from, to, name_view(route_name), kind)));
            before.lemma_push_to_set_commute((from, to, name_view(route_name), kind));
            assert(self.state().stops =~= old(self).state().stops);
            assert(self.state().conns =~= old(self).state().conns);
            assert(self.state().trips =~= old(self).state().trips);
        }
    }

    /// The positions of the stations the item goes from and to.
    fn ends_of(&self, from_station: StopId, to_station: StopId) -> (r: Option<(usize, usize)>)
        ensures
            r == ends(self.state(), from_station, to_station),
    {
        match self.index.get(&to_station) {
            Some(to) => match self.index.get(&from_station) {
                Some(from) => Some((*from, *to)),
                None => Some((*to, *to)),
            },
            None => None,
        }
    }
}

impl<'s> TreeBuilder<'s> {
    /// Where the trip is among those drawn.
    fn find_trip(&self, trip_id: TripId) -> (r: Option<usize>)
        requires
            self.wf(),
        ensures
            match r {
                Some(p) => p < self.trips@.len() && trip_position(self.state().trips, trip_id) == Some(p as int),
                None => trip_position(self.state().trips, trip_id) is None,
            },
    {
        let ghost trips = self.state().trips;
        let mut i: usize = 0;
        while i < self.trips.len()
            invariant
                i <= self.trips@.len() == trips.len(),
                trips == self.state().trips,
                trips_distinct(trips),
                forall|j: int| 0 <= j < i ==> trips[j].0 != trip_id,
            decreases self.trips@.len() - i,
        {
            assert(trips[i as int].0 == self.trips@[i as int].0);
            if self.trips[i].0 == trip_id {
                proof {
                    assert(exists|k: int| 0 <= k < trips.len() && trips[k].0 == trip_id);
                    let k = choose|k: int| 0 <= k < trips.len() && trips[k].0 == trip_id;
                    if k != i {
                        if k < i {
                            assert(trips[k].0 != trips[i as int].0);
                        } else {
                            assert(trips[i as int].0 != trips[k].0);
                        }
                    }
                }
                return Some(i);
            }
            i = i + 1;
        }
        None
    }

    /// Adds a segment to the trip, drawing it anew when it is not there.
    fn add_segment(&mut self, trip_id: TripId, route_name: &'s str, kind: FEConnectionType, seg: FESegment)
        requires
            old(self).wf(),
        ensures
            final(self).wf(),
            final(self).state() == (TreeState {
                trips: match trip_position(old(self).state().trips, trip_id) {
                    Some(p) => old(self).state().trips.update(
                        p,
                        (
                            old(self).state().trips[p].0,
                            old(self).state().trips[p].1,
                            old(self).state().trips[p].2,
                            old(self).state().trips[p].3.push(seg_view(seg)),
                        ),
                    ),
                    None => old(self).state().trips.push((trip_id, route_name@, kind, seq![seg_view(seg)])),
                },
                ..old(self).state()
            }),
    {
        let ghost before = self.state();
        match self.find_trip(trip_id) {
            Some(p) => {
                let mut segments = self.trips[p].1.segments.clone();
                assert(segments@ =~= self.trips@[p as int].1.segments@);
                segments.push(seg);
                let route = FERoute { route_name: self.trips[p].1.route_name, kind: self.trips[p].1.kind, segments };
                let id = self.trips[p].0;
                self.trips.set(p, (id, route));
                proof {
                    let t = self.trips@.map_values(|t: (TripId, FERoute<'s>)| trip_view(t));
                    assert(route.segments@.map_values(|s: FESegment| seg_view(s)) =~= before.trips[p as int].3.push(seg_view(seg)));
                    assert(t =~= before.trips.update(
                        p as int,
                        (before.trips[p as int].0, before.trips[p as int].1, before.trips[p as int].2, before.trips[p as int].3.push(seg_view(seg))),
                    ));
                    assert forall|a: int, b: int| 0 <= a < b < t.len() implies t[a].0 != t[b].0 by {
                        assert(t[a].0 == before.trips[a].0 && t[b].0 == before.trips[b].0);
                    }
                }
            },
            None => {
                let route = FERoute { route_name, kind, segments: vec![seg] };
                self.trips.push((trip_id, route));
                proof {
                    let t = self.trips@.map_values(|t: (TripId, FERoute<'s>)| trip_view(t));
                    assert(route.segments@.map_values(|s: FESegment| seg_view(s)) =~= seq![seg_view(seg)]);
                    assert(t =~= before.trips.push((trip_id, route_name@, kind, seq![seg_view(seg)])));
                    assert forall|a: int, b: int| 0 <= a < b < t.len() implies t[a].0 != t[b].0 by {
                        if b == before.trips.len() {
                            assert(t[a].0 == before.trips[a].0);
                            assert(!(exists|i: int| 0 <= i < before.trips.len() && before.trips[i].0 == trip_id));
                        }
                    }
                }
            },
        }
        proof {
            assert(self.state().stops =~= before.stops);
            assert(self.state().conns =~= before.conns);
            assert(self.state().drawn =~= before.drawn);
        }
    }

    /// Adds a connection.
    fn add_connection(&mut self, c: FEConnection<'s>)
        ensures
            final(self).state() == (TreeState { conns: old(self).state().conns.push(conn_view(c)), ..old(self).state() }),
            final(self).wf() == old(self).wf(),
    {
        let ghost before = self.state();
        self.conns.push(c);
        proof {
            assert(self.state().conns =~= before.conns.push(conn_view(c)));
            assert(self.state().stops =~= before.stops);
            assert(self.state().trips =~= before.trips);
            assert(self.state().drawn =~= before.drawn);
        }
    }

    /// Adds a station reached.
    fn add_station(&mut self, station_id: StopId, s: FEStop)
        ensures
            final(self).state() == (TreeState {
                stops: old(self).state().stops.push(stop_view(s)),
                index: old(self).state().index.insert(station_id, old(self).state().stops.len() as usize),
                ..old(self).state()
            }),
            final(self).wf() == old(self).wf(),
    {
        let ghost before = self.state();
        let position = self.stops.len();
        self.index.insert(station_id, position);
        self.stops.push(s);
        proof {
            assert(self.state().stops =~= before.stops.push(stop_view(s)));
            assert(self.state().conns =~= before.conns);
            assert(self.state().trips =~= before.trips);
            assert(self.state().drawn =~= before.drawn);
        }
    }

    /// Takes an item of the search into the tree; says whether it could.
    pub fn take(&mut self, item: Item<'s>, start: Time) -> (ok: bool)
        requires
            old(self).wf(),
        ensures
            final(self).wf(),
            ok == tree_step(old(self).state(), item, start@ as int) is Some,
            ok ==> final(self).state() == tree_step(old(self).state(), item, start@ as int)->0,
    {
        match item {
            Item::Station { stop, earliest_arrival, .. } => {
                let seconds: i64 = earliest_arrival.seconds_since_midnight() as i64 - start.seconds_since_midnight() as i64;
                if seconds < i32::MIN as i64 || seconds > i32::MAX as i64 {
                    return false;
                }
                proof {
                    reveal_strlit(" (Berlin)");
                }
                let name = replace_text(stop.full_stop_name.as_str(), " (Berlin)", "");
                let fe = FEStop { location: stop.location, name, seconds: earliest_arrival.sub(start) };
                self.add_station(stop.station_id(), fe);
                true
            },
            Item::Transfer { departure_time, arrival_time, from_stop, to_stop } => {
                self.take_connection(from_stop.station_id(), to_stop.station_id(), None, departure_time, arrival_time, start)
            },
            Item::ConnectionToTrip { departure_time, arrival_time, from_stop, to_stop, route_name, .. } => {
                self.take_connection(
                    from_stop.station_id(),
                    to_stop.station_id(),
                    Some(route_name),
                    departure_time,
                    arrival_time,
                    start,
                )
            },
            Item::SegmentOfTrip { departure_time, arrival_time, from_stop, to_stop, trip_id, route_name, route_type, .. } => {
                let (from, to) = match self.ends_of(from_stop.station_id(), to_stop.station_id()) {
                    Some(e) => e,
                    None => {
                        return false;
                    },
                };
                let kind = FEConnectionType::from(route_type);
                if self.is_drawn(from, to, Some(route_name), kind) {
                    return true;
                }
                let from_seconds: i64 = departure_time.seconds_since_midnight() as i64 - start.seconds_since_midnight() as i64;
                let to_seconds: i64 = arrival_time.seconds_since_midnight() as i64 - start.seconds_since_midnight() as i64;
                if from_seconds < i32::MIN as i64 || from_seconds > i32::MAX as i64 || to_seconds < i32::MIN as i64 || to_seconds
                    > i32::MAX as i64 {
                    return false;
                }
                let seg = FESegment { from_seconds: departure_time.sub(start), to_seconds: arrival_time.sub(start), from, to };
                self.add_segment(trip_id, route_name, kind, seg);
                self.draw(from, to, Some(route_name), kind);
                true
            },
        }
    }

    /// Takes a walk, wait or boarding into the tree; says whether it could.
    fn take_connection(
        &mut self,
        from_station: StopId,
        to_station: StopId,
        route_name: Option<&'s str>,
        departure_time: Time,
        arrival_time: Time,
        start: Time,
    ) -> (ok: bool)
        requires
            old(self).wf(),
        ensures
            final(self).wf(),
            ok == (match ends(old(self).state(), from_station, to_station) {
                Some((from, to)) => with_connection(
                    old(self).state(),
                    from,
                    to,
                    name_view(route_name),
                    departure_time@ - start@,
                    arrival_time@ - start@,
                ) is Some,
                None => false,
            }),
            ok ==> final(self).state() == (match ends(old(self).state(), from_station, to_station) {
                Some((from, to)) => with_connection(
                    old(self).state(),
                    from,
                    to,
                    name_view(route_name),
                    departure_time@ - start@,
                    arrival_time@ - start@,
                )->0,
                None => old(self).state(),
            }),
    {
        let (from, to) = match self.ends_of(from_station, to_station) {
            Some(e) => e,
            None => {
                return false;
            },
        };
        if self.is_drawn(from, to, route_name, FEConnectionType::Connection) {
            return true;
        }
        let from_seconds: i64 = departure_time.seconds_since_midnight() as i64 - start.seconds_since_midnight() as i64;
        let to_seconds: i64 = arrival_time.seconds_since_midnight() as i64 - start.seconds_since_midnight() as i64;
        if from_seconds < i32::MIN as i64 || from_seconds > i32::MAX as i64 || to_seconds < i32::MIN as i64 || to_seconds
            > i32::MAX as i64 {
            return false;
        }
        let c = FEConnection { from_seconds: departure_time.sub(start), to_seconds: arrival_time.sub(start), from, to, route_name };
        self.add_connection(c);
        self.draw(from, to, route_name, FEConnectionType::Connection);
        true
    }
}

/// A trip of the tree as the front end gets it: its route, kind and segments.
pub open spec fn route_view(r: FERoute) -> (Seq<char>, FEConnectionType, Seq<(int, int, usize, usize)>) {
    (r.route_name@, r.kind, r.segments@.map_values(|s: FESegment| seg_view(s)))
}

/// The data is the tree: its stations, connections and trips in the order first drawn.
pub open spec fn data_is(d: FEData, st: TreeState) -> bool {
    &&& d.stops@.map_values(|s: FEStop| stop_view(s)) == st.stops
    &&& d.connections@.map_values(|c: FEConnection| conn_view(c)) == st.conns
    &&& d.trips@.map_values(|r: FERoute| route_view(r)) == st.trips.map_values(
        |t: (TripId, Seq<char>, FEConnectionType, Seq<(int, int, usize, usize)>)| (t.1, t.2, t.3),
    )
}

/// The first item, of those given, that the tree cannot take, after all those before it.
pub open spec fn first_refused(items: Seq<Item>, start: int, item: Item) -> bool {
    exists|i: int|
        0 <= i < items.len() && #[trigger] items[i] == item && (tree_of(items.take(i), start) matches Some(st)
            && tree_step(st, item, start) is None)
}

/// The journey tree of the items of a search over `period`, taken in order.
pub fn tree_from_items<'s>(items: &Vec<Item<'s>>, period: Period, day: Day, timetable_date: &str) -> (r: Result<
    FEData<'s>,
    TreeError<'s>,
>)
    requires
        period@.1 - period@.0 <= i32::MAX,
    ensures
        match r {
            Ok(d) => tree_of(items@, period@.0 as int) matches Some(st) && data_is(d, st) && d.departure_day@ == day_key(day)
                && d.timetable_date@ == timetable_date@ && d.departure_time@ == period@.0 && d.duration_minutes == crate::time::trunc_div(period@.1 - period@.0, 60),
            Err(TreeError::UnexpectedItem(item)) => tree_of(items@, period@.0 as int) is None && first_refused(
                items@,
                period@.0 as int,
                item,
            ),
        },
{
    let start = period.start();
    let mut builder = TreeBuilder::new();
    let mut i: usize = 0;
    assert(items@.take(0) =~= Seq::<Item<'s>>::empty());
    while i < items.len()
        invariant
            i <= items@.len(),
            start@ == period@.0,
            builder.wf(),
            tree_of(items@.take(i as int), start@ as int) == Some(builder.state()),
        decreases items@.len() - i,
    {
        let item = items[i];
        let ghost before = builder.state();
        proof {
            assert(items@.take(i + 1).drop_last() =~= items@.take(i as int));
            assert(items@.take(i + 1).last() == item);
        }
        if !builder.take(item, start) {
            proof {
                lemma_refused_stays(items@, start@ as int, i + 1);
                assert(items@[i as int] == item);
                assert(first_refused(items@, start@ as int, item));
                assert(start@ as int == period@.0 as int);
            }
            return Err(TreeError::UnexpectedItem(item));
        }
        i = i + 1;
    }
    assert(items@.take(i as int) =~= items@);
    let ghost st = builder.state();
    let TreeBuilder { stops, index: _, conns, trips, drawn: _ } = builder;
    let mut routes: Vec<FERoute<'s>> = Vec::new();
    let mut trips = trips;
    let ghost all = trips@;
    let mut k: usize = trips.len();
    // the trips are taken from the back and put back in order
    let mut reversed: Vec<FERoute<'s>> = Vec::new();
    while k > 0
        invariant
            k <= all.len(),
            trips@ == all.take(k as int),
            reversed@.len() == all.len() - k,
            forall|j: int| 0 <= j < reversed@.len() ==> route_view(#[trigger] reversed@[j]) == route_view(all[all.len() - 1 - j].1),
        decreases k,
    {
        let (_, route) = trips.pop().unwrap();
        proof {
            assert(all.take(k as int).drop_last() =~= all.take(k - 1));
        }
        reversed.push(route);
        k = k - 1;
    }
    let mut j: usize = reversed.len();
    while j > 0
        invariant
            j <= all.len(),
            reversed@.len() == j,
            forall|m: int| 0 <= m < j ==> route_view(#[trigger] reversed@[m]) == route_view(all[all.len() - 1 - m].1),
            routes@.len() == all.len() - j,
            forall|m: int| 0 <= m < routes@.len() ==> route_view(#[trigger] routes@[m]) == route_view(all[m].1),
        decreases j,
    {
        let route = reversed.pop().unwrap();
        proof {
            assert(route_view(route) == route_view(all[all.len() - j].1));
        }
        routes.push(route);
        j = j - 1;
    }
    proof {
        assert(routes@.map_values(|r: FERoute<'s>| route_view(r)) =~= st.trips.map_values(
            |t: (TripId, Seq<char>, FEConnectionType, Seq<(int, int, usize, usize)>)| (t.1, t.2, t.3),
        ));
        assert(stops@.map_values(|s: FEStop| stop_view(s)) == st.stops);
    }
    let minutes = period.duration().mins();
    Ok(
        FEData {
            stops,
            connections: conns,
            trips: routes,
            timetable_date: timetable_date.to_owned(),
            departure_day: day.as_str().to_owned(),
            departure_time: start,
            duration_minutes: minutes,
        },
    )
}

/// Once an item is refused, the tree of more items is refused too.
proof fn lemma_refused_stays(items: Seq<Item>, start: int, n: int)
    requires
        0 < n <= items.len(),
        tree_of(items.take(n - 1), start) is Some,
        tree_step(tree_of(items.take(n - 1), start)->0, items[n - 1], start) is None,
    ensures
        tree_of(items, start) is None,
        first_refused(items, start, items[n - 1]),
    decreases items.len() - n,
{
    assert(items.take(n).drop_last() =~= items.take(n - 1));
    assert(items.take(n).last() == items[n - 1]);
    assert(tree_of(items.take(n), start) is None);
    lemma_refused_prefix(items, start, n, items.len() as int);
    assert(items.take(items.len() as int) =~= items);
}

/// A refused prefix stays refused as it grows.
proof fn lemma_refused_prefix(items: Seq<Item>, start: int, n: int, m: int)
    requires
        0 <= n <= m <= items.len(),
        tree_of(items.take(n), start) is None,
    ensures
        tree_of(items.take(m), start) is None,
    decreases m - n,
{
    if n < m {
        assert(items.take(n + 1).drop_last() =~= items.take(n));
        lemma_refused_prefix(items, start, n + 1, m);
    }
}

/// What the journey tree of a search from the station gives: the tree of every item the
/// search hands out until it is over, or the first item that the tree cannot take.
#[verifier::opaque]
pub open spec fn tree_outcome<'r>(
    r: Result<FEData<'r>, TreeError<'r>>,
    data: GTFSData,
    station: StopId,
    day: Day,
    period: (nat, nat),
    options: RadarOptions,
) -> bool {
    &&& exists|states: Seq<Plotter<'r>>, items: Seq<Item<'r>>|
        {
            &&& #[trigger] handed_out(states, items)
            &&& fresh_search(states[0], data, day, period, data.stop_map()[station], option_types(options))
            &&& exists|end: Plotter<'r>| #[trigger] states.last().hands_out(end, None)
            &&& (period.0 < period.1 ==> starts_at_origin(items, data.stop_map()[station], period.0))
            &&& forall|k: int| 0 <= k < items.len() ==> item_in_data(#[trigger] items[k], data)
            &&& match r {
                Ok(d) => tree_of(items, period.0 as int) matches Some(st) && data_is(d, st),
                Err(TreeError::UnexpectedItem(item)) => tree_of(items, period.0 as int) is None && first_refused(
                    items,
                    period.0 as int,
                    item,
                ),
            }
        }
    &&& r matches Ok(d) ==> {
        &&& d.departure_time@ == period.0
        &&& d.duration_minutes == crate::time::trunc_div(period.1 - period.0, 60)
        &&& d.departure_day@ == day_key(day)
        &&& d.timetable_date@ == data.start_date()
        &&& forall|i: int| 0 <= i < d.connections@.len() ==> (#[trigger] d.connections@[i]).from < d.stops@.len()
            && d.connections@[i].to < d.stops@.len()
        &&& forall|i: int, j: int|
            0 <= i < d.trips@.len() && 0 <= j < d.trips@[i].segments@.len() ==> (
            #[trigger] d.trips@[i].segments@[j]).from < d.stops@.len() && d.trips@[i].segments@[j].to
                < d.stops@.len()
    }
}

/// The journey tree of a search from the station over the period on the day, with the modes
/// of transport of `options`: every item that the search hands out until it is over, taken in
/// the order it comes; the first item that the tree cannot take is the error.
pub fn produce_tree_json<'r>(
    data: &'r GTFSData,
    station: StopId,
    day: Day,
    period: Period,
    options: &RadarOptions,
) -> (r: Result<FEData<'r>, TreeError<'r>>)
    requires
        searchable(*data, period@.1),
        period@.1 - period@.0 <= i32::MAX,
        data.stop_map().contains_key(station),
    ensures
        tree_outcome(r, *data, station, day, period@, *options),
{
    let mut plotter = Plotter::new(day, period, data);
    let origin = match data.get_stop(&station) {
        Some(stop) => stop,
        None => vstd::pervasive::unreached(),
    };
    plotter.add_origin_station(origin);
    if options.ubahn {
        plotter.add_route_type(RouteType::UrbanRailway);
    }
    if options.sbahn {
        plotter.add_route_type(RouteType::SuburbanRailway);
    }
    if options.bus {
        plotter.add_route_type(RouteType::BusService);
    }
    if options.tram {
        plotter.add_route_type(RouteType::TramService);
    }
    if options.regio {
        plotter.add_route_type(RouteType::RailwayService);
    }
    if options.bus {
        plotter.add_route_type(RouteType::Bus);
    }
    proof {
        assert(plotter.route_type_seq().to_set() =~= option_types(*options));
        assert(fresh_search(plotter, *data, day, period@, data.stop_map()[station], option_types(*options)));
    }
    let ghost first_state = plotter;
    let ghost mut states: Seq<Plotter<'r>> = seq![plotter];
    let ghost mut end: Plotter<'r> = plotter;
    let mut items: Vec<Item<'r>> = Vec::new();
    let ghost origin_stop = data.stop_map()[station];
    let ghost nonempty = period@.0 < period@.1;
    proof {
        if nonempty {
            assert(plotter.lone_origin());
        }
    }
    loop
        invariant_except_break
            states.last() == plotter,
        invariant
            plotter.wf(),
            handed_out(states, items@),
            states[0] == first_state,
            nonempty == (period@.0 < period@.1),
            nonempty && items@.len() == 0 ==> {
                &&& plotter.lone_origin()
                &&& *plotter.queued()[0].to_stop == origin_stop
                &&& plotter.queued()[0].arrival_time@ == period@.0
                &&& plotter.emitted() == Set::<StopId>::empty()
                &&& plotter.pending().len() == 0
            },
            nonempty && items@.len() > 0 ==> starts_at_origin(items@, origin_stop, period@.0),
            plotter.data_of() == *data,
            forall|k: int| 0 <= k < items@.len() ==> item_in_data(#[trigger] items@[k], *data),
        ensures
            nonempty ==> items@.len() > 0,
            states.last().hands_out(end, None),
        decreases plotter.stops_to_reach(), plotter.queued().len(), plotter.pending().len(),
    {
        let ghost before = items@;
        let ghost before_states = states;
        match plotter.next() {
            None => {
                proof {
                    end = plotter;
                }
                break;
            },
            Some(item) => {
                items.push(item);
                proof {
                    states = states.push(plotter);
                    assert forall|i: int| #![trigger items@[i]] 0 <= i < items@.len() implies states[i].hands_out(
                        states[i + 1],
                        Some(items@[i]),
                    ) by {
                        if i < before.len() {
                            assert(items@[i] == before[i]);
                            assert(states[i] == before_states[i] && states[i + 1] == before_states[i + 1]);
                            assert(before_states[i].hands_out(before_states[i + 1], Some(before[i])));
                        }
                    }
                    if nonempty && before.len() > 0 {
                        assert(items@[0] == before[0]);
                    }
                    assert forall|k: int| 0 <= k < items@.len() implies item_in_data(#[trigger] items@[k], *data) by {
                        if k < before.len() {
                            assert(items@[k] == before[k]);
                        }
                    }
                }
            },
        }
    }
    let r = tree_from_items(&items, period, day, data.timetable_start_date());
    proof {
        assert(handed_out(states, items@));
        if r is Ok {
            let d = r->Ok_0;
            let st = tree_of(items@, period@.0 as int)->0;
            assert(tree_of(items@, period@.0 as int) is Some);
            lemma_tree_of_bounded(items@, period@.0 as int);
            assert(d.stops@.len() == st.stops.len()) by {
                assert(d.stops@.map_values(|s: FEStop| stop_view(s)).len() == st.stops.len());
            }
            assert forall|i: int| 0 <= i < d.connections@.len() implies (#[trigger] d.connections@[i]).from < d.stops@.len()
                && d.connections@[i].to < d.stops@.len() by {
                assert(d.connections@.map_values(|c: FEConnection| conn_view(c))[i] == st.conns[i]);
            }
            assert forall|i: int, j: int|
                0 <= i < d.trips@.len() && 0 <= j < d.trips@[i].segments@.len() implies (
                #[trigger] d.trips@[i].segments@[j]).from < d.stops@.len() && d.trips@[i].segments@[j].to < d.stops@.len() by {
                let rv = d.trips@.map_values(|r: FERoute| route_view(r));
                let tv = st.trips.map_values(
                    |t: (TripId, Seq<char>, FEConnectionType, Seq<(int, int, usize, usize)>)| (t.1, t.2, t.3),
                );
                assert(rv.len() == tv.len());
                assert(i < st.trips.len());
                assert(rv[i] == route_view(d.trips@[i]));
                assert(tv[i] == (st.trips[i].1, st.trips[i].2, st.trips[i].3));
                assert(rv[i] == tv[i]);
                let sv = d.trips@[i].segments@.map_values(|x: FESegment| seg_view(x));
                assert(sv == st.trips[i].3);
                assert(sv[j] == seg_view(d.trips@[i].segments@[j]));
                assert(st.trips[i].3[j] == seg_view(d.trips@[i].segments@[j]));
            }
        } else {
            let item = r->Err_0->UnexpectedItem_0;
            assert(first_refused(items@, period@.0 as int, item));
        }
    }
    proof {
        reveal(tree_outcome);
    }
    r
}

/// Why the journey tree of a named station could not be given: no station has the name, or
/// the tree could not take an item of the search.
#[derive(Debug)]
pub enum TreeRequestError<'r> {
    NotFound(String),
    Refused(TreeError<'r>),
}

/// The request for the journey tree from a station named in an address: the name is decoded
/// from its `%` escapes, then, when exactly one station has it, the tree is that of
/// `produce_tree_json` from that station.
#[verifier::spinoff_prover]
pub fn tree_request<'r>(
    raw_name: &str,
    data: &'r GTFSData,
    day: Day,
    period: Period,
    options: &RadarOptions,
) -> (r: Result<Result<FEData<'r>, TreeRequestError<'r>>, RequestRefusal>)
    requires
        searchable(*data, period@.1),
        period@.1 - period@.0 <= i32::MAX,
    ensures
        r matches Err(RequestRefusal::Undecodable) ==> url_decoded(raw_name@) is None,
        r matches Err(RequestRefusal::AmbiguousName) ==> url_decoded(raw_name@) matches Some(name) && !name_unique(
            *data,
            name,
        ),
        r matches Ok(Err(TreeRequestError::NotFound(missing))) ==> url_decoded(raw_name@) matches Some(name) && missing@
            == name && forall|k: StopId| !station_named(*data, k, name),
        r matches Ok(Ok(d)) ==> url_decoded(raw_name@) matches Some(name) && (exists|k: StopId|
            station_named(*data, k, name)) && forall|k: StopId|
            #[trigger] station_named(*data, k, name) ==> tree_outcome(Ok(d), *data, k, day, period@, *options),
        r matches Ok(Err(TreeRequestError::Refused(e))) ==> url_decoded(raw_name@) matches Some(name) && (exists|
            k: StopId,
        | station_named(*data, k, name)) && forall|k: StopId|
            #[trigger] station_named(*data, k, name) ==> tree_outcome(Err(e), *data, k, day, period@, *options),
{
    let name = match url_decode(raw_name) {
        Some(text) => text,
        None => {
            return Err(RequestRefusal::Undecodable);
        },
    };
    if !station_name_unique(data, name.as_str()) {
        return Err(RequestRefusal::AmbiguousName);
    }
    match get_station_by_name(data, name.as_str()) {
        Ok(station) => {
            let ghost k = station.stop_id;
            let result = produce_tree_json(data, station.stop_id, day, period, options);
            proof {
                assert(tree_outcome(result, *data, k, day, period@, *options));
            }
            match result {
                Ok(d) => {
                    proof {
                        assert(station_named(*data, k, name@));
                        assert(url_decoded(raw_name@) == Some(name@));
                        assert(tree_outcome(Ok(d), *data, k, day, period@, *options));
                        assert(station_named(*data, k, url_decoded(raw_name@)->0));
                    }
                    Ok(Ok(d))
                },
                Err(e) => {
                    proof {
                        assert(station_named(*data, k, name@));
                        assert(url_decoded(raw_name@) == Some(name@));
                        assert(tree_outcome(Err(e), *data, k, day, period@, *options));
                        assert(station_named(*data, k, url_decoded(raw_name@)->0));
                    }
                    Ok(Err(TreeRequestError::Refused(e)))
                },
            }
        },
        Err(SearchError::NotFound(missing)) => {
            proof {
                assert(url_decoded(raw_name@) == Some(name@));
            }
            Ok(Err(TreeRequestError::NotFound(missing)))
        },
        Err(SearchError::Ambiguous(_)) => {
            vstd::pervasive::unreached()
        },
    }
}

} // verus!
