//! The searches behind the web server's requests: the data that a search from a station
//! reaches, with the modes of transport asked for, and the stations whose names a query finds.
use vstd::prelude::*;
use vstd::std_specs::iter::IteratorSpec;

use crate::journey_graph::{blocks_stops, blocks_trips, fresh_search, processed_blocks, searchable, Plotter, QueueItem};
use crate::loader::{get_station_by_name, station_name_unique, station_named, SearchError};
use crate::search_data::{Day, GTFSData, RouteType, StopId, TripId};
use crate::suggester::{ids_of_words, ids_with_prefix, search_result, words_of, Suggester};
use crate::time::{Period, Time};

verus! {

/// The kinds of route that the modes of transport asked for stand for: U-Bahn for urban
/// railways, S-Bahn for suburban railways, bus for both kinds of bus service, tram for trams,
/// regional for railway services.
pub open spec fn option_types(options: RadarOptions) -> Set<RouteType> {
    Set::new(
        |t: RouteType|
            {
                ||| options.ubahn && t == RouteType::UrbanRailway
                ||| options.sbahn && t == RouteType::SuburbanRailway
                ||| options.bus && (t == RouteType::BusService || t == RouteType::Bus)
                ||| options.tram && t == RouteType::TramService
                ||| options.regio && t == RouteType::RailwayService
            },
    )
}

/// Each kind of route is searched exactly when the option of its mode is set: urban
/// railways for `ubahn`, suburban railways for `sbahn`, both kinds of bus service for `bus`,
/// trams for `tram`, railway services for `regio`; long-distance rail and water transport
/// never; so no option brings in a kind of route of another.
pub proof fn law_options_choose_route_types(options: RadarOptions, rt: RouteType)
    ensures
        rt == RouteType::UrbanRailway ==> (option_types(options).contains(rt) <==> options.ubahn),
        rt == RouteType::SuburbanRailway ==> (option_types(options).contains(rt) <==> options.sbahn),
        rt == RouteType::BusService ==> (option_types(options).contains(rt) <==> options.bus),
        rt == RouteType::Bus ==> (option_types(options).contains(rt) <==> options.bus),
        rt == RouteType::TramService ==> (option_types(options).contains(rt) <==> options.tram),
        rt == RouteType::RailwayService ==> (option_types(options).contains(rt) <==> options.regio),
        rt == RouteType::Rail ==> !option_types(options).contains(rt),
        rt == RouteType::WaterTransportService ==> !option_types(options).contains(rt),
{
}

/// The modes of transport that a request asks for, and the times it covers.
#[derive(Debug, Clone, Copy)]
pub struct RadarOptions {
    pub ubahn: bool,
    pub sbahn: bool,
    pub bus: bool,
    pub regio: bool,
    pub tram: bool,
    pub start_time: Time,
    pub end_time: Time,
}

/// The data that a filtered search keeps: well formed, of the same services and date, and
/// holding only copies of stops and trips of `data`.
pub open spec fn kept_from(d: GTFSData, data: GTFSData) -> bool {
    &&& d.wf()
    &&& d.day_services() == data.day_services()
    &&& d.start_date() == data.start_date()
    &&& forall|t: TripId| #[trigger] d.trip_map().contains_key(t) ==> data.trip_map().contains_key(t)
        && d.trip_map()[t].same_as(&data.trip_map()[t])
    &&& forall|s: StopId| #[trigger] d.stop_map().contains_key(s) ==> data.stop_map().contains_key(s)
        && d.stop_map()[s].same_as(&data.stop_map()[s])
}

/// What a filtered search from the station with exactly the name gives: the data kept,
/// with the route types of the options, or that no station has the name.
pub open spec fn filter_outcome(
    r: Result<GTFSData, SearchError>,
    data: GTFSData,
    name: Seq<char>,
    options: RadarOptions,
    day: Day,
    period: (nat, nat),
) -> bool {
    match r {
        Ok(d) => {
            &&& exists|k: StopId| station_named(data, k, name)
            &&& kept_from(d, data)
            &&& period.0 < period.1 ==> forall|k: StopId| #[trigger] station_named(data, k, name)
                ==> d.stop_map().contains_key(k)
            &&& exists|states: Seq<Plotter>, blocks: Seq<Seq<QueueItem>>, k: StopId|
                #![trigger processed_blocks(states, blocks), station_named(data, k, name)]
                {
                    &&& processed_blocks(states, blocks)
                    &&& station_named(data, k, name)
                    &&& fresh_search(states[0], data, day, period, data.stop_map()[k], option_types(options))
                    &&& exists|end: Plotter| #[trigger] states.last().raw_step(end, Seq::empty())
                    &&& d.stop_map().dom() == blocks_stops(blocks, data)
                    &&& d.trip_map().dom() == blocks_trips(blocks)
                }
        },
        Err(SearchError::NotFound(missing)) => missing@ == name && forall|k: StopId| !station_named(data, k, name),
        Err(SearchError::Ambiguous(_)) => false,
    }
}

/// Searches from the station with exactly the name over the period on the day, by the modes
/// of transport that the options ask for, and keeps of the data what the search reaches; or
/// says that no station has the name.
pub fn filter_data(
    data: &GTFSData,
    station_name: &str,
    options: &RadarOptions,
    day: Day,
    period: Period,
) -> (r: Result<GTFSData, SearchError>)
    requires
        searchable(*data, period@.1),
        forall|k1: StopId, k2: StopId|
            station_named(*data, k1, station_name@) && station_named(*data, k2, station_name@) ==> k1 == k2,
    ensures
        filter_outcome(r, *data, station_name@, *options, day, period@),
{
    let station = get_station_by_name(data, station_name)?;
    assert(station_named(*data, station.stop_id, station_name@));
    let mut plotter = Plotter::new(day, period, data);
    plotter.add_origin_station(station);
    if options.ubahn {
        plotter.add_route_type(RouteType::UrbanRailway);
    }
    if options.sbahn {
        plotter.add_route_type(RouteType::SuburbanRailway);
    }
    if options.bus {
        plotter.add_route_type(RouteType::BusService);
    }
    if options.tram {
        plotter.add_route_type(RouteType::TramService);
    }
    if options.regio {
        plotter.add_route_type(RouteType::RailwayService);
    }
    if options.bus {
        plotter.add_route_type(RouteType::Bus);
    }
    assert(plotter.data_of() == *data);
    proof {
        if period@.0 < period@.1 {
            assert(plotter.lone_origin());
        }
        assert(plotter.route_type_seq().to_set() =~= option_types(*options));
        assert(fresh_search(plotter, *data, day, period@, data.stop_map()[station.stop_id], option_types(*options)));
    }
    let ghost first = plotter;
    let d = plotter.filtered_data();
    proof {
        let (states, blocks) = choose|states: Seq<Plotter>, blocks: Seq<Seq<QueueItem>>|
            {
                &&& #[trigger] processed_blocks(states, blocks)
                &&& states[0] == first
                &&& exists|end: Plotter| #[trigger] states.last().raw_step(end, Seq::empty())
                &&& d.stop_map().dom() == blocks_stops(blocks, first.data_of())
                &&& d.trip_map().dom() == blocks_trips(blocks)
            };
        assert(processed_blocks(states, blocks));
        assert(station_named(*data, station.stop_id, station_name@));
    }
    Ok(d)
}

/// What urlencoding's `decode` makes of a text: the text with its `%` escapes decoded, or
/// nothing when the decoded bytes are not UTF-8.
pub uninterp spec fn url_decoded(s: Seq<char>) -> Option<Seq<char>>;

/// urlencoding's `decode`, made an owned `String`.
/// Claims that the result is what `url_decoded` names, and that a text without `%` is
/// decoded to itself, since `decode` hands such a text back as it is.
#[verifier::external_body]
pub(crate) fn url_decode(s: &str) -> (r: Option<String>)
    ensures
        match r {
            Some(t) => url_decoded(s@) == Some(t@),
            None => url_decoded(s@) is None,
        },
        !s@.contains('%') ==> r is Some && r->0@ == s@,
{
    match urlencoding::decode(s) {
        Ok(text) => Some(text.into_owned()),
        Err(_) => None,
    }
}

/// Every id that the map gives a key is a stop of the data.
pub open spec fn ids_are_stops(m: Map<Seq<char>, Set<u64>>, data: GTFSData) -> bool {
    forall|k: Seq<char>, v: u64| #![trigger m[k].contains(v)] m.contains_key(k) && m[k].contains(v) ==> data.stop_map().contains_key(v)
}

/// The ids that the words of a query find are stops, when the map's ids are.
proof fn lemma_words_find_stops(m: Map<Seq<char>, Set<u64>>, parts: Seq<Seq<char>>, data: GTFSData)
    requires
        ids_are_stops(m, data),
    ensures
        ids_of_words(m, parts) matches Some(found) ==> forall|v: u64| #[trigger] found.contains(v) ==> data.stop_map().contains_key(v),
    decreases parts.len(),
{
    if parts.len() > 0 {
        lemma_words_find_stops(m, parts.drop_last(), data);
        let p = crate::suggester::lowercase(parts.last());
        assert forall|v: u64| #[trigger] ids_with_prefix(m, p).contains(v) implies data.stop_map().contains_key(v) by {
            let k = choose|k: Seq<char>| #[trigger] m.contains_key(k) && p.len() > 0 && p.is_prefix_of(k) && m[k].contains(v);
            assert(m[k].contains(v));
        }
    }
}

/// The ids that a query finds are stops, when those of the names and words are.
proof fn lemma_search_finds_stops(names: Map<Seq<char>, Set<u64>>, words: Map<Seq<char>, Set<u64>>, query: Seq<char>, data: GTFSData)
    requires
        ids_are_stops(names, data),
        ids_are_stops(words, data),
    ensures
        forall|v: u64| #[trigger] search_result(names, words, query).contains(v) ==> data.stop_map().contains_key(v),
{
    lemma_words_find_stops(words, words_of(query), data);
    assert forall|v: u64| #[trigger] search_result(names, words, query).contains(v) implies data.stop_map().contains_key(v) by {
        if names.contains_key(query) {
            assert(names[query].contains(v));
        }
    }
}

/// The stations that a query in an address finds: the query is decoded from its `%` escapes,
/// nothing when that fails; the names and words of the index find ids, of which at most
/// `limit` are kept, in the order the found set gives them, each with its stop's name.
pub fn station_search(query: &str, data: &GTFSData, index: &Suggester, limit: usize) -> (r: Option<Vec<(StopId, String)>>)
    requires
        ids_are_stops(index.names(), *data),
        ids_are_stops(index.words(), *data),
    ensures
        r is None <==> url_decoded(query@) is None,
        r matches Some(found) ==> exists|order: Seq<StopId>|
            {
                &&& #[trigger] order.to_set() == search_result(index.names(), index.words(), url_decoded(query@)->0)
                &&& order.no_duplicates()
                &&& found@.len() == if limit < order.len() {
                    limit as int
                } else {
                    order.len() as int
                }
                &&& forall|i: int|
                    0 <= i < found@.len() ==> (#[trigger] found@[i]).0 == order[i] && found@[i].1@
                        == data.stop_map()[order[i]].full_stop_name@
            },
{
    let decoded = match url_decode(query) {
        Some(text) => text,
        None => {
            return None;
        },
    };
    let ids = index.search(decoded.as_str());
    let mut all: Vec<u64> = Vec::new();
    for id in it: ids.iter()
        invariant
            it.seq() == vstd::std_specs::hash::spec_hash_keys_iter(&ids).remaining(),
            all@ == it.seq().take(it.index()).map_values(|k: &u64| *k),
    {
        let ghost before = all@;
        all.push(*id);
        proof {
            assert(it.seq().take(it.index() + 1).map_values(|k: &u64| *k) =~= before.push(*id));
        }
    }
    let ghost found_set = search_result(index.names(), index.words(), decoded@);
    proof {
        vstd::std_specs::hash::axiom_spec_hash_keys_iter(&ids);
        let rest = vstd::std_specs::hash::spec_hash_keys_iter(&ids).remaining();
        assert(rest.take(rest.len() as int).map_values(|k: &u64| *k) =~= rest.unref());
        lemma_search_finds_stops(index.names(), index.words(), decoded@, *data);
        assert(all@.to_set() == ids@);
    }
    let n: usize = if limit < all.len() {
        limit
    } else {
        all.len()
    };
    let mut found: Vec<(StopId, String)> = Vec::new();
    let mut i: usize = 0;
    while i < n
        invariant
            i <= n <= all@.len(),
            all@.to_set() == found_set,
            forall|v: u64| #[trigger] found_set.contains(v) ==> data.stop_map().contains_key(v),
            found@.len() == i,
            forall|j: int|
                0 <= j < i ==> (#[trigger] found@[j]).0 == all@[j] && found@[j].1@ == data.stop_map()[all@[j]].full_stop_name@,
        decreases n - i,
    {
        let id = all[i];
        proof {
            assert(all@.to_set().contains(all@[i as int]));
        }
        match data.get_stop(&id) {
            Some(stop) => {
                found.push((id, stop.full_stop_name.clone()));
            },
            None => {
                vstd::pervasive::unreached()
            },
        }
        i = i + 1;
    }
    proof {
        assert(all@.to_set() == found_set);
    }
    Some(found)
}

/// Why a request is answered before any search: its name does not decode from its `%`
/// escapes, or several stations have the decoded name.
#[derive(Debug, Clone, Copy, PartialEq, Eq)]
pub enum RequestRefusal {
    Undecodable,
    AmbiguousName,
}

/// At most one station has exactly the name.
pub open spec fn name_unique(data: GTFSData, name: Seq<char>) -> bool {
    forall|k1: StopId, k2: StopId| station_named(data, k1, name) && station_named(data, k2, name) ==> k1 == k2
}

/// The request for the data that a search reaches from a station named in an address: the
/// name is decoded from its `%` escapes, then, when one station at most has it, the search
/// is that of `filter_data`.
pub fn filter_data_request(
    raw_name: &str,
    data: &GTFSData,
    options: &RadarOptions,
    day: Day,
    period: Period,
) -> (r: Result<Result<GTFSData, SearchError>, RequestRefusal>)
    requires
        searchable(*data, period@.1),
    ensures
        match r {
            Err(RequestRefusal::Undecodable) => url_decoded(raw_name@) is None,
            Err(RequestRefusal::AmbiguousName) => url_decoded(raw_name@) matches Some(name) && !name_unique(*data, name),
            Ok(found) => url_decoded(raw_name@) matches Some(name) && name_unique(*data, name) && filter_outcome(
                found,
                *data,
                name,
                *options,
                day,
                period@,
            ),
        },
{
    let name = match url_decode(raw_name) {
        Some(text) => text,
        None => {
            return Err(RequestRefusal::Undecodable);
        },
    };
    if !station_name_unique(data, name.as_str()) {
        return Err(RequestRefusal::AmbiguousName);
    }
    Ok(filter_data(data, name.as_str(), options, day, period))
}

} // verus!
