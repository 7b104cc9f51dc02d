use std::collections::{HashMap, HashSet};
use transit_radar::backend::{GTFSSource, StopRecord, Trip};
use transit_radar::time::{Duration, Time};
use transit_radar::travel::{split_runs, StopTimeRecord};

fn hm(h: u32, m: u32) -> Time {
    Time::from_hms(h, m, 0)
}

fn record(trip_id: u64, stop_id: u64, arrival: Time, departure: Time) -> StopTimeRecord {
    StopTimeRecord { trip_id, arrival_time: arrival, departure_time: departure, stop_id }
}

fn trip(trip_id: u64, route_id: &str, service_id: u16, direction_id: u8) -> Trip {
    Trip {
        route_id: route_id.to_string(),
        service_id,
        trip_id,
        trip_headsign: "Somewhere".to_string(),
        trip_short_name: None,
        direction_id,
        block_id: None,
        shape_id: 1,
        wheelchair_accessible: None,
        bikes_allowed: None,
    }
}

fn secs(stops: &Vec<(u64, Duration)>) -> Vec<(u64, i32)> {
    stops.iter().map(|(s, d)| (*s, d.secs())).collect()
}

#[test]
fn runs_split_where_the_trip_changes() {
    let records = vec![
        record(1, 10, hm(9, 0), hm(9, 0)),
        record(1, 11, hm(9, 5), hm(9, 5)),
        record(2, 10, hm(9, 1), hm(9, 1)),
        record(1, 12, hm(9, 9), hm(9, 9)),
    ];
    let runs = split_runs(&records);
    let lens: Vec<usize> = runs.iter().map(|r| r.len()).collect();
    assert_eq!(lens, vec![2, 1, 1]);
    assert_eq!(runs[2][0].stop_id, 12);
}

#[test]
fn travel_times_start_at_the_first_departure_soon() {
    let source = GTFSSource::new("gtfs");
    let records = vec![
        // trip 1 leaves stop 10 at 9:05, within the half hour
        record(1, 9, hm(9, 0), hm(9, 1)),
        record(1, 10, hm(9, 4), hm(9, 5)),
        record(1, 11, hm(9, 10), hm(9, 11)),
        record(1, 12, hm(9, 20), hm(9, 21)),
        // trip 2 is not available
        record(2, 10, hm(9, 6), hm(9, 7)),
        record(2, 13, hm(9, 16), hm(9, 17)),
        // trip 3 leaves stop 10 too late
        record(3, 10, hm(9, 40), hm(9, 41)),
        record(3, 11, hm(9, 50), hm(9, 51)),
        // trip 4 leaves stop 20 exactly at the time asked: not after it
        record(4, 20, hm(9, 0), hm(9, 0)),
        record(4, 21, hm(9, 3), hm(9, 3)),
    ];
    let departure_stops: HashSet<u64> = [10, 20].iter().copied().collect();
    let mut available = HashMap::new();
    for id in [1u64, 3, 4] {
        available.insert(id, trip(id, "U8", 1, 0));
    }
    let trips = source.non_branching_travel_times_from(&records, &departure_stops, &available, hm(9, 0));
    assert_eq!(trips.len(), 1);
    assert_eq!(trips[0].0, 1);
    assert_eq!(secs(&trips[0].1), vec![(10, 240), (11, 600), (12, 1200)]);
}

#[test]
fn average_route_merges_the_chosen_trips() {
    let source = GTFSSource::new("gtfs");
    // platforms 101/102 belong to station 1, 201/202 to 2, 301 to 3
    let stations: HashMap<u64, u64> =
        [(101, 1), (102, 1), (201, 2), (202, 2), (301, 3)].iter().copied().collect();
    let records = vec![
        record(7, 101, hm(8, 0), hm(8, 0)),
        record(7, 201, hm(8, 2), hm(8, 3)),
        record(8, 999, hm(8, 0), hm(8, 0)),
        record(9, 202, hm(8, 10), hm(8, 10)),
        record(9, 301, hm(8, 14), hm(8, 15)),
        record(10, 102, hm(9, 0), hm(9, 0)),
        record(10, 201, hm(9, 4), hm(9, 5)),
        record(10, 301, hm(9, 9), hm(9, 10)),
    ];
    let chosen: HashSet<u64> = [7, 9, 10].iter().copied().collect();
    let combined = source.get_average_stop_times_on_trips(&records, &chosen, &stations);
    let view: Vec<(u64, i32, u16)> = combined.iter().map(|(s, d, n)| (*s, d.secs(), *n)).collect();
    assert_eq!(view, vec![(1, 0, 2), (2, 180 + 0 + 300, 3), (3, 300 + 300, 2)]);
}

#[test]
fn get_trips_filters_by_route_service_and_direction() {
    let source = GTFSSource::new("gtfs");
    let records = vec![
        trip(1, "U8", 1, 0),
        trip(2, "U8", 2, 0),
        trip(3, "U8", 1, 1),
        trip(4, "S1", 1, 0),
    ];
    let services: HashSet<u16> = [1].iter().copied().collect();
    let ids = |trips: Vec<Trip>| trips.iter().map(|t| t.trip_id).collect::<Vec<_>>();
    assert_eq!(ids(source.get_trips(&records, Some("U8".to_string()), services.clone(), Some(0))), vec![1]);
    assert_eq!(ids(source.get_trips(&records, None, services.clone(), None)), vec![1, 3, 4]);
    assert_eq!(ids(source.get_trips(&records, Some("U8".to_string()), services, None)), vec![1, 3]);
    assert_eq!(ids(source.get_trips(&records, None, HashSet::new(), None)), Vec::<u64>::new());
}

fn stop(id: &str, parent: Option<&str>) -> StopRecord {
    StopRecord { stop_id: id.to_string(), parent_station: parent.map(|p| p.to_string()) }
}

#[test]
fn stops_by_id_keeps_the_last_of_each_id() {
    let source = GTFSSource::new("gtfs");
    let by_id = source.stops_by_id(vec![
        stop("a", None),
        stop("b", Some("a")),
        stop("a", Some("c")),
    ]);
    let view: Vec<(String, Option<String>)> =
        by_id.iter().map(|s| (s.stop_id.clone(), s.parent_station.clone())).collect();
    assert_eq!(
        view,
        vec![("a".to_string(), Some("c".to_string())), ("b".to_string(), Some("a".to_string()))]
    );
}

#[test]
fn parent_stations_map_stops_to_their_stations() {
    let stops = vec![stop("s", None), stop("s1", Some("s")), stop("s2", Some("s")), stop("t", None)];
    let stations = GTFSSource::parent_stations_by_id(&stops);
    let view: Vec<(String, String)> =
        stations.iter().map(|(id, st)| (id.clone(), st.stop_id.clone())).collect();
    assert_eq!(
        view,
        vec![
            ("s".to_string(), "s".to_string()),
            ("s1".to_string(), "s".to_string()),
            ("s2".to_string(), "s".to_string()),
            ("t".to_string(), "t".to_string()),
        ]
    );
}
