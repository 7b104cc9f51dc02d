use transit_radar::gtfs::{Calendar, DayFilter};
use transit_radar::journey_graph::Item;
use transit_radar::loader::{load_data, Feed, RouteRecord, StopRecord, StopTimeRecord, TripRecord};
use transit_radar::search_data::{Day, GTFSData, RouteType};
use transit_radar::time::{Period, Time};
use transit_radar::requests::RadarOptions;
use transit_radar::tree::{produce_tree_json, tree_from_items, FEConnectionType, TreeError};

fn trains() -> RadarOptions {
    RadarOptions {
        ubahn: true,
        sbahn: true,
        bus: false,
        regio: false,
        tram: false,
        start_time: t("07:55:00"),
        end_time: t("08:25:00"),
    }
}

fn t(s: &str) -> Time {
    Time::parse(s).unwrap()
}

fn stop(stop_id: u64, name: &str, location_type: u8, parent_station: Option<u64>) -> StopRecord {
    StopRecord { stop_id, stop_name: name.to_string(), location: (0, 0), location_type, parent_station }
}

fn stop_time(trip_id: u64, arrival: &str, departure: &str, stop_id: u64) -> StopTimeRecord {
    StopTimeRecord { trip_id, arrival_time: t(arrival), departure_time: t(departure), stop_id }
}

/// Three stations on one underground line, and a bus from the last one that leaves too late.
fn data() -> GTFSData {
    let feed = Feed {
        calendars: vec![Calendar {
            service_id: 1,
            monday: 1,
            tuesday: 0,
            wednesday: 0,
            thursday: 0,
            friday: 0,
            saturday: 0,
            sunday: 0,
            start_date: "20200101".to_string(),
        }],
        stops: vec![
            stop(1, "U Alpha (Berlin)", 1, None),
            stop(11, "U Alpha", 0, Some(1)),
            stop(2, "U Beta", 1, None),
            stop(21, "U Beta", 0, Some(2)),
            stop(3, "U Gamma", 1, None),
            stop(31, "U Gamma", 0, Some(3)),
            stop(4, "Delta", 0, None),
        ],
        transfers: vec![],
        routes: vec![
            RouteRecord { route_id: 1, route_short_name: "U1".to_string(), route_type: RouteType::UrbanRailway },
            RouteRecord { route_id: 2, route_short_name: "100".to_string(), route_type: RouteType::BusService },
        ],
        trips: vec![
            TripRecord { route_id: 1, service_id: 1, trip_id: 10 },
            TripRecord { route_id: 2, service_id: 1, trip_id: 20 },
        ],
        stop_times: vec![
            stop_time(10, "08:00:00", "08:00:00", 11),
            stop_time(10, "08:05:00", "08:06:00", 21),
            stop_time(10, "08:10:00", "08:10:00", 31),
            stop_time(20, "09:00:00", "09:00:00", 31),
            stop_time(20, "09:10:00", "09:10:00", 4),
        ],
    };
    load_data(feed, DayFilter::All, &vec![])
}

#[test]
fn tree_of_a_search() {
    let data = data();
    let period = Period::between(t("07:55:00"), t("08:25:00"));
    let tree = produce_tree_json(&data, 1, Day::Monday, period, &trains()).unwrap();
    assert_eq!(tree.departure_day, "mon");
    assert_eq!(tree.timetable_date, data.timetable_start_date());
    assert_eq!(tree.duration_minutes, 30);
    assert_eq!(tree.departure_time.seconds_since_midnight(), t("07:55:00").seconds_since_midnight());
    let stops: Vec<(String, i32)> = tree.stops.iter().map(|s| (s.name.clone(), s.seconds.secs())).collect();
    assert_eq!(stops[0], ("U Alpha".to_string(), 0));
    assert!(stops.contains(&("U Beta".to_string(), 600)));
    assert!(stops.contains(&("U Gamma".to_string(), 900)));
    assert_eq!(tree.trips.len(), 1);
    assert_eq!(tree.trips[0].route_name, "U1");
    assert_eq!(tree.trips[0].kind, FEConnectionType::UrbanRailwayService);
    assert!(!tree.trips[0].segments.is_empty());
    // every connection and segment refers to stations of the tree
    for c in &tree.connections {
        assert!(c.from < tree.stops.len() && c.to < tree.stops.len());
    }
}

#[test]
fn tree_refuses_a_segment_to_an_unreached_station() {
    let data = data();
    let a = data.get_stop(&11).unwrap();
    let b = data.get_stop(&21).unwrap();
    let items = vec![
        Item::Station { stop: data.get_stop(&1).unwrap(), earliest_arrival: t("07:55:00"), name_trunk_length: 0 },
        Item::Transfer { departure_time: t("08:00:00"), arrival_time: t("08:05:00"), from_stop: a, to_stop: b },
    ];
    let period = Period::between(t("07:55:00"), t("08:25:00"));
    match tree_from_items(&items, period, Day::Sunday, "20200101") {
        Err(TreeError::UnexpectedItem(Item::Transfer { to_stop, .. })) => assert_eq!(to_stop.stop_id, 21),
        _ => panic!("expected the transfer to be refused"),
    }
}

#[test]
fn tree_draws_each_connection_once() {
    let data = data();
    let alpha = data.get_stop(&1).unwrap();
    let beta = data.get_stop(&2).unwrap();
    let a = data.get_stop(&11).unwrap();
    let b = data.get_stop(&21).unwrap();
    let items = vec![
        Item::Station { stop: alpha, earliest_arrival: t("07:55:00"), name_trunk_length: 0 },
        Item::Station { stop: beta, earliest_arrival: t("08:05:00"), name_trunk_length: 0 },
        Item::Transfer { departure_time: t("08:00:00"), arrival_time: t("08:05:00"), from_stop: a, to_stop: b },
        Item::Transfer { departure_time: t("08:01:00"), arrival_time: t("08:06:00"), from_stop: a, to_stop: b },
    ];
    let period = Period::between(t("07:55:00"), t("08:25:00"));
    let tree = tree_from_items(&items, period, Day::Sunday, "20200101").unwrap();
    assert_eq!(tree.stops.len(), 2);
    assert_eq!(tree.stops[1].seconds.secs(), 600);
    assert_eq!(tree.connections.len(), 1);
    assert_eq!((tree.connections[0].from, tree.connections[0].to), (0, 1));
    assert_eq!(tree.connections[0].from_seconds.secs(), 300);
    assert_eq!(tree.connections[0].route_name, None);
}

#[test]
fn connection_types_of_routes() {
    assert_eq!(FEConnectionType::from(RouteType::SuburbanRailway), FEConnectionType::SuburbanRailway);
    assert_eq!(FEConnectionType::from(RouteType::WaterTransportService), FEConnectionType::Other(1000));
}

#[test]
fn tree_without_the_mode_has_no_trip() {
    let data = data();
    let period = Period::between(t("07:55:00"), t("08:25:00"));
    let options = RadarOptions { ubahn: false, sbahn: false, ..trains() };
    let tree = produce_tree_json(&data, 1, Day::Friday, period, &options).unwrap();
    assert_eq!(tree.departure_day, "fri");
    assert!(tree.trips.is_empty());
    assert_eq!(tree.stops[0].name, "U Alpha");
}
