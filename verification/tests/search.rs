use std::collections::HashSet;
use transit_radar::gtfs::{Calendar, DayFilter};
use transit_radar::journey_graph::{Item, Plotter};
use transit_radar::loader::{load_data, Feed, RouteRecord, StopRecord, StopTimeRecord, TripRecord};
use transit_radar::loader::SearchError;
use transit_radar::radar::{day_time, search, RadarError, TransitMode};
use transit_radar::requests::{filter_data, RadarOptions};
use transit_radar::search_data::{Day, GTFSData, RouteType};
use transit_radar::sync::{ClientSession, GTFSDataSession, SyncData};
use transit_radar::time::{Duration, Period, Time};

fn t(s: &str) -> Time {
    Time::parse(s).unwrap()
}

fn stop(stop_id: u64, name: &str, location_type: u8, parent_station: Option<u64>) -> StopRecord {
    StopRecord { stop_id, stop_name: name.to_string(), location: (0, 0), location_type, parent_station }
}

fn stop_time(trip_id: u64, arrival: &str, departure: &str, stop_id: u64) -> StopTimeRecord {
    StopTimeRecord { trip_id, arrival_time: t(arrival), departure_time: t(departure), stop_id }
}

/// Three stations on one underground line, and a bus from the last one that leaves too late.
fn data() -> GTFSData {
    let feed = Feed {
        calendars: vec![Calendar {
            service_id: 1,
            monday: 1,
            tuesday: 0,
            wednesday: 0,
            thursday: 0,
            friday: 0,
            saturday: 0,
            sunday: 0,
            start_date: "20200101".to_string(),
        }],
        stops: vec![
            stop(1, "U Alpha", 1, None),
            stop(11, "U Alpha", 0, Some(1)),
            stop(2, "U Beta", 1, None),
            stop(21, "U Beta", 0, Some(2)),
            stop(3, "U Gamma", 1, None),
            stop(31, "U Gamma", 0, Some(3)),
            stop(4, "Delta", 0, None),
        ],
        transfers: vec![],
        routes: vec![
            RouteRecord { route_id: 1, route_short_name: "U1".to_string(), route_type: RouteType::UrbanRailway },
            RouteRecord { route_id: 2, route_short_name: "100".to_string(), route_type: RouteType::BusService },
        ],
        trips: vec![
            TripRecord { route_id: 1, service_id: 1, trip_id: 10 },
            TripRecord { route_id: 2, service_id: 1, trip_id: 20 },
        ],
        stop_times: vec![
            stop_time(10, "08:00:00", "08:00:00", 11),
            stop_time(10, "08:05:00", "08:06:00", 21),
            stop_time(10, "08:10:00", "08:10:00", 31),
            stop_time(20, "09:00:00", "09:00:00", 31),
            stop_time(20, "09:10:00", "09:10:00", 4),
        ],
    };
    load_data(feed, DayFilter::All, &vec![])
}

fn station_arrivals(items: &[Item]) -> Vec<(u64, u32)> {
    items
        .iter()
        .filter_map(|item| match item {
            Item::Station { stop, earliest_arrival, .. } => Some((stop.station_id(), earliest_arrival.seconds_since_midnight())),
            _ => None,
        })
        .collect()
}

#[test]
fn plotter_reaches_stations_in_order_of_arrival() {
    let data = data();
    let origin = data.get_stop(&1).unwrap();
    let mut plotter = Plotter::new(Day::Monday, Period::between(t("07:55:00"), t("08:30:00")), &data);
    plotter.add_origin_station(origin);
    plotter.add_route_type(RouteType::UrbanRailway);
    let mut items = Vec::new();
    while let Some(item) = plotter.next() {
        items.push(item);
    }
    let stations = station_arrivals(&items);
    assert_eq!(stations.first(), Some(&(1, t("07:55:00").seconds_since_midnight())));
    assert!(stations.contains(&(2, t("08:05:00").seconds_since_midnight())));
    assert!(stations.contains(&(3, t("08:10:00").seconds_since_midnight())));
    // each station is reached once, and no later than the stations after it
    let ids: HashSet<u64> = stations.iter().map(|(id, _)| *id).collect();
    assert_eq!(ids.len(), stations.len());
    assert!(stations.windows(2).all(|w| w[0].1 <= w[1].1));
    // the bus is not searched
    assert!(!ids.contains(&4));
    assert!(items.iter().any(|item| matches!(item, Item::ConnectionToTrip { trip_id: 10, .. })));
}

#[test]
fn filtered_data_keeps_what_the_search_reaches() {
    let data = data();
    let origin = data.get_stop(&1).unwrap();
    let mut plotter = Plotter::new(Day::Monday, Period::between(t("07:55:00"), t("08:30:00")), &data);
    plotter.add_origin_station(origin);
    plotter.add_route_type(RouteType::UrbanRailway);
    let filtered = plotter.filtered_data();
    assert!(filtered.get_trip(&10).is_some());
    assert!(filtered.get_trip(&20).is_none());
    assert!(filtered.get_stop(&21).is_some());
    assert!(filtered.get_stop(&4).is_none());
    assert_eq!(filtered.timetable_start_date(), "20200101");
}

#[test]
fn radar_search_gathers_trips_and_stations() {
    let data = data();
    let origin = data.get_stop(&1).unwrap();
    let plan = search(&data, origin, Day::Monday, t("07:55:00"), Duration::minutes(30), &[TransitMode::UBahn]).unwrap();
    assert!(plan.trips().contains_key(&10));
    assert!(!plan.trips().contains_key(&20));
    let trip = &plan.trips()[&10];
    assert_eq!(trip.route_name, "U1");
    assert!(!trip.parts.is_empty());
    assert!(plan.stations().contains_key(&2));
    assert!(plan.stations().contains_key(&3));
}

#[test]
fn radar_search_without_the_mode_reaches_no_trip() {
    let data = data();
    let origin = data.get_stop(&1).unwrap();
    let plan = search(&data, origin, Day::Monday, t("07:55:00"), Duration::minutes(30), &[TransitMode::Bus]).unwrap();
    assert!(plan.trips().is_empty());
}

#[test]
fn day_time_is_berlin_local() {
    // 2020-01-06 07:00:00 UTC was a Monday, 08:00:00 in Berlin
    let (day, time) = day_time(1578294000);
    assert_eq!(day, Day::Monday);
    assert_eq!(time.seconds_since_midnight(), 8 * 3600);
    // 2020-07-05 22:30:00 UTC was a Sunday, Monday 00:30:00 in Berlin (summer time)
    let (day, time) = day_time(1593988200);
    assert_eq!(day, Day::Monday);
    assert_eq!(time.seconds_since_midnight(), 30 * 60);
}

#[test]
fn session_sends_all_then_increments() {
    let data = data();
    let origin = data.get_stop(&1).unwrap();
    let mut plotter = Plotter::new(Day::Monday, Period::between(t("07:55:00"), t("08:30:00")), &data);
    plotter.add_origin_station(origin);
    plotter.add_route_type(RouteType::UrbanRailway);
    let first = plotter.filtered_data();

    let mut session = GTFSDataSession::new(7);
    assert_eq!(session.update_number(), 0);
    match session.add_data(&first, &data) {
        SyncData::Initial { session_id, update_number, data: sent } => {
            assert_eq!(session_id, 7);
            assert_eq!(update_number, 1);
            assert!(sent.get_trip(&10).is_some());
        },
        SyncData::Increment { .. } => panic!("expected all of the data first"),
    }
    // the same search again sends no trip a second time
    match session.add_data(&first, &data) {
        SyncData::Increment { session_id, update_number, increment } => {
            assert_eq!(session_id, 7);
            assert_eq!(update_number, 2);
            assert!(increment.trips.is_empty());
        },
        SyncData::Initial { .. } => panic!("expected an increment"),
    }
    assert_eq!(session.update_number(), 2);
}

fn options(ubahn: bool, bus: bool) -> RadarOptions {
    RadarOptions {
        ubahn,
        sbahn: false,
        bus,
        regio: false,
        tram: false,
        start_time: t("07:55:00"),
        end_time: t("08:30:00"),
    }
}

#[test]
fn filter_data_keeps_what_a_search_by_name_reaches() {
    let data = data();
    let period = Period::between(t("07:55:00"), t("08:30:00"));
    let filtered = filter_data(&data, "U Alpha", &options(true, false), Day::Monday, period).unwrap();
    assert!(filtered.get_trip(&10).is_some());
    assert!(filtered.get_trip(&20).is_none());
    assert!(filtered.get_stop(&3).is_some());
    assert!(filtered.get_stop(&4).is_none());
    let without_ubahn = filter_data(&data, "U Alpha", &options(false, true), Day::Monday, period).unwrap();
    assert!(without_ubahn.get_trip(&10).is_none());
    // the station searched from is always kept
    assert!(without_ubahn.get_stop(&1).is_some());
    match filter_data(&data, "U Omega", &options(true, false), Day::Monday, period) {
        Err(SearchError::NotFound(name)) => assert_eq!(name, "U Omega"),
        _ => panic!("expected no station"),
    }
}

#[test]
fn radar_search_shows_the_origin_at_the_start() {
    let data = data();
    let origin = data.get_stop(&1).unwrap();
    let plan = search(&data, origin, Day::Monday, t("07:55:00"), Duration::minutes(30), &[TransitMode::Bus]).unwrap();
    let mark = &plan.stations()[&origin.station_id()];
    assert_eq!(mark.stop.stop_id, 1);
    assert_eq!(mark.earliest_arrival.seconds_since_midnight(), t("07:55:00").seconds_since_midnight());
    assert_eq!(mark.name_trunk_length, 0);
}

#[test]
fn plotter_starts_with_the_origin_station() {
    let data = data();
    let station = data.get_stop(&1).unwrap();
    let mut plotter = Plotter::new(Day::Monday, Period::between(t("07:55:00"), t("08:30:00")), &data);
    plotter.add_origin_station(station);
    plotter.add_route_type(RouteType::UrbanRailway);
    match plotter.next() {
        Some(Item::Station { stop, earliest_arrival, name_trunk_length }) => {
            assert_eq!(stop.stop_id, 1);
            assert_eq!(earliest_arrival.seconds_since_midnight(), t("07:55:00").seconds_since_midnight());
            assert_eq!(name_trunk_length, 0);
        },
        _ => panic!("expected the origin's station"),
    }
}

#[test]
fn radar_refuses_a_station_reached_after_the_day() {
    let data = data();
    let origin = data.get_stop(&1).unwrap();
    match search(&data, origin, Day::Monday, t("24:10:00"), Duration::minutes(30), &[TransitMode::UBahn]) {
        Err(RadarError::UnexpectedItem(Item::Station { stop, earliest_arrival, .. })) => {
            assert_eq!(stop.stop_id, 1);
            assert_eq!(earliest_arrival.seconds_since_midnight(), t("24:10:00").seconds_since_midnight());
        },
        _ => panic!("expected the origin's station to be refused"),
    }
}

/// Two underground trips from the same platform: the later one reaches the next station first,
/// so the earlier one is set aside there and only handed out once it reaches a new station.
fn overtaking() -> GTFSData {
    let feed = Feed {
        calendars: vec![Calendar {
            service_id: 1,
            monday: 1,
            tuesday: 0,
            wednesday: 0,
            thursday: 0,
            friday: 0,
            saturday: 0,
            sunday: 0,
            start_date: "20200101".to_string(),
        }],
        stops: vec![
            stop(1, "U Alpha", 1, None),
            stop(11, "U Alpha", 0, Some(1)),
            stop(2, "U Beta", 1, None),
            stop(21, "U Beta", 0, Some(2)),
            stop(3, "U Gamma", 1, None),
            stop(31, "U Gamma", 0, Some(3)),
            stop(5, "U Epsilon", 1, None),
            stop(51, "U Epsilon", 0, Some(5)),
        ],
        transfers: vec![],
        routes: vec![RouteRecord { route_id: 1, route_short_name: "U1".to_string(), route_type: RouteType::UrbanRailway }],
        trips: vec![TripRecord { route_id: 1, service_id: 1, trip_id: 10 }, TripRecord { route_id: 1, service_id: 1, trip_id: 30 }],
        stop_times: vec![
            stop_time(10, "08:00:00", "08:00:00", 11),
            stop_time(10, "08:05:00", "08:05:00", 21),
            stop_time(10, "08:10:00", "08:10:00", 31),
            stop_time(30, "08:01:00", "08:01:00", 11),
            stop_time(30, "08:03:00", "08:03:00", 21),
            stop_time(30, "08:20:00", "08:20:00", 51),
        ],
    };
    load_data(feed, DayFilter::All, &vec![])
}

fn arrival_of(item: &Item) -> u32 {
    match item {
        Item::Station { earliest_arrival, .. } => earliest_arrival.seconds_since_midnight(),
        Item::Transfer { arrival_time, .. } => arrival_time.seconds_since_midnight(),
        Item::ConnectionToTrip { arrival_time, .. } => arrival_time.seconds_since_midnight(),
        Item::SegmentOfTrip { arrival_time, .. } => arrival_time.seconds_since_midnight(),
    }
}

#[test]
fn plotter_hands_out_a_trip_set_aside_after_later_arrivals() {
    let data = overtaking();
    let origin = data.get_stop(&1).unwrap();
    let mut plotter = Plotter::new(Day::Monday, Period::between(t("07:55:00"), t("08:30:00")), &data);
    plotter.add_origin_station(origin);
    plotter.add_route_type(RouteType::UrbanRailway);
    let mut items = Vec::new();
    while let Some(item) = plotter.next() {
        items.push(item);
    }
    // stations still come in order of arrival
    let stations = station_arrivals(&items);
    assert!(stations.windows(2).all(|w| w[0].1 <= w[1].1));
    // but the boarding of trip 10, set aside at U Beta, comes after trip 30 reached U Beta
    let boarding = items.iter().position(|i| matches!(i, Item::ConnectionToTrip { trip_id: 10, .. })).unwrap();
    let beta = items.iter().position(|i| matches!(i, Item::Station { stop, .. } if stop.station_id() == 2)).unwrap();
    assert!(beta < boarding);
    assert!(arrival_of(&items[boarding]) < arrival_of(&items[beta]));
}
