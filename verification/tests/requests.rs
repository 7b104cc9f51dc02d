use transit_radar::gtfs::{Calendar, DayFilter};
use transit_radar::loader::{build_station_word_index, load_data, Feed, RouteRecord, SearchError, StopRecord, StopTimeRecord, TripRecord};
use transit_radar::requests::{filter_data_request, station_search, RadarOptions, RequestRefusal};
use transit_radar::search_data::{Day, GTFSData, RouteType};
use transit_radar::time::{Period, Time};
use transit_radar::tree::{tree_request, TreeRequestError};

fn t(s: &str) -> Time {
    Time::parse(s).unwrap()
}

fn stop(stop_id: u64, name: &str, location_type: u8, parent_station: Option<u64>) -> StopRecord {
    StopRecord { stop_id, stop_name: name.to_string(), location: (0, 0), location_type, parent_station }
}

fn stop_time(trip_id: u64, arrival: &str, stop_id: u64) -> StopTimeRecord {
    StopTimeRecord { trip_id, arrival_time: t(arrival), departure_time: t(arrival), stop_id }
}

/// Two stations on one line, one of them named twice, and a lone stop.
fn data() -> GTFSData {
    let feed = Feed {
        calendars: vec![Calendar {
            service_id: 1,
            monday: 1,
            tuesday: 0,
            wednesday: 0,
            thursday: 0,
            friday: 0,
            saturday: 0,
            sunday: 0,
            start_date: "20200101".to_string(),
        }],
        stops: vec![
            stop(1, "U Alpha Platz", 1, None),
            stop(11, "U Alpha Platz", 0, Some(1)),
            stop(2, "U Beta", 1, None),
            stop(21, "U Beta", 0, Some(2)),
            stop(3, "U Twin", 1, None),
            stop(4, "U Twin", 1, None),
        ],
        transfers: vec![],
        routes: vec![RouteRecord { route_id: 1, route_short_name: "U1".to_string(), route_type: RouteType::UrbanRailway }],
        trips: vec![TripRecord { route_id: 1, service_id: 1, trip_id: 10 }],
        stop_times: vec![stop_time(10, "08:00:00", 11), stop_time(10, "08:05:00", 21)],
    };
    load_data(feed, DayFilter::All, &vec![])
}

fn options(ubahn: bool) -> RadarOptions {
    RadarOptions {
        ubahn,
        sbahn: false,
        bus: false,
        regio: false,
        tram: false,
        start_time: t("07:55:00"),
        end_time: t("08:30:00"),
    }
}

#[test]
fn station_search_decodes_the_query() {
    let data = data();
    let index = build_station_word_index(&data);
    let found = station_search("alpha%20pl", &data, &index, 20).unwrap();
    assert_eq!(found, vec![(1, "U Alpha Platz".to_string())]);
    let twins = station_search("twin", &data, &index, 20).unwrap();
    assert_eq!(twins.len(), 2);
    assert_eq!(station_search("twin", &data, &index, 1).unwrap().len(), 1);
    assert!(station_search("omega", &data, &index, 20).unwrap().is_empty());
    // an escape that decodes to bytes that are not UTF-8
    assert!(station_search("%FF", &data, &index, 20).is_none());
}

#[test]
fn filter_data_request_decodes_the_name() {
    let data = data();
    let period = Period::between(t("07:55:00"), t("08:30:00"));
    let filtered = filter_data_request("U%20Alpha%20Platz", &data, &options(true), Day::Monday, period).unwrap().unwrap();
    assert!(filtered.get_trip(&10).is_some());
    assert!(filtered.get_stop(&21).is_some());
    assert!(filtered.get_stop(&3).is_none());
    let without = filter_data_request("U%20Alpha%20Platz", &data, &options(false), Day::Monday, period).unwrap().unwrap();
    assert!(without.get_trip(&10).is_none());
    assert!(without.get_stop(&1).is_some());
    assert!(matches!(filter_data_request("U%20Twin", &data, &options(true), Day::Monday, period), Err(RequestRefusal::AmbiguousName)));
    assert!(matches!(filter_data_request("%FF", &data, &options(true), Day::Monday, period), Err(RequestRefusal::Undecodable)));
    match filter_data_request("U%20Omega", &data, &options(true), Day::Monday, period) {
        Ok(Err(SearchError::NotFound(name))) => assert_eq!(name, "U Omega"),
        _ => panic!("expected no station"),
    }
}

#[test]
fn tree_request_decodes_the_name() {
    let data = data();
    let period = Period::between(t("07:55:00"), t("08:30:00"));
    let tree = tree_request("U%20Alpha%20Platz", &data, Day::Monday, period, &options(true)).unwrap().unwrap();
    assert_eq!(tree.stops[0].name, "U Alpha Platz");
    assert_eq!(tree.departure_day, "mon");
    assert!(matches!(tree_request("U%20Twin", &data, Day::Monday, period, &options(true)), Err(RequestRefusal::AmbiguousName)));
    match tree_request("Nowhere", &data, Day::Monday, period, &options(true)) {
        Ok(Err(TreeRequestError::NotFound(name))) => assert_eq!(name, "Nowhere"),
        _ => panic!("expected no station"),
    }
}
