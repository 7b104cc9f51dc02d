use transit_radar::gtfs::{Calendar, DayFilter};
use transit_radar::loader::{
    build_station_word_index, check_feed, get_station_by_name, load_data, services_by_day, station_name_unique, strip_stop_name, Feed,
    FeedError, RouteRecord, SearchError, StopRecord, StopTimeRecord, TransferRecord, TripRecord,
};
use transit_radar::search_data::{Day, GTFSData, RouteType, StopStereoType};
use transit_radar::time::{Duration, Time};

#[test]
fn test_strip() {
    for (input, output) in &[
        ("Berlin, Birkholzer Weg/Straße 8", "Birkholzer Weg/Straße 8"),
        ("S Mahlsdorf (Berlin) [Tram Bus Treskowstr.]", "Mahlsdorf"),
        ("S Strausberg [Tram]", "Strausberg"),
        (
            "Dallgow-Döberitz, Finkenkruger Str.",
            "Dallgow-Döberitz, Finkenkruger Str.",
        ),
        ("S+U Alexanderplatz (Berlin) [U2]", "Alexanderplatz"),
        ("S+U Gesundbrunnen Bhf (Berlin)", "Gesundbrunnen"),
        (
            "Berlin, S+U Alexanderplatz Bhf/Memhardstr.",
            "Alexanderplatz/Memhardstr.",
        ),
    ] {
        assert_eq!(strip_stop_name(input), *output);
    }
}

fn calendar(service_id: u16, monday: u8, sunday: u8, start_date: &str) -> Calendar {
    Calendar {
        service_id,
        monday,
        tuesday: 0,
        wednesday: 0,
        thursday: 0,
        friday: 0,
        saturday: 0,
        sunday,
        start_date: start_date.to_string(),
    }
}

fn stop(stop_id: u64, name: &str, location_type: u8, parent_station: Option<u64>) -> StopRecord {
    StopRecord { stop_id, stop_name: name.to_string(), location: (0, 0), location_type, parent_station }
}

fn stop_time(trip_id: u64, time: &str, stop_id: u64) -> StopTimeRecord {
    let t = Time::parse(time).unwrap();
    StopTimeRecord { trip_id, arrival_time: t, departure_time: t, stop_id }
}

fn feed() -> Feed {
    Feed {
        calendars: vec![calendar(1, 1, 0, "20200101"), calendar(2, 0, 1, "20200102")],
        stops: vec![
            stop(1, "S+U Alexanderplatz (Berlin) [U2]", 1, None),
            stop(11, "S+U Alexanderplatz (Berlin) [U2]", 0, Some(1)),
            stop(12, "S+U Alexanderplatz (Berlin) [U2]", 2, Some(1)),
            stop(13, "Node", 3, Some(1)),
            stop(2, "Berlin, Birkholzer Weg", 0, None),
        ],
        transfers: vec![TransferRecord { from_stop_id: 11, to_stop_id: 2, min_transfer_time: Some(Duration::seconds(120)) }],
        routes: vec![
            RouteRecord { route_id: 100, route_short_name: "U2".to_string(), route_type: RouteType::UrbanRailway },
            RouteRecord { route_id: 200, route_short_name: "M4".to_string(), route_type: RouteType::TramService },
        ],
        trips: vec![
            TripRecord { route_id: 100, service_id: 1, trip_id: 1 },
            TripRecord { route_id: 200, service_id: 2, trip_id: 2 },
        ],
        stop_times: vec![stop_time(1, "08:00:00", 11), stop_time(2, "09:00:00", 2), stop_time(1, "08:05:00", 2)],
    }
}

fn colors() -> Vec<(String, String)> {
    vec![("U2".to_string(), "#000000".to_string()), ("U2".to_string(), "#ff0000".to_string())]
}

#[test]
fn services_by_day_lists_days_with_services() {
    let by_day = services_by_day(&feed().calendars);
    assert_eq!(by_day, vec![(Day::Monday, vec![1]), (Day::Sunday, vec![2])]);
}

#[test]
fn load_data_of_a_single_day() {
    let data: GTFSData = load_data(feed(), DayFilter::Single(Day::Monday), &colors());
    assert_eq!(data.timetable_start_date(), "20200102");
    assert!(data.services_of_day(Day::Monday).contains(&1));
    assert!(data.services_of_day(Day::Sunday).contains(&2));

    let station = data.get_stop(&1).unwrap();
    assert_eq!(station.short_stop_name, "Alexanderplatz");
    match &station.stereotype {
        StopStereoType::Station { stops_or_platforms } => assert_eq!(stops_or_platforms, &vec![11, 12]),
        _ => panic!("expected a station"),
    }
    assert!(data.get_stop(&13).is_none());
    let platform = data.get_stop(&11).unwrap();
    assert_eq!(platform.transfers.len(), 1);
    assert_eq!(platform.transfers[0].to_stop_id, 2);
    assert_eq!(data.get_stop(&2).unwrap().short_stop_name, "Birkholzer Weg");

    let trip = data.get_trip(&1).unwrap();
    assert_eq!(trip.route.route_color, "#ff0000");
    assert_eq!(trip.stop_times.len(), 2);
    assert_eq!(trip.stop_times[1].stop_id, 2);
    assert!(data.get_trip(&2).is_none());
}

#[test]
fn load_data_of_all_days_colours_routes_by_type() {
    let data = load_data(feed(), DayFilter::All, &colors());
    let trip = data.get_trip(&2).unwrap();
    assert_eq!(trip.route.route_color, "lightgray");
    assert_eq!(trip.stop_times.len(), 1);
}

#[test]
fn get_station_by_name_finds_the_station() {
    let data = load_data(feed(), DayFilter::All, &colors());
    let station = get_station_by_name(&data, "S+U Alexanderplatz (Berlin) [U2]").unwrap();
    assert_eq!(station.stop_id, 1);
    match get_station_by_name(&data, "Alexanderplatz") {
        Err(SearchError::NotFound(name)) => assert_eq!(name, "Alexanderplatz"),
        _ => panic!("expected no station"),
    }
}

#[test]
fn station_word_index_finds_stations_by_word() {
    let data = load_data(feed(), DayFilter::All, &colors());
    let index = build_station_word_index(&data);
    assert_eq!(index.search("alexanderplatz"), [1].into_iter().collect());
    assert_eq!(index.search("Birkholzer"), [2].into_iter().collect());
    assert_eq!(index.search("berlin"), [2].into_iter().collect());
    assert_eq!(index.search("S+U Alexanderplatz (Berlin) [U2]"), [1].into_iter().collect());
}

#[test]
fn check_feed_accepts_a_consistent_feed() {
    assert_eq!(check_feed(&feed(), DayFilter::All), Ok(()));
    assert_eq!(check_feed(&feed(), DayFilter::Single(Day::Monday)), Ok(()));
}

#[test]
fn check_feed_finds_each_problem() {
    assert_eq!(check_feed(&feed(), DayFilter::Single(Day::Tuesday)), Err(FeedError::NoServiceOnDay(Day::Tuesday)));

    let mut f = feed();
    f.stops.push(stop(5, "Bad", 1, Some(1)));
    assert_eq!(check_feed(&f, DayFilter::All), Err(FeedError::BadStop(5)));

    let mut f = feed();
    f.stops.push(stop(6, "Entrance", 2, Some(2)));
    assert_eq!(check_feed(&f, DayFilter::All), Err(FeedError::ParentNotStation(2)));

    let mut f = feed();
    f.transfers.push(TransferRecord { from_stop_id: 99, to_stop_id: 2, min_transfer_time: None });
    assert_eq!(check_feed(&f, DayFilter::All), Err(FeedError::UnknownTransferStop(99)));

    let mut f = feed();
    f.trips.push(TripRecord { route_id: 300, service_id: 1, trip_id: 3 });
    assert_eq!(check_feed(&f, DayFilter::All), Err(FeedError::UnknownRoute(3)));

    // a repeated trip is no problem: the last record wins
    let mut f = feed();
    f.trips.push(TripRecord { route_id: 100, service_id: 1, trip_id: 1 });
    assert_eq!(check_feed(&f, DayFilter::All), Ok(()));
    let mut f = feed();
    f.trips.push(TripRecord { route_id: 100, service_id: 2, trip_id: 1 });
    assert_eq!(check_feed(&f, DayFilter::Single(Day::Monday)), Ok(()));

    let mut f = feed();
    f.stop_times.push(stop_time(1, "08:10:00", 1));
    assert_eq!(check_feed(&f, DayFilter::All), Err(FeedError::BadTripStop(1)));
}

#[test]
fn search_errors_have_messages() {
    let data = load_data(feed(), DayFilter::All, &colors());
    let not_found = get_station_by_name(&data, "Nowhere").unwrap_err();
    assert_eq!(
        not_found.to_string(),
        "Couldn't find stations for search term \"Nowhere\""
    );
    let station = get_station_by_name(&data, "S+U Alexanderplatz (Berlin) [U2]").unwrap();
    let ambiguous = SearchError::Ambiguous(vec![station.clone(), station.clone()]);
    assert_eq!(
        ambiguous.to_string(),
        "Found several stations or search term (S+U Alexanderplatz (Berlin) [U2], S+U Alexanderplatz (Berlin) [U2])"
    );
}

#[test]
fn day_filters_are_displayed_by_key() {
    assert_eq!(DayFilter::All.to_string(), "all");
    assert_eq!(DayFilter::Single(Day::Wednesday).to_string(), "wed");
}

#[test]
fn load_data_keeps_the_last_record_of_a_trip() {
    let mut f = feed();
    f.trips.push(TripRecord { route_id: 200, service_id: 1, trip_id: 1 });
    let data = load_data(f, DayFilter::All, &colors());
    let trip = data.get_trip(&1).unwrap();
    assert_eq!(trip.route.route_type, RouteType::TramService);
    assert_eq!(trip.stop_times.len(), 2);
}

#[test]
fn station_names_are_checked_for_uniqueness() {
    let data = load_data(feed(), DayFilter::All, &colors());
    assert!(station_name_unique(&data, "S+U Alexanderplatz (Berlin) [U2]"));
    assert!(station_name_unique(&data, "Alexanderplatz"));
    let mut twice = feed();
    twice.stops.push(stop(3, "S+U Alexanderplatz (Berlin) [U2]", 1, None));
    let data = load_data(twice, DayFilter::All, &colors());
    assert!(!station_name_unique(&data, "S+U Alexanderplatz (Berlin) [U2]"));
}
