use transit_radar::backend::{Calendar, GTFSSource, Route, SourceError, StopRecord};
use transit_radar::time::Duration;

fn to_trip(ids: Vec<u64>) -> Vec<(u64, Option<Duration>)> {
    let two_secs = Some(Duration::seconds(2));
    ids.iter().map(|&s| (s, two_secs)).collect()
}

fn str_ref_c(c: &Vec<(u64, Duration, u16)>) -> Vec<(u64, i32, u16)> {
    c.iter().map(|(id, dur_acc, n)| (*id, dur_acc.secs(), *n)).collect()
}

#[test]
fn test_merge() {
    let mut c = Vec::new();
    let abc = to_trip(vec![1, 2, 3]);
    let bc = to_trip(vec![2, 3]);
    let bcd = to_trip(vec![2, 3, 4]);
    let abcd = to_trip(vec![1, 2, 3, 4]);
    let zab = to_trip(vec![99, 1, 2]);
    let zabcde = to_trip(vec![99, 1, 2, 3, 4, 5]);

    GTFSSource::merge_trip(&mut c, abc.clone());
    assert_eq!(str_ref_c(&c), vec![(1, 2, 1), (2, 2, 1), (3, 2, 1)]);
    GTFSSource::merge_trip(&mut c, abc);
    assert_eq!(str_ref_c(&c), vec![(1, 4, 2), (2, 4, 2), (3, 4, 2)]);
    GTFSSource::merge_trip(&mut c, bc);
    assert_eq!(str_ref_c(&c), vec![(1, 4, 2), (2, 6, 3), (3, 6, 3)]);
    GTFSSource::merge_trip(&mut c, bcd.clone());
    assert_eq!(str_ref_c(&c), vec![(1, 4, 2), (2, 8, 4), (3, 8, 4), (4, 2, 1)]);
    GTFSSource::merge_trip(&mut c, zab);
    assert_eq!(str_ref_c(&c), vec![(99, 2, 1), (1, 6, 3), (2, 10, 5), (3, 8, 4), (4, 2, 1)]);

    let mut c = Vec::new();
    GTFSSource::merge_trip(&mut c, abcd);
    assert_eq!(str_ref_c(&c), vec![(1, 2, 1), (2, 2, 1), (3, 2, 1), (4, 2, 1)]);
    GTFSSource::merge_trip(&mut c, bcd);
    assert_eq!(str_ref_c(&c), vec![(1, 2, 1), (2, 4, 2), (3, 4, 2), (4, 4, 2)]);
    GTFSSource::merge_trip(&mut c, zabcde);
    assert_eq!(str_ref_c(&c), vec![(99, 2, 1), (1, 4, 2), (2, 6, 3), (3, 6, 3), (4, 6, 3), (5, 2, 1)]);
}

#[test]
fn merge_keeps_unknown_times_out_of_the_count() {
    let mut c = Vec::new();
    GTFSSource::merge_trip(&mut c, vec![(1, None), (2, Some(Duration::seconds(5)))]);
    assert_eq!(str_ref_c(&c), vec![(1, 0, 0), (2, 5, 1)]);
    GTFSSource::merge_trip(&mut c, vec![(1, Some(Duration::seconds(3))), (2, None), (3, None)]);
    assert_eq!(str_ref_c(&c), vec![(1, 3, 1), (2, 5, 1), (3, 0, 0)]);
}

fn route(id: &str, short_name: &str, route_type: u16) -> Route {
    Route {
        route_id: id.to_string(),
        agency_id: 1,
        route_short_name: short_name.to_string(),
        route_long_name: None,
        route_type,
        route_color: None,
        route_text_color: None,
        route_desc: None,
    }
}

#[test]
fn routes_by_id_keeps_the_last_of_each_id() {
    let source = GTFSSource::new("./gtfs/");
    let routes = source.routes_by_id(vec![route("a", "U1", 400), route("b", "S1", 109), route("a", "U2", 400)]);
    assert_eq!(routes.len(), 2);
    let a = routes.iter().find(|r| r.route_id == "a").unwrap();
    assert_eq!(a.route_short_name, "U2");
}

#[test]
fn get_ubahn_route_finds_the_first_underground_line() {
    let source = GTFSSource::new("./gtfs/");
    let records = vec![route("x", "U8", 700), route("y", "U8", 400), route("z", "U8", 400)];
    assert_eq!(source.get_ubahn_route(&records, "U8").unwrap().route_id, "y");
    assert_eq!(source.get_ubahn_route(&records, "U9").unwrap_err(), SourceError::NotFound);
}

#[test]
fn get_sunday_services_selects_sunday_calendars() {
    let source = GTFSSource::new("./gtfs/");
    let calendar = |service_id: u16, sunday: u8| Calendar {
        service_id: service_id.into(),
        monday: 1,
        sunday,
        start_date: "20200101".to_string(),
        end_date: "20201231".to_string(),
    };
    let services = source.get_sunday_services(&vec![calendar(1, 1), calendar(2, 0), calendar(3, 1)]);
    assert_eq!(services.len(), 2);
    assert!(services.contains(&1) && services.contains(&3));
}

#[test]
fn stops_of_station_lists_each_child_once() {
    let source = GTFSSource::new("./gtfs/");
    let stop = |id: &str, parent: Option<&str>| StopRecord {
        stop_id: id.to_string(),
        parent_station: parent.map(|p| p.to_string()),
    };
    let ids = source.stops_of_station(
        &vec![stop("1", Some("9")), stop("2", None), stop("1", Some("9")), stop("3", Some("9")), stop("4", Some("8"))],
        "9",
    );
    assert_eq!(ids, vec!["1".to_string(), "3".to_string()]);
}
