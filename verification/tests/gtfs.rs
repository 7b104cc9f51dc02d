use transit_radar::gtfs::{color_for_type, route_type_of, Calendar, IdError, RouteId, StopId};
use transit_radar::search_data::{Day, RouteType};

#[test]
fn mod_test_0() {
    assert_eq!(RouteId::from_u32(0), RouteId(0));
}

#[test]
fn mod_test_max() {
    assert_eq!(RouteId::from_u32(u32::MAX), RouteId(u32::MAX));
}

#[test]
fn mod_test_route_type_suffix() {
    assert_eq!(RouteId::from_feed_str("12345_700"), Ok(RouteId(12345)));
}

#[test]
fn id_test_0() {
    assert_eq!(RouteId::from_u32(0), RouteId(0));
}

#[test]
fn id_test_max() {
    assert_eq!(RouteId::from_u32(u32::MAX), RouteId(u32::MAX));
}

#[test]
fn id_test_route_type_suffix() {
    assert_eq!(RouteId::from_feed_str("12345_700"), Ok(RouteId(12345)));
}

#[test]
fn test_garbage_prefix() {
    assert_eq!(StopId::from_feed_str("D_000008003774"), Ok(StopId(000008003774)));
}

#[test]
fn stop_ids() {
    assert_eq!(StopId::from_i64(0), Ok(StopId(0)));
    assert_eq!(StopId::from_feed_str("18446744073709551615"), Ok(StopId(u64::MAX)));
    assert_eq!(StopId::from_feed_str("18446744073709551616"), Err(IdError::OutOfRange));
    assert_eq!(StopId::from_feed_str("12a4"), Err(IdError::Invalid));
    assert_eq!(StopId::from_feed_str("none"), Ok(StopId(0)));
    assert_eq!(StopId::from_i64(-1), Err(IdError::OutOfRange));
    assert_eq!(StopId(42).into_inner(), 42);
}

#[test]
fn route_ids() {
    assert_eq!(RouteId::from_feed_str("19105"), Ok(RouteId(19105)));
    assert_eq!(RouteId::from_feed_str("x_700"), Err(IdError::Invalid));
    assert_eq!(RouteId::from_feed_str("4294967296_1"), Err(IdError::Invalid));
    assert_eq!(RouteId::from_u64(4294967296), Err(IdError::OutOfRange));
    assert_eq!(RouteId::from_i64(-3), Err(IdError::OutOfRange));
    assert_eq!(RouteId::from_i64(17), Ok(RouteId(17)));
    assert_eq!(RouteId(7).into_inner(), 7);
}

#[test]
fn calendar_days() {
    let calendar = Calendar {
        service_id: 3,
        monday: 1,
        tuesday: 0,
        wednesday: 1,
        thursday: 0,
        friday: 2,
        saturday: 0,
        sunday: 1,
        start_date: "20200101".to_string(),
    };
    assert_eq!(calendar.days(), vec![Day::Monday, Day::Wednesday, Day::Friday, Day::Sunday]);
}

#[test]
fn colors() {
    assert_eq!(color_for_type(RouteType::UrbanRailway), "lightgray");
    assert_eq!(color_for_type(RouteType::Rail), "#e2001a");
    assert_eq!(color_for_type(RouteType::BusService), "#a01c7d");
    assert_eq!(color_for_type(RouteType::WaterTransportService), "#0099d6");
}

#[test]
fn route_type_codes() {
    assert_eq!(route_type_of(400), Some(RouteType::UrbanRailway));
    assert_eq!(route_type_of(109), Some(RouteType::SuburbanRailway));
    assert_eq!(route_type_of(1000), Some(RouteType::WaterTransportService));
    assert_eq!(route_type_of(401), None);
}
