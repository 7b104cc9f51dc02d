use transit_radar::radar::TransitMode;
use transit_radar::web::{
    modes_from_value, LocalDateTime, TimeFilter, TimeFilterError, UrlSearchParams,
    STATION_ID_MIN,
};

fn chars(s: &str) -> Vec<char> {
    s.chars().collect()
}

#[test]
fn empty_mode_value_gives_defaults() {
    assert_eq!(
        modes_from_value(""),
        Ok(vec![TransitMode::SBahn, TransitMode::UBahn])
    );
}

#[test]
fn mode_value_names_each_mode_once() {
    assert_eq!(
        modes_from_value("bus,tram,bus,regional,boat,ubahn,sbahn"),
        Ok(vec![
            TransitMode::Bus,
            TransitMode::Tram,
            TransitMode::Regional,
            TransitMode::Boat,
            TransitMode::UBahn,
            TransitMode::SBahn,
        ])
    );
}

#[test]
fn unknown_mode_is_reported() {
    let err = modes_from_value("ubahn,ship,ferry").unwrap_err();
    assert_eq!(err.value, chars("ship"));
    let err = modes_from_value("bus,").unwrap_err();
    assert_eq!(err.value, chars(""));
    let err = modes_from_value("Bus").unwrap_err();
    assert_eq!(err.value, chars("Bus"));
}

#[test]
fn written_modes_read_back() {
    let params = UrlSearchParams {
        station_id: STATION_ID_MIN + 7,
        departure_time: None,
        max_duration_minutes: 30,
        modes: vec![TransitMode::Tram, TransitMode::Boat, TransitMode::UBahn],
    };
    let url = params.to_string();
    let value = url.split("mode=").nth(1).unwrap();
    assert_eq!(modes_from_value(value), Ok(params.modes.clone()));
}

#[test]
fn time_filter_reads_now_and_dates() {
    assert_eq!(TimeFilter::from_param("now"), Ok(TimeFilter::Now));
    assert_eq!(
        TimeFilter::from_param("2021-03-04T05:06:07"),
        Ok(TimeFilter::Local(LocalDateTime {
            year: 2021,
            month: 3,
            day: 4,
            hour: 5,
            minute: 6,
            second: 7,
            nanosecond: 0,
        }))
    );
    assert_eq!(
        TimeFilter::from_param("yesterday"),
        Err(TimeFilterError::NotADateTime)
    );
    assert_eq!(
        TimeFilter::from_param("Now"),
        Err(TimeFilterError::NotADateTime)
    );
}

#[test]
fn time_filter_writes_iso_text() {
    assert_eq!(TimeFilter::Now.to_string(), "now");
    let t = LocalDateTime {
        year: 2021,
        month: 3,
        day: 4,
        hour: 5,
        minute: 6,
        second: 7,
        nanosecond: 500_000_000,
    };
    assert_eq!(TimeFilter::Local(t).to_string(), "2021-03-04T05:06:07.500");
    let early = LocalDateTime { year: 987, nanosecond: 1_000, ..t };
    assert_eq!(TimeFilter::Local(early).to_string(), "0987-03-04T05:06:07.000001");
    let far = LocalDateTime { year: 12345, nanosecond: 0, ..t };
    assert_eq!(TimeFilter::Local(far).to_string(), "+12345-03-04T05:06:07");
}

#[test]
fn default_search_address() {
    let params = UrlSearchParams {
        station_id: 900_000_100_003,
        departure_time: None,
        max_duration_minutes: 30,
        modes: vec![TransitMode::UBahn, TransitMode::SBahn],
    };
    assert_eq!(params.to_string(), "/depart-from/100003/now");
}

#[test]
fn search_address_with_minutes_and_modes() {
    let t = LocalDateTime {
        year: 2020,
        month: 12,
        day: 31,
        hour: 23,
        minute: 59,
        second: 0,
        nanosecond: 0,
    };
    let params = UrlSearchParams {
        station_id: 900_000_100_003,
        departure_time: Some(t),
        max_duration_minutes: 45,
        modes: vec![TransitMode::Bus],
    };
    assert_eq!(
        params.clone().to_string(),
        "/depart-from/100003/2020-12-31T23:59:00?minutes=45&amp;mode=bus"
    );
    let only_minutes = params.clone().with_mode(TransitMode::SBahn).with_mode(TransitMode::UBahn);
    assert_eq!(only_minutes.modes, vec![TransitMode::Bus, TransitMode::SBahn, TransitMode::UBahn]);
    let only_minutes = only_minutes.without_mode(TransitMode::Bus).with_mode(TransitMode::UBahn);
    assert_eq!(
        only_minutes.to_string(),
        "/depart-from/100003/2020-12-31T23:59:00?minutes=45"
    );
    let only_modes = UrlSearchParams { max_duration_minutes: 30, ..params };
    assert_eq!(
        only_modes.with_station_id(900_000_000_001).to_string(),
        "/depart-from/1/2020-12-31T23:59:00?mode=bus"
    );
}

#[test]
fn search_address_at_a_new_time() {
    let params = UrlSearchParams {
        station_id: 900_000_000_042,
        departure_time: None,
        max_duration_minutes: -5,
        modes: vec![],
    };
    let t = LocalDateTime {
        year: 2024,
        month: 2,
        day: 29,
        hour: 0,
        minute: 0,
        second: 59,
        nanosecond: 1_250_000_000,
    };
    assert_eq!(
        params.with_departure_time(t).to_string(),
        "/depart-from/42/2024-02-29T00:00:60.250?minutes=-5&amp;mode="
    );
}
