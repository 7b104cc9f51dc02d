use transit_radar::time::{Duration, ParseError, Period, Time};

#[test]
fn hms_times() {
    assert_eq!(Time::from_hms(12, 59, 59), "12:59:59".parse().unwrap());
}

#[test]
fn time_subtract_times() {
    assert_eq!(
        "12:00:15".parse::<Time>().unwrap().sub("12:00:00".parse::<Time>().unwrap()),
        Duration::seconds(15)
    );
    assert_eq!(
        "12:00:00".parse::<Time>().unwrap().sub("12:00:15".parse::<Time>().unwrap()),
        Duration::seconds(-15)
    );
    assert_eq!(
        "12:00:15".parse::<Time>().unwrap().sub("11:59:45".parse::<Time>().unwrap()),
        Duration::seconds(30)
    );
}

#[test]
fn time_parse_and_to_string() {
    assert_eq!("00:00:00".parse::<Time>().unwrap().to_string(), "00:00:00");
    assert_eq!("00:00:01".parse::<Time>().unwrap().to_string(), "00:00:01");
    assert_eq!("23:59:59".parse::<Time>().unwrap().to_string(), "23:59:59");
    assert_eq!("24:00:00".parse::<Time>().unwrap().to_string(), "24:00:00");
    assert_eq!("25:00:00".parse::<Time>().unwrap().to_string(), "25:00:00");
    assert_eq!("5:00:00".parse::<Time>().unwrap().to_string(), "05:00:00");
}

#[test]
fn time_invalid_parses() {
    assert!("".parse::<Time>().is_err());
    assert!("%%:%%:%%".parse::<Time>().is_err());
    assert!("00:00:0".parse::<Time>().is_err());
    assert!("00:00:000".parse::<Time>().is_err());
    assert!("00:00:60".parse::<Time>().is_err());
    assert!("00:60:00".parse::<Time>().is_err());
    assert!("00100100".parse::<Time>().is_err());
}

#[test]
fn gtfstime_subtract_times() {
    assert_eq!(Time::parse("12:00:15").unwrap().sub(Time::parse("12:00:00").unwrap()), Duration::seconds(15));
    assert_eq!(Time::parse("12:00:00").unwrap().sub(Time::parse("12:00:15").unwrap()), Duration::seconds(-15));
    assert_eq!(Time::parse("12:00:15").unwrap().sub(Time::parse("11:59:45").unwrap()), Duration::seconds(30));
    assert_eq!("12:00:15".parse::<Time>().unwrap().sub("12:00:00".parse::<Time>().unwrap()), Duration::seconds(15));
    assert_eq!("12:00:00".parse::<Time>().unwrap().sub("12:00:15".parse::<Time>().unwrap()), Duration::seconds(-15));
    assert_eq!("12:00:15".parse::<Time>().unwrap().sub("11:59:45".parse::<Time>().unwrap()), Duration::seconds(30));
}

#[test]
fn gtfstime_parse_and_to_string() {
    assert_eq!(Time::parse("00:00:00").unwrap().to_string(), "00:00:00");
    assert_eq!(Time::parse("00:00:01").unwrap().to_string(), "00:00:01");
    assert_eq!(Time::parse("23:59:59").unwrap().to_string(), "23:59:59");
    assert_eq!(Time::parse("24:00:00").unwrap().to_string(), "24:00:00");
    assert_eq!(Time::parse("25:00:00").unwrap().to_string(), "25:00:00");
    assert_eq!(Time::parse("5:00:00").unwrap().to_string(), "05:00:00");
    assert_eq!("00:00:00".parse::<Time>().unwrap().to_string(), "00:00:00");
    assert_eq!("00:00:01".parse::<Time>().unwrap().to_string(), "00:00:01");
    assert_eq!("23:59:59".parse::<Time>().unwrap().to_string(), "23:59:59");
    assert_eq!("24:00:00".parse::<Time>().unwrap().to_string(), "24:00:00");
    assert_eq!("25:00:00".parse::<Time>().unwrap().to_string(), "25:00:00");
    assert_eq!("5:00:00".parse::<Time>().unwrap().to_string(), "05:00:00");
}

#[test]
fn gtfstime_invalid_parses() {
    assert!(Time::parse("").is_err());
    assert!(Time::parse("%%:%%:%%").is_err());
    assert!(Time::parse("00:00:0").is_err());
    assert!(Time::parse("00:00:000").is_err());
    assert!(Time::parse("00:00:60").is_err());
    assert!(Time::parse("00:60:00").is_err());
    assert!(Time::parse("00100100").is_err());
    assert!("".parse::<Time>().is_err());
    assert!("%%:%%:%%".parse::<Time>().is_err());
    assert!("00:00:0".parse::<Time>().is_err());
    assert!("00:00:000".parse::<Time>().is_err());
    assert!("00:00:60".parse::<Time>().is_err());
    assert!("00:60:00".parse::<Time>().is_err());
    assert!("00100100".parse::<Time>().is_err());
}

#[test]
fn parse_errors_say_why() {
    assert_eq!("1200:00".parse::<Time>(), Err(ParseError::InvalidFormat));
    assert_eq!("00:61:00".parse::<Time>(), Err(ParseError::TooManySecondsOrMinutes));
    assert!(matches!("ab:00:00".parse::<Time>(), Err(ParseError::ParseIntError(_))));
    assert_eq!(Time::parse("12:00"), Err(ParseError::InvalidFormat));
    assert_eq!(Time::parse("123:00:00"), Err(ParseError::InvalidFormat));
    assert_eq!(Time::parse("12:00:75"), Err(ParseError::TooManySecondsOrMinutes));
}

#[test]
fn written_time_reads_back() {
    let t = Time::from_seconds_since_midnight(98765);
    assert_eq!(t.to_string(), "27:26:05");
    assert_eq!(t.to_string().parse::<Time>().unwrap(), t);
    assert_eq!(Time::parse(&t.to_string()).unwrap(), t);
}

#[test]
fn clock_parts() {
    let t = Time::from_hms(25, 7, 9);
    assert_eq!(t.seconds_since_midnight(), 90429);
    assert_eq!(t.hour(), 25);
    assert_eq!(t.minute(), 7);
    assert_eq!(t.second(), 9);
    assert!(t.is_after(Time::from_hms(25, 7, 8)));
    assert!(t.is_before(Time::from_hms(25, 7, 10)));
    assert_eq!(t.add(Duration::minutes(2)), Time::from_hms(25, 9, 9));
    assert_eq!(t.add(Duration::seconds(-9)), Time::from_hms(25, 7, 0));
}

#[test]
fn durations() {
    let d = Duration::minutes(3);
    assert_eq!(d.secs(), 180);
    assert_eq!(d.mins(), 3);
    assert_eq!(Duration::seconds(-150).mins(), -2);
    assert_eq!(Duration::seconds(-7).div(2), Duration::seconds(-3));
    let mut total = Duration::zero();
    total.add_assign(Duration::seconds(40));
    total.add_assign(Duration::seconds(30));
    assert_eq!(total.secs(), 70);
}

#[test]
fn periods() {
    let p = Period::between(Time::from_hms(10, 0, 0), Time::from_hms(11, 0, 0));
    assert!(p.contains(Time::from_hms(10, 0, 0)));
    assert!(p.contains(Time::from_hms(10, 59, 59)));
    assert!(!p.contains(Time::from_hms(11, 0, 0)));
    assert_eq!(p.start(), Time::from_hms(10, 0, 0));
    assert_eq!(p.end(), Time::from_hms(11, 0, 0));
    assert_eq!(p.duration().secs(), 3600);
    let later = p.with_start(Time::from_hms(10, 30, 0));
    assert!(!later.contains(Time::from_hms(10, 29, 59)));
    assert_eq!(later.end(), p.end());
}

#[test]
fn periods_and_parse_errors_are_displayed() {
    let period = Period::between(Time::from_hms(9, 5, 0), Time::from_hms(25, 0, 7));
    assert_eq!(period.to_string(), "09:05:00-25:00:07");
    assert_eq!(ParseError::InvalidFormat.to_string(), "Time should use format eg. 23:59:59");
    assert_eq!(
        ParseError::TooManySecondsOrMinutes.to_string(),
        "Maximum minutes or seconds is 59"
    );
    match Time::parse("1x:00:00") {
        Err(e @ ParseError::ParseIntError(_)) => assert_eq!(e.to_string(), "invalid digit found in string"),
        other => panic!("expected a bad number, got {:?}", other),
    }
}

#[test]
fn signed_fields_are_not_times() {
    assert!(matches!("+5:00:00".parse::<Time>(), Err(ParseError::InvalidFormat)));
    assert!(matches!("00:+5:00".parse::<Time>(), Err(ParseError::InvalidFormat)));
    assert!(matches!(Time::parse("+5:00:00"), Err(ParseError::InvalidFormat)));
    assert!(matches!(Time::parse("5:00:+1"), Err(ParseError::InvalidFormat)));
    assert_eq!("5:00:00".parse::<Time>().unwrap(), Time::from_hms(5, 0, 0));
}

#[test]
fn durations_are_ordered_and_default_to_zero() {
    assert!(Duration::seconds(-5) < Duration::seconds(3));
    assert!(Duration::minutes(2) > Duration::seconds(119));
    assert_eq!(Duration::default(), Duration::seconds(0));
    let mut d = vec![Duration::seconds(9), Duration::seconds(-1), Duration::seconds(4)];
    d.sort();
    assert_eq!(d, vec![Duration::seconds(-1), Duration::seconds(4), Duration::seconds(9)]);
}

#[test]
fn an_empty_period_contains_nothing() {
    let t = Time::from_hms(10, 0, 0);
    let p = Period::between(t, t);
    assert!(!p.contains(t));
    assert_eq!(p.duration(), Duration::seconds(0));
}
