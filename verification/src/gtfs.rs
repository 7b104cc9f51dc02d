//! Records of a GTFS feed as this project reads them: identifiers of routes and stops, and
//! calendars of services.
use vstd::prelude::*;
use vstd::string::*;

use crate::search_data::{day_key, Day, RouteType, ServiceId};
use crate::text::{all_digits, digits_value, is_ascii_digit, u32_literal};

verus! {

/// Why an identifier could not be read.
#[derive(Debug, PartialEq, Eq, Structural, Clone, Copy)]
pub enum IdError {
    /// The text is not a number of the expected form.
    Invalid,
    /// The number does not fit.
    OutOfRange,
}

/// A route, by the number before the `_` of its feed id (as in `19105_700`).
#[derive(Debug, PartialEq, Eq, Structural, Clone, Copy, Hash, PartialOrd, Ord)]
pub struct RouteId(pub u32);

/// A stop, by the number in its feed id.
#[derive(Debug, PartialEq, Eq, Structural, Clone, Copy, Hash, PartialOrd, Ord)]
pub struct StopId(pub u64);

/// The bytes before the first `_`, or all of them.
pub open spec fn before_underscore(b: Seq<u8>) -> Seq<u8>
    decreases b.len(),
{
    if b.len() == 0 {
        b
    } else if b[0] == 95u8 {
        Seq::empty()
    } else {
        seq![b[0]] + before_underscore(b.drop_first())
    }
}

/// The value of a `u32` written as decimal digits after an optional `+`, if it fits.
fn parse_u32_bytes(b: &[u8]) -> (r: Option<u32>)
    ensures
        r == u32_literal(b@),
{
    let mut i: usize = 0;
    if b.len() > 0 && b[0] == 43u8 {
        i = 1;
    }
    let ghost d = crate::text::unsigned_digits(b@);
    assert(d =~= b@.skip(i as int));
    if i == b.len() {
        return None;
    }
    let start = i;
    let mut value: u64 = 0;
    while i < b.len()
        invariant
            start <= i <= b@.len(),
            d == b@.skip(start as int),
            d == crate::text::unsigned_digits(b@),
            start < b@.len(),
            all_digits(b@.subrange(start as int, i as int)),
            value == digits_value(b@.subrange(start as int, i as int)),
            value <= u32::MAX,
        decreases b@.len() - i,
    {
        if !(48u8 <= b[i] && b[i] <= 57u8) {
            proof {
                assert(!is_ascii_digit(d[i - start]));
            }
            return None;
        }
        let next: u64 = value * 10 + (b[i] - 48u8) as u64;
        proof {
            let s1 = b@.subrange(start as int, i + 1);
            assert(s1.drop_last() =~= b@.subrange(start as int, i as int));
            assert(s1.last() == b@[i as int]);
        }
        if next > 0xffff_ffff {
            proof {
                lemma_digits_grow(d, (i + 1 - start) as int);
                assert(b@.subrange(start as int, i + 1) =~= d.take(i + 1 - start));
            }
            return None;
        }
        value = next;
        i = i + 1;
    }
    assert(b@.subrange(start as int, i as int) =~= d);
    Some(value as u32)
}

/// The value of the digits never shrinks as more are read.
proof fn lemma_digits_grow(d: Seq<u8>, k: int)
    requires
        0 <= k <= d.len(),
        all_digits(d.take(k)),
    ensures
        all_digits(d) ==> digits_value(d.take(k)) <= digits_value(d),
    decreases d.len() - k,
{
    if k < d.len() && all_digits(d) {
        assert(d.take(k + 1).drop_last() =~= d.take(k));
        lemma_digits_grow(d, k + 1);
    } else if k == d.len() {
        assert(d.take(k) =~= d);
    }
}

impl RouteId {
    /// The number of the route.
    pub fn into_inner(self) -> (n: u32)
        ensures
            n == self.0,
    {
        self.0
    }

    /// The route with the number.
    pub fn from_u32(num: u32) -> (r: RouteId)
        ensures
            r.0 == num,
    {
        RouteId(num)
    }

    /// The route of a feed id: the number before the first `_`.
    pub fn from_feed_str(string: &str) -> (r: Result<RouteId, IdError>)
        ensures
            match u32_literal(before_underscore(string.spec_bytes())) {
                Some(v) => r == Ok::<RouteId, IdError>(RouteId(v)),
                None => r == Err::<RouteId, IdError>(IdError::Invalid),
            },
    {
        let b = string.as_bytes();
        let mut i: usize = 0;
        while i < b.len() && b[i] != 95u8
            invariant
                i <= b@.len(),
                forall|j: int| 0 <= j < i ==> b@[j] != 95u8,
            decreases b@.len() - i,
        {
            i = i + 1;
        }
        proof {
            lemma_before_underscore(b@, i as int);
        }
        let prefix = slice_prefix(b, i);
        match parse_u32_bytes(prefix) {
            Some(v) => Ok(RouteId(v)),
            None => Err(IdError::Invalid),
        }
    }

    /// The route with a number given as a `u64`, if it fits.
    pub fn from_u64(v: u64) -> (r: Result<RouteId, IdError>)
        ensures
            v <= u32::MAX ==> r == Ok::<RouteId, IdError>(RouteId(v as u32)),
            v > u32::MAX ==> r == Err::<RouteId, IdError>(IdError::OutOfRange),
    {
        if v <= 0xffff_ffff {
            Ok(RouteId(v as u32))
        } else {
            Err(IdError::OutOfRange)
        }
    }

    /// The route with a number given as an `i64`, if it fits.
    pub fn from_i64(v: i64) -> (r: Result<RouteId, IdError>)
        ensures
            0 <= v <= u32::MAX ==> r == Ok::<RouteId, IdError>(RouteId(v as u32)),
            !(0 <= v <= u32::MAX) ==> r == Err::<RouteId, IdError>(IdError::OutOfRange),
    {
        if 0 <= v && v <= 0xffff_ffff {
            Ok(RouteId(v as u32))
        } else {
            Err(IdError::OutOfRange)
        }
    }
}

/// The first `n` bytes.
fn slice_prefix(b: &[u8], n: usize) -> (p: &[u8])
    requires
        n <= b@.len(),
    ensures
        p@ == b@.take(n as int),
{
    let p = slice_subrange(b, 0, n);
    p
}

/// The bytes from `i` to `j`.
fn slice_subrange(b: &[u8], i: usize, j: usize) -> (p: &[u8])
    requires
        i <= j <= b@.len(),
    ensures
        p@ == b@.subrange(i as int, j as int),
{
    vstd::slice::slice_subrange(b, i, j)
}

/// The bytes before the first `_` are those before index `i`, when `i` is the first `_` or the
/// end.
proof fn lemma_before_underscore(b: Seq<u8>, i: int)
    requires
        0 <= i <= b.len(),
        forall|j: int| 0 <= j < i ==> b[j] != 95u8,
        i < b.len() ==> b[i] == 95u8,
    ensures
        before_underscore(b) == b.take(i),
    decreases i,
{
    if i == 0 {
        if b.len() > 0 {
            assert(b[0] == 95u8);
        }
        assert(b.take(0) =~= Seq::<u8>::empty());
    } else {
        lemma_before_underscore(b.drop_first(), i - 1);
        assert(b.take(i) =~= seq![b[0]] + b.drop_first().take(i - 1));
    }
}

/// The number of leading bytes that are not digits.
pub open spec fn leading_non_digits(b: Seq<u8>) -> nat
    decreases b.len(),
{
    if b.len() == 0 || is_ascii_digit(b[0]) {
        0
    } else {
        1 + leading_non_digits(b.drop_first())
    }
}

/// Reading the digits `rest` after the value `acc`, one at a time: a byte that is not a digit
/// makes the text invalid; a value past `u64::MAX` is out of range.
pub open spec fn fold_stop_digits(acc: u64, rest: Seq<u8>) -> Result<u64, IdError>
    decreases rest.len(),
{
    if rest.len() == 0 {
        Ok(acc)
    } else if !is_ascii_digit(rest[0]) {
        Err(IdError::Invalid)
    } else if acc * 10 > u64::MAX {
        Err(IdError::OutOfRange)
    } else if acc * 10 + (rest[0] - 48) > u64::MAX {
        Err(IdError::OutOfRange)
    } else {
        fold_stop_digits((acc * 10 + (rest[0] - 48)) as u64, rest.drop_first())
    }
}

impl StopId {
    /// The number of the stop.
    pub fn into_inner(self) -> (n: u64)
        ensures
            n == self.0,
    {
        self.0
    }

    /// The stop of a feed id: the number after any leading bytes that are not digits (such as
    /// `D_`); no digits at all give 0.
    pub fn from_feed_str(string: &str) -> (r: Result<StopId, IdError>)
        ensures
            match fold_stop_digits(0, string.spec_bytes().skip(leading_non_digits(string.spec_bytes()) as int)) {
                Ok(v) => r == Ok::<StopId, IdError>(StopId(v)),
                Err(e) => r == Err::<StopId, IdError>(e),
            },
    {
        let b = string.as_bytes();
        let mut i: usize = 0;
        assert(b@.skip(0) =~= b@);
        while i < b.len() && !(48u8 <= b[i] && b[i] <= 57u8)
            invariant
                i <= b@.len(),
                leading_non_digits(b@) == i + leading_non_digits(b@.skip(i as int)),
            decreases b@.len() - i,
        {
            assert(b@.skip(i as int).drop_first() =~= b@.skip(i + 1));
            i = i + 1;
        }
        proof {
            if i < b@.len() {
                assert(b@.skip(i as int)[0] == b@[i as int]);
            }
        }
        let mut result: u64 = 0;
        let ghost start = i;
        while i < b.len()
            invariant
                start <= i <= b@.len(),
                b@ == string.spec_bytes(),
                start == leading_non_digits(b@),
                fold_stop_digits(0, b@.skip(start as int)) == fold_stop_digits(result, b@.skip(i as int)),
            decreases b@.len() - i,
        {
            let c = b[i];
            assert(b@.skip(i as int)[0] == c);
            assert(b@.skip(i as int).drop_first() =~= b@.skip(i + 1));
            if !(48u8 <= c && c <= 57u8) {
                return Err(IdError::Invalid);
            }
            let x: u64 = (c - 48u8) as u64;
            if result > 1844674407370955161 {
                return Err(IdError::OutOfRange);
            }
            let times_ten: u64 = result * 10;
            if times_ten > 18446744073709551615 - x {
                return Err(IdError::OutOfRange);
            }
            result = times_ten + x;
            i = i + 1;
        }
        Ok(StopId(result))
    }

    /// The stop with a number given as an `i64`, if it is not negative.
    pub fn from_i64(v: i64) -> (r: Result<StopId, IdError>)
        ensures
            v >= 0 ==> r == Ok::<StopId, IdError>(StopId(v as u64)),
            v < 0 ==> r == Err::<StopId, IdError>(IdError::OutOfRange),
    {
        if v >= 0 {
            Ok(StopId(v as u64))
        } else {
            Err(IdError::OutOfRange)
        }
    }
}

/// The days of a week in order, each with the flag of a calendar for it.
pub open spec fn week(c: Calendar) -> Seq<(Day, u8)> {
    seq![
        (Day::Monday, c.monday),
        (Day::Tuesday, c.tuesday),
        (Day::Wednesday, c.wednesday),
        (Day::Thursday, c.thursday),
        (Day::Friday, c.friday),
        (Day::Saturday, c.saturday),
        (Day::Sunday, c.sunday),
    ]
}

/// The days, in order, whose flag is set.
pub open spec fn flagged_days(days: Seq<(Day, u8)>) -> Seq<Day>
    decreases days.len(),
{
    if days.len() == 0 {
        Seq::empty()
    } else {
        flagged_days(days.drop_last()) + if days.last().1 > 0 {
            seq![days.last().0]
        } else {
            Seq::empty()
        }
    }
}

/// The days of the week on which a service runs, from its first date.
#[derive(Debug)]
pub struct Calendar {
    pub service_id: ServiceId,
    pub monday: u8,
    pub tuesday: u8,
    pub wednesday: u8,
    pub thursday: u8,
    pub friday: u8,
    pub saturday: u8,
    pub sunday: u8,
    pub start_date: String,
}

impl Calendar {
    /// The days of the week on which the service runs, Monday first.
    pub fn days(&self) -> (v: Vec<Day>)
        ensures
            v@ == flagged_days(week(*self)),
    {
        let flags: [(Day, u8); 7] = [
            (Day::Monday, self.monday),
            (Day::Tuesday, self.tuesday),
            (Day::Wednesday, self.wednesday),
            (Day::Thursday, self.thursday),
            (Day::Friday, self.friday),
            (Day::Saturday, self.saturday),
            (Day::Sunday, self.sunday),
        ];
        assert(flags@ =~= week(*self));
        let mut days: Vec<Day> = Vec::new();
        let mut i: usize = 0;
        while i < 7
            invariant
                i <= 7,
                flags@ == week(*self),
                days@ == flagged_days(flags@.take(i as int)),
            decreases 7 - i,
        {
            let (day, val) = flags[i];
            assert(flags@.take(i + 1).drop_last() =~= flags@.take(i as int));
            if val > 0 {
                days.push(day);
            }
            i = i + 1;
        }
        assert(flags@.take(7) =~= flags@);
        days
    }
}

/// Which days of a timetable to load.
#[derive(Debug, Clone, Copy, PartialEq, Eq, Structural)]
pub enum DayFilter {
    All,
    Single(Day),
}

impl DayFilter {
    /// The filter as it is displayed: `all`, or the key of its day.
    pub fn to_string(&self) -> (s: String)
        ensures
            s@ == match *self {
                DayFilter::All => seq!['a', 'l', 'l'],
                DayFilter::Single(day) => day_key(day),
            },
    {
        match self {
            DayFilter::All => {
                proof {
                    reveal_strlit("all");
                }
                String::from_str("all")
            },
            DayFilter::Single(day) => String::from_str(day.as_str()),
        }
    }
}

/// The colour drawn for a kind of route with no colour of its own.
pub open spec fn type_color(route_type: RouteType) -> Seq<char> {
    match route_type {
        RouteType::SuburbanRailway | RouteType::UrbanRailway | RouteType::TramService => seq![
            'l',
            'i',
            'g',
            'h',
            't',
            'g',
            'r',
            'a',
            'y',
        ],
        RouteType::Rail | RouteType::RailwayService => seq!['#', 'e', '2', '0', '0', '1', 'a'],
        RouteType::Bus | RouteType::BusService => seq!['#', 'a', '0', '1', 'c', '7', 'd'],
        RouteType::WaterTransportService => seq!['#', '0', '0', '9', '9', 'd', '6'],
    }
}

/// The colour drawn for a kind of route with no colour of its own.
pub fn color_for_type(route_type: RouteType) -> (s: &'static str)
    ensures
        s@ == type_color(route_type),
{
    proof {
        reveal_strlit("lightgray");
        reveal_strlit("#e2001a");
        reveal_strlit("#a01c7d");
        reveal_strlit("#0099d6");
    }
    match route_type {
        RouteType::SuburbanRailway => "lightgray",
        RouteType::UrbanRailway => "lightgray",
        RouteType::TramService => "lightgray",
        RouteType::Rail => "#e2001a",
        RouteType::RailwayService => "#e2001a",
        RouteType::Bus => "#a01c7d",
        RouteType::BusService => "#a01c7d",
        RouteType::WaterTransportService => "#0099d6",
    }
}

/// The kind of route with a GTFS route type code, of those the timetable uses: 2 rail, 3 bus,
/// 100 railway service, 109 suburban railway, 400 urban railway, 700 bus service, 900 tram
/// service and 1000 water transport service.
pub open spec fn route_type_code(code: u16) -> Option<RouteType> {
    if code == 2 {
        Some(RouteType::Rail)
    } else if code == 3 {
        Some(RouteType::Bus)
    } else if code == 100 {
        Some(RouteType::RailwayService)
    } else if code == 109 {
        Some(RouteType::SuburbanRailway)
    } else if code == 400 {
        Some(RouteType::UrbanRailway)
    } else if code == 700 {
        Some(RouteType::BusService)
    } else if code == 900 {
        Some(RouteType::TramService)
    } else if code == 1000 {
        Some(RouteType::WaterTransportService)
    } else {
        None
    }
}

/// The kind of route with a GTFS route type code, if the timetable uses it.
pub fn route_type_of(code: u16) -> (r: Option<RouteType>)
    ensures
        r == route_type_code(code),
{
    match code {
        2 => Some(RouteType::Rail),
        3 => Some(RouteType::Bus),
        100 => Some(RouteType::RailwayService),
        109 => Some(RouteType::SuburbanRailway),
        400 => Some(RouteType::UrbanRailway),
        700 => Some(RouteType::BusService),
        900 => Some(RouteType::TramService),
        1000 => Some(RouteType::WaterTransportService),
        _ => None,
    }
}

} // verus!
