//! Times of day for timetables: they can run past 24 hours, so that a service day's
//! schedule continues after midnight, and they have second precision.
use core::cmp::Ordering;
use vstd::prelude::*;
use vstd::std_specs::cmp::PartialOrdSpecImpl;
use vstd::string::*;
use vstd::utf8::{encode_utf8, encode_utf8_valid_utf8, is_ascii_chars, is_ascii_chars_encode_utf8, valid_utf8};

use crate::text::{all_digits, digit_char, digit_str, pad2, parse_u32, push_pad2, str_from_utf8, u32_literal, unsigned_digits, is_ascii_digit, digits_value};

verus! {

/// Integer division rounding towards zero, as Rust's `/` does on signed integers.
pub open spec fn trunc_div(a: int, b: int) -> int
    recommends
        b != 0,
{
    let q = abs(a) / abs(b);
    if (a >= 0) == (b > 0) || a == 0 {
        q
    } else {
        -q
    }
}

pub open spec fn abs(a: int) -> int {
    if a < 0 {
        -a
    } else {
        a
    }
}

/// A signed span of time with second precision.
#[derive(Debug, Clone, Copy, PartialEq, Eq, Hash, Ord)]
pub struct Duration {
    seconds: i32,
}

impl View for Duration {
    type V = int;

    /// The number of seconds.
    closed spec fn view(&self) -> int {
        self.seconds as int
    }
}

impl Default for Duration {
    /// No time at all.
    fn default() -> (d: Duration)
        ensures
            d@ == 0,
    {
        Duration { seconds: 0 }
    }
}

impl PartialOrd for Duration {
    /// Durations are ordered by their number of seconds.
    fn partial_cmp(&self, other: &Duration) -> (r: Option<Ordering>) {
        if self.seconds < other.seconds {
            Some(Ordering::Less)
        } else if self.seconds == other.seconds {
            Some(Ordering::Equal)
        } else {
            Some(Ordering::Greater)
        }
    }
}

impl PartialOrdSpecImpl for Duration {
    open spec fn obeys_partial_cmp_spec() -> bool {
        true
    }

    open spec fn partial_cmp_spec(&self, other: &Duration) -> Option<Ordering> {
        if self@ < other@ {
            Some(Ordering::Less)
        } else if self@ == other@ {
            Some(Ordering::Equal)
        } else {
            Some(Ordering::Greater)
        }
    }
}

impl Duration {
    /// A duration of the given number of seconds.
    pub fn seconds(seconds: i32) -> (d: Duration)
        ensures
            d@ == seconds,
    {
        Duration { seconds }
    }

    /// A duration of the given number of minutes.
    pub fn minutes(minutes: i32) -> (d: Duration)
        requires
            i32::MIN <= minutes * 60 <= i32::MAX,
        ensures
            d@ == minutes * 60,
    {
        Duration { seconds: minutes * 60 }
    }

    /// The empty duration.
    pub fn zero() -> (d: Duration)
        ensures
            d@ == 0,
    {
        Duration { seconds: 0 }
    }

    /// The whole minutes of this duration, rounded towards zero.
    pub fn mins(self) -> (m: i32)
        ensures
            m == trunc_div(self@, 60),
    {
        self.seconds / 60
    }

    /// The number of seconds of this duration.
    pub fn secs(self) -> (s: i32)
        ensures
            s == self@,
    {
        self.seconds
    }

    /// Adds `rhs` to this duration.
    pub fn add_assign(&mut self, rhs: Duration)
        requires
            i32::MIN <= old(self)@ + rhs@ <= i32::MAX,
        ensures
            final(self)@ == old(self)@ + rhs@,
    {
        self.seconds = self.seconds + rhs.seconds;
    }

    /// This duration divided by `rhs`, rounded towards zero.
    pub fn div(self, rhs: i32) -> (d: Duration)
        requires
            rhs != 0,
            !(self@ == i32::MIN && rhs == -1),
        ensures
            d@ == trunc_div(self@, rhs as int),
    {
        let a: i64 = self.seconds as i64;
        let b: i64 = rhs as i64;
        let q: i64 = if b > 0 {
            a / b
        } else {
            -(a / (-b))
        };
        proof {
            let na = abs(a as int);
            let nb = abs(b as int);
            assert(na / nb <= na) by (nonlinear_arith)
                requires
                    na >= 0,
                    nb >= 1,
            ;
            assert(nb >= 2 ==> na / nb <= na / 2) by (nonlinear_arith)
                requires
                    na >= 0,
                    nb >= 1,
            ;
        }
        Duration { seconds: q as i32 }
    }
}

/// A local time within a service day, in seconds since midnight; it may pass 24:00:00.
#[derive(Debug, Clone, Copy, PartialEq, Eq, Hash, PartialOrd, Ord)]
pub struct Time {
    seconds_since_midnight: u32,
}

impl View for Time {
    type V = nat;

    /// The number of seconds since midnight.
    closed spec fn view(&self) -> nat {
        self.seconds_since_midnight as nat
    }
}

/// A time fits in 32 bits.
pub broadcast proof fn lemma_time_fits(t: Time)
    ensures
        #[trigger] t@ <= u32::MAX,
{
}

/// Seconds in an hour.
pub open spec fn hour_of(secs: nat) -> nat {
    secs / 3600
}

/// The minute within the hour.
pub open spec fn minute_of(secs: nat) -> nat {
    (secs / 60) % 60
}

/// The second within the minute.
pub open spec fn second_of(secs: nat) -> nat {
    secs % 60
}

/// The text of a time as `hh:mm:ss`, each part at least two digits.
pub open spec fn hms_text(secs: nat) -> Seq<char> {
    pad2(hour_of(secs)) + seq![':'] + pad2(minute_of(secs)) + seq![':'] + pad2(second_of(secs))
}

/// What parsing a time can give: seconds since midnight, or one of the failures.
pub enum TimeParse {
    Parsed(nat),
    InvalidFormat,
    TooManySecondsOrMinutes,
    BadNumber,
}

/// The three fields of `[h]h:mm:ss` by byte positions, when the length and the colons fit.
pub open spec fn fixed_width_fields(b: Seq<u8>) -> Option<(Seq<u8>, Seq<u8>, Seq<u8>)> {
    if b.len() == 8 && b[2] == 58u8 && b[5] == 58u8 {
        Some((b.subrange(0, 2), b.subrange(3, 5), b.subrange(6, 8)))
    } else if b.len() == 7 && b[1] == 58u8 && b[4] == 58u8 {
        Some((b.subrange(0, 1), b.subrange(2, 4), b.subrange(5, 7)))
    } else {
        None
    }
}

/// The outcome of reading three fields as hours, minutes and seconds: each field is checked
/// in turn for UTF-8, read as a `u32`, and must then be ASCII digits only (no sign); minutes and
/// seconds must be at most 59.
pub open spec fn fields_outcome(h: Seq<u8>, m: Seq<u8>, s: Seq<u8>) -> TimeParse {
    if !valid_utf8(h) {
        TimeParse::InvalidFormat
    } else if u32_literal(h) is None {
        TimeParse::BadNumber
    } else if !all_digits(h) {
        TimeParse::InvalidFormat
    } else if !valid_utf8(m) {
        TimeParse::InvalidFormat
    } else if u32_literal(m) is None {
        TimeParse::BadNumber
    } else if !all_digits(m) {
        TimeParse::InvalidFormat
    } else if !valid_utf8(s) {
        TimeParse::InvalidFormat
    } else if u32_literal(s) is None {
        TimeParse::BadNumber
    } else if !all_digits(s) {
        TimeParse::InvalidFormat
    } else {
        let hh = u32_literal(h)->0 as nat;
        let mm = u32_literal(m)->0 as nat;
        let ss = u32_literal(s)->0 as nat;
        if ss > 59 || mm > 59 {
            TimeParse::TooManySecondsOrMinutes
        } else {
            TimeParse::Parsed(hh * 3600 + mm * 60 + ss)
        }
    }
}

/// The outcome of parsing `hh:mm:ss` or `h:mm:ss` given by byte positions.
pub open spec fn fixed_width_outcome(b: Seq<u8>) -> TimeParse {
    match fixed_width_fields(b) {
        None => TimeParse::InvalidFormat,
        Some((h, m, s)) => fields_outcome(h, m, s),
    }
}

/// The position of the first `:` in `b` at or after `from`, if there is one.
pub open spec fn next_colon(b: Seq<u8>, from: int) -> Option<int>
    decreases b.len() - from,
{
    if from < 0 || from >= b.len() {
        None
    } else if b[from] == 58u8 {
        Some(from)
    } else {
        next_colon(b, from + 1)
    }
}

/// The three parts of `b` split at its first two colons (the last part keeps any further colons).
pub open spec fn colon_fields(b: Seq<u8>) -> Option<(Seq<u8>, Seq<u8>, Seq<u8>)> {
    match next_colon(b, 0) {
        None => None,
        Some(i) => match next_colon(b, i + 1) {
            None => None,
            Some(j) => Some((b.subrange(0, i), b.subrange(i + 1, j), b.subrange(j + 1, b.len() as int))),
        },
    }
}

/// The outcome of parsing a time split at colons, with a one or two byte hour and
/// two byte minutes and seconds.
pub open spec fn colon_outcome(b: Seq<u8>) -> TimeParse {
    match colon_fields(b) {
        None => TimeParse::InvalidFormat,
        Some((h, m, s)) => if h.len() == 0 || h.len() > 2 || m.len() != 2 || s.len() != 2 {
            TimeParse::InvalidFormat
        } else {
            fields_outcome(h, m, s)
        },
    }
}

/// Why a time could not be parsed.
#[derive(Debug, PartialEq, Eq)]
pub enum ParseError {
    InvalidFormat,
    TooManySecondsOrMinutes,
    ParseIntError(std::num::ParseIntError),
}

/// `r` is the result that `outcome` describes.
pub open spec fn matches_outcome(r: Result<Time, ParseError>, outcome: TimeParse) -> bool {
    match r {
        Ok(t) => outcome == TimeParse::Parsed(t@),
        Err(ParseError::InvalidFormat) => outcome == TimeParse::InvalidFormat,
        Err(ParseError::TooManySecondsOrMinutes) => outcome == TimeParse::TooManySecondsOrMinutes,
        Err(ParseError::ParseIntError(_)) => outcome == TimeParse::BadNumber,
    }
}

/// Reads one field as a `u32`: `InvalidFormat` when it is not UTF-8 or carries a sign, a
/// `ParseIntError` when it is not a number.
fn parse_field(field: &[u8]) -> (r: Result<u32, ParseError>)
    ensures
        match r {
            Ok(v) => valid_utf8(field@) && u32_literal(field@) == Some(v) && all_digits(field@),
            Err(ParseError::InvalidFormat) => !valid_utf8(field@) || (u32_literal(field@) is Some && !all_digits(
                field@,
            )),
            Err(ParseError::ParseIntError(_)) => valid_utf8(field@) && u32_literal(field@) is None,
            Err(_) => false,
        },
{
    match str_from_utf8(field) {
        None => Err(ParseError::InvalidFormat),
        Some(s) => match parse_u32(s) {
            Ok(v) => {
                if field[0] == 43u8 {
                    assert(!is_ascii_digit(field@[0]));
                    Err(ParseError::InvalidFormat)
                } else {
                    assert(unsigned_digits(field@) == field@);
                    Ok(v)
                }
            },
            Err(e) => Err(ParseError::ParseIntError(e)),
        },
    }
}

/// Reads the three fields, in order, and builds the time.
fn parse_fields(h: &[u8], m: &[u8], s: &[u8]) -> (r: Result<Time, ParseError>)
    requires
        h@.len() <= 2,
        m@.len() <= 2,
    ensures
        matches_outcome(r, fields_outcome(h@, m@, s@)),
{
    let hours = match parse_field(h) {
        Ok(v) => v,
        Err(e) => return Err(e),
    };
    let minutes = match parse_field(m) {
        Ok(v) => v,
        Err(e) => return Err(e),
    };
    let seconds = match parse_field(s) {
        Ok(v) => v,
        Err(e) => return Err(e),
    };
    if seconds > 59 || minutes > 59 {
        return Err(ParseError::TooManySecondsOrMinutes);
    }
    proof {
        lemma_short_literal_bound(h@);
    }
    Ok(Time { seconds_since_midnight: hours * 60 * 60 + minutes * 60 + seconds })
}

/// A literal of at most two bytes is below 100.
proof fn lemma_short_literal_bound(b: Seq<u8>)
    requires
        b.len() <= 2,
        u32_literal(b) is Some,
    ensures
        u32_literal(b)->0 < 100,
{
    let d = unsigned_digits(b);
    reveal_with_fuel(digits_value, 3);
    assert(d.len() <= 2);
    if d.len() == 1 {
        assert(d.drop_last().len() == 0);
    } else if d.len() == 2 {
        let d1 = d.drop_last();
        assert(d1.len() == 1);
        assert(d1.drop_last().len() == 0);
        assert(is_ascii_digit(d[0]) && is_ascii_digit(d[1]));
        assert(d1[0] == d[0]);
        assert(d.last() == d[1]);
    }
}

impl Time {
    /// The time `hours:minutes:seconds`.
    pub fn from_hms(hours: u32, minutes: u32, seconds: u32) -> (t: Time)
        requires
            minutes <= 59,
            seconds <= 59,
            (hours * 60 + minutes) * 60 + seconds <= u32::MAX,
        ensures
            t@ == (hours * 60 + minutes) * 60 + seconds,
    {
        Time { seconds_since_midnight: (hours * 60 + minutes) * 60 + seconds }
    }

    /// The time the given number of seconds after midnight.
    pub fn from_seconds_since_midnight(seconds: u32) -> (t: Time)
        ensures
            t@ == seconds,
    {
        Time { seconds_since_midnight: seconds }
    }

    /// The number of seconds since midnight.
    pub fn seconds_since_midnight(self) -> (s: u32)
        ensures
            s == self@,
    {
        self.seconds_since_midnight
    }

    /// The clock hour, which can be over 23.
    pub fn hour(self) -> (h: u8)
        requires
            hour_of(self@) <= u8::MAX,
        ensures
            h == hour_of(self@),
    {
        (self.seconds_since_midnight / 60 / 60) as u8
    }

    /// The minute of the hour.
    pub fn minute(self) -> (m: u8)
        ensures
            m == minute_of(self@),
    {
        ((self.seconds_since_midnight / 60) % 60) as u8
    }

    /// The second within the minute.
    pub fn second(self) -> (s: u8)
        ensures
            s == second_of(self@),
    {
        (self.seconds_since_midnight % 60) as u8
    }

    /// This time is strictly later than `rhs`.
    pub fn is_after(&self, rhs: Time) -> (r: bool)
        ensures
            r == (self@ > rhs@),
    {
        self.seconds_since_midnight > rhs.seconds_since_midnight
    }

    /// This time is strictly earlier than `rhs`.
    pub fn is_before(&self, rhs: Time) -> (r: bool)
        ensures
            r == (self@ < rhs@),
    {
        self.seconds_since_midnight < rhs.seconds_since_midnight
    }

    /// The time `rhs` after this one; it never rolls over to another day.
    pub fn add(self, rhs: Duration) -> (t: Time)
        requires
            0 <= self@ + rhs@ <= u32::MAX,
        ensures
            t@ == self@ + rhs@,
    {
        let time: i64 = self.seconds_since_midnight as i64;
        let duration: i64 = rhs.seconds as i64;
        Time { seconds_since_midnight: (time + duration) as u32 }
    }

    /// The duration from `rhs` to this time, both on the same service day.
    pub fn sub(self, rhs: Time) -> (d: Duration)
        requires
            i32::MIN <= self@ - rhs@ <= i32::MAX,
        ensures
            d@ == self@ - rhs@,
    {
        let lhs: i64 = self.seconds_since_midnight as i64;
        let rhs: i64 = rhs.seconds_since_midnight as i64;
        Duration { seconds: (lhs - rhs) as i32 }
    }

    /// The time as `hh:mm:ss` (hours can take more than two digits).
    pub fn to_string(&self) -> (s: String)
        requires
            hour_of(self@) <= u8::MAX,
        ensures
            s@ == hms_text(self@),
    {
        let mut out = String::new();
        push_pad2(&mut out, self.hour() as u32);
        out.append(":");
        push_pad2(&mut out, self.minute() as u32);
        out.append(":");
        push_pad2(&mut out, self.second() as u32);
        proof {
            reveal_strlit(":");
        }
        out
    }

    /// Parses `hh:mm:ss` or `h:mm:ss`, reading the fields by byte position.
    pub fn parse_fixed_width(s: &str) -> (r: Result<Time, ParseError>)
        ensures
            matches_outcome(r, fixed_width_outcome(s.spec_bytes())),
    {
        let b = s.as_bytes();
        if b.len() == 8 {
            if b[2] != 58u8 || b[5] != 58u8 {
                return Err(ParseError::InvalidFormat);
            }
            parse_fields(&b[0..2], &b[3..5], &b[6..8])
        } else if b.len() == 7 {
            if b[1] != 58u8 || b[4] != 58u8 {
                return Err(ParseError::InvalidFormat);
            }
            parse_fields(&b[0..1], &b[2..4], &b[5..7])
        } else {
            Err(ParseError::InvalidFormat)
        }
    }

    /// Parses a time split at its colons: a one or two digit hour, then two digit minutes
    /// and seconds.
    pub fn parse(string: &str) -> (r: Result<Time, ParseError>)
        ensures
            matches_outcome(r, colon_outcome(string.spec_bytes())),
    {
        let b = string.as_bytes();
        let n = b.len();
        let i = match find_colon(b, 0) {
            Some(i) => i,
            None => return Err(ParseError::InvalidFormat),
        };
        let j = match find_colon(b, i + 1) {
            Some(j) => j,
            None => return Err(ParseError::InvalidFormat),
        };
        if i == 0 || i > 2 || j - (i + 1) != 2 || b.len() - (j + 1) != 2 {
            return Err(ParseError::InvalidFormat);
        }
        parse_fields(&b[0..i], &b[i + 1..j], &b[j + 1..b.len()])
    }
}

impl core::str::FromStr for Time {
    type Err = ParseError;

    /// Parses `hh:mm:ss` or `h:mm:ss` as `Time::parse_fixed_width` does.
    fn from_str(s: &str) -> (r: Result<Time, ParseError>)
        ensures
            matches_outcome(r, fixed_width_outcome(s.spec_bytes())),
    {
        Time::parse_fixed_width(s)
    }
}

/// The position of the first colon at or after `from`.
fn find_colon(b: &[u8], from: usize) -> (r: Option<usize>)
    requires
        from <= b@.len(),
    ensures
        match r {
            Some(i) => next_colon(b@, from as int) == Some(i as int) && from <= i < b@.len(),
            None => next_colon(b@, from as int) is None,
        },
    decreases b@.len() - from,
{
    if from >= b.len() {
        None
    } else if b[from] == 58u8 {
        Some(from)
    } else {
        find_colon(b, from + 1)
    }
}

/// A period of a service day, from its start (included) to its end (excluded).
#[derive(Debug, Clone, Copy, PartialEq, Eq, Hash)]
pub struct Period {
    start: Time,
    end: Time,
}

impl View for Period {
    type V = (nat, nat);

    /// The start and end in seconds since midnight.
    closed spec fn view(&self) -> (nat, nat) {
        (self.start@, self.end@)
    }
}

/// The bounds of a period fit in 32 bits.
pub broadcast proof fn lemma_period_fits(p: Period)
    ensures
        #[trigger] p@.1 <= u32::MAX,
        p@.0 <= u32::MAX,
{
}

impl Period {
    #[verifier::type_invariant]
    spec fn starts_before_end(self) -> bool {
        self.start@ <= self.end@
    }

    /// The period between these two times; empty when they are equal.
    pub fn between(start: Time, end: Time) -> (p: Period)
        requires
            start@ <= end@,
        ensures
            p@ == (start@, end@),
    {
        Period { start, end }
    }

    /// The period with the same end and the new start.
    pub fn with_start(&self, start: Time) -> (p: Period)
        requires
            start@ <= self@.1,
        ensures
            p@ == (start@, self@.1),
    {
        Self::between(start, self.end)
    }

    /// Whether `time` lies in the period: the start is included, the end is not.
    pub fn contains(&self, time: Time) -> (r: bool)
        ensures
            r == (self@.0 <= time@ < self@.1),
    {
        self.start.seconds_since_midnight <= time.seconds_since_midnight
            && time.seconds_since_midnight < self.end.seconds_since_midnight
    }

    /// The start of the period.
    pub fn start(&self) -> (t: Time)
        ensures
            t@ == self@.0,
            self@.0 <= self@.1,
    {
        proof {
            use_type_invariant(self);
        }
        self.start
    }

    /// The end of the period.
    pub fn end(&self) -> (t: Time)
        ensures
            t@ == self@.1,
            self@.0 <= self@.1,
    {
        proof {
            use_type_invariant(self);
        }
        self.end
    }

    /// The length of the period.
    pub fn duration(&self) -> (d: Duration)
        requires
            self@.1 - self@.0 <= i32::MAX,
        ensures
            d@ == self@.1 - self@.0,
    {
        proof {
            use_type_invariant(self);
        }
        self.end.sub(self.start)
    }

    /// The period as `start-end`, both as `hh:mm:ss`.
    pub fn to_string(&self) -> (s: String)
        requires
            hour_of(self@.0) <= u8::MAX,
            hour_of(self@.1) <= u8::MAX,
        ensures
            s@ == hms_text(self@.0) + seq!['-'] + hms_text(self@.1),
    {
        let start = self.start();
        let end = self.end();
        let mut out = start.to_string();
        let dash = "-";
        proof {
            reveal_strlit("-");
            assert(dash@ =~= seq!['-']);
        }
        out.append(dash);
        let end_text = end.to_string();
        out.append(end_text.as_str());
        out
    }
}

impl ParseError {
    /// The message of the error; that of a bad number is std's message for it.
    pub fn to_string(&self) -> (s: String)
        ensures
            *self == ParseError::InvalidFormat ==> s@ == invalid_format_message(),
            *self == ParseError::TooManySecondsOrMinutes ==> s@ == too_many_message(),
    {
        match self {
            ParseError::InvalidFormat => {
                proof {
                    reveal_strlit("Time should use format eg. 23:59:59");
                }
                String::from_str("Time should use format eg. 23:59:59")
            },
            ParseError::TooManySecondsOrMinutes => {
                proof {
                    reveal_strlit("Maximum minutes or seconds is 59");
                }
                String::from_str("Maximum minutes or seconds is 59")
            },
            ParseError::ParseIntError(err) => int_error_message(err),
        }
    }
}

/// The message of a time in the wrong format.
pub open spec fn invalid_format_message() -> Seq<char> {
    "Time should use format eg. 23:59:59"@
}

/// The message of minutes or seconds past 59.
pub open spec fn too_many_message() -> Seq<char> {
    "Maximum minutes or seconds is 59"@
}

/// std's `ToString` on a `ParseIntError`, its `Display` message.
/// Claims nothing of the text: std documents no wording for it.
#[verifier::external_body]
fn int_error_message(err: &std::num::ParseIntError) -> String {
    err.to_string()
}


/// A number below 100 is padded to exactly two digits.
proof fn lemma_pad2_two_digits(n: nat)
    requires
        n < 100,
    ensures
        pad2(n) == seq![digit_char(n / 10), digit_char(n % 10)],
{
    if n >= 10 {
        reveal_with_fuel(crate::text::decimal, 2);
        assert(crate::text::decimal(n / 10) == seq![digit_char(n / 10)]);
        assert(crate::text::decimal(n) =~= seq![digit_char(n / 10), digit_char(n % 10)]);
    }
}

/// The byte of a digit character is its ASCII code.
proof fn lemma_digit_char_byte(d: nat)
    requires
        d < 10,
    ensures
        digit_char(d) as u8 == 48 + d,
        '\0' <= digit_char(d) <= '\u{7f}',
{
}

/// The UTF-8 bytes of two digit characters read back as their value.
proof fn lemma_two_digit_field(n: nat, c: Seq<char>)
    requires
        n < 100,
        c == seq![digit_char(n / 10), digit_char(n % 10)],
    ensures
        valid_utf8(encode_utf8(c)),
        u32_literal(encode_utf8(c)) == Some(n as u32),
        all_digits(encode_utf8(c)),
        encode_utf8(c).len() == 2,
{
    lemma_digit_char_byte(n / 10);
    lemma_digit_char_byte(n % 10);
    assert(is_ascii_chars(c));
    is_ascii_chars_encode_utf8(c);
    encode_utf8_valid_utf8(c);
    let b = encode_utf8(c);
    assert(b[0] == c[0] as u8);
    assert(b[1] == c[1] as u8);
    assert(unsigned_digits(b) == b);
    assert(all_digits(b));
    reveal_with_fuel(digits_value, 3);
    assert(b.drop_last().drop_last().len() == 0);
    assert(b.drop_last()[0] == b[0]);
    assert(digits_value(b) == n);
}

/// The text of a time of at most 99 hours, as `hms_text` gives it, is eight ASCII characters
/// whose UTF-8 bytes split into the three two-digit fields.
proof fn lemma_hms_bytes(secs: nat)
    requires
        hour_of(secs) < 100,
    ensures
        ({
            let b = encode_utf8(hms_text(secs));
            let h = seq![digit_char(hour_of(secs) / 10), digit_char(hour_of(secs) % 10)];
            let m = seq![digit_char(minute_of(secs) / 10), digit_char(minute_of(secs) % 10)];
            let s = seq![digit_char(second_of(secs) / 10), digit_char(second_of(secs) % 10)];
            &&& b.len() == 8
            &&& b[2] == 58u8
            &&& b[5] == 58u8
            &&& b[0] != 58u8
            &&& b[1] != 58u8
            &&& b[3] != 58u8
            &&& b[4] != 58u8
            &&& b.subrange(0, 2) == encode_utf8(h)
            &&& b.subrange(3, 5) == encode_utf8(m)
            &&& b.subrange(6, 8) == encode_utf8(s)
        }),
{
    let hh = hour_of(secs);
    let mm = minute_of(secs);
    let ss = second_of(secs);
    lemma_pad2_two_digits(hh);
    lemma_pad2_two_digits(mm);
    lemma_pad2_two_digits(ss);
    lemma_digit_char_byte(hh / 10);
    lemma_digit_char_byte(hh % 10);
    lemma_digit_char_byte(mm / 10);
    lemma_digit_char_byte(mm % 10);
    lemma_digit_char_byte(ss / 10);
    lemma_digit_char_byte(ss % 10);
    let h = seq![digit_char(hh / 10), digit_char(hh % 10)];
    let m = seq![digit_char(mm / 10), digit_char(mm % 10)];
    let s = seq![digit_char(ss / 10), digit_char(ss % 10)];
    let c = hms_text(secs);
    assert(c =~= seq![h[0], h[1], ':', m[0], m[1], ':', s[0], s[1]]);
    assert(is_ascii_chars(c));
    assert(is_ascii_chars(h));
    assert(is_ascii_chars(m));
    assert(is_ascii_chars(s));
    is_ascii_chars_encode_utf8(c);
    is_ascii_chars_encode_utf8(h);
    is_ascii_chars_encode_utf8(m);
    is_ascii_chars_encode_utf8(s);
    let b = encode_utf8(c);
    assert(b[0] == c[0] as u8);
    assert(b[1] == c[1] as u8);
    assert(b[2] == c[2] as u8);
    assert(b[3] == c[3] as u8);
    assert(b[4] == c[4] as u8);
    assert(b[5] == c[5] as u8);
    assert(b[6] == c[6] as u8);
    assert(b[7] == c[7] as u8);
    assert(b.subrange(0, 2) =~= encode_utf8(h));
    assert(b.subrange(3, 5) =~= encode_utf8(m));
    assert(b.subrange(6, 8) =~= encode_utf8(s));
}

/// Law: a time of at most 99 hours, written with `to_string`, is read back unchanged by both
/// parsers (`parse_fixed_width`, which `str::parse` uses, and `parse`).
pub proof fn law_to_string_parses_back(secs: nat)
    requires
        hour_of(secs) < 100,
    ensures
        fixed_width_outcome(encode_utf8(hms_text(secs))) == TimeParse::Parsed(secs),
        colon_outcome(encode_utf8(hms_text(secs))) == TimeParse::Parsed(secs),
{
    let hh = hour_of(secs);
    let mm = minute_of(secs);
    let ss = second_of(secs);
    lemma_hms_bytes(secs);
    let h = seq![digit_char(hh / 10), digit_char(hh % 10)];
    let m = seq![digit_char(mm / 10), digit_char(mm % 10)];
    let s = seq![digit_char(ss / 10), digit_char(ss % 10)];
    lemma_two_digit_field(hh, h);
    lemma_two_digit_field(mm, m);
    lemma_two_digit_field(ss, s);
    let b = encode_utf8(hms_text(secs));
    assert(hh * 3600 + mm * 60 + ss == secs);
    reveal_with_fuel(next_colon, 4);
    assert(next_colon(b, 0) == Some(2int));
    assert(next_colon(b, 3) == Some(5int));
    assert(b.subrange(6, b.len() as int) == b.subrange(6, 8));
}

} // verus!
