//! The parameters of the radar's web addresses: reading the modes of transport and the time
//! asked for, and writing the address of a search back out.
use vstd::prelude::*;
use chrono::{Datelike, Timelike};
use crate::radar::{mode_key, TransitMode};
use crate::text::{decimal, pad2, push_decimal, push_decimal_u64, push_pad2, push_signed, signed_decimal};

verus! {

/// The characters of `s`, in order.
pub fn chars_of(s: &str) -> (v: Vec<char>)
    ensures
        v@ == s@,
{
    let mut v: Vec<char> = Vec::new();
    let ghost chars = s@;
    for c in it: s.chars()
        invariant
            it.seq() == chars,
            chars == s@,
            v@ == chars.take(it.index()),
    {
        proof {
            vstd::string::axiom_spec_iter(s);
        }
        v.push(c);
        proof {
            assert(v@ =~= chars.take(it.index() + 1));
        }
    }
    proof {
        assert(chars.take(chars.len() as int) =~= chars);
    }
    v
}

/// Whether the characters of `v` from `start` up to `end` are those of `text`.
fn piece_is(v: &Vec<char>, start: usize, end: usize, text: &str) -> (b: bool)
    requires
        start <= end <= v@.len(),
    ensures
        b == (v@.subrange(start as int, end as int) == text@),
{
    let t = chars_of(text);
    if end - start != t.len() {
        return false;
    }
    let mut i: usize = 0;
    while i < t.len()
        invariant
            start <= end <= v@.len(),
            end - start == t@.len(),
            i <= t@.len(),
            t@ == text@,
            forall|j: int| 0 <= j < i ==> v@[start + j] == t@[j],
        decreases t@.len() - i,
    {
        if v[start + i] != t[i] {
            assert(v@.subrange(start as int, end as int)[i as int] != t@[i as int]);
            return false;
        }
        i = i + 1;
    }
    assert(v@.subrange(start as int, end as int) =~= t@);
    true
}

/// The pieces of `s` between its commas, in order (one empty piece for an empty `s`).
pub open spec fn comma_pieces(s: Seq<char>) -> Seq<Seq<char>>
    decreases s.len(),
{
    if s.len() == 0 {
        seq![Seq::empty()]
    } else {
        let before = comma_pieces(s.drop_last());
        if s.last() == ',' {
            before.push(Seq::empty())
        } else {
            before.update(before.len() - 1, before.last().push(s.last()))
        }
    }
}

/// The mode of transport whose key is `name`, if any.
pub open spec fn mode_named(name: Seq<char>) -> Option<TransitMode> {
    if name == mode_key(TransitMode::UBahn) {
        Some(TransitMode::UBahn)
    } else if name == mode_key(TransitMode::SBahn) {
        Some(TransitMode::SBahn)
    } else if name == mode_key(TransitMode::Bus) {
        Some(TransitMode::Bus)
    } else if name == mode_key(TransitMode::Tram) {
        Some(TransitMode::Tram)
    } else if name == mode_key(TransitMode::Regional) {
        Some(TransitMode::Regional)
    } else if name == mode_key(TransitMode::Boat) {
        Some(TransitMode::Boat)
    } else {
        None
    }
}

/// `modes` with `mode` added at the end, unless it is there already.
pub open spec fn with_added(modes: Seq<TransitMode>, mode: TransitMode) -> Seq<TransitMode> {
    if modes.contains(mode) {
        modes
    } else {
        modes.push(mode)
    }
}

/// The modes named by `names`, each once, in the order of their first naming; or the first
/// name that names no mode.
pub open spec fn modes_named(names: Seq<Seq<char>>) -> Result<Seq<TransitMode>, Seq<char>>
    decreases names.len(),
{
    if names.len() == 0 {
        Ok(Seq::empty())
    } else {
        match modes_named(names.drop_last()) {
            Err(e) => Err(e),
            Ok(modes) => match mode_named(names.last()) {
                Some(mode) => Ok(with_added(modes, mode)),
                None => Err(names.last()),
            },
        }
    }
}

/// The modes used when an address names none.
pub open spec fn default_modes() -> Seq<TransitMode> {
    seq![TransitMode::SBahn, TransitMode::UBahn]
}

/// The modes that the `mode` parameter `value` asks for: the defaults when it is empty, else
/// those named by its comma-separated pieces, or the first piece that names no mode.
pub open spec fn parsed_modes(value: Seq<char>) -> Result<Seq<TransitMode>, Seq<char>> {
    if value.len() == 0 {
        Ok(default_modes())
    } else {
        modes_named(comma_pieces(value))
    }
}

/// What `modes_named` gives names each mode at most once.
pub proof fn lemma_modes_named_distinct(names: Seq<Seq<char>>)
    ensures
        modes_named(names) matches Ok(modes) ==> modes.no_duplicates(),
    decreases names.len(),
{
    if names.len() > 0 {
        lemma_modes_named_distinct(names.drop_last());
        if let Ok(modes) = modes_named(names.drop_last()) {
            if let Some(mode) = mode_named(names.last()) {
                if !modes.contains(mode) {
                    assert forall|i: int, j: int|
                        0 <= i < j < modes.push(mode).len() implies modes.push(mode)[i] != modes.push(
                        mode,
                    )[j] by {
                        if j == modes.len() {
                            assert(modes[i] == modes.push(mode)[i]);
                        }
                    }
                }
            }
        }
    }
}

/// A piece of the `mode` parameter that names no mode of transport.
#[derive(Debug, Clone, PartialEq, Eq)]
pub struct UnknownMode {
    pub value: Vec<char>,
}

/// The mode whose key is the piece of `v` from `start` up to `end`, if any.
fn mode_of_piece(v: &Vec<char>, start: usize, end: usize) -> (r: Option<TransitMode>)
    requires
        start <= end <= v@.len(),
    ensures
        r == mode_named(v@.subrange(start as int, end as int)),
{
    let candidates = [
        TransitMode::UBahn,
        TransitMode::SBahn,
        TransitMode::Bus,
        TransitMode::Tram,
        TransitMode::Regional,
        TransitMode::Boat,
    ];
    let ghost piece = v@.subrange(start as int, end as int);
    let mut i: usize = 0;
    while i < 6
        invariant
            i <= 6,
            start <= end <= v@.len(),
            piece == v@.subrange(start as int, end as int),
            candidates@ == seq![
                TransitMode::UBahn,
                TransitMode::SBahn,
                TransitMode::Bus,
                TransitMode::Tram,
                TransitMode::Regional,
                TransitMode::Boat,
            ],
            forall|j: int| 0 <= j < i ==> piece != mode_key(#[trigger] candidates@[j]),
        decreases 6 - i,
    {
        let mode = candidates[i];
        if piece_is(v, start, end, mode.key()) {
            return Some(mode);
        }
        i = i + 1;
    }
    assert(piece != mode_key(candidates@[0]));
    assert(piece != mode_key(candidates@[1]));
    assert(piece != mode_key(candidates@[2]));
    assert(piece != mode_key(candidates@[3]));
    assert(piece != mode_key(candidates@[4]));
    assert(piece != mode_key(candidates@[5]));
    None
}

/// The characters of `v` from `start` up to `end`.
fn piece_chars(v: &Vec<char>, start: usize, end: usize) -> (r: Vec<char>)
    requires
        start <= end <= v@.len(),
    ensures
        r@ == v@.subrange(start as int, end as int),
{
    let mut r: Vec<char> = Vec::new();
    let mut k: usize = start;
    while k < end
        invariant
            start <= k <= end <= v@.len(),
            r@ == v@.subrange(start as int, k as int),
        decreases end - k,
    {
        r.push(v[k]);
        k = k + 1;
        proof {
            assert(r@ =~= v@.subrange(start as int, k as int));
        }
    }
    r
}

/// Whether `modes` holds `mode`.
pub(crate) fn holds_mode(modes: &Vec<TransitMode>, mode: TransitMode) -> (b: bool)
    ensures
        b == modes@.contains(mode),
{
    let mut i: usize = 0;
    while i < modes.len()
        invariant
            i <= modes@.len(),
            forall|j: int| 0 <= j < i ==> modes@[j] != mode,
        decreases modes@.len() - i,
    {
        if modes[i] == mode {
            return true;
        }
        i = i + 1;
    }
    false
}

/// Reads the `mode` parameter of an address: empty asks for the default modes, else each of
/// its comma-separated pieces names a mode (`ubahn`, `sbahn`, `bus`, `tram`, `regional` or
/// `boat`). Returns the modes asked for, each once, or the first piece that names none.
pub fn modes_from_value(value: &str) -> (r: Result<Vec<TransitMode>, UnknownMode>)
    ensures
        match r {
            Ok(modes) => parsed_modes(value@) == Ok::<Seq<TransitMode>, Seq<char>>(modes@),
            Err(e) => parsed_modes(value@) == Err::<Seq<TransitMode>, Seq<char>>(e.value@),
        },
        r matches Ok(modes) ==> modes@.no_duplicates(),
{
    proof {
        lemma_modes_named_distinct(comma_pieces(value@));
    }
    let v = chars_of(value);
    if v.len() == 0 {
        return Ok(vec![TransitMode::SBahn, TransitMode::UBahn]);
    }
    let mut modes: Vec<TransitMode> = Vec::new();
    let mut unknown: Option<UnknownMode> = None;
    let mut start: usize = 0;
    let mut i: usize = 0;
    while i < v.len()
        invariant
            v@ == value@,
            0 < v@.len(),
            start <= i <= v@.len(),
            comma_pieces(v@.take(i as int)).len() >= 1,
            comma_pieces(v@.take(i as int)).last() == v@.subrange(start as int, i as int),
            match unknown {
                Some(e) => modes_named(comma_pieces(v@.take(i as int)).drop_last()) == Err::<
                    Seq<TransitMode>,
                    Seq<char>,
                >(e.value@),
                None => modes_named(comma_pieces(v@.take(i as int)).drop_last()) == Ok::<
                    Seq<TransitMode>,
                    Seq<char>,
                >(modes@),
            },
        decreases v@.len() - i,
    {
        let ghost before = comma_pieces(v@.take(i as int));
        proof {
            assert(v@.take(i + 1).drop_last() =~= v@.take(i as int));
            assert(v@.take(i + 1).last() == v@[i as int]);
        }
        if v[i] == ',' {
            proof {
                assert(comma_pieces(v@.take(i + 1)) == before.push(Seq::empty()));
                assert(before.push(Seq::empty()).drop_last() =~= before);
                assert(before.drop_last().push(before.last()) =~= before);
            }
            if unknown.is_none() {
                match mode_of_piece(&v, start, i) {
                    Some(mode) => {
                        if !holds_mode(&modes, mode) {
                            modes.push(mode);
                        }
                    },
                    None => {
                        unknown = Some(UnknownMode { value: piece_chars(&v, start, i) });
                    },
                }
            }
            start = i + 1;
            i = i + 1;
            proof {
                assert(v@.subrange(start as int, i as int) =~= Seq::<char>::empty());
            }
        } else {
            proof {
                assert(comma_pieces(v@.take(i + 1)) == before.update(
                    before.len() - 1,
                    before.last().push(v@[i as int]),
                ));
                assert(before.update(before.len() - 1, before.last().push(v@[i as int])).drop_last()
                    =~= before.drop_last());
                assert(v@.subrange(start as int, i + 1) =~= v@.subrange(start as int, i as int).push(
                    v@[i as int],
                ));
            }
            i = i + 1;
        }
    }
    proof {
        assert(v@.take(v@.len() as int) =~= v@);
        let ps = comma_pieces(v@);
        assert(ps.drop_last().push(ps.last()) =~= ps);
    }
    match unknown {
        Some(e) => Err(e),
        None => {
            match mode_of_piece(&v, start, i) {
                Some(mode) => {
                    if !holds_mode(&modes, mode) {
                        modes.push(mode);
                    }
                    Ok(modes)
                },
                None => Err(UnknownMode { value: piece_chars(&v, start, i) }),
            }
        },
    }
}

/// Whether `year` has a 29th of February.
pub open spec fn is_leap_year(year: int) -> bool {
    year % 4 == 0 && (year % 100 != 0 || year % 400 == 0)
}

/// The number of days of `month` (1 to 12) in `year`.
pub open spec fn days_in_month(year: int, month: int) -> int {
    if month == 2 {
        if is_leap_year(year) {
            29
        } else {
            28
        }
    } else if month == 4 || month == 6 || month == 9 || month == 11 {
        30
    } else {
        31
    }
}

/// A date and time of day on a local clock, with no time zone, to the nanosecond. A
/// nanosecond count of a second or more stands for a leap second after the 59th second.
#[derive(Debug, Clone, Copy, PartialEq, Eq, Structural)]
pub struct LocalDateTime {
    pub year: i32,
    pub month: u32,
    pub day: u32,
    pub hour: u32,
    pub minute: u32,
    pub second: u32,
    pub nanosecond: u32,
}

impl LocalDateTime {
    /// The date exists in the calendar, within the years that chrono covers, and the time of
    /// day is one of its clock readings.
    pub open spec fn valid(self) -> bool {
        &&& -262143 <= self.year <= 262142
        &&& 1 <= self.month <= 12
        &&& 1 <= self.day <= days_in_month(self.year as int, self.month as int)
        &&& self.hour < 24
        &&& self.minute < 60
        &&& self.second < 60
        &&& (self.nanosecond < 1_000_000_000 || (self.second == 59 && self.nanosecond
            < 2_000_000_000))
    }
}

/// `n` in decimal with leading zeros to at least `width` digits.
pub open spec fn zero_padded(n: nat, width: nat) -> Seq<char> {
    if decimal(n).len() < width {
        Seq::new((width - decimal(n).len()) as nat, |i: int| '0') + decimal(n)
    } else {
        decimal(n)
    }
}

/// A year as ISO 8601 writes it: four digits within 0 to 9999, else a sign and at least four
/// digits.
pub open spec fn year_text(year: int) -> Seq<char> {
    if 0 <= year <= 9999 {
        zero_padded(year as nat, 4)
    } else if year < 0 {
        seq!['-'] + zero_padded((-year) as nat, 4)
    } else {
        seq!['+'] + zero_padded(year as nat, 4)
    }
}

/// The fraction of a second below one second: nothing when it is zero, else a point and three,
/// six or nine digits, the fewest that show it exactly.
pub open spec fn fraction_text(nanosecond: nat) -> Seq<char> {
    if nanosecond == 0 {
        Seq::empty()
    } else if nanosecond % 1_000_000 == 0 {
        seq!['.'] + zero_padded(nanosecond / 1_000_000, 3)
    } else if nanosecond % 1000 == 0 {
        seq!['.'] + zero_padded(nanosecond / 1000, 6)
    } else {
        seq!['.'] + zero_padded(nanosecond, 9)
    }
}

/// A date and time as `YYYY-MM-DDTHH:MM:SS` with the fraction of the second, a leap second
/// written as the 60th.
pub open spec fn date_time_text(t: LocalDateTime) -> Seq<char> {
    let leap = t.nanosecond >= 1_000_000_000;
    let second: nat = if leap { (t.second + 1) as nat } else { t.second as nat };
    let nanosecond: nat = if leap { (t.nanosecond - 1_000_000_000) as nat } else { t.nanosecond as nat };
    year_text(t.year as int) + seq!['-'] + pad2(t.month as nat) + seq!['-'] + pad2(t.day as nat)
        + seq!['T'] + pad2(t.hour as nat) + seq![':'] + pad2(t.minute as nat) + seq![':'] + pad2(
        second,
    ) + fraction_text(nanosecond)
}

/// chrono's `NaiveDate::from_ymd_opt` and `and_hms_nano_opt`, written with `NaiveDateTime`'s
/// `Debug`.
/// Claims that on a valid date and time the text is the ISO 8601 form that chrono's source
/// writes: the year (four digits, or signed beyond 0 to 9999), month, day, hour, minute and
/// second, the seconds' fraction in three, six or nine digits when it is not zero, and a leap
/// second as the 60th.
#[verifier::external_body]
fn naive_date_time_text(t: &LocalDateTime) -> (s: String)
    requires
        t.valid(),
    ensures
        s@ == date_time_text(*t),
{
    match chrono::NaiveDate::from_ymd_opt(t.year, t.month, t.day) {
        Some(date) => match date.and_hms_nano_opt(t.hour, t.minute, t.second, t.nanosecond) {
            Some(date_time) => format!("{:?}", date_time),
            None => String::new(),
        },
        None => String::new(),
    }
}

/// The date and time that chrono's `NaiveDateTime::from_str` reads from `text`, if it reads one.
pub uninterp spec fn date_time_read(text: Seq<char>) -> Option<LocalDateTime>;

/// chrono's `NaiveDateTime::from_str` (through `str::parse`), taken apart into its fields
/// (`Datelike` and `Timelike`).
/// Claims that the result is a function of the text, and that what is read is a valid date
/// and time, as every `NaiveDateTime` is. chrono's `ParseError` is dropped: it says which part
/// of the text failed, and nothing here reads it.
#[verifier::external_body]
fn parse_date_time(text: &str) -> (r: Option<LocalDateTime>)
    ensures
        r == date_time_read(text@),
        r matches Some(t) ==> t.valid(),
{
    match text.parse::<chrono::NaiveDateTime>() {
        Ok(date_time) => Some(
            LocalDateTime {
                year: date_time.year(),
                month: date_time.month(),
                day: date_time.day(),
                hour: date_time.hour(),
                minute: date_time.minute(),
                second: date_time.second(),
                nanosecond: date_time.nanosecond(),
            },
        ),
        Err(_) => None,
    }
}

/// The time that an address asks the radar to start at.
#[derive(Debug, Clone, Copy, PartialEq, Eq, Structural)]
pub enum TimeFilter {
    Now,
    Local(LocalDateTime),
}

/// The time segment of an address is neither `now` nor a date and time.
#[derive(Debug, Clone, Copy, PartialEq, Eq, Structural)]
pub enum TimeFilterError {
    NotADateTime,
}

/// The characters of `now`.
pub open spec fn now_text() -> Seq<char> {
    seq!['n', 'o', 'w']
}

/// The time that the text asks for: now, or the date and time that chrono reads from it.
pub open spec fn time_filter_read(text: Seq<char>) -> Option<TimeFilter> {
    if text == now_text() {
        Some(TimeFilter::Now)
    } else {
        match date_time_read(text) {
            Some(t) => Some(TimeFilter::Local(t)),
            None => None,
        }
    }
}

impl TimeFilter {
    /// Reads the time segment of an address: `now`, or a local date and time as chrono reads it.
    pub fn from_param(param: &str) -> (r: Result<TimeFilter, TimeFilterError>)
        ensures
            match r {
                Ok(f) => time_filter_read(param@) == Some(f),
                Err(_) => time_filter_read(param@) is None,
            },
            r matches Ok(TimeFilter::Local(t)) ==> t.valid(),
    {
        let chars = chars_of(param);
        let now = "now";
        proof {
            reveal_strlit("now");
            assert(now@ =~= now_text());
        }
        if piece_is(&chars, 0, chars.len(), now) {
            proof {
                assert(chars@.subrange(0, chars@.len() as int) =~= chars@);
            }
            return Ok(TimeFilter::Now);
        }
        proof {
            assert(chars@.subrange(0, chars@.len() as int) =~= chars@);
        }
        match parse_date_time(param) {
            Some(t) => Ok(TimeFilter::Local(t)),
            None => Err(TimeFilterError::NotADateTime),
        }
    }

    /// The time as an address writes it.
    pub fn to_string(&self) -> (s: String)
        requires
            self matches TimeFilter::Local(t) ==> t.valid(),
        ensures
            s@ == match *self {
                TimeFilter::Now => now_text(),
                TimeFilter::Local(t) => date_time_text(t),
            },
    {
        match self {
            TimeFilter::Now => {
                proof {
                    reveal_strlit("now");
                }
                String::from_str("now")
            },
            TimeFilter::Local(t) => naive_date_time_text(t),
        }
    }
}

/// The smallest identifier of a station; addresses write a station's identifier less this.
pub const STATION_ID_MIN: u64 = 900_000_000_000;

/// The number of minutes that a radar covers unless an address asks for another.
pub const DEFAULT_MAX_DURATION_MINS: i64 = 30;

/// `modes` are exactly the default modes, in any order.
pub open spec fn is_default_modes(modes: Seq<TransitMode>) -> bool {
    modes.to_set() == set![TransitMode::SBahn, TransitMode::UBahn]
}

/// `modes` without `mode`, the others in their order.
pub open spec fn without(modes: Seq<TransitMode>, mode: TransitMode) -> Seq<TransitMode>
    decreases modes.len(),
{
    if modes.len() == 0 {
        Seq::empty()
    } else if modes.last() == mode {
        without(modes.drop_last(), mode)
    } else {
        without(modes.drop_last(), mode).push(modes.last())
    }
}

/// The keys of `modes`, in order, separated by commas.
pub open spec fn keys_joined(modes: Seq<TransitMode>) -> Seq<char>
    decreases modes.len(),
{
    if modes.len() == 0 {
        Seq::empty()
    } else if modes.len() == 1 {
        mode_key(modes[0])
    } else {
        keys_joined(modes.drop_last()) + seq![','] + mode_key(modes.last())
    }
}

/// The search that an address of the radar asks for: from a station, at a time (or now), for
/// a number of minutes, with some modes of transport.
#[derive(Debug, Clone, PartialEq, Eq)]
pub struct UrlSearchParams {
    pub station_id: u64,
    pub departure_time: Option<LocalDateTime>,
    pub max_duration_minutes: i64,
    pub modes: Vec<TransitMode>,
}

/// The characters of the address of the search `p`: `/depart-from/`, the station's identifier
/// less `STATION_ID_MIN`, `/`, the time or `now`, then, where they differ from the defaults,
/// the minutes and the modes as query parameters (joined by an escaped `&`).
pub open spec fn url_text(p: UrlSearchParams) -> Seq<char> {
    address_text(p.station_id, p.departure_time, p.max_duration_minutes, p.modes@)
}

/// The characters of the address of a search from the station, at the time (or now), for the
/// minutes, with the modes of transport: see `url_text`.
pub open spec fn address_text(
    station_id: u64,
    departure_time: Option<LocalDateTime>,
    max_duration_minutes: i64,
    modes: Seq<TransitMode>,
) -> Seq<char> {
    let minutes_differ = max_duration_minutes != DEFAULT_MAX_DURATION_MINS;
    let modes_differ = !is_default_modes(modes);
    seq!['/', 'd', 'e', 'p', 'a', 'r', 't', '-', 'f', 'r', 'o', 'm', '/'] + decimal(
        (station_id - STATION_ID_MIN) as nat,
    ) + seq!['/'] + match departure_time {
        Some(t) => date_time_text(t),
        None => now_text(),
    } + (if minutes_differ || modes_differ {
        seq!['?']
    } else {
        Seq::empty()
    }) + (if minutes_differ {
        seq!['m', 'i', 'n', 'u', 't', 'e', 's', '='] + signed_decimal(max_duration_minutes as int)
    } else {
        Seq::empty()
    }) + (if minutes_differ && modes_differ {
        seq!['&', 'a', 'm', 'p', ';']
    } else {
        Seq::empty()
    }) + (if modes_differ {
        seq!['m', 'o', 'd', 'e', '='] + keys_joined(modes)
    } else {
        Seq::empty()
    })
}

/// Adding a mode that is not there keeps the modes distinct.
pub proof fn lemma_with_added_distinct(modes: Seq<TransitMode>, mode: TransitMode)
    requires
        modes.no_duplicates(),
    ensures
        with_added(modes, mode).no_duplicates(),
{
    if !modes.contains(mode) {
        assert forall|i: int, j: int|
            0 <= i < j < modes.push(mode).len() implies modes.push(mode)[i] != modes.push(
            mode,
        )[j] by {
            if j == modes.len() {
                assert(modes[i] == modes.push(mode)[i]);
            }
        }
    }
}

/// A sequence with an item added at the end holds what it held and that item.
pub proof fn lemma_push_contains(s: Seq<TransitMode>, a: TransitMode, b: TransitMode)
    ensures
        s.push(a).contains(b) <==> (s.contains(b) || a == b),
{
    if s.push(a).contains(b) {
        let k = choose|k: int| 0 <= k < s.push(a).len() && s.push(a)[k] == b;
        if k < s.len() {
            assert(s[k] == b);
        }
    }
    if s.contains(b) {
        let k = choose|k: int| 0 <= k < s.len() && s[k] == b;
        assert(s.push(a)[k] == b);
    }
    if a == b {
        assert(s.push(a)[s.len() as int] == b);
    }
}

/// What `without` keeps, `modes` held, and it is not `mode`; and it keeps distinct modes
/// distinct.
pub proof fn lemma_without(modes: Seq<TransitMode>, mode: TransitMode)
    ensures
        forall|m: TransitMode| #[trigger] without(modes, mode).contains(m) <==> (modes.contains(m) && m != mode),
        modes.no_duplicates() ==> without(modes, mode).no_duplicates(),
    decreases modes.len(),
{
    if modes.len() > 0 {
        let rest = modes.drop_last();
        lemma_without(rest, mode);
        assert(modes =~= rest.push(modes.last()));
        assert forall|m: TransitMode| #[trigger] without(modes, mode).contains(m) <==> (modes.contains(m) && m != mode) by {
            lemma_push_contains(rest, modes.last(), m);
            lemma_push_contains(without(rest, mode), modes.last(), m);
        }
        if modes.no_duplicates() && modes.last() != mode {
            let w = without(rest, mode);
            assert(!rest.contains(modes.last())) by {
                if rest.contains(modes.last()) {
                    let k = choose|k: int| 0 <= k < rest.len() && rest[k] == modes.last();
                    assert(modes[k] == modes[modes.len() - 1]);
                }
            }
            assert forall|i: int, j: int| 0 <= i < j < w.push(modes.last()).len() implies w.push(
                modes.last(),
            )[i] != w.push(modes.last())[j] by {
                if j == w.len() {
                    assert(w[i] == w.push(modes.last())[i]);
                    assert(w.contains(w[i]));
                }
            }
        }
    }
}

/// Distinct modes are the default ones exactly when they are two and hold both.
pub proof fn lemma_default_modes(modes: Seq<TransitMode>)
    requires
        modes.no_duplicates(),
    ensures
        is_default_modes(modes) <==> (modes.len() == 2 && modes.contains(TransitMode::SBahn)
            && modes.contains(TransitMode::UBahn)),
{
    let defaults = set![TransitMode::SBahn, TransitMode::UBahn];
    modes.unique_seq_to_set();
    assert(defaults.len() == 2) by {
        assert(defaults == set![TransitMode::SBahn].insert(TransitMode::UBahn));
    }
    if is_default_modes(modes) {
        assert(modes.to_set().contains(TransitMode::SBahn));
        assert(modes.to_set().contains(TransitMode::UBahn));
    }
    if modes.len() == 2 && modes.contains(TransitMode::SBahn) && modes.contains(TransitMode::UBahn) {
        assert forall|m: TransitMode| modes.to_set().contains(m) <==> #[trigger] defaults.contains(m) by {
            if modes.to_set().contains(m) {
                assert(modes.contains(m));
                let k = choose|k: int| 0 <= k < modes.len() && modes[k] == m;
                let a = choose|a: int| 0 <= a < modes.len() && modes[a] == TransitMode::SBahn;
                let b = choose|b: int| 0 <= b < modes.len() && modes[b] == TransitMode::UBahn;
                assert(a != b);
                assert(k == a || k == b);
            }
            if defaults.contains(m) {
                assert(modes.contains(m));
            }
        }
        assert(modes.to_set() =~= defaults);
    }
}

/// Appends the keys of `modes`, separated by commas, to `s`.
fn push_keys(s: &mut String, modes: &Vec<TransitMode>)
    ensures
        final(s)@ == old(s)@ + keys_joined(modes@),
{
    let ghost start = s@;
    let mut i: usize = 0;
    while i < modes.len()
        invariant
            i <= modes@.len(),
            s@ == start + keys_joined(modes@.take(i as int)),
        decreases modes@.len() - i,
    {
        proof {
            assert(modes@.take(i + 1).drop_last() =~= modes@.take(i as int));
            assert(modes@.take(i + 1).last() == modes@[i as int]);
        }
        if i > 0 {
            let comma = ",";
            proof {
                reveal_strlit(",");
                assert(comma@ =~= seq![',']);
            }
            s.append(comma);
        }
        let key = modes[i].key();
        s.append(key);
        proof {
            let taken = modes@.take(i + 1);
            if i == 0 {
                assert(taken[0] == modes@[0]);
                assert(keys_joined(taken) == mode_key(modes@[0]));
            } else {
                assert(keys_joined(taken) == keys_joined(modes@.take(i as int)) + seq![','] + mode_key(
                    modes@[i as int],
                ));
            }
            assert(s@ =~= start + keys_joined(taken));
        }
        i = i + 1;
    }
    proof {
        assert(modes@.take(modes@.len() as int) =~= modes@);
    }
}

impl UrlSearchParams {
    /// The search has a station's identifier, a valid time and distinct modes.
    pub open spec fn wf(&self) -> bool {
        &&& self.station_id >= STATION_ID_MIN
        &&& (self.departure_time matches Some(t) ==> t.valid())
        &&& self.modes@.no_duplicates()
    }

    /// The same search from another station.
    pub fn with_station_id(self, station_id: u64) -> (r: UrlSearchParams)
        ensures
            r.station_id == station_id,
            r.departure_time == self.departure_time,
            r.max_duration_minutes == self.max_duration_minutes,
            r.modes@ == self.modes@,
    {
        UrlSearchParams {
            station_id,
            departure_time: self.departure_time,
            max_duration_minutes: self.max_duration_minutes,
            modes: self.modes,
        }
    }

    /// The same search at a given time.
    pub fn with_departure_time(self, departure_time: LocalDateTime) -> (r: UrlSearchParams)
        ensures
            r.station_id == self.station_id,
            r.departure_time == Some(departure_time),
            r.max_duration_minutes == self.max_duration_minutes,
            r.modes@ == self.modes@,
    {
        UrlSearchParams {
            station_id: self.station_id,
            departure_time: Some(departure_time),
            max_duration_minutes: self.max_duration_minutes,
            modes: self.modes,
        }
    }

    /// The same search with one more mode of transport (none more where it has it already).
    pub fn with_mode(self, mode: TransitMode) -> (r: UrlSearchParams)
        ensures
            r.station_id == self.station_id,
            r.departure_time == self.departure_time,
            r.max_duration_minutes == self.max_duration_minutes,
            r.modes@ == with_added(self.modes@, mode),
            self.modes@.no_duplicates() ==> r.modes@.no_duplicates(),
    {
        let mut modes = self.modes;
        if !holds_mode(&modes, mode) {
            modes.push(mode);
        }
        proof {
            if self.modes@.no_duplicates() {
                lemma_with_added_distinct(self.modes@, mode);
            }
        }
        UrlSearchParams {
            station_id: self.station_id,
            departure_time: self.departure_time,
            max_duration_minutes: self.max_duration_minutes,
            modes,
        }
    }

    /// The same search without a mode of transport.
    pub fn without_mode(self, mode: TransitMode) -> (r: UrlSearchParams)
        ensures
            r.station_id == self.station_id,
            r.departure_time == self.departure_time,
            r.max_duration_minutes == self.max_duration_minutes,
            r.modes@ == without(self.modes@, mode),
            self.modes@.no_duplicates() ==> r.modes@.no_duplicates(),
    {
        let mut modes: Vec<TransitMode> = Vec::new();
        let mut i: usize = 0;
        while i < self.modes.len()
            invariant
                i <= self.modes@.len(),
                modes@ == without(self.modes@.take(i as int), mode),
            decreases self.modes@.len() - i,
        {
            proof {
                assert(self.modes@.take(i + 1).drop_last() =~= self.modes@.take(i as int));
            }
            if self.modes[i] != mode {
                modes.push(self.modes[i]);
            }
            i = i + 1;
        }
        proof {
            assert(self.modes@.take(self.modes@.len() as int) =~= self.modes@);
            lemma_without(self.modes@, mode);
        }
        UrlSearchParams {
            station_id: self.station_id,
            departure_time: self.departure_time,
            max_duration_minutes: self.max_duration_minutes,
            modes,
        }
    }

    /// Whether the search uses the default modes of transport.
    fn uses_default_modes(&self) -> (b: bool)
        requires
            self.modes@.no_duplicates(),
        ensures
            b == is_default_modes(self.modes@),
    {
        proof {
            lemma_default_modes(self.modes@);
        }
        self.modes.len() == 2 && holds_mode(&self.modes, TransitMode::SBahn) && holds_mode(
            &self.modes,
            TransitMode::UBahn,
        )
    }

    /// The address of the search.
    pub fn to_string(&self) -> (s: String)
        requires
            self.wf(),
        ensures
            s@ == url_text(*self),
    {
        proof {
            reveal_strlit("/depart-from/");
            reveal_strlit("/");
            reveal_strlit("now");
            reveal_strlit("?");
            reveal_strlit("minutes=");
            reveal_strlit("&amp;");
            reveal_strlit("mode=");
            reveal_strlit(",");
        }
        let minutes_differ = self.max_duration_minutes != DEFAULT_MAX_DURATION_MINS;
        let modes_differ = !self.uses_default_modes();
        let mut s = String::from_str("/depart-from/");
        push_decimal_u64(&mut s, self.station_id - STATION_ID_MIN);
        s.append("/");
        let ghost head = s@;
        match self.departure_time {
            Some(t) => {
                let text = naive_date_time_text(&t);
                s.append(text.as_str());
            },
            None => {
                s.append("now");
            },
        }
        let ghost with_time = s@;
        if minutes_differ || modes_differ {
            s.append("?");
        }
        let ghost with_mark = s@;
        if minutes_differ {
            s.append("minutes=");
            push_signed(&mut s, self.max_duration_minutes);
        }
        let ghost with_minutes = s@;
        if minutes_differ && modes_differ {
            s.append("&amp;");
        }
        let ghost with_and = s@;
        if modes_differ {
            s.append("mode=");
            push_keys(&mut s, &self.modes);
        }
        proof {
            let p = *self;
            let time_part = match p.departure_time {
                Some(t) => date_time_text(t),
                None => now_text(),
            };
            let mark_part = if minutes_differ || modes_differ { seq!['?'] } else { Seq::empty() };
            let minutes_part = if minutes_differ {
                seq!['m', 'i', 'n', 'u', 't', 'e', 's', '='] + signed_decimal(p.max_duration_minutes as int)
            } else {
                Seq::empty()
            };
            let and_part = if minutes_differ && modes_differ {
                seq!['&', 'a', 'm', 'p', ';']
            } else {
                Seq::empty()
            };
            let modes_part = if modes_differ {
                seq!['m', 'o', 'd', 'e', '='] + keys_joined(p.modes@)
            } else {
                Seq::empty()
            };
            assert(head =~= seq!['/', 'd', 'e', 'p', 'a', 'r', 't', '-', 'f', 'r', 'o', 'm', '/']
                + decimal((p.station_id - STATION_ID_MIN) as nat) + seq!['/']);
            assert(with_time =~= head + time_part);
            assert(with_mark =~= with_time + mark_part);
            assert(with_minutes =~= with_mark + minutes_part);
            assert(with_and =~= with_minutes + and_part);
            assert(s@ =~= with_and + modes_part);
            assert(url_text(p) == head + time_part + mark_part + minutes_part + and_part + modes_part);
        }
        s
    }
}

/// The keys of `modes`, in order.
pub open spec fn keys_of(modes: Seq<TransitMode>) -> Seq<Seq<char>> {
    modes.map_values(|m: TransitMode| mode_key(m))
}

/// Characters without a comma, added at the end, extend the last piece.
pub proof fn lemma_comma_pieces_extend(x: Seq<char>, y: Seq<char>)
    requires
        !y.contains(','),
    ensures
        comma_pieces(x + y) == comma_pieces(x).update(
            comma_pieces(x).len() - 1,
            comma_pieces(x).last() + y,
        ),
        comma_pieces(x).len() >= 1,
    decreases y.len(),
{
    lemma_comma_pieces_nonempty(x);
    if y.len() == 0 {
        assert(x + y =~= x);
        assert(comma_pieces(x).last() + y =~= comma_pieces(x).last());
        assert(comma_pieces(x).update(comma_pieces(x).len() - 1, comma_pieces(x).last())
            =~= comma_pieces(x));
    } else {
        let front = y.drop_last();
        assert(!front.contains(',')) by {
            if front.contains(',') {
                let k = choose|k: int| 0 <= k < front.len() && front[k] == ',';
                assert(y[k] == ',');
            }
        }
        assert(y[y.len() - 1] != ',');
        lemma_comma_pieces_extend(x, front);
        assert((x + y).drop_last() =~= x + front);
        assert((x + y).last() == y.last());
        let before = comma_pieces(x + front);
        assert(comma_pieces(x + y) == before.update(before.len() - 1, before.last().push(y.last())));
        assert(before.len() == comma_pieces(x).len());
        assert(before.last() == comma_pieces(x).last() + front);
        assert((comma_pieces(x).last() + front).push(y.last()) =~= comma_pieces(x).last() + y);
        assert(comma_pieces(x + y) =~= comma_pieces(x).update(
            comma_pieces(x).len() - 1,
            comma_pieces(x).last() + y,
        ));
    }
}

/// There is always at least one piece.
pub proof fn lemma_comma_pieces_nonempty(x: Seq<char>)
    ensures
        comma_pieces(x).len() >= 1,
    decreases x.len(),
{
    if x.len() > 0 {
        lemma_comma_pieces_nonempty(x.drop_last());
    }
}

/// No key of a mode holds a comma, and each names its own mode.
pub proof fn lemma_key_names_mode(mode: TransitMode)
    ensures
        !mode_key(mode).contains(','),
        mode_named(mode_key(mode)) == Some(mode),
{
    let key = mode_key(mode);
    assert(!key.contains(',')) by {
        if key.contains(',') {
            let k = choose|k: int| 0 <= k < key.len() && key[k] == ',';
            assert(key[k] != ',');
        }
    }
    if mode != TransitMode::UBahn {
        assert(key != mode_key(TransitMode::UBahn)) by {
            if key.len() == 5 {
                assert(key[0] != mode_key(TransitMode::UBahn)[0]);
            }
        }
    }
    if mode != TransitMode::SBahn && mode != TransitMode::UBahn {
        assert(key != mode_key(TransitMode::SBahn)) by {
            if key.len() == 5 {
                assert(key[0] != mode_key(TransitMode::SBahn)[0]);
            }
        }
    }
    if mode == TransitMode::Regional || mode == TransitMode::Boat {
        assert(key != mode_key(TransitMode::Bus)) by {
            if key.len() == 3 {
                assert(false);
            }
        }
        assert(key != mode_key(TransitMode::Tram)) by {
            if key.len() == 4 {
                assert(key[0] != mode_key(TransitMode::Tram)[0]);
            }
        }
    }
    if mode == TransitMode::Tram {
        assert(key != mode_key(TransitMode::Bus));
    }
    if mode == TransitMode::Boat {
        assert(key != mode_key(TransitMode::Regional));
    }
}

/// The pieces of the keys of `modes` joined by commas are those keys.
pub proof fn lemma_keys_pieces(modes: Seq<TransitMode>)
    requires
        modes.len() > 0,
    ensures
        comma_pieces(keys_joined(modes)) == keys_of(modes),
    decreases modes.len(),
{
    lemma_key_names_mode(modes.last());
    if modes.len() == 1 {
        lemma_comma_pieces_extend(Seq::empty(), mode_key(modes[0]));
        assert(Seq::<char>::empty() + mode_key(modes[0]) =~= mode_key(modes[0]));
        assert(comma_pieces(Seq::<char>::empty()) =~= seq![Seq::<char>::empty()]);
        assert(comma_pieces(keys_joined(modes)) =~= keys_of(modes));
    } else {
        let front = modes.drop_last();
        lemma_keys_pieces(front);
        let a = keys_joined(front) + seq![','];
        lemma_comma_pieces_extend(a, mode_key(modes.last()));
        assert(a.drop_last() =~= keys_joined(front));
        assert(comma_pieces(a) == comma_pieces(keys_joined(front)).push(Seq::empty()));
        assert(keys_joined(modes) =~= a + mode_key(modes.last()));
        assert(Seq::<char>::empty() + mode_key(modes.last()) =~= mode_key(modes.last()));
        assert(comma_pieces(keys_joined(modes)) =~= keys_of(modes));
    }
}

/// Reading back the keys of distinct modes gives those modes in order.
pub proof fn lemma_modes_named_keys(modes: Seq<TransitMode>)
    requires
        modes.no_duplicates(),
    ensures
        modes_named(keys_of(modes)) == Ok::<Seq<TransitMode>, Seq<char>>(modes),
    decreases modes.len(),
{
    let names = keys_of(modes);
    if modes.len() > 0 {
        let front = modes.drop_last();
        assert(front.no_duplicates());
        lemma_modes_named_keys(front);
        assert(names.drop_last() =~= keys_of(front));
        lemma_key_names_mode(modes.last());
        assert(!front.contains(modes.last())) by {
            if front.contains(modes.last()) {
                let k = choose|k: int| 0 <= k < front.len() && front[k] == modes.last();
                assert(modes[k] == modes[modes.len() - 1]);
            }
        }
        assert(names.last() == mode_key(modes.last()));
        assert(with_added(front, modes.last()) == front.push(modes.last()));
        assert(front.push(modes.last()) =~= modes);
        assert(modes_named(names) == Ok::<Seq<TransitMode>, Seq<char>>(front.push(modes.last())));
    } else {
        assert(names.len() == 0);
        assert(modes =~= Seq::<TransitMode>::empty());
    }
}

/// The modes that an address writes, it reads back: the `mode` parameter written for distinct
/// modes gives those same modes, in the same order.
pub proof fn law_modes_read_back(modes: Seq<TransitMode>)
    requires
        modes.len() > 0,
        modes.no_duplicates(),
    ensures
        parsed_modes(keys_joined(modes)) == Ok::<Seq<TransitMode>, Seq<char>>(modes),
{
    lemma_keys_pieces(modes);
    lemma_modes_named_keys(modes);
    lemma_key_names_mode(modes[0]);
    assert(keys_joined(modes).len() > 0) by {
        lemma_comma_pieces_nonempty(keys_joined(modes));
        if keys_joined(modes).len() == 0 {
            assert(comma_pieces(keys_joined(modes)) =~= seq![Seq::<char>::empty()]);
            assert(keys_of(modes)[0] == mode_key(modes[0]));
            assert(mode_key(modes[0]).len() > 0);
        }
    }
}

} // verus!
