//! The radar as an SVG document: its frame of title, style, header and mode links around
//! the drawn fragments.
use vstd::prelude::*;

use crate::radar::{mode_label, TransitMode};
use crate::text::{decimal, pad2, push_signed, signed_decimal};
use crate::web::{address_text, holds_mode, with_added, without, year_text, LocalDateTime, UrlSearchParams};

verus! {

/// The texts, one after the other.
pub open spec fn joined(parts: Seq<String>) -> Seq<char>
    decreases parts.len(),
{
    if parts.len() == 0 {
        Seq::empty()
    } else {
        joined(parts.drop_last()) + parts.last()@
    }
}

/// The link of a mode of transport in the header: shown disabled when the search does not use
/// it, and leading to the same search with the mode switched.
pub open spec fn mode_link(p: UrlSearchParams, mode: TransitMode) -> Seq<char> {
    let enabled = p.modes@.contains(mode);
    let modes = if enabled {
        without(p.modes@, mode)
    } else {
        with_added(p.modes@, mode)
    };
    "<tspan x=\"0\" dy=\"1.5em\" class=\""@ + (if enabled {
        ""@
    } else {
        "disabled"@
    }) + "\"><a href=\""@ + address_text(p.station_id, p.departure_time, p.max_duration_minutes, modes) + "\">"@
        + mode_label(mode) + "</a></tspan>\n"@
}

/// The radar's document: the title with the origin's name, the style, the header linking to
/// the same search at `departure`, saying when it starts and for how many minutes, the links
/// of the modes of transport, the credit, the drawn fragments, the stations' fragments in a
/// group, the refreshing script if asked for, and the end.
pub open spec fn svg_document(
    origin_name: Seq<char>,
    style: Seq<char>,
    p: UrlSearchParams,
    departure: LocalDateTime,
    minutes: i64,
    fragments: Seq<String>,
    station_fragments: Seq<String>,
    refresh: bool,
) -> Seq<char> {
    "<!DOCTYPE svg PUBLIC \"-//W3C//DTD SVG 1.1//EN\" \"http://www.w3.org/Graphics/SVG/1.1/DTD/svg11.dtd\">\n<svg version=\"1.1\" xmlns=\"http://www.w3.org/2000/svg\" xmlns:xlink=\"http://www.w3.org/1999/xlink\" width=\"100%\" height=\"100%\" viewBox=\"-512 -512 1024 1024\">\n    <title>"@
        + origin_name
        + " departures: Transit Radar</title>\n    <desc>Departure tree.</desc>\n         \n"@
        + "<style>"@
        + style
        + "</style>\n"@
        + "<g id=\"header\" transform=\"translate(-506, -506)\"><text y=\"20\" style=\"font-size: 20pt;\">"@
        + origin_name
        + " departures</text><a href=\""@
        + address_text(p.station_id, Some(departure), p.max_duration_minutes, p.modes@)
        + "\" rel=\"self\"><text y=\"50\" style=\"font-size: 10pt; font-style: oblique;\">All trips starting "@
        + start_text(departure)
        + "<tspan x=\"0\" dy=\"1.4em\">and lasting less than "@
        + signed_decimal(minutes as int)
        + " minutes</tspan></text></a><text id=\"refresh-notice\" y=\"90\" visibility=\"hidden\">refreshing every 5 seconds [disable]</text><text y=\"110\" id=\"transport-types\">\n"@
        + mode_link(p, TransitMode::SBahn)
        + mode_link(p, TransitMode::UBahn)
        + mode_link(p, TransitMode::Tram)
        + mode_link(p, TransitMode::Bus)
        + mode_link(p, TransitMode::Regional)
        + mode_link(p, TransitMode::Boat)
        + "</text><text id=\"credit\" y=\"200\"><a href=\"https://radar.njk.onl\">from transit radar,</a><tspan x=\"0\" dy=\"1.4em\"><a href=\"mailto:platy@njk.lonl\">by platy</a></tspan></text></g>\n"@
        + joined(fragments)
        + "<g class=\"s\">\n"@
        + joined(station_fragments)
        + "</g>\n"@
        + (if refresh { "<script>\n                const refreshTimeout = setTimeout(() => location.reload(), 5000);\n                const refreshNotice = document.getElementById('refresh-notice')\n                refreshNotice.setAttribute('visibility', 'visible');\n                refreshNotice.onclick = () => {\n                    clearTimeout(refreshTimeout);\n                    refreshNotice.setAttribute('visibility', 'hidden');\n                }\n                </script>\n"@ } else { ""@ })
        + "</svg>\n"@
}

/// `n`, below 100, in decimal with a leading space when it has one digit.
pub open spec fn space_padded2(n: nat) -> Seq<char> {
    if n < 10 {
        seq![' '] + decimal(n)
    } else {
        decimal(n)
    }
}

/// The English abbreviation of a month's name.
pub open spec fn month_abbreviation(month: u32) -> Seq<char> {
    if month == 1 {
        seq!['J', 'a', 'n']
    } else if month == 2 {
        seq!['F', 'e', 'b']
    } else if month == 3 {
        seq!['M', 'a', 'r']
    } else if month == 4 {
        seq!['A', 'p', 'r']
    } else if month == 5 {
        seq!['M', 'a', 'y']
    } else if month == 6 {
        seq!['J', 'u', 'n']
    } else if month == 7 {
        seq!['J', 'u', 'l']
    } else if month == 8 {
        seq!['A', 'u', 'g']
    } else if month == 9 {
        seq!['S', 'e', 'p']
    } else if month == 10 {
        seq!['O', 'c', 't']
    } else if month == 11 {
        seq!['N', 'o', 'v']
    } else {
        seq!['D', 'e', 'c']
    }
}

/// When the radar starts, as `at %k:%M on %e %b %Y` writes it: the hour and the day of the
/// month space-padded to two places, the minute zero-padded, the month's abbreviation and
/// the year as ISO 8601 writes it.
pub open spec fn start_text(t: LocalDateTime) -> Seq<char> {
    seq!['a', 't', ' '] + space_padded2(t.hour as nat) + seq![':'] + pad2(t.minute as nat) + seq![' ', 'o', 'n', ' ']
        + space_padded2(t.day as nat) + seq![' '] + month_abbreviation(t.month) + seq![' '] + year_text(t.year as int)
}

/// chrono's `NaiveDate::from_ymd_opt` and `and_hms_nano_opt`, written with `format` and
/// `at %k:%M on %e %b %Y`.
/// Claims that on a valid date and time the text is what chrono's formatting source writes
/// for these fields: the hour and day space-padded to two places, the minute zero-padded,
/// the English month abbreviation, and the year in four digits, or signed beyond 0 to 9999.
#[verifier::external_body]
fn start_text_of(t: &LocalDateTime) -> (s: String)
    requires
        t.valid(),
    ensures
        s@ == start_text(*t),
{
    match chrono::NaiveDate::from_ymd_opt(t.year, t.month, t.day) {
        Some(date) => match date.and_hms_nano_opt(t.hour, t.minute, t.second, t.nanosecond) {
            Some(date_time) => date_time.format("at %k:%M on %e %b %Y").to_string(),
            None => String::new(),
        },
        None => String::new(),
    }
}

/// A search just like `p`.
fn copy_params(p: &UrlSearchParams) -> (r: UrlSearchParams)
    ensures
        r.station_id == p.station_id,
        r.departure_time == p.departure_time,
        r.max_duration_minutes == p.max_duration_minutes,
        r.modes@ == p.modes@,
{
    let mut modes: Vec<TransitMode> = Vec::new();
    let mut i: usize = 0;
    while i < p.modes.len()
        invariant
            i <= p.modes@.len(),
            modes@ == p.modes@.take(i as int),
        decreases p.modes@.len() - i,
    {
        modes.push(p.modes[i]);
        i = i + 1;
        proof {
            assert(modes@ =~= p.modes@.take(i as int));
        }
    }
    proof {
        assert(p.modes@.take(p.modes@.len() as int) =~= p.modes@);
    }
    UrlSearchParams {
        station_id: p.station_id,
        departure_time: p.departure_time,
        max_duration_minutes: p.max_duration_minutes,
        modes,
    }
}

/// Appends the texts one after the other.
fn push_all(s: &mut String, parts: &Vec<String>)
    ensures
        final(s)@ == old(s)@ + joined(parts@),
{
    let ghost start = s@;
    let mut i: usize = 0;
    proof {
        assert(parts@.take(0) =~= Seq::<String>::empty());
        assert(start + joined(parts@.take(0)) =~= start);
    }
    while i < parts.len()
        invariant
            i <= parts@.len(),
            s@ == start + joined(parts@.take(i as int)),
        decreases parts@.len() - i,
    {
        s.append(parts[i].as_str());
        proof {
            let t = parts@.take(i + 1);
            assert(t.drop_last() =~= parts@.take(i as int));
            assert(t.last() == parts@[i as int]);
            assert(s@ =~= start + joined(t));
        }
        i = i + 1;
    }
    proof {
        assert(parts@.take(parts@.len() as int) =~= parts@);
    }
}

/// Appends the link of the mode of transport.
fn push_mode_link(s: &mut String, p: &UrlSearchParams, mode: TransitMode)
    requires
        p.wf(),
    ensures
        final(s)@ == old(s)@ + mode_link(*p, mode),
{
    let enabled = holds_mode(&p.modes, mode);
    s.append("<tspan x=\"0\" dy=\"1.5em\" class=\"");
    let class: &str = if enabled {
        ""
    } else {
        "disabled"
    };
    s.append(class);
    s.append("\"><a href=\"");
    let copy = copy_params(p);
    let target = if enabled {
        copy.without_mode(mode)
    } else {
        copy.with_mode(mode)
    };
    let address = target.to_string();
    s.append(address.as_str());
    s.append("\">");
    s.append(mode.label());
    s.append("</a></tspan>\n");
}

/// The radar's document around its drawn fragments, for a search from the station named
/// `origin_name` with the parameters `params`, styled by `style`; the header links to the search
/// at `departure`, says it starts then and lasts less than `minutes`; with a
/// script that reloads it every five seconds when `refresh` is asked for.
pub fn radar_svg_document(
    origin_name: &str,
    style: &str,
    params: &UrlSearchParams,
    departure: LocalDateTime,
    minutes: i64,
    fragments: &Vec<String>,
    station_fragments: &Vec<String>,
    refresh: bool,
) -> (s: String)
    requires
        params.wf(),
        departure.valid(),
    ensures
        s@ == svg_document(
            origin_name@,
            style@,
            *params,
            departure,
            minutes,
            fragments@,
            station_fragments@,
            refresh,
        ),
{
    let mut s = String::new();
    s.append("<!DOCTYPE svg PUBLIC \"-//W3C//DTD SVG 1.1//EN\" \"http://www.w3.org/Graphics/SVG/1.1/DTD/svg11.dtd\">\n<svg version=\"1.1\" xmlns=\"http://www.w3.org/2000/svg\" xmlns:xlink=\"http://www.w3.org/1999/xlink\" width=\"100%\" height=\"100%\" viewBox=\"-512 -512 1024 1024\">\n    <title>");
    s.append(origin_name);
    s.append(" departures: Transit Radar</title>\n    <desc>Departure tree.</desc>\n         \n");
    s.append("<style>");
    s.append(style);
    s.append("</style>\n");
    s.append("<g id=\"header\" transform=\"translate(-506, -506)\"><text y=\"20\" style=\"font-size: 20pt;\">");
    s.append(origin_name);
    s.append(" departures</text><a href=\"");
    let here = copy_params(params).with_departure_time(departure);
    let address = here.to_string();
    s.append(address.as_str());
    s.append("\" rel=\"self\"><text y=\"50\" style=\"font-size: 10pt; font-style: oblique;\">All trips starting ");
    let starts = start_text_of(&departure);
    s.append(starts.as_str());
    s.append("<tspan x=\"0\" dy=\"1.4em\">and lasting less than ");
    push_signed(&mut s, minutes);
    s.append(" minutes</tspan></text></a><text id=\"refresh-notice\" y=\"90\" visibility=\"hidden\">refreshing every 5 seconds [disable]</text><text y=\"110\" id=\"transport-types\">\n");
    push_mode_link(&mut s, params, TransitMode::SBahn);
    push_mode_link(&mut s, params, TransitMode::UBahn);
    push_mode_link(&mut s, params, TransitMode::Tram);
    push_mode_link(&mut s, params, TransitMode::Bus);
    push_mode_link(&mut s, params, TransitMode::Regional);
    push_mode_link(&mut s, params, TransitMode::Boat);
    s.append("</text><text id=\"credit\" y=\"200\"><a href=\"https://radar.njk.onl\">from transit radar,</a><tspan x=\"0\" dy=\"1.4em\"><a href=\"mailto:platy@njk.lonl\">by platy</a></tspan></text></g>\n");
    push_all(&mut s, fragments);
    s.append("<g class=\"s\">\n");
    push_all(&mut s, station_fragments);
    s.append("</g>\n");
    let script: &str = if refresh {
        "<script>\n                const refreshTimeout = setTimeout(() => location.reload(), 5000);\n                const refreshNotice = document.getElementById('refresh-notice')\n                refreshNotice.setAttribute('visibility', 'visible');\n                refreshNotice.onclick = () => {\n                    clearTimeout(refreshTimeout);\n                    refreshNotice.setAttribute('visibility', 'hidden');\n                }\n                </script>\n"
    } else {
        ""
    };
    s.append(script);
    s.append("</svg>\n");
    s
}

} // verus!
