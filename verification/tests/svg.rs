use transit_radar::radar::TransitMode;
use transit_radar::svg::radar_svg_document;
use transit_radar::web::{LocalDateTime, UrlSearchParams};

fn params() -> UrlSearchParams {
    UrlSearchParams {
        station_id: 900_000_000_001,
        departure_time: None,
        max_duration_minutes: 30,
        modes: vec![TransitMode::SBahn, TransitMode::UBahn],
    }
}

fn departure() -> LocalDateTime {
    LocalDateTime { year: 2020, month: 1, day: 6, hour: 8, minute: 0, second: 0, nanosecond: 0 }
}

#[test]
fn svg_document_frames_the_fragments() {
    let fragments = vec!["<g id=\"trips\"></g>\n".to_string()];
    let stations = vec!["<text>A</text>\n".to_string(), "<text>B</text>\n".to_string()];
    let doc = radar_svg_document("U Alpha", "svg {}", &params(), departure(), 30, &fragments, &stations, false);
    assert!(doc.starts_with("<!DOCTYPE svg PUBLIC"));
    assert!(doc.contains("<title>U Alpha departures: Transit Radar</title>"));
    assert!(doc.contains("<style>svg {}</style>\n"));
    assert!(doc.contains("All trips starting at  8:00 on  6 Jan 2020<tspan x=\"0\" dy=\"1.4em\">and lasting less than 30 minutes</tspan>"));
    // an enabled mode links to the search without it, a disabled one to the search with it
    assert!(doc.contains("<tspan x=\"0\" dy=\"1.5em\" class=\"\"><a href=\"/depart-from/1/now?mode=ubahn\">S-Bahn</a></tspan>\n"));
    assert!(doc.contains("<tspan x=\"0\" dy=\"1.5em\" class=\"disabled\"><a href=\"/depart-from/1/now?mode=sbahn,ubahn,tram\">Tram</a></tspan>\n"));
    assert!(doc.contains("</g>\n<g id=\"trips\"></g>\n<g class=\"s\">\n<text>A</text>\n<text>B</text>\n</g>\n</svg>\n"));
    assert!(doc.ends_with("</svg>\n"));
    assert!(!doc.contains("<script>"));
}

#[test]
fn svg_document_refreshes_when_asked() {
    let doc = radar_svg_document("U Alpha", "", &params(), departure(), 30, &vec![], &vec![], true);
    assert!(doc.contains("<script>\n                const refreshTimeout = setTimeout(() => location.reload(), 5000);"));
    assert!(doc.ends_with("</script>\n</svg>\n"));
}

#[test]
fn svg_document_says_when_the_radar_starts() {
    let later = LocalDateTime { year: 2021, month: 12, day: 25, hour: 14, minute: 5, second: 30, nanosecond: 0 };
    let doc = radar_svg_document("U Alpha", "", &params(), later, 45, &vec![], &vec![], false);
    assert!(doc.contains("All trips starting at 14:05 on 25 Dec 2021<tspan"));
    assert!(doc.contains("and lasting less than 45 minutes"));
    assert!(doc.contains("<a href=\"/depart-from/1/2021-12-25T14:05:30\" rel=\"self\">"));
}
