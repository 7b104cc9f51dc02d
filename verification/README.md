# transit_radar

A verified library for searching a public transport timetable (a GTFS feed) outward from a
station, earliest arrivals first, and for shaping what such a search reaches for a radar
display, with its contracts proved by Verus.

Layout:

- `src/` — the library, all of it verified:
  - `time`, `text`, `gtfs`: times of day, durations and periods; digits and identifiers.
  - `loader`: building the timetable from the parsed records of a feed, and checking a
    feed before loading it.
  - `search_data`, `departures`, `arena`: the timetable and its indexes.
  - `journey_graph`: the search (`Plotter`); it takes stops in order of arrival, and no
    arrival still waiting in its queue is earlier than one it has recorded.
  - `radar`, `tree`, `requests`, `svg`: what a search reaches, gathered for drawing or for
    the front end; the web server's requests, with their names decoded from the address;
    and the radar's SVG document around its drawing.
  - `suggester`: station names by word and prefix.
  - `sync`, `sync_client`: sessions that send a client the data it lacks.
  - `web`, `autocomplete`: the parameters of the radar's addresses, and the station field of
    the front end as a state machine.
  - `backend`, `travel`: selections over the records of a feed.
  - `geometry`, `xml`: paths and XML text.
- `tests/` — tests run against the compiled library.
- `app/` — a command line program: it reads a feed from `GTFS_DIR`, loads it and prints
  what a search from a station reaches.
