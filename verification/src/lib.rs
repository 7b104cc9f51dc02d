//! Transit radar: timetable search over GTFS data.
pub mod text;
pub mod time;
pub mod arena;
pub mod departures;
pub mod search_data;
pub mod journey_graph;
pub mod xml;
pub mod sync;
pub mod gtfs;
pub mod backend;
pub mod radar;
pub mod sync_client;
pub mod suggester;
pub mod loader;
pub mod tree;
pub mod web;
pub mod travel;
pub mod geometry;
pub mod requests;
pub mod autocomplete;
pub mod svg;
