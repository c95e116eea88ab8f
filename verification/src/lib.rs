//! Locates drinking water along GPX routes.
//!
//! The library holds the rules: which map objects count as drinking water, how
//! a route is summarised, which archives are pruned, when the map data is
//! refreshed, and what every request is answered.

pub mod analysis;
pub mod api;
pub mod archive_name;
pub mod archiving;
pub mod atomic_file;
pub mod binary64;
pub mod config;
pub mod elevation;
pub mod filename;
pub mod geometry;
pub mod gpx_archive;
pub mod gpx_parser;
pub mod gpx_time;
pub mod hash;
pub mod import_run;
pub mod license;
pub mod order;
pub mod osm_dataset;
pub mod osm_import;
pub mod osm_tags;
pub mod overpass;
pub mod replacement;
pub mod store;
pub mod street_view;
pub mod submission;
pub mod text;
pub mod time;
pub mod types;
