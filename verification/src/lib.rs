//! Charging-station availability computation.
//!
//! Reports state when individual charging units were reachable ("up") or
//! not.  For every station (a group of units) the library produces one
//! integer percentage: the fraction of the observed time span during which
//! at least one of the station's units was reported reachable.
//!
//! The pipeline is: parse report lines into per-unit window lists
//! ([`ingest::construct_maps`]), normalize each unit's windows
//! ([`normalize`]), merge the normalized windows of a station's units into
//! one coverage measure ([`coverage`]), and quantize that measure into a
//! percentage ([`quantize`]).  [`engine::compute_availability`] drives the
//! whole computation.

pub mod coverage;
pub mod engine;
pub mod error;
pub mod ingest;
pub mod keymap;
pub mod maps;
pub mod normalize;
pub mod parse;
pub mod quantize;
pub mod sorting;
pub mod window;
