//! Life expectancy queries: loading records, choosing regions, filtering,
//! pairing records with later years, and stable ordering of the result rows.
//!
//! Reading the data file and talking to the user happen in the program around
//! this library; every decision those steps take is made here.

pub mod text;
pub mod record;
pub mod sort;
pub mod query;
pub mod region;
pub mod input;
