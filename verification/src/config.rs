//! Configurations: one memory instance to estimate.
//!
//! A configuration is built once per estimation target by an external
//! loader and handed to the tabulator by value.  Voltages are plain
//! integers in caller-chosen fixed-point units; each optional voltage list
//! independently triggers that rail's driver and decoder selection, and an
//! absent list skips the rail without error.

use crate::db::{MAX_RAIL, MAX_TILE};
use vstd::prelude::*;

verus! {

/// Errors that can occur while assembling a configuration.
#[derive(Debug, Clone, PartialEq)]
pub enum ConfigError {
    /// A required configuration option was not found.
    MissingOption(String),
}

/// One memory configuration for peripheral estimation.
#[derive(Debug)]
pub struct Config {
    /// Name of the configuration, if one was supplied.
    pub name: Option<String>,
    /// Number of rows in the memory array.
    pub n: u64,
    /// Number of columns in the memory array.
    pub m: u64,
    /// Name of the core cell to tile.
    pub cell: String,
    /// Bitline voltages, if bitline drivers are wanted.
    pub bl: Option<Vec<i64>>,
    /// Wordline voltages, if wordline drivers are wanted.
    pub wl: Option<Vec<i64>>,
    /// Well-bias voltages, if well drivers are wanted.
    pub well: Option<Vec<i64>>,
    /// Number of downstream analog-to-digital converters.
    pub adcs: Option<u64>,
    /// Number of resolution bits required of the converters.
    pub bits: Option<u64>,
    /// Sampling rate required of the converters.
    pub fs: Option<u64>,
}

impl Config {
    /// The geometry and the rail lists are within the supported ranges.
    pub open spec fn wf(self) -> bool {
        &&& self.n <= MAX_TILE
        &&& self.m <= MAX_TILE
        &&& (self.wl matches Some(v) ==> v@.len() <= MAX_RAIL)
        &&& (self.bl matches Some(v) ==> v@.len() <= MAX_RAIL)
        &&& (self.well matches Some(v) ==> v@.len() <= MAX_RAIL)
        &&& (self.adcs matches Some(a) ==> a <= MAX_TILE)
    }

    /// Checks that the geometry and the rail lists are within the supported
    /// ranges, so that a caller that built a configuration from untrusted
    /// input can reject one the tabulator does not admit.
    pub fn check(&self) -> (b: bool)
        ensures
            b == self.wf(),
    {
        let geom_ok = self.n <= MAX_TILE && self.m <= MAX_TILE;
        let wl_ok = match &self.wl {
            Some(v) => v.len() <= MAX_RAIL,
            None => true,
        };
        let bl_ok = match &self.bl {
            Some(v) => v.len() <= MAX_RAIL,
            None => true,
        };
        let well_ok = match &self.well {
            Some(v) => v.len() <= MAX_RAIL,
            None => true,
        };
        let adcs_ok = match self.adcs {
            Some(a) => a <= MAX_TILE,
            None => true,
        };
        geom_ok && wl_ok && bl_ok && well_ok && adcs_ok
    }
}

} // verus!
