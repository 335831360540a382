//! Domain records for the satellite ground-station extension.
//!
//! Decoding these from resource attributes is the embedding program's
//! concern; the records here are the decoded shapes the domain works with.

use vstd::prelude::*;

verus! {

/// Marker type for the satellite ground-station extension.
#[derive(Debug, Clone)]
pub struct SatelliteExtension;

impl SatelliteExtension {
    /// The extension has no state to set up.
    pub fn new() -> SatelliteExtension {
        SatelliteExtension
    }
}

/// An uplink/downlink frequency range, in whole megahertz.
#[derive(Debug, Clone, PartialEq)]
pub struct FrequencyRange {
    /// Uplink bounds, lower then upper, when declared.
    pub uplink_mhz: Option<Vec<u32>>,
    /// Downlink bounds, lower then upper, when declared.
    pub downlink_mhz: Option<Vec<u32>>,
}

/// One band an antenna supports, with its tracking modes.
#[derive(Debug, Clone, PartialEq)]
pub struct AntennaCapability {
    /// Band designator.
    pub band: String,
    /// Supported tracking modes.
    pub tracking_modes: Vec<String>,
}

/// A front-end processor resource.
#[derive(Debug, Clone, PartialEq)]
pub struct Fep {
    /// Unique identifier.
    pub id: String,
    /// Bands the processor can handle.
    pub bands: Vec<String>,
    /// Region the processor serves, when declared.
    pub region: Option<String>,
}

} // verus!
