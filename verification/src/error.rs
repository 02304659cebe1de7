//! Error types of the synthesis stages.
use vstd::prelude::*;

use crate::geom::GateKind;

verus! {

/// Errors raised while building the netlist.
#[derive(Debug)]
pub enum SynthError {
    /// A connection's port name is not recognised for its instance kind.
    UnknownPort {
        /// Gate instance name.
        inst: String,
        /// Offending port name.
        port: String,
    },
    /// No cell library entry exists for the primitive.
    NoCellFor {
        /// Gate kind that is missing.
        kind: GateKind,
    },
}

/// Errors raised by cycle detection.
#[derive(Debug)]
pub enum CycleError {
    /// A purely combinational feedback cycle.
    Combinational {
        /// Sorted, de-duplicated names of the wires on the cycle.
        wires: Vec<String>,
    },
}

/// Errors raised by placement.
#[derive(Debug)]
pub enum PlaceError {
    /// The placement exceeds the footprint bound.
    TooLarge {
        /// Actual footprint as `W×H×D`.
        actual: String,
        /// Active bound as `W×H×D`.
        bound: String,
    },
}

/// Errors raised by routing.
#[derive(Debug)]
pub enum RouteError {
    /// The maze router exhausted its distance-cap retries.
    Exhausted {
        /// Names of the nets left unrouted.
        unrouted: Vec<String>,
        /// Retries attempted.
        retries: u8,
        /// Final search bound, as text.
        final_bbox: String,
    },
    /// The negotiated-congestion router did not converge.
    ConvergenceExhausted {
        /// Unrouted nets, or the over-used cells when every net routed.
        unrouted: Vec<String>,
        /// Iterations performed.
        iterations: u32,
        /// Number of over-used cells in the last iteration.
        peak_congestion: u32,
    },
}

} // verus!
