//! The views that the interface can show.

use vstd::prelude::*;

verus! {

/// A view of the interface.
#[derive(Debug, Clone, Copy, PartialEq, Eq, Structural, Default)]
pub enum Tab {
    #[default]
    Logs,
    Statistics,
    SuspiciousIPs,
    Settings,
    Graphics,
    IpChart,
    IndividualAttemptsGraph,
    RiskAnalysis,
}

} // verus!
