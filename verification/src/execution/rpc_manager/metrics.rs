//! The telemetry sink that RPC health monitoring reports to. Gauges are
//! accepted and discarded until a real exporter is wired in.

use vstd::prelude::*;

verus! {

/// A metrics registry that discards every gauge it is given.
pub struct DummyMetrics;

/// The process-wide metrics registry.
pub fn metrics() -> &'static DummyMetrics {
    &DummyMetrics
}

impl DummyMetrics {
    /// Sets the gauge `name` to `value`; this registry keeps nothing.
    pub fn set_gauge(&self, name: &str, value: u64) {
    }
}

} // verus!
