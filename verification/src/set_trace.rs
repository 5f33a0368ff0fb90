//! The trace-level notification's payload.

use vstd::prelude::*;

verus! {

/// Parameters of a trace-level notification.
#[derive(Debug, Clone, Copy, PartialEq, Eq, Structural)]
pub struct SetTraceParams {
    pub value: TraceValue,
}

/// How much tracing the client asks for.
#[derive(Debug, Clone, Copy, PartialEq, Eq, Structural)]
pub enum TraceValue {
    Off,
    Messages,
    Verbose,
}

} // verus!
