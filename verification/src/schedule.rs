//! [`MeshScheduleSet`] - the per-step phase ordering for an explicit mesh solver:
//! halo (fill ghosts), boundary (apply boundary conditions), flux (build the
//! right-hand side), update (advance).

use vstd::prelude::*;

verus! {

/// Schedule phases for an explicit mesh time step, in execution order.
#[derive(Debug, Clone, Copy, PartialEq, Eq, Structural)]
pub enum MeshScheduleSet {
    /// Per-step bookkeeping: step counter, time step.
    Setup,
    /// Before halo exchange.
    PreHalo,
    /// Forward-exchange ghost cells across rank boundaries.
    Halo,
    /// After halo exchange.
    PostHalo,
    /// Before boundary conditions.
    PreBoundary,
    /// Fill physical-boundary ghost cells from boundary conditions.
    Boundary,
    /// Before flux assembly.
    PreFlux,
    /// Assemble the flux divergence into the per-cell accumulator.
    Flux,
    /// After flux assembly, such as reflux corrections (reverse exchange).
    PostFlux,
    /// Before the state update.
    PreUpdate,
    /// Advance the conserved state by one (sub-)stage.
    Update,
    /// After the state update.
    PostUpdate,
    /// Diagnostics, dumps, restart writes.
    Output,
}

} // verus!
