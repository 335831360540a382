//! Shared scheduler domain objects.
//!
//! These records travel between the configuration layer, the constraint
//! builder, and the query surface; the wire protocols never see them.

use vstd::prelude::*;

verus! {

/// Identifier naming one time slot.
pub type SlotId = String;

/// A named, capacity-limited schedulable resource.
#[derive(Debug, Clone, PartialEq, Eq)]
pub struct Resource {
    /// Unique identifier.
    pub id: String,
    /// How many concurrent assignments the resource admits.
    pub capacity: u32,
}

/// A unit of work demanding resources over consecutive slots.
#[derive(Debug, Clone, PartialEq, Eq)]
pub struct Task {
    /// Unique identifier.
    pub id: String,
    /// Identifiers of the resources the task requires.
    pub required: Vec<String>,
    /// How many consecutive slots the task occupies.
    pub duration_slots: u32,
}

/// A complete scheduling problem: the resources on hand and the tasks to
/// place.
#[derive(Debug, Clone, PartialEq, Eq)]
pub struct SchedulerProblem {
    /// The resources available for assignment.
    pub resources: Vec<Resource>,
    /// The tasks awaiting placement.
    pub tasks: Vec<Task>,
}

/// One schedulable interval of the planning horizon.
#[derive(Debug, Clone, PartialEq, Eq)]
pub struct TimeSlot {
    /// Unique identifier.
    pub id: SlotId,
    /// Inclusive start, in seconds since the epoch.
    pub start_epoch_seconds: u64,
    /// Exclusive end, in seconds since the epoch.
    pub end_epoch_seconds: u64,
    /// Position of this slot within the planning horizon.
    pub horizon_index: u32,
}

} // verus!
