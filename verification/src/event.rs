//! The compact form of one recorded write.

use vstd::prelude::*;

verus! {

/// How a write changes the metric it is made on.
#[derive(Debug, Clone, Copy, PartialEq, Eq, Structural)]
pub enum Op {
    /// Add the value to the metric.
    Add,
    /// Take the value away from the metric; gauges only.
    Sub,
    /// Overwrite the metric with the value.
    Overwrite,
}

/// The kind and value of one write.
///
/// Gauge and histogram values are single-precision numbers, carried here as
/// their IEEE-754 bit pattern.
#[derive(Debug, Clone, Copy, PartialEq, Eq, Structural)]
pub enum Entry {
    /// A gauge write.
    Gauge { value: u32, op: Op },
    /// A counter write.
    Counter { value: u32, op: Op },
    /// One histogram sample.
    Histogram { value: u32 },
}

/// One recorded write: its entry, the milliseconds since the reference time
/// of the chunk that holds it, and the id of its metric key.
#[derive(Debug, Clone, Copy, PartialEq, Eq, Structural)]
pub struct Event {
    pub entry: Entry,
    pub ms: u16,
    pub label: u16,
}

impl Entry {
    /// Whether the operation is one that the entry's kind admits: a counter
    /// is never decremented.
    pub open spec fn op_allowed(self) -> bool {
        match self {
            Entry::Counter { op, .. } => op != Op::Sub,
            _ => true,
        }
    }
}

} // verus!
