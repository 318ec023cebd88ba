//! What a failed sample does to the line.

use vstd::prelude::*;

verus! {

/// How a sampler failed.
#[derive(Clone, Copy, Debug, PartialEq, Eq, Structural)]
pub enum FailureKind {
    /// The handle that samples could not be made.
    ConstructionFailed,
    /// The handle was there and the read failed.
    ReadFailed,
    /// Nothing to read: no such device.
    NotFound,
}

/// Where a sample comes from.
#[derive(Clone, Copy, Debug, PartialEq, Eq, Structural)]
pub enum Sampler {
    Cpu,
    Memory,
    Battery,
}

/// What follows from a failure.
#[derive(Clone, Copy, Debug, PartialEq, Eq, Structural)]
pub enum Disposition {
    /// No line is written and the run ends with a diagnostic.
    Abort,
    /// The failure is reported on the side and the segment is left out.
    Omit,
}

/// Without its collector the CPU cannot be sampled at all, and that ends
/// the run; any other failure costs one segment. Memory and battery never
/// end the run: a machine may have no battery, and whatever keeps a value
/// from being read counts as the value not being there.
pub open spec fn disposition_of(sampler: Sampler, kind: FailureKind) -> Disposition {
    if sampler == Sampler::Cpu && kind == FailureKind::ConstructionFailed {
        Disposition::Abort
    } else {
        Disposition::Omit
    }
}

pub fn disposition(sampler: Sampler, kind: FailureKind) -> (outcome: Disposition)
    ensures
        outcome == disposition_of(sampler, kind),
{
    match (sampler, kind) {
        (Sampler::Cpu, FailureKind::ConstructionFailed) => Disposition::Abort,
        _ => Disposition::Omit,
    }
}

} // verus!
