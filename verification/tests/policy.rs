use statusline::policy::{disposition, Disposition, FailureKind, Sampler};

#[test]
fn a_collector_that_cannot_be_made_ends_the_run() {
    assert_eq!(disposition(Sampler::Cpu, FailureKind::ConstructionFailed), Disposition::Abort);
}

#[test]
fn memory_never_ends_the_run() {
    for kind in [FailureKind::ConstructionFailed, FailureKind::ReadFailed, FailureKind::NotFound] {
        assert_eq!(disposition(Sampler::Memory, kind), Disposition::Omit);
    }
}

#[test]
fn a_failed_read_costs_the_segment() {
    for sampler in [Sampler::Cpu, Sampler::Memory, Sampler::Battery] {
        assert_eq!(disposition(sampler, FailureKind::ReadFailed), Disposition::Omit);
        assert_eq!(disposition(sampler, FailureKind::NotFound), Disposition::Omit);
    }
}

#[test]
fn the_battery_never_ends_the_run() {
    for kind in [FailureKind::ConstructionFailed, FailureKind::ReadFailed, FailureKind::NotFound] {
        assert_eq!(disposition(Sampler::Battery, kind), Disposition::Omit);
    }
}
