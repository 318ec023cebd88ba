//! The status line: histogram, aggregate CPU, memory and battery, in that
//! order, each segment present where its sample was read.

use crate::battery::{battery_text, get_battery_string, kind_of, BatteryFailure, BatteryInfo};
use crate::glyph::{histogram_text, lemma_block_is_on_the_ramp, push_histogram};
use crate::numeral::{
    lemma_rounded_is_one_line, push_right_justified, push_rounded, right_justified, rounded,
};
use crate::percent::hundredfold;
use crate::policy::{disposition, disposition_of, Disposition, FailureKind, Sampler};
use crate::reading::Reading;
use vstd::prelude::*;
use vstd::string::StringExecFns;

verus! {

/// Closes the aggregate CPU segment.
pub const CPU_SYMBOL: char = 'ℂ';

/// Closes the memory segment.
pub const MEMORY_SYMBOL: char = 'ℝ';

/// Characters the aggregate CPU percentage is justified to.
pub const CPU_WIDTH: usize = 3;

/// Milliseconds that must pass between creating the CPU collector and
/// reading it: utilization is a difference of two snapshots.
pub const CPU_SAMPLE_PAUSE_MS: u64 = 500;

/// What each sampler came back with.
#[derive(Debug, PartialEq, Eq)]
pub struct Samples {
    /// Utilization of each core in percent, in the platform's order.
    pub per_core: Result<Vec<Reading>, FailureKind>,
    /// Utilization of the whole machine in percent.
    pub aggregate: Result<Reading, FailureKind>,
    /// Memory in use in percent.
    pub memory: Result<Reading, FailureKind>,
    pub battery: Result<BatteryInfo, BatteryFailure>,
}

/// The percentage right-justified to three characters, then the CPU symbol.
pub open spec fn cpu_text(aggregate: Reading) -> Seq<char> {
    right_justified(rounded(aggregate), CPU_WIDTH as nat).push(CPU_SYMBOL)
}

/// A space, the percentage, the memory symbol.
pub open spec fn memory_text(memory: Reading) -> Seq<char> {
    (seq![' '] + rounded(memory)).push(MEMORY_SYMBOL)
}

pub open spec fn histogram_part(per_core: Result<Vec<Reading>, FailureKind>) -> Seq<char> {
    match per_core {
        Ok(readings) => histogram_text(readings@),
        Err(_) => Seq::empty(),
    }
}

pub open spec fn cpu_part(aggregate: Result<Reading, FailureKind>) -> Seq<char> {
    match aggregate {
        Ok(reading) => cpu_text(reading),
        Err(_) => Seq::empty(),
    }
}

pub open spec fn memory_part(memory: Result<Reading, FailureKind>) -> Seq<char> {
    match memory {
        Ok(reading) => memory_text(reading),
        Err(_) => Seq::empty(),
    }
}

pub open spec fn battery_part(battery: Result<BatteryInfo, BatteryFailure>) -> Seq<char> {
    match battery {
        Ok(info) => battery_text(info),
        Err(_) => Seq::empty(),
    }
}

/// The line for `samples`, closed by a line feed where `newline` asks for
/// one.
pub open spec fn line_text(samples: Samples, newline: bool) -> Seq<char> {
    histogram_part(samples.per_core) + cpu_part(samples.aggregate) + memory_part(samples.memory)
        + battery_part(samples.battery) + if newline {
        seq!['\n']
    } else {
        Seq::empty()
    }
}

/// A failure of this kind in `sampler` ends the run.
pub open spec fn ends_run(sampler: Sampler, kind: FailureKind) -> bool {
    disposition_of(sampler, kind) == Disposition::Abort
}

/// The first sampler whose failure ends the run, if any does.
pub open spec fn fatal(samples: Samples) -> Option<Sampler> {
    if samples.per_core matches Err(kind) && ends_run(Sampler::Cpu, kind) {
        Some(Sampler::Cpu)
    } else if samples.aggregate matches Err(kind) && ends_run(Sampler::Cpu, kind) {
        Some(Sampler::Cpu)
    } else if samples.memory matches Err(kind) && ends_run(Sampler::Memory, kind) {
        Some(Sampler::Memory)
    } else if samples.battery matches Err(failure) && ends_run(Sampler::Battery, kind_of(failure)) {
        Some(Sampler::Battery)
    } else {
        None
    }
}

fn aborts(sampler: Sampler, kind: FailureKind) -> (ends: bool)
    ensures
        ends == ends_run(sampler, kind),
{
    match disposition(sampler, kind) {
        Disposition::Abort => true,
        Disposition::Omit => false,
    }
}

/// The aggregate CPU segment.
pub fn cpu_segment(aggregate: Reading) -> (segment: String)
    ensures
        segment@ == cpu_text(aggregate),
{
    let mut number = String::new();
    push_rounded(&mut number, aggregate);
    let mut segment = String::new();
    push_right_justified(&mut segment, number.as_str(), CPU_WIDTH);
    segment.push(CPU_SYMBOL);
    segment
}

/// The memory segment.
pub fn memory_segment(memory: Reading) -> (segment: String)
    ensures
        segment@ == memory_text(memory),
{
    let mut segment = String::new();
    segment.push(' ');
    push_rounded(&mut segment, memory);
    segment.push(MEMORY_SYMBOL);
    segment
}

/// The text to write for `samples`: the segments of the samples that were
/// read, in their fixed order. No text where a failure ends the run; the
/// sampler that failed is named instead.
pub fn status_line(samples: &Samples, newline: bool) -> (line: Result<String, Sampler>)
    ensures
        match fatal(*samples) {
            Some(sampler) => line == Err::<String, Sampler>(sampler),
            None => line matches Ok(text) && text@ == line_text(*samples, newline),
        },
{
    if let Err(kind) = &samples.per_core {
        if aborts(Sampler::Cpu, *kind) {
            return Err(Sampler::Cpu);
        }
    }
    if let Err(kind) = &samples.aggregate {
        if aborts(Sampler::Cpu, *kind) {
            return Err(Sampler::Cpu);
        }
    }
    if let Err(kind) = &samples.memory {
        if aborts(Sampler::Memory, *kind) {
            return Err(Sampler::Memory);
        }
    }
    if let Err(failure) = &samples.battery {
        if aborts(Sampler::Battery, failure.kind()) {
            return Err(Sampler::Battery);
        }
    }
    let mut text = String::new();
    if let Ok(per_core) = &samples.per_core {
        push_histogram(&mut text, per_core);
    }
    if let Ok(aggregate) = &samples.aggregate {
        let segment = cpu_segment(*aggregate);
        text.append(segment.as_str());
    }
    if let Ok(memory) = &samples.memory {
        let segment = memory_segment(*memory);
        text.append(segment.as_str());
    }
    if let Ok(segment) = get_battery_string(&samples.battery) {
        text.append(segment.as_str());
    }
    if newline {
        text.push('\n');
    }
    Ok(text)
}

/// No segment holds a line feed.
proof fn lemma_parts_are_one_line(samples: Samples)
    ensures
        !histogram_part(samples.per_core).contains('\n'),
        !cpu_part(samples.aggregate).contains('\n'),
        !memory_part(samples.memory).contains('\n'),
        !battery_part(samples.battery).contains('\n'),
{
    if let Ok(readings) = samples.per_core {
        let text = histogram_text(readings@);
        assert forall|i: int| 0 <= i < text.len() implies text[i] != '\n' by {
            lemma_block_is_on_the_ramp(readings@[i]);
        }
    }
    if let Ok(reading) = samples.aggregate {
        lemma_rounded_is_one_line(reading);
        let number = rounded(reading);
        let text = cpu_text(reading);
        let pad = (text.len() - 1) - number.len();
        assert forall|i: int| 0 <= i < text.len() implies text[i] != '\n' by {
            if pad <= i < text.len() - 1 {
                assert(text[i] == number[i - pad]);
            }
        }
    }
    if let Ok(reading) = samples.memory {
        lemma_rounded_is_one_line(reading);
        let number = rounded(reading);
        let text = memory_text(reading);
        assert forall|i: int| 0 <= i < text.len() implies text[i] != '\n' by {
            if 1 <= i < text.len() - 1 {
                assert(text[i] == number[i - 1]);
            }
        }
    }
    if let Ok(info) = samples.battery {
        lemma_rounded_is_one_line(hundredfold(info.charge));
        let number = rounded(hundredfold(info.charge));
        let text = battery_text(info);
        assert forall|i: int| 0 <= i < text.len() implies text[i] != '\n' by {
            if 1 <= i < text.len() - 1 {
                assert(text[i] == number[i - 1]);
            }
        }
    }
}

/// With the flag the line is the line without it and one line feed, and
/// without the flag it holds no line feed at all.
pub proof fn lemma_newline_closes_the_line(samples: Samples)
    ensures
        line_text(samples, true) == line_text(samples, false).push('\n'),
        !line_text(samples, false).contains('\n'),
{
    lemma_parts_are_one_line(samples);
    let histogram = histogram_part(samples.per_core);
    let cpu = cpu_part(samples.aggregate);
    let memory = memory_part(samples.memory);
    let battery = battery_part(samples.battery);
    let line = line_text(samples, false);
    assert(line == histogram + cpu + memory + battery);
    assert forall|i: int| 0 <= i < line.len() implies line[i] != '\n' by {
        if i < histogram.len() {
            assert(line[i] == histogram[i]);
        } else if i < histogram.len() + cpu.len() {
            assert(line[i] == cpu[i - histogram.len()]);
        } else if i < histogram.len() + cpu.len() + memory.len() {
            assert(line[i] == memory[i - histogram.len() - cpu.len()]);
        } else {
            assert(line[i] == battery[i - histogram.len() - cpu.len() - memory.len()]);
        }
    }
}

/// Nothing but a CPU collector that could not be made ends the run.
pub proof fn lemma_only_the_collector_ends_the_run(samples: Samples)
    ensures
        fatal(samples) is Some <==> samples.per_core == Err::<Vec<Reading>, FailureKind>(
            FailureKind::ConstructionFailed,
        ) || samples.aggregate == Err::<Reading, FailureKind>(FailureKind::ConstructionFailed),
        fatal(samples) is Some ==> fatal(samples) == Some(Sampler::Cpu),
{
}

/// A sample that could not be read costs its own segment and no other:
/// where no failure ends the run, the line is made of the segments of the
/// samples that were read, each as it would stand alone.
pub proof fn lemma_failure_costs_one_segment(samples: Samples)
    requires
        fatal(samples) is None,
    ensures
        samples.per_core is Err ==> line_text(samples, false) == cpu_part(samples.aggregate)
            + memory_part(samples.memory) + battery_part(samples.battery),
        samples.aggregate is Err ==> line_text(samples, false) == histogram_part(samples.per_core)
            + memory_part(samples.memory) + battery_part(samples.battery),
        samples.memory is Err ==> line_text(samples, false) == histogram_part(samples.per_core)
            + cpu_part(samples.aggregate) + battery_part(samples.battery),
        samples.battery is Err ==> line_text(samples, false) == histogram_part(samples.per_core)
            + cpu_part(samples.aggregate) + memory_part(samples.memory),
{
}

} // verus!
