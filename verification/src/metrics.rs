//! How fast the models answer: counters for each stage, and the rates that follow from them.

use vstd::prelude::*;

verus! {

#[derive(Clone, Copy, Debug, PartialEq, Eq, Structural)]
pub enum Stage {
    Vision,
    /// Transcribing and describing sound and video.
    Media,
    Reasoning,
    Embedding,
}

impl Stage {
    pub open spec fn name(self) -> Seq<char> {
        match self {
            Stage::Vision => "vision"@,
            Stage::Media => "media"@,
            Stage::Reasoning => "reasoning"@,
            Stage::Embedding => "embedding"@,
        }
    }

    pub fn label(self) -> (r: &'static str)
        ensures
            r@ == self.name(),
    {
        match self {
            Stage::Vision => "vision",
            Stage::Media => "media",
            Stage::Reasoning => "reasoning",
            Stage::Embedding => "embedding",
        }
    }
}

/// The counters of a stage. They start anew where they run over.
#[derive(Debug, Clone, Copy, PartialEq, Eq, Structural)]
pub struct Counters {
    /// Calls that succeeded.
    pub ops: u64,
    /// The time that these took.
    pub nanos: u64,
    /// Images, files or chunks.
    pub units: u64,
    pub bytes: u64,
    /// Calls that failed.
    pub errors: u64,
}

/// A sum that starts anew where it runs over.
pub open spec fn wrapped(n: int) -> u64 {
    (n % 0x1_0000_0000_0000_0000) as u64
}

fn add_wrapping(a: u64, b: u64) -> (r: u64)
    ensures
        r == wrapped(a + b),
{
    a.wrapping_add(b)
}

/// An exact quotient.
#[derive(Debug, Clone, Copy, PartialEq, Eq, Structural)]
pub struct Ratio {
    pub num: u128,
    pub den: u128,
}

#[derive(Debug)]
pub struct StageStats {
    pub stage: &'static str,
    pub ops: u64,
    pub units: u64,
    pub bytes: u64,
    pub errors: u64,
    /// The time inside the stage, in nanoseconds.
    pub nanos: u64,
    pub ms_per_op: Option<Ratio>,
    pub units_per_sec: Option<Ratio>,
    pub mb_per_sec: Option<Ratio>,
}

/// What was not measured has no rate: neither zero nor infinity.
pub open spec fn ratio(num: int, den: int) -> Option<Ratio> {
    if den > 0 {
        Some(Ratio { num: num as u128, den: den as u128 })
    } else {
        None
    }
}

fn ratio_of(num: u128, den: u128) -> (r: Option<Ratio>)
    ensures
        r == ratio(num as int, den as int),
{
    if den > 0 {
        Some(Ratio { num, den })
    } else {
        None
    }
}

pub struct Rates {
    pub ms_per_op: Option<Ratio>,
    pub units_per_sec: Option<Ratio>,
    pub mb_per_sec: Option<Ratio>,
}

/// Milliseconds a call, units a second and megabytes a second.
pub open spec fn rates_of(c: Counters) -> Rates {
    Rates {
        ms_per_op: ratio(c.nanos as int, c.ops * 1000000),
        units_per_sec: ratio(c.units * 1000000000, c.nanos as int),
        mb_per_sec: ratio(c.bytes * 1000, c.nanos as int),
    }
}

/// The counters after a call that failed.
pub open spec fn failed_once(c: Counters) -> Counters {
    Counters { errors: wrapped(c.errors + 1), ..c }
}

impl Counters {
    pub fn new() -> (r: Counters)
        ensures
            r == (Counters { ops: 0, nanos: 0, units: 0, bytes: 0, errors: 0 }),
    {
        Counters { ops: 0, nanos: 0, units: 0, bytes: 0, errors: 0 }
    }

    /// Counts a call that succeeded.
    pub fn record(&mut self, nanos: u64, units: u64, bytes: u64)
        ensures
            *final(self) == (Counters {
                ops: wrapped(old(self).ops + 1),
                nanos: wrapped(old(self).nanos + nanos),
                units: wrapped(old(self).units + units),
                bytes: wrapped(old(self).bytes + bytes),
                errors: old(self).errors,
            }),
    {
        self.ops = add_wrapping(self.ops, 1);
        self.nanos = add_wrapping(self.nanos, nanos);
        self.units = add_wrapping(self.units, units);
        self.bytes = add_wrapping(self.bytes, bytes);
    }

    /// Counts a call that failed. Its duration is left aside: it would make a stage look
    /// slower than it is.
    pub fn record_error(&mut self)
        ensures
            *final(self) == failed_once(*old(self)),
    {
        self.errors = add_wrapping(self.errors, 1);
    }

    /// The counters and their rates.
    pub fn snapshot(&self, stage: Stage) -> (r: StageStats)
        ensures
            stats_of(r, *self, stage),
    {
        StageStats {
            stage: stage.label(),
            ops: self.ops,
            units: self.units,
            bytes: self.bytes,
            errors: self.errors,
            nanos: self.nanos,
            ms_per_op: ratio_of(self.nanos as u128, self.ops as u128 * 1000000),
            units_per_sec: ratio_of(self.units as u128 * 1000000000, self.nanos as u128),
            mb_per_sec: ratio_of(self.bytes as u128 * 1000, self.nanos as u128),
        }
    }
}

/// A call that failed changes no rate, whatever its stage.
pub proof fn law_errors_change_no_rate(c: Counters)
    ensures
        rates_of(failed_once(c)) == rates_of(c),
{
}

/// The counters of all stages.
#[derive(Debug)]
pub struct Metrics {
    pub vision: Counters,
    pub media: Counters,
    pub reasoning: Counters,
    pub embedding: Counters,
    /// When the counting began, in seconds.
    pub since: u64,
}

pub open spec fn zero() -> Counters {
    Counters { ops: 0, nanos: 0, units: 0, bytes: 0, errors: 0 }
}

pub open spec fn counters_of(m: Metrics, s: Stage) -> Counters {
    match s {
        Stage::Vision => m.vision,
        Stage::Media => m.media,
        Stage::Reasoning => m.reasoning,
        Stage::Embedding => m.embedding,
    }
}

/// The metrics with other counters for one stage.
pub open spec fn with_counters(m: Metrics, s: Stage, c: Counters) -> Metrics {
    match s {
        Stage::Vision => Metrics { vision: c, ..m },
        Stage::Media => Metrics { media: c, ..m },
        Stage::Reasoning => Metrics { reasoning: c, ..m },
        Stage::Embedding => Metrics { embedding: c, ..m },
    }
}

impl Metrics {
    pub fn stage(&self, s: Stage) -> (r: &Counters)
        ensures
            *r == counters_of(*self, s),
    {
        match s {
            Stage::Vision => &self.vision,
            Stage::Media => &self.media,
            Stage::Reasoning => &self.reasoning,
            Stage::Embedding => &self.embedding,
        }
    }

    fn put(&mut self, s: Stage, c: Counters)
        ensures
            *final(self) == with_counters(*old(self), s, c),
    {
        match s {
            Stage::Vision => {
                self.vision = c;
            },
            Stage::Media => {
                self.media = c;
            },
            Stage::Reasoning => {
                self.reasoning = c;
            },
            Stage::Embedding => {
                self.embedding = c;
            },
        }
    }
}

/// Metrics that begin now.
pub fn metrics(now: u64) -> (r: Metrics)
    ensures
        r == (Metrics { vision: zero(), media: zero(), reasoning: zero(), embedding: zero(), since: now }),
{
    Metrics {
        vision: Counters::new(),
        media: Counters::new(),
        reasoning: Counters::new(),
        embedding: Counters::new(),
        since: now,
    }
}

pub fn record(m: &mut Metrics, stage: Stage, nanos: u64, units: u64, bytes: u64)
    ensures
        *final(m) == with_counters(
            *old(m),
            stage,
            Counters {
                ops: wrapped(counters_of(*old(m), stage).ops + 1),
                nanos: wrapped(counters_of(*old(m), stage).nanos + nanos),
                units: wrapped(counters_of(*old(m), stage).units + units),
                bytes: wrapped(counters_of(*old(m), stage).bytes + bytes),
                errors: counters_of(*old(m), stage).errors,
            },
        ),
{
    let mut c = *m.stage(stage);
    c.record(nanos, units, bytes);
    m.put(stage, c);
}

pub fn record_error(m: &mut Metrics, stage: Stage)
    ensures
        *final(m) == with_counters(
            *old(m),
            stage,
            Counters {
                errors: wrapped(counters_of(*old(m), stage).errors + 1),
                ..counters_of(*old(m), stage)
            },
        ),
{
    let mut c = *m.stage(stage);
    c.record_error();
    m.put(stage, c);
}

/// Starts counting anew.
pub fn reset(m: &mut Metrics, now: u64)
    ensures
        *final(m) == (Metrics {
            vision: zero(),
            media: zero(),
            reasoning: zero(),
            embedding: zero(),
            since: now,
        }),
{
    *m = metrics(now);
}

/// What is counted in one stage leaves the others as they are.
pub proof fn law_stages_are_counted_apart(m: Metrics, s: Stage, t: Stage, c: Counters)
    requires
        s != t,
    ensures
        counters_of(with_counters(m, s, c), t) == counters_of(m, t),
        counters_of(with_counters(m, s, c), s) == c,
        with_counters(m, s, c).since == m.since,
{
}

#[derive(Debug)]
pub struct Throughput {
    pub since_unix: u64,
    /// The time since the counting began, in seconds.
    pub wall_seconds: u64,
    pub stages: Vec<StageStats>,
}

pub open spec fn stats_of(s: StageStats, c: Counters, stage: Stage) -> bool {
    s.stage@ == stage.name() && s.ops == c.ops && s.units == c.units && s.bytes == c.bytes
        && s.errors == c.errors && s.nanos == c.nanos && s.ms_per_op == rates_of(c).ms_per_op
        && s.units_per_sec == rates_of(c).units_per_sec && s.mb_per_sec == rates_of(c).mb_per_sec
}

pub fn snapshot(m: &Metrics, now: u64) -> (r: Throughput)
    ensures
        r.since_unix == m.since,
        r.wall_seconds == (if now < m.since {
            0
        } else {
            now - m.since
        }),
        r.stages@.len() == 4,
        stats_of(r.stages@[0], m.vision, Stage::Vision),
        stats_of(r.stages@[1], m.media, Stage::Media),
        stats_of(r.stages@[2], m.reasoning, Stage::Reasoning),
        stats_of(r.stages@[3], m.embedding, Stage::Embedding),
{
    let mut stages: Vec<StageStats> = Vec::new();
    stages.push(m.vision.snapshot(Stage::Vision));
    stages.push(m.media.snapshot(Stage::Media));
    stages.push(m.reasoning.snapshot(Stage::Reasoning));
    stages.push(m.embedding.snapshot(Stage::Embedding));
    Throughput {
        since_unix: m.since,
        wall_seconds: if now < m.since {
            0
        } else {
            now - m.since
        },
        stages,
    }
}

} // verus!
