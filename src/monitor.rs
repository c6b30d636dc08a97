//! Anomaly detection over successive resource samples of each process.
//!
//! Percentages are fixed-point numbers in thousandths of a percent: `PCT_ONE`
//! is one percent, so 100% is `100 * PCT_ONE`.
use std::collections::HashMap;

use vstd::prelude::*;

use crate::platform::ProcSample;

verus! {

broadcast use vstd::std_specs::hash::group_hash_axioms;

/// One percent, in the fixed-point unit of every percentage of the library.
pub const PCT_ONE: u64 = 1000;

/// What the configuration layer hands to the detector.
pub struct MonitorConfig {
    pub interval_ms: u64,
    /// Thousandths of a percent.
    pub cpu_threshold: u64,
    /// Thousandths of a percent.
    pub ram_threshold: u64,
    pub sustain_samples: u32,
    pub sustain_seconds: Option<u64>,
    /// Thousandths of a percent.
    pub spike_delta: u64,
    pub export_all_samples: bool,
}

/// The constants of a run that every evaluation reads.
#[derive(Clone, Copy, PartialEq, Eq, Structural)]
pub struct DetectorParams {
    pub interval_ms: u64,
    pub num_cpus: u32,
    pub total_mem_bytes: u64,
    pub cpu_threshold: u64,
    pub ram_threshold: u64,
    pub spike_delta: u64,
    pub sustain_window: u32,
}

/// What is remembered of a process from one cycle to the next.
#[derive(Clone, Copy, PartialEq, Eq, Structural)]
pub struct SampleState {
    pub cpu_ns: u64,
    pub last_cpu_pct: u64,
    pub sustain_count: u32,
}

/// The classification of one sample of one process.
#[derive(Clone, Copy, PartialEq, Eq, Structural)]
pub struct Reading {
    pub cpu_pct: u64,
    pub ram_pct: u64,
    pub spike: bool,
    pub sustained: bool,
    pub sustain_count: u32,
}

impl Reading {
    /// Whether the reading is reported: a spike, a sustained overload, or both.
    pub fn is_anomaly(&self) -> (r: bool)
        ensures
            r == (self.spike || self.sustained),
    {
        self.spike || self.sustained
    }
}

pub open spec fn ceil_div(a: int, b: int) -> int {
    (a + b - 1) / b
}

pub open spec fn clamp_u32(x: int) -> u32 {
    if x > u32::MAX {
        u32::MAX
    } else {
        x as u32
    }
}

pub open spec fn clamp_u64(x: int) -> u64 {
    if x > u64::MAX {
        u64::MAX
    } else {
        x as u64
    }
}

/// The number of consecutive breaching cycles that make an overload sustained.
pub open spec fn sustain_window_spec(interval_ms: u64, fallback: u32, seconds: Option<u64>) -> u32 {
    match seconds {
        Some(s) => if interval_ms == 0 {
            fallback
        } else {
            clamp_u32(ceil_div(s * 1000, interval_ms as int))
        },
        None => fallback,
    }
}

/// CPU share of a counter delta over one interval on all CPUs, rounded down.
pub open spec fn cpu_pct_spec(delta_ns: int, interval_ms: int, num_cpus: int) -> int {
    if interval_ms > 0 && num_cpus > 0 {
        delta_ns * 100 * PCT_ONE / (interval_ms * 1_000_000 * num_cpus)
    } else {
        0
    }
}

/// Share of the machine's memory, rounded down, saturating at `u64::MAX`.
pub open spec fn ram_pct_spec(rss_bytes: int, total_mem_bytes: int) -> u64 {
    if total_mem_bytes > 0 {
        clamp_u64(rss_bytes * 100 * PCT_ONE / total_mem_bytes)
    } else {
        0
    }
}

pub open spec fn sustained_spec(count: u32, window: u32) -> bool {
    window > 0 && count >= window
}

/// The reading of a sample, given what was remembered of the process, if anything.
pub open spec fn reading_spec(p: DetectorParams, prev: Option<SampleState>, s: ProcSample) -> Reading {
    let ram = ram_pct_spec(s.rss_bytes as int, p.total_mem_bytes as int);
    match prev {
        None => Reading { cpu_pct: 0, ram_pct: ram, spike: false, sustained: false, sustain_count: 0 },
        Some(st) => {
            let delta: int = if s.cpu_ns >= st.cpu_ns {
                s.cpu_ns - st.cpu_ns
            } else {
                0
            };
            let cpu = cpu_pct_spec(delta, p.interval_ms as int, p.num_cpus as int);
            let breach = cpu >= p.cpu_threshold || ram >= p.ram_threshold;
            let count: u32 = if breach {
                clamp_u32(st.sustain_count + 1)
            } else {
                0
            };
            Reading {
                cpu_pct: cpu as u64,
                ram_pct: ram,
                spike: cpu - st.last_cpu_pct >= p.spike_delta,
                sustained: sustained_spec(count, p.sustain_window),
                sustain_count: count,
            }
        },
    }
}

/// What is remembered of a process after a sample.
pub open spec fn next_state_spec(p: DetectorParams, prev: Option<SampleState>, s: ProcSample) -> SampleState {
    let r = reading_spec(p, prev, s);
    SampleState { cpu_ns: s.cpu_ns, last_cpu_pct: r.cpu_pct, sustain_count: r.sustain_count }
}

pub open spec fn state_of(m: Map<u32, SampleState>, pid: u32) -> Option<SampleState> {
    if m.contains_key(pid) {
        Some(m[pid])
    } else {
        None
    }
}

pub open spec fn params_spec(cfg: &MonitorConfig, num_cpus: u32, total_mem_bytes: u64) -> DetectorParams {
    DetectorParams {
        interval_ms: cfg.interval_ms,
        num_cpus,
        total_mem_bytes,
        cpu_threshold: cfg.cpu_threshold,
        ram_threshold: cfg.ram_threshold,
        spike_delta: cfg.spike_delta,
        sustain_window: sustain_window_spec(cfg.interval_ms, cfg.sustain_samples, cfg.sustain_seconds),
    }
}

/// Resolves the sustain window: with a seconds setting and a nonzero interval,
/// the number of intervals that cover it (rounded up, saturating at
/// `u32::MAX`); otherwise the fixed sample count.
pub fn resolve_sustain_samples(interval_ms: u64, fallback: u32, sustain_seconds: Option<u64>) -> (r: u32)
    ensures
        r == sustain_window_spec(interval_ms, fallback, sustain_seconds),
{
    match sustain_seconds {
        Some(seconds) => {
            if interval_ms == 0 {
                return fallback;
            }
            let total: u128 = seconds as u128 * 1000 + interval_ms as u128 - 1;
            let intervals: u128 = total / interval_ms as u128;
            if intervals > u32::MAX as u128 {
                u32::MAX
            } else {
                intervals as u32
            }
        },
        None => fallback,
    }
}

/// CPU percentage of `delta_ns` nanoseconds of CPU time over one interval,
/// normalised by the CPU count; 0 when the interval or the count is 0.
pub fn cpu_pct(delta_ns: u64, interval_ms: u64, num_cpus: u32) -> (r: u64)
    ensures
        r == cpu_pct_spec(delta_ns as int, interval_ms as int, num_cpus as int),
{
    if interval_ms == 0 || num_cpus == 0 {
        return 0;
    }
    let num: u128 = delta_ns as u128 * 100_000;
    let interval_ns: u128 = interval_ms as u128 * 1_000_000;
    proof {
        vstd::arithmetic::mul::lemma_mul_inequality(
            interval_ns as int,
            0xFFFF_FFFF_FFFF_FFFF * 1_000_000int,
            num_cpus as int,
        );
        vstd::arithmetic::mul::lemma_mul_inequality(
            num_cpus as int,
            0xFFFF_FFFFint,
            0xFFFF_FFFF_FFFF_FFFF * 1_000_000int,
        );
    }
    let den: u128 = interval_ns * num_cpus as u128;
    assert(den >= 1_000_000) by (nonlinear_arith)
        requires
            den == interval_ns * num_cpus,
            interval_ns >= 1_000_000,
            num_cpus >= 1,
    ;
    proof {
        vstd::arithmetic::div_mod::lemma_div_is_ordered_by_denominator(num as int, 1_000_000, den as int);
    }
    assert(num / 1_000_000 <= delta_ns);
    (num / den) as u64
}

/// Memory percentage of `rss_bytes` out of `total_mem_bytes`; 0 when the total is 0.
pub fn ram_pct(rss_bytes: u64, total_mem_bytes: u64) -> (r: u64)
    ensures
        r == ram_pct_spec(rss_bytes as int, total_mem_bytes as int),
{
    if total_mem_bytes == 0 {
        return 0;
    }
    let q: u128 = (rss_bytes as u128 * 100_000) / total_mem_bytes as u128;
    if q > u64::MAX as u128 {
        u64::MAX
    } else {
        q as u64
    }
}

/// Classifies one sample of a process against what was remembered of it.
/// A process seen for the first time only sets its baseline.
pub fn evaluate_sample(p: &DetectorParams, prev: Option<SampleState>, sample: ProcSample) -> (r: (
    Reading,
    SampleState,
))
    ensures
        r.0 == reading_spec(*p, prev, sample),
        r.1 == next_state_spec(*p, prev, sample),
        prev is None ==> !r.0.spike && !r.0.sustained,
{
    let ram = ram_pct(sample.rss_bytes, p.total_mem_bytes);
    let reading = match prev {
        None => Reading { cpu_pct: 0, ram_pct: ram, spike: false, sustained: false, sustain_count: 0 },
        Some(st) => {
            let delta = if sample.cpu_ns >= st.cpu_ns {
                sample.cpu_ns - st.cpu_ns
            } else {
                0
            };
            let cpu = cpu_pct(delta, p.interval_ms, p.num_cpus);
            let spike = cpu >= st.last_cpu_pct && cpu - st.last_cpu_pct >= p.spike_delta;
            let count: u32 = if cpu >= p.cpu_threshold || ram >= p.ram_threshold {
                st.sustain_count.saturating_add(1)
            } else {
                0
            };
            let sustained = p.sustain_window > 0 && count >= p.sustain_window;
            Reading { cpu_pct: cpu, ram_pct: ram, spike, sustained, sustain_count: count }
        },
    };
    let next = SampleState {
        cpu_ns: sample.cpu_ns,
        last_cpu_pct: reading.cpu_pct,
        sustain_count: reading.sustain_count,
    };
    (reading, next)
}

/// The label of an anomaly; the last one stands for a reading that is no anomaly.
pub fn anomaly_reason(spike: bool, sustained: bool) -> (r: &'static str)
    ensures
        spike && sustained ==> r@ == "spike+sustained"@,
        spike && !sustained ==> r@ == "spike"@,
        !spike && sustained ==> r@ == "sustained"@,
        !spike && !sustained ==> r@ == "threshold"@,
{
    if spike && sustained {
        "spike+sustained"
    } else if spike {
        "spike"
    } else if sustained {
        "sustained"
    } else {
        "threshold"
    }
}

/// The per-process state of the anomaly detector, keyed by pid.
pub struct Detector {
    pub params: DetectorParams,
    pub states: HashMap<u32, SampleState>,
}

impl Detector {
    /// A detector with no process seen yet.
    pub fn new(cfg: &MonitorConfig, num_cpus: u32, total_mem_bytes: u64) -> (d: Detector)
        ensures
            d.params == params_spec(cfg, num_cpus, total_mem_bytes),
            d.states@ == Map::<u32, SampleState>::empty(),
    {
        let sustain_window = resolve_sustain_samples(
            cfg.interval_ms,
            cfg.sustain_samples,
            cfg.sustain_seconds,
        );
        Detector {
            params: DetectorParams {
                interval_ms: cfg.interval_ms,
                num_cpus,
                total_mem_bytes,
                cpu_threshold: cfg.cpu_threshold,
                ram_threshold: cfg.ram_threshold,
                spike_delta: cfg.spike_delta,
                sustain_window,
            },
            states: HashMap::new(),
        }
    }

    /// Classifies a sample of `pid` and remembers it for the next cycle.
    pub fn observe(&mut self, pid: u32, sample: ProcSample) -> (r: Reading)
        ensures
            r == reading_spec(old(self).params, state_of(old(self).states@, pid), sample),
            final(self).params == old(self).params,
            final(self).states@ == old(self).states@.insert(
                pid,
                next_state_spec(old(self).params, state_of(old(self).states@, pid), sample),
            ),
    {
        let prev = match self.states.get(&pid) {
            Some(st) => Some(*st),
            None => None,
        };
        let (reading, next) = evaluate_sample(&self.params, prev, sample);
        self.states.insert(pid, next);
        reading
    }

    /// Forgets every process that is not in `alive`.
    pub fn retain_alive(&mut self, alive: &Vec<u32>)
        ensures
            final(self).params == old(self).params,
            final(self).states@ == old(self).states@.restrict(alive@.to_set()),
    {
        let mut kept: HashMap<u32, SampleState> = HashMap::new();
        let mut i: usize = 0;
        while i < alive.len()
            invariant
                i <= alive.len(),
                kept@ == self.states@.restrict(alive@.take(i as int).to_set()),
            decreases alive.len() - i,
        {
            let pid = alive[i];
            proof {
                assert(alive@.take(i + 1) == alive@.take(i as int).push(pid));
                alive@.take(i as int).lemma_push_to_set_commute(pid);
            }
            match self.states.get(&pid) {
                Some(st) => {
                    kept.insert(pid, *st);
                },
                None => {},
            }
            assert(kept@ =~= self.states@.restrict(alive@.take(i + 1).to_set()));
            i += 1;
        }
        assert(alive@.take(alive.len() as int) == alive@);
        self.states = kept;
    }
}

/// A process seen for the first time sets its baseline only: whatever its
/// sample holds, it is neither a spike nor a sustained overload.
pub proof fn lemma_first_observation_quiet(p: DetectorParams, s: ProcSample)
    ensures
        !reading_spec(p, None, s).spike,
        !reading_spec(p, None, s).sustained,
        reading_spec(p, None, s).sustain_count == 0,
{
}

/// A spike is a rise of the CPU percentage over the previous reading by at
/// least the spike delta.
pub proof fn lemma_spike_rule(p: DetectorParams, st: SampleState, s: ProcSample)
    ensures
        reading_spec(p, Some(st), s).spike <==> reading_spec(p, Some(st), s).cpu_pct
            >= st.last_cpu_pct + p.spike_delta,
{
    let delta: int = if s.cpu_ns >= st.cpu_ns {
        s.cpu_ns - st.cpu_ns
    } else {
        0
    };
    let num = delta * 100 * PCT_ONE;
    if p.interval_ms > 0 && p.num_cpus > 0 {
        let den = p.interval_ms * 1_000_000 * p.num_cpus;
        assert(den >= 1_000_000) by (nonlinear_arith)
            requires
                den == p.interval_ms * 1_000_000 * p.num_cpus,
                p.interval_ms >= 1,
                p.num_cpus >= 1,
        ;
        vstd::arithmetic::div_mod::lemma_div_is_ordered_by_denominator(num, 1_000_000, den);
    }
}

} // verus!
