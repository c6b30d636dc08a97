use process_tracker::monitor::{
    anomaly_reason, cpu_pct, evaluate_sample, ram_pct, resolve_sustain_samples, Detector,
    DetectorParams, MonitorConfig, SampleState,
};
use process_tracker::platform::ProcSample;

fn params(spike_delta: u64, window: u32) -> DetectorParams {
    DetectorParams {
        interval_ms: 1000,
        num_cpus: 1,
        total_mem_bytes: 1000,
        cpu_threshold: 80_000,
        ram_threshold: 20_000,
        spike_delta,
        sustain_window: window,
    }
}

fn config() -> MonitorConfig {
    MonitorConfig {
        interval_ms: 1000,
        cpu_threshold: 80_000,
        ram_threshold: 20_000,
        sustain_samples: 3,
        sustain_seconds: None,
        spike_delta: 30_000,
        export_all_samples: false,
    }
}

#[test]
fn sustain_window_fixed_count() {
    assert_eq!(resolve_sustain_samples(1000, 3, None), 3);
}

#[test]
fn sustain_window_from_seconds() {
    assert_eq!(resolve_sustain_samples(500, 3, Some(2)), 4);
}

#[test]
fn sustain_window_zero_interval_falls_back() {
    assert_eq!(resolve_sustain_samples(0, 5, Some(10)), 5);
}

#[test]
fn sustain_window_rounds_up() {
    assert_eq!(resolve_sustain_samples(300, 3, Some(1)), 4);
    assert_eq!(resolve_sustain_samples(1000, 3, Some(0)), 0);
}

#[test]
fn sustain_window_saturates() {
    assert_eq!(resolve_sustain_samples(1, 3, Some(u64::MAX)), u32::MAX);
}

#[test]
fn cpu_percentage_formula() {
    // half a second of CPU time over one second on two CPUs is 25%
    assert_eq!(cpu_pct(500_000_000, 1000, 2), 25_000);
    assert_eq!(cpu_pct(1, 1000, 1), 0);
    assert_eq!(cpu_pct(500_000_000, 0, 2), 0);
    assert_eq!(cpu_pct(500_000_000, 1000, 0), 0);
    assert_eq!(cpu_pct(u64::MAX, 1, 1), u64::MAX / 10);
}

#[test]
fn ram_percentage_formula() {
    assert_eq!(ram_pct(1 << 30, 4 << 30), 25_000);
    assert_eq!(ram_pct(1, 3), 33_333);
    assert_eq!(ram_pct(5, 0), 0);
    assert_eq!(ram_pct(u64::MAX, 1), u64::MAX);
}

#[test]
fn spike_when_rise_reaches_delta() {
    let p = params(30_000, 3);
    let prev = SampleState { cpu_ns: 0, last_cpu_pct: 10_000, sustain_count: 0 };
    let (r, next) = evaluate_sample(&p, Some(prev), ProcSample { cpu_ns: 450_000_000, rss_bytes: 0 });
    assert_eq!(r.cpu_pct, 45_000);
    assert!(r.spike);
    assert_eq!(next.last_cpu_pct, 45_000);
    assert_eq!(next.cpu_ns, 450_000_000);
}

#[test]
fn no_spike_below_delta() {
    let p = params(30_000, 3);
    let prev = SampleState { cpu_ns: 0, last_cpu_pct: 10_000, sustain_count: 0 };
    let (r, _) = evaluate_sample(&p, Some(prev), ProcSample { cpu_ns: 350_000_000, rss_bytes: 0 });
    assert_eq!(r.cpu_pct, 35_000);
    assert!(!r.spike);
}

#[test]
fn counter_reset_gives_zero_delta() {
    let p = params(30_000, 3);
    let prev = SampleState { cpu_ns: 900_000_000, last_cpu_pct: 0, sustain_count: 0 };
    let (r, next) = evaluate_sample(&p, Some(prev), ProcSample { cpu_ns: 100, rss_bytes: 0 });
    assert_eq!(r.cpu_pct, 0);
    assert!(!r.spike);
    assert_eq!(next.cpu_ns, 100);
}

#[test]
fn first_observation_is_never_anomalous() {
    let p = params(0, 1);
    let (r, next) = evaluate_sample(&p, None, ProcSample { cpu_ns: u64::MAX, rss_bytes: 1000 });
    assert!(!r.spike);
    assert!(!r.sustained);
    assert_eq!(r.cpu_pct, 0);
    assert_eq!(r.ram_pct, 100_000);
    assert_eq!(r.sustain_count, 0);
    assert_eq!(next.cpu_ns, u64::MAX);
}

#[test]
fn sustained_after_window_of_breaches() {
    let p = params(1_000_000, 3);
    let mut prev = SampleState { cpu_ns: 0, last_cpu_pct: 0, sustain_count: 0 };
    let mut results = Vec::new();
    for k in 1..=4u64 {
        // 90% of one CPU in each interval
        let (r, next) = evaluate_sample(&p, Some(prev), ProcSample { cpu_ns: k * 900_000_000, rss_bytes: 0 });
        results.push((r.sustain_count, r.sustained));
        prev = next;
    }
    assert_eq!(results, vec![(1, false), (2, false), (3, true), (4, true)]);
    let (r, _) = evaluate_sample(&p, Some(prev), ProcSample { cpu_ns: 4 * 900_000_000, rss_bytes: 0 });
    assert_eq!(r.sustain_count, 0);
    assert!(!r.sustained);
}

#[test]
fn ram_breach_counts_and_count_saturates() {
    let p = params(1_000_000, 0);
    let prev = SampleState { cpu_ns: 0, last_cpu_pct: 0, sustain_count: u32::MAX };
    let (r, _) = evaluate_sample(&p, Some(prev), ProcSample { cpu_ns: 0, rss_bytes: 200 });
    assert_eq!(r.ram_pct, 20_000);
    assert_eq!(r.sustain_count, u32::MAX);
    // a window of 0 never reports a sustained overload
    assert!(!r.sustained);
}

#[test]
fn anomaly_labels() {
    assert_eq!(anomaly_reason(true, true), "spike+sustained");
    assert_eq!(anomaly_reason(true, false), "spike");
    assert_eq!(anomaly_reason(false, true), "sustained");
    assert_eq!(anomaly_reason(false, false), "threshold");
}

#[test]
fn detector_tracks_and_evicts() {
    let mut d = Detector::new(&config(), 1, 1000);
    assert_eq!(d.params.sustain_window, 3);
    let first = d.observe(7, ProcSample { cpu_ns: 0, rss_bytes: 0 });
    assert!(!first.spike);
    let second = d.observe(7, ProcSample { cpu_ns: 950_000_000, rss_bytes: 0 });
    assert_eq!(second.cpu_pct, 95_000);
    assert!(second.spike);
    // pid 7 is absent from the next cycle's alive set
    d.retain_alive(&vec![8]);
    assert!(d.states.get(&7).is_none());
    let again = d.observe(7, ProcSample { cpu_ns: 5_000_000_000, rss_bytes: 0 });
    assert!(!again.spike);
    assert_eq!(again.cpu_pct, 0);
}

#[test]
fn detector_keeps_alive_pids() {
    let mut d = Detector::new(&config(), 1, 1000);
    d.observe(1, ProcSample { cpu_ns: 10, rss_bytes: 0 });
    d.observe(2, ProcSample { cpu_ns: 20, rss_bytes: 0 });
    d.retain_alive(&vec![2, 3]);
    assert!(d.states.get(&1).is_none());
    assert_eq!(d.states.get(&2).map(|s| s.cpu_ns), Some(20));
    assert_eq!(d.states.len(), 1);
}

#[test]
fn reporting_gate() {
    let p = params(30_000, 3);
    let prev = SampleState { cpu_ns: 0, last_cpu_pct: 10_000, sustain_count: 0 };
    let (spiky, _) = evaluate_sample(&p, Some(prev), ProcSample { cpu_ns: 450_000_000, rss_bytes: 0 });
    assert!(spiky.is_anomaly());
    let (calm, _) = evaluate_sample(&p, Some(prev), ProcSample { cpu_ns: 100_000_000, rss_bytes: 0 });
    assert!(!calm.is_anomaly());
}
