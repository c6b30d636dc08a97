//! The decisions of the enforcement cycle.
//!
//! The caller walks the tree of a snapshot and hands each process to
//! `Enforcer::decide`, which says what to do with it: nothing, sample it
//! (a system-owned process, which only the anomaly detector sees), compute
//! the digest of its executable and ask again, or report it once and
//! possibly terminate it. After the walk, `end_cycle` forgets every pid that
//! was not in the snapshot.
use std::collections::HashSet;

use vstd::prelude::*;

use crate::config::{Allowlist, AllowlistView};
use crate::monitor::{Detector, Reading};
use crate::platform::ProcSample;
use crate::platform::macos::{is_system_path, is_system_process};
use crate::platform::ProcessInfo;
use crate::policy::{is_allowed, verdict_spec, HashCache, Verdict};

verus! {

broadcast use vstd::std_specs::hash::group_hash_axioms;

/// The switches of the enforcement cycle.
#[derive(Clone, Copy, PartialEq, Eq, Structural)]
pub struct EnforceConfig {
    /// The agent's own pid, never evaluated.
    pub self_pid: u32,
    /// Terminate untrusted processes.
    pub enforce: bool,
    /// Exempt system-owned processes from the policy.
    pub exempt_system: bool,
}

/// What to do with one process of the walk.
#[derive(Clone, Copy, Debug, PartialEq, Eq, Structural)]
pub enum Action {
    /// Nothing: the agent itself, a trusted process, or one already reported.
    Skip,
    /// A system-owned process: sample it and pass the sample to `observe_system`.
    Sample,
    /// Only the digest of the executable can decide: compute it, hand it to
    /// `record_digest`, and decide again.
    ComputeDigest,
    /// An untrusted process not reported yet: report it, and terminate it
    /// when `kill`.
    Report { kill: bool },
}

/// The action for `info`, given what was reported already.
pub open spec fn action_spec(
    cfg: EnforceConfig,
    al: AllowlistView,
    cache: Map<Seq<char>, Seq<char>>,
    reported: Set<u32>,
    info: &ProcessInfo,
) -> Action {
    if info.pid == cfg.self_pid {
        Action::Skip
    } else if cfg.exempt_system && (info.path matches Some(p) && is_system_path(p@)) {
        Action::Sample
    } else {
        match verdict_spec(info, al, cache) {
            Verdict::Allowed => Action::Skip,
            Verdict::NeedsDigest => Action::ComputeDigest,
            Verdict::Denied => if reported.contains(info.pid) {
                Action::Skip
            } else {
                Action::Report { kill: cfg.enforce }
            },
        }
    }
}

/// The state that the enforcement loop keeps from cycle to cycle.
pub struct Enforcer {
    pub config: EnforceConfig,
    pub allowlist: Allowlist,
    pub cache: HashCache,
    pub detector: Detector,
    pub reported: HashSet<u32>,
}

impl Enforcer {
    /// An enforcer that has seen nothing yet.
    pub fn new(config: EnforceConfig, allowlist: Allowlist, detector: Detector) -> (r: Enforcer)
        ensures
            r.config == config,
            r.allowlist == allowlist,
            r.cache@ == Map::<Seq<char>, Seq<char>>::empty(),
            r.detector == detector,
            r.reported@ == Set::<u32>::empty(),
    {
        Enforcer { config, allowlist, cache: HashCache::new(), detector, reported: HashSet::new() }
    }

    /// Decides what to do with `info`; a report is remembered so that the
    /// pid is reported once only.
    pub fn decide(&mut self, info: &ProcessInfo) -> (a: Action)
        ensures
            a == action_spec(
                old(self).config,
                old(self).allowlist@,
                old(self).cache@,
                old(self).reported@,
                info,
            ),
            final(self).reported@ == (if a is Report {
                old(self).reported@.insert(info.pid)
            } else {
                old(self).reported@
            }),
            final(self).config == old(self).config,
            final(self).allowlist == old(self).allowlist,
            final(self).cache == old(self).cache,
            final(self).detector == old(self).detector,
    {
        if info.pid == self.config.self_pid {
            return Action::Skip;
        }
        if self.config.exempt_system && is_system_process(info) {
            return Action::Sample;
        }
        match is_allowed(info, &self.allowlist, &self.cache) {
            Verdict::Allowed => Action::Skip,
            Verdict::NeedsDigest => Action::ComputeDigest,
            Verdict::Denied => {
                if self.reported.contains(&info.pid) {
                    Action::Skip
                } else {
                    self.reported.insert(info.pid);
                    Action::Report { kill: self.config.enforce }
                }
            },
        }
    }

    /// Records the digest of the executable at `path`; an empty digest
    /// stands for a file that could not be read.
    pub fn record_digest(&mut self, path: String, digest: String)
        ensures
            final(self).cache@ == old(self).cache@.insert(path@, digest@),
            final(self).config == old(self).config,
            final(self).allowlist == old(self).allowlist,
            final(self).detector == old(self).detector,
            final(self).reported == old(self).reported,
    {
        self.cache.insert(path, digest);
    }

    /// Runs the anomaly detector on a sample of a system-owned process.
    pub fn observe_system(&mut self, pid: u32, sample: ProcSample) -> (r: Reading)
        ensures
            r == crate::monitor::reading_spec(
                old(self).detector.params,
                crate::monitor::state_of(old(self).detector.states@, pid),
                sample,
            ),
            final(self).detector.params == old(self).detector.params,
            final(self).detector.states@ == old(self).detector.states@.insert(
                pid,
                crate::monitor::next_state_spec(
                    old(self).detector.params,
                    crate::monitor::state_of(old(self).detector.states@, pid),
                    sample,
                ),
            ),
            final(self).config == old(self).config,
            final(self).allowlist == old(self).allowlist,
            final(self).cache == old(self).cache,
            final(self).reported == old(self).reported,
    {
        self.detector.observe(pid, sample)
    }

    /// Forgets the reports and the samples of every pid not in `alive`.
    pub fn end_cycle(&mut self, alive: &Vec<u32>)
        ensures
            final(self).reported@ == old(self).reported@.intersect(alive@.to_set()),
            final(self).detector.params == old(self).detector.params,
            final(self).detector.states@ == old(self).detector.states@.restrict(alive@.to_set()),
            final(self).config == old(self).config,
            final(self).allowlist == old(self).allowlist,
            final(self).cache == old(self).cache,
    {
        let mut kept: HashSet<u32> = HashSet::new();
        let mut i: usize = 0;
        while i < alive.len()
            invariant
                i <= alive.len(),
                kept@ == self.reported@.intersect(alive@.take(i as int).to_set()),
            decreases alive.len() - i,
        {
            let pid = alive[i];
            proof {
                assert(alive@.take(i + 1) == alive@.take(i as int).push(pid));
                alive@.take(i as int).lemma_push_to_set_commute(pid);
            }
            if self.reported.contains(&pid) {
                kept.insert(pid);
            }
            assert(kept@ =~= self.reported@.intersect(alive@.take(i + 1).to_set()));
            i += 1;
        }
        assert(alive@.take(alive.len() as int) == alive@);
        self.reported = kept;
        self.detector.retain_alive(alive);
    }
}

/// Eviction: a pid that is missing from a cycle's alive set is, after the
/// end of that cycle, neither reported nor tracked. A later process that
/// reuses the pid is new: the detector reads its first sample as a first
/// observation, and an untrusted one is reported again.
pub proof fn lemma_evicted_pid_is_new(
    cfg: EnforceConfig,
    al: AllowlistView,
    cache: Map<Seq<char>, Seq<char>>,
    reported: Set<u32>,
    states: Map<u32, crate::monitor::SampleState>,
    params: crate::monitor::DetectorParams,
    alive: Seq<u32>,
    info: &ProcessInfo,
    sample: ProcSample,
)
    requires
        !alive.contains(info.pid),
    ensures
        !reported.intersect(alive.to_set()).contains(info.pid),
        !states.restrict(alive.to_set()).contains_key(info.pid),
        crate::monitor::reading_spec(
            params,
            crate::monitor::state_of(states.restrict(alive.to_set()), info.pid),
            sample,
        ) == crate::monitor::reading_spec(params, None, sample),
        action_spec(cfg, al, cache, reported.intersect(alive.to_set()), info) == action_spec(
            cfg,
            al,
            cache,
            Set::empty(),
            info,
        ),
{
}

} // verus!
