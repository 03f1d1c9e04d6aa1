//! Model concurrent programs.
use vstd::prelude::*;

use crate::model::budget::{least, Budget, Grant};
use crate::model::settings::{enabled, is_enabled, read, setting, text, Invalid, Settings};
use crate::rt::claims::{claims_wf, Frozen};
use crate::rt::execution::{ExecModel, Execution};
use crate::rt::lazy_static::StaticsModel;
use crate::rt::path::PathModel;
use crate::rt::MAX_THREADS;

pub mod budget;
pub mod pool;
pub mod settings;

verus! {

pub const DEFAULT_MAX_THREADS: usize = 5;

pub const DEFAULT_MAX_BRANCHES: usize = 1_000;

pub const DEFAULT_CHECKPOINT_INTERVAL: usize = 20_000;

/// How often a worker offers part of its remaining subtree to idle peers.
pub const DONATE_INTERVAL: usize = 16;

/// How deep into the tree a branch may be frozen, and so shared.
///
/// This costs no exploration at any setting: freezing changes who walks an
/// alternative, never which alternatives exist.
pub const SPLIT_DEPTH: usize = 256;

/// How long a model gets to finish as a plain serial walk before the run is
/// handed to a worker pool: one second, in nanoseconds.
pub const PROBE: u128 = 1_000_000_000;

pub const NANOS_PER_SECOND: u128 = 1_000_000_000;

pub const NANOS_PER_MILLI: u128 = 1_000_000;

/// What a completed check explored.
#[derive(Debug, Clone, Copy, PartialEq, Eq, Structural)]
#[non_exhaustive]
pub struct Stats {
    /// Number of distinct executions run.
    pub executions: usize,
    /// Number of OS threads that explored the state space.
    pub threads: usize,
    /// Executions cut short because a sleep set proved every continuation
    /// redundant: their behaviors are covered by a sibling subtree. Counted
    /// inside `executions`.
    pub pruned: usize,
    /// Executions that only the preemption bound's conservative backtrack
    /// points asked for, where this is measured. Counted inside `executions`.
    pub conservative: usize,
}

impl Default for Stats {
    fn default() -> (r: Stats)
        ensures
            r == (Stats { executions: 0, threads: 0, pruned: 0, conservative: 0 }),
    {
        Stats { executions: 0, threads: 0, pruned: 0, conservative: 0 }
    }
}

/// Configure a model
#[derive(Debug)]
pub struct Builder {
    /// Max number of threads to check as part of the execution.
    pub max_threads: usize,
    /// Maximum number of thread switches per permutation.
    pub max_branches: usize,
    /// Maximum number of permutations to explore.
    pub max_permutations: Option<usize>,
    /// Maximum amount of time to spend on checking, in nanoseconds.
    pub max_duration: Option<u128>,
    /// Maximum number of thread preemptions to explore
    pub preemption_bound: Option<usize>,
    /// When doing an exhaustive check, uses the file to store and load the
    /// check progress
    pub checkpoint_file: Option<String>,
    /// How often to write the checkpoint file
    pub checkpoint_interval: usize,
    /// When `true` state exploration does not start until `explore_state` is
    /// called.
    pub expect_explicit_explore: bool,
    /// When `true`, locations are captured on each operation.
    pub location: bool,
    /// Log execution output to stdout.
    pub log: bool,
    /// Number of OS threads exploring the state space concurrently. This is a
    /// ceiling: workers beyond the first are drawn from a process-wide budget.
    pub threads: usize,
    /// How long a model may run as a plain serial walk before it is handed to
    /// a worker pool, in nanoseconds. Zero shards immediately.
    pub probe: u128,
    /// Draw workers beyond the first from the process-wide budget. Turning it
    /// off makes `threads` an exact count.
    pub budgeted: bool,
    /// How deep into the tree a branch may be frozen for sharing.
    pub split_depth: usize,
    /// Use the cells of earlier executions again instead of building them
    /// anew.
    pub reuse_objects: bool,
    /// Prune executions that only reorder independent operations of a subtree
    /// already covered at some branch. Inert when `preemption_bound` is set.
    pub sleep_sets: bool,
    /// Attribute executions to conservative backtrack points.
    pub stats: bool,
}

/// How a run of a model starts.
#[derive(Debug)]
pub struct Plan {
    /// Workers in all.
    pub workers: usize,
    /// The workers drawn from the budget, to be handed back at the end.
    pub grant: Grant,
    /// How long the serial walk may take, where there is a pool to hand over
    /// to.
    pub probe: Option<u128>,
}

/// What a serial walk does next.
#[derive(Debug, Clone, Copy, PartialEq, Eq, Structural)]
pub enum Step {
    /// Run the next execution.
    Run,
    /// Stop: a configured ceiling is reached.
    Finish,
    /// Hand what is left of the tree to a worker pool.
    HandOver,
}

/// The decision of a serial walk before an execution.
#[derive(Debug, Clone, Copy, PartialEq, Eq, Structural)]
pub struct Decision {
    /// The path has to be stored in the checkpoint file first.
    pub store: bool,
    pub step: Step,
}

/// A number that was set, or the default.
pub open spec fn or(v: Result<Option<int>, ()>, default: int) -> int {
    match v {
        Ok(Some(n)) => n,
        _ => default,
    }
}

/// A number that was set, as what it counts.
pub open spec fn count(v: Result<Option<int>, ()>) -> Option<int> {
    match v {
        Ok(n) => n,
        Err(_) => None,
    }
}

impl Settings {
    /// The first variable whose value is invalid.
    pub open spec fn first_invalid(self) -> Option<Invalid> {
        if setting(self.checkpoint_interval, usize::MAX as int) is Err {
            Some(Invalid::CheckpointInterval)
        } else if setting(self.max_branches, usize::MAX as int) is Err {
            Some(Invalid::MaxBranches)
        } else if setting(self.max_duration, u64::MAX as int) is Err {
            Some(Invalid::MaxDuration)
        } else if setting(self.max_permutations, usize::MAX as int) is Err {
            Some(Invalid::MaxPermutations)
        } else if setting(self.preemption_bound, usize::MAX as int) is Err {
            Some(Invalid::MaxPreemptions)
        } else if setting(self.threads, usize::MAX as int) is Err {
            Some(Invalid::Threads)
        } else if setting(self.split_depth, usize::MAX as int) is Err {
            Some(Invalid::SplitDepth)
        } else if setting(self.probe, u64::MAX as int) is Err {
            Some(Invalid::Probe)
        } else {
            None
        }
    }
}

/// Reads a number that fits a machine word.
fn read_word(v: &Option<String>, invalid: Invalid) -> (r: Result<Option<usize>, Invalid>)
    ensures
        match setting(*v, usize::MAX as int) {
            Ok(None) => r == Ok::<Option<usize>, Invalid>(None),
            Ok(Some(n)) => r matches Ok(Some(m)) && m == n,
            Err(_) => r == Err::<Option<usize>, Invalid>(invalid),
        },
{
    match read(v, usize::MAX as u64, invalid) {
        Ok(Some(n)) => Ok(Some(n as usize)),
        Ok(None) => Ok(None),
        Err(e) => Err(e),
    }
}

impl Builder {
    /// The builder is what the settings ask for, on a machine with `cpus`
    /// processors.
    pub open spec fn follows(self, s: Settings, cpus: usize) -> bool {
        let word = |v: Option<String>| setting(v, usize::MAX as int);
        let long = |v: Option<String>| setting(v, u64::MAX as int);
        &&& self.max_threads == DEFAULT_MAX_THREADS
        &&& self.max_branches == or(word(s.max_branches), DEFAULT_MAX_BRANCHES as int)
        &&& match count(word(s.max_permutations)) {
            Some(n) => self.max_permutations is Some && self.max_permutations->0 == n,
            None => self.max_permutations is None,
        }
        &&& match count(long(s.max_duration)) {
            Some(n) => self.max_duration is Some && self.max_duration->0 == n * NANOS_PER_SECOND,
            None => self.max_duration is None,
        }
        &&& match count(word(s.preemption_bound)) {
            Some(n) => self.preemption_bound is Some && self.preemption_bound->0 == n,
            None => self.preemption_bound is None,
        }
        &&& text(self.checkpoint_file) == text(s.checkpoint_file)
        &&& self.checkpoint_interval == or(
            word(s.checkpoint_interval),
            DEFAULT_CHECKPOINT_INTERVAL as int,
        )
        &&& !self.expect_explicit_explore
        &&& self.location == s.location is Some
        &&& self.log == s.log is Some
        &&& self.threads == or(word(s.threads), cpus as int)
        &&& match count(long(s.probe)) {
            Some(n) => self.probe == n * NANOS_PER_MILLI,
            None => self.probe == PROBE,
        }
        &&& self.budgeted
        &&& self.split_depth == or(word(s.split_depth), SPLIT_DEPTH as int)
        &&& self.reuse_objects == enabled(s.reuse_objects)
        &&& self.sleep_sets == enabled(s.sleep_sets)
        &&& !self.stats
    }

    /// Create a new `Builder` instance from the settings of the environment,
    /// on a machine with `cpus` processors.
    pub fn new(s: &Settings, cpus: usize) -> (r: Result<Builder, Invalid>)
        ensures
            match s.first_invalid() {
                Some(e) => r == Err::<Builder, Invalid>(e),
                None => r matches Ok(b) && b.follows(*s, cpus),
            },
    {
        let checkpoint_interval = read_word(&s.checkpoint_interval, Invalid::CheckpointInterval)?;
        let max_branches = read_word(&s.max_branches, Invalid::MaxBranches)?;
        let max_duration = read(&s.max_duration, u64::MAX, Invalid::MaxDuration)?;
        let max_permutations = read_word(&s.max_permutations, Invalid::MaxPermutations)?;
        let preemption_bound = read_word(&s.preemption_bound, Invalid::MaxPreemptions)?;
        let threads = read_word(&s.threads, Invalid::Threads)?;
        let split_depth = read_word(&s.split_depth, Invalid::SplitDepth)?;
        let probe = read(&s.probe, u64::MAX, Invalid::Probe)?;
        Ok(
            Builder {
                max_threads: DEFAULT_MAX_THREADS,
                max_branches: max_branches.unwrap_or(DEFAULT_MAX_BRANCHES),
                max_permutations,
                max_duration: match max_duration {
                    Some(secs) => Some(secs as u128 * NANOS_PER_SECOND),
                    None => None,
                },
                preemption_bound,
                checkpoint_file: match &s.checkpoint_file {
                    Some(file) => Some(file.as_str().to_owned()),
                    None => None,
                },
                checkpoint_interval: checkpoint_interval.unwrap_or(DEFAULT_CHECKPOINT_INTERVAL),
                expect_explicit_explore: false,
                location: s.location.is_some(),
                log: s.log.is_some(),
                threads: threads.unwrap_or(cpus),
                probe: match probe {
                    Some(millis) => millis as u128 * NANOS_PER_MILLI,
                    None => PROBE,
                },
                budgeted: true,
                split_depth: split_depth.unwrap_or(SPLIT_DEPTH),
                reuse_objects: is_enabled(&s.reuse_objects),
                sleep_sets: is_enabled(&s.sleep_sets),
                stats: false,
            },
        )
    }

    /// Checkpointing serializes one path to disk and resumes from it, and
    /// logging narrates one execution after another; both describe a single
    /// walk of the tree.
    pub open spec fn worker_count(self) -> int {
        if self.checkpoint_file is Some || self.log || self.threads == 0 {
            1
        } else {
            self.threads as int
        }
    }

    /// Number of OS threads to explore with, resolved against the settings
    /// that require a single ordered walk.
    pub fn workers(&self) -> (r: usize)
        ensures
            r == self.worker_count(),
            r > 0,
    {
        if self.checkpoint_file.is_some() || self.log || self.threads == 0 {
            return 1;
        }
        self.threads
    }

    /// Set the checkpoint file.
    pub fn checkpoint_file(&mut self, file: &str) -> (r: &mut Self)
        ensures
            *r == (Builder { checkpoint_file: r.checkpoint_file, ..*old(self) }),
            text(r.checkpoint_file) == Some(file@),
            *final(self) == *final(r),
    {
        self.checkpoint_file = Some(file.to_owned());
        self
    }

    /// How a run of a model starts: one worker is always its own, and the rest
    /// are whatever the machine has spare right now. A run that can hand over
    /// to a pool probes first.
    pub fn plan(&self, budget: &mut Budget) -> (r: Plan)
        ensures
            r.grant@ == if self.budgeted {
                least(self.worker_count() - 1, old(budget)@)
            } else {
                0
            },
            final(budget)@ == old(budget)@ - r.grant@,
            r.workers == 1 + if self.budgeted {
                r.grant@
            } else {
                self.worker_count() - 1
            },
            r.probe == if r.workers == 1 {
                None
            } else {
                Some(self.probe)
            },
    {
        let want: usize = self.workers() - 1;
        let grant: Grant = if self.budgeted {
            budget.claim(want)
        } else {
            Grant::none()
        };
        let extra: usize = if self.budgeted {
            grant.extra()
        } else {
            want
        };
        let workers: usize = 1 + extra;
        let probe: Option<u128> = if workers == 1 {
            None
        } else {
            Some(self.probe)
        };
        Plan { workers, grant, probe }
    }

    /// The settings that an execution can be built from.
    pub open spec fn buildable(self) -> bool {
        &&& self.max_threads <= MAX_THREADS
        &&& self.preemption_bound matches Some(bound) ==> bound <= u8::MAX
    }

    /// Whether covered threads are put to sleep: deference is only sound where
    /// the subtree that covers is fully explored, and a bound truncates it.
    pub open spec fn sleeps(self) -> bool {
        self.sleep_sets && self.preemption_bound is None
    }

    /// The execution that a walk of the tree starts with.
    pub fn new_execution(&self, id: usize) -> (r: Execution)
        requires
            self.buildable(),
        ensures
            r.id == id,
            r.reuse_objects == self.reuse_objects,
            r@.path == (PathModel {
                preemption_bound: match self.preemption_bound {
                    Some(bound) => Some(bound as u8),
                    None => None,
                },
                pos: 0,
                branches: Seq::empty(),
                capacity: self.max_branches as int,
                exploring: !self.expect_explicit_explore,
                skipping: false,
                exploring_on_start: !self.expect_explicit_explore,
                frozen: Seq::empty(),
                split_depth: 0,
            }),
            r@ == (ExecModel {
                sleep_sets: self.sleeps(),
                pruned: 0,
                max_threads: self.max_threads as int,
                statics: StaticsModel { entries: Map::empty(), live: true },
                ..r@.restarted(r@.path)
            }),
            forall|c: Seq<Frozen>| claims_wf(c) ==> #[trigger] r@.running(c),
    {
        let mut execution = Execution::new(
            id,
            self.max_threads,
            self.max_branches,
            self.preemption_bound,
            !self.expect_explicit_explore,
        );
        let ghost e = execution@;
        execution.reuse_objects = self.reuse_objects;
        execution.sleep_sets = self.sleep_sets && self.preemption_bound.is_none();
        assert(execution@ =~= ExecModel { sleep_sets: self.sleeps(), ..e });
        assert(forall|c: Seq<Frozen>| claims_wf(c) ==> #[trigger] e.running(c));
        assert forall|c: Seq<Frozen>| claims_wf(c) implies #[trigger] execution@.running(c) by {
            assert(e.running(c));
        }
        execution
    }

    /// A sharded run that has done `executions`, those of its probe among them,
    /// in `elapsed` nanoseconds has hit a configured ceiling. The clock is only consulted on the same
    /// cadence as work donation.
    pub open spec fn limited(self, executions: usize, elapsed: u128) -> bool {
        ||| self.max_permutations matches Some(max) && executions >= max
        ||| self.max_duration matches Some(max) && executions as int % DONATE_INTERVAL as int == 0
            && elapsed >= max
    }

    /// Whether the run has hit a configured ceiling.
    pub fn limit_reached(&self, executions: usize, elapsed: u128) -> (r: bool)
        ensures
            r == self.limited(executions, elapsed),
    {
        if let Some(max) = self.max_permutations {
            if executions >= max {
                return true;
            }
        }
        if let Some(max) = self.max_duration {
            if executions % DONATE_INTERVAL == 0 && elapsed >= max {
                return true;
            }
        }
        false
    }

    /// Whether a worker offers part of its subtree after `executions`.
    pub fn donates(executions: usize) -> (r: bool)
        ensures
            r == (executions as int % DONATE_INTERVAL as int == 0),
    {
        executions % DONATE_INTERVAL == 0
    }

    /// The decision of a serial walk before its execution number `i`, after
    /// `elapsed` nanoseconds; `late` tells that the probe is over. The ceiling
    /// on permutations counts the executions before it; the interval is that of
    /// the checkpoint and of the clock.
    pub open spec fn decided(self, i: usize, elapsed: u128, late: bool) -> Decision {
        let due = i as int % self.checkpoint_interval as int == 0;
        let spent = self.max_permutations matches Some(max) && i - 1 >= max;
        let expired = due && (self.max_duration matches Some(max) && elapsed >= max);
        Decision {
            store: due && self.checkpoint_file is Some,
            step: if spent || expired {
                Step::Finish
            } else if late {
                Step::HandOver
            } else {
                Step::Run
            },
        }
    }
}

/// A walk of the whole tree by one worker.
pub struct Walk {
    i: usize,
    conservative: usize,
}

/// What a serial walk has done.
pub struct WalkModel {
    /// The executions that ran.
    pub executions: int,
    /// Those of them that were attributed to conservative points.
    pub conservative: int,
}

impl View for Walk {
    type V = WalkModel;

    closed spec fn view(&self) -> WalkModel {
        WalkModel { executions: self.i - 1, conservative: self.conservative as int }
    }
}

impl Walk {
    #[verifier::type_invariant]
    spec fn wf(self) -> bool {
        0 < self.i && self.conservative <= self.i - 1
    }

    pub fn new() -> (r: Walk)
        ensures
            r@ == (WalkModel { executions: 0, conservative: 0 }),
    {
        Walk { i: 1, conservative: 0 }
    }

    /// The decision before the next execution.
    pub fn decide(&self, builder: &Builder, elapsed: u128, late: bool) -> (r: Decision)
        requires
            builder.checkpoint_interval > 0,
        ensures
            r == builder.decided((self@.executions + 1) as usize, elapsed, late),
            0 <= self@.executions < usize::MAX,
    {
        proof {
            use_type_invariant(self);
        }
        let due: bool = self.i % builder.checkpoint_interval == 0;
        let store: bool = due && builder.checkpoint_file.is_some();
        if let Some(max) = builder.max_permutations {
            if self.i - 1 >= max {
                return Decision { store, step: Step::Finish };
            }
        }
        if let Some(max) = builder.max_duration {
            if due && elapsed >= max {
                return Decision { store, step: Step::Finish };
            }
        }
        if late {
            return Decision { store, step: Step::HandOver };
        }
        Decision { store, step: Step::Run }
    }

    /// One more execution ran; `attributed` tells that only a conservative
    /// point asked for it.
    pub fn ran(self, builder: &Builder, attributed: bool) -> (r: Walk)
        requires
            self@.executions + 1 < usize::MAX,
        ensures
            r@ == (WalkModel {
                executions: self@.executions + 1,
                conservative: if builder.stats && attributed {
                    self@.conservative + 1
                } else {
                    self@.conservative
                },
            }),
    {
        proof {
            use_type_invariant(&self);
        }
        let conservative: usize = if builder.stats && attributed {
            self.conservative + 1
        } else {
            self.conservative
        };
        Walk { i: self.i + 1, conservative }
    }

    /// What the walk explored so far, with `pruned` executions cut short.
    pub fn stats(&self, pruned: usize) -> (r: Stats)
        ensures
            r.executions == self@.executions,
            r.threads == 1,
            r.pruned == pruned,
            r.conservative == self@.conservative,
            r.conservative <= r.executions,
    {
        proof {
            use_type_invariant(self);
        }
        Stats { executions: self.i - 1, threads: 1, pruned, conservative: self.conservative }
    }
}

impl Stats {
    /// The stats of a sharded run that picked up where a probe left off.
    pub fn after_probe(self, probe: Stats) -> (r: Stats)
        requires
            self.executions + probe.executions <= usize::MAX,
            self.pruned + probe.pruned <= usize::MAX,
            self.conservative + probe.conservative <= usize::MAX,
        ensures
            r.executions == self.executions + probe.executions,
            r.threads == self.threads,
            r.pruned == self.pruned + probe.pruned,
            r.conservative == self.conservative + probe.conservative,
    {
        Stats {
            executions: self.executions + probe.executions,
            threads: self.threads,
            pruned: self.pruned + probe.pruned,
            conservative: self.conservative + probe.conservative,
        }
    }
}

/// Measuring observes the walk and never steers it: what a serial walk does
/// next, and what a sharded one does, is the same with the measurement on and
/// off.
pub proof fn attribution_never_steers(a: Builder, b: Builder, i: usize, elapsed: u128, late: bool)
    requires
        b == (Builder { stats: !a.stats, ..a }),
    ensures
        a.decided(i, elapsed, late) == b.decided(i, elapsed, late),
        a.limited(i, elapsed) == b.limited(i, elapsed),
        a.worker_count() == b.worker_count(),
        a.sleeps() == b.sleeps(),
{
}

/// A serial walk never makes more executions than its ceiling: it starts
/// another one only while fewer were made.
pub proof fn a_ceiling_is_kept(b: Builder, made: usize, elapsed: u128, late: bool)
    requires
        made < usize::MAX,
    ensures
        b.max_permutations matches Some(max) ==> {
            &&& b.decided((made + 1) as usize, elapsed, late).step == Step::Run ==> made + 1 <= max
            &&& made >= max ==> b.decided((made + 1) as usize, elapsed, late).step == Step::Finish
        },
{
}

/// A bound on preemptions turns sleep sets off.
pub proof fn a_bound_keeps_everyone_awake(b: Builder)
    requires
        b.preemption_bound is Some,
    ensures
        !b.sleeps(),
{
}

/// A checkpoint file or a log makes the run a single ordered walk: one worker,
/// and nothing is handed over.
pub proof fn ordered_walks_are_serial(b: Builder)
    requires
        b.checkpoint_file is Some || b.log,
    ensures
        b.worker_count() == 1,
{
}

/// Settings are refused exactly where one of them writes no number, and the
/// variable that is named is one of those.
pub proof fn an_invalid_setting_is_named(s: Settings)
    ensures
        s.first_invalid() is None <==> {
            &&& setting(s.checkpoint_interval, usize::MAX as int) is Ok
            &&& setting(s.max_branches, usize::MAX as int) is Ok
            &&& setting(s.max_duration, u64::MAX as int) is Ok
            &&& setting(s.max_permutations, usize::MAX as int) is Ok
            &&& setting(s.preemption_bound, usize::MAX as int) is Ok
            &&& setting(s.threads, usize::MAX as int) is Ok
            &&& setting(s.split_depth, usize::MAX as int) is Ok
            &&& setting(s.probe, u64::MAX as int) is Ok
        },
        s.first_invalid() matches Some(v) ==> match v {
            Invalid::CheckpointInterval => setting(
                s.checkpoint_interval,
                usize::MAX as int,
            ) is Err,
            Invalid::MaxBranches => setting(s.max_branches, usize::MAX as int) is Err,
            Invalid::MaxDuration => setting(s.max_duration, u64::MAX as int) is Err,
            Invalid::MaxPermutations => setting(s.max_permutations, usize::MAX as int) is Err,
            Invalid::MaxPreemptions => setting(s.preemption_bound, usize::MAX as int) is Err,
            Invalid::Threads => setting(s.threads, usize::MAX as int) is Err,
            Invalid::SplitDepth => setting(s.split_depth, usize::MAX as int) is Err,
            Invalid::Probe => setting(s.probe, u64::MAX as int) is Err,
        },
{
}

/// Nothing but a ceiling ends a walk early: one without ceilings runs as long
/// as there is a tree, and one with a ceiling on permutations that is not
/// reached, and none on time, does not finish.
pub proof fn only_a_ceiling_ends_a_walk(b: Builder, made: usize, elapsed: u128, late: bool)
    requires
        made < usize::MAX,
        b.checkpoint_interval > 0,
        b.max_duration is None,
        b.max_permutations matches Some(max) ==> made < max,
    ensures
        b.decided((made + 1) as usize, elapsed, late).step != Step::Finish,
        !late ==> b.decided((made + 1) as usize, elapsed, late).step == Step::Run,
        !b.limited(made, elapsed),
        b.checkpoint_file is None ==> !b.decided((made + 1) as usize, elapsed, late).store,
        b.checkpoint_file is None && !b.log && b.threads > 0 ==> b.worker_count() == b.threads,
        b.preemption_bound is None ==> b.sleeps() == b.sleep_sets,
{
}

} // verus!
