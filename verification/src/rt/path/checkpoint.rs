//! A path as it is written down between runs.
use vstd::prelude::*;

use crate::rt::branch::{find_slot, Class, Entry, Load, Schedule, Thread};
use crate::rt::claims::{claims_wf, Frozen};
use crate::rt::path::{entry_wf, index_of, last_schedule, spent_before, Path, PathModel};
use crate::rt::{MAX_ATOMIC_HISTORY, MAX_THREADS};

verus! {

/// The parts of a path that outlive a process. What was frozen does not: a
/// path that is resumed shares nothing.
pub struct Checkpoint {
    pub preemption_bound: Option<u8>,
    pub pos: usize,
    pub branches: Vec<Entry>,
    pub exploring: bool,
    pub skipping: bool,
    pub exploring_on_start: bool,
    pub split_depth: usize,
}

impl Checkpoint {
    /// The parts describe a path that a run can have left.
    pub open spec fn valid(self) -> bool {
        &&& self.pos <= self.branches@.len()
        &&& forall|i: int|
            0 <= i < self.branches@.len() ==> #[trigger] entry_wf(
                self.branches@,
                i,
                self.preemption_bound,
            )
    }

    /// The path that the parts describe, which may grow to `capacity`.
    pub open spec fn model(self, capacity: int) -> PathModel {
        PathModel {
            preemption_bound: self.preemption_bound,
            pos: self.pos as int,
            branches: self.branches@,
            capacity,
            exploring: self.exploring,
            skipping: self.skipping,
            exploring_on_start: self.exploring_on_start,
            frozen: Seq::empty(),
            split_depth: self.split_depth as int,
        }
    }
}

/// Whether at most one thread is active, and the first active thread is one of
/// the model's.
fn is_schedule_wf(s: &Schedule) -> (r: bool)
    ensures
        r == s.wf(),
{
    if let Some(a) = s.initial_active {
        if a as usize >= MAX_THREADS {
            return false;
        }
    }
    let mut seen: Option<usize> = None;
    let mut i: usize = 0;
    while i < MAX_THREADS
        invariant
            i <= MAX_THREADS,
            s.initial_active matches Some(a) ==> a < MAX_THREADS,
            seen matches Some(j) ==> j < i && s.threads@[j as int] == Thread::Active,
            forall|j: int|
                0 <= j < i && (#[trigger] s.threads@[j]) == Thread::Active ==> seen == Some(
                    j as usize,
                ),
        decreases MAX_THREADS - i,
    {
        if s.threads[i] == Thread::Active {
            if let Some(j) = seen {
                assert(s.threads@[j as int] == s.threads@[i as int]);
                return false;
            }
            seen = Some(i);
        }
        i += 1;
    }
    true
}

fn is_load_wf(l: &Load) -> (r: bool)
    ensures
        r == l.wf(),
{
    if l.len as usize > MAX_ATOMIC_HISTORY || (l.pos >= l.len && l.pos != 0) {
        return false;
    }
    let mut i: usize = 0;
    while i < MAX_ATOMIC_HISTORY
        invariant
            i <= MAX_ATOMIC_HISTORY,
            l.len <= MAX_ATOMIC_HISTORY,
            l.pos < l.len || l.pos == 0,
            forall|j: int| 0 <= j < i ==> (#[trigger] l.values@[j]) < MAX_ATOMIC_HISTORY,
        decreases MAX_ATOMIC_HISTORY - i,
    {
        if l.values[i] as usize >= MAX_ATOMIC_HISTORY {
            assert(!(l.values@[i as int] < MAX_ATOMIC_HISTORY));
            return false;
        }
        i += 1;
    }
    true
}

/// The preemptions with the branch's current choice.
fn cost_of(s: &Schedule) -> (r: u16)
    ensures
        r == s.cost(),
{
    let active: Option<usize> = find_slot(&s.threads, Class::Active);
    match (s.initial_active, active) {
        (Some(a), Some(b)) => if a as usize == b {
            s.preemptions as u16
        } else {
            s.preemptions as u16 + 1
        },
        (Some(_), None) => s.preemptions as u16 + 1,
        _ => s.preemptions as u16,
    }
}

impl Checkpoint {
    /// Whether the parts describe a path that a run can have left.
    fn is_valid(&self) -> (r: bool)
        ensures
            r == self.valid(),
    {
        if self.pos > self.branches.len() {
            return false;
        }
        let mut prev: Option<usize> = None;
        let mut spent: u16 = 0;
        let mut i: usize = 0;
        while i < self.branches.len()
            invariant
                i <= self.branches@.len(),
                self.pos <= self.branches@.len(),
                index_of(prev) == last_schedule(self.branches@, i as int),
                spent == spent_before(self.branches@, last_schedule(self.branches@, i as int)),
                forall|j: int|
                    0 <= j < i ==> #[trigger] entry_wf(self.branches@, j, self.preemption_bound),
            decreases self.branches.len() - i,
        {
            let ghost ok = entry_wf(self.branches@, i as int, self.preemption_bound);
            match &self.branches[i] {
                Entry::Schedule(s) => {
                    if !is_schedule_wf(s) || s.prev != prev || s.preemptions as u16 != spent {
                        assert(!ok);
                        return false;
                    }
                    let cost: u16 = cost_of(s);
                    if let Some(max) = self.preemption_bound {
                        if cost > max as u16 {
                            assert(!ok);
                            return false;
                        }
                        if max == s.preemptions && (s.initial_active.is_some() || s.yield_seam)
                            && find_slot(&s.threads, Class::Pending).is_some() {
                            assert(!ok);
                            return false;
                        }
                    }
                    prev = Some(i);
                    spent = cost;
                },
                Entry::Load(l) => {
                    if !is_load_wf(l) {
                        assert(!ok);
                        return false;
                    }
                },
                Entry::Spurious(_) => {},
            }
            assert(ok);
            i += 1;
        }
        true
    }
}

impl Path {
    /// The parts of the path that are written down.
    pub fn save(&self) -> (r: Checkpoint)
        ensures
            r.model(self@.capacity) == (PathModel { frozen: Seq::empty(), ..self@ }),
    {
        let mut branches: Vec<Entry> = Vec::new();
        let mut i: usize = 0;
        while i < self.branches.len()
            invariant
                i <= self.branches@.len(),
                branches@ == self.branches@.take(i as int),
            decreases self.branches.len() - i,
        {
            branches.push(self.branches[i]);
            i += 1;
            assert(branches@ =~= self.branches@.take(i as int));
        }
        assert(branches@ =~= self.branches@);
        Checkpoint {
            preemption_bound: self.preemption_bound,
            pos: self.pos,
            branches,
            exploring: self.exploring,
            skipping: self.skipping,
            exploring_on_start: self.exploring_on_start,
            split_depth: self.split_depth,
        }
    }

    /// The path that was written down, which may grow to `max_branches`;
    /// nothing where the parts describe no path, or a longer one.
    pub fn restore(saved: Checkpoint, max_branches: usize) -> (r: Option<Path>)
        ensures
            r is Some <==> saved.valid() && saved.branches@.len() <= max_branches,
            r matches Some(p) ==> {
                &&& p@ == saved.model(max_branches as int)
                &&& forall|c: Seq<Frozen>| claims_wf(c) ==> #[trigger] p@.inv(c)
            },
    {
        if !saved.is_valid() || saved.branches.len() > max_branches {
            return None;
        }
        let p = Path {
            preemption_bound: saved.preemption_bound,
            pos: saved.pos,
            branches: saved.branches,
            capacity: max_branches,
            exploring: saved.exploring,
            skipping: saved.skipping,
            exploring_on_start: saved.exploring_on_start,
            frozen: Vec::new(),
            split_depth: saved.split_depth,
        };
        assert(p@.frozen =~= Seq::<usize>::empty());
        Some(p)
    }
}

/// What was written down of a valid path is read back as that path, with
/// nothing frozen.
pub proof fn a_checkpoint_reads_back(p: PathModel, c: Seq<Frozen>, saved: Checkpoint)
    requires
        p.inv(c),
        saved.model(p.capacity) == (PathModel { frozen: Seq::empty(), ..p }),
    ensures
        saved.valid(),
        saved.branches@.len() <= p.capacity,
{
    let m = saved.model(p.capacity);
    assert(m.branches == p.branches);
    assert(m.pos == p.pos);
    assert(m.preemption_bound == p.preemption_bound);
    assert forall|i: int| 0 <= i < saved.branches@.len() implies #[trigger] entry_wf(
        saved.branches@,
        i,
        saved.preemption_bound,
    ) by {
        assert(entry_wf(p.branches, i, p.preemption_bound));
    }
}

} // verus!
