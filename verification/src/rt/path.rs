//! The path of one execution through the tree of branches.
use vstd::prelude::*;

use crate::rt::bits;
use crate::rt::branch::{
    candidates, collect_slots, find_slot, first_slot, lemma_slot_mask, lemma_slots_ext, saturated,
    slot_mask, slots_of, Class, Entry, Load, Schedule, Slots, Spurious, Thread, ALL_THREADS,
};
use crate::rt::claims::{
    claims_evolve, claims_wf, lemma_claims_evolve_trans, lemma_opened_wf, lemma_taken_wf, Claims,
    Frozen, Origin,
};
use crate::rt::fault::Fault;
use crate::rt::{MAX_ATOMIC_HISTORY, MAX_THREADS};

pub mod checkpoint;
pub mod crew;
pub mod faithful;
pub mod laws;
pub mod search;
pub mod shards;
pub mod split;

verus! {

/// An execution path
pub struct Path {
    preemption_bound: Option<u8>,
    /// Current execution's position in the branches vec.
    ///
    /// When the execution starts, this is zero, but `branches` might not be
    /// empty.
    ///
    /// In order to perform an exhaustive search, the execution is seeded with a
    /// set of branches.
    pos: usize,
    /// List of all branches in the execution.
    branches: Vec<Entry>,
    /// The number of branches that the path may grow to.
    capacity: usize,
    /// If true, exploring is enabled at start
    exploring: bool,
    /// If true, the user decided to skip the current execution branch. We do
    /// not do any further exploration here.
    skipping: bool,
    /// How to reset the `exploring` state
    exploring_on_start: bool,
    /// The claim records of this path's frozen prefix, one per branch.
    ///
    /// `frozen.len()` is the floor: branches below it have a fixed choice here
    /// and are shared with every task descended from the same split, so their
    /// alternatives come from [`Frozen`] rather than from this path's private
    /// copy. Branches at or above it are this path's alone.
    ///
    /// Empty for a serial run: nothing is ever frozen, so nothing is shared.
    frozen: Vec<usize>,
    /// Deepest branch [`Path::split_off`] may freeze.
    split_depth: usize,
}

/// What a path is: the branches, where the execution stands on them, and
/// which of them are frozen.
#[verifier::ext_equal]
pub struct PathModel {
    pub preemption_bound: Option<u8>,
    pub pos: int,
    pub branches: Seq<Entry>,
    pub capacity: int,
    pub exploring: bool,
    pub skipping: bool,
    pub exploring_on_start: bool,
    pub frozen: Seq<usize>,
    pub split_depth: int,
}

impl View for Path {
    type V = PathModel;

    closed spec fn view(&self) -> PathModel {
        PathModel {
            preemption_bound: self.preemption_bound,
            pos: self.pos as int,
            branches: self.branches@,
            capacity: self.capacity as int,
            exploring: self.exploring,
            skipping: self.skipping,
            exploring_on_start: self.exploring_on_start,
            frozen: self.frozen@,
            split_depth: self.split_depth as int,
        }
    }
}

/// The last schedule among the first `n` branches.
pub open spec fn last_schedule(b: Seq<Entry>, n: int) -> Option<int>
    decreases n,
{
    if n <= 0 {
        None
    } else if b[n - 1] is Schedule {
        Some(n - 1)
    } else {
        last_schedule(b, n - 1)
    }
}

/// The preemptions that the prefix before a branch has spent.
pub open spec fn spent_before(b: Seq<Entry>, prev: Option<int>) -> int {
    match prev {
        Some(j) => b[j]->Schedule_0.cost(),
        None => 0,
    }
}

/// The values of a load branch over the candidates `seed`.
pub open spec fn load_values(seed: Seq<u8>) -> [u8; MAX_ATOMIC_HISTORY] {
    let v = |i: int|
        if i < seed.len() {
            seed[i]
        } else {
            0
        };
    [v(0), v(1), v(2), v(3), v(4), v(5), v(6)]
}

/// An index as the model writes it.
pub open spec fn index_of(i: Option<usize>) -> Option<int> {
    match i {
        Some(i) => Some(i as int),
        None => None,
    }
}

impl Load {
    pub open spec fn wf(self) -> bool {
        &&& self.len <= MAX_ATOMIC_HISTORY
        &&& self.pos < self.len || self.pos == 0
        &&& forall|i: int|
            0 <= i < MAX_ATOMIC_HISTORY ==> (#[trigger] self.values@[i]) < MAX_ATOMIC_HISTORY
    }
}

/// Branch `i` fits the branches before it, and a bound on preemptions holds.
pub open spec fn entry_wf(b: Seq<Entry>, i: int, bound: Option<u8>) -> bool {
    match b[i] {
        Entry::Schedule(s) => {
            &&& s.wf()
            &&& index_of(s.prev) == last_schedule(b, i)
            &&& s.preemptions == spent_before(b, last_schedule(b, i))
            &&& bound matches Some(max) ==> s.cost() <= max
            &&& saturated(s, bound) ==> first_slot(s.threads, Class::Pending) is None
        },
        Entry::Load(l) => l.wf(),
        Entry::Spurious(_) => true,
    }
}

/// What the branch was when it froze.
pub open spec fn origin_of(e: Entry, bound: Option<u8>) -> Origin {
    match e {
        Entry::Schedule(s) => Origin { schedule: true, saturated: saturated(s, bound) },
        _ => Origin { schedule: false, saturated: false },
    }
}

/// The states of a new schedule: the seed, and disabled beyond it. Where no
/// thread is active the first yielded one is.
pub open spec fn seeded(seed: Seq<Thread>) -> Slots {
    let raw = slots_of(
        |i: int|
            if i < seed.len() {
                seed[i]
            } else {
                Thread::Disabled
            },
    );
    if first_slot(raw, Class::Active) is Some {
        raw
    } else {
        match first_slot(raw, Class::Yield) {
            Some(y) => slots_of(
                |i: int|
                    if i == y {
                        Thread::Active
                    } else {
                        raw@[i]
                    },
            ),
            None => raw,
        }
    }
}

/// A seed that an execution can hand to a schedule.
pub open spec fn seed_wf(seed: Seq<Thread>) -> bool {
    &&& seed.len() <= MAX_THREADS
    &&& forall|i: int|
        0 <= i < seed.len() ==> {
            let t = #[trigger] seed[i];
            t == Thread::Active || t == Thread::Yield || t == Thread::Disabled || t == Thread::Skip
        }
    &&& forall|i: int, j: int|
        #![trigger seed[i], seed[j]]
        0 <= i < seed.len() && 0 <= j < seed.len() && seed[i] == Thread::Active && seed[j]
            == Thread::Active ==> i == j
}

impl PathModel {
    /// The path is valid: every branch fits its prefix, and the frozen
    /// branches agree with their records.
    pub open spec fn inv(self, c: Seq<Frozen>) -> bool {
        &&& claims_wf(c)
        &&& 0 <= self.pos <= self.branches.len() <= self.capacity <= usize::MAX
        &&& 0 <= self.split_depth <= usize::MAX
        &&& self.frozen.len() <= self.branches.len()
        &&& forall|i: int, j: int|
            #![trigger self.frozen[i], self.frozen[j]]
            0 <= i < j < self.frozen.len() ==> self.frozen[i] != self.frozen[j]
        &&& forall|i: int|
            0 <= i < self.branches.len() ==> #[trigger] entry_wf(
                self.branches,
                i,
                self.preemption_bound,
            )
        &&& forall|i: int|
            0 <= i < self.frozen.len() ==> {
                &&& (#[trigger] self.frozen[i]) < c.len()
                &&& c[self.frozen[i] as int].origin@ == origin_of(
                    self.branches[i],
                    self.preemption_bound,
                )
            }
    }

    pub open spec fn traversed(self) -> bool {
        self.pos == self.branches.len()
    }

    pub open spec fn full(self) -> bool {
        self.branches.len() >= self.capacity
    }

    pub open spec fn schedule_at(self, i: int) -> Schedule {
        self.branches[i]->Schedule_0
    }

    /// The path with one more branch.
    pub open spec fn extended(self, e: Entry) -> PathModel {
        PathModel { branches: self.branches.push(e), ..self }
    }

    /// The path with the execution moved past the current branch.
    pub open spec fn advanced(self) -> PathModel {
        PathModel { pos: self.pos + 1, ..self }
    }

    // ----- loads and spurious wakeups -----
    /// The path with a load branch over the candidates `seed`.
    pub open spec fn with_load(self, seed: Seq<u8>) -> Result<PathModel, Fault> {
        if self.full() {
            Err(Fault::BranchLimit)
        } else {
            Ok(
                self.extended(
                    Entry::Load(
                        Load {
                            values: load_values(seed),
                            pos: 0,
                            len: seed.len() as u8,
                            exploring: self.exploring,
                        },
                    ),
                ),
            )
        }
    }

    /// The path past the current load branch, and the store to read there.
    pub open spec fn load_branch(self) -> Result<(PathModel, int), Fault> {
        if self.traversed() {
            Err(Fault::Nondeterministic)
        } else {
            match self.branches[self.pos] {
                Entry::Load(l) => Ok((self.advanced(), l.values@[l.pos as int] as int)),
                _ => Err(Fault::Nondeterministic),
            }
        }
    }

    /// The path past a spurious branch, and whether the wait wakes there.
    pub open spec fn spurious_branch(self) -> Result<(PathModel, bool), Fault> {
        if self.traversed() {
            if self.full() {
                Err(Fault::BranchLimit)
            } else {
                Ok(
                    (
                        self.extended(
                            Entry::Spurious(Spurious { spur: false, exploring: self.exploring }),
                        ).advanced(),
                        false,
                    ),
                )
            }
        } else {
            match self.branches[self.pos] {
                Entry::Spurious(s) => Ok((self.advanced(), s.spur)),
                _ => Err(Fault::Nondeterministic),
            }
        }
    }

    // ----- schedules -----
    /// The thread whose transition ran into a new branch: the previous
    /// branch's choice, or at the root the main thread, whose un-branched
    /// prefix is what executed before any branch existed.
    pub open spec fn displaced(self) -> Option<int> {
        match last_schedule(self.branches, self.branches.len() as int) {
            Some(j) => self.schedule_at(j).active(),
            None => Some(0),
        }
    }

    /// The schedule branch that `seed` opens at the end of the path.
    ///
    /// Where the seed switched threads, the displaced thread stopped being
    /// runnable, and every alternative is free: no thread is being preempted.
    /// Unless it *yielded*: that switch is still free, but the seam is flagged
    /// so that a spent bound keeps refusing marks here.
    pub open spec fn new_schedule(self, seed: Seq<Thread>) -> Schedule {
        let threads = seeded(seed);
        let active = first_slot(threads, Class::Active);
        let prev = last_schedule(self.branches, self.branches.len() as int);
        let displaced = self.displaced();
        Schedule {
            preemptions: spent_before(self.branches, prev) as u8,
            initial_active: if active != displaced {
                None
            } else {
                match active {
                    Some(a) => Some(a as u8),
                    None => None,
                }
            },
            threads,
            prev: match prev {
                Some(j) => Some(j as usize),
                None => None,
            },
            exploring: self.exploring,
            conservative: 0,
            entered_conservative: false,
            yield_seam: active != displaced && displaced is Some && threads@[displaced->Some_0]
                == Thread::Yield,
        }
    }

    /// The sibling alternatives that an execution choosing `chosen` at branch
    /// `i` may defer to: the canonically lower open ones. None under a
    /// preemption bound.
    pub open spec fn covered(self, c: Seq<Frozen>, i: int, chosen: Option<int>) -> u16 {
        match chosen {
            Some(t) if self.preemption_bound is None => {
                let coverable = if i < self.frozen.len() {
                    c[self.frozen[i] as int].open
                } else {
                    slot_mask(self.schedule_at(i).threads, Class::Open)
                };
                coverable & bits::under(t)
            },
            _ => 0,
        }
    }

    /// The path past a schedule branch, the thread to run, and the siblings
    /// that this execution may defer to there.
    pub open spec fn thread_branch(self, c: Seq<Frozen>, seed: Seq<Thread>) -> Result<
        (PathModel, Option<int>, u16),
        Fault,
    > {
        if self.traversed() {
            let prev = last_schedule(self.branches, self.branches.len() as int);
            if self.full() {
                Err(Fault::BranchLimit)
            } else if spent_before(self.branches, prev) > u8::MAX {
                Err(Fault::Exhausted)
            } else {
                let p = self.extended(Entry::Schedule(self.new_schedule(seed)));
                let chosen = p.schedule_at(self.pos).active();
                Ok((p.advanced(), chosen, p.covered(c, self.pos, chosen)))
            }
        } else {
            match self.branches[self.pos] {
                Entry::Schedule(s) => Ok(
                    (self.advanced(), s.active(), self.covered(c, self.pos, s.active())),
                ),
                _ => Err(Fault::Nondeterministic),
            }
        }
    }

    // ----- marks -----
    /// The path and the table with a race of thread `t` marked on schedule `i`.
    pub open spec fn marked(self, c: Seq<Frozen>, i: int, t: int, conservative: bool) -> (
        PathModel,
        Seq<Frozen>,
    ) {
        let s = self.schedule_at(i);
        if t >= MAX_THREADS || saturated(s, self.preemption_bound) {
            (self, c)
        } else if i < self.frozen.len() {
            let id = self.frozen[i] as int;
            let cand = candidates(bits::holds(c[id].enabled, t), t);
            (self, c.update(id, c[id].opened(cand & c[id].markable, conservative)))
        } else {
            (
                PathModel {
                    branches: self.branches.update(i, Entry::Schedule(s.marked(t, conservative))),
                    ..self
                },
                c,
            )
        }
    }

    /// The last exploring schedule at or before branch `point`.
    pub open spec fn race_point(self, point: int) -> Option<int>
        decreases point + 1,
    {
        if point < 0 {
            None
        } else if self.branches[point] is Schedule && self.schedule_at(point).exploring {
            Some(point)
        } else {
            self.race_point(point - 1)
        }
    }

    /// The schedule at which a preemption bound asks for one more backtrack
    /// point, at or before schedule `i`: the last exploring one whose choice
    /// differs from the one before it, or else the very first.
    pub open spec fn conservative_point(self, i: int) -> Option<int>
        decreases i,
    {
        let s = self.schedule_at(i);
        match s.prev {
            Some(p) if p < i => if s.active() != self.schedule_at(p as int).active()
                && s.exploring {
                Some(i)
            } else {
                self.conservative_point(p as int)
            },
            _ => if s.exploring {
                Some(i)
            } else {
                None
            },
        }
    }

    /// The path and the table after a race of thread `t` with an access at
    /// branch `point`.
    pub open spec fn backtracked(self, c: Seq<Frozen>, point: int, t: int) -> (
        PathModel,
        Seq<Frozen>,
    ) {
        if point >= self.branches.len() {
            (self, c)
        } else {
            match self.race_point(point) {
                None => (self, c),
                Some(i) => {
                    let (p1, c1) = self.marked(c, i, t, false);
                    match self.schedule_at(i).prev {
                        Some(prev) if self.preemption_bound is Some => match self.conservative_point(
                            prev as int,
                        ) {
                            Some(j) => p1.marked(c1, j, t, true),
                            None => (p1, c1),
                        },
                        _ => (p1, c1),
                    }
                },
            }
        }
    }

    // ----- steps -----
    /// Branch `i` with its next alternative taken, if there is one.
    pub open spec fn next_choice(self, c: Seq<Frozen>, i: int) -> Option<Entry> {
        if i < self.frozen.len() {
            let r = c[self.frozen[i] as int];
            match bits::first(r.free()) {
                Some(t) => Some(
                    Entry::Schedule(
                        self.schedule_at(i).fixed_on(t, bits::holds(r.conservative, t)),
                    ),
                ),
                None => None,
            }
        } else {
            match self.branches[i] {
                Entry::Schedule(s) => match first_slot(s.threads, Class::Pending) {
                    Some(t) if s.exploring => Some(Entry::Schedule(s.finished().activated(t))),
                    _ => None,
                },
                Entry::Load(l) => if l.exploring && l.pos + 1 < l.len {
                    Some(Entry::Load(Load { pos: (l.pos + 1) as u8, ..l }))
                } else {
                    None
                },
                Entry::Spurious(s) => if s.exploring && !s.spur {
                    Some(Entry::Spurious(Spurious { spur: true, ..s }))
                } else {
                    None
                },
            }
        }
    }

    /// The last of the first `n` branches that has another alternative.
    pub open spec fn next_point(self, c: Seq<Frozen>, n: int) -> Option<int>
        decreases n,
    {
        if n <= 0 {
            None
        } else if self.next_choice(c, n - 1) is Some {
            Some(n - 1)
        } else {
            self.next_point(c, n - 1)
        }
    }

    /// The path at the start of an execution.
    pub open spec fn rewound(self) -> PathModel {
        PathModel { pos: 0, exploring: self.exploring_on_start, skipping: false, ..self }
    }

    /// Branch `i` with no alternative left.
    pub open spec fn spent(self, i: int) -> Entry {
        if i < self.frozen.len() {
            self.branches[i]
        } else {
            match self.branches[i] {
                Entry::Schedule(s) if s.exploring => Entry::Schedule(s.finished()),
                Entry::Load(l) if l.exploring => Entry::Load(Load { pos: (l.pos + 1) as u8, ..l }),
                e => e,
            }
        }
    }

    /// The path when the tree is exhausted.
    pub open spec fn exhausted(self) -> PathModel {
        PathModel {
            branches: if self.branches.len() == 0 {
                self.branches
            } else {
                seq![self.spent(0)]
            },
            ..self.rewound()
        }
    }

    /// The path and the table for the next execution, if there is one: the
    /// last branch with another alternative takes it, and everything after it
    /// is dropped. This is depth-first tree traversal.
    pub open spec fn stepped(self, c: Seq<Frozen>) -> Option<(PathModel, Seq<Frozen>)> {
        match self.next_point(c, self.branches.len() as int) {
            None => None,
            Some(i) => {
                let branches = self.branches.take(i).push(self.next_choice(c, i)->Some_0);
                if i < self.frozen.len() {
                    let id = self.frozen[i] as int;
                    let t = bits::first(c[id].free())->Some_0;
                    Some(
                        (
                            PathModel {
                                branches,
                                frozen: self.frozen.take(i + 1),
                                ..self.rewound()
                            },
                            c.update(id, c[id].taken(t)),
                        ),
                    )
                } else {
                    Some((PathModel { branches, ..self.rewound() }, c))
                }
            },
        }
    }
}

// ----- lemmas -----
/// `b` and `o` have the same schedules below `n`, as far as the branches after
/// them are concerned.
pub open spec fn same_shape(b: Seq<Entry>, o: Seq<Entry>, n: int) -> bool {
    &&& n <= b.len() && n <= o.len()
    &&& forall|j: int|
        #![trigger b[j]]
        #![trigger o[j]]
        0 <= j < n ==> {
            &&& (b[j] is Schedule) == (o[j] is Schedule)
            &&& b[j] is Schedule ==> b[j]->Schedule_0.cost() == o[j]->Schedule_0.cost()
        }
}

pub proof fn lemma_last_schedule(b: Seq<Entry>, n: int)
    requires
        0 <= n <= b.len(),
    ensures
        last_schedule(b, n) matches Some(j) ==> 0 <= j < n && b[j] is Schedule,
    decreases n,
{
    if n > 0 && !(b[n - 1] is Schedule) {
        lemma_last_schedule(b, n - 1);
    }
}

proof fn lemma_last_schedule_same(b: Seq<Entry>, o: Seq<Entry>, m: int, n: int)
    requires
        same_shape(b, o, n),
        0 <= m <= n,
    ensures
        last_schedule(b, m) == last_schedule(o, m),
        spent_before(b, last_schedule(b, m)) == spent_before(o, last_schedule(o, m)),
    decreases m,
{
    lemma_last_schedule(b, m);
    if m > 0 {
        assert((b[m - 1] is Schedule) == (o[m - 1] is Schedule));
        lemma_last_schedule_same(b, o, m - 1, n);
    }
}

proof fn lemma_entry_wf_same(b: Seq<Entry>, o: Seq<Entry>, i: int, bound: Option<u8>)
    requires
        same_shape(b, o, i),
        0 <= i < b.len(),
        i < o.len(),
        b[i] == o[i],
        entry_wf(b, i, bound),
    ensures
        entry_wf(o, i, bound),
{
    lemma_last_schedule_same(b, o, i, i);
}

/// A mark opens alternatives and leaves the choice, the cost and the place of
/// the branch alone.
pub proof fn mark_keeps_the_choice(s: Schedule, t: int, conservative: bool)
    requires
        0 <= t < MAX_THREADS,
    ensures
        s.marked(t, conservative).active() == s.active(),
        s.marked(t, conservative).cost() == s.cost(),
        s.wf() ==> s.marked(t, conservative).wf(),
{
    broadcast use bits::group_bits;
    broadcast use lemma_slot_mask;

    let m = s.marked(t, conservative);
    let skipped = candidates(s.threads@[t] != Thread::Disabled, t) & slot_mask(
        s.threads,
        Class::Skip,
    );
    assert forall|i: int| 0 <= i < MAX_THREADS implies ((#[trigger] m.threads@[i])
        == Thread::Active) == (s.threads@[i] == Thread::Active) by {
        if bits::holds(skipped, i) {
            assert(bits::holds(slot_mask(s.threads, Class::Skip), i));
        }
    }
    assert(Class::Active.admits(m.threads@[0]) == Class::Active.admits(s.threads@[0]));
    assert(Class::Active.admits(m.threads@[1]) == Class::Active.admits(s.threads@[1]));
    assert(Class::Active.admits(m.threads@[2]) == Class::Active.admits(s.threads@[2]));
    assert(Class::Active.admits(m.threads@[3]) == Class::Active.admits(s.threads@[3]));
    assert(Class::Active.admits(m.threads@[4]) == Class::Active.admits(s.threads@[4]));
}

/// Marking the same race twice is the same as marking it once.
pub proof fn mark_is_idempotent(s: Schedule, t: int, conservative: bool)
    requires
        0 <= t < MAX_THREADS,
    ensures
        s.marked(t, conservative).marked(t, conservative) == s.marked(t, conservative),
{
    broadcast use bits::group_bits;
    broadcast use lemma_slot_mask;

    let a = s.marked(t, conservative);
    let b = a.marked(t, conservative);
    let cand = candidates(s.threads@[t] != Thread::Disabled, t);
    let skipped = cand & slot_mask(s.threads, Class::Skip);
    assert(a.threads@[t] == Thread::Disabled <==> s.threads@[t] == Thread::Disabled) by {
        if bits::holds(skipped, t) {
            assert(bits::holds(slot_mask(s.threads, Class::Skip), t));
        }
    }
    let again = cand & slot_mask(a.threads, Class::Skip);
    assert forall|i: int| 0 <= i < 16 implies !#[trigger] bits::holds(again, i) by {
        if bits::holds(again, i) {
            assert(bits::holds(slot_mask(a.threads, Class::Skip), i));
            assert(a.threads@[i] == Thread::Skip);
            assert(!bits::holds(skipped, i));
            assert(s.threads@[i] == Thread::Skip);
        }
    }
    bits::lemma_empty(again);
    lemma_slots_ext(a.threads, b.threads);
    bits::lemma_ext(a.conservative, b.conservative);
    mark_keeps_the_choice(s, t, conservative);
    assert forall|i: int| 0 <= i < 16 implies #[trigger] bits::holds(
        slot_mask(a.threads, Class::Active),
        i,
    ) == bits::holds(slot_mask(s.threads, Class::Active), i) by {
        if i < MAX_THREADS && bits::holds(skipped, i) {
            assert(bits::holds(slot_mask(s.threads, Class::Skip), i));
        }
    }
    bits::lemma_ext(slot_mask(a.threads, Class::Active), slot_mask(s.threads, Class::Active));
}

proof fn lemma_chosen(s: Schedule, t: int)
    requires
        0 <= t < MAX_THREADS,
        s.threads@[t] == Thread::Active,
        forall|i: int|
            0 <= i < MAX_THREADS && i != t ==> (#[trigger] s.threads@[i]) != Thread::Active,
    ensures
        s.active() == Some(t),
{
    assert(Class::Active.admits(s.threads@[0]) == (t == 0));
    assert(Class::Active.admits(s.threads@[1]) == (t == 1));
    assert(Class::Active.admits(s.threads@[2]) == (t == 2));
    assert(Class::Active.admits(s.threads@[3]) == (t == 3));
    assert(Class::Active.admits(s.threads@[4]) == (t == 4));
}

proof fn lemma_fixed_on(s: Schedule, t: int, conservative: bool, b: Seq<Entry>, bound: Option<u8>)
    requires
        0 <= t < MAX_THREADS,
        b.len() > 0,
        b.last() == Entry::Schedule(s),
        entry_wf(b, b.len() - 1, bound),
        !saturated(s, bound),
    ensures
        s.fixed_on(t, conservative).active() == Some(t),
        entry_wf(
            b.drop_last().push(Entry::Schedule(s.fixed_on(t, conservative))),
            b.len() - 1,
            bound,
        ),
{
    let f = s.fixed_on(t, conservative);
    let o = b.drop_last().push(Entry::Schedule(f));
    lemma_chosen(f, t);
    lemma_last_schedule_same(b, o, b.len() - 1, b.len() - 1);
}

proof fn lemma_activated(s: Schedule, b: Seq<Entry>, bound: Option<u8>)
    requires
        b.len() > 0,
        b.last() == Entry::Schedule(s),
        entry_wf(b, b.len() - 1, bound),
        first_slot(s.threads, Class::Pending) is Some,
    ensures
        ({
            let t = first_slot(s.threads, Class::Pending)->Some_0;
            let f = s.finished().activated(t);
            &&& f.active() == Some(t)
            &&& entry_wf(b.drop_last().push(Entry::Schedule(f)), b.len() - 1, bound)
        }),
{
    let t = first_slot(s.threads, Class::Pending)->Some_0;
    let f = s.finished().activated(t);
    let o = b.drop_last().push(Entry::Schedule(f));
    lemma_chosen(f, t);
    lemma_last_schedule_same(b, o, b.len() - 1, b.len() - 1);
}

proof fn lemma_inv_after_cut(p: PathModel, q: PathModel, c: Seq<Frozen>, d: Seq<Frozen>, i: int)
    requires
        p.inv(c),
        claims_evolve(c, d),
        claims_wf(d),
        0 <= i < p.branches.len(),
        q.preemption_bound == p.preemption_bound,
        q.capacity == p.capacity,
        q.split_depth == p.split_depth,
        q.branches.len() == i + 1,
        q.branches.take(i) == p.branches.take(i),
        0 <= q.pos <= i + 1,
        q.frozen.len() <= i + 1,
        q.frozen.len() <= p.frozen.len(),
        q.frozen == p.frozen.take(q.frozen.len() as int),
        entry_wf(q.branches, i, q.preemption_bound),
        q.frozen.len() == i + 1 ==> origin_of(q.branches[i], q.preemption_bound) == origin_of(
            p.branches[i],
            p.preemption_bound,
        ),
    ensures
        q.inv(d),
{
    assert forall|j: int| 0 <= j < i implies q.branches[j] == p.branches[j] by {
        assert(q.branches.take(i)[j] == q.branches[j]);
        assert(p.branches.take(i)[j] == p.branches[j]);
    }
    assert forall|j: int| 0 <= j < q.branches.len() implies #[trigger] entry_wf(
        q.branches,
        j,
        q.preemption_bound,
    ) by {
        if j < i {
            assert(entry_wf(p.branches, j, p.preemption_bound));
            lemma_entry_wf_same(p.branches, q.branches, j, p.preemption_bound);
        }
    }
    assert forall|j: int| 0 <= j < q.frozen.len() implies {
        &&& (#[trigger] q.frozen[j]) < d.len()
        &&& d[q.frozen[j] as int].origin@ == origin_of(q.branches[j], q.preemption_bound)
    } by {
        assert(q.frozen[j] == p.frozen[j]);
        assert(c[p.frozen[j] as int].evolves(d[p.frozen[j] as int]));
    }
}

/// What other tasks do to the shared table never invalidates this path.
pub proof fn inv_survives_other_tasks(p: PathModel, c: Seq<Frozen>, d: Seq<Frozen>)
    requires
        p.inv(c),
        claims_evolve(c, d),
        claims_wf(d),
    ensures
        p.inv(d),
{
    assert forall|j: int| 0 <= j < p.frozen.len() implies {
        &&& (#[trigger] p.frozen[j]) < d.len()
        &&& d[p.frozen[j] as int].origin@ == origin_of(p.branches[j], p.preemption_bound)
    } by {
        assert(c[p.frozen[j] as int].evolves(d[p.frozen[j] as int]));
    }
}

pub proof fn lemma_marked_inv(p: PathModel, c: Seq<Frozen>, i: int, t: int, conservative: bool)
    requires
        p.inv(c),
        0 <= i < p.branches.len(),
        p.branches[i] is Schedule,
        0 <= t,
    ensures
        ({
            let (q, d) = p.marked(c, i, t, conservative);
            &&& q.inv(d)
            &&& claims_evolve(c, d)
            &&& q.frozen == p.frozen
            &&& q.preemption_bound == p.preemption_bound
            &&& q.branches.len() == p.branches.len()
            &&& forall|j: int|
                #![trigger q.branches[j]]
                #![trigger p.branches[j]]
                0 <= j < p.branches.len() ==> {
                    &&& (q.branches[j] is Schedule) == (p.branches[j] is Schedule)
                    &&& q.branches[j] is Schedule ==> {
                        let a = q.schedule_at(j);
                        let b = p.schedule_at(j);
                        &&& a.active() == b.active()
                        &&& a.exploring == b.exploring
                        &&& a.prev == b.prev
                    }
                }
        }),
{
    let (q, d) = p.marked(c, i, t, conservative);
    let s = p.schedule_at(i);
    if t >= MAX_THREADS || saturated(s, p.preemption_bound) {
    } else if i < p.frozen.len() {
        broadcast use bits::group_bits;

        let id = p.frozen[i] as int;
        let cand = candidates(bits::holds(c[id].enabled, t), t);
        assert(c[id].origin@ == origin_of(p.branches[i], p.preemption_bound));
        lemma_opened_wf(c[id], cand & c[id].markable, conservative);
        assert(claims_wf(d));
        assert(claims_evolve(c, d));
        inv_survives_other_tasks(p, c, d);
    } else {
        mark_keeps_the_choice(s, t, conservative);
        assert(entry_wf(p.branches, i, p.preemption_bound));
        assert(same_shape(p.branches, q.branches, p.branches.len() as int));
        lemma_last_schedule_same(p.branches, q.branches, i, i);
        assert forall|j: int| 0 <= j < q.branches.len() implies #[trigger] entry_wf(
            q.branches,
            j,
            q.preemption_bound,
        ) by {
            assert(entry_wf(p.branches, j, p.preemption_bound));
            if j != i {
                lemma_entry_wf_same(p.branches, q.branches, j, p.preemption_bound);
            }
        }
        assert(claims_evolve(c, d));
    }
}

impl Path {
    /// Create a new, blank path, configured to branch at most `max_branches`
    /// times and at most `preemption_bound` thread preemptions.
    pub fn new(max_branches: usize, preemption_bound: Option<u8>, exploring: bool) -> (r: Path)
        ensures
            r@ == (PathModel {
                preemption_bound,
                pos: 0,
                branches: Seq::empty(),
                capacity: max_branches as int,
                exploring,
                skipping: false,
                exploring_on_start: exploring,
                frozen: Seq::empty(),
                split_depth: 0,
            }),
            forall|c: Seq<Frozen>| claims_wf(c) ==> #[trigger] r@.inv(c),
    {
        Path {
            preemption_bound,
            pos: 0,
            branches: Vec::new(),
            capacity: max_branches,
            exploring,
            skipping: false,
            exploring_on_start: exploring,
            frozen: Vec::new(),
            split_depth: 0,
        }
    }

    pub fn set_split_depth(&mut self, depth: usize)
        ensures
            final(self)@ == (PathModel { split_depth: depth as int, ..old(self)@ }),
    {
        self.split_depth = depth;
    }

    /// Leave the critical state.
    pub fn explore_state(&mut self)
        requires
            old(self)@.skipping || !old(self)@.exploring,
        ensures
            final(self)@ == if old(self)@.skipping {
                old(self)@
            } else {
                PathModel { exploring: true, ..old(self)@ }
            },
    {
        if !self.skipping {
            self.exploring = true;
        }
    }

    /// Enter the critical state: branches from here on are not explored.
    pub fn critical(&mut self)
        requires
            old(self)@.skipping || old(self)@.exploring,
        ensures
            final(self)@ == if old(self)@.skipping {
                old(self)@
            } else {
                PathModel { exploring: false, ..old(self)@ }
            },
    {
        if !self.skipping {
            self.exploring = false;
        }
    }

    /// Finish the execution without exploring any branch after this point.
    pub fn skip_branch(&mut self)
        ensures
            final(self)@ == (PathModel { exploring: false, skipping: true, ..old(self)@ }),
    {
        self.exploring = false;
        self.skipping = true;
    }

    /// Whether the rest of this execution is a non-exploring scout: either
    /// the user skipped it, or a sleep set proved it redundant.
    pub fn is_skipping(&self) -> (r: bool)
        ensures
            r == self@.skipping,
    {
        self.skipping
    }

    /// Let the path grow to `max_branches`.
    pub fn set_max_branches(&mut self, max_branches: usize)
        requires
            old(self)@.branches.len() <= max_branches,
        ensures
            final(self)@ == (PathModel {
                capacity: if max_branches > old(self)@.capacity {
                    max_branches as int
                } else {
                    old(self)@.capacity
                },
                ..old(self)@
            }),
    {
        if max_branches > self.capacity {
            self.capacity = max_branches;
        }
    }

    /// Returns `true` if the execution has reached a point where the known path
    /// has been traversed and has reached a new branching point.
    pub fn is_traversed(&self) -> (r: bool)
        ensures
            r == self@.traversed(),
    {
        self.pos == self.branches.len()
    }

    pub fn pos(&self) -> (r: usize)
        ensures
            r == self@.pos,
    {
        self.pos
    }

    /// Push a new atomic-load branch
    pub fn push_load(&mut self, claims: &Claims, seed: &Vec<u8>) -> (r: Result<(), Fault>)
        requires
            old(self)@.inv(claims@),
            seed.len() <= MAX_ATOMIC_HISTORY,
            forall|i: int| 0 <= i < seed.len() ==> (#[trigger] seed[i]) < MAX_ATOMIC_HISTORY,
        ensures
            final(self)@.inv(claims@),
            match old(self)@.with_load(seed@) {
                Ok(p) => r is Ok && final(self)@ == p,
                Err(f) => r == Err::<(), Fault>(f) && final(self)@ == old(self)@,
            },
    {
        if self.branches.len() >= self.capacity {
            return Err(Fault::BranchLimit);
        }
        let mut values: [u8; MAX_ATOMIC_HISTORY] = [0u8;MAX_ATOMIC_HISTORY];
        let mut i: usize = 0;
        while i < seed.len()
            invariant
                i <= seed.len() <= MAX_ATOMIC_HISTORY,
                forall|k: int| 0 <= k < seed.len() ==> (#[trigger] seed[k]) < MAX_ATOMIC_HISTORY,
                forall|k: int|
                    0 <= k < MAX_ATOMIC_HISTORY ==> #[trigger] values@[k] == if k < i {
                        seed[k]
                    } else {
                        0
                    },
            decreases seed.len() - i,
        {
            values[i] = seed[i];
            i += 1;
        }
        let ghost old_branches = self.branches@;
        let load = Load { values, pos: 0, len: seed.len() as u8, exploring: self.exploring };
        self.branches.push(Entry::Load(load));
        proof {
            let want = load_values(seed@);
            assert forall|k: int| 0 <= k < MAX_ATOMIC_HISTORY implies #[trigger] values[k]
                == want[k] by {
                assert(values@[k] == want@[k]);
            }
            assert(values =~= want);
            lemma_pushed_inv(old(self)@, Entry::Load(load), claims@);
            assert(self@ =~= old(self)@.extended(Entry::Load(load)));
        }
        Ok(())
    }

    /// Returns the atomic write to read
    pub fn branch_load(&mut self, claims: &Claims) -> (r: Result<usize, Fault>)
        requires
            old(self)@.inv(claims@),
        ensures
            final(self)@.inv(claims@),
            match old(self)@.load_branch() {
                Ok((p, i)) => r == Ok::<usize, Fault>(i as usize) && final(self)@ == p && 0 <= i
                    < MAX_ATOMIC_HISTORY,
                Err(f) => r == Err::<usize, Fault>(f) && final(self)@ == old(self)@,
            },
    {
        if self.is_traversed() {
            return Err(Fault::Nondeterministic);
        }
        proof {
            assert(entry_wf(self@.branches, self@.pos, self@.preemption_bound));
        }
        match self.branches[self.pos] {
            Entry::Load(load) => {
                self.pos = self.pos + 1;
                assert(load.values@[load.pos as int] < MAX_ATOMIC_HISTORY);
                Ok(load.values[load.pos as usize] as usize)
            },
            _ => Err(Fault::Nondeterministic),
        }
    }

    /// Branch on spurious notifications
    pub fn branch_spurious(&mut self, claims: &Claims) -> (r: Result<bool, Fault>)
        requires
            old(self)@.inv(claims@),
        ensures
            final(self)@.inv(claims@),
            match old(self)@.spurious_branch() {
                Ok((p, b)) => r == Ok::<bool, Fault>(b) && final(self)@ == p,
                Err(f) => r == Err::<bool, Fault>(f) && final(self)@ == old(self)@,
            },
    {
        if self.is_traversed() {
            if self.branches.len() >= self.capacity {
                return Err(Fault::BranchLimit);
            }
            let entry = Entry::Spurious(Spurious { spur: false, exploring: self.exploring });
            self.branches.push(entry);
            proof {
                lemma_pushed_inv(old(self)@, entry, claims@);
            }
        }
        match self.branches[self.pos] {
            Entry::Spurious(spurious) => {
                self.pos = self.pos + 1;
                Ok(spurious.spur)
            },
            _ => Err(Fault::Nondeterministic),
        }
    }

    /// The last schedule branch of the path.
    fn last_schedule(&self) -> (r: Option<usize>)
        ensures
            index_of(r) == last_schedule(self@.branches, self@.branches.len() as int),
            r matches Some(j) ==> j < self@.branches.len() && self@.branches[j as int] is Schedule,
    {
        let mut n: usize = self.branches.len();
        while n > 0
            invariant
                n <= self.branches.len(),
                last_schedule(self.branches@, n as int) == last_schedule(
                    self.branches@,
                    self.branches@.len() as int,
                ),
            decreases n,
        {
            if let Entry::Schedule(_) = self.branches[n - 1] {
                return Some(n - 1);
            }
            n = n - 1;
        }
        None
    }
}

pub proof fn lemma_pushed_inv(p: PathModel, e: Entry, c: Seq<Frozen>)
    requires
        p.inv(c),
        !p.full(),
        entry_wf(p.branches.push(e), p.branches.len() as int, p.preemption_bound),
    ensures
        p.extended(e).inv(c),
{
    let q = p.extended(e);
    assert forall|j: int| 0 <= j < q.branches.len() implies #[trigger] entry_wf(
        q.branches,
        j,
        q.preemption_bound,
    ) by {
        if j < p.branches.len() {
            assert(entry_wf(p.branches, j, p.preemption_bound));
            lemma_entry_wf_same(p.branches, q.branches, j, p.preemption_bound);
        }
    }
    assert forall|j: int| 0 <= j < q.frozen.len() implies {
        &&& (#[trigger] q.frozen[j]) < c.len()
        &&& c[q.frozen[j] as int].origin@ == origin_of(q.branches[j], q.preemption_bound)
    } by {
        assert(q.frozen[j] == p.frozen[j]);
    }
}

proof fn lemma_seeded(seed: Seq<Thread>)
    requires
        seed_wf(seed),
    ensures
        forall|i: int, j: int|
            #![trigger seeded(seed)@[i], seeded(seed)@[j]]
            0 <= i < MAX_THREADS && 0 <= j < MAX_THREADS && seeded(seed)@[i] == Thread::Active
                && seeded(seed)@[j] == Thread::Active ==> i == j,
        first_slot(seeded(seed), Class::Pending) is None,
{
    let raw = slots_of(
        |i: int|
            if i < seed.len() {
                seed[i]
            } else {
                Thread::Disabled
            },
    );
    let s = seeded(seed);
    if first_slot(raw, Class::Active) is None {
        assert(!Class::Active.admits(raw@[0]));
        assert(!Class::Active.admits(raw@[1]));
        assert(!Class::Active.admits(raw@[2]));
        assert(!Class::Active.admits(raw@[3]));
        assert(!Class::Active.admits(raw@[4]));
    }
    assert(!Class::Pending.admits(s@[0]));
    assert(!Class::Pending.admits(s@[1]));
    assert(!Class::Pending.admits(s@[2]));
    assert(!Class::Pending.admits(s@[3]));
    assert(!Class::Pending.admits(s@[4]));
}

/// The states of a new schedule.
fn seed_slots(seed: &Vec<Thread>) -> (r: Slots)
    requires
        seed_wf(seed@),
    ensures
        r == seeded(seed@),
{
    let mut threads: Slots = [Thread::Disabled;MAX_THREADS];
    let mut i: usize = 0;
    while i < seed.len()
        invariant
            i <= seed.len() <= MAX_THREADS,
            forall|k: int|
                0 <= k < MAX_THREADS ==> #[trigger] threads@[k] == if k < i {
                    seed@[k]
                } else {
                    Thread::Disabled
                },
        decreases seed.len() - i,
    {
        threads[i] = seed[i];
        i += 1;
    }
    let ghost raw = threads;
    proof {
        lemma_slots_ext(
            raw,
            slots_of(
                |i: int|
                    if i < seed@.len() {
                        seed@[i]
                    } else {
                        Thread::Disabled
                    },
            ),
        );
    }
    if find_slot(&threads, Class::Active).is_none() {
        if let Some(y) = find_slot(&threads, Class::Yield) {
            threads[y] = Thread::Active;
            proof {
                lemma_slots_ext(threads, seeded(seed@));
            }
        }
    }
    threads
}

impl Path {
    /// Opens a schedule branch at the end of the path.
    fn push_schedule(&mut self, claims: &Claims, seed: &Vec<Thread>) -> (r: Result<(), Fault>)
        requires
            old(self)@.inv(claims@),
            old(self)@.traversed(),
            seed_wf(seed@),
        ensures
            final(self)@.inv(claims@),
            ({
                let prev = last_schedule(
                    old(self)@.branches,
                    old(self)@.branches.len() as int,
                );
                if old(self)@.full() {
                    r == Err::<(), Fault>(Fault::BranchLimit) && final(self)@ == old(self)@
                } else if spent_before(old(self)@.branches, prev) > u8::MAX {
                    r == Err::<(), Fault>(Fault::Exhausted) && final(self)@ == old(self)@
                } else {
                    r is Ok && final(self)@ == old(self)@.extended(
                        Entry::Schedule(old(self)@.new_schedule(seed@)),
                    )
                }
            }),
    {
        if self.branches.len() >= self.capacity {
            return Err(Fault::BranchLimit);
        }
        let prev: Option<usize> = self.last_schedule();
        let mut preemptions: u8 = 0;
        let mut displaced: Option<u8> = Some(0);
        if let Some(j) = prev {
            proof {
                assert(entry_wf(self@.branches, j as int, self@.preemption_bound));
            }
            if let Entry::Schedule(s) = self.branches[j] {
                match s.preemptions() {
                    Some(n) => {
                        preemptions = n;
                    },
                    None => {
                        return Err(Fault::Exhausted);
                    },
                }
                displaced = s.active_thread_index();
            }
        }
        let threads: Slots = seed_slots(seed);
        let active: Option<usize> = find_slot(&threads, Class::Active);
        let same: bool = match (active, displaced) {
            (Some(a), Some(d)) => a == d as usize,
            (None, None) => true,
            _ => false,
        };
        let mut initial_active: Option<u8> = None;
        let mut yield_seam: bool = false;
        if same {
            if let Some(a) = active {
                initial_active = Some(a as u8);
            }
        } else if let Some(d) = displaced {
            yield_seam = threads[d as usize] == Thread::Yield;
        }
        let schedule = Schedule {
            preemptions,
            initial_active,
            threads,
            prev,
            exploring: self.exploring,
            conservative: 0,
            entered_conservative: false,
            yield_seam,
        };
        assert(schedule == old(self)@.new_schedule(seed@));
        self.branches.push(Entry::Schedule(schedule));
        proof {
            lemma_seeded(seed@);
            let b = self@.branches;
            assert(same_shape(old(self)@.branches, b, old(self)@.branches.len() as int));
            lemma_last_schedule_same(
                old(self)@.branches,
                b,
                old(self)@.branches.len() as int,
                old(self)@.branches.len() as int,
            );
            lemma_pushed_inv(old(self)@, Entry::Schedule(schedule), claims@);
            assert(self@ =~= old(self)@.extended(Entry::Schedule(schedule)));
        }
        Ok(())
    }

    /// Returns the thread to schedule, and the set of sibling alternatives
    /// this execution may defer to at the branch: the canonically-lower open
    /// alternatives. One rule for owned and frozen branches alike: at a frozen
    /// branch the private copy's thread states are degenerate, so the open set
    /// comes from the claim record instead.
    ///
    /// The set is empty under a preemption bound: a covering linearization can
    /// spend up to two more preemptions than the execution it covers, so the
    /// deferred-to subtree may be truncated exactly where the pruned class
    /// would have lived.
    pub fn branch_thread(&mut self, claims: &Claims, seed: &Vec<Thread>) -> (r: Result<
        (Option<usize>, u16),
        Fault,
    >)
        requires
            old(self)@.inv(claims@),
            seed_wf(seed@),
        ensures
            final(self)@.inv(claims@),
            match old(self)@.thread_branch(claims@, seed@) {
                Ok((p, chosen, covered)) => {
                    &&& r matches Ok((i, mask)) && index_of(i) == chosen && mask == covered
                    &&& chosen matches Some(t) ==> 0 <= t < MAX_THREADS
                    &&& final(self)@ == p
                },
                Err(f) => r == Err::<(Option<usize>, u16), Fault>(f) && final(self)@ == old(
                    self,
                )@,
            },
    {
        if self.is_traversed() {
            match self.push_schedule(claims, seed) {
                Ok(()) => {},
                Err(f) => {
                    return Err(f);
                },
            }
        }
        let index: usize = self.pos;
        match self.branches[index] {
            Entry::Schedule(schedule) => {
                self.pos = self.pos + 1;
                let active: Option<usize> = find_slot(&schedule.threads, Class::Active);
                let mut covered: u16 = 0;
                if let Some(chosen) = active {
                    if self.preemption_bound.is_none() {
                        let coverable: u16 = if index < self.frozen.len() {
                            claims.get(self.frozen[index]).open_mask()
                        } else {
                            collect_slots(&schedule.threads, Class::Open)
                        };
                        covered = coverable & bits::below(chosen);
                    }
                }
                Ok((active, covered))
            },
            _ => Err(Fault::Nondeterministic),
        }
    }

    /// Open the alternatives proven necessary at schedule `index`, given that
    /// `thread_id` raced with an access recorded there.
    ///
    /// Above the floor this branch is the path's own and the mark is a plain
    /// state change. Below it the branch is shared, so the mark goes to the
    /// claim record instead, where it stays visible to whichever task reaches
    /// the branch next.
    ///
    /// Under a preemption bound a saturated prefix rules out the alternatives
    /// that would preempt the naturally-continuing thread, plus yield seams.
    fn mark(&mut self, claims: &mut Claims, index: usize, thread_id: usize, conservative: bool)
        requires
            old(self)@.inv(old(claims)@),
            index < old(self)@.branches.len(),
            old(self)@.branches[index as int] is Schedule,
        ensures
            (final(self)@, final(claims)@) == old(self)@.marked(
                old(claims)@,
                index as int,
                thread_id as int,
                conservative,
            ),
            final(self)@.inv(final(claims)@),
            claims_evolve(old(claims)@, final(claims)@),
    {
        proof {
            lemma_marked_inv(self@, claims@, index as int, thread_id as int, conservative);
        }
        if thread_id >= MAX_THREADS {
            return ;
        }
        if let Entry::Schedule(schedule) = self.branches[index] {
            let mut schedule: Schedule = schedule;
            if let Some(bound) = self.preemption_bound {
                if schedule.preemptions == bound && (schedule.initial_active.is_some()
                    || schedule.yield_seam) {
                    return ;
                }
            }
            if index < self.frozen.len() {
                let id: usize = self.frozen[index];
                let mut record: Frozen = claims.get(id);
                let candidates: u16 = if bits::test(record.enabled, thread_id) {
                    bits::bit(thread_id)
                } else {
                    ALL_THREADS
                };
                record.open(candidates & record.markable, conservative);
                claims.set(id, record);
                return ;
            }
            schedule.mark(thread_id, conservative);
            self.branches[index] = Entry::Schedule(schedule);
            assert(self@ =~= old(self)@.marked(
                old(claims)@,
                index as int,
                thread_id as int,
                conservative,
            ).0);
        }
    }

    /// Record that `thread_id` races with the access at branch `point`: the
    /// last exploring schedule at or before it is marked. Under a preemption
    /// bound one more schedule is marked conservatively, to cover the cases
    /// that the bound misses.
    pub fn backtrack(&mut self, claims: &mut Claims, point: usize, thread_id: usize)
        requires
            old(self)@.inv(old(claims)@),
        ensures
            (final(self)@, final(claims)@) == old(self)@.backtracked(
                old(claims)@,
                point as int,
                thread_id as int,
            ),
            final(self)@.inv(final(claims)@),
            claims_evolve(old(claims)@, final(claims)@),
    {
        if point >= self.branches.len() {
            return ;
        }
        let mut n: usize = point + 1;
        let mut target: Option<(usize, Option<usize>)> = None;
        while n > 0
            invariant_except_break
                target is None,
                self@.race_point(point as int) == self@.race_point(n - 1),
            invariant
                n <= point + 1 <= self@.branches.len(),
                self@ == old(self)@,
            ensures
                match target {
                    Some((i, prev)) => {
                        &&& self@.race_point(point as int) == Some(i as int)
                        &&& i < self@.branches.len()
                        &&& self@.branches[i as int] is Schedule
                        &&& prev == self@.schedule_at(i as int).prev
                    },
                    None => self@.race_point(point as int) is None,
                },
            decreases n,
        {
            if let Entry::Schedule(s) = self.branches[n - 1] {
                if s.exploring {
                    target = Some((n - 1, s.prev));
                    break ;
                }
            }
            n = n - 1;
        }
        if let Some((i, prev)) = target {
            proof {
                assert(entry_wf(self@.branches, i as int, self@.preemption_bound));
                lemma_last_schedule(self@.branches, i as int);
                lemma_marked_inv(self@, claims@, i as int, thread_id as int, false);
            }
            self.mark(claims, i, thread_id, false);
            if let Some(curr) = prev {
                if self.preemption_bound.is_some() {
                    let ghost p1 = self@;
                    let ghost c1 = claims@;
                    proof {
                        lemma_conservative_point(old(self)@, old(claims)@, p1, curr as int);
                    }
                    if let Some(j) = self.conservative_target(claims, curr) {
                        self.mark(claims, j, thread_id, true);
                        proof {
                            lemma_claims_evolve_trans(old(claims)@, c1, claims@);
                        }
                    }
                }
            }
        }
    }

    /// The schedule at which a preemption bound asks for one more backtrack
    /// point, at or before schedule `start`.
    fn conservative_target(&self, claims: &Claims, start: usize) -> (r: Option<usize>)
        requires
            self@.inv(claims@),
            start < self@.branches.len(),
            self@.branches[start as int] is Schedule,
        ensures
            index_of(r) == self@.conservative_point(start as int),
            r matches Some(j) ==> j < self@.branches.len() && self@.branches[j as int] is Schedule,
    {
        let mut curr: usize = start;
        loop
            invariant
                self@.inv(claims@),
                curr < self@.branches.len(),
                self@.branches[curr as int] is Schedule,
                self@.conservative_point(curr as int) == self@.conservative_point(start as int),
            decreases curr,
        {
            proof {
                assert(entry_wf(self@.branches, curr as int, self@.preemption_bound));
                lemma_last_schedule(self@.branches, curr as int);
            }
            if let Entry::Schedule(s) = self.branches[curr] {
                match s.prev {
                    Some(prev) => {
                        if let Entry::Schedule(before) = self.branches[prev] {
                            let a: Option<u8> = s.active_thread_index();
                            let b: Option<u8> = before.active_thread_index();
                            let same: bool = match (a, b) {
                                (Some(a), Some(b)) => a == b,
                                (None, None) => true,
                                _ => false,
                            };
                            if !same && s.exploring {
                                return Some(curr);
                            }
                        }
                        curr = prev;
                    },
                    None => {
                        return if s.exploring {
                            Some(curr)
                        } else {
                            None
                        };
                    },
                }
            }
        }
    }
}

proof fn lemma_conservative_point(p: PathModel, c: Seq<Frozen>, q: PathModel, i: int)
    requires
        p.inv(c),
        0 <= i < p.branches.len(),
        p.branches[i] is Schedule,
        q.branches.len() == p.branches.len(),
        forall|j: int|
            #![trigger q.branches[j]]
            #![trigger p.branches[j]]
            0 <= j < p.branches.len() ==> {
                &&& (q.branches[j] is Schedule) == (p.branches[j] is Schedule)
                &&& q.branches[j] is Schedule ==> {
                    let a = q.schedule_at(j);
                    let b = p.schedule_at(j);
                    &&& a.active() == b.active()
                    &&& a.exploring == b.exploring
                    &&& a.prev == b.prev
                }
            },
    ensures
        q.conservative_point(i) == p.conservative_point(i),
    decreases i,
{
    assert(entry_wf(p.branches, i, p.preemption_bound));
    lemma_last_schedule(p.branches, i);
    let s = p.schedule_at(i);
    if let Some(prev) = s.prev {
        assert(p.branches[prev as int] is Schedule);
        lemma_conservative_point(p, c, q, prev as int);
    }
}

proof fn lemma_stepped_inv(p: PathModel, c: Seq<Frozen>, i: int)
    requires
        p.inv(c),
        0 <= i < p.branches.len(),
        p.next_point(c, p.branches.len() as int) == Some(i),
        p.next_choice(c, i) is Some,
    ensures
        ({
            let (q, d) = p.stepped(c)->Some_0;
            &&& q.inv(d)
            &&& claims_evolve(c, d)
        }),
{
    let (q, d) = p.stepped(c)->Some_0;
    let cut = p.branches.take(i + 1);
    assert(entry_wf(p.branches, i, p.preemption_bound));
    assert(same_shape(p.branches, cut, i));
    lemma_entry_wf_same(p.branches, cut, i, p.preemption_bound);
    assert(cut.drop_last() =~= p.branches.take(i));
    assert(q.branches.take(i) =~= p.branches.take(i));
    if i < p.frozen.len() {
        let id = p.frozen[i] as int;
        let t = bits::first(c[id].free())->Some_0;
        broadcast use bits::group_bits;

        bits::lemma_first(c[id].free());
        bits::lemma_empty(c[id].free());
        assert(c[id].origin@ == origin_of(p.branches[i], p.preemption_bound));
        assert(c[id].wf());
        lemma_taken_wf(c[id], t);
        assert(bits::holds(c[id].open, t));
        bits::lemma_empty(c[id].open);
        lemma_fixed_on(
            p.schedule_at(i),
            t,
            bits::holds(c[id].conservative, t),
            cut,
            p.preemption_bound,
        );
    } else if let Entry::Schedule(s) = p.branches[i] {
        lemma_activated(s, cut, p.preemption_bound);
    }
    assert(q.frozen =~= p.frozen.take(q.frozen.len() as int));
    lemma_inv_after_cut(p, q, c, d, i);
}

impl Path {
    /// Reset the path to prepare for the next exploration of the model,
    /// reporting whether there is anything left to explore.
    ///
    /// A frozen branch's alternatives are shared, so the next one there comes
    /// from the claim record rather than from this path's copy.
    pub fn step(&mut self, claims: &mut Claims) -> (r: bool)
        requires
            old(self)@.inv(old(claims)@),
        ensures
            match old(self)@.stepped(old(claims)@) {
                Some((p, d)) => {
                    &&& r
                    &&& final(self)@ == p
                    &&& final(claims)@ == d
                    &&& p.inv(d)
                },
                None => {
                    &&& !r
                    &&& final(self)@ == old(self)@.exhausted()
                    &&& final(claims)@ == old(claims)@
                },
            },
            claims_evolve(old(claims)@, final(claims)@),
            claims_wf(final(claims)@),
    {
        let ghost p = self@;
        let ghost c = claims@;
        self.pos = 0;
        self.exploring = self.exploring_on_start;
        self.skipping = false;
        let mut n: usize = self.branches.len();
        while n > 0
            invariant
                p == old(self)@,
                c == old(claims)@,
                claims@ == c,
                p.inv(c),
                n <= p.branches.len(),
                self@ == (PathModel { branches: self@.branches, ..p.rewound() }),
                n == p.branches.len() ==> self@.branches == p.branches,
                n < p.branches.len() ==> self@.branches.len() == n + 1 && self@.branches[n as int]
                    == p.spent(n as int),
                forall|k: int| 0 <= k < n ==> #[trigger] self@.branches[k] == p.branches[k],
                p.next_point(c, n as int) == p.next_point(c, p.branches.len() as int),
            decreases n,
        {
            let i: usize = n - 1;
            // Remove all branches that were created **after** this branch
            self.branches.truncate(n);
            proof {
                assert(entry_wf(p.branches, i as int, p.preemption_bound));
                assert(self@.branches[i as int] == p.branches[i as int]);
                if p.next_choice(c, i as int) is Some {
                    lemma_stepped_inv(p, c, i as int);
                }
            }
            if i < self.frozen.len() {
                let id: usize = self.frozen[i];
                let mut record: Frozen = claims.get(id);
                if let Some(t) = record.claim_next() {
                    let conservative: bool = record.is_conservative(t);
                    claims.set(id, record);
                    // Deeper frozen branches described alternatives under the
                    // choice being left behind.
                    self.frozen.truncate(i + 1);
                    proof {
                        broadcast use bits::group_bits;

                        bits::lemma_first(c[id as int].free());
                        assert(bits::holds(c[id as int].open, t as int));
                        bits::lemma_empty(c[id as int].open);
                        assert(c[id as int].wf());
                        assert(c[id as int].origin@ == origin_of(
                            p.branches[i as int],
                            p.preemption_bound,
                        ));
                    }
                    if let Entry::Schedule(s) = self.branches[i] {
                        let mut s: Schedule = s;
                        s.fix(t, conservative);
                        self.branches[i] = Entry::Schedule(s);
                    }
                    assert(self@.branches =~= p.branches.take(i as int).push(
                        p.next_choice(c, i as int)->Some_0,
                    ));
                    assert(self@ =~= p.stepped(c)->Some_0.0);
                    return true;
                }
            } else {
                match self.branches[i] {
                    Entry::Schedule(s) => {
                        if s.exploring {
                            let mut s: Schedule = s;
                            let more: bool = s.advance();
                            self.branches[i] = Entry::Schedule(s);
                            if more {
                                assert(self@.branches =~= p.branches.take(i as int).push(
                                    p.next_choice(c, i as int)->Some_0,
                                ));
                                assert(self@ =~= p.stepped(c)->Some_0.0);
                                return true;
                            }
                        }
                    },
                    Entry::Load(l) => {
                        if l.exploring {
                            let mut l: Load = l;
                            l.pos = l.pos + 1;
                            self.branches[i] = Entry::Load(l);
                            if l.pos < l.len {
                                assert(self@.branches =~= p.branches.take(i as int).push(
                                    p.next_choice(c, i as int)->Some_0,
                                ));
                                assert(self@ =~= p.stepped(c)->Some_0.0);
                                return true;
                            }
                        }
                    },
                    Entry::Spurious(spurious) => {
                        if spurious.exploring && !spurious.spur {
                            self.branches[i] = Entry::Spurious(
                                Spurious { spur: true, exploring: true },
                            );
                            assert(self@.branches =~= p.branches.take(i as int).push(
                                p.next_choice(c, i as int)->Some_0,
                            ));
                            assert(self@ =~= p.stepped(c)->Some_0.0);
                            return true;
                        }
                    },
                }
            }
            n = n - 1;
        }
        assert(self@.branches =~= p.exhausted().branches);
        false
    }

    /// Whether the execution just traversed sits under at least one schedule
    /// choice that only the preemption bound's conservative backtrack points
    /// opened. An upper bound on what a bound-aware optimal reduction could
    /// avoid exploring.
    pub fn conservative_attributed(&self) -> (r: bool)
        ensures
            r <==> exists|i: int|
                0 <= i < self@.branches.len() && self@.branches[i] is Schedule && (
                #[trigger] self@.schedule_at(i)).entered_conservative,
    {
        let mut i: usize = 0;
        while i < self.branches.len()
            invariant
                i <= self.branches.len(),
                forall|k: int|
                    0 <= k < i && self@.branches[k] is Schedule ==> !(#[trigger] self@.schedule_at(
                        k,
                    )).entered_conservative,
            decreases self.branches.len() - i,
        {
            if let Entry::Schedule(s) = self.branches[i] {
                if s.entered_conservative {
                    assert(self@.schedule_at(i as int).entered_conservative);
                    return true;
                }
            }
            i += 1;
        }
        false
    }
}

} // verus!
