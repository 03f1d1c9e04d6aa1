//! The branches of a path: schedules, loads and spurious wakeups.
use vstd::prelude::*;

use crate::rt::bits;
use crate::rt::{MAX_ATOMIC_HISTORY, MAX_THREADS};

verus! {

/// Every thread slot a branch can hold.
pub const ALL_THREADS: u16 = 0x1f;

/// The state of one thread at a schedule branch.
#[derive(Debug, Clone, Copy, PartialEq, Eq, Structural)]
pub enum Thread {
    /// The thread is currently disabled
    Disabled,
    /// The thread should not be explored
    Skip,
    /// The thread is in a yield state.
    Yield,
    /// The thread is waiting to be explored
    Pending,
    /// The thread is currently being explored
    Active,
    /// The thread has been explored
    Visited,
}

/// A class of thread states.
#[derive(Debug, Clone, Copy, PartialEq, Eq, Structural)]
pub enum Class {
    Skip,
    Yield,
    Pending,
    Active,
    /// Not disabled.
    Enabled,
    /// Pending, active or visited: proven necessary.
    Open,
    /// Active or visited: explored, or being explored.
    Taken,
}

impl Class {
    pub open spec fn admits(self, t: Thread) -> bool {
        match self {
            Class::Skip => t == Thread::Skip,
            Class::Yield => t == Thread::Yield,
            Class::Pending => t == Thread::Pending,
            Class::Active => t == Thread::Active,
            Class::Enabled => t != Thread::Disabled,
            Class::Open => t == Thread::Pending || t == Thread::Active || t == Thread::Visited,
            Class::Taken => t == Thread::Active || t == Thread::Visited,
        }
    }

    pub fn matches(self, t: Thread) -> (r: bool)
        ensures
            r == self.admits(t),
    {
        match self {
            Class::Skip => t == Thread::Skip,
            Class::Yield => t == Thread::Yield,
            Class::Pending => t == Thread::Pending,
            Class::Active => t == Thread::Active,
            Class::Enabled => t != Thread::Disabled,
            Class::Open => t == Thread::Pending || t == Thread::Active || t == Thread::Visited,
            Class::Taken => t == Thread::Active || t == Thread::Visited,
        }
    }
}

/// The thread states of a branch, one per slot.
pub type Slots = [Thread; MAX_THREADS];

/// The states whose slot `i` is `f(i)`.
pub open spec fn slots_of(f: spec_fn(int) -> Thread) -> Slots {
    [f(0), f(1), f(2), f(3), f(4)]
}

/// The first slot whose state is in the class.
pub open spec fn first_slot(s: Slots, class: Class) -> Option<int> {
    if class.admits(s@[0]) {
        Some(0)
    } else if class.admits(s@[1]) {
        Some(1)
    } else if class.admits(s@[2]) {
        Some(2)
    } else if class.admits(s@[3]) {
        Some(3)
    } else if class.admits(s@[4]) {
        Some(4)
    } else {
        None
    }
}

/// The set of a single slot, or no slot.
pub open spec fn slot_bit(b: bool, i: int) -> u16 {
    if b {
        bits::only(i)
    } else {
        0
    }
}

/// The set of slots whose state is in the class.
pub open spec fn slot_mask(s: Slots, class: Class) -> u16 {
    slot_bit(class.admits(s@[0]), 0) | slot_bit(class.admits(s@[1]), 1) | slot_bit(
        class.admits(s@[2]),
        2,
    ) | slot_bit(class.admits(s@[3]), 3) | slot_bit(class.admits(s@[4]), 4)
}

pub broadcast proof fn lemma_slot_mask(s: Slots, class: Class, i: int)
    requires
        0 <= i < 16,
    ensures
        #[trigger] bits::holds(slot_mask(s, class), i) == (i < MAX_THREADS && class.admits(s@[i])),
{
    broadcast use bits::group_bits;

}

/// The full set holds exactly the slots of a branch.
pub proof fn lemma_all_threads(i: int)
    requires
        0 <= i < 16,
    ensures
        bits::holds(ALL_THREADS, i) == (i < MAX_THREADS),
{
    let s = i as u16;
    assert(0x1fu16 & (1u16 << s) != 0 <==> s < 5) by (bit_vector)
        requires
            s < 16,
    ;
}

pub proof fn lemma_slots_ext(a: Slots, b: Slots)
    requires
        forall|i: int| 0 <= i < MAX_THREADS ==> #[trigger] a@[i] == b@[i],
    ensures
        a == b,
{
    assert forall|i: int| 0 <= i < MAX_THREADS implies #[trigger] a[i] == b[i] by {
        assert(a@[i] == b@[i]);
    }
    assert(a =~= b);
}

/// The first slot whose state is in the class.
pub fn find_slot(s: &Slots, class: Class) -> (r: Option<usize>)
    ensures
        match r {
            Some(i) => first_slot(*s, class) == Some(i as int) && i < MAX_THREADS,
            None => first_slot(*s, class) is None,
        },
{
    let mut i: usize = 0;
    while i < MAX_THREADS
        invariant
            0 <= i <= MAX_THREADS,
            forall|k: int| 0 <= k < i ==> !class.admits(#[trigger] s@[k]),
        decreases MAX_THREADS - i,
    {
        if class.matches(s[i]) {
            return Some(i);
        }
        i += 1;
    }
    None
}

/// The set of slots whose state is in the class.
pub fn collect_slots(s: &Slots, class: Class) -> (r: u16)
    ensures
        r == slot_mask(*s, class),
{
    broadcast use bits::group_bits;
    broadcast use lemma_slot_mask;

    let mut mask: u16 = 0;
    let mut i: usize = 0;
    while i < MAX_THREADS
        invariant
            0 <= i <= MAX_THREADS,
            forall|k: int|
                0 <= k < 16 ==> #[trigger] bits::holds(mask, k) == (k < i && class.admits(s@[k])),
        decreases MAX_THREADS - i,
    {
        let ghost before = mask;
        if class.matches(s[i]) {
            mask = mask | bits::bit(i);
            assert forall|k: int| 0 <= k < 16 implies #[trigger] bits::holds(mask, k) == (
            bits::holds(before, k) || k == i) by {
                bits::lemma_or(before, bits::only(i as int), k);
                bits::lemma_only(i as int, k);
            }
        }
        i += 1;
    }
    proof {
        bits::lemma_ext(mask, slot_mask(*s, class));
    }
    mask
}

/// A choice of which thread runs next.
#[derive(Debug, Clone, Copy)]
pub struct Schedule {
    /// Number of times the thread leading to this branch point has been
    /// pre-empted.
    pub preemptions: u8,
    /// The thread that was active first
    pub initial_active: Option<u8>,
    /// State of each thread
    pub threads: Slots,
    /// The previous schedule branch
    pub prev: Option<usize>,
    pub exploring: bool,
    /// Threads whose `Pending` here was opened only by the preemption bound's
    /// conservative backtrack points. A standard mark clears the bit: the
    /// alternative is then required regardless of the bound. Measurement only.
    pub conservative: u16,
    /// The branch's current choice was conservative-only at the moment it was
    /// activated. What execution attribution reads.
    pub entered_conservative: bool,
    /// The seed switched here because the previous thread *yielded*, not
    /// because it blocked or finished. Alternatives still cost no preemption,
    /// but a spent bound must keep refusing marks here: yield seams recur
    /// every spin iteration, so ungated they make cyclic state spaces
    /// inexhaustible.
    pub yield_seam: bool,
}

/// A choice of which store an atomic load reads.
#[derive(Debug, Clone, Copy)]
pub struct Load {
    /// All possible values
    pub values: [u8; MAX_ATOMIC_HISTORY],
    /// Current value
    pub pos: u8,
    /// Number of values in list
    pub len: u8,
    pub exploring: bool,
}

/// A choice of whether a wait wakes on its own.
#[derive(Debug, Clone, Copy)]
pub struct Spurious {
    pub spur: bool,
    pub exploring: bool,
}

/// One branch of a path.
#[derive(Debug, Clone, Copy)]
pub enum Entry {
    Schedule(Schedule),
    Load(Load),
    Spurious(Spurious),
}

/// The bound is spent by the prefix, and an alternative here would either
/// preempt the naturally continuing thread or take a yield seam.
pub open spec fn saturated(s: Schedule, bound: Option<u8>) -> bool {
    bound == Some(s.preemptions) && (s.initial_active is Some || s.yield_seam)
}

/// The alternatives that a race of thread `t` asks for: the thread itself, or
/// every candidate where it cannot be scheduled.
pub open spec fn candidates(enabled: bool, t: int) -> u16 {
    if enabled {
        bits::only(t)
    } else {
        ALL_THREADS
    }
}

impl Schedule {
    pub open spec fn active(self) -> Option<int> {
        first_slot(self.threads, Class::Active)
    }

    /// The number of preemptions with the branch's current choice.
    pub open spec fn cost(self) -> int {
        if self.initial_active matches Some(a) && self.active() != Some(a as int) {
            self.preemptions + 1
        } else {
            self.preemptions as int
        }
    }

    pub open spec fn wf(self) -> bool {
        &&& self.initial_active matches Some(a) ==> a < MAX_THREADS
        &&& forall|i: int, j: int|
            #![trigger self.threads@[i], self.threads@[j]]
            0 <= i < MAX_THREADS && 0 <= j < MAX_THREADS && self.threads@[i] == Thread::Active
                && self.threads@[j] == Thread::Active ==> i == j
    }

    /// The branch with a race of thread `t` marked on it.
    pub open spec fn marked(self, t: int, conservative: bool) -> Schedule {
        let cand = candidates(self.threads@[t] != Thread::Disabled, t);
        let skipped = cand & slot_mask(self.threads, Class::Skip);
        let active = cand & slot_mask(self.threads, Class::Active);
        Schedule {
            threads: slots_of(
                |i: int|
                    if bits::holds(skipped, i) {
                        Thread::Pending
                    } else {
                        self.threads@[i]
                    },
            ),
            conservative: if conservative {
                self.conservative | skipped
            } else {
                self.conservative & !cand
            },
            entered_conservative: self.entered_conservative && (conservative || active == 0),
            ..self
        }
    }

    /// The branch fixed on thread `t`, with every sibling closed.
    pub open spec fn fixed_on(self, t: int, conservative: bool) -> Schedule {
        Schedule {
            threads: slots_of(
                |i: int|
                    if i == t {
                        Thread::Active
                    } else {
                        Thread::Visited
                    },
            ),
            entered_conservative: conservative,
            ..self
        }
    }

    /// The branch with its current alternative finished.
    pub open spec fn finished(self) -> Schedule {
        Schedule {
            threads: slots_of(
                |i: int|
                    if self.threads@[i] == Thread::Active {
                        Thread::Visited
                    } else {
                        self.threads@[i]
                    },
            ),
            ..self
        }
    }

    /// The branch with thread `t` activated.
    pub open spec fn activated(self, t: int) -> Schedule {
        Schedule {
            threads: slots_of(
                |i: int|
                    if i == t {
                        Thread::Active
                    } else {
                        self.threads@[i]
                    },
            ),
            entered_conservative: bits::holds(self.conservative, t),
            ..self
        }
    }

    /// Returns the index of the currently active thread
    pub fn active_thread_index(&self) -> (r: Option<u8>)
        ensures
            match r {
                Some(i) => self.active() == Some(i as int) && i < MAX_THREADS,
                None => self.active() is None,
            },
    {
        match find_slot(&self.threads, Class::Active) {
            Some(i) => Some(i as u8),
            None => None,
        }
    }

    /// Compute the number of preemptions for the current state of the branch,
    /// or `None` where that number is out of range.
    pub fn preemptions(&self) -> (r: Option<u8>)
        ensures
            match r {
                Some(n) => self.cost() == n,
                None => self.cost() > u8::MAX,
            },
    {
        if let Some(a) = self.initial_active {
            let same: bool = match self.active_thread_index() {
                Some(i) => i == a,
                None => false,
            };
            if !same {
                if self.preemptions == u8::MAX {
                    return None;
                }
                return Some(self.preemptions + 1);
            }
        }
        Some(self.preemptions)
    }

    /// Open the alternatives that a race of thread `t` asks for.
    pub fn mark(&mut self, t: usize, conservative: bool)
        requires
            t < MAX_THREADS,
        ensures
            *final(self) == old(self).marked(t as int, conservative),
    {
        broadcast use bits::group_bits;
        broadcast use lemma_slot_mask;

        let cand: u16 = if Class::Enabled.matches(self.threads[t]) {
            bits::bit(t)
        } else {
            ALL_THREADS
        };
        let skipped: u16 = cand & collect_slots(&self.threads, Class::Skip);
        let active: u16 = cand & collect_slots(&self.threads, Class::Active);
        let mut threads: Slots = self.threads;
        let mut i: usize = 0;
        while i < MAX_THREADS
            invariant
                0 <= i <= MAX_THREADS,
                forall|k: int|
                    0 <= k < MAX_THREADS ==> #[trigger] threads@[k] == if k < i && bits::holds(
                        skipped,
                        k,
                    ) {
                        Thread::Pending
                    } else {
                        self.threads@[k]
                    },
            decreases MAX_THREADS - i,
        {
            if bits::test(skipped, i) {
                threads[i] = Thread::Pending;
            }
            i += 1;
        }
        self.threads = threads;
        if conservative {
            self.conservative = self.conservative | skipped;
        } else {
            self.conservative = self.conservative & !cand;
            if active != 0 {
                self.entered_conservative = false;
            }
        }
        proof {
            lemma_slots_ext(
                self.threads,
                old(self).marked(t as int, conservative).threads,
            );
        }
    }

    /// Take thread `t` here and close every sibling.
    pub fn fix(&mut self, t: usize, conservative: bool)
        requires
            t < MAX_THREADS,
        ensures
            *final(self) == old(self).fixed_on(t as int, conservative),
    {
        let mut threads: Slots = [Thread::Visited;MAX_THREADS];
        threads[t] = Thread::Active;
        self.threads = threads;
        self.entered_conservative = conservative;
        proof {
            lemma_slots_ext(self.threads, old(self).fixed_on(t as int, conservative).threads);
        }
    }

    /// Finish the current alternative and activate the first pending one,
    /// reporting whether there was one.
    pub fn advance(&mut self) -> (r: bool)
        requires
            old(self).wf(),
        ensures
            match first_slot(old(self).threads, Class::Pending) {
                Some(i) => r && *final(self) == old(self).finished().activated(i),
                None => !r && *final(self) == old(self).finished(),
            },
    {
        let mut threads: Slots = self.threads;
        if let Some(i) = find_slot(&self.threads, Class::Active) {
            threads[i] = Thread::Visited;
        }
        self.threads = threads;
        proof {
            lemma_slots_ext(self.threads, old(self).finished().threads);
        }
        assert(first_slot(self.threads, Class::Pending) == first_slot(
            old(self).threads,
            Class::Pending,
        ));
        match find_slot(&self.threads, Class::Pending) {
            Some(i) => {
                threads[i] = Thread::Active;
                self.threads = threads;
                self.entered_conservative = bits::test(self.conservative, i);
                proof {
                    lemma_slots_ext(
                        self.threads,
                        old(self).finished().activated(i as int).threads,
                    );
                }
                true
            },
            None => false,
        }
    }
}

/// What a preemption costs: nothing where the thread that had just run goes on
/// or could not, and one where another runs in its stead.
pub proof fn a_preemption_costs_one(s: Schedule)
    ensures
        s.initial_active is None ==> s.cost() == s.preemptions,
        s.initial_active matches Some(a) ==> (s.active() == Some(a as int) ==> s.cost()
            == s.preemptions),
        s.initial_active matches Some(a) ==> (s.active() != Some(a as int) ==> s.cost()
            == s.preemptions + 1),
{
}

/// Only a spent bound refuses alternatives: without a bound none is refused,
/// and neither is one while preemptions are left, nor where the thread that had
/// just run had stopped for good.
pub proof fn only_a_spent_bound_refuses(s: Schedule, bound: u8)
    ensures
        !saturated(s, None),
        s.preemptions < bound ==> !saturated(s, Some(bound)),
        s.initial_active is None && !s.yield_seam ==> !saturated(s, Some(bound)),
        s.preemptions == bound && s.initial_active is Some ==> saturated(s, Some(bound)),
{
}

} // verus!
