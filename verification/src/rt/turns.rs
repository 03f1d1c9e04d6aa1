//! Whose turn it is.
use vstd::prelude::*;

use crate::rt::access::Access;
use crate::rt::branch::{first_slot, Class, Entry, Thread as Slot};
use crate::rt::choice::lemma_least_yielded;
use crate::rt::claims::Frozen;
use crate::rt::execution::{raced_with, ExecModel, Scheduled};
use crate::rt::fault::Fault;
use crate::rt::history::{did, Deed};
use crate::rt::laws::lemma_raced_from;
use crate::rt::path::{seeded, PathModel};
use crate::rt::thread::{Action, Operation, State, ThreadsModel};
use crate::rt::vv::VersionVec;
use crate::rt::MAX_THREADS;

verus! {

proof fn lemma_yielded_least(t: ThreadsModel, n: int)
    requires
        0 <= n <= t.threads.len(),
    ensures
        t.least_yielded(n) matches Some(j) ==> forall|i: int|
            0 <= i < n && (#[trigger] t.threads[i]).runnable() ==> t.threads[j].yield_count
                <= t.threads[i].yield_count,
    decreases n,
{
    if n > 0 {
        lemma_yielded_least(t, n - 1);
        lemma_least_yielded(t, n - 1);
    }
}

/// Where a decision opens a new branch, it lets a thread run that can: the one
/// that has just run goes on as long as it can, so that nothing is preempted
/// needlessly; otherwise it is a runnable thread that yielded least; and a
/// thread that has yielded only where no other can run.
pub proof fn a_new_branch_preempts_nobody(e: ExecModel, c: Seq<Frozen>, u: int)
    requires
        e.running(c),
        e.path.traversed(),
        0 <= u < e.threads.threads.len(),
    ensures
        e.scheduled(c) matches Ok(s) ==> (s.after.threads.active matches Some(next) ==> {
            let t = e.threads.rescued().threads;
            &&& t[next as int].runnable() || t[next as int].state is Yield
            &&& s.switch == (next != e.threads.me())
            &&& t[e.threads.me()].runnable() ==> next == e.threads.me()
            &&& t[u].runnable() ==> t[next as int].runnable()
            &&& t[u].runnable() && !t[e.threads.me()].runnable() ==> t[next as int].yield_count
                <= t[u].yield_count
        }),
{
    let t = e.threads.rescued();
    let n = t.threads.len() as int;
    lemma_raced_from(e, e.path, c, 0);
    lemma_least_yielded(t, n);
    lemma_yielded_least(t, n);
    if let Ok(s) = e.scheduled(c) {
        if let Some(next) = s.after.threads.active {
            let seed = t.seed();
            assert(first_slot(seeded(seed), Class::Active) == Some(next as int));
            if let Some(k) = t.initial() {
                assert(seed[k] == Slot::Active);
                assert forall|i: int| 0 <= i < n && i != k implies seed[i] != Slot::Active by {}
                assert(next == k);
            } else {
                assert forall|i: int| 0 <= i < n implies seed[i] != Slot::Active by {}
                assert(seed[next as int] == Slot::Yield);
            }
        }
    }
}

/// A decision changes what a thread is doing only in these ways: a thread that
/// has yielded can run again once another is chosen, and where nothing can run
/// every timed wait ends. A thread that is blocked otherwise stays blocked, and
/// one that is done stays done.
pub proof fn a_decision_wakes_only_the_yielded(e: ExecModel, c: Seq<Frozen>, u: int)
    requires
        e.running(c),
        0 <= u < e.threads.threads.len(),
    ensures
        e.scheduled(c) matches Ok(s) ==> {
            let was = e.threads.threads[u];
            let now = s.after.threads.threads[u];
            &&& s.after.threads.threads.len() == e.threads.threads.len()
            &&& now.operation == was.operation
            &&& now.causality == was.causality
            &&& was.state is Terminated ==> now.state is Terminated
            &&& was.state == (State::Blocked { timed: false }) ==> now.state == was.state
            &&& was.state == (State::Blocked { timed: true }) ==> (now.runnable()
                == e.threads.timeouts_fire()) && (!now.runnable() ==> now.state == was.state)
            &&& was.runnable() ==> now.state == was.state
            &&& was.state is Yield ==> (s.after.threads.active matches Some(next) ==> (
            now.runnable() == (next != u)))
        },
{
    if let Ok(s) = e.scheduled(c) {
        let t = e.threads.rescued();
        let was = e.threads.threads[u];
        if was.state == (State::Blocked { timed: true }) {
            assert(e.threads.threads[u].blocked_timed());
        }
        if was.runnable() {
            assert(e.threads.can_run());
        }
        if was.state is Yield {
            assert(e.threads.can_run());
        }
        assert(t.threads[u].state == was.state || (was.blocked_timed() && !e.threads.can_run()));
    }
}

/// A park blocks its thread, unless it was unparked since it last parked: then
/// the park uses that up and returns at once.
pub proof fn a_park_uses_up_an_unpark(e: ExecModel, c: Seq<Frozen>, waker: ThreadsModel, a: int)
    requires
        e.running(c),
        waker.running(),
        0 <= a < waker.threads.len(),
    ensures
        waker.threads[a].runnable() ==> waker.unparked(a).threads[a].state == (State::Runnable {
            unparked: true,
        }),
        e.threads.current().state == (State::Runnable { unparked: true }) ==> {
            &&& e.has_unpark()
            &&& did((e, c), Deed::Park { timed: false }) matches Some((n, d)) && {
                &&& n.threads.active == e.threads.active
                &&& n.threads.current().runnable()
                &&& !n.has_unpark()
            }
        },
        e.threads.current().state == (State::Runnable { unparked: false }) ==> {
            &&& !e.has_unpark()
            &&& !e.blocked(false).threads.current().runnable()
            &&& !e.blocked(true).threads.current().runnable()
            &&& e.blocked(true).threads.current().blocked_timed()
            &&& !e.blocked(false).threads.current().blocked_timed()
        },
{
    reveal(did);
}

/// A thread that ends never runs again, and has nothing left to do.
pub proof fn an_ended_thread_is_done(e: ExecModel)
    requires
        e.threads.running(),
    ensures
        ({
            let th = e.ending().threads.current();
            let other = ThreadsModel { active: None, ..e.ending().threads };
            &&& th.state is Terminated
            &&& th.operation is None
            &&& !th.runnable() && !th.blocked_timed()
            &&& other.rescued().threads[e.threads.me()].state is Terminated
            &&& th.unparked().state is Terminated
        }),
{
}

/// A branch that a decision opens knows who could have run there: a thread is
/// disabled in it exactly where it could not run and had not yielded, one that
/// had yielded is set apart, and the others, unless chosen, can be called upon.
pub proof fn a_new_branch_knows_who_can_run(e: ExecModel, c: Seq<Frozen>, u: int)
    requires
        e.running(c),
        e.path.traversed(),
        0 <= u < e.threads.threads.len(),
    ensures
        e.scheduled(c) matches Ok(s) ==> {
            let th = e.threads.rescued().threads[u];
            let q = s.after.path;
            let n = e.path.branches.len() as int;
            &&& q.branches.len() == n + 1
            &&& q.pos == n + 1
            &&& q.branches[n] matches Entry::Schedule(b) && {
                let slot = b.threads@[u];
                &&& slot == Slot::Disabled <==> !th.runnable() && !(th.state is Yield)
                &&& slot == Slot::Active <==> s.after.threads.active == Some(u as usize)
                &&& slot == Slot::Yield ==> th.state is Yield
                &&& slot == Slot::Skip ==> th.runnable()
                &&& slot != Slot::Pending && slot != Slot::Visited
                &&& b.exploring == e.path.exploring
            }
        },
{
    let t = e.threads.rescued();
    let n = t.threads.len() as int;
    lemma_raced_from(e, e.path, c, 0);
    lemma_raced_exploring(e, e.path, c, 0);
    lemma_least_yielded(t, n);
    if let Ok(s) = e.scheduled(c) {
        let seed = t.seed();
        assert(seed[u] != Slot::Pending);
        let slots = seeded(seed);
        assert(u < MAX_THREADS);
        assert(first_slot(slots, Class::Active) matches Some(k) ==> slots@[k] == Slot::Active);
        if let Some(k) = t.initial() {
            assert(seed[k] == Slot::Active);
            assert forall|i: int| 0 <= i < n && i != k implies seed[i] != Slot::Active by {}
        } else {
            assert forall|i: int| 0 <= i < n implies seed[i] != Slot::Active by {}
        }
    }
}

proof fn lemma_raced_with_exploring(
    p: PathModel,
    c: Seq<Frozen>,
    accesses: Seq<Access>,
    vv: VersionVec,
    t: int,
    k: int,
)
    ensures
        raced_with(p, c, accesses, vv, t, k).0.exploring == p.exploring,
    decreases accesses.len() - k,
{
    if k < accesses.len() {
        if accesses[k].precedes(vv) {
            lemma_raced_with_exploring(p, c, accesses, vv, t, k + 1);
        } else {
            let (p1, c1) = p.backtracked(c, accesses[k].path_id as int, t);
            lemma_raced_with_exploring(p1, c1, accesses, vv, t, k + 1);
        }
    }
}

proof fn lemma_raced_exploring(e: ExecModel, p: PathModel, c: Seq<Frozen>, i: int)
    ensures
        e.raced_from(p, c, i).0.exploring == p.exploring,
    decreases e.threads.threads.len() - i,
{
    if i < e.threads.threads.len() {
        let th = e.threads.threads[i];
        match th.operation {
            Some(op) if i == e.threads.me() || e.dpor_update == Some(op.object) => {
                let deps = e.objects[op.object as int].dependent(op.action);
                lemma_raced_with_exploring(p, c, deps, th.dpor_vv, i, 0);
                let (p1, c1) = raced_with(p, c, deps, th.dpor_vv, i, 0);
                lemma_raced_exploring(e, p1, c1, i + 1);
            },
            _ => {
                lemma_raced_exploring(e, p, c, i + 1);
            },
        }
    }
}

/// An operation is announced before its decision is made: whoever is chosen, the
/// thread's pending operation is known from then on. A read-modify-write that
/// would write bits which it does not read is refused.
pub proof fn an_operation_is_announced(e: ExecModel, c: Seq<Frozen>, object: usize, action: Action)
    requires
        e.running(c),
        object < e.objects.len(),
    ensures
        e.begun(c, object, action) matches Ok(s) ==> {
            let th = s.after.threads.threads[e.threads.me()];
            th.operation == Some(Operation { object, action })
        },
        action matches Action::Rmw { read, write } ==> (write & !read != 0 ==> e.begun(
            c,
            object,
            action,
        ) == Err::<Scheduled, Fault>(Fault::WriteOutsideRead)),
{
}

/// A yield is counted, so that those who yield less go first, and leaves nothing
/// pending.
pub proof fn a_yield_is_counted(e: ExecModel)
    requires
        e.threads.running(),
    ensures
        ({
            let (was, now) = (e.threads.current(), e.yielding().threads.current());
            &&& was.yield_count < usize::MAX ==> now.yield_count == was.yield_count + 1
            &&& now.state is Yield
            &&& now.operation is None
            &&& now.causality == was.causality
            &&& now.last_yield == Some(e.threads.version())
        }),
{
}

} // verus!
