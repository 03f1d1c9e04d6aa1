//! Walkers that keep to a program: what they remember of a branch is what the
//! program offers there, and what was passed over is not forgotten.
use vstd::prelude::*;

use super::crew::{
    a_race_opens_what_was_passed_over, begins, lemma_finished, lemma_raced, lemma_run_take, run, Crew,
    Source,
};
use super::laws::{choice_of, lemma_next_point, Choice};
use super::search::{
    a_lone_walker_is_ready, allows, alone, goes_on, is_search, led_through, lemma_grown, lemma_made,
    made, moved, reaches, records, sharding_finds_the_same_races, was_owed, Move, Program,
};
use super::shards::a_split_divides_the_tree;
use super::split::{
    lemma_drained_at_keeps, lemma_frozen_next_keeps, lemma_pending_from, lemma_sealed_to_keeps,
    lemma_splittable, pending_from, record_of, shares, split, Fixed, Split,
};
use super::{load_values, mark_keeps_the_choice, PathModel};
use crate::rt::atomic::load::ViewModel;
use crate::rt::atomic::snapshot::{
    in_order, lane_loads_never_fall_behind, lemma_fresh, Reading,
};
use crate::rt::atomic::store::ordered;
use crate::rt::bits;
use crate::rt::branch::{
    candidates, lemma_all_threads, lemma_slot_mask, saturated, Entry, Schedule, Thread,
};
use crate::rt::claims::Frozen;
use crate::rt::order::Order;
use crate::rt::MAX_THREADS;

verus! {

/// What is known of a search: the beginnings of runs that were owed at some time,
/// and the preemption bound.
pub struct Ledger {
    pub words: spec_fn(Seq<Choice>) -> bool,
    pub bound: Option<u8>,
}

impl Ledger {
    /// The runs that begin with `w` were owed at some time.
    pub open spec fn owed(self, w: Seq<Choice>) -> bool {
        (self.words)(w)
    }
}

/// The word of thread `u` at branch `j`.
pub open spec fn word_at(p: PathModel, j: int, u: int) -> Seq<Choice> {
    run(p).take(j).push(Choice::Thread(Some(u)))
}

/// What the path knows of thread `u` at branch `j` agrees with the schedule `s`
/// that the program comes to there. A thread that the program passes over is
/// still passed over, or was owed.
pub open spec fn slot_agrees(
    p: PathModel,
    c: Seq<Frozen>,
    book: Ledger,
    s: Schedule,
    j: int,
    u: int,
) -> bool {
    let was = s.threads@[u];
    if j < p.frozen.len() {
        let r = c[p.frozen[j] as int];
        &&& bits::holds(r.enabled, u) == (was != Thread::Disabled)
        &&& bits::holds(r.markable, u) ==> was == Thread::Skip
        &&& was == Thread::Skip ==> book.owed(word_at(p, j, u)) || (bits::holds(r.markable, u)
            && !bits::holds(r.open, u))
    } else {
        let is = p.schedule_at(j).threads@[u];
        &&& (is == Thread::Disabled) == (was == Thread::Disabled)
        &&& is == Thread::Skip ==> was == Thread::Skip
        &&& was == Thread::Skip ==> book.owed(word_at(p, j, u)) || is == Thread::Skip
    }
}

/// Branch `j` of the path is the one that the program comes to.
pub open spec fn agrees_at(p: PathModel, c: Seq<Frozen>, t: Program, book: Ledger, j: int) -> bool {
    match (t(run(p).take(j)), p.branches[j]) {
        (Some(Entry::Schedule(s)), Entry::Schedule(q)) => {
            &&& q.exploring == s.exploring
            &&& q.preemptions == s.preemptions
            &&& q.initial_active == s.initial_active
            &&& q.yield_seam == s.yield_seam
            &&& !s.exploring && j < p.frozen.len() ==> c[p.frozen[j] as int].markable == 0
            &&& s.exploring ==> forall|u: int|
                0 <= u < MAX_THREADS ==> #[trigger] slot_agrees(p, c, book, s, j, u)
        },
        (Some(Entry::Load(a)), Entry::Load(b)) => b.values == a.values && b.len == a.len,
        (Some(Entry::Spurious(_)), Entry::Spurious(_)) => true,
        _ => false,
    }
}

/// The path keeps to the program.
pub open spec fn faithful(p: PathModel, c: Seq<Frozen>, t: Program, book: Ledger) -> bool {
    &&& p.preemption_bound == book.bound
    &&& p.frozen.len() <= p.branches.len()
    &&& forall|j: int| 0 <= j < p.frozen.len() ==> (#[trigger] p.frozen[j]) < c.len()
    &&& forall|j: int| 0 <= j < p.branches.len() ==> #[trigger] agrees_at(p, c, t, book, j)
}

/// Nothing that is passed over is claimed.
pub open spec fn guarded(c: Seq<Frozen>) -> bool {
    forall|id: int, u: int|
        0 <= id < c.len() && 0 <= u < MAX_THREADS && bits::holds(c[id].markable, u)
            && #[trigger] bits::holds(c[id].claimed, u) ==> bits::holds(c[id].open, u)
}

/// The records of `d` say the same of those of `c`, but for what is claimed.
pub open spec fn same_records(c: Seq<Frozen>, d: Seq<Frozen>) -> bool {
    &&& c.len() <= d.len()
    &&& forall|id: int|
        0 <= id < c.len() ==> {
            let r = #[trigger] d[id];
            &&& r.markable == c[id].markable
            &&& r.enabled == c[id].enabled
            &&& r.open == c[id].open
        }
}

proof fn lemma_same_records(p: PathModel, c: Seq<Frozen>, d: Seq<Frozen>, t: Program, book: Ledger)
    requires
        faithful(p, c, t, book),
        same_records(c, d),
    ensures
        faithful(p, d, t, book),
{
    assert forall|j: int| 0 <= j < p.branches.len() implies #[trigger] agrees_at(
        p,
        d,
        t,
        book,
        j,
    ) by {
        assert(agrees_at(p, c, t, book, j));
        if let (Some(Entry::Schedule(s)), Entry::Schedule(q)) = (
            t(run(p).take(j)),
            p.branches[j],
        ) {
            if s.exploring {
                assert forall|u: int| 0 <= u < MAX_THREADS implies #[trigger] slot_agrees(
                    p,
                    d,
                    book,
                    s,
                    j,
                    u,
                ) by {
                    assert(slot_agrees(p, c, book, s, j, u));
                    if j < p.frozen.len() {
                        assert(p.frozen[j] < c.len());
                        assert(d[p.frozen[j] as int].open == c[p.frozen[j] as int].open);
                    }
                }
            }
        }
    }
}

/// A path that takes the branches of `p` before `point`, with the same records,
/// agrees there.
proof fn lemma_agrees_before(
    p: PathModel,
    q: PathModel,
    c: Seq<Frozen>,
    t: Program,
    book: Ledger,
    point: int,
    j: int,
)
    requires
        faithful(p, c, t, book),
        0 <= j < point <= p.branches.len(),
        point <= q.branches.len(),
        q.branches.take(point) == p.branches.take(point),
        j < p.frozen.len() ==> j < q.frozen.len() && q.frozen[j] == p.frozen[j],
        j >= p.frozen.len() ==> j >= q.frozen.len(),
    ensures
        agrees_at(q, c, t, book, j),
{
    lemma_run_take(p, q, point, j);
    assert(agrees_at(p, c, t, book, j));
    assert(q.branches.take(point)[j] == q.branches[j]);
    assert(p.branches.take(point)[j] == p.branches[j]);
    if let (Some(Entry::Schedule(s)), Entry::Schedule(_)) = (t(run(p).take(j)), p.branches[j]) {
        if s.exploring {
            assert forall|u: int| 0 <= u < MAX_THREADS implies #[trigger] slot_agrees(
                q,
                c,
                book,
                s,
                j,
                u,
            ) by {
                assert(slot_agrees(p, c, book, s, j, u));
                assert(word_at(q, j, u) == word_at(p, j, u));
            }
        }
    }
}

// ----- splits -----
/// Everything that a split has so far keeps to the program.
spec fn all_faithful(s: Split, t: Program, book: Ledger) -> bool {
    &&& guarded(s.claims)
    &&& faithful(s.path, s.claims, t, book)
    &&& forall|m: int|
        0 <= m < s.tasks.len() ==> faithful(#[trigger] s.tasks[m], s.claims, t, book)
}

/// The choice is one of the branch `point`.
spec fn suits(s: Split, point: int, fixed: Fixed) -> bool {
    match fixed {
        Fixed::Thread(u) => u < MAX_THREADS && s.path.branches[point] is Schedule && bits::holds(
            s.claims[s.path.frozen[point] as int].open,
            u as int,
        ),
        Fixed::Value(_) | Fixed::Rest(_) => s.path.branches[point] is Load,
        Fixed::Spurious => s.path.branches[point] is Spurious,
    }
}

proof fn lemma_taken_guarded(c: Seq<Frozen>, id: int, u: int)
    requires
        guarded(c),
        0 <= id < c.len(),
        0 <= u < MAX_THREADS,
        bits::holds(c[id].open, u),
    ensures
        guarded(c.update(id, c[id].taken(u))),
        same_records(c, c.update(id, c[id].taken(u))),
{
    broadcast use bits::group_bits;

    let d = c.update(id, c[id].taken(u));
    assert forall|i: int, v: int|
        0 <= i < d.len() && 0 <= v < MAX_THREADS && bits::holds(d[i].markable, v)
            && #[trigger] bits::holds(d[i].claimed, v) implies bits::holds(d[i].open, v) by {
        if i != id {
            assert(d[i] == c[i]);
        }
        if i != id || v != u {
            assert(bits::holds(c[i].claimed, v));
        }
    }
}

proof fn lemma_handed(s: Split, point: int, fixed: Fixed, t: Program, book: Ledger)
    requires
        all_faithful(s, t, book),
        0 <= point < s.path.frozen.len(),
        suits(s, point, fixed),
    ensures
        all_faithful(s.handed(point, fixed), t, book),
        s.handed(point, fixed).path == s.path,
        same_records(s.claims, s.handed(point, fixed).claims),
        s.handed(point, fixed).claims.len() == s.claims.len(),
{
    let n = s.handed(point, fixed);
    let id = s.path.frozen[point] as int;
    assert(s.path.frozen[point] < s.claims.len());
    if let Fixed::Thread(u) = fixed {
        lemma_taken_guarded(s.claims, id, u as int);
    }
    lemma_same_records(s.path, s.claims, n.claims, t, book);
    let q = s.path.task(n.claims, point, fixed);
    assert(q.branches.take(point) =~= s.path.branches.take(point));
    assert forall|j: int| 0 <= j < q.frozen.len() implies (#[trigger] q.frozen[j])
        < n.claims.len() by {
        assert(q.frozen[j] == s.path.frozen[j]);
    }
    assert forall|j: int| 0 <= j < q.branches.len() implies #[trigger] agrees_at(
        q,
        n.claims,
        t,
        book,
        j,
    ) by {
        if j < point {
            lemma_agrees_before(s.path, q, n.claims, t, book, point, j);
        } else {
            lemma_run_take(s.path, q, point, point);
            assert(agrees_at(s.path, n.claims, t, book, point));
            if let (Some(Entry::Schedule(e)), Entry::Schedule(_)) = (
                t(run(s.path).take(point)),
                s.path.branches[point],
            ) {
                if e.exploring {
                    assert forall|u: int| 0 <= u < MAX_THREADS implies #[trigger] slot_agrees(
                        q,
                        n.claims,
                        book,
                        e,
                        point,
                        u,
                    ) by {
                        assert(slot_agrees(s.path, n.claims, book, e, point, u));
                        assert(word_at(q, point, u) == word_at(s.path, point, u));
                    }
                }
            }
        }
    }
    assert forall|m: int| 0 <= m < n.tasks.len() implies faithful(
        #[trigger] n.tasks[m],
        n.claims,
        t,
        book,
    ) by {
        if m < s.tasks.len() {
            assert(n.tasks[m] == s.tasks[m]);
            lemma_same_records(s.tasks[m], s.claims, n.claims, t, book);
        }
    }
}

proof fn lemma_drained_at(s: Split, point: int, wanted: int, t: Program, book: Ledger)
    requires
        all_faithful(s, t, book),
        0 <= point < s.path.frozen.len(),
        forall|u: int|
            0 <= u < 16 && #[trigger] bits::holds(s.claims[s.path.frozen[point] as int].open, u)
                ==> u < MAX_THREADS && s.path.branches[point] is Schedule,
    ensures
        all_faithful(s.drained_at(point, wanted), t, book),
        same_records(s.claims, s.drained_at(point, wanted).claims),
        s.drained_at(point, wanted).claims.len() == s.claims.len(),
    decreases wanted - s.tasks.len(),
{
    broadcast use bits::group_bits;

    if s.tasks.len() < wanted {
        let r = s.claims[s.path.frozen[point] as int];
        bits::lemma_first(r.free());
        if let Some(u) = bits::first(r.free()) {
            let fixed = Fixed::Thread(u as usize);
            assert(bits::holds(r.free(), u));
            assert(bits::holds(r.open, u));
            lemma_handed(s, point, fixed, t, book);
            let n = s.handed(point, fixed);
            assert(n.claims[n.path.frozen[point] as int].open == r.open) by {
                assert(s.path.frozen[point] < s.claims.len());
            }
            lemma_drained_at(n, point, wanted, t, book);
        }
    }
}

/// Only a schedule has open alternatives.
spec fn open_at_schedules(s: Split) -> bool {
    forall|j: int, u: int|
        0 <= j < s.path.frozen.len() && 0 <= u < 16 && #[trigger] bits::holds(
            s.claims[s.path.frozen[j] as int].open,
            u,
        ) ==> u < MAX_THREADS && s.path.branches[j] is Schedule
}

proof fn lemma_drained(s: Split, point: int, wanted: int, t: Program, book: Ledger)
    requires
        all_faithful(s, t, book),
        open_at_schedules(s),
        0 <= point,
    ensures
        all_faithful(s.drained(point, wanted), t, book),
        same_records(s.claims, s.drained(point, wanted).claims),
        s.drained(point, wanted).claims.len() == s.claims.len(),
        s.drained(point, wanted).path == s.path,
    decreases s.path.frozen.len() - point,
{
    if point < s.path.frozen.len() {
        lemma_drained_at(s, point, wanted, t, book);
        lemma_drained_at_keeps(s, point, wanted);
        let n = s.drained_at(point, wanted);
        assert forall|j: int, u: int|
            0 <= j < n.path.frozen.len() && 0 <= u < 16 && #[trigger] bits::holds(
                n.claims[n.path.frozen[j] as int].open,
                u,
            ) implies u < MAX_THREADS && n.path.branches[j] is Schedule by {
            assert(s.path.frozen[j] < s.claims.len());
            assert(n.claims[s.path.frozen[j] as int].open
                == s.claims[s.path.frozen[j] as int].open);
        }
        lemma_drained(n, point + 1, wanted, t, book);
    }
}

proof fn lemma_sealed_next(s: Split, t: Program, book: Ledger)
    requires
        all_faithful(s, t, book),
        s.path.frozen.len() < s.path.branches.len(),
        s.claims.len() < usize::MAX,
    ensures
        all_faithful(s.sealed_next(), t, book),
        same_records(s.claims, s.sealed_next().claims),
{
    broadcast use bits::group_bits;
    broadcast use lemma_slot_mask;

    let n = s.sealed_next();
    let i = s.path.frozen.len() as int;
    let e = s.path.branches[i];
    let r = record_of(e, s.path.preemption_bound);
    lemma_same_records(s.path, s.claims, n.claims, t, book);
    assert forall|id: int, u: int|
        0 <= id < n.claims.len() && 0 <= u < MAX_THREADS && bits::holds(n.claims[id].markable, u)
            && #[trigger] bits::holds(n.claims[id].claimed, u) implies bits::holds(
        n.claims[id].open,
        u,
    ) by {
        if id < s.claims.len() {
            assert(n.claims[id] == s.claims[id]);
            assert(bits::holds(s.claims[id].claimed, u));
        }
    }
    assert forall|j: int| 0 <= j < n.path.frozen.len() implies (#[trigger] n.path.frozen[j])
        < n.claims.len() by {
        if j < i {
            assert(n.path.frozen[j] == s.path.frozen[j]);
        }
    }
    assert forall|j: int| 0 <= j < n.path.branches.len() implies #[trigger] agrees_at(
        n.path,
        n.claims,
        t,
        book,
        j,
    ) by {
        assert(run(n.path) =~= run(s.path));
        assert(agrees_at(s.path, n.claims, t, book, j));
        if let (Some(Entry::Schedule(x)), Entry::Schedule(_)) = (
            t(run(s.path).take(j)),
            s.path.branches[j],
        ) {
            if x.exploring {
                assert forall|u: int| 0 <= u < MAX_THREADS implies #[trigger] slot_agrees(
                    n.path,
                    n.claims,
                    book,
                    x,
                    j,
                    u,
                ) by {
                    assert(slot_agrees(s.path, n.claims, book, x, j, u));
                    assert(word_at(n.path, j, u) == word_at(s.path, j, u));
                    if j < i {
                        assert(n.path.frozen[j] == s.path.frozen[j]);
                    } else if j == i {
                        assert(n.path.frozen[j] as int == s.claims.len());
                        assert(n.claims[s.claims.len() as int] == r);
                    }
                }
            }
        }
    }
    assert forall|m: int| 0 <= m < n.tasks.len() implies faithful(
        #[trigger] n.tasks[m],
        n.claims,
        t,
        book,
    ) by {
        lemma_same_records(s.tasks[m], s.claims, n.claims, t, book);
    }
}

proof fn lemma_sealed_to(s: Split, index: int, t: Program, book: Ledger)
    requires
        all_faithful(s, t, book),
        index <= s.path.branches.len(),
        s.claims.len() + index - s.path.frozen.len() <= usize::MAX,
    ensures
        all_faithful(s.sealed_to(index), t, book),
        same_records(s.claims, s.sealed_to(index).claims),
        s.path.frozen.len() <= index ==> s.sealed_to(index).claims.len() == s.claims.len() + index
            - s.path.frozen.len(),
    decreases index - s.path.frozen.len(),
{
    if s.path.frozen.len() < index {
        lemma_sealed_next(s, t, book);
        lemma_sealed_to(s.sealed_next(), index, t, book);
        lemma_records_on(s.claims, s.sealed_next().claims, s.sealed_to(index).claims);
    }
}

proof fn lemma_records_on(a: Seq<Frozen>, b: Seq<Frozen>, c: Seq<Frozen>)
    requires
        same_records(a, b),
        same_records(b, c),
    ensures
        same_records(a, c),
{
    assert forall|id: int| 0 <= id < a.len() implies {
        let r = #[trigger] c[id];
        &&& r.markable == a[id].markable
        &&& r.enabled == a[id].enabled
        &&& r.open == a[id].open
    } by {
        assert(b[id].open == a[id].open);
    }
}

proof fn lemma_handed_all(s: Split, fixed: Seq<Fixed>, k: int, t: Program, book: Ledger)
    requires
        all_faithful(s, t, book),
        0 < s.path.frozen.len(),
        0 <= k <= fixed.len(),
        forall|i: int|
            0 <= i < fixed.len() ==> suits(s, s.path.frozen.len() - 1, #[trigger] fixed[i]),
    ensures
        all_faithful(s.handed_all(fixed, k), t, book),
        same_records(s.claims, s.handed_all(fixed, k).claims),
        s.handed_all(fixed, k).claims.len() == s.claims.len(),
    decreases fixed.len() - k,
{
    if k < fixed.len() {
        let point = s.path.frozen.len() - 1;
        let n = s.handed(point, fixed[k]);
        assert(suits(s, point, fixed[k]));
        lemma_handed(s, point, fixed[k], t, book);
        assert forall|i: int| 0 <= i < fixed.len() implies suits(
            n,
            point,
            #[trigger] fixed[i],
        ) by {
            assert(suits(s, point, fixed[i]));
            assert(s.path.frozen[point] < s.claims.len());
            assert(n.claims[s.path.frozen[point] as int].open
                == s.claims[s.path.frozen[point] as int].open);
        }
        lemma_handed_all(n, fixed, k + 1, t, book);
        lemma_records_on(s.claims, n.claims, s.handed_all(fixed, k).claims);
    }
}

proof fn lemma_frozen_next(s: Split, wanted: int, t: Program, book: Ledger)
    requires
        all_faithful(s, t, book),
        s.path.frozen.len() < s.path.branches.len(),
        s.claims.len() < usize::MAX,
        s.tasks.len() < wanted,
    ensures
        all_faithful(s.frozen_next(wanted), t, book),
        same_records(s.claims, s.frozen_next(wanted).claims),
        s.frozen_next(wanted).claims.len() == s.claims.len() + 1,
{
    broadcast use bits::group_bits;
    broadcast use lemma_slot_mask;

    let i = s.path.frozen.len() as int;
    let e = s.path.branches[i];
    let n = s.sealed_next();
    let all = shares(e, wanted - s.tasks.len());
    lemma_sealed_next(s, t, book);
    assert(n.path.frozen[i] as int == s.claims.len());
    assert(n.claims[s.claims.len() as int] == record_of(e, s.path.preemption_bound));
    assert forall|k: int| 0 <= k < all.len() implies suits(n, i, #[trigger] all[k]) by {
        if let Entry::Schedule(x) = e {
            lemma_pending_from(x.threads, 0);
            if x.exploring {
                assert(all[k] == pending_from(x.threads, 0)[k]);
            }
        }
    }
    lemma_handed_all(n, all, 0, t, book);
    lemma_records_on(s.claims, n.claims, s.frozen_next(wanted).claims);
}

proof fn lemma_carved(s: Split, wanted: int, t: Program, book: Ledger)
    requires
        all_faithful(s, t, book),
        s.claims.len() + s.path.branches.len() - s.path.frozen.len() <= usize::MAX,
    ensures
        all_faithful(s.carved(wanted), t, book),
        same_records(s.claims, s.carved(wanted).claims),
    decreases s.path.branches.len() - s.path.frozen.len(),
{
    if s.tasks.len() < wanted {
        let start = s.path.frozen.len() as int;
        lemma_splittable(s.path, s.claims, start);
        if let Some(index) = s.path.splittable(s.claims, start) {
            let mid = s.sealed_to(index);
            lemma_sealed_to(s, index, t, book);
            lemma_sealed_to_keeps(s, index);
            lemma_frozen_next(mid, wanted, t, book);
            lemma_frozen_next_keeps(mid, wanted);
            let n = mid.frozen_next(wanted);
            lemma_carved(n, wanted, t, book);
            lemma_records_on(s.claims, mid.claims, n.claims);
            lemma_records_on(s.claims, n.claims, s.carved(wanted).claims);
        }
    }
}

proof fn lemma_split(p: PathModel, c: Seq<Frozen>, wanted: int, t: Program, book: Ledger)
    requires
        guarded(c),
        p.inv(c),
        faithful(p, c, t, book),
        c.len() + p.branches.len() <= usize::MAX,
    ensures
        all_faithful(split(p, c, wanted), t, book),
        same_records(c, split(p, c, wanted).claims),
{
    let s = Split { path: p, claims: c, tasks: Seq::empty() };
    assert(open_at_schedules(s)) by {
        broadcast use bits::group_bits;

        assert forall|j: int, u: int|
            0 <= j < p.frozen.len() && 0 <= u < 16 && #[trigger] bits::holds(
                c[p.frozen[j] as int].open,
                u,
            ) implies u < MAX_THREADS && p.branches[j] is Schedule by {
            assert(p.frozen[j] < c.len());
            let r = c[p.frozen[j] as int];
            assert(r.wf());
            if !r.origin@.schedule {
                assert(r.open == 0);
            }
        }
    }
    lemma_drained(s, 0, wanted, t, book);
    let n = s.drained(0, wanted);
    lemma_carved(n, wanted, t, book);
    lemma_records_on(c, n.claims, split(p, c, wanted).claims);
}

// ----- crews -----
/// Every walker of the crew keeps to the program.
pub open spec fn keeps_to(c: Crew, t: Program, book: Ledger) -> bool {
    &&& guarded(c.claims)
    &&& forall|k: int| #[trigger] c.walks(k) ==> faithful(c.at(k), c.claims, t, book)
}

/// What was owed is still counted, and so is what the crew owes.
pub open spec fn counts(book: Ledger, later: Ledger, n: Crew) -> bool {
    &&& later.bound == book.bound
    &&& forall|w: Seq<Choice>| book.owed(w) || n.debt(w) ==> #[trigger] later.owed(w)
}

/// More that was owed is no harm.
proof fn lemma_more_owed(p: PathModel, c: Seq<Frozen>, t: Program, book: Ledger, later: Ledger)
    requires
        faithful(p, c, t, book),
        later.bound == book.bound,
        forall|w: Seq<Choice>| book.owed(w) ==> #[trigger] later.owed(w),
    ensures
        faithful(p, c, t, later),
{
    assert forall|j: int| 0 <= j < p.branches.len() implies #[trigger] agrees_at(
        p,
        c,
        t,
        later,
        j,
    ) by {
        assert(agrees_at(p, c, t, book, j));
        if let (Some(Entry::Schedule(s)), Entry::Schedule(_)) = (
            t(run(p).take(j)),
            p.branches[j],
        ) {
            if s.exploring {
                assert forall|u: int| 0 <= u < MAX_THREADS implies #[trigger] slot_agrees(
                    p,
                    c,
                    later,
                    s,
                    j,
                    u,
                ) by {
                    assert(slot_agrees(p, c, book, s, j, u));
                    assert(book.owed(word_at(p, j, u)) ==> later.owed(word_at(p, j, u)));
                }
            }
        }
    }
}

proof fn lemma_grown_keeps(c: Crew, k: int, e: Entry, t: Program, book: Ledger)
    requires
        keeps_to(c, t, book),
        c.walks(k),
        t(run(c.at(k))) == Some(e),
    ensures
        keeps_to(c.grown(k, e), t, book),
{
    let n = c.grown(k, e);
    let p = c.at(k);
    let q = n.at(k);
    let len = p.branches.len() as int;
    assert(faithful(p, c.claims, t, book));
    assert(q.branches.take(len) =~= p.branches.take(len));
    assert forall|j: int| 0 <= j < q.branches.len() implies #[trigger] agrees_at(
        q,
        n.claims,
        t,
        book,
        j,
    ) by {
        if j < len {
            lemma_agrees_before(p, q, c.claims, t, book, len, j);
        } else {
            lemma_run_take(p, q, len, len);
            assert(run(p).take(len) =~= run(p));
            if let Entry::Schedule(s) = e {
                if s.exploring {
                    assert forall|u: int| 0 <= u < MAX_THREADS implies #[trigger] slot_agrees(
                        q,
                        n.claims,
                        book,
                        s,
                        j,
                        u,
                    ) by {}
                }
            }
        }
    }
    assert forall|m: int| #[trigger] n.walks(m) implies faithful(n.at(m), n.claims, t, book) by {
        assert(c.walks(m));
    }
}

proof fn lemma_finished_keeps(c: Crew, k: int, t: Program, book: Ledger)
    requires
        c.wf(),
        keeps_to(c, t, book),
        c.walks(k),
    ensures
        keeps_to(c.finished(k), t, book),
{
    broadcast use bits::group_bits;

    let n = c.finished(k);
    let p = c.at(k);
    let len = p.branches.len() as int;
    assert(p.inv(c.claims));
    assert(faithful(p, c.claims, t, book));
    lemma_next_point(p, c.claims, len);
    if let Some((q, d)) = p.stepped(c.claims) {
        let i = p.next_point(c.claims, len)->Some_0;
        if i < p.frozen.len() {
            let id = p.frozen[i] as int;
            let r = c.claims[id];
            assert(p.frozen[i] < c.claims.len());
            bits::lemma_first(r.free());
            let u = bits::first(r.free())->Some_0;
            assert(bits::holds(r.free(), u));
            assert(r.wf());
            lemma_taken_guarded(c.claims, id, u);
        }
        assert(q.branches.take(i) =~= p.branches.take(i));
        lemma_same_records(p, c.claims, d, t, book);
        assert forall|j: int| 0 <= j < q.branches.len() implies #[trigger] agrees_at(
            q,
            d,
            t,
            book,
            j,
        ) by {
            if j < i {
                lemma_agrees_before(p, q, d, t, book, i, j);
            } else {
                lemma_run_take(p, q, i, i);
                assert(agrees_at(p, d, t, book, i));
                if let (Some(Entry::Schedule(s)), Entry::Schedule(x)) = (
                    t(run(p).take(i)),
                    p.branches[i],
                ) {
                    if s.exploring {
                        assert forall|u: int| 0 <= u < MAX_THREADS implies #[trigger] slot_agrees(
                            q,
                            d,
                            book,
                            s,
                            i,
                            u,
                        ) by {
                            assert(slot_agrees(p, d, book, s, i, u));
                            assert(word_at(q, i, u) == word_at(p, i, u));
                        }
                    }
                }
            }
        }
        assert(faithful(q, d, t, book));
        assert forall|m: int| #[trigger] n.walks(m) implies faithful(
            n.at(m),
            n.claims,
            t,
            book,
        ) by {
            if m != k {
                assert(c.walks(m));
                lemma_same_records(c.at(m), c.claims, d, t, book);
            }
        }
    } else {
        assert forall|m: int| #[trigger] n.walks(m) implies faithful(
            n.at(m),
            n.claims,
            t,
            book,
        ) by {
            assert(c.walks(m));
        }
    }
}

proof fn lemma_divided_keeps(c: Crew, k: int, wanted: int, t: Program, book: Ledger)
    requires
        c.wf(),
        keeps_to(c, t, book),
        c.walks(k),
        c.claims.len() + c.at(k).branches.len() <= usize::MAX,
    ensures
        keeps_to(c.divided(k, wanted), t, book),
{
    let n = c.divided(k, wanted);
    let p = c.at(k);
    let s = split(p, c.claims, wanted);
    assert(p.inv(c.claims));
    assert(faithful(p, c.claims, t, book));
    lemma_split(p, c.claims, wanted, t, book);
    assert forall|m: int| #[trigger] n.walks(m) implies faithful(n.at(m), n.claims, t, book) by {
        if m == k {
            assert(n.at(m) == s.path);
        } else if m < c.paths.len() {
            assert(c.walks(m) && n.at(m) == c.at(m));
            lemma_same_records(c.at(m), c.claims, s.claims, t, book);
        } else {
            assert(n.at(m) == s.tasks[m - c.paths.len()]);
        }
    }
}

// ----- races -----
/// A race of thread `r` on the branch asks for thread `u`, which is passed over
/// there: for itself, or for everyone where it cannot run.
pub open spec fn asks(e: Entry, bound: Option<u8>, r: int, u: int) -> bool {
    &&& e matches Entry::Schedule(s)
    &&& s.exploring
    &&& !saturated(s, bound)
    &&& 0 <= r < MAX_THREADS
    &&& 0 <= u < MAX_THREADS
    &&& s.threads@[u] == Thread::Skip
    &&& u == r || s.threads@[r] == Thread::Disabled
}

/// The masks and slots that a race changes, at an owned branch.
proof fn lemma_marked_slot(s: Schedule, r: int, u: int, conservative: bool)
    requires
        0 <= r < MAX_THREADS,
        0 <= u < MAX_THREADS,
    ensures
        ({
            let was = s.threads@[u];
            let asked = u == r || s.threads@[r] == Thread::Disabled;
            s.marked(r, conservative).threads@[u] == if was == Thread::Skip && asked {
                Thread::Pending
            } else {
                was
            }
        }),
{
    broadcast use bits::group_bits;
    broadcast use lemma_slot_mask;

    lemma_all_threads(u);
}

/// The bits that a race opens, at a frozen branch.
proof fn lemma_opened_bit(f: Frozen, r: int, u: int, conservative: bool)
    requires
        0 <= r < MAX_THREADS,
        0 <= u < 16,
    ensures
        ({
            let enabled = bits::holds(f.enabled, r);
            let n = f.opened(candidates(enabled, r) & f.markable, conservative);
            let asked = bits::holds(f.markable, u) && (u == r || (!enabled && u < MAX_THREADS));
            &&& n.markable == f.markable
            &&& n.enabled == f.enabled
            &&& n.claimed == f.claimed
            &&& bits::holds(n.open, u) == (bits::holds(f.open, u) || asked)
        }),
{
    broadcast use bits::group_bits;

    lemma_all_threads(u);
    let mask = candidates(bits::holds(f.enabled, r), r) & f.markable;
    bits::lemma_empty(mask);
}

/// A race at a branch that the walker owns.
proof fn lemma_raced_own(
    c: Crew,
    k: int,
    i: int,
    r: int,
    conservative: bool,
    t: Program,
    book: Ledger,
    later: Ledger,
)
    requires
        keeps_to(c, t, book),
        c.walks(k),
        c.at(k).frozen.len() <= i < c.at(k).branches.len(),
        c.at(k).branches[i] is Schedule,
        0 <= r < MAX_THREADS,
        !saturated(c.at(k).schedule_at(i), c.at(k).preemption_bound),
        counts(book, later, c.raced(k, i, r, conservative)),
    ensures
        keeps_to(c.raced(k, i, r, conservative), t, later),
{
    let n = c.raced(k, i, r, conservative);
    let p = c.at(k);
    let q = n.at(k);
    assert(faithful(p, c.claims, t, book));
    assert(n.walks(k));
    mark_keeps_the_choice(p.schedule_at(i), r, conservative);
    assert(run(q) =~= run(p));
    assert forall|j: int| 0 <= j < q.branches.len() implies #[trigger] agrees_at(
        q,
        n.claims,
        t,
        later,
        j,
    ) by {
        assert(agrees_at(p, c.claims, t, book, j));
        if let (Some(Entry::Schedule(s)), Entry::Schedule(_)) = (
            t(run(p).take(j)),
            p.branches[j],
        ) {
            if s.exploring {
                assert forall|u: int| 0 <= u < MAX_THREADS implies #[trigger] slot_agrees(
                    q,
                    n.claims,
                    later,
                    s,
                    j,
                    u,
                ) by {
                    assert(slot_agrees(p, c.claims, book, s, j, u));
                    assert(word_at(q, j, u) == word_at(p, j, u));
                    assert(book.owed(word_at(p, j, u)) ==> later.owed(word_at(p, j, u)));
                    if j == i {
                        lemma_marked_slot(p.schedule_at(i), r, u, conservative);
                        if q.schedule_at(i).threads@[u] == Thread::Pending {
                            let source = Source::Own(k, i, Choice::Thread(Some(u)));
                            assert(n.owes(source) && n.word(source) == word_at(q, i, u));
                            assert(n.debt(word_at(q, i, u)));
                            assert(later.owed(word_at(q, i, u)));
                        }
                    }
                }
            }
        }
    }
    assert forall|m: int| #[trigger] n.walks(m) implies faithful(n.at(m), n.claims, t, later) by {
        if m != k {
            assert(c.walks(m));
            lemma_more_owed(c.at(m), c.claims, t, book, later);
        }
    }
}

/// A race at a branch that the walker shares.
proof fn lemma_raced_shared(
    c: Crew,
    k: int,
    i: int,
    r: int,
    conservative: bool,
    t: Program,
    book: Ledger,
    later: Ledger,
)
    requires
        c.wf(),
        keeps_to(c, t, book),
        c.walks(k),
        0 <= i < c.at(k).frozen.len(),
        c.at(k).branches[i] is Schedule,
        0 <= r < MAX_THREADS,
        !saturated(c.at(k).schedule_at(i), c.at(k).preemption_bound),
        counts(book, later, c.raced(k, i, r, conservative)),
    ensures
        keeps_to(c.raced(k, i, r, conservative), t, later),
{
    broadcast use bits::group_bits;

    let n = c.raced(k, i, r, conservative);
    let p = c.at(k);
    let id = p.frozen[i] as int;
    let f = c.claims[id];
    assert(faithful(p, c.claims, t, book));
    assert(p.frozen[i] < c.claims.len());
    let g = n.claims[id];
    assert forall|u: int| 0 <= u < 16 implies {
        &&& g.markable == f.markable
        &&& g.enabled == f.enabled
        &&& g.claimed == f.claimed
        &&& bits::holds(f.open, u) ==> #[trigger] bits::holds(g.open, u)
        &&& bits::holds(g.open, u) && !bits::holds(f.open, u) ==> bits::holds(f.markable, u)
    } by {
        lemma_opened_bit(f, r, u, conservative);
    }
    assert(bits::holds(g.open, 0) || !bits::holds(g.open, 0));
    assert forall|d: int, u: int|
        0 <= d < n.claims.len() && 0 <= u < MAX_THREADS && bits::holds(n.claims[d].markable, u)
            && #[trigger] bits::holds(n.claims[d].claimed, u) implies bits::holds(
        n.claims[d].open,
        u,
    ) by {
        assert(bits::holds(c.claims[d].claimed, u));
        assert(bits::holds(c.claims[d].open, u));
    }
    assert forall|m: int| #[trigger] n.walks(m) implies faithful(n.at(m), n.claims, t, later) by {
        assert(c.walks(m));
        let q = c.at(m);
        assert(n.at(m) == q);
        assert(faithful(q, c.claims, t, book));
        assert forall|j: int| 0 <= j < q.branches.len() implies #[trigger] agrees_at(
            q,
            n.claims,
            t,
            later,
            j,
        ) by {
            assert(agrees_at(q, c.claims, t, book, j));
            if let (Some(Entry::Schedule(s)), Entry::Schedule(_)) = (
                t(run(q).take(j)),
                q.branches[j],
            ) {
                if s.exploring {
                    assert forall|u: int| 0 <= u < MAX_THREADS implies #[trigger] slot_agrees(
                        q,
                        n.claims,
                        later,
                        s,
                        j,
                        u,
                    ) by {
                        assert(slot_agrees(q, c.claims, book, s, j, u));
                        assert(book.owed(word_at(q, j, u)) ==> later.owed(word_at(q, j, u)));
                        if j < q.frozen.len() && q.frozen[j] == id {
                            assert(c.holds(m, j, id));
                            if bits::holds(g.open, u) && !bits::holds(f.open, u) {
                                assert(!bits::holds(f.claimed, u));
                                let source = Source::Shared(id, u);
                                assert(bits::holds(g.free(), u));
                                assert(n.owes(source) && n.word(source) == word_at(q, j, u));
                                assert(n.debt(word_at(q, j, u)));
                                assert(later.owed(word_at(q, j, u)));
                            }
                        }
                    }
                }
            }
        }
    }
}

proof fn lemma_raced_keeps(
    c: Crew,
    k: int,
    i: int,
    r: int,
    conservative: bool,
    t: Program,
    book: Ledger,
    later: Ledger,
)
    requires
        c.wf(),
        keeps_to(c, t, book),
        c.walks(k),
        0 <= i < c.at(k).branches.len(),
        c.at(k).branches[i] is Schedule,
        0 <= r,
        counts(book, later, c.raced(k, i, r, conservative)),
    ensures
        keeps_to(c.raced(k, i, r, conservative), t, later),
{
    let p = c.at(k);
    if r >= MAX_THREADS || saturated(p.schedule_at(i), p.preemption_bound) {
        let n = c.raced(k, i, r, conservative);
        assert(n.paths =~= c.paths);
        assert forall|m: int| #[trigger] n.walks(m) implies faithful(
            n.at(m),
            n.claims,
            t,
            later,
        ) by {
            assert(c.walks(m));
            lemma_more_owed(c.at(m), c.claims, t, book, later);
        }
    } else if i < p.frozen.len() {
        lemma_raced_shared(c, k, i, r, conservative, t, book, later);
    } else {
        lemma_raced_own(c, k, i, r, conservative, t, book, later);
    }
}

/// What a race makes the crew owe is what it asks for.
proof fn lemma_race_opens(
    c: Crew,
    k: int,
    i: int,
    r: int,
    conservative: bool,
    t: Program,
    book: Ledger,
    w: Seq<Choice>,
) -> (u: int)
    requires
        c.wf(),
        keeps_to(c, t, book),
        c.walks(k),
        0 <= i < c.at(k).branches.len(),
        c.at(k).branches[i] is Schedule,
        0 <= r,
        c.raced(k, i, r, conservative).debt(w),
        !c.debt(w),
    ensures
        t(run(c.at(k)).take(i)) matches Some(e) && asks(e, book.bound, r, u),
        w == word_at(c.at(k), i, u),
{
    broadcast use bits::group_bits;

    let n = c.raced(k, i, r, conservative);
    let p = c.at(k);
    let q = n.at(k);
    let source = choose|source: Source| #[trigger] n.owes(source) && n.word(source) == w;
    assert(faithful(p, c.claims, t, book));
    assert(agrees_at(p, c.claims, t, book, i));
    if r >= MAX_THREADS || saturated(p.schedule_at(i), p.preemption_bound) {
        assert(n.paths =~= c.paths);
        assert(c.owes(source) && c.word(source) == w);
    } else {
        mark_keeps_the_choice(p.schedule_at(i), r, conservative);
    }
    assert(run(q) =~= run(p));
    match source {
        Source::Current(m) => {
            assert(c.walks(m));
            assert(c.owes(source) && c.word(source) == w);
            arbitrary()
        },
        Source::Own(m, j, a) => {
            assert(c.walks(m));
            if m == k && j == i {
                let u = a->Thread_0->Some_0;
                lemma_marked_slot(p.schedule_at(i), r, u, conservative);
                if p.schedule_at(i).threads@[u] == Thread::Pending {
                    assert(c.owes(source) && c.word(source) == w);
                }
                let s = t(run(p).take(i))->Some_0->Schedule_0;
                assert(slot_agrees(p, c.claims, book, s, i, u));
                assert(slot_agrees(p, c.claims, book, s, i, r));
                u
            } else {
                if m == k {
                    assert(q.branches[j] == p.branches[j]);
                }
                assert(c.owes(source) && c.word(source) == w);
                arbitrary()
            }
        },
        Source::Shared(d, u) => {
            if i < p.frozen.len() && d == p.frozen[i] {
                let f = c.claims[d];
                lemma_opened_bit(f, r, u, conservative);
                assert(c.holds(k, i, d));
                if bits::holds(f.open, u) {
                    assert(bits::holds(f.free(), u));
                    assert(c.owes(source) && c.word(source) == w);
                }
                assert(f.wf());
                let s = t(run(p).take(i))->Some_0->Schedule_0;
                bits::lemma_none(u);
                assert(s.exploring);
                assert(slot_agrees(p, c.claims, book, s, i, u));
                assert(slot_agrees(p, c.claims, book, s, i, r));
                u
            } else {
                assert(c.owes(source) && c.word(source) == w);
                arbitrary()
            }
        },
        _ => {
            assert(c.owes(source) && c.word(source) == w);
            arbitrary()
        },
    }
}

// ----- searches -----
/// What was owed in the first `i` moves.
pub open spec fn ledger(h: Seq<Crew>, i: int, bound: Option<u8>) -> Ledger {
    Ledger {
        words: |w: Seq<Choice>| exists|j: int| 0 <= j <= i && #[trigger] h[j].debt(w),
        bound,
    }
}

/// In a search that begins so, all walkers keep to the program at all times.
proof fn lemma_search_keeps(h: Seq<Crew>, t: Program, moves: Seq<Move>, bound: Option<u8>, i: int)
    requires
        led_through(h, t, moves),
        h[0].ready(),
        keeps_to(h[0], t, ledger(h, 0, bound)),
        0 <= i < h.len(),
    ensures
        keeps_to(h[i], t, ledger(h, i, bound)),
    decreases i,
{
    if i > 0 {
        let c = h[i - 1];
        let n = h[i];
        let book = ledger(h, i - 1, bound);
        let later = ledger(h, i, bound);
        lemma_search_keeps(h, t, moves, bound, i - 1);
        lemma_made(h, t, moves, i - 1, Seq::empty());
        assert(moved(c, t, moves[i - 1]) is Some);
        assert(h[i - 1 + 1] == n);
        assert(counts(book, later, n)) by {
            assert forall|w: Seq<Choice>| book.owed(w) || n.debt(w) implies #[trigger] later.owed(
                w,
            ) by {
                if book.owed(w) {
                    let j = choose|j: int| 0 <= j <= i - 1 && #[trigger] h[j].debt(w);
                    assert(0 <= j <= i && h[j].debt(w));
                } else {
                    assert(h[i].debt(w));
                }
            }
        }
        match moves[i - 1] {
            Move::Grow(k) => {
                lemma_grown_keeps(c, k, t(run(c.at(k)))->Some_0, t, book);
                lemma_crew_more_owed(n, t, book, later);
            },
            Move::Finish(k) => {
                lemma_finished_keeps(c, k, t, book);
                lemma_crew_more_owed(n, t, book, later);
            },
            Move::Split(k, wanted) => {
                lemma_divided_keeps(c, k, wanted, t, book);
                lemma_crew_more_owed(n, t, book, later);
            },
            Move::Race { walker, branch, thread, conservative } => {
                lemma_raced_keeps(c, walker, branch, thread, conservative, t, book, later);
            },
        }
    }
}

proof fn lemma_crew_more_owed(c: Crew, t: Program, book: Ledger, later: Ledger)
    requires
        keeps_to(c, t, book),
        counts(book, later, c),
    ensures
        keeps_to(c, t, later),
{
    assert forall|k: int| #[trigger] c.walks(k) implies faithful(c.at(k), c.claims, t, later) by {
        lemma_more_owed(c.at(k), c.claims, t, book, later);
    }
}

/// What a search owes, some run begins with.
proof fn lemma_debt_reaches(
    h: Seq<Crew>,
    t: Program,
    moves: Seq<Move>,
    i: int,
    w: Seq<Choice>,
) -> (r: Seq<Choice>)
    requires
        is_search(h, t, moves),
        h[0].ready(),
        0 <= i < h.len(),
        h[i].debt(w),
    ensures
        reaches(t, w, r),
    decreases h.len() - i,
{
    let c = h[i];
    lemma_made(h, t, moves, i, Seq::empty());
    if i == moves.len() {
        let s = choose|s: Source| #[trigger] c.owes(s) && c.word(s) == w;
        assert(h.last() == c);
        match s {
            Source::Current(k) => {
                assert(!h.last().walks(k));
            },
            Source::Own(k, _, _) => {
                assert(!h.last().walks(k));
            },
            Source::Shared(id, _) => {
                let (k, j) = choose|k: int, j: int| c.holds(k, j, id);
                assert(!h.last().walks(k));
            },
            _ => {},
        }
        w
    } else {
        let n = h[i + 1];
        assert(moved(c, t, moves[i]) is Some);
        if n.debt(w) {
            lemma_debt_reaches(h, t, moves, i + 1, w)
        } else {
            match moves[i] {
                Move::Grow(k) => {
                    let e = t(run(c.at(k)))->Some_0;
                    lemma_grown(c, k, e);
                    let a = choice_of(e);
                    assert(w == run(c.at(k)));
                    assert(allows(e, a));
                    assert(n.debt(w.push(a)));
                    let r = lemma_debt_reaches(h, t, moves, i + 1, w.push(a));
                    let len = w.len() as int;
                    assert(r.take(len) =~= r.take(len + 1).take(len));
                    assert(w.push(a).take(len) =~= w);
                    assert(r.take(len + 1)[len] == r[len]);
                    assert(goes_on(t, r, len));
                    r
                },
                Move::Finish(k) => {
                    lemma_finished(c, k);
                    assert(w == run(c.at(k)));
                    assert(w.take(w.len() as int) =~= w);
                    w
                },
                Move::Split(k, wanted) => {
                    a_split_divides_the_tree(c, k, wanted);
                    w
                },
                Move::Race { walker, branch, thread, conservative } => {
                    lemma_raced(c, walker, branch, thread, conservative);
                    w
                },
            }
        }
    }
}

/// The races of a program: those that are found when it has come so far, each of
/// a thread with an access at an earlier branch.
pub type Races = spec_fn(Seq<Choice>) -> Set<(int, int)>;

/// A race that run `r` finds in its first `m` steps, of thread `u` at branch `j`,
/// asks for thread `v`, and so for the runs that begin with `w`.
pub open spec fn finds(
    t: Program,
    races: Races,
    bound: Option<u8>,
    r: Seq<Choice>,
    w: Seq<Choice>,
    m: int,
    j: int,
    u: int,
    v: int,
) -> bool {
    &&& 0 <= j < m <= r.len()
    &&& races(r.take(m)).contains((j, u))
    &&& t(r.take(j)) matches Some(e) && asks(e, bound, u, v)
    &&& w == r.take(j).push(Choice::Thread(Some(v)))
}

/// What the races of a run ask for.
pub open spec fn asked_by(
    t: Program,
    races: Races,
    bound: Option<u8>,
    r: Seq<Choice>,
) -> Set<Seq<Choice>> {
    Set::new(
        |w: Seq<Choice>|
            exists|m: int, j: int, u: int, v: int| finds(t, races, bound, r, w, m, j, u, v),
    )
}

/// A walker that has come as far as `w` recorded a race of thread `u` at branch
/// `j`.
pub open spec fn recorded(
    h: Seq<Crew>,
    moves: Seq<Move>,
    w: Seq<Choice>,
    j: int,
    u: int,
) -> bool {
    exists|i: int|
        0 <= i < moves.len() && (#[trigger] moves[i] matches Move::Race {
            walker,
            branch,
            thread,
            ..
        } && branch == j && thread == u && begins(w, run(h[i].at(walker))))
}

/// The walkers record the races of the program, when they come to them: what a
/// walker records is a race of its run so far, and each race of a run that is
/// made was recorded by a walker that had come so far.
pub open spec fn thorough(h: Seq<Crew>, t: Program, moves: Seq<Move>, races: Races) -> bool {
    &&& forall|i: int|
        0 <= i < moves.len() ==> (#[trigger] moves[i] matches Move::Race {
            walker,
            branch,
            thread,
            ..
        } ==> exists|m: int|
            branch < m <= run(h[i].at(walker)).len() && (#[trigger] races(
                run(h[i].at(walker)).take(m),
            )).contains((branch, thread)))
    &&& forall|r: Seq<Choice>, m: int, j: int, u: int|
        made(h, t, moves, moves.len() as int).contains(r) && 0 <= j < m <= r.len()
            && #[trigger] races(r.take(m)).contains((j, u)) ==> recorded(
            h,
            moves,
            r.take(m),
            j,
            u,
        )
}

/// A race that was recorded has what it asks for owed.
proof fn lemma_recorded_is_owed(
    h: Seq<Crew>,
    t: Program,
    moves: Seq<Move>,
    races: Races,
    bound: Option<u8>,
    r: Seq<Choice>,
    w: Seq<Choice>,
    m: int,
    j: int,
    u: int,
    v: int,
)
    requires
        led_through(h, t, moves),
        h[0].ready(),
        keeps_to(h[0], t, ledger(h, 0, bound)),
        finds(t, races, bound, r, w, m, j, u, v),
        recorded(h, moves, r.take(m), j, u),
    ensures
        was_owed(h, w),
{
    let i = choose|i: int|
        0 <= i < moves.len() && (#[trigger] moves[i] matches Move::Race {
            walker,
            branch,
            thread,
            ..
        } && branch == j && thread == u && begins(r.take(m), run(h[i].at(walker))));
    let c = h[i];
    let k = moves[i]->walker;
    let conservative = moves[i]->conservative;
    let p = c.at(k);
    assert(moved(c, t, moves[i]) is Some);
    lemma_made(h, t, moves, i, Seq::empty());
    lemma_search_keeps(h, t, moves, bound, i);
    assert(c.walks(k));
    assert(faithful(p, c.claims, t, ledger(h, i, bound)));
    assert(run(p).take(j) =~= r.take(j)) by {
        assert(run(p).take(m) == r.take(m)) by {
            assert(r.take(m).len() == m);
        }
        assert(run(p).take(m).take(j) =~= run(p).take(j));
        assert(r.take(m).take(j) =~= r.take(j));
    }
    assert(w == word_at(p, j, v));
    assert(agrees_at(p, c.claims, t, ledger(h, i, bound), j));
    let s = t(r.take(j))->Some_0->Schedule_0;
    assert(slot_agrees(p, c.claims, ledger(h, i, bound), s, j, v));
    assert(slot_agrees(p, c.claims, ledger(h, i, bound), s, j, u));
    if ledger(h, i, bound).owed(w) {
        let q = choose|q: int| 0 <= q <= i && #[trigger] h[q].debt(w);
        assert(h[q].debt(w));
    } else {
        if j < p.frozen.len() {
            let id = p.frozen[j] as int;
            assert(p.frozen[j] < c.claims.len());
            if bits::holds(c.claims[id].claimed, v) {
                assert(bits::holds(c.claims[id].open, v));
            }
        }
        a_race_opens_what_was_passed_over(c, k, j, u, v, conservative);
        assert(h[i + 1].debt(w));
    }
}

proof fn lemma_thorough_records(
    h: Seq<Crew>,
    t: Program,
    moves: Seq<Move>,
    races: Races,
    bound: Option<u8>,
)
    requires
        is_search(h, t, moves),
        h[0].ready(),
        keeps_to(h[0], t, ledger(h, 0, bound)),
        thorough(h, t, moves, races),
    ensures
        records(h, t, moves, |r: Seq<Choice>| asked_by(t, races, bound, r)),
{
    let opens = |r: Seq<Choice>| asked_by(t, races, bound, r);
    assert forall|i: int| 0 <= i < moves.len() implies (
    #[trigger] moves[i] matches Move::Race { walker, .. } ==> exists|r: Seq<Choice>|
        {
            &&& #[trigger] reaches(t, run(h[i].at(walker)), r)
            &&& forall|w: Seq<Choice>| #[trigger]
                h[i + 1].debt(w) && !h[i].debt(w) ==> opens(r).contains(w)
        }) by {
        if let Move::Race { walker, branch, thread, conservative } = moves[i] {
            let c = h[i];
            let here = run(c.at(walker));
            assert(moved(c, t, moves[i]) is Some);
            lemma_made(h, t, moves, i, Seq::empty());
            lemma_search_keeps(h, t, moves, bound, i);
            assert(c.owes(Source::Current(walker)));
            assert(c.debt(here));
            let r = lemma_debt_reaches(h, t, moves, i, here);
            let m = choose|m: int|
                branch < m <= here.len() && (#[trigger] races(here.take(m))).contains(
                    (branch, thread),
                );
            assert(r.take(m) =~= r.take(here.len() as int).take(m));
            assert(r.take(branch) =~= r.take(here.len() as int).take(branch));
            assert forall|w: Seq<Choice>| #[trigger] h[i + 1].debt(w) && !h[i].debt(w) implies opens(
                r,
            ).contains(w) by {
                let v = lemma_race_opens(
                    c,
                    walker,
                    branch,
                    thread,
                    conservative,
                    t,
                    ledger(h, i, bound),
                    w,
                );
                assert(finds(t, races, bound, r, w, m, branch, thread, v));
            }
            assert(reaches(t, run(h[i].at(walker)), r));
        }
    }
    assert forall|r: Seq<Choice>, w: Seq<Choice>|
        made(h, t, moves, moves.len() as int).contains(r) && #[trigger] opens(r).contains(
            w,
        ) implies was_owed(h, w) by {
        let (m, j, u, v) = choose|m: int, j: int, u: int, v: int|
            finds(t, races, bound, r, w, m, j, u, v);
        assert(races(r.take(m)).contains((j, u)));
        lemma_recorded_is_owed(h, t, moves, races, bound, r, w, m, j, u, v);
    }
}

/// A sharded run walks the tree of the serial run: two searches from the root of
/// a program, however each is divided among walkers and in whatever order they
/// walk, make the same runs, each once, at every preemption bound. All that the
/// walkers have to do is to record the races of the program as they come to
/// them.
pub proof fn sharding_walks_the_tree_of_a_serial_run(
    h: Seq<Crew>,
    moves: Seq<Move>,
    other: Seq<Crew>,
    others: Seq<Move>,
    t: Program,
    races: Races,
    p: PathModel,
)
    requires
        p.inv(Seq::<Frozen>::empty()),
        p.branches.len() == 0,
        h[0] == alone(p),
        other[0] == alone(p),
        is_search(h, t, moves),
        is_search(other, t, others),
        thorough(h, t, moves, races),
        thorough(other, t, others, races),
    ensures
        made(h, t, moves, moves.len() as int).to_set() == made(
            other,
            t,
            others,
            others.len() as int,
        ).to_set(),
        made(h, t, moves, moves.len() as int).len() == made(
            other,
            t,
            others,
            others.len() as int,
        ).len(),
{
    let bound = p.preemption_bound;
    let c = alone(p);
    a_lone_walker_is_ready(p);
    assert forall|k: int| #[trigger] c.walks(k) implies faithful(
        c.at(k),
        c.claims,
        t,
        ledger(h, 0, bound),
    ) && faithful(c.at(k), c.claims, t, ledger(other, 0, bound)) by {
        assert(c.at(k) == p);
    }
    lemma_thorough_records(h, t, moves, races, bound);
    lemma_thorough_records(other, t, others, races, bound);
    let opens = |r: Seq<Choice>| asked_by(t, races, bound, r);
    sharding_finds_the_same_races(h, moves, other, others, t, opens);
}

// ----- loads -----
/// The load is one of the program: the branches that the program comes to are
/// those over the stores that the load offers.
pub open spec fn is_of_program(
    t: Program,
    r: Reading,
    covered: Seq<usize>,
    k: int,
    order: Order,
    floor: bool,
) -> bool
    decreases covered.len() - k,
{
    k >= covered.len() || {
        &&& r.cell.offered(r.threads, covered, k, order, floor, r.resolved) matches Ok(seed) && (t(
            run(r.path).take(r.path.pos),
        ) matches Some(Entry::Load(l)) && l.values == load_values(seed) && l.len == seed.len())
        &&& r.next(covered, k, order, floor) matches Some((index, rest)) ==> is_of_program(
            t,
            rest,
            covered,
            k + 1,
            order,
            floor,
        )
    }
}

/// A load of the program, on a path that keeps to the program, replays what it
/// would open: each branch that it meets is over the stores that it offers.
pub proof fn a_faithful_path_replays_what_is_offered(
    t: Program,
    book: Ledger,
    c: Seq<Frozen>,
    r: Reading,
    covered: Seq<usize>,
    k: int,
    order: Order,
    floor: bool,
)
    requires
        faithful(r.path, c, t, book),
        0 <= r.path.pos <= r.path.branches.len(),
        0 <= k,
        is_of_program(t, r, covered, k, order, floor),
    ensures
        r.replays(covered, k, order, floor),
    decreases covered.len() - k,
{
    if r.path.traversed() {
        lemma_fresh(r, covered, k, order, floor);
    } else if k < covered.len() {
        let j = r.path.pos;
        assert(agrees_at(r.path, c, t, book, j));
        if let Some((index, rest)) = r.next(covered, k, order, floor) {
            assert(rest.path.branches == r.path.branches && rest.path.frozen == r.path.frozen);
            assert(run(rest.path) =~= run(r.path));
            assert forall|i: int| 0 <= i < rest.path.branches.len() implies #[trigger] agrees_at(
                rest.path,
                c,
                t,
                book,
                i,
            ) by {
                lemma_moved_on(r.path, rest.path, c, t, book, i);
            }
            a_faithful_path_replays_what_is_offered(
                t,
                book,
                c,
                rest,
                covered,
                k + 1,
                order,
                floor,
            );
        }
    }
}

/// Where a run stands on its path makes no difference.
proof fn lemma_moved_on(
    p: PathModel,
    q: PathModel,
    c: Seq<Frozen>,
    t: Program,
    book: Ledger,
    i: int,
)
    requires
        faithful(p, c, t, book),
        q.branches == p.branches,
        q.frozen == p.frozen,
        0 <= i < p.branches.len(),
    ensures
        agrees_at(q, c, t, book, i),
{
    assert(run(q) =~= run(p));
    assert(agrees_at(p, c, t, book, i));
    if let (Some(Entry::Schedule(s)), Entry::Schedule(_)) = (t(run(p).take(i)), p.branches[i]) {
        if s.exploring {
            assert forall|u: int| 0 <= u < MAX_THREADS implies #[trigger] slot_agrees(
                q,
                c,
                book,
                s,
                i,
                u,
            ) by {
                assert(slot_agrees(p, c, book, s, i, u));
                assert(word_at(q, i, u) == word_at(p, i, u));
            }
        }
    }
}

/// In a search from the root of a program every walker keeps to the program, so
/// that its loads replay what they would open.
pub proof fn walkers_keep_to_the_program(
    h: Seq<Crew>,
    moves: Seq<Move>,
    t: Program,
    p: PathModel,
    i: int,
    k: int,
)
    requires
        p.inv(Seq::<Frozen>::empty()),
        p.branches.len() == 0,
        h[0] == alone(p),
        led_through(h, t, moves),
        0 <= i < h.len(),
        h[i].walks(k),
    ensures
        faithful(h[i].at(k), h[i].claims, t, ledger(h, i, p.preemption_bound)),
{
    let c = alone(p);
    let bound = p.preemption_bound;
    a_lone_walker_is_ready(p);
    assert forall|m: int| #[trigger] c.walks(m) implies faithful(
        c.at(m),
        c.claims,
        t,
        ledger(h, 0, bound),
    ) by {
        assert(c.at(m) == p);
    }
    lemma_search_keeps(h, t, moves, bound, i);
}

/// A lane load of a program, on the path of a walker that keeps to it, never
/// falls behind an operation that its thread has seen through another lane,
/// whether it makes its choice for the first time or replays it.
pub proof fn lane_loads_of_a_program_never_fall_behind(
    t: Program,
    book: Ledger,
    c: Seq<Frozen>,
    r: Reading,
    covered: Seq<usize>,
    order: Order,
    a: int,
    rj: int,
    op_id: u64,
    f: int,
)
    requires
        r.resolved == Seq::<(u64, bool)>::empty(),
        r.cell.wf(),
        r.threads.running(),
        r.path.inv(c),
        faithful(r.path, c, t, book),
        is_of_program(t, r, covered, 0, order, true),
        in_order(r.cell, covered),
        0 <= a < covered.len(),
        0 <= rj < r.cell.regions.len(),
        rj != covered[a],
        r.cell.op_seen_in(rj, op_id, ViewModel::at_entry(r.threads)),
        0 <= f < r.cell.regions[covered[a] as int].stores.len(),
        r.cell.regions[covered[a] as int].stores[f].op_id == op_id,
        r.cell.composed(r.path, r.threads, covered, 0, order, true, Seq::empty(), 0) is Ok,
    ensures
        ({
            let slots = r.slots(covered, 0, order, true);
            let region = r.cell.regions[covered[a] as int];
            &&& slots.len() == covered.len()
            &&& !ordered(region.stores[slots[a]], region.stores[f])
        }),
{
    a_faithful_path_replays_what_is_offered(t, book, c, r, covered, 0, order, true);
    lane_loads_never_fall_behind(
        r.cell,
        r.path,
        r.threads,
        c,
        covered,
        order,
        a,
        rj,
        op_id,
        f,
    );
}

} // verus!
