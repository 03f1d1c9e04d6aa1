//! Carving subtrees off a path for idle peers.
//!
//! Nothing is *given away* here in the sense the name suggests. Every
//! alternative a task explores, donated or not, is acquired by one claim on
//! the branch that owns it, and a split only reaches for the ones nobody holds
//! yet. That is the whole reason a sharded search walks the same tree a serial
//! one does: there is no second mechanism that has to agree with the first
//! about which alternatives exist.
use vstd::prelude::*;

use super::{
    entry_wf, lemma_entry_wf_same, lemma_fixed_on, lemma_inv_after_cut, origin_of, same_shape, Path,
    PathModel,
};
use crate::rt::bits;
use crate::rt::branch::{
    collect_slots, find_slot, lemma_slot_mask, saturated, slot_mask, Class, Entry, Load, Schedule,
    Slots, Spurious, Thread,
};
use crate::rt::claims::{
    claims_evolve, claims_wf, lemma_claims_evolve_trans, lemma_taken_wf, Claims, Frozen,
};
use crate::rt::MAX_THREADS;

verus! {

/// The one choice a spawned task takes at the branch it was created for.
#[derive(Clone, Copy)]
pub enum Fixed {
    Thread(usize),
    Value(u8),
    /// This value, and after it those that follow: the task owns the branch.
    Rest(u8),
    Spurious,
}

/// A path under division, the table of claims, and the tasks carved off so far.
#[verifier::ext_equal]
pub struct Split {
    pub path: PathModel,
    pub claims: Seq<Frozen>,
    pub tasks: Seq<PathModel>,
}

/// The claim record of a branch at the moment it freezes. A branch that is not
/// being explored, or is not a schedule, is sealed: nothing can be claimed at
/// it or marked on it.
pub open spec fn record_of(e: Entry, bound: Option<u8>) -> Frozen {
    match e {
        Entry::Schedule(s) if s.exploring => Frozen {
            markable: slot_mask(s.threads, Class::Skip),
            enabled: slot_mask(s.threads, Class::Enabled),
            open: slot_mask(s.threads, Class::Open),
            claimed: slot_mask(s.threads, Class::Taken),
            conservative: s.conservative,
            origin: Ghost(origin_of(e, bound)),
        },
        _ => Frozen {
            markable: 0,
            enabled: 0,
            open: 0,
            claimed: 0,
            conservative: 0,
            origin: Ghost(origin_of(e, bound)),
        },
    }
}

/// The pending threads from slot `i` on, in order.
pub open spec fn pending_from(s: Slots, i: int) -> Seq<Fixed>
    decreases MAX_THREADS - i,
{
    if i >= MAX_THREADS {
        Seq::empty()
    } else if s@[i] == Thread::Pending {
        seq![Fixed::Thread(i as usize)] + pending_from(s, i + 1)
    } else {
        pending_from(s, i + 1)
    }
}

/// The alternatives at a branch that its owner has not taken yet.
///
pub open spec fn handouts(e: Entry) -> Seq<Fixed> {
    match e {
        Entry::Schedule(s) => if s.exploring {
            pending_from(s.threads, 0)
        } else {
            Seq::empty()
        },
        Entry::Load(l) => if l.exploring && l.pos + 1 < l.len {
            Seq::new((l.len - l.pos - 1) as nat, |k: int| Fixed::Value((l.pos + 1 + k) as u8))
        } else {
            Seq::empty()
        },
        Entry::Spurious(s) => if s.exploring && !s.spur {
            seq![Fixed::Spurious]
        } else {
            Seq::empty()
        },
    }
}

/// The choices that `n` tasks take of the alternatives at a branch, one each
/// where there are as many tasks as alternatives.
///
/// What is left of a schedule stays open in its record, for whoever comes to
/// the branch next. A load's record is sealed: its value list is fixed when the
/// branch is created, so the last task takes what is left of it along.
pub open spec fn shares(e: Entry, n: int) -> Seq<Fixed>
    recommends
        0 < n,
{
    let all = handouts(e);
    if all.len() <= n {
        all
    } else {
        match e {
            Entry::Load(l) => all.take(n - 1).push(Fixed::Rest((l.pos + n) as u8)),
            _ => all.take(n),
        }
    }
}

/// The choice fits the branch.
pub open spec fn fits(e: Entry, fixed: Fixed, bound: Option<u8>) -> bool {
    match fixed {
        Fixed::Thread(t) => e matches Entry::Schedule(s) && t < MAX_THREADS && !saturated(s, bound),
        Fixed::Value(v) | Fixed::Rest(v) => e matches Entry::Load(l) && v < l.len,
        Fixed::Spurious => e is Spurious,
    }
}

/// The branch with the choice taken.
pub open spec fn fixed_entry(e: Entry, fixed: Fixed, record: Frozen) -> Entry {
    match fixed {
        Fixed::Thread(t) => Entry::Schedule(
            e->Schedule_0.fixed_on(t as int, bits::holds(record.conservative, t as int)),
        ),
        Fixed::Value(v) | Fixed::Rest(v) => Entry::Load(Load { pos: v, ..e->Load_0 }),
        Fixed::Spurious => Entry::Spurious(Spurious { spur: true, ..e->Spurious_0 }),
    }
}

impl PathModel {
    /// A task that replays this path as far as `point`, takes `fixed` there,
    /// and explores everything below. `point` is frozen for the new task too,
    /// with the *same* record, so a mark arriving there from either side is
    /// settled once, between all of them; but a task that takes the rest of a
    /// load along owns that branch.
    pub open spec fn task(self, c: Seq<Frozen>, point: int, fixed: Fixed) -> PathModel {
        PathModel {
            pos: 0,
            branches: self.branches.take(point).push(
                fixed_entry(self.branches[point], fixed, c[self.frozen[point] as int]),
            ),
            frozen: self.frozen.take(
                if fixed is Rest {
                    point
                } else {
                    point + 1
                },
            ),
            ..self
        }
    }

    /// The shallowest owned branch at or after `i` with an alternative to hand
    /// out, within the shardable region.
    pub open spec fn splittable(self, c: Seq<Frozen>, i: int) -> Option<int>
        decreases self.branches.len() - i,
    {
        if i >= self.branches.len() || i >= self.split_depth {
            None
        } else if self.next_choice(c, i) is Some {
            Some(i)
        } else {
            self.splittable(c, i + 1)
        }
    }
}

impl Split {
    pub open spec fn inv(self) -> bool {
        &&& self.path.inv(self.claims)
        &&& forall|k: int| 0 <= k < self.tasks.len() ==> (#[trigger] self.tasks[k]).inv(self.claims)
    }

    /// One more task, for the choice `fixed` at the frozen branch `point`. A
    /// thread is claimed first.
    pub open spec fn handed(self, point: int, fixed: Fixed) -> Split {
        let id = self.path.frozen[point] as int;
        let claims = match fixed {
            Fixed::Thread(t) => self.claims.update(id, self.claims[id].taken(t as int)),
            _ => self.claims,
        };
        Split { claims, tasks: self.tasks.push(self.path.task(claims, point, fixed)), ..self }
    }

    /// Tasks for the open alternatives at frozen branch `point` that nobody
    /// holds, up to `wanted` tasks in all.
    pub open spec fn drained_at(self, point: int, wanted: int) -> Split
        decreases wanted - self.tasks.len(),
    {
        if self.tasks.len() >= wanted {
            self
        } else {
            match bits::first(self.claims[self.path.frozen[point] as int].free()) {
                Some(t) => self.handed(point, Fixed::Thread(t as usize)).drained_at(point, wanted),
                None => self,
            }
        }
    }

    /// The same for every frozen branch from `point` on, shallowest first.
    pub open spec fn drained(self, point: int, wanted: int) -> Split
        decreases self.path.frozen.len() - point,
        via Split::drained_decreases
    {
        if point >= self.path.frozen.len() {
            self
        } else {
            self.drained_at(point, wanted).drained(point + 1, wanted)
        }
    }

    #[via_fn]
    proof fn drained_decreases(self, point: int, wanted: int) {
        lemma_drained_at_keeps(self, point, wanted);
    }

    /// Tasks for the choices `fixed[k..]` at the branch that froze last.
    pub open spec fn handed_all(self, fixed: Seq<Fixed>, k: int) -> Split
        decreases fixed.len() - k,
    {
        if k >= fixed.len() {
            self
        } else {
            self.handed(self.path.frozen.len() - 1, fixed[k]).handed_all(fixed, k + 1)
        }
    }

    /// The shallowest owned branch frozen, its record added to the table.
    pub open spec fn sealed_next(self) -> Split {
        let e = self.path.branches[self.path.frozen.len() as int];
        Split {
            path: PathModel {
                frozen: self.path.frozen.push(self.claims.len() as usize),
                ..self.path
            },
            claims: self.claims.push(record_of(e, self.path.preemption_bound)),
            ..self
        }
    }

    /// Every owned branch before `index` frozen. None of them has an
    /// alternative left.
    pub open spec fn sealed_to(self, index: int) -> Split
        decreases index - self.path.frozen.len(),
    {
        if self.path.frozen.len() >= index {
            self
        } else {
            self.sealed_next().sealed_to(index)
        }
    }

    /// The shallowest owned branch frozen, with its alternatives handed out, up
    /// to `wanted` tasks in all.
    pub open spec fn frozen_next(self, wanted: int) -> Split {
        let e = self.path.branches[self.path.frozen.len() as int];
        self.sealed_next().handed_all(shares(e, wanted - self.tasks.len()), 0)
    }

    /// Owned branches frozen, shallowest first, until there are `wanted` tasks
    /// or nothing is left to hand out.
    pub open spec fn carved(self, wanted: int) -> Split
        decreases self.path.branches.len() - self.path.frozen.len(),
        via Split::carved_decreases
    {
        if self.tasks.len() >= wanted {
            self
        } else {
            match self.path.splittable(self.claims, self.path.frozen.len() as int) {
                Some(index) => self.sealed_to(index).frozen_next(wanted).carved(wanted),
                None => self,
            }
        }
    }

    #[via_fn]
    proof fn carved_decreases(self, wanted: int) {
        lemma_splittable(self.path, self.claims, self.path.frozen.len() as int);
        if let Some(index) = self.path.splittable(self.claims, self.path.frozen.len() as int) {
            lemma_sealed_to_keeps(self, index);
            lemma_frozen_next_keeps(self.sealed_to(index), wanted);
        }
    }
}

/// The path after up to `wanted` subtrees were carved off it, the table, and
/// the tasks. Two sources, shallowest first, because shallow alternatives root
/// the largest subtrees: branches already frozen, where a mark has since
/// opened an alternative, and fresh branches, frozen on the spot.
pub open spec fn split(p: PathModel, c: Seq<Frozen>, wanted: int) -> Split {
    Split { path: p, claims: c, tasks: Seq::empty() }.drained(0, wanted).carved(wanted)
}

pub proof fn lemma_drained_at_keeps(s: Split, point: int, wanted: int)
    ensures
        s.drained_at(point, wanted).path == s.path,
        s.tasks.len() <= wanted ==> s.drained_at(point, wanted).tasks.len() <= wanted,
        s.tasks.len() >= wanted ==> s.drained_at(point, wanted) == s,
    decreases wanted - s.tasks.len(),
{
    if s.tasks.len() < wanted {
        if let Some(t) = bits::first(s.claims[s.path.frozen[point] as int].free()) {
            lemma_drained_at_keeps(s.handed(point, Fixed::Thread(t as usize)), point, wanted);
        }
    }
}

pub proof fn lemma_handed_all_keeps(s: Split, fixed: Seq<Fixed>, k: int)
    requires
        0 <= k <= fixed.len(),
    ensures
        s.handed_all(fixed, k).path == s.path,
        s.handed_all(fixed, k).tasks.len() == s.tasks.len() + fixed.len() - k,
    decreases fixed.len() - k,
{
    if k < fixed.len() {
        lemma_handed_all_keeps(s.handed(s.path.frozen.len() - 1, fixed[k]), fixed, k + 1);
    }
}

pub proof fn lemma_frozen_next_keeps(s: Split, wanted: int)
    ensures
        s.frozen_next(wanted).path == s.sealed_next().path,
        s.frozen_next(wanted).path.frozen.len() == s.path.frozen.len() + 1,
        s.frozen_next(wanted).path.branches == s.path.branches,
        s.tasks.len() < wanted ==> s.frozen_next(wanted).tasks.len() <= wanted,
{
    let e = s.path.branches[s.path.frozen.len() as int];
    lemma_handed_all_keeps(s.sealed_next(), shares(e, wanted - s.tasks.len()), 0);
}

pub proof fn lemma_sealed_to_keeps(s: Split, index: int)
    ensures
        s.sealed_to(index).path == (PathModel {
            frozen: s.sealed_to(index).path.frozen,
            ..s.path
        }),
        s.sealed_to(index).tasks == s.tasks,
        s.path.frozen.len() <= index ==> s.sealed_to(index).path.frozen.len() == index,
    decreases index - s.path.frozen.len(),
{
    if s.path.frozen.len() < index {
        lemma_sealed_to_keeps(s.sealed_next(), index);
    }
}

proof fn lemma_drained_is_bounded(s: Split, point: int, wanted: int)
    ensures
        s.tasks.len() <= wanted ==> s.drained(point, wanted).tasks.len() <= wanted,
        s.tasks.len() >= wanted ==> s.drained(point, wanted) == s,
    decreases s.path.frozen.len() - point,
{
    if point < s.path.frozen.len() {
        lemma_drained_at_keeps(s, point, wanted);
        lemma_drained_is_bounded(s.drained_at(point, wanted), point + 1, wanted);
    }
}

proof fn lemma_carved_is_bounded(s: Split, wanted: int)
    requires
        s.tasks.len() <= wanted,
    ensures
        s.carved(wanted).tasks.len() <= wanted,
    decreases s.path.branches.len() - s.path.frozen.len(),
{
    if s.tasks.len() < wanted {
        lemma_splittable(s.path, s.claims, s.path.frozen.len() as int);
        if let Some(index) = s.path.splittable(s.claims, s.path.frozen.len() as int) {
            lemma_sealed_to_keeps(s, index);
            lemma_frozen_next_keeps(s.sealed_to(index), wanted);
            lemma_carved_is_bounded(s.sealed_to(index).frozen_next(wanted), wanted);
        }
    }
}

/// A split makes at most as many tasks as were asked for, and changes nothing
/// where none was.
pub proof fn a_split_gives_no_more_than_was_wanted(p: PathModel, c: Seq<Frozen>, wanted: int)
    requires
        0 <= wanted,
    ensures
        split(p, c, wanted).tasks.len() <= wanted,
        wanted == 0 ==> split(p, c, wanted) == (Split { path: p, claims: c, tasks: Seq::empty() }),
{
    let s = Split { path: p, claims: c, tasks: Seq::empty() };
    lemma_drained_is_bounded(s, 0, wanted);
    lemma_carved_is_bounded(s.drained(0, wanted), wanted);
}

pub proof fn lemma_splittable(p: PathModel, c: Seq<Frozen>, i: int)
    ensures
        p.splittable(c, i) matches Some(j) ==> i <= j < p.branches.len() && p.next_choice(
            c,
            j,
        ) is Some,
    decreases p.branches.len() - i,
{
    if i < p.branches.len() && i < p.split_depth && !(p.next_choice(c, i) is Some) {
        lemma_splittable(p, c, i + 1);
    }
}

proof fn lemma_task_inv(p: PathModel, c: Seq<Frozen>, point: int, fixed: Fixed)
    requires
        p.inv(c),
        0 <= point < p.frozen.len(),
        fits(p.branches[point], fixed, p.preemption_bound),
    ensures
        p.task(c, point, fixed).inv(c),
{
    let q = p.task(c, point, fixed);
    let cut = p.branches.take(point + 1);
    assert(entry_wf(p.branches, point, p.preemption_bound));
    assert(same_shape(p.branches, cut, point));
    lemma_entry_wf_same(p.branches, cut, point, p.preemption_bound);
    assert(cut.drop_last() =~= p.branches.take(point));
    assert(q.branches.take(point) =~= p.branches.take(point));
    match fixed {
        Fixed::Thread(t) => {
            lemma_fixed_on(
                p.branches[point]->Schedule_0,
                t as int,
                bits::holds(c[p.frozen[point] as int].conservative, t as int),
                cut,
                p.preemption_bound,
            );
        },
        _ => {},
    }
    assert(q.frozen =~= p.frozen.take(q.frozen.len() as int));
    lemma_inv_after_cut(p, q, c, c, point);
}

pub proof fn lemma_handed_inv(s: Split, point: int, fixed: Fixed)
    requires
        s.inv(),
        0 <= point < s.path.frozen.len(),
        fits(s.path.branches[point], fixed, s.path.preemption_bound),
    ensures
        s.handed(point, fixed).inv(),
        claims_evolve(s.claims, s.handed(point, fixed).claims),
{
    let n = s.handed(point, fixed);
    let id = s.path.frozen[point] as int;
    assert(s.claims[id].wf());
    if let Fixed::Thread(t) = fixed {
        lemma_taken_wf(s.claims[id], t as int);
    }
    assert(claims_wf(n.claims));
    assert(claims_evolve(s.claims, n.claims));
    super::inv_survives_other_tasks(s.path, s.claims, n.claims);
    lemma_task_inv(s.path, n.claims, point, fixed);
    assert forall|k: int| 0 <= k < n.tasks.len() implies (#[trigger] n.tasks[k]).inv(n.claims) by {
        if k < s.tasks.len() {
            super::inv_survives_other_tasks(s.tasks[k], s.claims, n.claims);
        }
    }
}

proof fn lemma_record_wf(b: Seq<Entry>, i: int, bound: Option<u8>)
    requires
        0 <= i < b.len(),
        entry_wf(b, i, bound),
    ensures
        record_of(b[i], bound).wf(),
        record_of(b[i], bound).origin@ == origin_of(b[i], bound),
{
    broadcast use bits::group_bits;
    broadcast use lemma_slot_mask;

    let r = record_of(b[i], bound);
    bits::lemma_empty(r.free());
    if let Entry::Schedule(s) = b[i] {
        if saturated(s, bound) {
            assert(!Class::Pending.admits(s.threads@[0]));
            assert(!Class::Pending.admits(s.threads@[1]));
            assert(!Class::Pending.admits(s.threads@[2]));
            assert(!Class::Pending.admits(s.threads@[3]));
            assert(!Class::Pending.admits(s.threads@[4]));
            if s.exploring {
                assert forall|k: int| 0 <= k < 16 implies !#[trigger] bits::holds(r.free(), k) by {
                    if k < MAX_THREADS {
                        assert(!Class::Pending.admits(s.threads@[k]));
                    }
                }
            }
        }
    }
}

pub proof fn lemma_sealed_inv(s: Split)
    requires
        s.inv(),
        s.path.frozen.len() < s.path.branches.len(),
        s.claims.len() <= usize::MAX,
    ensures
        s.sealed_next().inv(),
        claims_evolve(s.claims, s.sealed_next().claims),
{
    let n = s.sealed_next();
    let i = s.path.frozen.len() as int;
    assert(entry_wf(s.path.branches, i, s.path.preemption_bound));
    lemma_record_wf(s.path.branches, i, s.path.preemption_bound);
    assert(claims_wf(n.claims));
    assert(claims_evolve(s.claims, n.claims));
    super::inv_survives_other_tasks(s.path, s.claims, n.claims);
    assert forall|j: int| 0 <= j < n.path.branches.len() implies #[trigger] entry_wf(
        n.path.branches,
        j,
        n.path.preemption_bound,
    ) by {
        assert(entry_wf(s.path.branches, j, s.path.preemption_bound));
    }
    assert forall|j: int| 0 <= j < n.path.frozen.len() implies {
        &&& (#[trigger] n.path.frozen[j]) < n.claims.len()
        &&& n.claims[n.path.frozen[j] as int].origin@ == origin_of(
            n.path.branches[j],
            n.path.preemption_bound,
        )
    } by {
        if j < i {
            assert(n.path.frozen[j] == s.path.frozen[j]);
            assert(n.claims[s.path.frozen[j] as int] == s.claims[s.path.frozen[j] as int]);
        }
    }
    assert forall|k: int| 0 <= k < n.tasks.len() implies (#[trigger] n.tasks[k]).inv(n.claims) by {
        super::inv_survives_other_tasks(s.tasks[k], s.claims, n.claims);
    }
}

pub proof fn lemma_pending_from(s: Slots, i: int)
    requires
        0 <= i <= MAX_THREADS,
    ensures
        forall|k: int|
            0 <= k < pending_from(s, i).len() ==> {
                &&& (#[trigger] pending_from(s, i)[k]) matches Fixed::Thread(t)
                &&& t < MAX_THREADS
                &&& s@[t as int] == Thread::Pending
            },
    decreases MAX_THREADS - i,
{
    if i < MAX_THREADS {
        lemma_pending_from(s, i + 1);
        let rest = pending_from(s, i + 1);
        assert forall|k: int| 0 <= k < pending_from(s, i).len() implies {
            &&& (#[trigger] pending_from(s, i)[k]) matches Fixed::Thread(t)
            &&& t < MAX_THREADS
            &&& s@[t as int] == Thread::Pending
        } by {
            if s@[i] == Thread::Pending {
                if k > 0 {
                    assert(pending_from(s, i)[k] == rest[k - 1]);
                }
            } else {
                assert(pending_from(s, i)[k] == rest[k]);
            }
        }
    }
}

pub proof fn lemma_handouts_fit(b: Seq<Entry>, i: int, bound: Option<u8>)
    requires
        0 <= i < b.len(),
        entry_wf(b, i, bound),
    ensures
        forall|k: int|
            0 <= k < handouts(b[i]).len() ==> fits(b[i], #[trigger] handouts(b[i])[k], bound),
{
    if let Entry::Schedule(s) = b[i] {
        lemma_pending_from(s.threads, 0);
        assert forall|k: int| 0 <= k < handouts(b[i]).len() implies fits(
            b[i],
            #[trigger] handouts(b[i])[k],
            bound,
        ) by {
            assert(handouts(b[i])[k] == pending_from(s.threads, 0)[k]);
            let t = handouts(b[i])[k]->Thread_0 as int;
            assert(Class::Pending.admits(s.threads@[t]));
        }
    }
}

pub proof fn lemma_shares_fit(b: Seq<Entry>, i: int, bound: Option<u8>, n: int)
    requires
        0 <= i < b.len(),
        entry_wf(b, i, bound),
        0 < n,
    ensures
        forall|k: int|
            0 <= k < shares(b[i], n).len() ==> fits(b[i], #[trigger] shares(b[i], n)[k], bound),
{
    lemma_handouts_fit(b, i, bound);
    assert forall|k: int| 0 <= k < shares(b[i], n).len() implies fits(
        b[i],
        #[trigger] shares(b[i], n)[k],
        bound,
    ) by {
        assert(fits(b[i], handouts(b[i])[k], bound));
    }
}

/// The tasks as the model writes them.
pub open spec fn views(tasks: Seq<Path>) -> Seq<PathModel> {
    tasks.map_values(|p: Path| p@)
}

/// The alternatives at a branch that its owner has not taken yet.
fn list_handouts(e: &Entry) -> (r: Vec<Fixed>)
    ensures
        r@ == handouts(*e),
{
    let mut out: Vec<Fixed> = Vec::new();
    match *e {
        Entry::Schedule(s) => {
            if s.exploring {
                let mut i: usize = 0;
                while i < MAX_THREADS
                    invariant
                        i <= MAX_THREADS,
                        out@ + pending_from(s.threads, i as int) == pending_from(s.threads, 0),
                    decreases MAX_THREADS - i,
                {
                    let ghost rest = pending_from(s.threads, i as int + 1);
                    if s.threads[i] == Thread::Pending {
                        let ghost before = out@;
                        out.push(Fixed::Thread(i));
                        assert(out@ + rest =~= before + (seq![Fixed::Thread(i)] + rest));
                    }
                    i += 1;
                }
                assert(out@ =~= pending_from(s.threads, 0));
            }
        },
        Entry::Load(l) => {
            if l.exploring && l.len > 0 && l.pos < l.len - 1 {
                let mut v: u8 = l.pos + 1;
                while v < l.len
                    invariant
                        l.pos + 1 <= v <= l.len,
                        out@.len() == v - l.pos - 1,
                        forall|k: int|
                            0 <= k < out@.len() ==> #[trigger] out@[k] == Fixed::Value(
                                (l.pos + 1 + k) as u8,
                            ),
                    decreases l.len - v,
                {
                    out.push(Fixed::Value(v));
                    v = v + 1;
                }
                assert(out@ =~= handouts(*e));
            }
        },
        Entry::Spurious(s) => {
            if s.exploring && !s.spur {
                out.push(Fixed::Spurious);
                assert(out@ =~= handouts(*e));
            }
        },
    }
    out
}

/// The choices that up to `n` tasks take at a branch.
fn list_shares(e: &Entry, n: usize) -> (r: Vec<Fixed>)
    requires
        0 < n,
    ensures
        r@ == shares(*e, n as int),
{
    let mut out: Vec<Fixed> = list_handouts(e);
    if out.len() > n {
        if let Entry::Load(l) = *e {
            out.truncate(n - 1);
            out.push(Fixed::Rest(l.pos + n as u8));
        } else {
            out.truncate(n);
        }
    }
    out
}

/// The claim record of a branch at the moment it freezes.
fn freeze(e: &Entry, bound: Option<u8>) -> (r: Frozen)
    ensures
        r == record_of(*e, bound),
{
    let record: Frozen = match *e {
        Entry::Schedule(s) if s.exploring => Frozen::new(
            collect_slots(&s.threads, Class::Skip),
            collect_slots(&s.threads, Class::Enabled),
            collect_slots(&s.threads, Class::Open),
            collect_slots(&s.threads, Class::Taken),
            s.conservative,
        ),
        _ => Frozen::new(0, 0, 0, 0, 0),
    };
    Frozen { origin: Ghost(origin_of(*e, bound)), ..record }
}

impl Path {
    /// A task that replays this path as far as `point`, takes `fixed` there,
    /// and explores everything below.
    fn task_at(&self, claims: &Claims, point: usize, fixed: Fixed) -> (r: Path)
        requires
            self@.inv(claims@),
            point < self@.frozen.len(),
            fits(self@.branches[point as int], fixed, self@.preemption_bound),
        ensures
            r@ == self@.task(claims@, point as int, fixed),
    {
        let mut branches: Vec<Entry> = Vec::new();
        let mut frozen: Vec<usize> = Vec::new();
        let mut i: usize = 0;
        while i < point
            invariant
                i <= point,
                self@.inv(claims@),
                point < self@.frozen.len(),
                branches@ == self@.branches.take(i as int),
                frozen@ == self@.frozen.take(i as int),
            decreases point - i,
        {
            branches.push(self.branches[i]);
            frozen.push(self.frozen[i]);
            i += 1;
            assert(branches@ =~= self@.branches.take(i as int));
            assert(frozen@ =~= self@.frozen.take(i as int));
        }
        match fixed {
            Fixed::Rest(_) => {},
            _ => {
                frozen.push(self.frozen[point]);
                assert(frozen@ =~= self@.frozen.take(point + 1));
            },
        }
        let record: Frozen = claims.get(self.frozen[point]);
        let entry: Entry = match (fixed, self.branches[point]) {
            (Fixed::Thread(t), Entry::Schedule(s)) => {
                let mut s: Schedule = s;
                s.fix(t, record.is_conservative(t));
                Entry::Schedule(s)
            },
            (Fixed::Value(v), Entry::Load(l)) | (Fixed::Rest(v), Entry::Load(l)) => {
                let mut l: Load = l;
                l.pos = v;
                Entry::Load(l)
            },
            (_, Entry::Spurious(s)) => Entry::Spurious(
                Spurious { spur: true, exploring: s.exploring },
            ),
            (_, e) => e,
        };
        branches.push(entry);
        Path {
            preemption_bound: self.preemption_bound,
            pos: 0,
            branches,
            capacity: self.capacity,
            exploring: self.exploring,
            skipping: self.skipping,
            exploring_on_start: self.exploring_on_start,
            frozen,
            split_depth: self.split_depth,
        }
    }

    /// The shallowest owned branch with an alternative to hand out, within the
    /// shardable region.
    fn pick_split(&self, claims: &Claims) -> (r: Option<usize>)
        requires
            self@.inv(claims@),
        ensures
            match r {
                Some(i) => self@.splittable(claims@, self@.frozen.len() as int) == Some(i as int)
                    && self@.frozen.len() <= i < self@.branches.len(),
                None => self@.splittable(claims@, self@.frozen.len() as int) is None,
            },
    {
        let mut i: usize = self.frozen.len();
        while i < self.branches.len() && i < self.split_depth
            invariant
                self@.inv(claims@),
                self@.frozen.len() <= i <= self@.branches.len(),
                self@.splittable(claims@, self@.frozen.len() as int) == self@.splittable(
                    claims@,
                    i as int,
                ),
            decreases self.branches.len() - i,
        {
            let more: bool = match self.branches[i] {
                Entry::Schedule(s) => s.exploring && find_slot(
                    &s.threads,
                    Class::Pending,
                ).is_some(),
                Entry::Load(l) => l.exploring && l.len > 0 && l.pos < l.len - 1,
                Entry::Spurious(s) => s.exploring && !s.spur,
            };
            if more {
                return Some(i);
            }
            i += 1;
        }
        None
    }

    /// Hand the choice `fixed` at the frozen branch `point` to a new task.
    fn hand_out(
        &self,
        claims: &mut Claims,
        point: usize,
        fixed: Fixed,
        tasks: &mut Vec<Path>,
    )
        requires
            (Split { path: self@, claims: old(claims)@, tasks: views(old(tasks)@) }).inv(),
            point < self@.frozen.len(),
            fits(self@.branches[point as int], fixed, self@.preemption_bound),
        ensures
            (Split { path: self@, claims: final(claims)@, tasks: views(final(tasks)@) }) == (
            Split { path: self@, claims: old(claims)@, tasks: views(old(tasks)@) }).handed(
                point as int,
                fixed,
            ),
            (Split { path: self@, claims: final(claims)@, tasks: views(final(tasks)@) }).inv(),
            claims_evolve(old(claims)@, final(claims)@),
            final(tasks)@.len() == old(tasks)@.len() + 1,
    {
        let ghost s = Split { path: self@, claims: claims@, tasks: views(tasks@) };
        proof {
            lemma_handed_inv(s, point as int, fixed);
        }
        if let Fixed::Thread(t) = fixed {
            let id: usize = self.frozen[point];
            let mut record: Frozen = claims.get(id);
            record.claim(t);
            claims.set(id, record);
        }
        let task = self.task_at(claims, point, fixed);
        tasks.push(task);
        assert(views(tasks@) =~= s.handed(point as int, fixed).tasks);
    }

    /// Freeze the shallowest owned branch.
    fn seal_next(&mut self, claims: &mut Claims, tasks: &Vec<Path>)
        requires
            (Split { path: old(self)@, claims: old(claims)@, tasks: views(tasks@) }).inv(),
            old(self)@.frozen.len() < old(self)@.branches.len(),
        ensures
            (Split { path: final(self)@, claims: final(claims)@, tasks: views(tasks@) }) == (Split {
                path: old(self)@,
                claims: old(claims)@,
                tasks: views(tasks@),
            }).sealed_next(),
            (Split { path: final(self)@, claims: final(claims)@, tasks: views(tasks@) }).inv(),
            claims_evolve(old(claims)@, final(claims)@),
    {
        let ghost s0 = Split { path: self@, claims: claims@, tasks: views(tasks@) };
        let entry: Entry = self.branches[self.frozen.len()];
        let n: usize = claims.len();
        proof {
            lemma_sealed_inv(s0);
        }
        let id: usize = claims.add(freeze(&entry, self.preemption_bound));
        self.frozen.push(id);
        assert(self@ =~= s0.sealed_next().path);
    }

    /// Freeze the shallowest owned branch and hand out its alternatives, up to
    /// `wanted` tasks in all.
    fn freeze_next(&mut self, claims: &mut Claims, tasks: &mut Vec<Path>, wanted: usize)
        requires
            (Split { path: old(self)@, claims: old(claims)@, tasks: views(old(tasks)@) }).inv(),
            old(self)@.frozen.len() < old(self)@.branches.len(),
            old(tasks)@.len() < wanted,
        ensures
            (Split { path: final(self)@, claims: final(claims)@, tasks: views(final(tasks)@) })
                == (Split {
                path: old(self)@,
                claims: old(claims)@,
                tasks: views(old(tasks)@),
            }).frozen_next(wanted as int),
            (Split {
                path: final(self)@,
                claims: final(claims)@,
                tasks: views(final(tasks)@),
            }).inv(),
            claims_evolve(old(claims)@, final(claims)@),
    {
        let ghost s0 = Split { path: self@, claims: claims@, tasks: views(tasks@) };
        let point: usize = self.frozen.len();
        let entry: Entry = self.branches[point];
        let n: usize = wanted - tasks.len();
        let handing_out: Vec<Fixed> = list_shares(&entry, n);
        let ghost c0 = claims@;
        proof {
            assert(entry_wf(self@.branches, point as int, self@.preemption_bound));
            lemma_shares_fit(self@.branches, point as int, self@.preemption_bound, n as int);
        }
        // Freeze before spawning: a task's frozen prefix has to cover the
        // branch it fixes, and it takes that from this path's.
        self.seal_next(claims, tasks);
        let ghost s1 = s0.sealed_next();
        let mut k: usize = 0;
        while k < handing_out.len()
            invariant
                k <= handing_out.len(),
                handing_out@ == shares(entry, n as int),
                point == self@.frozen.len() - 1,
                self@ == s1.path,
                self@.branches[point as int] == entry,
                forall|j: int|
                    0 <= j < handing_out@.len() ==> fits(
                        entry,
                        #[trigger] shares(entry, n as int)[j],
                        self@.preemption_bound,
                    ),
                (Split { path: self@, claims: claims@, tasks: views(tasks@) }).inv(),
                (Split { path: self@, claims: claims@, tasks: views(tasks@) }).handed_all(
                    handing_out@,
                    k as int,
                ) == s1.handed_all(handing_out@, 0),
                claims_evolve(c0, claims@),
            decreases handing_out.len() - k,
        {
            let ghost c1 = claims@;
            assert(fits(entry, shares(entry, n as int)[k as int], self@.preemption_bound));
            self.hand_out(claims, point, handing_out[k], tasks);
            proof {
                lemma_claims_evolve_trans(c0, c1, claims@);
            }
            k += 1;
        }
    }

    /// Carve up to `wanted` subtrees off this path for idle peers.
    pub fn split_off(&mut self, claims: &mut Claims, wanted: usize) -> (tasks: Vec<Path>)
        requires
            old(self)@.inv(old(claims)@),
        ensures
            (Split { path: final(self)@, claims: final(claims)@, tasks: views(tasks@) }) == split(
                old(self)@,
                old(claims)@,
                wanted as int,
            ),
            tasks@.len() <= wanted,
            wanted == 0 ==> final(self)@ == old(self)@ && final(claims)@ == old(claims)@,
            final(self)@.inv(final(claims)@),
            forall|k: int| 0 <= k < tasks@.len() ==> (#[trigger] tasks@[k])@.inv(final(claims)@),
            claims_evolve(old(claims)@, final(claims)@),
    {
        proof {
            a_split_gives_no_more_than_was_wanted(self@, claims@, wanted as int);
        }
        let mut tasks: Vec<Path> = Vec::new();
        let ghost s0 = Split { path: self@, claims: claims@, tasks: Seq::empty() };
        assert(views(tasks@) =~= s0.tasks);
        let mut point: usize = 0;
        while point < self.frozen.len()
            invariant
                self@ == s0.path,
                point <= self@.frozen.len(),
                (Split { path: self@, claims: claims@, tasks: views(tasks@) }).inv(),
                (Split { path: self@, claims: claims@, tasks: views(tasks@) }).drained(
                    point as int,
                    wanted as int,
                ) == s0.drained(0, wanted as int),
                claims_evolve(old(claims)@, claims@),
            decreases self.frozen.len() - point,
        {
            let ghost s1 = Split { path: self@, claims: claims@, tasks: views(tasks@) };
            let mut more: bool = true;
            while more && tasks.len() < wanted
                invariant
                    self@ == s0.path,
                    s1.path == self@,
                    point < self@.frozen.len(),
                    (Split { path: self@, claims: claims@, tasks: views(tasks@) }).inv(),
                    (Split { path: self@, claims: claims@, tasks: views(tasks@) }).drained_at(
                        point as int,
                        wanted as int,
                    ) == s1.drained_at(point as int, wanted as int),
                    !more ==> (Split {
                        path: self@,
                        claims: claims@,
                        tasks: views(tasks@),
                    }) == s1.drained_at(point as int, wanted as int),
                    claims_evolve(old(claims)@, claims@),
                decreases wanted - tasks.len(), more as int,
            {
                let id: usize = self.frozen[point];
                let record: Frozen = claims.get(id);
                let ghost c1 = claims@;
                match bits::lowest(record.open_mask() & !record.claimed) {
                    Some(t) => {
                        proof {
                            broadcast use bits::group_bits;

                            bits::lemma_first(record.free());
                            bits::lemma_empty(record.free());
                            bits::lemma_empty(record.open);
                            assert(record.wf());
                            assert(record.origin@ == origin_of(
                                self@.branches[point as int],
                                self@.preemption_bound,
                            ));
                        }
                        self.hand_out(claims, point, Fixed::Thread(t), &mut tasks);
                        proof {
                            lemma_claims_evolve_trans(old(claims)@, c1, claims@);
                        }
                    },
                    None => {
                        more = false;
                    },
                }
            }
            point += 1;
        }
        let ghost s2 = Split { path: self@, claims: claims@, tasks: views(tasks@) };
        let mut more: bool = true;
        while more && tasks.len() < wanted
            invariant
                (Split { path: self@, claims: claims@, tasks: views(tasks@) }).inv(),
                (Split { path: self@, claims: claims@, tasks: views(tasks@) }).carved(
                    wanted as int,
                ) == s2.carved(wanted as int),
                !more ==> (Split { path: self@, claims: claims@, tasks: views(tasks@) })
                    == s2.carved(wanted as int),
                claims_evolve(old(claims)@, claims@),
            decreases self@.branches.len() - self@.frozen.len(), more as int,
        {
            let ghost s3 = Split { path: self@, claims: claims@, tasks: views(tasks@) };
            match self.pick_split(claims) {
                Some(index) => {
                    while self.frozen.len() < index
                        invariant
                            index < self@.branches.len(),
                            self@.branches == s3.path.branches,
                            s3.path.frozen.len() <= self@.frozen.len() <= index,
                            (Split { path: self@, claims: claims@, tasks: views(tasks@) }).inv(),
                            (Split {
                                path: self@,
                                claims: claims@,
                                tasks: views(tasks@),
                            }).sealed_to(index as int) == s3.sealed_to(index as int),
                            claims_evolve(old(claims)@, claims@),
                        decreases index - self.frozen.len(),
                    {
                        let ghost c1 = claims@;
                        self.seal_next(claims, &tasks);
                        proof {
                            lemma_claims_evolve_trans(old(claims)@, c1, claims@);
                        }
                    }
                    let ghost c1 = claims@;
                    self.freeze_next(claims, &mut tasks, wanted);
                    proof {
                        lemma_frozen_next_keeps(s3.sealed_to(index as int), wanted as int);
                        lemma_claims_evolve_trans(old(claims)@, c1, claims@);
                    }
                },
                None => {
                    more = false;
                },
            }
        }
        assert forall|k: int| 0 <= k < tasks@.len() implies (#[trigger] tasks@[k])@.inv(
            claims@,
        ) by {
            assert(views(tasks@)[k] == tasks@[k]@);
        }
        tasks
    }
}

} // verus!
