//! How the walkers of a sharded search divide a tree.
//!
//! A crew is a number of walkers, each on a path of its own, that share the
//! records of their frozen branches. What the crew still owes is told by the
//! beginnings of runs: where each walker stands, the alternatives that it keeps
//! for itself, and those that are open to whoever comes next. A walk makes one
//! run after the other, a split hands beginnings from one walker to another, a
//! race opens what was passed over so far, and none of them loses or doubles
//! any.
use vstd::prelude::*;

use super::laws::{choice_of, lemma_next_point, Choice};
use super::split::{fits, lemma_handed_inv, lemma_sealed_inv, record_of, Fixed, Split};
use super::{entry_wf, lemma_marked_inv, lemma_stepped_inv, mark_keeps_the_choice, PathModel};
use crate::rt::bits;
use crate::rt::branch::{
    candidates, first_slot, lemma_all_threads, lemma_slot_mask, saturated, Class, Entry, Schedule,
    Thread,
};
use crate::rt::claims::Frozen;
use crate::rt::MAX_THREADS;

verus! {

/// The choices of a path, in order.
pub open spec fn run(p: PathModel) -> Seq<Choice> {
    Seq::new(p.branches.len(), |i: int| choice_of(p.branches[i]))
}

/// The branch offers the choice `a` besides the one it stands for.
pub open spec fn offers(e: Entry, a: Choice) -> bool {
    match (e, a) {
        (Entry::Schedule(s), Choice::Thread(Some(t))) => s.exploring && 0 <= t < MAX_THREADS
            && s.threads@[t] == Thread::Pending,
        (Entry::Load(l), Choice::Value(v)) => l.exploring && l.pos < v < l.len,
        (Entry::Spurious(s), Choice::Spurious(b)) => s.exploring && !s.spur && b,
        _ => false,
    }
}

/// The branch passes the choice `a` over, as long as no race asks for it.
pub open spec fn skips(e: Entry, a: Choice) -> bool {
    match (e, a) {
        (Entry::Schedule(s), Choice::Thread(Some(t))) => s.exploring && 0 <= t < MAX_THREADS
            && s.threads@[t] == Thread::Skip,
        _ => false,
    }
}

/// Choices at one branch that are being handed out.
pub struct Desk {
    pub prefix: Seq<Choice>,
    pub choices: Set<Choice>,
}

/// The walkers of a search; those that are done are gone.
pub struct Crew {
    pub claims: Seq<Frozen>,
    pub paths: Seq<Option<PathModel>>,
    /// The choices that lead to each frozen branch.
    pub place: Seq<Seq<Choice>>,
    pub desk: Desk,
}

/// Where a beginning comes from.
pub enum Source {
    /// The run that a walker is on.
    Current(int),
    /// An alternative at a branch that a walker owns.
    Own(int, int, Choice),
    /// An open alternative at a frozen branch that nobody holds.
    Shared(int, int),
    /// An alternative that is being handed out.
    Held(Choice),
    /// An alternative that is passed over at a branch that a walker owns.
    Skipped(int, int, Choice),
    /// An alternative that is passed over at a frozen branch.
    Closed(int, int),
}

/// `w` begins `r`.
pub open spec fn begins(w: Seq<Choice>, r: Seq<Choice>) -> bool {
    w.len() <= r.len() && r.take(w.len() as int) == w
}

/// The two part ways somewhere.
pub open spec fn diverge(a: Seq<Choice>, b: Seq<Choice>) -> bool {
    exists|q: int| 0 <= q < a.len() && q < b.len() && #[trigger] a[q] != b[q]
}

impl Crew {
    pub open spec fn at(self, k: int) -> PathModel {
        self.paths[k]->Some_0
    }

    pub open spec fn walks(self, k: int) -> bool {
        0 <= k < self.paths.len() && self.paths[k] is Some
    }

    /// Walker `k` stands on the frozen branch `id`.
    pub open spec fn holds(self, k: int, j: int, id: int) -> bool {
        self.walks(k) && 0 <= j < self.at(k).frozen.len() && self.at(k).frozen[j] == id
    }

    pub open spec fn owes(self, s: Source) -> bool {
        match s {
            Source::Current(k) => self.walks(k),
            Source::Own(k, i, a) => self.walks(k) && self.at(k).frozen.len() <= i < self.at(
                k,
            ).branches.len() && offers(self.at(k).branches[i], a),
            Source::Shared(id, t) => 0 <= id < self.claims.len() && 0 <= t < 16 && bits::holds(
                self.claims[id].free(),
                t,
            ),
            Source::Held(a) => self.desk.choices.contains(a),
            _ => false,
        }
    }

    /// A race can make the crew owe it.
    pub open spec fn latent(self, s: Source) -> bool {
        match s {
            Source::Skipped(k, i, a) => self.walks(k) && self.at(k).frozen.len() <= i < self.at(
                k,
            ).branches.len() && skips(self.at(k).branches[i], a),
            Source::Closed(id, t) => 0 <= id < self.claims.len() && 0 <= t < 16 && bits::holds(
                self.claims[id].markable,
                t,
            ) && !bits::holds(self.claims[id].open, t),
            _ => false,
        }
    }

    pub open spec fn knows(self, s: Source) -> bool {
        self.owes(s) || self.latent(s)
    }

    pub open spec fn word(self, s: Source) -> Seq<Choice> {
        match s {
            Source::Current(k) => run(self.at(k)),
            Source::Own(k, i, a) => run(self.at(k)).take(i).push(a),
            Source::Shared(id, t) => self.place[id].push(Choice::Thread(Some(t))),
            Source::Held(a) => self.desk.prefix.push(a),
            Source::Skipped(k, i, a) => run(self.at(k)).take(i).push(a),
            Source::Closed(id, t) => self.place[id].push(Choice::Thread(Some(t))),
        }
    }

    /// The crew owes the runs that begin with `w`.
    pub open spec fn debt(self, w: Seq<Choice>) -> bool {
        exists|s: Source| #[trigger] self.owes(s) && self.word(s) == w
    }

    /// The crew owes the runs that begin with `w`, or a race can make it do so.
    pub open spec fn spoken_for(self, w: Seq<Choice>) -> bool {
        exists|s: Source| #[trigger] self.knows(s) && self.word(s) == w
    }

    /// No two beginnings lead to the same run.
    pub open spec fn apart(self) -> bool {
        forall|s: Source, u: Source|
            #![trigger self.knows(s), self.knows(u)]
            self.knows(s) && self.knows(u) && s != u ==> diverge(self.word(s), self.word(u))
    }

    /// The walkers are on valid paths, know where their frozen branches are,
    /// and what is open at a frozen branch has a walker that stands on it.
    pub open spec fn wf(self) -> bool {
        &&& self.place.len() == self.claims.len()
        &&& forall|k: int| #[trigger] self.walks(k) ==> self.at(k).inv(self.claims)
        &&& forall|k: int, j: int, id: int| #[trigger]
            self.holds(k, j, id) ==> self.place[id] == run(self.at(k)).take(j)
        &&& forall|id: int, t: int| #[trigger]
            self.owes(Source::Shared(id, t)) ==> exists|k: int, j: int| self.holds(k, j, id)
        &&& self.apart()
    }
}

/// `n` knows what `c` knows, without the source `gone`, under other names, and
/// owes what `c` owes.
pub proof fn lemma_renamed(
    c: Crew,
    n: Crew,
    back: spec_fn(Source) -> Source,
    forth: spec_fn(Source) -> Source,
    gone: Option<Source>,
)
    requires
        c.apart(),
        forall|s: Source| #[trigger]
            n.knows(s) ==> {
                &&& c.knows(back(s))
                &&& n.owes(s) ==> c.owes(back(s))
                &&& n.word(s) == c.word(back(s))
                &&& gone != Some(back(s))
                &&& forth(back(s)) == s
            },
        forall|s: Source| #[trigger]
            c.owes(s) && gone != Some(s) ==> n.owes(forth(s)) && n.word(forth(s)) == c.word(s),
        gone matches Some(g) ==> c.owes(g),
    ensures
        n.apart(),
        forall|w: Seq<Choice>| #[trigger]
            n.debt(w) == (c.debt(w) && (gone matches Some(g) ==> w != c.word(g))),
        forall|w: Seq<Choice>| #[trigger]
            n.spoken_for(w) ==> c.spoken_for(w) && (gone matches Some(g) ==> diverge(w, c.word(g))),
{
    assert forall|s: Source, u: Source|
        #![trigger n.knows(s), n.knows(u)]
        n.knows(s) && n.knows(u) && s != u implies diverge(n.word(s), n.word(u)) by {
        assert(back(s) != back(u));
        assert(c.knows(back(s)) && c.knows(back(u)));
    }
    assert forall|w: Seq<Choice>| #[trigger] n.spoken_for(w) implies c.spoken_for(w) && (
    gone matches Some(g) ==> diverge(w, c.word(g))) by {
        let s = choose|s: Source| #[trigger] n.knows(s) && n.word(s) == w;
        assert(c.knows(back(s)));
        if let Some(g) = gone {
            assert(c.knows(g));
            assert(diverge(c.word(back(s)), c.word(g)));
        }
    }
    assert forall|w: Seq<Choice>| #[trigger] n.debt(w) == (c.debt(w) && (gone matches Some(g)
        ==> w != c.word(g))) by {
        if n.debt(w) {
            let s = choose|s: Source| #[trigger] n.owes(s) && n.word(s) == w;
            assert(n.knows(s));
            assert(c.owes(back(s)));
            if let Some(g) = gone {
                assert(c.knows(g) && c.knows(back(s)));
                assert(diverge(c.word(back(s)), c.word(g)));
            }
        }
        if c.debt(w) && (gone matches Some(g) ==> w != c.word(g)) {
            let s = choose|s: Source| #[trigger] c.owes(s) && c.word(s) == w;
            assert(n.owes(forth(s)));
        }
    }
}

// ----- branches -----
/// A branch with no next choice offers nothing.
pub proof fn lemma_spent(p: PathModel, c: Seq<Frozen>, i: int, a: Choice)
    requires
        p.next_choice(c, i) is None,
        0 <= i < p.branches.len(),
    ensures
        p.frozen.len() <= i ==> !offers(p.branches[i], a),
        i < p.frozen.len() ==> c[p.frozen[i] as int].free() == 0,
{
    if i < p.frozen.len() {
        bits::lemma_first(c[p.frozen[i] as int].free());
    } else if let Entry::Schedule(s) = p.branches[i] {
        if let Choice::Thread(Some(t)) = a {
            if 0 <= t < MAX_THREADS && s.threads@[t] == Thread::Pending {
                assert(Class::Pending.admits(s.threads@[t]));
            }
        }
    }
}

/// Taking the next choice at an owned branch takes it out of what the branch
/// offers, and nothing else.
proof fn lemma_taken(p: PathModel, c: Seq<Frozen>, i: int, a: Choice)
    requires
        p.frozen.len() <= i < p.branches.len(),
        entry_wf(p.branches, i, p.preemption_bound),
        p.next_choice(c, i) is Some,
    ensures
        ({
            let e = p.branches[i];
            let n = p.next_choice(c, i)->Some_0;
            &&& offers(e, choice_of(n))
            &&& offers(n, a) == (offers(e, a) && a != choice_of(n))
            &&& skips(n, a) == skips(e, a)
        }),
{
    let e = p.branches[i];
    let n = p.next_choice(c, i)->Some_0;
    if let Entry::Schedule(s) = e {
        let t = first_slot(s.threads, Class::Pending)->Some_0;
        let f = s.finished().activated(t);
        assert(s.threads@[t] == Thread::Pending);
        assert forall|k: int| 0 <= k < MAX_THREADS implies #[trigger] f.threads@[k] == if k == t {
            Thread::Active
        } else if s.threads@[k] == Thread::Active {
            Thread::Visited
        } else {
            s.threads@[k]
        } by {}
        assert(f.active() == Some(t));
    }
}

/// The branch's own choice is not among those it offers.
pub proof fn lemma_own_choice(b: Seq<Entry>, i: int, bound: Option<u8>, a: Choice)
    requires
        0 <= i < b.len(),
        entry_wf(b, i, bound),
        offers(b[i], a) || skips(b[i], a),
    ensures
        a != choice_of(b[i]),
{
}

pub proof fn lemma_run_take(p: PathModel, q: PathModel, i: int, j: int)
    requires
        0 <= j <= i <= p.branches.len(),
        i <= q.branches.len(),
        q.branches.take(i) == p.branches.take(i),
    ensures
        run(q).take(j) == run(p).take(j),
{
    assert forall|k: int| 0 <= k < j implies run(q)[k] == run(p)[k] by {
        assert(q.branches.take(i)[k] == q.branches[k]);
        assert(p.branches.take(i)[k] == p.branches[k]);
    }
    assert(run(q).take(j) =~= run(p).take(j));
}

// ----- steps -----
impl Crew {
    /// The crew after walker `k` finished its run: it takes the next one, or is
    /// done.
    pub open spec fn finished(self, k: int) -> Crew {
        match self.at(k).stepped(self.claims) {
            Some((q, d)) => Crew { claims: d, paths: self.paths.update(k, Some(q)), ..self },
            None => Crew { paths: self.paths.update(k, None), ..self },
        }
    }
}

proof fn lemma_past_next_point(p: PathModel, c: Seq<Frozen>, n: int, j: int)
    requires
        0 <= j < n,
        p.next_point(c, n) matches Some(i) ==> i < j,
    ensures
        p.next_choice(c, j) is None,
    decreases n,
{
    if j < n - 1 && p.next_choice(c, n - 1) is None {
        lemma_past_next_point(p, c, n - 1, j);
    }
}

proof fn lemma_finished_done(c: Crew, k: int)
    requires
        c.wf(),
        c.walks(k),
        c.at(k).stepped(c.claims) is None,
    ensures
        c.finished(k).wf(),
        forall|w: Seq<Choice>| #[trigger]
            c.finished(k).debt(w) == (c.debt(w) && w != run(c.at(k))),
        forall|w: Seq<Choice>| #[trigger]
            c.finished(k).spoken_for(w) ==> c.spoken_for(w) && diverge(w, run(c.at(k))),
{
    let n = c.finished(k);
    let p = c.at(k);
    let len = p.branches.len() as int;
    assert(p.inv(c.claims));
    assert forall|j: int| 0 <= j < len implies #[trigger] p.next_choice(c.claims, j) is None by {
        lemma_past_next_point(p, c.claims, len, j);
    }
    assert forall|i: int, a: Choice| !c.owes(Source::Own(k, i, a)) by {
        if p.frozen.len() <= i < len {
            assert(p.next_choice(c.claims, i) is None);
            lemma_spent(p, c.claims, i, a);
        }
    }
    assert forall|j: int| 0 <= j < p.frozen.len() implies c.claims[(
    #[trigger] p.frozen[j]) as int].free() == 0 by {
        assert(p.next_choice(c.claims, j) is None);
        lemma_spent(p, c.claims, j, Choice::Value(0));
    }
    assert forall|m: int| #[trigger] n.walks(m) implies c.walks(m) && n.at(m) == c.at(m) && m
        != k by {}
    assert forall|id: int, t: int| #[trigger] n.owes(Source::Shared(id, t)) implies exists|
        m: int,
        j: int,
    | n.holds(m, j, id) by {
        assert(c.owes(Source::Shared(id, t)));
        let (m, j) = choose|m: int, j: int| c.holds(m, j, id);
        if m == k {
            assert(p.frozen[j] == id);
            bits::lemma_none(t);
        }
        assert(n.holds(m, j, id));
    }
    assert forall|m: int, j: int, id: int| #[trigger] n.holds(m, j, id) implies n.place[id] == run(
        n.at(m),
    ).take(j) by {
        assert(n.walks(m));
        assert(c.holds(m, j, id));
    }
    let same = |s: Source| s;
    assert forall|s: Source| #[trigger] n.knows(s) implies c.knows(s) && (n.owes(s) ==> c.owes(s))
        && n.word(s) == c.word(s) && s != Source::Current(k) by {
        match s {
            Source::Current(m) => {
                assert(n.walks(m));
            },
            Source::Own(m, i, a) => {
                assert(n.walks(m));
            },
            Source::Skipped(m, i, a) => {
                assert(n.walks(m));
            },
            _ => {},
        }
    }
    assert forall|s: Source| #[trigger] c.owes(s) && s != Source::Current(k) implies n.owes(s)
        && n.word(s) == c.word(s) by {
        match s {
            Source::Own(m, i, a) => {
                assert(m != k);
            },
            _ => {},
        }
    }
    lemma_renamed(c, n, same, same, Some(Source::Current(k)));
}

proof fn lemma_finished_own(c: Crew, k: int, i: int)
    requires
        c.wf(),
        c.walks(k),
        c.at(k).next_point(c.claims, c.at(k).branches.len() as int) == Some(i),
        c.at(k).frozen.len() <= i,
    ensures
        c.finished(k).wf(),
        forall|w: Seq<Choice>| #[trigger]
            c.finished(k).debt(w) == (c.debt(w) && w != run(c.at(k))),
        forall|w: Seq<Choice>| #[trigger]
            c.finished(k).spoken_for(w) ==> c.spoken_for(w) && diverge(w, run(c.at(k))),
{
    let n = c.finished(k);
    let p = c.at(k);
    let len = p.branches.len() as int;
    lemma_next_point(p, c.claims, len);
    assert(p.inv(c.claims));
    lemma_stepped_inv(p, c.claims, i);
    let q = n.at(k);
    let e = p.branches[i];
    let f = p.next_choice(c.claims, i)->Some_0;
    let b = choice_of(f);
    assert(entry_wf(p.branches, i, p.preemption_bound));
    assert(q.branches.take(i) =~= p.branches.take(i));
    assert(q.branches[i] == f);
    assert(run(q) =~= run(p).take(i).push(b)) by {
        lemma_run_take(p, q, i, i);
        assert forall|j: int| 0 <= j < i implies run(q)[j] == run(p)[j] by {
            assert(run(q).take(i)[j] == run(q)[j]);
            assert(run(p).take(i)[j] == run(p)[j]);
        }
    }
    assert forall|j: int| 0 <= j < i implies q.branches[j] == p.branches[j] by {
        assert(q.branches.take(i)[j] == q.branches[j]);
        assert(p.branches.take(i)[j] == p.branches[j]);
    }
    assert forall|m: int| #[trigger] n.walks(m) implies c.walks(m) && (m != k ==> n.at(m) == c.at(
        m,
    )) by {}
    assert forall|m: int| #[trigger] n.walks(m) implies n.at(m).inv(n.claims) by {
        assert(c.walks(m));
    }
    assert forall|m: int, j: int, id: int| #[trigger] n.holds(m, j, id) implies n.place[id] == run(
        n.at(m),
    ).take(j) by {
        assert(n.walks(m));
        assert(c.holds(m, j, id));
        if m == k {
            lemma_run_take(p, q, i, j);
        }
    }
    assert forall|id: int, t: int| #[trigger] n.owes(Source::Shared(id, t)) implies exists|
        m: int,
        j: int,
    | n.holds(m, j, id) by {
        assert(c.owes(Source::Shared(id, t)));
        let (m, j) = choose|m: int, j: int| c.holds(m, j, id);
        assert(n.holds(m, j, id));
    }
    let back = |s: Source|
        if s == Source::Current(k) {
            Source::Own(k, i, b)
        } else {
            s
        };
    let forth = |s: Source|
        if s == Source::Own(k, i, b) {
            Source::Current(k)
        } else {
            s
        };
    lemma_taken(p, c.claims, i, b);
    assert forall|s: Source| #[trigger] n.knows(s) implies {
        &&& c.knows(back(s))
        &&& n.owes(s) ==> c.owes(back(s))
        &&& n.word(s) == c.word(back(s))
        &&& back(s) != Source::Current(k)
        &&& forth(back(s)) == s
    } by {
        match s {
            Source::Current(m) => {
                assert(n.walks(m));
            },
            Source::Own(m, j, a) | Source::Skipped(m, j, a) => {
                assert(n.walks(m));
                if m == k {
                    lemma_taken(p, c.claims, i, a);
                    lemma_run_take(p, q, i, j);
                }
            },
            _ => {},
        }
    }
    assert forall|s: Source| #[trigger] c.owes(s) && s != Source::Current(k) implies n.owes(
        forth(s),
    ) && n.word(forth(s)) == c.word(s) by {
        match s {
            Source::Own(m, j, a) => {
                if m == k {
                    if j > i {
                        lemma_past_next_point(p, c.claims, len, j);
                        lemma_spent(p, c.claims, j, a);
                    }
                    lemma_taken(p, c.claims, i, a);
                    lemma_run_take(p, q, i, j);
                } else {
                    assert(n.walks(m));
                }
            },
            Source::Current(m) => {
                assert(n.walks(m));
            },
            _ => {},
        }
    }
    lemma_renamed(c, n, back, forth, Some(Source::Current(k)));
}

pub proof fn lemma_free_after(r: Frozen, t: int, u: int)
    requires
        0 <= t < 16,
        0 <= u < 16,
    ensures
        bits::holds(r.taken(t).free(), u) == (bits::holds(r.free(), u) && u != t),
{
    broadcast use bits::group_bits;

}

/// What is free at a frozen branch is a slot of a schedule that still takes
/// marks.
proof fn lemma_free_fits(p: PathModel, c: Seq<Frozen>, point: int, t: int)
    requires
        p.inv(c),
        0 <= point < p.frozen.len(),
        0 <= t < 16,
        bits::holds(c[p.frozen[point] as int].free(), t),
    ensures
        t < MAX_THREADS,
        fits(p.branches[point], Fixed::Thread(t as usize), p.preemption_bound),
{
    broadcast use bits::group_bits;

    let r = c[p.frozen[point] as int];
    assert(r.wf());
    assert(r.origin@ == super::origin_of(p.branches[point], p.preemption_bound));
    bits::lemma_empty(r.free());
    bits::lemma_empty(r.open);
}

proof fn lemma_finished_shared(c: Crew, k: int, i: int)
    requires
        c.wf(),
        c.walks(k),
        c.at(k).next_point(c.claims, c.at(k).branches.len() as int) == Some(i),
        i < c.at(k).frozen.len(),
    ensures
        c.finished(k).wf(),
        forall|w: Seq<Choice>| #[trigger]
            c.finished(k).debt(w) == (c.debt(w) && w != run(c.at(k))),
        forall|w: Seq<Choice>| #[trigger]
            c.finished(k).spoken_for(w) ==> c.spoken_for(w) && diverge(w, run(c.at(k))),
{
    let n = c.finished(k);
    let p = c.at(k);
    let len = p.branches.len() as int;
    lemma_next_point(p, c.claims, len);
    assert(p.inv(c.claims));
    lemma_stepped_inv(p, c.claims, i);
    let q = n.at(k);
    let id = p.frozen[i] as int;
    let t = bits::first(c.claims[id].free())->Some_0;
    bits::lemma_first(c.claims[id].free());
    lemma_free_fits(p, c.claims, i, t);
    let b = Choice::Thread(Some(t));
    assert(q.branches.take(i) =~= p.branches.take(i));
    assert(choice_of(q.branches[i]) == b);
    assert(run(q) =~= run(p).take(i).push(b)) by {
        lemma_run_take(p, q, i, i);
        assert forall|j: int| 0 <= j < i implies run(q)[j] == run(p)[j] by {
            assert(run(q).take(i)[j] == run(q)[j]);
            assert(run(p).take(i)[j] == run(p)[j]);
        }
    }
    assert(c.holds(k, i, id));
    assert forall|m: int| #[trigger] n.walks(m) implies c.walks(m) && (m != k ==> n.at(m) == c.at(
        m,
    )) by {}
    assert forall|m: int| #[trigger] n.walks(m) implies n.at(m).inv(n.claims) by {
        assert(c.walks(m));
        super::inv_survives_other_tasks(c.at(m), c.claims, n.claims);
    }
    assert forall|m: int, j: int, d: int| #[trigger] n.holds(m, j, d) implies n.place[d] == run(
        n.at(m),
    ).take(j) by {
        assert(n.walks(m));
        assert(c.holds(m, j, d));
        if m == k {
            lemma_run_take(p, q, i, j);
        }
    }
    assert forall|d: int, u: int| #[trigger] n.owes(Source::Shared(d, u)) implies c.owes(
        Source::Shared(d, u),
    ) && (d, u) != (id, t) by {
        lemma_free_after(c.claims[id], t, u);
    }
    assert forall|d: int, u: int| #[trigger] n.owes(Source::Shared(d, u)) implies exists|
        m: int,
        j: int,
    | n.holds(m, j, d) by {
        assert(c.owes(Source::Shared(d, u)));
        let (m, j) = choose|m: int, j: int| c.holds(m, j, d);
        if m == k && j > i {
            lemma_past_next_point(p, c.claims, len, j);
            lemma_spent(p, c.claims, j, b);
            bits::lemma_none(u);
        }
        assert(n.holds(m, j, d));
    }
    let back = |s: Source|
        if s == Source::Current(k) {
            Source::Shared(id, t)
        } else {
            s
        };
    let forth = |s: Source|
        if s == Source::Shared(id, t) {
            Source::Current(k)
        } else {
            s
        };
    assert forall|s: Source| #[trigger] n.knows(s) implies {
        &&& c.knows(back(s))
        &&& n.owes(s) ==> c.owes(back(s))
        &&& n.word(s) == c.word(back(s))
        &&& back(s) != Source::Current(k)
        &&& forth(back(s)) == s
    } by {
        match s {
            Source::Current(m) => {
                assert(n.walks(m));
            },
            Source::Own(m, j, a) | Source::Skipped(m, j, a) => {
                assert(n.walks(m));
            },
            _ => {},
        }
    }
    assert forall|s: Source| #[trigger] c.owes(s) && s != Source::Current(k) implies n.owes(
        forth(s),
    ) && n.word(forth(s)) == c.word(s) by {
        match s {
            Source::Own(m, j, a) => {
                if m == k {
                    lemma_past_next_point(p, c.claims, len, j);
                    lemma_spent(p, c.claims, j, a);
                } else {
                    assert(n.walks(m));
                }
            },
            Source::Current(m) => {
                assert(n.walks(m));
            },
            Source::Shared(d, u) => {
                lemma_free_after(c.claims[id], t, u);
            },
            _ => {},
        }
    }
    lemma_renamed(c, n, back, forth, Some(Source::Current(k)));
}

/// A walker that finishes its run takes it out of what the crew owes, and
/// nothing else.
pub proof fn lemma_finished(c: Crew, k: int)
    requires
        c.wf(),
        c.walks(k),
    ensures
        c.finished(k).wf(),
        forall|w: Seq<Choice>| #[trigger]
            c.finished(k).debt(w) == (c.debt(w) && w != run(c.at(k))),
        forall|w: Seq<Choice>| #[trigger]
            c.finished(k).spoken_for(w) ==> c.spoken_for(w) && diverge(w, run(c.at(k))),
{
    let p = c.at(k);
    match p.next_point(c.claims, p.branches.len() as int) {
        None => {
            lemma_finished_done(c, k);
        },
        Some(i) => {
            if i < p.frozen.len() {
                lemma_finished_shared(c, k, i);
            } else {
                lemma_finished_own(c, k, i);
            }
        },
    }
}

// ----- handing out -----
/// The crew with one more walker.
pub open spec fn joined(c: Crew, claims: Seq<Frozen>, p: PathModel, desk: Desk) -> Crew {
    Crew { claims, paths: c.paths.push(Some(p)), desk, ..c }
}

/// The two crews owe the same, and the second knows of nothing more.
pub open spec fn same_debts(c: Crew, n: Crew) -> bool {
    &&& forall|w: Seq<Choice>| #[trigger] n.debt(w) == c.debt(w)
    &&& forall|w: Seq<Choice>| #[trigger] n.spoken_for(w) ==> c.spoken_for(w)
}

/// An open alternative at a frozen branch becomes a task.
pub proof fn lemma_hand_thread(c: Crew, k: int, point: int, t: int)
    requires
        c.wf(),
        c.walks(k),
        0 <= point < c.at(k).frozen.len(),
        0 <= t < 16,
        bits::holds(c.claims[c.at(k).frozen[point] as int].free(), t),
    ensures
        ({
            let id = c.at(k).frozen[point] as int;
            let d = c.claims.update(id, c.claims[id].taken(t));
            let n = joined(c, d, c.at(k).task(d, point, Fixed::Thread(t as usize)), c.desk);
            n.wf() && same_debts(c, n)
        }),
{
    let p = c.at(k);
    let id = p.frozen[point] as int;
    let d = c.claims.update(id, c.claims[id].taken(t));
    let task = p.task(d, point, Fixed::Thread(t as usize));
    let n = joined(c, d, task, c.desk);
    let new = c.paths.len() as int;
    let b = Choice::Thread(Some(t));
    assert(p.inv(c.claims));
    lemma_free_fits(p, c.claims, point, t);
    let s0 = Split { path: p, claims: c.claims, tasks: Seq::empty() };
    lemma_handed_inv(s0, point, Fixed::Thread(t as usize));
    assert(s0.handed(point, Fixed::Thread(t as usize)).tasks[0] == task);
    assert(task.branches.take(point) =~= p.branches.take(point));
    assert(choice_of(task.branches[point]) == b);
    assert(c.holds(k, point, id));
    assert(run(task) =~= run(p).take(point).push(b)) by {
        lemma_run_take(p, task, point, point);
        assert forall|j: int| 0 <= j < point implies run(task)[j] == run(p)[j] by {
            assert(run(task).take(point)[j] == run(task)[j]);
            assert(run(p).take(point)[j] == run(p)[j]);
        }
    }
    assert forall|m: int| #[trigger] n.walks(m) && m != new implies c.walks(m) && n.at(m) == c.at(
        m,
    ) by {}
    assert forall|m: int| #[trigger] n.walks(m) implies n.at(m).inv(n.claims) by {
        if m != new {
            assert(c.walks(m));
            super::inv_survives_other_tasks(c.at(m), c.claims, n.claims);
        }
    }
    assert forall|m: int, j: int, e: int| #[trigger] n.holds(m, j, e) implies n.place[e] == run(
        n.at(m),
    ).take(j) by {
        assert(n.walks(m));
        if m == new {
            assert(c.holds(k, j, e));
            lemma_run_take(p, task, point, j);
        } else {
            assert(c.holds(m, j, e));
        }
    }
    assert forall|e: int, u: int| #[trigger] n.owes(Source::Shared(e, u)) implies c.owes(
        Source::Shared(e, u),
    ) && (e, u) != (id, t) by {
        lemma_free_after(c.claims[id], t, u);
    }
    assert forall|e: int, u: int| #[trigger] n.owes(Source::Shared(e, u)) implies exists|
        m: int,
        j: int,
    | n.holds(m, j, e) by {
        assert(c.owes(Source::Shared(e, u)));
        let (m, j) = choose|m: int, j: int| c.holds(m, j, e);
        assert(n.holds(m, j, e));
    }
    let back = |s: Source|
        if s == Source::Current(new) {
            Source::Shared(id, t)
        } else {
            s
        };
    let forth = |s: Source|
        if s == Source::Shared(id, t) {
            Source::Current(new)
        } else {
            s
        };
    assert forall|s: Source| #[trigger] n.knows(s) implies {
        &&& c.knows(back(s))
        &&& n.owes(s) ==> c.owes(back(s))
        &&& n.word(s) == c.word(back(s))
        &&& forth(back(s)) == s
    } by {
        match s {
            Source::Current(m) => {
                assert(n.walks(m));
            },
            Source::Own(m, j, a) | Source::Skipped(m, j, a) => {
                assert(n.walks(m));
            },
            _ => {},
        }
    }
    assert forall|s: Source| #[trigger] c.owes(s) implies n.owes(forth(s)) && n.word(forth(s))
        == c.word(s) by {
        match s {
            Source::Current(m) => {
                assert(n.walks(m));
            },
            Source::Own(m, j, a) => {
                assert(n.walks(m));
            },
            Source::Shared(e, u) => {
                lemma_free_after(c.claims[id], t, u);
            },
            _ => {},
        }
    }
    lemma_renamed(c, n, back, forth, None);
}

/// What a task for `fixed` at a branch takes off the desk.
pub open spec fn takes(e: Entry, fixed: Fixed, a: Choice) -> bool {
    match fixed {
        Fixed::Thread(t) => a == Choice::Thread(Some(t as int)),
        Fixed::Value(v) => a == Choice::Value(v as int),
        Fixed::Rest(v) => a matches Choice::Value(x) && v <= x < e->Load_0.len,
        Fixed::Spurious => a == Choice::Spurious(true),
    }
}

/// An alternative on the desk becomes a task, or several of them do.
pub proof fn lemma_hand_held(c: Crew, k: int, fixed: Fixed)
    requires
        c.wf(),
        c.walks(k),
        c.at(k).frozen.len() > 0,
        !(fixed is Thread),
        ({
            let p = c.at(k);
            let point = p.frozen.len() - 1;
            let e = p.branches[point];
            &&& fits(e, fixed, p.preemption_bound)
            &&& c.desk.prefix == run(p).take(point)
            &&& forall|a: Choice| #[trigger]
                takes(e, fixed, a) ==> c.desk.choices.contains(a)
            &&& fixed is Rest ==> e->Load_0.exploring
        }),
    ensures
        ({
            let p = c.at(k);
            let point = p.frozen.len() - 1;
            let e = p.branches[point];
            let n = joined(
                c,
                c.claims,
                p.task(c.claims, point, fixed),
                Desk {
                    choices: c.desk.choices.filter(|a: Choice| !takes(e, fixed, a)),
                    ..c.desk
                },
            );
            n.wf() && same_debts(c, n)
        }),
{
    let p = c.at(k);
    let point = p.frozen.len() - 1;
    let e = p.branches[point];
    let task = p.task(c.claims, point, fixed);
    let desk = Desk {
        choices: c.desk.choices.filter(|a: Choice| !takes(e, fixed, a)),
        ..c.desk
    };
    let n = joined(c, c.claims, task, desk);
    let new = c.paths.len() as int;
    let b = choice_of(task.branches[point]);
    assert(takes(e, fixed, b));
    assert(p.inv(c.claims));
    let s0 = Split { path: p, claims: c.claims, tasks: Seq::empty() };
    lemma_handed_inv(s0, point, fixed);
    assert(s0.handed(point, fixed).tasks[0] == task);
    assert(task.branches.take(point) =~= p.branches.take(point));
    assert(run(task) =~= run(p).take(point).push(b)) by {
        lemma_run_take(p, task, point, point);
        assert forall|j: int| 0 <= j < point implies run(task)[j] == run(p)[j] by {
            assert(run(task).take(point)[j] == run(task)[j]);
            assert(run(p).take(point)[j] == run(p)[j]);
        }
    }
    assert(run(task).take(point) =~= run(p).take(point));
    assert forall|m: int| #[trigger] n.walks(m) && m != new implies c.walks(m) && n.at(m) == c.at(
        m,
    ) by {}
    assert forall|m: int| #[trigger] n.walks(m) implies n.at(m).inv(n.claims) by {
        if m != new {
            assert(c.walks(m));
        }
    }
    assert forall|m: int, j: int, d: int| #[trigger] n.holds(m, j, d) implies n.place[d] == run(
        n.at(m),
    ).take(j) by {
        assert(n.walks(m));
        if m == new {
            assert(c.holds(k, j, d));
            lemma_run_take(p, task, point, j);
        } else {
            assert(c.holds(m, j, d));
        }
    }
    assert forall|d: int, u: int| #[trigger] n.owes(Source::Shared(d, u)) implies exists|
        m: int,
        j: int,
    | n.holds(m, j, d) by {
        assert(c.owes(Source::Shared(d, u)));
        let (m, j) = choose|m: int, j: int| c.holds(m, j, d);
        assert(n.holds(m, j, d));
    }
    let back = |s: Source|
        match s {
            Source::Current(m) => if m == new {
                Source::Held(b)
            } else {
                s
            },
            Source::Own(m, i, a) => if m == new {
                Source::Held(a)
            } else {
                s
            },
            _ => s,
        };
    let forth = |s: Source|
        match s {
            Source::Held(a) => if a == b {
                Source::Current(new)
            } else if takes(e, fixed, a) {
                Source::Own(new, point, a)
            } else {
                s
            },
            _ => s,
        };
    assert forall|s: Source| #[trigger] n.knows(s) implies {
        &&& c.knows(back(s))
        &&& n.owes(s) ==> c.owes(back(s))
        &&& n.word(s) == c.word(back(s))
        &&& forth(back(s)) == s
    } by {
        match s {
            Source::Current(m) => {
                assert(n.walks(m));
            },
            Source::Own(m, j, a) => {
                assert(n.walks(m));
                if m == new {
                    assert(fixed is Rest);
                    assert(j == point);
                    assert(takes(e, fixed, a));
                }
            },
            Source::Skipped(m, j, a) => {
                assert(n.walks(m));
            },
            _ => {},
        }
    }
    assert forall|s: Source| #[trigger] c.owes(s) implies n.owes(forth(s)) && n.word(forth(s))
        == c.word(s) by {
        match s {
            Source::Current(m) => {
                assert(n.walks(m));
            },
            Source::Own(m, j, a) => {
                assert(n.walks(m));
            },
            Source::Held(a) => {
                assert(n.walks(new));
                if takes(e, fixed, a) && a != b {
                    assert(fixed is Rest);
                }
            },
            _ => {},
        }
    }
    lemma_renamed(c, n, back, forth, None);
}

// ----- freezing -----
/// The crew after walker `k` froze its shallowest owned branch: what a schedule
/// offers is open to all from now on, and what another branch offers is on the
/// desk.
pub open spec fn sealed(c: Crew, k: int) -> Crew {
    let p = c.at(k);
    let i = p.frozen.len() as int;
    let e = p.branches[i];
    Crew {
        claims: c.claims.push(record_of(e, p.preemption_bound)),
        paths: c.paths.update(
            k,
            Some(PathModel { frozen: p.frozen.push(c.claims.len() as usize), ..p }),
        ),
        place: c.place.push(run(p).take(i)),
        desk: Desk {
            prefix: run(p).take(i),
            choices: if e is Schedule {
                Set::empty()
            } else {
                Set::new(|a: Choice| offers(e, a))
            },
        },
    }
}

pub proof fn lemma_record_free(e: Entry, bound: Option<u8>, t: int)
    requires
        0 <= t < 16,
    ensures
        bits::holds(record_of(e, bound).free(), t) == (e is Schedule && offers(
            e,
            Choice::Thread(Some(t)),
        )),
        (bits::holds(record_of(e, bound).markable, t) && !bits::holds(record_of(e, bound).open, t))
            == skips(e, Choice::Thread(Some(t))),
{
    broadcast use bits::group_bits;
    broadcast use lemma_slot_mask;

}

pub proof fn lemma_sealed(c: Crew, k: int)
    requires
        c.wf(),
        c.walks(k),
        c.at(k).frozen.len() < c.at(k).branches.len(),
        c.claims.len() < usize::MAX,
        c.desk.choices == Set::<Choice>::empty(),
    ensures
        sealed(c, k).wf(),
        same_debts(c, sealed(c, k)),
{
    let n = sealed(c, k);
    let p = c.at(k);
    let i = p.frozen.len() as int;
    let e = p.branches[i];
    let id = c.claims.len() as int;
    let q = n.at(k);
    let schedule = e is Schedule;
    assert(p.inv(c.claims));
    let s0 = Split { path: p, claims: c.claims, tasks: Seq::empty() };
    lemma_sealed_inv(s0);
    assert(s0.sealed_next().path == q);
    assert(s0.sealed_next().claims == n.claims);
    assert(run(q) =~= run(p));
    assert forall|m: int| #[trigger] n.walks(m) implies c.walks(m) && (m != k ==> n.at(m) == c.at(
        m,
    )) by {}
    assert forall|m: int| #[trigger] n.walks(m) implies n.at(m).inv(n.claims) by {
        assert(c.walks(m));
        if m != k {
            super::inv_survives_other_tasks(c.at(m), c.claims, n.claims);
        }
    }
    assert forall|m: int, j: int, d: int| #[trigger] n.holds(m, j, d) implies n.place[d] == run(
        n.at(m),
    ).take(j) by {
        assert(n.walks(m));
        if !(m == k && j == i) {
            assert(c.holds(m, j, d));
            assert(c.at(m).inv(c.claims));
            assert(c.at(m).frozen[j] < c.claims.len());
        }
    }
    assert forall|d: int, u: int| #[trigger] n.owes(Source::Shared(d, u)) implies (if d == id {
        c.owes(Source::Own(k, i, Choice::Thread(Some(u))))
    } else {
        c.owes(Source::Shared(d, u))
    }) by {
        if d == id {
            lemma_record_free(e, p.preemption_bound, u);
        }
    }
    assert forall|d: int, u: int| #[trigger] n.owes(Source::Shared(d, u)) implies exists|
        m: int,
        j: int,
    | n.holds(m, j, d) by {
        if d == id {
            assert(n.holds(k, i, id));
        } else {
            assert(c.owes(Source::Shared(d, u)));
            let (m, j) = choose|m: int, j: int| c.holds(m, j, d);
            assert(n.holds(m, j, d));
        }
    }
    let back = |s: Source|
        match s {
            Source::Shared(d, u) => if d == id {
                Source::Own(k, i, Choice::Thread(Some(u)))
            } else {
                s
            },
            Source::Closed(d, u) => if d == id {
                Source::Skipped(k, i, Choice::Thread(Some(u)))
            } else {
                s
            },
            Source::Held(a) => Source::Own(k, i, a),
            _ => s,
        };
    let forth = |s: Source|
        match s {
            Source::Own(m, j, a) => if m == k && j == i {
                if schedule {
                    Source::Shared(id, a->Thread_0->Some_0)
                } else {
                    Source::Held(a)
                }
            } else {
                s
            },
            Source::Skipped(m, j, a) => if m == k && j == i {
                Source::Closed(id, a->Thread_0->Some_0)
            } else {
                s
            },
            _ => s,
        };
    assert forall|s: Source| #[trigger] n.knows(s) implies {
        &&& c.knows(back(s))
        &&& n.owes(s) ==> c.owes(back(s))
        &&& n.word(s) == c.word(back(s))
        &&& forth(back(s)) == s
    } by {
        match s {
            Source::Current(m) => {
                assert(n.walks(m));
            },
            Source::Own(m, j, a) | Source::Skipped(m, j, a) => {
                assert(n.walks(m));
            },
            Source::Shared(d, u) | Source::Closed(d, u) => {
                if d == id {
                    lemma_record_free(e, p.preemption_bound, u);
                }
            },
            _ => {},
        }
    }
    assert forall|s: Source| #[trigger] c.owes(s) implies n.owes(forth(s)) && n.word(forth(s))
        == c.word(s) by {
        match s {
            Source::Current(m) => {
                assert(n.walks(m));
            },
            Source::Own(m, j, a) => {
                assert(n.walks(m));
                if m == k && j == i && schedule {
                    lemma_record_free(e, p.preemption_bound, a->Thread_0->Some_0);
                }
            },
            _ => {},
        }
    }
    lemma_renamed(c, n, back, forth, None);
}

// ----- races -----
impl Crew {
    /// The crew after walker `k` recorded a race of thread `t` on its branch
    /// `i`.
    pub open spec fn raced(self, k: int, i: int, t: int, conservative: bool) -> Crew {
        let (q, d) = self.at(k).marked(self.claims, i, t, conservative);
        Crew { claims: d, paths: self.paths.update(k, Some(q)), ..self }
    }
}

/// A race makes the crew owe more, all of which could be asked for before.
pub proof fn lemma_raced(c: Crew, k: int, i: int, t: int, conservative: bool)
    requires
        c.wf(),
        c.walks(k),
        0 <= i < c.at(k).branches.len(),
        c.at(k).branches[i] is Schedule,
        0 <= t,
    ensures
        c.raced(k, i, t, conservative).wf(),
        forall|w: Seq<Choice>| #[trigger]
            c.debt(w) ==> c.raced(k, i, t, conservative).debt(w),
        forall|w: Seq<Choice>| #[trigger]
            c.raced(k, i, t, conservative).spoken_for(w) ==> c.spoken_for(w),
{
    broadcast use bits::group_bits;

    let n = c.raced(k, i, t, conservative);
    let p = c.at(k);
    let q = n.at(k);
    let s0 = p.schedule_at(i);
    let s1 = q.schedule_at(i);
    assert(p.inv(c.claims));
    lemma_marked_inv(p, c.claims, i, t, conservative);
    if t < MAX_THREADS {
        mark_keeps_the_choice(s0, t, conservative);
        lemma_mark_slots(s0, t, conservative);
    }
    assert(q.branches.len() == p.branches.len());
    assert(run(q) =~= run(p));
    let id = p.frozen[i] as int;
    let frozen = i < p.frozen.len();
    if frozen {
        assert(c.holds(k, i, id));
        assert(p.frozen[i] < c.claims.len());
    }
    assert forall|m: int| #[trigger] n.walks(m) implies c.walks(m) && (m != k ==> n.at(m) == c.at(
        m,
    )) by {}
    assert forall|m: int| #[trigger] n.walks(m) implies n.at(m).inv(n.claims) by {
        assert(c.walks(m));
        if m != k {
            super::inv_survives_other_tasks(c.at(m), c.claims, n.claims);
        }
    }
    assert forall|m: int, j: int, d: int| #[trigger] n.holds(m, j, d) implies n.place[d] == run(
        n.at(m),
    ).take(j) by {
        assert(n.walks(m));
        assert(c.holds(m, j, d));
    }
    assert forall|d: int, u: int| #[trigger] n.owes(Source::Shared(d, u)) implies exists|
        m: int,
        j: int,
    | n.holds(m, j, d) by {
        if c.owes(Source::Shared(d, u)) {
            let (m, j) = choose|m: int, j: int| c.holds(m, j, d);
            assert(n.holds(m, j, d));
        } else {
            assert(frozen && d == id);
            assert(n.holds(k, i, id));
        }
    }
    let back = |s: Source|
        match s {
            Source::Own(m, j, a) => if m == k && j == i && skips(p.branches[i], a) {
                Source::Skipped(k, i, a)
            } else {
                s
            },
            Source::Shared(d, u) => if !bits::holds(c.claims[d].open, u) {
                Source::Closed(d, u)
            } else {
                s
            },
            _ => s,
        };
    assert forall|s: Source| #[trigger] n.knows(s) implies c.knows(back(s)) && n.word(s) == c.word(
        back(s),
    ) by {
        match s {
            Source::Current(m) => {
                assert(n.walks(m));
            },
            Source::Own(m, j, a) => {
                assert(n.walks(m));
                if m == k && j != i {
                    assert(q.branches[j] == p.branches[j]);
                }
            },
            Source::Skipped(m, j, a) => {
                assert(n.walks(m));
                if m == k && j != i {
                    assert(q.branches[j] == p.branches[j]);
                }
            },
            _ => {},
        }
    }
    assert forall|s: Source, u: Source|
        #![trigger n.knows(s), n.knows(u)]
        n.knows(s) && n.knows(u) && s != u implies diverge(n.word(s), n.word(u)) by {
        assert(c.knows(back(s)) && c.knows(back(u)));
        assert(back(s) != back(u));
    }
    assert forall|w: Seq<Choice>| #[trigger] n.spoken_for(w) implies c.spoken_for(w) by {
        let s = choose|s: Source| #[trigger] n.knows(s) && n.word(s) == w;
        assert(c.knows(back(s)));
    }
    assert forall|w: Seq<Choice>| #[trigger] c.debt(w) implies n.debt(w) by {
        let s = choose|s: Source| #[trigger] c.owes(s) && c.word(s) == w;
        match s {
            Source::Current(m) => {
                assert(n.walks(m));
            },
            Source::Own(m, j, a) => {
                assert(n.walks(m));
                if m == k && j != i {
                    assert(q.branches[j] == p.branches[j]);
                }
            },
            _ => {},
        }
        assert(n.owes(s) && n.word(s) == w);
    }
}

/// Thread `t` can run at branch `i` of walker `k`.
pub open spec fn can_run_at(c: Crew, k: int, i: int, t: int) -> bool {
    if i < c.at(k).frozen.len() {
        bits::holds(c.claims[c.at(k).frozen[i] as int].enabled, t)
    } else {
        c.at(k).schedule_at(i).threads@[t] != Thread::Disabled
    }
}

/// A race opens what was passed over: where a branch still takes marks, the
/// thread that races there is owed from then on. Where that thread cannot run
/// there, everyone is who was passed over.
pub proof fn a_race_opens_what_was_passed_over(
    c: Crew,
    k: int,
    i: int,
    t: int,
    u: int,
    conservative: bool,
)
    requires
        c.wf(),
        c.walks(k),
        0 <= i < c.at(k).branches.len(),
        c.at(k).branches[i] is Schedule,
        0 <= t < MAX_THREADS,
        0 <= u < MAX_THREADS,
        u == t || !can_run_at(c, k, i, t),
        !saturated(c.at(k).schedule_at(i), c.at(k).preemption_bound),
        if i < c.at(k).frozen.len() {
            &&& c.latent(Source::Closed(c.at(k).frozen[i] as int, u))
            &&& !bits::holds(c.claims[c.at(k).frozen[i] as int].claimed, u)
        } else {
            c.latent(Source::Skipped(k, i, Choice::Thread(Some(u))))
        },
    ensures
        c.raced(k, i, t, conservative).debt(
            run(c.at(k)).take(i).push(Choice::Thread(Some(u))),
        ),
{
    broadcast use bits::group_bits;
    broadcast use lemma_slot_mask;

    lemma_all_threads(u);
    let n = c.raced(k, i, t, conservative);
    let p = c.at(k);
    let q = n.at(k);
    let w = run(p).take(i).push(Choice::Thread(Some(u)));
    assert(p.inv(c.claims));
    lemma_marked_inv(p, c.claims, i, t, conservative);
    mark_keeps_the_choice(p.schedule_at(i), t, conservative);
    assert(run(q) =~= run(p));
    if i < p.frozen.len() {
        let id = p.frozen[i] as int;
        assert(c.holds(k, i, id));
        assert(p.frozen[i] < c.claims.len());
        let mask = candidates(bits::holds(c.claims[id].enabled, t), t) & c.claims[id].markable;
        assert(bits::holds(mask, u));
        bits::lemma_empty(mask);
        let s = Source::Shared(id, u);
        assert(bits::holds(n.claims[id].free(), u));
        assert(n.owes(s) && n.word(s) == w);
    } else {
        let s = Source::Own(k, i, Choice::Thread(Some(u)));
        assert(n.walks(k));
        assert(q.schedule_at(i).threads@[u] == Thread::Pending);
        assert(n.owes(s) && n.word(s) == w);
    }
}

/// A mark makes threads that were passed over pending, and changes no other.
proof fn lemma_mark_slots(s: Schedule, t: int, conservative: bool)
    requires
        0 <= t < MAX_THREADS,
    ensures
        forall|u: int|
            0 <= u < MAX_THREADS ==> {
                let a = s.threads@[u];
                let b = #[trigger] s.marked(t, conservative).threads@[u];
                b == a || (a == Thread::Skip && b == Thread::Pending)
            },
        s.marked(t, conservative).exploring == s.exploring,
{
    broadcast use bits::group_bits;
    broadcast use lemma_slot_mask;

}

} // verus!
