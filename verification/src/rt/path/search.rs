//! Searches of a whole tree: however it is divided among walkers, every run is
//! made, and made once.
use vstd::prelude::*;

use super::crew::{
    begins, diverge, lemma_finished, lemma_own_choice, lemma_raced, lemma_run_take, offers, run, Crew,
    Source,
};
use super::laws::{choice_of, Choice};
use super::shards::{a_split_divides_the_tree, no_desk};
use super::{entry_wf, lemma_pushed_inv, PathModel};
use crate::rt::branch::Entry;
use crate::rt::claims::Frozen;

verus! {

// ----- programs -----
/// A program under exploration: the branch that it comes to after the choices
/// so far, or none at its end.
pub type Program = spec_fn(Seq<Choice>) -> Option<Entry>;

/// The branch stands for the choice, or offers it.
pub open spec fn allows(e: Entry, a: Choice) -> bool {
    a == choice_of(e) || offers(e, a)
}

/// The program comes to a branch that allows choice `j`.
pub open spec fn goes_on(t: Program, r: Seq<Choice>, j: int) -> bool {
    t(r.take(j)) matches Some(e) && allows(e, r[j])
}

/// A run of the program to its end that begins with `w`, and from there on takes
/// what the branches allow.
pub open spec fn reaches(t: Program, w: Seq<Choice>, r: Seq<Choice>) -> bool {
    &&& begins(w, r)
    &&& t(r) is None
    &&& forall|j: int| w.len() <= j < r.len() ==> #[trigger] goes_on(t, r, j)
}

impl Crew {
    /// The crew is valid, and nothing is on the desk.
    pub open spec fn ready(self) -> bool {
        self.wf() && self.desk.choices == Set::<Choice>::empty()
    }

    /// The run is still to be made.
    pub open spec fn ahead(self, t: Program, r: Seq<Choice>) -> bool {
        exists|w: Seq<Choice>| #[trigger] self.debt(w) && reaches(t, w, r)
    }

    /// The run is never to be made again, whatever races there are.
    pub open spec fn past(self, r: Seq<Choice>) -> bool {
        forall|w: Seq<Choice>| #[trigger] self.spoken_for(w) ==> diverge(w, r)
    }

    /// The crew after walker `k` came to the branch `e`.
    pub open spec fn grown(self, k: int, e: Entry) -> Crew {
        Crew { paths: self.paths.update(k, Some(self.at(k).extended(e))), ..self }
    }
}

proof fn lemma_debt_is_spoken_for(c: Crew, w: Seq<Choice>)
    requires
        c.debt(w),
    ensures
        c.spoken_for(w),
{
    let s = choose|s: Source| #[trigger] c.owes(s) && c.word(s) == w;
    assert(c.knows(s));
}

proof fn lemma_diverge_on(a: Seq<Choice>, b: Seq<Choice>, x: Seq<Choice>, y: Seq<Choice>)
    requires
        diverge(a, b),
        begins(a, x),
        begins(b, y),
    ensures
        diverge(x, y),
{
    let q = choose|q: int| 0 <= q < a.len() && q < b.len() && #[trigger] a[q] != b[q];
    assert(x.take(a.len() as int)[q] == x[q]);
    assert(y.take(b.len() as int)[q] == y[q]);
    assert(x[q] != y[q]);
}

proof fn lemma_begins_itself(w: Seq<Choice>)
    ensures
        begins(w, w),
{
    assert(w.take(w.len() as int) =~= w);
}

proof fn lemma_past_is_not_ahead(c: Crew, t: Program, r: Seq<Choice>)
    requires
        c.past(r),
    ensures
        !c.ahead(t, r),
{
    if c.ahead(t, r) {
        let w = choose|w: Seq<Choice>| #[trigger] c.debt(w) && reaches(t, w, r);
        lemma_debt_is_spoken_for(c, w);
        assert(diverge(w, r));
        let q = choose|q: int| 0 <= q < w.len() && q < r.len() && #[trigger] w[q] != r[q];
        assert(r.take(w.len() as int)[q] == r[q]);
    }
}

proof fn lemma_finish(c: Crew, t: Program, k: int, r: Seq<Choice>)
    requires
        c.ready(),
        c.walks(k),
        t(run(c.at(k))) is None,
    ensures
        c.finished(k).ready(),
        c.ahead(t, run(c.at(k))),
        c.finished(k).past(run(c.at(k))),
        c.ahead(t, r) && r != run(c.at(k)) ==> c.finished(k).ahead(t, r),
        c.finished(k).ahead(t, r) ==> c.ahead(t, r),
        c.past(r) ==> c.finished(k).past(r),
{
    let n = c.finished(k);
    let w = run(c.at(k));
    lemma_finished(c, k);
    assert(c.owes(Source::Current(k)));
    assert(c.debt(w));
    lemma_begins_itself(w);
    assert(reaches(t, w, w));
    if n.ahead(t, r) {
        let v = choose|v: Seq<Choice>| #[trigger] n.debt(v) && reaches(t, v, r);
        assert(c.debt(v));
    }
    if c.ahead(t, r) && r != w {
        let v = choose|v: Seq<Choice>| #[trigger] c.debt(v) && reaches(t, v, r);
        if v == w {
            if r.len() == w.len() {
                assert(r.take(w.len() as int) =~= r);
            } else {
                assert(goes_on(t, r, w.len() as int));
            }
        }
        assert(n.debt(v));
    }
}

pub proof fn lemma_grown(c: Crew, k: int, e: Entry)
    requires
        c.wf(),
        c.walks(k),
        !c.at(k).full(),
        entry_wf(
            c.at(k).branches.push(e),
            c.at(k).branches.len() as int,
            c.at(k).preemption_bound,
        ),
    ensures
        c.grown(k, e).wf(),
        forall|v: Seq<Choice>| #[trigger]
            c.grown(k, e).debt(v) == ((c.debt(v) && v != run(c.at(k))) || exists|a: Choice|
                allows(e, a) && v == #[trigger] run(c.at(k)).push(a)),
        forall|v: Seq<Choice>| #[trigger]
            c.grown(k, e).spoken_for(v) ==> exists|u: Seq<Choice>| #[trigger]
                c.spoken_for(u) && begins(u, v),
{
    let n = c.grown(k, e);
    let p = c.at(k);
    let q = n.at(k);
    let len = p.branches.len() as int;
    let w = run(p);
    assert(p.inv(c.claims));
    lemma_pushed_inv(p, e, c.claims);
    assert(q.branches.take(len) =~= p.branches.take(len));
    assert(run(q) =~= w.push(choice_of(e)));
    assert(w.take(len) =~= w);
    assert forall|m: int| #[trigger] n.walks(m) implies c.walks(m) && (m != k ==> n.at(m) == c.at(
        m,
    )) by {}
    assert forall|m: int| #[trigger] n.walks(m) implies n.at(m).inv(n.claims) by {
        assert(c.walks(m));
    }
    assert forall|m: int, j: int, d: int| #[trigger] n.holds(m, j, d) implies n.place[d] == run(
        n.at(m),
    ).take(j) by {
        assert(n.walks(m));
        assert(c.holds(m, j, d));
        if m == k {
            lemma_run_take(p, q, len, j);
        }
    }
    assert forall|d: int, u: int| #[trigger] n.owes(Source::Shared(d, u)) implies exists|
        m: int,
        j: int,
    | n.holds(m, j, d) by {
        assert(c.owes(Source::Shared(d, u)));
        let (m, j) = choose|m: int, j: int| c.holds(m, j, d);
        assert(n.holds(m, j, d));
    }
    let back = |s: Source|
        match s {
            Source::Own(m, i, a) => if m == k && i == len {
                Source::Current(k)
            } else {
                s
            },
            Source::Skipped(m, i, a) => if m == k && i == len {
                Source::Current(k)
            } else {
                s
            },
            _ => s,
        };
    assert forall|s: Source| #[trigger] n.knows(s) implies {
        &&& c.knows(back(s))
        &&& n.owes(s) ==> c.owes(back(s))
        &&& begins(c.word(back(s)), n.word(s))
        &&& back(s) == Source::Current(k) && n.owes(s) ==> exists|a: Choice|
            allows(e, a) && n.word(s) == #[trigger] w.push(a)
        &&& back(s) != Source::Current(k) ==> n.word(s) == c.word(s) && s == back(s)
    } by {
        match s {
            Source::Current(m) => {
                assert(n.walks(m));
                if m == k {
                    assert(allows(e, choice_of(e)) && n.word(s) == w.push(choice_of(e)));
                    assert(n.word(s).take(len) =~= w);
                } else {
                    lemma_begins_itself(n.word(s));
                }
            },
            Source::Own(m, i, a) | Source::Skipped(m, i, a) => {
                assert(n.walks(m));
                if m == k && i == len {
                    lemma_run_take(p, q, len, len);
                    assert(n.word(s) == w.push(a));
                    assert(n.owes(s) ==> allows(e, a));
                    assert(n.word(s).take(len) =~= w);
                } else {
                    if m == k {
                        lemma_run_take(p, q, len, i);
                        assert(q.branches[i] == p.branches[i]);
                    }
                    lemma_begins_itself(n.word(s));
                }
            },
            _ => {
                lemma_begins_itself(n.word(s));
            },
        }
    }
    assert forall|s: Source, u: Source|
        #![trigger n.knows(s), n.knows(u)]
        n.knows(s) && n.knows(u) && s != u implies diverge(n.word(s), n.word(u)) by {
        if back(s) != back(u) {
            assert(c.knows(back(s)) && c.knows(back(u)));
            lemma_diverge_on(c.word(back(s)), c.word(back(u)), n.word(s), n.word(u));
        } else {
            assert(back(s) == Source::Current(k));
            let a = match s {
                Source::Own(_, _, a) => a,
                Source::Skipped(_, _, a) => a,
                _ => choice_of(e),
            };
            let b = match u {
                Source::Own(_, _, b) => b,
                Source::Skipped(_, _, b) => b,
                _ => choice_of(e),
            };
            lemma_run_take(p, q, len, len);
            assert(n.word(s) == w.push(a));
            assert(n.word(u) == w.push(b));
            assert(a != b) by {
                if !(s is Current) && u is Current {
                    lemma_own_choice(q.branches, len, p.preemption_bound, a);
                }
                if !(u is Current) && s is Current {
                    lemma_own_choice(q.branches, len, p.preemption_bound, b);
                }
            }
            assert(n.word(s)[len] != n.word(u)[len]);
        }
    }
    assert forall|v: Seq<Choice>| #[trigger] n.spoken_for(v) implies exists|u: Seq<Choice>|
        #[trigger] c.spoken_for(u) && begins(u, v) by {
        let s = choose|s: Source| #[trigger] n.knows(s) && n.word(s) == v;
        assert(c.knows(back(s)));
        assert(c.spoken_for(c.word(back(s))) && begins(c.word(back(s)), v));
    }
    assert forall|v: Seq<Choice>| #[trigger] n.debt(v) == ((c.debt(v) && v != w) || exists|
        a: Choice,
    | allows(e, a) && v == #[trigger] w.push(a)) by {
        assert(c.knows(Source::Current(k)));
        if n.debt(v) {
            let s = choose|s: Source| #[trigger] n.owes(s) && n.word(s) == v;
            assert(n.knows(s));
            assert(c.owes(back(s)));
            if back(s) != Source::Current(k) {
                assert(c.knows(s));
                assert(diverge(c.word(s), c.word(Source::Current(k))));
                assert(c.debt(v));
            }
        }
        if c.debt(v) && v != w {
            let s = choose|s: Source| #[trigger] c.owes(s) && c.word(s) == v;
            match s {
                Source::Current(m) => {
                    assert(n.walks(m));
                },
                Source::Own(m, i, a) => {
                    assert(n.walks(m));
                    if m == k {
                        lemma_run_take(p, q, len, i);
                        assert(q.branches[i] == p.branches[i]);
                    }
                },
                _ => {},
            }
            assert(n.owes(s) && n.word(s) == v);
        }
        if exists|a: Choice| allows(e, a) && v == #[trigger] w.push(a) {
            let a = choose|a: Choice| allows(e, a) && v == #[trigger] w.push(a);
            assert(n.walks(k));
            lemma_run_take(p, q, len, len);
            if a == choice_of(e) {
                assert(n.owes(Source::Current(k)) && n.word(Source::Current(k)) == v);
            } else {
                assert(n.owes(Source::Own(k, len, a)) && n.word(Source::Own(k, len, a)) == v);
            }
        }
    }
}

proof fn lemma_grow(c: Crew, t: Program, k: int, e: Entry, r: Seq<Choice>)
    requires
        c.ready(),
        c.walks(k),
        t(run(c.at(k))) == Some(e),
        !c.at(k).full(),
        entry_wf(
            c.at(k).branches.push(e),
            c.at(k).branches.len() as int,
            c.at(k).preemption_bound,
        ),
    ensures
        c.grown(k, e).ready(),
        c.grown(k, e).ahead(t, r) == c.ahead(t, r),
        c.past(r) ==> c.grown(k, e).past(r),
{
    let n = c.grown(k, e);
    let w = run(c.at(k));
    let len = w.len() as int;
    lemma_grown(c, k, e);
    assert(c.owes(Source::Current(k)));
    assert(c.debt(w));
    if n.ahead(t, r) {
        let v = choose|v: Seq<Choice>| #[trigger] n.debt(v) && reaches(t, v, r);
        if !(c.debt(v) && v != w) {
            let a = choose|a: Choice| allows(e, a) && v == #[trigger] w.push(a);
            assert(r.take(len) =~= r.take(v.len() as int).take(len));
            assert(v.take(len) =~= w);
            assert(r.take(v.len() as int)[len] == r[len]);
            assert(goes_on(t, r, len));
            assert(reaches(t, w, r));
        }
    }
    if c.ahead(t, r) {
        let v = choose|v: Seq<Choice>| #[trigger] c.debt(v) && reaches(t, v, r);
        if v == w {
            if r.len() == len {
                assert(r.take(len) =~= r);
            }
            let a = r[len];
            assert(goes_on(t, r, len));
            assert(r.take(len + 1) =~= w.push(a));
            assert(n.debt(w.push(a)));
            assert(reaches(t, w.push(a), r));
        } else {
            assert(n.debt(v));
        }
    }
    if c.past(r) {
        lemma_begins_itself(r);
        assert forall|v: Seq<Choice>| #[trigger] n.spoken_for(v) implies diverge(v, r) by {
            let u = choose|u: Seq<Choice>| #[trigger] c.spoken_for(u) && begins(u, v);
            lemma_diverge_on(u, r, v, r);
        }
    }
}

// ----- histories -----
/// What can happen to a crew.
pub enum Move {
    /// A walker comes to the next branch of its run.
    Grow(int),
    /// A walker finishes its run, and takes the next one or is done.
    Finish(int),
    /// A walker is split.
    Split(int, int),
    /// A walker records a race of a thread on a branch of its run.
    Race { walker: int, branch: int, thread: int, conservative: bool },
}

/// The crew after the move, and the run that it finished.
pub open spec fn moved(c: Crew, t: Program, m: Move) -> Option<(Crew, Option<Seq<Choice>>)> {
    match m {
        Move::Grow(k) => match t(run(c.at(k))) {
            Some(e) if c.walks(k) && !c.at(k).full() && entry_wf(
                c.at(k).branches.push(e),
                c.at(k).branches.len() as int,
                c.at(k).preemption_bound,
            ) => Some((c.grown(k, e), None)),
            _ => None,
        },
        Move::Finish(k) => if c.walks(k) && t(run(c.at(k))) is None {
            Some((c.finished(k), Some(run(c.at(k)))))
        } else {
            None
        },
        Move::Split(k, wanted) => if c.walks(k) && c.claims.len() + c.at(k).branches.len()
            <= usize::MAX {
            Some((c.divided(k, wanted), None))
        } else {
            None
        },
        Move::Race { walker, branch, thread, conservative } => if c.walks(walker) && 0 <= branch
            < c.at(walker).branches.len() && c.at(walker).branches[branch] is Schedule && 0
            <= thread {
            Some((c.raced(walker, branch, thread, conservative), None))
        } else {
            None
        },
    }
}

/// The moves led through the crews `h`.
pub open spec fn led_through(h: Seq<Crew>, t: Program, moves: Seq<Move>) -> bool {
    &&& h.len() == moves.len() + 1
    &&& forall|i: int|
        0 <= i < moves.len() ==> (#[trigger] moved(h[i], t, moves[i]) matches Some((n, _)) && n
            == h[i + 1])
}

/// The moves led through the crews `h`, and everyone is done in the end.
pub open spec fn is_search(h: Seq<Crew>, t: Program, moves: Seq<Move>) -> bool {
    led_through(h, t, moves) && forall|k: int| !h.last().walks(k)
}

/// The runs that the first `n` moves made, in order.
pub open spec fn made(h: Seq<Crew>, t: Program, moves: Seq<Move>, n: int) -> Seq<Seq<Choice>>
    decreases n,
{
    if n <= 0 {
        Seq::empty()
    } else {
        match moved(h[n - 1], t, moves[n - 1]) {
            Some((_, Some(r))) => made(h, t, moves, n - 1).push(r),
            _ => made(h, t, moves, n - 1),
        }
    }
}

/// The run was ahead at some time of the first `n` moves.
pub open spec fn was_ahead(h: Seq<Crew>, t: Program, n: int, r: Seq<Choice>) -> bool {
    exists|i: int| 0 <= i <= n && #[trigger] h[i].ahead(t, r)
}

proof fn lemma_moved(c: Crew, t: Program, m: Move, r: Seq<Choice>)
    requires
        c.ready(),
        moved(c, t, m) is Some,
    ensures
        ({
            let (n, finished) = moved(c, t, m)->Some_0;
            &&& n.ready()
            &&& finished matches Some(w) ==> c.ahead(t, w) && n.past(w)
            &&& c.ahead(t, r) && finished != Some(r) ==> n.ahead(t, r)
            &&& c.past(r) ==> n.past(r)
            &&& !(m is Race) && n.ahead(t, r) ==> c.ahead(t, r)
        }),
{
    match m {
        Move::Grow(k) => {
            lemma_grow(c, t, k, t(run(c.at(k)))->Some_0, r);
        },
        Move::Finish(k) => {
            lemma_finish(c, t, k, r);
        },
        Move::Split(k, wanted) => {
            a_split_divides_the_tree(c, k, wanted);
            let n = c.divided(k, wanted);
            if c.ahead(t, r) {
                let w = choose|w: Seq<Choice>| #[trigger] c.debt(w) && reaches(t, w, r);
                assert(n.debt(w));
            }
            if n.ahead(t, r) {
                let w = choose|w: Seq<Choice>| #[trigger] n.debt(w) && reaches(t, w, r);
                assert(c.debt(w));
            }
        },
        Move::Race { walker, branch, thread, conservative } => {
            lemma_raced(c, walker, branch, thread, conservative);
            let n = c.raced(walker, branch, thread, conservative);
            if c.ahead(t, r) {
                let w = choose|w: Seq<Choice>| #[trigger] c.debt(w) && reaches(t, w, r);
                assert(n.debt(w));
            }
        },
    }
}

pub proof fn lemma_made(h: Seq<Crew>, t: Program, moves: Seq<Move>, n: int, r: Seq<Choice>)
    requires
        led_through(h, t, moves),
        0 <= n <= moves.len(),
        h[0].ready(),
    ensures
        h[n].ready(),
        made(h, t, moves, n).no_duplicates(),
        made(h, t, moves, n).contains(r) ==> h[n].past(r) && was_ahead(h, t, n, r),
        was_ahead(h, t, n, r) ==> h[n].ahead(t, r) || made(h, t, moves, n).contains(r),
        (forall|i: int| 0 <= i < n ==> !(#[trigger] moves[i] is Race)) && was_ahead(h, t, n, r)
            ==> h[0].ahead(t, r),
    decreases n,
{
    if n > 0 {
        lemma_made(h, t, moves, n - 1, r);
        assert(moved(h[n - 1], t, moves[n - 1]) is Some);
        lemma_moved(h[n - 1], t, moves[n - 1], r);
        let before = made(h, t, moves, n - 1);
        let after = made(h, t, moves, n);
        assert(h[n - 1 + 1] == h[n]);
        if was_ahead(h, t, n, r) {
            let i = choose|i: int| 0 <= i <= n && #[trigger] h[i].ahead(t, r);
            if i == n && !(moves[n - 1] is Race) {
                assert(h[n - 1].ahead(t, r));
            }
            if i < n || !(moves[n - 1] is Race) {
                assert(was_ahead(h, t, n - 1, r));
            }
        }
        if was_ahead(h, t, n - 1, r) {
            let i = choose|i: int| 0 <= i <= n - 1 && #[trigger] h[i].ahead(t, r);
            assert(was_ahead(h, t, n, r));
        }
        if let Some((_, Some(w))) = moved(h[n - 1], t, moves[n - 1]) {
            lemma_made(h, t, moves, n - 1, w);
            if before.contains(w) {
                lemma_past_is_not_ahead(h[n - 1], t, w);
            }
            assert(after == before.push(w));
            assert(after[before.len() as int] == w);
            assert forall|x: Seq<Choice>| #[trigger] after.contains(x) == (before.contains(x) || x
                == w) by {
                if before.contains(x) {
                    let i = choose|i: int| 0 <= i < before.len() && before[i] == x;
                    assert(after[i] == x);
                }
            }
            assert(h[n - 1].ahead(t, w));
            assert(r == w ==> was_ahead(h, t, n, r));
            assert forall|i: int, j: int|
                0 <= i < after.len() && 0 <= j < after.len() && i != j implies after[i]
                != after[j] by {
                if i < before.len() && j < before.len() {
                    assert(before[i] != before[j]);
                } else if i < before.len() {
                    assert(before.contains(before[i]));
                } else if j < before.len() {
                    assert(before.contains(before[j]));
                }
            }
        }
    }
}

/// However a search is divided among walkers, in whatever order they walk, and
/// whatever races they find on the way: each run that is ahead at some time is
/// made, once, and no other run is.
pub proof fn every_run_is_made_once(h: Seq<Crew>, t: Program, moves: Seq<Move>, r: Seq<Choice>)
    requires
        is_search(h, t, moves),
        h[0].ready(),
    ensures
        made(h, t, moves, moves.len() as int).contains(r) == was_ahead(
            h,
            t,
            moves.len() as int,
            r,
        ),
        made(h, t, moves, moves.len() as int).no_duplicates(),
{
    lemma_made(h, t, moves, moves.len() as int, r);
    let last = h.last();
    if last.ahead(t, r) {
        let w = choose|w: Seq<Choice>| #[trigger] last.debt(w) && reaches(t, w, r);
        let s = choose|s: Source| #[trigger] last.owes(s) && last.word(s) == w;
        match s {
            Source::Current(k) => {
                assert(!last.walks(k));
            },
            Source::Own(k, i, a) => {
                assert(!last.walks(k));
            },
            Source::Shared(id, u) => {
                let (k, j) = choose|k: int, j: int| last.holds(k, j, id);
                assert(!last.walks(k));
            },
            _ => {},
        }
    }
}

/// A search in which no races are recorded makes the runs that were ahead when
/// it began, each once.
pub proof fn what_was_ahead_is_made(h: Seq<Crew>, t: Program, moves: Seq<Move>, r: Seq<Choice>)
    requires
        is_search(h, t, moves),
        h[0].ready(),
        forall|i: int| 0 <= i < moves.len() ==> !(#[trigger] moves[i] is Race),
    ensures
        made(h, t, moves, moves.len() as int).contains(r) == h[0].ahead(t, r),
        made(h, t, moves, moves.len() as int).no_duplicates(),
{
    every_run_is_made_once(h, t, moves, r);
    lemma_made(h, t, moves, moves.len() as int, r);
    if h[0].ahead(t, r) {
        assert(was_ahead(h, t, moves.len() as int, r));
    }
}

/// A sharded search makes the runs of a serial one, no more and no fewer: two
/// searches without races that begin alike make the same runs, whatever each
/// was split into.
pub proof fn sharding_walks_the_same_tree(
    h: Seq<Crew>,
    moves: Seq<Move>,
    other: Seq<Crew>,
    others: Seq<Move>,
    t: Program,
)
    requires
        is_search(h, t, moves),
        is_search(other, t, others),
        h[0].ready(),
        other[0] == h[0],
        forall|i: int| 0 <= i < moves.len() ==> !(#[trigger] moves[i] is Race),
        forall|i: int| 0 <= i < others.len() ==> !(#[trigger] others[i] is Race),
    ensures
        made(h, t, moves, moves.len() as int).to_set() == made(
            other,
            t,
            others,
            others.len() as int,
        ).to_set(),
        made(h, t, moves, moves.len() as int).len() == made(
            other,
            t,
            others,
            others.len() as int,
        ).len(),
{
    let a = made(h, t, moves, moves.len() as int);
    let b = made(other, t, others, others.len() as int);
    assert forall|r: Seq<Choice>| #[trigger] a.to_set().contains(r) == b.to_set().contains(r) by {
        what_was_ahead_is_made(h, t, moves, r);
        what_was_ahead_is_made(other, t, others, r);
    }
    assert(a.to_set() =~= b.to_set());
    what_was_ahead_is_made(h, t, moves, Seq::empty());
    what_was_ahead_is_made(other, t, others, Seq::empty());
    a.unique_seq_to_set();
    b.unique_seq_to_set();
}

/// The crew owed the runs that begin with `w` at some time.
pub open spec fn was_owed(h: Seq<Crew>, w: Seq<Choice>) -> bool {
    exists|i: int| 0 <= i < h.len() && #[trigger] h[i].debt(w)
}

/// The races that the search records are those of the runs that it makes: what
/// a walker opens, wherever on its way, is among what some run opens that it can
/// come to from there, and all that a run opens is owed at some time.
pub open spec fn records(
    h: Seq<Crew>,
    t: Program,
    moves: Seq<Move>,
    opens: spec_fn(Seq<Choice>) -> Set<Seq<Choice>>,
) -> bool {
    &&& forall|i: int|
        0 <= i < moves.len() ==> (#[trigger] moves[i] matches Move::Race { walker, .. } ==> {
            exists|r: Seq<Choice>|
                {
                    &&& #[trigger] reaches(t, run(h[i].at(walker)), r)
                    &&& forall|w: Seq<Choice>| #[trigger]
                        h[i + 1].debt(w) && !h[i].debt(w) ==> opens(r).contains(w)
                }
        })
    &&& forall|r: Seq<Choice>, w: Seq<Choice>|
        made(h, t, moves, moves.len() as int).contains(r) && #[trigger] opens(r).contains(w)
            ==> was_owed(h, w)
}

proof fn lemma_owed_is_made(h: Seq<Crew>, t: Program, moves: Seq<Move>, w: Seq<Choice>, r: Seq<Choice>)
    requires
        is_search(h, t, moves),
        h[0].ready(),
        was_owed(h, w),
        reaches(t, w, r),
    ensures
        made(h, t, moves, moves.len() as int).contains(r),
{
    let i = choose|i: int| 0 <= i < h.len() && #[trigger] h[i].debt(w);
    assert(h[i].ahead(t, r));
    assert(was_ahead(h, t, moves.len() as int, r));
    every_run_is_made_once(h, t, moves, r);
}

/// What one search owes, the other makes.
proof fn lemma_owed_there(
    h: Seq<Crew>,
    moves: Seq<Move>,
    other: Seq<Crew>,
    others: Seq<Move>,
    t: Program,
    opens: spec_fn(Seq<Choice>) -> Set<Seq<Choice>>,
    i: int,
    w: Seq<Choice>,
    r: Seq<Choice>,
)
    requires
        led_through(h, t, moves),
        h[0].ready(),
        records(h, t, moves, opens),
        is_search(other, t, others),
        records(other, t, others, opens),
        other[0] == h[0],
        0 <= i < h.len(),
        h[i].debt(w),
        reaches(t, w, r),
    ensures
        made(other, t, others, others.len() as int).contains(r),
    decreases i,
{
    if i == 0 {
        assert(other[0].debt(w));
        assert(was_owed(other, w));
        lemma_owed_is_made(other, t, others, w, r);
    } else {
        let c = h[i - 1];
        lemma_made(h, t, moves, i - 1, r);
        assert(moved(c, t, moves[i - 1]) is Some);
        assert(h[i - 1 + 1] == h[i]);
        match moves[i - 1] {
            Move::Race { walker, .. } => {
                if c.debt(w) {
                    lemma_owed_there(h, moves, other, others, t, opens, i - 1, w, r);
                } else {
                    let here = run(c.at(walker));
                    assert(moves[i - 1] is Race);
                    let r0 = choose|r0: Seq<Choice>|
                        {
                            &&& #[trigger] reaches(t, run(h[i - 1].at(walker)), r0)
                            &&& forall|v: Seq<Choice>| #[trigger]
                                h[i].debt(v) && !h[i - 1].debt(v) ==> opens(r0).contains(v)
                        };
                    assert(opens(r0).contains(w));
                    assert(c.owes(Source::Current(walker)));
                    assert(c.debt(here));
                    lemma_owed_there(h, moves, other, others, t, opens, i - 1, here, r0);
                    assert(was_owed(other, w));
                    lemma_owed_is_made(other, t, others, w, r);
                }
            },
            _ => {
                lemma_moved(c, t, moves[i - 1], r);
                assert(h[i].ahead(t, r));
                let v = choose|v: Seq<Choice>| #[trigger] c.debt(v) && reaches(t, v, r);
                lemma_owed_there(h, moves, other, others, t, opens, i - 1, v, r);
            },
        }
    }
}

/// The same with races: two searches that begin alike, and that both record the
/// races of the runs that they make, make the same runs, each once, whatever
/// each was split into and in whatever order.
pub proof fn sharding_finds_the_same_races(
    h: Seq<Crew>,
    moves: Seq<Move>,
    other: Seq<Crew>,
    others: Seq<Move>,
    t: Program,
    opens: spec_fn(Seq<Choice>) -> Set<Seq<Choice>>,
)
    requires
        is_search(h, t, moves),
        is_search(other, t, others),
        h[0].ready(),
        other[0] == h[0],
        records(h, t, moves, opens),
        records(other, t, others, opens),
    ensures
        made(h, t, moves, moves.len() as int).to_set() == made(
            other,
            t,
            others,
            others.len() as int,
        ).to_set(),
        made(h, t, moves, moves.len() as int).len() == made(
            other,
            t,
            others,
            others.len() as int,
        ).len(),
{
    let a = made(h, t, moves, moves.len() as int);
    let b = made(other, t, others, others.len() as int);
    assert forall|r: Seq<Choice>| #[trigger] a.to_set().contains(r) == b.to_set().contains(r) by {
        every_run_is_made_once(h, t, moves, r);
        every_run_is_made_once(other, t, others, r);
        if a.contains(r) {
            let i = choose|i: int| 0 <= i <= moves.len() && #[trigger] h[i].ahead(t, r);
            let w = choose|w: Seq<Choice>| #[trigger] h[i].debt(w) && reaches(t, w, r);
            lemma_owed_there(h, moves, other, others, t, opens, i, w, r);
        }
        if b.contains(r) {
            let i = choose|i: int| 0 <= i <= others.len() && #[trigger] other[i].ahead(t, r);
            let w = choose|w: Seq<Choice>| #[trigger] other[i].debt(w) && reaches(t, w, r);
            lemma_owed_there(other, others, h, moves, t, opens, i, w, r);
        }
    }
    assert(a.to_set() =~= b.to_set());
    every_run_is_made_once(h, t, moves, Seq::empty());
    every_run_is_made_once(other, t, others, Seq::empty());
    a.unique_seq_to_set();
    b.unique_seq_to_set();
}

/// One walker at the root of the tree.
pub open spec fn alone(p: PathModel) -> Crew {
    Crew {
        claims: Seq::empty(),
        paths: seq![Some(p)],
        place: Seq::empty(),
        desk: no_desk(),
    }
}

/// A walker that shares nothing owes each run once: the one it is on, and those
/// that branch off from it.
pub proof fn a_lone_walker_is_ready(p: PathModel)
    requires
        p.inv(Seq::<Frozen>::empty()),
        p.frozen.len() == 0,
    ensures
        alone(p).ready(),
{
    let c = alone(p);
    let w = run(p);
    assert forall|k: int| #[trigger] c.walks(k) implies c.at(k).inv(c.claims) by {
        assert(k == 0);
    }
    assert forall|s: Source, u: Source|
        #![trigger c.knows(s), c.knows(u)]
        c.knows(s) && c.knows(u) && s != u implies diverge(c.word(s), c.word(u)) by {
        let i = match s {
            Source::Own(_, i, _) => i,
            Source::Skipped(_, i, _) => i,
            _ => p.branches.len() as int,
        };
        let j = match u {
            Source::Own(_, j, _) => j,
            Source::Skipped(_, j, _) => j,
            _ => p.branches.len() as int,
        };
        let q = if i < j {
            i
        } else {
            j
        };
        assert(c.walks(0));
        assert(q < p.branches.len());
        assert(entry_wf(p.branches, q, p.preemption_bound));
        if i == q {
            let a = match s {
                Source::Own(_, _, a) => a,
                Source::Skipped(_, _, a) => a,
                _ => choice_of(p.branches[q]),
            };
            lemma_own_choice(p.branches, q, p.preemption_bound, a);
        }
        if j == q {
            let b = match u {
                Source::Own(_, _, b) => b,
                Source::Skipped(_, _, b) => b,
                _ => choice_of(p.branches[q]),
            };
            lemma_own_choice(p.branches, q, p.preemption_bound, b);
        }
        assert(c.word(s)[q] != c.word(u)[q]);
    }
}

/// A search from the root has every run of the program ahead of it that takes
/// what the branches allow.
pub proof fn a_search_begins_with_everything_ahead(p: PathModel, t: Program, r: Seq<Choice>)
    requires
        p.inv(Seq::<Frozen>::empty()),
        p.branches.len() == 0,
    ensures
        alone(p).ready(),
        alone(p).ahead(t, r) == reaches(t, Seq::empty(), r),
{
    let c = alone(p);
    let none = Seq::<Choice>::empty();
    a_lone_walker_is_ready(p);
    assert(run(p) =~= none);
    assert forall|s: Source| #[trigger] c.owes(s) implies s == Source::Current(0) by {}
    assert(c.walks(0));
    assert(c.owes(Source::Current(0)) && c.word(Source::Current(0)) == none);
    assert(c.debt(none));
    if c.ahead(t, r) {
        let w = choose|w: Seq<Choice>| #[trigger] c.debt(w) && reaches(t, w, r);
        assert(w =~= none);
    }
}

} // verus!
