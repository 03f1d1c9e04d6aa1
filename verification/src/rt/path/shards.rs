//! What a split does to a crew.
use vstd::prelude::*;

use super::crew::{
    joined, lemma_free_after, lemma_hand_held, lemma_hand_thread, lemma_record_free, lemma_renamed,
    lemma_sealed, lemma_spent, offers, run, same_debts, sealed, takes, Crew, Desk, Source,
};
use super::laws::Choice;
use super::split::{
    fits, handouts, lemma_drained_at_keeps, lemma_frozen_next_keeps, lemma_pending_from,
    lemma_sealed_to_keeps, lemma_splittable, pending_from, shares, split, Fixed, Split,
};
use super::{entry_wf, PathModel};
use crate::rt::bits;
use crate::rt::branch::{Entry, Load, Slots, Thread};
use crate::rt::claims::Frozen;
use crate::rt::MAX_THREADS;

verus! {

pub open spec fn no_desk() -> Desk {
    Desk { prefix: Seq::empty(), choices: Set::empty() }
}

/// The crew with walker `k` and its new tasks as the split `s` has them.
pub open spec fn crew_of(c: Crew, k: int, s: Split, desk: Desk) -> Crew {
    let p = c.at(k);
    Crew {
        claims: s.claims,
        paths: c.paths.update(k, Some(s.path)) + s.tasks.map_values(|t: PathModel| Some(t)),
        place: c.place + Seq::new(
            (s.path.frozen.len() - p.frozen.len()) as nat,
            |j: int| run(p).take(p.frozen.len() + j),
        ),
        desk,
    }
}

/// A split of walker `k` under way: the crew is valid and owes what it owed.
spec fn fair(c: Crew, k: int, s: Split, desk: Desk) -> bool {
    &&& c.walks(k)
    &&& c.place.len() == c.claims.len()
    &&& s.path == (PathModel { frozen: s.path.frozen, ..c.at(k) })
    &&& c.at(k).frozen.len() <= s.path.frozen.len() <= s.path.branches.len()
    &&& c.claims.len() + c.at(k).branches.len() <= usize::MAX
    &&& crew_of(c, k, s, desk).wf()
    &&& same_debts(c, crew_of(c, k, s, desk))
}

proof fn lemma_crew_at(c: Crew, k: int, s: Split, desk: Desk)
    requires
        c.walks(k),
    ensures
        crew_of(c, k, s, desk).walks(k),
        crew_of(c, k, s, desk).at(k) == s.path,
{
}

proof fn lemma_crew_joined(c: Crew, k: int, s: Split, claims: Seq<Frozen>, t: PathModel, d: Desk, e: Desk)
    requires
        c.walks(k),
    ensures
        crew_of(c, k, Split { claims, tasks: s.tasks.push(t), ..s }, e) == joined(
            crew_of(c, k, s, d),
            claims,
            t,
            e,
        ),
{
    let a = crew_of(c, k, Split { claims, tasks: s.tasks.push(t), ..s }, e);
    let b = joined(crew_of(c, k, s, d), claims, t, e);
    assert(a.paths =~= b.paths);
    assert(a.place =~= b.place);
}

proof fn lemma_fair_thread(c: Crew, k: int, s: Split, desk: Desk, point: int, t: int)
    requires
        fair(c, k, s, desk),
        0 <= point < s.path.frozen.len(),
        0 <= t < 16,
        bits::holds(s.claims[s.path.frozen[point] as int].free(), t),
    ensures
        fair(c, k, s.handed(point, Fixed::Thread(t as usize)), desk),
{
    let n = s.handed(point, Fixed::Thread(t as usize));
    lemma_crew_at(c, k, s, desk);
    lemma_hand_thread(crew_of(c, k, s, desk), k, point, t);
    lemma_crew_joined(c, k, s, n.claims, n.tasks.last(), desk, desk);
    assert(n.tasks =~= s.tasks.push(n.tasks.last()));
}

proof fn lemma_fair_held(c: Crew, k: int, s: Split, desk: Desk, fixed: Fixed, after: Desk)
    requires
        fair(c, k, s, desk),
        s.path.frozen.len() > 0,
        !(fixed is Thread),
        ({
            let point = s.path.frozen.len() - 1;
            let e = s.path.branches[point];
            &&& fits(e, fixed, s.path.preemption_bound)
            &&& desk.prefix == run(s.path).take(point)
            &&& forall|a: Choice| #[trigger]
                takes(e, fixed, a) ==> desk.choices.contains(a)
            &&& fixed is Rest ==> e->Load_0.exploring
            &&& after.prefix == desk.prefix
            &&& forall|a: Choice| #[trigger]
                after.choices.contains(a) == (desk.choices.contains(a) && !takes(e, fixed, a))
        }),
    ensures
        fair(c, k, s.handed(s.path.frozen.len() - 1, fixed), after),
{
    let point = s.path.frozen.len() - 1;
    let e = s.path.branches[point];
    let n = s.handed(point, fixed);
    lemma_crew_at(c, k, s, desk);
    lemma_hand_held(crew_of(c, k, s, desk), k, fixed);
    let filtered = desk.choices.filter(|a: Choice| !takes(e, fixed, a));
    assert(after.choices =~= filtered);
    lemma_crew_joined(c, k, s, n.claims, n.tasks.last(), desk, after);
    assert(n.tasks =~= s.tasks.push(n.tasks.last()));
}

proof fn lemma_fair_drained_at(c: Crew, k: int, s: Split, desk: Desk, point: int, wanted: int)
    requires
        fair(c, k, s, desk),
        0 <= point < s.path.frozen.len(),
    ensures
        fair(c, k, s.drained_at(point, wanted), desk),
    decreases wanted - s.tasks.len(),
{
    if s.tasks.len() < wanted {
        let free = s.claims[s.path.frozen[point] as int].free();
        bits::lemma_first(free);
        if let Some(t) = bits::first(free) {
            lemma_fair_thread(c, k, s, desk, point, t);
            lemma_fair_drained_at(
                c,
                k,
                s.handed(point, Fixed::Thread(t as usize)),
                desk,
                point,
                wanted,
            );
        }
    }
}

proof fn lemma_fair_drained(c: Crew, k: int, s: Split, desk: Desk, point: int, wanted: int)
    requires
        fair(c, k, s, desk),
        0 <= point,
    ensures
        fair(c, k, s.drained(point, wanted), desk),
    decreases s.path.frozen.len() - point,
{
    if point < s.path.frozen.len() {
        lemma_fair_drained_at(c, k, s, desk, point, wanted);
        lemma_drained_at_keeps(s, point, wanted);
        lemma_fair_drained(c, k, s.drained_at(point, wanted), desk, point + 1, wanted);
    }
}

proof fn lemma_fair_sealed(c: Crew, k: int, s: Split, desk: Desk)
    requires
        fair(c, k, s, desk),
        desk.choices == Set::<Choice>::empty(),
        s.path.frozen.len() < s.path.branches.len(),
    ensures
        fair(c, k, s.sealed_next(), sealed(crew_of(c, k, s, desk), k).desk),
{
    let m = crew_of(c, k, s, desk);
    let p = c.at(k);
    lemma_crew_at(c, k, s, desk);
    assert(m.place.len() == c.place.len() + s.path.frozen.len() - p.frozen.len());
    lemma_sealed(m, k);
    let n = sealed(m, k);
    let want = crew_of(c, k, s.sealed_next(), n.desk);
    assert(run(s.path) =~= run(p));
    assert(n.paths =~= want.paths);
    assert(n.place =~= want.place);
    assert(n.claims == want.claims);
    assert(n == want);
}

proof fn lemma_splittable_first(p: PathModel, c: Seq<Frozen>, i: int, j: int)
    requires
        p.splittable(c, i) matches Some(index) && i <= j < index,
        0 <= i,
    ensures
        p.next_choice(c, j) is None,
    decreases p.branches.len() - i,
{
    if i < j {
        lemma_splittable_first(p, c, i + 1, j);
    }
}

proof fn lemma_fair_sealed_to(c: Crew, k: int, s: Split, desk: Desk, index: int) -> (after: Desk)
    requires
        fair(c, k, s, desk),
        desk.choices == Set::<Choice>::empty(),
        index <= s.path.branches.len(),
        forall|j: int, a: Choice|
            s.path.frozen.len() <= j < index ==> !#[trigger] offers(s.path.branches[j], a),
    ensures
        fair(c, k, s.sealed_to(index), after),
        after.choices == Set::<Choice>::empty(),
    decreases index - s.path.frozen.len(),
{
    if s.path.frozen.len() < index {
        lemma_fair_sealed(c, k, s, desk);
        let next = sealed(crew_of(c, k, s, desk), k).desk;
        lemma_crew_at(c, k, s, desk);
        assert(next.choices =~= Set::<Choice>::empty());
        lemma_fair_sealed_to(c, k, s.sealed_next(), next, index)
    } else {
        desk
    }
}

proof fn lemma_fair_threads(c: Crew, k: int, s: Split, desk: Desk, fixed: Seq<Fixed>, j: int)
    requires
        fair(c, k, s, desk),
        s.path.frozen.len() > 0,
        0 <= j <= fixed.len(),
        forall|m: int|
            j <= m < fixed.len() ==> {
                &&& (#[trigger] fixed[m]) matches Fixed::Thread(t)
                &&& t < 16
                &&& bits::holds(s.claims[s.path.frozen.last() as int].free(), t as int)
            },
        forall|m: int, l: int|
            #![trigger fixed[m], fixed[l]]
            0 <= m < l < fixed.len() ==> fixed[m] != fixed[l],
    ensures
        fair(c, k, s.handed_all(fixed, j), desk),
    decreases fixed.len() - j,
{
    if j < fixed.len() {
        let point = s.path.frozen.len() - 1;
        let t = fixed[j]->Thread_0;
        let id = s.path.frozen[point] as int;
        lemma_fair_thread(c, k, s, desk, point, t as int);
        let n = s.handed(point, fixed[j]);
        lemma_crew_at(c, k, s, desk);
        assert(crew_of(c, k, s, desk).at(k).inv(s.claims));
        assert(s.path.frozen[point] < s.claims.len());
        assert forall|m: int| j + 1 <= m < fixed.len() implies {
            &&& (#[trigger] fixed[m]) matches Fixed::Thread(u)
            &&& u < 16
            &&& bits::holds(n.claims[n.path.frozen.last() as int].free(), u as int)
        } by {
            let u = fixed[m]->Thread_0;
            assert(fixed[j] != fixed[m]);
            lemma_free_after(s.claims[id], t as int, u as int);
        }
        lemma_fair_threads(c, k, n, desk, fixed, j + 1);
    }
}

/// The values of a load from `v` on.
spec fn values_from(l: Load, v: int) -> Set<Choice> {
    Set::new(|a: Choice| a matches Choice::Value(x) && v <= x < l.len)
}

proof fn lemma_fair_values(c: Crew, k: int, s: Split, desk: Desk, n: int, j: int) -> (after: Desk)
    requires
        fair(c, k, s, desk),
        s.path.frozen.len() > 0,
        0 < n,
        ({
            let point = s.path.frozen.len() - 1;
            let e = s.path.branches[point];
            &&& e matches Entry::Load(l)
            &&& l.wf()
            &&& 0 <= j <= shares(e, n).len()
            &&& desk.prefix == run(s.path).take(point)
            &&& if handouts(e).len() > n && j == n {
                desk.choices == Set::<Choice>::empty()
            } else if l.exploring {
                desk.choices == values_from(l, l.pos + 1 + j)
            } else {
                desk.choices == Set::<Choice>::empty()
            }
        }),
    ensures
        fair(
            c,
            k,
            s.handed_all(shares(s.path.branches[s.path.frozen.len() - 1], n), j),
            after,
        ),
        after.choices == Set::<Choice>::empty(),
    decreases shares(s.path.branches[s.path.frozen.len() - 1], n).len() - j,
{
    let point = s.path.frozen.len() - 1;
    let e = s.path.branches[point];
    let l = e->Load_0;
    let h = shares(e, n);
    if j < h.len() {
        let fixed = h[j];
        let all = handouts(e);
        assert(l.exploring);
        let rest = fixed is Rest;
        if all.len() <= n || j < n - 1 {
            assert(fixed == all[j]);
            assert(fixed == Fixed::Value((l.pos + 1 + j) as u8));
        } else {
            assert(fixed == Fixed::Rest((l.pos + n) as u8));
        }
        let next = Desk {
            prefix: desk.prefix,
            choices: if rest {
                Set::empty()
            } else {
                values_from(l, l.pos + 2 + j)
            },
        };
        assert forall|a: Choice| #[trigger] takes(e, fixed, a) implies desk.choices.contains(a) by {}
        assert forall|a: Choice| #[trigger] next.choices.contains(a) == (desk.choices.contains(a)
            && !takes(e, fixed, a)) by {}
        lemma_fair_held(c, k, s, desk, fixed, next);
        lemma_fair_values(c, k, s.handed(point, fixed), next, n, j + 1)
    } else {
        assert(desk.choices =~= Set::<Choice>::empty());
        desk
    }
}

proof fn lemma_pending_increase(s: Slots, i: int, a: int, b: int)
    requires
        0 <= i <= MAX_THREADS,
        0 <= a < b < pending_from(s, i).len(),
    ensures
        pending_from(s, i)[a] matches Fixed::Thread(t) && pending_from(s, i)[b] matches Fixed::Thread(
            u,
        ) && i <= t < u,
    decreases MAX_THREADS - i,
{
    lemma_pending_from(s, i);
    if i < MAX_THREADS {
        let rest = pending_from(s, i + 1);
        if s@[i] == Thread::Pending {
            assert(pending_from(s, i)[b] == rest[b - 1]);
            if a > 0 {
                assert(pending_from(s, i)[a] == rest[a - 1]);
                lemma_pending_increase(s, i + 1, a - 1, b - 1);
            } else {
                lemma_pending_late(s, i + 1, b - 1);
            }
        } else {
            assert(pending_from(s, i) == rest);
            lemma_pending_increase(s, i + 1, a, b);
        }
    }
}

proof fn lemma_pending_late(s: Slots, i: int, a: int)
    requires
        0 <= i <= MAX_THREADS,
        0 <= a < pending_from(s, i).len(),
    ensures
        pending_from(s, i)[a] matches Fixed::Thread(t) && i <= t < MAX_THREADS,
    decreases MAX_THREADS - i,
{
    if i < MAX_THREADS {
        let rest = pending_from(s, i + 1);
        if s@[i] == Thread::Pending {
            if a > 0 {
                assert(pending_from(s, i)[a] == rest[a - 1]);
                lemma_pending_late(s, i + 1, a - 1);
            }
        } else {
            assert(pending_from(s, i) == rest);
            lemma_pending_late(s, i + 1, a);
        }
    }
}

proof fn lemma_fair_frozen_next(c: Crew, k: int, s: Split, desk: Desk, wanted: int) -> (after: Desk)
    requires
        fair(c, k, s, desk),
        desk.choices == Set::<Choice>::empty(),
        s.path.frozen.len() < s.path.branches.len(),
        s.tasks.len() < wanted,
    ensures
        fair(c, k, s.frozen_next(wanted), after),
        after.choices == Set::<Choice>::empty(),
{
    let i = s.path.frozen.len() as int;
    let e = s.path.branches[i];
    let n = wanted - s.tasks.len();
    let bound = s.path.preemption_bound;
    lemma_crew_at(c, k, s, desk);
    assert(crew_of(c, k, s, desk).at(k).inv(s.claims));
    assert(entry_wf(s.path.branches, i, bound));
    lemma_fair_sealed(c, k, s, desk);
    let mid = s.sealed_next();
    let next = sealed(crew_of(c, k, s, desk), k).desk;
    assert(run(mid.path) =~= run(s.path));
    match e {
        Entry::Schedule(sched) => {
            let h = shares(e, n);
            let all = handouts(e);
            assert(next.choices =~= Set::<Choice>::empty());
            assert(mid.path.frozen.last() == s.claims.len());
            assert forall|m: int| 0 <= m < h.len() implies {
                &&& (#[trigger] h[m]) matches Fixed::Thread(t)
                &&& t < 16
                &&& bits::holds(mid.claims[mid.path.frozen.last() as int].free(), t as int)
            } by {
                assert(h[m] == all[m]);
                lemma_pending_from(sched.threads, 0);
                assert(all[m] == pending_from(sched.threads, 0)[m]);
                lemma_record_free(e, bound, h[m]->Thread_0 as int);
            }
            assert forall|m: int, l: int|
                #![trigger h[m], h[l]]
                0 <= m < l < h.len() implies h[m] != h[l] by {
                assert(h[m] == all[m] && h[l] == all[l]);
                lemma_pending_increase(sched.threads, 0, m, l);
            }
            lemma_fair_threads(c, k, mid, next, h, 0);
            next
        },
        Entry::Load(l) => {
            if l.exploring {
                assert(next.choices =~= values_from(l, l.pos + 1));
            } else {
                assert(next.choices =~= Set::<Choice>::empty());
            }
            lemma_fair_values(c, k, mid, next, n, 0)
        },
        Entry::Spurious(sp) => {
            let h = shares(e, n);
            assert(next.choices =~= Set::new(|a: Choice| offers(e, a)));
            if sp.exploring && !sp.spur {
                assert(h =~= seq![Fixed::Spurious]);
                let last = Desk { prefix: next.prefix, choices: Set::empty() };
                assert forall|a: Choice| #[trigger] takes(
                    e,
                    Fixed::Spurious,
                    a,
                ) implies next.choices.contains(a) by {}
                assert forall|a: Choice| #[trigger] last.choices.contains(a) == (
                next.choices.contains(a) && !takes(e, Fixed::Spurious, a)) by {}
                lemma_fair_held(c, k, mid, next, Fixed::Spurious, last);
                let one = mid.handed(mid.path.frozen.len() - 1, Fixed::Spurious);
                assert(one.handed_all(h, 1) == one);
                assert(mid.handed_all(h, 0) == one.handed_all(h, 1));
                last
            } else {
                assert(next.choices =~= Set::<Choice>::empty());
                assert(h.len() == 0);
                next
            }
        },
    }
}

proof fn lemma_fair_carved(c: Crew, k: int, s: Split, desk: Desk, wanted: int) -> (after: Desk)
    requires
        fair(c, k, s, desk),
        desk.choices == Set::<Choice>::empty(),
    ensures
        fair(c, k, s.carved(wanted), after),
        after.choices == Set::<Choice>::empty(),
    decreases s.path.branches.len() - s.path.frozen.len(),
{
    if s.tasks.len() < wanted {
        let start = s.path.frozen.len() as int;
        lemma_splittable(s.path, s.claims, start);
        match s.path.splittable(s.claims, start) {
            Some(index) => {
                assert forall|j: int, a: Choice| start <= j < index implies !#[trigger] offers(
                    s.path.branches[j],
                    a,
                ) by {
                    lemma_splittable_first(s.path, s.claims, start, j);
                    lemma_spent(s.path, s.claims, j, a);
                }
                let d1 = lemma_fair_sealed_to(c, k, s, desk, index);
                lemma_sealed_to_keeps(s, index);
                let mid = s.sealed_to(index);
                let d2 = lemma_fair_frozen_next(c, k, mid, d1, wanted);
                lemma_frozen_next_keeps(mid, wanted);
                lemma_fair_carved(c, k, mid.frozen_next(wanted), d2, wanted)
            },
            None => desk,
        }
    } else {
        desk
    }
}

impl Crew {
    /// The crew after walker `k` was asked for `wanted` tasks, which join it.
    pub open spec fn divided(self, k: int, wanted: int) -> Crew {
        crew_of(self, k, split(self.at(k), self.claims, wanted), no_desk())
    }
}

/// A split divides what a walker has left among the walker and its tasks:
/// nothing is lost, and nothing is owed twice.
pub proof fn a_split_divides_the_tree(c: Crew, k: int, wanted: int)
    requires
        c.wf(),
        c.walks(k),
        c.desk.choices == Set::<Choice>::empty(),
        c.claims.len() + c.at(k).branches.len() <= usize::MAX,
    ensures
        c.divided(k, wanted).wf(),
        same_debts(c, c.divided(k, wanted)),
{
    let p = c.at(k);
    let s = Split { path: p, claims: c.claims, tasks: Seq::empty() };
    assert(crew_of(c, k, s, c.desk).paths =~= c.paths);
    assert(crew_of(c, k, s, c.desk).place =~= c.place);
    assert(crew_of(c, k, s, c.desk) == c);
    assert(p.inv(c.claims));
    lemma_fair_drained(c, k, s, c.desk, 0, wanted);
    let desk = lemma_fair_carved(c, k, s.drained(0, wanted), c.desk, wanted);
    let m = crew_of(c, k, split(p, c.claims, wanted), desk);
    let n = c.divided(k, wanted);
    let same = |s: Source| s;
    assert forall|s: Source| #[trigger] n.owes(s) == m.owes(s) by {}
    assert forall|s: Source| #[trigger] n.knows(s) implies m.knows(s) && n.word(s) == m.word(s) by {}
    assert forall|s: Source| #[trigger] m.owes(s) implies n.owes(s) && n.word(s) == m.word(s) by {}
    assert forall|i: int| #[trigger] n.walks(i) == m.walks(i) by {}
    assert forall|i: int, j: int, id: int| #[trigger] n.holds(i, j, id) == m.holds(i, j, id) by {}
    lemma_renamed(m, n, same, same, None);
    assert forall|id: int, t: int| #[trigger] n.owes(Source::Shared(id, t)) implies exists|
        i: int,
        j: int,
    | n.holds(i, j, id) by {
        assert(m.owes(Source::Shared(id, t)));
        let (i, j) = choose|i: int, j: int| m.holds(i, j, id);
        assert(n.holds(i, j, id));
    }
    assert forall|i: int, j: int, id: int| #[trigger] n.holds(i, j, id) implies n.place[id] == run(
        n.at(i),
    ).take(j) by {
        assert(m.holds(i, j, id));
    }
    assert forall|i: int| #[trigger] n.walks(i) implies n.at(i).inv(n.claims) by {
        assert(m.walks(i));
    }
}

} // verus!
