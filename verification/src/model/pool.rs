//! The pool of subtrees still to explore, plus the run's shared verdict.
use vstd::prelude::*;

use crate::rt::claims::Frozen;
use crate::rt::path::{Path, PathModel};

verus! {

/// What the workers of a run share. `P` is what a failure leaves behind.
pub struct Pool<P> {
    /// Subtrees posted for any worker to pick up.
    tasks: Vec<Path>,
    /// Workers currently waiting for one.
    idle: usize,
    /// Set when the tree is exhausted, a ceiling was hit, or a model failed.
    done: bool,
    /// The first failure seen.
    failure: Option<P>,
}

#[verifier::ext_equal]
pub struct PoolModel<P> {
    pub tasks: Seq<PathModel>,
    pub idle: int,
    pub done: bool,
    pub failure: Option<P>,
}

pub open spec fn path_views(tasks: Seq<Path>) -> Seq<PathModel> {
    tasks.map_values(|p: Path| p@)
}

impl<P> View for Pool<P> {
    type V = PoolModel<P>;

    closed spec fn view(&self) -> PoolModel<P> {
        PoolModel {
            tasks: path_views(self.tasks@),
            idle: self.idle as int,
            done: self.done,
            failure: self.failure,
        }
    }
}

impl<P> PoolModel<P> {
    /// Every posted subtree is valid, and no more workers wait than there are.
    pub open spec fn wf(self, c: Seq<Frozen>, workers: int) -> bool {
        &&& forall|i: int| 0 <= i < self.tasks.len() ==> (#[trigger] self.tasks[i]).inv(c)
        &&& 0 <= self.idle <= workers
    }

    /// The pool after a worker asked for a subtree.
    pub open spec fn asked(self, workers: int) -> PoolModel<P> {
        if self.done {
            self
        } else if self.tasks.len() > 0 {
            PoolModel { tasks: self.tasks.drop_last(), ..self }
        } else {
            PoolModel { idle: self.idle + 1, done: self.idle + 1 == workers, ..self }
        }
    }

    /// The pool after tasks were offered to it.
    pub open spec fn posted(self, tasks: Seq<PathModel>) -> PoolModel<P> {
        if self.done {
            self
        } else {
            PoolModel { tasks: self.tasks + tasks, ..self }
        }
    }

    /// The pool after a failure.
    pub open spec fn failed(self, failure: P) -> PoolModel<P> {
        PoolModel {
            done: true,
            failure: match self.failure {
                Some(first) => Some(first),
                None => Some(failure),
            },
            ..self
        }
    }

    /// The subtrees that idle workers are short of.
    pub open spec fn wanted(self) -> int {
        if self.idle > self.tasks.len() {
            self.idle - self.tasks.len()
        } else {
            0
        }
    }
}

/// The outcome of asking for a subtree.
pub enum Taken {
    /// A subtree to explore.
    Task(Path),
    /// The run is over. The waiting workers have to be woken.
    Over,
    /// Peers still hold work that they might share: wait to be woken.
    Wait,
}

impl<P> Pool<P> {
    /// The pool with the whole tree, or whatever is left of it.
    pub fn new(seed: Path) -> (r: Pool<P>)
        ensures
            r@ == (PoolModel { tasks: seq![seed@], idle: 0, done: false, failure: None::<P> }),
    {
        let mut tasks: Vec<Path> = Vec::new();
        tasks.push(seed);
        assert(path_views(tasks@) =~= seq![seed@]);
        Pool { tasks, idle: 0, done: false, failure: None }
    }

    /// Claim a subtree. A worker that has to wait counts as idle until it is
    /// woken; that every worker is idle at once is exactly the condition for
    /// the tree being exhausted.
    pub fn take(&mut self, workers: usize) -> (r: Taken)
        requires
            old(self)@.idle < workers,
        ensures
            final(self)@ == old(self)@.asked(workers as int),
            match r {
                Taken::Task(p) => {
                    &&& !old(self)@.done
                    &&& old(self)@.tasks.len() > 0
                    &&& p@ == old(self)@.tasks.last()
                },
                Taken::Over => final(self)@.done,
                Taken::Wait => !final(self)@.done && old(self)@.tasks.len() == 0,
            },
            r is Task <==> !old(self)@.done && old(self)@.tasks.len() > 0,
    {
        if self.done {
            return Taken::Over;
        }
        if let Some(task) = self.tasks.pop() {
            assert(path_views(self.tasks@) =~= old(self)@.tasks.drop_last());
            return Taken::Task(task);
        }
        self.idle = self.idle + 1;
        assert(path_views(self.tasks@) =~= old(self)@.tasks);
        if self.idle == workers {
            self.done = true;
            return Taken::Over;
        }
        Taken::Wait
    }

    /// A waiting worker was woken, and is about to ask again.
    pub fn woken(&mut self)
        requires
            old(self)@.idle > 0,
        ensures
            final(self)@ == (PoolModel { idle: old(self)@.idle - 1, ..old(self)@ }),
    {
        self.idle = self.idle - 1;
    }

    /// How many subtrees idle workers are short of.
    pub fn wanted(&self) -> (r: usize)
        ensures
            r == self@.wanted(),
    {
        self.idle.saturating_sub(self.tasks.len())
    }

    /// Add tasks to the pool, reporting how many waiters have to be woken: one
    /// for each. A run that is over takes no more.
    pub fn post(&mut self, tasks: Vec<Path>) -> (r: usize)
        ensures
            final(self)@ == old(self)@.posted(path_views(tasks@)),
            r == if old(self)@.done {
                0
            } else {
                tasks@.len()
            },
    {
        if self.done {
            return 0;
        }
        let n: usize = tasks.len();
        let mut tasks: Vec<Path> = tasks;
        let ghost before = self.tasks@;
        let ghost posted = tasks@;
        self.tasks.append(&mut tasks);
        assert(path_views(self.tasks@) =~= path_views(before) + path_views(posted));
        n
    }

    /// The run stops: no worker gets another subtree.
    pub fn stop(&mut self)
        ensures
            final(self)@ == (PoolModel { done: true, ..old(self)@ }),
    {
        self.done = true;
    }

    /// The run stops with a failure. The first one is kept.
    pub fn fail(&mut self, failure: P)
        ensures
            final(self)@ == old(self)@.failed(failure),
    {
        self.done = true;
        if self.failure.is_none() {
            self.failure = Some(failure);
        }
    }

    /// The failure of the run, if there was one.
    pub fn into_failure(self) -> (r: Option<P>)
        ensures
            r == self@.failure,
    {
        self.failure
    }
}

/// A run that is over stays over, whatever the workers still do: nobody gets
/// another subtree, and what is offered is not taken up.
pub proof fn over_is_final<P>(p: PoolModel<P>, workers: int, tasks: Seq<PathModel>, failure: P)
    requires
        p.done,
    ensures
        p.asked(workers) == p,
        p.posted(tasks) == p,
        p.failed(failure).done,
        p.failed(failure).tasks == p.tasks,
{
}

/// A subtree that was posted is handed to exactly one worker: what a worker
/// gets and what is left are what there was.
pub proof fn each_subtree_is_handed_out_once<P>(p: PoolModel<P>, workers: int)
    requires
        !p.done,
        p.tasks.len() > 0,
    ensures
        p.asked(workers).tasks.push(p.tasks.last()) == p.tasks,
{
    assert(p.tasks.drop_last().push(p.tasks.last()) =~= p.tasks);
}

/// The tree counts as exhausted exactly when the last worker that was not
/// waiting asks and there is nothing to hand out.
pub proof fn exhausted_when_all_wait<P>(p: PoolModel<P>, c: Seq<Frozen>, workers: int)
    requires
        p.wf(c, workers),
        p.idle < workers,
        !p.done,
    ensures
        p.asked(workers).done <==> p.tasks.len() == 0 && p.idle == workers - 1,
        p.asked(workers).wf(c, workers),
{
}

/// The first failure is the one that is kept.
pub proof fn the_first_failure_is_kept<P>(p: PoolModel<P>, first: P, second: P)
    requires
        p.failure is None,
    ensures
        p.failed(first).failed(second).failure == Some(first),
{
}

/// What is posted while the run lasts is kept, with all that was there, and
/// with as many subtrees as are wanted there is one for every waiting worker.
pub proof fn posted_subtrees_are_kept<P>(p: PoolModel<P>, tasks: Seq<PathModel>, i: int)
    requires
        0 <= p.idle,
    ensures
        !p.done && 0 <= i < p.tasks.len() ==> p.posted(tasks).tasks.contains(p.tasks[i]),
        !p.done && 0 <= i < tasks.len() ==> p.posted(tasks).tasks.contains(tasks[i]),
        !p.done ==> p.posted(tasks).tasks.len() == p.tasks.len() + tasks.len(),
        p.posted(tasks).failure == p.failure && p.posted(tasks).idle == p.idle,
        p.wanted() >= 0,
        !p.done && tasks.len() == p.wanted() ==> p.posted(tasks).tasks.len() >= p.idle,
        p.wanted() > 0 ==> p.tasks.len() + p.wanted() == p.idle,
        p.tasks.len() >= p.idle ==> p.wanted() == 0,
{
    if !p.done {
        let all = p.posted(tasks).tasks;
        if 0 <= i < p.tasks.len() {
            assert(all[i] == p.tasks[i]);
        }
        if 0 <= i < tasks.len() {
            assert(all[p.tasks.len() + i] == tasks[i]);
        }
    }
}

} // verus!
