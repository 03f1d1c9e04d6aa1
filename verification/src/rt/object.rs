//! The objects that the threads of an execution share.
use vstd::prelude::*;

use crate::rt::access::Access;
use crate::rt::atomic::state::{State, StateModel};
use crate::rt::condvar::{Condvar, CondvarModel};
use crate::rt::mutex::Mutex;
use crate::rt::thread::{Action, Operation};
use crate::rt::vv::VersionVec;
use crate::rt::MAX_THREADS;

verus! {

/// One shared object.
pub enum Object {
    Atomic(State),
    Condvar(Condvar),
    Mutex(Mutex),
}

/// What an object is.
pub enum ObjectModel {
    Atomic(StateModel),
    Condvar(CondvarModel),
    Mutex(Mutex),
}

impl View for Object {
    type V = ObjectModel;

    open spec fn view(&self) -> ObjectModel {
        match self {
            Object::Atomic(s) => ObjectModel::Atomic(s@),
            Object::Condvar(c) => ObjectModel::Condvar(c@),
            Object::Mutex(m) => ObjectModel::Mutex(*m),
        }
    }
}

/// The objects as the model writes them.
pub open spec fn object_views(objects: Seq<Object>) -> Seq<ObjectModel> {
    objects.map_values(|o: Object| o@)
}

/// The access, if there is one.
pub open spec fn at_most_one(access: Option<Access>) -> Seq<Access> {
    match access {
        Some(a) => seq![a],
        None => Seq::empty(),
    }
}

impl ObjectModel {
    pub open spec fn wf(self) -> bool {
        self matches ObjectModel::Atomic(s) ==> s.wf()
    }

    /// The accesses that `action` depends on. The operations on anything but
    /// an atomic cell all depend on one another.
    pub open spec fn dependent(self, action: Action) -> Seq<Access> {
        match self {
            ObjectModel::Atomic(s) => s.dependent(action),
            ObjectModel::Condvar(c) => at_most_one(c.last_access),
            ObjectModel::Mutex(m) => at_most_one(m.last_access),
        }
    }

    /// The object with an access of thread `t` recorded.
    pub open spec fn accessed(self, action: Action, t: int, access: Access) -> ObjectModel {
        match self {
            ObjectModel::Atomic(s) => ObjectModel::Atomic(s.accessed(action, t, access)),
            ObjectModel::Condvar(c) => ObjectModel::Condvar(
                CondvarModel { last_access: Some(access), ..c },
            ),
            ObjectModel::Mutex(m) => ObjectModel::Mutex(Mutex { last_access: Some(access), ..m }),
        }
    }
}

/// Two operations depend on each other: they are on one object, and their
/// actions conflict.
pub open spec fn dependent_operations(a: Operation, b: Operation) -> bool {
    a.object == b.object && a.action.conflicts(b.action)
}

impl Object {
    /// The accesses that `action` depends on.
    pub fn dependent_accesses(&self, action: Action) -> (r: Vec<Access>)
        ensures
            r@ == self@.dependent(action),
    {
        match self {
            Object::Atomic(s) => s.dependent_accesses(action),
            Object::Condvar(c) => list_access(c.last_access),
            Object::Mutex(m) => list_access(m.last_access),
        }
    }

    /// Record an access of a thread.
    pub fn set_last_access(
        &mut self,
        action: Action,
        thread_id: usize,
        path_id: usize,
        version: &VersionVec,
    )
        requires
            old(self)@.wf(),
            thread_id < MAX_THREADS,
        ensures
            final(self)@ == old(self)@.accessed(
                action,
                thread_id as int,
                Access { path_id, dpor_vv: *version },
            ),
            final(self)@.wf(),
    {
        match self {
            Object::Atomic(s) => {
                s.set_last_access(action, thread_id, path_id, version);
            },
            Object::Condvar(c) => {
                c.last_access = Some(Access { path_id, dpor_vv: *version });
            },
            Object::Mutex(m) => {
                m.last_access = Some(Access { path_id, dpor_vv: *version });
            },
        }
    }
}

fn list_access(access: Option<Access>) -> (r: Vec<Access>)
    ensures
        r@ == at_most_one(access),
{
    let mut out: Vec<Access> = Vec::new();
    if let Some(a) = access {
        out.push(a);
    }
    assert(out@ =~= at_most_one(access));
    out
}

} // verus!
