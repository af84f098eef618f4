//! The dispatcher: per-task states, the stack of running (preempted and
//! current) tasks, and the priority-ceiling locking protocol.
//!
//! Policies fixed here:
//! - a trigger for a task that is not `Idle` is dropped (one instance per task);
//! - among eligible pending tasks the highest priority runs first, equal
//!   priorities in trigger order, equal trigger stamps by task index;
//! - a pending task is eligible only when its priority is strictly above the
//!   current level: the running task's priority and the interrupt mask raised
//!   by held locks;
//! - no task runs before start-up has finished: tasks spawned during start-up
//!   stay pending until `start` is given a finished sequencer.
use vstd::prelude::*;
use crate::init::{InitSequencer, InitStep};
use crate::registry::{ContractViolation, Registry, ResourceKind};

verus! {

/// The state of one task.
#[derive(Clone, Copy, Debug, PartialEq, Eq, Structural)]
pub enum TaskState {
    Idle,
    /// Triggered and waiting to run; `stamp` orders triggers.
    Pending { stamp: u64 },
    /// On the running stack (executing, or preempted by a higher task).
    Running,
    /// Waiting for the monotonic timer to reach `deadline`.
    Suspended { deadline: u64 },
}

/// A held lock on a shared resource.
#[derive(Clone, Copy, Debug, PartialEq, Eq, Structural)]
pub struct Lock {
    pub resource: usize,
    /// Depth of the holding task in the running stack.
    pub holder: usize,
    /// The mask in force before the lock was taken.
    pub saved: u8,
}

/// Why a resource operation was refused.
#[derive(Clone, Copy, Debug, PartialEq, Eq, Structural)]
pub enum AccessError {
    /// No task is running.
    NoRunningTask,
    /// The running task does not list the resource.
    NotOwner,
    /// The resource is local: it is accessed without a lock.
    LocalResource,
    /// The resource is already locked.
    AlreadyHeld,
    /// The running task holds no lock.
    NothingHeld,
}

pub struct Dispatcher {
    reg: Registry,
    ceilings: Vec<u8>,
    states: Vec<TaskState>,
    running: Vec<usize>,
    locks: Vec<Lock>,
    mask: u8,
    next_stamp: u64,
    live: bool,
}

impl Dispatcher {
    pub closed spec fn registry(&self) -> Registry {
        self.reg
    }

    pub closed spec fn states(&self) -> Seq<TaskState> {
        self.states@
    }

    /// Running stack, bottom first; the last entry is the executing task.
    pub closed spec fn running(&self) -> Seq<usize> {
        self.running@
    }

    /// Held locks, oldest first.
    pub closed spec fn locks(&self) -> Seq<Lock> {
        self.locks@
    }

    /// The interrupt mask: tasks at or below it cannot start.
    pub closed spec fn mask(&self) -> u8 {
        self.mask
    }

    pub closed spec fn next_stamp(&self) -> u64 {
        self.next_stamp
    }

    /// Start-up has finished and tasks may run.
    pub closed spec fn live(&self) -> bool {
        self.live
    }

    pub open spec fn n_tasks(&self) -> int {
        self.registry().n_tasks()
    }

    pub open spec fn prio(&self, t: int) -> u8 {
        self.registry().priority(t)
    }

    pub open spec fn top(&self) -> int {
        self.running()[self.running().len() - 1] as int
    }

    /// The level a pending task must exceed to start.
    pub open spec fn level(&self) -> u8 {
        if self.running().len() == 0 || self.mask() >= self.prio(self.top()) {
            self.mask()
        } else {
            self.prio(self.top())
        }
    }

    pub open spec fn eligible(&self, t: int) -> bool {
        &&& self.live()
        &&& 0 <= t < self.n_tasks()
        &&& self.states()[t] is Pending
        &&& self.prio(t) > self.level()
    }

    /// `u` is dispatched before `t` when both are eligible.
    pub open spec fn precedes(&self, u: int, t: int) -> bool {
        let su = self.states()[u]->stamp;
        let st = self.states()[t]->stamp;
        ||| self.prio(u) > self.prio(t)
        ||| self.prio(u) == self.prio(t) && su < st
        ||| self.prio(u) == self.prio(t) && su == st && u < t
    }

    /// `t` is the task the dispatcher starts next.
    pub open spec fn is_choice(&self, t: int) -> bool {
        &&& self.eligible(t)
        &&& forall|u: int| #[trigger] self.eligible(u) && u != t ==> !self.precedes(u, t)
    }

    /// Nothing but the task states (and trigger counter) differs.
    pub open spec fn same_frames(&self, other: &Dispatcher) -> bool {
        &&& self.registry() == other.registry()
        &&& self.running() == other.running()
        &&& self.locks() == other.locks()
        &&& self.mask() == other.mask()
        &&& self.live() == other.live()
    }

    pub closed spec fn lock_ok(&self, j: int) -> bool {
        let l = self.locks@[j];
        &&& l.holder < self.running@.len()
        &&& l.resource < self.reg.n_resources()
        &&& self.reg.resources@[l.resource as int] == ResourceKind::Shared
        &&& self.reg.references(self.running@[l.holder as int] as int, l.resource as int)
        &&& self.reg.ceiling(l.resource as int) <= self.mask
        &&& l.saved <= self.mask
    }

    pub closed spec fn wf(&self) -> bool {
        let n = self.reg.n_tasks();
        &&& self.reg.well_formed()
        &&& n <= usize::MAX
        &&& self.ceilings@.len() == self.reg.n_resources()
        &&& forall|r: int|
            0 <= r < self.reg.n_resources() ==> #[trigger] self.ceilings@[r] == self.reg.ceiling(r)
        &&& self.states@.len() == n
        &&& forall|i: int|
            0 <= i < self.running@.len() ==> #[trigger] self.running@[i] < n
                && self.states@[self.running@[i] as int] is Running
        &&& forall|t: int|
            0 <= t < n && #[trigger] self.states@[t] is Running ==> self.running@.contains(
                t as usize,
            )
        &&& forall|i: int, j: int|
            0 <= i < j < self.running@.len() ==> self.reg.priority(
                #[trigger] self.running@[i] as int,
            ) < self.reg.priority(#[trigger] self.running@[j] as int)
        &&& forall|j: int| 0 <= j < self.locks@.len() ==> #[trigger] self.lock_ok(j)
        &&& forall|i: int, j: int|
            0 <= i < j < self.locks@.len() ==> {
                let a = #[trigger] self.locks@[i];
                let b = #[trigger] self.locks@[j];
                &&& a.holder <= b.holder
                &&& a.resource != b.resource
                &&& self.reg.ceiling(a.resource as int) <= b.saved
                &&& a.saved <= b.saved
            }
        &&& forall|j: int, k: int|
            0 <= j < self.locks@.len() && (#[trigger] self.locks@[j]).holder < k
                < self.running@.len() ==> self.reg.priority(#[trigger] self.running@[k] as int)
                > self.reg.ceiling(self.locks@[j].resource as int)
        &&& forall|t: int|
            0 <= t < n && #[trigger] self.states@[t] is Pending ==> stamp_below(
                self.states@[t]->stamp,
                self.next_stamp,
            )
        &&& self.locks@.len() == 0 ==> self.mask == 0
        &&& self.mask == 0 || exists|i: int|
            0 <= i < self.locks@.len() && self.mask == self.reg.ceiling(
                (#[trigger] self.locks@[i]).resource as int,
            )
        &&& forall|j: int|
            0 <= j < self.locks@.len() ==> (#[trigger] self.locks@[j]).saved == 0 || exists|i: int|
                0 <= i < j && self.locks@[j].saved == self.reg.ceiling(
                    (#[trigger] self.locks@[i]).resource as int,
                )
        &&& self.locks@.len() > 0 ==> self.locks@[0].saved == 0
    }

    /// Validates the partition and builds a dispatcher with every task idle.
    pub fn new(reg: Registry) -> (res: Result<Dispatcher, ContractViolation>)
        ensures
            res is Ok <==> reg.well_formed(),
            res matches Err(e) ==> reg.shows(e),
            res matches Ok(d) ==> {
                &&& d.wf()
                &&& d.registry() == reg
                &&& d.running().len() == 0
                &&& d.locks().len() == 0
                &&& d.mask() == 0
                &&& d.next_stamp() == 0
                &&& !d.live()
                &&& d.states().len() == reg.n_tasks()
                &&& forall|t: int| 0 <= t < reg.n_tasks() ==> #[trigger] d.states()[t] == TaskState::Idle
            },
    {
        match reg.check_ownership() {
            Err(e) => {
                return Err(e);
            },
            Ok(()) => {},
        }
        let mut ceilings: Vec<u8> = Vec::new();
        let mut r: usize = 0;
        while r < reg.resources.len()
            invariant
                r <= reg.n_resources(),
                ceilings@.len() == r,
                forall|q: int| 0 <= q < r ==> #[trigger] ceilings@[q] == reg.ceiling(q),
            decreases reg.n_resources() - r,
        {
            ceilings.push(reg.ceiling_of(r));
            r = r + 1;
        }
        let mut states: Vec<TaskState> = Vec::new();
        let mut t: usize = 0;
        while t < reg.tasks.len()
            invariant
                t <= reg.n_tasks(),
                states@.len() == t,
                forall|u: int| 0 <= u < t ==> #[trigger] states@[u] == TaskState::Idle,
            decreases reg.n_tasks() - t,
        {
            states.push(TaskState::Idle);
            t = t + 1;
        }
        let d = Dispatcher {
            reg,
            ceilings,
            states,
            running: Vec::new(),
            locks: Vec::new(),
            mask: 0,
            next_stamp: 0,
            live: false,
        };
        Ok(d)
    }

    /// Hands control to the dispatcher once start-up has finished: tasks may
    /// run from then on. A sequencer that is not `Done` changes nothing.
    pub fn start(&mut self, init: &InitSequencer) -> (started: bool)
        requires
            old(self).wf(),
        ensures
            final(self).wf(),
            started == (init.step == InitStep::Done),
            final(self).states() == old(self).states(),
            final(self).next_stamp() == old(self).next_stamp(),
            final(self).registry() == old(self).registry(),
            final(self).running() == old(self).running(),
            final(self).locks() == old(self).locks(),
            final(self).mask() == old(self).mask(),
            final(self).live() == (old(self).live() || started),
    {
        let started = init.step == InitStep::Done;
        if started {
            self.live = true;
        }
        assert forall|j: int| 0 <= j < self.locks@.len() implies #[trigger] self.lock_ok(j) by {
            assert(old(self).lock_ok(j));
        }
        started
    }

    /// The state of task `t`.
    pub fn state(&self, t: usize) -> (s: TaskState)
        requires
            self.wf(),
            t < self.n_tasks(),
        ensures
            s == self.states()[t as int],
    {
        self.states[t]
    }

    /// The executing task, if any.
    pub fn current(&self) -> (c: Option<usize>)
        requires
            self.wf(),
        ensures
            self.running().len() == 0 ==> c is None,
            self.running().len() > 0 ==> c == Some(self.top() as usize),
    {
        if self.running.len() == 0 {
            None
        } else {
            Some(self.running[self.running.len() - 1])
        }
    }

    /// The current interrupt mask.
    pub fn mask_level(&self) -> (m: u8)
        ensures
            m == self.mask(),
    {
        self.mask
    }

    /// The level a pending task must exceed to start.
    pub fn current_level(&self) -> (l: u8)
        requires
            self.wf(),
        ensures
            l == self.level(),
    {
        if self.running.len() == 0 {
            self.mask
        } else {
            let p = self.reg.tasks[self.running[self.running.len() - 1]].priority;
            if self.mask >= p {
                self.mask
            } else {
                p
            }
        }
    }

    /// Triggers task `t` (an interrupt or a software spawn). An idle task
    /// becomes pending; a trigger for a task that is not idle is dropped.
    pub fn spawn(&mut self, t: usize) -> (accepted: bool)
        requires
            old(self).wf(),
            t < old(self).n_tasks(),
        ensures
            final(self).wf(),
            final(self).same_frames(old(self)),
            accepted == (old(self).states()[t as int] == TaskState::Idle),
            accepted ==> final(self).states() == old(self).states().update(
                t as int,
                (TaskState::Pending { stamp: old(self).next_stamp() }),
            ),
            !accepted ==> final(self).states() == old(self).states(),
            accepted ==> final(self).next_stamp() == advance_stamp(old(self).next_stamp()),
            !accepted ==> final(self).next_stamp() == old(self).next_stamp(),
    {
        if self.states[t] != TaskState::Idle {
            return false;
        }
        let stamp = self.next_stamp;
        self.states.set(t, TaskState::Pending { stamp });
        if self.next_stamp < u64::MAX {
            self.next_stamp = self.next_stamp + 1;
        }
        proof {
            lemma_relabel_keeps_wf(old(self), self, t as int);
        }
        true
    }
    /// The task the dispatcher would start now, without starting it.
    pub fn select(&self) -> (c: Option<usize>)
        requires
            self.wf(),
        ensures
            c matches Some(t) ==> self.is_choice(t as int),
            c is None ==> forall|t: int| !#[trigger] self.eligible(t),
    {
        if !self.live {
            return None;
        }
        let level = self.current_level();
        let mut best: Option<usize> = None;
        let mut t: usize = 0;
        while t < self.states.len()
            invariant
                self.wf(),
                self.live(),
                level == self.level(),
                t <= self.n_tasks(),
                best is None ==> forall|u: int| 0 <= u < t ==> !#[trigger] self.eligible(u),
                best matches Some(b) ==> {
                    &&& b < t
                    &&& self.eligible(b as int)
                    &&& forall|u: int|
                        0 <= u < t && #[trigger] self.eligible(u) && u != b ==> !self.precedes(
                            u,
                            b as int,
                        )
                },
            decreases self.n_tasks() - t,
        {
            match self.states[t] {
                TaskState::Pending { stamp } => {
                    let p = self.reg.tasks[t].priority;
                    if p > level {
                        match best {
                            None => {
                                best = Some(t);
                            },
                            Some(b) => {
                                let bp = self.reg.tasks[b].priority;
                                let bs = match self.states[b] {
                                    TaskState::Pending { stamp } => stamp,
                                    _ => 0,
                                };
                                if p > bp || (p == bp && stamp < bs) {
                                    best = Some(t);
                                }
                            },
                        }
                    }
                },
                _ => {},
            }
            t = t + 1;
        }
        best
    }

    /// Starts the task chosen by `select`, if any, pushing it on the running
    /// stack. The task started references no resource that is locked.
    pub fn dispatch(&mut self) -> (c: Option<usize>)
        requires
            old(self).wf(),
        ensures
            final(self).wf(),
            c is None ==> forall|t: int| !#[trigger] old(self).eligible(t),
            c is None ==> *final(self) == *old(self),
            c matches Some(t) ==> {
                &&& old(self).is_choice(t as int)
                &&& final(self).states() == old(self).states().update(t as int, TaskState::Running)
                &&& final(self).running() == old(self).running().push(t)
                &&& final(self).registry() == old(self).registry()
                &&& final(self).locks() == old(self).locks()
                &&& final(self).mask() == old(self).mask()
                &&& final(self).live() == old(self).live()
                &&& forall|j: int|
                    0 <= j < old(self).locks().len() ==> !old(self).registry().references(
                        t as int,
                        #[trigger] old(self).locks()[j].resource as int,
                    )
            },
    {
        match self.select() {
            None => None,
            Some(t) => {
                proof {
                    self.lemma_unlocked_for(t as int);
                }
                let ghost old_running = self.running@;
                let ghost old_states = self.states@;
                self.states.set(t, TaskState::Running);
                self.running.push(t);
                assert(self.running@[self.running@.len() - 1] == t);
                assert forall|i: int|
                    0 <= i < self.running@.len() implies #[trigger] self.running@[i]
                    < self.reg.n_tasks() && self.states@[self.running@[i] as int] is Running by {
                    if i < old_running.len() {
                        assert(old_running[i] == self.running@[i]);
                        assert(old_states[old_running[i] as int] is Running);
                    }
                }
                assert forall|u: int|
                    0 <= u < self.reg.n_tasks() && #[trigger] self.states@[u] is Running implies self.running@.contains(
                    u as usize,
                ) by {
                    if u != t {
                        assert(old_states[u] is Running);
                        assert(old_running.contains(u as usize));
                        let i = choose|i: int|
                            0 <= i < old_running.len() && old_running[i] == u as usize;
                        assert(self.running@[i] == u as usize);
                    } else {
                        assert(self.running@[old_running.len() as int] == u);
                    }
                }
                assert forall|i: int, j: int| 0 <= i < j < self.running@.len() implies self.reg.priority(
                    #[trigger] self.running@[i] as int,
                ) < self.reg.priority(#[trigger] self.running@[j] as int) by {
                    if j == old_running.len() {
                        let top = old_running.len() - 1;
                        if i < top {
                            assert(self.reg.priority(old_running[i] as int) < self.reg.priority(
                                old_running[top] as int,
                            ));
                        }
                    } else {
                        assert(old_running[i] == self.running@[i]);
                        assert(old_running[j] == self.running@[j]);
                    }
                }
                assert forall|j: int| 0 <= j < self.locks@.len() implies #[trigger] self.lock_ok(
                    j,
                ) by {
                    assert(old(self).lock_ok(j));
                    assert(self.running@[self.locks@[j].holder as int] == old_running[self.locks@[j].holder as int]);
                }
                assert forall|j: int, k: int|
                    0 <= j < self.locks@.len() && (#[trigger] self.locks@[j]).holder < k
                        < self.running@.len() implies self.reg.priority(
                    #[trigger] self.running@[k] as int,
                ) > self.reg.ceiling(self.locks@[j].resource as int) by {
                    assert(old(self).lock_ok(j));
                    if k < old_running.len() {
                        assert(self.running@[k] == old_running[k]);
                    }
                }
                Some(t)
            },
        }
    }

    /// A task above the current level references no locked resource: the
    /// mask covers the ceiling of every held lock.
    proof fn lemma_unlocked_for(&self, t: int)
        requires
            self.wf(),
            self.eligible(t),
        ensures
            forall|j: int|
                0 <= j < self.locks().len() ==> !self.registry().references(
                    t,
                    #[trigger] self.locks()[j].resource as int,
                ),
    {
        assert forall|j: int| 0 <= j < self.locks().len() implies !self.registry().references(
            t,
            #[trigger] self.locks()[j].resource as int,
        ) by {
            assert(self.lock_ok(j));
            let r = self.locks@[j].resource as int;
            if self.reg.references(t, r) {
                self.reg.lemma_ceiling_bounds(t, r, self.reg.n_tasks());
            }
        }
    }
    /// Resource `r` is locked by some task.
    pub open spec fn held(&self, r: int) -> bool {
        exists|j: int| 0 <= j < self.locks().len() && #[trigger] self.locks()[j].resource == r
    }

    /// Acquires shared resource `r` for the running task: the mask is raised to
    /// the resource's ceiling (if above the current mask) and the previous mask
    /// is kept for `unlock`.
    pub fn lock(&mut self, r: usize) -> (res: Result<(), AccessError>)
        requires
            old(self).wf(),
            r < old(self).registry().n_resources(),
        ensures
            final(self).wf(),
            old(self).running().len() == 0 ==> res == Err::<(), AccessError>(
                AccessError::NoRunningTask,
            ),
            old(self).running().len() > 0 && !old(self).registry().references(old(self).top(), r as int)
                ==> res == Err::<(), AccessError>(AccessError::NotOwner),
            old(self).running().len() > 0 && old(self).registry().references(old(self).top(), r as int)
                && old(self).registry().resources@[r as int] == ResourceKind::Local ==> res == Err::<
                (),
                AccessError,
            >(AccessError::LocalResource),
            old(self).running().len() > 0 && old(self).registry().references(old(self).top(), r as int)
                && old(self).registry().resources@[r as int] == ResourceKind::Shared && old(self).held(
                r as int,
            ) ==> res == Err::<(), AccessError>(AccessError::AlreadyHeld),
            old(self).running().len() > 0 && old(self).registry().references(old(self).top(), r as int)
                && old(self).registry().resources@[r as int] == ResourceKind::Shared && !old(self).held(
                r as int,
            ) ==> res is Ok,
            res is Err ==> *final(self) == *old(self),
            res is Ok ==> {
                &&& final(self).states() == old(self).states()
                &&& final(self).running() == old(self).running()
                &&& final(self).registry() == old(self).registry()
                &&& final(self).live() == old(self).live()
                &&& final(self).locks() == old(self).locks().push(
                    (Lock {
                        resource: r,
                        holder: (old(self).running().len() - 1) as usize,
                        saved: old(self).mask(),
                    }),
                )
                &&& final(self).mask() == if old(self).registry().ceiling(r as int) > old(
                    self,
                ).mask() {
                    old(self).registry().ceiling(r as int)
                } else {
                    old(self).mask()
                }
            },
    {
        if self.running.len() == 0 {
            return Err(AccessError::NoRunningTask);
        }
        let depth = self.running.len() - 1;
        let top = self.running[depth];
        if !self.reg.task_references(top, r) {
            return Err(AccessError::NotOwner);
        }
        if self.reg.resources[r] == ResourceKind::Local {
            return Err(AccessError::LocalResource);
        }
        let mut j: usize = 0;
        while j < self.locks.len()
            invariant
                self.wf(),
                r < self.reg.n_resources(),
                depth == self.running@.len() - 1,
                top == self.running@[depth as int],
                self.reg.references(top as int, r as int),
                self.reg.resources@[r as int] == ResourceKind::Shared,
                j <= self.locks@.len(),
                forall|i: int| 0 <= i < j ==> (#[trigger] self.locks@[i]).resource != r,
            decreases self.locks@.len() - j,
        {
            if self.locks[j].resource == r {
                assert(self.locks()[j as int].resource == r);
                return Err(AccessError::AlreadyHeld);
            }
            j = j + 1;
        }
        let ghost prev = *self;
        let c = self.ceilings[r];
        let saved = self.mask;
        self.locks.push(Lock { resource: r, holder: depth, saved });
        if c > self.mask {
            self.mask = c;
        }
        proof {
            let n = prev.locks@.len() as int;
            assert(self.locks@[n].resource == r);
            if self.mask != 0 && self.mask != c {
                let i = choose|i: int|
                    0 <= i < prev.locks@.len() && prev.mask == prev.reg.ceiling(
                        (#[trigger] prev.locks@[i]).resource as int,
                    );
                assert(self.locks@[i] == prev.locks@[i]);
            }
            assert forall|j: int| 0 <= j < self.locks@.len() implies (#[trigger] self.locks@[j]).saved
                == 0 || exists|i: int|
                0 <= i < j && self.locks@[j].saved == self.reg.ceiling(
                    (#[trigger] self.locks@[i]).resource as int,
                ) by {
                if j < n {
                    assert(self.locks@[j] == prev.locks@[j]);
                    if prev.locks@[j].saved != 0 {
                        let i = choose|i: int|
                            0 <= i < j && prev.locks@[j].saved == prev.reg.ceiling(
                                (#[trigger] prev.locks@[i]).resource as int,
                            );
                        assert(self.locks@[i] == prev.locks@[i]);
                    }
                } else if prev.mask != 0 {
                    let i = choose|i: int|
                        0 <= i < prev.locks@.len() && prev.mask == prev.reg.ceiling(
                            (#[trigger] prev.locks@[i]).resource as int,
                        );
                    assert(self.locks@[i] == prev.locks@[i]);
                }
            }
        }
        assert forall|j: int| 0 <= j < self.locks@.len() implies #[trigger] self.lock_ok(j) by {
            if j < prev.locks@.len() {
                assert(prev.lock_ok(j));
                assert(self.locks@[j] == prev.locks@[j]);
            }
        }
        assert forall|i: int, j: int| 0 <= i < j < self.locks@.len() implies {
            let a = #[trigger] self.locks@[i];
            let b = #[trigger] self.locks@[j];
            &&& a.holder <= b.holder
            &&& a.resource != b.resource
            &&& self.reg.ceiling(a.resource as int) <= b.saved
            &&& a.saved <= b.saved
        } by {
            assert(self.locks@[i] == prev.locks@[i]);
            assert(prev.lock_ok(i));
            if j < prev.locks@.len() {
                assert(self.locks@[j] == prev.locks@[j]);
            }
        }
        assert forall|j: int, k: int|
            0 <= j < self.locks@.len() && (#[trigger] self.locks@[j]).holder < k
                < self.running@.len() implies self.reg.priority(#[trigger] self.running@[k] as int)
            > self.reg.ceiling(self.locks@[j].resource as int) by {
            if j < prev.locks@.len() {
                assert(self.locks@[j] == prev.locks@[j]);
            }
        }
        Ok(())
    }

    /// Releases the innermost lock of the running task and restores the mask
    /// that was in force before it was taken. Returns the released resource.
    pub fn unlock(&mut self) -> (res: Result<usize, AccessError>)
        requires
            old(self).wf(),
        ensures
            final(self).wf(),
            old(self).running().len() == 0 ==> res == Err::<usize, AccessError>(
                AccessError::NoRunningTask,
            ),
            old(self).running().len() > 0 && (old(self).locks().len() == 0 || old(self).locks().last().holder
                != old(self).running().len() - 1) ==> res == Err::<usize, AccessError>(
                AccessError::NothingHeld,
            ),
            res is Err ==> *final(self) == *old(self),
            old(self).running().len() > 0 && old(self).locks().len() > 0 && old(self).locks().last().holder
                == old(self).running().len() - 1 ==> res is Ok,
            res matches Ok(r) ==> {
                &&& old(self).locks().len() > 0
                &&& r == old(self).locks().last().resource
                &&& final(self).states() == old(self).states()
                &&& final(self).running() == old(self).running()
                &&& final(self).registry() == old(self).registry()
                &&& final(self).live() == old(self).live()
                &&& final(self).locks() == old(self).locks().drop_last()
                &&& final(self).mask() == old(self).locks().last().saved
            },
    {
        if self.running.len() == 0 {
            return Err(AccessError::NoRunningTask);
        }
        let n = self.locks.len();
        if n == 0 || self.locks[n - 1].holder != self.running.len() - 1 {
            return Err(AccessError::NothingHeld);
        }
        let ghost prev = *self;
        let l = self.locks.pop().unwrap();
        self.mask = l.saved;
        proof {
            lemma_pop_keeps_wf(&prev, self);
        }
        Ok(l.resource)
    }
    /// Takes the running task off the stack with state `next`, first releasing
    /// every lock it still holds (innermost first).
    fn leave(&mut self, next: TaskState) -> (t: usize)
        requires
            old(self).wf(),
            old(self).running().len() > 0,
            next is Idle || next is Suspended,
        ensures
            final(self).wf(),
            t == old(self).top(),
            final(self).left(old(self), next),
    {
        let depth = self.running.len() - 1;
        let ghost ol = self.locks@;
        let ghost om = self.mask;
        let ghost orun = self.running@;
        let ghost ost = self.states@;
        let ghost oreg = self.reg;
        while self.locks.len() > 0 && self.locks[self.locks.len() - 1].holder == depth
            invariant
                self.wf(),
                self.running@ == orun,
                self.states@ == ost,
                self.reg == oreg,
                self.live == old(self).live,
                depth == orun.len() - 1,
                self.locks@.len() <= ol.len(),
                self.locks@ == ol.subrange(0, self.locks@.len() as int),
                kept_locks(self.locks@, depth as int) == kept_locks(ol, depth as int),
                self.mask == if self.locks@.len() == ol.len() {
                    om
                } else {
                    ol[self.locks@.len() as int].saved
                },
            decreases self.locks@.len(),
        {
            let ghost before = self.locks@;
            let _ = self.unlock();
            assert(self.locks@ =~= ol.subrange(0, self.locks@.len() as int));
            assert(before.drop_last() == self.locks@);
        }
        proof {
            if self.locks@.len() > 0 {
                let last = self.locks@.len() - 1;
                assert(self.lock_ok(last));
                assert forall|j: int| 0 <= j < self.locks@.len() implies (#[trigger] self.locks@[
                    j
                ]).holder < depth by {
                    if j < last {
                        assert(self.locks@[j].holder <= self.locks@[last].holder);
                    }
                }
            }
        }
        let t = self.running[depth];
        let ghost prev = *self;
        self.running.pop();
        self.states.set(t, next);
        assert(self.running@ == prev.running@.drop_last());
        assert forall|i: int| 0 <= i < self.running@.len() implies #[trigger] self.running@[i]
            < self.reg.n_tasks() && self.states@[self.running@[i] as int] is Running by {
            assert(self.running@[i] == prev.running@[i]);
            assert(self.reg.priority(prev.running@[i] as int) < self.reg.priority(
                prev.running@[depth as int] as int,
            ));
        }
        assert forall|u: int|
            0 <= u < self.reg.n_tasks() && #[trigger] self.states@[u] is Running implies self.running@.contains(
            u as usize,
        ) by {
            assert(u != t);
            assert(prev.states@[u] is Running);
            assert(prev.running@.contains(u as usize));
            let i = choose|i: int| 0 <= i < prev.running@.len() && prev.running@[i] == u as usize;
            assert(prev.running@[depth as int] == t);
            assert(i != depth);
            assert(self.running@[i] == u as usize);
        }
        assert forall|i: int, j: int| 0 <= i < j < self.running@.len() implies self.reg.priority(
            #[trigger] self.running@[i] as int,
        ) < self.reg.priority(#[trigger] self.running@[j] as int) by {
            assert(self.running@[i] == prev.running@[i]);
            assert(self.running@[j] == prev.running@[j]);
        }
        assert forall|j: int| 0 <= j < self.locks@.len() implies #[trigger] self.lock_ok(j) by {
            assert(prev.lock_ok(j));
            assert(self.running@[self.locks@[j].holder as int] == prev.running@[self.locks@[
                j
            ].holder as int]);
        }
        assert forall|j: int, k: int|
            0 <= j < self.locks@.len() && (#[trigger] self.locks@[j]).holder < k
                < self.running@.len() implies self.reg.priority(#[trigger] self.running@[k] as int)
            > self.reg.ceiling(self.locks@[j].resource as int) by {
            assert(self.running@[k] == prev.running@[k]);
        }
        t
    }

    /// `self` is `old` after its running task left the stack with state
    /// `next`: its locks released and the mask restored to the value saved by
    /// its outermost lock.
    pub open spec fn left(&self, old: &Dispatcher, next: TaskState) -> bool {
        let depth = old.running().len() - 1;
        let k = kept_locks(old.locks(), depth);
        &&& self.registry() == old.registry()
        &&& self.live() == old.live()
        &&& self.states() == old.states().update(old.top(), next)
        &&& self.running() == old.running().drop_last()
        &&& self.locks() == old.locks().subrange(0, k)
        &&& self.mask() == if k == old.locks().len() {
            old.mask()
        } else {
            old.locks()[k].saved
        }
    }

    /// The running task suspends until the monotonic timer reaches
    /// `deadline`. Its locks are released first. Returns the task.
    pub fn suspend_until(&mut self, deadline: u64) -> (res: Result<usize, AccessError>)
        requires
            old(self).wf(),
        ensures
            final(self).wf(),
            old(self).running().len() == 0 <==> res is Err,
            res is Err ==> res == Err::<usize, AccessError>(AccessError::NoRunningTask)
                && *final(self) == *old(self),
            res matches Ok(t) ==> t == old(self).top() && final(self).left(
                old(self),
                (TaskState::Suspended { deadline }),
            ),
    {
        if self.running.len() == 0 {
            return Err(AccessError::NoRunningTask);
        }
        Ok(self.leave(TaskState::Suspended { deadline }))
    }

    /// The running task finishes its body and becomes idle. Its locks are
    /// released first. Returns the task.
    pub fn complete(&mut self) -> (res: Result<usize, AccessError>)
        requires
            old(self).wf(),
        ensures
            final(self).wf(),
            old(self).running().len() == 0 <==> res is Err,
            res is Err ==> res == Err::<usize, AccessError>(AccessError::NoRunningTask)
                && *final(self) == *old(self),
            res matches Ok(t) ==> t == old(self).top() && final(self).left(
                old(self),
                TaskState::Idle,
            ),
    {
        if self.running.len() == 0 {
            return Err(AccessError::NoRunningTask);
        }
        Ok(self.leave(TaskState::Idle))
    }

    /// The nearest timer deadline among suspended tasks: the value the
    /// single compare channel of the timer is programmed with.
    pub fn next_deadline(&self) -> (d: Option<u64>)
        requires
            self.wf(),
        ensures
            d is None <==> forall|t: int| 0 <= t < self.n_tasks() ==> !(#[trigger] self.states()[t] is Suspended),
            d matches Some(m) ==> {
                &&& exists|t: int|
                    0 <= t < self.n_tasks() && #[trigger] self.states()[t] == (TaskState::Suspended { deadline: m })
                &&& forall|t: int|
                    0 <= t < self.n_tasks() && (#[trigger] self.states()[t] is Suspended) ==> m <= self.states()[t]->deadline
            },
    {
        let mut best: Option<u64> = None;
        let mut t: usize = 0;
        while t < self.states.len()
            invariant
                self.wf(),
                t <= self.n_tasks(),
                best is None ==> forall|u: int| 0 <= u < t ==> !(#[trigger] self.states()[u] is Suspended),
                best matches Some(m) ==> {
                    &&& exists|u: int|
                        0 <= u < t && #[trigger] self.states()[u] == (TaskState::Suspended { deadline: m })
                    &&& forall|u: int|
                        0 <= u < t && (#[trigger] self.states()[u] is Suspended) ==> m <= self.states()[u]->deadline
                },
            decreases self.n_tasks() - t,
        {
            match self.states[t] {
                TaskState::Suspended { deadline } => {
                    match best {
                        None => {
                            best = Some(deadline);
                        },
                        Some(m) => {
                            if deadline < m {
                                best = Some(deadline);
                            }
                        },
                    }
                },
                _ => {},
            }
            t = t + 1;
        }
        best
    }

    /// Timer expiry at time `now`: every task suspended on a deadline at or
    /// before `now` becomes pending (in task order); no other task changes.
    /// Returns whether any task woke.
    pub fn expire(&mut self, now: u64) -> (woke: bool)
        requires
            old(self).wf(),
        ensures
            final(self).wf(),
            final(self).same_frames(old(self)),
            final(self).states().len() == old(self).states().len(),
            forall|t: int|
                0 <= t < old(self).n_tasks() ==> if expires(#[trigger] old(self).states()[t], now) {
                    final(self).states()[t] is Pending
                } else {
                    final(self).states()[t] == old(self).states()[t]
                },
            woke == exists|t: int|
                0 <= t < old(self).n_tasks() && expires(#[trigger] old(self).states()[t], now),
            final(self).next_stamp() >= old(self).next_stamp(),
            forall|t: int|
                0 <= t < old(self).n_tasks() && expires(#[trigger] old(self).states()[t], now)
                    ==> old(self).next_stamp() <= final(self).states()[t]->stamp,
            forall|t: int, u: int|
                0 <= t < u < old(self).n_tasks() && expires(#[trigger] old(self).states()[t], now)
                    && expires(#[trigger] old(self).states()[u], now) ==> final(self).states()[t]->stamp
                    <= final(self).states()[u]->stamp,
    {
        let ghost prev = *self;
        let mut woke = false;
        let mut t: usize = 0;
        while t < self.states.len()
            invariant
                self.wf(),
                self.same_frames(&prev),
                self.states@.len() == prev.states@.len(),
                t <= self.n_tasks(),
                forall|u: int|
                    0 <= u < t ==> if expires(#[trigger] prev.states()[u], now) {
                        self.states()[u] is Pending
                    } else {
                        self.states()[u] == prev.states()[u]
                    },
                forall|u: int| t <= u < self.n_tasks() ==> #[trigger] self.states()[u] == prev.states()[u],
                woke == exists|u: int|
                    0 <= u < t && expires(#[trigger] prev.states()[u], now),
                self.next_stamp >= prev.next_stamp,
                forall|u: int|
                    0 <= u < t && expires(#[trigger] prev.states()[u], now) ==> prev.next_stamp
                        <= self.states@[u]->stamp <= self.next_stamp,
                forall|u: int, v: int|
                    0 <= u < v < t && expires(#[trigger] prev.states()[u], now) && expires(
                        #[trigger] prev.states()[v],
                        now,
                    ) ==> self.states@[u]->stamp <= self.states@[v]->stamp,
            decreases self.n_tasks() - t,
        {
            match self.states[t] {
                TaskState::Suspended { deadline } => {
                    if deadline <= now {
                        let ghost before = *self;
                        let stamp = self.next_stamp;
                        self.states.set(t, TaskState::Pending { stamp });
                        if self.next_stamp < u64::MAX {
                            self.next_stamp = self.next_stamp + 1;
                        }
                        woke = true;
                        proof {
                            lemma_relabel_keeps_wf(&before, self, t as int);
                        }
                    }
                },
                _ => {},
            }
            t = t + 1;
        }
        woke
    }
}


/// Giving a task that is not running a new state other than `Running`, with a
/// fresh enough stamp if it becomes pending, keeps the dispatcher well formed.
proof fn lemma_relabel_keeps_wf(a: &Dispatcher, b: &Dispatcher, t: int)
    requires
        a.wf(),
        0 <= t < a.reg.n_tasks(),
        b.reg == a.reg,
        b.ceilings@ == a.ceilings@,
        b.running@ == a.running@,
        b.locks@ == a.locks@,
        b.mask == a.mask,
        b.next_stamp >= a.next_stamp,
        b.states@ == a.states@.update(t, b.states@[t]),
        !(a.states@[t] is Running),
        !(b.states@[t] is Running),
        b.states@[t] is Pending ==> stamp_below(b.states@[t]->stamp, b.next_stamp),
    ensures
        b.wf(),
{
    assert forall|u: int|
        0 <= u < b.reg.n_tasks() && #[trigger] b.states@[u] is Running implies b.running@.contains(
        u as usize,
    ) by {
        assert(a.states@[u] is Running);
    }
    assert forall|i: int| 0 <= i < b.running@.len() implies #[trigger] b.running@[i]
        < b.reg.n_tasks() && b.states@[b.running@[i] as int] is Running by {
        assert(a.states@[b.running@[i] as int] is Running);
    }
    assert forall|j: int| 0 <= j < b.locks@.len() implies #[trigger] b.lock_ok(j) by {
        assert(a.lock_ok(j));
    }
    assert forall|u: int|
        0 <= u < b.reg.n_tasks() && #[trigger] b.states@[u] is Pending implies stamp_below(
        b.states@[u]->stamp,
        b.next_stamp,
    ) by {
        if u != t {
            assert(a.states@[u] is Pending);
        }
    }
}

/// Releasing the innermost lock and restoring its saved mask keeps the
/// dispatcher well formed.
proof fn lemma_pop_keeps_wf(a: &Dispatcher, b: &Dispatcher)
    requires
        a.wf(),
        a.locks@.len() > 0,
        b.reg == a.reg,
        b.ceilings@ == a.ceilings@,
        b.states@ == a.states@,
        b.running@ == a.running@,
        b.next_stamp == a.next_stamp,
        b.live == a.live,
        b.locks@ == a.locks@.drop_last(),
        b.mask == a.locks@.last().saved,
    ensures
        b.wf(),
{
    let n = a.locks@.len() as int;
    if a.locks@[n - 1].saved != 0 {
        let i = choose|i: int|
            0 <= i < n - 1 && a.locks@[n - 1].saved == a.reg.ceiling(
                (#[trigger] a.locks@[i]).resource as int,
            );
        assert(b.locks@[i] == a.locks@[i]);
    }
    assert forall|j: int| 0 <= j < b.locks@.len() implies (#[trigger] b.locks@[j]).saved == 0
        || exists|i: int|
        0 <= i < j && b.locks@[j].saved == b.reg.ceiling(
            (#[trigger] b.locks@[i]).resource as int,
        ) by {
        assert(b.locks@[j] == a.locks@[j]);
        if a.locks@[j].saved != 0 {
            let i = choose|i: int|
                0 <= i < j && a.locks@[j].saved == a.reg.ceiling(
                    (#[trigger] a.locks@[i]).resource as int,
                );
            assert(b.locks@[i] == a.locks@[i]);
        }
    }
    assert forall|j: int| 0 <= j < b.locks@.len() implies #[trigger] b.lock_ok(j) by {
        assert(a.lock_ok(j));
        assert(b.locks@[j] == a.locks@[j]);
        assert(a.lock_ok(n - 1));
    }
    assert forall|i: int, j: int| 0 <= i < j < b.locks@.len() implies {
        let x = #[trigger] b.locks@[i];
        let y = #[trigger] b.locks@[j];
        &&& x.holder <= y.holder
        &&& x.resource != y.resource
        &&& b.reg.ceiling(x.resource as int) <= y.saved
        &&& x.saved <= y.saved
    } by {
        assert(b.locks@[i] == a.locks@[i]);
        assert(b.locks@[j] == a.locks@[j]);
    }
    assert forall|j: int, k: int|
        0 <= j < b.locks@.len() && (#[trigger] b.locks@[j]).holder < k < b.running@.len()
            implies b.reg.priority(#[trigger] b.running@[k] as int) > b.reg.ceiling(
        b.locks@[j].resource as int,
    ) by {
        assert(b.locks@[j] == a.locks@[j]);
    }
}

/// Priority response: when the running task reaches its suspension point or
/// completes, every pending task of higher priority than it becomes eligible
/// at once. Only locks held by the tasks below it remain, and their ceilings
/// are below its priority.
pub proof fn lemma_runs_by_next_suspension(a: &Dispatcher, b: &Dispatcher, next: TaskState, u: int)
    requires
        a.wf(),
        b.wf(),
        a.running().len() > 0,
        b.left(a, next),
        a.live(),
        0 <= u < a.n_tasks(),
        a.states()[u] is Pending,
        a.prio(u) > a.prio(a.top()),
    ensures
        b.eligible(u),
{
    let depth = a.running@.len() - 1;
    lemma_kept_locks_range(a.locks@, depth);
    assert(a.states@[a.running@[depth] as int] is Running);
    assert(b.states@[u] == a.states@[u]);
    if b.running@.len() > 0 {
        let k = b.running@.len() - 1;
        assert(b.running@[k] == a.running@[k]);
        assert(a.reg.priority(a.running@[k] as int) < a.reg.priority(a.running@[depth] as int));
    }
    if b.mask != 0 {
        let i = choose|i: int|
            0 <= i < b.locks@.len() && b.mask == b.reg.ceiling(
                (#[trigger] b.locks@[i]).resource as int,
            );
        assert(b.lock_ok(i));
        assert(b.locks@[i] == a.locks@[i]);
        assert(a.locks@[i].holder < depth);
        assert(a.reg.priority(a.running@[depth] as int) > a.reg.ceiling(
            a.locks@[i].resource as int,
        ));
    }
}

/// Mutual exclusion: while a task holds a lock on a shared resource, every
/// task above it on the running stack (the only tasks that can execute before
/// the lock is released) is outside that resource's owner set, and no other
/// lock is on the same resource.
pub proof fn lemma_mutual_exclusion(d: &Dispatcher, j: int)
    requires
        d.wf(),
        0 <= j < d.locks().len(),
    ensures
        forall|k: int|
            d.locks()[j].holder < k < d.running().len() ==> !d.registry().references(
                #[trigger] d.running()[k] as int,
                d.locks()[j].resource as int,
            ),
        forall|i: int|
            0 <= i < d.locks().len() && i != j ==> (#[trigger] d.locks()[i]).resource != d.locks()[j].resource,
{
    let r = d.locks@[j].resource as int;
    assert(d.lock_ok(j));
    assert forall|k: int| d.locks()[j].holder < k < d.running().len() implies !d.registry().references(
        #[trigger] d.running()[k] as int,
        r,
    ) by {
        let t = d.running@[k] as int;
        if d.reg.references(t, r) {
            d.reg.lemma_ceiling_bounds(t, r, d.reg.n_tasks());
        }
    }
    assert forall|i: int| 0 <= i < d.locks().len() && i != j implies (#[trigger] d.locks()[i]).resource
        != d.locks()[j].resource by {
        if i < j {
            assert(d.locks@[i].resource != d.locks@[j].resource);
        } else {
            assert(d.locks@[j].resource != d.locks@[i].resource);
        }
    }
}

/// Priority order: of two pending tasks, the one with the lower priority is
/// never the one started while the other is pending.
pub proof fn lemma_priority_order(d: &Dispatcher, a: int, b: int)
    requires
        d.wf(),
        0 <= a < d.n_tasks(),
        0 <= b < d.n_tasks(),
        d.states()[a] is Pending,
        d.states()[b] is Pending,
        d.prio(a) < d.prio(b),
    ensures
        !d.is_choice(a),
        d.eligible(a) ==> d.eligible(b),
{
    if d.is_choice(a) {
        assert(d.eligible(b));
        assert(d.precedes(b, a));
    }
}

/// Single instance: each task has one state, and the running stack holds a
/// task at most once, and only tasks whose state is `Running`.
pub proof fn lemma_single_instance(d: &Dispatcher)
    requires
        d.wf(),
    ensures
        d.states().len() == d.n_tasks(),
        forall|i: int, j: int|
            0 <= i < j < d.running().len() ==> #[trigger] d.running()[i] != #[trigger] d.running()[j],
        forall|i: int|
            0 <= i < d.running().len() ==> d.states()[#[trigger] d.running()[i] as int] is Running,
{
    assert forall|i: int, j: int| 0 <= i < j < d.running().len() implies #[trigger] d.running()[i]
        != #[trigger] d.running()[j] by {
        assert(d.reg.priority(d.running@[i] as int) < d.reg.priority(d.running@[j] as int));
    }
}

/// The trigger counter after one trigger: it saturates at its last value.
pub open spec fn advance_stamp(s: u64) -> u64 {
    if s < u64::MAX {
        (s + 1) as u64
    } else {
        s
    }
}

/// A pending stamp is below the counter, unless the counter has saturated.
pub open spec fn stamp_below(stamp: u64, counter: u64) -> bool {
    stamp < counter || counter == u64::MAX
}

/// Trigger order: every pending task was stamped before the counter's
/// current value, so a later trigger gets a later stamp (until the counter
/// saturates).
pub proof fn lemma_stamps_below(d: &Dispatcher)
    requires
        d.wf(),
    ensures
        forall|t: int|
            0 <= t < d.n_tasks() && #[trigger] d.states()[t] is Pending ==> stamp_below(
                d.states()[t]->stamp,
                d.next_stamp(),
            ),
{
}

proof fn lemma_kept_locks_range(locks: Seq<Lock>, depth: int)
    ensures
        0 <= kept_locks(locks, depth) <= locks.len(),
    decreases locks.len(),
{
    if locks.len() > 0 {
        lemma_kept_locks_range(locks.drop_last(), depth);
    }
}

/// A task in state `s` is due to wake at time `now`.
pub open spec fn expires(s: TaskState, now: u64) -> bool {
    s matches TaskState::Suspended { deadline } && deadline <= now
}

/// How many of `locks` stay held when the task at running depth `depth`
/// leaves. Locks are ordered by holder, so those that stay form a prefix.
pub open spec fn kept_locks(locks: Seq<Lock>, depth: int) -> int
    decreases locks.len(),
{
    if locks.len() == 0 {
        0
    } else if locks.last().holder >= depth {
        kept_locks(locks.drop_last(), depth)
    } else {
        locks.len() as int
    }
}

} // verus!
