//! The static task table and resource partition, with the ownership check
//! that rejects ill-formed partitions and the priority ceiling of each
//! resource.
use vstd::prelude::*;

verus! {

/// How a task is moved from `Idle` to `Pending`.
#[derive(Clone, Copy, Debug, PartialEq, Eq, Structural)]
pub enum Trigger {
    /// Bound to a hardware interrupt.
    Interrupt,
    /// Spawned by software (from start-up or from another task).
    Spawn,
    /// Re-armed by its own timed suspension.
    Timer,
}

/// Whether a resource belongs to one task or is shared by several.
#[derive(Clone, Copy, Debug, PartialEq, Eq, Structural)]
pub enum ResourceKind {
    /// Owned by exactly one task; accessed without locking.
    Local,
    /// Reachable from one or more tasks; accessed under the ceiling protocol.
    Shared,
}

/// The static descriptor of one task.
pub struct TaskDef {
    /// Higher is more urgent.
    pub priority: u8,
    pub trigger: Trigger,
    /// The resources, by index, that the task refers to.
    pub resources: Vec<usize>,
}

/// The task table together with the kinds of the declared resources.
/// Tasks and resources are identified by their index.
pub struct Registry {
    pub tasks: Vec<TaskDef>,
    pub resources: Vec<ResourceKind>,
}

/// A partition that the ownership check rejects.
#[derive(Clone, Copy, Debug, PartialEq, Eq, Structural)]
pub enum ContractViolation {
    /// A task refers to a resource index that is not declared.
    UnknownResource { task: usize },
    /// A local resource is not referenced by exactly one task.
    LocalNotExclusive { resource: usize },
    /// A shared resource is referenced by no task.
    SharedUnowned { resource: usize },
}

impl Registry {
    pub open spec fn n_tasks(&self) -> int {
        self.tasks@.len() as int
    }

    pub open spec fn n_resources(&self) -> int {
        self.resources@.len() as int
    }

    pub open spec fn priority(&self, t: int) -> u8 {
        self.tasks@[t].priority
    }

    pub open spec fn references(&self, t: int, r: int) -> bool {
        self.tasks@[t].resources@.contains(r as usize)
    }

    /// Every resource index named by task `t` is declared.
    pub open spec fn refs_in_range(&self, t: int) -> bool {
        forall|k: int|
            0 <= k < self.tasks@[t].resources@.len() ==> #[trigger] self.tasks@[t].resources@[k]
                < self.n_resources()
    }

    /// Number of the first `n` tasks that reference resource `r`.
    pub open spec fn owners_upto(&self, r: int, n: int) -> nat
        decreases n,
    {
        if n <= 0 {
            0
        } else {
            self.owners_upto(r, n - 1) + if self.references(n - 1, r) {
                1nat
            } else {
                0nat
            }
        }
    }

    pub open spec fn owners(&self, r: int) -> nat {
        self.owners_upto(r, self.n_tasks())
    }

    /// The owner-count rule for resource `r`.
    pub open spec fn resource_ok(&self, r: int) -> bool {
        match self.resources@[r] {
            ResourceKind::Local => self.owners(r) == 1,
            ResourceKind::Shared => self.owners(r) >= 1,
        }
    }

    /// The partition is well formed: every reference is declared, every local
    /// resource has exactly one owner and every shared resource at least one.
    pub open spec fn well_formed(&self) -> bool {
        &&& forall|t: int| 0 <= t < self.n_tasks() ==> #[trigger] self.refs_in_range(t)
        &&& forall|r: int| 0 <= r < self.n_resources() ==> #[trigger] self.resource_ok(r)
    }

    /// What a reported violation means.
    pub open spec fn shows(&self, e: ContractViolation) -> bool {
        match e {
            ContractViolation::UnknownResource { task } => task < self.n_tasks()
                && !self.refs_in_range(task as int),
            ContractViolation::LocalNotExclusive { resource } => resource < self.n_resources()
                && self.resources@[resource as int] == ResourceKind::Local && self.owners(
                resource as int,
            ) != 1,
            ContractViolation::SharedUnowned { resource } => resource < self.n_resources()
                && self.resources@[resource as int] == ResourceKind::Shared && self.owners(
                resource as int,
            ) == 0,
        }
    }

    /// The highest priority among the first `n` tasks referencing `r` (0 if none).
    pub open spec fn ceiling_upto(&self, r: int, n: int) -> u8
        decreases n,
    {
        if n <= 0 {
            0
        } else {
            let c = self.ceiling_upto(r, n - 1);
            if self.references(n - 1, r) && self.priority(n - 1) > c {
                self.priority(n - 1)
            } else {
                c
            }
        }
    }

    /// The priority ceiling of resource `r`.
    pub open spec fn ceiling(&self, r: int) -> u8 {
        self.ceiling_upto(r, self.n_tasks())
    }
    /// Whether task `t` lists resource `r`.
    pub fn task_references(&self, t: usize, r: usize) -> (b: bool)
        requires
            t < self.n_tasks(),
        ensures
            b == self.references(t as int, r as int),
    {
        let refs = &self.tasks[t].resources;
        let mut k: usize = 0;
        while k < refs.len()
            invariant
                k <= refs@.len(),
                refs@ == self.tasks@[t as int].resources@,
                forall|j: int| 0 <= j < k ==> refs@[j] != r,
            decreases refs@.len() - k,
        {
            if refs[k] == r {
                return true;
            }
            k = k + 1;
        }
        false
    }

    /// The number of tasks that reference resource `r`.
    pub fn owner_count(&self, r: usize) -> (n: usize)
        ensures
            n == self.owners(r as int),
    {
        let mut n: usize = 0;
        let mut t: usize = 0;
        while t < self.tasks.len()
            invariant
                t <= self.n_tasks(),
                n == self.owners_upto(r as int, t as int),
                n <= t,
            decreases self.n_tasks() - t,
        {
            if self.task_references(t, r) {
                n = n + 1;
            }
            t = t + 1;
        }
        n
    }

    /// The priority ceiling of resource `r`: the highest priority among the
    /// tasks that reference it, 0 when none does.
    pub fn ceiling_of(&self, r: usize) -> (c: u8)
        ensures
            c == self.ceiling(r as int),
    {
        let mut c: u8 = 0;
        let mut t: usize = 0;
        while t < self.tasks.len()
            invariant
                t <= self.n_tasks(),
                c == self.ceiling_upto(r as int, t as int),
            decreases self.n_tasks() - t,
        {
            if self.task_references(t, r) && self.tasks[t].priority > c {
                c = self.tasks[t].priority;
            }
            t = t + 1;
        }
        c
    }

    /// Checks the partition before the dispatcher starts. Reference ranges are
    /// checked first, task by task; then the owner count of each resource.
    pub fn check_ownership(&self) -> (res: Result<(), ContractViolation>)
        ensures
            res is Ok <==> self.well_formed(),
            res matches Err(e) ==> self.shows(e),
            res matches Err(ContractViolation::LocalNotExclusive { .. }) ==> forall|t: int|
                0 <= t < self.n_tasks() ==> #[trigger] self.refs_in_range(t),
            res matches Err(ContractViolation::SharedUnowned { .. }) ==> forall|t: int|
                0 <= t < self.n_tasks() ==> #[trigger] self.refs_in_range(t),
    {
        let nres = self.resources.len();
        let mut t: usize = 0;
        while t < self.tasks.len()
            invariant
                t <= self.n_tasks(),
                nres == self.n_resources(),
                forall|u: int| 0 <= u < t ==> #[trigger] self.refs_in_range(u),
            decreases self.n_tasks() - t,
        {
            let refs = &self.tasks[t].resources;
            let mut k: usize = 0;
            while k < refs.len()
                invariant
                    t < self.n_tasks(),
                    k <= refs@.len(),
                    refs@ == self.tasks@[t as int].resources@,
                    nres == self.n_resources(),
                    forall|j: int| 0 <= j < k ==> refs@[j] < nres,
                decreases refs@.len() - k,
            {
                if refs[k] >= nres {
                    assert(!self.refs_in_range(t as int));
                    return Err(ContractViolation::UnknownResource { task: t });
                }
                k = k + 1;
            }
            assert(self.refs_in_range(t as int));
            t = t + 1;
        }
        let mut r: usize = 0;
        while r < nres
            invariant
                r <= nres,
                nres == self.n_resources(),
                forall|u: int| 0 <= u < self.n_tasks() ==> #[trigger] self.refs_in_range(u),
                forall|q: int| 0 <= q < r ==> #[trigger] self.resource_ok(q),
            decreases nres - r,
        {
            let n = self.owner_count(r);
            match self.resources[r] {
                ResourceKind::Local => {
                    if n != 1 {
                        assert(!self.resource_ok(r as int));
                        return Err(ContractViolation::LocalNotExclusive { resource: r });
                    }
                },
                ResourceKind::Shared => {
                    if n == 0 {
                        assert(!self.resource_ok(r as int));
                        return Err(ContractViolation::SharedUnowned { resource: r });
                    }
                },
            }
            r = r + 1;
        }
        Ok(())
    }

    /// A task's priority never exceeds the ceiling of a resource it references.
    pub proof fn lemma_ceiling_bounds(&self, t: int, r: int, n: int)
        requires
            0 <= t < n,
            self.references(t, r),
        ensures
            self.priority(t) <= self.ceiling_upto(r, n),
        decreases n,
    {
        if t < n - 1 {
            self.lemma_ceiling_bounds(t, r, n - 1);
        }
    }
}

} // verus!
