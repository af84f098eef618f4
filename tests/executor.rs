use pico_rtic::heartbeat::Heartbeat;
use pico_rtic::init::{InitSequencer, InitStep};
use pico_rtic::dispatcher::{AccessError, Dispatcher, TaskState};
use pico_rtic::registry::{ContractViolation, Registry, ResourceKind, TaskDef, Trigger};

fn task(priority: u8, trigger: Trigger, resources: Vec<usize>) -> TaskDef {
    TaskDef { priority, trigger, resources }
}

fn finished_init() -> InitSequencer {
    let mut s = InitSequencer::new();
    for _ in 0..4 {
        s.advance(true);
    }
    assert_eq!(s.step, InitStep::Done);
    s
}

fn live(reg: Registry) -> Dispatcher {
    let mut d = Dispatcher::new(reg).ok().unwrap();
    assert!(d.start(&finished_init()));
    d
}

fn shared_pair() -> Dispatcher {
    // task 0: Low (priority 1), task 1: High (priority 5), both on resource 0
    let reg = Registry {
        tasks: vec![task(1, Trigger::Spawn, vec![0]), task(5, Trigger::Interrupt, vec![0])],
        resources: vec![ResourceKind::Shared],
    };
    live(reg)
}

#[test]
fn ownership_accepts_valid_partition() {
    let reg = Registry {
        tasks: vec![task(1, Trigger::Spawn, vec![0, 1]), task(2, Trigger::Interrupt, vec![1])],
        resources: vec![ResourceKind::Local, ResourceKind::Shared],
    };
    assert_eq!(reg.check_ownership(), Ok(()));
    assert_eq!(reg.owner_count(0), 1);
    assert_eq!(reg.owner_count(1), 2);
    assert_eq!(reg.ceiling_of(1), 2);
    assert_eq!(reg.ceiling_of(0), 1);
}

#[test]
fn ownership_rejects_local_used_twice() {
    let reg = Registry {
        tasks: vec![task(1, Trigger::Spawn, vec![0]), task(2, Trigger::Spawn, vec![0])],
        resources: vec![ResourceKind::Local],
    };
    assert_eq!(reg.check_ownership(), Err(ContractViolation::LocalNotExclusive { resource: 0 }));
    assert!(Dispatcher::new(reg).is_err());
}

#[test]
fn ownership_rejects_unused_local() {
    let reg = Registry { tasks: vec![task(1, Trigger::Spawn, vec![])], resources: vec![ResourceKind::Local] };
    assert_eq!(reg.check_ownership(), Err(ContractViolation::LocalNotExclusive { resource: 0 }));
}

#[test]
fn ownership_rejects_unowned_shared() {
    let reg = Registry {
        tasks: vec![task(1, Trigger::Spawn, vec![0])],
        resources: vec![ResourceKind::Local, ResourceKind::Shared],
    };
    assert_eq!(reg.check_ownership(), Err(ContractViolation::SharedUnowned { resource: 1 }));
}

#[test]
fn ownership_rejects_unknown_resource() {
    let reg = Registry {
        tasks: vec![task(1, Trigger::Spawn, vec![0]), task(1, Trigger::Spawn, vec![3])],
        resources: vec![ResourceKind::Local],
    };
    assert_eq!(reg.check_ownership(), Err(ContractViolation::UnknownResource { task: 1 }));
}

#[test]
fn second_trigger_of_busy_task_is_dropped() {
    let mut d = shared_pair();
    assert!(d.spawn(0));
    assert!(!d.spawn(0));
    assert_eq!(d.dispatch(), Some(0));
    assert!(!d.spawn(0));
    assert_eq!(d.state(0), TaskState::Running);
    assert_eq!(d.complete(), Ok(0));
    assert_eq!(d.state(0), TaskState::Idle);
    assert!(d.spawn(0));
}

#[test]
fn higher_priority_pending_task_runs_first() {
    let mut d = shared_pair();
    assert!(d.spawn(0));
    assert!(d.spawn(1));
    assert_eq!(d.select(), Some(1));
    assert_eq!(d.dispatch(), Some(1));
    // Low cannot preempt High
    assert_eq!(d.dispatch(), None);
    assert_eq!(d.complete(), Ok(1));
    assert_eq!(d.dispatch(), Some(0));
}

#[test]
fn higher_priority_task_preempts_running_one() {
    let mut d = shared_pair();
    d.spawn(0);
    assert_eq!(d.dispatch(), Some(0));
    assert_eq!(d.current_level(), 1);
    d.spawn(1);
    assert_eq!(d.dispatch(), Some(1));
    assert_eq!(d.current(), Some(1));
    assert_eq!(d.complete(), Ok(1));
    assert_eq!(d.current(), Some(0));
}

#[test]
fn equal_priorities_run_in_trigger_order() {
    let reg = Registry {
        tasks: vec![task(3, Trigger::Spawn, vec![]), task(3, Trigger::Spawn, vec![]), task(3, Trigger::Spawn, vec![])],
        resources: vec![],
    };
    let mut d = live(reg);
    d.spawn(2);
    d.spawn(0);
    d.spawn(1);
    assert_eq!(d.dispatch(), Some(2));
    assert_eq!(d.complete(), Ok(2));
    assert_eq!(d.dispatch(), Some(0));
    assert_eq!(d.complete(), Ok(0));
    assert_eq!(d.dispatch(), Some(1));
}

// Low (priority 1) starts a 100-unit access at t = 0, High (priority 5)
// becomes pending at t = 10 wanting the same resource: it starts only once the
// access ends, at t = 100.
#[test]
fn scenario_shared_resource_bounded_inversion() {
    let mut d = shared_pair();
    let mut t: u64 = 0;
    d.spawn(0);
    assert_eq!(d.dispatch(), Some(0));
    assert_eq!(d.lock(0), Ok(()));
    assert_eq!(d.mask_level(), 5);
    let mut high_access_start: Option<u64> = None;
    while t <= 200 {
        if t == 10 {
            assert!(d.spawn(1));
        }
        if t == 100 {
            assert_eq!(d.unlock(), Ok(0));
            assert_eq!(d.mask_level(), 0);
        }
        if d.dispatch() == Some(1) {
            assert_eq!(d.lock(0), Ok(()));
            high_access_start = Some(t);
        }
        t += 10;
    }
    let start = high_access_start.unwrap();
    assert!(start >= 100);
    assert_eq!(start, 100);
}

#[test]
fn lock_errors() {
    let reg = Registry {
        tasks: vec![task(1, Trigger::Spawn, vec![0, 1]), task(2, Trigger::Spawn, vec![1, 2])],
        resources: vec![ResourceKind::Local, ResourceKind::Shared, ResourceKind::Local],
    };
    let mut d = live(reg);
    assert_eq!(d.lock(1), Err(AccessError::NoRunningTask));
    assert_eq!(d.unlock(), Err(AccessError::NoRunningTask));
    d.spawn(0);
    d.dispatch();
    assert_eq!(d.lock(2), Err(AccessError::NotOwner));
    assert_eq!(d.lock(0), Err(AccessError::LocalResource));
    assert_eq!(d.unlock(), Err(AccessError::NothingHeld));
    assert_eq!(d.lock(1), Ok(()));
    assert_eq!(d.lock(1), Err(AccessError::AlreadyHeld));
    assert_eq!(d.mask_level(), 2);
    // task 1 (priority 2) is blocked by the ceiling while resource 1 is held
    d.spawn(1);
    assert_eq!(d.dispatch(), None);
    // completing releases the lock and restores the mask
    assert_eq!(d.complete(), Ok(0));
    assert_eq!(d.mask_level(), 0);
    assert_eq!(d.dispatch(), Some(1));
}

#[test]
fn nested_locks_restore_masks_in_order() {
    let reg = Registry {
        tasks: vec![task(1, Trigger::Spawn, vec![0, 1]), task(3, Trigger::Spawn, vec![1]), task(2, Trigger::Spawn, vec![0])],
        resources: vec![ResourceKind::Shared, ResourceKind::Shared],
    };
    let mut d = live(reg);
    d.spawn(0);
    d.dispatch();
    assert_eq!(d.lock(0), Ok(()));
    assert_eq!(d.mask_level(), 2);
    assert_eq!(d.lock(1), Ok(()));
    assert_eq!(d.mask_level(), 3);
    assert_eq!(d.unlock(), Ok(1));
    assert_eq!(d.mask_level(), 2);
    assert_eq!(d.unlock(), Ok(0));
    assert_eq!(d.mask_level(), 0);
}

#[test]
fn suspended_task_wakes_at_deadline_not_before() {
    let reg = Registry {
        tasks: vec![task(1, Trigger::Timer, vec![]), task(2, Trigger::Timer, vec![])],
        resources: vec![],
    };
    let mut d = live(reg);
    assert_eq!(d.next_deadline(), None);
    d.spawn(0);
    d.dispatch();
    assert_eq!(d.suspend_until(500), Ok(0));
    d.spawn(1);
    d.dispatch();
    assert_eq!(d.suspend_until(300), Ok(1));
    assert_eq!(d.next_deadline(), Some(300));
    assert!(!d.expire(299));
    assert_eq!(d.state(1), TaskState::Suspended { deadline: 300 });
    assert!(d.expire(310));
    assert!(matches!(d.state(1), TaskState::Pending { .. }));
    assert_eq!(d.state(0), TaskState::Suspended { deadline: 500 });
    assert_eq!(d.next_deadline(), Some(500));
    // a late expiry still wakes the task
    assert!(d.expire(800));
    assert!(matches!(d.state(0), TaskState::Pending { .. }));
    assert_eq!(d.dispatch(), Some(1));
}

#[test]
fn suspend_without_running_task_fails() {
    let mut d = shared_pair();
    assert_eq!(d.suspend_until(10), Err(AccessError::NoRunningTask));
    assert_eq!(d.complete(), Err(AccessError::NoRunningTask));
}

// The heartbeat (task 0, owning the LED as resource 0) driven by the
// dispatcher and the timer for 2000 time units, sampled every 10 units.
#[test]
fn heartbeat_through_dispatcher() {
    let reg = Registry { tasks: vec![task(1, Trigger::Timer, vec![0])], resources: vec![ResourceKind::Local] };
    let mut d = live(reg);
    let mut hb = Heartbeat::new(500);
    let mut toggles: Vec<u64> = Vec::new();
    assert!(d.spawn(0));
    let mut now: u64 = 0;
    while now <= 2000 {
        d.expire(now);
        if d.dispatch() == Some(0) {
            let was = hb.led_high;
            let deadline = hb.resume(now);
            assert_ne!(hb.led_high, was);
            toggles.push(now);
            assert_eq!(d.suspend_until(deadline), Ok(0));
            assert_eq!(d.next_deadline(), Some(now + 500));
        }
        now += 10;
    }
    assert_eq!(toggles, vec![0, 500, 1000, 1500, 2000]);
    assert_eq!(d.state(0), TaskState::Suspended { deadline: 2500 });
}

#[test]
fn nothing_runs_before_start_up_finishes() {
    let reg = Registry { tasks: vec![task(1, Trigger::Spawn, vec![0])], resources: vec![ResourceKind::Local] };
    let mut d = Dispatcher::new(reg).ok().unwrap();
    let mut seq = InitSequencer::new();
    seq.advance(true);
    seq.advance(true);
    seq.advance(true);
    // start-up spawns the heartbeat; it stays pending
    assert!(d.spawn(0));
    assert_eq!(d.dispatch(), None);
    assert!(!d.start(&seq));
    assert_eq!(d.dispatch(), None);
    seq.advance(true);
    assert!(d.start(&seq));
    assert_eq!(d.dispatch(), Some(0));
}

#[test]
fn halted_start_up_never_starts_dispatcher() {
    let reg = Registry { tasks: vec![task(1, Trigger::Spawn, vec![])], resources: vec![] };
    let mut d = Dispatcher::new(reg).ok().unwrap();
    let mut seq = InitSequencer::new();
    seq.advance(true);
    seq.advance(false);
    d.spawn(0);
    assert!(!d.start(&seq));
    assert_eq!(d.select(), None);
}

#[test]
fn higher_priority_runs_at_lower_suspension() {
    let mut d = shared_pair();
    d.spawn(0);
    assert_eq!(d.dispatch(), Some(0));
    assert_eq!(d.lock(0), Ok(()));
    d.spawn(1);
    assert_eq!(d.dispatch(), None);
    assert_eq!(d.suspend_until(1000), Ok(0));
    assert_eq!(d.mask_level(), 0);
    assert_eq!(d.dispatch(), Some(1));
}

#[test]
fn woken_tasks_queue_behind_earlier_triggers() {
    let reg = Registry {
        tasks: vec![task(2, Trigger::Timer, vec![]), task(2, Trigger::Spawn, vec![]), task(9, Trigger::Spawn, vec![])],
        resources: vec![],
    };
    let mut d = live(reg);
    d.spawn(2);
    assert_eq!(d.dispatch(), Some(2));
    d.spawn(0);
    assert_eq!(d.dispatch(), None);
    assert_eq!(d.complete(), Ok(2));
    assert_eq!(d.dispatch(), Some(0));
    assert_eq!(d.suspend_until(50), Ok(0));
    d.spawn(1);
    assert!(d.expire(50));
    // task 1 was triggered before task 0 woke: same priority, so it runs first
    assert_eq!(d.dispatch(), Some(1));
}
