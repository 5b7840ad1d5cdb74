use rotom_core::task::{switch_task, Task, TaskContext, TaskRing};

#[test]
fn bootstrap_switch_returns_the_given_context() {
    let mut ring = TaskRing::new();
    let ctx = switch_task(&mut ring, 0x1000, 0x2000);
    assert_eq!(ctx, TaskContext { rsp: 0x1000, cr3: 0x2000 });
    // no task exists, so nothing was scheduled
    assert!(ring.current.is_none());
    assert_eq!(ring.tasks.len(), 0);
}

#[test]
fn first_task_closes_the_ring_on_itself() {
    let mut ring = TaskRing::new();
    let a = ring.create(0x100, 0x200);
    assert_eq!(ring.current, Some(a));
    assert_eq!(ring.tasks[a].next, a);
    assert_eq!(ring.tasks[a].prev, a);
}

#[test]
fn register_snapshot_starts_with_only_the_stack_pointer() {
    let mut ring = TaskRing::new();
    let a = ring.create(0xbeef, 0x300);
    for (i, r) in ring.tasks[a].regs.iter().enumerate() {
        if i == 6 {
            assert_eq!(*r, 0xbeef);
        } else {
            assert_eq!(*r, 0);
        }
    }
}

#[test]
fn pids_are_monotone_and_unique() {
    let mut ring = TaskRing::new();
    let a = ring.create(1, 1);
    let b = ring.create(2, 2);
    let c = ring.create(3, 3);
    assert_eq!(ring.tasks[a].pid, 0);
    assert_eq!(ring.tasks[b].pid, 1);
    assert_eq!(ring.tasks[c].pid, 2);
}

#[test]
fn ring_integrity_after_three_tasks() {
    let mut ring = TaskRing::new();
    ring.create(1, 1);
    ring.create(2, 2);
    ring.create(3, 3);
    let n = ring.tasks.len();
    for start in 0..n {
        let mut i = start;
        for _ in 0..n {
            i = ring.tasks[i].next;
        }
        assert_eq!(i, start);
        let mut j = start;
        for _ in 0..n {
            j = ring.tasks[j].prev;
        }
        assert_eq!(j, start);
        assert_eq!(ring.tasks[ring.tasks[start].next].prev, start);
        assert_eq!(ring.tasks[ring.tasks[start].prev].next, start);
    }
}

#[test]
fn switch_rotates_round_robin() {
    let mut ring = TaskRing::new();
    let a = ring.create(0xa0, 0xa1);
    let b = ring.create(0xb0, 0xb1);
    let c = ring.create(0xc0, 0xc1);
    // ring order is a -> b -> c with a current
    assert_eq!(ring.current, Some(a));
    assert_eq!(ring.tasks[a].next, b);
    assert_eq!(ring.tasks[b].next, c);
    assert_eq!(ring.tasks[c].next, a);

    let ctx = switch_task(&mut ring, 0x10, 0x11);
    assert_eq!(ring.current, Some(b));
    assert_eq!(ctx, TaskContext { rsp: 0xb0, cr3: 0xb1 });

    let ctx = switch_task(&mut ring, 0x20, 0x21);
    assert_eq!(ring.current, Some(c));
    assert_eq!(ctx, TaskContext { rsp: 0xc0, cr3: 0xc1 });

    let ctx = switch_task(&mut ring, 0x30, 0x31);
    assert_eq!(ring.current, Some(a));
    // the context handed back is the one saved for a on the first switch
    assert_eq!(ctx, TaskContext { rsp: 0x10, cr3: 0x11 });
}

#[test]
fn switch_on_a_single_task_returns_what_was_just_saved() {
    let mut ring = TaskRing::new();
    let a = ring.create(0x1, 0x2);
    let ctx = switch_task(&mut ring, 0x77, 0x88);
    assert_eq!(ring.current, Some(a));
    assert_eq!(ctx, TaskContext { rsp: 0x77, cr3: 0x88 });
}

#[test]
fn explicit_splice_between_neighbors() {
    let mut ring = TaskRing::new();
    let a = Task::new(&mut ring, 0, 0, TaskContext { rsp: 1, cr3: 1 });
    let b = Task::new(&mut ring, a, a, TaskContext { rsp: 2, cr3: 2 });
    // b sits between a and a: a <-> b
    assert_eq!(ring.tasks[a].next, b);
    assert_eq!(ring.tasks[a].prev, b);
    assert_eq!(ring.tasks[b].next, a);
    assert_eq!(ring.tasks[b].prev, a);
}
