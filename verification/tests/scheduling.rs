use os::manager::TaskManager;
use os::pipe::{make_pipe, PipeStep, RING_BUFFER_SIZE};
use os::signal::{SignalFlags, SIGABRT, SIGILL, SIGINT, SIGSEGV};
use os::sync::{Condvar, Mutex, MutexBlocking, MutexObject, MutexSpin, Semaphore, SyncRefCell};
use os::timer::{
    add_timer, check_timer, remove_timer, set_next_trigger, sleep_ms, ticks_to_ms, TimerCondVar,
};

#[test]
fn task_manager_fetches_in_arrival_order() {
    let mut m = TaskManager::new();
    m.add(7);
    m.add(3);
    m.add(9);
    assert_eq!(m.fetch(), Some(7));
    assert_eq!(m.fetch(), Some(3));
    m.add(1);
    assert_eq!(m.fetch(), Some(9));
    assert_eq!(m.fetch(), Some(1));
    assert_eq!(m.fetch(), None);
}

#[test]
fn task_manager_remove_takes_out_the_first_occurrence() {
    let mut m = TaskManager::new();
    m.add(1);
    m.add(2);
    m.add(1);
    m.add_stop(5);
    m.remove(1);
    m.remove(42);
    assert_eq!(m.fetch(), Some(2));
    assert_eq!(m.fetch(), Some(1));
    assert_eq!(m.fetch(), None);
}

#[test]
fn pipe_bytes_come_out_in_the_order_they_went_in() {
    let (mut ring, r, w) = make_pipe();
    assert!(r.readable() && !r.writeable());
    assert!(w.writeable() && !w.readable());
    let src = vec![1u8, 2, 3, 4, 5];
    let mut sent = 0usize;
    let (step, woken) = w.write(&mut ring, 1, &src, &mut sent);
    assert_eq!(step, PipeStep::Done(5));
    assert!(woken.is_empty());
    assert_eq!(ring.available_read(), 5);
    let mut got = Vec::new();
    let (step, _) = r.read(&mut ring, 2, 3, &mut got);
    assert_eq!(step, PipeStep::Done(3));
    assert_eq!(got, vec![1, 2, 3]);
    let mut more = Vec::new();
    let (step, _) = r.read(&mut ring, 2, 2, &mut more);
    assert_eq!(step, PipeStep::Done(2));
    assert_eq!(more, vec![4, 5]);
}

#[test]
fn pipe_reader_blocks_on_empty_buffer_and_writer_wakes_it() {
    let (mut ring, r, w) = make_pipe();
    let mut got = Vec::new();
    let (step, woken) = r.read(&mut ring, 4, 2, &mut got);
    assert_eq!(step, PipeStep::Block);
    assert!(woken.is_empty());
    let src = vec![9u8];
    let mut sent = 0usize;
    let (step, woken) = w.write(&mut ring, 5, &src, &mut sent);
    assert_eq!(step, PipeStep::Done(1));
    assert_eq!(woken, vec![4]);
}

#[test]
fn pipe_writer_blocks_when_the_buffer_is_full() {
    let (mut ring, r, w) = make_pipe();
    let src: Vec<u8> = (0..40u8).collect();
    let mut sent = 0usize;
    let (step, _) = w.write(&mut ring, 1, &src, &mut sent);
    assert_eq!(step, PipeStep::Block);
    assert_eq!(sent, RING_BUFFER_SIZE);
    assert_eq!(ring.available_write(), 0);
    let mut got = Vec::new();
    let (step, woken) = r.read(&mut ring, 2, 40, &mut got);
    assert_eq!(step, PipeStep::Block);
    assert_eq!(woken, vec![1]);
    assert_eq!(got.len(), RING_BUFFER_SIZE);
    let (step, woken) = w.write(&mut ring, 1, &src, &mut sent);
    assert_eq!(step, PipeStep::Done(40));
    assert_eq!(woken, vec![2]);
}

#[test]
fn pipe_read_after_writer_closed_returns_what_is_left() {
    let (mut ring, r, w) = make_pipe();
    let src = vec![7u8, 8];
    let mut sent = 0usize;
    w.write(&mut ring, 1, &src, &mut sent);
    let woken = w.close(&mut ring);
    assert!(woken.is_empty());
    assert!(ring.all_write_ends_closed());
    let mut got = Vec::new();
    let (step, _) = r.read(&mut ring, 2, 10, &mut got);
    assert_eq!(step, PipeStep::Done(2));
    assert_eq!(got, vec![7, 8]);
    let (step, _) = r.read(&mut ring, 2, 10, &mut got);
    assert_eq!(step, PipeStep::Done(2));
}

#[test]
fn pipe_write_after_reader_closed_fails() {
    let (mut ring, r, w) = make_pipe();
    r.close(&mut ring);
    assert!(ring.all_read_ends_closed());
    let src = vec![1u8];
    let mut sent = 0usize;
    let (step, _) = w.write(&mut ring, 1, &src, &mut sent);
    assert_eq!(step, PipeStep::Done(-1));
}

#[test]
fn timers_wake_expired_tasks_earliest_first() {
    let mut timers = Vec::new();
    add_timer(&mut timers, 30, 1);
    add_timer(&mut timers, 10, 2);
    add_timer(&mut timers, 50, 3);
    add_timer(&mut timers, 20, 4);
    let woken = check_timer(&mut timers, 30);
    let tasks: Vec<usize> = woken.iter().map(|t| t.task).collect();
    assert_eq!(tasks, vec![2, 4, 1]);
    assert_eq!(timers, vec![TimerCondVar { expire_ms: 50, task: 3 }]);
    assert!(check_timer(&mut timers, 49).is_empty());
}

#[test]
fn remove_timer_drops_every_timer_of_the_task() {
    let mut timers = Vec::new();
    add_timer(&mut timers, 30, 1);
    add_timer(&mut timers, 10, 2);
    add_timer(&mut timers, 40, 1);
    remove_timer(&mut timers, 1);
    assert_eq!(timers, vec![TimerCondVar { expire_ms: 10, task: 2 }]);
}

#[test]
fn timer_arithmetic() {
    assert_eq!(set_next_trigger(1000), 126000);
    assert_eq!(ticks_to_ms(12_500_000), 1000);
    assert_eq!(ticks_to_ms(12_499), 0);
    assert!(sleep_ms(100, 150, 50));
    assert!(!sleep_ms(100, 149, 50));
}

#[test]
fn signals_map_to_errors_in_priority_order() {
    assert_eq!(SignalFlags::empty().check_error(), None);
    let mut f = SignalFlags::from_bits(SIGSEGV).unwrap();
    assert_eq!(f.check_error(), Some((11, "Segmentation Fault")));
    f.insert(SignalFlags::from_bits(SIGILL | SIGABRT).unwrap());
    assert_eq!(f.check_error(), Some((4, "Illegal Instruction")));
    f.insert(SignalFlags::from_bits(SIGINT).unwrap());
    assert_eq!(f.check_error(), Some((2, "Interrupt")));
    assert!(f.contains(SIGABRT));
    assert!(SignalFlags::from_bits(1).is_none());
}

#[test]
fn blocking_mutex_hands_the_lock_to_waiters_in_order() {
    let mut m = MutexBlocking::new();
    assert!(m.lock(1));
    assert!(!m.lock(2));
    assert!(!m.lock(3));
    assert_eq!(m.unlock(), Some(2));
    assert_eq!(m.unlock(), Some(3));
    assert_eq!(m.unlock(), None);
    assert!(m.lock(4));
}

#[test]
fn spin_mutex_refuses_while_held() {
    let mut m = MutexObject::Spin(MutexSpin::new());
    assert!(m.lock(1));
    assert!(!m.lock(2));
    assert_eq!(m.unlock(), None);
    assert!(m.lock(2));
}

#[test]
fn semaphore_counts_units_and_wakes_waiters() {
    let mut s = Semaphore::new(1);
    assert!(s.down(1));
    assert!(!s.down(2));
    assert!(!s.down(3));
    assert_eq!(s.up(), Some(2));
    assert_eq!(s.up(), Some(3));
    assert_eq!(s.up(), None);
    assert!(s.down(4));
}

#[test]
fn condvar_wait_releases_the_mutex_and_signal_wakes_in_order() {
    let mut c = Condvar::new();
    let mut m = MutexObject::Blocking(MutexBlocking::new());
    assert!(m.lock(1));
    assert!(!m.lock(2));
    assert_eq!(c.wait(1, &mut m), Some(2));
    assert_eq!(c.signal(), Some(1));
    assert_eq!(c.signal(), None);
}

#[test]
fn sync_ref_cell_gives_mutable_access() {
    let mut cell = SyncRefCell::new(5u32);
    *cell.exclusive_access() += 1;
    assert_eq!(*cell.exclusive_access(), 6);
}
