use easy_kernel::sync::condvar::Condvar;
use easy_kernel::sync::mutex::{Mutex, MutexBlocking, MutexSpin, Wait};
use easy_kernel::sync::semaphore::Semaphore;
use easy_kernel::sync::utils::is_safe;
use easy_kernel::syscall::sync::{
    finish_condvar_wait, finish_mutex_lock, finish_relock, finish_semaphore_down, finish_sleep,
    retry_mutex_lock, sys_condvar_create, sys_condvar_signal, sys_condvar_wait, sys_enable_deadlock_detect,
    sys_mutex_create, sys_mutex_lock, sys_mutex_unlock, sys_semaphore_create, sys_semaphore_down,
    sys_semaphore_up, sys_sleep, DEADLOCK,
};
use easy_kernel::syscall::Step;
use easy_kernel::task::process::Process;

#[test]
fn a_spinlock_makes_others_retry() {
    let mut m = MutexSpin::new();
    assert!(!m.locked());
    assert_eq!(m.lock(1), Wait::Acquired);
    assert!(m.locked());
    assert_eq!(m.lock(2), Wait::Retry);
    assert_eq!(m.blocked_tids(), Vec::<usize>::new());
    assert_eq!(m.unlock(), None);
    assert_eq!(m.lock(2), Wait::Acquired);
}

#[test]
fn a_blocking_mutex_is_handed_over() {
    let mut m = MutexBlocking::new();
    assert_eq!(m.lock(1), Wait::Acquired);
    assert_eq!(m.lock(2), Wait::Blocked);
    assert_eq!(m.lock(3), Wait::Blocked);
    assert_eq!(m.blocked_tids(), vec![2, 3]);
    assert_eq!(m.unlock(), Some(2));
    assert!(m.locked());
    assert_eq!(m.unlock(), Some(3));
    assert_eq!(m.unlock(), None);
    assert!(!m.locked());
}

#[test]
fn a_semaphore_counts() {
    let mut s = Semaphore::new(1);
    assert_eq!(s.count(), 1);
    assert_eq!(s.down(1), Wait::Acquired);
    assert_eq!(s.down(2), Wait::Blocked);
    assert_eq!(s.down(3), Wait::Blocked);
    assert_eq!(s.count(), -2);
    assert_eq!(s.blocked_tids(), vec![2, 3]);
    assert_eq!(s.up(), Some(2));
    assert_eq!(s.up(), Some(3));
    assert_eq!(s.up(), None);
    assert_eq!(s.count(), 1);
}

#[test]
fn a_condition_wakes_one_thread() {
    let mut c = Condvar::new();
    let mut m = MutexBlocking::new();
    m.lock(1);
    m.lock(2);
    assert_eq!(c.wait(1, &mut m), Some(2));
    assert_eq!(c.wait(2, &mut m), None);
    assert!(!m.locked());
    assert_eq!(c.signal(), Some(1));
    assert_eq!(c.signal(), Some(2));
    assert_eq!(c.signal(), None);
}

#[test]
fn safe_and_unsafe_states() {
    let allocation = vec![vec![0, 1, 0], vec![2, 0, 0], vec![3, 0, 2], vec![2, 1, 1], vec![0, 0, 2]];
    let need = vec![vec![7, 4, 3], vec![1, 2, 2], vec![6, 0, 0], vec![0, 1, 1], vec![4, 3, 1]];
    assert!(is_safe(&allocation, &vec![3, 3, 2], &need));
    assert!(!is_safe(&allocation, &vec![0, 0, 1], &need));
    assert!(is_safe(&vec![], &vec![], &vec![]));
    assert!(!is_safe(&vec![vec![1, 0], vec![0, 1]], &vec![0, 0], &vec![vec![0, 1], vec![1, 0]]));
    assert!(is_safe(&vec![vec![1, 0], vec![0, 1]], &vec![0, 0], &vec![vec![0, 1], vec![0, 0]]));
}

#[test]
fn sleeping_sets_a_timer() {
    let mut timers = Vec::new();
    assert_eq!(sys_sleep(&mut timers, 100, 7, 20), Step::Block);
    assert_eq!((timers[0].expire_ms, timers[0].tid), (120, 7));
    assert_eq!(finish_sleep(), Step::Done(0));
}

#[test]
fn mutexes_get_the_first_free_number() {
    let mut p = Process::new(4);
    assert_eq!(sys_mutex_create(&mut p, true), 0);
    assert_eq!(sys_mutex_create(&mut p, false), 1);
    p.mutex_list[0] = None;
    assert_eq!(sys_mutex_create(&mut p, true), 0);
    assert_eq!(sys_mutex_create(&mut p, true), 2);
    assert_eq!(p.mutex_allocation, vec![vec![0, 0, 0]; 4]);
}

#[test]
fn locking_without_detection() {
    let mut p = Process::new(3);
    sys_mutex_create(&mut p, true);
    assert_eq!(sys_mutex_lock(&mut p, 0, 0), Step::Done(0));
    assert_eq!(sys_mutex_lock(&mut p, 1, 0), Step::Block);
    assert_eq!(sys_mutex_unlock(&mut p, 0, 0), (0, Some(1)));
    assert_eq!(finish_mutex_lock(&mut p, 1, 0), Step::Done(0));
    assert_eq!(sys_mutex_unlock(&mut p, 1, 0), (0, None));
    sys_mutex_create(&mut p, false);
    assert_eq!(sys_mutex_lock(&mut p, 0, 1), Step::Done(0));
    assert_eq!(sys_mutex_lock(&mut p, 1, 1), Step::Yield);
    assert_eq!(retry_mutex_lock(&mut p, 1, 1), Step::Yield);
    assert_eq!(sys_mutex_unlock(&mut p, 0, 1), (0, None));
    assert_eq!(retry_mutex_lock(&mut p, 1, 1), Step::Done(0));
}

#[test]
fn two_threads_and_two_mutexes_do_not_deadlock() {
    let mut p = Process::new(2);
    sys_mutex_create(&mut p, true);
    sys_mutex_create(&mut p, true);
    assert_eq!(sys_enable_deadlock_detect(&mut p, 2), -1);
    assert_eq!(sys_enable_deadlock_detect(&mut p, 1), 0);
    assert!(p.is_deadlock_detect_enabled());
    assert_eq!(sys_mutex_lock(&mut p, 0, 0), Step::Done(0));
    assert_eq!(sys_mutex_lock(&mut p, 1, 1), Step::Done(0));
    assert_eq!(p.mutex_allocation, vec![vec![1, 0], vec![0, 1]]);
    assert_eq!(sys_mutex_lock(&mut p, 0, 1), Step::Block);
    assert_eq!(sys_mutex_lock(&mut p, 1, 0), Step::Done(DEADLOCK));
    assert_eq!(DEADLOCK, -0xdead);
    assert_eq!(sys_mutex_unlock(&mut p, 1, 1), (0, Some(0)));
    assert_eq!(finish_mutex_lock(&mut p, 0, 1), Step::Done(0));
    assert_eq!(p.mutex_allocation, vec![vec![1, 1], vec![0, 0]]);
    assert_eq!(sys_enable_deadlock_detect(&mut p, 0), 0);
    assert!(!p.is_deadlock_detect_enabled());
}

#[test]
fn semaphores_are_watched_too() {
    let mut p = Process::new(2);
    assert_eq!(sys_semaphore_create(&mut p, 1), 0);
    assert_eq!(sys_semaphore_create(&mut p, 1), 1);
    sys_enable_deadlock_detect(&mut p, 1);
    assert_eq!(sys_semaphore_down(&mut p, 0, 0), Step::Done(0));
    assert_eq!(sys_semaphore_down(&mut p, 1, 1), Step::Done(0));
    assert_eq!(sys_semaphore_down(&mut p, 0, 1), Step::Block);
    assert_eq!(sys_semaphore_down(&mut p, 1, 0), Step::Done(DEADLOCK));
    assert_eq!(sys_semaphore_up(&mut p, 1, 1), (0, Some(0)));
    assert_eq!(finish_semaphore_down(&mut p, 0, 1), Step::Done(0));
    assert_eq!(p.semaphore_allocation, vec![vec![1, 1], vec![0, 0]]);
}

#[test]
fn conditions_give_the_mutex_up() {
    let mut p = Process::new(2);
    sys_mutex_create(&mut p, true);
    assert_eq!(sys_condvar_create(&mut p), 0);
    assert_eq!(sys_mutex_lock(&mut p, 0, 0), Step::Done(0));
    assert_eq!(sys_condvar_wait(&mut p, 0, 0, 0), (Step::Block, None));
    assert_eq!(sys_mutex_lock(&mut p, 1, 0), Step::Done(0));
    assert_eq!(sys_condvar_signal(&mut p, 0), (0, Some(0)));
    assert_eq!(finish_condvar_wait(&mut p, 0, 0), Step::Block);
    assert_eq!(sys_mutex_unlock(&mut p, 1, 0), (0, Some(0)));
    assert_eq!(finish_relock(), Step::Done(0));
    assert_eq!(sys_condvar_signal(&mut p, 0), (0, None));
}

#[test]
fn one_thread_does_not_wait_for_itself() {
    for blocking in [true, false] {
        let mut p = Process::new(1);
        sys_mutex_create(&mut p, blocking);
        sys_mutex_create(&mut p, blocking);
        sys_enable_deadlock_detect(&mut p, 1);
        assert_eq!(sys_mutex_lock(&mut p, 0, 0), Step::Done(0));
        assert_eq!(sys_mutex_lock(&mut p, 0, 1), Step::Done(0));
        assert_eq!(sys_mutex_lock(&mut p, 0, 0), Step::Done(DEADLOCK));
        assert_eq!(sys_mutex_unlock(&mut p, 0, 0), (0, None));
        assert_eq!(sys_mutex_lock(&mut p, 0, 0), Step::Done(0));
    }
}

#[test]
fn more_semaphores_than_threads() {
    let mut p = Process::new(1);
    for count in [2, 0, 1] {
        sys_semaphore_create(&mut p, count);
    }
    sys_enable_deadlock_detect(&mut p, 1);
    assert_eq!(sys_semaphore_down(&mut p, 0, 2), Step::Done(0));
    assert_eq!(sys_semaphore_down(&mut p, 0, 1), Step::Done(DEADLOCK));
    assert_eq!(sys_semaphore_down(&mut p, 0, 0), Step::Done(0));
    assert_eq!(p.semaphore_allocation, vec![vec![1, 0, 1]]);
}
