use easy_kernel::config::{BIG_STRIDE, TRAMPOLINE};
use easy_kernel::mm::address::{PhysPageNum, VirtPageNum};
use easy_kernel::mm::frame_allocator::PhysMemory;
use easy_kernel::mm::user_memory::copy_to_user;
use easy_kernel::syscall::process::{
    sys_exec, sys_exit, sys_fork, sys_get_time, sys_getpid, sys_mmap, sys_munmap, sys_sbrk,
    sys_set_priority, sys_spawn, sys_waitpid, sys_yield,
};
use easy_kernel::task::context::{KernelEnv, TaskContext};
use easy_kernel::task::control::{can_start, KernelStack, TaskControlBlock, TaskStatus};
use easy_kernel::task::loader::{App, AppTable};
use easy_kernel::task::manager::{add_task, fetch_task, TaskManager};

const ENV: KernelEnv = KernelEnv {
    strampoline: 0x8020_1000,
    kernel_token: 0x8000_0000_0008_0777,
    trap_handler: 0x8020_2222,
    trap_return: 0x7f_1234,
    sstatus: 0x2000,
};

fn le(v: &mut Vec<u8>, x: u64, n: usize) {
    v.extend_from_slice(&x.to_le_bytes()[..n]);
}

/// A program of one page at 0x1_0000.
fn program(entry: u64, code: &[u8]) -> Vec<u8> {
    let mut v = vec![0x7f, 0x45, 0x4c, 0x46, 2, 1, 1, 0, 0, 0, 0, 0, 0, 0, 0, 0];
    le(&mut v, 2, 2);
    le(&mut v, 243, 2);
    le(&mut v, 1, 4);
    le(&mut v, entry, 8);
    le(&mut v, 64, 8);
    le(&mut v, 0, 8);
    le(&mut v, 0, 4);
    le(&mut v, 64, 2);
    le(&mut v, 56, 2);
    le(&mut v, 1, 2);
    le(&mut v, 0, 6);
    le(&mut v, 1, 4);
    le(&mut v, 7, 4);
    le(&mut v, 120, 8);
    le(&mut v, 0x1_0000, 8);
    le(&mut v, 0x1_0000, 8);
    le(&mut v, code.len() as u64, 8);
    le(&mut v, 0x1000, 8);
    le(&mut v, 4096, 8);
    v.extend_from_slice(code);
    v
}

/// The programs that are linked in.
fn apps() -> AppTable {
    AppTable {
        apps: vec![
            App { name: b"init".to_vec(), data: program(0x1_0010, b"init") },
            App { name: b"shell".to_vec(), data: program(0x1_0800, b"shell") },
        ],
    }
}

fn memory(frames: usize) -> PhysMemory {
    PhysMemory::new(PhysPageNum(0x80000), frames)
}

fn first(mem: &mut PhysMemory) -> TaskControlBlock {
    TaskControlBlock::new(&program(0x1_0010, b"init"), 1, KernelStack(0), &ENV, mem)
}

fn bytes_at(t: &TaskControlBlock, va: u64, n: usize, mem: &PhysMemory) -> Vec<u8> {
    let ppn = t.inner.memory_set.translate(mem, VirtPageNum(va / 4096)).unwrap().ppn();
    mem.read_bytes(ppn, (va % 4096) as usize, n)
}

fn free_frames(mem: &mut PhysMemory) -> usize {
    let mut taken = Vec::new();
    while let Some(p) = mem.frame_alloc() {
        taken.push(p);
    }
    let n = taken.len();
    for p in taken {
        mem.frame_dealloc(p);
    }
    n
}

#[test]
fn a_process_is_ready_to_start() {
    let mut mem = memory(20);
    let t = first(&mut mem);
    assert_eq!(t.getpid(), 1);
    assert_eq!(sys_getpid(&t), 1);
    assert_eq!(t.kernel_stack.get_top(), TRAMPOLINE);
    assert!(t.inner.task_status == TaskStatus::Ready);
    assert!(!t.inner.is_zombie());
    assert_eq!((t.inner.stride, t.inner.pass, t.inner.priority), (0, BIG_STRIDE / 16, 16));
    assert_eq!((t.inner.base_size, t.inner.heap_bottom, t.inner.program_brk), (0x1_4000, 0x1_4000, 0x1_4000));
    assert_eq!((t.inner.task_cx.ra, t.inner.task_cx.sp), (ENV.trap_return, TRAMPOLINE));
    assert_eq!(t.inner.task_cx.s, [0; 12]);
    assert!(t.inner.parent.is_none());
    assert!(t.inner.children.is_empty());
    let cx = t.inner.get_trap_cx(&mem);
    assert_eq!(cx.len(), 37);
    for i in 0..32 {
        assert_eq!(cx[i], if i == 2 { 0x1_4000 } else { 0 });
    }
    assert_eq!(cx[32..], [0x2000, 0x1_0010, ENV.kernel_token, TRAMPOLINE, ENV.trap_handler]);
    assert_eq!(t.get_user_token() & 0xfff_ffff_ffff, 0x80000);
    assert_eq!(bytes_at(&t, 0x1_0000, 4, &mem), b"init");
}

#[test]
fn contexts_return_to_user_mode() {
    let cx = TaskContext::goto_trap_return(0x77, 0x88);
    assert_eq!((cx.ra, cx.sp), (0x88, 0x77));
}

#[test]
fn a_fork_copies_memory_and_returns_zero() {
    let mut mem = memory(40);
    let mut t = first(&mut mem);
    let mut ready = TaskManager::new();
    t.inner.set_trap_word(10, 99, &mut mem);
    t.inner.set_trap_word(5, 55, &mut mem);
    copy_to_user(t.get_user_token(), 0x1_0001, b"@", &mut mem);
    assert_eq!(sys_fork(&mut t, 2, KernelStack(1), &ENV, &mut ready, &mut mem), 2);
    assert_eq!(t.inner.children, vec![2]);
    let child = fetch_task(&mut ready).unwrap();
    assert_eq!(child.pid, 2);
    assert_eq!(child.inner.parent, Some(1));
    assert_eq!(child.inner.stride, BIG_STRIDE / 16);
    assert_eq!(bytes_at(&child, 0x1_0000, 4, &mem), b"i@it");
    let cx = child.inner.get_trap_cx(&mem);
    assert_eq!((cx[10], cx[5], cx[35]), (0, 55, TRAMPOLINE - 0x3000));
    let own = t.inner.get_trap_cx(&mem);
    assert_eq!((own[10], own[5], own[35]), (99, 55, TRAMPOLINE));
    copy_to_user(child.get_user_token(), 0x1_0000, b"####", &mut mem);
    assert_eq!(bytes_at(&t, 0x1_0000, 4, &mem), b"i@it");
}

#[test]
fn exec_replaces_the_program() {
    let mut mem = memory(40);
    let mut t = first(&mut mem);
    let before = free_frames(&mut mem);
    let apps = apps();
    copy_to_user(t.get_user_token(), 0x1_0100, b"she\0shell\0", &mut mem);
    assert_eq!(sys_exec(&mut t, 0x1_0100, &apps, &ENV, &mut mem), -1);
    assert_eq!(bytes_at(&t, 0x1_0000, 4, &mem), b"init");
    assert_eq!(sys_exec(&mut t, 0x1_0104, &apps, &ENV, &mut mem), 0);
    assert_eq!(bytes_at(&t, 0x1_0000, 5, &mem), b"shell");
    assert_eq!(t.inner.get_trap_cx(&mem)[33], 0x1_0800);
    assert_eq!(t.pid, 1);
    assert_eq!(free_frames(&mut mem), before);
}

#[test]
fn spawn_makes_a_child_with_a_program() {
    let mut mem = memory(40);
    let mut t = first(&mut mem);
    let mut ready = TaskManager::new();
    let apps = apps();
    copy_to_user(t.get_user_token(), 0x1_0100, b"none\0shell\0", &mut mem);
    let mut spawn = |path: u64| {
        sys_spawn(&mut t, path, &apps, 3, KernelStack(2), &ENV, &mut ready, &mut mem)
    };
    assert_eq!(spawn(0x1_0100), -1);
    assert_eq!(spawn(0x1_0105), 3);
    assert_eq!(t.inner.children, vec![3]);
    let child = ready.fetch().unwrap();
    assert_eq!(bytes_at(&child, 0x1_0000, 5, &mem), b"shell");
    assert_eq!(child.inner.parent, Some(1));
    assert_eq!(child.inner.get_trap_cx(&mem)[35], TRAMPOLINE - 0x6000);
    assert!(ready.fetch().is_none());
}

#[test]
fn waiting_for_children() {
    let mut mem = memory(60);
    let mut t = first(&mut mem);
    let before = free_frames(&mut mem);
    let mut ready = TaskManager::new();
    let mut zombies = Vec::new();
    assert_eq!(sys_waitpid(&mut t, -1, 0x1_0100, &mut zombies, &mut mem), -1);
    sys_fork(&mut t, 2, KernelStack(1), &ENV, &mut ready, &mut mem);
    sys_fork(&mut t, 3, KernelStack(2), &ENV, &mut ready, &mut mem);
    assert_eq!(sys_waitpid(&mut t, 9, 0x1_0100, &mut zombies, &mut mem), -1);
    assert_eq!(sys_waitpid(&mut t, -3, 0x1_0100, &mut zombies, &mut mem), -1);
    assert_eq!(sys_waitpid(&mut t, -1, 0x1_0100, &mut zombies, &mut mem), -2);
    let two = ready.fetch().unwrap();
    let three = ready.fetch().unwrap();
    sys_exit(three, -5, &mut zombies);
    assert!(zombies[0].inner.is_zombie());
    assert_eq!(sys_waitpid(&mut t, 2, 0x1_0100, &mut zombies, &mut mem), -2);
    assert_eq!(sys_waitpid(&mut t, -1, 0x1_0100, &mut zombies, &mut mem), 3);
    assert_eq!(bytes_at(&t, 0x1_0100, 4, &mem), (-5i32).to_le_bytes());
    assert_eq!(t.inner.children, vec![2]);
    sys_exit(two, 7, &mut zombies);
    assert_eq!(sys_waitpid(&mut t, 2, 0x1_0200, &mut zombies, &mut mem), 2);
    assert_eq!(bytes_at(&t, 0x1_0200, 4, &mem), vec![7, 0, 0, 0]);
    assert!(zombies.is_empty());
    assert_eq!(free_frames(&mut mem), before);
}

#[test]
fn the_smallest_stride_runs_first() {
    let mut mem = memory(60);
    let mut ready = TaskManager::new();
    let mut a = first(&mut mem);
    let mut b = first(&mut mem);
    a.pid = 10;
    b.pid = 20;
    assert_eq!(sys_set_priority(&mut a, 2), 2);
    assert_eq!(sys_set_priority(&mut b, 4), 4);
    assert_eq!(sys_set_priority(&mut b, 1), -1);
    assert_eq!(sys_set_priority(&mut b, -7), -1);
    assert_eq!((b.inner.priority, b.inner.pass), (4, BIG_STRIDE / 4));
    add_task(&mut ready, a);
    add_task(&mut ready, b);
    let mut runs = Vec::new();
    for _ in 0..9 {
        let t = fetch_task(&mut ready).unwrap();
        runs.push(t.pid);
        assert_eq!(sys_yield(t, &mut ready), 0);
    }
    assert_eq!(runs, vec![10, 20, 20, 10, 20, 20, 10, 20, 20]);
}

#[test]
fn smaller_strides_are_greater() {
    let mut mem = memory(40);
    let mut a = first(&mut mem);
    let b = first(&mut mem);
    assert!(a == b);
    a.inner.stride = 5;
    assert!(a != b);
    assert!(a < b);
    assert!(b > a);
}

#[test]
fn the_heap_grows_and_shrinks() {
    let mut mem = memory(40);
    let mut t = first(&mut mem);
    assert_eq!(sys_sbrk(&mut t, 5000, &mut mem), 0x1_4000);
    assert_eq!(t.inner.program_brk, 0x1_4000 + 5000);
    copy_to_user(t.get_user_token(), 0x1_4ffe, b"heap", &mut mem);
    assert_eq!(sys_sbrk(&mut t, 0, &mut mem), 0x1_4000 + 5000);
    assert_eq!(bytes_at(&t, 0x1_5000, 2, &mem), b"ap");
    assert_eq!(sys_sbrk(&mut t, -4000, &mut mem), 0x1_4000 + 5000);
    let gone = t.inner.memory_set.translate(&mem, VirtPageNum(0x15)).unwrap();
    assert!(!gone.is_valid());
    assert_eq!(sys_sbrk(&mut t, -1001, &mut mem), -1);
    assert_eq!(sys_sbrk(&mut t, -1000, &mut mem), 0x1_4000 + 1000);
    assert_eq!(t.inner.program_brk, 0x1_4000);
}

#[test]
fn memory_is_mapped_on_request() {
    let mut mem = memory(40);
    let mut t = first(&mut mem);
    let before = free_frames(&mut mem);
    assert_eq!(sys_mmap(&mut t, 0x1000_0001, 4096, 3, &mut mem), -1);
    assert_eq!(sys_mmap(&mut t, 0x1000_0000, 4096, 0, &mut mem), -1);
    assert_eq!(sys_mmap(&mut t, 0x1000_0000, 4096, 8, &mut mem), -1);
    assert_eq!(sys_mmap(&mut t, 0x1000_0000, 0, 3, &mut mem), 0);
    assert_eq!(free_frames(&mut mem), before);
    assert_eq!(sys_mmap(&mut t, 0x1000_0000, 4097, 3, &mut mem), 0);
    let e = t.inner.memory_set.translate(&mem, VirtPageNum(0x1_0001)).unwrap();
    assert_eq!(e.flags().bits, 0x17);
    assert_eq!(sys_mmap(&mut t, 0x1000_1000, 1, 1, &mut mem), -1);
    assert_eq!(sys_munmap(&mut t, 0x1000_0001, 4096, &mut mem), -1);
    assert_eq!(sys_munmap(&mut t, 0x1000_0000, 4096, &mut mem), -1);
    assert_eq!(sys_munmap(&mut t, 0x1000_0000, 0, &mut mem), 0);
    assert_eq!(sys_munmap(&mut t, 0x1000_0000, 8192, &mut mem), 0);
    assert_eq!(sys_munmap(&mut t, 0x1000_0000, 8192, &mut mem), -1);
    assert_eq!(free_frames(&mut mem), before - 1);
}

#[test]
fn the_time_may_lie_in_two_pages() {
    let mut mem = memory(40);
    let mut t = first(&mut mem);
    assert_eq!(sys_mmap(&mut t, 0x1000_0000, 8192, 3, &mut mem), 0);
    assert_eq!(sys_get_time(&t, 0x1000_0ffc, 0, 3_000_042, &mut mem), 0);
    assert_eq!(bytes_at(&t, 0x1000_0ffc, 4, &mem), vec![3, 0, 0, 0]);
    assert_eq!(bytes_at(&t, 0x1000_1000, 12, &mem), vec![0, 0, 0, 0, 42, 0, 0, 0, 0, 0, 0, 0]);
}

#[test]
fn strides_stay_close() {
    let mut mem = memory(60);
    let mut ready = TaskManager::new();
    for (pid, prio) in [(1, 2), (2, 3), (3, 16)] {
        let mut t = first(&mut mem);
        t.pid = pid;
        assert_eq!(sys_set_priority(&mut t, prio), prio);
        add_task(&mut ready, t);
    }
    for _ in 0..50 {
        let t = fetch_task(&mut ready).unwrap();
        add_task(&mut ready, t);
        let strides: Vec<usize> = ready.priority_queue.iter().map(|t| t.inner.stride).collect();
        let spread = strides.iter().max().unwrap() - strides.iter().min().unwrap();
        assert!(spread <= BIG_STRIDE / 2);
    }
}

#[test]
fn programs_are_found_by_name() {
    let apps = apps();
    assert_eq!(apps.get_app_data_by_name(b"init"), Some(&program(0x1_0010, b"init")[..]));
    assert!(apps.get_app_data_by_name(b"shel").is_none());
    assert!(apps.get_app_data_by_name(b"").is_none());
}

#[test]
fn programs_are_tested_before_they_start() {
    let data = program(0x1_0010, b"init");
    assert!(can_start(&data, KernelStack(0), &ENV, &memory(9)));
    assert!(!can_start(&data, KernelStack(0), &ENV, &memory(8)));
    assert!(!can_start(b"no program", KernelStack(0), &ENV, &memory(9)));
    assert!(!can_start(&data, KernelStack(u64::MAX), &ENV, &memory(9)));
    let crooked = KernelEnv { strampoline: 0x8020_1008, ..ENV };
    assert!(!can_start(&data, KernelStack(0), &crooked, &memory(9)));
}

#[test]
fn processes_take_and_give_back_their_frames() {
    let mut mem = memory(60);
    let mut t = first(&mut mem);
    assert_eq!(mem.free_frames(), 51);
    let mut ready = TaskManager::new();
    sys_fork(&mut t, 2, KernelStack(1), &ENV, &mut ready, &mut mem);
    assert_eq!(mem.free_frames(), 42);
    sys_sbrk(&mut t, 4097, &mut mem);
    assert_eq!(mem.free_frames(), 40);
    let apps = apps();
    copy_to_user(t.get_user_token(), 0x1_0100, b"shell\0", &mut mem);
    assert_eq!(sys_spawn(&mut t, 0x1_0100, &apps, 3, KernelStack(2), &ENV, &mut ready, &mut mem), 3);
    assert_eq!(mem.free_frames(), 31);
    assert_eq!(sys_exec(&mut t, 0x1_0100, &apps, &ENV, &mut mem), 0);
    assert_eq!(mem.free_frames(), 33);
}

#[test]
fn the_lowest_free_frames_are_taken() {
    let mut mem = memory(30);
    for _ in 0..6 {
        mem.frame_alloc();
    }
    mem.frame_dealloc(PhysPageNum(0x80002));
    mem.frame_dealloc(PhysPageNum(0x80004));
    let t = first(&mut mem);
    assert_eq!(t.get_user_token() & 0xfff_ffff_ffff, 0x80002);
    assert!(mem.is_used(PhysPageNum(0x80004)));
    assert!(mem.is_used(PhysPageNum(0x8000c)));
    assert_eq!(mem.first_free(), Some(PhysPageNum(0x8000d)));
}
