//! What a program can rely on when a system call has returned.
use super::deadlock;
use super::fs as fs_calls;
use super::fs::FdTable;
use super::laws;
use super::process;
use super::sync;
use super::Step;
use crate::easy_fs::block_dev::BlockDevice;
use crate::easy_fs::bytes;
use crate::easy_fs::disk_inode;
use crate::easy_fs::efs::EasyFileSystem;
use crate::easy_fs::vfs;
use crate::easy_fs::vfs::Inode;
use crate::fs::files;
use crate::fs::inode;
use crate::fs::inode::{OSInode, OpenFlags};
use crate::fs::laws as file_laws;
use crate::mm::access;
use crate::mm::address;
use crate::mm::address::VA_SPACE;
use crate::mm::elf;
use crate::mm::frame_allocator::PhysMemory;
use crate::mm::laws as mm_laws;
use crate::mm::memory_set::MemorySet;
use crate::mm::page_table;
use crate::mm::user_memory;
use crate::sync::mutex::Mutex;
use crate::task::context::KernelEnv;
use crate::task::control;
use crate::task::control::{KernelStack, TaskControlBlock, TaskStatus};
use crate::task::laws as task_laws;
use crate::task::loader::AppTable;
use crate::task::manager::TaskManager;
use crate::task::process::Process;
use vstd::prelude::*;

verus! {

/// A wait collects a child wherever it stands in the list, as soon as it has exited and
/// is meant; the child is no child and no zombie any more.
pub proof fn law_waitpid(
    task: &mut TaskControlBlock,
    pid: isize,
    ptr: u64,
    zombies: &mut Vec<TaskControlBlock>,
    mem: &mut PhysMemory,
    r: isize,
    i: int,
    z: int,
)
    requires
        call_ensures(process::sys_waitpid, (task, pid, ptr, zombies, mem), r),
        0 <= i < old(task).inner.children@.len(),
        pid == -1 || pid as usize == old(task).inner.children@[i],
        0 <= z < old(zombies)@.len(),
        old(zombies)@[z].pid == old(task).inner.children@[i],
        forall|k: int|
            0 <= k < old(zombies)@.len() ==> (#[trigger] old(zombies)@[k]).pid <= isize::MAX,
    ensures
        r >= 0,
        old(task).inner.children@.contains(r as usize),
        pid == -1 || pid as usize == r as usize,
        final(task).inner.children@.len() == old(task).inner.children@.len() - 1,
        final(zombies)@.len() == old(zombies)@.len() - 1,
{
    let children = old(task).inner.children@;
    laws::law_wait_finds(children, old(zombies)@, pid, 0);
    let j = process::exited_child(children, old(zombies)@, pid, 0)->0;
    laws::law_wait_collects(children, old(zombies)@, pid);
    assert(children[j] == r as usize);
}

/// A wait says that no child has exited only where none that is meant has, and that
/// there is no such child only where there is none.
pub proof fn law_waitpid_fails(
    task: &mut TaskControlBlock,
    pid: isize,
    ptr: u64,
    zombies: &mut Vec<TaskControlBlock>,
    mem: &mut PhysMemory,
    r: isize,
    i: int,
)
    requires
        call_ensures(process::sys_waitpid, (task, pid, ptr, zombies, mem), r),
        r < 0,
        forall|k: int|
            0 <= k < old(zombies)@.len() ==> (#[trigger] old(zombies)@[k]).pid <= isize::MAX,
    ensures
        r == -1 || r == -2,
        0 <= i < old(task).inner.children@.len() && (pid == -1 || pid as usize == old(task).inner.children@[i]) ==> r == -2 && forall|z: int|
            0 <= z < old(zombies)@.len() ==> (#[trigger] old(zombies)@[z]).pid != old(task).inner.children@[i],
        r == -2 ==> old(task).inner.children@.len() > 0,
        final(task).inner.children@ == old(task).inner.children@,
        final(zombies)@ == old(zombies)@,
        final(mem)@ == old(mem)@,
{
    let children = old(task).inner.children@;
    laws::law_wait_finds(children, old(zombies)@, pid, 0);
    if process::exited_child(children, old(zombies)@, pid, 0) is Some {
        laws::law_wait_collects(children, old(zombies)@, pid);
    }
    if 0 <= i < children.len() && (pid == -1 || pid as usize == children[i]) {
        laws::law_has_child(children, pid, i);
    }
    if process::has_child(children, pid) {
        laws::law_child_listed(children, pid);
    }
}

/// The exit code of the child that a wait collects is written where the process asked for
/// it, the frames of the child are free, and all other frames stay as they are.
pub proof fn law_waitpid_code(
    task: &mut TaskControlBlock,
    pid: isize,
    ptr: u64,
    zombies: &mut Vec<TaskControlBlock>,
    mem: &mut PhysMemory,
    r: isize,
    z: int,
    b: Seq<u8>,
    p: int,
)
    requires
        call_ensures(process::sys_waitpid, (task, pid, ptr, zombies, mem), r),
        r >= 0,
        0 <= z < old(zombies)@.len(),
        old(zombies)@[z].pid == r,
        forall|k: int| 0 <= k < z ==> (#[trigger] old(zombies)@[k]).pid != r,
        b.len() == 4,
        bytes::u32_at(b, 0) == old(zombies)@[z].inner.exit_code as u32,
        old(mem)@.pages.contains_key(p),
    ensures
        final(zombies)@ == old(zombies)@.remove(z),
        final(mem)@.used.contains(p) == (old(mem)@.used.contains(p)
            && !old(zombies)@[z].inner.memory_set.owns(p)),
        !old(zombies)@[z].inner.memory_set.owns(p) ==> final(mem)@.pages[p]
            == user_memory::user_written(old(mem)@, old(task).inner.token(), ptr, b).pages[p],
{
    let children = old(task).inner.children@;
    let zs = old(zombies)@;
    laws::law_wait_finds(children, zs, pid, 0);
    laws::law_wait_collects(children, zs, pid);
    let j = process::exited_child(children, zs, pid, 0)->0;
    laws::law_zombie_found(zs, children[j], 0);
    let c = bytes::u32_bytes(zs[z].inner.exit_code as u32);
    lemma_four_bytes(b, zs[z].inner.exit_code as u32);
    assert(b =~= c);
}

/// The digits of a number.
proof fn lemma_digits(n: int, a: int, b: int, c: int, d: int)
    requires
        0 <= a < 256,
        0 <= b < 256,
        0 <= c < 256,
        0 <= d < 256,
        n == a + 0x100 * b + 0x1_0000 * c + 0x100_0000 * d,
    ensures
        n % 0x100 == a,
        n / 0x100 % 0x100 == b,
        n / 0x1_0000 % 0x100 == c,
        n / 0x100_0000 == d,
{
    assert(n / 0x100 == b + 0x100 * (c + 0x100 * d));
    assert(n / 0x1_0000 == c + 0x100 * d);
}

/// The bytes of a word are told by the word.
proof fn lemma_four_bytes(b: Seq<u8>, x: u32)
    requires
        b.len() == 4,
        bytes::u32_at(b, 0) == x,
    ensures
        b == bytes::u32_bytes(x),
{
    lemma_digits(x as int, b[0] as int, b[1] as int, b[2] as int, b[3] as int);
    let c = bytes::u32_bytes(x);
    assert(c[0] == b[0] && c[1] == b[1] && c[2] == b[2] && c[3] == b[3]);
    assert(b =~= c);
}

/// A process reads the status of an open file where it asked for it: no device, the
/// number of the inode, the mode, and how many names the file has.
pub proof fn law_fstat<D: BlockDevice>(
    table: &FdTable,
    fd: usize,
    st: u64,
    token: u64,
    fs: &mut EasyFileSystem<D>,
    mem: &mut PhysMemory,
    r: isize,
    s: MemorySet,
)
    requires
        call_ensures(fs_calls::sys_fstat::<D>, (table, fd, st, token, fs, mem), r),
        fd < table.files@.len(),
        table.files@[fd as int] is Some,
        s.wf(old(mem)@),
        user_memory::token_root(token) == s.page_table.root(),
        page_table::canonical(st as int, 24),
        ({
            let a = st as int % (VA_SPACE as int);
            forall|k: int|
                0 <= k < page_table::piece_count(a, 24) ==> mm_laws::own_page(
                    &s,
                    #[trigger] (address::floor_of(a) + k),
                )
        }),
    ensures
        ({
            let inode = table.files@[fd as int]->0.inode;
            let b = user_memory::user_bytes(final(mem)@, token, st, 24);
            &&& r == 0
            &&& bytes::u64_at(b, 0) == 0
            &&& bytes::u64_at(b, 8) == inode.id(old(fs))
            &&& bytes::u32_at(b, 16) == if inode.file(old(fs)).dir {
                0x4000int
            } else {
                0x8000
            }
            &&& bytes::u32_at(b, 20) == inode.file(old(fs)).nlink
        }),
{
    let inode = table.files@[fd as int]->0.inode;
    let f = inode.file(old(fs));
    let b = choose|b: Seq<u8>|
        {
            &&& final(mem)@ == #[trigger] user_memory::user_written(old(mem)@, token, st, b)
            &&& b.len() == 24
            &&& bytes::u64_at(b, 0) == 0
            &&& bytes::u64_at(b, 8) == inode.id(old(fs))
            &&& bytes::u32_at(b, 16) == if f.dir {
                0x4000int
            } else {
                0x8000
            }
            &&& bytes::u32_at(b, 20) == f.nlink
        };
    mm_laws::law_user_write_read(s, old(mem)@, token, st, b);
}

/// A number that no open file has gives no status, and memory stays as it is.
pub proof fn law_fstat_fails<D: BlockDevice>(
    table: &FdTable,
    fd: usize,
    st: u64,
    token: u64,
    fs: &mut EasyFileSystem<D>,
    mem: &mut PhysMemory,
    r: isize,
)
    requires
        call_ensures(fs_calls::sys_fstat::<D>, (table, fd, st, token, fs, mem), r),
        fd >= table.files@.len() || table.files@[fd as int] is None,
    ensures
        r == -1,
        final(mem)@ == old(mem)@,
{
}

/// After memory was mapped, a process may read each of its bytes if bit 0 of the access
/// rights is set, write it if bit 1 is, and execute it if bit 2 is.
pub proof fn law_mmap(
    task: &mut TaskControlBlock,
    start: u64,
    len: u64,
    port: u64,
    mem: &mut PhysMemory,
    r: isize,
    a: int,
)
    requires
        call_ensures(process::sys_mmap, (task, start, len, port, mem), r),
        r == 0,
        start as int / (VA_SPACE as int) == (start + len + 4095) / (VA_SPACE as int),
        start <= a < start + len,
    ensures
        start % 4096 == 0,
        1 <= port <= 7,
        page_table::lookup(
            final(mem)@,
            final(task).inner.memory_set.page_table.root(),
            a % (VA_SPACE as int) / 4096,
        ) matches Some(e) && {
            &&& e & 1 != 0
            &&& (e & 2 != 0) == (port & 1 != 0)
            &&& (e & 4 != 0) == (port & 2 != 0)
            &&& (e & 8 != 0) == (port & 4 != 0)
            &&& e & 16 != 0
            &&& e & 0xe0 == 0
        },
{
    laws::law_port_ok(port);
    laws::law_mmap_byte_access(
        old(task).inner.memory_set,
        old(mem)@,
        final(task).inner.memory_set,
        final(mem)@,
        start,
        len,
        port,
        a,
    );
}

/// Memory is not mapped at an address within a page, nor with access rights that are no
/// rights, nor over a page that is taken; nothing changes then.
pub proof fn law_mmap_refused(
    task: &mut TaskControlBlock,
    start: u64,
    len: u64,
    port: u64,
    mem: &mut PhysMemory,
    r: isize,
    k: int,
    v: int,
)
    requires
        call_ensures(process::sys_mmap, (task, start, len, port, mem), r),
        ({
            let infos = old(task).inner.memory_set.infos();
            ||| start % 4096 != 0
            ||| port == 0
            ||| port > 7
            ||| (0 < len && start as int / (VA_SPACE as int) == (start + len + 4095) / (
            VA_SPACE as int) && 0 <= k < infos.len() && infos[k].start <= v < infos[k].end && start as int
                % (VA_SPACE as int) / 4096 <= v <= (start + len - 1) % (VA_SPACE as int) / 4096)
        }),
    ensures
        r == -1,
        final(task).inner.memory_set == old(task).inner.memory_set,
        final(mem)@ == old(mem)@,
{
    laws::law_port_ok(port);
    if start % 4096 == 0 && 1 <= port <= 7 {
        laws::lemma_asked_pages(start as int, len as int, start as int);
        let info = process::asked(start, len, process::port_perm(port));
        laws::law_taken_pages(old(task).inner.memory_set.infos(), info.start, info.end, k, v);
    }
}

/// A process that sets its priority to two or more gets it, with the pass that follows
/// from it; any other priority is refused. Nothing else changes.
pub proof fn law_priority(task: &mut TaskControlBlock, prio: isize, r: isize)
    requires
        call_ensures(process::sys_set_priority, (task, prio), r),
    ensures
        prio < 2 ==> r == -1 && *final(task) == *old(task),
        prio >= 2 ==> r == prio && final(task).inner.priority == prio,
        prio >= 2 && prio <= 0x10_0000 ==> final(task).inner.pass * prio <= 0x10_0000,
        prio >= 2 && prio <= 0x10_0000 ==> final(task).inner.pass * prio + prio > 0x10_0000,
        final(task).pid == old(task).pid,
        final(task).kernel_stack == old(task).kernel_stack,
        final(task).inner.stride == old(task).inner.stride,
        final(task).inner.memory_set == old(task).inner.memory_set,
        final(task).inner.children == old(task).inner.children,
{
    if 2 <= prio <= 0x10_0000 {
        let n = prio as int;
        vstd::arithmetic::div_mod::lemma_fundamental_div_mod(0x10_0000, n);
        vstd::arithmetic::div_mod::lemma_mod_bound(0x10_0000, n);
        vstd::arithmetic::div_mod::lemma_div_pos_is_pos(0x10_0000, n);
        vstd::arithmetic::div_mod::lemma_div_is_ordered_by_denominator(0x10_0000, 1, n);
        let q = 0x10_0000int / n;
        assert(q * n == n * q) by (nonlinear_arith);
        assert(final(task).inner.pass == q);
    }
}

/// A process that exits waits as a zombie with its exit code.
pub proof fn law_exit(task: TaskControlBlock, code: i32, zombies: &mut Vec<TaskControlBlock>)
    requires
        call_ensures(process::sys_exit, (task, code, zombies), ()),
    ensures
        final(zombies)@.len() == old(zombies)@.len() + 1,
        final(zombies)@.drop_last() == old(zombies)@,
        final(zombies)@.last().pid == task.pid,
        final(zombies)@.last().inner.exit_code == code,
        final(zombies)@.last().inner.task_status == TaskStatus::Zombie,
        final(zombies)@.last().inner.memory_set == task.inner.memory_set,
{
    assert(final(zombies)@.drop_last() =~= old(zombies)@);
}

/// A process that yields is ready, and last in the queue.
pub proof fn law_yield(task: TaskControlBlock, manager: &mut TaskManager, r: isize)
    requires
        call_ensures(process::sys_yield, (task, manager), r),
    ensures
        r == 0,
        final(manager).priority_queue@.drop_last() == old(manager).priority_queue@,
        final(manager).priority_queue@.last().pid == task.pid,
        final(manager).priority_queue@.last().inner.task_status == TaskStatus::Ready,
        final(manager).priority_queue@.last().inner.stride == task.inner.stride,
        final(manager).priority_queue@.last().inner.memory_set == task.inner.memory_set,
{
    assert(final(manager).priority_queue@.drop_last() =~= old(manager).priority_queue@);
}

/// A child has a number, a parent and a kernel stack of its own; it goes on where its
/// parent does, but for the call, which returns 0 in it.
pub proof fn law_fork(
    task: &mut TaskControlBlock,
    pid: usize,
    kernel_stack: KernelStack,
    env: &KernelEnv,
    manager: &mut TaskManager,
    mem: &mut PhysMemory,
    r: isize,
    i: int,
)
    requires
        call_ensures(process::sys_fork, (task, pid, kernel_stack, env, manager, mem), r),
        kernel_stack.ok(),
        0 <= i < 512,
    ensures
        r == pid,
        final(task).inner.children@ == old(task).inner.children@.push(pid),
        final(task).pid == old(task).pid,
        final(task).inner.memory_set == old(task).inner.memory_set,
        ({
            let child = final(manager).priority_queue@.last();
            let word = child.inner.trap_word(final(mem)@, i);
            &&& child.pid == pid
            &&& child.inner.parent == Some(old(task).pid)
            &&& child.inner.task_status == TaskStatus::Ready
            &&& child.inner.program_brk == old(task).inner.program_brk
            &&& i == 10 ==> word == 0
            &&& i == 35 ==> word == 0xffff_ffff_ffff_f000 - kernel_stack.0 * 0x3000
            &&& i != 10 && i != 35 ==> word == old(task).inner.trap_word(old(mem)@, i)
        }),
{
    let child = final(manager).priority_queue@.last();
    assert(kernel_stack.top() == 0xffff_ffff_ffff_f000 - kernel_stack.0 * 0x3000);
    let word = child.inner.trap_word(final(mem)@, i);
}

/// A program that a process was given may read, write and execute the bytes of each of
/// its segments as the program header says.
pub proof fn law_exec_access(
    task: &mut TaskControlBlock,
    path: u64,
    apps: &AppTable,
    env: &KernelEnv,
    mem: &mut PhysMemory,
    r: isize,
    k: int,
    i: int,
    a: int,
)
    requires
        call_ensures(process::sys_exec, (task, path, apps, env, mem), r),
        0 <= k < apps.apps@.len(),
        apps.apps@[k].name@ == user_memory::user_string(old(mem)@, old(task).inner.token(), path),
        forall|j: int| 0 <= j < k ==> (#[trigger] apps.apps@[j]).name@ != apps.apps@[k].name@,
        ({
            let d = apps.apps@[k].data@;
            let p = elf::program_header_of(d, i);
            &&& 0 <= i < elf::header_of(d).ph_count
            &&& bytes::u32_at(d, elf::ph_start(d, i)) == 1
            &&& p.virtual_addr <= a < p.virtual_addr + p.mem_size
            &&& p.virtual_addr as int / (VA_SPACE as int) == (p.virtual_addr + p.mem_size) / (
            VA_SPACE as int)
        }),
    ensures
        r == 0,
        page_table::lookup(
            final(mem)@,
            final(task).inner.memory_set.page_table.root(),
            a % (VA_SPACE as int) / 4096,
        ) matches Some(e) && {
            let p = elf::program_header_of(apps.apps@[k].data@, i);
            &&& e & 1 != 0
            &&& (e & 2 != 0) == p.readable
            &&& (e & 4 != 0) == p.writable
            &&& (e & 8 != 0) == p.executable
            &&& e & 16 != 0
            &&& e & 0xe0 == 0
        },
        final(task).pid == old(task).pid,
        final(task).inner.children == old(task).inner.children,
{
    task_laws::law_app_found(apps, k);
    let d = apps.apps@[k].data@;
    task_laws::law_program_access(
        &final(task).inner,
        final(mem)@,
        d,
        old(task).kernel_stack,
        *env,
        i,
        a,
    );
}

/// A name that no program has leaves the process as it is.
pub proof fn law_exec_missing(
    task: &mut TaskControlBlock,
    path: u64,
    apps: &AppTable,
    env: &KernelEnv,
    mem: &mut PhysMemory,
    r: isize,
)
    requires
        call_ensures(process::sys_exec, (task, path, apps, env, mem), r),
        forall|j: int|
            0 <= j < apps.apps@.len() ==> (#[trigger] apps.apps@[j]).name@
                != user_memory::user_string(old(mem)@, old(task).inner.token(), path),
    ensures
        r == -1,
        *final(task) == *old(task),
        final(mem)@ == old(mem)@,
{
    task_laws::law_app_missing(
        apps,
        user_memory::user_string(old(mem)@, old(task).inner.token(), path),
    );
}

/// A thread is refused a mutex that would close a cycle of two threads, whatever their
/// numbers, and the process stays as it is.
pub proof fn law_crossed_locks(
    p: &mut Process,
    t: usize,
    u: usize,
    a: int,
    b: usize,
    r: Step,
)
    requires
        call_ensures(sync::sys_mutex_lock, (p, t, b), r),
        sync::can_lock(old(p), t as int, b as int),
        old(p).deadlock_detect,
        forall|j: int|
            0 <= j < old(p).mutex_list@.len() ==> #[trigger] old(p).mutex_list@[j] is Some,
        u < old(p).threads,
        0 <= a < old(p).mutex_list@.len(),
        old(p).mutex_list@[a]->0.held(),
        old(p).mutex_list@[b as int]->0.held(),
        old(p).mutex_list@[a]->0.waiting().contains(u),
        forall|i: int|
            0 <= i < old(p).threads && i != t ==> (#[trigger] old(p).mutex_allocation@[i])@[a] == 0,
        forall|i: int|
            0 <= i < old(p).threads && i != u ==> (#[trigger] old(p).mutex_allocation@[i])@[b as int]
                == 0,
    ensures
        r == Step::Done(-0xdeadisize),
        *final(p) == *old(p),
{
    deadlock::law_crossed_locks_refused(&*old(p), t as int, u as int, a, b as int);
}

/// A thread gets a mutex that is free while nobody waits for any, and it is noted.
pub proof fn law_lock_granted(p: &mut Process, tid: usize, id: usize, r: Step)
    requires
        call_ensures(sync::sys_mutex_lock, (p, tid, id), r),
        sync::can_lock(old(p), tid as int, id as int),
        !old(p).mutex_list@[id as int]->0.held(),
        forall|j: int|
            0 <= j < old(p).mutex_list@.len() ==> #[trigger] old(p).mutex_list@[j] is Some
                && old(p).mutex_list@[j]->0.waiting().len() == 0,
    ensures
        r == Step::Done(0),
        final(p).mutex_list@[id as int] is Some,
        final(p).mutex_list@[id as int]->0.held(),
        old(p).deadlock_detect ==> final(p).mutex_allocation@[tid as int]@[id as int] == 1,
{
    sync::law_free_lock_granted(&*old(p), tid as int, id as int);
    super::handover::law_lock_free(&*old(p), &*final(p), tid, id as int, r, id as int);
    deadlock::law_noted(&*old(p), tid as int, id as int, 1, tid as int, id as int);
    let rows = crate::sync::utils::rows(final(p).mutex_allocation@);
    assert(rows[tid as int] == final(p).mutex_allocation@[tid as int]@);
}

/// A process writes to an open file: the bytes stand from its offset on, the rest of the
/// file and all other files stay, and the next write goes on behind them.
pub proof fn law_write<D: BlockDevice>(
    table: &mut FdTable,
    fd: usize,
    buf: u64,
    len: u64,
    token: u64,
    fs: &mut EasyFileSystem<D>,
    mem: &PhysMemory,
    r: isize,
    i: int,
    j: int,
)
    requires
        call_ensures(fs_calls::sys_write::<D>, (table, fd, buf, len, token, fs, mem), r),
        fd < old(table).files@.len(),
        old(table).files@[fd as int] is Some,
        old(table).files@[fd as int]->0.writable,
        old(table).files@[fd as int]->0.inode.file(old(fs)).wf(),
        old(table).files@[fd as int]->0.offset + len <= usize::MAX,
        disk_inode::blocks_for(old(table).files@[fd as int]->0.offset + len)
            <= disk_inode::INDIRECT2_BOUND,
        0 <= i < len,
    ensures
        ({
            let file = old(table).files@[fd as int]->0;
            let n = file.inode.id(old(fs));
            &&& r == len
            &&& final(fs)@[n].content()[file.offset + i] == user_memory::user_bytes(
                mem@,
                token,
                buf,
                len as int,
            )[i]
            &&& final(fs)@[n].size == if file.offset + len > old(fs)@[n].size {
                file.offset + len
            } else {
                old(fs)@[n].size
            }
            &&& j != n ==> final(fs)@.contains_key(j) == old(fs)@.contains_key(j) && final(fs)@[j]
                == old(fs)@[j]
            &&& final(table).files@[fd as int] is Some
            &&& final(table).files@[fd as int]->0.offset == file.offset + len
            &&& 0 <= j < old(table).files@.len() && j != fd ==> final(table).files@[j]
                == old(table).files@[j]
        }),
{
    let file = old(table).files@[fd as int]->0;
    let b = user_memory::user_bytes(mem@, token, buf, len as int);
    file_laws::law_write_bytes(
        file.inode.file(old(fs)),
        file.offset as int,
        b,
        file.offset + i,
    );
}

/// What cannot be written is refused, and so is what is not open.
pub proof fn law_write_refused<D: BlockDevice>(
    table: &mut FdTable,
    fd: usize,
    buf: u64,
    len: u64,
    token: u64,
    fs: &mut EasyFileSystem<D>,
    mem: &PhysMemory,
    r: isize,
)
    requires
        call_ensures(fs_calls::sys_write::<D>, (table, fd, buf, len, token, fs, mem), r),
        fd >= old(table).files@.len() || old(table).files@[fd as int] is None || !old(table).files@[fd as int]->0.writable,
    ensures
        r == -1,
        final(fs)@ == old(fs)@,
        final(table).files@ == old(table).files@,
{
}

/// A process reads from an open file as many bytes as are left from its offset on, up to
/// those that it asks for; the next read goes on behind them.
pub proof fn law_read<D: BlockDevice>(
    table: &mut FdTable,
    fd: usize,
    buf: u64,
    len: u64,
    token: u64,
    fs: &mut EasyFileSystem<D>,
    mem: &mut PhysMemory,
    r: isize,
    j: int,
)
    requires
        call_ensures(fs_calls::sys_read::<D>, (table, fd, buf, len, token, fs, mem), r),
        fd < old(table).files@.len(),
        old(table).files@[fd as int] is Some,
        old(table).files@[fd as int]->0.readable,
        old(table).files@[fd as int]->0.inode.file(old(fs)).wf(),
        old(table).files@[fd as int]->0.offset + len <= usize::MAX,
    ensures
        ({
            let file = old(table).files@[fd as int]->0;
            let f = file.inode.file(old(fs));
            &&& r == if file.offset + len <= f.size {
                len as int
            } else if file.offset <= f.size {
                f.size - file.offset
            } else {
                0
            }
            &&& final(fs)@ == old(fs)@
            &&& final(table).files@[fd as int] is Some
            &&& final(table).files@[fd as int]->0.offset == file.offset + r
            &&& 0 <= j < old(table).files@.len() && j != fd ==> final(table).files@[j]
                == old(table).files@[j]
        }),
{
    let file = old(table).files@[fd as int]->0;
    file_laws::law_read_bytes(file.inode.file(old(fs)), file.offset as int, len as int, 0);
}

/// A file that is closed is not open any more, and the others stay open.
pub proof fn law_close(table: &mut FdTable, fd: usize, r: isize, j: int)
    requires
        call_ensures(fs_calls::sys_close, (table, fd), r),
    ensures
        (r == 0) == (fd < old(table).files@.len() && old(table).files@[fd as int] is Some),
        r == 0 || r == -1,
        r == 0 ==> final(table).files@[fd as int] is None,
        final(table).files@.len() == old(table).files@.len(),
        0 <= j < old(table).files@.len() && j != fd ==> final(table).files@[j]
            == old(table).files@[j],
{
}

/// A name that is taken away is not missed: the file keeps its other names, and goes
/// with the last of them.
pub proof fn law_unlink<D: BlockDevice>(
    path: u64,
    token: u64,
    root: &Inode,
    fs: &mut EasyFileSystem<D>,
    mem: &PhysMemory,
    r: isize,
    n: u32,
    j: int,
)
    requires
        call_ensures(fs_calls::sys_unlinkat::<D>, (path, token, root, fs, mem), r),
        vfs::found_id(
            root.file(old(fs)).content(),
            user_memory::user_string(mem@, token, path),
        ) == Some(n),
        old(fs)@.contains_key(root.id(old(fs))),
        old(fs)@.contains_key(n as int),
        n != root.id(old(fs)),
        old(fs)@[n as int].nlink > 0,
    ensures
        r == 0,
        final(fs)@.contains_key(n as int) == (old(fs)@[n as int].nlink > 1),
        old(fs)@[n as int].nlink > 1 ==> final(fs)@[n as int].nlink == old(fs)@[n as int].nlink - 1
            && final(fs)@[n as int].raw == old(fs)@[n as int].raw,
        j != n && j != root.id(old(fs)) ==> final(fs)@.contains_key(j) == old(fs)@.contains_key(j)
            && final(fs)@[j] == old(fs)@[j],
{
    crate::easy_fs::laws::law_remove_link(
        old(fs)@,
        root.id(old(fs)),
        user_memory::user_string(mem@, token, path),
        n as int,
        j,
    );
}

/// A second name of a file leads to the same file, whose links are counted; a directory
/// gets none, and a name that is taken is refused.
pub proof fn law_link<D: BlockDevice>(
    old_path: u64,
    new_path: u64,
    token: u64,
    root: &Inode,
    fs: &mut EasyFileSystem<D>,
    mem: &PhysMemory,
    r: isize,
    n: u32,
    j: int,
)
    requires
        call_ensures(fs_calls::sys_linkat::<D>, (old_path, new_path, token, root, fs, mem), r),
        vfs::found_id(
            root.file(old(fs)).content(),
            user_memory::user_string(mem@, token, old_path),
        ) == Some(n),
        old(fs)@.contains_key(root.id(old(fs))),
        old(fs)@.contains_key(n as int),
        n != root.id(old(fs)),
        old(fs)@[n as int].nlink < u32::MAX,
    ensures
        (r == -2) == old(fs)@[n as int].dir,
        (r == 0) == (!old(fs)@[n as int].dir && vfs::found_id(
            root.file(old(fs)).content(),
            user_memory::user_string(mem@, token, new_path),
        ) is None),
        r == 0 ==> final(fs)@[n as int].nlink == old(fs)@[n as int].nlink + 1 && final(fs)@[n as int].raw == old(fs)@[n as int].raw,
        r != 0 ==> final(fs)@ == old(fs)@,
        j != n && j != root.id(old(fs)) ==> final(fs)@.contains_key(j) == old(fs)@.contains_key(j)
            && final(fs)@[j] == old(fs)@[j],
{
    file_laws::law_link_result(
        &*old(fs),
        root,
        user_memory::user_string(mem@, token, old_path),
        user_memory::user_string(mem@, token, new_path),
    );
    crate::easy_fs::laws::law_add_link(
        old(fs)@,
        root.id(old(fs)),
        user_memory::user_string(mem@, token, new_path),
        n as int,
        j,
    );
}

/// After memory was unmapped, none of its pages is mapped, and all others are as before.
pub proof fn law_munmap(
    task: &mut TaskControlBlock,
    start: u64,
    len: u64,
    mem: &mut PhysMemory,
    r: isize,
    v: int,
)
    requires
        call_ensures(process::sys_munmap, (task, start, len, mem), r),
        0 < len,
        start as int / (VA_SPACE as int) == (start + len + 4095) / (VA_SPACE as int),
    ensures
        ({
            let s0 = old(task).inner.memory_set;
            let s1 = final(task).inner.memory_set;
            let first = start as int % (VA_SPACE as int) / 4096;
            let last = (start + len - 1) % (VA_SPACE as int) / 4096;
            &&& r == 0 || r == -1
            &&& r == 0 ==> start % 4096 == 0 && s1.pages(final(mem)@).contains_key(v) == (s0.pages(
                old(mem)@,
            ).contains_key(v) && !(first <= v <= last))
            &&& r == 0 && s1.pages(final(mem)@).contains_key(v) ==> s1.pages(final(mem)@)[v]
                == s0.pages(old(mem)@)[v]
            &&& r == -1 ==> s1 == s0 && final(mem)@ == old(mem)@
        }),
{
    if start % 4096 == 0 {
        laws::lemma_asked_pages(start as int, len as int, start as int);
    }
}

/// A range that holds only some pages of an area, or one that nobody mapped, is not
/// unmapped.
pub proof fn law_munmap_refused(
    task: &mut TaskControlBlock,
    start: u64,
    len: u64,
    mem: &mut PhysMemory,
    r: isize,
    k: int,
    v: int,
)
    requires
        call_ensures(process::sys_munmap, (task, start, len, mem), r),
        0 < len,
        start as int / (VA_SPACE as int) == (start + len + 4095) / (VA_SPACE as int),
        ({
            let infos = old(task).inner.memory_set.infos();
            let first = start as int % (VA_SPACE as int) / 4096;
            let last = (start + len - 1) % (VA_SPACE as int) / 4096;
            &&& first <= v <= last
            &&& forall|i: int|
                0 <= i < infos.len() && i != k ==> !((#[trigger] infos[i]).start <= v
                    < infos[i].end)
            &&& 0 <= k < infos.len() && infos[k].start <= v < infos[k].end ==> infos[k].start < first
                || last + 1 < infos[k].end
        }),
    ensures
        r == -1,
        final(task).inner.memory_set == old(task).inner.memory_set,
        final(mem)@ == old(mem)@,
{
    let infos = old(task).inner.memory_set.infos();
    if start % 4096 == 0 {
        laws::lemma_asked_pages(start as int, len as int, start as int);
        let info = process::asked(start, len, 0);
        if 0 <= k < infos.len() && infos[k].start <= v < infos[k].end {
            laws::law_partial_refused(infos, info.start, info.end, k, v);
        } else {
            laws::law_gap_refused(infos, info.start, info.end, v);
        }
    }
}

/// A process reads the time where it asked for it: seconds, and microseconds beyond
/// them.
pub proof fn law_get_time(
    task: &TaskControlBlock,
    ts: u64,
    tz: usize,
    us: u64,
    mem: &mut PhysMemory,
    r: isize,
)
    requires
        call_ensures(process::sys_get_time, (task, ts, tz, us, mem), r),
        task.inner.memory_set.wf(old(mem)@),
        0 <= task.inner.memory_set.page_table.root() < address::PPN_SPACE,
        page_table::canonical(ts as int, 16),
        ({
            let a = ts as int % (VA_SPACE as int);
            forall|k: int|
                0 <= k < page_table::piece_count(a, 16) ==> mm_laws::own_page(
                    &task.inner.memory_set,
                    #[trigger] (address::floor_of(a) + k),
                )
        }),
    ensures
        ({
            let b = user_memory::user_bytes(final(mem)@, task.inner.token(), ts, 16);
            &&& r == 0
            &&& bytes::u64_at(b, 0) * 1_000_000 + bytes::u64_at(b, 8) == us
            &&& bytes::u64_at(b, 8) < 1_000_000
        }),
{
    let s = task.inner.memory_set;
    let token = task.inner.token();
    access::law_token(s.page_table.root());
    laws::law_time_bytes(us);
    mm_laws::law_user_write_read(
        s,
        old(mem)@,
        token,
        ts,
        process::time_bytes(process::time_of(us)),
    );
}

/// A child that was made out of a program may read, write and execute the bytes of each
/// of its segments as the program header says; it is ready, and has its parent.
pub proof fn law_spawn_access(
    task: &mut TaskControlBlock,
    path: u64,
    apps: &AppTable,
    pid: usize,
    kernel_stack: KernelStack,
    env: &KernelEnv,
    manager: &mut TaskManager,
    mem: &mut PhysMemory,
    r: isize,
    k: int,
    i: int,
    a: int,
)
    requires
        call_ensures(
            process::sys_spawn,
            (task, path, apps, pid, kernel_stack, env, manager, mem),
            r,
        ),
        0 <= k < apps.apps@.len(),
        apps.apps@[k].name@ == user_memory::user_string(old(mem)@, old(task).inner.token(), path),
        forall|j: int| 0 <= j < k ==> (#[trigger] apps.apps@[j]).name@ != apps.apps@[k].name@,
        ({
            let d = apps.apps@[k].data@;
            let p = elf::program_header_of(d, i);
            &&& 0 <= i < elf::header_of(d).ph_count
            &&& bytes::u32_at(d, elf::ph_start(d, i)) == 1
            &&& p.virtual_addr <= a < p.virtual_addr + p.mem_size
            &&& p.virtual_addr as int / (VA_SPACE as int) == (p.virtual_addr + p.mem_size) / (
            VA_SPACE as int)
        }),
    ensures
        r == pid,
        final(task).inner.children@ == old(task).inner.children@.push(pid),
        final(manager).priority_queue@.drop_last() == old(manager).priority_queue@,
        final(manager).priority_queue@.last().pid == pid,
        final(manager).priority_queue@.last().inner.parent == Some(old(task).pid),
        final(manager).priority_queue@.last().inner.task_status == TaskStatus::Ready,
        page_table::lookup(
            final(mem)@,
            final(manager).priority_queue@.last().inner.memory_set.page_table.root(),
            a % (VA_SPACE as int) / 4096,
        ) matches Some(e) && {
            let p = elf::program_header_of(apps.apps@[k].data@, i);
            &&& e & 1 != 0
            &&& (e & 2 != 0) == p.readable
            &&& (e & 4 != 0) == p.writable
            &&& (e & 8 != 0) == p.executable
            &&& e & 16 != 0
            &&& e & 0xe0 == 0
        },
{
    task_laws::law_app_found(apps, k);
    let d = apps.apps@[k].data@;
    let child = final(manager).priority_queue@.last();
    task_laws::law_program_access(&child.inner, final(mem)@, d, kernel_stack, *env, i, a);
}

/// An open file has the lowest number that is free, starts at its first byte, and can be
/// read and written as the flags say.
pub proof fn law_open<D: BlockDevice>(
    table: &mut FdTable,
    path: u64,
    flags: u32,
    token: u64,
    root: &Inode,
    fs: &mut EasyFileSystem<D>,
    mem: &PhysMemory,
    r: isize,
    n: u32,
    j: int,
)
    requires
        call_ensures(fs_calls::sys_open::<D>, (table, path, flags, token, root, fs, mem), r),
        vfs::found_id(
            root.file(old(fs)).content(),
            user_memory::user_string(mem@, token, path),
        ) == Some(n),
    ensures
        0 <= r <= old(table).files@.len(),
        final(table).files@[r as int] is Some,
        final(table).files@[r as int]->0.readable == (flags & 1 == 0),
        final(table).files@[r as int]->0.writable == (flags != 0),
        final(table).files@[r as int]->0.offset == 0,
        final(table).files@[r as int]->0.inode.id(final(fs)) == n,
        0 <= j < r ==> old(table).files@[j] is Some,
        r < old(table).files@.len() ==> old(table).files@[r as int] is None,
        0 <= j < old(table).files@.len() && j != r ==> final(table).files@[j]
            == old(table).files@[j],
        flags & 0x600 == 0 ==> final(fs)@ == old(fs)@,
        flags & 0x600 != 0 ==> final(fs)@[n as int].size == 0 && final(fs)@[n as int].nlink
            == old(fs)@[n as int].nlink,
{
    let name = user_memory::user_string(mem@, token, path);
    let file = choose|file: Option<OSInode>| #[trigger]
        files::opened(
            &*old(fs),
            &*final(fs),
            root,
            name,
            OpenFlags { bits: flags },
            file,
        ) && fs_calls::installed(old(table).files@, final(table).files@, file, r);
    file_laws::law_open_existing(
        &*old(fs),
        &*final(fs),
        root,
        name,
        OpenFlags { bits: flags },
        file,
        n,
        j,
    );
    file_laws::law_lowest_number(old(table).files@, final(table).files@, file->0, r, j);
}

/// A file that does not exist, and is not to be created, is not opened.
pub proof fn law_open_refused<D: BlockDevice>(
    table: &mut FdTable,
    path: u64,
    flags: u32,
    token: u64,
    root: &Inode,
    fs: &mut EasyFileSystem<D>,
    mem: &PhysMemory,
    r: isize,
)
    requires
        call_ensures(fs_calls::sys_open::<D>, (table, path, flags, token, root, fs, mem), r),
        vfs::found_id(
            root.file(old(fs)).content(),
            user_memory::user_string(mem@, token, path),
        ) is None,
        flags & 0x200 == 0,
    ensures
        r == -1,
        final(table).files@ == old(table).files@,
        final(fs)@ == old(fs)@,
{
    file_laws::law_flags(OpenFlags { bits: flags });
}

/// A process that moves the end of its heap learns where it was, and the end moves by
/// that many bytes; an end below the bottom of the heap is refused.
pub proof fn law_sbrk(
    task: &mut TaskControlBlock,
    size: i32,
    mem: &mut PhysMemory,
    r: i64,
    k: int,
)
    requires
        call_ensures(process::sys_sbrk, (task, size, mem), r),
        0 <= old(task).inner.program_brk + size <= i64::MAX,
        old(task).inner.program_brk <= i64::MAX,
        old(task).inner.heap_bottom <= i64::MAX,
        0 <= k < old(task).inner.memory_set.infos().len(),
        old(task).inner.memory_set.infos()[k].start == old(task).inner.heap_bottom as int / 4096,
    ensures
        old(task).inner.program_brk + size >= old(task).inner.heap_bottom ==> r == old(task).inner.program_brk && final(task).inner.program_brk == old(task).inner.program_brk + size,
        old(task).inner.program_brk + size < old(task).inner.heap_bottom ==> r == -1 && *final(task)
            == *old(task) && final(mem)@ == old(mem)@,
        final(task).inner.heap_bottom == old(task).inner.heap_bottom,
        final(task).pid == old(task).pid,
{
    let o = choose|o: Option<u64>| #[trigger]
        control::brk_changed(
            &*old(task),
            old(mem)@,
            &*final(task),
            final(mem)@,
            size as int,
            o,
        ) && r == match o {
            Some(old_brk) => control::signed(old_brk),
            None => -1,
        };
    laws::law_moved_brk(
        &*old(task),
        old(mem)@,
        &*final(task),
        final(mem)@,
        size as int,
        o,
        k,
    );
}

/// A process finds the bytes of the file where it asked for them.
pub proof fn law_read_bytes<D: BlockDevice>(
    table: &mut FdTable,
    fd: usize,
    buf: u64,
    len: u64,
    token: u64,
    fs: &mut EasyFileSystem<D>,
    mem: &mut PhysMemory,
    r: isize,
    s: MemorySet,
    i: int,
)
    requires
        call_ensures(fs_calls::sys_read::<D>, (table, fd, buf, len, token, fs, mem), r),
        fd < old(table).files@.len(),
        old(table).files@[fd as int] is Some,
        old(table).files@[fd as int]->0.readable,
        old(table).files@[fd as int]->0.inode.file(old(fs)).wf(),
        old(table).files@[fd as int]->0.offset + len <= old(table).files@[fd as int]->0.inode.file(
            old(fs),
        ).size,
        0 <= i < len,
        s.wf(old(mem)@),
        user_memory::token_root(token) == s.page_table.root(),
        page_table::canonical(buf as int, len as int),
        ({
            let a = buf as int % (VA_SPACE as int);
            forall|k: int|
                0 <= k < page_table::piece_count(a, len as int) ==> mm_laws::own_page(
                    &s,
                    #[trigger] (address::floor_of(a) + k),
                )
        }),
    ensures
        ({
            let file = old(table).files@[fd as int]->0;
            &&& r == len
            &&& user_memory::user_bytes(final(mem)@, token, buf, len as int)[i]
                == file.inode.file(old(fs)).content()[file.offset + i]
        }),
{
    let file = old(table).files@[fd as int]->0;
    let f = file.inode.file(old(fs));
    let part = inode::read_part(f, file.offset as int, len as int);
    file_laws::law_read_bytes(f, file.offset as int, len as int, i);
    assert(final(mem)@ == user_memory::user_written(old(mem)@, token, buf, part));
    mm_laws::law_user_write_read(s, old(mem)@, token, buf, part);
}

} // verus!
