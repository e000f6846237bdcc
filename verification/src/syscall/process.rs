//! System calls on processes. Each works on the control block of the process that
//! makes the call; what it needs of the rest of the kernel, it is given.
use crate::config::{BIG_STRIDE, PAGE_SIZE};
use crate::easy_fs::bytes;
use crate::easy_fs::bytes::u32_to_bytes;
use crate::mm::address;
use crate::mm::address::{VirtAddr, VA_SPACE};
use crate::mm::frame_allocator::{MemData, PhysMemory};
use crate::mm::kernel_space;
use crate::mm::laws;
use crate::mm::memory_set;
use crate::mm::memory_set::{AreaInfo, MapPermission, MemorySet, MAP_R, MAP_U, MAP_W, MAP_X};
use crate::mm::mmap;
use crate::mm::page_table;
use crate::mm::user_memory;
use crate::mm::user_memory::{copy_to_user, translated_str};
use crate::task::context::{KernelEnv, A0_WORD, KERNEL_SP_WORD};
use crate::task::control;
use crate::task::control::{to_signed, KernelStack, TaskControlBlock, TaskControlBlockInner, TaskStatus};
use crate::task::loader::AppTable;
use crate::task::manager::{add_task, TaskManager};
use vstd::bytes::u64_to_le_bytes;
use vstd::prelude::*;

verus! {

/// A time.
#[derive(Clone, Copy, PartialEq, Eq, Structural, Debug)]
pub struct TimeVal {
    /// Seconds.
    pub sec: u64,
    /// Microseconds beyond them.
    pub usec: u64,
}

/// The process exits with a code: it waits as a zombie for its parent.
pub fn sys_exit(task: TaskControlBlock, exit_code: i32, zombies: &mut Vec<TaskControlBlock>)
    ensures
        final(zombies)@ == old(zombies)@.push(
            TaskControlBlock {
                inner: TaskControlBlockInner {
                    task_status: TaskStatus::Zombie,
                    exit_code,
                    ..task.inner
                },
                ..task
            },
        ),
{
    let mut task = task;
    task.inner.task_status = TaskStatus::Zombie;
    task.inner.exit_code = exit_code;
    zombies.push(task);
}

/// The process lets others run: it joins the ready queue again.
pub fn sys_yield(task: TaskControlBlock, manager: &mut TaskManager) -> (r: isize)
    ensures
        r == 0,
        final(manager).priority_queue@ == old(manager).priority_queue@.push(
            TaskControlBlock {
                inner: TaskControlBlockInner { task_status: TaskStatus::Ready, ..task.inner },
                ..task
            },
        ),
{
    let mut task = task;
    task.inner.task_status = TaskStatus::Ready;
    add_task(manager, task);
    0
}

/// The number of the process.
pub fn sys_getpid(task: &TaskControlBlock) -> (r: isize)
    requires
        task.pid <= isize::MAX,
    ensures
        r == task.pid,
{
    task.pid as isize
}

/// Makes a copy of the process and puts it into the ready queue. Returns the
/// number of the child; in the child the call returns 0.
pub fn sys_fork(
    task: &mut TaskControlBlock,
    pid: usize,
    kernel_stack: KernelStack,
    env: &KernelEnv,
    manager: &mut TaskManager,
    mem: &mut PhysMemory,
) -> (r: isize)
    requires
        pid <= isize::MAX,
        old(mem).wf(),
        old(task).inner.wf(old(mem)@),
        env.strampoline % PAGE_SIZE == 0,
        kernel_stack.ok(),
        kernel_space::space_cost(old(task).inner.memory_set.infos()) <= old(mem)@.free().len(),
    ensures
        r == pid,
        final(mem).wf(),
        final(mem).first() == old(mem).first(),
        final(mem)@.free().len() == old(mem)@.free().len() - kernel_space::space_cost(
            old(task).inner.memory_set.infos(),
        ),
        final(task).inner.wf(final(mem)@),
        final(task).inner.children@ == old(task).inner.children@.push(pid),
        *final(task) == (TaskControlBlock {
            inner: TaskControlBlockInner {
                children: final(task).inner.children,
                ..old(task).inner
            },
            ..*old(task)
        }),
        final(manager).priority_queue@.len() == old(manager).priority_queue@.len() + 1,
        final(manager).priority_queue@.drop_last() == old(manager).priority_queue@,
        ({
            let child = final(manager).priority_queue@.last();
            &&& kernel_space::fresh(&child.inner.memory_set, old(mem)@, final(mem)@)
            &&& child.inner.memory_set.frames().len() == kernel_space::space_cost(
                old(task).inner.memory_set.infos(),
            )
            &&& control::newborn(&child, pid, kernel_stack, Some(old(task).pid), *env)
            &&& control::forked(&child, final(mem)@, old(task), old(mem)@, *env)
            &&& forall|i: int|
                0 <= i < 512 ==> #[trigger] child.inner.trap_word(final(mem)@, i) == if i
                    == A0_WORD {
                    0
                } else if i == KERNEL_SP_WORD {
                    kernel_stack.top() as u64
                } else {
                    old(task).inner.trap_word(old(mem)@, i)
                }
        }),
{
    let ghost m0 = mem@;
    let ghost t0 = *task;
    let child: TaskControlBlock = task.fork(pid, kernel_stack, env, mem);
    let ghost m1 = mem@;
    child.inner.set_trap_word(A0_WORD, 0, mem);
    proof {
        let m2 = mem@;
        let s = child.inner.memory_set;
        let s0 = t0.inner.memory_set;
        mem.lemma_wf();
        control::lemma_trap_written(child.inner, m1, m2, A0_WORD as int, 0);
        let ppn = child.inner.trap_cx_ppn.0 as int;
        assert forall|p: int| #[trigger] m0.used.contains(p) implies m2.pages[p] == m0.pages[p] by {
            assert(m0.free().contains(ppn));
        }
        m1.lemma_takes_none(m2);
        m0.lemma_takes_trans(m1, m2);
        assert(kernel_space::fresh(&s, m0, m2));
        assert(m2.free() =~= m1.free());
        assert forall|k: int, v: int|
            #![trigger s0.infos()[k], s.page_bytes(m2, v)]
            0 <= k < s0.infos().len() && s0.infos()[k].start <= v < s0.infos()[k].end && v
                != crate::mm::user_space::TRAP_CONTEXT_VPN implies s.page_bytes(m2, v)
            == s0.page_bytes(m0, v) by {
            assert(s.infos()[k] == s0.infos()[k]);
            assert(s.page_bytes(m2, v) == s.page_bytes(m1, v));
            assert(s.page_bytes(m1, v) == s0.page_bytes(m0, v));
        }
        laws::law_build_isolated(s0, s, m0, m2);
    }
    add_task(manager, child);
    assert(manager.priority_queue@.drop_last() =~= old(manager).priority_queue@);
    pid as isize
}

/// A string starts at a user address of the process.
pub open spec fn has_path(task: &TaskControlBlock, path: u64, m: MemData) -> bool {
    exists|n: int| #[trigger] user_memory::user_str(m, task.inner.token(), path, n)
}

/// The program that the string at user address `path` names, if there is one.
pub open spec fn named(task: &TaskControlBlock, path: u64, apps: &AppTable, m: MemData) -> Option<
    Seq<u8>,
> {
    apps.find(user_memory::user_string(m, task.inner.token(), path))
}

/// Replaces the program of the process by the one that the string at user
/// address `path` names, if there is one. Returns 0, or -1.
pub fn sys_exec(
    task: &mut TaskControlBlock,
    path: u64,
    apps: &AppTable,
    env: &KernelEnv,
    mem: &mut PhysMemory,
) -> (r: isize)
    requires
        old(mem).wf(),
        has_path(old(task), path, old(mem)@),
        named(old(task), path, apps, old(mem)@) matches Some(d) ==> old(task).inner.memory_set.wf(
            old(mem)@,
        ) && control::can_load(d, old(mem)@, old(task).kernel_stack, *env),
    ensures
        final(mem).wf(),
        final(mem).first() == old(mem).first(),
        match named(old(task), path, apps, old(mem)@) {
            Some(d) => {
                &&& r == 0
                &&& control::program_loaded(
                    &final(task).inner,
                    final(mem)@,
                    d,
                    old(task).kernel_stack,
                    *env,
                )
                &&& control::replaced(
                    &old(task).inner.memory_set,
                    old(mem)@,
                    &final(task).inner.memory_set,
                    final(mem)@,
                )
                &&& final(mem)@.free().len() == old(mem)@.free().len() + old(
                    task,
                ).inner.memory_set.frames().len() - control::program_cost(d)
                &&& final(task).inner.memory_set.frames().len() == control::program_cost(d)
                &&& *final(task) == (TaskControlBlock {
                    inner: TaskControlBlockInner {
                        memory_set: final(task).inner.memory_set,
                        trap_cx_ppn: final(task).inner.trap_cx_ppn,
                        base_size: final(task).inner.base_size,
                        ..old(task).inner
                    },
                    ..*old(task)
                })
            },
            None => r == -1 && *final(task) == *old(task) && final(mem)@ == old(mem)@,
        },
{
    let name: Vec<u8> = translated_str(task.get_user_token(), path, mem);
    match apps.get_app_data_by_name(name.as_slice()) {
        Some(d) => {
            task.exec(d, env, mem);
            0
        },
        None => -1,
    }
}

/// Child `c` is meant by `pid`, which stands for any child if it is -1.
pub open spec fn is_meant(pid: isize, c: usize) -> bool {
    pid == -1 || pid as usize == c
}

/// The zombie with a number, from place `i` on.
pub open spec fn zombie_at(zombies: Seq<TaskControlBlock>, pid: usize, i: int) -> Option<int>
    decreases zombies.len() - i,
{
    if i >= zombies.len() {
        None
    } else if zombies[i].pid == pid {
        Some(i)
    } else {
        zombie_at(zombies, pid, i + 1)
    }
}

/// The first child from place `i` on that is meant and has exited.
pub open spec fn exited_child(
    children: Seq<usize>,
    zombies: Seq<TaskControlBlock>,
    pid: isize,
    i: int,
) -> Option<int>
    decreases children.len() - i,
{
    if i >= children.len() {
        None
    } else if is_meant(pid, children[i]) && zombie_at(zombies, children[i], 0) is Some {
        Some(i)
    } else {
        exited_child(children, zombies, pid, i + 1)
    }
}

/// There is a child that is meant.
pub open spec fn has_child(children: Seq<usize>, pid: isize) -> bool {
    exists|i: int| 0 <= i < children.len() && is_meant(pid, #[trigger] children[i])
}

/// The place of the zombie with a number.
fn find_zombie(zombies: &Vec<TaskControlBlock>, pid: usize) -> (r: Option<usize>)
    ensures
        match r {
            Some(z) => zombie_at(zombies@, pid, 0) == Some(z as int) && z < zombies@.len(),
            None => zombie_at(zombies@, pid, 0) is None,
        },
{
    let mut i: usize = 0;
    while i < zombies.len()
        invariant
            i <= zombies@.len(),
            zombie_at(zombies@, pid, 0) == zombie_at(zombies@, pid, i as int),
        decreases zombies@.len() - i,
    {
        if zombies[i].getpid() == pid {
            return Some(i);
        }
        i += 1;
    }
    None
}

/// Whether there is a child that is meant.
fn any_child(children: &Vec<usize>, pid: isize) -> (r: bool)
    ensures
        r == has_child(children@, pid),
{
    let mut i: usize = 0;
    while i < children.len()
        invariant
            i <= children@.len(),
            forall|j: int| 0 <= j < i ==> !is_meant(pid, #[trigger] children@[j]),
        decreases children@.len() - i,
    {
        if pid == -1 || pid as usize == children[i] {
            assert(is_meant(pid, children@[i as int]));
            return true;
        }
        i += 1;
    }
    false
}

/// The place of the first child that is meant and has exited, and the place of
/// that zombie.
fn find_exited(children: &Vec<usize>, zombies: &Vec<TaskControlBlock>, pid: isize) -> (r: Option<
    (usize, usize),
>)
    ensures
        match r {
            Some((i, z)) => {
                &&& exited_child(children@, zombies@, pid, 0) == Some(i as int)
                &&& i < children@.len()
                &&& zombie_at(zombies@, children@[i as int], 0) == Some(z as int)
                &&& z < zombies@.len()
            },
            None => exited_child(children@, zombies@, pid, 0) is None,
        },
{
    let mut i: usize = 0;
    while i < children.len()
        invariant
            i <= children@.len(),
            exited_child(children@, zombies@, pid, 0) == exited_child(
                children@,
                zombies@,
                pid,
                i as int,
            ),
        decreases children@.len() - i,
    {
        if pid == -1 || pid as usize == children[i] {
            match find_zombie(zombies, children[i]) {
                Some(z) => {
                    return Some((i, z));
                },
                None => {},
            }
        }
        i += 1;
    }
    None
}

/// The zombie that a wait finds.
pub open spec fn found_zombie(
    children: Seq<usize>,
    zombies: Seq<TaskControlBlock>,
    pid: isize,
) -> int {
    zombie_at(zombies, children[exited_child(children, zombies, pid, 0)->0], 0)->0
}

/// The exit code of a child can be written, and its memory given back, if it is
/// found.
pub open spec fn can_collect(
    children: Seq<usize>,
    zombies: Seq<TaskControlBlock>,
    pid: isize,
    token: u64,
    ptr: u64,
    m: MemData,
) -> bool {
    exited_child(children, zombies, pid, 0) is Some ==> {
        let child = zombies[found_zombie(children, zombies, pid)];
        let pieces = user_memory::user_pieces(m, token, ptr, 4);
        &&& child.pid <= isize::MAX
        &&& child.inner.memory_set.wf(m)
        &&& user_memory::accessible(m, token, ptr, 4)
        &&& forall|k: int|
            0 <= k < pieces.len() ==> !child.inner.memory_set.owns(
                (#[trigger] pieces[k]).ppn.0 as int,
            )
    }
}

/// Collects a child that has exited: one with the number `pid`, or any if it is
/// -1. Writes its exit code to a user address, gives its memory back, and returns
/// its number; -1 if there is no such child, -2 if none of them has exited.
pub fn sys_waitpid(
    task: &mut TaskControlBlock,
    pid: isize,
    exit_code_ptr: u64,
    zombies: &mut Vec<TaskControlBlock>,
    mem: &mut PhysMemory,
) -> (r: isize)
    requires
        old(mem).wf(),
        can_collect(
            old(task).inner.children@,
            old(zombies)@,
            pid,
            old(task).inner.token(),
            exit_code_ptr,
            old(mem)@,
        ),
    ensures
        final(mem).wf(),
        final(mem).first() == old(mem).first(),
        *final(task) == (TaskControlBlock {
            inner: TaskControlBlockInner {
                children: final(task).inner.children,
                ..old(task).inner
            },
            ..*old(task)
        }),
        match exited_child(old(task).inner.children@, old(zombies)@, pid, 0) {
            Some(i) => {
                let z = found_zombie(old(task).inner.children@, old(zombies)@, pid);
                let child = old(zombies)@[z];
                let written = user_memory::user_written(
                    old(mem)@,
                    old(task).inner.token(),
                    exit_code_ptr,
                    bytes::u32_bytes(child.inner.exit_code as u32),
                );
                &&& r == child.pid
                &&& final(task).inner.children@ == old(task).inner.children@.remove(i)
                &&& final(zombies)@ == old(zombies)@.remove(z)
                &&& final(mem)@.pages.dom() == old(mem)@.pages.dom()
                &&& forall|p: int| #[trigger]
                    final(mem)@.used.contains(p) == (old(mem)@.used.contains(p)
                        && !child.inner.memory_set.owns(p))
                &&& final(mem)@.free().len() == old(mem)@.free().len()
                    + child.inner.memory_set.frames().len()
                &&& forall|p: int| #[trigger]
                    old(mem)@.pages.contains_key(p) && !child.inner.memory_set.owns(p)
                        ==> final(mem)@.pages[p] == written.pages[p]
            },
            None => {
                &&& r == if has_child(old(task).inner.children@, pid) {
                    -2int
                } else {
                    -1
                }
                &&& final(task).inner.children@ == old(task).inner.children@
                &&& final(zombies)@ == old(zombies)@
                &&& final(mem)@ == old(mem)@
            },
        },
        r < 0 ==> forall|i: int, z: int|
            #![trigger old(task).inner.children@[i], old(zombies)@[z]]
            0 <= i < old(task).inner.children@.len() && 0 <= z < old(zombies)@.len() && (pid == -1
                || pid as usize == old(task).inner.children@[i]) ==> old(zombies)@[z].pid
                != old(task).inner.children@[i],
        r == -1 ==> (pid == -1 ==> old(task).inner.children@.len() == 0) && forall|i: int|
            #![trigger old(task).inner.children@[i]]
            0 <= i < old(task).inner.children@.len() ==> pid as usize != old(
                task,
            ).inner.children@[i],
        r == -2 ==> exists|i: int|
            #![trigger old(task).inner.children@[i]]
            0 <= i < old(task).inner.children@.len() && (pid == -1 || pid as usize == old(
                task,
            ).inner.children@[i]),
        r >= 0 ==> exists|j: int|
            #![trigger old(task).inner.children@[j]]
            {
                &&& 0 <= j < old(task).inner.children@.len()
                &&& old(task).inner.children@[j] == r
                &&& pid == -1 || pid as usize == r as usize
                &&& final(task).inner.children@ == old(task).inner.children@.remove(j)
                &&& forall|k: int, z: int|
                    #![trigger old(task).inner.children@[k], old(zombies)@[z]]
                    0 <= k < j && 0 <= z < old(zombies)@.len() && (pid == -1 || pid as usize == old(
                        task,
                    ).inner.children@[k]) ==> old(zombies)@[z].pid != old(task).inner.children@[k]
            },
{
    let ghost children = task.inner.children@;
    let ghost zs = zombies@;
    let ghost m0 = mem@;
    proof {
        mem.lemma_wf();
        super::laws::law_wait_finds(children, zs, pid, 0);
        if pid == -1 {
            super::laws::law_any_child(children);
        }
        if has_child(children, pid) {
            super::laws::law_child_listed(children, pid);
        }
    }
    if !any_child(&task.inner.children, pid) {
        proof {
            lemma_no_exited(children, zs, pid, 0);
        }
        return -1;
    }
    match find_exited(&task.inner.children, zombies, pid) {
        Some((i, z)) => {
            let _removed: usize = task.inner.children.remove(i);
            let child: TaskControlBlock = zombies.remove(z);
            let found_pid: usize = child.getpid();
            let token: u64 = task.inner.get_user_token();
            let code: Vec<u8> = u32_to_bytes(child.inner.exit_code as u32);
            copy_to_user(token, exit_code_ptr, code.as_slice(), mem);
            let ghost m1 = mem@;
            let ghost s = child.inner.memory_set;
            proof {
                super::laws::law_wait_collects(children, zs, pid);
                lemma_user_isolated(s, m0, token, exit_code_ptr, code@);
            }
            child.inner.memory_set.recycle(mem);
            proof {
                assert(m1.free() =~= m0.free());
                assert forall|p: int| #[trigger]
                    m0.pages.contains_key(p) && !s.owns(p) implies mem@.pages[p] == m1.pages[p] by {
                    assert(m1.pages.dom().contains(p));
                    assert(m1.pages.contains_key(p));
                }
            }
            assert(children[i as int] == found_pid);
            found_pid as isize
        },
        None => -2,
    }
}

/// Without a child that is meant, none that is meant has exited.
proof fn lemma_no_exited(
    children: Seq<usize>,
    zombies: Seq<TaskControlBlock>,
    pid: isize,
    i: int,
)
    requires
        !has_child(children, pid),
        0 <= i,
    ensures
        exited_child(children, zombies, pid, i) is None,
    decreases children.len() - i,
{
    if i < children.len() {
        assert(!is_meant(pid, children[i]));
        lemma_no_exited(children, zombies, pid, i + 1);
    }
}

/// A write to user memory leaves an address space alone that has none of the
/// frames.
proof fn lemma_user_isolated(s: MemorySet, m: MemData, token: u64, ptr: u64, src: Seq<u8>)
    requires
        s.wf(m),
        m.wf(),
        user_memory::accessible(m, token, ptr, src.len() as int),
        forall|k: int|
            0 <= k < user_memory::user_pieces(m, token, ptr, src.len() as int).len() ==> !s.owns(
                (#[trigger] user_memory::user_pieces(m, token, ptr, src.len() as int)[k]).ppn.0
                    as int,
            ),
    ensures
        laws::unchanged(&s, m, user_memory::user_written(m, token, ptr, src)),
        user_memory::user_written(m, token, ptr, src).used == m.used,
        user_memory::user_written(m, token, ptr, src).pages.dom() == m.pages.dom(),
{
    let pieces = user_memory::user_pieces(m, token, ptr, src.len() as int);
    let m1 = user_memory::user_written(m, token, ptr, src);
    user_memory::lemma_pieces_ok(m, token, ptr, src.len() as int);
    user_memory::lemma_scattered(m, pieces, src, pieces.len() as int);
    assert forall|p: int| #[trigger] s.owns(p) implies m1.used.contains(p) && m1.pages[p]
        == m.pages[p] by {
        laws::lemma_owned_used(s, m, p);
        assert forall|j: int| 0 <= j < pieces.len() implies (#[trigger] pieces[j]).ppn.0 != p by {}
    }
    laws::law_own_frames(s, m, m1);
}

/// A time as user programs read it.
pub open spec fn time_bytes(t: TimeVal) -> Seq<u8> {
    bytes::u64_bytes(t.sec) + bytes::u64_bytes(t.usec)
}

/// The time after so many microseconds.
pub open spec fn time_of(us: u64) -> TimeVal {
    TimeVal { sec: us / 1_000_000, usec: us % 1_000_000 }
}

/// Writes the time, which is given in microseconds, to user address `ts`; it may
/// lie in two pages. Returns 0.
pub fn sys_get_time(
    task: &TaskControlBlock,
    ts: u64,
    _tz: usize,
    time_us: u64,
    mem: &mut PhysMemory,
) -> (r: isize)
    requires
        old(mem).wf(),
        user_memory::accessible(old(mem)@, task.inner.token(), ts, 16),
    ensures
        r == 0,
        final(mem).wf(),
        final(mem).first() == old(mem).first(),
        final(mem)@ == user_memory::user_written(
            old(mem)@,
            task.inner.token(),
            ts,
            time_bytes(time_of(time_us)),
        ),
        exists|b: Seq<u8>|
            {
                &&& final(mem)@ == #[trigger] user_memory::user_written(
                    old(mem)@,
                    task.inner.token(),
                    ts,
                    b,
                )
                &&& b.len() == 16
                &&& bytes::u64_at(b, 0) * 1_000_000 + bytes::u64_at(b, 8) == time_us
                &&& bytes::u64_at(b, 8) < 1_000_000
            },
{
    proof {
        super::laws::law_time_bytes(time_us);
    }
    let t = TimeVal { sec: time_us / 1_000_000, usec: time_us % 1_000_000 };
    let mut b: Vec<u8> = u64_to_le_bytes(t.sec);
    let mut usec: Vec<u8> = u64_to_le_bytes(t.usec);
    proof {
        vstd::bytes::lemma_auto_spec_u64_to_from_le_bytes();
    }
    b.append(&mut usec);
    copy_to_user(task.get_user_token(), ts, b.as_slice(), mem);
    0
}

/// The access rights that a program may ask for: some of reading, writing and
/// executing, and nothing else.
pub open spec fn port_ok(port: u64) -> bool {
    port & !7u64 == 0 && port & 7u64 != 0
}

/// The permissions for access rights: users may access the pages.
pub open spec fn port_perm(port: u64) -> u8 {
    (MAP_U + (if port & 1 != 0 {
        MAP_R
    } else {
        0
    }) + (if port & 2 != 0 {
        MAP_W
    } else {
        0
    }) + (if port & 4 != 0 {
        MAP_X
    } else {
        0
    })) as u8
}

/// The permissions for access rights.
fn perm_of_port(port: u64) -> (r: u8)
    ensures
        r == port_perm(port),
{
    let r: u8 = if port & 1 != 0 {
        MAP_R
    } else {
        0
    };
    let w: u8 = if port & 2 != 0 {
        MAP_W
    } else {
        0
    };
    let x: u8 = if port & 4 != 0 {
        MAP_X
    } else {
        0
    };
    MAP_U + r + w + x
}

/// The end of the pages that hold `len` bytes from `start` on.
pub open spec fn page_end(start: u64, len: u64) -> int {
    (start + len + PAGE_SIZE - 1) / PAGE_SIZE as int * PAGE_SIZE
}

/// The pages that a call means, as an area.
pub open spec fn asked(start: u64, len: u64, perm: u8) -> AreaInfo {
    AreaInfo {
        start: address::floor_of(start as int % VA_SPACE as int),
        end: address::ceil_of(page_end(start, len) % VA_SPACE as int),
        framed: true,
        perm,
    }
}

/// Maps `len` bytes from `start` on with the access rights `port`. Returns 0; -1
/// if `start` is not the start of a page, the rights are no rights, or some of
/// the pages are taken.
pub fn sys_mmap(
    task: &mut TaskControlBlock,
    start: u64,
    len: u64,
    port: u64,
    mem: &mut PhysMemory,
) -> (r: isize)
    requires
        old(mem).wf(),
        old(task).inner.memory_set.wf(old(mem)@),
        start % PAGE_SIZE == 0 && port_ok(port) && len > 0 ==> {
            let info = asked(start, len, port_perm(port));
            &&& start + len + PAGE_SIZE <= u64::MAX
            &&& info.start <= info.end && !mmap::conflicts(
                old(task).inner.memory_set.infos(),
                info.start,
                info.end,
            ) ==> memory_set::can_push(&old(task).inner.memory_set, old(mem)@, info)
        },
    ensures
        final(mem).wf(),
        final(mem).first() == old(mem).first(),
        *final(task) == (TaskControlBlock {
            inner: TaskControlBlockInner {
                memory_set: final(task).inner.memory_set,
                ..old(task).inner
            },
            ..*old(task)
        }),
        ({
            let info = asked(start, len, port_perm(port));
            let s0 = old(task).inner.memory_set;
            if start % PAGE_SIZE == 0 && port_ok(port) && len > 0 && info.start <= info.end
                && !mmap::conflicts(s0.infos(), info.start, info.end) {
                &&& r == 0
                &&& memory_set::pushed(
                    &s0,
                    old(mem)@,
                    &final(task).inner.memory_set,
                    final(mem)@,
                    info,
                    Seq::<u8>::empty(),
                )
            } else {
                &&& r == if start % PAGE_SIZE == 0 && port_ok(port) && len == 0 {
                    0int
                } else {
                    -1
                }
                &&& final(task).inner.memory_set == s0
                &&& final(mem)@ == old(mem)@
            }
        }),
        r == 0 && len > 0 && start as int / (VA_SPACE as int) == (start + len + 4095) / (
        VA_SPACE as int) ==> forall|v: int|
            start as int % (VA_SPACE as int) / 4096 <= v <= (start + len - 1) % (VA_SPACE as int)
                / 4096 ==> (#[trigger] page_table::lookup(
                final(mem)@,
                final(task).inner.memory_set.page_table.root(),
                v,
            ) matches Some(e) && {
                &&& e & 1 != 0
                &&& (e & 2 != 0) == (port & 1 != 0)
                &&& (e & 4 != 0) == (port & 2 != 0)
                &&& (e & 8 != 0) == (port & 4 != 0)
                &&& e & 16 != 0
                &&& e & 0xe0 == 0
            }),
{
    let ghost s0 = task.inner.memory_set;
    let ghost m0 = mem@;
    if start % PAGE_SIZE != 0 {
        return -1;
    }
    if port & !7u64 != 0 || port & 7u64 == 0 {
        return -1;
    }
    if len == 0 {
        return 0;
    }
    let end: u64 = (start + len + PAGE_SIZE - 1) / PAGE_SIZE * PAGE_SIZE;
    let perm = MapPermission { bits: perm_of_port(port) };
    match task.inner.memory_set.mmap(VirtAddr::new(start), VirtAddr::new(end), perm, mem) {
        Ok(_) => {
            proof {
                if start as int / (VA_SPACE as int) == (start + len + 4095) / (VA_SPACE as int) {
                    let s1 = task.inner.memory_set;
                    assert forall|v: int|
                        start as int % (VA_SPACE as int) / 4096 <= v <= (start + len - 1) % (
                        VA_SPACE as int) / 4096 implies (#[trigger] page_table::lookup(
                        mem@,
                        s1.page_table.root(),
                        v,
                    ) matches Some(e) && {
                        &&& e & 1 != 0
                        &&& (e & 2 != 0) == (port & 1 != 0)
                        &&& (e & 4 != 0) == (port & 2 != 0)
                        &&& (e & 8 != 0) == (port & 4 != 0)
                        &&& e & 16 != 0
                        &&& e & 0xe0 == 0
                    }) by {
                        super::laws::law_mmap_access(s0, m0, s1, mem@, start, len, port, v);
                    }
                }
            }
            0
        },
        Err(_) => -1,
    }
}

/// Unmaps `len` bytes from `start` on. Returns 0; -1 if `start` is not the start
/// of a page, or the pages are not made up of whole areas.
pub fn sys_munmap(task: &mut TaskControlBlock, start: u64, len: u64, mem: &mut PhysMemory) -> (r:
    isize)
    requires
        old(mem).wf(),
        old(task).inner.memory_set.wf(old(mem)@),
        start % PAGE_SIZE == 0 && len > 0 ==> start + len + PAGE_SIZE <= u64::MAX,
    ensures
        final(mem).wf(),
        final(mem).first() == old(mem).first(),
        *final(task) == (TaskControlBlock {
            inner: TaskControlBlockInner {
                memory_set: final(task).inner.memory_set,
                ..old(task).inner
            },
            ..*old(task)
        }),
        ({
            let info = asked(start, len, 0);
            let s0 = old(task).inner.memory_set;
            let s1 = final(task).inner.memory_set;
            if start % PAGE_SIZE == 0 && len > 0 && mmap::whole(
                s0.infos(),
                info.start,
                info.end,
            ) {
                &&& r == 0
                &&& s1.wf(final(mem)@)
                &&& s1.page_table.root() == s0.page_table.root()
                &&& s1.infos() == mmap::others(s0.infos(), info.start, info.end)
                &&& s1.pages(final(mem)@) == memory_set::pages_without(
                    s0.pages(old(mem)@),
                    info.start,
                    info.end,
                )
                &&& memory_set::shrunk(&s0, old(mem)@, &s1, final(mem)@)
                &&& final(mem)@.free().len() == old(mem)@.free().len() + mmap::framed_pages(
                    s0.infos(),
                    info.start,
                    info.end,
                )
            } else {
                &&& r == if start % PAGE_SIZE == 0 && len == 0 {
                    0int
                } else {
                    -1
                }
                &&& s1 == s0
                &&& final(mem)@ == old(mem)@
            }
        }),
{
    if start % PAGE_SIZE != 0 {
        return -1;
    }
    if len == 0 {
        return 0;
    }
    let end: u64 = (start + len + PAGE_SIZE - 1) / PAGE_SIZE * PAGE_SIZE;
    match task.inner.memory_set.munmap(VirtAddr::new(start), VirtAddr::new(end), mem) {
        Ok(_) => 0,
        Err(_) => -1,
    }
}

/// Moves the end of the heap by `size` bytes. Returns the old end as a signed
/// number, or -1.
pub fn sys_sbrk(task: &mut TaskControlBlock, size: i32, mem: &mut PhysMemory) -> (r: i64)
    requires
        old(mem).wf(),
        old(task).inner.memory_set.wf(old(mem)@),
        control::can_change_brk(&old(task).inner, old(mem)@, size as int),
    ensures
        final(mem).wf(),
        final(mem).first() == old(mem).first(),
        exists|o: Option<u64>| #[trigger]
            control::brk_changed(
                old(task),
                old(mem)@,
                final(task),
                final(mem)@,
                size as int,
                o,
            ) && r == match o {
                Some(old_brk) => control::signed(old_brk),
                None => -1,
            },
{
    match task.change_program_brk(size, mem) {
        Some(old_brk) => to_signed(old_brk) as i64,
        None => -1,
    }
}

/// Makes a child process out of the program that the string at user address
/// `path` names, if there is one, and puts it into the ready queue. Returns its
/// number, or -1.
pub fn sys_spawn(
    task: &mut TaskControlBlock,
    path: u64,
    apps: &AppTable,
    pid: usize,
    kernel_stack: KernelStack,
    env: &KernelEnv,
    manager: &mut TaskManager,
    mem: &mut PhysMemory,
) -> (r: isize)
    requires
        pid <= isize::MAX,
        old(mem).wf(),
        has_path(old(task), path, old(mem)@),
        named(old(task), path, apps, old(mem)@) matches Some(d) ==> control::can_load(
            d,
            old(mem)@,
            kernel_stack,
            *env,
        ),
    ensures
        final(mem).wf(),
        final(mem).first() == old(mem).first(),
        *final(task) == (TaskControlBlock {
            inner: TaskControlBlockInner {
                children: final(task).inner.children,
                ..old(task).inner
            },
            ..*old(task)
        }),
        match named(old(task), path, apps, old(mem)@) {
            Some(d) => {
                let child = final(manager).priority_queue@.last();
                &&& r == pid
                &&& final(task).inner.children@ == old(task).inner.children@.push(pid)
                &&& final(manager).priority_queue@.len() == old(manager).priority_queue@.len() + 1
                &&& final(manager).priority_queue@.drop_last() == old(manager).priority_queue@
                &&& kernel_space::fresh(&child.inner.memory_set, old(mem)@, final(mem)@)
                &&& final(mem)@.free().len() == old(mem)@.free().len() - control::program_cost(d)
                &&& child.inner.memory_set.frames().len() == control::program_cost(d)
                &&& control::newborn(&child, pid, kernel_stack, Some(old(task).pid), *env)
                &&& control::program_loaded(
                    &child.inner,
                    final(mem)@,
                    d,
                    kernel_stack,
                    *env,
                )
                &&& child.inner.heap_bottom == child.inner.base_size
                &&& child.inner.program_brk == child.inner.base_size
            },
            None => {
                &&& r == -1
                &&& final(task).inner.children@ == old(task).inner.children@
                &&& final(manager).priority_queue@ == old(manager).priority_queue@
                &&& final(mem)@ == old(mem)@
            },
        },
{
    let name: Vec<u8> = translated_str(task.get_user_token(), path, mem);
    match apps.get_app_data_by_name(name.as_slice()) {
        Some(d) => {
            let child: TaskControlBlock = task.spawn(d, pid, kernel_stack, env, mem);
            let new_pid: isize = child.getpid() as isize;
            add_task(manager, child);
            assert(manager.priority_queue@.drop_last() =~= old(manager).priority_queue@);
            new_pid
        },
        None => -1,
    }
}

/// Sets the priority of the process, which must be at least 2; the pass follows
/// from it. Returns the priority, or -1.
pub fn sys_set_priority(task: &mut TaskControlBlock, prio: isize) -> (r: isize)
    ensures
        if prio >= 2 {
            &&& r == prio
            &&& *final(task) == (TaskControlBlock {
                inner: TaskControlBlockInner {
                    priority: prio,
                    pass: (BIG_STRIDE as int / prio as int) as usize,
                    ..old(task).inner
                },
                ..*old(task)
            })
        } else {
            r == -1 && *final(task) == *old(task)
        },
{
    if prio >= 2 {
        task.inner.priority = prio;
        task.inner.pass = BIG_STRIDE / prio as usize;
        prio
    } else {
        -1
    }
}

/// The time that is written is the time that is given.
pub proof fn law_time(us: u64)
    ensures
        time_of(us).sec * 1_000_000 + time_of(us).usec == us,
        time_of(us).usec < 1_000_000,
{
}

} // verus!
