//! What holds of processes: what a program that was loaded finds, what a child has of
//! its parent, and how turns are shared.
use super::control;
use super::control::{KernelStack, TaskControlBlock, TaskControlBlockInner, TaskStatus};
use super::context::KernelEnv;
use super::loader;
use super::loader::{App, AppTable};
use super::manager;
use super::manager::TaskManager;
use crate::easy_fs::bytes;
use crate::mm::access;
use crate::mm::address::{PA_SPACE, VA_SPACE};
use crate::mm::elf;
use crate::mm::frame_allocator::MemData;
use crate::mm::page_table;
use crate::mm::places;
use crate::mm::user_space;
use vstd::prelude::*;

verus! {

/// A program may read, write and execute the bytes of a segment to load as the program
/// header of the segment says.
pub proof fn law_program_access(
    inner: &TaskControlBlockInner,
    m: MemData,
    d: Seq<u8>,
    kernel_stack: KernelStack,
    env: KernelEnv,
    i: int,
    a: int,
)
    requires
        control::program_loaded(inner, m, d, kernel_stack, env),
        0 <= i < elf::header_of(d).ph_count,
        bytes::u32_at(d, elf::ph_start(d, i)) == 1,
        ({
            let p = elf::program_header_of(d, i);
            &&& p.virtual_addr <= a < p.virtual_addr + p.mem_size
            &&& p.virtual_addr as int / (VA_SPACE as int) == (p.virtual_addr + p.mem_size) / (
            VA_SPACE as int)
        }),
    ensures
        page_table::lookup(
            m,
            inner.memory_set.page_table.root(),
            a % (VA_SPACE as int) / 4096,
        ) matches Some(e) && {
            &&& e & 1 != 0
            &&& (e & 2 != 0) == elf::program_header_of(d, i).readable
            &&& (e & 4 != 0) == elf::program_header_of(d, i).writable
            &&& (e & 8 != 0) == elf::program_header_of(d, i).executable
            &&& e & 16 != 0
            &&& e & 0xe0 == 0
        },
{
    let segments = elf::segments_of(d);
    let n = segments.len() as int;
    elf::law_all_segments(d, i);
    let k = choose|k: int|
        0 <= k < segments.len() && segments[k] == elf::program_header_of(d, i);
    access::law_segment_access(
        inner.memory_set,
        m,
        env.strampoline as int % (PA_SPACE as int) / 4096,
        segments,
        user_space::image_data(segments, d).update(
            n + 2,
            inner.memory_set.page_bytes(m, user_space::TRAP_CONTEXT_VPN as int),
        ),
        k,
        a,
    );
}

/// A program finds the bytes of the file in a segment, from the start of its first
/// page on, and zeros behind them.
pub proof fn law_program_bytes(
    inner: &TaskControlBlockInner,
    m: MemData,
    d: Seq<u8>,
    kernel_stack: KernelStack,
    env: KernelEnv,
    i: int,
    j: int,
)
    requires
        control::program_loaded(inner, m, d, kernel_stack, env),
        0 <= i < elf::header_of(d).ph_count,
        bytes::u32_at(d, elf::ph_start(d, i)) == 1,
        0 <= j,
        ({
            let p = elf::program_header_of(d, i);
            &&& p.offset + p.file_size <= d.len()
            &&& p.virtual_addr as int / 4096 * 4096 + j < p.virtual_addr + p.mem_size
            &&& p.virtual_addr as int / (VA_SPACE as int) == (p.virtual_addr + p.mem_size) / (
            VA_SPACE as int)
        }),
    ensures
        ({
            let p = elf::program_header_of(d, i);
            let v = p.virtual_addr as int % (VA_SPACE as int) / 4096 + j / 4096;
            inner.memory_set.page_bytes(m, v)[j % 4096] == if j < p.file_size {
                d[p.offset + j]
            } else {
                0
            }
        }),
{
    let segments = elf::segments_of(d);
    let n = segments.len() as int;
    elf::law_all_segments(d, i);
    let k = choose|k: int|
        0 <= k < segments.len() && segments[k] == elf::program_header_of(d, i);
    access::law_segment_bytes(
        inner.memory_set,
        m,
        env.strampoline as int % (PA_SPACE as int) / 4096,
        segments,
        d,
        user_space::image_data(segments, d).update(
            n + 2,
            inner.memory_set.page_bytes(m, user_space::TRAP_CONTEXT_VPN as int),
        ),
        k,
        j,
    );
}

/// A program may read and write the two pages below its stack pointer, and not execute
/// them.
pub proof fn law_program_stack(
    inner: &TaskControlBlockInner,
    m: MemData,
    d: Seq<u8>,
    kernel_stack: KernelStack,
    env: KernelEnv,
    a: int,
)
    requires
        control::program_loaded(inner, m, d, kernel_stack, env),
        inner.trap_word(m, 2) - 8192 <= a < inner.trap_word(m, 2),
    ensures
        inner.trap_word(m, 2) == inner.base_size,
        page_table::lookup(
            m,
            inner.memory_set.page_table.root(),
            a % (VA_SPACE as int) / 4096,
        ) matches Some(e) && {
            &&& e & 1 != 0
            &&& e & 2 != 0
            &&& e & 4 != 0
            &&& e & 8 == 0
            &&& e & 16 != 0
            &&& e & 0xe0 == 0
        },
{
    let segments = elf::segments_of(d);
    let n = segments.len() as int;
    assert(inner.trap_word(m, 2) == user_space::stack_top(segments));
    access::law_stack_access(
        inner.memory_set,
        m,
        env.strampoline as int % (PA_SPACE as int) / 4096,
        segments,
        user_space::image_data(segments, d).update(
            n + 2,
            inner.memory_set.page_bytes(m, user_space::TRAP_CONTEXT_VPN as int),
        ),
        user_space::stack_top(segments),
        a,
    );
}

/// A program starts at its entry point with all registers zero but the stack pointer;
/// the kernel finds its own stack, page table and trap handler.
pub proof fn law_program_start(
    inner: &TaskControlBlockInner,
    m: MemData,
    d: Seq<u8>,
    kernel_stack: KernelStack,
    env: KernelEnv,
    i: int,
)
    requires
        control::program_loaded(inner, m, d, kernel_stack, env),
        0 <= i < 32,
    ensures
        i != 2 ==> inner.trap_word(m, i) == 0,
        inner.trap_word(m, 32) == env.sstatus,
        inner.trap_word(m, 33) == elf::header_of(d).entry_point,
        inner.trap_word(m, 34) == env.kernel_token,
        inner.trap_word(m, 35) == (0xffff_ffff_ffff_f000 - kernel_stack.0 * 0x3000) as u64,
        inner.trap_word(m, 36) == env.trap_handler,
{
    assert(inner.trap_word(m, i) == inner.trap_word(m, i));
    assert(kernel_stack.top() == 0xffff_ffff_ffff_f000 - kernel_stack.0 * 0x3000);
}

/// The kernel stacks of processes do not meet, and a page lies between them.
pub proof fn law_kernel_stacks_apart(a: KernelStack, b: KernelStack)
    requires
        a.0 < b.0,
        b.ok(),
    ensures
        a.ok(),
        0 <= b.top() - 0x2000,
        b.top() + 0x1000 <= a.top() - 0x2000,
        a.top() <= 0xffff_ffff_ffff_f000,
{
    assert(a.0 * 0x3000 + 0x3000 <= b.0 * 0x3000);
    assert(a.top() == 0xffff_ffff_ffff_f000 - a.0 * 0x3000);
    assert(b.top() == 0xffff_ffff_ffff_f000 - b.0 * 0x3000);
}

/// A new process is ready to return to user mode on its kernel stack. It has no
/// children, no stride yet, and the priority 16.
pub proof fn law_newborn(
    t: &TaskControlBlock,
    pid: usize,
    kernel_stack: KernelStack,
    parent: Option<usize>,
    env: KernelEnv,
    i: int,
)
    requires
        control::newborn(t, pid, kernel_stack, parent, env),
        kernel_stack.ok(),
        0 <= i < 12,
    ensures
        t.pid == pid,
        t.kernel_stack == kernel_stack,
        t.inner.task_cx.ra == env.trap_return,
        t.inner.task_cx.sp == 0xffff_ffff_ffff_f000 - kernel_stack.0 * 0x3000,
        t.inner.task_cx.s@[i] == 0,
        t.inner.task_status == TaskStatus::Ready,
        t.inner.parent == parent,
        t.inner.children@.len() == 0,
        t.inner.exit_code == 0,
        t.inner.stride == 0,
        t.inner.priority == 16,
        t.inner.pass * t.inner.priority == 0x10_0000,
{
    assert(kernel_stack.top() == 0xffff_ffff_ffff_f000 - kernel_stack.0 * 0x3000);
}

/// A child may do with its pages what its parent may, and finds the bytes of its
/// parent in them; only the trap context is its own.
pub proof fn law_fork_copies(
    t: &TaskControlBlock,
    m1: MemData,
    parent: &TaskControlBlock,
    m0: MemData,
    env: KernelEnv,
    k: int,
    v: int,
    bit: u8,
)
    requires
        control::forked(t, m1, parent, m0, env),
        parent.inner.memory_set.wf(m0),
        0 <= k < parent.inner.memory_set.infos().len(),
        parent.inner.memory_set.infos()[k].start <= v < parent.inner.memory_set.infos()[k].end,
    ensures
        page_table::lookup(m0, parent.inner.memory_set.page_table.root(), v) is Some,
        page_table::lookup(m1, t.inner.memory_set.page_table.root(), v) is Some,
        (page_table::lookup(m0, parent.inner.memory_set.page_table.root(), v)->0 & (bit as u64)
            != 0) == (page_table::lookup(m1, t.inner.memory_set.page_table.root(), v)->0 & (
        bit as u64) != 0),
        v != 0x7ff_fffe ==> t.inner.memory_set.page_bytes(m1, v)
            == parent.inner.memory_set.page_bytes(m0, v),
{
    access::law_same_access(parent.inner.memory_set, m0, t.inner.memory_set, m1, k, v, bit);
    let b = t.inner.memory_set.page_bytes(m1, v);
    assert(parent.inner.memory_set.infos()[k].start <= v);
}

/// A child has the heap of its parent.
pub proof fn law_fork_heap(
    t: &TaskControlBlock,
    m1: MemData,
    parent: &TaskControlBlock,
    m0: MemData,
    env: KernelEnv,
)
    requires
        control::forked(t, m1, parent, m0, env),
    ensures
        t.inner.base_size == parent.inner.base_size,
        t.inner.heap_bottom == parent.inner.heap_bottom,
        t.inner.program_brk == parent.inner.program_brk,
{
}

/// The first program with a name is found wherever it stands, and none only where no
/// program has the name.
pub proof fn law_app_at(apps: Seq<App>, name: Seq<u8>, i: int)
    requires
        0 <= i <= apps.len(),
    ensures
        match loader::app_at(apps, name, i) {
            Some(k) => {
                &&& i <= k < apps.len()
                &&& apps[k].name@ == name
                &&& forall|j: int| i <= j < k ==> (#[trigger] apps[j]).name@ != name
            },
            None => forall|j: int| i <= j < apps.len() ==> (#[trigger] apps[j]).name@ != name,
        },
    decreases apps.len() - i,
{
    if i < apps.len() && apps[i].name@ != name {
        law_app_at(apps, name, i + 1);
    }
}

/// A program is found under its name; where two have the name, the first one is.
pub proof fn law_app_found(table: &AppTable, k: int)
    requires
        0 <= k < table.apps@.len(),
        forall|j: int| 0 <= j < k ==> (#[trigger] table.apps@[j]).name@ != table.apps@[k].name@,
    ensures
        table.find(table.apps@[k].name@) == Some(table.apps@[k].data@),
{
    law_app_at(table.apps@, table.apps@[k].name@, 0);
}

/// A name that no program has leads to none.
pub proof fn law_app_missing(table: &AppTable, name: Seq<u8>)
    requires
        forall|j: int| 0 <= j < table.apps@.len() ==> (#[trigger] table.apps@[j]).name@ != name,
    ensures
        table.find(name) is None,
{
    law_app_at(table.apps@, name, 0);
}

/// A turn goes to a process of the queue with the smallest stride, the first such one.
/// Only its stride changes, by its pass; the others keep their order.
pub proof fn law_turn(
    queue0: Seq<TaskControlBlock>,
    queue1: Seq<TaskControlBlock>,
    task: TaskControlBlock,
) -> (k: int)
    requires
        manager::taken(queue0, queue1, task),
        forall|j: int|
            0 <= j < queue0.len() ==> (#[trigger] queue0[j]).inner.stride + queue0[j].inner.pass
                <= usize::MAX,
    ensures
        0 <= k < queue0.len(),
        task == (TaskControlBlock {
            inner: TaskControlBlockInner { stride: task.inner.stride, ..queue0[k].inner },
            ..queue0[k]
        }),
        task.inner.stride == queue0[k].inner.stride + queue0[k].inner.pass,
        queue1 == queue0.remove(k),
        forall|j: int|
            0 <= j < queue0.len() ==> queue0[k].inner.stride <= (#[trigger] queue0[j]).inner.stride,
        forall|j: int|
            0 <= j < k ==> queue0[k].inner.stride < (#[trigger] queue0[j]).inner.stride,
{
    let k = choose|k: int| #[trigger]
        manager::is_next(queue0, k) && queue1 == queue0.remove(k) && task == manager::advanced(
            queue0[k],
        );
    k
}

/// When a program can be loaded: its file can be read, its kernel stack and the
/// trampoline have places, and its areas and frames do.
pub proof fn law_can_load(d: Seq<u8>, m: MemData, kernel_stack: KernelStack, env: KernelEnv)
    ensures
        control::can_load(d, m, kernel_stack, env) == (env.strampoline % 4096 == 0 && kernel_stack.0
            * 0x3000 + 0x2000 <= 0xffff_ffff_ffff_f000 && elf::loadable(d)
            && user_space::image_fits(elf::segments_of(d), d, m)),
{
    assert(kernel_stack.ok() == (kernel_stack.0 * 0x3000 + 0x2000 <= 0xffff_ffff_ffff_f000));
}

/// A word stands for a number from -2^63 to 2^63 - 1, and each of them for a word.
pub proof fn law_signed_words(x: u64)
    ensures
        i64::MIN <= control::signed(x) <= i64::MAX,
        control::signed(x) == x || control::signed(x) == x - 0x1_0000_0000_0000_0000,
        control::word_of(control::signed(x)) == x,
{
}

/// The frame of the trap context is that of the page below the trampoline.
pub proof fn law_trap_frame(inner: &TaskControlBlockInner, m: MemData)
    requires
        inner.wf(m),
    ensures
        page_table::lookup(m, inner.memory_set.page_table.root(), 0x7ff_fffe) matches Some(e) && (e
            >> 10) & 0xfff_ffff_ffff == inner.trap_cx_ppn.0,
{
    let s = inner.memory_set;
    let k = choose|k: int| #[trigger] control::is_trap(s.infos(), k);
    access::law_same_access(s, m, s, m, k, 0x7ff_fffe, 0);
    s.page_table.lemma_wf(m);
    let e = page_table::lookup(m, s.page_table.root(), 0x7ff_fffe)->0;
    access::law_entry_page(e);
}

/// A program may read and write the pages that its heap got, and not execute them; they
/// are all zero.
pub proof fn law_heap_access(
    t0: &TaskControlBlock,
    m0: MemData,
    t1: &TaskControlBlock,
    m1: MemData,
    size: int,
    r: Option<u64>,
    k: int,
    v: int,
)
    requires
        control::brk_changed(t0, m0, t1, m1, size, r),
        r is Some,
        0 <= size,
        t0.inner.program_brk + size <= i64::MAX,
        0 <= k < t0.inner.memory_set.infos().len(),
        ({
            let infos = t0.inner.memory_set.infos();
            &&& infos[k].start == t0.inner.heap_bottom as int / 4096
            &&& forall|j: int| 0 <= j < k ==> (#[trigger] infos[j]).start != infos[k].start
            &&& infos[k].perm == 2 + 4 + 16
            &&& infos[k].framed
            &&& infos[k].start <= infos[k].end <= v
            &&& 4096 * v < t0.inner.program_brk + size
        }),
    ensures
        page_table::lookup(m1, t1.inner.memory_set.page_table.root(), v) matches Some(e) && {
            &&& e & 1 != 0
            &&& e & 2 != 0
            &&& e & 4 != 0
            &&& e & 8 == 0
            &&& e & 16 != 0
            &&& e & 0xe0 == 0
        },
        t1.inner.memory_set.page_bytes(m1, v) == Seq::new(4096, |i: int| 0u8),
{
    let s0 = t0.inner.memory_set;
    let s1 = t1.inner.memory_set;
    let bottom = t0.inner.heap_bottom as int;
    let brk = t0.inner.program_brk + size;
    places::law_area_at(s0.infos(), bottom / 4096, 0);
    assert(crate::mm::memory_set::appended_to(&s0, m0, &s1, m1, bottom, brk));
    places::law_appended_pages(s0, m0, s1, m1, bottom, brk, k, v);
    places::law_pages(brk);
    assert(s1.infos()[k].end == crate::mm::address::ceil_of(brk));
    access::law_area_access(s1, m1, k, true, true, false, true, v);
}

/// The process that gets the next turn has the smallest stride in the queue, and leaves
/// it; nobody gets a turn only where the queue is empty.
pub proof fn law_fetch(manager: &mut TaskManager, r: Option<TaskControlBlock>, j: int)
    requires
        call_ensures(manager::fetch_task, (manager,), r),
        forall|k: int|
            0 <= k < old(manager).priority_queue@.len() ==> (#[trigger] old(manager).priority_queue@[k]).inner.stride + old(manager).priority_queue@[k].inner.pass
                <= usize::MAX,
    ensures
        (r is None) == (old(manager).priority_queue@.len() == 0),
        r is Some ==> final(manager).priority_queue@.len() + 1 == old(manager).priority_queue@.len(),
        r is Some && 0 <= j < old(manager).priority_queue@.len() ==> r->0.inner.stride
            - r->0.inner.pass <= old(manager).priority_queue@[j].inner.stride,
        r is None ==> final(manager).priority_queue@ == old(manager).priority_queue@,
{
    if r is Some {
        let k = law_turn(old(manager).priority_queue@, final(manager).priority_queue@, r->0);
    }
}

} // verus!
