//! Task control blocks: making, copying and replacing processes.
use super::context;
use super::context::{
    app_init_context, write_words_at, KernelEnv, TaskContext, KERNEL_SP_WORD, TRAP_WORDS,
};
use crate::config::{BIG_STRIDE, KERNEL_STACK_SIZE, PAGE_SIZE, TRAMPOLINE, TRAP_CONTEXT_BASE};
use crate::easy_fs::bytes;
use crate::mm::address;
use crate::mm::address::{PhysPageNum, VirtAddr, VirtPageNum, PA_SPACE, VA_SPACE};
use crate::mm::admission::image_has_room;
use crate::mm::elf;
use crate::mm::elf::{is_loadable, parse_elf, ProgramHeader};
use crate::mm::frame_allocator::{MemData, PhysMemory};
use crate::mm::kernel_space;
use crate::mm::kernel_space::kernel_stack_position;
use crate::mm::laws;
use crate::mm::memory_set;
use crate::mm::memory_set::{AreaInfo, MemorySet};
use crate::mm::page_table;
use crate::mm::user_space;
use crate::mm::user_space::TRAP_CONTEXT_VPN;
use vstd::prelude::*;

verus! {

/// Task status.
#[derive(Clone, Copy, PartialEq, Eq, Structural, Debug)]
pub enum TaskStatus {
    /// Uninitialized.
    UnInit,
    /// Ready to run.
    Ready,
    /// Running.
    Running,
    /// Exited.
    Zombie,
}

/// A kernel stack, by its number.
#[derive(Clone, Copy, PartialEq, Eq, Structural, Debug)]
pub struct KernelStack(pub u64);

impl KernelStack {
    /// The stack lies in the address space.
    pub open spec fn ok(self) -> bool {
        self.0 * (KERNEL_STACK_SIZE + PAGE_SIZE) + KERNEL_STACK_SIZE <= TRAMPOLINE
    }

    /// The top of the stack.
    pub open spec fn top(self) -> int {
        TRAMPOLINE - self.0 * (KERNEL_STACK_SIZE + PAGE_SIZE)
    }

    /// The top of the stack.
    pub fn get_top(&self) -> (r: u64)
        requires
            self.ok(),
        ensures
            r == self.top(),
    {
        let (_bottom, top): (u64, u64) = kernel_stack_position(self.0);
        top
    }
}

/// What changes of a process while it runs.
pub struct TaskControlBlockInner {
    /// The frame of the trap context.
    pub trap_cx_ppn: PhysPageNum,
    /// Application data lies below this address.
    pub base_size: u64,
    /// The context of the task in the kernel.
    pub task_cx: TaskContext,
    /// The status.
    pub task_status: TaskStatus,
    /// The address space.
    pub memory_set: MemorySet,
    /// The parent process, by number.
    pub parent: Option<usize>,
    /// The child processes, by number.
    pub children: Vec<usize>,
    /// What the process returned.
    pub exit_code: i32,
    /// The bottom of the heap.
    pub heap_bottom: u64,
    /// The end of the heap.
    pub program_brk: u64,
    /// How far the process has come in the schedule.
    pub stride: usize,
    /// How far a turn takes it.
    pub pass: usize,
    /// The priority.
    pub priority: isize,
}

/// A process.
pub struct TaskControlBlock {
    /// The process number.
    pub pid: usize,
    /// The kernel stack.
    pub kernel_stack: KernelStack,
    /// What changes.
    pub inner: TaskControlBlockInner,
}

/// Area `k` is the trap context, one page of its own.
pub open spec fn is_trap(infos: Seq<AreaInfo>, k: int) -> bool {
    &&& 0 <= k < infos.len()
    &&& infos[k].start == TRAP_CONTEXT_VPN
    &&& infos[k].end == TRAP_CONTEXT_VPN + 1
    &&& infos[k].framed
}

/// The areas are those of a user program: all have frames of their own, one is
/// the trap context, and none is in the way of the trampoline.
pub open spec fn user_layout(infos: Seq<AreaInfo>) -> bool {
    &&& forall|k: int| 0 <= k < infos.len() ==> (#[trigger] infos[k]).framed
    &&& kernel_space::layout_ok(infos)
    &&& exists|k: int| #[trigger] is_trap(infos, k)
}

impl TaskControlBlockInner {
    /// The trap context is where it should be.
    pub open spec fn wf(&self, m: MemData) -> bool {
        &&& self.memory_set.wf(m)
        &&& user_layout(self.memory_set.infos())
        &&& self.trap_cx_ppn.0 == page_table::pte_ppn(
            self.memory_set.pages(m)[TRAP_CONTEXT_VPN as int],
        )
    }

    /// Word `i` of the trap context.
    pub open spec fn trap_word(&self, m: MemData, i: int) -> u64 {
        m.word(self.trap_cx_ppn.0 as int, i)
    }

    /// The token of the page table.
    pub open spec fn token(&self) -> u64 {
        page_table::token_of(self.memory_set.page_table.root())
    }

    /// The token of the page table.
    pub fn get_user_token(&self) -> (r: u64)
        ensures
            r == self.token(),
            self.memory_set.page_table.root() < address::PPN_SPACE ==> r
                == 0x8000_0000_0000_0000u64 + self.memory_set.page_table.root(),
            self.memory_set.page_table.root() < address::PPN_SPACE ==> r % address::PPN_SPACE
                == self.memory_set.page_table.root(),
    {
        self.memory_set.token()
    }

    fn get_status(&self) -> (r: TaskStatus)
        ensures
            r == self.task_status,
    {
        self.task_status
    }

    /// Whether the process has exited.
    pub fn is_zombie(&self) -> (r: bool)
        ensures
            r == (self.task_status == TaskStatus::Zombie),
    {
        self.get_status() == TaskStatus::Zombie
    }
}

/// The fields of a process that has not run yet.
pub open spec fn newborn(
    t: &TaskControlBlock,
    pid: usize,
    kernel_stack: KernelStack,
    parent: Option<usize>,
    env: KernelEnv,
) -> bool {
    &&& t.pid == pid
    &&& t.kernel_stack == kernel_stack
    &&& t.inner.task_cx.returning(kernel_stack.top() as u64, env.trap_return)
    &&& t.inner.task_status == TaskStatus::Ready
    &&& t.inner.parent == parent
    &&& t.inner.children@ == Seq::<usize>::empty()
    &&& t.inner.exit_code == 0
    &&& t.inner.stride == 0
    &&& t.inner.pass == BIG_STRIDE / 16
    &&& t.inner.priority == 16
}

/// The address space of a program that is about to start: its areas with their
/// bytes, and in its trap context the entry point and the stack.
pub open spec fn program_loaded(
    inner: &TaskControlBlockInner,
    m: MemData,
    d: Seq<u8>,
    kernel_stack: KernelStack,
    env: KernelEnv,
) -> bool {
    let segments = elf::segments_of(d);
    let n = segments.len() as int;
    &&& inner.wf(m)
    &&& kernel_space::built(
        &inner.memory_set,
        m,
        env.strampoline as int % PA_SPACE as int / 4096,
        user_space::image_infos(segments),
        user_space::image_data(segments, d).update(
            n + 2,
            inner.memory_set.page_bytes(m, TRAP_CONTEXT_VPN as int),
        ),
    )
    &&& forall|i: int|
        0 <= i < 512 ==> #[trigger] inner.trap_word(m, i) == if i < 37 {
            context::app_words(
                elf::header_of(d).entry_point,
                user_space::stack_top(segments) as u64,
                kernel_stack.top() as u64,
                env,
            )[i]
        } else {
            0
        }
    &&& inner.base_size == user_space::stack_top(segments)
}

/// The frames that a program takes.
pub open spec fn program_cost(d: Seq<u8>) -> int {
    kernel_space::space_cost(user_space::image_infos(elf::segments_of(d)))
}

/// A program can be loaded.
pub open spec fn can_load(d: Seq<u8>, m: MemData, kernel_stack: KernelStack, env: KernelEnv) -> bool {
    &&& env.strampoline % PAGE_SIZE == 0
    &&& kernel_stack.ok()
    &&& elf::loadable(d)
    &&& user_space::image_fits(elf::segments_of(d), d, m)
}

/// Whether a program can be loaded.
pub fn can_start(
    elf_data: &[u8],
    kernel_stack: KernelStack,
    env: &KernelEnv,
    mem: &PhysMemory,
) -> (r: bool)
    requires
        mem.wf(),
    ensures
        r == can_load(elf_data@, mem@, kernel_stack, *env),
{
    let each: u64 = KERNEL_STACK_SIZE + PAGE_SIZE;
    let last: u64 = (TRAMPOLINE - KERNEL_STACK_SIZE) / each;
    assert(kernel_stack.ok() == (kernel_stack.0 <= last)) by {
        assert(each == 0x3000);
        assert(kernel_stack.0 * each == kernel_stack.0 * 0x3000);
    }
    if env.strampoline % PAGE_SIZE != 0 || kernel_stack.0 > last || !is_loadable(elf_data) {
        return false;
    }
    image_has_room(&parse_elf(elf_data), elf_data, mem)
}

/// Writing to the only page of an area of an address space that was just built.
proof fn lemma_built_written(
    s: MemorySet,
    m0: MemData,
    m1: MemData,
    trampoline: int,
    infos: Seq<AreaInfo>,
    data: Seq<Seq<u8>>,
    k: int,
)
    requires
        kernel_space::built(&s, m0, trampoline, infos, data),
        data.len() == infos.len(),
        kernel_space::layout_ok(infos),
        0 <= k < infos.len(),
        infos[k].framed,
        infos[k].end == infos[k].start + 1,
        m1.wf(),
        m1.used == m0.used,
        m1.pages.dom() == m0.pages.dom(),
        forall|p: int|
            p != page_table::pte_ppn(s.pages(m0)[infos[k].start]) ==> #[trigger] m1.pages[p]
                == m0.pages[p],
    ensures
        kernel_space::built(
            &s,
            m1,
            trampoline,
            infos,
            data.update(k, s.page_bytes(m1, infos[k].start)),
        ),
        s.pages(m1) == s.pages(m0),
        s.owns(page_table::pte_ppn(s.pages(m0)[infos[k].start])),
        m0.used.contains(page_table::pte_ppn(s.pages(m0)[infos[k].start])),
{
    let v0 = infos[k].start;
    let b = s.page_bytes(m1, v0);
    let data1 = data.update(k, b);
    assert(s.infos().len() == s.areas@.len());
    user_space::lemma_page_written(s, m0, m1, k, v0);
    assert(m0.pages.contains_key(page_table::pte_ppn(s.pages(m0)[v0]))) by {
        s.page_table.lemma_wf(m0);
    }
    assert(m1.pages.contains_key(page_table::pte_ppn(s.pages(m0)[v0]))) by {
        assert(m1.pages.dom().contains(page_table::pte_ppn(s.pages(m0)[v0])));
    }
    assert(b.len() == 4096);
    assert forall|l: int| 0 <= l < infos.len() implies kernel_space::area_in(
        &s,
        m1,
        #[trigger] infos[l],
        data1[l],
    ) by {
        let i = infos[l];
        assert(kernel_space::area_in(&s, m0, infos[l], data[l]));
        assert forall|v: int| i.start <= v < i.end implies (#[trigger] s.pages(m1)[v])
            == page_table::pte(
            if i.framed {
                page_table::pte_ppn(s.pages(m1)[v])
            } else {
                v
            },
            page_table::with_valid(i.perm),
        ) by {
            assert(s.pages(m0)[v] == s.pages(m1)[v]);
        }
        if i.framed {
            assert forall|v: int| i.start <= v < i.end implies (#[trigger] s.page_bytes(m1, v))
                == bytes::splice(
                bytes::zeros(4096),
                0,
                memory_set::chunk(data1[l], v - i.start),
            ) by {
                if l == k {
                    assert(v == v0);
                    assert(memory_set::chunk(b, 0) =~= b);
                    assert(b =~= bytes::splice(bytes::zeros(4096), 0, memory_set::chunk(b, 0)));
                } else {
                    if v == v0 {
                        assert(kernel_space::in_areas(infos, v));
                        assert(infos[k].start <= v < infos[k].end);
                    }
                    assert(s.infos()[l] == i);
                    assert(s.page_bytes(m1, v) == s.page_bytes(m0, v));
                }
            }
        }
    }
}

/// The last area of a program is its trap context.
proof fn lemma_image_trap(segments: Seq<ProgramHeader>)
    requires
        kernel_space::layout_ok(user_space::image_infos(segments)),
    ensures
        is_trap(user_space::image_infos(segments), segments.len() as int + 2),
        user_layout(user_space::image_infos(segments)),
{
    let infos = user_space::image_infos(segments);
    let n = segments.len() as int;
    assert(infos[n + 2] == user_space::user_info(TRAP_CONTEXT_BASE as int, TRAMPOLINE as int, 0x06));
    assert(TRAP_CONTEXT_BASE as int % VA_SPACE as int == 0x7f_ffff_e000);
    assert(TRAMPOLINE as int % VA_SPACE as int == 0x7f_ffff_f000);
    assert(is_trap(infos, n + 2));
}

/// The trap page of a user program.
proof fn lemma_trap_page(s: MemorySet, m: MemData)
    requires
        s.wf(m),
        user_layout(s.infos()),
    ensures
        s.pages(m).contains_key(TRAP_CONTEXT_VPN as int),
        page_table::lookup(m, s.page_table.root(), TRAP_CONTEXT_VPN as int) == Some(
            s.pages(m)[TRAP_CONTEXT_VPN as int],
        ),
        page_table::walkable(m, s.page_table.root()),
        m.pages.contains_key(page_table::pte_ppn(s.pages(m)[TRAP_CONTEXT_VPN as int])),
        0 <= page_table::pte_ppn(s.pages(m)[TRAP_CONTEXT_VPN as int]) < address::PPN_SPACE,
{
    let k = choose|k: int| #[trigger] is_trap(s.infos(), k);
    assert(s.infos().len() == s.areas@.len());
    s.page_table.lemma_wf(m);
    user_space::lemma_page_written(s, m, m, k, TRAP_CONTEXT_VPN as int);
    assert(s.page_table.pages(m).contains_key(TRAP_CONTEXT_VPN as int));
}

/// The frame of the trap context.
fn find_trap_cx(memory_set: &MemorySet, mem: &PhysMemory) -> (r: PhysPageNum)
    requires
        mem.wf(),
        memory_set.wf(mem@),
        user_layout(memory_set.infos()),
    ensures
        r.0 == page_table::pte_ppn(memory_set.pages(mem@)[TRAP_CONTEXT_VPN as int]),
        mem@.pages.contains_key(r.0 as int),
{
    let vpn: VirtPageNum = VirtAddr::new(TRAP_CONTEXT_BASE).floor();
    proof {
        lemma_trap_page(*memory_set, mem@);
        assert(vpn.0 == TRAP_CONTEXT_VPN);
    }
    memory_set.translate(mem, vpn).unwrap().ppn()
}

/// Loads a program: gives its address space, the frame of its trap context, which
/// is filled, and the top of its stack.
fn load_program(elf_data: &[u8], kernel_stack: KernelStack, env: &KernelEnv, mem: &mut PhysMemory) -> (r:
    (MemorySet, PhysPageNum, u64))
    requires
        old(mem).wf(),
        can_load(elf_data@, old(mem)@, kernel_stack, *env),
    ensures
        final(mem).wf(),
        final(mem).first() == old(mem).first(),
        kernel_space::fresh(&r.0, old(mem)@, final(mem)@),
        final(mem)@.free().len() == old(mem)@.free().len() - program_cost(elf_data@),
        ({
            let segments = elf::segments_of(elf_data@);
            let n = segments.len() as int;
            let m = final(mem)@;
            &&& kernel_space::built(
                &r.0,
                m,
                env.strampoline as int % PA_SPACE as int / 4096,
                user_space::image_infos(segments),
                user_space::image_data(segments, elf_data@).update(
                    n + 2,
                    r.0.page_bytes(m, TRAP_CONTEXT_VPN as int),
                ),
            )
            &&& user_layout(r.0.infos())
            &&& r.1.0 == page_table::pte_ppn(r.0.pages(m)[TRAP_CONTEXT_VPN as int])
            &&& r.2 == user_space::stack_top(segments)
            &&& forall|i: int|
                0 <= i < 512 ==> #[trigger] m.word(r.1.0 as int, i) == if i < 37 {
                    context::app_words(
                        elf::header_of(elf_data@).entry_point,
                        user_space::stack_top(segments) as u64,
                        kernel_stack.top() as u64,
                        *env,
                    )[i]
                } else {
                    0
                }
        }),
{
    let ghost m0 = mem@;
    let ghost segments = elf::segments_of(elf_data@);
    let ghost n = segments.len() as int;
    let ghost infos = user_space::image_infos(segments);
    let ghost data = user_space::image_data(segments, elf_data@);
    let ghost trampoline = env.strampoline as int % PA_SPACE as int / 4096;
    let (memory_set, user_sp, entry_point): (MemorySet, u64, u64) = MemorySet::from_elf(
        elf_data,
        env.strampoline,
        mem,
    );
    let ghost m1 = mem@;
    proof {
        lemma_image_trap(segments);
    }
    let trap_cx_ppn: PhysPageNum = find_trap_cx(&memory_set, mem);
    let words: Vec<u64> = app_init_context(entry_point, user_sp, kernel_stack.get_top(), env);
    write_words_at(trap_cx_ppn, &words, mem);
    proof {
        let ppn = trap_cx_ppn.0 as int;
        mem.lemma_wf();
        assert(m1.wf()) by {
            memory_set.page_table.lemma_wf(m1);
        }
        context::lemma_words_written(m1, ppn, words@, 37);
        assert(mem@.free() =~= m1.free());
        m1.lemma_takes_none(mem@);
        m0.lemma_takes_trans(m1, mem@);
        lemma_built_written(memory_set, m1, mem@, trampoline, infos, data, n + 2);
        assert forall|i: int| 0 <= i < 512 implies #[trigger] m1.word(ppn, i) == 0 by {
            let page = memory_set.page_bytes(m1, TRAP_CONTEXT_VPN as int);
            assert(kernel_space::area_in(&memory_set, m1, infos[n + 2], data[n + 2]));
            assert(page == bytes::splice(
                bytes::zeros(4096),
                0,
                memory_set::chunk(Seq::<u8>::empty(), 0),
            ));
            assert(page =~= bytes::zeros(4096));
            bytes::lemma_zero_long(page, 8 * i);
        }
        assert forall|p: int| #[trigger] m0.used.contains(p) implies mem@.pages[p] == m0.pages[p] by {
            assert(m0.free().contains(ppn));
        }
    }
    (memory_set, trap_cx_ppn, user_sp)
}

/// The address space of a child: the pages of its parent with their bytes, in
/// frames of their own. The trap context is told apart.
pub open spec fn copy_of(
    s: &MemorySet,
    m1: MemData,
    parent: &MemorySet,
    m0: MemData,
    trampoline: int,
) -> bool {
    &&& s.wf(m1)
    &&& s.infos() == parent.infos()
    &&& forall|v: int| #[trigger]
        s.pages(m1).contains_key(v) == (v == kernel_space::TRAMPOLINE_VPN
            || kernel_space::in_areas(parent.infos(), v))
    &&& s.pages(m1)[kernel_space::TRAMPOLINE_VPN as int] == kernel_space::trampoline_entry(
        trampoline,
    )
    &&& forall|k: int, v: int|
        #![trigger parent.infos()[k], s.page_bytes(m1, v)]
        0 <= k < parent.infos().len() && parent.infos()[k].start <= v < parent.infos()[k].end
            && v != TRAP_CONTEXT_VPN ==> s.page_bytes(m1, v) == parent.page_bytes(m0, v)
}

/// How far a word is from zero, either way.
pub open spec fn signed(x: u64) -> int {
    if x < 0x8000_0000_0000_0000 {
        x as int
    } else {
        x - 0x1_0000_0000_0000_0000
    }
}

/// The word for a number.
pub open spec fn word_of(x: int) -> int {
    if x >= 0 {
        x
    } else {
        x + 0x1_0000_0000_0000_0000
    }
}

/// How far a word is from zero, either way.
pub(crate) fn to_signed(x: u64) -> (r: i128)
    ensures
        r == signed(x),
{
    if x < 0x8000_0000_0000_0000 {
        x as i128
    } else {
        x as i128 - 0x1_0000_0000_0000_0000
    }
}

/// The word for a number.
fn to_word(x: i128) -> (r: u64)
    requires
        i64::MIN <= x <= i64::MAX,
    ensures
        r == word_of(x as int),
{
    if x >= 0 {
        x as u64
    } else {
        (x + 0x1_0000_0000_0000_0000) as u64
    }
}

/// Where the heap would end.
pub open spec fn new_brk(inner: &TaskControlBlockInner, size: int) -> int {
    signed(inner.program_brk) + size
}

impl TaskControlBlock {
    /// Makes a process out of an ELF file. Only the first process is made in this
    /// way.
    pub fn new(
        elf_data: &[u8],
        pid: usize,
        kernel_stack: KernelStack,
        env: &KernelEnv,
        mem: &mut PhysMemory,
    ) -> (r: Self)
        requires
            old(mem).wf(),
            can_load(elf_data@, old(mem)@, kernel_stack, *env),
        ensures
            final(mem).wf(),
            final(mem).first() == old(mem).first(),
            kernel_space::fresh(&r.inner.memory_set, old(mem)@, final(mem)@),
            final(mem)@.free().len() == old(mem)@.free().len() - program_cost(elf_data@),
            r.inner.memory_set.frames().len() == program_cost(elf_data@),
            newborn(&r, pid, kernel_stack, None, *env),
            program_loaded(&r.inner, final(mem)@, elf_data@, kernel_stack, *env),
            r.inner.heap_bottom == r.inner.base_size,
            r.inner.program_brk == r.inner.base_size,
    {
        let ghost m0 = mem@;
        proof {
            mem.lemma_wf();
        }
        let (memory_set, trap_cx_ppn, user_sp): (MemorySet, PhysPageNum, u64) = load_program(
            elf_data,
            kernel_stack,
            env,
            mem,
        );
        let kernel_stack_top: u64 = kernel_stack.get_top();
        proof {
            laws::law_fresh_frames(&memory_set, m0, mem@);
        }
        TaskControlBlock {
            pid,
            kernel_stack,
            inner: TaskControlBlockInner {
                trap_cx_ppn,
                base_size: user_sp,
                task_cx: TaskContext::goto_trap_return(kernel_stack_top, env.trap_return),
                task_status: TaskStatus::Ready,
                memory_set,
                parent: None,
                children: Vec::new(),
                exit_code: 0,
                heap_bottom: user_sp,
                program_brk: user_sp,
                stride: 0,
                pass: BIG_STRIDE / 16,
                priority: 16,
            },
        }
    }

    /// Replaces the program of the process by that of an ELF file. The frames of
    /// the old address space are given back.
    pub fn exec(&mut self, elf_data: &[u8], env: &KernelEnv, mem: &mut PhysMemory)
        requires
            old(mem).wf(),
            old(self).inner.memory_set.wf(old(mem)@),
            can_load(elf_data@, old(mem)@, old(self).kernel_stack, *env),
        ensures
            final(mem).wf(),
            final(mem).first() == old(mem).first(),
            program_loaded(
                &final(self).inner,
                final(mem)@,
                elf_data@,
                old(self).kernel_stack,
                *env,
            ),
            replaced(
                &old(self).inner.memory_set,
                old(mem)@,
                &final(self).inner.memory_set,
                final(mem)@,
            ),
            final(mem)@.free().len() == old(mem)@.free().len() + old(
                self,
            ).inner.memory_set.frames().len() - program_cost(elf_data@),
            final(self).inner.memory_set.frames().len() == program_cost(elf_data@),
            *final(self) == (TaskControlBlock {
                inner: TaskControlBlockInner {
                    memory_set: final(self).inner.memory_set,
                    trap_cx_ppn: final(self).inner.trap_cx_ppn,
                    base_size: final(self).inner.base_size,
                    ..old(self).inner
                },
                ..*old(self)
            }),
    {
        let ghost s0 = self.inner.memory_set;
        let ghost m0 = mem@;
        proof {
            mem.lemma_wf();
        }
        let (memory_set, trap_cx_ppn, user_sp): (MemorySet, PhysPageNum, u64) = load_program(
            elf_data,
            self.kernel_stack,
            env,
            mem,
        );
        let ghost s1 = memory_set;
        let ghost m1 = mem@;
        let mut old_set = memory_set;
        core::mem::swap(&mut self.inner.memory_set, &mut old_set);
        self.inner.trap_cx_ppn = trap_cx_ppn;
        self.inner.base_size = user_sp;
        proof {
            mem.lemma_wf();
            laws::law_build_isolated(s0, s1, m0, m1);
            laws::law_fresh_frames(&s1, m0, m1);
        }
        old_set.recycle(mem);
        proof {
            let m2 = mem@;
            mem.lemma_wf();
            assert forall|p: int| #[trigger] s1.owns(p) implies m2.used.contains(p) && m2.pages[p]
                == m1.pages[p] by {
                assert(!s0.owns(p)) by {
                    if s0.owns(p) {
                        assert(!s1.owns(p));
                    }
                }
                assert(m1.used.contains(p));
                assert(m1.pages.contains_key(p)) by {
                    s1.page_table.lemma_wf(m1);
                }
            }
            laws::law_own_frames(s1, m1, m2);
            lemma_loaded_kept(self.inner, m1, m2, elf_data@, self.kernel_stack, *env);
            assert(replaced(&s0, m0, &s1, m2)) by {
                assert forall|p: int, q: int|
                    #[trigger] s1.owns(p) && #[trigger] m0.free().contains(q) && q
                        < p implies s1.owns(q) by {
                    laws::law_fresh_lowest(&s1, m0, m1, p, q);
                }
                assert forall|p: int| #[trigger]
                    m0.used.contains(p) && !s0.owns(p) implies m2.pages[p] == m0.pages[p] by {
                    assert(m1.used.contains(p));
                    assert(m1.pages.contains_key(p)) by {
                        s1.page_table.lemma_wf(m1);
                    }
                }
                assert forall|p: int| #[trigger] m2.used.contains(p) == ((m0.used.contains(p)
                    && !s0.owns(p)) || s1.owns(p)) by {
                    if s0.owns(p) {
                        assert(!s1.owns(p));
                    }
                }
            }
        }
    }

    /// Makes a copy of the process: the child has the same memory, apart from the
    /// kernel stack pointer in its trap context.
    pub fn fork(
        &mut self,
        pid: usize,
        kernel_stack: KernelStack,
        env: &KernelEnv,
        mem: &mut PhysMemory,
    ) -> (r: TaskControlBlock)
        requires
            old(mem).wf(),
            old(self).inner.wf(old(mem)@),
            env.strampoline % PAGE_SIZE == 0,
            kernel_stack.ok(),
            kernel_space::space_cost(old(self).inner.memory_set.infos()) <= old(
                mem,
            )@.free().len(),
        ensures
            final(mem).wf(),
            final(mem).first() == old(mem).first(),
            kernel_space::fresh(&r.inner.memory_set, old(mem)@, final(mem)@),
            final(mem)@.free().len() == old(mem)@.free().len() - kernel_space::space_cost(
                old(self).inner.memory_set.infos(),
            ),
            r.inner.memory_set.frames().len() == kernel_space::space_cost(
                old(self).inner.memory_set.infos(),
            ),
            newborn(&r, pid, kernel_stack, Some(old(self).pid), *env),
            forked(&r, final(mem)@, old(self), old(mem)@, *env),
            forall|i: int|
                0 <= i < 512 ==> #[trigger] r.inner.trap_word(final(mem)@, i) == if i
                    == KERNEL_SP_WORD {
                    kernel_stack.top() as u64
                } else {
                    old(self).inner.trap_word(old(mem)@, i)
                },
            final(self).inner.children@ == old(self).inner.children@.push(pid),
            *final(self) == (TaskControlBlock {
                inner: TaskControlBlockInner {
                    children: final(self).inner.children,
                    ..old(self).inner
                },
                ..*old(self)
            }),
            final(self).inner.wf(final(mem)@),
    {
        let ghost m0 = mem@;
        proof {
            mem.lemma_wf();
        }
        let ghost s0 = self.inner.memory_set;
        let ghost trampoline = env.strampoline as int % PA_SPACE as int / 4096;
        let memory_set = MemorySet::from_existed_user(&self.inner.memory_set, env.strampoline, mem);
        let ghost m1 = mem@;
        let trap_cx_ppn: PhysPageNum = find_trap_cx(&memory_set, mem);
        let kernel_stack_top: u64 = kernel_stack.get_top();
        let child = TaskControlBlock {
            pid,
            kernel_stack,
            inner: TaskControlBlockInner {
                trap_cx_ppn,
                base_size: self.inner.base_size,
                task_cx: TaskContext::goto_trap_return(kernel_stack_top, env.trap_return),
                task_status: TaskStatus::Ready,
                memory_set,
                parent: Some(self.pid),
                children: Vec::new(),
                exit_code: 0,
                heap_bottom: self.inner.heap_bottom,
                program_brk: self.inner.program_brk,
                stride: 0,
                pass: BIG_STRIDE / 16,
                priority: 16,
            },
        };
        self.inner.children.push(pid);
        proof {
            mem.lemma_wf();
            let k = choose|k: int| #[trigger] is_trap(s0.infos(), k);
            user_space::lemma_copy_pages(
                memory_set,
                m1,
                s0,
                m0,
                trampoline,
                k,
                TRAP_CONTEXT_VPN as int,
            );
            assert(copy_of(&memory_set, m1, &s0, m0, trampoline)) by {
                assert forall|l: int, v: int|
                    #![trigger s0.infos()[l], memory_set.page_bytes(m1, v)]
                    0 <= l < s0.infos().len() && s0.infos()[l].start <= v < s0.infos()[l].end && v
                        != TRAP_CONTEXT_VPN implies memory_set.page_bytes(m1, v) == s0.page_bytes(
                    m0,
                    v,
                ) by {
                    user_space::lemma_copy_pages(memory_set, m1, s0, m0, trampoline, l, v);
                }
            }
        }
        child.inner.set_trap_word(KERNEL_SP_WORD, kernel_stack_top, mem);
        proof {
            let m2 = mem@;
            mem.lemma_wf();
            lemma_trap_written(child.inner, m1, m2, KERNEL_SP_WORD as int, kernel_stack_top);
            assert(copy_of(&memory_set, m2, &s0, m0, trampoline)) by {
                assert forall|l: int, v: int|
                    #![trigger s0.infos()[l], memory_set.page_bytes(m2, v)]
                    0 <= l < s0.infos().len() && s0.infos()[l].start <= v < s0.infos()[l].end && v
                        != TRAP_CONTEXT_VPN implies memory_set.page_bytes(m2, v) == s0.page_bytes(
                    m0,
                    v,
                ) by {
                    assert(memory_set.infos()[l] == s0.infos()[l]);
                    assert(memory_set.page_bytes(m2, v) == memory_set.page_bytes(m1, v));
                    assert(memory_set.page_bytes(m1, v) == s0.page_bytes(m0, v));
                }
            }
            assert forall|i: int| 0 <= i < 512 implies #[trigger] m1.word(trap_cx_ppn.0 as int, i)
                == self.inner.trap_word(m0, i) by {}
            assert forall|p: int| #[trigger] m0.used.contains(p) implies m2.pages[p] == m0.pages[p] by {
                assert(memory_set.owns(trap_cx_ppn.0 as int));
                assert(m0.free().contains(trap_cx_ppn.0 as int));
            }
            m1.lemma_takes_none(m2);
            m0.lemma_takes_trans(m1, m2);
            assert(kernel_space::fresh(&memory_set, m0, m2));
            assert(m2.free() =~= m1.free());
            laws::law_fresh_frames(&memory_set, m0, m2);
            laws::law_build_isolated(s0, memory_set, m0, m2);
        }
        child
    }

    /// Makes a child process out of an ELF file.
    pub fn spawn(
        &mut self,
        elf_data: &[u8],
        pid: usize,
        kernel_stack: KernelStack,
        env: &KernelEnv,
        mem: &mut PhysMemory,
    ) -> (r: TaskControlBlock)
        requires
            old(mem).wf(),
            can_load(elf_data@, old(mem)@, kernel_stack, *env),
        ensures
            final(mem).wf(),
            final(mem).first() == old(mem).first(),
            kernel_space::fresh(&r.inner.memory_set, old(mem)@, final(mem)@),
            final(mem)@.free().len() == old(mem)@.free().len() - program_cost(elf_data@),
            r.inner.memory_set.frames().len() == program_cost(elf_data@),
            newborn(&r, pid, kernel_stack, Some(old(self).pid), *env),
            program_loaded(&r.inner, final(mem)@, elf_data@, kernel_stack, *env),
            r.inner.heap_bottom == r.inner.base_size,
            r.inner.program_brk == r.inner.base_size,
            final(self).inner.children@ == old(self).inner.children@.push(pid),
            *final(self) == (TaskControlBlock {
                inner: TaskControlBlockInner {
                    children: final(self).inner.children,
                    ..old(self).inner
                },
                ..*old(self)
            }),
    {
        let mut child = TaskControlBlock::new(elf_data, pid, kernel_stack, env, mem);
        let ghost born = child.inner;
        child.inner.parent = Some(self.pid);
        assert forall|i: int| 0 <= i < 512 implies #[trigger] child.inner.trap_word(mem@, i)
            == born.trap_word(mem@, i) by {}
        self.inner.children.push(pid);
        child
    }

    /// The number of the process.
    pub fn getpid(&self) -> (r: usize)
        ensures
            r == self.pid,
    {
        self.pid
    }

    /// The token of the page table.
    pub fn get_user_token(&self) -> (r: u64)
        ensures
            r == self.inner.token(),
            self.inner.memory_set.page_table.root() < address::PPN_SPACE ==> r
                == 0x8000_0000_0000_0000u64 + self.inner.memory_set.page_table.root(),
            self.inner.memory_set.page_table.root() < address::PPN_SPACE ==> r % address::PPN_SPACE
                == self.inner.memory_set.page_table.root(),
    {
        self.inner.get_user_token()
    }

    /// Moves the end of the heap by `size` bytes and gives the old one. `None` if
    /// it would lie below the bottom of the heap, or there is no heap.
    pub fn change_program_brk(&mut self, size: i32, mem: &mut PhysMemory) -> (r: Option<u64>)
        requires
            old(mem).wf(),
            old(self).inner.memory_set.wf(old(mem)@),
            can_change_brk(&old(self).inner, old(mem)@, size as int),
        ensures
            final(mem).wf(),
            final(mem).first() == old(mem).first(),
            brk_changed(old(self), old(mem)@, final(self), final(mem)@, size as int, r),
    {
        let heap_bottom: u64 = self.inner.heap_bottom;
        let old_break: u64 = self.inner.program_brk;
        let brk: i128 = to_signed(old_break) + size as i128;
        if brk < to_signed(heap_bottom) {
            return None;
        }
        let end: u64 = to_word(brk);
        let result: bool = if size < 0 {
            self.inner.memory_set.shrink_to(VirtAddr(heap_bottom), VirtAddr(end), mem)
        } else {
            self.inner.memory_set.append_to(VirtAddr(heap_bottom), VirtAddr(end), mem)
        };
        if result {
            self.inner.program_brk = end;
            Some(old_break)
        } else {
            None
        }
    }
}

/// The end of the heap can be moved by `size` bytes, if it is to be.
pub open spec fn can_change_brk(inner: &TaskControlBlockInner, m: MemData, size: int) -> bool {
    let brk = new_brk(inner, size);
    &&& i64::MIN <= brk <= i64::MAX
    &&& brk >= signed(inner.heap_bottom) ==> if size < 0 {
        memory_set::can_shrink(&inner.memory_set, inner.heap_bottom as int, word_of(brk))
    } else {
        memory_set::can_append_to(&inner.memory_set, m, inner.heap_bottom as int, word_of(brk))
    }
}

/// What moving the end of the heap by `size` bytes does.
pub open spec fn brk_changed(
    t0: &TaskControlBlock,
    m0: MemData,
    t1: &TaskControlBlock,
    m1: MemData,
    size: int,
    r: Option<u64>,
) -> bool {
    let inner = t0.inner;
    let brk = new_brk(&inner, size);
    let heap = memory_set::area_at(
        inner.memory_set.infos(),
        address::floor_of(inner.heap_bottom as int),
        0,
    );
    if brk >= signed(inner.heap_bottom) && heap is Some {
        &&& r == Some(inner.program_brk)
        &&& t1.inner.program_brk == word_of(brk)
        &&& *t1 == (TaskControlBlock {
            inner: TaskControlBlockInner {
                program_brk: t1.inner.program_brk,
                memory_set: t1.inner.memory_set,
                ..inner
            },
            ..*t0
        })
        &&& if size < 0 {
            memory_set::shrunk_to(
                &inner.memory_set,
                m0,
                &t1.inner.memory_set,
                m1,
                inner.heap_bottom as int,
                word_of(brk),
            )
        } else {
            memory_set::appended_to(
                &inner.memory_set,
                m0,
                &t1.inner.memory_set,
                m1,
                inner.heap_bottom as int,
                word_of(brk),
            )
        }
    } else {
        r is None && *t1 == *t0 && m1 == m0
    }
}

/// One address space was given back, and another one was built in the first frames
/// that were free; the frames of all others are as before.
pub open spec fn replaced(s0: &MemorySet, m0: MemData, s1: &MemorySet, m1: MemData) -> bool {
    &&& m1.pages.dom() == m0.pages.dom()
    &&& forall|p: int| #[trigger]
        m0.used.contains(p) && !s0.owns(p) ==> m1.pages[p] == m0.pages[p]
    &&& forall|p: int| #[trigger] s1.owns(p) ==> m0.free().contains(p)
    &&& forall|p: int, q: int|
        #[trigger] s1.owns(p) && #[trigger] m0.free().contains(q) && q < p ==> s1.owns(q)
    &&& forall|p: int| #[trigger]
        m1.used.contains(p) == ((m0.used.contains(p) && !s0.owns(p)) || s1.owns(p))
}

/// The child has the memory of its parent and the same heap.
pub open spec fn forked(
    t: &TaskControlBlock,
    m1: MemData,
    parent: &TaskControlBlock,
    m0: MemData,
    env: KernelEnv,
) -> bool {
    &&& t.inner.wf(m1)
    &&& copy_of(
        &t.inner.memory_set,
        m1,
        &parent.inner.memory_set,
        m0,
        env.strampoline as int % PA_SPACE as int / 4096,
    )
    &&& t.inner.base_size == parent.inner.base_size
    &&& t.inner.heap_bottom == parent.inner.heap_bottom
    &&& t.inner.program_brk == parent.inner.program_brk
}

/// What was loaded stays where the frames of the address space do.
proof fn lemma_loaded_kept(
    inner: TaskControlBlockInner,
    m0: MemData,
    m1: MemData,
    d: Seq<u8>,
    kernel_stack: KernelStack,
    env: KernelEnv,
)
    requires
        program_loaded(&inner, m0, d, kernel_stack, env),
        laws::unchanged(&inner.memory_set, m0, m1),
    ensures
        program_loaded(&inner, m1, d, kernel_stack, env),
{
    let s = inner.memory_set;
    let segments = elf::segments_of(d);
    let infos = user_space::image_infos(segments);
    let n = segments.len() as int;
    let k = choose|k: int| #[trigger] is_trap(s.infos(), k);
    assert(s.infos()[k] == infos[k]);
    assert(s.page_bytes(m1, TRAP_CONTEXT_VPN as int) == s.page_bytes(m0, TRAP_CONTEXT_VPN as int));
    let data = user_space::image_data(segments, d).update(
        n + 2,
        s.page_bytes(m0, TRAP_CONTEXT_VPN as int),
    );
    assert forall|l: int| 0 <= l < infos.len() implies kernel_space::area_in(
        &s,
        m1,
        #[trigger] infos[l],
        data[l],
    ) by {
        let i = infos[l];
        assert(kernel_space::area_in(&s, m0, infos[l], data[l]));
        assert forall|v: int| i.start <= v < i.end implies (#[trigger] s.pages(m1)[v])
            == page_table::pte(
            if i.framed {
                page_table::pte_ppn(s.pages(m1)[v])
            } else {
                v
            },
            page_table::with_valid(i.perm),
        ) by {
            assert(s.pages(m0)[v] == s.pages(m1)[v]);
        }
        if i.framed {
            assert forall|v: int| i.start <= v < i.end implies (#[trigger] s.page_bytes(m1, v))
                == bytes::splice(
                bytes::zeros(4096),
                0,
                memory_set::chunk(data[l], v - i.start),
            ) by {
                assert(s.infos()[l] == i);
                assert(s.page_bytes(m1, v) == s.page_bytes(m0, v));
            }
        }
    }
    assert forall|i: int| 0 <= i < 512 implies #[trigger] inner.trap_word(m1, i)
        == inner.trap_word(m0, i) by {}
}

/// Writing a word of the trap context changes that word and nothing else of the
/// address space.
pub proof fn lemma_trap_written(
    inner: TaskControlBlockInner,
    m0: MemData,
    m1: MemData,
    i: int,
    x: u64,
)
    requires
        inner.wf(m0),
        m1.wf(),
        0 <= i < 512,
        m1 == m0.with_word(inner.trap_cx_ppn.0 as int, i, x),
    ensures
        inner.wf(m1),
        inner.memory_set.pages(m1) == inner.memory_set.pages(m0),
        inner.memory_set.owns(inner.trap_cx_ppn.0 as int),
        m0.used.contains(inner.trap_cx_ppn.0 as int),
        m1.pages.dom() == m0.pages.dom(),
        forall|p: int| p != inner.trap_cx_ppn.0 ==> #[trigger] m1.pages[p] == m0.pages[p],
        forall|j: int|
            0 <= j < 512 ==> #[trigger] inner.trap_word(m1, j) == if j == i {
                x
            } else {
                inner.trap_word(m0, j)
            },
        forall|k: int, v: int|
            #![trigger inner.memory_set.infos()[k], inner.memory_set.page_bytes(m1, v)]
            0 <= k < inner.memory_set.infos().len() && inner.memory_set.infos()[k].start <= v
                < inner.memory_set.infos()[k].end && v != TRAP_CONTEXT_VPN
                ==> inner.memory_set.page_bytes(m1, v) == inner.memory_set.page_bytes(m0, v),
{
    let s = inner.memory_set;
    let ppn = inner.trap_cx_ppn.0 as int;
    let k = choose|k: int| #[trigger] is_trap(s.infos(), k);
    assert(s.infos().len() == s.areas@.len());
    lemma_trap_page(s, m0);
    s.page_table.lemma_wf(m0);
    m0.lemma_with_word(ppn, i, x);
    assert(m1.pages.dom() =~= m0.pages.dom());
    user_space::lemma_page_written(s, m0, m1, k, TRAP_CONTEXT_VPN as int);
    assert forall|l: int, v: int|
        #![trigger s.infos()[l], s.page_bytes(m1, v)]
        0 <= l < s.infos().len() && s.infos()[l].start <= v < s.infos()[l].end && v
            != TRAP_CONTEXT_VPN implies s.page_bytes(m1, v) == s.page_bytes(m0, v) by {
        assert(s.infos()[l].framed);
    }
}

impl TaskControlBlockInner {
    /// The words of the trap context.
    pub fn get_trap_cx(&self, mem: &PhysMemory) -> (r: Vec<u64>)
        requires
            mem.wf(),
            self.wf(mem@),
        ensures
            r@ == Seq::new(37, |i: int| self.trap_word(mem@, i)),
    {
        proof {
            lemma_trap_page(self.memory_set, mem@);
        }
        let mut r: Vec<u64> = Vec::new();
        let mut i: usize = 0;
        while i < TRAP_WORDS
            invariant
                i <= TRAP_WORDS,
                mem.wf(),
                mem@.pages.contains_key(self.trap_cx_ppn.0 as int),
                r@ == Seq::new(i as nat, |j: int| self.trap_word(mem@, j)),
            decreases TRAP_WORDS - i,
        {
            r.push(mem.read_word(self.trap_cx_ppn, i));
            i += 1;
            assert(r@ =~= Seq::new(i as nat, |j: int| self.trap_word(mem@, j)));
        }
        r
    }

    /// Writes a word of the trap context.
    pub fn set_trap_word(&self, i: usize, x: u64, mem: &mut PhysMemory)
        requires
            old(mem).wf(),
            self.wf(old(mem)@),
            i < 512,
        ensures
            final(mem).wf(),
            final(mem).first() == old(mem).first(),
            final(mem)@ == old(mem)@.with_word(self.trap_cx_ppn.0 as int, i as int, x),
    {
        proof {
            lemma_trap_page(self.memory_set, mem@);
        }
        mem.write_word(self.trap_cx_ppn, i, x);
    }
}

} // verus!
