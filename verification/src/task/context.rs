//! What is saved of a task when it does not run.
use crate::mm::address::PhysPageNum;
use crate::mm::frame_allocator::{MemData, PhysMemory};
use vstd::prelude::*;

verus! {

/// The place of the first argument, which also holds what a call returns, among
/// the words of a trap context.
pub const A0_WORD: usize = 10;

/// The place of the kernel stack pointer among the words of a trap context.
pub const KERNEL_SP_WORD: usize = 35;

/// The number of words in a trap context.
pub const TRAP_WORDS: usize = 37;

/// What a task goes on with in the kernel: return address, stack pointer, and
/// saved registers.
#[derive(Clone, Copy, Debug)]
pub struct TaskContext {
    pub ra: u64,
    pub sp: u64,
    pub s: [u64; 12],
}

impl TaskContext {
    /// The context that goes back to user mode with this kernel stack.
    pub open spec fn returning(self, kstack_ptr: u64, trap_return: u64) -> bool {
        &&& self.ra == trap_return
        &&& self.sp == kstack_ptr
        &&& forall|i: int| 0 <= i < 12 ==> #[trigger] self.s@[i] == 0
    }

    /// The context that goes back to user mode with this kernel stack.
    pub fn goto_trap_return(kstack_ptr: u64, trap_return: u64) -> (r: Self)
        ensures
            r.returning(kstack_ptr, trap_return),
    {
        TaskContext { ra: trap_return, sp: kstack_ptr, s: [0; 12] }
    }
}

/// What the kernel gives to every program.
#[derive(Clone, Copy, Debug)]
pub struct KernelEnv {
    /// The address of the trampoline's code.
    pub strampoline: u64,
    /// The token of the kernel's page table.
    pub kernel_token: u64,
    /// The address of the trap handler.
    pub trap_handler: u64,
    /// The address of the code that returns from a trap.
    pub trap_return: u64,
    /// The status register for user mode.
    pub sstatus: u64,
}

/// The words of the trap context that a program starts with: all registers are
/// zero but the stack pointer.
pub open spec fn app_words(entry: u64, sp: u64, kernel_sp: u64, env: KernelEnv) -> Seq<u64> {
    Seq::new(
        37,
        |i: int|
            if i == 2 {
                sp
            } else if i < 32 {
                0
            } else if i == 32 {
                env.sstatus
            } else if i == 33 {
                entry
            } else if i == 34 {
                env.kernel_token
            } else if i == 35 {
                kernel_sp
            } else {
                env.trap_handler
            },
    )
}

/// The words of a trap context that a program starts with.
pub fn app_init_context(entry: u64, sp: u64, kernel_sp: u64, env: &KernelEnv) -> (r: Vec<u64>)
    ensures
        r@ == app_words(entry, sp, kernel_sp, *env),
{
    let mut r: Vec<u64> = vec![0u64; 32];
    r.set(2, sp);
    r.push(env.sstatus);
    r.push(entry);
    r.push(env.kernel_token);
    r.push(kernel_sp);
    r.push(env.trap_handler);
    assert(r@ =~= app_words(entry, sp, kernel_sp, *env));
    r
}

/// Memory after words were written to the start of a frame.
pub open spec fn words_written(m: MemData, ppn: int, words: Seq<u64>, k: int) -> MemData
    decreases k,
{
    if k <= 0 {
        m
    } else {
        words_written(m, ppn, words, k - 1).with_word(ppn, k - 1, words[k - 1])
    }
}

/// What writing words changes.
pub proof fn lemma_words_written(m: MemData, ppn: int, words: Seq<u64>, k: int)
    requires
        m.wf(),
        m.pages.contains_key(ppn),
        0 <= k <= words.len(),
        words.len() <= 512,
    ensures
        ({
            let m1 = words_written(m, ppn, words, k);
            &&& m1.wf()
            &&& m1.used == m.used
            &&& m1.pages.dom() == m.pages.dom()
            &&& forall|p: int| p != ppn ==> #[trigger] m1.pages[p] == m.pages[p]
            &&& forall|i: int|
                0 <= i < 512 ==> #[trigger] m1.word(ppn, i) == if i < k {
                    words[i]
                } else {
                    m.word(ppn, i)
                }
        }),
    decreases k,
{
    if k > 0 {
        lemma_words_written(m, ppn, words, k - 1);
        let m0 = words_written(m, ppn, words, k - 1);
        assert(m0.pages.dom().contains(ppn));
        assert(m0.pages.contains_key(ppn));
        m0.lemma_with_word(ppn, k - 1, words[k - 1]);
        assert(words_written(m, ppn, words, k).pages.dom() =~= m.pages.dom());
    }
}

/// Writes words to the start of a frame.
pub fn write_words_at(ppn: PhysPageNum, words: &Vec<u64>, mem: &mut PhysMemory)
    requires
        old(mem).wf(),
        old(mem)@.pages.contains_key(ppn.0 as int),
        words@.len() <= 512,
    ensures
        final(mem).wf(),
        final(mem).first() == old(mem).first(),
        final(mem)@ == words_written(old(mem)@, ppn.0 as int, words@, words@.len() as int),
{
    let ghost m0 = mem@;
    let mut k: usize = 0;
    proof {
        mem.lemma_wf();
    }
    while k < words.len()
        invariant
            k <= words@.len() <= 512,
            m0.wf(),
            m0.pages.contains_key(ppn.0 as int),
            mem.wf(),
            mem.first() == old(mem).first(),
            mem@ == words_written(m0, ppn.0 as int, words@, k as int),
        decreases words@.len() - k,
    {
        proof {
            lemma_words_written(m0, ppn.0 as int, words@, k as int);
            assert(mem@.pages.dom().contains(ppn.0 as int));
        }
        mem.write_word(ppn, k, words[k]);
        k += 1;
    }
}

} // verus!
