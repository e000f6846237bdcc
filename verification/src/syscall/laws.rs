//! What holds of the system calls, in terms of what programs hand in and read back.
use super::fs;
use super::fs::FdTable;
use super::process;
use crate::easy_fs::bytes;
use crate::easy_fs::volume::FileData;
use crate::fs::inode;
use crate::mm::access;
use crate::mm::address::VA_SPACE;
use crate::mm::frame_allocator::MemData;
use crate::mm::kernel_space;
use crate::mm::memory_set;
use crate::mm::memory_set::{AreaInfo, MemorySet};
use crate::mm::mmap;
use crate::mm::page_table;
use crate::mm::places;
use crate::task::control;
use crate::task::control::TaskControlBlock;
use vstd::prelude::*;

verus! {

/// The first zombie with a number is found wherever it stands.
pub proof fn law_zombie_found(zombies: Seq<TaskControlBlock>, pid: usize, i: int)
    requires
        0 <= i <= zombies.len(),
    ensures
        match process::zombie_at(zombies, pid, i) {
            Some(z) => {
                &&& i <= z < zombies.len()
                &&& zombies[z].pid == pid
                &&& forall|k: int| i <= k < z ==> (#[trigger] zombies[k]).pid != pid
            },
            None => forall|k: int| i <= k < zombies.len() ==> (#[trigger] zombies[k]).pid != pid,
        },
    decreases zombies.len() - i,
{
    if i < zombies.len() && zombies[i].pid != pid {
        law_zombie_found(zombies, pid, i + 1);
    }
}

/// A wait finds a child that has exited wherever the child stands: the first one
/// that is meant and has exited. It finds none only where there is none.
pub proof fn law_wait_finds(
    children: Seq<usize>,
    zombies: Seq<TaskControlBlock>,
    pid: isize,
    i: int,
)
    requires
        0 <= i <= children.len(),
    ensures
        match process::exited_child(children, zombies, pid, i) {
            Some(j) => {
                &&& i <= j < children.len()
                &&& pid == -1 || pid as usize == children[j]
                &&& exists|z: int|
                    0 <= z < zombies.len() && (#[trigger] zombies[z]).pid == children[j]
                &&& forall|k: int, z: int|
                    #![trigger children[k], zombies[z]]
                    i <= k < j && 0 <= z < zombies.len() && (pid == -1 || pid as usize
                        == children[k]) ==> zombies[z].pid != children[k]
            },
            None => forall|k: int, z: int|
                #![trigger children[k], zombies[z]]
                i <= k < children.len() && 0 <= z < zombies.len() && (pid == -1 || pid as usize
                    == children[k]) ==> zombies[z].pid != children[k],
        },
    decreases children.len() - i,
{
    if i < children.len() {
        law_zombie_found(zombies, children[i], 0);
        if !(process::is_meant(pid, children[i]) && process::zombie_at(zombies, children[i], 0)
            is Some) {
            law_wait_finds(children, zombies, pid, i + 1);
        }
    }
}

/// The zombie that a wait collects is that of the child that it finds.
pub proof fn law_wait_collects(children: Seq<usize>, zombies: Seq<TaskControlBlock>, pid: isize)
    requires
        process::exited_child(children, zombies, pid, 0) is Some,
    ensures
        0 <= process::found_zombie(children, zombies, pid) < zombies.len(),
        zombies[process::found_zombie(children, zombies, pid)].pid
            == children[process::exited_child(children, zombies, pid, 0)->0],
{
    law_wait_finds(children, zombies, pid, 0);
    let j = process::exited_child(children, zombies, pid, 0)->0;
    law_zombie_found(zombies, children[j], 0);
}

/// A process has a child that is meant wherever the child stands in its list.
pub proof fn law_has_child(children: Seq<usize>, pid: isize, i: int)
    requires
        0 <= i < children.len(),
        pid == -1 || pid as usize == children[i],
    ensures
        process::has_child(children, pid),
{
    assert(process::is_meant(pid, children[i]));
}

/// A process has a child that is meant only where one in its list is.
pub proof fn law_child_listed(children: Seq<usize>, pid: isize)
    requires
        process::has_child(children, pid),
    ensures
        exists|i: int|
            0 <= i < children.len() && (pid == -1 || pid as usize == #[trigger] children[i]),
{
}

/// Any child is meant by -1.
pub proof fn law_any_child(children: Seq<usize>)
    ensures
        process::has_child(children, -1isize) == (children.len() > 0),
{
    if children.len() > 0 {
        assert(process::is_meant(-1isize, children[0]));
    }
}

/// The access rights that a program may ask for are numbered from one to seven.
pub proof fn law_port_ok(port: u64)
    ensures
        process::port_ok(port) == (1 <= port <= 7),
{
    assert((port & !7u64 == 0 && port & 7u64 != 0) == (1 <= port && port <= 7)) by (bit_vector);
}

/// The pages of the bytes from `start` on are those that a call means.
pub(crate) proof fn lemma_asked_pages(start: int, len: int, a: int)
    requires
        0 <= start,
        start % 4096 == 0,
        0 < len,
        start / 0x80_0000_0000 == (start + len + 4095) / 0x80_0000_0000,
    ensures
        ({
            let s = start % 0x80_0000_0000 / 4096;
            let e = ((start + len + 4095) / 4096 * 4096 % 0x80_0000_0000 + 4095) / 4096;
            &&& start <= a < start + len ==> s <= a % 0x80_0000_0000 / 4096 < e
            &&& e == (start + len - 1) % 0x80_0000_0000 / 4096 + 1
            &&& s < e
        }),
{
    let q = start / 0x80_0000_0000;
    let last = start + len - 1;
    let end = (start + len + 4095) / 4096 * 4096;
    assert(last / 0x80_0000_0000 == q);
    assert(end / 0x80_0000_0000 == q);
    assert(end % 0x80_0000_0000 == end - q * 0x80_0000_0000);
    assert(last % 0x80_0000_0000 == last - q * 0x80_0000_0000);
    assert(start % 0x80_0000_0000 == start - q * 0x80_0000_0000);
    if start <= a < start + len {
        assert(a / 0x80_0000_0000 == q);
        assert(a % 0x80_0000_0000 == a - q * 0x80_0000_0000);
    }
}

/// User programs may read a page that was mapped if bit 0 of the access rights is
/// set, write it if bit 1 is, and execute it if bit 2 is.
pub proof fn law_mmap_access(
    s0: MemorySet,
    m0: MemData,
    s1: MemorySet,
    m1: MemData,
    start: u64,
    len: u64,
    port: u64,
    v: int,
)
    requires
        memory_set::pushed(
            &s0,
            m0,
            &s1,
            m1,
            process::asked(start, len, process::port_perm(port)),
            Seq::<u8>::empty(),
        ),
        start % 4096 == 0,
        start as int / (VA_SPACE as int) == (start + len + 4095) / (VA_SPACE as int),
        0 < len,
        start as int % (VA_SPACE as int) / 4096 <= v <= (start + len - 1) % (VA_SPACE as int) / 4096,
    ensures
        page_table::lookup(m1, s1.page_table.root(), v) matches Some(e) && {
            &&& e & 1 != 0
            &&& (e & 2 != 0) == (port & 1 != 0)
            &&& (e & 4 != 0) == (port & 2 != 0)
            &&& (e & 8 != 0) == (port & 4 != 0)
            &&& e & 16 != 0
            &&& e & 0xe0 == 0
        },
{
    lemma_asked_pages(start as int, len as int, start as int);
    access::law_pushed_access(
        s0,
        m0,
        s1,
        m1,
        process::asked(start, len, process::port_perm(port)),
        Seq::<u8>::empty(),
        port & 1 != 0,
        port & 2 != 0,
        port & 4 != 0,
        true,
        v,
    );
}

/// Every byte that was mapped lies in a page that user programs may read if bit 0 of
/// the access rights is set, write if bit 1 is, and execute if bit 2 is.
pub proof fn law_mmap_byte_access(
    s0: MemorySet,
    m0: MemData,
    s1: MemorySet,
    m1: MemData,
    start: u64,
    len: u64,
    port: u64,
    a: int,
)
    requires
        memory_set::pushed(
            &s0,
            m0,
            &s1,
            m1,
            process::asked(start, len, process::port_perm(port)),
            Seq::<u8>::empty(),
        ),
        start % 4096 == 0,
        start as int / (VA_SPACE as int) == (start + len + 4095) / (VA_SPACE as int),
        start <= a < start + len,
    ensures
        page_table::lookup(m1, s1.page_table.root(), a % (VA_SPACE as int) / 4096) matches Some(e)
            && {
            &&& e & 1 != 0
            &&& (e & 2 != 0) == (port & 1 != 0)
            &&& (e & 4 != 0) == (port & 2 != 0)
            &&& (e & 8 != 0) == (port & 4 != 0)
            &&& e & 16 != 0
            &&& e & 0xe0 == 0
        },
{
    lemma_asked_pages(start as int, len as int, a);
    law_mmap_access(s0, m0, s1, m1, start, len, port, a % (VA_SPACE as int) / 4096);
}

/// Mapping bytes maps the pages that hold them and no others; new pages are all
/// zero, and pages that were mapped stay as they were.
pub proof fn law_mmap_pages(
    s0: MemorySet,
    m0: MemData,
    s1: MemorySet,
    m1: MemData,
    start: u64,
    len: u64,
    perm: u8,
    v: int,
)
    requires
        memory_set::pushed(
            &s0,
            m0,
            &s1,
            m1,
            process::asked(start, len, perm),
            Seq::<u8>::empty(),
        ),
        start % 4096 == 0,
        0 < len,
        start as int / (VA_SPACE as int) == (start + len + 4095) / (VA_SPACE as int),
    ensures
        ({
            let first = start as int % (VA_SPACE as int) / 4096;
            let last = (start + len - 1) % (VA_SPACE as int) / 4096;
            &&& s1.pages(m1).contains_key(v) == (s0.pages(m0).contains_key(v) || first <= v <= last)
            &&& s0.pages(m0).contains_key(v) ==> s1.pages(m1)[v] == s0.pages(m0)[v]
            &&& first <= v <= last ==> s1.page_bytes(m1, v) == Seq::new(4096, |i: int| 0u8)
        }),
{
    lemma_asked_pages(start as int, len as int, start as int);
    let info = process::asked(start, len, perm);
    if info.start <= v < info.end {
        let c = memory_set::chunk(Seq::<u8>::empty(), v - info.start);
        assert(c.len() == 0);
        assert(s1.page_bytes(m1, v) =~= Seq::new(4096, |i: int| 0u8));
    }
}

/// Pages are taken where an area has one of them.
pub proof fn law_taken_pages(infos: Seq<AreaInfo>, s: int, e: int, k: int, v: int)
    requires
        0 <= k < infos.len(),
        infos[k].start <= v < infos[k].end,
        s <= v < e,
    ensures
        mmap::conflicts(infos, s, e),
{
    assert(infos[k].start < e && s < infos[k].end);
}

/// Pages that no area has are not taken.
pub proof fn law_free_pages(infos: Seq<AreaInfo>, s: int, e: int)
    requires
        forall|k: int| 0 <= k < infos.len() ==> (#[trigger] infos[k]).start < infos[k].end,
        s < e,
        forall|v: int| s <= v < e ==> !#[trigger] kernel_space::in_areas(infos, v),
    ensures
        !mmap::conflicts(infos, s, e),
{
    if mmap::conflicts(infos, s, e) {
        let k = choose|k: int|
            0 <= k < infos.len() && (#[trigger] infos[k]).start < e && s < infos[k].end;
        let v = if s < infos[k].start {
            infos[k].start
        } else {
            s
        };
        assert(kernel_space::in_areas(infos, v));
    }
}

/// A range that holds only some pages of an area is not unmapped.
pub proof fn law_partial_refused(infos: Seq<AreaInfo>, s: int, e: int, k: int, v: int)
    requires
        0 <= k < infos.len(),
        infos[k].start <= v < infos[k].end,
        s <= v < e,
        infos[k].start < s || e < infos[k].end,
        forall|i: int|
            0 <= i < infos.len() && i != k ==> !((#[trigger] infos[i]).start <= v < infos[i].end),
    ensures
        !mmap::whole(infos, s, e),
{
    if mmap::whole(infos, s, e) {
        assert(mmap::within(infos, s, e, infos.len() as int, v));
    }
}

/// A range with a page that no area has is not unmapped.
pub proof fn law_gap_refused(infos: Seq<AreaInfo>, s: int, e: int, v: int)
    requires
        s <= v < e,
        forall|i: int| 0 <= i < infos.len() ==> !((#[trigger] infos[i]).start <= v < infos[i].end),
    ensures
        !mmap::whole(infos, s, e),
{
    if mmap::whole(infos, s, e) {
        assert(mmap::within(infos, s, e, infos.len() as int, v));
    }
}

/// What stays of the areas after a range was unmapped: those with a page outside it.
pub proof fn law_unmapped_areas(infos: Seq<AreaInfo>, s: int, e: int, x: AreaInfo)
    ensures
        mmap::others(infos, s, e).contains(x) == (infos.contains(x) && (x.start < s || e < x.end)),
    decreases infos.len(),
{
    if infos.len() > 0 {
        let rest = infos.drop_last();
        law_unmapped_areas(rest, s, e, x);
        assert(infos =~= rest.push(infos.last()));
        vstd::seq_lib::lemma_seq_contains_after_push(rest, infos.last(), x);
        let o = mmap::others(rest, s, e);
        vstd::seq_lib::lemma_seq_contains_after_push(o, infos.last(), x);
    }
}

/// A program reads the time that is given: seconds, and microseconds beyond them.
pub proof fn law_time_bytes(us: u64)
    ensures
        ({
            let b = process::time_bytes(process::time_of(us));
            &&& b.len() == 16
            &&& bytes::u64_at(b, 0) * 1_000_000 + bytes::u64_at(b, 8) == us
            &&& bytes::u64_at(b, 8) < 1_000_000
        }),
{
    let t = process::time_of(us);
    let b = process::time_bytes(t);
    vstd::bytes::lemma_auto_spec_u64_to_from_le_bytes();
    assert(b.subrange(0, 8) =~= bytes::u64_bytes(t.sec));
    assert(b.subrange(8, 16) =~= bytes::u64_bytes(t.usec));
}

/// A program reads the status of a file: no device, the number of the inode, whether
/// it is a directory or a file, and how many names the file has.
pub proof fn law_stat_bytes(i: int, f: FileData)
    requires
        0 <= i <= u64::MAX,
    ensures
        ({
            let b = fs::stat_bytes(inode::file_stat(i, f));
            &&& b.len() == 24
            &&& bytes::u64_at(b, 0) == 0
            &&& bytes::u64_at(b, 8) == i
            &&& bytes::u32_at(b, 16) == if f.dir {
                0x4000int
            } else {
                0x8000
            }
            &&& bytes::u32_at(b, 20) == f.nlink
        }),
{
    let s = inode::file_stat(i, f);
    let b = fs::stat_bytes(s);
    vstd::bytes::lemma_auto_spec_u64_to_from_le_bytes();
    assert(b.subrange(0, 8) =~= bytes::u64_bytes(s.dev));
    assert(b.subrange(8, 16) =~= bytes::u64_bytes(s.ino));
    let mode = bytes::u32_bytes(s.mode.number());
    let n = bytes::u32_bytes(s.nlink);
    assert(b[16] == mode[0] && b[17] == mode[1] && b[18] == mode[2] && b[19] == mode[3]);
    assert(b[20] == n[0] && b[21] == n[1] && b[22] == n[2] && b[23] == n[3]);
}

/// Moving the end of the heap moves it by that many bytes, and tells where it was; it is
/// refused just where the end would come below the bottom of the heap.
pub proof fn law_moved_brk(
    t0: &TaskControlBlock,
    m0: MemData,
    t1: &TaskControlBlock,
    m1: MemData,
    size: int,
    r: Option<u64>,
    k: int,
)
    requires
        control::brk_changed(t0, m0, t1, m1, size, r),
        t0.inner.program_brk + size <= i64::MAX,
        0 <= t0.inner.program_brk + size,
        t0.inner.program_brk <= i64::MAX,
        t0.inner.heap_bottom <= i64::MAX,
        0 <= k < t0.inner.memory_set.infos().len(),
        t0.inner.memory_set.infos()[k].start == t0.inner.heap_bottom as int / 4096,
    ensures
        (r is Some) == (t0.inner.program_brk + size >= t0.inner.heap_bottom),
        r matches Some(was) ==> {
            &&& was == t0.inner.program_brk
            &&& t1.inner.program_brk == t0.inner.program_brk + size
            &&& t1.inner.program_brk >= t1.inner.heap_bottom
            &&& t1.inner.heap_bottom == t0.inner.heap_bottom
        },
        r is None ==> *t1 == *t0 && m1 == m0,
{
    places::law_area_at(t0.inner.memory_set.infos(), t0.inner.heap_bottom as int / 4096, 0);
}

/// Unmapping gives back the frames of the pages in the areas that lie in the range.
pub proof fn law_unmapped_frames(infos: Seq<AreaInfo>, s: int, e: int, x: AreaInfo)
    ensures
        mmap::framed_pages(Seq::<AreaInfo>::empty(), s, e) == 0,
        mmap::framed_pages(infos.push(x), s, e) == mmap::framed_pages(infos, s, e) + (if x.framed
            && s <= x.start && x.end <= e {
            x.end - x.start
        } else {
            0
        }),
{
    assert(infos.push(x).drop_last() =~= infos);
}

/// A number leads to an open file just where the table has one there.
pub proof fn law_open_files(table: &FdTable, fd: int)
    ensures
        0 <= fd < table.files@.len() ==> table.file(fd) == table.files@[fd],
        !(0 <= fd < table.files@.len()) ==> table.file(fd) is None,
{
}

} // verus!
