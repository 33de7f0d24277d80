//! The memory access monitor: every load and store of the guest goes through
//! it.
//!
//! Loads read the image directly. Stores are buffered and reach the image
//! only when the instruction that issued them is committed. Every access
//! marks the pages on its way up to the root page, so that the cost of paging
//! them in can be charged once per session.

use vstd::prelude::*;
use std::collections::{BTreeMap, BTreeSet};
use vstd::std_specs::iter::IteratorSpec;
use vstd::bytes::{
    spec_u16_from_le_bytes, spec_u16_to_le_bytes, spec_u32_from_le_bytes, spec_u32_to_le_bytes,
    spec_u64_from_le_bytes, spec_u64_to_le_bytes, u16_from_le_bytes, u16_to_le_bytes,
    u32_from_le_bytes, u32_to_le_bytes, u64_from_le_bytes, u64_to_le_bytes,
};
use vstd::utf8::{decode_utf8, valid_utf8};
use crate::digest::DOUBLE_WORD_SIZE;
use crate::geometry::PageTableInfo;
use crate::image::MemoryImage;
use crate::layout::MemoryLayout;
use crate::touch::{IncludeDir, PageFaults, mark_path, pages_of, path_pages, region_pages};

verus! {

broadcast use {vstd::std_specs::btree::group_btree_axioms, vstd::laws_cmp::group_laws_cmp};

/// What a system call handed to the guest.
#[derive(Debug)]
pub struct SyscallRecord {
    /// The words written to the guest.
    pub to_guest: Vec<u32>,
    /// The two result registers.
    pub regs: (u32, u32),
}

/// A system call record as plain values.
pub struct SyscallRecordView {
    pub to_guest: Seq<u32>,
    pub regs: (u32, u32),
}

impl View for SyscallRecord {
    type V = SyscallRecordView;

    open spec fn view(&self) -> SyscallRecordView {
        SyscallRecordView { to_guest: self.to_guest@, regs: self.regs }
    }
}

impl Clone for SyscallRecord {
    fn clone(&self) -> (r: SyscallRecord)
        ensures
            r@ == self@,
    {
        let to_guest = self.to_guest.clone();
        assert(to_guest@ =~= self.to_guest@);
        SyscallRecord { to_guest, regs: self.regs }
    }
}

/// The outcome of one executed instruction.
#[derive(Debug)]
pub struct OpCodeResult {
    /// The program counter after the instruction.
    pub pc: u64,
    /// Cycles that the instruction takes beyond the first.
    pub extra_cycles: usize,
    /// The system call that the instruction made, if it made one.
    pub syscall: Option<SyscallRecord>,
}

/// The outcome of one instruction as plain values.
pub struct OpCodeResultView {
    pub pc: u64,
    pub extra_cycles: usize,
    pub syscall: Option<SyscallRecordView>,
}

impl View for OpCodeResult {
    type V = OpCodeResultView;

    open spec fn view(&self) -> OpCodeResultView {
        OpCodeResultView {
            pc: self.pc,
            extra_cycles: self.extra_cycles,
            syscall: match self.syscall {
                Some(s) => Some(s@),
                None => None,
            },
        }
    }
}

impl Clone for OpCodeResult {
    fn clone(&self) -> (r: OpCodeResult)
        ensures
            r@ == self@,
    {
        let syscall = match &self.syscall {
            Some(s) => Some(s.clone()),
            None => None,
        };
        OpCodeResult { pc: self.pc, extra_cycles: self.extra_cycles, syscall }
    }
}

/// The memory after the buffered `writes` were applied to `buf`.
pub open spec fn committed(buf: Seq<u8>, writes: Map<u64, u8>) -> Seq<u8> {
    Seq::new(
        buf.len(),
        |i: int|
            if writes.contains_key(i as u64) {
                writes[i as u64]
            } else {
                buf[i]
            },
    )
}

/// The writes of `bytes` to the addresses from `addr` on.
pub open spec fn region_writes(addr: u64, bytes: Seq<u8>) -> Map<u64, u8> {
    Map::new(|a: u64| addr <= a < addr + bytes.len(), |a: u64| bytes[a - addr])
}

/// A committed write is what a load of its address returns, and an address
/// that no buffered write named holds what it held.
pub proof fn lemma_commit_visible(buf: Seq<u8>, writes: Map<u64, u8>, addr: u64)
    requires
        addr < buf.len(),
    ensures
        writes.contains_key(addr) ==> committed(buf, writes)[addr as int] == writes[addr],
        !writes.contains_key(addr) ==> committed(buf, writes)[addr as int] == buf[addr as int],
{
}

/// With nothing buffered a commit leaves the memory as it is: a write that
/// was discarded is never seen.
pub proof fn lemma_commit_nothing(buf: Seq<u8>)
    ensures
        committed(buf, Map::<u64, u8>::empty()) == buf,
{
    assert(committed(buf, Map::<u64, u8>::empty()) =~= buf);
}

/// The first `n` of `items` name the address `a`.
pub open spec fn written(items: Seq<(&u64, &u8)>, n: int, a: u64) -> bool {
    exists|k: int| 0 <= k < n && k < items.len() && *(#[trigger] items[k]).0 == a
}

/// Applies the buffered writes to the memory.
pub fn apply_writes(buf: &mut Vec<u8>, writes: &BTreeMap<u64, u8>)
    requires
        forall|a: u64| writes@.contains_key(a) ==> a < old(buf)@.len(),
    ensures
        final(buf)@ == committed(old(buf)@, writes@),
{
    let size: usize = buf.len();
    let ghost all: Seq<(&u64, &u8)> = vstd::std_specs::btree::spec_btree_map_iter(
        writes,
    ).remaining();
    for item in it: writes.iter()
        invariant
            it.seq() == all,
            size == buf@.len(),
            buf@.len() == old(buf)@.len(),
            forall|a: u64| writes@.contains_key(a) ==> a < old(buf)@.len(),
            forall|i: int|
                0 <= i < buf@.len() ==> buf@[i] == (if written(all, it.index(), i as u64) {
                    writes@[i as u64]
                } else {
                    old(buf)@[i]
                }),
    {
        let ghost n = it.index();
        let ghost before = buf@;
        let (addr, data) = item;
        assert(all[n] == item);
        assert(writes@.contains_key(*addr) && writes@[*addr] == *data);
        buf[*addr as usize] = *data;
        proof {
            assert forall|i: int| 0 <= i < buf@.len() implies buf@[i] == (if written(
                all,
                n + 1,
                i as u64,
            ) {
                writes@[i as u64]
            } else {
                old(buf)@[i]
            }) by {
                if i == *addr as int {
                    assert(written(all, n + 1, i as u64));
                } else if written(all, n + 1, i as u64) {
                    let k = choose|k: int|
                        0 <= k < n + 1 && k < all.len() && *(#[trigger] all[k]).0 == i as u64;
                    assert(k < n);
                    assert(written(all, n, i as u64));
                } else {
                    assert(!written(all, n, i as u64));
                }
            }
        }
    }
    proof {
        assert forall|i: int| 0 <= i < buf@.len() implies buf@[i] == committed(
            old(buf)@,
            writes@,
        )[i] by {
            let a = i as u64;
            if writes@.contains_key(a) {
                assert(all.contains((&a, &writes@[a])));
                let k = choose|k: int| 0 <= k < all.len() && all[k] == (&a, &writes@[a]);
                assert(*all[k].0 == a);
            }
        }
        assert(buf@ =~= committed(old(buf)@, writes@));
    }
}

/// Cycles to set up the hashing of a page.
pub const SHA_INIT: usize = 5;

/// Cycles to load one block of a page.
pub const SHA_LOAD: usize = 16;

/// Cycles to compress one block of a page.
pub const SHA_MAIN: usize = 52;

/// The cycles that paging in a page of `blocks_per_page` blocks costs.
pub open spec fn cycles_per_page_spec(blocks_per_page: int) -> int {
    1 + 5 + (16 + 52) * blocks_per_page
}

/// The cycles that paging in the pages `pages` costs: the root page counts
/// by the blocks below the root, every other page as a whole page.
pub open spec fn page_cycles(info: PageTableInfo, pages: Set<u64>) -> int {
    let ordinary = cycles_per_page_spec(info.page_size as int / 64);
    let root = cycles_per_page_spec(info.num_root_entries as int / 2);
    if pages.contains(info.root_idx) {
        (pages.len() - 1) * ordinary + root
    } else {
        pages.len() * ordinary
    }
}

/// Paging in a finite set of pages costs no less than nothing.
pub proof fn lemma_page_cycles_nonnegative(info: PageTableInfo, pages: Set<u64>)
    requires
        pages.finite(),
    ensures
        page_cycles(info, pages) >= 0,
{
    let ordinary = cycles_per_page_spec(info.page_size as int / 64);
    let root = cycles_per_page_spec(info.num_root_entries as int / 2);
    if pages.contains(info.root_idx) {
        assert(pages.remove(info.root_idx).insert(info.root_idx) =~= pages);
        assert(pages.len() >= 1);
    }
    assert(ordinary >= 0 && root >= 0) by (nonlinear_arith)
        requires
            ordinary == 1 + 5 + (16 + 52) * (info.page_size as int / 64),
            root == 1 + 5 + (16 + 52) * (info.num_root_entries as int / 2),
            info.page_size as int / 64 >= 0,
            info.num_root_entries as int / 2 >= 0,
    ;
    assert(forall|n: int| n >= 0 ==> #[trigger] (n * ordinary) >= 0) by (nonlinear_arith)
        requires
            ordinary >= 0,
    ;
}

/// A cycle count as a machine integer, where it fits one.
pub open spec fn fit(cycles: int) -> Option<usize> {
    if 0 <= cycles <= usize::MAX {
        Some(cycles as usize)
    } else {
        None
    }
}

/// The cycles that paging in a page of `blocks_per_page` blocks costs.
pub fn cycles_per_page(blocks_per_page: usize) -> (cycles: usize)
    requires
        cycles_per_page_spec(blocks_per_page as int) <= usize::MAX,
    ensures
        cycles == cycles_per_page_spec(blocks_per_page as int),
{
    1 + SHA_INIT + (SHA_LOAD + SHA_MAIN) * blocks_per_page
}

/// The cycles that paging in a page of `blocks_per_page` blocks costs, or
/// `None` where the count does not fit a machine integer.
pub fn checked_cycles_per_page(blocks_per_page: usize) -> (cycles: Option<usize>)
    ensures
        cycles == fit(cycles_per_page_spec(blocks_per_page as int)),
{
    let most: usize = (usize::MAX - 6) / 68;
    assert(68 * most <= usize::MAX - 6 < 68 * most + 68);
    assert(cycles_per_page_spec(blocks_per_page as int) == 6 + 68 * blocks_per_page);
    if blocks_per_page <= most {
        Some(cycles_per_page(blocks_per_page))
    } else {
        None
    }
}

/// The cycles that paging in the pages of `pages` costs, or `None` where the
/// count does not fit a machine integer.
pub fn compute_page_cycles(info: &PageTableInfo, pages: &BTreeSet<u64>) -> (cycles: Option<usize>)
    requires
        pages@.finite(),
        info.page_size <= usize::MAX,
        info.num_root_entries <= usize::MAX,
    ensures
        cycles == fit(page_cycles(*info, pages@)),
{
    let count: usize = pages.len();
    let has_root: bool = pages.contains(&info.root_idx);
    proof {
        if pages@.contains(info.root_idx) {
            assert(pages@.remove(info.root_idx).insert(info.root_idx) =~= pages@);
            assert(pages@.len() >= 1);
        }
    }
    let ordinary_pages: usize = if has_root {
        count - 1
    } else {
        count
    };
    let ghost ordinary = cycles_per_page_spec(info.page_size as int / 64);
    let ghost root = cycles_per_page_spec(info.num_root_entries as int / 2);
    assert(ordinary >= 6 && root >= 6) by (nonlinear_arith)
        requires
            ordinary == 1 + 5 + (16 + 52) * (info.page_size as int / 64),
            root == 1 + 5 + (16 + 52) * (info.num_root_entries as int / 2),
            info.page_size as int / 64 >= 0,
            info.num_root_entries as int / 2 >= 0,
    ;
    let ordinary_cycles: usize = if ordinary_pages == 0 {
        0
    } else {
        let each = match checked_cycles_per_page((info.page_size / 64) as usize) {
            Some(each) => each,
            None => {
                assert(ordinary_pages * ordinary > usize::MAX) by (nonlinear_arith)
                    requires
                        ordinary_pages >= 1,
                        ordinary > usize::MAX,
                ;
                return None;
            },
        };
        match ordinary_pages.checked_mul(each) {
            Some(all) => all,
            None => {
                return None;
            },
        }
    };
    assert(ordinary_cycles == ordinary_pages * ordinary) by (nonlinear_arith)
        requires
            ordinary_pages == 0 ==> ordinary_cycles == 0,
            ordinary_pages != 0 ==> ordinary_cycles == ordinary_pages * ordinary,
    ;
    if has_root {
        let root_cycles = match checked_cycles_per_page((info.num_root_entries / 2) as usize) {
            Some(root_cycles) => root_cycles,
            None => {
                return None;
            },
        };
        ordinary_cycles.checked_add(root_cycles)
    } else {
        Some(ordinary_cycles)
    }
}

/// The width of a memory access.
#[derive(Clone, Copy, Debug, PartialEq, Eq, Structural)]
pub enum AccessSize {
    /// 8 bits.
    Byte,
    /// 16 bits.
    HalfWord,
    /// 32 bits.
    Word,
    /// 64 bits.
    DoubleWord,
}

impl AccessSize {
    /// Bytes in an access of this width.
    pub open spec fn bytes(self) -> nat {
        match self {
            AccessSize::Byte => 1,
            AccessSize::HalfWord => 2,
            AccessSize::Word => 4,
            AccessSize::DoubleWord => 8,
        }
    }
}

/// Why the monitor refused an operation.
#[derive(Clone, Copy, Debug, PartialEq, Eq, Structural)]
pub enum MonitorError {
    /// The bytes of a string are not valid UTF-8.
    InvalidUtf8,
    /// A commit was asked for before the outcome of the instruction was
    /// saved.
    MissingResult,
}

/// The bytes from `addr` up to the first zero byte, which is left out.
pub open spec fn c_string(buf: Seq<u8>, addr: int) -> Seq<u8>
    decreases buf.len() - addr,
{
    if 0 <= addr < buf.len() && buf[addr] != 0 {
        seq![buf[addr]] + c_string(buf, addr + 1)
    } else {
        Seq::empty()
    }
}

/// A zero byte stands at or after `addr`.
pub open spec fn has_terminator(buf: Seq<u8>, addr: int) -> bool {
    exists|end: int| addr <= end < buf.len() && #[trigger] buf[end] == 0
}

/// Where no zero byte stands from `addr` up to `end`, and one stands at
/// `end`, the string at `addr` is the bytes between them.
pub proof fn lemma_c_string(buf: Seq<u8>, addr: int, end: int)
    requires
        0 <= addr <= end < buf.len(),
        buf[end] == 0,
        forall|j: int| addr <= j < end ==> buf[j] != 0,
    ensures
        c_string(buf, addr) == buf.subrange(addr, end),
    decreases end - addr,
{
    if addr < end {
        lemma_c_string(buf, addr + 1, end);
        assert(buf.subrange(addr, end) =~= seq![buf[addr]] + buf.subrange(addr + 1, end));
    } else {
        assert(buf.subrange(addr, end) =~= Seq::<u8>::empty());
    }
}

/// Calls `String::from_utf8` of std.
///
/// Trusted: the call succeeds on exactly the byte sequences that are valid
/// UTF-8, and the string then holds the characters that the bytes encode.
#[verifier::external_body]
fn string_from_utf8(bytes: Vec<u8>) -> (r: Option<String>)
    ensures
        r is Some <==> valid_utf8(bytes@),
        r is Some ==> r->0@ == decode_utf8(bytes@),
{
    String::from_utf8(bytes).ok()
}

/// The address of register `idx` of the guest's register file: registers
/// are double words that follow one another from the register base on.
pub open spec fn register_addr(layout: MemoryLayout, idx: usize) -> int {
    layout.register_base + idx * 8
}

/// The address of register `idx`.
pub fn get_register_addr(layout: &MemoryLayout, idx: usize) -> (addr: u64)
    requires
        register_addr(*layout, idx) <= u64::MAX,
    ensures
        addr == register_addr(*layout, idx),
{
    layout.register_base + (idx as u64) * (DOUBLE_WORD_SIZE as u64)
}

/// The pages on the ways up from the bytes of the first `n` of the
/// registers `idxs`.
pub open spec fn registers_pages(
    info: PageTableInfo,
    layout: MemoryLayout,
    idxs: Seq<usize>,
    n: nat,
) -> Set<u64>
    decreases n,
{
    if n == 0 {
        Set::empty()
    } else {
        registers_pages(info, layout, idxs, (n - 1) as nat).union(
            region_pages(info, register_addr(layout, idxs[n - 1]) as u64, 8),
        )
    }
}

/// The monitor through which the execution loop reaches the guest's memory.
#[derive(Debug)]
pub struct MemoryMonitor {
    /// The memory that the guest sees.
    pub image: MemoryImage,
    /// The pages that were charged earlier in this session.
    pub faults: PageFaults,
    /// The pages that were touched in this segment and not charged before.
    pub pending_faults: PageFaults,
    /// The writes of the instruction under way: the latest byte for each
    /// address.
    pub pending_writes: BTreeMap<u64, u8>,
    /// The outcome of the instruction under way, once it is saved.
    pub op_result: Option<OpCodeResult>,
    /// The system calls of this segment, in order.
    pub syscalls: Vec<SyscallRecord>,
}

impl MemoryMonitor {
    /// The image is well formed, every buffered write lies inside it, and no
    /// page is both pending and charged.
    pub open spec fn wf(&self) -> bool {
        &&& self.image.wf()
        &&& forall|a: u64| self.pending_writes@.contains_key(a) ==> a < self.image.buf@.len()
        &&& self.pending_faults.reads@.disjoint(self.faults.reads@)
        &&& self.pending_faults.writes@.disjoint(self.faults.writes@)
        &&& self.faults.reads@.finite()
        &&& self.faults.writes@.finite()
        &&& self.pending_faults.reads@.finite()
        &&& self.pending_faults.writes@.finite()
    }

    /// `self` is `before` after an access that touched the pages `reads` for
    /// reading and the pages `writes` for writing: those that were not
    /// charged yet are now pending, and the charged pages are as they were.
    pub open spec fn touched(
        &self,
        before: &MemoryMonitor,
        reads: Set<u64>,
        writes: Set<u64>,
    ) -> bool {
        &&& self.faults.reads@ == before.faults.reads@
        &&& self.faults.writes@ == before.faults.writes@
        &&& self.pending_faults.reads@ == before.pending_faults.reads@.union(
            reads.difference(before.faults.reads@),
        )
        &&& self.pending_faults.writes@ == before.pending_faults.writes@.union(
            writes.difference(before.faults.writes@),
        )
    }

    /// `self` holds the image, the saved outcome and the system calls of
    /// `before`.
    pub open spec fn same_run(&self, before: &MemoryMonitor) -> bool {
        &&& self.image == before.image
        &&& self.op_result == before.op_result
        &&& self.syscalls == before.syscalls
    }

    /// The page of `addr`.
    pub open spec fn page_of(&self, addr: u64) -> u64 {
        (addr / self.image.info.page_size) as u64
    }

    /// A monitor over `image`, with nothing buffered, saved or touched.
    pub fn new(image: MemoryImage) -> (monitor: MemoryMonitor)
        requires
            image.wf(),
        ensures
            monitor.wf(),
            monitor.image == image,
            monitor.pending_writes@ == Map::<u64, u8>::empty(),
            monitor.op_result is None,
            monitor.syscalls@ == Seq::<SyscallRecord>::empty(),
            monitor.faults.reads@ == Set::<u64>::empty(),
            monitor.faults.writes@ == Set::<u64>::empty(),
            monitor.pending_faults.reads@ == Set::<u64>::empty(),
            monitor.pending_faults.writes@ == Set::<u64>::empty(),
    {
        MemoryMonitor {
            image,
            faults: PageFaults::new(),
            pending_faults: PageFaults::new(),
            pending_writes: BTreeMap::new(),
            op_result: None,
            syscalls: Vec::new(),
        }
    }

    /// Marks the pages on the way from the page of `addr` up to the root
    /// page as touched in the direction `dir`. Pages that were charged
    /// earlier in the session are left out.
    pub fn include_addr(&mut self, addr: u64, dir: IncludeDir)
        requires
            old(self).wf(),
        ensures
            final(self).wf(),
            final(self).same_run(old(self)),
            final(self).pending_writes@ == old(self).pending_writes@,
            final(self).touched(
                old(self),
                if dir == IncludeDir::Read {
                    path_pages(old(self).image.info, old(self).page_of(addr))
                } else {
                    Set::empty()
                },
                if dir == IncludeDir::Write {
                    path_pages(old(self).image.info, old(self).page_of(addr))
                } else {
                    Set::empty()
                },
            ),
    {
        match dir {
            IncludeDir::Read => {
                mark_path(&mut self.pending_faults.reads, &self.faults.reads, &self.image, addr);
                proof {
                    assert(self.pending_faults.writes@ =~= old(self).pending_faults.writes@.union(
                        Set::<u64>::empty().difference(old(self).faults.writes@),
                    ));
                }
            },
            IncludeDir::Write => {
                mark_path(
                    &mut self.pending_faults.writes,
                    &self.faults.writes,
                    &self.image,
                    addr,
                );
                proof {
                    assert(self.pending_faults.reads@ =~= old(self).pending_faults.reads@.union(
                        Set::<u64>::empty().difference(old(self).faults.reads@),
                    ));
                }
            },
        }
    }

    /// Loads the byte at `addr` from the image. Writes that are still
    /// buffered are not seen.
    pub fn load_u8(&mut self, addr: u64) -> (b: u8)
        requires
            old(self).wf(),
            addr < old(self).image.buf@.len(),
        ensures
            b == old(self).image.buf@[addr as int],
            final(self).wf(),
            final(self).same_run(old(self)),
            final(self).pending_writes@ == old(self).pending_writes@,
            final(self).touched(
                old(self),
                path_pages(old(self).image.info, old(self).page_of(addr)),
                Set::empty(),
            ),
    {
        self.include_addr(addr, IncludeDir::Read);
        self.image.buf[addr as usize]
    }

    /// Buffers the write of `data` to `addr`. The image is not changed, and
    /// an earlier buffered write to `addr` is replaced.
    pub fn store_u8(&mut self, addr: u64, data: u8)
        requires
            old(self).wf(),
            addr < old(self).image.buf@.len(),
        ensures
            final(self).wf(),
            final(self).same_run(old(self)),
            final(self).pending_writes@ == old(self).pending_writes@.insert(addr, data),
            final(self).touched(
                old(self),
                path_pages(old(self).image.info, old(self).page_of(addr)),
                path_pages(old(self).image.info, old(self).page_of(addr)),
            ),
    {
        self.include_addr(addr, IncludeDir::Read);
        self.include_addr(addr, IncludeDir::Write);
        self.pending_writes.insert(addr, data);
        proof {
            let path = path_pages(old(self).image.info, old(self).page_of(addr));
            assert(self.pending_faults.reads@ =~= old(self).pending_faults.reads@.union(
                path.difference(old(self).faults.reads@),
            ));
            assert(self.pending_faults.writes@ =~= old(self).pending_faults.writes@.union(
                path.difference(old(self).faults.writes@),
            ));
        }
    }

    /// Loads the `N` bytes that start at `addr`, byte by byte.
    pub fn load_array<const N: usize>(&mut self, addr: u64) -> (out: [u8; N])
        requires
            old(self).wf(),
            addr + N <= old(self).image.buf@.len(),
        ensures
            out@ == old(self).image.buf@.subrange(addr as int, addr + N),
            final(self).wf(),
            final(self).same_run(old(self)),
            final(self).pending_writes@ == old(self).pending_writes@,
            final(self).touched(
                old(self),
                region_pages(old(self).image.info, addr, N as nat),
                Set::empty(),
            ),
    {
        let mut out: [u8; N] = [0u8; N];
        let mut i: usize = 0;
        proof {
            self.image.lemma_root_place();
            assert(self.pending_faults.reads@ =~= old(self).pending_faults.reads@.union(
                region_pages(old(self).image.info, addr, 0).difference(old(self).faults.reads@),
            ));
            assert(self.pending_faults.writes@ =~= old(self).pending_faults.writes@.union(
                Set::<u64>::empty().difference(old(self).faults.writes@),
            ));
        }
        while i < N
            invariant
                i <= N,
                addr + N <= self.image.buf@.len() <= usize::MAX,
                self.wf(),
                self.same_run(old(self)),
                self.pending_writes@ == old(self).pending_writes@,
                self.touched(
                    old(self),
                    region_pages(old(self).image.info, addr, i as nat),
                    Set::empty(),
                ),
                forall|j: int| 0 <= j < i ==> out@[j] == old(self).image.buf@[addr + j],
            decreases N - i,
        {
            let b = self.load_u8(addr + i as u64);
            out[i] = b;
            proof {
                let info = old(self).image.info;
                let charged = old(self).faults.reads@;
                let path = path_pages(info, ((addr + i) as u64 / info.page_size) as u64);
                assert(region_pages(info, addr, (i + 1) as nat) == region_pages(
                    info,
                    addr,
                    i as nat,
                ).union(path));
                assert(self.pending_faults.reads@ =~= old(self).pending_faults.reads@.union(
                    region_pages(info, addr, (i + 1) as nat).difference(charged),
                ));
                assert(self.pending_faults.writes@ =~= old(self).pending_faults.writes@.union(
                    Set::<u64>::empty().difference(old(self).faults.writes@),
                ));
            }
            i += 1;
        }
        assert(out@ =~= old(self).image.buf@.subrange(addr as int, addr + N));
        out
    }

    /// Loads the half word at `addr`, least significant byte first.
    pub fn load_u16(&mut self, addr: u64) -> (v: u16)
        requires
            old(self).wf(),
            addr % 2 == 0,
            addr + 2 <= old(self).image.buf@.len(),
        ensures
            v == spec_u16_from_le_bytes(old(self).image.buf@.subrange(addr as int, addr + 2)),
            final(self).wf(),
            final(self).same_run(old(self)),
            final(self).pending_writes@ == old(self).pending_writes@,
            final(self).touched(
                old(self),
                region_pages(old(self).image.info, addr, 2),
                Set::empty(),
            ),
    {
        let bytes: [u8; 2] = self.load_array::<2>(addr);
        u16_from_le_bytes(bytes.as_slice())
    }

    /// Loads the word at `addr`, least significant byte first.
    pub fn load_u32(&mut self, addr: u64) -> (v: u32)
        requires
            old(self).wf(),
            addr % 4 == 0,
            addr + 4 <= old(self).image.buf@.len(),
        ensures
            v == spec_u32_from_le_bytes(old(self).image.buf@.subrange(addr as int, addr + 4)),
            final(self).wf(),
            final(self).same_run(old(self)),
            final(self).pending_writes@ == old(self).pending_writes@,
            final(self).touched(
                old(self),
                region_pages(old(self).image.info, addr, 4),
                Set::empty(),
            ),
    {
        let bytes: [u8; 4] = self.load_array::<4>(addr);
        u32_from_le_bytes(bytes.as_slice())
    }

    /// Loads the double word at `addr`, least significant byte first.
    pub fn load_u64(&mut self, addr: u64) -> (v: u64)
        requires
            old(self).wf(),
            addr % 8 == 0,
            addr + 8 <= old(self).image.buf@.len(),
        ensures
            v == spec_u64_from_le_bytes(old(self).image.buf@.subrange(addr as int, addr + 8)),
            final(self).wf(),
            final(self).same_run(old(self)),
            final(self).pending_writes@ == old(self).pending_writes@,
            final(self).touched(
                old(self),
                region_pages(old(self).image.info, addr, 8),
                Set::empty(),
            ),
    {
        let bytes: [u8; 8] = self.load_array::<8>(addr);
        u64_from_le_bytes(bytes.as_slice())
    }

    /// Buffers the writes of the bytes of `slice` to the addresses from
    /// `addr` on.
    pub fn store_region(&mut self, addr: u64, slice: &[u8])
        requires
            old(self).wf(),
            addr + slice@.len() <= old(self).image.buf@.len(),
        ensures
            final(self).wf(),
            final(self).same_run(old(self)),
            final(self).pending_writes@ == old(self).pending_writes@.union_prefer_right(
                region_writes(addr, slice@),
            ),
            final(self).touched(
                old(self),
                region_pages(old(self).image.info, addr, slice@.len()),
                region_pages(old(self).image.info, addr, slice@.len()),
            ),
    {
        let count: usize = slice.len();
        let mut i: usize = 0;
        proof {
            self.image.lemma_root_place();
            assert(self.pending_faults.reads@ =~= old(self).pending_faults.reads@.union(
                region_pages(old(self).image.info, addr, 0).difference(old(self).faults.reads@),
            ));
            assert(self.pending_faults.writes@ =~= old(self).pending_faults.writes@.union(
                region_pages(old(self).image.info, addr, 0).difference(old(self).faults.writes@),
            ));
            assert(self.pending_writes@ =~= old(self).pending_writes@.union_prefer_right(
                region_writes(addr, slice@.take(0)),
            ));
        }
        while i < count
            invariant
                i <= count,
                count == slice@.len(),
                addr + count <= self.image.buf@.len() <= usize::MAX,
                self.wf(),
                self.same_run(old(self)),
                self.pending_writes@ == old(self).pending_writes@.union_prefer_right(
                    region_writes(addr, slice@.take(i as int)),
                ),
                self.touched(
                    old(self),
                    region_pages(old(self).image.info, addr, i as nat),
                    region_pages(old(self).image.info, addr, i as nat),
                ),
            decreases count - i,
        {
            self.store_u8(addr + i as u64, slice[i]);
            proof {
                let info = old(self).image.info;
                let path = path_pages(info, ((addr + i) as u64 / info.page_size) as u64);
                assert(region_pages(info, addr, (i + 1) as nat) == region_pages(
                    info,
                    addr,
                    i as nat,
                ).union(path));
                assert(self.pending_faults.reads@ =~= old(self).pending_faults.reads@.union(
                    region_pages(info, addr, (i + 1) as nat).difference(old(self).faults.reads@),
                ));
                assert(self.pending_faults.writes@ =~= old(self).pending_faults.writes@.union(
                    region_pages(info, addr, (i + 1) as nat).difference(
                        old(self).faults.writes@,
                    ),
                ));
                assert(self.pending_writes@ =~= old(self).pending_writes@.union_prefer_right(
                    region_writes(addr, slice@.take(i + 1)),
                ));
            }
            i += 1;
        }
        assert(slice@.take(count as int) =~= slice@);
    }

    /// Buffers the write of the half word `data` to `addr`, least
    /// significant byte first.
    pub fn store_u16(&mut self, addr: u64, data: u16)
        requires
            old(self).wf(),
            addr % 2 == 0,
            addr + 2 <= old(self).image.buf@.len(),
        ensures
            final(self).wf(),
            final(self).same_run(old(self)),
            final(self).pending_writes@ == old(self).pending_writes@.union_prefer_right(
                region_writes(addr, spec_u16_to_le_bytes(data)),
            ),
            final(self).touched(
                old(self),
                region_pages(old(self).image.info, addr, 2),
                region_pages(old(self).image.info, addr, 2),
            ),
    {
        proof {
            vstd::bytes::lemma_auto_spec_u16_to_from_le_bytes();
        }
        let bytes = u16_to_le_bytes(data);
        self.store_region(addr, bytes.as_slice());
    }

    /// Buffers the write of the word `data` to `addr`, least significant
    /// byte first.
    pub fn store_u32(&mut self, addr: u64, data: u32)
        requires
            old(self).wf(),
            addr % 4 == 0,
            addr + 4 <= old(self).image.buf@.len(),
        ensures
            final(self).wf(),
            final(self).same_run(old(self)),
            final(self).pending_writes@ == old(self).pending_writes@.union_prefer_right(
                region_writes(addr, spec_u32_to_le_bytes(data)),
            ),
            final(self).touched(
                old(self),
                region_pages(old(self).image.info, addr, 4),
                region_pages(old(self).image.info, addr, 4),
            ),
    {
        proof {
            vstd::bytes::lemma_auto_spec_u32_to_from_le_bytes();
        }
        let bytes = u32_to_le_bytes(data);
        self.store_region(addr, bytes.as_slice());
    }

    /// Buffers the write of the double word `data` to `addr`, least
    /// significant byte first.
    pub fn store_u64(&mut self, addr: u64, data: u64)
        requires
            old(self).wf(),
            addr % 8 == 0,
            addr + 8 <= old(self).image.buf@.len(),
        ensures
            final(self).wf(),
            final(self).same_run(old(self)),
            final(self).pending_writes@ == old(self).pending_writes@.union_prefer_right(
                region_writes(addr, spec_u64_to_le_bytes(data)),
            ),
            final(self).touched(
                old(self),
                region_pages(old(self).image.info, addr, 8),
                region_pages(old(self).image.info, addr, 8),
            ),
    {
        proof {
            vstd::bytes::lemma_auto_spec_u64_to_from_le_bytes();
        }
        let bytes = u64_to_le_bytes(data);
        self.store_region(addr, bytes.as_slice());
    }

    /// Register `idx` can be accessed: it lies inside the image, on a
    /// double word boundary.
    pub open spec fn register_ok(&self, idx: usize) -> bool {
        &&& register_addr(self.image.layout, idx) % 8 == 0
        &&& register_addr(self.image.layout, idx) + 8 <= self.image.buf@.len()
    }

    /// Loads register `idx` of the guest.
    pub fn load_register(&mut self, idx: usize) -> (v: u64)
        requires
            old(self).wf(),
            old(self).register_ok(idx),
        ensures
            v == spec_u64_from_le_bytes(
                old(self).image.buf@.subrange(
                    register_addr(old(self).image.layout, idx),
                    register_addr(old(self).image.layout, idx) + 8,
                ),
            ),
            final(self).wf(),
            final(self).same_run(old(self)),
            final(self).pending_writes@ == old(self).pending_writes@,
            final(self).touched(
                old(self),
                region_pages(
                    old(self).image.info,
                    register_addr(old(self).image.layout, idx) as u64,
                    8,
                ),
                Set::empty(),
            ),
    {
        proof {
            self.image.lemma_root_place();
        }
        let addr = get_register_addr(&self.image.layout, idx);
        self.load_u64(addr)
    }

    /// Loads the registers `idxs` of the guest, in order.
    pub fn load_registers<const N: usize>(&mut self, idxs: [usize; N]) -> (out: [u64; N])
        requires
            old(self).wf(),
            forall|k: int| 0 <= k < N ==> old(self).register_ok(#[trigger] idxs@[k]),
        ensures
            forall|k: int|
                0 <= k < N ==> #[trigger] out@[k] == spec_u64_from_le_bytes(
                    old(self).image.buf@.subrange(
                        register_addr(old(self).image.layout, idxs@[k]),
                        register_addr(old(self).image.layout, idxs@[k]) + 8,
                    ),
                ),
            final(self).wf(),
            final(self).same_run(old(self)),
            final(self).pending_writes@ == old(self).pending_writes@,
            final(self).touched(
                old(self),
                registers_pages(old(self).image.info, old(self).image.layout, idxs@, N as nat),
                Set::empty(),
            ),
    {
        let mut out: [u64; N] = [0u64; N];
        let mut i: usize = 0;
        proof {
            assert(self.pending_faults.reads@ =~= old(self).pending_faults.reads@.union(
                registers_pages(
                    old(self).image.info,
                    old(self).image.layout,
                    idxs@,
                    0,
                ).difference(old(self).faults.reads@),
            ));
            assert(self.pending_faults.writes@ =~= old(self).pending_faults.writes@.union(
                Set::<u64>::empty().difference(old(self).faults.writes@),
            ));
        }
        while i < N
            invariant
                i <= N,
                self.wf(),
                self.same_run(old(self)),
                self.pending_writes@ == old(self).pending_writes@,
                forall|k: int| 0 <= k < N ==> old(self).register_ok(#[trigger] idxs@[k]),
                self.touched(
                    old(self),
                    registers_pages(
                        old(self).image.info,
                        old(self).image.layout,
                        idxs@,
                        i as nat,
                    ),
                    Set::empty(),
                ),
                forall|k: int|
                    0 <= k < i ==> #[trigger] out@[k] == spec_u64_from_le_bytes(
                        old(self).image.buf@.subrange(
                            register_addr(old(self).image.layout, idxs@[k]),
                            register_addr(old(self).image.layout, idxs@[k]) + 8,
                        ),
                    ),
            decreases N - i,
        {
            assert(old(self).register_ok(idxs@[i as int]));
            let v = self.load_register(idxs[i]);
            out[i] = v;
            proof {
                let info = old(self).image.info;
                let layout = old(self).image.layout;
                assert(registers_pages(info, layout, idxs@, (i + 1) as nat) == registers_pages(
                    info,
                    layout,
                    idxs@,
                    i as nat,
                ).union(region_pages(info, register_addr(layout, idxs@[i as int]) as u64, 8)));
                assert(self.pending_faults.reads@ =~= old(self).pending_faults.reads@.union(
                    registers_pages(info, layout, idxs@, (i + 1) as nat).difference(
                        old(self).faults.reads@,
                    ),
                ));
                assert(self.pending_faults.writes@ =~= old(self).pending_faults.writes@.union(
                    Set::<u64>::empty().difference(old(self).faults.writes@),
                ));
            }
            i += 1;
        }
        out
    }

    /// Buffers the write of `data` to register `idx` of the guest.
    pub fn store_register(&mut self, idx: usize, data: u64)
        requires
            old(self).wf(),
            old(self).register_ok(idx),
        ensures
            final(self).wf(),
            final(self).same_run(old(self)),
            final(self).pending_writes@ == old(self).pending_writes@.union_prefer_right(
                region_writes(
                    register_addr(old(self).image.layout, idx) as u64,
                    spec_u64_to_le_bytes(data),
                ),
            ),
            final(self).touched(
                old(self),
                region_pages(
                    old(self).image.info,
                    register_addr(old(self).image.layout, idx) as u64,
                    8,
                ),
                region_pages(
                    old(self).image.info,
                    register_addr(old(self).image.layout, idx) as u64,
                    8,
                ),
            ),
    {
        proof {
            self.image.lemma_root_place();
        }
        let addr = get_register_addr(&self.image.layout, idx);
        self.store_u64(addr, data);
    }

    /// Loads the string that starts at `addr` and ends before the first zero
    /// byte, and decodes it as UTF-8.
    pub fn load_string(&mut self, addr: u64) -> (r: Result<String, MonitorError>)
        requires
            old(self).wf(),
            has_terminator(old(self).image.buf@, addr as int),
        ensures
            r is Ok <==> valid_utf8(c_string(old(self).image.buf@, addr as int)),
            r matches Ok(s) ==> s@ == decode_utf8(c_string(old(self).image.buf@, addr as int)),
            r matches Err(e) ==> e == MonitorError::InvalidUtf8,
            final(self).wf(),
            final(self).same_run(old(self)),
            final(self).pending_writes@ == old(self).pending_writes@,
            final(self).touched(
                old(self),
                region_pages(
                    old(self).image.info,
                    addr,
                    c_string(old(self).image.buf@, addr as int).len() + 1,
                ),
                Set::empty(),
            ),
    {
        let ghost buf = self.image.buf@;
        let ghost info = self.image.info;
        let ghost end = choose|end: int| addr <= end < buf.len() && #[trigger] buf[end] == 0;
        let mut bytes: Vec<u8> = Vec::new();
        let mut cur: u64 = addr;
        proof {
            self.image.lemma_root_place();
            assert(self.pending_faults.reads@ =~= old(self).pending_faults.reads@.union(
                region_pages(info, addr, 0).difference(old(self).faults.reads@),
            ));
        }
        let mut b: u8 = self.load_u8(cur);
        proof {
            assert(region_pages(info, addr, 1) == region_pages(info, addr, 0).union(
                path_pages(info, ((addr + 1 - 1) / (info.page_size as int)) as u64),
            ));
            assert(self.pending_faults.reads@ =~= old(self).pending_faults.reads@.union(
                region_pages(info, addr, 1).difference(old(self).faults.reads@),
            ));
            assert(self.pending_faults.writes@ =~= old(self).pending_faults.writes@.union(
                Set::<u64>::empty().difference(old(self).faults.writes@),
            ));
        }
        while b != 0
            invariant
                buf == old(self).image.buf@,
                info == old(self).image.info,
                buf.len() <= usize::MAX,
                addr <= cur <= end < buf.len(),
                buf[end] == 0,
                b == buf[cur as int],
                forall|j: int| addr <= j < cur ==> buf[j] != 0,
                bytes@ == buf.subrange(addr as int, cur as int),
                self.wf(),
                self.same_run(old(self)),
                self.pending_writes@ == old(self).pending_writes@,
                self.touched(
                    old(self),
                    region_pages(info, addr, (cur - addr + 1) as nat),
                    Set::empty(),
                ),
            decreases buf.len() - cur,
        {
            bytes.push(b);
            cur += 1;
            b = self.load_u8(cur);
            proof {
                assert(bytes@ =~= buf.subrange(addr as int, cur as int));
                let n = (cur - addr + 1) as nat;
                assert(region_pages(info, addr, n) == region_pages(
                    info,
                    addr,
                    (n - 1) as nat,
                ).union(path_pages(info, ((addr + n - 1) / (info.page_size as int)) as u64)));
                assert(self.pending_faults.reads@ =~= old(self).pending_faults.reads@.union(
                    region_pages(info, addr, n).difference(old(self).faults.reads@),
                ));
                assert(self.pending_faults.writes@ =~= old(self).pending_faults.writes@.union(
                    Set::<u64>::empty().difference(old(self).faults.writes@),
                ));
            }
        }
        proof {
            lemma_c_string(buf, addr as int, cur as int);
        }
        match string_from_utf8(bytes) {
            Some(s) => Ok(s),
            None => Err(MonitorError::InvalidUtf8),
        }
    }

    /// Loads a value of width `size` from `addr`, widened to a double word.
    pub fn read_mem(&mut self, addr: u64, size: AccessSize) -> (r: Option<u64>)
        requires
            old(self).wf(),
            addr as int % size.bytes() as int == 0,
            addr + size.bytes() <= old(self).image.buf@.len(),
        ensures
            r == Some(
                match size {
                    AccessSize::Byte => old(self).image.buf@[addr as int] as u64,
                    AccessSize::HalfWord => spec_u16_from_le_bytes(
                        old(self).image.buf@.subrange(addr as int, addr + 2),
                    ) as u64,
                    AccessSize::Word => spec_u32_from_le_bytes(
                        old(self).image.buf@.subrange(addr as int, addr + 4),
                    ) as u64,
                    AccessSize::DoubleWord => spec_u64_from_le_bytes(
                        old(self).image.buf@.subrange(addr as int, addr + 8),
                    ),
                },
            ),
            final(self).wf(),
            final(self).same_run(old(self)),
            final(self).pending_writes@ == old(self).pending_writes@,
            final(self).touched(
                old(self),
                region_pages(old(self).image.info, addr, size.bytes()),
                Set::empty(),
            ),
    {
        match size {
            AccessSize::Byte => {
                proof {
                    let info = self.image.info;
                    assert(region_pages(info, addr, 1) =~= path_pages(info, self.page_of(addr))) by {
                        assert(region_pages(info, addr, 0) =~= Set::<u64>::empty());
                    }
                }
                Some(self.load_u8(addr) as u64)
            },
            AccessSize::HalfWord => Some(self.load_u16(addr) as u64),
            AccessSize::Word => Some(self.load_u32(addr) as u64),
            AccessSize::DoubleWord => Some(self.load_u64(addr)),
        }
    }

    /// Buffers the write of the low `size` bytes of `store_data` to `addr`.
    /// Returns `true`: a buffered write cannot fail.
    pub fn write_mem(&mut self, addr: u64, size: AccessSize, store_data: u64) -> (ok: bool)
        requires
            old(self).wf(),
            addr as int % size.bytes() as int == 0,
            addr + size.bytes() <= old(self).image.buf@.len(),
        ensures
            ok,
            final(self).wf(),
            final(self).same_run(old(self)),
            final(self).pending_writes@ == old(self).pending_writes@.union_prefer_right(
                region_writes(
                    addr,
                    match size {
                        AccessSize::Byte => seq![store_data as u8],
                        AccessSize::HalfWord => spec_u16_to_le_bytes(store_data as u16),
                        AccessSize::Word => spec_u32_to_le_bytes(store_data as u32),
                        AccessSize::DoubleWord => spec_u64_to_le_bytes(store_data),
                    },
                ),
            ),
            final(self).touched(
                old(self),
                region_pages(old(self).image.info, addr, size.bytes()),
                region_pages(old(self).image.info, addr, size.bytes()),
            ),
    {
        match size {
            AccessSize::Byte => {
                proof {
                    let info = self.image.info;
                    assert(region_pages(info, addr, 1) =~= path_pages(info, self.page_of(addr))) by {
                        assert(region_pages(info, addr, 0) =~= Set::<u64>::empty());
                    }
                    assert(old(self).pending_writes@.insert(addr, store_data as u8)
                        =~= old(self).pending_writes@.union_prefer_right(
                        region_writes(addr, seq![store_data as u8]),
                    ));
                }
                self.store_u8(addr, store_data as u8)
            },
            AccessSize::HalfWord => self.store_u16(addr, store_data as u16),
            AccessSize::Word => self.store_u32(addr, store_data as u32),
            AccessSize::DoubleWord => self.store_u64(addr, store_data),
        };
        true
    }

    /// Saves the outcome of the instruction under way.
    pub fn save_op(&mut self, op_result: OpCodeResult)
        requires
            old(self).wf(),
        ensures
            final(self).wf(),
            final(self).op_result == Some(op_result),
            final(self).image == old(self).image,
            final(self).syscalls == old(self).syscalls,
            final(self).pending_writes@ == old(self).pending_writes@,
            final(self).touched(old(self), Set::empty(), Set::empty()),
    {
        self.op_result = Some(op_result);
        proof {
            assert(self.pending_faults.reads@ =~= old(self).pending_faults.reads@.union(
                Set::<u64>::empty().difference(old(self).faults.reads@),
            ));
            assert(self.pending_faults.writes@ =~= old(self).pending_faults.writes@.union(
                Set::<u64>::empty().difference(old(self).faults.writes@),
            ));
        }
    }

    /// A copy of the saved outcome, if one is saved.
    pub fn restore_op(&self) -> (r: Option<OpCodeResult>)
        ensures
            r is Some <==> self.op_result is Some,
            r is Some ==> r->0@ == self.op_result->0@,
    {
        match &self.op_result {
            Some(op) => Some(op.clone()),
            None => None,
        }
    }

    /// Ends the instruction under way: applies its buffered writes to the
    /// image, empties the buffer, takes the saved outcome and, where the
    /// instruction made a system call, appends its record to the log.
    pub fn commit(&mut self)
        requires
            old(self).wf(),
            old(self).op_result is Some,
        ensures
            final(self).wf(),
            final(self).image.buf@ == committed(old(self).image.buf@, old(self).pending_writes@),
            final(self).image.info == old(self).image.info,
            final(self).image.layout == old(self).image.layout,
            final(self).image.root == old(self).image.root,
            final(self).pending_writes@ == Map::<u64, u8>::empty(),
            final(self).op_result is None,
            final(self).syscalls@ == (match old(self).op_result->0.syscall {
                Some(record) => old(self).syscalls@.push(record),
                None => old(self).syscalls@,
            }),
            final(self).touched(old(self), Set::empty(), Set::empty()),
    {
        apply_writes(&mut self.image.buf, &self.pending_writes);
        self.pending_writes.clear();
        let op_result = self.op_result.take().unwrap();
        if let Some(record) = op_result.syscall {
            self.syscalls.push(record);
        }
        proof {
            assert(self.pending_faults.reads@ =~= old(self).pending_faults.reads@.union(
                Set::<u64>::empty().difference(old(self).faults.reads@),
            ));
            assert(self.pending_faults.writes@ =~= old(self).pending_faults.writes@.union(
                Set::<u64>::empty().difference(old(self).faults.writes@),
            ));
        }
    }

    /// Commits the instruction under way where its outcome was saved, and
    /// refuses, with the monitor unchanged, where it was not.
    pub fn try_commit(&mut self) -> (r: Result<(), MonitorError>)
        requires
            old(self).wf(),
        ensures
            final(self).wf(),
            r is Ok <==> old(self).op_result is Some,
            r matches Err(e) ==> e == MonitorError::MissingResult && *final(self) == *old(self),
            r is Ok ==> {
                &&& final(self).image.buf@ == committed(
                    old(self).image.buf@,
                    old(self).pending_writes@,
                )
                &&& final(self).image.info == old(self).image.info
                &&& final(self).image.layout == old(self).image.layout
                &&& final(self).image.root == old(self).image.root
                &&& final(self).pending_writes@ == Map::<u64, u8>::empty()
                &&& final(self).op_result is None
                &&& final(self).syscalls@ == (match old(self).op_result->0.syscall {
                    Some(record) => old(self).syscalls@.push(record),
                    None => old(self).syscalls@,
                })
                &&& final(self).touched(old(self), Set::empty(), Set::empty())
            },
    {
        if self.op_result.is_none() {
            return Err(MonitorError::MissingResult);
        }
        self.commit();
        Ok(())
    }

    /// The pages that were read in this segment and not charged before, in
    /// increasing order.
    pub fn pending_page_reads(&self) -> (pages: Vec<u64>)
        ensures
            pages@.to_set() == self.pending_faults.reads@,
            forall|i: int, j: int| 0 <= i < j < pages@.len() ==> pages@[i] < pages@[j],
    {
        pages_of(&self.pending_faults.reads)
    }

    /// The pages that were written in this segment and not charged before,
    /// in increasing order.
    pub fn pending_page_writes(&self) -> (pages: Vec<u64>)
        ensures
            pages@.to_set() == self.pending_faults.writes@,
            forall|i: int, j: int| 0 <= i < j < pages@.len() ==> pages@[i] < pages@[j],
    {
        pages_of(&self.pending_faults.writes)
    }

    /// The cycles that paging in the pages read in this segment costs, but
    /// for the pages that were charged before.
    pub fn pending_page_read_cycles(&self) -> (cycles: Option<usize>)
        requires
            self.wf(),
        ensures
            cycles == fit(page_cycles(self.image.info, self.pending_faults.reads@)),
    {
        proof {
            self.image.lemma_root_place();
        }
        compute_page_cycles(&self.image.info, &self.pending_faults.reads)
    }

    /// The cycles that the pages touched in this segment cost, reads and
    /// writes together, but for the pages that were charged before.
    pub fn total_pending_fault_cycles(&self) -> (cycles: Option<usize>)
        requires
            self.wf(),
        ensures
            cycles == fit(
                page_cycles(self.image.info, self.pending_faults.reads@) + page_cycles(
                    self.image.info,
                    self.pending_faults.writes@,
                ),
            ),
    {
        proof {
            self.image.lemma_root_place();
            lemma_page_cycles_nonnegative(self.image.info, self.pending_faults.reads@);
            lemma_page_cycles_nonnegative(self.image.info, self.pending_faults.writes@);
        }
        let reads = compute_page_cycles(&self.image.info, &self.pending_faults.reads);
        let writes = compute_page_cycles(&self.image.info, &self.pending_faults.writes);
        match (reads, writes) {
            (Some(r), Some(w)) => r.checked_add(w),
            _ => None,
        }
    }

    /// The cycles that the pages charged earlier in this session cost, reads
    /// and writes together.
    pub fn total_fault_cycles(&self) -> (cycles: Option<usize>)
        requires
            self.wf(),
        ensures
            cycles == fit(
                page_cycles(self.image.info, self.faults.reads@) + page_cycles(
                    self.image.info,
                    self.faults.writes@,
                ),
            ),
    {
        proof {
            self.image.lemma_root_place();
            lemma_page_cycles_nonnegative(self.image.info, self.faults.reads@);
            lemma_page_cycles_nonnegative(self.image.info, self.faults.writes@);
        }
        let reads = compute_page_cycles(&self.image.info, &self.faults.reads);
        let writes = compute_page_cycles(&self.image.info, &self.faults.writes);
        match (reads, writes) {
            (Some(r), Some(w)) => r.checked_add(w),
            _ => None,
        }
    }

    /// Ends the segment: the log of system calls is emptied, and the pages
    /// that were pending count as charged from now on.
    pub fn clear_segment(&mut self)
        requires
            old(self).wf(),
        ensures
            final(self).wf(),
            final(self).image == old(self).image,
            final(self).op_result == old(self).op_result,
            final(self).pending_writes@ == old(self).pending_writes@,
            final(self).syscalls@ == Seq::<SyscallRecord>::empty(),
            final(self).faults.reads@ == old(self).faults.reads@.union(
                old(self).pending_faults.reads@,
            ),
            final(self).faults.writes@ == old(self).faults.writes@.union(
                old(self).pending_faults.writes@,
            ),
            final(self).pending_faults.reads@ == Set::<u64>::empty(),
            final(self).pending_faults.writes@ == Set::<u64>::empty(),
    {
        self.faults.append(&mut self.pending_faults);
        self.syscalls.clear();
    }

    /// Ends the session: the segment is ended, every buffered write is
    /// dropped, and no page counts as charged any more.
    pub fn clear_session(&mut self)
        requires
            old(self).wf(),
        ensures
            final(self).wf(),
            final(self).image == old(self).image,
            final(self).op_result == old(self).op_result,
            final(self).pending_writes@ == Map::<u64, u8>::empty(),
            final(self).syscalls@ == Seq::<SyscallRecord>::empty(),
            final(self).faults.reads@ == Set::<u64>::empty(),
            final(self).faults.writes@ == Set::<u64>::empty(),
            final(self).pending_faults.reads@ == Set::<u64>::empty(),
            final(self).pending_faults.writes@ == Set::<u64>::empty(),
    {
        self.clear_segment();
        self.faults.clear();
        self.pending_writes.clear();
    }
}

} // verus!
