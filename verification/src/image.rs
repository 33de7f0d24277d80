//! The memory image of a guest: one flat byte buffer that holds the primary
//! memory, the page table over it, and the root page.

use vstd::prelude::*;
use vstd::bytes::{spec_u32_to_le_bytes, u32_to_le_bytes};
use crate::digest::Digest;
use crate::geometry::{PageTableInfo, lemma_entry_above_page, lemma_valid_geometry};
use crate::layout::MemoryLayout;
use crate::sha::{digest_at, hash_range, page_digest};

verus! {

/// A loaded program: its entry point and the words of its initial memory.
#[derive(Debug)]
pub struct Program {
    /// The address at which execution starts.
    pub entry: u64,
    /// The initial memory as (address, word) pairs, in the order in which they
    /// are written.
    pub image: Vec<(u64, u32)>,
}

impl Clone for Program {
    fn clone(&self) -> (copy: Program)
        ensures
            copy.entry == self.entry,
            copy.image@ == self.image@,
    {
        let mut image: Vec<(u64, u32)> = Vec::new();
        let mut k: usize = 0;
        while k < self.image.len()
            invariant
                k <= self.image@.len(),
                image@ == self.image@.take(k as int),
            decreases self.image@.len() - k,
        {
            image.push(self.image[k]);
            assert(image@ =~= self.image@.take(k + 1));
            k += 1;
        }
        assert(image@ =~= self.image@);
        Program { entry: self.entry, image }
    }
}

/// Why a memory image failed verification.
#[derive(Clone, Copy, Debug)]
pub enum IntegrityError {
    /// The table entry of page `page_idx` is not the digest of the page.
    PageEntry { page_idx: u64, expected: Digest, actual: Digest },
    /// The stored root is not the digest of the root page.
    Root { expected: Digest, actual: Digest },
}

/// The bytes of page `idx`.
pub open spec fn page_bytes(buf: Seq<u8>, page_size: int, idx: int) -> Seq<u8> {
    buf.subrange(idx * page_size, idx * page_size + page_size)
}

/// The bytes of the table entry of page `idx`.
pub open spec fn entry_bytes(buf: Seq<u8>, base: int, idx: int) -> Seq<u8> {
    buf.subrange(base + 32 * idx, base + 32 * idx + 32)
}

/// The table entry of page `idx` is the digest of the page.
pub open spec fn entry_ok(buf: Seq<u8>, base: int, page_size: int, idx: int) -> bool {
    entry_bytes(buf, base, idx) == page_digest(page_bytes(buf, page_size, idx))
}

/// `buf` after the word `word` was written at `addr`, least significant byte
/// first.
pub open spec fn store_word(buf: Seq<u8>, addr: int, word: u32) -> Seq<u8> {
    Seq::new(
        buf.len(),
        |i: int|
            if addr <= i < addr + 4 {
                spec_u32_to_le_bytes(word)[i - addr]
            } else {
                buf[i]
            },
    )
}

/// `buf` after all of `words` were written, in order.
pub open spec fn loaded(buf: Seq<u8>, words: Seq<(u64, u32)>) -> Seq<u8>
    decreases words.len(),
{
    if words.len() == 0 {
        buf
    } else {
        store_word(loaded(buf, words.drop_last()), words.last().0 as int, words.last().1)
    }
}

/// A memory of `len` zero bytes.
pub open spec fn zeros(len: int) -> Seq<u8> {
    Seq::new(len as nat, |i: int| 0u8)
}

/// Writes `word` into `buf` at `addr`, least significant byte first.
pub fn write_word(buf: &mut Vec<u8>, addr: usize, word: u32)
    requires
        addr + 4 <= old(buf)@.len(),
    ensures
        final(buf)@ == store_word(old(buf)@, addr as int, word),
{
    let size: usize = buf.len();
    let bytes = u32_to_le_bytes(word);
    proof {
        vstd::bytes::lemma_auto_spec_u32_to_from_le_bytes();
    }
    let mut i: usize = 0;
    while i < 4
        invariant
            i <= 4,
            addr + 4 <= buf@.len(),
            size == buf@.len(),
            buf@.len() == old(buf)@.len(),
            bytes@ == spec_u32_to_le_bytes(word),
            bytes@.len() == 4,
            forall|k: int|
                0 <= k < buf@.len() ==> buf@[k] == (if addr <= k < addr + i {
                    bytes@[k - addr]
                } else {
                    old(buf)@[k]
                }),
        decreases 4 - i,
    {
        buf[addr + i] = bytes[i];
        i += 1;
    }
    assert(buf@ =~= store_word(old(buf)@, addr as int, word));
}

/// Writes the 32 bytes of `d` into `buf` at `at`.
pub fn write_digest(buf: &mut Vec<u8>, at: usize, d: &Digest)
    requires
        at + 32 <= old(buf)@.len(),
    ensures
        final(buf)@.len() == old(buf)@.len(),
        forall|k: int|
            0 <= k < old(buf)@.len() ==> final(buf)@[k] == (if at <= k < at + 32 {
                d@[k - at]
            } else {
                old(buf)@[k]
            }),
{
    let size: usize = buf.len();
    let mut i: usize = 0;
    while i < 32
        invariant
            i <= 32,
            at + 32 <= buf@.len(),
            size == buf@.len(),
            buf@.len() == old(buf)@.len(),
            forall|k: int|
                0 <= k < buf@.len() ==> buf@[k] == (if at <= k < at + i {
                    d@[k - at]
                } else {
                    old(buf)@[k]
                }),
        decreases 32 - i,
    {
        buf[at + i] = d.bytes[i];
        i += 1;
    }
}

/// The full memory state of a guest, with the page table over it.
#[derive(Debug)]
pub struct MemoryImage {
    /// The whole address space, byte by byte.
    pub buf: Vec<u8>,
    /// The layout of the address space.
    pub layout: MemoryLayout,
    /// The geometry of the page table.
    pub info: PageTableInfo,
    /// The digest of the root page as of the last hashing.
    pub root: Digest,
}

impl MemoryImage {
    /// The buffer spans the address space, and the geometry is that of the
    /// layout.
    pub open spec fn wf(&self) -> bool {
        &&& self.layout.supports(self.info.page_size)
        &&& self.info.describes(self.layout.page_table_addr as int, self.info.page_size as int)
        &&& self.buf@.len() == self.layout.mem_size
    }

    /// An address inside the table entries of the pages below the root page.
    pub open spec fn in_entries(&self, addr: int) -> bool {
        self.info.page_table_addr <= addr < self.info.page_table_addr + 32 * self.info.root_idx
    }

    /// The bytes of the root page that lie below the root address.
    pub open spec fn root_page_bytes(&self) -> Seq<u8> {
        self.buf@.subrange(self.info.root_page_addr as int, self.info.root_addr as int)
    }

    /// Every page below the root page has its digest in its table entry.
    pub open spec fn table_consistent(&self) -> bool {
        forall|i: int|
            0 <= i < self.info.root_idx ==> #[trigger] entry_ok(
                self.buf@,
                self.info.page_table_addr as int,
                self.info.page_size as int,
                i,
            )
    }

    /// The stored root is the digest of the root page.
    pub open spec fn root_ok(&self) -> bool {
        self.root@ == page_digest(self.root_page_bytes())
    }

    /// The page table is a Merkle tree over the memory, and the stored root
    /// is the digest of the root page.
    pub open spec fn consistent(&self) -> bool {
        &&& self.table_consistent()
        &&& self.root_ok()
    }

    /// The first page on the way from page `page_idx` up to the root page
    /// whose table entry is not its digest, if there is one. The way leads
    /// from a page to the page that holds its entry.
    pub open spec fn first_bad_page(&self, page_idx: int) -> Option<int>
        decreases self.info.root_idx - page_idx,
    {
        let base = self.info.page_table_addr as int;
        let ps = self.info.page_size as int;
        if page_idx < 0 || page_idx >= self.info.root_idx {
            None
        } else if !entry_ok(self.buf@, base, ps, page_idx) {
            Some(page_idx)
        } else if page_idx < (base + 32 * page_idx) / ps <= self.info.root_idx {
            self.first_bad_page((base + 32 * page_idx) / ps)
        } else {
            None
        }
    }

    /// The digests on the way from the page of `addr` up to the root are all
    /// in place.
    pub open spec fn verifies(&self, addr: u64) -> bool {
        &&& self.first_bad_page(addr as int / self.info.page_size as int) is None
        &&& self.root_ok()
    }

    /// Where the root page lies: it starts and ends on a block boundary, at
    /// least one page lies below it, and it ends within the buffer.
    pub proof fn lemma_root_place(&self)
        requires
            self.wf(),
        ensures
            self.info.root_idx >= 1,
            self.info.root_page_addr == self.info.root_idx * self.info.page_size,
            self.info.root_page_addr <= self.info.root_addr,
            self.info.root_addr <= self.buf@.len() <= usize::MAX,
            self.info.page_size % 64 == 0,
            self.info.root_addr % 64 == 0,
            self.info.root_page_addr % 64 == 0,
            self.info.page_size > 32,
    {
        let base = self.info.page_table_addr as int;
        let ps = self.info.page_size as int;
        let r = self.info.root_idx as int;
        lemma_valid_geometry(base, ps);
        vstd::arithmetic::div_mod::lemma_div_is_ordered(ps, self.info.root_addr as int, ps);
        vstd::arithmetic::div_mod::lemma_div_basics(ps);
        vstd::arithmetic::div_mod::lemma_fundamental_div_mod(ps, 64);
        assert(r * ps == (r * (ps / 64)) * 64) by (nonlinear_arith)
            requires
                ps == 64 * (ps / 64),
        ;
        vstd::arithmetic::div_mod::lemma_mod_multiples_basic(r * (ps / 64), 64);
    }

    /// Where page `i` and its table entry lie: the page ends at or before its
    /// entry, and the entry ends at or before the root address.
    pub proof fn lemma_entry_place(&self, i: int)
        requires
            self.wf(),
            0 <= i < self.info.root_idx,
        ensures
            (i + 1) * self.info.page_size <= self.info.page_table_addr + 32 * i,
            self.info.page_table_addr + 32 * i + 32 <= self.info.root_addr,
            i < (self.info.page_table_addr + 32 * i) / (self.info.page_size as int)
                <= self.info.root_idx,
    {
        let base = self.info.page_table_addr as int;
        let ps = self.info.page_size as int;
        lemma_valid_geometry(base, ps);
        lemma_entry_above_page(base, ps, i);
        let e = base + 32 * i;
        vstd::arithmetic::div_mod::lemma_fundamental_div_mod(e, ps);
        vstd::arithmetic::div_mod::lemma_mod_bound(e, ps);
        assert(i < e / ps) by (nonlinear_arith)
            requires
                (i + 1) * ps <= e,
                e == ps * (e / ps) + e % ps,
                0 <= e % ps < ps,
                ps > 0,
        ;
        vstd::arithmetic::div_mod::lemma_div_is_ordered(e, self.info.root_addr as int, ps);
    }

    /// In a consistent table no page on the way up is bad.
    pub proof fn lemma_no_bad_page(&self, page_idx: int)
        requires
            self.table_consistent(),
        ensures
            self.first_bad_page(page_idx) is None,
        decreases self.info.root_idx - page_idx,
    {
        let base = self.info.page_table_addr as int;
        let ps = self.info.page_size as int;
        if 0 <= page_idx < self.info.root_idx && page_idx < (base + 32 * page_idx) / ps
            <= self.info.root_idx {
            self.lemma_no_bad_page((base + 32 * page_idx) / ps);
        }
    }

    /// A consistent image verifies at every address.
    pub proof fn lemma_consistent_verifies(&self, addr: u64)
        requires
            self.consistent(),
        ensures
            self.verifies(addr),
    {
        self.lemma_no_bad_page(addr as int / self.info.page_size as int);
    }

    /// Two images of one geometry that agree outside the table entries, both
    /// with a consistent table, agree on the first `n` entries too.
    pub proof fn lemma_entries_agree(&self, other: &MemoryImage, n: int)
        requires
            self.wf(),
            other.wf(),
            self.info == other.info,
            self.layout == other.layout,
            self.table_consistent(),
            other.table_consistent(),
            forall|x: int|
                0 <= x < self.buf@.len() && !self.in_entries(x) ==> self.buf@[x] == other.buf@[x],
            0 <= n <= self.info.root_idx,
        ensures
            forall|x: int|
                self.info.page_table_addr <= x < self.info.page_table_addr + 32 * n
                    ==> self.buf@[x] == other.buf@[x],
        decreases n,
    {
        if n > 0 {
            let base = self.info.page_table_addr as int;
            let ps = self.info.page_size as int;
            let j = n - 1;
            self.lemma_entries_agree(other, j);
            self.lemma_root_place();
            self.lemma_entry_place(j);
            assert(j * ps + ps == (j + 1) * ps) by (nonlinear_arith);
            assert(j * ps >= 0) by (nonlinear_arith)
                requires
                    j >= 0,
                    ps > 0,
            ;
            assert forall|x: int| j * ps <= x < j * ps + ps implies self.buf@[x]
                == other.buf@[x] by {
                if self.in_entries(x) {
                    assert(base <= x < base + 32 * j);
                } else {
                    assert(0 <= x < self.buf@.len());
                }
            }
            assert(page_bytes(self.buf@, ps, j) =~= page_bytes(other.buf@, ps, j));
            assert(entry_ok(self.buf@, base, ps, j));
            assert(entry_ok(other.buf@, base, ps, j));
            let mine = entry_bytes(self.buf@, base, j);
            let theirs = entry_bytes(other.buf@, base, j);
            assert(mine == theirs);
            assert forall|x: int| base + 32 * j <= x < base + 32 * n implies self.buf@[x]
                == other.buf@[x] by {
                assert(mine[x - (base + 32 * j)] == self.buf@[x]);
                assert(theirs[x - (base + 32 * j)] == other.buf@[x]);
            }
        }
    }

    /// The table is determined by the memory outside it: two images of one
    /// geometry that agree outside the table entries, both with a consistent
    /// table, hold the same bytes and have the same root page. Hashing an
    /// image twice therefore gives what hashing it once gives.
    pub proof fn lemma_table_unique(&self, other: &MemoryImage)
        requires
            self.wf(),
            other.wf(),
            self.info == other.info,
            self.layout == other.layout,
            self.table_consistent(),
            other.table_consistent(),
            forall|x: int|
                0 <= x < self.buf@.len() && !self.in_entries(x) ==> self.buf@[x] == other.buf@[x],
        ensures
            self.buf@ == other.buf@,
            self.root_page_bytes() == other.root_page_bytes(),
            self.root_ok() && other.root_ok() ==> self.root@ == other.root@,
    {
        self.lemma_entries_agree(other, self.info.root_idx as int);
        assert forall|x: int| 0 <= x < self.buf@.len() implies self.buf@[x] == other.buf@[x] by {
            if self.in_entries(x) {
                assert(self.info.page_table_addr <= x < self.info.page_table_addr + 32
                    * self.info.root_idx);
            }
        }
        assert(self.buf@ =~= other.buf@);
    }

    /// Tests whether the image is well formed: whether its buffer spans the
    /// address space of its layout, and its geometry is the one that the
    /// layout has for its page size.
    pub fn is_well_formed(&self) -> (ok: bool)
        ensures
            ok == self.wf(),
    {
        let info = match self.layout.geometry(self.info.page_size) {
            Some(info) => info,
            None => {
                return false;
            },
        };
        if self.layout.mem_size > usize::MAX as u64 || self.buf.len() != self.layout.mem_size as usize {
            return false;
        }
        if self.info.page_table_addr != info.page_table_addr || self.info.page_table_size
            != info.page_table_size || self.info.root_addr != info.root_addr || self.info.root_idx
            != info.root_idx || self.info.root_page_addr != info.root_page_addr
            || self.info.num_pages != info.num_pages || self.info.num_root_entries
            != info.num_root_entries {
            return false;
        }
        let count: usize = info.layers.len();
        if self.info.layers.len() != count {
            assert(self.info.layers_view().len() != info.layers_view().len());
            return false;
        }
        let mut k: usize = 0;
        while k < count
            invariant
                k <= count,
                count == info.layers@.len(),
                count == self.info.layers@.len(),
                info.layers_view() == crate::geometry::layer_sizes(
                    self.layout.page_table_addr as int,
                    self.info.page_size as int,
                ),
                forall|j: int| 0 <= j < k ==> self.info.layers@[j] == info.layers@[j],
            decreases count - k,
        {
            if self.info.layers[k] != info.layers[k] {
                assert(self.info.layers_view()[k as int] != info.layers_view()[k as int]);
                return false;
            }
            k += 1;
        }
        assert(self.info.layers_view() =~= info.layers_view());
        true
    }

    /// Builds the initial memory image of `program`: a zeroed address space
    /// into which the program's words are written, with the page table and
    /// the root computed over it.
    pub fn new(program: &Program, page_size: u64, layout: &MemoryLayout) -> (img: MemoryImage)
        requires
            layout.supports(page_size),
            forall|k: int|
                0 <= k < program.image@.len() ==> (#[trigger] program.image@[k]).0 + 4
                    <= layout.mem_size,
        ensures
            img.wf(),
            img.consistent(),
            img.layout == *layout,
            img.info.page_size == page_size,
            forall|a: int|
                0 <= a < layout.mem_size && !img.in_entries(a) ==> img.buf@[a] == loaded(
                    zeros(layout.mem_size as int),
                    program.image@,
                )[a],
            forall|addr: u64| img.verifies(addr),
    {
        let info = layout.geometry(page_size).unwrap();
        let mut buf: Vec<u8> = vec![0u8; layout.mem_size as usize];
        assert(buf@ =~= zeros(layout.mem_size as int));
        let count: usize = program.image.len();
        let mut k: usize = 0;
        assert(program.image@.subrange(0, 0) =~= Seq::<(u64, u32)>::empty());
        while k < count
            invariant
                k <= count,
                count == program.image@.len(),
                layout.mem_size <= usize::MAX,
                buf@.len() == layout.mem_size,
                forall|j: int|
                    0 <= j < program.image@.len() ==> (#[trigger] program.image@[j]).0 + 4
                        <= layout.mem_size,
                buf@ == loaded(zeros(layout.mem_size as int), program.image@.subrange(0, k as int)),
            decreases count - k,
        {
            let (addr, word) = program.image[k];
            proof {
                let next = program.image@.subrange(0, k + 1);
                assert(next.drop_last() =~= program.image@.subrange(0, k as int));
                assert(next.last() == program.image@[k as int]);
            }
            write_word(&mut buf, addr as usize, word);
            k += 1;
        }
        assert(program.image@.subrange(0, count as int) =~= program.image@);
        let mut img = MemoryImage { buf, layout: *layout, info, root: Digest { bytes: [0u8; 32] } };
        let ghost unhashed = img;
        img.hash_pages();
        assert forall|a: int| 0 <= a < layout.mem_size && !img.in_entries(a) implies img.buf@[a]
            == loaded(zeros(layout.mem_size as int), program.image@)[a] by {
            assert(!unhashed.in_entries(a));
            assert(img.buf@[a] == unhashed.buf@[a]);
        }
        assert forall|addr: u64| img.verifies(addr) by {
            img.lemma_consistent_verifies(addr);
        }
        img
    }

    /// Recomputes the page table and the root from the bytes of the memory.
    ///
    /// The pages are hashed in the order of their indices, so that every page
    /// of the table is hashed after the entries in it were written.
    pub fn hash_pages(&mut self)
        requires
            old(self).wf(),
        ensures
            final(self).wf(),
            final(self).consistent(),
            final(self).layout == old(self).layout,
            final(self).info == old(self).info,
            forall|a: int|
                0 <= a < old(self).buf@.len() && !old(self).in_entries(a) ==> final(self).buf@[a]
                    == old(self).buf@[a],
            old(self).table_consistent() ==> final(self).buf@ == old(self).buf@,
            old(self).consistent() ==> final(self).root@ == old(self).root@,
    {
        let ps: u64 = self.info.page_size;
        let base: u64 = self.info.page_table_addr;
        let root_idx: u64 = self.info.root_idx;
        let mut i: u64 = 0;
        while i < root_idx
            invariant
                i <= root_idx,
                self.wf(),
                self.info == old(self).info,
                self.layout == old(self).layout,
                self.root == old(self).root,
                ps == self.info.page_size,
                base == self.info.page_table_addr,
                root_idx == self.info.root_idx,
                forall|j: int| 0 <= j < i ==> #[trigger] entry_ok(self.buf@, base as int, ps as int, j),
                self.buf@.len() == old(self).buf@.len(),
                forall|a: int|
                    0 <= a < self.buf@.len() && !(base <= a < base + 32 * i) ==> self.buf@[a]
                        == old(self).buf@[a],
                old(self).table_consistent() ==> self.buf@ == old(self).buf@,
            decreases root_idx - i,
        {
            proof {
                self.lemma_root_place();
                self.lemma_entry_place(i as int);
                assert(i * ps + ps == (i + 1) * ps) by (nonlinear_arith);
            }
            let page_addr: u64 = i * ps;
            let d = hash_range(self.buf.as_slice(), page_addr as usize, ps as usize);
            let entry_addr: u64 = base + 32 * i;
            let ghost before = self.buf@;
            write_digest(&mut self.buf, entry_addr as usize, &d);
            proof {
                let after = self.buf@;
                assert forall|j: int| 0 <= j < i + 1 implies #[trigger] entry_ok(
                    after,
                    base as int,
                    ps as int,
                    j,
                ) by {
                    self.lemma_entry_place(j);
                    assert(j * ps + ps == (j + 1) * ps) by (nonlinear_arith);
                    assert((j + 1) * ps <= (i + 1) * ps) by (nonlinear_arith)
                        requires
                            j <= i,
                            ps > 0,
                    ;
                    assert(page_bytes(after, ps as int, j) =~= page_bytes(before, ps as int, j));
                    if j < i {
                        assert(entry_bytes(after, base as int, j) =~= entry_bytes(
                            before,
                            base as int,
                            j,
                        ));
                        assert(entry_ok(before, base as int, ps as int, j));
                    } else {
                        assert(entry_bytes(after, base as int, j) =~= d@);
                    }
                }
                if old(self).table_consistent() {
                    assert(entry_ok(before, base as int, ps as int, i as int));
                    assert(entry_bytes(before, base as int, i as int) == d@);
                    assert(after =~= before);
                }
            }
            i += 1;
        }
        proof {
            self.lemma_root_place();
        }
        let root_page_addr: u64 = self.info.root_page_addr;
        let root_len: u64 = self.info.root_addr - root_page_addr;
        self.root = hash_range(self.buf.as_slice(), root_page_addr as usize, root_len as usize);
    }

    /// The Merkle root over the memory as of the last hashing.
    pub fn get_root(&self) -> (root: Digest)
        ensures
            root == self.root,
    {
        self.root
    }

    /// Verifies the digests on the way from the page of `addr` up to the
    /// root: each page's digest against its table entry, and at last the
    /// digest of the root page against the stored root.
    pub fn check(&self, addr: u64) -> (r: Result<(), IntegrityError>)
        requires
            self.wf(),
        ensures
            r is Ok <==> self.verifies(addr),
            match r {
                Ok(_) => true,
                Err(IntegrityError::PageEntry { page_idx, expected, actual }) => {
                    &&& self.first_bad_page(addr as int / self.info.page_size as int) == Some(
                        page_idx as int,
                    )
                    &&& expected@ == page_digest(
                        page_bytes(self.buf@, self.info.page_size as int, page_idx as int),
                    )
                    &&& actual@ == entry_bytes(
                        self.buf@,
                        self.info.page_table_addr as int,
                        page_idx as int,
                    )
                },
                Err(IntegrityError::Root { expected, actual }) => {
                    &&& self.first_bad_page(addr as int / self.info.page_size as int) is None
                    &&& expected@ == page_digest(self.root_page_bytes())
                    &&& actual == self.root
                },
            },
    {
        let ps: u64 = self.info.page_size;
        let base: u64 = self.info.page_table_addr;
        let root_idx: u64 = self.info.root_idx;
        let ghost start = addr as int / ps as int;
        proof {
            self.lemma_root_place();
        }
        let mut page_idx: u64 = self.info.get_page_index(addr);
        while page_idx < root_idx
            invariant
                self.wf(),
                ps == self.info.page_size,
                base == self.info.page_table_addr,
                root_idx == self.info.root_idx,
                start == addr as int / ps as int,
                self.first_bad_page(page_idx as int) == self.first_bad_page(start),
            decreases root_idx - page_idx,
        {
            proof {
                self.lemma_entry_place(page_idx as int);
                assert(page_idx * ps + ps == (page_idx + 1) * ps) by (nonlinear_arith);
            }
            let page_addr: u64 = self.info.get_page_addr(page_idx);
            let expected = hash_range(self.buf.as_slice(), page_addr as usize, ps as usize);
            let entry_addr: u64 = self.info.get_page_entry_addr(page_idx);
            let actual = digest_at(self.buf.as_slice(), entry_addr as usize);
            if expected != actual {
                return Err(IntegrityError::PageEntry { page_idx, expected, actual });
            }
            page_idx = self.info.get_page_index(entry_addr);
        }
        let root_page_addr: u64 = self.info.root_page_addr;
        let root_len: u64 = self.info.root_addr - root_page_addr;
        let expected = hash_range(self.buf.as_slice(), root_page_addr as usize, root_len as usize);
        let actual = self.get_root();
        if expected != actual {
            return Err(IntegrityError::Root { expected, actual });
        }
        Ok(())
    }
}

} // verus!
