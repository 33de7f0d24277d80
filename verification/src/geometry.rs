//! Geometry of the page table: how many layers of digests cover a memory of a
//! given size, how large each layer is, and where the root lies.
//!
//! The table starts right above the primary memory. Its first layer holds one
//! digest for each whole page of primary memory, the next layer one digest for
//! each whole page of the first layer, and so on until a layer is smaller than
//! a page. What is left over ends up in the root page.

use vstd::prelude::*;
use crate::arith::{lemma_round_up, round_up, round_up_spec};
use crate::digest::{BLOCK_BYTES, DIGEST_BYTES};

verus! {

/// Bytes of digests needed to cover the whole pages of a region of `remain`
/// bytes: one digest per page.
pub open spec fn layer_bytes(remain: int, page_size: int) -> int {
    (remain / page_size) * 32
}

/// The sizes of the layers over a region of `remain` bytes, leaf layer first.
///
/// A region smaller than a page has no layer. No layering exists for pages of
/// at most one digest, since a layer would then not be smaller than the region
/// that it covers.
pub open spec fn layer_sizes(remain: int, page_size: int) -> Seq<int>
    decreases remain,
{
    if page_size > 32 && remain >= page_size {
        proof {
            lemma_layer_shrinks(remain, page_size);
        }
        seq![layer_bytes(remain, page_size)] + layer_sizes(
            layer_bytes(remain, page_size),
            page_size,
        )
    } else {
        Seq::empty()
    }
}

/// The sum of a sequence of sizes.
pub open spec fn total(sizes: Seq<int>) -> int
    decreases sizes.len(),
{
    if sizes.len() == 0 {
        0
    } else {
        sizes[0] + total(sizes.drop_first())
    }
}

/// Bytes taken by all the layers over a region of `remain` bytes, before
/// rounding.
pub open spec fn table_bytes(remain: int, page_size: int) -> int {
    total(layer_sizes(remain, page_size))
}

/// Bytes taken by the page table: all layers, rounded up to whole blocks.
pub open spec fn table_size(base: int, page_size: int) -> int {
    round_up_spec(table_bytes(base, page_size), 64)
}

/// The address right after the page table, where the root digest would stand.
pub open spec fn root_addr(base: int, page_size: int) -> int {
    base + table_size(base, page_size)
}

/// The index of the page that holds the end of the table.
pub open spec fn root_index(base: int, page_size: int) -> int {
    root_addr(base, page_size) / page_size
}

/// Pages of primary memory and table together, counted before rounding.
pub open spec fn page_count(base: int, page_size: int) -> int {
    (base + table_bytes(base, page_size)) / page_size
}

/// A table base and a page size for which a page table can be laid out.
///
/// The memory holds at least one page, a page is larger than one digest, the
/// table ends within the 64-bit address space, and rounding the table up to
/// whole blocks does not move its end into another page.
pub open spec fn valid_geometry(base: int, page_size: int) -> bool {
    &&& page_size > 32
    &&& base >= page_size
    &&& root_addr(base, page_size) <= u64::MAX
    &&& root_index(base, page_size) == page_count(base, page_size)
}

/// One layer is smaller than the region that it covers.
pub proof fn lemma_layer_shrinks(remain: int, page_size: int)
    requires
        page_size > 32,
        remain >= page_size,
    ensures
        32 <= layer_bytes(remain, page_size) < remain,
        layer_bytes(remain, page_size) % 32 == 0,
{
    let n = remain / page_size;
    vstd::arithmetic::div_mod::lemma_fundamental_div_mod(remain, page_size);
    vstd::arithmetic::div_mod::lemma_mod_bound(remain, page_size);
    assert(n >= 1) by (nonlinear_arith)
        requires
            remain == page_size * n + remain % page_size,
            0 <= remain % page_size < page_size,
            remain >= page_size,
            page_size > 32,
    ;
    assert(n * 32 < page_size * n) by (nonlinear_arith)
        requires
            n >= 1,
            page_size > 32,
    ;
    assert(n * 32 >= 32) by (nonlinear_arith)
        requires
            n >= 1,
    ;
    vstd::arithmetic::div_mod::lemma_mod_multiples_basic(n, 32);
}

/// The table over a region of at least one page is its first layer followed by
/// the table over that layer.
pub proof fn lemma_table_unfold(remain: int, page_size: int)
    requires
        page_size > 32,
        remain >= page_size,
    ensures
        table_bytes(remain, page_size) == layer_bytes(remain, page_size) + table_bytes(
            layer_bytes(remain, page_size),
            page_size,
        ),
{
    let first = layer_bytes(remain, page_size);
    let rest = layer_sizes(first, page_size);
    let all = layer_sizes(remain, page_size);
    assert(all == seq![first] + rest);
    assert(all.drop_first() =~= rest);
    assert(all[0] == first);
}

/// The table takes a whole number of digests, and none when the region is
/// smaller than a page.
pub proof fn lemma_table_bytes(remain: int, page_size: int)
    ensures
        table_bytes(remain, page_size) >= 0,
        table_bytes(remain, page_size) % 32 == 0,
        remain < page_size ==> table_bytes(remain, page_size) == 0,
        page_size > 32 && remain >= page_size ==> table_bytes(remain, page_size) >= 32,
    decreases remain,
{
    if page_size > 32 && remain >= page_size {
        lemma_layer_shrinks(remain, page_size);
        lemma_table_unfold(remain, page_size);
        lemma_table_bytes(layer_bytes(remain, page_size), page_size);
    } else {
        assert(layer_sizes(remain, page_size) =~= Seq::<int>::empty());
    }
}

/// The entries of the table reach past the pages that they stand for: a
/// region and the table over it together are larger than as many pages as
/// the table has entries, by one digest at least.
pub proof fn lemma_table_reaches(remain: int, page_size: int)
    requires
        page_size > 32,
        remain >= page_size,
    ensures
        remain + table_bytes(remain, page_size) >= page_size * (table_bytes(remain, page_size)
            / 32) + 32,
    decreases remain,
{
    let n = remain / page_size;
    let first = layer_bytes(remain, page_size);
    let rest = table_bytes(first, page_size);
    lemma_layer_shrinks(remain, page_size);
    lemma_table_unfold(remain, page_size);
    lemma_table_bytes(first, page_size);
    vstd::arithmetic::div_mod::lemma_fundamental_div_mod(remain, page_size);
    vstd::arithmetic::div_mod::lemma_mod_bound(remain, page_size);
    assert(remain >= page_size * n);
    assert(first == n * 32);
    assert(n >= 1);
    if first >= page_size {
        lemma_table_reaches(first, page_size);
        let m = rest / 32;
        assert(rest == 32 * m);
        assert((first + rest) / 32 == n + m);
        assert(page_size * (n + m) == page_size * n + page_size * m) by (nonlinear_arith);
    } else {
        assert(rest == 0);
        assert(first / 32 == n);
    }
}

/// Where the table has room for an entry of every page below the root page,
/// each such page ends at or before its own entry: the entry of page `i`
/// lies in a later page.
pub proof fn lemma_entry_above_page(base: int, page_size: int, i: int)
    requires
        valid_geometry(base, page_size),
        32 * root_index(base, page_size) <= table_size(base, page_size),
        0 <= i < root_index(base, page_size),
    ensures
        (i + 1) * page_size <= base + 32 * i,
{
    let bytes = table_bytes(base, page_size);
    let entries = bytes / 32;
    let r = root_index(base, page_size);
    lemma_table_bytes(base, page_size);
    lemma_table_reaches(base, page_size);
    lemma_valid_geometry(base, page_size);
    assert(bytes == 32 * entries);
    vstd::arithmetic::div_mod::lemma_fundamental_div_mod(base + bytes, page_size);
    vstd::arithmetic::div_mod::lemma_mod_bound(base + bytes, page_size);
    assert(r * page_size <= base + bytes) by (nonlinear_arith)
        requires
            base + bytes == page_size * r + (base + bytes) % page_size,
            0 <= (base + bytes) % page_size,
    ;
    if r <= entries {
        assert(r * page_size <= base + 32 * (r - 1)) by (nonlinear_arith)
            requires
                base + 32 * entries >= page_size * entries + 32,
                r <= entries,
                page_size > 32,
        ;
    } else {
        let size = table_size(base, page_size);
        assert(size == 64 * (size / 64)) by {
            vstd::arithmetic::div_mod::lemma_fundamental_div_mod(size, 64);
        }
        assert(32 * r == bytes + 32);
    }
    assert((i + 1) * page_size <= base + 32 * i) by (nonlinear_arith)
        requires
            r * page_size <= base + 32 * (r - 1),
            0 <= i < r,
            page_size > 32,
    ;
}

/// Over a memory of exactly one page the table is one digest, which rounding
/// turns into one block: two entries.
pub proof fn lemma_one_page_table(page_size: int)
    requires
        page_size > 32,
    ensures
        layer_sizes(page_size, page_size) == seq![32int],
        table_bytes(page_size, page_size) == 32,
        table_size(page_size, page_size) == 64,
{
    vstd::arithmetic::div_mod::lemma_div_basics(page_size);
    assert(layer_bytes(page_size, page_size) == 32);
    lemma_table_unfold(page_size, page_size);
    lemma_table_bytes(32, page_size);
    assert(layer_sizes(32, page_size) =~= Seq::<int>::empty());
    assert(layer_sizes(page_size, page_size) =~= seq![32int]);
    assert((32 + 64 - 1) / 64 == 1int);
}

/// For every valid geometry the table is a whole number of blocks, and the
/// root page comes right after the pages that the table accounts for.
pub proof fn lemma_valid_geometry(base: int, page_size: int)
    requires
        valid_geometry(base, page_size),
    ensures
        table_size(base, page_size) % 64 == 0,
        table_bytes(base, page_size) <= table_size(base, page_size) < table_bytes(
            base,
            page_size,
        ) + 64,
        root_index(base, page_size) * page_size <= root_addr(base, page_size),
        root_index(base, page_size) * page_size == page_count(base, page_size) * page_size,
{
    lemma_table_bytes(base, page_size);
    lemma_round_up(table_bytes(base, page_size), 64);
    let r = root_addr(base, page_size);
    vstd::arithmetic::div_mod::lemma_fundamental_div_mod(r, page_size);
    vstd::arithmetic::div_mod::lemma_mod_bound(r, page_size);
    assert((r / page_size) * page_size == page_size * (r / page_size)) by (nonlinear_arith);
}

/// The layout of the page table over a primary memory of `page_table_addr`
/// bytes.
#[derive(Debug)]
pub struct PageTableInfo {
    /// Bytes per page.
    pub page_size: u64,
    /// Where the page table starts: right above the primary memory.
    pub page_table_addr: u64,
    /// Bytes taken by all layers, rounded up to whole blocks.
    pub page_table_size: u64,
    /// The address right after the page table.
    pub root_addr: u64,
    /// The index of the root page.
    pub root_idx: u64,
    /// The address at which the root page starts.
    pub root_page_addr: u64,
    /// Pages below the root page.
    pub num_pages: u64,
    /// Digest-sized entries of the root page that lie below `root_addr`.
    pub num_root_entries: u64,
    /// Bytes of each layer, leaf layer first.
    pub layers: Vec<u64>,
}

impl Clone for PageTableInfo {
    fn clone(&self) -> (copy: PageTableInfo)
        ensures
            copy.page_size == self.page_size,
            copy.page_table_addr == self.page_table_addr,
            copy.page_table_size == self.page_table_size,
            copy.root_addr == self.root_addr,
            copy.root_idx == self.root_idx,
            copy.root_page_addr == self.root_page_addr,
            copy.num_pages == self.num_pages,
            copy.num_root_entries == self.num_root_entries,
            copy.layers@ == self.layers@,
    {
        let layers = self.layers.clone();
        assert(layers@ =~= self.layers@);
        PageTableInfo {
            page_size: self.page_size,
            page_table_addr: self.page_table_addr,
            page_table_size: self.page_table_size,
            root_addr: self.root_addr,
            root_idx: self.root_idx,
            root_page_addr: self.root_page_addr,
            num_pages: self.num_pages,
            num_root_entries: self.num_root_entries,
            layers,
        }
    }
}

impl PageTableInfo {
    /// The layer sizes as mathematical integers.
    pub open spec fn layers_view(&self) -> Seq<int> {
        self.layers@.map_values(|x: u64| x as int)
    }

    /// This value is the layout for the given table base and page size.
    pub open spec fn describes(&self, base: int, page_size: int) -> bool {
        &&& self.page_size == page_size
        &&& self.page_table_addr == base
        &&& self.page_table_size == table_size(base, page_size)
        &&& self.root_addr == root_addr(base, page_size)
        &&& self.root_idx == root_index(base, page_size)
        &&& self.root_page_addr == root_index(base, page_size) * page_size
        &&& self.num_pages == page_count(base, page_size)
        &&& self.num_root_entries == (root_addr(base, page_size) - root_index(base, page_size)
            * page_size) / 32
        &&& self.layers_view() == layer_sizes(base, page_size)
    }

    /// The fields are those of a valid geometry.
    pub open spec fn wf(&self) -> bool {
        &&& valid_geometry(self.page_table_addr as int, self.page_size as int)
        &&& self.describes(self.page_table_addr as int, self.page_size as int)
    }

    /// Lays out the page table for a primary memory of `page_table_addr` bytes,
    /// or returns `None` where no valid layout exists.
    pub fn try_new(page_table_addr: u64, page_size: u64) -> (r: Option<PageTableInfo>)
        ensures
            r is Some <==> valid_geometry(page_table_addr as int, page_size as int),
            r is Some ==> r->0.describes(page_table_addr as int, page_size as int),
            r is Some ==> r->0.page_table_size % 64 == 0 && r->0.root_idx == r->0.num_pages,
    {
        if page_size <= DIGEST_BYTES as u64 || page_table_addr < page_size {
            return None;
        }
        let ghost base = page_table_addr as int;
        let ghost ps = page_size as int;
        let mut layers: Vec<u64> = Vec::new();
        let mut sum: u64 = 0;
        let mut remain: u64 = page_table_addr;
        proof {
            assert(layers@.map_values(|x: u64| x as int) =~= Seq::<int>::empty());
        }
        while remain >= page_size
            invariant
                ps == page_size as int,
                base == page_table_addr as int,
                ps > 32,
                remain <= page_table_addr,
                sum % 32 == 0,
                layers@.map_values(|x: u64| x as int) + layer_sizes(remain as int, ps)
                    == layer_sizes(base, ps),
                sum + table_bytes(remain as int, ps) == table_bytes(base, ps),
            decreases remain,
        {
            let ghost before = remain as int;
            let ghost done = layers@.map_values(|x: u64| x as int);
            proof {
                lemma_layer_shrinks(before, ps);
                lemma_table_unfold(before, ps);
                lemma_table_bytes(layer_bytes(before, ps), ps);
            }
            let pages: u64 = remain / page_size;
            remain = pages * (DIGEST_BYTES as u64);
            layers.push(remain);
            proof {
                let rest = layer_sizes(remain as int, ps);
                assert(layers@.map_values(|x: u64| x as int) =~= done.push(remain as int));
                assert(done.push(remain as int) + rest =~= done + (seq![remain as int] + rest));
            }
            match sum.checked_add(remain) {
                Some(s) => {
                    sum = s;
                },
                None => {
                    proof {
                        lemma_round_up(table_bytes(base, ps), 64);
                    }
                    return None;
                },
            }
        }
        proof {
            lemma_table_bytes(remain as int, ps);
            lemma_round_up(table_bytes(base, ps), 64);
        }
        let unrounded_end: u64 = match page_table_addr.checked_add(sum) {
            Some(e) => e,
            None => {
                return None;
            },
        };
        let num_pages: u64 = unrounded_end / page_size;
        let page_table_size: u64 = round_up(sum, BLOCK_BYTES as u64);
        let root_addr: u64 = match page_table_addr.checked_add(page_table_size) {
            Some(a) => a,
            None => {
                return None;
            },
        };
        let root_idx: u64 = root_addr / page_size;
        if root_idx != num_pages {
            return None;
        }
        proof {
            lemma_valid_geometry(base, ps);
        }
        let root_page_addr: u64 = root_idx * page_size;
        let num_root_entries: u64 = (root_addr - root_page_addr) / (DIGEST_BYTES as u64);
        Some(
            PageTableInfo {
                page_size,
                page_table_addr,
                page_table_size,
                root_addr,
                root_idx,
                root_page_addr,
                num_pages,
                num_root_entries,
                layers,
            },
        )
    }

    /// Lays out the page table for a primary memory of `page_table_addr` bytes.
    pub fn new(page_table_addr: u64, page_size: u64) -> (info: PageTableInfo)
        requires
            valid_geometry(page_table_addr as int, page_size as int),
        ensures
            info.describes(page_table_addr as int, page_size as int),
            info.wf(),
            info.page_table_size % 64 == 0,
            info.root_idx == info.num_pages,
            info.root_page_addr == info.num_pages * page_size,
    {
        PageTableInfo::try_new(page_table_addr, page_size).unwrap()
    }

    /// The address at which page `page_idx` starts.
    pub fn get_page_addr(&self, page_idx: u64) -> (addr: u64)
        requires
            page_idx * self.page_size <= u64::MAX,
        ensures
            addr == page_idx * self.page_size,
    {
        page_idx * self.page_size
    }

    /// The index of the page that holds `addr`.
    pub fn get_page_index(&self, addr: u64) -> (page_idx: u64)
        requires
            self.page_size > 0,
        ensures
            page_idx == addr as int / self.page_size as int,
    {
        addr / self.page_size
    }

    /// The address of the table entry that holds the digest of page `page_idx`.
    pub fn get_page_entry_addr(&self, page_idx: u64) -> (addr: u64)
        requires
            self.page_table_addr + page_idx * 32 <= u64::MAX,
        ensures
            addr == self.page_table_addr + page_idx * 32,
    {
        self.page_table_addr + page_idx * (DIGEST_BYTES as u64)
    }
}

} // verus!
