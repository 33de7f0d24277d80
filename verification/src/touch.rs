//! The sets of pages that loads and stores have touched.

use vstd::prelude::*;
use std::collections::BTreeSet;
use vstd::std_specs::cmp::OrdSpec;
use vstd::std_specs::iter::IteratorSpec;
use crate::geometry::PageTableInfo;
use crate::image::MemoryImage;

verus! {

broadcast use {vstd::std_specs::btree::group_btree_axioms, vstd::laws_cmp::group_laws_cmp};

/// Whether an access reads or writes.
#[derive(Clone, Copy, Debug, PartialEq, Eq, Structural)]
pub enum IncludeDir {
    /// The access reads the page.
    Read,
    /// The access writes the page.
    Write,
}

/// The indices of the pages that were read, and of those that were written.
#[derive(Debug)]
pub struct PageFaults {
    /// The pages that were read.
    pub reads: BTreeSet<u64>,
    /// The pages that were written.
    pub writes: BTreeSet<u64>,
}

impl PageFaults {
    /// No page was touched.
    pub fn new() -> (faults: PageFaults)
        ensures
            faults.reads@ == Set::<u64>::empty(),
            faults.writes@ == Set::<u64>::empty(),
    {
        PageFaults { reads: BTreeSet::new(), writes: BTreeSet::new() }
    }

    /// Forgets every page.
    pub fn clear(&mut self)
        ensures
            final(self).reads@ == Set::<u64>::empty(),
            final(self).writes@ == Set::<u64>::empty(),
    {
        self.reads.clear();
        self.writes.clear();
    }

    /// Moves the pages of `rhs` into `self`.
    pub fn append(&mut self, rhs: &mut PageFaults)
        ensures
            final(self).reads@ == old(self).reads@.union(old(rhs).reads@),
            final(self).writes@ == old(self).writes@.union(old(rhs).writes@),
            final(rhs).reads@ == Set::<u64>::empty(),
            final(rhs).writes@ == Set::<u64>::empty(),
            old(self).reads@.finite() ==> final(self).reads@.finite(),
            old(self).writes@.finite() ==> final(self).writes@.finite(),
    {
        move_pages(&mut self.reads, &mut rhs.reads);
        move_pages(&mut self.writes, &mut rhs.writes);
    }
}

/// The pages on the way from page `page_idx` up to the root page: the page
/// itself, the page that holds its table entry, and so on. A page at or
/// above the root page stands alone.
pub open spec fn path_pages(info: PageTableInfo, page_idx: u64) -> Set<u64>
    decreases info.root_idx - page_idx,
{
    let next = (info.page_table_addr + 32 * page_idx) / (info.page_size as int);
    if page_idx < info.root_idx && page_idx < next <= info.root_idx {
        path_pages(info, next as u64).insert(page_idx)
    } else {
        set![page_idx]
    }
}

/// The pages on the ways up from each of the `len` bytes that start at
/// `addr`.
pub open spec fn region_pages(info: PageTableInfo, addr: u64, len: nat) -> Set<u64>
    decreases len,
{
    if len == 0 {
        Set::empty()
    } else {
        region_pages(info, addr, (len - 1) as nat).union(
            path_pages(info, ((addr + len - 1) / (info.page_size as int)) as u64),
        )
    }
}

/// Marks the pages on the way from the page of `addr` up to the root page
/// as pending, but for those that were charged already.
pub fn mark_path(
    pending: &mut BTreeSet<u64>,
    charged: &BTreeSet<u64>,
    image: &MemoryImage,
    addr: u64,
)
    requires
        image.wf(),
    ensures
        final(pending)@ == old(pending)@.union(
            path_pages(image.info, (addr / image.info.page_size) as u64).difference(charged@),
        ),
        old(pending)@.finite() ==> final(pending)@.finite(),
{
    let info = &image.info;
    let ghost start = (addr / info.page_size) as u64;
    let ghost goal = old(pending)@.union(path_pages(*info, start).difference(charged@));
    proof {
        image.lemma_root_place();
    }
    let mut page_idx: u64 = info.get_page_index(addr);
    while page_idx < info.root_idx
        invariant
            image.wf(),
            info == &image.info,
            pending@.union(path_pages(*info, page_idx).difference(charged@)) =~= goal,
            old(pending)@.finite() ==> pending@.finite(),
        decreases info.root_idx - page_idx,
    {
        proof {
            image.lemma_root_place();
            image.lemma_entry_place(page_idx as int);
        }
        if !charged.contains(&page_idx) {
            pending.insert(page_idx);
        }
        let entry_addr: u64 = info.get_page_entry_addr(page_idx);
        page_idx = info.get_page_index(entry_addr);
    }
    if !charged.contains(&page_idx) {
        pending.insert(page_idx);
    }
}

/// The items of a sequence in increasing order grow from each to the next.
pub proof fn lemma_increasing(items: Seq<&u64>)
    requires
        vstd::std_specs::btree::increasing_seq(items),
    ensures
        forall|i: int, j: int| 0 <= i < j < items.len() ==> *items[i] < *items[j],
{
    assert(vstd::laws_cmp::obeys_cmp::<u64>());
    assert(vstd::laws_cmp::obeys_cmp::<&u64>());
    vstd::std_specs::btree::axiom_increasing_seq_meaning(items);
    assert forall|i: int, j: int| 0 <= i < j < items.len() implies *items[i] < *items[j] by {
        assert(OrdSpec::cmp_spec(&items[i], &items[j]) is Less);
    }
}

/// The pages of `set`, in increasing order.
pub fn pages_of(set: &BTreeSet<u64>) -> (pages: Vec<u64>)
    ensures
        pages@.to_set() == set@,
        pages@.len() == set@.len(),
        forall|i: int, j: int| 0 <= i < j < pages@.len() ==> pages@[i] < pages@[j],
{
    let ghost all: Seq<&u64> = vstd::std_specs::btree::spec_btree_keys_iter(set).remaining();
    let mut pages: Vec<u64> = Vec::new();
    for page in it: set.iter()
        invariant
            it.seq() == all,
            pages@ =~= all.unref().take(it.index()),
    {
        pages.push(*page);
    }
    proof {
        assert(all.unref().take(all.len() as int) =~= all.unref());
        lemma_increasing(all);
    }
    pages
}

/// The items among the first `n` of `items`.
pub open spec fn firsts(items: Seq<&u64>, n: int) -> Set<u64> {
    Set::new(|p: u64| exists|k: int| 0 <= k < n && k < items.len() && *#[trigger] items[k] == p)
}

/// All the items of a sequence are its first `len` items.
pub proof fn lemma_firsts_all(items: Seq<&u64>)
    ensures
        firsts(items, items.len() as int) == items.unref().to_set(),
{
    let n = items.len() as int;
    assert forall|p: u64| items.unref().to_set().contains(p) implies firsts(items, n).contains(
        p,
    ) by {
        let k = choose|k: int| 0 <= k < items.unref().len() && items.unref()[k] == p;
        assert(*items[k] == p);
    }
    assert forall|p: u64| firsts(items, n).contains(p) implies items.unref().to_set().contains(
        p,
    ) by {
        let k = choose|k: int| 0 <= k < items.len() && *#[trigger] items[k] == p;
        assert(items.unref()[k] == p);
    }
    assert(firsts(items, n) =~= items.unref().to_set());
}

/// Moves every page of `from` into `into`.
pub fn move_pages(into: &mut BTreeSet<u64>, from: &mut BTreeSet<u64>)
    ensures
        final(into)@ == old(into)@.union(old(from)@),
        final(from)@ == Set::<u64>::empty(),
        old(into)@.finite() ==> final(into)@.finite(),
{
    let ghost all: Seq<&u64> = vstd::std_specs::btree::spec_btree_keys_iter(&*from).remaining();
    proof {
        lemma_firsts_all(all);
        assert(firsts(all, 0) =~= Set::<u64>::empty());
    }
    for page in it: from.iter()
        invariant
            it.seq() == all,
            into@ =~= old(into)@.union(firsts(all, it.index())),
            old(into)@.finite() ==> into@.finite(),
    {
        let ghost n = it.index();
        into.insert(*page);
        proof {
            assert(*all[n] == *page);
            assert(firsts(all, n + 1) =~= firsts(all, n).insert(*page));
        }
    }
    from.clear();
}

} // verus!
