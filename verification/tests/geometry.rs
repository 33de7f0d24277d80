use risc0_zkvm_platform::memory::PAGE_TABLE;
use zkvm_memory::arith::{div_ceil, round_up};
use zkvm_memory::digest::{BLOCK_BYTES, DIGEST_BYTES, DOUBLE_WORD_SIZE, WORD_SIZE};
use zkvm_memory::geometry::PageTableInfo;

fn page_table_size(max_mem: u64, page_size: u64) -> u64 {
    PageTableInfo::new(max_mem, page_size).page_table_size
}

#[test]
fn page_table_info() {
    const PAGE_SIZE_1K: u64 = 1024;
    let info = PageTableInfo::new(PAGE_TABLE.start() as u64, PAGE_SIZE_1K);
    assert_eq!(info.page_table_size, 7035584);
    assert_eq!(info.page_table_size / PAGE_SIZE_1K, 6870);
    assert_eq!(info.page_table_size / PAGE_SIZE_1K * PAGE_SIZE_1K, 7034880);
    assert_eq!(info.layers, vec![6815744, 212992, 6656, 192]);
    assert_eq!(info.root_addr, 0xd6b5ac0);
    assert_eq!(info.root_page_addr, 0xd6b5800);
    assert_eq!(info.num_root_entries, 22);
    assert_eq!(info.root_idx, 219862);
}

#[test]
fn page_size_1k() {
    const PAGE_SIZE_1K: u64 = 1024;
    assert_eq!(
        page_table_size(PAGE_SIZE_1K, PAGE_SIZE_1K),
        DIGEST_BYTES as u64 * 2
    );
    assert_eq!(
        page_table_size(PAGE_SIZE_1K * 2, PAGE_SIZE_1K),
        DIGEST_BYTES as u64 * 2
    );
    assert_eq!(
        page_table_size(PAGE_SIZE_1K * 256, PAGE_SIZE_1K),
        DIGEST_BYTES as u64 * 256 + 256
    );
    let info = PageTableInfo::new(256 * 1024 * 1024, PAGE_SIZE_1K);
    assert_eq!(
        info.layers,
        vec![8 * 1024 * 1024, 256 * 1024, 8 * 1024, 256]
    );
    assert_eq!(
        info.page_table_size,
        8 * 1024 * 1024 + 256 * 1024 + 8 * 1024 + 256
    );
}

#[test]
fn page_size_4k() {
    const PAGE_SIZE_4K: u64 = 4 * 1024;
    assert_eq!(
        page_table_size(PAGE_SIZE_4K, PAGE_SIZE_4K),
        DIGEST_BYTES as u64 * 2
    );
    assert_eq!(
        page_table_size(PAGE_SIZE_4K * 2, PAGE_SIZE_4K),
        DIGEST_BYTES as u64 * 2
    );
    assert_eq!(
        page_table_size(2 * 1024 * 1024, PAGE_SIZE_4K),
        16 * 1024 + 128
    );
    let info = PageTableInfo::new(256 * 1024 * 1024, PAGE_SIZE_4K);
    assert_eq!(info.layers, vec![2 * 1024 * 1024, 16 * 1024, 128]);
    assert_eq!(info.page_table_size, 2 * 1024 * 1024 + 16 * 1024 + 128);
}

#[test]
fn page_size_1k_fractional() {
    const PAGE_SIZE_1K: u64 = 1024;
    let info = PageTableInfo::new(0x1A00, PAGE_SIZE_1K);
    assert_eq!(info.layers, vec![192]);
    assert_eq!(info.page_table_size, 192);
    assert_eq!(info.root_addr, 0x1AC0);
    assert_eq!(info.root_page_addr, 0x1800);
    assert_eq!(
        info.num_root_entries,
        (0x1A00 - 0x1800) / DIGEST_BYTES as u64 + 6
    );
}

#[test]
fn new_agrees_with_try_new() {
    let a = PageTableInfo::new(0x1A00, 1024);
    let b = PageTableInfo::try_new(0x1A00, 1024).unwrap();
    assert_eq!(a.layers, b.layers);
    assert_eq!(a.page_table_size, b.page_table_size);
    assert_eq!(a.root_addr, b.root_addr);
    assert_eq!(a.root_idx, b.root_idx);
    assert_eq!(a.num_pages, b.num_pages);
    assert_eq!(a.page_size, 1024);
    assert_eq!(a.page_table_addr, 0x1A00);
}

#[test]
fn table_is_whole_blocks_and_root_follows_the_pages() {
    for &(base, page_size) in &[
        (1024u64, 1024u64),
        (0x1A00, 1024),
        (0x0D00_0000, 1024),
        (0x0D00_0000, 4096),
        (256 * 1024 * 1024, 1024),
        (1000, 100),
        (4096, 64),
        (77777, 33),
    ] {
        if let Some(info) = PageTableInfo::try_new(base, page_size) {
            assert_eq!(info.page_table_size % BLOCK_BYTES as u64, 0);
            assert_eq!(info.root_idx, info.num_pages);
            assert_eq!(info.root_page_addr, info.num_pages * page_size);
            assert_eq!(info.root_addr, base + info.page_table_size);
        }
    }
}

#[test]
fn one_page_region_has_a_two_entry_table() {
    for &page_size in &[128u64, 1024, 4096, 65536] {
        let info = PageTableInfo::try_new(page_size, page_size).unwrap();
        assert_eq!(info.page_table_size, 2 * DIGEST_BYTES as u64);
        assert_eq!(info.layers, vec![DIGEST_BYTES as u64]);
    }
}

#[test]
fn geometry_is_refused_where_none_exists() {
    // the memory is smaller than one page
    assert!(PageTableInfo::try_new(1023, 1024).is_none());
    // a page holds no more than one digest
    assert!(PageTableInfo::try_new(1024, 32).is_none());
    assert!(PageTableInfo::try_new(1024, 0).is_none());
    // the table would end beyond the address space
    assert!(PageTableInfo::try_new(u64::MAX, 33).is_none());
    // rounding the table up to whole blocks moves its end into the next page:
    // the layers take 4064 bytes and end in page 127, the rounded table ends
    // at the start of page 128
    assert!(PageTableInfo::try_new(4096, 64).is_none());
}

#[test]
fn page_addresses_and_indices() {
    let info = PageTableInfo::try_new(0x1A00, 1024).unwrap();
    assert_eq!(info.get_page_addr(0), 0);
    assert_eq!(info.get_page_addr(5), 5 * 1024);
    assert_eq!(info.get_page_index(0), 0);
    assert_eq!(info.get_page_index(1023), 0);
    assert_eq!(info.get_page_index(1024), 1);
    assert_eq!(info.get_page_index(0x1AC0), 6);
    assert_eq!(info.get_page_entry_addr(0), 0x1A00);
    assert_eq!(info.get_page_entry_addr(5), 0x1AA0);
}

#[test]
fn ceiling_division_and_rounding() {
    assert_eq!(div_ceil(0, 64), 0);
    assert_eq!(div_ceil(1, 64), 1);
    assert_eq!(div_ceil(64, 64), 1);
    assert_eq!(div_ceil(65, 64), 2);
    assert_eq!(round_up(0, 64), 0);
    assert_eq!(round_up(32, 64), 64);
    assert_eq!(round_up(64, 64), 64);
    assert_eq!(round_up(7035552, 64), 7035584);
    assert_eq!(round_up(u64::MAX - 63, 64), u64::MAX - 63);
}

#[test]
fn sizes_agree_with_the_platform() {
    assert_eq!(DIGEST_BYTES, risc0_zkvm_platform::syscall::DIGEST_BYTES);
    assert_eq!(WORD_SIZE, risc0_zkvm_platform::WORD_SIZE);
    assert_eq!(DOUBLE_WORD_SIZE, 2 * risc0_zkvm_platform::WORD_SIZE);
    assert_eq!(BLOCK_BYTES, risc0_zkp::core::hash::sha::BLOCK_BYTES);
    assert_eq!(DIGEST_BYTES, risc0_zkp::core::digest::DIGEST_BYTES);
}

#[test]
fn a_copy_holds_the_same_layout() {
    let info = PageTableInfo::try_new(0x0D00_0000, 1024).unwrap();
    let copy = info.clone();
    assert_eq!(copy.page_size, info.page_size);
    assert_eq!(copy.page_table_addr, info.page_table_addr);
    assert_eq!(copy.page_table_size, info.page_table_size);
    assert_eq!(copy.root_addr, info.root_addr);
    assert_eq!(copy.root_idx, info.root_idx);
    assert_eq!(copy.root_page_addr, info.root_page_addr);
    assert_eq!(copy.num_pages, info.num_pages);
    assert_eq!(copy.num_root_entries, info.num_root_entries);
    assert_eq!(copy.layers, info.layers);
}
