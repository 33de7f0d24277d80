use std::collections::BTreeSet;
use zkvm_memory::geometry::PageTableInfo;
use zkvm_memory::image::{MemoryImage, Program};
use zkvm_memory::layout::MemoryLayout;
use zkvm_memory::monitor::{
    checked_cycles_per_page, compute_page_cycles, cycles_per_page, get_register_addr, AccessSize,
    MemoryMonitor, MonitorError, OpCodeResult, SyscallRecord, SHA_INIT, SHA_LOAD, SHA_MAIN,
};
use zkvm_memory::touch::PageFaults;

fn layout() -> MemoryLayout {
    MemoryLayout {
        mem_size: 0x2000,
        page_table_addr: 0x1A00,
        register_base: 0x1000,
    }
}

fn monitor() -> MemoryMonitor {
    let layout = layout();
    assert!(layout.geometry(1024).is_some());
    let program = Program {
        entry: 0x400,
        image: vec![
            (0x400, 0x1234_5678),
            (0x404, 0xdead_beef),
            (0x500, 0x6c6c_6568),
            (0x504, 0x0000_006f),
            (0x600, 0x00ff_fe41),
            (0x1008, 0x9abc_def0),
            (0x100c, 0x1234_5678),
        ],
    };
    MemoryMonitor::new(MemoryImage::new(&program, 1024, &layout))
}

fn plain_op() -> OpCodeResult {
    OpCodeResult {
        pc: 0x404,
        extra_cycles: 0,
        syscall: None,
    }
}

fn set(pages: &[u64]) -> BTreeSet<u64> {
    pages.iter().copied().collect()
}

#[test]
fn new_monitor_is_empty() {
    let m = monitor();
    assert!(m.pending_writes.is_empty());
    assert!(m.op_result.is_none());
    assert!(m.restore_op().is_none());
    assert!(m.syscalls.is_empty());
    assert!(m.faults.reads.is_empty() && m.faults.writes.is_empty());
    assert!(m.pending_faults.reads.is_empty() && m.pending_faults.writes.is_empty());
}

#[test]
fn loads_read_least_significant_byte_first() {
    let mut m = monitor();
    assert_eq!(m.load_u8(0x400), 0x78);
    assert_eq!(m.load_u8(0x403), 0x12);
    assert_eq!(m.load_u16(0x400), 0x5678);
    assert_eq!(m.load_u16(0x402), 0x1234);
    assert_eq!(m.load_u32(0x400), 0x1234_5678);
    assert_eq!(m.load_u32(0x404), 0xdead_beef);
    assert_eq!(m.load_u64(0x400), 0xdead_beef_1234_5678);
    assert_eq!(m.load_array::<3>(0x401), [0x56, 0x34, 0x12]);
    assert_eq!(m.load_array::<0>(0x401), [0u8; 0]);
    assert_eq!(m.load_u8(0x1fff), 0);
}

#[test]
fn stores_are_buffered_until_commit() {
    let mut m = monitor();
    m.store_u32(0x400, 0xaabb_ccdd);
    m.store_u8(0x800, 7);
    // not visible within the instruction
    assert_eq!(m.load_u32(0x400), 0x1234_5678);
    assert_eq!(m.load_u8(0x800), 0);
    assert_eq!(m.pending_writes.len(), 5);
    assert_eq!(m.pending_writes.get(&0x400), Some(&0xdd));
    assert_eq!(m.pending_writes.get(&0x403), Some(&0xaa));
    m.save_op(plain_op());
    m.commit();
    assert!(m.pending_writes.is_empty());
    assert!(m.op_result.is_none());
    assert_eq!(m.load_u32(0x400), 0xaabb_ccdd);
    assert_eq!(m.load_u8(0x800), 7);
    // what no store named is as it was
    assert_eq!(m.load_u32(0x404), 0xdead_beef);
}

#[test]
fn the_last_write_to_an_address_wins() {
    let mut m = monitor();
    m.store_u8(0x10, 1);
    m.store_u8(0x10, 2);
    m.store_u16(0x10, 0x0403);
    m.store_u8(0x11, 9);
    assert_eq!(m.pending_writes.len(), 2);
    m.save_op(plain_op());
    m.commit();
    assert_eq!(m.load_u8(0x10), 3);
    assert_eq!(m.load_u8(0x11), 9);
}

#[test]
fn stores_of_every_width() {
    let mut m = monitor();
    m.store_u8(0x20, 0x11);
    m.store_u16(0x22, 0x3322);
    m.store_u32(0x24, 0x7766_5544);
    m.store_u64(0x28, 0xffee_ddcc_bbaa_9988);
    m.store_region(0x31, &[1, 2, 3]);
    m.store_region(0x40, &[]);
    m.save_op(plain_op());
    m.commit();
    assert_eq!(
        m.load_array::<16>(0x20),
        [0x11, 0, 0x22, 0x33, 0x44, 0x55, 0x66, 0x77, 0x88, 0x99, 0xaa, 0xbb, 0xcc, 0xdd, 0xee, 0xff]
    );
    assert_eq!(m.load_array::<5>(0x30), [0, 1, 2, 3, 0]);
    assert_eq!(m.load_u64(0x28), 0xffee_ddcc_bbaa_9988);
}

#[test]
fn commit_takes_the_saved_result() {
    let mut m = monitor();
    m.save_op(OpCodeResult {
        pc: 0x40c,
        extra_cycles: 3,
        syscall: None,
    });
    let saved = m.restore_op().unwrap();
    assert_eq!(saved.pc, 0x40c);
    assert_eq!(saved.extra_cycles, 3);
    assert!(saved.syscall.is_none());
    // restoring does not consume
    assert!(m.restore_op().is_some());
    m.commit();
    assert!(m.restore_op().is_none());
    assert!(m.syscalls.is_empty());
}

#[test]
fn commit_logs_the_system_call() {
    let mut m = monitor();
    m.save_op(OpCodeResult {
        pc: 8,
        extra_cycles: 0,
        syscall: Some(SyscallRecord {
            to_guest: vec![1, 2, 3],
            regs: (4, 5),
        }),
    });
    let copy = m.restore_op().unwrap().syscall.unwrap();
    assert_eq!(copy.to_guest, vec![1, 2, 3]);
    assert_eq!(copy.regs, (4, 5));
    m.commit();
    m.save_op(plain_op());
    m.commit();
    m.save_op(OpCodeResult {
        pc: 16,
        extra_cycles: 0,
        syscall: Some(SyscallRecord {
            to_guest: vec![],
            regs: (6, 7),
        }),
    });
    m.commit();
    assert_eq!(m.syscalls.len(), 2);
    assert_eq!(m.syscalls[0].to_guest, vec![1, 2, 3]);
    assert_eq!(m.syscalls[0].regs, (4, 5));
    assert_eq!(m.syscalls[1].regs, (6, 7));
    m.clear_segment();
    assert!(m.syscalls.is_empty());
}

#[test]
fn clear_session_discards_buffered_writes() {
    let mut m = monitor();
    m.store_u32(0x400, 0);
    m.store_u8(0x900, 0x55);
    m.clear_session();
    assert!(m.pending_writes.is_empty());
    assert_eq!(m.load_u32(0x400), 0x1234_5678);
    m.save_op(plain_op());
    m.commit();
    assert_eq!(m.load_u32(0x400), 0x1234_5678);
    assert_eq!(m.load_u8(0x900), 0);
}

#[test]
fn clear_segment_keeps_buffered_writes() {
    let mut m = monitor();
    m.store_u8(0x900, 0x55);
    m.clear_segment();
    assert_eq!(m.pending_writes.len(), 1);
    m.save_op(plain_op());
    m.commit();
    assert_eq!(m.load_u8(0x900), 0x55);
}

#[test]
fn registers_are_double_words_from_the_register_base() {
    let layout = layout();
    assert_eq!(get_register_addr(&layout, 0), 0x1000);
    assert_eq!(get_register_addr(&layout, 1), 0x1008);
    assert_eq!(get_register_addr(&layout, 31), 0x10f8);
    assert_eq!(
        get_register_addr(&MemoryLayout::platform(), 2),
        0x0C00_0010
    );
    let mut m = monitor();
    assert_eq!(m.load_register(0), 0);
    assert_eq!(m.load_register(1), 0x1234_5678_9abc_def0);
    m.store_register(3, 0x0102_0304_0506_0708);
    assert_eq!(m.load_register(3), 0);
    m.save_op(plain_op());
    m.commit();
    assert_eq!(m.load_register(3), 0x0102_0304_0506_0708);
    assert_eq!(m.load_u8(0x1018), 8);
    assert_eq!(
        m.load_registers([3, 1, 0, 3]),
        [
            0x0102_0304_0506_0708,
            0x1234_5678_9abc_def0,
            0,
            0x0102_0304_0506_0708
        ]
    );
    assert_eq!(m.load_registers([]), [0u64; 0]);
}

#[test]
fn strings_end_at_the_first_zero_byte() {
    let mut m = monitor();
    assert_eq!(m.load_string(0x500), Ok("hello".to_string()));
    assert_eq!(m.load_string(0x503), Ok("lo".to_string()));
    assert_eq!(m.load_string(0x505), Ok(String::new()));
    // the bytes 41 fe ff are no UTF-8
    assert_eq!(m.load_string(0x600), Err(MonitorError::InvalidUtf8));
    m.store_region(0x700, "gr\u{fc}\u{df}e \u{2713}".as_bytes());
    m.save_op(plain_op());
    m.commit();
    assert_eq!(m.load_string(0x700), Ok("gr\u{fc}\u{df}e \u{2713}".to_string()));
}

#[test]
fn access_by_width() {
    let mut m = monitor();
    assert_eq!(m.read_mem(0x401, AccessSize::Byte), Some(0x56));
    assert_eq!(m.read_mem(0x402, AccessSize::HalfWord), Some(0x1234));
    assert_eq!(m.read_mem(0x404, AccessSize::Word), Some(0xdead_beef));
    assert_eq!(
        m.read_mem(0x400, AccessSize::DoubleWord),
        Some(0xdead_beef_1234_5678)
    );
    // the value is cut to the width
    assert!(m.write_mem(0x40, AccessSize::Byte, 0x1_02));
    assert!(m.write_mem(0x42, AccessSize::HalfWord, 0xff_0304));
    assert!(m.write_mem(0x44, AccessSize::Word, 0xffff_ffff_0506_0708));
    assert!(m.write_mem(0x48, AccessSize::DoubleWord, 0x1112_1314_1516_1718));
    assert_eq!(m.read_mem(0x40, AccessSize::Byte), Some(0));
    m.save_op(plain_op());
    m.commit();
    assert_eq!(m.read_mem(0x40, AccessSize::Byte), Some(2));
    assert_eq!(m.read_mem(0x42, AccessSize::HalfWord), Some(0x0304));
    assert_eq!(m.read_mem(0x44, AccessSize::Word), Some(0x0506_0708));
    assert_eq!(
        m.read_mem(0x48, AccessSize::DoubleWord),
        Some(0x1112_1314_1516_1718)
    );
}

#[test]
fn a_load_touches_the_pages_up_to_the_root() {
    let mut m = monitor();
    m.load_u8(0x400);
    // page 1, and the root page 6 that holds its entry
    assert_eq!(m.pending_faults.reads, set(&[1, 6]));
    assert!(m.pending_faults.writes.is_empty());
    m.load_u32(0xbfc);
    assert_eq!(m.pending_faults.reads, set(&[1, 2, 6]));
    assert_eq!(m.pending_page_reads(), vec![1, 2, 6]);
    assert!(m.pending_page_writes().is_empty());
    // a page above the root page stands alone
    m.load_u8(0x1fff);
    assert_eq!(m.pending_faults.reads, set(&[1, 2, 6, 7]));
    assert!(m.faults.reads.is_empty());
}

#[test]
fn a_store_touches_for_reading_and_writing() {
    let mut m = monitor();
    m.store_u16(0x7fe, 1);
    assert_eq!(m.pending_faults.reads, set(&[1, 6]));
    assert_eq!(m.pending_faults.writes, set(&[1, 6]));
    m.store_region(0xbff, &[1, 2]);
    assert_eq!(m.pending_faults.writes, set(&[1, 2, 3, 6]));
    assert_eq!(m.pending_page_writes(), vec![1, 2, 3, 6]);
}

#[test]
fn deeper_tables_are_walked_layer_by_layer() {
    let layout = MemoryLayout {
        mem_size: 0x3000,
        page_table_addr: 0x2000,
        register_base: 0,
    };
    assert!(layout.geometry(128).is_some());
    let program = Program {
        entry: 0,
        image: vec![],
    };
    let mut m = MemoryMonitor::new(MemoryImage::new(&program, 128, &layout));
    m.load_u8(0x85);
    // page 1, its entry at 0x2020 in page 64, that one's at 0x2800 in page 80,
    // that one's at 0x2a00 in page 84, that one's at 0x2a80 in the root page 85
    assert_eq!(m.pending_faults.reads, set(&[1, 64, 80, 84, 85]));
    m.store_u8(0x1fff, 0);
    assert_eq!(m.pending_faults.writes, set(&[63, 79, 83, 84, 85]));
}

#[test]
fn pages_are_charged_once_in_a_session() {
    let mut m = monitor();
    m.load_u8(0x400);
    m.store_u8(0x800, 1);
    assert_eq!(m.pending_faults.reads, set(&[1, 2, 6]));
    assert_eq!(m.pending_faults.writes, set(&[2, 6]));
    m.save_op(plain_op());
    m.commit();
    // a commit charges nothing
    assert_eq!(m.pending_faults.reads, set(&[1, 2, 6]));
    assert!(m.faults.reads.is_empty());
    m.clear_segment();
    assert!(m.pending_faults.reads.is_empty() && m.pending_faults.writes.is_empty());
    assert_eq!(m.faults.reads, set(&[1, 2, 6]));
    assert_eq!(m.faults.writes, set(&[2, 6]));
    // the next segment pays for new pages only
    m.load_u8(0x401);
    m.load_u8(0xc00);
    m.store_u8(0x400, 1);
    assert_eq!(m.pending_faults.reads, set(&[3]));
    assert_eq!(m.pending_faults.writes, set(&[1]));
    m.clear_session();
    assert!(m.faults.reads.is_empty() && m.faults.writes.is_empty());
    assert!(m.pending_faults.reads.is_empty() && m.pending_faults.writes.is_empty());
    m.load_u8(0x401);
    assert_eq!(m.pending_faults.reads, set(&[1, 6]));
}

#[test]
fn cycles_of_a_page() {
    assert_eq!(cycles_per_page(0), 6);
    assert_eq!(cycles_per_page(1), 74);
    assert_eq!(cycles_per_page(16), 1094);
    assert_eq!(cycles_per_page(16), 1 + SHA_INIT + (SHA_LOAD + SHA_MAIN) * 16);
    assert_eq!(checked_cycles_per_page(11), Some(754));
    assert_eq!(checked_cycles_per_page(usize::MAX), None);
    assert_eq!(checked_cycles_per_page((usize::MAX - 6) / 68), Some((usize::MAX - 6) / 68 * 68 + 6));
    assert_eq!(checked_cycles_per_page((usize::MAX - 6) / 68 + 1), None);
}

#[test]
fn cycles_of_touched_pages() {
    let info = PageTableInfo::try_new(0x1A00, 1024).unwrap();
    assert_eq!(info.num_root_entries, 22);
    assert_eq!(compute_page_cycles(&info, &set(&[])), Some(0));
    assert_eq!(compute_page_cycles(&info, &set(&[0])), Some(1094));
    assert_eq!(compute_page_cycles(&info, &set(&[0, 3, 5])), Some(3 * 1094));
    // the root page counts by its 22 entries: 11 blocks
    assert_eq!(compute_page_cycles(&info, &set(&[6])), Some(754));
    assert_eq!(compute_page_cycles(&info, &set(&[1, 6])), Some(1094 + 754));

    let mut m = monitor();
    assert_eq!(m.total_pending_fault_cycles(), Some(0));
    m.load_u8(0x400);
    assert_eq!(m.pending_page_read_cycles(), Some(1094 + 754));
    assert_eq!(m.total_pending_fault_cycles(), Some(1094 + 754));
    m.store_u8(0x800, 1);
    assert_eq!(m.pending_page_read_cycles(), Some(2 * 1094 + 754));
    assert_eq!(m.total_pending_fault_cycles(), Some(3 * 1094 + 2 * 754));
    assert_eq!(m.total_fault_cycles(), Some(0));
    m.clear_segment();
    assert_eq!(m.total_pending_fault_cycles(), Some(0));
    assert_eq!(m.total_fault_cycles(), Some(3 * 1094 + 2 * 754));
    m.load_u8(0x400);
    assert_eq!(m.total_pending_fault_cycles(), Some(0));
    m.clear_session();
    assert_eq!(m.total_fault_cycles(), Some(0));
}

#[test]
fn page_sets_move_and_clear() {
    let mut a = PageFaults::new();
    let mut b = PageFaults::new();
    a.reads.insert(1);
    a.writes.insert(2);
    b.reads.insert(1);
    b.reads.insert(5);
    b.writes.insert(7);
    a.append(&mut b);
    assert_eq!(a.reads, set(&[1, 5]));
    assert_eq!(a.writes, set(&[2, 7]));
    assert!(b.reads.is_empty() && b.writes.is_empty());
    a.clear();
    assert!(a.reads.is_empty() && a.writes.is_empty());
}

#[test]
fn commit_is_refused_before_a_result_is_saved() {
    let mut m = monitor();
    m.store_u8(0x900, 0x55);
    assert_eq!(m.try_commit(), Err(MonitorError::MissingResult));
    // nothing happened
    assert_eq!(m.pending_writes.len(), 1);
    assert_eq!(m.load_u8(0x900), 0);
    m.save_op(plain_op());
    assert_eq!(m.try_commit(), Ok(()));
    assert!(m.pending_writes.is_empty());
    assert_eq!(m.load_u8(0x900), 0x55);
    // the result was consumed
    assert_eq!(m.try_commit(), Err(MonitorError::MissingResult));
}
