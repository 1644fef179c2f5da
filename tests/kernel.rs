use kernel_core::frame::{FrameAllocator, FrameError, MemoryRegion};
use kernel_core::interrupts::{init_idt, TrapContext, TrapHandler, TrapOutcome, TrapTable};
use kernel_core::mapper::{MapError, Mapper, Page};
use kernel_core::paging::PhysicalMemory;

fn region(start: u64, len: u64, usable: bool) -> MemoryRegion {
    MemoryRegion { start, len, usable }
}

fn ctx(ip: u64) -> TrapContext {
    TrapContext {
        instruction_pointer: ip,
        code_segment: 8,
        cpu_flags: 0x202,
        stack_pointer: 0x4444_0000_f000,
        stack_segment: 0,
    }
}

fn drain(a: &mut FrameAllocator, n: usize) -> Vec<u64> {
    let mut out = Vec::new();
    for _ in 0..n {
        out.push(a.allocate_frame().unwrap());
    }
    out
}

/// Boot hierarchy: top-level table at 0x1000, whose entry 0 leads to a
/// level-3 table at 0x2000, whose entry 0 leads to a level-2 table at 0x3000.
fn boot_memory() -> PhysicalMemory {
    let mut m = PhysicalMemory::new();
    m.set_entry(0x1000, 0, 0x2000 | 3);
    m.set_entry(0x2000, 0, 0x3000 | 3);
    m.zero_table(0x3000);
    m
}

#[test]
fn test_breakpoint_exception() {
    let t = init_idt();
    assert!(t.is_active());
    assert_eq!(t.handler(3), Some(TrapHandler::Breakpoint));
    let before = ctx(0x20_1000);
    match t.raise(3, before) {
        TrapOutcome::Resume(after) => {
            assert_eq!(after.instruction_pointer, 0x20_1001);
            assert_eq!(after.stack_pointer, before.stack_pointer);
            assert_eq!(after.cpu_flags, before.cpu_flags);
            assert_eq!(after.code_segment, before.code_segment);
            assert_eq!(after.stack_segment, before.stack_segment);
        }
        TrapOutcome::Fatal => panic!("breakpoint must resume"),
    }
}

#[test]
fn unregistered_vectors_are_fatal() {
    let t = init_idt();
    assert_eq!(t.handler(8), None);
    assert_eq!(t.raise(8, ctx(0x1000)), TrapOutcome::Fatal);
    assert_eq!(t.raise(14, ctx(0x1000)), TrapOutcome::Fatal);
}

#[test]
fn table_not_loaded_does_not_handle() {
    let mut t = TrapTable::new();
    t.register(3, TrapHandler::Breakpoint);
    assert!(!t.is_active());
    assert_eq!(t.raise(3, ctx(0x1000)), TrapOutcome::Fatal);
    t.load();
    assert_eq!(t.raise(3, ctx(0x1000)), TrapOutcome::Resume(ctx(0x1001)));
}

#[test]
fn frames_come_in_map_order() {
    let map = vec![
        region(0, 0x1000, false),
        region(0x1000, 0x2000, true),
        region(0x3000, 0x1000, false),
        region(0x10_0000, 0x3000, true),
    ];
    let mut a = FrameAllocator::init(map);
    assert_eq!(drain(&mut a, 5), vec![0x1000, 0x2000, 0x10_0000, 0x10_1000, 0x10_2000]);
    assert_eq!(a.allocate_frame(), Err(FrameError::OutOfMemory));
}

#[test]
fn partial_frames_are_skipped() {
    // Starts mid-frame and ends mid-frame: only the whole frame 0x2000 fits.
    let mut a = FrameAllocator::init(vec![region(0x1800, 0x1900, true)]);
    assert_eq!(a.allocate_frame(), Ok(0x2000));
    assert_eq!(a.allocate_frame(), Err(FrameError::OutOfMemory));
}

#[test]
fn empty_map_is_out_of_memory() {
    let mut a = FrameAllocator::init(Vec::new());
    assert_eq!(a.allocate_frame(), Err(FrameError::OutOfMemory));
    assert_eq!(a.allocate_frame(), Err(FrameError::OutOfMemory));
}

#[test]
fn frames_are_unique_aligned_and_usable() {
    let map = vec![
        region(0x1000, 0x4000, true),
        region(0x5000, 0x1000, false),
        region(0x8000, 0x3800, true),
    ];
    let mut a = FrameAllocator::init(map.clone());
    let frames = drain(&mut a, 7);
    for (i, f) in frames.iter().enumerate() {
        assert_eq!(f % 4096, 0);
        assert!(map.iter().any(|r| r.usable && r.start <= *f && f + 4096 <= r.start + r.len));
        for g in &frames[i + 1..] {
            assert_ne!(f, g);
        }
    }
}

#[test]
fn fresh_allocators_agree() {
    let map = vec![region(0x20_0000, 0x5000, true), region(0x40_0000, 0x2000, true)];
    let mut a = FrameAllocator::init(map.clone());
    let mut b = FrameAllocator::init(map);
    let fa = drain(&mut a, 6);
    let fb = drain(&mut b, 6);
    assert_eq!(fa, fb);
    assert!(fa.windows(2).all(|w| w[0] < w[1]));
}

#[test]
fn exhaustion_after_exactly_k_frames() {
    // 2 + 3 whole frames.
    let map = vec![region(0x1000, 0x2000, true), region(0x9000, 0x3000, true)];
    let mut a = FrameAllocator::init(map);
    assert_eq!(drain(&mut a, 5).len(), 5);
    assert_eq!(a.allocate_frame(), Err(FrameError::OutOfMemory));
}

#[test]
fn page_containing_address() {
    let p = Page::containing_address(0x1234_5678).unwrap();
    assert_eq!(p.start_address(), 0x1234_5000);
    let high = Page::containing_address(0xffff_8000_0000_1fff).unwrap();
    assert_eq!(high.start_address(), 0xffff_8000_0000_1000);
    assert!(Page::containing_address(0x0000_8000_0000_0000).is_none());
}

#[test]
fn init_checks_offset_and_root() {
    let offset = 0x100_0000_0000;
    let m = Mapper::init(offset, 0x1000, PhysicalMemory::new()).unwrap();
    assert_eq!(m.level_4_table_address(), 0x100_0000_1000);
    assert!(Mapper::init(0x0000_8000_0000_0000, 0x1000, PhysicalMemory::new()).is_none());
    assert!(Mapper::init(offset, 0x1001, PhysicalMemory::new()).is_none());
    assert!(Mapper::init(0, 0x10_0000_0000_0000, PhysicalMemory::new()).is_none());
    assert!(Mapper::init(0x7fff_ffff_f000, 0x1000, PhysicalMemory::new()).is_none());
}

#[test]
fn translate_walks_present_entries() {
    let mut mem = boot_memory();
    mem.set_entry(0x3000, 0, 0x4000 | 3);
    mem.set_entry(0x4000, 5, 0xb8000 | 3);
    let m = Mapper::init(0, 0x1000, mem).unwrap();
    assert_eq!(m.translate(0x5123), Some(0xb8123));
    assert_eq!(m.translate(0x6000), None);
    assert_eq!(m.translate(0x20_0000), None);
    assert_eq!(m.translate(0x80_0000_0000), None);
    // Not canonical, though its low 48 bits select the mapped page.
    assert_eq!(m.translate(0x0001_0000_0000_5123), None);
}

#[test]
fn map_then_translate_and_write() {
    let mut m = Mapper::init(0, 0x1000, boot_memory()).unwrap();
    let mut a = FrameAllocator::init(vec![region(0x10_0000, 0x10_0000, true)]);
    let page = Page::containing_address(0x20_0000).unwrap();
    let f = m.map(&page, 3, &mut a).unwrap();
    assert_eq!(f, 0x10_0000);
    assert_eq!(m.translate(0x20_0000), Some(f));
    assert_eq!(m.translate(0x20_0abc), Some(f + 0xabc));
    let va = 0x20_0000 + 400 * 8;
    assert_eq!(m.read_u64(va), Some(0));
    assert!(m.write_u64(va, 0xf021_f077_f065_f04e));
    assert_eq!(m.read_u64(va), Some(0xf021_f077_f065_f04e));
    assert!(!m.write_u64(0x40_0000, 1));
    assert_eq!(m.read_u64(0x40_0000), None);
}

#[test]
fn remap_is_rejected() {
    let mut m = Mapper::init(0, 0x1000, boot_memory()).unwrap();
    let mut a = FrameAllocator::init(vec![region(0x10_0000, 0x10_0000, true)]);
    let page = Page::containing_address(0x20_0000).unwrap();
    let first = m.map(&page, 3, &mut a).unwrap();
    assert_eq!(m.map(&page, 3, &mut a), Err(MapError::AlreadyMapped));
    assert_eq!(m.translate(0x20_0000), Some(first));
    // The refused call took no frame.
    assert_eq!(a.allocate_frame(), Ok(0x10_2000));
}

#[test]
fn map_builds_missing_tables() {
    let mut m = Mapper::init(0, 0x1000, PhysicalMemory::new()).unwrap();
    let mut a = FrameAllocator::init(vec![region(0x10_0000, 0x10_0000, true)]);
    let page = Page::containing_address(0x7f_4020_3000).unwrap();
    assert_eq!(m.map(&page, 3, &mut a), Ok(0x10_0000));
    assert_eq!(m.translate(0x7f_4020_3008), Some(0x10_0008));
    // Leaf frame first, then one frame for each of the three tables.
    assert_eq!(a.allocate_frame(), Ok(0x10_4000));
    let p4 = (0x7f_4020_3000u64 >> 39) & 0x1ff;
    assert_eq!(m.memory().entry(0x1000, p4), 0x10_1000 | 3);
}

#[test]
fn map_fails_when_tables_cannot_be_had() {
    let mut m = Mapper::init(0, 0x1000, PhysicalMemory::new()).unwrap();
    let mut a = FrameAllocator::init(vec![region(0x10_0000, 0x3000, true)]);
    let page = Page::containing_address(0x40_0000).unwrap();
    assert_eq!(m.map(&page, 3, &mut a), Err(MapError::FrameAllocationFailed));
    assert_eq!(m.translate(0x40_0000), None);
    assert_eq!(a.allocate_frame(), Err(FrameError::OutOfMemory));
}

#[test]
fn map_keeps_existing_mappings() {
    let mut mem = boot_memory();
    mem.set_entry(0x3000, 0, 0x4000 | 3);
    mem.set_entry(0x4000, 5, 0xb8000 | 3);
    let mut m = Mapper::init(0, 0x1000, mem).unwrap();
    let mut a = FrameAllocator::init(vec![region(0x10_0000, 0x10_0000, true)]);
    let page = Page::containing_address(0x6000).unwrap();
    assert_eq!(m.map(&page, 3, &mut a), Ok(0x10_0000));
    assert_eq!(m.translate(0x5010), Some(0xb8010));
    assert_eq!(m.translate(0x6010), Some(0x10_0010));
    // The level-1 table existed: only the leaf frame was taken.
    assert_eq!(a.allocate_frame(), Ok(0x10_1000));
}

#[test]
fn boot_scenario_three_frames() {
    let offset = 0x180_0000_0000;
    let a_start = 0x10_0000;
    let idt = init_idt();
    assert!(idt.is_active());
    let mut m = Mapper::init(offset, 0x1000, boot_memory()).unwrap();
    let mut a = FrameAllocator::init(vec![
        region(0, 0x1000, false),
        region(a_start, 3 * 4096, true),
    ]);
    let v = Page::containing_address(0x20_0000).unwrap();
    assert_eq!(m.map(&v, 3, &mut a), Ok(a_start));
    assert_eq!(m.translate(0x20_0000), Some(a_start));
    assert_eq!(m.map(&v, 3, &mut a), Err(MapError::AlreadyMapped));
    // The leaf took the first frame and the missing level-1 table the second.
    assert_eq!(a.allocate_frame(), Ok(a_start + 2 * 4096));
    assert_eq!(a.allocate_frame(), Err(FrameError::OutOfMemory));
}

#[test]
fn trivial_assertion() {
    assert_eq!(1, 1);
}
