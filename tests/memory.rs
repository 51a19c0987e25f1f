use kernel::addr::{Page, PhysFrame};
use kernel::allocator::{init_heap, map_pages, HeapAction, HeapBuilder, HeapEvent, HEAP_SIZE, HEAP_START};
use kernel::mem::{BootInfoFrameAllocator, MemoryRegion, MemoryRegionKind, MemorySummary};
use kernel::paging::{MapToError, Mapper, Mapping, PageTableFlags, PageTableModel};

fn region(start: u64, end: u64, kind: MemoryRegionKind) -> MemoryRegion {
    MemoryRegion { start, end, kind }
}

fn sample_map() -> Vec<MemoryRegion> {
    vec![
        region(0x0, 0x1000, MemoryRegionKind::Bootloader),
        region(0x1000, 0x3000, MemoryRegionKind::Usable),
        region(0x3000, 0x8000, MemoryRegionKind::UnknownBios(2)),
        region(0x10000, 0x11000, MemoryRegionKind::Usable),
        region(0x20000, 0x30000, MemoryRegionKind::UnknownUefi(7)),
    ]
}

#[test]
fn frames_come_in_order_then_none_and_cursor_counts_calls() {
    let mut a = BootInfoFrameAllocator::init(sample_map());
    let mut got = Vec::new();
    for _ in 0..6 {
        got.push(a.allocate_frame());
    }
    assert_eq!(got[0], Some(PhysFrame { start: 0x1000 }));
    assert_eq!(got[1], Some(PhysFrame { start: 0x2000 }));
    assert_eq!(got[2], Some(PhysFrame { start: 0x10000 }));
    assert_eq!(got[3], None);
    assert_eq!(got[4], None);
    assert_eq!(got[5], None);
    assert_eq!(a.next_index(), 6);
}

#[test]
fn frames_are_distinct_and_page_spaced() {
    let map = vec![
        region(0x100000, 0x140000, MemoryRegionKind::Usable),
        region(0x200000, 0x210000, MemoryRegionKind::Usable),
    ];
    let mut a = BootInfoFrameAllocator::init(map);
    let mut prev: Option<u64> = None;
    let mut count = 0u64;
    while let Some(f) = a.allocate_frame() {
        assert_eq!(f.start % 4096, 0);
        if let Some(p) = prev {
            assert!(f.start >= p + 4096);
        }
        prev = Some(f.start);
        count += 1;
    }
    assert_eq!(count, 64 + 16);
    assert_eq!(a.next_index(), 81);
}

#[test]
fn empty_map_gives_no_frames() {
    let mut a = BootInfoFrameAllocator::init(Vec::new());
    assert_eq!(a.allocate_frame(), None);
    assert_eq!(a.allocate_frame(), None);
    assert_eq!(a.next_index(), 2);
}

#[test]
fn unaligned_region_gives_only_frames_inside_it() {
    let a = BootInfoFrameAllocator::init(vec![region(0x1800, 0x4900, MemoryRegionKind::Usable)]);
    let frames = a.usable_frames();
    assert_eq!(
        frames,
        vec![PhysFrame { start: 0x2000 }, PhysFrame { start: 0x3000 }, PhysFrame { start: 0x4000 }]
    );
    assert_eq!(a.nth_usable_frame(2), Some(PhysFrame { start: 0x4000 }));
    assert_eq!(a.nth_usable_frame(3), None);
}

#[test]
fn partial_last_frame_is_handed_out() {
    let mut a = BootInfoFrameAllocator::init(vec![region(0x1000, 0x2800, MemoryRegionKind::Usable)]);
    assert_eq!(a.allocate_frame(), Some(PhysFrame { start: 0x1000 }));
    assert_eq!(a.allocate_frame(), Some(PhysFrame { start: 0x2000 }));
    assert_eq!(a.allocate_frame(), None);
    assert_eq!(a.usable_frames().len(), 2);
}

#[test]
fn regions_smaller_than_a_frame_give_no_frame() {
    let mut a = BootInfoFrameAllocator::init(vec![
        region(0x1800, 0x1900, MemoryRegionKind::Usable),
        region(0x1900, 0x2000, MemoryRegionKind::Usable),
        region(0x2000, 0x3000, MemoryRegionKind::Usable),
    ]);
    assert_eq!(a.allocate_frame(), Some(PhysFrame { start: 0x2000 }));
    assert_eq!(a.allocate_frame(), None);
    assert_eq!(a.next_index(), 2);
}

#[test]
fn usable_regions_and_frames_skip_other_kinds() {
    let a = BootInfoFrameAllocator::init(sample_map());
    assert_eq!(
        a.usable_regions(),
        vec![region(0x1000, 0x3000, MemoryRegionKind::Usable), region(0x10000, 0x11000, MemoryRegionKind::Usable)]
    );
    assert_eq!(
        a.usable_frames(),
        vec![PhysFrame { start: 0x1000 }, PhysFrame { start: 0x2000 }, PhysFrame { start: 0x10000 }]
    );
    assert_eq!(a.next_index(), 0);
}

#[test]
fn memory_summary_counts_usable_memory() {
    let mut map = sample_map();
    map.push(region(0x40000, 0x40800, MemoryRegionKind::Usable));
    let a = BootInfoFrameAllocator::init(map);
    assert_eq!(a.memory_summary(), MemorySummary { regions: 3, pages: 3, bytes: 0x3800 });
}

#[test]
fn frame_and_page_of_an_address() {
    assert_eq!(PhysFrame::containing_address(0x1234).start_address(), 0x1000);
    assert_eq!(PhysFrame::containing_address(0x2000).start_address(), 0x2000);
    assert_eq!(Page::containing_address(0x4444_4444).start_address(), 0x4444_4000);
}

fn plenty() -> BootInfoFrameAllocator {
    BootInfoFrameAllocator::init(vec![region(0x100_0000, 0x200_0000, MemoryRegionKind::Usable)])
}

#[test]
fn map_pages_uses_one_frame_per_page() {
    let mut table = PageTableModel::new();
    let mut a = plenty();
    let r = map_pages(&mut table, &mut a, 0x1000_0000, 4 * 4096);
    assert_eq!(r, Ok(()));
    assert_eq!(a.next_index(), 4);
    assert_eq!(table.mapped_count(), 4);
    let flags = PageTableFlags { present: true, writable: true };
    for j in 0..4u64 {
        let m = table.translate(Page { start: 0x1000_0000 + j * 4096 });
        assert_eq!(m, Some(Mapping { frame: PhysFrame { start: 0x100_0000 + j * 4096 }, flags }));
    }
    assert_eq!(table.translate(Page { start: 0x1000_0000 + 4 * 4096 }), None);
}

#[test]
fn init_heap_maps_the_heap_window() {
    let mut table = PageTableModel::new();
    let mut a = plenty();
    assert_eq!(init_heap(&mut table, &mut a), Ok(()));
    let pages = (HEAP_SIZE / 4096) as usize;
    assert_eq!(pages, 256);
    assert_eq!(table.mapped_count(), pages);
    assert_eq!(a.next_index(), pages);
    let first = table.translate(Page::containing_address(HEAP_START)).unwrap();
    assert_eq!(first.frame, PhysFrame { start: 0x100_0000 });
    assert!(first.flags.present && first.flags.writable);
    let last = table.translate(Page::containing_address(HEAP_START + HEAP_SIZE - 1)).unwrap();
    assert_eq!(last.frame, PhysFrame { start: 0x100_0000 + (pages as u64 - 1) * 4096 });
}

#[test]
fn exhausted_frames_stop_mapping_at_the_failure() {
    let mut table = PageTableModel::new();
    let mut a = BootInfoFrameAllocator::init(vec![region(0x5000, 0x7000, MemoryRegionKind::Usable)]);
    let r = map_pages(&mut table, &mut a, 0x1000_0000, 4 * 4096);
    assert_eq!(r, Err(MapToError::FrameAllocationFailed));
    assert_eq!(table.mapped_count(), 2);
    assert_eq!(a.next_index(), 3);
    assert!(table.translate(Page { start: 0x1000_0000 }).is_some());
    assert!(table.translate(Page { start: 0x1000_1000 }).is_some());
    assert_eq!(table.translate(Page { start: 0x1000_2000 }), None);
    assert_eq!(table.translate(Page { start: 0x1000_3000 }), None);
}

#[test]
fn init_heap_fails_without_frames() {
    let mut table = PageTableModel::new();
    let mut a = BootInfoFrameAllocator::init(Vec::new());
    assert_eq!(init_heap(&mut table, &mut a), Err(MapToError::FrameAllocationFailed));
    assert_eq!(table.mapped_count(), 0);
    assert_eq!(a.next_index(), 1);
}

#[test]
fn mapping_a_mapped_page_is_refused() {
    let mut table = PageTableModel::new();
    let flags = PageTableFlags::present_writable();
    let page = Page { start: 0x1000_1000 };
    assert_eq!(table.map_to(page, PhysFrame { start: 0x9000 }, flags), Ok(()));
    let mut a = plenty();
    let r = map_pages(&mut table, &mut a, 0x1000_0000, 3 * 4096);
    assert_eq!(r, Err(MapToError::PageAlreadyMapped(PhysFrame { start: 0x9000 })));
    assert_eq!(a.next_index(), 2);
    assert_eq!(table.mapped_count(), 2);
    assert_eq!(table.translate(page).unwrap().frame, PhysFrame { start: 0x9000 });
    assert_eq!(table.translate(Page { start: 0x1000_2000 }), None);
}

#[test]
fn heap_builder_asks_for_a_frame_first() {
    let b = HeapBuilder::new(HEAP_START, HEAP_SIZE);
    assert!(matches!(b.action(), HeapAction::AllocateFrame));
    assert!(!b.is_finished());
}

#[test]
fn heap_builder_runs_two_pages() {
    let mut b = HeapBuilder::new(0x1000_0000, 2 * 4096);
    b.step(HeapEvent::Frame(Some(PhysFrame { start: 0x5000 })));
    match b.action() {
        HeapAction::MapPage(page, frame, flags) => {
            assert_eq!(page, Page { start: 0x1000_0000 });
            assert_eq!(frame, PhysFrame { start: 0x5000 });
            assert_eq!(flags, PageTableFlags::present_writable());
        }
        other => panic!("unexpected action {:?}", other),
    }
    b.step(HeapEvent::Mapped(Ok(())));
    assert!(matches!(b.action(), HeapAction::AllocateFrame));
    b.step(HeapEvent::Frame(Some(PhysFrame { start: 0x6000 })));
    match b.action() {
        HeapAction::MapPage(page, frame, _) => {
            assert_eq!(page, Page { start: 0x1000_1000 });
            assert_eq!(frame, PhysFrame { start: 0x6000 });
        }
        other => panic!("unexpected action {:?}", other),
    }
    b.step(HeapEvent::Mapped(Ok(())));
    assert!(b.is_finished());
    assert!(matches!(b.action(), HeapAction::Finish(Ok(()))));
}

#[test]
fn heap_builder_stops_on_missing_frame() {
    let mut b = HeapBuilder::new(0x1000_0000, 4 * 4096);
    b.step(HeapEvent::Frame(None));
    assert!(matches!(b.action(), HeapAction::Finish(Err(MapToError::FrameAllocationFailed))));
}

#[test]
fn heap_builder_passes_on_the_mapper_error() {
    let mut b = HeapBuilder::new(0x1000_0000, 4 * 4096);
    b.step(HeapEvent::Frame(Some(PhysFrame { start: 0x5000 })));
    b.step(HeapEvent::Mapped(Err(MapToError::ParentEntryHugePage)));
    assert!(matches!(b.action(), HeapAction::Finish(Err(MapToError::ParentEntryHugePage))));
}
