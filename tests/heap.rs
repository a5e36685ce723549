use kernel_heap::allocator::{round_up_to_nearest_pow2, AllocError, FirstFitAllocator, Header};
use kernel_heap::uefi::{EfiMemoryDescriptor, EfiMemoryType, MemoryMapHolder};

const CONVENTIONAL: u32 = 7;

fn desc(kind: u32, start: u64, pages: u64) -> EfiMemoryDescriptor {
    EfiMemoryDescriptor {
        memory_type: kind,
        physical_start: start,
        virtual_start: 0,
        number_of_pages: pages,
        attribute: 0,
    }
}

/// Lays entries out as the firmware does, `step` bytes apart.
fn map_of(entries: &[EfiMemoryDescriptor], step: usize) -> MemoryMapHolder {
    let mut m = MemoryMapHolder::new();
    for (k, d) in entries.iter().enumerate() {
        let o = k * step;
        m.memory_map_buffer[o..o + 4].copy_from_slice(&d.memory_type.to_le_bytes());
        m.memory_map_buffer[o + 8..o + 16].copy_from_slice(&d.physical_start.to_le_bytes());
        m.memory_map_buffer[o + 16..o + 24].copy_from_slice(&d.virtual_start.to_le_bytes());
        m.memory_map_buffer[o + 24..o + 32].copy_from_slice(&d.number_of_pages.to_le_bytes());
        m.memory_map_buffer[o + 32..o + 40].copy_from_slice(&d.attribute.to_le_bytes());
    }
    m.memory_map_size = entries.len() * step;
    m.descriptor_size = step;
    m.descriptor_version = 1;
    m
}

fn heap_with(start: u64, pages: u64) -> FirstFitAllocator {
    let mut heap = FirstFitAllocator::new();
    heap.add_free_from_descriptor(&desc(CONVENTIONAL, start, pages));
    heap
}

fn free_block(addr: usize, size: usize) -> Header {
    Header { addr, size, is_allocated: false }
}

fn used_block(addr: usize, size: usize) -> Header {
    Header { addr, size, is_allocated: true }
}

#[test]
fn round_up_gives_next_power_of_two() {
    assert_eq!(round_up_to_nearest_pow2(1), Ok(1));
    assert_eq!(round_up_to_nearest_pow2(2), Ok(2));
    assert_eq!(round_up_to_nearest_pow2(3), Ok(4));
    assert_eq!(round_up_to_nearest_pow2(5), Ok(8));
    assert_eq!(round_up_to_nearest_pow2(64), Ok(64));
    assert_eq!(round_up_to_nearest_pow2(100000), Ok(131072));
    assert_eq!(round_up_to_nearest_pow2(usize::MAX / 2 + 1), Ok(usize::MAX / 2 + 1));
}

#[test]
fn round_up_rejects_zero_and_oversized() {
    assert_eq!(round_up_to_nearest_pow2(0), Err("Out of range"));
    assert_eq!(round_up_to_nearest_pow2(usize::MAX / 2 + 2), Err("Out of range"));
    assert_eq!(round_up_to_nearest_pow2(usize::MAX), Err("Out of range"));
}

#[test]
fn header_constructor_and_queries() {
    let h = Header::new_from_addr(0x5000);
    assert_eq!(h, free_block(0x5000, 0));
    let b = free_block(0x1000, 200);
    assert_eq!(b.end_addr(), 0x1000 + 200);
    assert!(!b.is_allocated());
    assert!(b.can_provide(64, 32));
    assert!(b.can_provide(104, 32));
    assert!(!b.can_provide(105, 32));
    assert!(!b.can_provide(64, 80));
    assert!(!b.can_provide(usize::MAX, usize::MAX));
}

#[test]
fn provide_carves_from_the_tail() {
    let b = free_block(0x1000, 0x1000);
    let (p, seg) = b.provide(64, 32).unwrap();
    assert_eq!(p, 0x1fc0);
    assert_eq!(seg, vec![free_block(0x1000, 0xfa0), used_block(0x1fa0, 96)]);
    assert!(used_block(0x1000, 0x1000).provide(64, 32).is_none());
    assert!(b.provide(0x1000, 32).is_none());
}

#[test]
fn new_heap_is_empty_and_fails() {
    let mut heap = FirstFitAllocator::new();
    assert!(heap.headers().is_empty());
    assert_eq!(heap.alloc_with_options(64, 8), Err(AllocError::Exhausted));
}

#[test]
fn concrete_region_allocate_fail_and_free() {
    let mut heap = FirstFitAllocator::new();
    heap.init_with_mmap(&map_of(&[desc(CONVENTIONAL, 0x100000, 8)], 48));
    assert_eq!(heap.headers(), &vec![free_block(0x100000, 32768)]);

    let p = heap.alloc_with_options(64, 16).unwrap();
    assert_eq!(p % 16, 0);
    assert!(p >= 0x100000 && p + 64 <= 0x100000 + 32768);
    assert_eq!(p, 0x107fc0);
    assert_eq!(heap.headers(), &vec![free_block(0x100000, 0x7fa0), used_block(0x107fa0, 96)]);

    assert_eq!(heap.alloc_with_options(100000, 8), Err(AllocError::Exhausted));
    assert_eq!(heap.headers().len(), 2);

    assert!(heap.dealloc(p));
    assert_eq!(heap.headers(), &vec![free_block(0x100000, 0x7fa0), free_block(0x107fa0, 96)]);
}

#[test]
fn successful_allocations_are_aligned_and_inside_the_region() {
    let mut heap = heap_with(0x300000, 16);
    for (size, align) in [(1usize, 1usize), (7, 2), (33, 64), (100, 128), (500, 4096), (3000, 8)] {
        let p = heap.alloc_with_options(size, align).unwrap();
        assert!(p != 0);
        assert_eq!(p % align, 0);
        assert!(p >= 0x300000 && p + size <= 0x300000 + 16 * 4096);
    }
}

#[test]
fn alignment_gap_becomes_an_allocated_padding_block() {
    let mut heap = heap_with(0x100000, 8);
    let p = heap.alloc_with_options(64, 4096).unwrap();
    assert_eq!(p, 0x107000);
    assert_eq!(
        heap.headers(),
        &vec![free_block(0x100000, 0x6fe0), used_block(0x106fe0, 96), used_block(0x107040, 0xfc0)]
    );
}

#[test]
fn freed_neighbours_are_never_merged() {
    let mut heap = heap_with(0x200000, 2);
    assert_eq!(heap.alloc_with_options(4096, 32), Ok(0x201000));
    let a = heap.alloc_with_options(1024, 32).unwrap();
    let b = heap.alloc_with_options(1024, 32).unwrap();
    assert_eq!((a, b), (0x200be0, 0x2007c0));
    assert_eq!(heap.alloc_with_options(1024, 32), Ok(0x2003a0));
    assert!(heap.dealloc(a));
    assert!(heap.dealloc(b));
    assert_eq!(
        heap.headers(),
        &vec![
            free_block(0x200000, 896),
            used_block(0x200380, 1056),
            free_block(0x2007a0, 1056),
            free_block(0x200bc0, 1056),
            used_block(0x200fe0, 4128),
        ]
    );
    // Together the two freed blocks span 2112 contiguous bytes; neither alone
    // holds a 1024-byte request with its overhead.
    assert_eq!(heap.alloc_with_options(1024, 8), Err(AllocError::Exhausted));
    assert_eq!(heap.alloc_with_options(2000, 8), Err(AllocError::Exhausted));
    assert_eq!(heap.headers().len(), 5);
}

#[test]
fn freed_block_is_reused_first_fit() {
    let mut heap = heap_with(0x100000, 8);
    let p = heap.alloc_with_options(4096, 4096).unwrap();
    assert!(heap.dealloc(p));
    // The shrunk block still comes first in the chain and serves the next request.
    let q = heap.alloc_with_options(64, 32).unwrap();
    assert!(q < p);
}

#[test]
fn zero_and_oversized_requests_fail_before_any_search() {
    let mut heap = heap_with(0x100000, 8);
    assert_eq!(heap.alloc_with_options(0, 8), Err(AllocError::SizeOutOfRange));
    assert_eq!(heap.alloc_with_options(usize::MAX, 8), Err(AllocError::SizeOutOfRange));
    assert_eq!(heap.headers(), &vec![free_block(0x100000, 32768)]);
}

#[test]
fn request_just_too_large_for_the_only_block_fails() {
    // 32768 bytes hold 32768 - 64 - 32 at most; the rounded request must fit.
    let mut heap = heap_with(0x100000, 8);
    assert_eq!(heap.alloc_with_options(16384, 32), Ok(0x104000));
    let mut heap = heap_with(0x100000, 8);
    assert_eq!(heap.alloc_with_options(16385, 32), Err(AllocError::Exhausted));
}

#[test]
fn dealloc_of_unknown_address_changes_nothing() {
    let mut heap = heap_with(0x100000, 8);
    let p = heap.alloc_with_options(64, 32).unwrap();
    let before = heap.headers().clone();
    assert!(!heap.dealloc(p + 8));
    assert!(!heap.dealloc(0));
    assert_eq!(heap.headers(), &before);
    assert_eq!(heap.from_allocated_region(p), Some(1));
    assert_eq!(heap.from_allocated_region(p + 8), None);
}

#[test]
fn zero_page_is_never_registered() {
    let mut heap = FirstFitAllocator::new();
    heap.add_free_from_descriptor(&desc(CONVENTIONAL, 0, 9));
    assert_eq!(heap.headers(), &vec![free_block(4096, 32768)]);
    let mut heap = FirstFitAllocator::new();
    heap.add_free_from_descriptor(&desc(CONVENTIONAL, 0, 1));
    assert!(heap.headers().is_empty());
}

#[test]
fn regions_of_one_page_or_less_are_dropped() {
    let mut heap = FirstFitAllocator::new();
    heap.add_free_from_descriptor(&desc(CONVENTIONAL, 0x5000, 1));
    heap.add_free_from_descriptor(&desc(CONVENTIONAL, 0, 2));
    heap.add_free_from_descriptor(&desc(CONVENTIONAL, 0x9000, 0));
    assert!(heap.headers().is_empty());
    heap.add_free_from_descriptor(&desc(CONVENTIONAL, 0x5000, 2));
    assert_eq!(heap.headers(), &vec![free_block(0x5000, 8192)]);
}

#[test]
fn regions_beyond_the_address_space_are_dropped() {
    let mut heap = FirstFitAllocator::new();
    heap.add_free_from_descriptor(&desc(CONVENTIONAL, 0x1000, u64::MAX / 4096 + 1));
    heap.add_free_from_descriptor(&desc(CONVENTIONAL, u64::MAX - 4096 * 4, 8));
    assert!(heap.headers().is_empty());
}

#[test]
fn only_usable_ram_is_registered_latest_first() {
    let entries = [
        desc(CONVENTIONAL, 0x100000, 8),
        desc(0, 0x200000, 8),
        desc(3, 0x300000, 8),
        desc(CONVENTIONAL, 0x400000, 4),
        desc(9, 0x500000, 8),
        desc(11, 0x600000, 8),
        desc(14, 0x700000, 8),
        desc(0x7000_0000, 0x800000, 8),
    ];
    let mut heap = FirstFitAllocator::new();
    heap.init_with_mmap(&map_of(&entries, 40));
    assert_eq!(heap.headers(), &vec![free_block(0x400000, 16384), free_block(0x100000, 32768)]);
    let p = heap.alloc_with_options(64, 32).unwrap();
    assert!(p >= 0x400000 && p < 0x400000 + 16384);
}

#[test]
fn later_registration_is_tried_first() {
    let mut heap = heap_with(0x100000, 8);
    heap.add_free_from_descriptor(&desc(CONVENTIONAL, 0x900000, 2));
    let p = heap.alloc_with_options(64, 32).unwrap();
    assert!(p >= 0x900000 && p < 0x900000 + 8192);
}

#[test]
fn memory_map_decodes_entries_in_order() {
    let entries = [desc(CONVENTIONAL, 0x100000, 8), desc(10, 0xfee00000, 1), desc(4, 0, 3)];
    let m = map_of(&entries, 48);
    assert_eq!(m.iter(), entries.to_vec());
    assert_eq!(m.iter()[1].memory_type(), Some(EfiMemoryType::ACPI_MEMORY_NVS));
    assert!(m.iter()[0].is_conventional());
    assert_eq!(m.iter()[0].physical_start(), 0x100000);
    assert_eq!(m.iter()[0].number_of_pages(), 8);
}

#[test]
fn fresh_memory_map_has_no_entries() {
    let m = MemoryMapHolder::new();
    assert_eq!(m.memory_map_buffer.len(), 0x8000);
    assert_eq!(m.memory_map_size, 0x8000);
    assert!(m.iter().is_empty());
}

#[test]
fn memory_map_stops_at_its_size() {
    let entries = [desc(CONVENTIONAL, 0x100000, 8), desc(CONVENTIONAL, 0x200000, 8)];
    let mut m = map_of(&entries, 48);
    m.memory_map_size = 48;
    assert_eq!(m.iter(), vec![entries[0]]);
}

#[test]
fn memory_types_round_trip_their_codes() {
    assert_eq!(EfiMemoryType::from_code(7), Some(EfiMemoryType::CONVENTIONAL_MEMORY));
    assert_eq!(EfiMemoryType::from_code(0), Some(EfiMemoryType::RESERVED));
    assert_eq!(EfiMemoryType::from_code(14), Some(EfiMemoryType::PRESISTENT_MEMORY));
    assert_eq!(EfiMemoryType::from_code(15), None);
    assert_eq!(EfiMemoryType::MEMORY_MAPPED_IO.code(), 11);
    assert_eq!(desc(0x7000_0001, 0, 1).memory_type(), None);
}

fn assert_apart(blocks: &[Header]) {
    for (i, a) in blocks.iter().enumerate() {
        for b in &blocks[i + 1..] {
            assert!(a.addr + a.size <= b.addr || b.addr + b.size <= a.addr, "{:?} overlaps {:?}", a, b);
        }
    }
}

#[test]
fn blocks_stay_apart_and_in_the_chain_through_mixed_use() {
    let mut heap = heap_with(0x100000, 16);
    heap.add_free_from_descriptor(&desc(CONVENTIONAL, 0x400000, 4));
    let mut live = Vec::new();
    for (size, align) in [(10usize, 8usize), (300, 512), (64, 4096), (1, 1), (2000, 64), (129, 256)] {
        let before: Vec<usize> = heap.headers().iter().map(|h| h.addr).collect();
        live.push(heap.alloc_with_options(size, align).unwrap());
        let after: Vec<usize> = heap.headers().iter().map(|h| h.addr).collect();
        assert!(before.iter().all(|a| after.contains(a)));
        assert_apart(heap.headers());
    }
    for p in live.iter().step_by(2) {
        let n = heap.headers().len();
        assert!(heap.dealloc(*p));
        assert_eq!(heap.headers().len(), n);
        assert_apart(heap.headers());
    }
}

#[test]
fn allocated_block_header_sits_right_below_its_data() {
    let mut heap = heap_with(0x100000, 8);
    let p = heap.alloc_with_options(100, 64).unwrap();
    let i = heap.from_allocated_region(p).unwrap();
    let h = heap.headers()[i];
    assert!(h.is_allocated);
    assert_eq!(h.addr + 32, p);
    assert_eq!(h.addr + h.size, p + 128);
    // The shrunk free block ends where the allocated one begins.
    let rest = heap.headers()[0];
    assert_eq!(rest.addr + rest.size, h.addr);
}
