// Tests of the partition model: regions, physical access, dirty
// tracking and the hypervisor-side page walk.

use whvp::mem::GpaManager;
use whvp::whvp::{clear_dr7, set_dr7, set_hw_breakpoint, Allocator, Partition, PartitionError};

fn filled_page(b: u8) -> Vec<u8> {
    vec![b; 4096]
}

fn put_u64(page: &mut Vec<u8>, off: usize, v: u64) {
    let bytes = v.to_le_bytes();
    for i in 0..8 {
        page[off + i] = bytes[i];
    }
}

#[test]
fn allocator_hands_out_zeroed_buffers() {
    let mut alloc = Allocator::new();
    let buf = alloc.allocate_physical_memory(0x1000);
    assert_eq!(buf.len(), 4096);
    assert!(buf.iter().all(|&b| b == 0));
}

#[test]
fn map_and_read_write_physical() {
    let mut p = Partition::new();
    p.map_physical_memory(0x1000, filled_page(0x5a)).unwrap();
    assert_eq!(p.read_physical_memory(0x1800, 2).unwrap(), vec![0x5a, 0x5a]);
    assert_eq!(p.write_physical_memory(0x1800, &vec![1, 2, 3]).unwrap(), 3);
    assert_eq!(p.read_physical_memory(0x17ff, 5).unwrap(), vec![0x5a, 1, 2, 3, 0x5a]);
    assert!(p.is_physical_memory_valid(0x1000, 0x1000));
    assert!(!p.is_physical_memory_valid(0x2000, 1));
    assert_eq!(
        p.read_physical_memory(0x2000, 1),
        Err(PartitionError::NoMappedRegion)
    );
}

#[test]
fn map_rejects_bad_ranges() {
    let mut p = Partition::new();
    assert_eq!(p.map_physical_memory(0x1001, filled_page(0)), Err(PartitionError::Unaligned));
    assert_eq!(p.map_physical_memory(0x1000, vec![0; 100]), Err(PartitionError::BadSize));
    p.map_physical_memory(0x1000, vec![0; 0x2000]).unwrap();
    assert_eq!(p.map_physical_memory(0x2000, filled_page(0)), Err(PartitionError::Overlap));
    assert_eq!(p.regions_len(), 1);
}

#[test]
fn host_writes_leave_pages_clean_guest_writes_dirty_them() {
    let mut p = Partition::new();
    p.map_physical_memory(0x3000, filled_page(0)).unwrap();
    p.write_physical_memory(0x3000, &vec![9; 16]).unwrap();
    assert_eq!(p.query_gpa_range(0x3000, 0x1000).unwrap(), 0);
    p.guest_write_physical_memory(0x3010, &vec![7; 4]).unwrap();
    assert_eq!(p.query_gpa_range(0x3000, 0x1000).unwrap(), 1);
    p.flush_gpa_range(0x3000, 0x1000).unwrap();
    assert_eq!(p.query_gpa_range(0x3000, 0x1000).unwrap(), 0);
    // the bytes written by the guest survive the flush
    assert_eq!(p.read_physical_memory(0x3010, 4).unwrap(), vec![7; 4]);
}

#[test]
fn dirty_bitmap_is_per_page() {
    let mut p = Partition::new();
    p.map_physical_memory(0x4000, vec![0; 0x3000]).unwrap();
    p.guest_write_physical_memory(0x6000, &vec![1]).unwrap();
    // bit zero is the first page of the queried range
    assert_eq!(p.query_gpa_range(0x4000, 0x3000).unwrap(), 0b100);
}

#[test]
fn dirty_query_caps_at_sixty_four_pages() {
    let mut p = Partition::new();
    p.map_physical_memory(0, vec![0; 65 * 0x1000]).unwrap();
    assert_eq!(p.query_gpa_range(0, 65 * 0x1000), Err(PartitionError::RangeTooLarge));
    assert_eq!(p.query_gpa_range(0, 64 * 0x1000).unwrap(), 0);
}

#[test]
fn unmap_removes_contained_regions_only() {
    let mut p = Partition::new();
    p.map_physical_memory(0x1000, filled_page(1)).unwrap();
    p.map_physical_memory(0x5000, vec![2; 0x2000]).unwrap();
    // the range swallows the first region whole; the second region only
    // partially overlaps it and is kept entirely
    p.unmap_physical_memory(0x0000, 0x6000).unwrap();
    assert_eq!(p.regions_len(), 1);
    assert!(!p.is_physical_memory_valid(0x1000, 1));
    assert!(p.is_physical_memory_valid(0x5000, 0x2000));
    assert_eq!(p.read_physical_memory(0x5000, 1).unwrap(), vec![2]);
    // a range that covers nothing whole removes nothing
    p.unmap_physical_memory(0x5000, 0x1000).unwrap();
    assert_eq!(p.regions_len(), 1);
    // dirty bits of an unmapped region are dropped
    p.guest_write_physical_memory(0x5000, &vec![9]).unwrap();
    p.unmap_physical_memory(0x5000, 0x2000).unwrap();
    assert_eq!(p.regions_len(), 0);
}

#[test]
fn hypervisor_walk_matches_cache_walk() {
    // the same tables, walked by the partition and by the cache,
    // resolve identically
    let mut p = Partition::new();
    let mut pml4 = filled_page(0);
    put_u64(&mut pml4, 0, 0x10_1000 | 3);
    let mut pdpt = filled_page(0);
    put_u64(&mut pdpt, 0, 0x10_2000 | 3);
    let mut pd = filled_page(0);
    put_u64(&mut pd, 0, 0x10_3000 | 3);
    let mut pt = filled_page(0);
    for i in 0..512u64 {
        put_u64(&mut pt, (i * 8) as usize, (i * 0x1000) | 3);
    }
    p.map_physical_memory(0x10_0000, pml4.clone()).unwrap();
    p.map_physical_memory(0x10_1000, pdpt.clone()).unwrap();
    p.map_physical_memory(0x10_2000, pd.clone()).unwrap();
    p.map_physical_memory(0x10_3000, pt.clone()).unwrap();
    let mut regs = p.get_regs();
    regs.cr3 = 0x10_0000;
    p.set_regs(&regs);

    let mut cache = GpaManager::new();
    cache.add_page(0x10_0000, pml4);
    cache.add_page(0x10_1000, pdpt);
    cache.add_page(0x10_2000, pd);
    cache.add_page(0x10_3000, pt);

    for va in [0u64, 0x1234, 0x7fff, 0x1f_f00f] {
        assert_eq!(
            p.translate_virtual_address(va).unwrap(),
            cache.translate_gva(0x10_0000, va).unwrap()
        );
    }
}

#[test]
fn partition_gva_access_goes_through_tables() {
    let mut p = Partition::new();
    let mut pml4 = filled_page(0);
    put_u64(&mut pml4, 0, 0x10_1000 | 3);
    let mut pdpt = filled_page(0);
    put_u64(&mut pdpt, 0, 0x10_2000 | 3);
    let mut pd = filled_page(0);
    put_u64(&mut pd, 0, 0x10_3000 | 3);
    let mut pt = filled_page(0);
    for i in 0..512u64 {
        put_u64(&mut pt, (i * 8) as usize, (i * 0x1000) | 3);
    }
    p.map_physical_memory(0x10_0000, pml4).unwrap();
    p.map_physical_memory(0x10_1000, pdpt).unwrap();
    p.map_physical_memory(0x10_2000, pd).unwrap();
    p.map_physical_memory(0x10_3000, pt).unwrap();
    p.map_physical_memory(0x1000, filled_page(0x33)).unwrap();
    p.map_physical_memory(0x2000, filled_page(0x44)).unwrap();
    assert_eq!(p.read_gva(0x10_0000, 0x1fff, 2).unwrap(), vec![0x33, 0x44]);
    p.write_gva(0x10_0000, 0x1fff, &vec![0xaa, 0xbb]).unwrap();
    assert_eq!(p.read_gva(0x10_0000, 0x1fff, 2).unwrap(), vec![0xaa, 0xbb]);
    // a host-side virtual write leaves the dirty bitmap clean
    assert_eq!(p.query_gpa_range(0x1000, 0x1000).unwrap(), 0);
}

#[test]
fn hw_breakpoint_helpers() {
    assert_eq!(set_dr7(0, 0), 1);
    assert_eq!(set_dr7(0, 1), 4);
    assert_eq!(clear_dr7(set_dr7(0, 0), 0), 0);
    let mut regs = Partition::new().get_regs();
    set_hw_breakpoint(&mut regs, 0xdead_beef);
    assert_eq!(regs.dr0, 0xdead_beef);
    assert_eq!(regs.dr7 & 1, 1);
}
