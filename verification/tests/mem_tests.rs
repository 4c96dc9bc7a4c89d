// Tests of the guest-physical page cache and the address-space walker.

use whvp::mem::{chunked, page_off, pd_index, pdpt_index, pml4_index, pt_index, GpaManager,
    VirtMemError};

fn filled_page(b: u8) -> Vec<u8> {
    vec![b; 4096]
}

fn put_u64(page: &mut Vec<u8>, off: usize, v: u64) {
    let bytes = v.to_le_bytes();
    for i in 0..8 {
        page[off + i] = bytes[i];
    }
}

// Identity-maps the first 2 MiB of guest-virtual space with 4 KiB
// pages: PML4 at 0x10_0000, PDPT at 0x10_1000, PD at 0x10_2000, PT at
// 0x10_3000.
fn install_tables(cache: &mut GpaManager) -> u64 {
    let cr3: u64 = 0x10_0000;
    let mut pml4 = filled_page(0);
    put_u64(&mut pml4, 0, 0x10_1000 | 3);
    cache.add_page(0x10_0000, pml4);
    let mut pdpt = filled_page(0);
    put_u64(&mut pdpt, 0, 0x10_2000 | 3);
    cache.add_page(0x10_1000, pdpt);
    let mut pd = filled_page(0);
    put_u64(&mut pd, 0, 0x10_3000 | 3);
    cache.add_page(0x10_2000, pd);
    let mut pt = filled_page(0);
    for i in 0..512u64 {
        put_u64(&mut pt, (i * 8) as usize, (i * 0x1000) | 3);
    }
    cache.add_page(0x10_3000, pt);
    cr3
}

#[test]
fn address_helpers() {
    assert_eq!(page_off(0x1234), (0x1000, 0x234));
    assert_eq!(page_off(0xfff), (0, 0xfff));
    assert_eq!(pml4_index(1u64 << 39), 1);
    assert_eq!(pdpt_index(0x4000_0000), 1);
    assert_eq!(pd_index(0x20_0000), 1);
    assert_eq!(pt_index(0x1000), 1);
}

#[test]
fn chunked_splits_at_page_boundaries() {
    let chunks = chunked(0xff0, 0x20);
    assert_eq!(chunks, vec![(0xff0, 0x10), (0x1000, 0x10)]);
    let chunks = chunked(0x1000, 0x1000);
    assert_eq!(chunks, vec![(0x1000, 0x1000)]);
    let chunks = chunked(0x1234, 0);
    assert_eq!(chunks, Vec::<(u64, usize)>::new());
}

#[test]
fn cache_read_write_roundtrip() {
    let mut cache = GpaManager::new();
    cache.add_page(0x1000, filled_page(0xaa));
    let out = cache.read_gpa(0x1010, 4).unwrap();
    assert_eq!(out, vec![0xaa; 4]);
    cache.write_gpa(0x1010, &vec![1, 2, 3]).unwrap();
    let out = cache.read_gpa(0x100f, 5).unwrap();
    assert_eq!(out, vec![0xaa, 1, 2, 3, 0xaa]);
}

#[test]
fn cache_read_spanning_page_fails() {
    let mut cache = GpaManager::new();
    cache.add_page(0x1000, filled_page(0));
    cache.add_page(0x2000, filled_page(0));
    assert_eq!(cache.read_gpa(0x1ffc, 8), Err(VirtMemError::SpanningPage));
    assert_eq!(cache.write_gpa(0x1fff, &vec![0, 0]), Err(VirtMemError::SpanningPage));
}

#[test]
fn cache_missing_page_fails() {
    let mut cache = GpaManager::new();
    assert_eq!(cache.read_gpa(0x5000, 1), Err(VirtMemError::MissingPage(0x5000)));
    assert_eq!(cache.write_gpa(0x5001, &vec![7]), Err(VirtMemError::MissingPage(0x5000)));
    cache.add_page(0x5000, filled_page(9));
    assert!(cache.has_page(0x5123));
    cache.del_page(0x5000);
    assert!(!cache.has_page(0x5123));
}

#[test]
fn read_gpa_u64_little_endian() {
    let mut cache = GpaManager::new();
    let mut page = filled_page(0);
    put_u64(&mut page, 8, 0x1122_3344_5566_7788);
    cache.add_page(0x3000, page);
    assert_eq!(cache.read_gpa_u64(0x3008).unwrap(), 0x1122_3344_5566_7788);
}

#[test]
fn walker_resolves_4k_pages() {
    let mut cache = GpaManager::new();
    let cr3 = install_tables(&mut cache);
    assert_eq!(cache.translate_gva(cr3, 0x1234).unwrap(), 0x1234);
    assert_eq!(cache.translate_gva(cr3, 0x1f_f000).unwrap(), 0x1f_f000);
}

#[test]
fn walker_reports_non_present_entries() {
    let mut cache = GpaManager::new();
    let cr3 = install_tables(&mut cache);
    // index 1 of the PML4 is empty: bit zero clear
    let gva_high = 1u64 << 39;
    assert_eq!(cache.translate_gva(cr3, gva_high), Err(VirtMemError::Pml4eNotPresent));
    // a missing table page asks for demand paging
    cache.del_page(0x10_3000);
    assert_eq!(cache.translate_gva(cr3, 0x1000), Err(VirtMemError::MissingPage(0x10_3000)));
}

#[test]
fn walker_reports_each_missing_level() {
    let mut cache = GpaManager::new();
    let cr3: u64 = 0x10_0000;
    let mut pml4 = filled_page(0);
    put_u64(&mut pml4, 0, 0x10_1000 | 3);
    cache.add_page(0x10_0000, pml4);
    // PDPT present but all entries empty
    cache.add_page(0x10_1000, filled_page(0));
    assert_eq!(cache.translate_gva(cr3, 0x1000), Err(VirtMemError::PdpteNotPresent));
    let mut pdpt = filled_page(0);
    put_u64(&mut pdpt, 0, 0x10_2000 | 3);
    cache.add_page(0x10_1000, pdpt);
    cache.add_page(0x10_2000, filled_page(0));
    assert_eq!(cache.translate_gva(cr3, 0x1000), Err(VirtMemError::PdeNotPresent));
    let mut pd = filled_page(0);
    put_u64(&mut pd, 0, 0x10_3000 | 3);
    cache.add_page(0x10_2000, pd);
    cache.add_page(0x10_3000, filled_page(0));
    assert_eq!(cache.translate_gva(cr3, 0x1000), Err(VirtMemError::PteNotPresent));
}

#[test]
fn walker_resolves_2m_large_pages() {
    let mut cache = GpaManager::new();
    let cr3: u64 = 0x10_0000;
    let mut pml4 = filled_page(0);
    put_u64(&mut pml4, 0, 0x10_1000 | 3);
    cache.add_page(0x10_0000, pml4);
    let mut pdpt = filled_page(0);
    put_u64(&mut pdpt, 0, 0x10_2000 | 3);
    cache.add_page(0x10_1000, pdpt);
    let mut pd = filled_page(0);
    // PD entry 1 maps a 2 MiB page at physical 0x4000_0000 (PS bit set)
    put_u64(&mut pd, 8, 0x4000_0000 | 0x80 | 3);
    cache.add_page(0x10_2000, pd);
    let va_base = 0x20_0000u64;
    assert_eq!(cache.translate_gva(cr3, va_base).unwrap(), 0x4000_0000);
    assert_eq!(cache.translate_gva(cr3, va_base + 0x12345).unwrap(), 0x4001_2345);
    // the very top of the 2 MiB mapping
    assert_eq!(
        cache.translate_gva(cr3, va_base + 0x1f_ffff).unwrap(),
        0x4000_0000 + 0x1f_ffff
    );
}

#[test]
fn walker_resolves_1g_huge_pages() {
    let mut cache = GpaManager::new();
    let cr3: u64 = 0x10_0000;
    let mut pml4 = filled_page(0);
    put_u64(&mut pml4, 0, 0x10_1000 | 3);
    cache.add_page(0x10_0000, pml4);
    let mut pdpt = filled_page(0);
    // PDPT entry 1 maps a 1 GiB page at physical 0x1_0000_0000 (PS bit)
    put_u64(&mut pdpt, 8, 0x1_0000_0000u64 | 0x80 | 3);
    cache.add_page(0x10_1000, pdpt);
    let va_base = 0x4000_0000u64;
    assert_eq!(cache.translate_gva(cr3, va_base).unwrap(), 0x1_0000_0000);
    // the very top of the 1 GiB mapping
    assert_eq!(
        cache.translate_gva(cr3, va_base + 0x3fff_ffff).unwrap(),
        0x1_0000_0000 + 0x3fff_ffff
    );
}

#[test]
fn gva_access_crosses_pages() {
    let mut cache = GpaManager::new();
    let cr3 = install_tables(&mut cache);
    cache.add_page(0x1000, filled_page(0x11));
    cache.add_page(0x2000, filled_page(0x22));
    let out = cache.read_gva(cr3, 0x1ffe, 4).unwrap();
    assert_eq!(out, vec![0x11, 0x11, 0x22, 0x22]);
    cache.write_gva(cr3, 0x1fff, &vec![0xde, 0xad]).unwrap();
    assert_eq!(cache.read_gva(cr3, 0x1fff, 2).unwrap(), vec![0xde, 0xad]);
    assert_eq!(cache.read_gva_u8(cr3, 0x2000).unwrap(), 0xad);
}

#[test]
fn gva_sized_reads() {
    let mut cache = GpaManager::new();
    let cr3 = install_tables(&mut cache);
    let mut page = filled_page(0);
    put_u64(&mut page, 0, 0x8877_6655_4433_2211);
    cache.add_page(0x4000, page);
    assert_eq!(cache.read_gva_u64(cr3, 0x4000).unwrap(), 0x8877_6655_4433_2211);
    assert_eq!(cache.read_gva_u32(cr3, 0x4000).unwrap(), 0x4433_2211);
    assert_eq!(cache.read_gva_u16(cr3, 0x4000).unwrap(), 0x2211);
    assert_eq!(cache.read_gva_u8(cr3, 0x4000).unwrap(), 0x11);
}
