//! Guest-physical page cache and the x86-64 four-level address-space
//! walker.
//!
//! The cache (`GpaManager`) maps page-aligned guest-physical addresses
//! to 4096-byte pages.  On top of it, `translate_gva` resolves a guest
//! virtual address through PML4 / PDPT / PD / PT entries, including
//! 1 GiB and 2 MiB large pages, and `read_gva` / `write_gva` chunk
//! accesses at page boundaries.

use vstd::prelude::*;
use std::collections::HashMap;

verus! {

broadcast use vstd::std_specs::hash::group_hash_axioms;

/// A guest virtual address.
pub type Gva = u64;

/// A guest physical address.
pub type Gpa = u64;

/// Mask that clears the low twelve (page-offset) bits of an address.
pub const PAGE_BASE_MASK: u64 = 0xffff_ffff_ffff_f000;

/// Mask that keeps the physical frame bits of a page-table entry.
pub const FRAME_MASK: u64 = 0x000f_ffff_ffff_f000;

/// Failures of the address-space layer.
#[derive(Clone, Copy, Debug, PartialEq, Eq, Hash, Structural)]
pub enum VirtMemError {
    Pml4eNotPresent,
    PdpteNotPresent,
    PdeNotPresent,
    PteNotPresent,
    SpanningPage,
    MissingPage(u64),
}

/// The page (4 KiB) containing an address.
pub open spec fn spec_page_base(a: u64) -> u64 {
    a & PAGE_BASE_MASK
}

/// The offset of an address within its page.
pub open spec fn spec_page_offset(a: u64) -> u64 {
    a & 0xfff
}

pub proof fn lemma_page_offset_bound(a: u64)
    ensures
        a & 0xfff < 4096,
        a & PAGE_BASE_MASK <= a,
        a & PAGE_BASE_MASK <= 0xffff_ffff_ffff_f000,
        (a & PAGE_BASE_MASK) + (a & 0xfff) == a,
        (a & PAGE_BASE_MASK) & 0xfff == 0,
{
    assert((a & 0xfff) < 4096 && (a & 0xffff_ffff_ffff_f000) <= a
        && (a & 0xffff_ffff_ffff_f000) <= 0xffff_ffff_ffff_f000
        && (a & 0xffff_ffff_ffff_f000) + (a & 0xfff) == a
        && ((a & 0xffff_ffff_ffff_f000) & 0xfff) == 0) by (bit_vector);
}

/// Splits an address into its page base and its offset within the page.
pub fn page_off(a: Gpa) -> (r: (Gpa, usize))
    ensures
        r.0 == spec_page_base(a),
        r.1 == spec_page_offset(a) as usize,
        r.1 < 4096,
{
    proof {
        lemma_page_offset_bound(a);
    }
    (a & PAGE_BASE_MASK, (a & 0xfff) as usize)
}

/// Index of a virtual address into the page-map level 4 table.
pub open spec fn spec_pml4_index(gva: u64) -> u64 {
    (gva >> 39) & 0x1ff
}

/// Index of a virtual address into the page-directory-pointer table.
pub open spec fn spec_pdpt_index(gva: u64) -> u64 {
    (gva >> 30) & 0x1ff
}

/// Index of a virtual address into the page directory.
pub open spec fn spec_pd_index(gva: u64) -> u64 {
    (gva >> 21) & 0x1ff
}

/// Index of a virtual address into the page table.
pub open spec fn spec_pt_index(gva: u64) -> u64 {
    (gva >> 12) & 0x1ff
}

pub proof fn lemma_table_index_bound(gva: u64)
    ensures
        spec_pml4_index(gva) < 512,
        spec_pdpt_index(gva) < 512,
        spec_pd_index(gva) < 512,
        spec_pt_index(gva) < 512,
{
    assert((gva >> 39) & 0x1ff < 512 && (gva >> 30) & 0x1ff < 512 && (gva >> 21) & 0x1ff < 512
        && (gva >> 12) & 0x1ff < 512) by (bit_vector);
}

pub fn pml4_index(gva: Gva) -> (r: u64)
    ensures
        r == spec_pml4_index(gva),
        r < 512,
{
    proof {
        lemma_table_index_bound(gva);
    }
    (gva >> 39) & 0x1ff
}

pub fn pdpt_index(gva: Gva) -> (r: u64)
    ensures
        r == spec_pdpt_index(gva),
        r < 512,
{
    proof {
        lemma_table_index_bound(gva);
    }
    (gva >> 30) & 0x1ff
}

pub fn pd_index(gva: Gva) -> (r: u64)
    ensures
        r == spec_pd_index(gva),
        r < 512,
{
    proof {
        lemma_table_index_bound(gva);
    }
    (gva >> 21) & 0x1ff
}

pub fn pt_index(gva: Gva) -> (r: u64)
    ensures
        r == spec_pt_index(gva),
        r < 512,
{
    proof {
        lemma_table_index_bound(gva);
    }
    (gva >> 12) & 0x1ff
}

/// Splits a page-table entry into the table base it points at and its
/// low nine flag bits.
pub fn base_flags(gpa: Gpa) -> (r: (Gpa, u64))
    ensures
        r.0 == gpa & FRAME_MASK,
        r.1 == gpa & 0x1ff,
{
    (gpa & FRAME_MASK, gpa & 0x1ff)
}

/// Splits a page-table entry into its physical frame and its twelve
/// flag bits.
pub fn pte_flags(pte: Gva) -> (r: (Gpa, u64))
    ensures
        r.0 == pte & FRAME_MASK,
        r.1 == pte & 0xfff,
{
    (pte & FRAME_MASK, pte & 0xfff)
}

/// The offset of a virtual address within its page.
pub fn page_offset(gva: Gva) -> (r: u64)
    ensures
        r == spec_page_offset(gva),
        r < 4096,
{
    proof {
        lemma_page_offset_bound(gva);
    }
    gva & 0xfff
}

/// The guest-physical page cache: page-aligned addresses to 4096-byte
/// pages.
pub struct GpaManager {
    pages: HashMap<u64, Vec<u8>>,
}

/// The abstract contents of a page table: each page as a byte sequence.
pub open spec fn pages_view(m: Map<u64, Vec<u8>>) -> Map<u64, Seq<u8>> {
    m.map_values(|p: Vec<u8>| p@)
}

/// Every key page aligned, every page 4096 bytes long.
pub open spec fn pages_wf(pages: Map<u64, Seq<u8>>) -> bool {
    forall|k: u64| #[trigger] pages.contains_key(k) ==> k & 0xfff == 0 && pages[k].len() == 4096
}

proof fn lemma_pages_view(m: Map<u64, Vec<u8>>)
    ensures
        forall|k: u64| #[trigger] pages_view(m).contains_key(k) <==> m.contains_key(k),
        forall|k: u64| #[trigger] m.contains_key(k) ==> pages_view(m)[k] == m[k]@,
{
}

impl View for GpaManager {
    type V = Map<u64, Seq<u8>>;

    closed spec fn view(&self) -> Map<u64, Seq<u8>> {
        pages_view(self.pages@)
    }
}

impl GpaManager {
    /// Every key is page aligned and every page holds 4096 bytes.
    pub open spec fn wf(&self) -> bool {
        pages_wf(self@)
    }

    pub fn new() -> (r: GpaManager)
        ensures
            r@ == Map::<u64, Seq<u8>>::empty(),
            r.wf(),
    {
        let r = GpaManager { pages: HashMap::new() };
        proof {
            assert(r@ =~= Map::<u64, Seq<u8>>::empty());
        }
        r
    }

    /// Whether the page containing `gpa` is cached.
    pub fn has_page(&self, gpa: Gpa) -> (r: bool)
        ensures
            r == self@.contains_key(spec_page_base(gpa)),
    {
        let (base, _) = page_off(gpa);
        proof {
            lemma_pages_view(self.pages@);
        }
        self.pages.contains_key(&base)
    }

    /// Stores a whole page, replacing any previous contents.
    pub fn add_page(&mut self, gpa: Gpa, page: Vec<u8>)
        requires
            old(self).wf(),
            page@.len() == 4096,
        ensures
            final(self)@ == old(self)@.insert(spec_page_base(gpa), page@),
            final(self).wf(),
    {
        let (base, _) = page_off(gpa);
        proof {
            lemma_page_offset_bound(gpa);
        }
        self.pages.insert(base, page);
        proof {
            lemma_pages_view(self.pages@);
            lemma_pages_view(old(self).pages@);
            assert(self@ =~= old(self)@.insert(spec_page_base(gpa), page@));
        }
    }

    /// Drops the page containing `gpa` from the cache.
    pub fn del_page(&mut self, gpa: Gpa)
        requires
            old(self).wf(),
        ensures
            final(self)@ == old(self)@.remove(spec_page_base(gpa)),
            final(self).wf(),
    {
        let (base, _) = page_off(gpa);
        self.pages.remove(&base);
        proof {
            lemma_pages_view(self.pages@);
            lemma_pages_view(old(self).pages@);
            assert(self@ =~= old(self)@.remove(spec_page_base(gpa)));
        }
    }

    /// Copies `len` bytes out of the cache, starting at `gpa`.  The
    /// access must not cross a page boundary and the page must be
    /// present.
    pub fn read_gpa(&self, gpa: Gpa, len: usize) -> (r: Result<Vec<u8>, VirtMemError>)
        requires
            self.wf(),
        ensures
            spec_page_offset(gpa) + len > 4096 ==> r == Err::<Vec<u8>, VirtMemError>(
                VirtMemError::SpanningPage,
            ),
            spec_page_offset(gpa) + len <= 4096 && !self@.contains_key(spec_page_base(gpa))
                ==> r == Err::<Vec<u8>, VirtMemError>(
                VirtMemError::MissingPage(spec_page_base(gpa)),
            ),
            spec_page_offset(gpa) + len <= 4096 && self@.contains_key(spec_page_base(gpa)) ==> {
                &&& r is Ok
                &&& r.unwrap()@ == self@[spec_page_base(gpa)].subrange(
                    spec_page_offset(gpa) as int,
                    spec_page_offset(gpa) + len,
                )
            },
    {
        let (base, off) = page_off(gpa);
        proof {
            lemma_pages_view(self.pages@);
            lemma_page_offset_bound(gpa);
        }
        if len > 4096 - off {
            return Err(VirtMemError::SpanningPage);
        }
        match self.pages.get(&base) {
            Some(page) => {
                proof {
                    lemma_page_offset_bound(gpa);
                    assert(self@.contains_key(spec_page_base(gpa)));
                    assert(page@ == self@[spec_page_base(gpa)]);
                    assert(page@.len() == 4096);
                }
                let mut out: Vec<u8> = Vec::new();
                let mut i: usize = 0;
                while i < len
                    invariant
                        i <= len,
                        off + len <= 4096,
                        page@ == self@[spec_page_base(gpa)],
                        page@.len() == 4096,
                        off == spec_page_offset(gpa),
                        out@ == page@.subrange(off as int, off + i),
                    decreases len - i,
                {
                    out.push(page[off + i]);
                    i = i + 1;
                    proof {
                        assert(out@ =~= page@.subrange(off as int, off + i));
                    }
                }
                proof {
                    assert(out@ =~= self@[spec_page_base(gpa)].subrange(
                        spec_page_offset(gpa) as int,
                        spec_page_offset(gpa) + len,
                    ));
                }
                Ok(out)
            },
            None => Err(VirtMemError::MissingPage(base)),
        }
    }

    /// The page contents after writing `data` at offset `off`.
    pub open spec fn spec_splice(page: Seq<u8>, off: int, data: Seq<u8>) -> Seq<u8> {
        Seq::new(page.len(), |i: int| if off <= i < off + data.len() { data[i - off] } else { page[i] })
    }

    /// Writes `data` into a cached page.  The access must not cross a
    /// page boundary; a write never faults a page in.
    pub fn write_gpa(&mut self, gpa: Gpa, data: &Vec<u8>) -> (r: Result<(), VirtMemError>)
        requires
            old(self).wf(),
        ensures
            final(self).wf(),
            spec_page_offset(gpa) + data@.len() > 4096 ==> r == Err::<(), VirtMemError>(
                VirtMemError::SpanningPage,
            ) && final(self)@ == old(self)@,
            spec_page_offset(gpa) + data@.len() <= 4096 && !old(self)@.contains_key(
                spec_page_base(gpa),
            ) ==> r == Err::<(), VirtMemError>(VirtMemError::MissingPage(spec_page_base(gpa)))
                && final(self)@ == old(self)@,
            spec_page_offset(gpa) + data@.len() <= 4096 && old(self)@.contains_key(
                spec_page_base(gpa),
            ) ==> r is Ok && final(self)@ == old(self)@.insert(
                spec_page_base(gpa),
                Self::spec_splice(
                    old(self)@[spec_page_base(gpa)],
                    spec_page_offset(gpa) as int,
                    data@,
                ),
            ),
    {
        let (base, off) = page_off(gpa);
        proof {
            lemma_pages_view(self.pages@);
            lemma_page_offset_bound(gpa);
        }
        if data.len() > 4096 - off {
            return Err(VirtMemError::SpanningPage);
        }
        let mut page: Vec<u8> = match self.pages.get(&base) {
            Some(p) => {
                proof {
                    lemma_page_offset_bound(gpa);
                    assert(old(self)@.contains_key(spec_page_base(gpa)));
                    assert(p@ == old(self)@[spec_page_base(gpa)]);
                    assert(p@.len() == 4096);
                }
                let mut copy: Vec<u8> = Vec::new();
                let mut i: usize = 0;
                while i < p.len()
                    invariant
                        i <= p.len(),
                        copy@ == p@.subrange(0, i as int),
                    decreases p.len() - i,
                {
                    copy.push(p[i]);
                    i = i + 1;
                    proof {
                        assert(copy@ =~= p@.subrange(0, i as int));
                    }
                }
                proof {
                    assert(copy@ =~= p@);
                }
                copy
            },
            None => {
                proof {
                    lemma_page_offset_bound(gpa);
                }
                return Err(VirtMemError::MissingPage(base));
            },
        };
        let ghost orig = page@;
        let mut i: usize = 0;
        while i < data.len()
            invariant
                i <= data@.len(),
                off + data@.len() <= 4096,
                orig.len() == 4096,
                page@.len() == 4096,
                off == spec_page_offset(gpa),
                forall|j: int| 0 <= j < orig.len() && !(off <= j < off + i) ==> page@[j] == orig[j],
                forall|j: int| off <= j < off + i ==> page@[j] == data@[j - off],
            decreases data@.len() - i,
        {
            page.set(off + i, data[i]);
            i = i + 1;
        }
        proof {
            assert(page@ =~= Self::spec_splice(orig, off as int, data@));
        }
        self.pages.insert(base, page);
        proof {
            lemma_pages_view(self.pages@);
            lemma_pages_view(old(self).pages@);
            assert(self@ =~= old(self)@.insert(
                spec_page_base(gpa),
                Self::spec_splice(
                    old(self)@[spec_page_base(gpa)],
                    spec_page_offset(gpa) as int,
                    data@,
                ),
            ));
        }
        Ok(())
    }
}

} // verus!

verus! {

/// Guest-physical address of the `index`-th eight-byte entry of the
/// page table that starts at `table_base`.
pub open spec fn spec_entry_addr(table_base: u64, index: u64) -> u64 {
    (table_base + index * 8) as u64
}

proof fn lemma_entry_addr(b: u64, i: u64)
    requires
        b & 0xfff == 0,
        i < 512,
    ensures
        b + i * 8 <= u64::MAX,
        spec_page_base((b + i * 8) as u64) == b,
        spec_page_offset((b + i * 8) as u64) == i * 8,
        i * 8 + 8 <= 4096,
{
    assert(b & 0xfff == 0 && i < 512 ==> b + i * 8 <= 0xffff_ffff_ffff_ffff
        && ((b + i * 8) as u64) & 0xffff_ffff_ffff_f000 == b
        && ((b + i * 8) as u64) & 0xfff == i * 8
        && i * 8 + 8 <= 4096) by (bit_vector);
}

/// The `index`-th entry of the page table at `table_base`, read out of
/// `pages`; fails when the table's page is absent.
pub open spec fn spec_read_entry(pages: Map<u64, Seq<u8>>, table_base: u64, index: u64) -> Result<
    u64,
    VirtMemError,
> {
    if pages.contains_key(table_base) {
        Ok(
            vstd::bytes::spec_u64_from_le_bytes(
                pages[table_base].subrange(index * 8, index * 8 + 8),
            ),
        )
    } else {
        Err(VirtMemError::MissingPage(table_base))
    }
}

/// The four-level x86-64 page walk: resolves a virtual address to the
/// physical address it maps to, honouring 1 GiB pages (PS bit set in
/// the PDPT entry) and 2 MiB pages (PS bit set in the PD entry).
pub open spec fn spec_translate(pages: Map<u64, Seq<u8>>, cr3: u64, gva: u64) -> Result<
    u64,
    VirtMemError,
> {
    match spec_read_entry(pages, cr3 & FRAME_MASK, spec_pml4_index(gva)) {
        Err(e) => Err(e),
        Ok(pml4e) => if pml4e & 1 == 0 {
            Err(VirtMemError::Pml4eNotPresent)
        } else {
            match spec_read_entry(pages, pml4e & FRAME_MASK, spec_pdpt_index(gva)) {
                Err(e) => Err(e),
                Ok(pdpte) => if pdpte & 1 == 0 {
                    Err(VirtMemError::PdpteNotPresent)
                } else if pdpte & 0x80 != 0 {
                    Ok(((pdpte & 0xffff_ffff_c000_0000) + (gva & 0x3fff_ffff)) as u64)
                } else {
                    match spec_read_entry(pages, pdpte & FRAME_MASK, spec_pd_index(gva)) {
                        Err(e) => Err(e),
                        Ok(pde) => if pde & 1 == 0 {
                            Err(VirtMemError::PdeNotPresent)
                        } else if pde & 0x80 != 0 {
                            Ok(((pde & 0xffff_ffff_ffe0_0000) + (gva & 0x1f_ffff)) as u64)
                        } else {
                            match spec_read_entry(pages, pde & FRAME_MASK, spec_pt_index(gva)) {
                                Err(e) => Err(e),
                                Ok(pte) => if pte & 1 == 0 {
                                    Err(VirtMemError::PteNotPresent)
                                } else {
                                    Ok(((pte & FRAME_MASK) + (gva & 0xfff)) as u64)
                                },
                            }
                        },
                    }
                },
            }
        },
    }
}

proof fn lemma_frame_mask_aligned(x: u64)
    ensures
        (x & FRAME_MASK) & 0xfff == 0,
{
    assert((x & 0x000f_ffff_ffff_f000) & 0xfff == 0) by (bit_vector);
}

proof fn lemma_map_sum_no_overflow(e: u64, gva: u64)
    ensures
        (e & 0xffff_ffff_c000_0000) + (gva & 0x3fff_ffff) <= u64::MAX,
        (e & 0xffff_ffff_ffe0_0000) + (gva & 0x1f_ffff) <= u64::MAX,
        (e & FRAME_MASK) + (gva & 0xfff) <= u64::MAX,
{
    assert((e & 0xffff_ffff_c000_0000) + (gva & 0x3fff_ffff) <= 0xffff_ffff_ffff_ffff
        && (e & 0xffff_ffff_ffe0_0000) + (gva & 0x1f_ffff) <= 0xffff_ffff_ffff_ffff
        && (e & 0x000f_ffff_ffff_f000) + (gva & 0xfff) <= 0xffff_ffff_ffff_ffff) by (bit_vector);
}

impl GpaManager {
    /// Reads one page-table entry out of the cache.
    fn read_entry(&self, table_base: u64, index: u64) -> (r: Result<u64, VirtMemError>)
        requires
            self.wf(),
            table_base & 0xfff == 0,
            index < 512,
        ensures
            r == spec_read_entry(self@, table_base, index),
    {
        proof {
            lemma_entry_addr(table_base, index);
        }
        let gpa = table_base + index * 8;
        match self.read_gpa(gpa, 8) {
            Ok(bytes) => Ok(vstd::bytes::u64_from_le_bytes(bytes.as_slice())),
            Err(e) => Err(e),
        }
    }

    /// Reads a little-endian u64 out of one cached page.
    pub fn read_gpa_u64(&self, gpa: Gpa) -> (r: Result<u64, VirtMemError>)
        requires
            self.wf(),
        ensures
            spec_page_offset(gpa) + 8 > 4096 ==> r == Err::<u64, VirtMemError>(
                VirtMemError::SpanningPage,
            ),
            spec_page_offset(gpa) + 8 <= 4096 && !self@.contains_key(spec_page_base(gpa)) ==> r
                == Err::<u64, VirtMemError>(VirtMemError::MissingPage(spec_page_base(gpa))),
            spec_page_offset(gpa) + 8 <= 4096 && self@.contains_key(spec_page_base(gpa)) ==> r
                == Ok::<u64, VirtMemError>(
                vstd::bytes::spec_u64_from_le_bytes(
                    self@[spec_page_base(gpa)].subrange(
                        spec_page_offset(gpa) as int,
                        spec_page_offset(gpa) + 8,
                    ),
                ),
            ),
    {
        match self.read_gpa(gpa, 8) {
            Ok(bytes) => Ok(vstd::bytes::u64_from_le_bytes(bytes.as_slice())),
            Err(e) => Err(e),
        }
    }

    /// Resolves a guest virtual address through the page tables held in
    /// the cache.
    pub fn translate_gva(&self, cr3: Gpa, gva: Gva) -> (r: Result<Gpa, VirtMemError>)
        requires
            self.wf(),
        ensures
            r == spec_translate(self@, cr3, gva),
    {
        proof {
            lemma_frame_mask_aligned(cr3);
            lemma_table_index_bound(gva);
        }
        let pml4e = match self.read_entry(cr3 & FRAME_MASK, pml4_index(gva)) {
            Ok(v) => v,
            Err(e) => {
                return Err(e);
            },
        };
        if pml4e & 1 == 0 {
            return Err(VirtMemError::Pml4eNotPresent);
        }
        proof {
            lemma_frame_mask_aligned(pml4e);
        }
        let pdpte = match self.read_entry(pml4e & FRAME_MASK, pdpt_index(gva)) {
            Ok(v) => v,
            Err(e) => {
                return Err(e);
            },
        };
        if pdpte & 1 == 0 {
            return Err(VirtMemError::PdpteNotPresent);
        }
        if pdpte & 0x80 != 0 {
            proof {
                lemma_map_sum_no_overflow(pdpte, gva);
            }
            return Ok((pdpte & 0xffff_ffff_c000_0000) + (gva & 0x3fff_ffff));
        }
        proof {
            lemma_frame_mask_aligned(pdpte);
        }
        let pde = match self.read_entry(pdpte & FRAME_MASK, pd_index(gva)) {
            Ok(v) => v,
            Err(e) => {
                return Err(e);
            },
        };
        if pde & 1 == 0 {
            return Err(VirtMemError::PdeNotPresent);
        }
        if pde & 0x80 != 0 {
            proof {
                lemma_map_sum_no_overflow(pde, gva);
            }
            return Ok((pde & 0xffff_ffff_ffe0_0000) + (gva & 0x1f_ffff));
        }
        proof {
            lemma_frame_mask_aligned(pde);
        }
        let pte = match self.read_entry(pde & FRAME_MASK, pt_index(gva)) {
            Ok(v) => v,
            Err(e) => {
                return Err(e);
            },
        };
        if pte & 1 == 0 {
            return Err(VirtMemError::PteNotPresent);
        }
        proof {
            lemma_map_sum_no_overflow(pte, gva);
        }
        Ok((pte & FRAME_MASK) + (gva & 0xfff))
    }
}

/// If every page of `m1` is also in `m2` with the same contents, a
/// page walk that succeeds over `m1` gives the same physical address
/// over `m2`.
pub proof fn lemma_translate_submap(
    m1: Map<u64, Seq<u8>>,
    m2: Map<u64, Seq<u8>>,
    cr3: u64,
    gva: u64,
)
    requires
        forall|k: u64| #[trigger] m1.contains_key(k) ==> m2.contains_key(k) && m2[k] == m1[k],
        spec_translate(m1, cr3, gva) is Ok,
    ensures
        spec_translate(m2, cr3, gva) == spec_translate(m1, cr3, gva),
{
}

} // verus!

verus! {

/// The page-bounded chunks that cover `sz` bytes starting at `start`:
/// each chunk lies within one 4 KiB page and they are consecutive.
pub open spec fn spec_chunks(start: int, sz: int) -> Seq<(u64, usize)>
    decreases sz,
{
    if sz <= 0 {
        Seq::empty()
    } else {
        let room = 4096 - (start % 4096);
        let c = if sz <= room {
            sz
        } else {
            room
        };
        seq![(start as u64, c as usize)] + spec_chunks(start + c, sz - c)
    }
}

pub proof fn lemma_offset_is_mod(b: u64)
    ensures
        (b & 0xfff) == b % 4096,
{
    assert((b & 0xfff) == b % 4096) by (bit_vector);
}

/// Splits the byte range `[start, start + sz)` at page boundaries.
pub fn chunked(start: Gva, sz: usize) -> (r: Vec<(u64, usize)>)
    requires
        start + sz <= u64::MAX,
    ensures
        r@ == spec_chunks(start as int, sz as int),
{
    let mut out: Vec<(u64, usize)> = Vec::new();
    let mut base: u64 = start;
    let mut remaining: usize = sz;
    while remaining > 0
        invariant
            start + sz <= u64::MAX,
            base == start + sz - remaining,
            remaining <= sz,
            spec_chunks(start as int, sz as int) == out@ + spec_chunks(
                base as int,
                remaining as int,
            ),
        decreases remaining,
    {
        proof {
            lemma_page_offset_bound(base);
            lemma_offset_is_mod(base);
        }
        let off = (base & 0xfff) as usize;
        let room = 4096 - off;
        let chunk = if remaining <= room {
            remaining
        } else {
            room
        };
        let ghost prev_base = base as int;
        let ghost prev_rem = remaining as int;
        out.push((base, chunk));
        base = base + chunk as u64;
        remaining = remaining - chunk;
        proof {
            assert(spec_chunks(prev_base, prev_rem) == seq![(prev_base as u64, chunk)]
                + spec_chunks(base as int, remaining as int));
            assert(spec_chunks(start as int, sz as int) =~= out@ + spec_chunks(
                base as int,
                remaining as int,
            ));
        }
    }
    proof {
        assert(out@ =~= spec_chunks(start as int, sz as int));
    }
    out
}

/// A page walk never changes the offset within the page: the low
/// twelve bits of the physical address equal those of the virtual one.
pub proof fn lemma_translate_low_bits(pages: Map<u64, Seq<u8>>, cr3: u64, gva: u64)
    requires
        spec_translate(pages, cr3, gva) is Ok,
    ensures
        spec_translate(pages, cr3, gva).unwrap() & 0xfff == gva & 0xfff,
{
    let g = spec_translate(pages, cr3, gva).unwrap();
    match spec_read_entry(pages, cr3 & FRAME_MASK, spec_pml4_index(gva)) {
        Err(_) => {},
        Ok(pml4e) => {
            match spec_read_entry(pages, pml4e & FRAME_MASK, spec_pdpt_index(gva)) {
                Err(_) => {},
                Ok(pdpte) => {
                    if pdpte & 1 != 0 && pdpte & 0x80 != 0 {
                        assert((((pdpte & 0xffff_ffff_c000_0000) + (gva & 0x3fff_ffff)) as u64)
                            & 0xfff == gva & 0xfff) by (bit_vector);
                    } else {
                        match spec_read_entry(pages, pdpte & FRAME_MASK, spec_pd_index(gva)) {
                            Err(_) => {},
                            Ok(pde) => {
                                if pde & 1 != 0 && pde & 0x80 != 0 {
                                    assert((((pde & 0xffff_ffff_ffe0_0000) + (gva & 0x1f_ffff))
                                        as u64) & 0xfff == gva & 0xfff) by (bit_vector);
                                } else {
                                    match spec_read_entry(
                                        pages,
                                        pde & FRAME_MASK,
                                        spec_pt_index(gva),
                                    ) {
                                        Err(_) => {},
                                        Ok(pte) => {
                                            assert((((pte & 0x000f_ffff_ffff_f000) + (gva & 0xfff))
                                                as u64) & 0xfff == gva & 0xfff) by (bit_vector);
                                        },
                                    }
                                }
                            },
                        }
                    }
                },
            }
        },
    }
}

/// The bytes that a chunked virtual read yields: each page-bounded
/// chunk is translated through the page tables and copied out of the
/// page it resolves to.
pub open spec fn spec_read_gva(pages: Map<u64, Seq<u8>>, cr3: u64, va: int, len: int) -> Result<
    Seq<u8>,
    VirtMemError,
>
    decreases len,
{
    if len <= 0 {
        Ok(Seq::empty())
    } else {
        let room = 4096 - (va % 4096);
        let c = if len <= room {
            len
        } else {
            room
        };
        match spec_translate(pages, cr3, va as u64) {
            Err(e) => Err(e),
            Ok(g) => {
                if !pages.contains_key(spec_page_base(g)) {
                    Err(VirtMemError::MissingPage(spec_page_base(g)))
                } else {
                    match spec_read_gva(pages, cr3, va + c, len - c) {
                        Err(e) => Err(e),
                        Ok(rest) => Ok(
                            pages[spec_page_base(g)].subrange(
                                spec_page_offset(g) as int,
                                spec_page_offset(g) + c,
                            ) + rest,
                        ),
                    }
                }
            },
        }
    }
}

/// The memory and outcome after a chunked virtual write: chunks are
/// written in order, and a failing chunk leaves the earlier ones
/// written.
pub open spec fn spec_write_gva(
    pages: Map<u64, Seq<u8>>,
    cr3: u64,
    va: int,
    data: Seq<u8>,
) -> (Map<u64, Seq<u8>>, Result<(), VirtMemError>)
    decreases data.len(),
{
    if data.len() == 0 {
        (pages, Ok(()))
    } else {
        let room = 4096 - (va % 4096);
        let c = if data.len() <= room {
            data.len() as int
        } else {
            room
        };
        match spec_translate(pages, cr3, va as u64) {
            Err(e) => (pages, Err(e)),
            Ok(g) => {
                if !pages.contains_key(spec_page_base(g)) {
                    (pages, Err(VirtMemError::MissingPage(spec_page_base(g))))
                } else {
                    let updated = pages.insert(
                        spec_page_base(g),
                        GpaManager::spec_splice(
                            pages[spec_page_base(g)],
                            spec_page_offset(g) as int,
                            data.take(c),
                        ),
                    );
                    spec_write_gva(updated, cr3, va + c, data.skip(c))
                }
            },
        }
    }
}

} // verus!

verus! {

pub proof fn lemma_chunks_empty(va: int, rem: int)
    ensures
        rem <= 0 ==> spec_chunks(va, rem) == Seq::<(u64, usize)>::empty(),
        rem > 0 ==> spec_chunks(va, rem).len() > 0,
{
}

impl GpaManager {
    /// Reads `len` bytes of guest virtual memory, chunking the access
    /// at page boundaries and translating each chunk through the page
    /// tables held in the cache.
    pub fn read_gva(&self, cr3: Gpa, gva: Gva, len: usize) -> (r: Result<Vec<u8>, VirtMemError>)
        requires
            self.wf(),
            gva + len <= u64::MAX,
        ensures
            ({
                let s = spec_read_gva(self@, cr3, gva as int, len as int);
                match s {
                    Ok(bytes) => r is Ok && r.unwrap()@ == bytes,
                    Err(e) => r == Err::<Vec<u8>, VirtMemError>(e),
                }
            }),
    {
        let chunks = chunked(gva, len);
        let mut out: Vec<u8> = Vec::new();
        let mut ci: usize = 0;
        let mut cur: u64 = gva;
        let mut rem: usize = len;
        while ci < chunks.len()
            invariant
                self.wf(),
                gva + len <= u64::MAX,
                chunks@ == spec_chunks(gva as int, len as int),
                ci <= chunks@.len(),
                cur == gva + len - rem,
                rem <= len,
                chunks@.skip(ci as int) == spec_chunks(cur as int, rem as int),
                spec_read_gva(self@, cr3, gva as int, len as int) == (
                match spec_read_gva(self@, cr3, cur as int, rem as int) {
                    Ok(rest) => Ok::<Seq<u8>, VirtMemError>(out@ + rest),
                    Err(e) => Err::<Seq<u8>, VirtMemError>(e),
                }),
            decreases chunks@.len() - ci,
        {
            let (c_start, c_sz) = chunks[ci];
            proof {
                lemma_chunks_empty(cur as int, rem as int);
                assert(chunks@.skip(ci as int)[0] == (c_start, c_sz));
                lemma_page_offset_bound(cur);
                lemma_offset_is_mod(cur);
                // unfold one step of spec_chunks to identify the chunk
                assert(c_start == cur);
                assert(rem > 0);
                assert(1 <= c_sz && c_sz <= rem);
                assert(c_sz <= 4096 - (cur as int % 4096));
            }
            let g = match self.translate_gva(cr3, c_start) {
                Ok(g) => g,
                Err(e) => {
                    return Err(e);
                },
            };
            proof {
                lemma_translate_low_bits(self@, cr3, c_start);
                lemma_offset_is_mod(g);
                lemma_page_offset_bound(g);
            }
            let mut part = match self.read_gpa(g, c_sz) {
                Ok(p) => p,
                Err(e) => {
                    return Err(e);
                },
            };
            let ghost out_before = out@;
            let ghost part_snap = part@;
            out.append(&mut part);
            ci = ci + 1;
            proof {
                assert(chunks@.skip(ci as int) =~= chunks@.skip(ci - 1).skip(1));
            }
            cur = cur + c_sz as u64;
            rem = rem - c_sz;
            proof {
                assert(chunks@.skip(ci as int) =~= spec_chunks(cur as int, rem as int));
                match spec_read_gva(self@, cr3, cur as int, rem as int) {
                    Ok(rest) => {
                        assert(out@ + rest =~= out_before + (part_snap + rest));
                    },
                    Err(_) => {},
                }
            }
        }
        proof {
            lemma_chunks_empty(cur as int, rem as int);
            assert(rem == 0);
            assert(spec_read_gva(self@, cr3, cur as int, 0) == Ok::<Seq<u8>, VirtMemError>(
                Seq::empty(),
            ));
            assert(out@ + Seq::<u8>::empty() =~= out@);
        }
        Ok(out)
    }

    /// Writes `data` to guest virtual memory, chunking the access at
    /// page boundaries; chunks are written in order, and a failing
    /// chunk leaves the earlier ones written.
    pub fn write_gva(&mut self, cr3: Gpa, gva: Gva, data: &Vec<u8>) -> (r: Result<
        (),
        VirtMemError,
    >)
        requires
            old(self).wf(),
            gva + data@.len() <= u64::MAX,
        ensures
            final(self).wf(),
            ({
                let s = spec_write_gva(old(self)@, cr3, gva as int, data@);
                &&& final(self)@ == s.0
                &&& (match s.1 {
                    Ok(_) => r is Ok,
                    Err(e) => r == Err::<(), VirtMemError>(e),
                })
            }),
    {
        let len = data.len();
        let chunks = chunked(gva, len);
        proof {
            assert(data@.skip(0) =~= data@);
        }
        let mut ci: usize = 0;
        let mut cur: u64 = gva;
        let mut rem: usize = len;
        while ci < chunks.len()
            invariant
                self.wf(),
                gva + len <= u64::MAX,
                len == data@.len(),
                chunks@ == spec_chunks(gva as int, len as int),
                ci <= chunks@.len(),
                cur == gva + len - rem,
                rem <= len,
                chunks@.skip(ci as int) == spec_chunks(cur as int, rem as int),
                spec_write_gva(old(self)@, cr3, gva as int, data@) == spec_write_gva(
                    self@,
                    cr3,
                    cur as int,
                    data@.skip(len - rem),
                ),
            decreases chunks@.len() - ci,
        {
            let (c_start, c_sz) = chunks[ci];
            proof {
                lemma_chunks_empty(cur as int, rem as int);
                assert(chunks@.skip(ci as int)[0] == (c_start, c_sz));
                lemma_page_offset_bound(cur);
                lemma_offset_is_mod(cur);
                assert(c_start == cur);
                assert(rem > 0);
                assert(1 <= c_sz && c_sz <= rem);
                assert(c_sz <= 4096 - (cur as int % 4096));
            }
            let doff = len - rem;
            let g = match self.translate_gva(cr3, c_start) {
                Ok(g) => g,
                Err(e) => {
                    return Err(e);
                },
            };
            proof {
                lemma_translate_low_bits(self@, cr3, c_start);
                lemma_offset_is_mod(g);
                lemma_page_offset_bound(g);
            }
            let mut part: Vec<u8> = Vec::new();
            let mut j: usize = 0;
            while j < c_sz
                invariant
                    j <= c_sz,
                    doff + c_sz <= data@.len(),
                    data@.len() <= usize::MAX,
                    part@ == data@.subrange(doff as int, doff + j),
                decreases c_sz - j,
            {
                part.push(data[doff + j]);
                j = j + 1;
                proof {
                    assert(part@ =~= data@.subrange(doff as int, doff + j));
                }
            }
            proof {
                assert(part@ =~= data@.skip(doff as int).take(c_sz as int));
            }
            match self.write_gpa(g, &part) {
                Ok(_) => {},
                Err(e) => {
                    return Err(e);
                },
            }
            ci = ci + 1;
            proof {
                assert(chunks@.skip(ci as int) =~= chunks@.skip(ci - 1).skip(1));
            }
            cur = cur + c_sz as u64;
            rem = rem - c_sz;
            proof {
                assert(chunks@.skip(ci as int) =~= spec_chunks(cur as int, rem as int));
                assert(data@.skip(doff as int).skip(c_sz as int) =~= data@.skip(len - rem));
            }
        }
        proof {
            lemma_chunks_empty(cur as int, rem as int);
            assert(rem == 0);
            assert(data@.skip(len as int) =~= Seq::<u8>::empty());
        }
        Ok(())
    }
}

} // verus!

verus! {

/// A successful chunked virtual read yields exactly the requested
/// number of bytes.
pub proof fn lemma_read_gva_len(pages: Map<u64, Seq<u8>>, cr3: u64, va: int, len: int)
    requires
        pages_wf(pages),
        len >= 0,
        va >= 0,
        va + len <= u64::MAX,
        spec_read_gva(pages, cr3, va, len) is Ok,
    ensures
        spec_read_gva(pages, cr3, va, len).unwrap().len() == len,
    decreases len,
{
    if len <= 0 {
    } else {
        let room = 4096 - (va % 4096);
        let c = if len <= room {
            len
        } else {
            room
        };
        let g = spec_translate(pages, cr3, va as u64).unwrap();
        lemma_translate_low_bits(pages, cr3, va as u64);
        lemma_offset_is_mod(va as u64);
        lemma_page_offset_bound(g);
        assert(spec_page_offset(g) + c <= 4096);
        lemma_read_gva_len(pages, cr3, va + c, len - c);
    }
}

} // verus!

verus! {

impl GpaManager {
    /// Reads a little-endian u64 of guest virtual memory.
    pub fn read_gva_u64(&self, cr3: Gpa, gva: Gva) -> (r: Result<u64, VirtMemError>)
        requires
            self.wf(),
            gva + 8 <= u64::MAX,
        ensures
            ({
                let s = spec_read_gva(self@, cr3, gva as int, 8);
                match s {
                    Ok(bytes) => r == Ok::<u64, VirtMemError>(
                        vstd::bytes::spec_u64_from_le_bytes(bytes),
                    ),
                    Err(e) => r == Err::<u64, VirtMemError>(e),
                }
            }),
    {
        match self.read_gva(cr3, gva, 8) {
            Ok(bytes) => {
                proof {
                    lemma_read_gva_len(self@, cr3, gva as int, 8);
                }
                Ok(vstd::bytes::u64_from_le_bytes(bytes.as_slice()))
            },
            Err(e) => Err(e),
        }
    }

    /// Reads a little-endian u32 of guest virtual memory.
    pub fn read_gva_u32(&self, cr3: Gpa, gva: Gva) -> (r: Result<u32, VirtMemError>)
        requires
            self.wf(),
            gva + 4 <= u64::MAX,
        ensures
            ({
                let s = spec_read_gva(self@, cr3, gva as int, 4);
                match s {
                    Ok(bytes) => r == Ok::<u32, VirtMemError>(
                        vstd::bytes::spec_u32_from_le_bytes(bytes),
                    ),
                    Err(e) => r == Err::<u32, VirtMemError>(e),
                }
            }),
    {
        match self.read_gva(cr3, gva, 4) {
            Ok(bytes) => {
                proof {
                    lemma_read_gva_len(self@, cr3, gva as int, 4);
                }
                Ok(vstd::bytes::u32_from_le_bytes(bytes.as_slice()))
            },
            Err(e) => Err(e),
        }
    }

    /// Reads a little-endian u16 of guest virtual memory.
    pub fn read_gva_u16(&self, cr3: Gpa, gva: Gva) -> (r: Result<u16, VirtMemError>)
        requires
            self.wf(),
            gva + 2 <= u64::MAX,
        ensures
            ({
                let s = spec_read_gva(self@, cr3, gva as int, 2);
                match s {
                    Ok(bytes) => r == Ok::<u16, VirtMemError>(
                        vstd::bytes::spec_u16_from_le_bytes(bytes),
                    ),
                    Err(e) => r == Err::<u16, VirtMemError>(e),
                }
            }),
    {
        match self.read_gva(cr3, gva, 2) {
            Ok(bytes) => {
                proof {
                    lemma_read_gva_len(self@, cr3, gva as int, 2);
                }
                Ok(vstd::bytes::u16_from_le_bytes(bytes.as_slice()))
            },
            Err(e) => Err(e),
        }
    }

    /// Reads one byte of guest virtual memory.
    pub fn read_gva_u8(&self, cr3: Gpa, gva: Gva) -> (r: Result<u8, VirtMemError>)
        requires
            self.wf(),
            gva + 1 <= u64::MAX,
        ensures
            ({
                let s = spec_read_gva(self@, cr3, gva as int, 1);
                match s {
                    Ok(bytes) => r == Ok::<u8, VirtMemError>(bytes[0]),
                    Err(e) => r == Err::<u8, VirtMemError>(e),
                }
            }),
    {
        match self.read_gva(cr3, gva, 1) {
            Ok(bytes) => {
                proof {
                    lemma_read_gva_len(self@, cr3, gva as int, 1);
                }
                Ok(bytes[0])
            },
            Err(e) => Err(e),
        }
    }
}

} // verus!

verus! {

/// A chunked virtual write leaves the set of cached pages and their
/// sizes unchanged: it only overwrites bytes of pages that are present.
pub proof fn lemma_write_gva_preserves(pages: Map<u64, Seq<u8>>, cr3: u64, va: int, data: Seq<u8>)
    ensures
        forall|k: u64| #[trigger]
            spec_write_gva(pages, cr3, va, data).0.contains_key(k) == pages.contains_key(k),
        pages_wf(pages) ==> pages_wf(spec_write_gva(pages, cr3, va, data).0),
    decreases data.len(),
{
    if data.len() == 0 {
    } else {
        let room = 4096 - (va % 4096);
        let c = if data.len() <= room {
            data.len() as int
        } else {
            room
        };
        match spec_translate(pages, cr3, va as u64) {
            Err(_) => {},
            Ok(g) => {
                if pages.contains_key(spec_page_base(g)) {
                    let updated = pages.insert(
                        spec_page_base(g),
                        GpaManager::spec_splice(
                            pages[spec_page_base(g)],
                            spec_page_offset(g) as int,
                            data.take(c),
                        ),
                    );
                    assert(forall|x: u64| #[trigger]
                        updated.contains_key(x) == pages.contains_key(x));
                    lemma_write_gva_preserves(updated, cr3, va + c, data.skip(c));
                    assert(spec_write_gva(pages, cr3, va, data) == spec_write_gva(
                        updated,
                        cr3,
                        va + c,
                        data.skip(c),
                    ));
                    assert forall|k: u64| #[trigger]
                        spec_write_gva(pages, cr3, va, data).0.contains_key(k)
                            == pages.contains_key(k) by {
                        assert(spec_write_gva(updated, cr3, va + c, data.skip(c)).0.contains_key(k)
                            == updated.contains_key(k));
                    }
                }
            },
        }
    }
}

} // verus!

verus! {

/// A fresh copy of a byte buffer.
pub fn clone_bytes(v: &Vec<u8>) -> (r: Vec<u8>)
    ensures
        r@ == v@,
{
    let mut out: Vec<u8> = Vec::new();
    let mut i: usize = 0;
    while i < v.len()
        invariant
            i <= v@.len(),
            out@ == v@.subrange(0, i as int),
        decreases v@.len() - i,
    {
        out.push(v[i]);
        i = i + 1;
        proof {
            assert(out@ =~= v@.subrange(0, i as int));
        }
    }
    proof {
        assert(out@ =~= v@);
    }
    out
}

} // verus!
