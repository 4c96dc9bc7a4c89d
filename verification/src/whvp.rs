//! Model of the hypervisor partition: one virtual processor's register
//! file, the ordered list of mapped guest-physical regions with their
//! backing bytes, and per-page dirty tracking.
//!
//! The raw hypervisor calls (create partition, run, cancel) are host
//! services that the library does not perform itself; the partition's
//! observable state and every operation on it — register get/set,
//! map/unmap, physical reads and writes, dirty-bitmap query and flush,
//! address translation — are modelled and verified here.  Running the
//! virtual processor is a capability the tracer takes from outside
//! (see the tracer's platform trait).

use vstd::prelude::*;
use crate::mem::{
    GpaManager, VirtMemError, pages_wf, spec_page_base, spec_page_offset, spec_translate,
    spec_read_gva, spec_write_gva, lemma_page_offset_bound, FRAME_MASK, PAGE_BASE_MASK,
};
use std::collections::HashSet;

verus! {

broadcast use vstd::std_specs::hash::group_hash_axioms;

/// Exception vector of a debug trap or fault (#DB).
pub const EXCEPTION_DEBUG_TRAP_OR_FAULT: u8 = 1;

/// Exception vector of a breakpoint trap (#BP, the `0xCC` opcode).
pub const EXCEPTION_BREAKPOINT_TRAP: u8 = 3;

/// How the guest touched memory when a memory-access exit was taken.
#[derive(Clone, Copy, Debug, PartialEq, Eq, Structural)]
pub enum MemoryAccessType {
    Read,
    Write,
    Execute,
}

/// One segment register of the virtual processor.
#[derive(Clone, Copy, Debug, PartialEq, Eq, Structural)]
pub struct SegmentRegister {
    pub base: u64,
    pub limit: u32,
    pub selector: u16,
    /// Long-mode (64-bit code) flag.
    pub long: bool,
    /// Descriptor privilege level.
    pub dpl: u8,
}

impl SegmentRegister {
    pub fn zeroed() -> (r: SegmentRegister)
        ensures
            r == (SegmentRegister { base: 0, limit: 0, selector: 0, long: false, dpl: 0 }),
    {
        SegmentRegister { base: 0, limit: 0, selector: 0, long: false, dpl: 0 }
    }
}

/// The full named-register bundle of the single virtual processor.
#[derive(Clone, Copy, Debug, PartialEq, Eq, Structural)]
pub struct PartitionContext {
    pub rax: u64,
    pub rcx: u64,
    pub rdx: u64,
    pub rbx: u64,
    pub rsp: u64,
    pub rbp: u64,
    pub rsi: u64,
    pub rdi: u64,
    pub r8: u64,
    pub r9: u64,
    pub r10: u64,
    pub r11: u64,
    pub r12: u64,
    pub r13: u64,
    pub r14: u64,
    pub r15: u64,
    pub rip: u64,
    pub rflags: u64,
    pub es: SegmentRegister,
    pub cs: SegmentRegister,
    pub ss: SegmentRegister,
    pub ds: SegmentRegister,
    pub fs: SegmentRegister,
    pub gs: SegmentRegister,
    pub gdtr_base: u64,
    pub gdtr_limit: u16,
    pub idtr_base: u64,
    pub idtr_limit: u16,
    pub cr0: u64,
    pub cr2: u64,
    pub cr3: u64,
    pub cr4: u64,
    pub cr8: u64,
    pub dr0: u64,
    pub dr1: u64,
    pub dr2: u64,
    pub dr3: u64,
    pub dr6: u64,
    pub dr7: u64,
    pub efer: u64,
    pub kernel_gs_base: u64,
    pub sysenter_cs: u64,
    pub sysenter_eip: u64,
    pub sysenter_esp: u64,
    pub star: u64,
    pub lstar: u64,
    pub cstar: u64,
    pub sfmask: u64,
    /// Whether the interrupt shadow is set on the virtual processor.
    pub interrupt_shadow: bool,
}

impl PartitionContext {
    pub fn zeroed() -> (r: PartitionContext)
        ensures
            r.rip == 0,
            r.cr3 == 0,
            r.rflags == 0,
            !r.interrupt_shadow,
    {
        let seg = SegmentRegister::zeroed();
        PartitionContext {
            rax: 0,
            rcx: 0,
            rdx: 0,
            rbx: 0,
            rsp: 0,
            rbp: 0,
            rsi: 0,
            rdi: 0,
            r8: 0,
            r9: 0,
            r10: 0,
            r11: 0,
            r12: 0,
            r13: 0,
            r14: 0,
            r15: 0,
            rip: 0,
            rflags: 0,
            es: seg,
            cs: seg,
            ss: seg,
            ds: seg,
            fs: seg,
            gs: seg,
            gdtr_base: 0,
            gdtr_limit: 0,
            idtr_base: 0,
            idtr_limit: 0,
            cr0: 0,
            cr2: 0,
            cr3: 0,
            cr4: 0,
            cr8: 0,
            dr0: 0,
            dr1: 0,
            dr2: 0,
            dr3: 0,
            dr6: 0,
            dr7: 0,
            efer: 0,
            kernel_gs_base: 0,
            sysenter_cs: 0,
            sysenter_eip: 0,
            sysenter_esp: 0,
            star: 0,
            lstar: 0,
            cstar: 0,
            sfmask: 0,
            interrupt_shadow: false,
        }
    }
}

/// Processor state at the moment of a VM exit.
#[derive(Clone, Copy, Debug, PartialEq, Eq, Structural)]
pub struct VpContext {
    pub rip: u64,
    pub interrupt_shadow: bool,
}

/// Data of a memory-access exit.
#[derive(Clone, Copy, Debug, PartialEq, Eq, Structural)]
pub struct MemoryAccessContext {
    pub gpa: u64,
    pub gva: u64,
    pub access_type: MemoryAccessType,
}

/// Data of an exception exit.
#[derive(Clone, Debug)]
pub struct ExceptionContext {
    /// Exception vector reported by the processor.
    pub exception_type: u8,
    /// The bytes of the faulting instruction, as captured at the exit.
    pub instruction_bytes: Vec<u8>,
}

/// The exits the tracer handles; anything else ends a run with an
/// error status.
pub enum ExitContext {
    MemoryAccess(VpContext, MemoryAccessContext),
    Exception(VpContext, ExceptionContext),
    Canceled,
    Other,
}

/// Failures of partition operations.
#[derive(Clone, Copy, Debug, PartialEq, Eq, Structural)]
pub enum PartitionError {
    /// The requested range is not covered by one mapped region.
    NoMappedRegion,
    /// A base address was not page aligned.
    Unaligned,
    /// A size was zero, not a multiple of the page size, or past the
    /// end of the address space.
    BadSize,
    /// The range collides with an already mapped region.
    Overlap,
    /// A dirty-bitmap query asked for more than 64 pages.
    RangeTooLarge,
}

/// A mapped guest-physical range; its backing bytes live in the
/// partition's memory model.
#[derive(Clone, Copy, Debug, PartialEq, Eq, Structural)]
pub struct MemoryRegion {
    pub base: u64,
    pub size: u64,
}

/// Page-aligned host buffers handed to the partition as backing for
/// mapped ranges.  The model hands out zeroed buffers and keeps the
/// sizes it granted.
pub struct Allocator {
    sizes: Vec<usize>,
}

impl Allocator {
    /// How many buffers this allocator has handed out.
    pub closed spec fn allocations(&self) -> Seq<usize> {
        self.sizes@
    }

    pub fn new() -> (r: Allocator)
        ensures
            r.allocations() == Seq::<usize>::empty(),
    {
        let r = Allocator { sizes: Vec::new() };
        proof {
            assert(r.allocations() =~= Seq::<usize>::empty());
        }
        r
    }

    /// Hands out a zero-filled buffer of `size` bytes.
    pub fn allocate_physical_memory(&mut self, size: usize) -> (r: Vec<u8>)
        ensures
            r@ == Seq::new(size as nat, |i: int| 0u8),
            final(self).allocations() == old(self).allocations().push(size),
    {
        let mut buf: Vec<u8> = Vec::new();
        let mut i: usize = 0;
        while i < size
            invariant
                i <= size,
                buf@ == Seq::new(i as nat, |j: int| 0u8),
            decreases size - i,
        {
            buf.push(0);
            i = i + 1;
            proof {
                assert(buf@ =~= Seq::new(i as nat, |j: int| 0u8));
            }
        }
        self.sizes.push(size);
        buf
    }
}

/// Sets hardware-breakpoint slot `slot` (execute, length one) in a DR7
/// value.
pub fn set_dr7(dr7: u64, slot: u8) -> (r: u64)
    requires
        slot < 4,
    ensures
        r == dr7 | (1u64 << (slot * 2)),
{
    dr7 | (1u64 << (slot * 2))
}

/// Clears hardware-breakpoint slot `slot` in a DR7 value, including its
/// condition and length fields.
pub fn clear_dr7(dr7: u64, slot: u8) -> (r: u64)
    requires
        slot < 4,
    ensures
        r == dr7 & !(1u64 << (slot * 2)) & !(3u64 << ((slot * 4) + 16)) & !(3u64 << ((slot * 4)
            + 18)),
{
    dr7 & !(1u64 << (slot * 2)) & !(3u64 << ((slot * 4) + 16)) & !(3u64 << ((slot * 4) + 18))
}

/// Plants a hardware execute breakpoint at `address` in slot zero of a
/// register bundle.
pub fn set_hw_breakpoint(context: &mut PartitionContext, address: u64)
    ensures
        final(context).dr0 == address,
        final(context).dr7 == old(context).dr7 | 1u64,
        *final(context) == (PartitionContext { dr0: address, dr7: final(context).dr7, ..*old(context) }),
{
    context.dr0 = address;
    let dr7 = context.dr7;
    proof {
        assert(1u64 << (0u8 * 2) == 1u64) by (bit_vector);
    }
    context.dr7 = set_dr7(dr7, 0);
}

} // verus!

verus! {

/// Whether region `r` covers the byte range `[gpa, gpa + size)`.
pub open spec fn spec_region_covers(r: MemoryRegion, gpa: u64, size: int) -> bool {
    &&& r.base <= gpa
    &&& gpa < r.base + r.size
    &&& r.base <= gpa + size
    &&& gpa + size <= r.base + r.size
}

/// Whether some region of `regions` covers `[gpa, gpa + size)`.
pub open spec fn spec_covered(regions: Seq<MemoryRegion>, gpa: u64, size: int) -> bool {
    exists|i: int| 0 <= i < regions.len() && spec_region_covers(regions[i], gpa, size)
}

/// A well-formed region: page aligned, non-empty, a whole number of
/// pages, and not wrapping around the address space.
pub open spec fn spec_region_wf(r: MemoryRegion) -> bool {
    &&& r.base & 0xfff == 0
    &&& r.size > 0
    &&& r.size % 4096 == 0
    &&& r.base + r.size <= u64::MAX
}

/// The model of the hypervisor partition.
pub struct Partition {
    context: PartitionContext,
    mem: GpaManager,
    regions: Vec<MemoryRegion>,
    dirty: HashSet<u64>,
}

impl Partition {
    /// The virtual processor's registers.
    pub closed spec fn regs(&self) -> PartitionContext {
        self.context
    }

    /// The mapped guest-physical memory, page by page.
    pub closed spec fn mem_view(&self) -> Map<u64, Seq<u8>> {
        self.mem@
    }

    /// The ordered list of mapped regions.
    pub closed spec fn regions_view(&self) -> Seq<MemoryRegion> {
        self.regions@
    }

    /// The page bases whose dirty bit is set.
    pub closed spec fn dirty_view(&self) -> Set<u64> {
        self.dirty@
    }

    /// Regions are well formed and pairwise disjoint, and every page of
    /// every region is present in the memory model.
    pub open spec fn wf(&self) -> bool {
        &&& pages_wf(self.mem_view())
        &&& (forall|i: int|
            0 <= i < self.regions_view().len() ==> spec_region_wf(#[trigger] self.regions_view()[i]))
        &&& (forall|i: int, j: int|
            0 <= i < self.regions_view().len() && 0 <= j < self.regions_view().len() && i != j
                ==> (#[trigger] self.regions_view()[i]).base + self.regions_view()[i].size
                <= (#[trigger] self.regions_view()[j]).base || self.regions_view()[j].base
                + self.regions_view()[j].size <= self.regions_view()[i].base)
        &&& (forall|k: u64|
            k & 0xfff == 0 && spec_covered(self.regions_view(), k, 4096) ==> #[trigger]
                self.mem_view().contains_key(k))
    }

    pub fn new() -> (r: Partition)
        ensures
            r.wf(),
            r.regs().rip == 0 && r.regs().cr3 == 0 && r.regs().rflags == 0,
            r.mem_view() == Map::<u64, Seq<u8>>::empty(),
            r.regions_view() == Seq::<MemoryRegion>::empty(),
            r.dirty_view() == Set::<u64>::empty(),
    {
        let r = Partition {
            context: PartitionContext::zeroed(),
            mem: GpaManager::new(),
            regions: Vec::new(),
            dirty: HashSet::new(),
        };
        proof {
            assert(r.regions_view() =~= Seq::<MemoryRegion>::empty());
            assert(r.dirty_view() =~= Set::<u64>::empty());
        }
        r
    }

    /// Reads the full register bundle of the virtual processor.
    pub fn get_regs(&self) -> (r: PartitionContext)
        ensures
            r == self.regs(),
    {
        self.context
    }

    /// Replaces the full register bundle of the virtual processor.
    pub fn set_regs(&mut self, context: &PartitionContext)
        requires
            old(self).wf(),
        ensures
            final(self).wf(),
            final(self).regs() == *context,
            final(self).mem_view() == old(self).mem_view(),
            final(self).regions_view() == old(self).regions_view(),
            final(self).dirty_view() == old(self).dirty_view(),
    {
        self.context = *context;
        proof {
            assert(self.mem_view() == old(self).mem_view());
            assert(self.regions_view() == old(self).regions_view());
            assert(self.dirty_view() == old(self).dirty_view());
            assert(self.wf());
        }
    }

    /// Index of the first mapped region that covers `[gpa, gpa + size)`.
    fn find_region(&self, gpa: u64, size: usize) -> (r: Option<usize>)
        requires
            self.wf(),
        ensures
            match r {
                Some(i) => i < self.regions_view().len() && spec_region_covers(
                    self.regions_view()[i as int],
                    gpa,
                    size as int,
                ),
                None => !spec_covered(self.regions_view(), gpa, size as int),
            },
    {
        let mut i: usize = 0;
        while i < self.regions.len()
            invariant
                self.wf(),
                i <= self.regions_view().len(),
                forall|j: int|
                    0 <= j < i ==> !spec_region_covers(
                        #[trigger] self.regions_view()[j],
                        gpa,
                        size as int,
                    ),
            decreases self.regions_view().len() - i,
        {
            let r = self.regions[i];
            let end = r.base + r.size;
            if r.base <= gpa && gpa < end && (gpa + (end - gpa)) >= gpa && size as u64 <= end - gpa
            {
                proof {
                    assert(spec_region_covers(self.regions_view()[i as int], gpa, size as int));
                }
                return Some(i);
            }
            i = i + 1;
        }
        None
    }

    /// Whether `[gpa, gpa + size)` lies inside one mapped region.
    pub fn is_physical_memory_valid(&self, gpa: u64, size: usize) -> (r: bool)
        requires
            self.wf(),
        ensures
            r == spec_covered(self.regions_view(), gpa, size as int),
    {
        match self.find_region(gpa, size) {
            Some(_) => true,
            None => false,
        }
    }

    /// How many regions are mapped.
    pub fn regions_len(&self) -> (r: usize)
        ensures
            r == self.regions_view().len(),
    {
        self.regions.len()
    }

    /// The region at position `i` of the mapped-region list.
    pub fn region_at(&self, i: usize) -> (r: MemoryRegion)
        requires
            i < self.regions_view().len(),
        ensures
            r == self.regions_view()[i as int],
    {
        self.regions[i]
    }
}

} // verus!

verus! {

/// The bytes of `[gpa, gpa + len)` read page by page out of `pages`.
pub open spec fn spec_read_phys(pages: Map<u64, Seq<u8>>, gpa: int, len: int) -> Seq<u8>
    decreases len,
{
    if len <= 0 {
        Seq::empty()
    } else {
        let room = 4096 - (gpa % 4096);
        let c = if len <= room {
            len
        } else {
            room
        };
        let k = spec_page_base(gpa as u64);
        pages[k].subrange(
            spec_page_offset(gpa as u64) as int,
            spec_page_offset(gpa as u64) + c,
        ) + spec_read_phys(pages, gpa + c, len - c)
    }
}

/// The memory after writing `data` at `[gpa, gpa + len)`, page by
/// page; a page that is not mapped is left untouched.
pub open spec fn spec_write_phys(pages: Map<u64, Seq<u8>>, gpa: int, data: Seq<u8>) -> Map<
    u64,
    Seq<u8>,
>
    decreases data.len(),
{
    if data.len() == 0 {
        pages
    } else {
        let room = 4096 - (gpa % 4096);
        let c = if data.len() <= room {
            data.len() as int
        } else {
            room
        };
        let k = spec_page_base(gpa as u64);
        let updated = if pages.contains_key(k) {
            pages.insert(
                k,
                GpaManager::spec_splice(pages[k], spec_page_offset(gpa as u64) as int, data.take(c)),
            )
        } else {
            pages
        };
        spec_write_phys(updated, gpa + c, data.skip(c))
    }
}

/// Writing leaves the set of mapped pages and their sizes unchanged.
pub proof fn lemma_write_phys_preserves(pages: Map<u64, Seq<u8>>, gpa: int, data: Seq<u8>)
    ensures
        forall|k: u64| #[trigger]
            spec_write_phys(pages, gpa, data).contains_key(k) == pages.contains_key(k),
        pages_wf(pages) ==> pages_wf(spec_write_phys(pages, gpa, data)),
    decreases data.len(),
{
    if data.len() == 0 {
    } else {
        let room = 4096 - (gpa % 4096);
        let c = if data.len() <= room {
            data.len() as int
        } else {
            room
        };
        let k = spec_page_base(gpa as u64);
        let updated = if pages.contains_key(k) {
            pages.insert(
                k,
                GpaManager::spec_splice(pages[k], spec_page_offset(gpa as u64) as int, data.take(c)),
            )
        } else {
            pages
        };
        assert(forall|x: u64| #[trigger] updated.contains_key(x) == pages.contains_key(x));
        lemma_write_phys_preserves(updated, gpa + c, data.skip(c));
        assert(spec_write_phys(pages, gpa, data) == spec_write_phys(updated, gpa + c, data.skip(c)));
        assert forall|k: u64| #[trigger]
            spec_write_phys(pages, gpa, data).contains_key(k) == pages.contains_key(k) by {
            assert(spec_write_phys(updated, gpa + c, data.skip(c)).contains_key(k)
                == updated.contains_key(k));
        }
    }
}

/// A page that a well-formed region covers in part is covered whole.
proof fn lemma_page_in_range(a: u64, b: u64, s: u64)
    requires
        b & 0xfff == 0,
        s % 4096 == 0,
        b + s <= u64::MAX,
        b <= a,
        a < b + s,
    ensures
        spec_page_base(a) >= b,
        spec_page_base(a) + 4096 <= b + s,
        spec_page_base(a) & 0xfff == 0,
        spec_page_base(a) <= a && a < spec_page_base(a) + 4096,
{
    assert(b & 0xfff == 0 && s % 4096 == 0 && b + s <= 0xffff_ffff_ffff_ffff && b <= a && a < b + s
        ==> (a & 0xffff_ffff_ffff_f000) >= b && (a & 0xffff_ffff_ffff_f000) + 4096 <= b + s && (a
        & 0xffff_ffff_ffff_f000) & 0xfff == 0 && (a & 0xffff_ffff_ffff_f000) <= a && a < (a
        & 0xffff_ffff_ffff_f000) + 4096) by (bit_vector);
}

impl Partition {
    /// Copies `size` bytes out of the backing of the mapped region that
    /// contains the range.
    pub fn read_physical_memory(&self, gpa: u64, size: usize) -> (r: Result<
        Vec<u8>,
        PartitionError,
    >)
        requires
            self.wf(),
        ensures
            r is Ok <==> spec_covered(self.regions_view(), gpa, size as int),
            r is Ok ==> r.unwrap()@ == spec_read_phys(self.mem_view(), gpa as int, size as int),
            r is Err ==> r == Err::<Vec<u8>, PartitionError>(PartitionError::NoMappedRegion),
    {
        let ri = match self.find_region(gpa, size) {
            Some(i) => i,
            None => {
                return Err(PartitionError::NoMappedRegion);
            },
        };
        let ghost region = self.regions_view()[ri as int];
        let chunks = crate::mem::chunked(gpa, size);
        let mut out: Vec<u8> = Vec::new();
        let mut ci: usize = 0;
        let mut cur: u64 = gpa;
        let mut rem: usize = size;
        while ci < chunks.len()
            invariant
                self.wf(),
                gpa + size <= u64::MAX,
                spec_region_covers(region, gpa, size as int),
                spec_region_wf(region),
                0 <= ri < self.regions_view().len() && region == self.regions_view()[ri as int],
                chunks@ == crate::mem::spec_chunks(gpa as int, size as int),
                ci <= chunks@.len(),
                cur == gpa + size - rem,
                rem <= size,
                chunks@.skip(ci as int) == crate::mem::spec_chunks(cur as int, rem as int),
                out@ + spec_read_phys(self.mem_view(), cur as int, rem as int) == spec_read_phys(
                    self.mem_view(),
                    gpa as int,
                    size as int,
                ),
            decreases chunks@.len() - ci,
        {
            let (c_start, c_sz) = chunks[ci];
            proof {
                crate::mem::lemma_chunks_empty(cur as int, rem as int);
                assert(chunks@.skip(ci as int)[0] == (c_start, c_sz));
                lemma_page_offset_bound(cur);
                crate::mem::lemma_offset_is_mod(cur);
                assert(c_start == cur);
                assert(rem > 0);
                assert(1 <= c_sz && c_sz <= rem);
                assert(c_sz <= 4096 - (cur as int % 4096));
                lemma_page_in_range(cur, region.base, region.size);
                assert(spec_covered(self.regions_view(), spec_page_base(cur), 4096)) by {
                    assert(spec_region_covers(
                        self.regions_view()[ri as int],
                        spec_page_base(cur),
                        4096,
                    ));
                }
                assert(self.mem_view().contains_key(spec_page_base(cur)));
            }
            let mut part = match self.mem.read_gpa(c_start, c_sz) {
                Ok(p) => p,
                Err(_) => {
                    proof {
                        assert(false);
                    }
                    return Err(PartitionError::NoMappedRegion);
                },
            };
            let ghost out_before = out@;
            let ghost part_snap = part@;
            out.append(&mut part);
            ci = ci + 1;
            proof {
                assert(chunks@.skip(ci as int) =~= chunks@.skip(ci - 1).skip(1));
            }
            cur = cur + c_sz as u64;
            rem = rem - c_sz;
            proof {
                assert(chunks@.skip(ci as int) =~= crate::mem::spec_chunks(
                    cur as int,
                    rem as int,
                ));
                assert(out@ + spec_read_phys(self.mem_view(), cur as int, rem as int)
                    =~= out_before + (part_snap + spec_read_phys(
                    self.mem_view(),
                    cur as int,
                    rem as int,
                )));
            }
        }
        proof {
            crate::mem::lemma_chunks_empty(cur as int, rem as int);
            assert(rem == 0);
            assert(out@ + Seq::<u8>::empty() =~= out@);
        }
        Ok(out)
    }
}

} // verus!

verus! {

/// Whether region `r` lies entirely inside `[addr, addr + size]`.
pub open spec fn spec_region_contained(r: MemoryRegion, addr: u64, size: int) -> bool {
    addr <= r.base && r.base + r.size <= addr + size
}

/// The regions that survive unmapping `[addr, addr + size]`: those not
/// fully contained in the range, in their original order.
pub open spec fn spec_kept_regions(regions: Seq<MemoryRegion>, addr: u64, size: int) -> Seq<
    MemoryRegion,
>
    decreases regions.len(),
{
    if regions.len() == 0 {
        regions
    } else {
        let rest = spec_kept_regions(regions.skip(1), addr, size);
        if spec_region_contained(regions[0], addr, size) {
            rest
        } else {
            seq![regions[0]] + rest
        }
    }
}

/// Whether the address `k` lies in some region that unmapping
/// `[addr, addr + size]` removes.
pub open spec fn spec_in_unmapped(
    regions: Seq<MemoryRegion>,
    addr: u64,
    size: int,
    k: u64,
) -> bool {
    exists|j: int|
        0 <= j < regions.len() && spec_region_contained(#[trigger] regions[j], addr, size)
            && regions[j].base <= k && k < regions[j].base + regions[j].size
}

/// The surviving regions are a subset of the originals, none of them
/// contained in the range, still well formed and pairwise disjoint.
proof fn lemma_kept_regions_wf(regions: Seq<MemoryRegion>, addr: u64, size: int)
    requires
        forall|j: int| 0 <= j < regions.len() ==> spec_region_wf(#[trigger] regions[j]),
        forall|j1: int, j2: int|
            0 <= j1 < regions.len() && 0 <= j2 < regions.len() && j1 != j2 ==> (
            #[trigger] regions[j1]).base + regions[j1].size <= (#[trigger] regions[j2]).base
                || regions[j2].base + regions[j2].size <= regions[j1].base,
    ensures
        forall|j: int|
            0 <= j < spec_kept_regions(regions, addr, size).len() ==> exists|i: int|
                0 <= i < regions.len() && #[trigger] spec_kept_regions(regions, addr, size)[j]
                    == regions[i] && !spec_region_contained(regions[i], addr, size),
        forall|j: int|
            0 <= j < spec_kept_regions(regions, addr, size).len() ==> spec_region_wf(
                #[trigger] spec_kept_regions(regions, addr, size)[j],
            ),
        forall|j1: int, j2: int|
            0 <= j1 < spec_kept_regions(regions, addr, size).len() && 0 <= j2 < spec_kept_regions(
                regions,
                addr,
                size,
            ).len() && j1 != j2 ==> (#[trigger] spec_kept_regions(regions, addr, size)[j1]).base
                + spec_kept_regions(regions, addr, size)[j1].size <= (#[trigger] spec_kept_regions(
                regions,
                addr,
                size,
            )[j2]).base || spec_kept_regions(regions, addr, size)[j2].base + spec_kept_regions(
                regions,
                addr,
                size,
            )[j2].size <= spec_kept_regions(regions, addr, size)[j1].base,
    decreases regions.len(),
{
    if regions.len() > 0 {
        let rest = regions.skip(1);
        assert(forall|j: int| 0 <= j < rest.len() ==> #[trigger] rest[j] == regions[j + 1]);
        assert forall|j1: int, j2: int|
            0 <= j1 < rest.len() && 0 <= j2 < rest.len() && j1 != j2 implies (
        #[trigger] rest[j1]).base + rest[j1].size <= (#[trigger] rest[j2]).base || rest[j2].base
            + rest[j2].size <= rest[j1].base by {
            assert(rest[j1] == regions[j1 + 1] && rest[j2] == regions[j2 + 1]);
        }
        lemma_kept_regions_wf(rest, addr, size);
        let kept = spec_kept_regions(regions, addr, size);
        let kept_rest = spec_kept_regions(rest, addr, size);
        assert forall|j: int| 0 <= j < kept.len() implies exists|i: int|
            0 <= i < regions.len() && #[trigger] kept[j] == regions[i] && !spec_region_contained(
                regions[i],
                addr,
                size,
            ) by {
            if spec_region_contained(regions[0], addr, size) {
                let i = choose|i: int|
                    0 <= i < rest.len() && #[trigger] kept_rest[j] == rest[i]
                        && !spec_region_contained(rest[i], addr, size);
                assert(kept[j] == regions[i + 1]);
            } else {
                if j == 0 {
                    assert(kept[j] == regions[0]);
                } else {
                    let i = choose|i: int|
                        0 <= i < rest.len() && #[trigger] kept_rest[j - 1] == rest[i]
                            && !spec_region_contained(rest[i], addr, size);
                    assert(kept[j] == regions[i + 1]);
                }
            }
        }
        assert forall|j1: int, j2: int|
            0 <= j1 < kept.len() && 0 <= j2 < kept.len() && j1 != j2 implies (
        #[trigger] kept[j1]).base + kept[j1].size <= (#[trigger] kept[j2]).base || kept[j2].base
            + kept[j2].size <= kept[j1].base by {
            if spec_region_contained(regions[0], addr, size) {
                assert(kept[j1] == kept_rest[j1] && kept[j2] == kept_rest[j2]);
            } else {
                if j1 == 0 || j2 == 0 {
                    let jr = if j1 == 0 {
                        j2
                    } else {
                        j1
                    };
                    assert(kept[jr] == kept_rest[jr - 1]);
                    let i = choose|i: int|
                        0 <= i < rest.len() && #[trigger] kept_rest[jr - 1] == rest[i]
                            && !spec_region_contained(rest[i], addr, size);
                    assert(kept[jr] == regions[i + 1]);
                    assert(regions[0].base + regions[0].size <= regions[i + 1].base || regions[i
                        + 1].base + regions[i + 1].size <= regions[0].base);
                } else {
                    assert(kept[j1] == kept_rest[j1 - 1] && kept[j2] == kept_rest[j2 - 1]);
                }
            }
        }
    }
}

impl Partition {
    /// Scatters `data` into the backing of the mapped region that
    /// contains the range.  This models a host-side write: it does not
    /// mark pages dirty.
    pub fn write_physical_memory(&mut self, gpa: u64, data: &Vec<u8>) -> (r: Result<
        usize,
        PartitionError,
    >)
        requires
            old(self).wf(),
        ensures
            final(self).wf(),
            r is Ok <==> spec_covered(old(self).regions_view(), gpa, data@.len() as int),
            r is Ok ==> r.unwrap() == data@.len() && final(self).mem_view() == spec_write_phys(
                old(self).mem_view(),
                gpa as int,
                data@,
            ),
            r is Err ==> r == Err::<usize, PartitionError>(PartitionError::NoMappedRegion)
                && final(self).mem_view() == old(self).mem_view(),
            final(self).regions_view() == old(self).regions_view(),
            final(self).dirty_view() == old(self).dirty_view(),
            final(self).regs() == old(self).regs(),
    {
        let len = data.len();
        let ri = match self.find_region(gpa, len) {
            Some(i) => i,
            None => {
                return Err(PartitionError::NoMappedRegion);
            },
        };
        let ghost region = self.regions_view()[ri as int];
        let chunks = crate::mem::chunked(gpa, len);
        proof {
            assert(data@.skip(0) =~= data@);
        }
        let mut ci: usize = 0;
        let mut cur: u64 = gpa;
        let mut rem: usize = len;
        while ci < chunks.len()
            invariant
                self.wf(),
                gpa + len <= u64::MAX,
                len == data@.len(),
                spec_region_covers(region, gpa, len as int),
                spec_region_wf(region),
                0 <= ri < self.regions_view().len() && region == self.regions_view()[ri as int],
                chunks@ == crate::mem::spec_chunks(gpa as int, len as int),
                ci <= chunks@.len(),
                cur == gpa + len - rem,
                rem <= len,
                chunks@.skip(ci as int) == crate::mem::spec_chunks(cur as int, rem as int),
                spec_write_phys(old(self).mem_view(), gpa as int, data@) == spec_write_phys(
                    self.mem_view(),
                    cur as int,
                    data@.skip(len - rem),
                ),
                forall|k: u64| #[trigger]
                    self.mem_view().contains_key(k) == old(self).mem_view().contains_key(k),
                self.regions_view() == old(self).regions_view(),
                self.dirty_view() == old(self).dirty_view(),
                self.regs() == old(self).regs(),
            decreases chunks@.len() - ci,
        {
            let (c_start, c_sz) = chunks[ci];
            proof {
                crate::mem::lemma_chunks_empty(cur as int, rem as int);
                assert(chunks@.skip(ci as int)[0] == (c_start, c_sz));
                lemma_page_offset_bound(cur);
                crate::mem::lemma_offset_is_mod(cur);
                assert(c_start == cur);
                assert(rem > 0);
                assert(1 <= c_sz && c_sz <= rem);
                assert(c_sz <= 4096 - (cur as int % 4096));
                lemma_page_in_range(cur, region.base, region.size);
                assert(spec_covered(self.regions_view(), spec_page_base(cur), 4096)) by {
                    assert(spec_region_covers(
                        self.regions_view()[ri as int],
                        spec_page_base(cur),
                        4096,
                    ));
                }
                assert(self.mem_view().contains_key(spec_page_base(cur)));
            }
            let doff = len - rem;
            let mut part: Vec<u8> = Vec::new();
            let mut j: usize = 0;
            while j < c_sz
                invariant
                    j <= c_sz,
                    doff + c_sz <= data@.len(),
                    data@.len() <= usize::MAX,
                    part@ == data@.subrange(doff as int, doff + j),
                decreases c_sz - j,
            {
                part.push(data[doff + j]);
                j = j + 1;
                proof {
                    assert(part@ =~= data@.subrange(doff as int, doff + j));
                }
            }
            proof {
                assert(part@ =~= data@.skip(doff as int).take(c_sz as int));
            }
            match self.mem.write_gpa(c_start, &part) {
                Ok(_) => {},
                Err(_) => {
                    proof {
                        assert(false);
                    }
                    return Err(PartitionError::NoMappedRegion);
                },
            }
            ci = ci + 1;
            proof {
                assert(chunks@.skip(ci as int) =~= chunks@.skip(ci - 1).skip(1));
            }
            cur = cur + c_sz as u64;
            rem = rem - c_sz;
            proof {
                assert(chunks@.skip(ci as int) =~= crate::mem::spec_chunks(
                    cur as int,
                    rem as int,
                ));
                assert(data@.skip(doff as int).skip(c_sz as int) =~= data@.skip(len - rem));
            }
        }
        proof {
            crate::mem::lemma_chunks_empty(cur as int, rem as int);
            assert(rem == 0);
            assert(data@.skip(len as int) =~= Seq::<u8>::empty());
        }
        Ok(len)
    }

    /// Scatters `data` like `write_physical_memory` and marks every
    /// touched page dirty.  This models a store performed by the guest,
    /// which the partition's dirty tracking records.
    pub fn guest_write_physical_memory(&mut self, gpa: u64, data: &Vec<u8>) -> (r: Result<
        usize,
        PartitionError,
    >)
        requires
            old(self).wf(),
        ensures
            final(self).wf(),
            r is Ok <==> spec_covered(old(self).regions_view(), gpa, data@.len() as int),
            r is Ok ==> r.unwrap() == data@.len() && final(self).mem_view() == spec_write_phys(
                old(self).mem_view(),
                gpa as int,
                data@,
            ),
            r is Err ==> r == Err::<usize, PartitionError>(PartitionError::NoMappedRegion)
                && final(self).mem_view() == old(self).mem_view() && final(self).dirty_view()
                == old(self).dirty_view(),
            forall|k: u64|
                old(self).dirty_view().contains(k) ==> #[trigger] final(self).dirty_view().contains(
                    k,
                ),
            forall|k: u64| #[trigger]
                final(self).dirty_view().contains(k) ==> old(self).dirty_view().contains(k) || (k
                    & 0xfff == 0 && k < gpa + data@.len() && gpa < k + 4096),
            r is Ok ==> forall|a: u64|
                gpa <= a < gpa + data@.len() ==> final(self).dirty_view().contains(
                    #[trigger] spec_page_base(a),
                ),
            final(self).regions_view() == old(self).regions_view(),
            final(self).regs() == old(self).regs(),
    {
        let len = data.len();
        let written = match self.write_physical_memory(gpa, data) {
            Ok(n) => n,
            Err(e) => {
                return Err(e);
            },
        };
        let chunks = crate::mem::chunked(gpa, len);
        let ghost dirty_at_start = self.dirty_view();
        let ghost mem_after_write = self.mem_view();
        let mut ci: usize = 0;
        let mut cur: u64 = gpa;
        let mut rem: usize = len;
        while ci < chunks.len()
            invariant
                self.wf(),
                gpa + len <= u64::MAX,
                chunks@ == crate::mem::spec_chunks(gpa as int, len as int),
                ci <= chunks@.len(),
                cur == gpa + len - rem,
                rem <= len,
                chunks@.skip(ci as int) == crate::mem::spec_chunks(cur as int, rem as int),
                forall|k: u64|
                    dirty_at_start.contains(k) ==> #[trigger] self.dirty_view().contains(k),
                forall|k: u64| #[trigger]
                    self.dirty_view().contains(k) ==> dirty_at_start.contains(k) || (k & 0xfff == 0
                        && k < gpa + len && gpa < k + 4096),
                forall|a: u64|
                    gpa <= a < cur ==> self.dirty_view().contains(#[trigger] spec_page_base(a)),
                self.mem_view() == mem_after_write,
                self.regions_view() == old(self).regions_view(),
                self.regs() == old(self).regs(),
            decreases chunks@.len() - ci,
        {
            let (c_start, c_sz) = chunks[ci];
            proof {
                crate::mem::lemma_chunks_empty(cur as int, rem as int);
                assert(chunks@.skip(ci as int)[0] == (c_start, c_sz));
                lemma_page_offset_bound(cur);
                crate::mem::lemma_offset_is_mod(cur);
                assert(c_start == cur);
                assert(rem > 0);
                assert(1 <= c_sz && c_sz <= rem);
                assert(c_sz <= 4096 - (cur as int % 4096));
            }
            let (page, _) = crate::mem::page_off(c_start);
            let ghost prev_dirty = self.dirty_view();
            self.dirty.insert(page);
            proof {
                assert(self.dirty_view() == prev_dirty.insert(page));
                assert(page & 0xfff == 0);
                assert(page <= cur && cur < page + 4096);
            }
            ci = ci + 1;
            proof {
                assert(chunks@.skip(ci as int) =~= chunks@.skip(ci - 1).skip(1));
            }
            let ghost cur_before = cur;
            let ghost c_here = c_sz;
            cur = cur + c_sz as u64;
            rem = rem - c_sz;
            proof {
                assert(chunks@.skip(ci as int) =~= crate::mem::spec_chunks(
                    cur as int,
                    rem as int,
                ));
                assert forall|a: u64| gpa <= a < cur implies self.dirty_view().contains(
                    #[trigger] spec_page_base(a),
                ) by {
                    if a >= cur_before {
                        lemma_same_page_in_chunk(a, cur_before, c_here as u64);
                    }
                }
            }
        }
        proof {
            crate::mem::lemma_chunks_empty(cur as int, rem as int);
            assert(rem == 0);
        }
        Ok(written)
    }
}

proof fn lemma_same_page_in_chunk(a: u64, cur: u64, c: u64)
    requires
        cur <= a,
        a < cur + c,
        c <= 4096 - (cur & 0xfff),
    ensures
        spec_page_base(a) == spec_page_base(cur),
{
    assert(cur <= a && a < cur + c && c <= 4096 - (cur & 0xfff) ==> (a & 0xffff_ffff_ffff_f000) == (
    cur & 0xffff_ffff_ffff_f000)) by (bit_vector);
}

} // verus!

verus! {

impl Partition {
    /// Maps a page-aligned range at `base`, backed by `data`, with
    /// dirty tracking enabled.  Appends to the mapped-region list;
    /// collisions with an existing region are refused.
    pub fn map_physical_memory(&mut self, base: u64, data: Vec<u8>) -> (r: Result<
        (),
        PartitionError,
    >)
        requires
            old(self).wf(),
        ensures
            final(self).wf(),
            final(self).regs() == old(self).regs(),
            final(self).dirty_view() == old(self).dirty_view(),
            base & 0xfff != 0 ==> r == Err::<(), PartitionError>(PartitionError::Unaligned),
            base & 0xfff == 0 && (data@.len() == 0 || data@.len() % 4096 != 0 || base + data@.len()
                > u64::MAX) ==> r == Err::<(), PartitionError>(PartitionError::BadSize),
            base & 0xfff == 0 && data@.len() > 0 && data@.len() % 4096 == 0 && base + data@.len()
                <= u64::MAX && (exists|i: int|
                0 <= i < old(self).regions_view().len() && (#[trigger] old(self).regions_view()[i]).base < base + data@.len() && base < old(self).regions_view()[i].base + old(self).regions_view()[i].size) ==> r == Err::<
                (),
                PartitionError,
            >(PartitionError::Overlap),
            r is Err ==> final(self).mem_view() == old(self).mem_view() && final(self).regions_view() == old(self).regions_view(),
            r is Ok ==> {
                &&& base & 0xfff == 0
                &&& data@.len() > 0
                &&& data@.len() % 4096 == 0
                &&& base + data@.len() <= u64::MAX
                &&& final(self).regions_view() == old(self).regions_view().push(
                    MemoryRegion { base, size: data@.len() as u64 },
                )
                &&& (forall|k: u64| #[trigger]
                    final(self).mem_view().contains_key(k) <==> old(self).mem_view().contains_key(k) || (k & 0xfff == 0 && base <= k && k < base
                        + data@.len()))
                &&& (forall|k: u64|
                    k & 0xfff == 0 && base <= k && k < base + data@.len() ==> #[trigger] final(self).mem_view()[k] == data@.subrange(k - base, k - base + 4096))
                &&& (forall|k: u64| #[trigger]
                    old(self).mem_view().contains_key(k) && !(base <= k && k < base + data@.len())
                        ==> final(self).mem_view()[k] == old(self).mem_view()[k])
            },
    {
        if base & 0xfff != 0 {
            return Err(PartitionError::Unaligned);
        }
        let len = data.len();
        if len == 0 || len % 4096 != 0 || len as u64 > u64::MAX - base {
            return Err(PartitionError::BadSize);
        }
        let end = base + len as u64;
        // refuse a range that collides with an existing region
        let mut i: usize = 0;
        while i < self.regions.len()
            invariant
                self.wf(),
                end == base + len,
                base & 0xfff == 0,
                len == data@.len(),
                len > 0,
                len % 4096 == 0,
                base + len <= u64::MAX,
                i <= self.regions_view().len(),
                self.mem_view() == old(self).mem_view(),
                self.regions_view() == old(self).regions_view(),
                self.dirty_view() == old(self).dirty_view(),
                self.regs() == old(self).regs(),
                forall|j: int|
                    0 <= j < i ==> !((#[trigger] self.regions_view()[j]).base < end && base
                        < self.regions_view()[j].base + self.regions_view()[j].size),
            decreases self.regions_view().len() - i,
        {
            let r = self.regions[i];
            if r.base < end && base < r.base + r.size {
                proof {
                    assert(old(self).regions_view()[i as int].base < base + data@.len() && base
                        < old(self).regions_view()[i as int].base + old(self).regions_view()[i as int].size);
                }
                return Err(PartitionError::Overlap);
            }
            i = i + 1;
        }
        // install the backing, page by page
        let npages = len / 4096;
        let mut p: usize = 0;
        while p < npages
            invariant
                self.mem.wf(),
                npages == len as int / 4096,
                len % 4096 == 0,
                len == data@.len(),
                base & 0xfff == 0,
                base + len <= u64::MAX,
                p <= npages,
                forall|k: u64| #[trigger]
                    self.mem_view().contains_key(k) <==> old(self).mem_view().contains_key(k) || (k
                        & 0xfff == 0 && base <= k && k < base + p * 4096),
                forall|k: u64|
                    k & 0xfff == 0 && base <= k && k < base + p * 4096 ==> #[trigger] self.mem_view()[k]
                        == data@.subrange(k - base, k - base + 4096),
                forall|k: u64| #[trigger]
                    old(self).mem_view().contains_key(k) && !(base <= k && k < base + p * 4096)
                        ==> self.mem_view()[k] == old(self).mem_view()[k],
                self.regions_view() == old(self).regions_view(),
                self.dirty_view() == old(self).dirty_view(),
                self.regs() == old(self).regs(),
            decreases npages - p,
        {
            proof {
                vstd::arithmetic::div_mod::lemma_fundamental_div_mod(len as int, 4096);
                assert(npages * 4096 == len);
                vstd::arithmetic::div_mod::lemma_mod_multiples_basic(p as int, 4096);
                assert((p * 4096) % 4096 == 0);
            }
            let poff = p * 4096;
            let mut page: Vec<u8> = Vec::new();
            let mut j: usize = 0;
            while j < 4096
                invariant
                    j <= 4096,
                    poff + 4096 <= data@.len(),
                    data@.len() <= usize::MAX,
                    page@ == data@.subrange(poff as int, poff + j),
                decreases 4096 - j,
            {
                page.push(data[poff + j]);
                j = j + 1;
                proof {
                    assert(page@ =~= data@.subrange(poff as int, poff + j));
                }
            }
            let pbase = base + poff as u64;
            proof {
                assert(poff % 4096 == 0);
                assert(poff + 4096 <= len);
                lemma_aligned_add(base, poff as u64);
                assert(pbase & 0xfff == 0 && spec_page_base(pbase) == pbase);
            }
            let ghost prev_mem = self.mem_view();
            self.mem.add_page(pbase, page);
            p = p + 1;
            proof {
                assert(self.mem_view() == prev_mem.insert(pbase, page@));
                assert(page@ =~= data@.subrange(pbase - base, pbase - base + 4096));
                assert forall|k: u64| #[trigger]
                    self.mem_view().contains_key(k) implies (old(self).mem_view().contains_key(k)
                    || (k & 0xfff == 0 && base <= k && k < base + p * 4096)) by {
                    if k != pbase {
                        assert(prev_mem.contains_key(k));
                    }
                }
                assert forall|k: u64|
                    old(self).mem_view().contains_key(k) || (k & 0xfff == 0 && base <= k && k < base
                        + p * 4096) implies #[trigger] self.mem_view().contains_key(k) by {
                    if !old(self).mem_view().contains_key(k) && !(k & 0xfff == 0 && base <= k && k
                        < base + (p - 1) * 4096) {
                        if k != pbase {
                            lemma_aligned_unique(k, pbase);
                        }
                        assert(k == pbase);
                    } else {
                        assert(prev_mem.contains_key(k));
                    }
                }
                assert forall|k: u64|
                    k & 0xfff == 0 && base <= k && k < base + p * 4096 implies #[trigger] self.mem_view()[k]
                        == data@.subrange(k - base, k - base + 4096) by {
                    if k == pbase {
                    } else if k < base + (p - 1) * 4096 {
                        assert(prev_mem[k] == data@.subrange(k - base, k - base + 4096));
                        assert(self.mem_view()[k] == prev_mem[k]);
                    } else {
                        lemma_aligned_unique(k, pbase);
                        assert(false);
                    }
                }
                assert forall|k: u64| #[trigger]
                    old(self).mem_view().contains_key(k) && !(base <= k && k < base + p * 4096)
                    implies self.mem_view()[k] == old(self).mem_view()[k] by {
                    assert(k != pbase);
                    assert(self.mem_view()[k] == prev_mem[k]);
                }
            }
        }
        proof {
            vstd::arithmetic::div_mod::lemma_fundamental_div_mod(len as int, 4096);
            assert(npages * 4096 == len);
            assert(p == npages);
            assert(p * 4096 == len);
            assert(forall|k: u64| #[trigger]
                self.mem_view().contains_key(k) <==> old(self).mem_view().contains_key(k) || (k
                    & 0xfff == 0 && base <= k && k < base + p * 4096));
            assert forall|k: u64| #[trigger]
                self.mem_view().contains_key(k) <==> old(self).mem_view().contains_key(k) || (k
                    & 0xfff == 0 && base <= k && k < base + len) by {
                assert(self.mem_view().contains_key(k) <==> old(self).mem_view().contains_key(k)
                    || (k & 0xfff == 0 && base <= k && k < base + p * 4096));
            }
        }
        let ghost mem_before_push = self.mem_view();
        self.regions.push(MemoryRegion { base, size: len as u64 });
        proof {
            assert(self.mem_view() == mem_before_push);
            assert forall|k: u64| #[trigger]
                self.mem_view().contains_key(k) <==> old(self).mem_view().contains_key(k) || (k
                    & 0xfff == 0 && base <= k && k < base + len) by {
                assert(mem_before_push.contains_key(k) <==> old(self).mem_view().contains_key(k)
                    || (k & 0xfff == 0 && base <= k && k < base + len));
            }
            assert(final(self).regions_view() == old(self).regions_view().push(
                MemoryRegion { base, size: len as u64 },
            ));
            assert(self.wf()) by {
                let rs = self.regions_view();
                let olds = old(self).regions_view();
                let newr = MemoryRegion { base, size: len as u64 };
                assert(rs == olds.push(newr));
                assert(spec_region_wf(newr));
                assert forall|i2: int| 0 <= i2 < rs.len() implies spec_region_wf(
                    #[trigger] rs[i2],
                ) by {
                    if i2 < rs.len() - 1 {
                        assert(rs[i2] == olds[i2]);
                    }
                }
                assert forall|i2: int, j2: int|
                    0 <= i2 < rs.len() && 0 <= j2 < rs.len() && i2 != j2 implies (
                #[trigger] rs[i2]).base + rs[i2].size <= (#[trigger] rs[j2]).base || rs[j2].base
                    + rs[j2].size <= rs[i2].base by {
                    if i2 < rs.len() - 1 && j2 < rs.len() - 1 {
                        assert(rs[i2] == olds[i2] && rs[j2] == olds[j2]);
                    } else if i2 == rs.len() - 1 {
                        assert(rs[j2] == olds[j2]);
                        assert(!(olds[j2].base < base + len && base < olds[j2].base
                            + olds[j2].size));
                    } else {
                        assert(rs[i2] == olds[i2]);
                        assert(!(olds[i2].base < base + len && base < olds[i2].base
                            + olds[i2].size));
                    }
                }
                assert forall|k: u64|
                    k & 0xfff == 0 && spec_covered(rs, k, 4096) implies #[trigger]
                    self.mem_view().contains_key(k) by {
                    let i = choose|i: int|
                        0 <= i < rs.len() && spec_region_covers(#[trigger] rs[i], k, 4096);
                    assert(spec_region_covers(rs[i], k, 4096));
                    if i < rs.len() - 1 {
                        assert(rs[i] == olds[i]);
                        assert(spec_covered(olds, k, 4096));
                        assert(old(self).mem_view().contains_key(k));
                    } else {
                        assert(rs[i] == newr);
                        assert(base <= k && k + 4096 <= base + len);
                        assert(k < base + npages * 4096);
                    }
                }
            }
        }
        Ok(())
    }
}

proof fn lemma_aligned_add(b: u64, o: u64)
    requires
        b & 0xfff == 0,
        o % 4096 == 0,
        b + o <= u64::MAX,
    ensures
        (b + o) as u64 & 0xfff == 0,
        spec_page_base((b + o) as u64) == b + o,
{
    assert(b & 0xfff == 0 && o % 4096 == 0 && b + o <= 0xffff_ffff_ffff_ffff ==> ((b + o) as u64)
        & 0xfff == 0 && ((b + o) as u64) & 0xffff_ffff_ffff_f000 == ((b + o) as u64)) by (bit_vector);
}

proof fn lemma_aligned_unique(k: u64, p: u64)
    requires
        k & 0xfff == 0,
        p & 0xfff == 0,
        k != p,
    ensures
        k + 4096 <= p || p + 4096 <= k,
{
    assert(k & 0xfff == 0 && p & 0xfff == 0 && k != p ==> k + 4096 <= p || p + 4096 <= k)
        by (bit_vector);
}

} // verus!

verus! {

proof fn lemma_bit_or(b: u64, i: u64, j: u64)
    requires
        i < 64,
        j < 64,
    ensures
        i == j ==> ((b | (1u64 << i)) >> j) & 1 == 1,
        i != j ==> ((b | (1u64 << i)) >> j) & 1 == (b >> j) & 1,
{
    assert(i < 64 && j < 64 ==> ((i == j ==> ((b | (1u64 << i)) >> j) & 1 == 1) && (i != j ==> ((b
        | (1u64 << i)) >> j) & 1 == (b >> j) & 1))) by (bit_vector);
}

proof fn lemma_bit_zero(j: u64)
    ensures
        (0u64 >> j) & 1 == 0,
{
    assert((0u64 >> j) & 1 == 0) by (bit_vector);
}

impl Partition {
    /// Returns the dirty bitmap of the pages of `[gpa, gpa + size)`,
    /// one bit per page, bit zero for the first page.
    pub fn query_gpa_range(&self, gpa: u64, size: usize) -> (r: Result<u64, PartitionError>)
        requires
            self.wf(),
        ensures
            gpa & 0xfff != 0 ==> r == Err::<u64, PartitionError>(PartitionError::Unaligned),
            gpa & 0xfff == 0 && (size == 0 || size % 4096 != 0) ==> r == Err::<u64, PartitionError>(
                PartitionError::BadSize,
            ),
            gpa & 0xfff == 0 && size > 0 && size % 4096 == 0 && size / 4096 > 64 ==> r == Err::<
                u64,
                PartitionError,
            >(PartitionError::RangeTooLarge),
            gpa & 0xfff == 0 && size > 0 && size % 4096 == 0 && size / 4096 <= 64
                && !spec_covered(self.regions_view(), gpa, size as int) ==> r == Err::<
                u64,
                PartitionError,
            >(PartitionError::NoMappedRegion),
            gpa & 0xfff == 0 && size > 0 && size % 4096 == 0 && size / 4096 <= 64 && spec_covered(
                self.regions_view(),
                gpa,
                size as int,
            ) ==> r is Ok && (forall|i: int|
                0 <= i < size / 4096 ==> (((r.unwrap() >> (i as u64)) & 1) == 1
                    <==> self.dirty_view().contains(#[trigger] ((gpa + i * 4096) as u64)))),
    {
        if gpa & 0xfff != 0 {
            return Err(PartitionError::Unaligned);
        }
        if size == 0 || size % 4096 != 0 {
            return Err(PartitionError::BadSize);
        }
        let npages = size / 4096;
        if npages > 64 {
            return Err(PartitionError::RangeTooLarge);
        }
        if !self.is_physical_memory_valid(gpa, size) {
            return Err(PartitionError::NoMappedRegion);
        }
        let mut bitmap: u64 = 0;
        let mut i: usize = 0;
        proof {
            vstd::arithmetic::div_mod::lemma_fundamental_div_mod(size as int, 4096);
            assert(npages * 4096 == size);
            assert(forall|j: u64| j < 64 ==> (bitmap >> j) & 1 == 0) by {
                assert forall|j: u64| j < 64 implies (0u64 >> j) & 1 == 0 by {
                    lemma_bit_zero(j);
                }
            }
        }
        while i < npages
            invariant
                self.wf(),
                npages <= 64,
                gpa + npages * 4096 <= u64::MAX,
                i <= npages,
                forall|j: int|
                    0 <= j < i ==> (((bitmap >> (j as u64)) & 1) == 1
                        <==> self.dirty_view().contains(#[trigger] ((gpa + j * 4096) as u64))),
                forall|j: u64| i <= j < 64 ==> #[trigger] ((bitmap >> j) & 1) == 0,
            decreases npages - i,
        {
            let page = gpa + (i * 4096) as u64;
            let ghost bitmap_before = bitmap;
            if self.dirty.contains(&page) {
                bitmap = bitmap | (1u64 << (i as u64));
            }
            proof {
                assert forall|j: u64| i + 1 <= j < 64 implies #[trigger] ((bitmap >> j) & 1)
                    == 0 by {
                    lemma_bit_or(bitmap_before, i as u64, j);
                }
                assert forall|j: int|
                    0 <= j < i + 1 implies (((bitmap >> (j as u64)) & 1) == 1
                    <==> self.dirty_view().contains(#[trigger] ((gpa + j * 4096) as u64))) by {
                    lemma_bit_or(bitmap_before, i as u64, j as u64);
                }
            }
            i = i + 1;
        }
        Ok(bitmap)
    }

    /// Clears the dirty bits of the pages of `[gpa, gpa + size)`
    /// without returning them.
    pub fn flush_gpa_range(&mut self, gpa: u64, size: usize) -> (r: Result<(), PartitionError>)
        requires
            old(self).wf(),
        ensures
            final(self).wf(),
            final(self).regs() == old(self).regs(),
            final(self).mem_view() == old(self).mem_view(),
            final(self).regions_view() == old(self).regions_view(),
            gpa & 0xfff != 0 ==> r == Err::<(), PartitionError>(PartitionError::Unaligned)
                && final(self).dirty_view() == old(self).dirty_view(),
            gpa & 0xfff == 0 && (size == 0 || size % 4096 != 0) ==> r == Err::<(), PartitionError>(
                PartitionError::BadSize,
            ) && final(self).dirty_view() == old(self).dirty_view(),
            gpa & 0xfff == 0 && size > 0 && size % 4096 == 0 && !spec_covered(
                old(self).regions_view(),
                gpa,
                size as int,
            ) ==> r == Err::<(), PartitionError>(PartitionError::NoMappedRegion) && final(self).dirty_view() == old(self).dirty_view(),
            gpa & 0xfff == 0 && size > 0 && size % 4096 == 0 && spec_covered(
                old(self).regions_view(),
                gpa,
                size as int,
            ) ==> r is Ok && (forall|k: u64| #[trigger]
                final(self).dirty_view().contains(k) <==> old(self).dirty_view().contains(k) && !(k
                    & 0xfff == 0 && gpa <= k && k < gpa + size)),
    {
        if gpa & 0xfff != 0 {
            return Err(PartitionError::Unaligned);
        }
        if size == 0 || size % 4096 != 0 {
            return Err(PartitionError::BadSize);
        }
        if !self.is_physical_memory_valid(gpa, size) {
            return Err(PartitionError::NoMappedRegion);
        }
        let npages = size / 4096;
        proof {
            vstd::arithmetic::div_mod::lemma_fundamental_div_mod(size as int, 4096);
            assert(npages * 4096 == size);
        }
        let mut i: usize = 0;
        while i < npages
            invariant
                self.wf(),
                npages * 4096 == size,
                gpa & 0xfff == 0,
                gpa + size <= u64::MAX,
                i <= npages,
                self.regs() == old(self).regs(),
                self.mem_view() == old(self).mem_view(),
                self.regions_view() == old(self).regions_view(),
                forall|k: u64| #[trigger]
                    self.dirty_view().contains(k) <==> old(self).dirty_view().contains(k) && !(k
                        & 0xfff == 0 && gpa <= k && k < gpa + i * 4096),
            decreases npages - i,
        {
            proof {
                vstd::arithmetic::div_mod::lemma_mod_multiples_basic(i as int, 4096);
                lemma_aligned_add(gpa, (i * 4096) as u64);
            }
            let page = gpa + (i * 4096) as u64;
            let ghost dirty_before = self.dirty_view();
            self.dirty.remove(&page);
            i = i + 1;
            proof {
                assert(self.dirty_view() == dirty_before.remove(page));
                assert forall|k: u64| #[trigger]
                    self.dirty_view().contains(k) <==> old(self).dirty_view().contains(k) && !(k
                        & 0xfff == 0 && gpa <= k && k < gpa + i * 4096) by {
                    if k != page && k & 0xfff == 0 && gpa <= k && k < gpa + i * 4096 && !(k < gpa
                        + (i - 1) * 4096) {
                        lemma_aligned_unique(k, page);
                    }
                }
            }
        }
        Ok(())
    }

    /// Resolves a guest virtual address through the partition's own
    /// page walk, using the virtual processor's current CR3.
    pub fn translate_virtual_address(&self, gva: u64) -> (r: Result<u64, VirtMemError>)
        requires
            self.wf(),
        ensures
            r == spec_translate(self.mem_view(), self.regs().cr3, gva),
    {
        self.mem.translate_gva(self.context.cr3, gva)
    }

    /// Reads guest virtual memory through the partition's mapped pages.
    pub fn read_gva(&self, cr3: u64, gva: u64, len: usize) -> (r: Result<Vec<u8>, VirtMemError>)
        requires
            self.wf(),
            gva + len <= u64::MAX,
        ensures
            ({
                let s = spec_read_gva(self.mem_view(), cr3, gva as int, len as int);
                match s {
                    Ok(bytes) => r is Ok && r.unwrap()@ == bytes,
                    Err(e) => r == Err::<Vec<u8>, VirtMemError>(e),
                }
            }),
    {
        self.mem.read_gva(cr3, gva, len)
    }

    /// Writes guest virtual memory through the partition's mapped
    /// pages.  This models a host-side write: no page becomes dirty.
    pub fn write_gva(&mut self, cr3: u64, gva: u64, data: &Vec<u8>) -> (r: Result<
        (),
        VirtMemError,
    >)
        requires
            old(self).wf(),
            gva + data@.len() <= u64::MAX,
        ensures
            final(self).wf(),
            ({
                let s = spec_write_gva(old(self).mem_view(), cr3, gva as int, data@);
                &&& final(self).mem_view() == s.0
                &&& (match s.1 {
                    Ok(_) => r is Ok,
                    Err(e) => r == Err::<(), VirtMemError>(e),
                })
            }),
            final(self).regs() == old(self).regs(),
            final(self).regions_view() == old(self).regions_view(),
            final(self).dirty_view() == old(self).dirty_view(),
    {
        let r = self.mem.write_gva(cr3, gva, data);
        proof {
            crate::mem::lemma_write_gva_preserves(
                old(self).mem_view(),
                cr3,
                gva as int,
                data@,
            );
            assert(self.regions_view() == old(self).regions_view());
            assert(self.dirty_view() == old(self).dirty_view());
            assert(self.regs() == old(self).regs());
            assert(pages_wf(self.mem_view()));
            assert forall|k: u64|
                k & 0xfff == 0 && spec_covered(self.regions_view(), k, 4096) implies #[trigger]
                self.mem_view().contains_key(k) by {
                assert(spec_covered(old(self).regions_view(), k, 4096));
                assert(old(self).mem_view().contains_key(k));
            }
            assert(self.wf());
        }
        r
    }

    /// Unmaps the region that starts at `base` with exactly `size`
    /// bytes, dropping its backing pages and dirty bits.
    /// Unmaps every region that lies fully inside `[base, base + size]`,
    /// dropping its backing pages and dirty bits; regions that only
    /// partially overlap the range are kept.
    pub fn unmap_physical_memory(&mut self, base: u64, size: usize) -> (r: Result<
        (),
        PartitionError,
    >)
        requires
            old(self).wf(),
        ensures
            final(self).wf(),
            r is Ok,
            final(self).regs() == old(self).regs(),
            final(self).regions_view() == spec_kept_regions(
                old(self).regions_view(),
                base,
                size as int,
            ),
            forall|k: u64| #[trigger]
                final(self).mem_view().contains_key(k) <==> old(self).mem_view().contains_key(k)
                    && !spec_in_unmapped(old(self).regions_view(), base, size as int, k),
            forall|k: u64| #[trigger]
                final(self).mem_view().contains_key(k) ==> final(self).mem_view()[k] == old(self).mem_view()[k],
            forall|k: u64| #[trigger]
                final(self).dirty_view().contains(k) <==> old(self).dirty_view().contains(k) && !(k
                    & 0xfff == 0 && spec_in_unmapped(old(self).regions_view(), base, size as int, k)),
    {
        let ghost olds = self.regions_view();
        let n = self.regions.len();
        let size64 = size as u64;
        let mut kept: Vec<MemoryRegion> = Vec::new();
        let mut i: usize = 0;
        proof {
            assert(olds.skip(0) =~= olds);
            assert(kept@ + spec_kept_regions(olds, base, size as int) =~= spec_kept_regions(
                olds,
                base,
                size as int,
            ));
        }
        while i < n
            invariant
                pages_wf(self.mem_view()),
                n == olds.len(),
                i <= n,
                olds == self.regions_view(),
                size64 == size,
                forall|j: int| 0 <= j < olds.len() ==> spec_region_wf(#[trigger] olds[j]),
                forall|j1: int, j2: int|
                    0 <= j1 < olds.len() && 0 <= j2 < olds.len() && j1 != j2 ==> (
                #[trigger] olds[j1]).base + olds[j1].size <= (#[trigger] olds[j2]).base
                    || olds[j2].base + olds[j2].size <= olds[j1].base,
                self.regs() == old(self).regs(),
                kept@ + spec_kept_regions(olds.skip(i as int), base, size as int)
                    == spec_kept_regions(olds, base, size as int),
                forall|k: u64| #[trigger]
                    self.mem_view().contains_key(k) <==> old(self).mem_view().contains_key(k) && !(
                    exists|j: int|
                        0 <= j < i && spec_region_contained(#[trigger] olds[j], base, size as int)
                            && olds[j].base <= k && k < olds[j].base + olds[j].size),
                forall|k: u64| #[trigger]
                    self.mem_view().contains_key(k) ==> self.mem_view()[k] == old(self).mem_view()[k],
                forall|k: u64| #[trigger]
                    self.dirty_view().contains(k) <==> old(self).dirty_view().contains(k) && !(k
                        & 0xfff == 0 && exists|j: int|
                        0 <= j < i && spec_region_contained(#[trigger] olds[j], base, size as int)
                            && olds[j].base <= k && k < olds[j].base + olds[j].size),
            decreases n - i,
        {
            let region = self.regions[i];
            proof {
                assert(region == olds[i as int]);
                assert(spec_region_wf(region));
                assert(olds.skip(i as int)[0] == olds[i as int]);
            }
            let contained = base <= region.base && region.size <= size64 && region.base - base
                <= size64 - region.size;
            proof {
                assert(contained == spec_region_contained(olds[i as int], base, size as int));
            }
            if contained {
                // drop the region's backing pages and dirty bits
                let npages = region.size / 4096;
                proof {
                    vstd::arithmetic::div_mod::lemma_fundamental_div_mod(
                        region.size as int,
                        4096,
                    );
                    assert(npages * 4096 == region.size);
                }
                let ghost mem_at = self.mem_view();
                let ghost dirty_at = self.dirty_view();
                let mut p: u64 = 0;
                while p < npages
                    invariant
                        pages_wf(self.mem_view()),
                        pages_wf(mem_at),
                        npages * 4096 == region.size,
                        region.base & 0xfff == 0,
                        region.base + region.size <= u64::MAX,
                        p <= npages,
                        olds == self.regions_view(),
                        self.regs() == old(self).regs(),
                        forall|k: u64| #[trigger]
                            self.mem_view().contains_key(k) <==> mem_at.contains_key(k) && !(
                            region.base <= k && k < region.base + p * 4096),
                        forall|k: u64| #[trigger]
                            self.mem_view().contains_key(k) ==> self.mem_view()[k] == mem_at[k],
                        forall|k: u64| #[trigger]
                            self.dirty_view().contains(k) <==> dirty_at.contains(k) && !(k & 0xfff
                                == 0 && region.base <= k && k < region.base + p * 4096),
                    decreases npages - p,
                {
                    proof {
                        vstd::arithmetic::div_mod::lemma_mod_multiples_basic(p as int, 4096);
                        lemma_aligned_add(region.base, (p * 4096) as u64);
                    }
                    let page = region.base + p * 4096;
                    let ghost mem_before = self.mem_view();
                    let ghost dirty_before = self.dirty_view();
                    self.mem.del_page(page);
                    self.dirty.remove(&page);
                    p = p + 1;
                    proof {
                        lemma_page_offset_bound(page);
                        assert(spec_page_base(page) == page);
                        assert(self.mem_view() == mem_before.remove(page));
                        assert(self.dirty_view() == dirty_before.remove(page));
                        assert forall|k: u64| #[trigger]
                            self.mem_view().contains_key(k) <==> mem_at.contains_key(k) && !(
                            region.base <= k && k < region.base + p * 4096) by {
                            if k != page && mem_at.contains_key(k) && !(region.base <= k && k
                                < region.base + (p - 1) * 4096) && region.base <= k && k
                                < region.base + p * 4096 {
                                assert(k & 0xfff == 0);
                                lemma_aligned_unique(k, page);
                            }
                        }
                        assert forall|k: u64| #[trigger]
                            self.dirty_view().contains(k) <==> dirty_at.contains(k) && !(k & 0xfff
                                == 0 && region.base <= k && k < region.base + p * 4096) by {
                            if k != page && k & 0xfff == 0 && region.base <= k && k < region.base
                                + p * 4096 && !(k < region.base + (p - 1) * 4096) {
                                lemma_aligned_unique(k, page);
                            }
                        }
                    }
                }
            } else {
                kept.push(region);
            }
            i = i + 1;
            proof {
                assert(olds.skip(i - 1).skip(1) =~= olds.skip(i as int));
                if contained {
                    assert(kept@ + spec_kept_regions(olds.skip(i as int), base, size as int)
                        =~= spec_kept_regions(olds, base, size as int));
                    assert forall|k: u64| #[trigger]
                        self.mem_view().contains_key(k) <==> old(self).mem_view().contains_key(k)
                        && !(exists|j: int|
                        0 <= j < i && spec_region_contained(#[trigger] olds[j], base, size as int)
                            && olds[j].base <= k && k < olds[j].base + olds[j].size) by {
                        if old(self).mem_view().contains_key(k) {
                            if exists|j: int|
                                0 <= j < i && spec_region_contained(
                                    #[trigger] olds[j],
                                    base,
                                    size as int,
                                ) && olds[j].base <= k && k < olds[j].base + olds[j].size {
                                let j = choose|j: int|
                                    0 <= j < i && spec_region_contained(
                                        #[trigger] olds[j],
                                        base,
                                        size as int,
                                    ) && olds[j].base <= k && k < olds[j].base + olds[j].size;
                                if j == i - 1 {
                                    assert(!self.mem_view().contains_key(k));
                                }
                            }
                        }
                    }
                } else {
                    assert(kept@ + spec_kept_regions(olds.skip(i as int), base, size as int)
                        =~= spec_kept_regions(olds, base, size as int));
                }
            }
        }
        proof {
            assert(olds.skip(n as int) =~= Seq::<MemoryRegion>::empty());
            assert(spec_kept_regions(olds.skip(n as int), base, size as int)
                =~= Seq::<MemoryRegion>::empty());
            assert(kept@ =~= spec_kept_regions(olds, base, size as int));
        }
        let ghost dirty_fin = self.dirty_view();
        let ghost mem_fin = self.mem_view();
        self.regions = kept;
        proof {
            assert(olds == old(self).regions_view());
            assert(self.dirty_view() == dirty_fin);
            assert(self.mem_view() == mem_fin);
            assert forall|k: u64| #[trigger]
                self.dirty_view().contains(k) <==> old(self).dirty_view().contains(k) && !(k
                & 0xfff == 0 && spec_in_unmapped(
                old(self).regions_view(),
                base,
                size as int,
                k,
            )) by {
                assert(self.dirty_view().contains(k) == dirty_fin.contains(k));
                if spec_in_unmapped(old(self).regions_view(), base, size as int, k) {
                    let j = choose|j: int|
                        0 <= j < olds.len() && spec_region_contained(
                            #[trigger] olds[j],
                            base,
                            size as int,
                        ) && olds[j].base <= k && k < olds[j].base + olds[j].size;
                    assert(exists|j2: int|
                        0 <= j2 < i && spec_region_contained(#[trigger] olds[j2], base, size as int)
                            && olds[j2].base <= k && k < olds[j2].base + olds[j2].size);
                } else {
                    if exists|j2: int|
                        0 <= j2 < i && spec_region_contained(#[trigger] olds[j2], base, size as int)
                            && olds[j2].base <= k && k < olds[j2].base + olds[j2].size {
                        let j = choose|j2: int|
                            0 <= j2 < i && spec_region_contained(
                                #[trigger] olds[j2],
                                base,
                                size as int,
                            ) && olds[j2].base <= k && k < olds[j2].base + olds[j2].size;
                        assert(spec_in_unmapped(old(self).regions_view(), base, size as int, k));
                    }
                }
            }
            assert forall|k: u64| #[trigger]
                self.mem_view().contains_key(k) <==> old(self).mem_view().contains_key(k)
                && !spec_in_unmapped(old(self).regions_view(), base, size as int, k) by {
                assert(self.mem_view().contains_key(k) == mem_fin.contains_key(k));
                if spec_in_unmapped(old(self).regions_view(), base, size as int, k) {
                    let j = choose|j: int|
                        0 <= j < olds.len() && spec_region_contained(
                            #[trigger] olds[j],
                            base,
                            size as int,
                        ) && olds[j].base <= k && k < olds[j].base + olds[j].size;
                    assert(exists|j2: int|
                        0 <= j2 < i && spec_region_contained(#[trigger] olds[j2], base, size as int)
                            && olds[j2].base <= k && k < olds[j2].base + olds[j2].size);
                } else {
                    if exists|j2: int|
                        0 <= j2 < i && spec_region_contained(#[trigger] olds[j2], base, size as int)
                            && olds[j2].base <= k && k < olds[j2].base + olds[j2].size {
                        let j = choose|j2: int|
                            0 <= j2 < i && spec_region_contained(
                                #[trigger] olds[j2],
                                base,
                                size as int,
                            ) && olds[j2].base <= k && k < olds[j2].base + olds[j2].size;
                        assert(spec_in_unmapped(old(self).regions_view(), base, size as int, k));
                    }
                }
            }
            lemma_kept_regions_wf(olds, base, size as int);
            assert(self.wf()) by {
                let rs = self.regions_view();
                assert forall|k: u64|
                    k & 0xfff == 0 && spec_covered(rs, k, 4096) implies #[trigger]
                    self.mem_view().contains_key(k) by {
                    let j = choose|j: int|
                        0 <= j < rs.len() && spec_region_covers(#[trigger] rs[j], k, 4096);
                    let i2 = choose|i2: int|
                        0 <= i2 < olds.len() && rs[j] == #[trigger] olds[i2]
                            && !spec_region_contained(olds[i2], base, size as int);
                    assert(spec_covered(olds, k, 4096)) by {
                        assert(spec_region_covers(olds[i2], k, 4096));
                    }
                    assert(old(self).mem_view().contains_key(k));
                    if exists|j3: int|
                        0 <= j3 < olds.len() && spec_region_contained(
                            #[trigger] olds[j3],
                            base,
                            size as int,
                        ) && olds[j3].base <= k && k < olds[j3].base + olds[j3].size {
                        let j3 = choose|j3: int|
                            0 <= j3 < olds.len() && spec_region_contained(
                                #[trigger] olds[j3],
                                base,
                                size as int,
                            ) && olds[j3].base <= k && k < olds[j3].base + olds[j3].size;
                        assert(j3 != i2);
                        assert(olds[j3].base + olds[j3].size <= olds[i2].base || olds[i2].base
                            + olds[i2].size <= olds[j3].base);
                        assert(false);
                    }
                }
            }
        }
        Ok(())
    }
}

} // verus!

