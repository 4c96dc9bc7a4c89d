//! The tracer: installs the initial processor context, drives the
//! virtual processor exit by exit, demand-pages guest memory from the
//! snapshot into the page cache, plants breakpoints for coverage, and
//! restores dirty pages between iterations.

use vstd::prelude::*;
use crate::mem::{
    GpaManager, VirtMemError, spec_page_base, spec_page_offset, spec_read_gva, spec_write_gva,
    spec_translate, lemma_page_offset_bound,
};
use crate::whvp::{
    Allocator, ExceptionContext, ExitContext, MemoryAccessContext, MemoryAccessType, MemoryRegion,
    Partition, PartitionContext, PartitionError, SegmentRegister, VpContext,
    EXCEPTION_BREAKPOINT_TRAP, EXCEPTION_DEBUG_TRAP_OR_FAULT, spec_covered, spec_region_covers,
};

verus! {

/// One segment register as captured in a processor-state document.
#[derive(Clone, Copy, Debug, PartialEq, Eq, Structural)]
pub struct Segment {
    pub selector: u16,
    pub base: u64,
    pub limit: u32,
    pub flags: u16,
}

/// The captured processor state installed before each run.
#[derive(Clone, Copy, Debug, PartialEq, Eq, Structural)]
pub struct ProcessorState {
    pub rax: u64,
    pub rbx: u64,
    pub rcx: u64,
    pub rdx: u64,
    pub rsi: u64,
    pub rdi: u64,
    pub rsp: u64,
    pub rbp: u64,
    pub r8: u64,
    pub r9: u64,
    pub r10: u64,
    pub r11: u64,
    pub r12: u64,
    pub r13: u64,
    pub r14: u64,
    pub r15: u64,
    pub rflags: u64,
    pub rip: u64,
    pub cr0: u64,
    pub cr3: u64,
    pub cr4: u64,
    pub cr8: u64,
    pub efer: u64,
    pub gdtr: u64,
    pub gdtl: u16,
    pub idtr: u64,
    pub idtl: u16,
    pub cs: Segment,
    pub ss: Segment,
    pub ds: Segment,
    pub es: Segment,
    pub fs: Segment,
    pub gs: Segment,
    pub fs_base: u64,
    pub gs_base: u64,
    pub kernel_gs_base: u64,
    pub sysenter_cs: u64,
    pub sysenter_esp: u64,
    pub sysenter_eip: u64,
    pub star: u64,
    pub lstar: u64,
    pub cstar: u64,
}

/// How coverage is collected during a run.
#[derive(Clone, Copy, Debug, PartialEq, Eq, Structural)]
pub enum CoverageMode {
    /// No coverage instrumentation.
    NoCoverage,
    /// Single-step through the trap flag: one debug exception per
    /// retired instruction.
    Instrs,
    /// A breakpoint on the first execution of each byte of a code page.
    Hit,
}

/// Failures the tracer surfaces to its callers.
#[derive(Clone, Copy, Debug, PartialEq, Eq, Structural)]
pub enum TraceError {
    Partition(PartitionError),
    Memory(VirtMemError),
    Decode,
    Snapshot,
}

impl CoverageMode {
    /// Parses a coverage-mode name: `no`, `instrs` or `hit`.
    pub fn from_str(s: &str) -> (r: Result<CoverageMode, TraceError>)
        ensures
            s@ == "no"@ ==> r == Ok::<CoverageMode, TraceError>(CoverageMode::NoCoverage),
            s@ == "instrs"@ ==> r == Ok::<CoverageMode, TraceError>(CoverageMode::Instrs),
            s@ == "hit"@ ==> r == Ok::<CoverageMode, TraceError>(CoverageMode::Hit),
            s@ != "no"@ && s@ != "instrs"@ && s@ != "hit"@ ==> r == Err::<CoverageMode, TraceError>(
                TraceError::Decode,
            ),
    {
        proof {
            reveal_strlit("no");
            reveal_strlit("instrs");
            reveal_strlit("hit");
            assert("no"@.len() == 2 && "instrs"@.len() == 6 && "hit"@.len() == 3);
        }
        let owned = s.to_owned();
        if owned == "no".to_owned() {
            Ok(CoverageMode::NoCoverage)
        } else if owned == "instrs".to_owned() {
            Ok(CoverageMode::Instrs)
        } else if owned == "hit".to_owned() {
            Ok(CoverageMode::Hit)
        } else {
            Err(TraceError::Decode)
        }
    }
}

/// What a run is asked to do and when it must stop.
pub struct Params {
    /// Hard cap on the number of exits per run; zero means no cap.
    pub limit: u64,
    /// Per-run wall-clock budget in milliseconds; zero means no budget.
    pub max_duration_ms: u64,
    /// Reaching this address ends the run with `Success`.
    pub return_address: u64,
    /// Named addresses whose execution ends the run with
    /// `ForbiddenAddress`.
    pub excluded_addresses: Vec<(String, u64)>,
    /// Capture the register file at each coverage point.
    pub save_context: bool,
    pub coverage_mode: CoverageMode,
    /// Keep a formatted line per executed instruction.
    pub save_instructions: bool,
}

/// The terminal status of a run.
#[derive(Clone, Copy, Debug, PartialEq, Eq, Structural)]
pub enum EmulationStatus {
    Success,
    Error,
    ForbiddenAddress,
    Timeout,
    LimitExceeded,
    UnHandledException,
}

impl EmulationStatus {
    /// The printable name of the status.
    pub fn as_str(&self) -> (r: &'static str)
        ensures
            *self == EmulationStatus::Success ==> r@ == "Success"@,
            *self == EmulationStatus::Error ==> r@ == "Error"@,
            *self == EmulationStatus::ForbiddenAddress ==> r@ == "ForbiddenAddress"@,
            *self == EmulationStatus::Timeout ==> r@ == "Timeout"@,
            *self == EmulationStatus::LimitExceeded ==> r@ == "LimitExceeded"@,
            *self == EmulationStatus::UnHandledException ==> r@ == "UnhandledException"@,
    {
        match self {
            EmulationStatus::Success => "Success",
            EmulationStatus::Error => "Error",
            EmulationStatus::ForbiddenAddress => "ForbiddenAddress",
            EmulationStatus::Timeout => "Timeout",
            EmulationStatus::LimitExceeded => "LimitExceeded",
            EmulationStatus::UnHandledException => "UnhandledException",
        }
    }
}

/// A register snapshot captured at a coverage point.
#[derive(Clone, Copy, Debug, PartialEq, Eq, Structural)]
pub struct Context {
    pub rax: u64,
    pub rbx: u64,
    pub rcx: u64,
    pub rdx: u64,
    pub rsi: u64,
    pub rdi: u64,
    pub rsp: u64,
    pub rbp: u64,
    pub r8: u64,
    pub r9: u64,
    pub r10: u64,
    pub r11: u64,
    pub r12: u64,
    pub r13: u64,
    pub r14: u64,
    pub r15: u64,
    pub rflags: u64,
    pub rip: u64,
}

impl Context {
    /// The coverage-point snapshot of a register bundle.
    pub fn from_partition(c: &PartitionContext) -> (r: Context)
        ensures
            r.rax == c.rax && r.rbx == c.rbx && r.rcx == c.rcx && r.rdx == c.rdx,
            r.rsi == c.rsi && r.rdi == c.rdi && r.rsp == c.rsp && r.rbp == c.rbp,
            r.r8 == c.r8 && r.r9 == c.r9 && r.r10 == c.r10 && r.r11 == c.r11,
            r.r12 == c.r12 && r.r13 == c.r13 && r.r14 == c.r14 && r.r15 == c.r15,
            r.rflags == c.rflags && r.rip == c.rip,
    {
        Context {
            rax: c.rax,
            rbx: c.rbx,
            rcx: c.rcx,
            rdx: c.rdx,
            rsi: c.rsi,
            rdi: c.rdi,
            rsp: c.rsp,
            rbp: c.rbp,
            r8: c.r8,
            r9: c.r9,
            r10: c.r10,
            r11: c.r11,
            r12: c.r12,
            r13: c.r13,
            r14: c.r14,
            r15: c.r15,
            rflags: c.rflags,
            rip: c.rip,
        }
    }
}

/// An ordered set of addresses: the unique instruction addresses a run
/// has seen.
pub struct AddrSet {
    items: Vec<u64>,
}

impl View for AddrSet {
    type V = Set<u64>;

    closed spec fn view(&self) -> Set<u64> {
        self.items@.to_set()
    }
}

impl AddrSet {
    /// The addresses in ascending order.
    pub closed spec fn seq(&self) -> Seq<u64> {
        self.items@
    }

    /// The addresses are strictly ascending (hence unique).
    pub open spec fn wf(&self) -> bool {
        forall|i: int, j: int| 0 <= i < j < self.seq().len() ==> self.seq()[i] < self.seq()[j]
    }

    pub fn new() -> (r: AddrSet)
        ensures
            r@ == Set::<u64>::empty(),
            r.seq() == Seq::<u64>::empty(),
            r.wf(),
    {
        let r = AddrSet { items: Vec::new() };
        proof {
            assert(r@ =~= Set::<u64>::empty());
            assert(r.seq() =~= Seq::<u64>::empty());
        }
        r
    }

    pub fn len(&self) -> (r: usize)
        requires
            self.wf(),
        ensures
            r == self.seq().len(),
            r == self@.len(),
    {
        proof {
            self.lemma_set_len();
        }
        self.items.len()
    }

    /// The `i`-th address in ascending order.
    pub fn get(&self, i: usize) -> (r: u64)
        requires
            i < self.seq().len(),
        ensures
            r == self.seq()[i as int],
            self@.contains(r),
    {
        proof {
            assert(self.items@.contains(self.items@[i as int]));
        }
        self.items[i]
    }

    pub fn contains(&self, a: u64) -> (r: bool)
        requires
            self.wf(),
        ensures
            r == self@.contains(a),
    {
        let mut i: usize = 0;
        while i < self.items.len()
            invariant
                i <= self.seq().len(),
                forall|j: int| 0 <= j < i ==> self.seq()[j] != a,
            decreases self.seq().len() - i,
        {
            if self.items[i] == a {
                proof {
                    assert(self.items@.contains(a));
                }
                return true;
            }
            i = i + 1;
        }
        proof {
            assert(!self.items@.contains(a));
        }
        false
    }

    /// Inserts an address, keeping the order; returns whether it was
    /// new.
    pub fn insert(&mut self, a: u64) -> (r: bool)
        requires
            old(self).wf(),
        ensures
            final(self).wf(),
            final(self)@ == old(self)@.insert(a),
            r == !old(self)@.contains(a),
            old(self)@.contains(a) ==> final(self).seq() == old(self).seq(),
    {
        let mut i: usize = 0;
        while i < self.items.len()
            invariant
                self.wf(),
                self.items@ == old(self).items@,
                i <= self.seq().len(),
                forall|j: int| 0 <= j < i ==> self.seq()[j] < a,
            decreases self.seq().len() - i,
        {
            let v = self.items[i];
            if v == a {
                proof {
                    assert(self.items@.contains(a));
                    assert(old(self)@.contains(a));
                    assert(self@.insert(a) =~= self@);
                }
                return false;
            }
            if v > a {
                proof {
                    assert(forall|j: int|
                        i <= j < self.seq().len() ==> a < #[trigger] self.seq()[j]);
                    if self.items@.contains(a) {
                        let j = choose|j: int|
                            0 <= j < self.items@.len() && self.items@[j] == a;
                        assert(false);
                    }
                }
                let ghost before = self.items@;
                self.items.insert(i, a);
                proof {
                    before.insert_ensures(i as int, a);
                    assert forall|x: u64| self.items@.contains(x) implies (before.contains(x) || x
                        == a) by {
                        let j = choose|j: int|
                            0 <= j < self.items@.len() && self.items@[j] == x;
                        if j < i {
                            assert(before[j] == x);
                        } else if j > i {
                            assert(before[j - 1] == x);
                        }
                    }
                    assert forall|x: u64| before.contains(x) implies self.items@.contains(x) by {
                        let j = choose|j: int| 0 <= j < before.len() && before[j] == x;
                        if j < i {
                            assert(self.items@[j] == x);
                        } else {
                            assert(self.items@[j + 1] == x);
                        }
                    }
                    assert(self.items@.contains(a));
                    assert(final(self)@ =~= old(self)@.insert(a));
                    assert forall|j1: int, j2: int|
                        0 <= j1 < j2 < self.items@.len() implies self.items@[j1]
                        < self.items@[j2] by {
                        before.insert_ensures(i as int, a);
                    }
                }
                return true;
            }
            i = i + 1;
        }
        proof {
            if self.items@.contains(a) {
                let j = choose|j: int| 0 <= j < self.items@.len() && self.items@[j] == a;
                assert(false);
            }
        }
        let ghost before = self.items@;
        self.items.push(a);
        proof {
            assert(self.items@ == before.push(a));
            assert forall|x: u64| self.items@.contains(x) implies (before.contains(x) || x
                == a) by {
                let j = choose|j: int| 0 <= j < self.items@.len() && self.items@[j] == x;
                if j < before.len() {
                    assert(before[j] == x);
                }
            }
            assert(self.items@.contains(a)) by {
                assert(self.items@[before.len() as int] == a);
            }
            assert forall|x: u64| before.contains(x) implies self.items@.contains(x) by {
                let j = choose|j: int| 0 <= j < before.len() && before[j] == x;
                assert(self.items@[j] == x);
            }
            assert(final(self)@ =~= old(self)@.insert(a));
        }
        true
    }

    /// The set view holds exactly the listed addresses.
    pub proof fn lemma_view_is_seq_set(&self)
        ensures
            self@ == self.seq().to_set(),
    {
    }

    /// A strictly ascending list has as many elements as its set.
    proof fn lemma_set_len(&self)
        requires
            self.wf(),
        ensures
            self@.len() == self.seq().len(),
    {
        assert(self.seq().no_duplicates());
        self.seq().unique_seq_to_set();
    }
}

} // verus!

verus! {

/// A per-run trace: coverage points in order, the unique addresses
/// seen, formatted instructions when enabled, the terminal status and
/// timestamps (milliseconds of host time).
pub struct Trace {
    pub start: Option<u64>,
    pub end: Option<u64>,
    pub coverage: Vec<(u64, Option<Context>)>,
    pub instrs: Vec<String>,
    pub status: EmulationStatus,
    pub seen: AddrSet,
    pub mem_access: Vec<(u64, u64, usize, String)>,
}

/// The addresses of a coverage list.
pub open spec fn spec_coverage_rips(c: Seq<(u64, Option<Context>)>) -> Set<u64> {
    c.map_values(|p: (u64, Option<Context>)| p.0).to_set()
}

/// A trace is consistent: its seen-set is ordered and holds exactly
/// the addresses of its coverage points.
pub open spec fn spec_trace_wf(t: &Trace) -> bool {
    &&& t.seen.wf()
    &&& t.seen@ == spec_coverage_rips(t.coverage@)
}

proof fn lemma_coverage_rips_push(c: Seq<(u64, Option<Context>)>, rip: u64, ctx: Option<Context>)
    ensures
        spec_coverage_rips(c.push((rip, ctx))) == spec_coverage_rips(c).insert(rip),
{
    let f = |p: (u64, Option<Context>)| p.0;
    assert(c.push((rip, ctx)).map_values(f) =~= c.map_values(f).push(rip));
    assert forall|x: u64| spec_coverage_rips(c.push((rip, ctx))).contains(x) implies
        spec_coverage_rips(c).insert(rip).contains(x) by {
        let m = c.map_values(f).push(rip);
        let j = choose|j: int| 0 <= j < m.len() && m[j] == x;
        if j < c.len() {
            assert(c.map_values(f)[j] == x);
        }
    }
    assert forall|x: u64| spec_coverage_rips(c).insert(rip).contains(x) implies
        spec_coverage_rips(c.push((rip, ctx))).contains(x) by {
        let m = c.map_values(f).push(rip);
        if x == rip {
            assert(m[c.len() as int] == x);
        } else {
            let j = choose|j: int| 0 <= j < c.map_values(f).len() && c.map_values(f)[j] == x;
            assert(m[j] == x);
        }
    }
    assert(spec_coverage_rips(c.push((rip, ctx))) =~= spec_coverage_rips(c).insert(rip));
}

impl Trace {
    pub fn new() -> (r: Trace)
        ensures
            spec_trace_wf(&r),
            r.status == EmulationStatus::Success,
            r.coverage@ == Seq::<(u64, Option<Context>)>::empty(),
            r.seen@ == Set::<u64>::empty(),
            r.instrs@ == Seq::<String>::empty(),
            r.start is None && r.end is None,
    {
        let r = Trace {
            start: None,
            end: None,
            coverage: Vec::new(),
            instrs: Vec::new(),
            status: EmulationStatus::Success,
            seen: AddrSet::new(),
            mem_access: Vec::new(),
        };
        proof {
            assert(r.coverage@.map_values(|p: (u64, Option<Context>)| p.0)
                =~= Seq::<u64>::empty());
            assert(spec_coverage_rips(r.coverage@) =~= Set::<u64>::empty());
        }
        r
    }

    /// Records a coverage point: the address joins the seen-set and the
    /// coverage list together.
    pub fn record(&mut self, rip: u64, context: Option<Context>)
        requires
            spec_trace_wf(old(self)),
        ensures
            spec_trace_wf(final(self)),
            final(self).seen@ == old(self).seen@.insert(rip),
            final(self).coverage@ == old(self).coverage@.push((rip, context)),
            final(self).status == old(self).status,
            final(self).instrs@ == old(self).instrs@,
            final(self).start == old(self).start && final(self).end == old(self).end,
    {
        self.seen.insert(rip);
        self.coverage.push((rip, context));
        proof {
            lemma_coverage_rips_push(old(self).coverage@, rip, context);
        }
    }
}

/// The read-only ground truth of guest memory at the moment fuzzing
/// begins.  Implementations hand back the 4096-byte page containing a
/// guest-physical address, or nothing when they cannot provide it; the
/// tracer treats a page of any other length as a failed fetch.  An
/// implementation must be deterministic for a given address across a
/// session.
pub trait Snapshot {
    fn read_gpa(&self, gpa: u64) -> (r: Option<Vec<u8>>);
}

/// The host services around the partition: running the virtual
/// processor until its next exit, the host clock, and the instruction
/// decoder used to restore planted breakpoints and format trace lines.
///
/// The partition's own state is modelled and verified in this crate;
/// these operations are the ones only the host platform can perform.
/// None of their results is trusted beyond well-formedness of the
/// partition: the tracer checks everything else at run time.
pub trait Platform {
    /// Runs the virtual processor until the next exit.  The guest may
    /// read and write mapped memory and registers, which this model
    /// reaches only through the partition's public operations; those
    /// preserve its well-formedness, which is all this contract states.
    fn run_vcpu(&mut self, partition: &mut Partition) -> (r: ExitContext)
        requires
            old(partition).wf(),
        ensures
            final(partition).wf(),
            final(partition).regions_view() == old(partition).regions_view(),
    ;

    /// Milliseconds of host time from an arbitrary fixed origin.
    fn now_ms(&mut self) -> (r: u64);

    /// Length in bytes of the first instruction encoded in `bytes`, or
    /// nothing when the bytes do not decode.
    fn decode_instruction_length(&mut self, bytes: &Vec<u8>) -> (r: Option<usize>);

    /// A printable line for the instruction at `rip` encoded in
    /// `bytes`, or nothing when it cannot be formatted.
    fn format_instruction(&mut self, rip: u64, bytes: &Vec<u8>) -> (r: Option<String>);
}

} // verus!

verus! {

/// The driver of one run: installs a processor context, runs the
/// partition exit by exit, and restores dirty pages afterwards.
pub trait Tracer {
    /// The structural invariant of the tracer's state.
    spec fn tracer_wf(&self) -> bool;

    /// The virtual processor's register file.
    spec fn vcpu_regs(&self) -> PartitionContext;

    /// The guest-physical memory the virtual-memory operations read
    /// and write: page base to page bytes.
    spec fn gva_space(&self) -> Map<u64, Seq<u8>>;

    /// How many code pages runs have demand-paged so far.
    spec fn code_pages(&self) -> usize;

    /// How many data pages runs have demand-paged so far.
    spec fn data_pages(&self) -> usize;

    /// What installing a captured processor state guarantees; see
    /// `set_initial_context`.
    spec fn install_post(&self, pre: &Self, context: &ProcessorState) -> bool;

    /// What a completed snapshot restore guarantees; see
    /// `restore_snapshot`.
    spec fn restore_post(&self, pre: &Self, pages: usize) -> bool;

    /// Installs the captured processor state on the virtual processor.
    fn set_initial_context(&mut self, context: &ProcessorState) -> (r: Result<(), TraceError>)
        requires
            old(self).tracer_wf(),
        ensures
            final(self).tracer_wf(),
            r is Ok,
            final(self).install_post(old(self), context),
    ;

    /// Runs the partition until a terminal condition and returns the
    /// trace of the run.  Outside hit mode, the entry address is the
    /// run's first coverage point, with a captured register context
    /// exactly when the parameters ask for one.
    fn run(&mut self, params: &Params) -> (r: Result<Trace, TraceError>)
        requires
            old(self).tracer_wf(),
        ensures
            final(self).tracer_wf(),
            r is Ok,
            spec_trace_wf(&r.unwrap()),
            params.coverage_mode != CoverageMode::Hit ==> {
                let t = r.unwrap();
                &&& t.coverage@.len() >= 1
                &&& t.coverage@[0].0 == old(self).vcpu_regs().rip
                &&& ((t.coverage@[0].1 is Some) <==> params.save_context)
            },
    ;

    /// Writes the page cache's copy back over every dirty mapped page
    /// and clears its dirty bit; returns how many pages were restored.
    fn restore_snapshot(&mut self) -> (r: Result<usize, TraceError>)
        requires
            old(self).tracer_wf(),
        ensures
            final(self).tracer_wf(),
            r is Ok,
            final(self).restore_post(old(self), r.unwrap()),
    ;

    /// Reads guest virtual memory through the partition.
    fn read_gva(&mut self, cr3: u64, vaddr: u64, len: usize) -> (r: Result<Vec<u8>, TraceError>)
        requires
            old(self).tracer_wf(),
            vaddr + len <= u64::MAX,
        ensures
            final(self).tracer_wf(),
            final(self).gva_space() == old(self).gva_space(),
            final(self).vcpu_regs() == old(self).vcpu_regs(),
            ({
                let s = spec_read_gva(old(self).gva_space(), cr3, vaddr as int, len as int);
                match s {
                    Ok(bytes) => r is Ok && r.unwrap()@ == bytes && r.unwrap()@.len() == len,
                    Err(e) => r == Err::<Vec<u8>, TraceError>(TraceError::Memory(e)),
                }
            }),
    ;

    /// Writes guest virtual memory through the partition.
    fn write_gva(&mut self, cr3: u64, vaddr: u64, data: &Vec<u8>) -> (r: Result<(), TraceError>)
        requires
            old(self).tracer_wf(),
            vaddr + data@.len() <= u64::MAX,
        ensures
            final(self).tracer_wf(),
            final(self).vcpu_regs() == old(self).vcpu_regs(),
            ({
                let s = spec_write_gva(old(self).gva_space(), cr3, vaddr as int, data@);
                &&& final(self).gva_space() == s.0
                &&& (match s.1 {
                    Ok(_) => r is Ok,
                    Err(e) => r == Err::<(), TraceError>(TraceError::Memory(e)),
                })
            }),
    ;

    /// The virtual processor's current CR3.
    fn cr3(&mut self) -> (r: Result<u64, TraceError>)
        requires
            old(self).tracer_wf(),
        ensures
            final(self).tracer_wf(),
            r == Ok::<u64, TraceError>(old(self).vcpu_regs().cr3),
            final(self).vcpu_regs() == old(self).vcpu_regs(),
            final(self).gva_space() == old(self).gva_space(),
    ;

    /// How many code pages runs have demand-paged so far.
    fn get_code_pages(&mut self) -> (r: usize)
        requires
            old(self).tracer_wf(),
        ensures
            final(self).tracer_wf(),
            r == old(self).code_pages(),
            final(self).vcpu_regs() == old(self).vcpu_regs(),
            final(self).gva_space() == old(self).gva_space(),
    ;

    /// How many data pages runs have demand-paged so far.
    fn get_data_pages(&mut self) -> (r: usize)
        requires
            old(self).tracer_wf(),
        ensures
            final(self).tracer_wf(),
            r == old(self).data_pages(),
            final(self).vcpu_regs() == old(self).vcpu_regs(),
            final(self).gva_space() == old(self).gva_space(),
    ;

    /// Milliseconds of host time from an arbitrary fixed origin.
    fn now_ms(&mut self) -> (r: u64)
        requires
            old(self).tracer_wf(),
        ensures
            final(self).tracer_wf(),
            final(self).vcpu_regs() == old(self).vcpu_regs(),
            final(self).gva_space() == old(self).gva_space(),
    ;
}

/// The tracer over the modelled partition: owns the page cache, the
/// allocator, the partition, the snapshot source and the host platform.
pub struct WhvpTracer<S: Snapshot, P: Platform> {
    cache: GpaManager,
    allocator: Allocator,
    partition: Partition,
    snapshot: S,
    platform: P,
    code: usize,
    data: usize,
}

impl<S: Snapshot, P: Platform> WhvpTracer<S, P> {
    /// The page cache's contents.
    pub closed spec fn cache_view(&self) -> Map<u64, Seq<u8>> {
        self.cache@
    }

    /// The partition's mapped memory.
    pub closed spec fn partition_mem(&self) -> Map<u64, Seq<u8>> {
        self.partition.mem_view()
    }

    /// The partition's mapped regions.
    pub closed spec fn partition_regions(&self) -> Seq<MemoryRegion> {
        self.partition.regions_view()
    }

    /// The pages of the partition whose dirty bit is set.
    pub closed spec fn partition_dirty(&self) -> Set<u64> {
        self.partition.dirty_view()
    }

    /// The virtual processor's registers.
    pub closed spec fn partition_regs(&self) -> PartitionContext {
        self.partition.regs()
    }

    /// How many host buffers the allocator has handed out.
    pub closed spec fn allocations(&self) -> Seq<usize> {
        self.allocator.allocations()
    }

    /// The partition's own invariant.
    pub closed spec fn partition_wf(&self) -> bool {
        self.partition.wf()
    }

    /// The cache and the partition are well formed and every mapped
    /// region is a single page.
    pub open spec fn wf(&self) -> bool {
        &&& crate::mem::pages_wf(self.cache_view())
        &&& self.partition_wf()
        &&& (forall|i: int|
            0 <= i < self.partition_regions().len() ==> (#[trigger] self.partition_regions()[i]).size
                == 4096)
    }

    pub fn new(snapshot: S, platform: P) -> (r: WhvpTracer<S, P>)
        ensures
            r.wf(),
            r.cache_view() == Map::<u64, Seq<u8>>::empty(),
            r.partition_regions() == Seq::<MemoryRegion>::empty(),
            r.allocations() == Seq::<usize>::empty(),
            r.code_count() == 0,
            r.data_count() == 0,
    {
        WhvpTracer {
            cache: GpaManager::new(),
            allocator: Allocator::new(),
            partition: Partition::new(),
            snapshot,
            platform,
            code: 0,
            data: 0,
        }
    }
}

} // verus!

verus! {

/// `p` with a `0xCC` breakpoint at `addr`'s page offset, provided the
/// faulting virtual address lies in the same virtual page as `addr`.
pub open spec fn spec_stamp(p: Seq<u8>, addr: u64, gva: u64) -> Seq<u8> {
    if spec_page_base(addr) <= gva && gva < spec_page_base(addr) + 4096 {
        p.update(spec_page_offset(addr) as int, 0xcc)
    } else {
        p
    }
}

/// `p` stamped for every excluded address in order.
pub open spec fn spec_stamp_all(p: Seq<u8>, addrs: Seq<u64>, gva: u64) -> Seq<u8>
    decreases addrs.len(),
{
    if addrs.len() == 0 {
        p
    } else {
        spec_stamp_all(spec_stamp(p, addrs[0], gva), addrs.skip(1), gva)
    }
}

/// The page image the tracer maps into the partition for a faulting
/// access: in hit mode an executed page is replaced wholesale with
/// breakpoints; otherwise the pristine bytes get breakpoints on the
/// return address and on every excluded address that shares the page.
pub open spec fn spec_planted_page(
    p: Seq<u8>,
    mode: CoverageMode,
    return_address: u64,
    excluded: Seq<u64>,
    gva: u64,
    access: MemoryAccessType,
) -> Seq<u8> {
    if mode == CoverageMode::Hit && access == MemoryAccessType::Execute {
        Seq::new(4096, |i: int| 0xcc)
    } else {
        spec_stamp_all(spec_stamp(p, return_address, gva), excluded, gva)
    }
}

/// The excluded addresses of a parameter block, in order.
pub open spec fn spec_excluded(params: &Params) -> Seq<u64> {
    params.excluded_addresses@.map_values(|x: (String, u64)| x.1)
}

proof fn lemma_same_page_cond(a: u64, g: u64)
    ensures
        (spec_page_base(g) == spec_page_base(a)) <==> (spec_page_base(a) <= g && g
            < spec_page_base(a) + 4096),
{
    assert(((g & 0xffff_ffff_ffff_f000) == (a & 0xffff_ffff_ffff_f000)) <==> ((a
        & 0xffff_ffff_ffff_f000) <= g && g - (a & 0xffff_ffff_ffff_f000) < 4096)) by (bit_vector);
    lemma_page_offset_bound(a);
    lemma_page_offset_bound(g);
}

impl<S: Snapshot, P: Platform> WhvpTracer<S, P> {
    /// How many code pages runs have demand-paged.
    pub closed spec fn code_count(&self) -> usize {
        self.code
    }

    /// How many data pages runs have demand-paged.
    pub closed spec fn data_count(&self) -> usize {
        self.data
    }

    /// Handles a memory-access exit: fetches the containing page from
    /// the snapshot, keeps the pristine copy in the page cache, maps a
    /// freshly allocated page into the partition and writes the
    /// breakpoint-planted image into it.  Returns whether the run must
    /// stop (which happens only with status `Error`).
    fn handle_memory_access(
        &mut self,
        params: &Params,
        access: &MemoryAccessContext,
        trace: &mut Trace,
    ) -> (stop: bool)
        requires
            old(self).wf(),
            spec_trace_wf(old(trace)),
        ensures
            final(self).wf(),
            spec_trace_wf(final(trace)),
            final(trace).coverage@ == old(trace).coverage@,
            final(trace).seen@ == old(trace).seen@,
            final(trace).instrs@ == old(trace).instrs@,
            final(self).partition_regs() == old(self).partition_regs(),
            final(self).partition_dirty() == old(self).partition_dirty(),
            stop ==> final(trace).status == EmulationStatus::Error && final(self).partition_mem()
                == old(self).partition_mem() && final(self).partition_regions() == old(self).partition_regions() && ((final(self).cache_view() == old(self).cache_view()
                && final(self).allocations() == old(self).allocations() && final(self).code_count()
                == old(self).code_count() && final(self).data_count() == old(self).data_count())
                || (exists|p: Seq<u8>|
                {
                    &&& p.len() == 4096
                    &&& final(self).cache_view() == old(self).cache_view().insert(
                        spec_page_base(access.gpa),
                        p,
                    )
                    &&& final(self).allocations() == old(self).allocations().push(4096)
                })),
            !stop ==> final(trace).status == old(trace).status && (exists|p: Seq<u8>|
                {
                    &&& p.len() == 4096
                    &&& final(self).cache_view() == old(self).cache_view().insert(
                        spec_page_base(access.gpa),
                        p,
                    )
                    &&& final(self).allocations() == old(self).allocations().push(4096)
                    &&& final(self).partition_regions() == old(self).partition_regions().push(
                        MemoryRegion { base: spec_page_base(access.gpa), size: 4096 },
                    )
                    &&& final(self).partition_mem().contains_key(spec_page_base(access.gpa))
                    &&& final(self).partition_mem()[spec_page_base(access.gpa)]
                        == spec_planted_page(
                        p,
                        params.coverage_mode,
                        params.return_address,
                        spec_excluded(params),
                        access.gva,
                        access.access_type,
                    )
                }),
            !stop && access.access_type == MemoryAccessType::Execute ==> final(self).code_count()
                == (if old(self).code_count() < usize::MAX {
                old(self).code_count() + 1
            } else {
                old(self).code_count() as int
            }) && final(self).data_count() == old(self).data_count(),
            !stop && access.access_type != MemoryAccessType::Execute ==> final(self).data_count()
                == (if old(self).data_count() < usize::MAX {
                old(self).data_count() + 1
            } else {
                old(self).data_count() as int
            }) && final(self).code_count() == old(self).code_count(),
    {
        let gpa = access.gpa;
        let gva = access.gva;
        let (base, _) = crate::mem::page_off(gpa);
        let pristine = match self.snapshot.read_gpa(gpa) {
            Some(p) => p,
            None => {
                trace.status = EmulationStatus::Error;
                return true;
            },
        };
        if pristine.len() != 4096 {
            trace.status = EmulationStatus::Error;
            return true;
        }
        // keep the pristine copy for planting
        let mut planted: Vec<u8> = Vec::new();
        let mut i: usize = 0;
        while i < pristine.len()
            invariant
                i <= pristine@.len(),
                planted@ == pristine@.subrange(0, i as int),
            decreases pristine@.len() - i,
        {
            planted.push(pristine[i]);
            i = i + 1;
            proof {
                assert(planted@ =~= pristine@.subrange(0, i as int));
            }
        }
        proof {
            assert(planted@ =~= pristine@);
        }
        let ghost pristine_snap = pristine@;
        self.cache.add_page(base, pristine);
        match access.access_type {
            MemoryAccessType::Execute => {
                if self.code < usize::MAX {
                    self.code = self.code + 1;
                }
            },
            _ => {
                if self.data < usize::MAX {
                    self.data = self.data + 1;
                }
            },
        }
        let hit_exec = match (params.coverage_mode, access.access_type) {
            (CoverageMode::Hit, MemoryAccessType::Execute) => true,
            _ => false,
        };
        if hit_exec {
            // replace the whole page with breakpoints so every first
            // execution in it traps
            let mut j: usize = 0;
            while j < planted.len()
                invariant
                    j <= planted@.len(),
                    planted@.len() == 4096,
                    forall|k: int| 0 <= k < j ==> planted@[k] == 0xcc,
                    forall|k: int| j <= k < 4096 ==> planted@[k] == pristine_snap[k],
                decreases planted@.len() - j,
            {
                planted.set(j, 0xcc);
                j = j + 1;
            }
            proof {
                assert(planted@ =~= Seq::new(4096, |i: int| 0xcc));
            }
        } else {
            // plant the return address, then every excluded address
            // that shares the faulting page
            let (ret_base, ret_off) = crate::mem::page_off(params.return_address);
            let (gva_page, _) = crate::mem::page_off(gva);
            proof {
                lemma_page_offset_bound(params.return_address);
                lemma_same_page_cond(params.return_address, gva);
            }
            if gva_page == ret_base {
                planted.set(ret_off, 0xcc);
            }
            proof {
                assert(planted@ =~= spec_stamp(pristine_snap, params.return_address, gva));
            }
            let ghost stamped0 = planted@;
            proof {
                assert(spec_excluded(params).skip(0) =~= spec_excluded(params));
            }
            let mut e: usize = 0;
            while e < params.excluded_addresses.len()
                invariant
                    e <= spec_excluded(params).len(),
                    planted@.len() == 4096,
                    gva_page == spec_page_base(gva),
                    spec_stamp_all(stamped0, spec_excluded(params), gva) == spec_stamp_all(
                        planted@,
                        spec_excluded(params).skip(e as int),
                        gva,
                    ),
                decreases spec_excluded(params).len() - e,
            {
                let addr = params.excluded_addresses[e].1;
                proof {
                    assert(spec_excluded(params)[e as int] == addr);
                    assert(spec_excluded(params).skip(e as int)[0] == addr);
                }
                let (ex_base, ex_off) = crate::mem::page_off(addr);
                proof {
                    lemma_page_offset_bound(addr);
                    lemma_same_page_cond(addr, gva);
                }
                let ghost before = planted@;
                if gva_page == ex_base {
                    planted.set(ex_off, 0xcc);
                }
                e = e + 1;
                proof {
                    assert(planted@ =~= spec_stamp(before, addr, gva));
                    assert(spec_excluded(params).skip(e - 1).skip(1) =~= spec_excluded(
                        params,
                    ).skip(e as int));
                }
            }
            proof {
                assert(spec_excluded(params).skip(spec_excluded(params).len() as int)
                    =~= Seq::<u64>::empty());
                assert(planted@ == spec_stamp_all(stamped0, spec_excluded(params), gva));
            }
        }
        let buffer = self.allocator.allocate_physical_memory(0x1000);
        match self.partition.map_physical_memory(base, buffer) {
            Ok(_) => {},
            Err(_) => {
                trace.status = EmulationStatus::Error;
                proof {
                    assert(self.partition_regions() == old(self).partition_regions());
                    assert(self.wf());
                    lemma_page_offset_bound(gpa);
                    assert(base & 0xfff == 0 ==> (base & 0xffff_ffff_ffff_f000) == base)
                        by (bit_vector);
                    assert(spec_page_base(base) == base);
                    assert(spec_page_base(access.gpa) == base);
                    assert(self.cache_view() == old(self).cache_view().insert(
                        spec_page_base(access.gpa),
                        pristine_snap,
                    ));
                    assert(self.allocations() == old(self).allocations().push(4096));
                }
                return true;
            },
        }
        let ghost m1 = self.partition.mem_view();
        let ghost regions1 = self.partition.regions_view();
        proof {
            lemma_page_offset_bound(gpa);
            assert(regions1 == old(self).partition_regions().push(
                MemoryRegion { base, size: 4096 },
            ));
            assert(spec_covered(regions1, base, 4096)) by {
                assert(spec_region_covers(
                    regions1[regions1.len() - 1],
                    base,
                    4096,
                ));
            }
        }
        match self.partition.write_physical_memory(base, &planted) {
            Ok(_) => {},
            Err(_) => {
                proof {
                    assert(false);
                }
                trace.status = EmulationStatus::Error;
                return true;
            },
        }
        proof {
            crate::mem::lemma_offset_is_mod(base);
            assert(base % 4096 == 0);
            assert(base & 0xfff == 0 ==> (base & 0xffff_ffff_ffff_f000) == base) by (bit_vector);
            assert(spec_page_base(base) == base);
            assert(spec_page_base(access.gpa) == base);
            assert(m1.contains_key(base));
            assert(m1[base] == Seq::new(4096 as nat, |i: int| 0u8)) by {
                assert(m1[base] == buffer@.subrange(base - base, base - base + 4096));
                assert(buffer@.subrange(0, 4096) =~= buffer@);
            }
            assert(self.partition.mem_view() == crate::whvp::spec_write_phys(
                m1,
                base as int,
                planted@,
            ));
            assert(planted@.take(4096) =~= planted@);
            assert(planted@.skip(4096) =~= Seq::<u8>::empty());
            let up = m1.insert(base, GpaManager::spec_splice(m1[base], 0, planted@));
            assert(crate::whvp::spec_write_phys(up, base as int + 4096, planted@.skip(4096))
                == up);
            assert(self.partition.mem_view() == up);
            assert(self.partition.mem_view()[base] =~= planted@);
            assert(final(self).cache_view() == old(self).cache_view().insert(
                spec_page_base(access.gpa),
                pristine_snap,
            ));
            assert(final(self).allocations() == old(self).allocations().push(4096));
            assert(self.wf()) by {
                assert(self.partition.wf());
                assert forall|i2: int|
                    0 <= i2 < self.partition_regions().len() implies (#[trigger] self.partition_regions()[i2]).size
                    == 4096 by {
                    if i2 < self.partition_regions().len() - 1 {
                        assert(self.partition_regions()[i2]
                            == old(self).partition_regions()[i2]);
                    }
                }
            }
        }
        false
    }
}

} // verus!

verus! {

/// After a breakpoint trap, the partition holds the result of writing
/// back the first `n` pristine bytes fetched from the page cache at the
/// faulting address.
pub open spec fn spec_bp_restored(
    cache: Map<u64, Seq<u8>>,
    mem_pre: Map<u64, Seq<u8>>,
    mem_post: Map<u64, Seq<u8>>,
    cr3: u64,
    rip: u64,
    n: int,
) -> bool {
    let fetched = spec_read_gva(cache, cr3, rip as int, 16);
    &&& 1 <= n <= 16
    &&& fetched is Ok
    &&& mem_post == spec_write_gva(mem_pre, cr3, rip as int, fetched.unwrap().take(n)).0
}

impl<S: Snapshot, P: Platform> WhvpTracer<S, P> {
    /// Handles an exception exit.  The configured return address ends
    /// the run with its current status; an excluded address ends it
    /// with `ForbiddenAddress`; debug and breakpoint traps are coverage
    /// events; anything else ends the run with `UnHandledException`.
    /// After a breakpoint trap in hit mode, the faulting instruction's
    /// pristine bytes are copied from the page cache back into the
    /// partition so the next execution of the site makes progress.
    fn handle_exception(
        &mut self,
        params: &Params,
        vp: &VpContext,
        exc: &ExceptionContext,
        trace: &mut Trace,
    ) -> (stop: bool)
        requires
            old(self).wf(),
            spec_trace_wf(old(trace)),
        ensures
            final(self).wf(),
            spec_trace_wf(final(trace)),
            final(self).cache_view() == old(self).cache_view(),
            final(self).allocations() == old(self).allocations(),
            final(self).partition_regions() == old(self).partition_regions(),
            final(self).partition_dirty() == old(self).partition_dirty(),
            final(self).code_count() == old(self).code_count() && final(self).data_count() == old(self).data_count(),
            final(self).partition_regs() == (PartitionContext {
                interrupt_shadow: old(self).partition_regs().interrupt_shadow
                    && !vp.interrupt_shadow,
                ..old(self).partition_regs()
            }),
            vp.rip == params.return_address ==> stop && final(trace).status == old(trace).status
                && final(trace).coverage@ == old(trace).coverage@ && final(trace).seen@ == old(trace).seen@ && final(self).partition_mem() == old(self).partition_mem(),
            vp.rip != params.return_address && spec_excluded(params).contains(vp.rip) ==> stop
                && final(trace).status == EmulationStatus::ForbiddenAddress && final(trace).coverage@ == old(trace).coverage@ && final(trace).seen@ == old(trace).seen@ && final(self).partition_mem() == old(self).partition_mem(),
            vp.rip != params.return_address && !spec_excluded(params).contains(vp.rip)
                && exc.exception_type != EXCEPTION_DEBUG_TRAP_OR_FAULT && exc.exception_type
                != EXCEPTION_BREAKPOINT_TRAP ==> stop && final(trace).status
                == EmulationStatus::UnHandledException && final(trace).coverage@ == old(trace).coverage@ && final(trace).seen@ == old(trace).seen@ && final(self).partition_mem()
                == old(self).partition_mem(),
            vp.rip != params.return_address && !spec_excluded(params).contains(vp.rip) && (
            exc.exception_type == EXCEPTION_DEBUG_TRAP_OR_FAULT || exc.exception_type
                == EXCEPTION_BREAKPOINT_TRAP) ==> {
                &&& final(trace).seen@ == old(trace).seen@.insert(vp.rip)
                &&& final(trace).coverage@.len() == old(trace).coverage@.len() + 1
                &&& final(trace).coverage@.take(old(trace).coverage@.len() as int) == old(trace).coverage@
                &&& final(trace).coverage@[old(trace).coverage@.len() as int].0 == vp.rip
                &&& ((final(trace).coverage@[old(trace).coverage@.len() as int].1 is Some)
                    <==> params.save_context)
                &&& (!stop ==> final(trace).status == old(trace).status)
                &&& (stop ==> final(trace).status == EmulationStatus::Error)
                &&& (exc.exception_type == EXCEPTION_DEBUG_TRAP_OR_FAULT || params.coverage_mode
                    != CoverageMode::Hit ==> final(self).partition_mem() == old(self).partition_mem())
                &&& (!stop && exc.exception_type == EXCEPTION_BREAKPOINT_TRAP
                    && params.coverage_mode == CoverageMode::Hit ==> exists|n: int|
                    #[trigger] spec_bp_restored(
                        old(self).cache_view(),
                        old(self).partition_mem(),
                        final(self).partition_mem(),
                        old(self).partition_regs().cr3,
                        vp.rip,
                        n,
                    ))
            },
    {
        if vp.interrupt_shadow {
            let mut regs = self.partition.get_regs();
            regs.interrupt_shadow = false;
            self.partition.set_regs(&regs);
        }
        proof {
            assert(self.partition_regions() == old(self).partition_regions());
            assert(self.cache_view() == old(self).cache_view());
            assert(self.partition_mem() == old(self).partition_mem());
            assert(self.partition_dirty() == old(self).partition_dirty());
            assert(self.allocations() == old(self).allocations());
            assert(self.partition_regs() == (PartitionContext {
                interrupt_shadow: old(self).partition_regs().interrupt_shadow
                    && !vp.interrupt_shadow,
                ..old(self).partition_regs()
            }));
            assert(self.wf());
        }
        let rip = vp.rip;
        if rip == params.return_address {
            return true;
        }
        // an excluded address terminates the run as a crash
        let mut e: usize = 0;
        let mut excluded = false;
        while e < params.excluded_addresses.len()
            invariant
                e <= spec_excluded(params).len(),
                excluded ==> spec_excluded(params).contains(rip),
                !excluded ==> forall|j: int|
                    0 <= j < e ==> #[trigger] spec_excluded(params)[j] != rip,
            decreases spec_excluded(params).len() - e,
        {
            if params.excluded_addresses[e].1 == rip {
                proof {
                    assert(spec_excluded(params)[e as int] == rip);
                }
                excluded = true;
            }
            e = e + 1;
        }
        if excluded {
            trace.status = EmulationStatus::ForbiddenAddress;
            return true;
        }
        proof {
            if spec_excluded(params).contains(rip) {
                let j = choose|j: int|
                    0 <= j < spec_excluded(params).len() && spec_excluded(params)[j] == rip;
                assert(false);
            }
        }
        let is_debug = exc.exception_type == EXCEPTION_DEBUG_TRAP_OR_FAULT;
        let is_bp = exc.exception_type == EXCEPTION_BREAKPOINT_TRAP;
        if !is_debug && !is_bp {
            trace.status = EmulationStatus::UnHandledException;
            return true;
        }
        if params.save_context {
            let regs = self.partition.get_regs();
            trace.record(rip, Some(Context::from_partition(&regs)));
        } else {
            trace.record(rip, None);
        }
        proof {
            assert(trace.coverage@.take(old(trace).coverage@.len() as int) =~= old(trace).coverage@);
        }
        let hit_mode = match params.coverage_mode {
            CoverageMode::Hit => true,
            _ => false,
        };
        let ghost mut restored_n: int = 0;
        if is_bp && hit_mode {
            // in hit mode, restore the pristine bytes of the faulting
            // instruction so the next execution of this site makes
            // progress
            if (u64::MAX - rip) < 16 {
                // the very top of the address space cannot be restored
                trace.status = EmulationStatus::Error;
                return true;
            }
            let cr3 = self.partition.get_regs().cr3;
            let buffer = match self.cache.read_gva(cr3, rip, 16) {
                Ok(b) => b,
                Err(_) => {
                    trace.status = EmulationStatus::Error;
                    return true;
                },
            };
            let length = match self.platform.decode_instruction_length(&buffer) {
                Some(l) => l,
                None => {
                    trace.status = EmulationStatus::Error;
                    return true;
                },
            };
            if length == 0 || length > 16 {
                // a decoded length no instruction can have is a decoder
                // failure
                trace.status = EmulationStatus::Error;
                return true;
            }
            match self.restore_instruction_bytes(cr3, rip, length) {
                Ok(_) => {},
                Err(_) => {
                    trace.status = EmulationStatus::Error;
                    proof {
                        assert(self.wf());
                    }
                    return true;
                },
            }
            proof {
                assert(self.wf());
                restored_n = length as int;
                assert(spec_bp_restored(
                    old(self).cache_view(),
                    old(self).partition_mem(),
                    self.partition_mem(),
                    old(self).partition_regs().cr3,
                    vp.rip,
                    restored_n,
                ));
            }
        }
        if params.save_instructions {
            let line = match self.platform.format_instruction(rip, &exc.instruction_bytes) {
                Some(l) => l,
                None => {
                    trace.status = EmulationStatus::Error;
                    return true;
                },
            };
            trace.instrs.push(line);
        }
        proof {
            if is_bp && hit_mode {
                assert(spec_bp_restored(
                    old(self).cache_view(),
                    old(self).partition_mem(),
                    self.partition_mem(),
                    old(self).partition_regs().cr3,
                    vp.rip,
                    restored_n,
                ));
            }
        }
        false
    }
}

} // verus!

verus! {

/// The register bundle after installing a captured processor state:
/// general-purpose and control registers are taken from the state, CS
/// is configured for long mode at privilege level zero, the other
/// segments are flat at privilege level zero, and FS/GS take their
/// bases from the state.
pub open spec fn spec_installed(regs: PartitionContext, ctx: ProcessorState) -> PartitionContext {
    PartitionContext {
        rax: ctx.rax,
        rbx: ctx.rbx,
        rcx: ctx.rcx,
        rdx: ctx.rdx,
        rsi: ctx.rsi,
        rdi: ctx.rdi,
        rsp: ctx.rsp,
        rbp: ctx.rbp,
        r8: ctx.r8,
        r9: ctx.r9,
        r10: ctx.r10,
        r11: ctx.r11,
        r12: ctx.r12,
        r13: ctx.r13,
        r14: ctx.r14,
        r15: ctx.r15,
        rflags: ctx.rflags,
        rip: ctx.rip,
        cr0: ctx.cr0,
        cr3: ctx.cr3,
        cr4: ctx.cr4,
        cr8: ctx.cr8,
        efer: ctx.efer,
        star: ctx.star,
        lstar: ctx.lstar,
        cstar: ctx.cstar,
        kernel_gs_base: ctx.kernel_gs_base,
        sysenter_cs: ctx.sysenter_cs,
        sysenter_eip: ctx.sysenter_eip,
        sysenter_esp: ctx.sysenter_esp,
        gdtr_base: ctx.gdtr,
        gdtr_limit: ctx.gdtl,
        idtr_base: ctx.idtr,
        idtr_limit: ctx.idtl,
        cs: SegmentRegister {
            base: 0,
            limit: 0,
            selector: ctx.cs.selector,
            long: true,
            dpl: 0,
        },
        ss: SegmentRegister {
            base: 0,
            limit: 0,
            selector: ctx.ss.selector,
            long: false,
            dpl: 0,
        },
        ds: SegmentRegister {
            base: 0,
            limit: 0,
            selector: ctx.ds.selector,
            long: false,
            dpl: 0,
        },
        es: SegmentRegister {
            base: 0,
            limit: 0,
            selector: ctx.es.selector,
            long: false,
            dpl: 0,
        },
        fs: SegmentRegister {
            base: ctx.fs_base,
            limit: 0,
            selector: ctx.fs.selector,
            long: false,
            dpl: 0,
        },
        gs: SegmentRegister {
            base: ctx.gs_base,
            limit: 0,
            selector: ctx.gs.selector,
            long: false,
            dpl: 0,
        },
        ..regs
    }
}

/// Count of mapped regions whose first page is both dirty and held in
/// the cache: the pages one snapshot restore writes back.
pub open spec fn spec_restored_count(
    regions: Seq<MemoryRegion>,
    dirty: Set<u64>,
    cache: Map<u64, Seq<u8>>,
) -> int
    decreases regions.len(),
{
    if regions.len() == 0 {
        0
    } else {
        (if dirty.contains(regions[0].base) && cache.contains_key(regions[0].base) {
            1int
        } else {
            0int
        }) + spec_restored_count(regions.skip(1), dirty, cache)
    }
}

impl<S: Snapshot, P: Platform> WhvpTracer<S, P> {
    /// Sets the trap flag in RFLAGS on the virtual processor, so that
    /// every retired instruction of the next run raises a debug
    /// exception; nothing else changes.
    fn set_trap_flag(&mut self)
        requires
            old(self).wf(),
        ensures
            final(self).wf(),
            final(self).partition_regs() == (PartitionContext {
                rflags: old(self).partition_regs().rflags | 0x100,
                ..old(self).partition_regs()
            }),
            final(self).cache_view() == old(self).cache_view(),
            final(self).partition_mem() == old(self).partition_mem(),
            final(self).partition_regions() == old(self).partition_regions(),
            final(self).partition_dirty() == old(self).partition_dirty(),
            final(self).allocations() == old(self).allocations(),
            final(self).code_count() == old(self).code_count(),
            final(self).data_count() == old(self).data_count(),
    {
        let mut regs = self.partition.get_regs();
        regs.rflags = regs.rflags | 0x100;
        self.partition.set_regs(&regs);
        proof {
            assert(self.partition_regions() == old(self).partition_regions());
            assert(self.wf());
        }
    }

    /// Writes the first `length` pristine bytes at `rip` from the page
    /// cache back into the partition, walking the page tables; when the
    /// instruction starts at the last byte of a page, up to fifteen of
    /// the bytes land in the following page, whose frame the walk
    /// resolves.  Sixteen bytes are fetched from the cache and the
    /// decoded length selects the prefix that is written back.
    pub fn restore_instruction_bytes(&mut self, cr3: u64, rip: u64, length: usize) -> (r: Result<
        (),
        TraceError,
    >)
        requires
            old(self).wf(),
            1 <= length <= 16,
            rip + 16 <= u64::MAX,
        ensures
            final(self).wf(),
            final(self).cache_view() == old(self).cache_view(),
            final(self).partition_regions() == old(self).partition_regions(),
            final(self).partition_dirty() == old(self).partition_dirty(),
            final(self).partition_regs() == old(self).partition_regs(),
            final(self).allocations() == old(self).allocations(),
            final(self).code_count() == old(self).code_count(),
            final(self).data_count() == old(self).data_count(),
            ({
                let fetched = spec_read_gva(old(self).cache_view(), cr3, rip as int, 16);
                match fetched {
                    Err(e) => r == Err::<(), TraceError>(TraceError::Memory(e)) && final(self).partition_mem() == old(self).partition_mem(),
                    Ok(bytes) => {
                        let s = spec_write_gva(
                            old(self).partition_mem(),
                            cr3,
                            rip as int,
                            bytes.take(length as int),
                        );
                        &&& final(self).partition_mem() == s.0
                        &&& (match s.1 {
                            Ok(_) => r is Ok,
                            Err(e) => r == Err::<(), TraceError>(TraceError::Memory(e)),
                        })
                    },
                }
            }),
    {
        let buffer = match self.cache.read_gva(cr3, rip, 16) {
            Ok(b) => b,
            Err(e) => {
                return Err(TraceError::Memory(e));
            },
        };
        proof {
            crate::mem::lemma_read_gva_len(old(self).cache_view(), cr3, rip as int, 16);
        }
        let mut prefix: Vec<u8> = Vec::new();
        let mut i: usize = 0;
        while i < length
            invariant
                i <= length,
                length <= buffer@.len(),
                buffer@.len() <= usize::MAX,
                prefix@ == buffer@.subrange(0, i as int),
            decreases length - i,
        {
            prefix.push(buffer[i]);
            i = i + 1;
            proof {
                assert(prefix@ =~= buffer@.subrange(0, i as int));
            }
        }
        proof {
            assert(prefix@ =~= buffer@.take(length as int));
        }
        let r = match self.partition.write_gva(cr3, rip, &prefix) {
            Ok(_) => Ok(()),
            Err(e) => Err(TraceError::Memory(e)),
        };
        proof {
            assert(self.partition_regions() == old(self).partition_regions());
            assert(self.wf());
        }
        r
    }
}

impl<S: Snapshot, P: Platform> Tracer for WhvpTracer<S, P> {
    open spec fn tracer_wf(&self) -> bool {
        self.wf()
    }

    open spec fn vcpu_regs(&self) -> PartitionContext {
        self.partition_regs()
    }

    open spec fn gva_space(&self) -> Map<u64, Seq<u8>> {
        self.partition_mem()
    }

    open spec fn code_pages(&self) -> usize {
        self.code_count()
    }

    open spec fn data_pages(&self) -> usize {
        self.data_count()
    }

    /// After an install: the registers hold the captured state, mapped
    /// bit for bit with CS in long mode at privilege level zero and
    /// flat data segments; everything else of the tracer is untouched.
    open spec fn install_post(&self, pre: &Self, context: &ProcessorState) -> bool {
        &&& self.partition_regs() == spec_installed(pre.partition_regs(), *context)
        &&& self.cache_view() == pre.cache_view()
        &&& self.partition_mem() == pre.partition_mem()
        &&& self.partition_regions() == pre.partition_regions()
        &&& self.partition_dirty() == pre.partition_dirty()
        &&& self.allocations() == pre.allocations()
        &&& self.code_count() == pre.code_count()
        &&& self.data_count() == pre.data_count()
    }

    /// After a restore: the registers, regions and cache are untouched;
    /// every mapped page that was dirty and cached holds the cache's
    /// bytes and is clean; every other mapped page is untouched; no
    /// mapped page is left both dirty and cached; and when no page was
    /// both dirty and cached to begin with, nothing was written at all
    /// and the count is zero.
    open spec fn restore_post(&self, pre: &Self, pages: usize) -> bool {
        let regions = pre.partition_regions();
        &&& self.partition_regions() == regions
        &&& self.cache_view() == pre.cache_view()
        &&& self.partition_regs() == pre.partition_regs()
        &&& self.allocations() == pre.allocations()
        &&& (forall|j: int|
            0 <= j < regions.len() ==> {
                let b = (#[trigger] regions[j]).base;
                if pre.partition_dirty().contains(b) && pre.cache_view().contains_key(b) {
                    &&& self.partition_mem().contains_key(b)
                    &&& self.partition_mem()[b] == pre.cache_view()[b]
                    &&& !self.partition_dirty().contains(b)
                } else {
                    &&& self.partition_mem().contains_key(b) == pre.partition_mem().contains_key(
                        b,
                    )
                    &&& (pre.partition_mem().contains_key(b) ==> self.partition_mem()[b]
                        == pre.partition_mem()[b])
                    &&& self.partition_dirty().contains(b) == pre.partition_dirty().contains(b)
                }
            })
        &&& (forall|j: int|
            0 <= j < regions.len() ==> !(self.partition_dirty().contains(
                (#[trigger] regions[j]).base,
            ) && self.cache_view().contains_key(regions[j].base)))
        &&& pages == spec_restored_count(regions, pre.partition_dirty(), pre.cache_view())
        &&& ((forall|j: int|
            0 <= j < regions.len() ==> !(pre.partition_dirty().contains(
                (#[trigger] regions[j]).base,
            ) && pre.cache_view().contains_key(regions[j].base))) ==> pages == 0
            && self.partition_mem() == pre.partition_mem() && self.partition_dirty()
            == pre.partition_dirty())
    }

    fn set_initial_context(&mut self, context: &ProcessorState) -> (r: Result<(), TraceError>) {
        let mut regs = self.partition.get_regs();
        regs.rax = context.rax;
        regs.rbx = context.rbx;
        regs.rcx = context.rcx;
        regs.rdx = context.rdx;
        regs.rsi = context.rsi;
        regs.rdi = context.rdi;
        regs.rsp = context.rsp;
        regs.rbp = context.rbp;
        regs.r8 = context.r8;
        regs.r9 = context.r9;
        regs.r10 = context.r10;
        regs.r11 = context.r11;
        regs.r12 = context.r12;
        regs.r13 = context.r13;
        regs.r14 = context.r14;
        regs.r15 = context.r15;
        regs.rflags = context.rflags;
        regs.rip = context.rip;
        regs.cr0 = context.cr0;
        regs.cr3 = context.cr3;
        regs.cr4 = context.cr4;
        regs.cr8 = context.cr8;
        regs.efer = context.efer;
        regs.star = context.star;
        regs.lstar = context.lstar;
        regs.cstar = context.cstar;
        regs.kernel_gs_base = context.kernel_gs_base;
        regs.sysenter_cs = context.sysenter_cs;
        regs.sysenter_eip = context.sysenter_eip;
        regs.sysenter_esp = context.sysenter_esp;
        regs.gdtr_base = context.gdtr;
        regs.gdtr_limit = context.gdtl;
        regs.idtr_base = context.idtr;
        regs.idtr_limit = context.idtl;
        regs.cs = SegmentRegister {
            base: 0,
            limit: 0,
            selector: context.cs.selector,
            long: true,
            dpl: 0,
        };
        regs.ss = SegmentRegister {
            base: 0,
            limit: 0,
            selector: context.ss.selector,
            long: false,
            dpl: 0,
        };
        regs.ds = SegmentRegister {
            base: 0,
            limit: 0,
            selector: context.ds.selector,
            long: false,
            dpl: 0,
        };
        regs.es = SegmentRegister {
            base: 0,
            limit: 0,
            selector: context.es.selector,
            long: false,
            dpl: 0,
        };
        regs.fs = SegmentRegister {
            base: context.fs_base,
            limit: 0,
            selector: context.fs.selector,
            long: false,
            dpl: 0,
        };
        regs.gs = SegmentRegister {
            base: context.gs_base,
            limit: 0,
            selector: context.gs.selector,
            long: false,
            dpl: 0,
        };
        self.partition.set_regs(&regs);
        proof {
            assert(self.partition_regs() == spec_installed(
                old(self).partition_regs(),
                *context,
            ));
            assert(self.partition_regions() == old(self).partition_regions());
            assert(self.wf());
        }
        Ok(())
    }

    fn run(&mut self, params: &Params) -> (r: Result<Trace, TraceError>) {
        let mut trace = Trace::new();
        let regs = self.partition.get_regs();
        let entry_rip = regs.rip;
        let entry_cr3 = regs.cr3;
        if params.coverage_mode == CoverageMode::Instrs {
            self.set_trap_flag();
        }
        proof {
            assert(self.partition_regions() == old(self).partition_regions());
            assert(self.wf());
        }
        if params.coverage_mode != CoverageMode::Hit {
            if params.save_context {
                trace.record(entry_rip, Some(Context::from_partition(&regs)));
            } else {
                trace.record(entry_rip, None);
            }
        }
        if params.save_instructions {
            if entry_rip <= u64::MAX - 16 {
                match self.cache.read_gva(entry_cr3, entry_rip, 16) {
                    Ok(buffer) => {
                        match self.platform.format_instruction(entry_rip, &buffer) {
                            Some(line) => trace.instrs.push(line),
                            None => trace.instrs.push("???".to_owned()),
                        }
                    },
                    Err(_) => {
                        trace.instrs.push("???".to_owned());
                    },
                }
            } else {
                trace.instrs.push("???".to_owned());
            }
        }
        let start_ms = self.platform.now_ms();
        trace.start = Some(start_ms);
        let effective_limit: u64 = if params.limit == 0 {
            u64::MAX
        } else {
            params.limit
        };
        let mut exits: u64 = 0;
        let mut cancel: u64 = 0;
        let mut stopped = false;
        while !stopped && exits < effective_limit
            invariant
                self.wf(),
                spec_trace_wf(&trace),
                stopped || cancel <= 10,
                exits <= effective_limit,
                entry_rip == old(self).vcpu_regs().rip,
                params.coverage_mode != CoverageMode::Hit ==> trace.coverage@.len() >= 1
                    && trace.coverage@[0].0 == entry_rip && ((trace.coverage@[0].1 is Some)
                    <==> params.save_context),
            decreases effective_limit - exits,
        {
            let ghost regions_pre = self.partition_regions();
            let ghost cache_pre = self.cache_view();
            let exit = self.platform.run_vcpu(&mut self.partition);
            proof {
                assert(self.partition_regions() == regions_pre);
                assert(self.cache_view() == cache_pre);
                assert(self.partition_wf());
                assert(crate::mem::pages_wf(self.cache_view()));
                assert forall|i2: int|
                    0 <= i2 < self.partition_regions().len() implies (#[trigger] self.partition_regions()[i2]).size
                    == 4096 by {
                    assert(self.partition_regions()[i2] == regions_pre[i2]);
                }
                assert(self.wf());
            }
            exits = exits + 1;
            let now = self.platform.now_ms();
            if params.max_duration_ms != 0 && now >= start_ms && now - start_ms
                > params.max_duration_ms {
                trace.status = EmulationStatus::Timeout;
                stopped = true;
            } else {
                match exit {
                    ExitContext::MemoryAccess(_vp, access) => {
                        cancel = 0;
                        if self.handle_memory_access(params, &access, &mut trace) {
                            stopped = true;
                        }
                    },
                    ExitContext::Exception(vp, exc) => {
                        cancel = 0;
                        if self.handle_exception(params, &vp, &exc, &mut trace) {
                            stopped = true;
                        }
                    },
                    ExitContext::Canceled => {
                        cancel = cancel + 1;
                        if cancel > 10 {
                            // the kicker has cancelled ten runs in a row
                            // without progress: the guest is stuck
                            trace.status = EmulationStatus::Timeout;
                            stopped = true;
                        }
                    },
                    ExitContext::Other => {
                        trace.status = EmulationStatus::Error;
                        stopped = true;
                    },
                }
            }
        }
        if !stopped && params.limit != 0 {
            trace.status = EmulationStatus::LimitExceeded;
        }
        let ghost regions_after = self.partition_regions();
        let end_ms = self.platform.now_ms();
        trace.end = Some(end_ms);
        proof {
            assert(self.partition_regions() == regions_after);
            assert(self.partition_wf());
            assert(crate::mem::pages_wf(self.cache_view()));
            assert forall|i2: int|
                0 <= i2 < self.partition_regions().len() implies (#[trigger] self.partition_regions()[i2]).size
                == 4096 by {
                assert(self.partition_regions()[i2] == regions_after[i2]);
            }
            assert(self.wf());
            assert(spec_trace_wf(&trace));
        }
        Ok(trace)
    }

    fn restore_snapshot(&mut self) -> (r: Result<usize, TraceError>) {
        let n = self.partition.regions_len();
        let mut pages: usize = 0;
        let mut i: usize = 0;
        let ghost regions = self.partition_regions();
        let ghost dirty0 = self.partition_dirty();
        let ghost mem0 = self.partition_mem();
        proof {
            assert(regions.skip(0) =~= regions);
        }
        while i < n
            invariant
                self.wf(),
                n == regions.len(),
                i <= n,
                regions == self.partition_regions(),
                regions == old(self).partition_regions(),
                dirty0 == old(self).partition_dirty(),
                mem0 == old(self).partition_mem(),
                self.cache_view() == old(self).cache_view(),
                self.partition_regs() == old(self).partition_regs(),
                self.allocations() == old(self).allocations(),
                self.code_count() == old(self).code_count(),
                self.data_count() == old(self).data_count(),
                pages <= i,
                pages + spec_restored_count(regions.skip(i as int), dirty0, self.cache_view())
                    == spec_restored_count(regions, dirty0, self.cache_view()),
                (forall|j: int|
                    0 <= j < regions.len() ==> !(dirty0.contains((#[trigger] regions[j]).base)
                        && self.cache_view().contains_key(regions[j].base))) ==> pages == 0
                    && self.partition_mem() == mem0 && self.partition_dirty() == dirty0,
                forall|j: int|
                    0 <= j < regions.len() ==> {
                        let b = (#[trigger] regions[j]).base;
                        if j < i && dirty0.contains(b) && self.cache_view().contains_key(b) {
                            &&& self.partition_mem().contains_key(b)
                            &&& self.partition_mem()[b] == self.cache_view()[b]
                            &&& !self.partition_dirty().contains(b)
                        } else {
                            &&& self.partition_mem().contains_key(b) == mem0.contains_key(b)
                            &&& (mem0.contains_key(b) ==> self.partition_mem()[b] == mem0[b])
                            &&& self.partition_dirty().contains(b) == dirty0.contains(b)
                        }
                    },
            decreases n - i,
        {
            let region = self.partition.region_at(i);
            let addr = region.base;
            let ghost mem_top = self.partition_mem();
            let ghost dirty_top = self.partition_dirty();
            proof {
                assert(crate::whvp::spec_region_wf(regions[i as int]));
                assert(regions[i as int].size == 4096);
                assert(spec_covered(regions, addr, 4096)) by {
                    assert(spec_region_covers(regions[i as int], addr, 4096));
                }
                assert(self.partition_dirty().contains(addr) == dirty0.contains(addr));
                assert(regions.skip(i as int)[0] == regions[i as int]);
                assert forall|j: int|
                    0 <= j < regions.len() && j != i implies (#[trigger] regions[j]).base + 4096
                        <= addr || addr + 4096 <= regions[j].base by {
                    assert(regions[j].base + regions[j].size <= regions[i as int].base
                        || regions[i as int].base + regions[i as int].size <= regions[j].base);
                    assert(crate::whvp::spec_region_wf(regions[j]));
                    assert(regions[j].size == 4096);
                }
            }
            let bitmap = match self.partition.query_gpa_range(addr, 0x1000) {
                Ok(b) => b,
                Err(_) => {
                    proof {
                        assert(false);
                    }
                    return Err(TraceError::Partition(PartitionError::NoMappedRegion));
                },
            };
            proof {
                assert((bitmap >> 0u64) & 1 == bitmap & 1) by (bit_vector);
                assert(((bitmap >> (0int as u64)) & 1 == 1) <==> self.partition_dirty().contains(
                    (addr + 0int * 4096) as u64,
                ));
                assert((addr + 0int * 4096) as u64 == addr);
                assert((bitmap & 1 == 1) <==> dirty0.contains(addr));
            }
            let mut restored_here = false;
            if bitmap & 1 == 1 {
                if self.cache.has_page(addr) {
                    proof {
                        lemma_page_offset_bound(addr);
                        assert(addr & 0xfff == 0 ==> (addr & 0xffff_ffff_ffff_f000) == addr)
                            by (bit_vector);
                        assert(spec_page_base(addr) == addr);
                    }
                    let page = match self.cache.read_gpa(addr, 4096) {
                        Ok(p) => p,
                        Err(_) => {
                            proof {
                                assert(false);
                            }
                            return Err(TraceError::Memory(VirtMemError::MissingPage(addr)));
                        },
                    };
                    match self.partition.write_physical_memory(addr, &page) {
                        Ok(_) => {},
                        Err(_) => {
                            proof {
                                assert(false);
                            }
                            return Err(TraceError::Partition(PartitionError::NoMappedRegion));
                        },
                    }
                    proof {
                        crate::mem::lemma_offset_is_mod(addr);
                        assert(page@.take(4096) =~= page@);
                        assert(page@.skip(4096) =~= Seq::<u8>::empty());
                        let up = mem_top.insert(
                            addr,
                            GpaManager::spec_splice(mem_top[addr], 0, page@),
                        );
                        assert(crate::whvp::spec_write_phys(
                            up,
                            addr as int + 4096,
                            page@.skip(4096),
                        ) == up);
                        assert(self.partition_mem() == up);
                        assert(self.partition_mem()[addr] =~= self.cache_view()[addr]);
                    }
                    match self.partition.flush_gpa_range(addr, 0x1000) {
                        Ok(_) => {},
                        Err(_) => {
                            proof {
                                assert(false);
                            }
                            return Err(TraceError::Partition(PartitionError::NoMappedRegion));
                        },
                    }
                    pages = pages + 1;
                    restored_here = true;
                }
            }
            proof {
                lemma_page_offset_bound(addr);
                if restored_here {
                    assert(self.partition_mem() == mem_top.insert(
                        addr,
                        self.cache_view()[addr],
                    ));
                    assert(!self.partition_dirty().contains(addr));
                    assert(forall|k: u64| #[trigger]
                        self.partition_dirty().contains(k) <==> dirty_top.contains(k) && !(k
                            & 0xfff == 0 && addr <= k && k < addr + 4096));
                } else {
                    assert(self.partition_mem() == mem_top);
                    assert(self.partition_dirty() == dirty_top);
                }
            }
            let ghost taken = dirty0.contains(addr) && self.cache_view().contains_key(addr);
            i = i + 1;
            proof {
                assert(restored_here == taken);
                assert(regions.skip(i - 1).skip(1) =~= regions.skip(i as int));
                assert(spec_restored_count(regions.skip(i - 1), dirty0, self.cache_view()) == (
                if dirty0.contains(regions[i - 1].base) && self.cache_view().contains_key(
                    regions[i - 1].base,
                ) {
                    1int
                } else {
                    0int
                }) + spec_restored_count(regions.skip(i as int), dirty0, self.cache_view()));
                assert forall|j: int| 0 <= j < regions.len() implies {
                    let b = (#[trigger] regions[j]).base;
                    if j < i && dirty0.contains(b) && self.cache_view().contains_key(b) {
                        &&& self.partition_mem().contains_key(b)
                        &&& self.partition_mem()[b] == self.cache_view()[b]
                        &&& !self.partition_dirty().contains(b)
                    } else {
                        &&& self.partition_mem().contains_key(b) == mem0.contains_key(b)
                        &&& (mem0.contains_key(b) ==> self.partition_mem()[b] == mem0[b])
                        &&& self.partition_dirty().contains(b) == dirty0.contains(b)
                    }
                } by {
                    let b = regions[j].base;
                    if j == i - 1 {
                        if taken {
                            assert(self.partition_mem().contains_key(b));
                            assert(self.partition_mem()[b] == self.cache_view()[b]);
                            assert(!self.partition_dirty().contains(b));
                        }
                    } else {
                        assert(b + 4096 <= addr || addr + 4096 <= b);
                        assert(b != addr);
                        assert(!(addr <= b && b < addr + 4096));
                        if restored_here {
                            assert(self.partition_mem().contains_key(b) == mem_top.contains_key(
                                b,
                            ));
                            assert(mem_top.contains_key(b) ==> self.partition_mem()[b]
                                == mem_top[b]);
                            assert(self.partition_dirty().contains(b) == dirty_top.contains(b));
                        }
                    }
                }
            }
        }
        proof {
            assert(regions.skip(n as int) =~= Seq::<MemoryRegion>::empty());
            assert(spec_restored_count(regions.skip(n as int), dirty0, self.cache_view()) == 0);
        }
        Ok(pages)
    }

    fn read_gva(&mut self, cr3: u64, vaddr: u64, len: usize) -> (r: Result<Vec<u8>, TraceError>) {
        match self.partition.read_gva(cr3, vaddr, len) {
            Ok(v) => {
                proof {
                    crate::mem::lemma_read_gva_len(
                        self.partition_mem(),
                        cr3,
                        vaddr as int,
                        len as int,
                    );
                }
                Ok(v)
            },
            Err(e) => Err(TraceError::Memory(e)),
        }
    }

    fn write_gva(&mut self, cr3: u64, vaddr: u64, data: &Vec<u8>) -> (r: Result<(), TraceError>) {
        let r = match self.partition.write_gva(cr3, vaddr, data) {
            Ok(_) => Ok(()),
            Err(e) => Err(TraceError::Memory(e)),
        };
        proof {
            assert(self.partition_regions() == old(self).partition_regions());
            assert(self.wf());
        }
        r
    }

    fn cr3(&mut self) -> (r: Result<u64, TraceError>) {
        Ok(self.partition.get_regs().cr3)
    }

    fn get_code_pages(&mut self) -> (r: usize) {
        self.code
    }

    fn get_data_pages(&mut self) -> (r: usize) {
        self.data
    }

    fn now_ms(&mut self) -> (r: u64) {
        let r = self.platform.now_ms();
        proof {
            assert(self.partition_regions() == old(self).partition_regions());
            assert(self.partition_wf());
            assert(crate::mem::pages_wf(self.cache_view()));
            assert(self.wf());
        }
        r
    }
}

} // verus!
