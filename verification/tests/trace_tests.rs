// End-to-end tests of the tracer over a small interpreted guest.
//
// The guest honours a handful of one-byte opcodes: 0x90 steps forward,
// 0xCC raises a breakpoint trap, 0xA4 loads a byte from virtual
// address 0x2000, 0xA2 stores a byte to virtual address 0x3000.  A
// fetch from an unmapped page takes a memory-access exit, exactly as a
// virtual processor would.

use std::collections::HashMap;
use whvp::mem::VirtMemError;
use whvp::trace::{
    CoverageMode, EmulationStatus, Params, Platform, ProcessorState, Segment, Snapshot, Tracer,
    WhvpTracer,
};
use whvp::whvp::{
    ExceptionContext, ExitContext, MemoryAccessContext, MemoryAccessType, Partition, VpContext,
};

struct MapSnapshot {
    pages: HashMap<u64, Vec<u8>>,
}

impl Snapshot for MapSnapshot {
    fn read_gpa(&self, gpa: u64) -> Option<Vec<u8>> {
        self.pages.get(&(gpa & !0xfff)).cloned()
    }
}

struct TestPlatform {
    clock: u64,
    tick: u64,
    always_cancel: bool,
}

impl TestPlatform {
    fn new() -> TestPlatform {
        TestPlatform { clock: 0, tick: 1, always_cancel: false }
    }
}

fn memory_exit(gpa: u64, gva: u64, access: MemoryAccessType) -> ExitContext {
    ExitContext::MemoryAccess(
        VpContext { rip: 0, interrupt_shadow: false },
        MemoryAccessContext { gpa, gva, access_type: access },
    )
}

impl Platform for TestPlatform {
    fn run_vcpu(&mut self, p: &mut Partition) -> ExitContext {
        if self.always_cancel {
            return ExitContext::Canceled;
        }
        let mut steps = 0u64;
        loop {
            steps += 1;
            if steps > 100_000 {
                return ExitContext::Other;
            }
            let regs = p.get_regs();
            let rip = regs.rip;
            let gpa = match p.translate_virtual_address(rip) {
                Ok(g) => g,
                Err(VirtMemError::MissingPage(base)) => {
                    // a page-table page is missing: the walk reads it
                    return memory_exit(base, base, MemoryAccessType::Read);
                }
                Err(_) => return ExitContext::Other,
            };
            let byte = match p.read_physical_memory(gpa, 1) {
                Ok(v) => v[0],
                Err(_) => {
                    return memory_exit(gpa, rip, MemoryAccessType::Execute);
                }
            };
            match byte {
                0xcc => {
                    return ExitContext::Exception(
                        VpContext { rip, interrupt_shadow: false },
                        ExceptionContext { exception_type: 3, instruction_bytes: vec![0xcc] },
                    );
                }
                0x90 => {
                    let mut r = regs;
                    r.rip = rip + 1;
                    p.set_regs(&r);
                }
                0xa4 => {
                    // load a byte from virtual address 0x2000
                    let g = match p.translate_virtual_address(0x2000) {
                        Ok(g) => g,
                        Err(VirtMemError::MissingPage(base)) => {
                            return memory_exit(base, base, MemoryAccessType::Read);
                        }
                        Err(_) => return ExitContext::Other,
                    };
                    if p.read_physical_memory(g, 1).is_err() {
                        return memory_exit(g, 0x2000, MemoryAccessType::Read);
                    }
                    let mut r = regs;
                    r.rip = rip + 1;
                    p.set_regs(&r);
                }
                0xa2 => {
                    // store a byte to virtual address 0x3000
                    let g = match p.translate_virtual_address(0x3000) {
                        Ok(g) => g,
                        Err(VirtMemError::MissingPage(base)) => {
                            return memory_exit(base, base, MemoryAccessType::Write);
                        }
                        Err(_) => return ExitContext::Other,
                    };
                    if p.guest_write_physical_memory(g, &vec![0x42]).is_err() {
                        return memory_exit(g, 0x3000, MemoryAccessType::Write);
                    }
                    let mut r = regs;
                    r.rip = rip + 1;
                    p.set_regs(&r);
                }
                0xf4 => {
                    // a general-protection-style fault
                    return ExitContext::Exception(
                        VpContext { rip, interrupt_shadow: false },
                        ExceptionContext { exception_type: 13, instruction_bytes: vec![0xf4] },
                    );
                }
                _ => return ExitContext::Other,
            }
        }
    }

    fn now_ms(&mut self) -> u64 {
        self.clock += self.tick;
        self.clock
    }

    fn decode_instruction_length(&mut self, bytes: &Vec<u8>) -> Option<usize> {
        match bytes.first() {
            None => None,
            Some(0xeb) => Some(2),
            Some(0x0f) => Some(15),
            Some(_) => Some(1),
        }
    }

    fn format_instruction(&mut self, rip: u64, _bytes: &Vec<u8>) -> Option<String> {
        Some(format!("{:#018x}", rip))
    }
}

fn put_u64(page: &mut Vec<u8>, off: usize, v: u64) {
    let bytes = v.to_le_bytes();
    for i in 0..8 {
        page[off + i] = bytes[i];
    }
}

// A snapshot that identity-maps the first 2 MiB, with the given code
// bytes installed at guest-virtual 0x1000 over 0x90 filler.
fn guest_snapshot(code: &[u8]) -> MapSnapshot {
    let mut pages = HashMap::new();
    let mut pml4 = vec![0u8; 4096];
    put_u64(&mut pml4, 0, 0x10_1000 | 3);
    pages.insert(0x10_0000, pml4);
    let mut pdpt = vec![0u8; 4096];
    put_u64(&mut pdpt, 0, 0x10_2000 | 3);
    pages.insert(0x10_1000, pdpt);
    let mut pd = vec![0u8; 4096];
    put_u64(&mut pd, 0, 0x10_3000 | 3);
    pages.insert(0x10_2000, pd);
    let mut pt = vec![0u8; 4096];
    for i in 0..512u64 {
        put_u64(&mut pt, (i * 8) as usize, (i * 0x1000) | 3);
    }
    pages.insert(0x10_3000, pt);
    let mut code_page = vec![0x90u8; 4096];
    for (i, &b) in code.iter().enumerate() {
        code_page[i] = b;
    }
    pages.insert(0x1000, code_page);
    pages.insert(0x2000, vec![0x90u8; 4096]);
    pages.insert(0x3000, vec![0u8; 4096]);
    MapSnapshot { pages }
}

fn initial_state() -> ProcessorState {
    let seg = Segment { selector: 0x10, base: 0, limit: 0, flags: 0 };
    ProcessorState {
        rax: 0,
        rbx: 0,
        rcx: 0,
        rdx: 0,
        rsi: 0,
        rdi: 0,
        rsp: 0,
        rbp: 0,
        r8: 0,
        r9: 0,
        r10: 0,
        r11: 0,
        r12: 0,
        r13: 0,
        r14: 0,
        r15: 0,
        rflags: 2,
        rip: 0x1000,
        cr0: 0x8000_0001,
        cr3: 0x10_0000,
        cr4: 0x20,
        cr8: 0,
        efer: 0x500,
        gdtr: 0,
        gdtl: 0,
        idtr: 0,
        idtl: 0,
        cs: seg,
        ss: seg,
        ds: seg,
        es: seg,
        fs: seg,
        gs: seg,
        fs_base: 0,
        gs_base: 0,
        kernel_gs_base: 0,
        sysenter_cs: 0,
        sysenter_esp: 0,
        sysenter_eip: 0,
        star: 0,
        lstar: 0,
        cstar: 0,
    }
}

fn trace_params(return_address: u64, mode: CoverageMode) -> Params {
    Params {
        limit: 0,
        max_duration_ms: 0,
        return_address,
        excluded_addresses: Vec::new(),
        save_context: false,
        coverage_mode: mode,
        save_instructions: false,
    }
}

fn seen_of(trace: &whvp::trace::Trace) -> Vec<u64> {
    let mut out = Vec::new();
    for i in 0..trace.seen.len() {
        out.push(trace.seen.get(i));
    }
    out
}

#[test]
fn warm_up_returns_at_entry() {
    // entry address doubles as return address: the very first executed
    // byte is a planted breakpoint
    let snapshot = guest_snapshot(&[0x90]);
    let mut tracer = WhvpTracer::new(snapshot, TestPlatform::new());
    tracer.set_initial_context(&initial_state()).unwrap();
    let trace = tracer.run(&trace_params(0x1000, CoverageMode::NoCoverage)).unwrap();
    assert_eq!(trace.status, EmulationStatus::Success);
    assert_eq!(seen_of(&trace), vec![0x1000]);
    // the first exits demand-page four table pages and the code page
    assert_eq!(tracer.get_code_pages(), 1);
    assert_eq!(tracer.get_data_pages(), 4);
}

#[test]
fn hit_coverage_records_every_instruction() {
    let snapshot = guest_snapshot(&[0x90, 0x90, 0xc3]);
    let mut tracer = WhvpTracer::new(snapshot, TestPlatform::new());
    tracer.set_initial_context(&initial_state()).unwrap();
    let trace = tracer.run(&trace_params(0x1002, CoverageMode::Hit)).unwrap();
    assert_eq!(trace.status, EmulationStatus::Success);
    // the return address itself terminates the run before being
    // recorded as a coverage point
    assert_eq!(seen_of(&trace), vec![0x1000, 0x1001]);
}

#[test]
fn forbidden_address_stops_the_run() {
    let snapshot = guest_snapshot(&[0x90; 4]);
    let mut tracer = WhvpTracer::new(snapshot, TestPlatform::new());
    tracer.set_initial_context(&initial_state()).unwrap();
    let mut params = trace_params(0x20_0000, CoverageMode::NoCoverage);
    params.excluded_addresses.push((String::from("bad"), 0x1100));
    let trace = tracer.run(&params).unwrap();
    assert_eq!(trace.status, EmulationStatus::ForbiddenAddress);
}

#[test]
fn repeated_cancels_time_out() {
    let snapshot = guest_snapshot(&[0x90]);
    let mut platform = TestPlatform::new();
    platform.always_cancel = true;
    let mut tracer = WhvpTracer::new(snapshot, platform);
    tracer.set_initial_context(&initial_state()).unwrap();
    let trace = tracer.run(&trace_params(0x1000, CoverageMode::NoCoverage)).unwrap();
    assert_eq!(trace.status, EmulationStatus::Timeout);
}

#[test]
fn max_duration_times_out() {
    let snapshot = guest_snapshot(&[0x90]);
    let mut platform = TestPlatform::new();
    platform.always_cancel = true;
    platform.tick = 1000;
    let mut tracer = WhvpTracer::new(snapshot, platform);
    tracer.set_initial_context(&initial_state()).unwrap();
    let mut params = trace_params(0x1000, CoverageMode::NoCoverage);
    params.max_duration_ms = 1500;
    let trace = tracer.run(&params).unwrap();
    assert_eq!(trace.status, EmulationStatus::Timeout);
}

#[test]
fn exit_limit_is_enforced() {
    let snapshot = guest_snapshot(&[0x90]);
    let mut platform = TestPlatform::new();
    platform.always_cancel = true;
    let mut tracer = WhvpTracer::new(snapshot, platform);
    tracer.set_initial_context(&initial_state()).unwrap();
    let mut params = trace_params(0x1000, CoverageMode::NoCoverage);
    params.limit = 3;
    let trace = tracer.run(&params).unwrap();
    assert_eq!(trace.status, EmulationStatus::LimitExceeded);
}

#[test]
fn breakpoint_restore_crosses_the_page_boundary() {
    // a 15-byte instruction starts at the last byte of the code page;
    // restoring it after the trap writes 14 bytes into the next page
    // through the walker
    let mut code = vec![0x90u8; 4096];
    code[0xfff] = 0x0f;
    let snapshot = guest_snapshot(&code);
    let mut tracer = WhvpTracer::new(snapshot, TestPlatform::new());
    // first, a plain run inside the next page so its pristine bytes
    // enter the cache
    let mut state = initial_state();
    state.rip = 0x2000;
    tracer.set_initial_context(&state).unwrap();
    let warm = tracer.run(&trace_params(0x2005, CoverageMode::NoCoverage)).unwrap();
    assert_eq!(warm.status, EmulationStatus::Success);
    // now trap on the planted breakpoint at the page's last byte; the
    // exit budget stops the run right after the restore
    state.rip = 0x1fff;
    tracer.set_initial_context(&state).unwrap();
    let mut params = trace_params(0x20_0000, CoverageMode::Hit);
    params.limit = 2;
    let trace = tracer.run(&params).unwrap();
    assert_eq!(trace.status, EmulationStatus::LimitExceeded);
    assert_eq!(seen_of(&trace), vec![0x1fff]);
    // the pristine bytes are back: the opcode at 0x1fff and fourteen
    // filler bytes beyond the page boundary
    assert_eq!(tracer.read_gva(0x10_0000, 0x1fff, 1).unwrap(), vec![0x0f]);
    assert_eq!(tracer.read_gva(0x10_0000, 0x2000, 14).unwrap(), vec![0x90; 14]);
}

#[test]
fn dirty_pages_restore_from_the_cache() {
    // the guest stores one byte to 0x3000; a restore rewinds it
    let snapshot = guest_snapshot(&[0xa2, 0x90]);
    let mut tracer = WhvpTracer::new(snapshot, TestPlatform::new());
    tracer.set_initial_context(&initial_state()).unwrap();
    let trace = tracer.run(&trace_params(0x1002, CoverageMode::NoCoverage)).unwrap();
    assert_eq!(trace.status, EmulationStatus::Success);
    assert_eq!(tracer.read_gva(0x10_0000, 0x3000, 1).unwrap(), vec![0x42]);
    let restored = tracer.restore_snapshot().unwrap();
    assert_eq!(restored, 1);
    assert_eq!(tracer.read_gva(0x10_0000, 0x3000, 1).unwrap(), vec![0x00]);
    // a second restore with no intervening run writes nothing
    assert_eq!(tracer.restore_snapshot().unwrap(), 0);
}

#[test]
fn snapshot_failure_ends_the_run_with_error() {
    let mut snapshot = guest_snapshot(&[0x90]);
    snapshot.pages.remove(&0x10_3000);
    let mut tracer = WhvpTracer::new(snapshot, TestPlatform::new());
    tracer.set_initial_context(&initial_state()).unwrap();
    let trace = tracer.run(&trace_params(0x1000, CoverageMode::NoCoverage)).unwrap();
    assert_eq!(trace.status, EmulationStatus::Error);
}

#[test]
fn instructions_are_formatted_when_asked() {
    let snapshot = guest_snapshot(&[0x90, 0x90, 0xc3]);
    let mut tracer = WhvpTracer::new(snapshot, TestPlatform::new());
    tracer.set_initial_context(&initial_state()).unwrap();
    let mut params = trace_params(0x1002, CoverageMode::Hit);
    params.save_instructions = true;
    let trace = tracer.run(&params).unwrap();
    assert_eq!(trace.status, EmulationStatus::Success);
    // the entry line cannot be read from an empty cache; the two
    // recorded breakpoint traps each contribute a formatted line, and
    // the trap on the return address stops the run before formatting
    assert_eq!(trace.instrs.len(), 3);
    assert_eq!(trace.instrs[0], "???");
    assert_eq!(trace.instrs[1], format!("{:#018x}", 0x1000u64));
}

#[test]
fn contexts_are_captured_when_asked() {
    let snapshot = guest_snapshot(&[0x90, 0x90, 0xc3]);
    let mut tracer = WhvpTracer::new(snapshot, TestPlatform::new());
    tracer.set_initial_context(&initial_state()).unwrap();
    let mut params = trace_params(0x1002, CoverageMode::Hit);
    params.save_context = true;
    let trace = tracer.run(&params).unwrap();
    assert_eq!(trace.coverage.len(), 2);
    for (rip, ctx) in trace.coverage.iter() {
        let ctx = ctx.as_ref().expect("context expected at every coverage point");
        assert_eq!(ctx.rip, *rip);
    }
}

#[test]
fn other_exceptions_end_the_run() {
    // a fault vector that is neither a debug trap nor a breakpoint
    let snapshot = guest_snapshot(&[0xf4]);
    let mut tracer = WhvpTracer::new(snapshot, TestPlatform::new());
    tracer.set_initial_context(&initial_state()).unwrap();
    let trace = tracer.run(&trace_params(0x20_0000, CoverageMode::NoCoverage)).unwrap();
    assert_eq!(trace.status, EmulationStatus::UnHandledException);
}

#[test]
fn coverage_mode_names() {
    assert_eq!(CoverageMode::from_str("no"), Ok(CoverageMode::NoCoverage));
    assert_eq!(CoverageMode::from_str("instrs"), Ok(CoverageMode::Instrs));
    assert_eq!(CoverageMode::from_str("hit"), Ok(CoverageMode::Hit));
    assert!(CoverageMode::from_str("everything").is_err());
}

#[test]
fn status_names() {
    assert_eq!(EmulationStatus::Success.as_str(), "Success");
    assert_eq!(EmulationStatus::ForbiddenAddress.as_str(), "ForbiddenAddress");
    assert_eq!(EmulationStatus::UnHandledException.as_str(), "UnhandledException");
}

#[test]
fn single_step_mode_sets_the_trap_flag() {
    // in single-step mode the entry context is recorded and the trap
    // flag is or-ed into RFLAGS before the first run
    let snapshot = guest_snapshot(&[0x90]);
    let mut tracer = WhvpTracer::new(snapshot, TestPlatform::new());
    tracer.set_initial_context(&initial_state()).unwrap();
    let trace = tracer.run(&trace_params(0x1000, CoverageMode::Instrs)).unwrap();
    assert_eq!(trace.status, EmulationStatus::Success);
    assert_eq!(seen_of(&trace), vec![0x1000]);
}
