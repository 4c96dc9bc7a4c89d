// Tests of the corpus, the statistics, the mutation strategy and the
// full fuzzing session over a small interpreted guest.
//
// The guest honours one-byte opcodes: 0x90 steps forward, 0xCC raises
// a breakpoint trap, 0xA5 loads the byte at virtual address 0x2000 and
// jumps to 0x1100 when it equals 0x42.

use std::collections::HashMap;
use std::sync::mpsc;
use whvp::fuzz::{
    calculate_hash, Corpus, CrashParams, Fuzzer, Params, PendingFile, RandomStrategy, Stats,
    Strategy,
};
use whvp::mem::VirtMemError;
use whvp::trace::{
    CoverageMode, EmulationStatus, Platform, ProcessorState, Segment, Snapshot, Trace, Tracer,
    WhvpTracer,
};
use whvp::whvp::{
    ExceptionContext, ExitContext, MemoryAccessContext, MemoryAccessType, Partition, VpContext,
};

struct MapSnapshot {
    pages: HashMap<u64, Vec<u8>>,
}

impl Snapshot for MapSnapshot {
    fn read_gpa(&self, gpa: u64) -> Option<Vec<u8>> {
        self.pages.get(&(gpa & !0xfff)).cloned()
    }
}

struct TestPlatform {
    clock: u64,
}

fn memory_exit(gpa: u64, gva: u64, access: MemoryAccessType) -> ExitContext {
    ExitContext::MemoryAccess(
        VpContext { rip: 0, interrupt_shadow: false },
        MemoryAccessContext { gpa, gva, access_type: access },
    )
}

impl Platform for TestPlatform {
    fn run_vcpu(&mut self, p: &mut Partition) -> ExitContext {
        let mut steps = 0u64;
        loop {
            steps += 1;
            if steps > 100_000 {
                return ExitContext::Other;
            }
            let regs = p.get_regs();
            let rip = regs.rip;
            let gpa = match p.translate_virtual_address(rip) {
                Ok(g) => g,
                Err(VirtMemError::MissingPage(base)) => {
                    return memory_exit(base, base, MemoryAccessType::Read);
                }
                Err(_) => return ExitContext::Other,
            };
            let byte = match p.read_physical_memory(gpa, 1) {
                Ok(v) => v[0],
                Err(_) => {
                    return memory_exit(gpa, rip, MemoryAccessType::Execute);
                }
            };
            match byte {
                0xcc => {
                    return ExitContext::Exception(
                        VpContext { rip, interrupt_shadow: false },
                        ExceptionContext { exception_type: 3, instruction_bytes: vec![0xcc] },
                    );
                }
                0x90 => {
                    let mut r = regs;
                    r.rip = rip + 1;
                    p.set_regs(&r);
                }
                0xa5 => {
                    // conditional jump on the first input byte
                    let g = match p.translate_virtual_address(0x2000) {
                        Ok(g) => g,
                        Err(VirtMemError::MissingPage(base)) => {
                            return memory_exit(base, base, MemoryAccessType::Read);
                        }
                        Err(_) => return ExitContext::Other,
                    };
                    let value = match p.read_physical_memory(g, 1) {
                        Ok(v) => v[0],
                        Err(_) => {
                            return memory_exit(g, 0x2000, MemoryAccessType::Read);
                        }
                    };
                    let mut r = regs;
                    r.rip = if value == 0x42 { 0x1100 } else { rip + 1 };
                    p.set_regs(&r);
                }
                _ => return ExitContext::Other,
            }
        }
    }

    fn now_ms(&mut self) -> u64 {
        self.clock += 1;
        self.clock
    }

    fn decode_instruction_length(&mut self, bytes: &Vec<u8>) -> Option<usize> {
        match bytes.first() {
            None => None,
            Some(_) => Some(1),
        }
    }

    fn format_instruction(&mut self, rip: u64, _bytes: &Vec<u8>) -> Option<String> {
        Some(format!("{:#x}", rip))
    }
}

fn put_u64(page: &mut Vec<u8>, off: usize, v: u64) {
    let bytes = v.to_le_bytes();
    for i in 0..8 {
        page[off + i] = bytes[i];
    }
}

fn guest_snapshot(code: &[u8]) -> MapSnapshot {
    let mut pages = HashMap::new();
    let mut pml4 = vec![0u8; 4096];
    put_u64(&mut pml4, 0, 0x10_1000 | 3);
    pages.insert(0x10_0000, pml4);
    let mut pdpt = vec![0u8; 4096];
    put_u64(&mut pdpt, 0, 0x10_2000 | 3);
    pages.insert(0x10_1000, pdpt);
    let mut pd = vec![0u8; 4096];
    put_u64(&mut pd, 0, 0x10_3000 | 3);
    pages.insert(0x10_2000, pd);
    let mut pt = vec![0u8; 4096];
    for i in 0..512u64 {
        put_u64(&mut pt, (i * 8) as usize, (i * 0x1000) | 3);
    }
    pages.insert(0x10_3000, pt);
    let mut code_page = vec![0x90u8; 4096];
    for (i, &b) in code.iter().enumerate() {
        code_page[i] = b;
    }
    pages.insert(0x1000, code_page);
    pages.insert(0x2000, vec![0x90u8; 4096]);
    MapSnapshot { pages }
}

fn initial_state() -> ProcessorState {
    let seg = Segment { selector: 0x10, base: 0, limit: 0, flags: 0 };
    ProcessorState {
        rax: 0,
        rbx: 0,
        rcx: 0,
        rdx: 0,
        rsi: 0,
        rdi: 0,
        rsp: 0,
        rbp: 0,
        r8: 0,
        r9: 0,
        r10: 0,
        r11: 0,
        r12: 0,
        r13: 0,
        r14: 0,
        r15: 0,
        rflags: 2,
        rip: 0x1000,
        cr0: 0x8000_0001,
        cr3: 0x10_0000,
        cr4: 0x20,
        cr8: 0,
        efer: 0x500,
        gdtr: 0,
        gdtl: 0,
        idtr: 0,
        idtl: 0,
        cs: seg,
        ss: seg,
        ds: seg,
        es: seg,
        fs: seg,
        gs: seg,
        fs_base: 0,
        gs_base: 0,
        kernel_gs_base: 0,
        sysenter_cs: 0,
        sysenter_esp: 0,
        sysenter_eip: 0,
        star: 0,
        lstar: 0,
        cstar: 0,
    }
}

fn trace_params(return_address: u64) -> whvp::trace::Params {
    whvp::trace::Params {
        limit: 0,
        max_duration_ms: 0,
        return_address,
        excluded_addresses: Vec::new(),
        save_context: false,
        coverage_mode: CoverageMode::NoCoverage,
        save_instructions: false,
    }
}

// Keeps the picked input unchanged, so input-driven scenarios stay
// deterministic; everything else is the default strategy.
struct IdentityStrategy {
    inner: RandomStrategy,
}

impl Strategy for IdentityStrategy {
    fn mutate_input(&mut self, input: &Vec<u8>) -> Vec<u8> {
        input.clone()
    }

    fn get_next_input(&mut self, corpus: &mut Corpus) -> Option<Vec<u8>> {
        self.inner.get_next_input(corpus)
    }

    fn apply(
        &mut self,
        params: &Params,
        data: &Vec<u8>,
        trace: &Trace,
        corpus: &mut Corpus,
    ) -> Result<usize, whvp::fuzz::FuzzError> {
        self.inner.apply(params, data, trace, corpus)
    }
}

#[test]
fn hash_is_stable_within_a_session() {
    let a = calculate_hash(&vec![1, 2, 3]);
    let b = calculate_hash(&vec![1, 2, 3]);
    let c = calculate_hash(&vec![1, 2, 4]);
    assert_eq!(a, b);
    assert_ne!(a, c);
}

#[test]
fn stats_display_line_and_reset() {
    let mut stats = Stats::new(1000, 50);
    stats.iterations = 2000;
    stats.total_iterations = 2000;
    stats.coverage = 7;
    stats.total_coverage = 9;
    let line = stats.display(1100);
    assert_eq!(
        line,
        "2000 executions, 2000 exec/s, coverage 9, new 7, code 0 page(s), data 0 page(s), corpus 0, crashes 0"
    );
    assert_eq!(stats.iterations, 0);
    assert_eq!(stats.coverage, 0);
    assert_eq!(stats.start, 1100);
    assert_eq!(stats.total_iterations, 2000);
}

#[test]
fn stats_update_display_waits_for_the_interval() {
    let mut stats = Stats::new(1000, 0);
    assert!(stats.update_display(500).is_none());
    assert!(stats.update_display(1000).is_none());
    assert!(stats.update_display(1001).is_some());
}

#[test]
fn corpus_load_pushes_every_file_once() {
    let mut corpus = Corpus::new(String::from("work"));
    corpus.worklist.push(vec![0xff]);
    let loaded = corpus.load(vec![vec![1], vec![2], vec![3]]);
    assert_eq!(loaded, 3);
    assert_eq!(corpus.worklist.len(), 4);
    assert_eq!(corpus.worklist[0], vec![0xff]);
    assert_eq!(corpus.worklist[1], vec![1]);
    assert_eq!(corpus.worklist[2], vec![2]);
    assert_eq!(corpus.worklist[3], vec![3]);
}

#[test]
fn corpus_add_keeps_one_input_per_score() {
    let mut corpus = Corpus::new(String::from("work"));
    corpus.add(3, &vec![1]);
    corpus.add(5, &vec![2]);
    corpus.add(3, &vec![9]);
    assert_eq!(corpus.queue.len(), 2);
    let three: Vec<&(usize, Vec<u8>)> = corpus.queue.iter().filter(|e| e.0 == 3).collect();
    assert_eq!(three.len(), 1);
    assert_eq!(three[0].1, vec![9]);
    // every admission records a corpus file to persist
    assert_eq!(corpus.pending_files.len(), 3);
    match &corpus.pending_files[0] {
        PendingFile::CorpusEntry { hash, data } => {
            assert_eq!(*hash, calculate_hash(&vec![1]));
            assert_eq!(data, &vec![1]);
        }
        _ => panic!("expected a corpus entry"),
    }
}

#[test]
fn next_input_pops_worklist_then_refills_from_queue() {
    let mut corpus = Corpus::new(String::from("work"));
    assert!(corpus.get_next_input().is_none());
    corpus.add(1, &vec![0xaa]);
    corpus.add(2, &vec![0xbb]);
    corpus.worklist.push(vec![0xcc]);
    assert_eq!(corpus.get_next_input().unwrap(), vec![0xcc]);
    // the worklist is refilled from the queue in insertion order and
    // popped from the back
    assert_eq!(corpus.get_next_input().unwrap(), vec![0xbb]);
    assert_eq!(corpus.get_next_input().unwrap(), vec![0xaa]);
}

#[test]
fn mutation_flips_exactly_one_byte() {
    let mut strategy = RandomStrategy::new();
    let input = vec![0u8; 32];
    let out = strategy.mutate_input(&input);
    assert_eq!(out.len(), 32);
    let diffs = out.iter().zip(input.iter()).filter(|(a, b)| a != b).count();
    assert_eq!(diffs, 1);
    assert_eq!(strategy.mutate_input(&Vec::new()), Vec::<u8>::new());
}

#[test]
fn apply_counts_new_addresses_and_admits() {
    let mut strategy = RandomStrategy::new();
    let mut corpus = Corpus::new(String::from("work"));
    corpus.coverage.insert(1);
    corpus.coverage.insert(2);
    let mut trace = Trace::new();
    trace.record(2, None);
    trace.record(3, None);
    trace.record(4, None);
    let params = Params {
        max_iterations: 0,
        max_duration_ms: 0,
        input: 0x2000,
        input_size: 16,
        stop_on_crash: false,
        display_delay_ms: 1000,
    };
    let new = strategy.apply(&params, &vec![7, 7], &trace, &mut corpus).unwrap();
    assert_eq!(new, 2);
    assert_eq!(corpus.coverage.len(), 4);
    assert_eq!(corpus.queue.len(), 1);
    assert_eq!(corpus.queue[0].0, 2);
    assert_eq!(corpus.queue[0].1, vec![7, 7]);
    // nothing new on a second identical trace: no admission
    let again = strategy.apply(&params, &vec![8], &trace, &mut corpus).unwrap();
    assert_eq!(again, 0);
    assert_eq!(corpus.queue.len(), 1);
}

#[test]
fn apply_records_crash_files() {
    let mut strategy = RandomStrategy::new();
    let mut corpus = Corpus::new(String::from("work"));
    let mut trace = Trace::new();
    trace.status = EmulationStatus::ForbiddenAddress;
    let params = Params {
        max_iterations: 0,
        max_duration_ms: 0,
        input: 0x2000,
        input_size: 8,
        stop_on_crash: true,
        display_delay_ms: 1000,
    };
    let crashing = vec![0x42u8; 8];
    strategy.apply(&params, &crashing, &trace, &mut corpus).unwrap();
    let n = corpus.pending_files.len();
    assert!(n >= 2);
    match &corpus.pending_files[n - 2] {
        PendingFile::CrashInput { hash, data } => {
            assert_eq!(*hash, calculate_hash(&crashing));
            assert_eq!(data, &crashing);
        }
        _ => panic!("expected the crash input"),
    }
    match &corpus.pending_files[n - 1] {
        PendingFile::CrashSidecar { hash, params: p } => {
            assert_eq!(*hash, calculate_hash(&crashing));
            assert_eq!(*p, CrashParams { input: 0x2000, input_size: 8 });
        }
        _ => panic!("expected the crash sidecar"),
    }
}

#[test]
fn session_requires_a_clean_warm_up() {
    // the warm-up cannot reach the return address: the session refuses
    // to start
    let snapshot = guest_snapshot(&[0x90, 0xcc]);
    let mut tracer = WhvpTracer::new(snapshot, TestPlatform { clock: 0 });
    let (_tx, rx) = mpsc::channel();
    let mut fuzzer = Fuzzer::new(String::from("work"), rx);
    let mut strategy = RandomStrategy::new();
    let params = Params {
        max_iterations: 1,
        max_duration_ms: 0,
        input: 0x2000,
        input_size: 16,
        stop_on_crash: false,
        display_delay_ms: 1000,
    };
    let mut bad_params = trace_params(0x20_0000);
    bad_params.excluded_addresses.push((String::from("bad"), 0x1001));
    let r = fuzzer.run(
        &mut strategy,
        &params,
        &mut tracer,
        &initial_state(),
        &bad_params,
        Vec::new(),
    );
    match r {
        Err(e) => assert_eq!(e, whvp::fuzz::FuzzError::FirstRunFailed),
        Ok(_) => panic!("the session must refuse a failing warm-up"),
    }
}

#[test]
fn session_warm_up_and_one_iteration() {
    // warm-up succeeds, seeds the corpus with the input read from guest
    // memory, and an uneventful iteration leaves the corpus unchanged
    let snapshot = guest_snapshot(&[0xa5, 0x90]);
    let tracer_platform = TestPlatform { clock: 0 };
    let mut tracer = WhvpTracer::new(snapshot, tracer_platform);
    let (_tx, rx) = mpsc::channel();
    let mut fuzzer = Fuzzer::new(String::from("work"), rx);
    let mut strategy = RandomStrategy::new();
    let params = Params {
        max_iterations: 1,
        max_duration_ms: 0,
        input: 0x2000,
        input_size: 16,
        stop_on_crash: false,
        display_delay_ms: 1000,
    };
    let stats = fuzzer
        .run(
            &mut strategy,
            &params,
            &mut tracer,
            &initial_state(),
            &trace_params(0x1002),
            Vec::new(),
        )
        .unwrap();
    assert_eq!(stats.crashes, 0);
    assert_eq!(stats.total_iterations, 2);
    // exactly one admitted input: the warm-up seed
    assert_eq!(fuzzer.corpus.queue.len(), 1);
    assert_eq!(fuzzer.corpus.queue[0].0, 1);
    assert_eq!(fuzzer.corpus.queue[0].1, vec![0x90; 16]);
    assert_eq!(stats.total_coverage, 1);
}

#[test]
fn session_crash_stops_and_persists() {
    // a seed dropped through the watcher channel reaches the worklist,
    // is used in the next iteration, steers the guest into the
    // forbidden address, and the session stops with the crash recorded
    let snapshot = guest_snapshot(&[0xa5, 0x90, 0x90, 0x90]);
    let tracer_platform = TestPlatform { clock: 0 };
    let mut tracer = WhvpTracer::new(snapshot, tracer_platform);
    let (tx, rx) = mpsc::channel();
    let mut fuzzer = Fuzzer::new(String::from("work"), rx);
    let mut strategy = IdentityStrategy { inner: RandomStrategy::new() };
    let params = Params {
        max_iterations: 0,
        max_duration_ms: 0,
        input: 0x2000,
        input_size: 16,
        stop_on_crash: true,
        display_delay_ms: 1000,
    };
    let mut trace_params = trace_params(0x1004);
    trace_params.excluded_addresses.push((String::from("bad"), 0x1100));
    let crash_seed = vec![0x42u8; 16];
    tx.send(crash_seed.clone()).unwrap();
    let stats = fuzzer
        .run(
            &mut strategy,
            &params,
            &mut tracer,
            &initial_state(),
            &trace_params,
            Vec::new(),
        )
        .unwrap();
    assert_eq!(stats.crashes, 1);
    assert_eq!(stats.total_iterations, 1);
    let n = fuzzer.corpus.pending_files.len();
    assert!(n >= 2);
    match &fuzzer.corpus.pending_files[n - 2] {
        PendingFile::CrashInput { hash, data } => {
            assert_eq!(*hash, calculate_hash(&crash_seed));
            assert_eq!(data, &crash_seed);
        }
        _ => panic!("expected the crash input"),
    }
    match &fuzzer.corpus.pending_files[n - 1] {
        PendingFile::CrashSidecar { hash: _, params: p } => {
            assert_eq!(*p, CrashParams { input: 0x2000, input_size: 16 });
        }
        _ => panic!("expected the crash sidecar"),
    }
}
