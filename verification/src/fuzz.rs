//! The fuzz loop: a corpus of inputs keyed by novelty, a byte-level
//! mutation strategy, session statistics, and the iteration harness
//! that writes an input, runs the tracer, scores the trace and restores
//! memory.
//!
//! File persistence is split out: the corpus records what must be
//! written to disk as pending files, and whoever owns the session
//! drains them; seed files found on disk are handed in as byte buffers.

use vstd::prelude::*;
use crate::trace::{AddrSet, EmulationStatus, ProcessorState, Trace, TraceError, Tracer};
use crate::mem::clone_bytes;
use std::collections::hash_map::DefaultHasher;
use vstd::std_specs::hash::DefaultHasherAdditionalSpecFns;
use std::hash::Hasher;
use std::sync::mpsc::Receiver;

verus! {

/// Session counters, updated once per iteration.
pub struct Stats {
    pub iterations: u64,
    pub total_iterations: u64,
    pub coverage: u64,
    pub total_coverage: u64,
    pub code: usize,
    pub data: usize,
    /// Milliseconds of host time when the current display interval
    /// started.
    pub start: u64,
    /// Milliseconds of host time when the session started.
    pub total_start: u64,
    /// Milliseconds between statistics lines.
    pub interval_ms: u64,
    pub corpus_size: usize,
    pub worklist_size: usize,
    pub crashes: u64,
}

/// Relies on the `format!` macro of std to render the statistics line
/// that is emitted once per display interval.
#[verifier::external_body]
fn format_stats_line(
    total_iterations: u64,
    execs_per_sec: u64,
    total_coverage: u64,
    new_coverage: u64,
    code: usize,
    data: usize,
    corpus_size: usize,
    crashes: u64,
) -> (r: String) {
    format!(
        "{} executions, {} exec/s, coverage {}, new {}, code {} page(s), data {} page(s), corpus {}, crashes {}",
        total_iterations,
        execs_per_sec,
        total_coverage,
        new_coverage,
        code,
        data,
        corpus_size,
        crashes,
    )
}

impl Stats {
    pub fn new(interval_ms: u64, now_ms: u64) -> (r: Stats)
        ensures
            r.iterations == 0 && r.total_iterations == 0,
            r.coverage == 0 && r.total_coverage == 0,
            r.code == 0 && r.data == 0,
            r.start == now_ms && r.total_start == now_ms,
            r.corpus_size == 0 && r.worklist_size == 0,
            r.crashes == 0,
            r.interval_ms == interval_ms,
    {
        Stats {
            iterations: 0,
            total_iterations: 0,
            coverage: 0,
            total_coverage: 0,
            code: 0,
            data: 0,
            start: now_ms,
            total_start: now_ms,
            interval_ms,
            corpus_size: 0,
            worklist_size: 0,
            crashes: 0,
        }
    }

    /// Starts a new display interval.
    pub fn reset(&mut self, now_ms: u64)
        ensures
            final(self).iterations == 0,
            final(self).coverage == 0,
            final(self).start == now_ms,
            *final(self) == (Stats {
                iterations: 0,
                coverage: 0,
                start: now_ms,
                ..*old(self)
            }),
    {
        self.iterations = 0;
        self.coverage = 0;
        self.start = now_ms;
    }

    /// Renders the statistics line and starts a new interval.
    pub fn display(&mut self, now_ms: u64) -> (r: String)
        requires
            old(self).interval_ms >= 1000,
        ensures
            final(self).iterations == 0,
            final(self).coverage == 0,
            final(self).start == now_ms,
            *final(self) == (Stats {
                iterations: 0,
                coverage: 0,
                start: now_ms,
                ..*old(self)
            }),
    {
        let line = format_stats_line(
            self.total_iterations,
            self.iterations / (self.interval_ms / 1000),
            self.total_coverage,
            self.coverage,
            self.code,
            self.data,
            self.corpus_size,
            self.crashes,
        );
        self.reset(now_ms);
        line
    }

    /// Renders and resets once the display interval has elapsed.
    pub fn update_display(&mut self, now_ms: u64) -> (r: Option<String>)
        requires
            old(self).interval_ms >= 1000,
        ensures
            (now_ms > old(self).start && now_ms - old(self).start > old(self).interval_ms) <==> r
                is Some,
            r is Some ==> final(self).iterations == 0 && final(self).coverage == 0 && final(self).start == now_ms && *final(self) == (Stats {
                iterations: 0,
                coverage: 0,
                start: now_ms,
                ..*old(self)
            }),
            r is None ==> *final(self) == *old(self),
    {
        if now_ms > self.start && now_ms - self.start > self.interval_ms {
            Some(self.display(now_ms))
        } else {
            None
        }
    }
}

/// The parameters written beside a crashing input.
#[derive(Clone, Copy, Debug, PartialEq, Eq, Structural)]
pub struct CrashParams {
    pub input: u64,
    pub input_size: u64,
}

impl CrashParams {
    /// The crash sidecar of a parameter block.
    pub fn from_params(params: &Params) -> (r: CrashParams)
        ensures
            r.input == params.input,
            r.input_size == params.input_size,
    {
        CrashParams { input: params.input, input_size: params.input_size }
    }
}

/// Where an input is delivered to the target.
#[derive(Clone, Copy, Debug, PartialEq, Eq, Structural)]
pub enum InputType {
    /// The input bytes are written into guest memory.
    Mem,
    /// The input is delivered through registers.
    Reg,
}

/// Parameters of a fuzzing session.
#[derive(Clone, Copy, Debug, PartialEq, Eq, Structural)]
pub struct Params {
    /// Stop after this many iterations; zero means no cap.
    pub max_iterations: u64,
    /// Stop after this much host time, in milliseconds; zero means no
    /// budget.
    pub max_duration_ms: u64,
    /// Guest virtual address of the input buffer.
    pub input: u64,
    /// Size in bytes of the input buffer.
    pub input_size: u64,
    /// Stop at the first crash.
    pub stop_on_crash: bool,
    /// Milliseconds between statistics lines.
    pub display_delay_ms: u64,
}

/// A file the session owes to the working directory; whoever runs the
/// session drains these and writes them to disk.
pub enum PendingFile {
    /// An admitted input, to be stored under
    /// `corpus/<hash as hex>.bin` and removed once loaded.
    CorpusEntry { hash: u64, data: Vec<u8> },
    /// The raw bytes of an input that reached a forbidden address, for
    /// `crashes/<hash as hex>.bin`.
    CrashInput { hash: u64, data: Vec<u8> },
    /// The parameters of the crashing run, for
    /// `crashes/<hash as hex>.json`.
    CrashSidecar { hash: u64, params: CrashParams },
}

/// A 64-bit hash of a byte buffer, stable within a session.  Relies on
/// std's `DefaultHasher` fed with the buffer once.
pub fn calculate_hash(t: &Vec<u8>) -> (r: u64)
    ensures
        r == DefaultHasher::spec_finish(seq![t@]),
{
    let mut hasher = DefaultHasher::new();
    hasher.write(t.as_slice());
    hasher.finish()
}

/// The corpus: inputs keyed by the novelty they showed when admitted,
/// a worklist of inputs still to try, the union of all coverage seen,
/// and the files the session owes to disk.
pub struct Corpus {
    pub workdir: String,
    /// At most one retained input per novelty score; a later input
    /// with the same score replaces the earlier one.
    pub queue: Vec<(usize, Vec<u8>)>,
    pub worklist: Vec<Vec<u8>>,
    pub coverage: AddrSet,
    pub pending_files: Vec<PendingFile>,
}

impl Corpus {
    /// Novelty keys are unique.
    pub open spec fn wf(&self) -> bool {
        &&& self.coverage.wf()
        &&& (forall|i: int, j: int|
            0 <= i < j < self.queue@.len() ==> (#[trigger] self.queue@[i]).0 != (
            #[trigger] self.queue@[j]).0)
    }

    pub fn new(workdir: String) -> (r: Corpus)
        ensures
            r.wf(),
            r.workdir@ == workdir@,
            r.queue@ == Seq::<(usize, Vec<u8>)>::empty(),
            r.worklist@ == Seq::<Vec<u8>>::empty(),
            r.coverage@ == Set::<u64>::empty(),
            r.pending_files@ == Seq::<PendingFile>::empty(),
    {
        Corpus {
            workdir,
            queue: Vec::new(),
            worklist: Vec::new(),
            coverage: AddrSet::new(),
            pending_files: Vec::new(),
        }
    }

    /// Takes the seed files found in the working directory's corpus and
    /// pushes each buffer onto the worklist, exactly once, in order.
    pub fn load(&mut self, files: Vec<Vec<u8>>) -> (r: usize)
        requires
            old(self).wf(),
        ensures
            final(self).wf(),
            r == files@.len(),
            final(self).worklist@.len() == old(self).worklist@.len() + files@.len(),
            forall|k: int|
                0 <= k < old(self).worklist@.len() ==> #[trigger] final(self).worklist@[k] == old(
                    self,
                ).worklist@[k],
            forall|k: int|
                0 <= k < files@.len() ==> (#[trigger] final(self).worklist@[old(
                    self,
                ).worklist@.len() + k])@ == files@[k]@,
            final(self).queue@ == old(self).queue@,
            final(self).coverage@ == old(self).coverage@,
            final(self).pending_files@ == old(self).pending_files@,
    {
        let total = files.len();
        let mut i: usize = 0;
        proof {
            assert(self.worklist@ + files@.take(0) =~= self.worklist@);
        }
        let ghost worklist0 = self.worklist@;
        while i < files.len()
            invariant
                self.wf(),
                i <= files@.len(),
                self.worklist@.len() == worklist0.len() + i,
                forall|k: int| 0 <= k < worklist0.len() ==> #[trigger] self.worklist@[k] == worklist0[k],
                forall|k: int| 0 <= k < i ==> (#[trigger] self.worklist@[worklist0.len() + k])@ == files@[k]@,
                self.queue@ == old(self).queue@,
                self.coverage@ == old(self).coverage@,
                self.pending_files@ == old(self).pending_files@,
                worklist0 == old(self).worklist@,
            decreases files@.len() - i,
        {
            let buf = clone_bytes(&files[i]);
            self.worklist.push(buf);
            i = i + 1;
        }
        total
    }

    /// Admits an input under its novelty score, replacing any input
    /// with the same score, and records the corpus file to persist.
    pub fn add(&mut self, coverage: usize, input: &Vec<u8>)
        requires
            old(self).wf(),
        ensures
            final(self).wf(),
            final(self).worklist@ == old(self).worklist@,
            final(self).coverage@ == old(self).coverage@,
            (exists|j: int|
                0 <= j < old(self).queue@.len() && (#[trigger] old(self).queue@[j]).0 == coverage)
                ==> final(self).queue@.len() == old(self).queue@.len(),
            !(exists|j: int|
                0 <= j < old(self).queue@.len() && (#[trigger] old(self).queue@[j]).0 == coverage)
                ==> final(self).queue@.len() == old(self).queue@.len() + 1,
            exists|j: int|
                0 <= j < final(self).queue@.len() && (#[trigger] final(self).queue@[j]).0
                    == coverage && final(self).queue@[j].1@ == input@,
            forall|j: int|
                0 <= j < old(self).queue@.len() && (#[trigger] old(self).queue@[j]).0 != coverage
                    ==> final(self).queue@[j] == old(self).queue@[j],
            final(self).pending_files@.len() == old(self).pending_files@.len() + 1,
            final(self).pending_files@.last() matches PendingFile::CorpusEntry { hash, data }
                && hash == DefaultHasher::spec_finish(seq![input@]) && data@ == input@,
    {
        let hash = calculate_hash(input);
        let mut j: usize = 0;
        let mut replaced = false;
        while j < self.queue.len()
            invariant
                self.wf(),
                j <= self.queue@.len(),
                !replaced ==> forall|k: int| 0 <= k < j ==> (#[trigger] self.queue@[k]).0
                    != coverage,
                !replaced ==> self.queue@ == old(self).queue@,
                replaced ==> self.queue@.len() == old(self).queue@.len() && (exists|k: int|
                    0 <= k < self.queue@.len() && (#[trigger] self.queue@[k]).0 == coverage
                        && self.queue@[k].1@ == input@),
                replaced ==> exists|k: int|
                    0 <= k < old(self).queue@.len() && (#[trigger] old(self).queue@[k]).0
                        == coverage,
                replaced ==> forall|k: int, l: int|
                    0 <= k < l < self.queue@.len() ==> (#[trigger] self.queue@[k]).0 != (
                    #[trigger] self.queue@[l]).0,
                replaced ==> self.queue@.len() == old(self).queue@.len() && forall|k: int|
                    0 <= k < self.queue@.len() && (#[trigger] old(self).queue@[k]).0 != coverage
                        ==> self.queue@[k] == old(self).queue@[k],
                self.worklist@ == old(self).worklist@,
                self.coverage@ == old(self).coverage@,
                self.pending_files@ == old(self).pending_files@,
                self.workdir == old(self).workdir,
            decreases self.queue@.len() - j,
        {
            if !replaced && self.queue[j].0 == coverage {
                proof {
                    assert((old(self).queue@[j as int]).0 == coverage);
                }
                self.queue.set(j, (coverage, clone_bytes(input)));
                replaced = true;
                proof {
                    assert(self.queue@[j as int].0 == coverage && self.queue@[j as int].1@
                        == input@);
                    assert forall|k: int, l: int|
                        0 <= k < l < self.queue@.len() implies (#[trigger] self.queue@[k]).0 != (
                    #[trigger] self.queue@[l]).0 by {
                        assert(old(self).queue@[k].0 != old(self).queue@[l].0);
                    }
                }
            }
            j = j + 1;
        }
        if !replaced {
            self.queue.push((coverage, clone_bytes(input)));
            proof {
                assert(self.queue@.last().0 == coverage && self.queue@.last().1@ == input@);
                assert forall|k: int, l: int|
                    0 <= k < l < self.queue@.len() implies (#[trigger] self.queue@[k]).0 != (
                #[trigger] self.queue@[l]).0 by {
                    if l == self.queue@.len() - 1 {
                        assert(old(self).queue@[k].0 != coverage);
                    }
                }
            }
        }
        self.pending_files.push(PendingFile::CorpusEntry { hash, data: clone_bytes(input) });
    }

    /// The next input to try: the top of the worklist; when the
    /// worklist is empty it is refilled with every retained queue input
    /// in order first.  Nothing is left: the corpus is exhausted.
    pub fn get_next_input(&mut self) -> (r: Option<Vec<u8>>)
        requires
            old(self).wf(),
        ensures
            final(self).wf(),
            final(self).queue@ == old(self).queue@,
            final(self).coverage@ == old(self).coverage@,
            final(self).pending_files@ == old(self).pending_files@,
            r is None <==> old(self).worklist@.len() == 0 && old(self).queue@.len() == 0,
            old(self).worklist@.len() > 0 ==> r is Some && r.unwrap()@ == old(self).worklist@.last()@ && final(self).worklist@ == old(self).worklist@.drop_last(),
            old(self).worklist@.len() == 0 && old(self).queue@.len() > 0 ==> r is Some
                && r.unwrap()@ == old(self).queue@.last().1@ && final(self).worklist@.len() == old(self).queue@.len() - 1 && (forall|k: int|
                0 <= k < old(self).queue@.len() - 1 ==> (#[trigger] final(self).worklist@[k])@
                    == old(self).queue@[k].1@),
    {
        match self.worklist.pop() {
            Some(item) => {
                return Some(item);
            },
            None => {},
        }
        let mut i: usize = 0;
        while i < self.queue.len()
            invariant
                self.wf(),
                i <= self.queue@.len(),
                self.queue@ == old(self).queue@,
                self.coverage@ == old(self).coverage@,
                self.pending_files@ == old(self).pending_files@,
                self.worklist@.len() == i,
                forall|k: int| 0 <= k < i ==> (#[trigger] self.worklist@[k])@ == self.queue@[k].1@,
            decreases self.queue@.len() - i,
        {
            let item = clone_bytes(&self.queue[i].1);
            self.worklist.push(item);
            i = i + 1;
        }
        self.worklist.pop()
    }
}

} // verus!

verus! {

/// Failures that end a fuzzing session.
#[derive(Clone, Copy, Debug, PartialEq, Eq, Structural)]
pub enum FuzzError {
    /// The warm-up run did not reach the return address.
    FirstRunFailed,
    /// Neither the worklist nor the queue has an input left.
    CorpusEmpty,
    /// The mutated input could not be written to guest memory.
    WriteInputFailed,
    /// The configured input size does not fit the host.
    InputTooLarge,
    Trace(TraceError),
}

/// How a strategy picks, mutates and scores inputs.
pub trait Strategy {
    /// A mutated copy of `input`.
    fn mutate_input(&mut self, input: &Vec<u8>) -> (r: Vec<u8>);

    /// The next input to try, if the corpus has one.
    fn get_next_input(&mut self, corpus: &mut Corpus) -> (r: Option<Vec<u8>>)
        requires
            old(corpus).wf(),
        ensures
            final(corpus).wf(),
            final(corpus).queue@ == old(corpus).queue@,
            final(corpus).coverage@ == old(corpus).coverage@,
            final(corpus).pending_files@ == old(corpus).pending_files@,
            r is None <==> old(corpus).worklist@.len() == 0 && old(corpus).queue@.len() == 0,
    ;

    /// Scores a finished run: counts the addresses of `trace.seen` that
    /// were new to the session's coverage, admits the input when it
    /// revealed any, and records crash files when the run reached a
    /// forbidden address.  An input is admitted to the corpus only if
    /// its run saw at least one address outside the prior coverage.
    fn apply(&mut self, params: &Params, data: &Vec<u8>, trace: &Trace, corpus: &mut Corpus) -> (r:
        Result<usize, FuzzError>)
        requires
            old(corpus).wf(),
            crate::trace::spec_trace_wf(trace),
        ensures
            final(corpus).wf(),
            r is Ok,
            r is Ok ==> {
                &&& r.unwrap() == trace.seen@.difference(old(corpus).coverage@).len()
                &&& final(corpus).coverage@ == old(corpus).coverage@.union(trace.seen@)
                &&& final(corpus).worklist@ == old(corpus).worklist@
                &&& (r.unwrap() == 0 ==> final(corpus).queue@ == old(corpus).queue@)
                &&& (final(corpus).queue@ != old(corpus).queue@ ==> exists|a: u64|
                    trace.seen@.contains(a) && !old(corpus).coverage@.contains(a))
                &&& (trace.status == EmulationStatus::ForbiddenAddress ==> {
                    let pend = final(corpus).pending_files@;
                    &&& pend.len() >= 2
                    &&& pend[pend.len() - 2] matches PendingFile::CrashInput { hash, data: d }
                        && hash == DefaultHasher::spec_finish(seq![data@]) && d@ == data@
                    &&& pend.last() matches PendingFile::CrashSidecar { hash, params: p } && hash
                        == DefaultHasher::spec_finish(seq![data@]) && p == (CrashParams {
                        input: params.input,
                        input_size: params.input_size,
                    })
                })
                &&& (trace.status != EmulationStatus::ForbiddenAddress && r.unwrap() == 0
                    ==> final(corpus).pending_files@ == old(corpus).pending_files@)
            },
    ;
}

/// The default strategy: a single byte-level mutation driven by a
/// deterministic pseudo-random sequence, stable within a session.
pub struct RandomStrategy {
    seed: u64,
}

impl RandomStrategy {
    pub fn new() -> (r: RandomStrategy) {
        RandomStrategy { seed: 0x9e3779b97f4a7c15 }
    }

    /// The next value of the pseudo-random sequence.
    fn next_rand(&mut self) -> (r: u64) {
        let mut x = self.seed;
        x = x ^ (x << 13);
        x = x ^ (x >> 7);
        x = x ^ (x << 17);
        if x == 0 {
            x = 0x9e3779b97f4a7c15;
        }
        self.seed = x;
        x
    }
}

impl RandomStrategy {
    /// The single byte-level mutation this strategy performs: a copy of
    /// the input with exactly one pseudo-randomly chosen byte flipped;
    /// an empty input stays empty.
    pub fn flip_one_byte(&mut self, input: &Vec<u8>) -> (r: Vec<u8>)
        ensures
            r@.len() == input@.len(),
            input@.len() > 0 ==> exists|i: int|
                0 <= i < input@.len() && #[trigger] r@[i] != input@[i] && (forall|j: int|
                    0 <= j < input@.len() && j != i ==> r@[j] == input@[j]),
    {
        let mut out = crate::mem::clone_bytes(input);
        if out.len() > 0 {
            let r1 = self.next_rand();
            let pos = (r1 % (out.len() as u64)) as usize;
            let r2 = self.next_rand();
            proof {
                vstd::arithmetic::div_mod::lemma_mod_bound(
                    r1 as int,
                    out@.len() as int,
                );
            }
            let flip = ((r2 % 255) + 1) as u8;
            let byte = out[pos];
            proof {
                let f = flip;
                let b = byte;
                assert(f != 0 ==> b ^ f != b) by (bit_vector);
            }
            out.set(pos, byte ^ flip);
            proof {
                assert(r1 % (input@.len() as u64) < input@.len() as u64);
                assert(out@[pos as int] != input@[pos as int]);
            }
        }
        out
    }
}

impl Strategy for RandomStrategy {
    /// Flips one pseudo-randomly chosen byte of the input.
    fn mutate_input(&mut self, input: &Vec<u8>) -> (r: Vec<u8>) {
        self.flip_one_byte(input)
    }

    fn get_next_input(&mut self, corpus: &mut Corpus) -> (r: Option<Vec<u8>>) {
        corpus.get_next_input()
    }

    fn apply(&mut self, params: &Params, data: &Vec<u8>, trace: &Trace, corpus: &mut Corpus) -> (r:
        Result<usize, FuzzError>) {
        broadcast use vstd::seq_lib::seq_to_set_is_finite;

        let n = trace.seen.len();
        let ghost cov0 = corpus.coverage@;
        let ghost seen_seq = trace.seen.seq();
        let mut new_count: usize = 0;
        let mut i: usize = 0;
        proof {
            assert(seen_seq.take(0) =~= Seq::<u64>::empty());
            assert(seen_seq.take(0).to_set() =~= Set::<u64>::empty());
            assert(cov0.union(seen_seq.take(0).to_set()) =~= cov0);
            assert(seen_seq.take(0).to_set().difference(cov0) =~= Set::<u64>::empty());
            vstd::set_lib::lemma_set_empty_equivalency_len(
                seen_seq.take(0).to_set().difference(cov0),
            );
        }
        while i < n
            invariant
                corpus.wf(),
                trace.seen.wf(),
                n == seen_seq.len(),
                seen_seq == trace.seen.seq(),
                i <= n,
                new_count <= i,
                corpus.coverage@ == cov0.union(seen_seq.take(i as int).to_set()),
                seen_seq.take(i as int).to_set().finite(),
                new_count == seen_seq.take(i as int).to_set().difference(cov0).len(),
                corpus.queue@ == old(corpus).queue@,
                corpus.worklist@ == old(corpus).worklist@,
                corpus.pending_files@ == old(corpus).pending_files@,
                corpus.workdir == old(corpus).workdir,
                cov0 == old(corpus).coverage@,
            decreases n - i,
        {
            broadcast use vstd::seq_lib::seq_to_set_is_finite;

            let addr = trace.seen.get(i);
            let ghost prefix = seen_seq.take(i as int);
            let ghost prefix_next = seen_seq.take(i + 1);
            proof {
                assert(prefix_next =~= prefix.push(addr));
                prefix.lemma_push_to_set_commute(addr);
            }
            let is_new = corpus.coverage.insert(addr);
            if is_new {
                proof {
                    assert(!cov0.contains(addr) && !prefix.to_set().contains(addr));
                    assert(prefix_next.to_set().difference(cov0) =~= prefix.to_set().difference(
                        cov0,
                    ).insert(addr));
                    assert(!prefix.to_set().difference(cov0).contains(addr));
                    vstd::set::axiom_set_insert_len(
                        prefix.to_set().difference(cov0),
                        addr,
                    );
                }
                new_count = new_count + 1;
            } else {
                proof {
                    assert(prefix_next.to_set().difference(cov0) =~= prefix.to_set().difference(
                        cov0,
                    ));
                }
            }
            proof {
                assert(corpus.coverage@ =~= cov0.union(prefix_next.to_set()));
            }
            i = i + 1;
        }
        proof {
            assert(seen_seq.take(n as int) =~= seen_seq);
            trace.seen.lemma_view_is_seq_set();
            assert(trace.seen@ == seen_seq.to_set());
        }
        if new_count > 0 {
            corpus.add(new_count, data);
        }
        let forbidden = match trace.status {
            EmulationStatus::ForbiddenAddress => true,
            _ => false,
        };
        if forbidden {
            let hash = calculate_hash(data);
            corpus.pending_files.push(
                PendingFile::CrashInput { hash, data: crate::mem::clone_bytes(data) },
            );
            corpus.pending_files.push(
                PendingFile::CrashSidecar { hash, params: CrashParams::from_params(params) },
            );
        }
        proof {
            if new_count > 0 {
                let d = trace.seen@.difference(old(corpus).coverage@);
                vstd::set_lib::lemma_set_empty_equivalency_len(d);
                assert(d.contains(d.choose()));
                assert(exists|a: u64|
                    trace.seen@.contains(a) && !old(corpus).coverage@.contains(a)) by {
                    assert(trace.seen@.contains(d.choose()) && !old(corpus).coverage@.contains(
                        d.choose(),
                    ));
                }
            }
        }
        Ok(new_count)
    }
}

} // verus!

verus! {

#[verifier::external_type_specification]
#[verifier::external_body]
#[verifier::reject_recursive_types(T)]
pub struct ExReceiver<T>(Receiver<T>);

/// Relies on `std::sync::mpsc::Receiver::try_recv`: hands over a buffer
/// the seed watcher has sent, if any, without blocking.
#[verifier::external_body]
fn try_recv_buffer(rx: &Receiver<Vec<u8>>) -> (r: Option<Vec<u8>>) {
    match rx.try_recv() {
        Ok(buf) => Some(buf),
        Err(_) => None,
    }
}

/// A fuzzing session: owns the corpus, the receiving end of the seed
/// watcher's channel, and the lines of the statistics display.
pub struct Fuzzer {
    /// The working directory of the session.
    pub path: String,
    /// The receiving end of the seed watcher's channel.
    pub channel: Receiver<Vec<u8>>,
    /// The session's corpus; pending files are drained from here.
    pub corpus: Corpus,
    /// Statistics lines produced so far, for the session's owner to
    /// print.
    pub display_log: Vec<String>,
}

impl Fuzzer {
    /// Builds a session rooted at `path`.  The receiving end of the
    /// seed watcher's channel is handed in; the watcher itself is host
    /// plumbing that runs outside this library.
    pub fn new(path: String, channel: Receiver<Vec<u8>>) -> (r: Fuzzer)
        ensures
            r.corpus.wf(),
            r.path@ == path@,
            r.corpus.workdir@ == path@,
            r.corpus.queue@ == Seq::<(usize, Vec<u8>)>::empty(),
            r.corpus.worklist@ == Seq::<Vec<u8>>::empty(),
            r.corpus.coverage@ == Set::<u64>::empty(),
            r.corpus.pending_files@ == Seq::<PendingFile>::empty(),
    {
        let workdir = path.clone();
        Fuzzer {
            path,
            channel,
            corpus: Corpus::new(workdir),
            display_log: Vec::new(),
        }
    }

    /// Runs the session: a warm-up trace that must succeed, then one
    /// iteration per input — drain the watcher channel, pick and mutate
    /// an input, write it to guest memory, reinstall the context,
    /// restore dirty pages, run the tracer and score the trace — until
    /// a stop condition is reached.
    pub fn run<Strat: Strategy, T: Tracer>(
        &mut self,
        strategy: &mut Strat,
        params: &Params,
        tracer: &mut T,
        context: &ProcessorState,
        trace_params: &crate::trace::Params,
        seed_files: Vec<Vec<u8>>,
    ) -> (r: Result<Stats, FuzzError>)
        requires
            old(self).corpus.wf(),
            old(tracer).tracer_wf(),
            params.display_delay_ms >= 1000,
        ensures
            final(self).corpus.wf(),
            final(tracer).tracer_wf(),
            (params.input_size > usize::MAX as u64 || params.input + params.input_size
                > u64::MAX) <==> r == Err::<Stats, FuzzError>(FuzzError::InputTooLarge),
            r is Ok ==> {
                let stats = r.unwrap();
                &&& stats.crashes <= stats.total_iterations
                &&& stats.total_coverage == final(self).corpus.coverage@.len()
                &&& stats.corpus_size == final(self).corpus.queue@.len()
                &&& stats.worklist_size == final(self).corpus.worklist@.len()
            },
    {
        // the input geometry is validated before anything runs
        if params.input_size > usize::MAX as u64 {
            return Err(FuzzError::InputTooLarge);
        }
        if params.input_size > u64::MAX - params.input {
            return Err(FuzzError::InputTooLarge);
        }
        let input_size = params.input_size as usize;
        let now0 = tracer.now_ms();
        let mut stats = Stats::new(params.display_delay_ms, now0);
        self.corpus.load(seed_files);
        // warm-up: map the pages of the unmutated path and require a
        // clean exit
        match tracer.set_initial_context(context) {
            Ok(_) => {},
            Err(e) => {
                return Err(FuzzError::Trace(e));
            },
        }
        let warm = match tracer.run(trace_params) {
            Ok(t) => t,
            Err(e) => {
                return Err(FuzzError::Trace(e));
            },
        };
        let warm_ok = match warm.status {
            EmulationStatus::Success => true,
            _ => false,
        };
        if !warm_ok {
            return Err(FuzzError::FirstRunFailed);
        }
        // read the initial input bytes out of guest memory
        let cr3 = match tracer.cr3() {
            Ok(c) => c,
            Err(e) => {
                return Err(FuzzError::Trace(e));
            },
        };
        let data = match tracer.read_gva(cr3, params.input, input_size) {
            Ok(d) => d,
            Err(e) => {
                return Err(FuzzError::Trace(e));
            },
        };
        match strategy.apply(params, &data, &warm, &mut self.corpus) {
            Ok(_) => {},
            Err(e) => {
                return Err(e);
            },
        }
        stats.total_coverage = self.corpus.coverage.len() as u64;
        stats.corpus_size = self.corpus.queue.len();
        stats.worklist_size = self.corpus.worklist.len();
        loop
            invariant
                self.corpus.wf(),
                tracer.tracer_wf(),
                stats.crashes <= stats.total_iterations,
                stats.iterations <= stats.total_iterations,
                stats.interval_ms == params.display_delay_ms,
                params.display_delay_ms >= 1000,
                params.input + params.input_size <= u64::MAX,
                input_size == params.input_size,
                stats.total_coverage == self.corpus.coverage@.len(),
                stats.corpus_size == self.corpus.queue@.len(),
                stats.worklist_size == self.corpus.worklist@.len(),
            ensures
                self.corpus.wf(),
                tracer.tracer_wf(),
                stats.crashes <= stats.total_iterations,
                stats.total_coverage == self.corpus.coverage@.len(),
                stats.corpus_size == self.corpus.queue@.len(),
                stats.worklist_size == self.corpus.worklist@.len(),
            decreases u64::MAX - stats.total_iterations,
        {
            if stats.total_iterations == u64::MAX {
                break;
            }
            // seeds dropped into the working directory join the
            // worklist
            match try_recv_buffer(&self.channel) {
                Some(buf) => {
                    self.corpus.worklist.push(buf);
                },
                None => {},
            }
            let picked = match strategy.get_next_input(&mut self.corpus) {
                Some(d) => d,
                None => {
                    return Err(FuzzError::CorpusEmpty);
                },
            };
            let mut input = strategy.mutate_input(&picked);
            while input.len() > input_size
                decreases input@.len(),
            {
                input.pop();
            }
            match tracer.write_gva(cr3, params.input, &input) {
                Ok(_) => {},
                Err(_) => {
                    return Err(FuzzError::WriteInputFailed);
                },
            }
            match tracer.set_initial_context(context) {
                Ok(_) => {},
                Err(e) => {
                    return Err(FuzzError::Trace(e));
                },
            }
            match tracer.restore_snapshot() {
                Ok(_) => {},
                Err(e) => {
                    return Err(FuzzError::Trace(e));
                },
            }
            let trace = match tracer.run(trace_params) {
                Ok(t) => t,
                Err(e) => {
                    return Err(FuzzError::Trace(e));
                },
            };
            let new_count = match strategy.apply(params, &input, &trace, &mut self.corpus) {
                Ok(n) => n,
                Err(e) => {
                    return Err(e);
                },
            };
            let crashed = match trace.status {
                EmulationStatus::ForbiddenAddress => true,
                _ => false,
            };
            if crashed {
                stats.crashes = stats.crashes + 1;
            }
            stats.iterations = stats.iterations + 1;
            stats.total_iterations = stats.total_iterations + 1;
            let new64 = new_count as u64;
            stats.coverage = if stats.coverage <= u64::MAX - new64 {
                stats.coverage + new64
            } else {
                u64::MAX
            };
            stats.total_coverage = self.corpus.coverage.len() as u64;
            stats.code = tracer.get_code_pages();
            stats.data = tracer.get_data_pages();
            stats.corpus_size = self.corpus.queue.len();
            stats.worklist_size = self.corpus.worklist.len();
            let now = tracer.now_ms();
            match stats.update_display(now) {
                Some(line) => {
                    self.display_log.push(line);
                },
                None => {},
            }
            if crashed && params.stop_on_crash {
                break;
            }
            if params.max_duration_ms != 0 && now >= stats.total_start && now - stats.total_start
                > params.max_duration_ms {
                break;
            }
            if params.max_iterations != 0 && stats.total_iterations > params.max_iterations {
                break;
            }
        }
        Ok(stats)
    }
}

} // verus!
