//! A snapshot-based, coverage-guided fuzzer core for a hypervisor
//! partition running one x86-64 virtual processor.
//!
//! The library holds the verified logic of the system: the
//! guest-physical page cache and the four-level address-space walker
//! (`mem`), a model of the partition with its mapped regions and
//! dirty-page tracking (`whvp`), the tracer state machine that turns
//! VM exits into coverage (`trace`), and the corpus, mutation
//! strategy and fuzz loop (`fuzz`).

pub mod mem;
pub mod whvp;
pub mod trace;
pub mod fuzz;
