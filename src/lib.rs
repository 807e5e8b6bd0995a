//! A harness that counts the instructions that registered benchmarks retire,
//! by running each one in a child process under an instruction profiler.
//!
//! The library holds the registry and its validation, the dispatch of a child
//! invocation, the profiler's command line, the parsing of its output and the
//! arithmetic of the final report. Running processes is left to the caller.

pub mod benchmark;
pub mod cachegrind;
pub mod runner;

pub use benchmark::{validate, Benchmark, ReportingMode, ValidationError};
pub use cachegrind::{output_file, parse_cachegrind_output, profiler_args};
pub use runner::{
    dispatch, next_step, parse_index, report, run_single, start, DispatchError, Invocation,
    ReportError, ReportLine, RunError, RunEvent, RunStep, CALIBRATION_INDEX,
};
