//! Probing a list of targets with a bounded number of probes at once, and
//! keeping what the probes found.
//!
//! The library holds everything about such a run that can be decided
//! without reading or writing anything: which targets a list file names
//! (`loader`),
//! what is fed to the probing tool and what its output reports (`probe`),
//! how findings stand in the results file (`sink`), how that file is named
//! (`naming`), how the command line is read (`cli`), and who may run when
//! (`orchestrator`). Reading and writing files, starting the probing tool and
//! scheduling the work are left to the program that uses the library.

pub mod cli;
pub mod loader;
pub mod naming;
pub mod orchestrator;
pub mod probe;
pub mod sink;
pub mod text;

pub use crate::cli::input_path;
pub use crate::loader::load_targets;
pub use crate::naming::generate_unique_filename;
pub use crate::orchestrator::{plan, Completion, ItemState, Orchestrator, Step};
pub use crate::probe::{extract_successes, probe_script, read_output, ProbeError, ProbeOutcome};
pub use crate::sink::{encode_records, header_row, records_for, ResultRecord, SinkError};
