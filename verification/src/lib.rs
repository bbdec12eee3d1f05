//! Coverage model for fuzzing campaigns.
//!
//! The crate decodes DrCov traces, keeps an index of the source files and
//! lines of the system under test, records which fuzzer inputs cover which
//! lines, reconstructs the lineage of inputs from their initial seeds, and
//! answers the read-only queries a presentation layer asks of that model.
//!
//! Everything here works on plain values: the bytes of a trace, the source
//! locations that addresses resolve to, the texts of source files. Reading
//! files is left to the caller.

pub mod custom_types;
pub mod config;
pub mod search;
pub mod text;
pub mod paths;
pub mod sut_database;
pub mod drcov;
pub mod trace_loader;
pub mod trace_map;
pub mod input_name;
pub mod inputs_database;
pub mod lineage;
pub mod lineage_index;
pub mod queries;
pub mod app_state;
pub mod responders;
pub mod timeline;
pub mod clusters;
