//! Decision logic of a parallel, pytest-compatible test runner.

pub mod text;
pub mod numbers;
pub mod order;
pub mod sequences;
pub mod ddmin;
pub mod cli;
pub mod paths;
pub mod collect;
pub mod config;
pub mod toml_doc;
pub mod ordered_map;
pub mod nodeids;
pub mod digest;
pub mod coverage_skip;
pub mod double;
pub mod rank;
pub mod durations;
pub mod flakes;
pub mod cache;
pub mod incremental;
pub mod doctor;
pub mod junit;
pub mod explain;
pub mod discover;
pub mod json_doc;
pub mod migrate;
pub mod patterns;
pub mod annotate;
pub mod merged;
pub mod quarantine;
pub mod run;
pub mod discovery;
