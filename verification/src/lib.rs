//! `cq`: query and reshape Candid values.
//!
//! The verified core of the `cq` tool: splitting binary Candid (`DIDL`)
//! frames, the query language (parser and evaluator), input-format
//! detection and the command-line decisions.

pub mod bin_frame;
pub mod text;
pub mod value;
pub mod query;
pub mod input;
pub mod output;
pub mod cli;
pub mod schema;
pub mod idl;
pub mod label_guard;
pub mod pipe_text;
