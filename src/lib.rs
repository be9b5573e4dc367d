//! Planning and bookkeeping for building OpenSSL for several Windows targets
//! and packaging the install trees into one zip archive.
//!
//! The library holds the logic of the tool: reading `NAME=VALUE` lines that
//! an environment setup script prints, laying out archive entries for an
//! install tree, the fixed list of targets, and the order in which a run
//! performs its steps. Running scripts, compiling and touching the disk are
//! left to the caller.
use vstd::prelude::*;

pub mod package;
pub mod provision;
pub mod run;
pub mod targets;

verus! {

} // verus!
