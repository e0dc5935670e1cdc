use vstd::prelude::*;

pub mod checklist;
pub mod cli;
pub mod clock;
pub mod commit;
pub mod config;
pub mod discover;
pub mod goose;
pub mod json;
pub mod loop_engine;
pub mod number;
pub mod plan;
pub mod recipes;
pub mod report;
pub mod roundtrip;
pub mod run_loop;
pub mod state;
pub mod status;
pub mod text;
pub mod verify;

verus! {

/// The directory that holds everything the harness writes.
pub const REVIEW_DIR: &'static str = ".review";

} // verus!
