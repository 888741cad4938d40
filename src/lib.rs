//! Agent-based simulation of a population whose discrete phenotype evolves
//! under environment-dependent birth and death pressure.
//!
//! The crate holds the verified part of the simulator: range checks on the
//! configuration, the agent and population data model, the binary frame
//! layout of a population snapshot, and the integer side of the per-step
//! state transition (selection, death removal, capacity trimming and the
//! population counter). Weights are carried as IEEE-754 binary64 bit
//! patterns; the floating-point work on them is done by the caller.

mod bytes;
mod data;
mod frame;
mod params;
mod removal;
mod rng;
mod run;
mod step;

pub use data::{agent_views, agents_valid, AgentError, AgentView, AgtData, SimData, SnapshotView};
pub use frame::{
    agent_bytes, agent_len, agents_bytes, encodable, frame_bytes, holds_frame, i32_bits,
    lemma_read_after_write, starts_with, weights_bytes, FrameError,
};
pub use bytes::{le_bytes, le_value, pow256};
pub use removal::{
    ascending_positions, flagged, picked, remove_descending, selected_positions,
    strictly_increasing, swap_remove_at,
};
pub use run::{lemma_run_schedule, run_from, schedule, RunAction, RunState};
pub use step::{
    lemma_counter_ignores_trimming, lemma_step_keeps_valid, lemma_step_within_cap, step_outcome,
    step_sequence, survivors, trimmed, trimmed_at, InitError,
};
pub use params::{
    check_length, check_number, check_shape, CheckError, Counts, ParamError, MAX_ENVIRONMENTS,
    MAX_INITIAL_AGENTS, MAX_PHENOTYPES, MAX_SAVES_PER_FILE, MAX_STEPS_PER_SAVE,
};
