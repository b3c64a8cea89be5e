//! Debounced restart supervisor for a file-watching command runner.
//!
//! The library holds the decision logic of the tool: which filesystem
//! events count as triggers, when a trigger is accepted by the debounce
//! filter, and what sequence of process operations a restart performs.
//! The surrounding program performs the operations (signals, reaping,
//! sleeping, spawning) and feeds events and spawn results back in.

mod cli;
mod debounce;
mod event;
mod supervisor;

pub use cli::CliConfig;
pub use cli::CliError;
pub use cli::first_invalid;
pub use cli::parse_args;
pub use debounce::DEBOUNCE_MS;
pub use debounce::accepted_of;
pub use debounce::accepts;
pub use debounce::debounce_accepts;
pub use debounce::lemma_debounce_spacing;
pub use event::EventKind;
pub use event::is_trigger;
pub use supervisor::GRACE_MS;
pub use supervisor::Op;
pub use supervisor::Supervisor;
pub use supervisor::fired_times;
pub use supervisor::lemma_at_most_one_live_child;
pub use supervisor::lemma_fired_times_spaced;
pub use supervisor::lemma_grace_between_reap_and_spawn;
pub use supervisor::lemma_non_trigger_never_fires;
pub use supervisor::lemma_restart_terminates_before_spawn;
pub use supervisor::lemma_signal_addresses_group;
pub use supervisor::managed;
pub use supervisor::reap_count;
pub use supervisor::restart_plan;
pub use supervisor::run_ops;
pub use supervisor::spawn_count;
