//! Leader scheduling and commit linearization for a DAG-based consensus engine.
//!
//! A fixed committee of weighted authorities proposes blocks that reference
//! earlier blocks. This crate names the leader of every round and slot,
//! replaces poorly scored leaders with well scored ones, and turns an agreed
//! sequence of leader blocks into a linear sequence of commits.

pub mod block;
pub mod commit;
pub mod committee;
pub mod dag_state;
pub mod hashing;
pub mod leader_schedule;
pub mod leader_scoring;
pub mod linearizer;
pub mod object_change;
pub mod ordering;
pub mod random;
pub mod types;
