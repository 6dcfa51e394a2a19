//! Deterministic interleaving harness for cooperatively scheduled tasks.
//!
//! The verified core: label matchers (`label_spec`), hierarchical task ids
//! (`task_id`), the registry of task controllers with late binding and
//! isolation (`registry`), the driver-side decisions of the label/advance
//! rendezvous (`advance`), and a single-threaded run of scripted tasks under
//! that rendezvous (`simulation`). A list of strings shared between tasks is
//! in `utils`.
pub mod advance;
pub mod label_spec;
pub mod registry;
pub mod simulation;
pub mod task_id;
pub mod text;
pub mod utils;
