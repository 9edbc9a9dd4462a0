//! Cost model and analyzer for compiled arithmetic circuits.
//!
//! The crate estimates the proving cost of a circuit from its opcodes, keeps
//! a calibrated table of per-operation costs, and compares analyses.  All
//! quantities are integers: a confidence is a number of millionths, a cost a
//! number of constraints.
//!
//! Every read of a cost is perturbed by noise that the wall clock picks.
//! Each function that reads the clock has a twin, named with a trailing
//! `_at`, that takes the clock readings as arguments and whose result is
//! fully determined by them.

pub mod analyzer;
pub mod batch;
pub mod clock;
pub mod comparator;
pub mod cost_model;
pub mod error;
pub mod json;
pub mod ordering;
pub mod record;
pub mod search;
pub mod tally;
pub mod text;
pub mod witness;

pub use analyzer::{
    analyze_circuit, analyze_record, analyze_record_at, apply_feedback, arrange_descending,
    constraint_breakdown, has_sequential_dependencies, proving_time_basis, scan_record,
    AnalysisNoise, CircuitAnalysis, ConstraintBreakdown, ParallelGain, ProvingTimeBasis,
};
pub use batch::{batch_analyze, is_circuit_file, CircuitFile};
pub use comparator::{analyze_diff_from_cost_model, compare_circuits, count_changes, CostDiff};
pub use cost_model::{
    apply_real_world_variability, find_operations_by_cost, find_operations_by_cost_at,
    get_cost_database, get_operation_cost, get_operation_details, load_cost_database,
    load_cost_database_at, operation_details_at, seeded_database_at, update_cost_database,
    update_cost_database_at, variability_at, CostDatabase, CostDatabaseView, CostEntry,
    MatchNoise,
};
pub use error::AnalysisError;
pub use record::{parse_circuit, CircuitRecord, Opcode};
pub use witness::{count_private_inputs, count_witnesses};
