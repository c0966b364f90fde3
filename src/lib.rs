//! Agreement core of a DAG-based BFT consensus engine: committee membership,
//! round-robin leader election, vote and timeout aggregation into quorum
//! certificates, header validation, and batch-request serving.
pub mod types;
pub mod committee;
pub mod leader;
pub mod aggregator;
pub mod header;
pub mod helper;
pub mod primary;
