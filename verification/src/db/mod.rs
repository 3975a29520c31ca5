//! The records the journal keeps and the rules the database applies to
//! them: orderings, filters, the task stopwatch and duplicate folding.
pub mod backup;
pub mod log_entry;
pub mod project;
pub mod task;
