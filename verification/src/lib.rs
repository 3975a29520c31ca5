//! Work journal and to-do core: the records, their orderings and filters,
//! the task stopwatch, report shaping, CSV fields and the notes editor's
//! markdown actions.
use vstd::prelude::*;

pub mod calendar;
pub mod db;
pub mod idle;
pub mod like;
pub mod md_layout;
pub mod notes;
pub mod order;
pub mod report;
pub mod session;
pub mod text;

verus! {

} // verus!
