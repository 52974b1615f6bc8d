//! A plain-text daily task log: days of named sections of tasks, kept in a
//! line-oriented text format, with parsing, serialization, day advancement and
//! a merge-on-save protocol.

#![verifier::loop_isolation(false)]

pub mod date;
pub mod day;
pub mod scan;
pub mod section;
pub mod task;
pub mod text;
pub mod todo;
pub mod util;

pub use date::Date;
pub use day::{Day, DayIterator};
pub use section::{Section, SectionIterator};
pub use todo::Todo;
pub use task::Task;
pub use util::today;
pub use util::TodoError;
