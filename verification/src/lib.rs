//! Interval-overlap analysis by a sweep line: for each meeting of a batch
//! of time intervals, the maximum number of meetings open at any single
//! instant within that meeting's span. A calendar renderer can size an
//! event's width as the reciprocal of that value.
//!
//! The intervals are converted to sorted endpoint events, a single sweep
//! derives the running occupancy, and each interval reads off the peak
//! occupancy over the events of its own span. An interval ending exactly
//! where another starts does not overlap it.

pub mod concurrency;
pub mod counting;
pub mod events;
pub mod laws;
pub mod overlap;
pub mod sweep;

pub use events::Cap;
pub use events::create_breakpoints;
pub use overlap::InvalidInterval;
pub use overlap::is_valid;
pub use overlap::solve_max_overlap;
pub use sweep::create_stack_count;
pub use sweep::slice_index;
