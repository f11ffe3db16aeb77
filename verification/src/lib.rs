//! An interruptible, verbosity-controllable sleep library.
//!
//! The crate holds the core of a polling sleep utility: a duration
//! parsed from decimal text with millisecond resolution, an ordered
//! verbosity level, a status reporter that filters messages by that
//! level, and the scheduler that decides, cycle by cycle, whether to
//! keep sleeping, for how long, or to stop. The caller owns the
//! clock, the interrupt latch and the actual suspension; everything
//! the loop decides from what it observes is specified and proved
//! here.

pub mod duration;
pub mod error;
pub mod output;
pub mod scheduler;
pub mod verbosity;
