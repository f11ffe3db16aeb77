//! How much information the status reporter lets through.

use vstd::prelude::*;
use vstd::std_specs::cmp::PartialOrdSpec;
use core::cmp::Ordering;

verus! {

/// An ordered threshold, not a set of independent flags:
/// `Quiet < Normal < Verbose`.
#[derive(Clone, Copy, Debug, PartialEq, Eq, Structural)]
pub enum VerbosityLevel {
    /// Print nothing at all.
    Quiet,
    /// Print lifecycle messages.
    Normal,
    /// Print lifecycle messages and per-cycle progress.
    Verbose,
}

/// The position of a level in the order `Quiet < Normal < Verbose`.
pub open spec fn spec_rank(level: VerbosityLevel) -> int {
    match level {
        VerbosityLevel::Quiet => 0,
        VerbosityLevel::Normal => 1,
        VerbosityLevel::Verbose => 2,
    }
}

impl VerbosityLevel {
    /// The position of this level in the order, as a number.
    pub fn rank(&self) -> (r: u8)
        ensures
            r == spec_rank(*self),
    {
        match self {
            VerbosityLevel::Quiet => 0,
            VerbosityLevel::Normal => 1,
            VerbosityLevel::Verbose => 2,
        }
    }
}

impl PartialOrd for VerbosityLevel {
    fn partial_cmp(&self, other: &VerbosityLevel) -> (r: Option<Ordering>) {
        let a = self.rank();
        let b = other.rank();
        if a < b {
            Some(Ordering::Less)
        } else if a == b {
            Some(Ordering::Equal)
        } else {
            Some(Ordering::Greater)
        }
    }
}

impl vstd::std_specs::cmp::PartialOrdSpecImpl for VerbosityLevel {
    open spec fn obeys_partial_cmp_spec() -> bool {
        true
    }

    open spec fn partial_cmp_spec(&self, other: &VerbosityLevel) -> Option<Ordering> {
        if spec_rank(*self) < spec_rank(*other) {
            Some(Ordering::Less)
        } else if spec_rank(*self) == spec_rank(*other) {
            Some(Ordering::Equal)
        } else {
            Some(Ordering::Greater)
        }
    }
}

/// The three levels are totally ordered, `Quiet < Normal < Verbose`:
/// every pairwise comparison resolves, and resolves the same way in
/// both directions.
pub proof fn lemma_verbosity_order()
    ensures
        VerbosityLevel::Quiet.partial_cmp_spec(&VerbosityLevel::Normal) == Some(Ordering::Less),
        VerbosityLevel::Normal.partial_cmp_spec(&VerbosityLevel::Verbose) == Some(Ordering::Less),
        VerbosityLevel::Quiet.partial_cmp_spec(&VerbosityLevel::Verbose) == Some(Ordering::Less),
        VerbosityLevel::Normal.partial_cmp_spec(&VerbosityLevel::Quiet) == Some(Ordering::Greater),
        VerbosityLevel::Verbose.partial_cmp_spec(&VerbosityLevel::Normal) == Some(Ordering::Greater),
        VerbosityLevel::Verbose.partial_cmp_spec(&VerbosityLevel::Quiet) == Some(Ordering::Greater),
        forall|l: VerbosityLevel| #[trigger] l.partial_cmp_spec(&l) == Some(Ordering::Equal),
{
}

} // verus!
