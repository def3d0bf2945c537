//! The arguments of the quarter action, and the set-up of the library.

use vstd::prelude::*;

verus! {

/// What the `quarter_arrow` action was asked for: to go to the previous
/// quarter (`prev`) or the next one.
pub struct QuarterArrowForm {
    pub prev: bool,
}

impl QuarterArrowForm {
    /// The form for the `--previous` flag.
    pub fn from_args(previous: bool) -> (res: Self)
        ensures
            res.prev == previous,
    {
        QuarterArrowForm { prev: previous }
    }
}

/// Sets the library up for tests. It keeps no state of its own that would
/// need setting up, so nothing is done, however often this is called.
pub fn init_tests() {
}

} // verus!
