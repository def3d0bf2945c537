//! What an action comes to, for the app to carry out.

use vstd::prelude::*;

verus! {

/// What an action comes to.
pub enum Target {
    /// Nothing to do.
    Ignore,
    /// Tell the user this.
    Notify(String),
    /// Reveal this path: go to its directory and hover it.
    Reveal(String),
}

/// The kind of a target (0 ignore, 1 notify, 2 reveal) and its text.
pub open spec fn target_view(t: Target) -> (int, Seq<char>) {
    match t {
        Target::Ignore => (0, Seq::empty()),
        Target::Notify(m) => (1, m@),
        Target::Reveal(p) => (2, p@),
    }
}

} // verus!
