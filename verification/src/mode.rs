//! The processing modes a document can be put through, and the engines
//! behind them: free-form editing replayed as a structural diff, and
//! recursive merging of one document into another.

use vstd::prelude::*;

pub mod edit;
pub mod merge;

verus! {

/// One way of transforming a fetched document.
#[derive(Clone, Copy, Debug, PartialEq, Eq, PartialOrd, Ord, Hash, Structural)]
pub enum Mode {
    Edit,
    Components,
}

impl Mode {
    /// The short label shown for this mode in menus.
    pub fn label(&self) -> (r: String)
        ensures
            *self == Mode::Edit ==> r@ == "edit"@,
            *self == Mode::Components ==> r@ == "components"@,
    {
        match self {
            Mode::Edit => String::from_str("edit"),
            Mode::Components => String::from_str("components"),
        }
    }
}

} // verus!
