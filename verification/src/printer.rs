//! The printers with a built-in profile.

use vstd::prelude::*;

verus! {

/// A printer with a built-in profile.
#[derive(Clone, Copy, Debug, Default, PartialEq, Eq, Structural)]
pub enum PrinterId {
    #[default]
    Saturn3,
}

} // verus!
