//! Identifiers for sounds.

use vstd::prelude::*;

verus! {

/// A key by which sounds are stored and played, usually an enum.
pub trait SoundId: Eq + std::hash::Hash + Copy {
}

impl<T: Eq + std::hash::Hash + Copy> SoundId for T {
}

} // verus!
