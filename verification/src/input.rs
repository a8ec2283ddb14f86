//! Player-facing input settings.

use vstd::prelude::*;

verus! {

/// How the camera moves.
#[derive(Clone, Copy, Debug, PartialEq, Eq, Structural)]
pub enum CameraType {
    /// Follows the player.
    Following,
    /// Moves freely.
    Free,
    /// Neither roams nor follows; for cutscenes and the like.
    Locked,
}

impl Default for CameraType {
    fn default() -> (c: CameraType)
        ensures
            c == CameraType::Following,
    {
        CameraType::Following
    }
}

impl CameraType {
    /// The camera type after the player toggles it: following and free swap,
    /// a locked camera stays locked.
    pub open spec fn toggled(self) -> CameraType {
        match self {
            CameraType::Free => CameraType::Following,
            CameraType::Following => CameraType::Free,
            CameraType::Locked => CameraType::Locked,
        }
    }

    pub fn toggle(self) -> (c: CameraType)
        ensures
            c == self.toggled(),
    {
        match self {
            CameraType::Free => CameraType::Following,
            CameraType::Following => CameraType::Free,
            _ => self,
        }
    }
}

/// Toggling the camera twice gives back the camera it started with.
pub proof fn lemma_toggle_twice(c: CameraType)
    ensures
        c.toggled().toggled() == c,
{
}

} // verus!
