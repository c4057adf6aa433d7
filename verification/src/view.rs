//! How a puzzle is shown.

use vstd::prelude::*;
use vstd::string::*;

verus! {

/// Way of rendering the puzzle.
#[derive(Debug, Clone, Copy, PartialEq, Eq, Hash, Structural)]
pub enum RenderEngine {
    /// Everything in one pass.
    SinglePass,
    /// Several passes, for a better picture.
    MultiPass,
}

impl Default for RenderEngine {
    fn default() -> (r: RenderEngine)
        ensures
            r == RenderEngine::MultiPass,
    {
        RenderEngine::MultiPass
    }
}

impl RenderEngine {
    /// The name under which the engine is offered.
    pub open spec fn spec_describe(self) -> Seq<char> {
        match self {
            RenderEngine::SinglePass => "Fast"@,
            RenderEngine::MultiPass => "Fancy"@,
        }
    }

    /// Returns the name under which the engine is offered.
    pub fn describe(self) -> (s: String)
        ensures
            s@ == self.spec_describe(),
    {
        match self {
            RenderEngine::SinglePass => "Fast".to_owned(),
            RenderEngine::MultiPass => "Fancy".to_owned(),
        }
    }
}

/// Marker for the small widget that shows a hint when hovered.
#[derive(Debug, Clone, Copy, PartialEq, Eq, Structural)]
pub struct HintWidget;

} // verus!
