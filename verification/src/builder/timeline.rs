//! Timeline layout engine.

use vstd::prelude::*;

use crate::ast::TimelineDiagram;

verus! {

/// Layout engine of a timeline.
pub struct TimelineEngine<'a> {
    timeline: &'a TimelineDiagram,
}

impl<'a> TimelineEngine<'a> {
    /// The diagram this engine lays out.
    pub closed spec fn diagram(&self) -> &'a TimelineDiagram {
        self.timeline
    }

    /// An engine for `timeline`.
    pub fn new(timeline: &'a TimelineDiagram) -> (e: Self)
        ensures
            e.diagram() == timeline,
    {
        Self { timeline }
    }
}

} // verus!
