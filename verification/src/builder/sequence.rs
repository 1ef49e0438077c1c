//! Sequence diagram layout engine.

use vstd::prelude::*;

use crate::ast::SequenceDiagram;

verus! {

/// Layout engine of a sequence diagram.
pub struct SequenceEngine<'a> {
    seq: &'a SequenceDiagram,
}

impl<'a> SequenceEngine<'a> {
    /// The diagram this engine lays out.
    pub closed spec fn diagram(&self) -> &'a SequenceDiagram {
        self.seq
    }

    /// An engine for `seq`.
    pub fn new(seq: &'a SequenceDiagram) -> (e: Self)
        ensures
            e.diagram() == seq,
    {
        Self { seq }
    }
}

} // verus!
