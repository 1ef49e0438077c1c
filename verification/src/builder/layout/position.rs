//! Placement helpers over the recognised group structure.

use vstd::prelude::*;

use super::types::{LogicalGroup, NodeId};

verus! {

/// The node a group starts with (empty when a chain starts without a node).
pub open spec fn spec_first_node_id(group: LogicalGroup) -> Seq<char> {
    match group {
        LogicalGroup::Leaf { node_id } => node_id@,
        LogicalGroup::Chain { items } => if items@.len() > 0 && items@[0].node_id is Some {
            items@[0].node_id->0@
        } else {
            Seq::empty()
        },
        LogicalGroup::Branch { source, .. } => source@,
        LogicalGroup::Cycle { condition, .. } => condition@,
    }
}

/// The id of the node a group starts with: the leaf, the branch source, the
/// cycle condition, or the node of a chain's first item (empty when that
/// item is a nested group or the chain is empty).
pub fn get_first_node_id(group: &LogicalGroup) -> (id: NodeId)
    ensures
        id@ == spec_first_node_id(*group),
{
    match group {
        LogicalGroup::Leaf { node_id } => node_id.clone(),
        LogicalGroup::Chain { items } => {
            if items.len() > 0 {
                match &items[0].node_id {
                    Some(id) => id.clone(),
                    None => String::new(),
                }
            } else {
                String::new()
            }
        },
        LogicalGroup::Branch { source, .. } => source.clone(),
        LogicalGroup::Cycle { condition, .. } => condition.clone(),
    }
}

} // verus!
