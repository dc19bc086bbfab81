//! Machine and node coordinates for distributed identifier generation.

use vstd::prelude::*;

verus! {

/// The machine and node identifiers that distinguish one identifier
/// generator from another in a distributed deployment.  Both coordinates
/// must lie in `0..=31`: together they form the worker id of the Snowflake
/// layout, which reserves five bits for each.
#[derive(Debug, Copy, Clone, PartialEq, Eq, Structural, Hash)]
pub struct MachineNode {
    /// The coarser coordinate: a physical machine or cluster.
    pub machine_id: i32,
    /// The finer coordinate: a node within the machine.
    pub node_id: i32,
}

/// A coordinate outside the five-bit range that the Snowflake layout allows.
#[derive(Debug, Copy, Clone, PartialEq, Eq, Structural)]
pub enum MachineNodeError {
    /// `machine_id` was not in `0..=31`.
    MachineIdOutOfRange,
    /// `node_id` was not in `0..=31`.
    NodeIdOutOfRange,
}

impl MachineNode {
    /// Whether both coordinates fit the five bits the layout gives them.
    pub open spec fn wf(&self) -> bool {
        &&& 0 <= self.machine_id <= 31
        &&& 0 <= self.node_id <= 31
    }

    /// Builds a validated coordinate pair, rejecting out-of-range values.
    pub fn new(machine_id: i32, node_id: i32) -> (r: Result<Self, MachineNodeError>)
        ensures
            match r {
                Ok(node) => node.machine_id == machine_id && node.node_id == node_id
                    && node.wf(),
                Err(e) => {
                    ||| (e == MachineNodeError::MachineIdOutOfRange && !(0 <= machine_id <= 31))
                    ||| (e == MachineNodeError::NodeIdOutOfRange && 0 <= machine_id <= 31 && !(0
                        <= node_id <= 31))
                },
            },
    {
        if machine_id < 0 || machine_id > 31 {
            Err(MachineNodeError::MachineIdOutOfRange)
        } else if node_id < 0 || node_id > 31 {
            Err(MachineNodeError::NodeIdOutOfRange)
        } else {
            Ok(MachineNode { machine_id, node_id })
        }
    }
}

impl Default for MachineNode {
    /// The single-node default: machine 1, node 1.
    fn default() -> (r: Self)
        ensures
            r.machine_id == 1,
            r.node_id == 1,
            r.wf(),
    {
        MachineNode { machine_id: 1, node_id: 1 }
    }
}

} // verus!
