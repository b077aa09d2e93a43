//! The pure form of a working tree: what a commit takes in and what a
//! checkout hands back. Callers mirror a real directory tree into this
//! type and write it back out; the engine itself never touches a disk.

use vstd::prelude::*;

verus! {

/// One node of a working tree: a file with its bytes, or a folder with
/// its entries in directory order.
pub enum WorkNode {
    File { name: Vec<u8>, data: Vec<u8> },
    Folder { name: Vec<u8>, entries: Vec<WorkNode> },
}

impl WorkNode {
    /// The node's own name.
    pub fn name(&self) -> (r: &Vec<u8>)
        ensures
            self matches WorkNode::File { name, .. } ==> r@ == name@,
            self matches WorkNode::Folder { name, .. } ==> r@ == name@,
    {
        match self {
            WorkNode::File { name, .. } => name,
            WorkNode::Folder { name, .. } => name,
        }
    }
}

} // verus!
