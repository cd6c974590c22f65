use vstd::prelude::*;

use crate::nibble::{Nibble, NibblePath, MAX_NIBBLES};

verus! {

/// The version at which a node was written.
pub type Version = u64;

/// The address of a stored node: its version and its path from the root.
#[derive(Clone, Debug, PartialEq, Eq, Hash)]
pub struct NodeKey {
    version: Version,
    nibble_path: NibblePath,
}

impl View for NodeKey {
    type V = (Version, Seq<u8>);

    closed spec fn view(&self) -> (Version, Seq<u8>) {
        (self.version, self.nibble_path@)
    }
}

impl NodeKey {
    pub open spec fn wf(&self) -> bool {
        crate::nibble::valid_nibbles(self@.1)
    }

    pub fn new(version: Version, nibble_path: NibblePath) -> (r: NodeKey)
        requires
            nibble_path.wf(),
        ensures
            r@ == (version, nibble_path@),
            r.wf(),
    {
        NodeKey { version, nibble_path }
    }

    pub fn version(&self) -> (r: Version)
        ensures
            r == self@.0,
    {
        self.version
    }

    pub fn nibble_path(&self) -> (r: &NibblePath)
        ensures
            r@ == self@.1,
    {
        &self.nibble_path
    }

    /// The key of the child at nibble `n` below this node, written at `version`.
    pub fn gen_child_node_key(&self, version: Version, n: Nibble) -> (r: NodeKey)
        requires
            self.wf(),
            self@.1.len() < MAX_NIBBLES,
        ensures
            r.wf(),
            r@ == (version, self@.1.push(n@)),
    {
        let path = self.nibble_path.extended(n);
        NodeKey { version, nibble_path: path }
    }
}

} // verus!
