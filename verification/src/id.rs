use vstd::prelude::*;

verus! {

/// A graph node identifier: the arena index of the node, recorded on the
/// node itself.  Identifiers are unique within an engine and strictly
/// increasing in order of construction, so they serve as visited-set keys
/// during traversal even when two nodes hold equal numeric values.
#[derive(Clone, Copy, PartialEq, Eq, Hash, Debug)]
pub struct Identifier {
    pub value: u32,
}

} // verus!
