use vstd::prelude::*;

verus! {

/// The address of a node: its generation, which is its depth below the root,
/// and its offset among the nodes of that generation.
#[derive(Clone, Copy, Debug, PartialEq, Eq, Structural, PartialOrd, Ord, Hash)]
pub struct Id(pub usize, pub usize);

impl Default for Id {
    /// The default address is that of the root.
    fn default() -> (id: Id)
        ensures
            id == Id(0, 0),
    {
        Id(0, 0)
    }
}

} // verus!
