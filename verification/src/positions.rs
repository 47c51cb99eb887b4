//! The flattened snapshot of a hierarchy.

use vstd::prelude::*;
use crate::hierarchy::Snapshot;
use crate::id::Id;
use crate::layout::{lemma_loc_in_range, spans};

verus! {

/// The world matrices of all nodes of a hierarchy at one moment, in one dense
/// vector, with the table that says where each generation lies in it.
pub struct Positions<M> {
    gen: Vec<(usize, usize)>,
    pos: Vec<M>,
}

impl<M> View for Positions<M> {
    type V = Snapshot<M>;

    closed spec fn view(&self) -> Snapshot<M> {
        Snapshot { table: spans(self.gen@), matrices: self.pos@ }
    }
}

impl<M> Positions<M> {
    /// Puts a table and the matrices it accounts for together.
    pub(crate) fn assemble(gen: Vec<(usize, usize)>, pos: Vec<M>) -> (positions: Positions<M>)
        ensures
            positions@ == (Snapshot { table: spans(gen@), matrices: pos@ }),
    {
        Positions { gen, pos }
    }

    /// The address of the root.
    pub fn root() -> (id: Id)
        ensures
            id == Id(0, 0),
    {
        Id(0, 0)
    }

    /// The number of matrices, the root's included.
    pub fn len(&self) -> (count: usize)
        ensures
            count == self@.matrices.len(),
    {
        self.pos.len()
    }

    /// Whether the snapshot has a matrix for this address.
    pub fn contains(&self, id: Id) -> (found: bool)
        ensures
            found == self@.contains(id),
    {
        id.0 < self.gen.len() && id.1 < self.gen[id.0].1
    }

    /// The index, in the dense vector, of the matrix of the node at `id`.
    pub fn get_loc(&self, id: Id) -> (loc: usize)
        requires
            self@.wf(),
            self@.contains(id),
        ensures
            loc == self@.loc(id),
            loc < self@.matrices.len(),
    {
        let Id(gen, offset) = id;
        let (gen_offset, _) = self.gen[gen];
        proof {
            lemma_loc_in_range(self@.table, id);
        }
        gen_offset + offset
    }

    /// All world matrices, in the order in which the nodes are stored.
    pub fn matrices(&self) -> (all: &[M])
        ensures
            all@ == self@.matrices,
    {
        self.pos.as_slice()
    }
}

impl<M: Copy> Positions<M> {
    /// The world matrix of the node at `id`.
    pub fn get_mat(&self, id: Id) -> (mat: M)
        requires
            self@.wf(),
            self@.contains(id),
        ensures
            mat == self@.world_matrix(id),
    {
        self.pos[self.get_loc(id)]
    }
}

} // verus!
