//! The store of local transforms.

use vstd::prelude::*;
use crate::hierarchy::{computes, computes_product, multiplies, Hierarchy, Node};
use crate::id::Id;
use crate::positions::Positions;
use crate::layout::{
    end_of, grow, joined, lemma_depth_bounded, lemma_loc_in_range, lemma_slot_in_range, slot, spans,
    table_wf, total,
};

verus! {

/// One stored node: its parent's offset in the generation above and its local
/// transform.
pub struct Delta<T> {
    parent: usize,
    delta: T,
}

impl<T> View for Delta<T> {
    type V = Node<T>;

    closed spec fn view(&self) -> Node<T> {
        Node { parent: self.parent as nat, local: self.delta }
    }
}

impl<T: Default> Default for Delta<T> {
    /// A node whose parent offset is `0` and whose local transform is the default
    /// of its type.
    fn default() -> (node: Delta<T>)
        ensures
            node@.parent == 0,
            T::default.ensures((), node@.local),
    {
        Delta { parent: 0, delta: T::default() }
    }
}

impl<T: Copy> Clone for Delta<T> {
    fn clone(&self) -> (copy: Delta<T>)
        ensures
            copy == *self,
    {
        Delta { parent: self.parent, delta: self.delta }
    }
}

/// A transform hierarchy: all local transforms in one flat vector, generation
/// after generation, and a table that says where each generation lies.
pub struct Deltas<T> {
    gen: Vec<(usize, usize)>,
    delta: Vec<Delta<T>>,
}

impl<T> View for Deltas<T> {
    type V = Hierarchy<T>;

    closed spec fn view(&self) -> Hierarchy<T> {
        Hierarchy {
            table: spans(self.gen@),
            nodes: Seq::new(self.delta@.len(), |i: int| self.delta@[i]@),
        }
    }
}

impl<T> Deltas<T> {
    /// A hierarchy that holds only the root, whose local transform is `root`.
    pub fn new(root: T) -> (deltas: Deltas<T>)
        ensures
            deltas@ == Hierarchy::create(root),
            deltas@.wf(),
    {
        let deltas = Deltas { gen: vec![(0, 1)], delta: vec![Delta { parent: 0, delta: root }] };
        assert(deltas@.table =~= Hierarchy::create(root).table);
        assert(deltas@.nodes =~= Hierarchy::create(root).nodes);
        deltas
    }

    /// The address of the root.
    pub fn root() -> (id: Id)
        ensures
            id == Id(0, 0),
    {
        Id(0, 0)
    }

    fn get_loc(&self, id: Id) -> (loc: usize)
        requires
            self@.wf(),
            self@.contains(id),
        ensures
            loc == self@.loc(id),
            loc < self.delta.len(),
    {
        let Id(gen, offset) = id;
        let (gen_offset, _) = self.gen[gen];
        proof {
            lemma_loc_in_range(self@.table, id);
        }
        gen_offset + offset
    }

    /// The number of nodes, the root included.
    pub fn len(&self) -> (count: usize)
        ensures
            count == self@.nodes.len(),
    {
        self.delta.len()
    }

    /// Whether a node with this address exists.
    pub fn contains(&self, id: Id) -> (found: bool)
        ensures
            found == self@.contains(id),
    {
        id.0 < self.gen.len() && id.1 < self.gen[id.0].1
    }

    /// Makes room in the table for one more node in generation `gen`, which is
    /// either an existing generation or the first one past the deepest. Returns
    /// the flat index at which the node is to be stored, and its offset within
    /// its generation.
    fn add_loc(&mut self, gen: usize) -> (place: (usize, usize))
        requires
            old(self)@.wf(),
            1 <= gen <= old(self)@.table.len(),
            old(self)@.nodes.len() < usize::MAX,
        ensures
            final(self).delta == old(self).delta,
            final(self)@.table == grow(old(self)@.table, gen as int),
            place.0 == slot(old(self)@.table, gen as int),
            Id(gen, place.1) == joined(old(self)@.table, gen as int),
    {
        if gen == self.gen.len() {
            let (s, len) = self.gen[gen - 1];
            self.gen.push((s + len, 1));
            (s + len, 0)
        } else {
            let ghost before = self@.table;
            let ghost grown = grow(before, gen as int);
            let mut i: usize = gen + 1;
            while i < self.gen.len()
                invariant
                    gen < i <= self.gen.len(),
                    self.gen.len() == before.len(),
                    self.delta == old(self).delta,
                    table_wf(before),
                    total(before) < usize::MAX,
                    grown == grow(before, gen as int),
                    forall|g: int|
                        0 <= g <= gen || i <= g < before.len() ==> self@.table[g]
                            == #[trigger] before[g],
                    forall|g: int| gen < g < i ==> self@.table[g] == #[trigger] grown[g],
                decreases self.gen.len() - i,
            {
                let (off, len) = self.gen[i];
                proof {
                    lemma_depth_bounded(before, i as int);
                }
                self.gen[i] = (off + 1, len);
                i += 1;
            }
            let (off, len) = self.gen[gen];
            proof {
                lemma_depth_bounded(before, gen as int);
            }
            self.gen[gen] = (off, len + 1);
            assert forall|g: int| 0 <= g < before.len() implies self@.table[g] == grown[g] by {}
            (off + len, len)
        }
    }

    /// Adds a child of `parent` with local transform `delta` and returns its
    /// address: it is the last node of the generation below `parent`. `parent` must
    /// be the address of a node of this hierarchy, and there must be room for one
    /// more node.
    pub fn insert(&mut self, parent: Id, delta: T) -> (id: Id)
        requires
            old(self)@.wf(),
            old(self)@.contains(parent),
            old(self)@.nodes.len() < usize::MAX,
        ensures
            final(self)@ == old(self)@.insert(parent, delta),
            final(self)@.wf(),
            id == old(self)@.next_id(parent),
    {
        let Id(gen, pid) = parent;
        proof {
            lemma_depth_bounded(self@.table, gen as int);
        }
        let (loc, id) = self.add_loc(gen + 1);
        proof {
            lemma_slot_in_range(old(self)@.table, gen + 1);
        }
        let node = Delta { parent: pid, delta };
        self.delta.insert(loc, node);
        proof {
            assert(self@.nodes =~= old(self)@.nodes.insert(loc as int, node@));
            old(self)@.lemma_insert_wf(parent, delta);
        }
        Id(gen + 1, id)
    }

    /// Replaces the local transform of the node at `id`. Nothing else changes.
    pub fn update(&mut self, id: Id, delta: T)
        requires
            old(self)@.wf(),
            old(self)@.contains(id),
        ensures
            final(self)@ == old(self)@.update(id, delta),
            final(self)@.wf(),
    {
        let loc = self.get_loc(id);
        self.delta[loc].delta = delta;
        proof {
            assert(self@.nodes =~= old(self)@.update(id, delta).nodes);
            old(self)@.lemma_update_wf(id, delta);
        }
    }
}

impl<T> Deltas<T> {
    /// The world matrix of the node at `id`: the matrix of the root's transform,
    /// times the matrices of the transforms on the way down to the node, in that
    /// order. `to_mat` gives the matrix of a transform and `mul_m` the product of
    /// two matrices; `to_mat` must accept the transform of every node and `mul_m`
    /// every pair of matrices.
    pub fn get_mat<M, F: Fn(&T) -> M, G: Fn(&M, &M) -> M>(
        &self,
        id: Id,
        to_mat: &F,
        mul_m: &G,
    ) -> (mat: M)
        requires
            self@.wf(),
            self@.contains(id),
            self@.converts(*to_mat),
            multiplies(*mul_m),
        ensures
            self@.resolves(id, *to_mat, *mul_m, mat),
            forall|matrix: spec_fn(T) -> M, product: spec_fn(M, M) -> M|
                computes(*to_mat, matrix) && computes_product(*mul_m, product) ==> mat
                    == #[trigger] self@.world(id, matrix, product),
        decreases id.0,
    {
        let loc = self.get_loc(id);
        assert(self@.node(id) == self.delta[loc as int]@);
        let mat = match id {
            Id(0, _) => to_mat(&self.delta[loc].delta),
            Id(gen, _) => {
                let own = to_mat(&self.delta[loc].delta);
                let parent = Id(gen - 1, self.delta[loc].parent);
                let above = self.get_mat(parent, to_mat, mul_m);
                mul_m(&above, &own)
            },
        };
        proof {
            assert forall|matrix: spec_fn(T) -> M, product: spec_fn(M, M) -> M|
                computes(*to_mat, matrix) && computes_product(*mul_m, product) implies mat
                == #[trigger] self@.world(id, matrix, product) by {
                self@.lemma_resolves_world(id, *to_mat, *mul_m, matrix, product, mat);
            }
        }
        mat
    }

    /// Resolves the world matrix of every node in one pass over the generations
    /// and returns them as a snapshot that owns its matrices and its table. The
    /// root's matrix is the matrix of its own transform; every other node's is the
    /// matrix just computed for its parent times the matrix of its own transform.
    /// Where `to_mat` and `mul_m` compute known functions, the snapshot holds for
    /// every node the very matrix that `get_mat` returns for it.
    pub fn to_positions<M, F: Fn(&T) -> M, G: Fn(&M, &M) -> M>(
        &self,
        to_mat: &F,
        mul_m: &G,
    ) -> (positions: Positions<M>)
        requires
            self@.wf(),
            self@.converts(*to_mat),
            multiplies(*mul_m),
        ensures
            positions@.wf(),
            self@.flattens_to(positions@, *to_mat, *mul_m),
            forall|id: Id, matrix: spec_fn(T) -> M, product: spec_fn(M, M) -> M|
                self@.contains(id) && computes(*to_mat, matrix) && computes_product(*mul_m, product)
                    ==> positions@.world_matrix(id) == #[trigger] self@.world(id, matrix, product),
    {
        let mut mat: Vec<M> = Vec::new();
        assert(self@.node(Id(0, 0)) == self.delta[0]@);
        mat.push(to_mat(&self.delta[0].delta));
        let mut last_gen_off: usize = 0;
        let mut g: usize = 1;
        while g < self.gen.len()
            invariant
                1 <= g <= self.gen.len(),
                self@.wf(),
                self@.converts(*to_mat),
                multiplies(*mul_m),
                last_gen_off == self@.table[g - 1].start,
                mat.len() == end_of(self@.table, g - 1),
                forall|id: Id|
                    self@.contains(id) && self@.loc(id) < mat.len() ==> #[trigger] self@.composed(
                        id,
                        mat@,
                        *to_mat,
                        *mul_m,
                    ),
            decreases self.gen.len() - g,
        {
            let (gen_off, len) = self.gen[g];
            proof {
                lemma_depth_bounded(self@.table, g as int);
            }
            let mut off: usize = gen_off;
            while off < gen_off + len
                invariant
                    1 <= g < self.gen.len(),
                    self@.wf(),
                    self@.converts(*to_mat),
                    multiplies(*mul_m),
                    last_gen_off == self@.table[g - 1].start,
                    gen_off == self@.table[g as int].start,
                    len == self@.table[g as int].len,
                    gen_off <= off <= gen_off + len <= usize::MAX,
                    mat.len() == off,
                    forall|id: Id|
                        self@.contains(id) && self@.loc(id) < mat.len() ==> #[trigger] self@.composed(
                            id,
                            mat@,
                            *to_mat,
                            *mul_m,
                        ),
                decreases gen_off + len - off,
            {
                let ghost id = Id(g, (off - gen_off) as usize);
                let ghost before = mat@;
                proof {
                    assert(self@.contains(id));
                    lemma_loc_in_range(self@.table, id);
                }
                let ploc = last_gen_off + self.delta[off].parent;
                let own = to_mat(&self.delta[off].delta);
                let nmat = mul_m(&mat[ploc], &own);
                mat.push(nmat);
                proof {
                    self@.lemma_composed_extends(before, nmat, id, own, *to_mat, *mul_m);
                }
                off += 1;
            }
            last_gen_off = gen_off;
            g += 1;
        }
        let positions = Positions::assemble(copy_table(&self.gen), mat);
        proof {
            assert forall|id: Id| #[trigger] self@.contains(id) implies self@.composed(
                id,
                positions@.matrices,
                *to_mat,
                *mul_m,
            ) by {
                lemma_loc_in_range(self@.table, id);
            }
            assert forall|id: Id, matrix: spec_fn(T) -> M, product: spec_fn(M, M) -> M|
                self@.contains(id) && computes(*to_mat, matrix) && computes_product(
                    *mul_m,
                    product,
                ) implies positions@.world_matrix(id) == #[trigger] self@.world(
                id,
                matrix,
                product,
            ) by {
                self@.lemma_flatten_world(positions@, id, *to_mat, *mul_m, matrix, product);
            }
        }
        positions
    }
}

/// A copy of a generation table.
fn copy_table(table: &Vec<(usize, usize)>) -> (copy: Vec<(usize, usize)>)
    ensures
        copy@ == table@,
{
    let mut copy: Vec<(usize, usize)> = Vec::with_capacity(table.len());
    let mut g: usize = 0;
    while g < table.len()
        invariant
            g <= table.len(),
            copy@ == table@.take(g as int),
        decreases table.len() - g,
    {
        copy.push(table[g]);
        g += 1;
    }
    copy
}

impl<T: Default> Default for Deltas<T> {
    /// A hierarchy that holds only the root, whose local transform is the default
    /// of its type.
    fn default() -> (deltas: Deltas<T>)
        ensures
            deltas@.wf(),
            deltas@ == Hierarchy::create(deltas@.local(Id(0, 0))),
            T::default.ensures((), deltas@.local(Id(0, 0))),
    {
        let root: Delta<T> = Delta::default();
        let deltas = Deltas { gen: vec![(0, 1)], delta: vec![root] };
        assert(deltas@.table =~= Hierarchy::create(root@.local).table);
        assert(deltas@.nodes =~= Hierarchy::create(root@.local).nodes);
        deltas
    }
}

impl<T: Copy> Clone for Deltas<T> {
    /// A deep copy: a hierarchy of its own that holds the same nodes under the same
    /// addresses. An owner that shares a hierarchy copies it before changing it.
    fn clone(&self) -> (copy: Deltas<T>)
        ensures
            copy@ == self@,
    {
        let mut delta: Vec<Delta<T>> = Vec::with_capacity(self.delta.len());
        let mut i: usize = 0;
        while i < self.delta.len()
            invariant
                i <= self.delta.len(),
                delta@ == self.delta@.take(i as int),
            decreases self.delta.len() - i,
        {
            delta.push(self.delta[i].clone());
            assert(self.delta@.take(i + 1) =~= self.delta@.take(i as int).push(
                self.delta@[i as int],
            ));
            i += 1;
        }
        let copy = Deltas { gen: copy_table(&self.gen), delta };
        assert(copy@.nodes =~= self@.nodes);
        copy
    }
}

impl<T: Copy> Deltas<T> {
    /// The local transform of the node at `id`.
    pub fn get_delta(&self, id: Id) -> (delta: T)
        requires
            self@.wf(),
            self@.contains(id),
        ensures
            delta == self@.local(id),
    {
        let loc = self.get_loc(id);
        self.delta[loc].delta
    }
}

} // verus!
