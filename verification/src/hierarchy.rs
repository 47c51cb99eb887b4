//! The mathematical model of a transform hierarchy.

use vstd::prelude::*;
use crate::id::Id;
use crate::layout::{
    grow, holds, joined, lemma_depth_bounded, lemma_grow_adds, lemma_grow_keeps, lemma_grow_wf,
    lemma_loc_in_range, lemma_loc_injective, lemma_slot_in_range, slot, table_wf, total, Span,
};

verus! {

/// One node of the model: where its parent lies in the generation above, and its
/// local transform.
pub struct Node<T> {
    /// Offset of the parent within the parent's generation.
    pub parent: nat,
    /// Transform of the node relative to its parent.
    pub local: T,
}

/// A hierarchy as a value: the generation table and the flat sequence of nodes,
/// generation after generation.
pub struct Hierarchy<T> {
    pub table: Seq<Span>,
    pub nodes: Seq<Node<T>>,
}

/// A flattened hierarchy as a value: the generation table and one world matrix
/// for every node, in the order in which the nodes are stored.
pub struct Snapshot<M> {
    pub table: Seq<Span>,
    pub matrices: Seq<M>,
}

impl<M> Snapshot<M> {
    /// Whether the snapshot has a matrix for this address.
    pub open spec fn contains(self, id: Id) -> bool {
        holds(self.table, id)
    }

    /// The index of the matrix of the node at `id`.
    pub open spec fn loc(self, id: Id) -> int {
        crate::layout::loc(self.table, id)
    }

    /// The world matrix of the node at `id`.
    pub open spec fn world_matrix(self, id: Id) -> M {
        self.matrices[self.loc(id)]
    }

    /// The table is well formed and accounts for exactly the stored matrices.
    pub open spec fn wf(self) -> bool {
        &&& table_wf(self.table)
        &&& self.matrices.len() == total(self.table)
    }
}

impl<T> Hierarchy<T> {
    /// Whether a node with this address exists.
    pub open spec fn contains(self, id: Id) -> bool {
        holds(self.table, id)
    }

    /// The flat index at which the node at `id` is stored.
    pub open spec fn loc(self, id: Id) -> int {
        crate::layout::loc(self.table, id)
    }

    /// The node at `id`.
    pub open spec fn node(self, id: Id) -> Node<T> {
        self.nodes[self.loc(id)]
    }

    /// The local transform of the node at `id`.
    pub open spec fn local(self, id: Id) -> T {
        self.node(id).local
    }

    /// The address of the parent of the node at `id`, which lies one generation
    /// above it.
    pub open spec fn parent(self, id: Id) -> Id {
        Id((id.0 - 1) as usize, self.node(id).parent as usize)
    }

    /// The table is well formed, it accounts for exactly the stored nodes, and
    /// the parent of every node below the root exists.
    pub open spec fn wf(self) -> bool {
        &&& table_wf(self.table)
        &&& self.nodes.len() == total(self.table)
        &&& forall|id: Id| #[trigger]
            self.contains(id) && id.0 > 0 ==> self.node(id).parent < self.table[id.0 - 1].len
    }

    /// The hierarchy that holds nothing but a root with the given transform.
    pub open spec fn create(root: T) -> Self {
        Hierarchy {
            table: seq![Span { start: 0, len: 1 }],
            nodes: seq![Node { parent: 0, local: root }],
        }
    }

    /// The address that the next child of `parent` gets: the first free offset of
    /// the generation below `parent`.
    pub open spec fn next_id(self, parent: Id) -> Id {
        joined(self.table, parent.0 + 1)
    }

    /// The hierarchy after a child of `parent` with transform `local` has been
    /// added. The child is stored right after the last node of its generation,
    /// and the nodes of all later generations move one place up.
    pub open spec fn insert(self, parent: Id, local: T) -> Self {
        Hierarchy {
            table: grow(self.table, parent.0 + 1),
            nodes: self.nodes.insert(
                slot(self.table, parent.0 + 1) as int,
                Node { parent: parent.1 as nat, local },
            ),
        }
    }

    /// The hierarchy after the local transform of the node at `id` has been
    /// replaced by `local`.
    pub open spec fn update(self, id: Id, local: T) -> Self {
        Hierarchy {
            table: self.table,
            nodes: self.nodes.update(self.loc(id), Node { parent: self.node(id).parent, local }),
        }
    }

    /// Whether `m` is a world matrix of the node at `id`, for the given way of
    /// turning a transform into a matrix and of multiplying two matrices: the
    /// root's world matrix is the matrix of its own transform, and the world
    /// matrix of any other node is its parent's world matrix times the matrix of
    /// its own transform.
    pub open spec fn resolves<M, F: Fn(&T) -> M, G: Fn(&M, &M) -> M>(
        self,
        id: Id,
        to_mat: F,
        mul_m: G,
        m: M,
    ) -> bool
        decreases id.0,
    {
        if id.0 == 0 {
            to_mat.ensures((&self.local(id),), m)
        } else {
            exists|above: M, own: M|
                {
                    &&& self.resolves(self.parent(id), to_mat, mul_m, above)
                    &&& to_mat.ensures((&self.local(id),), own)
                    &&& #[trigger] mul_m.ensures((&above, &own), m)
                }
        }
    }

    /// Whether `m` is a world matrix of a child of the node at `above` with local
    /// transform `local`: a world matrix of that node times the matrix of
    /// `local`.
    pub open spec fn resolves_below<M, F: Fn(&T) -> M, G: Fn(&M, &M) -> M>(
        self,
        above: Id,
        local: T,
        to_mat: F,
        mul_m: G,
        m: M,
    ) -> bool {
        exists|up: M, own: M|
            {
                &&& self.resolves(above, to_mat, mul_m, up)
                &&& to_mat.ensures((&local,), own)
                &&& #[trigger] mul_m.ensures((&up, &own), m)
            }
    }

    /// The world matrix of the node at `id` as a value: the matrix of the root's
    /// transform, multiplied from the right by the matrix of each transform on
    /// the way down to the node.
    pub open spec fn world<M>(
        self,
        id: Id,
        matrix: spec_fn(T) -> M,
        product: spec_fn(M, M) -> M,
    ) -> M
        decreases id.0,
    {
        if id.0 == 0 {
            matrix(self.local(id))
        } else {
            product(self.world(self.parent(id), matrix, product), matrix(self.local(id)))
        }
    }

    /// Whether the matrix stored for the node at `id` is composed as a flattening
    /// pass composes it: the root's is the matrix of its own transform, and any
    /// other node's is the matrix stored for its parent times the matrix of its
    /// own transform.
    pub open spec fn composed<M, F: Fn(&T) -> M, G: Fn(&M, &M) -> M>(
        self,
        id: Id,
        matrices: Seq<M>,
        to_mat: F,
        mul_m: G,
    ) -> bool {
        if id.0 == 0 {
            to_mat.ensures((&self.local(id),), matrices[self.loc(id)])
        } else {
            exists|own: M|
                {
                    &&& to_mat.ensures((&self.local(id),), own)
                    &&& #[trigger] mul_m.ensures(
                        (&matrices[self.loc(self.parent(id))], &own),
                        matrices[self.loc(id)],
                    )
                }
        }
    }

    /// Whether `snapshot` is a flattening of this hierarchy: it has the same
    /// table, and the matrix of every node is composed from its parent's.
    pub open spec fn flattens_to<M, F: Fn(&T) -> M, G: Fn(&M, &M) -> M>(
        self,
        snapshot: Snapshot<M>,
        to_mat: F,
        mul_m: G,
    ) -> bool {
        &&& snapshot.table == self.table
        &&& snapshot.matrices.len() == self.nodes.len()
        &&& forall|id: Id| #[trigger]
            self.contains(id) ==> self.composed(id, snapshot.matrices, to_mat, mul_m)
    }

    /// Whether `to_mat` may be called on the local transform of every node.
    pub open spec fn converts<M, F: Fn(&T) -> M>(self, to_mat: F) -> bool {
        forall|i: int|
            0 <= i < self.nodes.len() ==> to_mat.requires((&(#[trigger] self.nodes[i]).local,))
    }
}

impl<T> Hierarchy<T> {
    /// Adding a child moves nodes but does not alter them: every node that
    /// existed is still found under its address, with the same parent and the
    /// same local transform. In the flat sequence it lies one place further on if
    /// its generation is below the child's, and where it was if not.
    pub proof fn lemma_insert_keeps(self, parent: Id, local: T, id: Id)
        requires
            self.wf(),
            self.contains(parent),
            self.nodes.len() < usize::MAX,
            self.contains(id),
        ensures
            self.insert(parent, local).contains(id),
            self.insert(parent, local).node(id) == self.node(id),
            self.insert(parent, local).local(id) == self.local(id),
            self.insert(parent, local).parent(id) == self.parent(id),
            id.0 <= parent.0 + 1 ==> self.insert(parent, local).loc(id) == self.loc(id),
            id.0 > parent.0 + 1 ==> self.insert(parent, local).loc(id) == self.loc(id) + 1,
    {
        let g = parent.0 + 1;
        let at = slot(self.table, g) as int;
        let node = Node { parent: parent.1 as nat, local };
        lemma_grow_keeps(self.table, g, id);
        lemma_slot_in_range(self.table, g);
        lemma_loc_in_range(self.table, id);
        self.nodes.insert_ensures(at, node);
    }

    /// Adding a child creates exactly one node: it is found under the address
    /// that `next_id` names, which was free before, its parent is `parent` and
    /// its local transform is `local`.
    pub proof fn lemma_insert_adds(self, parent: Id, local: T)
        requires
            self.wf(),
            self.contains(parent),
            self.nodes.len() < usize::MAX,
        ensures
            !self.contains(self.next_id(parent)),
            self.next_id(parent).0 == parent.0 + 1,
            self.insert(parent, local).contains(self.next_id(parent)),
            self.insert(parent, local).local(self.next_id(parent)) == local,
            self.insert(parent, local).parent(self.next_id(parent)) == parent,
            forall|id: Id|
                self.insert(parent, local).contains(id) <==> self.contains(id) || id
                    == self.next_id(parent),
    {
        let g = parent.0 + 1;
        let at = slot(self.table, g) as int;
        let node = Node { parent: parent.1 as nat, local };
        lemma_slot_in_range(self.table, g);
        self.nodes.insert_ensures(at, node);
        lemma_depth_bounded(self.table, parent.0 as int);
        lemma_grow_adds(self.table, g, self.next_id(parent));
        assert forall|id: Id|
            self.insert(parent, local).contains(id) <==> self.contains(id) || id == self.next_id(
                parent,
            ) by {
            lemma_grow_adds(self.table, g, id);
        }
    }

    /// A flattening pass may go on: once every node stored before flat index
    /// `matrices.len()` has its matrix composed, and `next` is composed for the
    /// node `id` stored at that index, appending `next` leaves all of them
    /// composed.
    pub proof fn lemma_composed_extends<M, F: Fn(&T) -> M, G: Fn(&M, &M) -> M>(
        self,
        matrices: Seq<M>,
        next: M,
        id: Id,
        own: M,
        to_mat: F,
        mul_m: G,
    )
        requires
            self.wf(),
            self.contains(id),
            id.0 > 0,
            self.loc(id) == matrices.len(),
            to_mat.ensures((&self.local(id),), own),
            mul_m.ensures((&matrices[self.loc(self.parent(id))], &own), next),
            forall|other: Id|
                self.contains(other) && self.loc(other) < matrices.len() ==> #[trigger] self.composed(
                    other,
                    matrices,
                    to_mat,
                    mul_m,
                ),
        ensures
            0 <= self.loc(self.parent(id)) < matrices.len(),
            forall|other: Id|
                self.contains(other) && self.loc(other) < matrices.push(next).len()
                    ==> #[trigger] self.composed(other, matrices.push(next), to_mat, mul_m),
    {
        let longer = matrices.push(next);
        self.lemma_parent_before(id);
        assert forall|other: Id|
            self.contains(other) && self.loc(other) < longer.len() implies #[trigger] self.composed(
            other,
            longer,
            to_mat,
            mul_m,
        ) by {
            lemma_loc_in_range(self.table, other);
            if self.loc(other) == matrices.len() {
                lemma_loc_injective(self.table, id, other);
                assert(mul_m.ensures(
                    (&longer[self.loc(self.parent(id))], &own),
                    longer[self.loc(id)],
                ));
            } else {
                assert(self.composed(other, matrices, to_mat, mul_m));
                if other.0 > 0 {
                    self.lemma_parent_before(other);
                    let kept = choose|kept: M|
                        {
                            &&& to_mat.ensures((&self.local(other),), kept)
                            &&& #[trigger] mul_m.ensures(
                                (&matrices[self.loc(self.parent(other))], &kept),
                                matrices[self.loc(other)],
                            )
                        };
                    assert(mul_m.ensures(
                        (&longer[self.loc(self.parent(other))], &kept),
                        longer[self.loc(other)],
                    ));
                }
            }
        }
    }

    /// The parent of a node below the root exists, lies one generation above it
    /// and is stored before it.
    pub proof fn lemma_parent_before(self, id: Id)
        requires
            self.wf(),
            self.contains(id),
            id.0 > 0,
        ensures
            self.contains(self.parent(id)),
            self.parent(id).0 == id.0 - 1,
            self.parent(id).1 == self.node(id).parent,
            0 <= self.loc(self.parent(id)) < self.loc(id),
    {
        lemma_loc_in_range(self.table, self.parent(id));
        lemma_depth_bounded(self.table, id.0 - 1);
    }

    /// Below the root, a world matrix of a node is a world matrix of a child of
    /// its parent with the node's own transform.
    pub proof fn lemma_resolves_step<M, F: Fn(&T) -> M, G: Fn(&M, &M) -> M>(
        self,
        id: Id,
        to_mat: F,
        mul_m: G,
        m: M,
    )
        requires
            id.0 > 0,
        ensures
            self.resolves(id, to_mat, mul_m, m) <==> self.resolves_below(
                self.parent(id),
                self.local(id),
                to_mat,
                mul_m,
                m,
            ),
    {
        if self.resolves(id, to_mat, mul_m, m) {
            let (up, own) = choose|up: M, own: M|
                {
                    &&& self.resolves(self.parent(id), to_mat, mul_m, up)
                    &&& to_mat.ensures((&self.local(id),), own)
                    &&& #[trigger] mul_m.ensures((&up, &own), m)
                };
            assert(mul_m.ensures((&up, &own), m));
        }
    }

    /// Two hierarchies in which the node at `above` has the same world matrices
    /// give a child of that node the same world matrices.
    pub proof fn lemma_below_alike<M, F: Fn(&T) -> M, G: Fn(&M, &M) -> M>(
        self,
        other: Self,
        above: Id,
        local: T,
        to_mat: F,
        mul_m: G,
        m: M,
    )
        requires
            forall|up: M|
                self.resolves(above, to_mat, mul_m, up) <==> other.resolves(above, to_mat, mul_m, up),
        ensures
            self.resolves_below(above, local, to_mat, mul_m, m) <==> other.resolves_below(
                above,
                local,
                to_mat,
                mul_m,
                m,
            ),
    {
        if self.resolves_below(above, local, to_mat, mul_m, m) {
            let (up, own) = choose|up: M, own: M|
                {
                    &&& self.resolves(above, to_mat, mul_m, up)
                    &&& to_mat.ensures((&local,), own)
                    &&& #[trigger] mul_m.ensures((&up, &own), m)
                };
            assert(other.resolves(above, to_mat, mul_m, up));
            assert(mul_m.ensures((&up, &own), m));
        }
        if other.resolves_below(above, local, to_mat, mul_m, m) {
            let (up, own) = choose|up: M, own: M|
                {
                    &&& other.resolves(above, to_mat, mul_m, up)
                    &&& to_mat.ensures((&local,), own)
                    &&& #[trigger] mul_m.ensures((&up, &own), m)
                };
            assert(self.resolves(above, to_mat, mul_m, up));
            assert(mul_m.ensures((&up, &own), m));
        }
    }

    /// Where the conversion and the product compute known functions, the one
    /// world matrix of a node is the product of the matrices from the root down
    /// to it.
    pub proof fn lemma_resolves_world<M, F: Fn(&T) -> M, G: Fn(&M, &M) -> M>(
        self,
        id: Id,
        to_mat: F,
        mul_m: G,
        matrix: spec_fn(T) -> M,
        product: spec_fn(M, M) -> M,
        m: M,
    )
        requires
            self.wf(),
            self.contains(id),
            computes(to_mat, matrix),
            computes_product(mul_m, product),
            self.resolves(id, to_mat, mul_m, m),
        ensures
            m == self.world(id, matrix, product),
        decreases id.0,
    {
        if id.0 > 0 {
            self.lemma_parent_before(id);
            let up = self.parent(id);
            let (above, own) = choose|above: M, own: M|
                {
                    &&& self.resolves(up, to_mat, mul_m, above)
                    &&& to_mat.ensures((&self.local(id),), own)
                    &&& #[trigger] mul_m.ensures((&above, &own), m)
                };
            self.lemma_resolves_world(up, to_mat, mul_m, matrix, product, above);
        }
    }

    /// Replacing a local transform keeps the hierarchy well formed.
    pub proof fn lemma_update_wf(self, id: Id, local: T)
        requires
            self.wf(),
            self.contains(id),
        ensures
            self.update(id, local).wf(),
    {
        let after = self.update(id, local);
        lemma_loc_in_range(self.table, id);
        assert forall|other: Id| #[trigger] after.contains(other) && other.0 > 0 implies after.node(
            other,
        ).parent < after.table[other.0 - 1].len by {
            assert(self.contains(other));
            lemma_loc_in_range(self.table, other);
        }
    }

    /// Adding a child to an existing node keeps the hierarchy well formed.
    pub proof fn lemma_insert_wf(self, parent: Id, local: T)
        requires
            self.wf(),
            self.contains(parent),
            self.nodes.len() < usize::MAX,
        ensures
            self.insert(parent, local).wf(),
    {
        let g = parent.0 + 1;
        let after = self.insert(parent, local);
        lemma_grow_wf(self.table, g);
        lemma_slot_in_range(self.table, g);
        self.nodes.insert_ensures(
            slot(self.table, g) as int,
            Node { parent: parent.1 as nat, local },
        );
        self.lemma_insert_adds(parent, local);
        assert forall|id: Id| #[trigger] after.contains(id) && id.0 > 0 implies after.node(
            id,
        ).parent < after.table[id.0 - 1].len by {
            if id == self.next_id(parent) {
                lemma_grow_keeps(self.table, g, parent);
            } else {
                assert(self.contains(id));
                self.lemma_insert_keeps(parent, local, id);
                let above = Id((id.0 - 1) as usize, self.node(id).parent as usize);
                lemma_grow_keeps(self.table, g, above);
            }
        }
    }
}

/// Whether `to_mat` computes `matrix`: whatever it returns for a transform is
/// `matrix` of that transform.
pub open spec fn computes<T, M, F: Fn(&T) -> M>(to_mat: F, matrix: spec_fn(T) -> M) -> bool {
    forall|t: T, m: M| #[trigger] to_mat.ensures((&t,), m) ==> m == matrix(t)
}

/// Whether `mul_m` computes `product`: whatever it returns for two matrices is
/// `product` of them.
pub open spec fn computes_product<M, G: Fn(&M, &M) -> M>(
    mul_m: G,
    product: spec_fn(M, M) -> M,
) -> bool {
    forall|a: M, b: M, m: M| #[trigger] mul_m.ensures((&a, &b), m) ==> m == product(a, b)
}

/// Whether `mul_m` may be called on every pair of matrices.
pub open spec fn multiplies<M, G: Fn(&M, &M) -> M>(mul_m: G) -> bool {
    forall|a: M, b: M| #[trigger] mul_m.requires((&a, &b))
}

} // verus!
