//! What holds of every hierarchy: how lookups, updates, insertions and
//! flattening relate to one another.

use vstd::prelude::*;
use crate::hierarchy::{computes, computes_product, Hierarchy, Snapshot};
use crate::id::Id;
use crate::layout::lemma_loc_in_range;

verus! {

/// Whether `to_mat` yields one matrix only for one transform.
pub open spec fn single_valued<T, M, F: Fn(&T) -> M>(to_mat: F) -> bool {
    forall|t: T, a: M, b: M| #[trigger]
        to_mat.ensures((&t,), a) && #[trigger] to_mat.ensures((&t,), b) ==> a == b
}

/// Whether `mul_m` yields one product only for one pair of matrices.
pub open spec fn single_valued_product<M, G: Fn(&M, &M) -> M>(mul_m: G) -> bool {
    forall|x: M, y: M, a: M, b: M| #[trigger]
        mul_m.ensures((&x, &y), a) && #[trigger] mul_m.ensures((&x, &y), b) ==> a == b
}

impl<T> Hierarchy<T> {
    /// Where the conversion and the product compute known functions, a
    /// flattening holds for every node the product of the matrices from the root
    /// down to it.
    pub proof fn lemma_flatten_world<M, F: Fn(&T) -> M, G: Fn(&M, &M) -> M>(
        self,
        snapshot: Snapshot<M>,
        id: Id,
        to_mat: F,
        mul_m: G,
        matrix: spec_fn(T) -> M,
        product: spec_fn(M, M) -> M,
    )
        requires
            self.wf(),
            self.contains(id),
            computes(to_mat, matrix),
            computes_product(mul_m, product),
            self.flattens_to(snapshot, to_mat, mul_m),
        ensures
            snapshot.world_matrix(id) == self.world(id, matrix, product),
    {
        self.lemma_flatten_resolves(snapshot, id, to_mat, mul_m);
        self.lemma_resolves_world(id, to_mat, mul_m, matrix, product, snapshot.world_matrix(id));
    }

    /// Where the matrix of the root's transform leaves every matrix as it is when
    /// multiplied from the left, the world matrix of a child of the root is the
    /// matrix of the child's own transform.
    pub proof fn lemma_neutral_root<M>(
        self,
        id: Id,
        matrix: spec_fn(T) -> M,
        product: spec_fn(M, M) -> M,
    )
        requires
            self.wf(),
            self.contains(id),
            id.0 == 1,
            forall|m: M| #[trigger] product(matrix(self.local(Id(0, 0))), m) == m,
        ensures
            self.world(id, matrix, product) == matrix(self.local(id)),
    {
        self.lemma_parent_before(id);
        reveal_with_fuel(Hierarchy::world, 2);
    }

    /// The hierarchy that holds a root and one line of descent below it: the
    /// first transform of `locals` is that of the root's child, each further one
    /// that of the child of the node before.
    pub open spec fn chain(root: T, locals: Seq<T>) -> Self
        decreases locals.len(),
    {
        if locals.len() == 0 {
            Hierarchy::create(root)
        } else {
            Self::chain(root, locals.drop_last()).insert(
                Id((locals.len() - 1) as usize, 0),
                locals.last(),
            )
        }
    }

    /// The matrix of `root` multiplied from the right by the matrix of each
    /// transform of `locals` in turn.
    pub open spec fn chain_product<M>(
        root: T,
        locals: Seq<T>,
        matrix: spec_fn(T) -> M,
        product: spec_fn(M, M) -> M,
    ) -> M
        decreases locals.len(),
    {
        if locals.len() == 0 {
            matrix(root)
        } else {
            product(
                Self::chain_product(root, locals.drop_last(), matrix, product),
                matrix(locals.last()),
            )
        }
    }

    /// In a line of descent every generation holds one node, the node at depth
    /// `k` has the `k`-th transform and the node above it as parent, and the next
    /// child of the deepest node opens a generation of its own.
    pub proof fn lemma_chain_shape(root: T, locals: Seq<T>, k: nat)
        requires
            locals.len() < usize::MAX,
            k <= locals.len(),
        ensures
            Self::chain(root, locals).wf(),
            Self::chain(root, locals).table.len() == locals.len() + 1,
            Self::chain(root, locals).nodes.len() == locals.len() + 1,
            Self::chain(root, locals).contains(Id(k as usize, 0)),
            !Self::chain(root, locals).contains(Id(k as usize, 1)),
            k == 0 ==> Self::chain(root, locals).local(Id(0, 0)) == root,
            k > 0 ==> Self::chain(root, locals).local(Id(k as usize, 0)) == locals[k - 1],
            k > 0 ==> Self::chain(root, locals).parent(Id(k as usize, 0)) == Id((k - 1) as usize, 0),
            Self::chain(root, locals).next_id(Id(locals.len() as usize, 0)) == Id(
                (locals.len() + 1) as usize,
                0,
            ),
        decreases locals.len(),
    {
        if locals.len() > 0 {
            let n = (locals.len() - 1) as nat;
            let shorter = Self::chain(root, locals.drop_last());
            let last = Id(n as usize, 0);
            Self::lemma_chain_shape(root, locals.drop_last(), n);
            shorter.lemma_insert_wf(last, locals.last());
            shorter.lemma_insert_adds(last, locals.last());
            crate::layout::lemma_grow_wf(shorter.table, n as int + 1);
            if k < locals.len() {
                Self::lemma_chain_shape(root, locals.drop_last(), k);
                shorter.lemma_insert_keeps(last, locals.last(), Id(k as usize, 0));
            }
        }
    }

    /// The world matrix of the node at depth `k` of a line of descent is the
    /// matrix of the root multiplied from the right by the matrices of the first
    /// `k` transforms, in their order.
    pub proof fn lemma_chain_world<M>(
        root: T,
        locals: Seq<T>,
        k: nat,
        matrix: spec_fn(T) -> M,
        product: spec_fn(M, M) -> M,
    )
        requires
            locals.len() < usize::MAX,
            k <= locals.len(),
        ensures
            Self::chain(root, locals).world(Id(k as usize, 0), matrix, product)
                == Self::chain_product(root, locals.take(k as int), matrix, product),
        decreases k,
    {
        Self::lemma_chain_shape(root, locals, k);
        if k > 0 {
            Self::lemma_chain_world(root, locals, (k - 1) as nat, matrix, product);
            assert(locals.take(k as int).drop_last() =~= locals.take(k - 1));
        }
    }

    /// The hierarchy after the local transform of the node at `id` has been
    /// replaced by each transform of `locals` in turn.
    pub open spec fn update_each(self, id: Id, locals: Seq<T>) -> Self
        decreases locals.len(),
    {
        if locals.len() == 0 {
            self
        } else {
            self.update_each(id, locals.drop_last()).update(id, locals.last())
        }
    }

    /// After an update the node at `id` has the new local transform, and every
    /// other node the one it had. No node appears, disappears or changes its
    /// parent.
    pub proof fn lemma_update_reads(self, id: Id, local: T, other: Id)
        requires
            self.wf(),
            self.contains(id),
            self.contains(other),
        ensures
            self.update(id, local).contains(other),
            self.update(id, local).parent(other) == self.parent(other),
            self.update(id, local).local(id) == local,
            other != id ==> self.update(id, local).local(other) == self.local(other),
    {
        lemma_loc_in_range(self.table, id);
        lemma_loc_in_range(self.table, other);
        if other != id && self.loc(other) == self.loc(id) {
            crate::layout::lemma_loc_injective(self.table, id, other);
        }
    }

    /// Of two updates of one node only the later one shows.
    pub proof fn lemma_update_last_wins(self, id: Id, earlier: T, later: T)
        requires
            self.wf(),
            self.contains(id),
        ensures
            self.update(id, earlier).update(id, later) == self.update(id, later),
    {
        lemma_loc_in_range(self.table, id);
        assert(self.update(id, earlier).update(id, later).nodes =~= self.update(id, later).nodes);
    }

    /// However often a node is updated, the hierarchy is the one that the last
    /// update alone gives, so no query can tell an earlier transform.
    pub proof fn lemma_update_each_last_wins(self, id: Id, locals: Seq<T>)
        requires
            self.wf(),
            self.contains(id),
            locals.len() > 0,
        ensures
            self.update_each(id, locals) == self.update(id, locals.last()),
        decreases locals.len(),
    {
        if locals.len() > 1 {
            let earlier = locals.drop_last();
            self.lemma_update_each_last_wins(id, earlier);
            self.lemma_update_last_wins(id, earlier.last(), locals.last());
        } else {
            assert(self.update_each(id, locals.drop_last()) == self);
        }
    }

    /// An update of one node does not show in the world matrices of the nodes
    /// that are no deeper than it: a world matrix of such a node before the
    /// update is one afterwards, and the other way round.
    pub proof fn lemma_update_keeps_world<M, F: Fn(&T) -> M, G: Fn(&M, &M) -> M>(
        self,
        id: Id,
        local: T,
        other: Id,
        to_mat: F,
        mul_m: G,
        m: M,
    )
        requires
            self.wf(),
            self.contains(id),
            self.contains(other),
            other.0 <= id.0,
            other != id,
        ensures
            self.update(id, local).resolves(other, to_mat, mul_m, m) <==> self.resolves(
                other,
                to_mat,
                mul_m,
                m,
            ),
        decreases other.0,
    {
        let after = self.update(id, local);
        self.lemma_update_reads(id, local, other);
        if other.0 > 0 {
            self.lemma_parent_before(other);
            let up = self.parent(other);
            assert forall|above: M| after.resolves(up, to_mat, mul_m, above) <==> self.resolves(
                up,
                to_mat,
                mul_m,
                above,
            ) by {
                self.lemma_update_keeps_world(id, local, up, to_mat, mul_m, above);
            }
            after.lemma_resolves_step(other, to_mat, mul_m, m);
            after.lemma_below_alike(self, up, self.local(other), to_mat, mul_m, m);
            self.lemma_resolves_step(other, to_mat, mul_m, m);
        }
    }

    /// After an update the world matrix of the updated node is made of the new
    /// transform: below the root it is a world matrix of its parent, as it was
    /// before the update, times the matrix of the new transform; at the root it is
    /// the matrix of the new transform.
    pub proof fn lemma_update_shows<M, F: Fn(&T) -> M, G: Fn(&M, &M) -> M>(
        self,
        id: Id,
        local: T,
        to_mat: F,
        mul_m: G,
        m: M,
    )
        requires
            self.wf(),
            self.contains(id),
        ensures
            id.0 == 0 ==> (self.update(id, local).resolves(id, to_mat, mul_m, m) <==> to_mat.ensures(
                (&local,),
                m,
            )),
            id.0 > 0 ==> (self.update(id, local).resolves(id, to_mat, mul_m, m)
                <==> self.resolves_below(self.parent(id), local, to_mat, mul_m, m)),
    {
        let after = self.update(id, local);
        self.lemma_update_reads(id, local, id);
        if id.0 > 0 {
            self.lemma_parent_before(id);
            let up = self.parent(id);
            assert forall|above: M| after.resolves(up, to_mat, mul_m, above) <==> self.resolves(
                up,
                to_mat,
                mul_m,
                above,
            ) by {
                self.lemma_update_keeps_world(id, local, up, to_mat, mul_m, above);
            }
            after.lemma_resolves_step(id, to_mat, mul_m, m);
            after.lemma_below_alike(self, up, local, to_mat, mul_m, m);
        }
    }

    /// A world matrix of a node that existed before a child was added is a world
    /// matrix of it afterwards, and the other way round.
    pub proof fn lemma_insert_keeps_world<M, F: Fn(&T) -> M, G: Fn(&M, &M) -> M>(
        self,
        parent: Id,
        local: T,
        id: Id,
        to_mat: F,
        mul_m: G,
        m: M,
    )
        requires
            self.wf(),
            self.contains(parent),
            self.nodes.len() < usize::MAX,
            self.contains(id),
        ensures
            self.insert(parent, local).resolves(id, to_mat, mul_m, m) <==> self.resolves(
                id,
                to_mat,
                mul_m,
                m,
            ),
        decreases id.0,
    {
        let after = self.insert(parent, local);
        self.lemma_insert_keeps(parent, local, id);
        if id.0 > 0 {
            self.lemma_parent_before(id);
            let up = self.parent(id);
            assert forall|above: M| after.resolves(up, to_mat, mul_m, above) <==> self.resolves(
                up,
                to_mat,
                mul_m,
                above,
            ) by {
                self.lemma_insert_keeps_world(parent, local, up, to_mat, mul_m, above);
            }
            after.lemma_resolves_step(id, to_mat, mul_m, m);
            after.lemma_below_alike(self, up, self.local(id), to_mat, mul_m, m);
            self.lemma_resolves_step(id, to_mat, mul_m, m);
        }
    }

    /// A flattening taken after a child was added holds, for every node that
    /// existed, the matrix that a flattening taken before held for it, if the
    /// conversion and the product are single valued.
    pub proof fn lemma_insert_keeps_flat<M, F: Fn(&T) -> M, G: Fn(&M, &M) -> M>(
        self,
        parent: Id,
        local: T,
        id: Id,
        before: Snapshot<M>,
        after: Snapshot<M>,
        to_mat: F,
        mul_m: G,
    )
        requires
            self.wf(),
            self.contains(parent),
            self.nodes.len() < usize::MAX,
            self.contains(id),
            single_valued(to_mat),
            single_valued_product(mul_m),
            self.flattens_to(before, to_mat, mul_m),
            self.insert(parent, local).flattens_to(after, to_mat, mul_m),
        ensures
            after.contains(id),
            after.world_matrix(id) == before.world_matrix(id),
    {
        let grown = self.insert(parent, local);
        self.lemma_insert_wf(parent, local);
        self.lemma_insert_keeps(parent, local, id);
        self.lemma_flatten_resolves(before, id, to_mat, mul_m);
        self.lemma_insert_keeps_world(parent, local, id, to_mat, mul_m, before.world_matrix(id));
        grown.lemma_flatten_agrees(after, id, to_mat, mul_m, before.world_matrix(id));
    }

    /// With a conversion and a product that are single valued, a node has one
    /// world matrix only.
    pub proof fn lemma_resolves_unique<M, F: Fn(&T) -> M, G: Fn(&M, &M) -> M>(
        self,
        id: Id,
        to_mat: F,
        mul_m: G,
        a: M,
        b: M,
    )
        requires
            self.wf(),
            self.contains(id),
            single_valued(to_mat),
            single_valued_product(mul_m),
            self.resolves(id, to_mat, mul_m, a),
            self.resolves(id, to_mat, mul_m, b),
        ensures
            a == b,
        decreases id.0,
    {
        if id.0 > 0 {
            self.lemma_parent_before(id);
            let up = self.parent(id);
            let (above_a, own_a) = choose|above: M, own: M|
                {
                    &&& self.resolves(up, to_mat, mul_m, above)
                    &&& to_mat.ensures((&self.local(id),), own)
                    &&& #[trigger] mul_m.ensures((&above, &own), a)
                };
            let (above_b, own_b) = choose|above: M, own: M|
                {
                    &&& self.resolves(up, to_mat, mul_m, above)
                    &&& to_mat.ensures((&self.local(id),), own)
                    &&& #[trigger] mul_m.ensures((&above, &own), b)
                };
            self.lemma_resolves_unique(up, to_mat, mul_m, above_a, above_b);
        }
    }

    /// Every matrix of a flattening is a world matrix of its node.
    pub proof fn lemma_flatten_resolves<M, F: Fn(&T) -> M, G: Fn(&M, &M) -> M>(
        self,
        snapshot: Snapshot<M>,
        id: Id,
        to_mat: F,
        mul_m: G,
    )
        requires
            self.wf(),
            self.flattens_to(snapshot, to_mat, mul_m),
            self.contains(id),
        ensures
            snapshot.contains(id),
            self.resolves(id, to_mat, mul_m, snapshot.world_matrix(id)),
        decreases id.0,
    {
        if id.0 > 0 {
            self.lemma_parent_before(id);
            let up = self.parent(id);
            self.lemma_flatten_resolves(snapshot, up, to_mat, mul_m);
            let own = choose|own: M|
                {
                    &&& to_mat.ensures((&self.local(id),), own)
                    &&& #[trigger] mul_m.ensures(
                        (&snapshot.matrices[self.loc(up)], &own),
                        snapshot.matrices[self.loc(id)],
                    )
                };
            assert(mul_m.ensures((&snapshot.world_matrix(up), &own), snapshot.world_matrix(id)));
        }
    }

    /// Flattening and direct resolution agree: with a conversion and a product
    /// that are single valued, the matrix that a flattening holds for a node is
    /// the very matrix that resolving the node on its own gives.
    pub proof fn lemma_flatten_agrees<M, F: Fn(&T) -> M, G: Fn(&M, &M) -> M>(
        self,
        snapshot: Snapshot<M>,
        id: Id,
        to_mat: F,
        mul_m: G,
        direct: M,
    )
        requires
            self.wf(),
            self.contains(id),
            single_valued(to_mat),
            single_valued_product(mul_m),
            self.flattens_to(snapshot, to_mat, mul_m),
            self.resolves(id, to_mat, mul_m, direct),
        ensures
            snapshot.world_matrix(id) == direct,
    {
        self.lemma_flatten_resolves(snapshot, id, to_mat, mul_m);
        self.lemma_resolves_unique(id, to_mat, mul_m, snapshot.world_matrix(id), direct);
    }
}

} // verus!
