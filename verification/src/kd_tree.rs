//! The KD-tree: a binary tree over points that partitions space by cycling
//! through the coordinate axes, one axis per depth. Insertion keeps the
//! axis-ordering invariant; the k-nearest-neighbour search walks the close
//! side of each splitting plane first and skips the away side whenever the
//! plane itself is at least as far from the query as the worst candidate
//! already found, which provably cannot lose a closer point.

use vstd::prelude::*;
use vstd::multiset::Multiset;
use crate::Error;
use crate::knn::{pd2, is_knn, lemma_knn_update, lemma_knn_prune};
use crate::vector::{Vector, PointV, sq, sq_diff, seq_views, lemma_d2_axis};

verus! {

/// One tree node: a stored point and its optional children.
#[derive(Debug)]
pub struct KDNode {
    pub vector: Vector,
    left: Option<Box<KDNode>>,
    right: Option<Box<KDNode>>,
}

/// The tree: an optional root node.
#[derive(Debug)]
pub struct KDTree {
    root: Option<Box<KDNode>>,
}

/// The axis after `axis` in the cycle over `dim` coordinate axes.
pub open spec fn next_axis(dim: nat, axis: nat) -> nat {
    if axis + 1 == dim {
        0
    } else {
        axis + 1
    }
}

impl KDNode {
    /// All points stored in an optional subtree, as a multiset.
    pub closed spec fn opt_ms(node: Option<Box<KDNode>>) -> Multiset<PointV>
        decreases node,
    {
        match node {
            None => Multiset::empty(),
            Some(n) => n.ms(),
        }
    }

    /// All points stored under (and at) this node, as a multiset.
    pub closed spec fn ms(self) -> Multiset<PointV>
        decreases self,
    {
        Self::opt_ms(self.left).add(Self::opt_ms(self.right)).insert(self.vector@)
    }

    /// The KD-tree ordering invariant for a node splitting on `axis` in a
    /// tree of dimension `dim`: every point in the left subtree is strictly
    /// below this node's coordinate on `axis`, every point in the right
    /// subtree is at or above it, every stored point has `dim` coordinates,
    /// and the children split on the next axis in the cycle.
    pub closed spec fn wf(self, dim: nat, axis: nat) -> bool
        decreases self,
    {
        &&& axis < dim
        &&& self.vector@.coords.len() == dim
        &&& (forall|p: PointV|
            #[trigger] Self::opt_ms(self.left).count(p) > 0 ==> p.coords.len() == dim
                && p.coords[axis as int] < self.vector@.coords[axis as int])
        &&& (forall|p: PointV|
            #[trigger] Self::opt_ms(self.right).count(p) > 0 ==> p.coords.len() == dim
                && p.coords[axis as int] >= self.vector@.coords[axis as int])
        &&& Self::opt_wf(self.left, dim, next_axis(dim, axis))
        &&& Self::opt_wf(self.right, dim, next_axis(dim, axis))
    }

    /// The ordering invariant for an optional subtree.
    pub closed spec fn opt_wf(node: Option<Box<KDNode>>, dim: nat, axis: nat) -> bool
        decreases node,
    {
        match node {
            None => true,
            Some(n) => n.wf(dim, axis),
        }
    }

    /// A well-formed node stores at least its own point, and every stored
    /// point has `dim` coordinates.
    pub proof fn lemma_wf_dims(self, dim: nat, axis: nat)
        requires
            self.wf(dim, axis),
        ensures
            self.ms().len() >= 1,
            forall|p: PointV| #[trigger] self.ms().count(p) > 0 ==> p.coords.len() == dim,
    {
        broadcast use vstd::multiset::group_multiset_axioms;

        assert(self.ms().count(self.vector@) > 0);
        assert forall|p: PointV| #[trigger] self.ms().count(p) > 0 implies p.coords.len()
            == dim by {
            if Self::opt_ms(self.left).count(p) > 0 {
            } else if Self::opt_ms(self.right).count(p) > 0 {
            } else {
                assert(p == self.vector@);
            }
        }
        assert(self.ms().len() >= self.ms().count(self.vector@));
    }
}

impl View for KDTree {
    type V = Multiset<PointV>;

    /// A tree is, mathematically, the multiset of the points it stores.
    closed spec fn view(&self) -> Multiset<PointV> {
        KDNode::opt_ms(self.root)
    }
}

impl KDTree {
    /// The ordering invariant of the whole tree.
    pub closed spec fn wf(self) -> bool {
        KDNode::opt_wf(self.root, self.dims(), 0)
    }

    /// The coordinate length shared by every stored point; meaningful only
    /// when the tree is non-empty.
    pub closed spec fn dims(self) -> nat {
        match self.root {
            None => 0,
            Some(n) => n.vector@.coords.len(),
        }
    }

    /// A new, empty tree.
    pub fn new() -> (t: Self)
        ensures
            t.wf(),
            t@ == Multiset::<PointV>::empty(),
    {
        KDTree { root: None }
    }

    /// Every stored point of a well-formed tree has `dims()` coordinates, and
    /// a non-empty tree stores at least one point.
    pub proof fn lemma_dims(self)
        requires
            self.wf(),
        ensures
            forall|p: PointV| #[trigger] self@.count(p) > 0 ==> p.coords.len() == self.dims(),
    {
        broadcast use vstd::multiset::group_multiset_axioms;

        match self.root {
            None => {
            }
            Some(n) => {
                n.lemma_wf_dims(self.dims(), 0);
            }
        }
    }

    /// A tree stores no points exactly when it has no root.
    proof fn lemma_root_len(self)
        ensures
            self@.len() == 0 <==> self.root is None,
    {
        broadcast use vstd::multiset::group_multiset_axioms;

        match self.root {
            None => {
            }
            Some(n) => {
                assert(n.ms().count(n.vector@) > 0);
                assert(n.ms().len() >= n.ms().count(n.vector@));
            }
        }
    }

    /// Inserts a point. The point joins the stored multiset unless its
    /// dimension differs from that of a non-empty tree, in which case the
    /// tree is unchanged and the mismatch is reported.
    pub fn insert(&mut self, vector: Vector) -> (r: Result<(), Error>)
        requires
            old(self).wf(),
        ensures
            final(self).wf(),
            match r {
                Ok(()) => vector@.coords.len() >= 1 && (old(self)@.len() == 0
                    || vector@.coords.len() == old(self).dims()) && final(self)@ == old(
                    self,
                )@.insert(vector@) && final(self).dims() == vector@.coords.len(),
                Err(e) => e == Error::DimensionMismatch && (vector@.coords.len() == 0 || (old(
                    self,
                )@.len() > 0 && vector@.coords.len() != old(self).dims())) && *final(self)
                    == *old(self),
            },
    {
        proof {
            self.lemma_dims();
            self.lemma_root_len();
        }
        if vector.coordinates.len() == 0 {
            return Err(Error::DimensionMismatch);
        }
        match &self.root {
            None => {
                proof {
                    broadcast use vstd::multiset::group_multiset_axioms;
                }
                let node = KDNode { vector, left: None, right: None };
                proof {
                    assert(node.ms() =~= KDNode::opt_ms(None).insert(node.vector@));
                    let d = node.vector@.coords.len();
                    assert forall|p: PointV| #[trigger] KDNode::opt_ms(node.left).count(p) > 0
                        implies p.coords.len() == d && p.coords[0] < node.vector@.coords[0] by {
                        assert(KDNode::opt_ms(node.left) =~= Multiset::empty());
                    }
                    assert forall|p: PointV| #[trigger] KDNode::opt_ms(node.right).count(p) > 0
                        implies p.coords.len() == d && p.coords[0] >= node.vector@.coords[0] by {
                        assert(KDNode::opt_ms(node.right) =~= Multiset::empty());
                    }
                    assert(node.wf(d, 0));
                }
                self.root = Some(Box::new(node));
                Ok(())
            }
            Some(n) => {
                if vector.coordinates.len() != n.vector.coordinates.len() {
                    return Err(Error::DimensionMismatch);
                }
                let dim = vector.coordinates.len();
                let mut root = self.root.take().unwrap();
                (&mut *root).insert_rec(vector, dim, 0);
                self.root = Some(root);
                Ok(())
            }
        }
    }

    /// Returns up to `k` stored points ordered by non-decreasing squared
    /// Euclidean distance to `query` — the `k` nearest stored points. An
    /// empty tree yields an empty answer for every `k` and every query; a
    /// query whose dimension differs from a non-empty tree's is refused.
    pub fn nearest(&self, query: &Vector, k: usize) -> (r: Result<Vec<Vector>, Error>)
        requires
            self.wf(),
        ensures
            match r {
                Ok(v) => is_knn(query@.coords, k as int, self@, seq_views(v@)) && (self@.len()
                    == 0 || query@.coords.len() == self.dims()),
                Err(e) => e == Error::DimensionMismatch && self@.len() > 0 && query@.coords.len()
                    != self.dims(),
            },
    {
        proof {
            self.lemma_dims();
            self.lemma_root_len();
            broadcast use vstd::multiset::group_multiset_axioms;
            broadcast use vstd::seq_lib::group_to_multiset_ensures;
        }
        let mut best: Vec<Vector> = Vec::new();
        match &self.root {
            None => {
                proof {
                    assert(seq_views(best@) =~= Seq::<PointV>::empty());
                    assert(seq_views(best@).to_multiset() =~= Multiset::<PointV>::empty());
                }
                Ok(best)
            }
            Some(n) => {
                if query.coordinates.len() != n.vector.coordinates.len() {
                    return Err(Error::DimensionMismatch);
                }
                proof {
                    assert(seq_views(best@) =~= Seq::<PointV>::empty());
                    assert(seq_views(best@).to_multiset() =~= Multiset::<PointV>::empty());
                }
                if k == 0 {
                    return Ok(best);
                }
                let dim = query.coordinates.len();
                KDNode::nearest_rec(n, query, k, dim, 0, &mut best, Ghost(Multiset::empty()));
                proof {
                    assert(Multiset::empty().add(n.ms()) =~= self@);
                }
                Ok(best)
            }
        }
    }
}

impl KDNode {
    /// Recursive insertion: descend along the splitting axes, strictly
    /// smaller coordinates to the left, others to the right, and attach a
    /// leaf where the walk falls off the tree.
    fn insert_rec(&mut self, vector: Vector, dim: usize, axis: usize)
        requires
            old(self).wf(dim as nat, axis as nat),
            vector@.coords.len() == dim,
        ensures
            final(self).wf(dim as nat, axis as nat),
            final(self).ms() == old(self).ms().insert(vector@),
        decreases *old(self),
    {
        proof {
            broadcast use vstd::multiset::group_multiset_axioms;
        }
        let axis_next = if axis + 1 == dim {
            0
        } else {
            axis + 1
        };
        if vector.coordinates[axis] < self.vector.coordinates[axis] {
            Self::insert_opt(&mut self.left, vector, dim, axis_next);
            proof {
                assert(self.ms() =~= old(self).ms().insert(vector@));
            }
        } else {
            Self::insert_opt(&mut self.right, vector, dim, axis_next);
            proof {
                assert(self.ms() =~= old(self).ms().insert(vector@));
            }
        }
    }

    /// Places one visited point into the sorted candidate list, keeping at
    /// most `k` entries: the candidate list stays a correct k-nearest answer
    /// for the points visited so far.
    fn cand_add(query: &Vector, k: usize, best: &mut Vec<Vector>, v: &Vector, Ghost(vis): Ghost<
        Multiset<PointV>,
    >)
        requires
            k >= 1,
            old(best)@.len() <= k,
            v@.coords.len() == query@.coords.len(),
            forall|i: int|
                0 <= i < old(best)@.len() ==> (#[trigger] old(best)@[i])@.coords.len()
                    == query@.coords.len(),
            is_knn(query@.coords, k as int, vis, seq_views(old(best)@)),
        ensures
            final(best)@.len() <= k,
            forall|i: int|
                0 <= i < final(best)@.len() ==> (#[trigger] final(best)@[i])@.coords.len()
                    == query@.coords.len(),
            is_knn(query@.coords, k as int, vis.insert(v@), seq_views(final(best)@)),
    {
        let ghost q = query@.coords;
        let ghost c = seq_views(best@);
        let d = query.distance(v);
        let mut idx: usize = 0;
        while idx < best.len() && query.distance(&best[idx]) <= d
            invariant
                0 <= idx <= best@.len(),
                *best == *old(best),
                q == query@.coords,
                c == seq_views(best@),
                c.len() == best@.len(),
                forall|j: int| 0 <= j < idx ==> #[trigger] pd2(q, c[j]) <= pd2(q, v@),
                d as int == pd2(q, v@),
                v@.coords.len() == q.len(),
                forall|i: int|
                    0 <= i < best@.len() ==> (#[trigger] best@[i])@.coords.len() == q.len(),
            decreases best@.len() - idx,
        {
            proof {
                assert(c[idx as int] == best@[idx as int]@);
                assert(pd2(q, c[idx as int]) <= d as int);
            }
            idx = idx + 1;
        }
        proof {
            assert(idx < best@.len() ==> pd2(q, c[idx as int]) > pd2(q, v@));
            assert forall|j: int| idx <= j < c.len() implies #[trigger] pd2(q, c[j]) >= pd2(
                q,
                v@,
            ) by {
                assert(pd2(q, c[idx as int]) <= pd2(q, c[j]));
            }
        }
        if best.len() < k {
            best.insert(idx, v.clone());
            proof {
                assert(seq_views(best@) =~= c.insert(idx as int, v@));
                lemma_knn_update(q, k as int, vis, c, v@, idx as int, seq_views(best@));
            }
        } else if idx < k {
            best.insert(idx, v.clone());
            let ghost mid = best@;
            best.pop();
            proof {
                assert(seq_views(mid) =~= c.insert(idx as int, v@));
                assert(best@ =~= mid.drop_last());
                assert(seq_views(best@) =~= seq_views(mid).drop_last());
                lemma_knn_update(q, k as int, vis, c, v@, idx as int, seq_views(best@));
            }
        } else {
            proof {
                lemma_knn_update(q, k as int, vis, c, v@, idx as int, seq_views(best@));
            }
        }
    }

    /// The pruned nearest-neighbour walk. `vis` is the multiset of points
    /// visited before this subtree; afterwards the candidate list is a
    /// correct k-nearest answer over `vis` plus this whole subtree.
    fn nearest_rec(
        &self,
        query: &Vector,
        k: usize,
        dim: usize,
        axis: usize,
        best: &mut Vec<Vector>,
        Ghost(vis): Ghost<Multiset<PointV>>,
    )
        requires
            self.wf(dim as nat, axis as nat),
            query@.coords.len() == dim,
            k >= 1,
            old(best)@.len() <= k,
            forall|i: int|
                0 <= i < old(best)@.len() ==> (#[trigger] old(best)@[i])@.coords.len() == dim,
            is_knn(query@.coords, k as int, vis, seq_views(old(best)@)),
        ensures
            final(best)@.len() <= k,
            forall|i: int|
                0 <= i < final(best)@.len() ==> (#[trigger] final(best)@[i])@.coords.len() == dim,
            is_knn(query@.coords, k as int, vis.add(self.ms()), seq_views(final(best)@)),
        decreases *self,
    {
        proof {
            broadcast use vstd::multiset::group_multiset_axioms;
        }
        let ghost q = query@.coords;
        Self::cand_add(query, k, best, &self.vector, Ghost(vis));
        let ghost vis1 = vis.insert(self.vector@);
        let axis_next = if axis + 1 == dim {
            0
        } else {
            axis + 1
        };
        let qa = query.coordinates[axis];
        let na = self.vector.coordinates[axis];
        let plane = sq_diff(qa, na);
        if qa < na {
            Self::nearest_opt(&self.left, query, k, dim, axis_next, best, Ghost(vis1));
            let ghost vis2 = vis1.add(Self::opt_ms(self.left));
            if best.len() < k || plane < query.distance(&best[best.len() - 1]) {
                Self::nearest_opt(&self.right, query, k, dim, axis_next, best, Ghost(vis2));
            } else {
                proof {
                    let c = seq_views(best@);
                    assert forall|p: PointV| #[trigger] Self::opt_ms(self.right).count(p) > 0
                        implies pd2(q, p) >= pd2(q, c[k - 1]) by {
                        lemma_d2_axis(q, p.coords, axis as int);
                        assert(sq(q[axis as int] - p.coords[axis as int]) >= sq(q[axis as int]
                            - self.vector@.coords[axis as int])) by (nonlinear_arith)
                            requires
                                q[axis as int] - p.coords[axis as int] <= q[axis as int]
                                    - self.vector@.coords[axis as int] <= 0;
                        assert(c[k - 1] == best@[k - 1]@);
                    }
                    lemma_knn_prune(q, k as int, vis2, Self::opt_ms(self.right), c);
                }
            }
            proof {
                assert(vis1.add(Self::opt_ms(self.left)).add(Self::opt_ms(self.right)) =~= vis.add(
                    self.ms(),
                ));
            }
        } else {
            Self::nearest_opt(&self.right, query, k, dim, axis_next, best, Ghost(vis1));
            let ghost vis2 = vis1.add(Self::opt_ms(self.right));
            if best.len() < k || plane < query.distance(&best[best.len() - 1]) {
                Self::nearest_opt(&self.left, query, k, dim, axis_next, best, Ghost(vis2));
            } else {
                proof {
                    let c = seq_views(best@);
                    assert forall|p: PointV| #[trigger] Self::opt_ms(self.left).count(p) > 0
                        implies pd2(q, p) >= pd2(q, c[k - 1]) by {
                        lemma_d2_axis(q, p.coords, axis as int);
                        assert(sq(q[axis as int] - p.coords[axis as int]) >= sq(q[axis as int]
                            - self.vector@.coords[axis as int])) by (nonlinear_arith)
                            requires
                                q[axis as int] - p.coords[axis as int] >= q[axis as int]
                                    - self.vector@.coords[axis as int] >= 0;
                        assert(c[k - 1] == best@[k - 1]@);
                    }
                    lemma_knn_prune(q, k as int, vis2, Self::opt_ms(self.left), c);
                }
            }
            proof {
                assert(vis1.add(Self::opt_ms(self.right)).add(Self::opt_ms(self.left)) =~= vis.add(
                    self.ms(),
                ));
            }
        }
    }

    /// The walk over an optional subtree: a missing subtree adds nothing.
    fn nearest_opt(
        node: &Option<Box<KDNode>>,
        query: &Vector,
        k: usize,
        dim: usize,
        axis: usize,
        best: &mut Vec<Vector>,
        Ghost(vis): Ghost<Multiset<PointV>>,
    )
        requires
            Self::opt_wf(*node, dim as nat, axis as nat),
            query@.coords.len() == dim,
            k >= 1,
            old(best)@.len() <= k,
            forall|i: int|
                0 <= i < old(best)@.len() ==> (#[trigger] old(best)@[i])@.coords.len() == dim,
            is_knn(query@.coords, k as int, vis, seq_views(old(best)@)),
        ensures
            final(best)@.len() <= k,
            forall|i: int|
                0 <= i < final(best)@.len() ==> (#[trigger] final(best)@[i])@.coords.len() == dim,
            is_knn(query@.coords, k as int, vis.add(Self::opt_ms(*node)), seq_views(final(best)@)),
        decreases node,
    {
        proof {
            broadcast use vstd::multiset::group_multiset_axioms;
        }
        match node {
            None => {
                proof {
                    assert(vis.add(Multiset::empty()) =~= vis);
                }
            }
            Some(n) => {
                (&**n).nearest_rec(query, k, dim, axis, best, Ghost(vis));
            }
        }
    }

    /// Insertion into an optional subtree.
    fn insert_opt(node: &mut Option<Box<KDNode>>, vector: Vector, dim: usize, axis: usize)
        requires
            Self::opt_wf(*old(node), dim as nat, axis as nat),
            vector@.coords.len() == dim,
            axis < dim,
        ensures
            Self::opt_wf(*final(node), dim as nat, axis as nat),
            Self::opt_ms(*final(node)) == Self::opt_ms(*old(node)).insert(vector@),
        decreases *old(node),
    {
        proof {
            broadcast use vstd::multiset::group_multiset_axioms;
        }
        match node.take() {
            None => {
                let n = KDNode { vector, left: None, right: None };
                proof {
                    assert(n.ms() =~= KDNode::opt_ms(None).insert(n.vector@));
                    assert forall|p: PointV| #[trigger] KDNode::opt_ms(n.left).count(p) > 0
                        implies false by {
                        assert(KDNode::opt_ms(n.left) =~= Multiset::empty());
                    }
                    assert forall|p: PointV| #[trigger] KDNode::opt_ms(n.right).count(p) > 0
                        implies false by {
                        assert(KDNode::opt_ms(n.right) =~= Multiset::empty());
                    }
                    assert(n.wf(dim as nat, axis as nat));
                }
                *node = Some(Box::new(n));
            }
            Some(mut boxed) => {
                (&mut *boxed).insert_rec(vector, dim, axis);
                *node = Some(boxed);
            }
        }
    }
}

} // verus!
