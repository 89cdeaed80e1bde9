//! A collection: the authoritative insertion-ordered list of points together
//! with the KD-tree built incrementally over exactly the same points. The
//! list is what persistence walks; the tree only serves queries, and the
//! invariant that the two hold the same multiset of points is maintained by
//! every operation.

use vstd::prelude::*;
use vstd::multiset::Multiset;
use crate::Error;
use crate::codec::{encode_point, decode_point, encodable, encode_vector, decode_vector};
use crate::kd_tree::KDTree;
use crate::knn::{is_knn, pd2, lemma_knn_distances_agree};
use crate::vector::{Vector, PointV, seq_views};

verus! {

/// The coordinate length shared by the points of a non-empty collection.
pub open spec fn dims_of(s: Seq<PointV>) -> nat {
    if s.len() == 0 {
        0
    } else {
        s[0].coords.len()
    }
}

/// Every point of `s` has the same, non-zero dimension.
pub open spec fn consistent_dims(s: Seq<PointV>) -> bool {
    forall|i: int| 0 <= i < s.len() ==> (#[trigger] s[i]).coords.len() == dims_of(s) && s[i].coords.len() >= 1
}

/// A collection of points and the spatial index over them.
#[derive(Debug)]
pub struct VectorDatabase {
    kd_tree: KDTree,
    vectors: Vec<Vector>,
}

impl View for VectorDatabase {
    type V = Seq<PointV>;

    /// A collection is, mathematically, its insertion-ordered point sequence.
    closed spec fn view(&self) -> Seq<PointV> {
        seq_views(self.vectors@)
    }
}

impl VectorDatabase {
    /// The internal invariant: the tree is well formed and stores exactly the
    /// points of the list, and all points share one non-zero dimension.
    pub closed spec fn wf(self) -> bool {
        &&& self.kd_tree.wf()
        &&& self.kd_tree@ == seq_views(self.vectors@).to_multiset()
        &&& consistent_dims(seq_views(self.vectors@))
        &&& self.vectors@.len() > 0 ==> self.kd_tree.dims() == dims_of(seq_views(self.vectors@))
    }

    /// A new, empty collection.
    pub fn new() -> (db: Self)
        ensures
            db.wf(),
            db@ == Seq::<PointV>::empty(),
    {
        let db = VectorDatabase { kd_tree: KDTree::new(), vectors: Vec::new() };
        proof {
            broadcast use vstd::seq_lib::group_to_multiset_ensures;

            assert(seq_views(db.vectors@) =~= Seq::<PointV>::empty());
            assert(seq_views(db.vectors@).to_multiset() =~= Multiset::<PointV>::empty());
        }
        db
    }

    /// Appends a point to the list and inserts it into the index. A point
    /// whose dimension is zero, or differs from a non-empty collection's, is
    /// refused and the collection is unchanged.
    pub fn insert(&mut self, vector: Vector) -> (r: Result<(), Error>)
        requires
            old(self).wf(),
        ensures
            final(self).wf(),
            match r {
                Ok(()) => vector@.coords.len() >= 1 && (old(self)@.len() == 0
                    || vector@.coords.len() == dims_of(old(self)@)) && final(self)@ == old(
                    self,
                )@.push(vector@),
                Err(e) => e == Error::DimensionMismatch && (vector@.coords.len() == 0 || (old(
                    self,
                )@.len() > 0 && vector@.coords.len() != dims_of(old(self)@))) && *final(self)
                    == *old(self),
            },
    {
        proof {
            broadcast use vstd::seq_lib::group_to_multiset_ensures;
            broadcast use vstd::multiset::group_multiset_axioms;
        }
        let ghost old_views = seq_views(self.vectors@);
        match self.kd_tree.insert(vector.clone()) {
            Ok(()) => {
                self.vectors.push(vector);
                proof {
                    assert(seq_views(self.vectors@) =~= old_views.push(vector@));
                    assert(seq_views(self.vectors@).to_multiset() =~= old_views.to_multiset()
                        .insert(vector@));
                    assert(consistent_dims(seq_views(self.vectors@))) by {
                        assert(forall|i: int|
                            0 <= i < old_views.len() ==> seq_views(self.vectors@)[i]
                                == #[trigger] old_views[i]);
                    }
                }
                Ok(())
            }
            Err(e) => {
                proof {
                    if old(self)@.len() > 0 {
                        assert(old(self).kd_tree@.count(old(self)@[0]) > 0) by {
                            assert(old(self)@.to_multiset().count(old(self)@[0]) > 0);
                        }
                        assert(old(self).kd_tree@.len() > 0);
                    } else {
                        assert(old(self).kd_tree@ =~= Multiset::<PointV>::empty());
                    }
                }
                Err(e)
            }
        }
    }

    /// Returns the `k` stored points nearest to `query`, ordered by
    /// non-decreasing squared Euclidean distance. An empty collection yields
    /// an empty answer for every `k`; a query whose dimension differs from a
    /// non-empty collection's is refused.
    pub fn search(&self, query: &Vector, k: usize) -> (r: Result<Vec<Vector>, Error>)
        requires
            self.wf(),
        ensures
            match r {
                Ok(v) => is_knn(query@.coords, k as int, self@.to_multiset(), seq_views(v@)) && (
                self@.len() == 0 || query@.coords.len() == dims_of(self@)),
                Err(e) => e == Error::DimensionMismatch && self@.len() > 0 && query@.coords.len()
                    != dims_of(self@),
            },
    {
        proof {
            broadcast use vstd::seq_lib::group_to_multiset_ensures;
            broadcast use vstd::multiset::group_multiset_axioms;

            if self@.len() > 0 {
                assert(self.kd_tree@.count(self@[0]) > 0) by {
                    assert(self@.to_multiset().count(self@[0]) > 0);
                }
                assert(self.kd_tree@.len() > 0);
            } else {
                assert(self.kd_tree@ =~= self@.to_multiset());
            }
        }
        self.kd_tree.nearest(query, k)
    }

    /// Serializes every stored point, one byte file per point in insertion
    /// order. An empty collection is refused loudly, so that a caller can
    /// tell "nothing to persist" from a successful save.
    pub fn save_bytes(&self) -> (r: Result<Vec<Vec<u8>>, Error>)
        requires
            self.wf(),
        ensures
            match r {
                Ok(files) => self@.len() > 0 && files@.len() == self@.len() && forall|i: int|
                    0 <= i < files@.len() ==> (#[trigger] files@[i])@ == encode_point(self@[i])
                        && encodable(self@[i]),
                Err(e) => e == Error::EmptyIndex && self@.len() == 0,
            },
    {
        let n = self.vectors.len();
        if n == 0 {
            return Err(Error::EmptyIndex);
        }
        let mut files: Vec<Vec<u8>> = Vec::new();
        let mut i: usize = 0;
        while i < n
            invariant
                0 <= i <= n,
                n == self@.len(),
                self@ == seq_views(self.vectors@),
                files@.len() == i,
                forall|j: int|
                    0 <= j < i ==> (#[trigger] files@[j])@ == encode_point(self@[j]) && encodable(
                        self@[j],
                    ),
            decreases n - i,
        {
            let bytes = encode_vector(&self.vectors[i]);
            files.push(bytes);
            i = i + 1;
        }
        Ok(files)
    }

    /// Rebuilds a collection from byte files, decoding each file in the given
    /// order and inserting the points into a fresh collection. A file that is
    /// not an encoded point is reported as corrupt; decoded points whose
    /// dimensions do not agree (or are zero) are reported as a mismatch.
    pub fn load_bytes(files: &Vec<Vec<u8>>) -> (r: Result<VectorDatabase, Error>)
        ensures
            match r {
                Ok(db) => db.wf() && db@.len() == files@.len() && consistent_dims(db@) && forall|
                    i: int,
                |
                    0 <= i < files@.len() ==> decode_point((#[trigger] files@[i])@) == Some(
                        db@[i],
                    ),
                Err(e) => (e == Error::CorruptData && exists|i: int|
                    0 <= i < files@.len() && decode_point((#[trigger] files@[i])@) is None) || (e
                    == Error::DimensionMismatch && exists|s: Seq<PointV>|
                    s.len() == files@.len() && !consistent_dims(s) && forall|i: int|
                        0 <= i < files@.len() ==> decode_point((#[trigger] files@[i])@) == Some(
                            s[i],
                        )),
            },
    {
        let n = files.len();
        let mut pts: Vec<Vector> = Vec::new();
        let mut i: usize = 0;
        while i < n
            invariant
                0 <= i <= n,
                n == files@.len(),
                pts@.len() == i,
                forall|j: int|
                    0 <= j < i ==> decode_point((#[trigger] files@[j])@) == Some(pts@[j]@),
            decreases n - i,
        {
            match decode_vector(&files[i]) {
                Ok(v) => {
                    pts.push(v);
                }
                Err(_) => {
                    return Err(Error::CorruptData);
                }
            }
            i = i + 1;
        }
        let ghost s = seq_views(pts@);
        let mut db = VectorDatabase::new();
        let mut j: usize = 0;
        while j < n
            invariant
                0 <= j <= n,
                n == pts@.len() == files@.len(),
                s == seq_views(pts@),
                forall|t: int|
                    0 <= t < n ==> decode_point((#[trigger] files@[t])@) == Some(s[t]),
                db.wf(),
                db@ == s.take(j as int),
            decreases n - j,
        {
            let v = pts[j].clone();
            match db.insert(v) {
                Ok(()) => {
                    proof {
                        assert(s.take(j + 1) =~= s.take(j as int).push(s[j as int]));
                    }
                }
                Err(_) => {
                    proof {
                        assert(!consistent_dims(s)) by {
                            if s[j as int].coords.len() == 0 {
                                assert(!(s[j as int].coords.len() >= 1));
                            } else {
                                assert(db@.len() == j && j > 0);
                                assert(db@[0] == s[0]);
                                assert(s[j as int].coords.len() != dims_of(s.take(j as int)));
                                assert(dims_of(s.take(j as int)) == s[0].coords.len());
                            }
                        }
                    }
                    return Err(Error::DimensionMismatch);
                }
            }
            j = j + 1;
        }
        proof {
            assert(s.take(n as int) =~= s);
        }
        Ok(db)
    }

    /// Insertion-order independence: two collections that hold the same
    /// multiset of points answer every query with the same distances, in the
    /// same order, whatever order their points were inserted in and however
    /// their trees are therefore shaped. Which of several equidistant points
    /// is reported may differ; how near the answer is cannot.
    pub proof fn lemma_search_order_independent(
        q: Seq<i32>,
        k: int,
        s1: Seq<PointV>,
        s2: Seq<PointV>,
        r1: Seq<PointV>,
        r2: Seq<PointV>,
    )
        requires
            s1.to_multiset() == s2.to_multiset(),
            is_knn(q, k, s1.to_multiset(), r1),
            is_knn(q, k, s2.to_multiset(), r2),
        ensures
            r1.len() == r2.len(),
            forall|i: int| 0 <= i < r1.len() ==> #[trigger] pd2(q, r1[i]) == pd2(q, r2[i]),
    {
        lemma_knn_distances_agree(q, k, s1.to_multiset(), r1, r2);
    }

    /// The stored points, in insertion order.
    pub fn vectors(&self) -> (r: &Vec<Vector>)
        ensures
            seq_views(r@) == self@,
    {
        &self.vectors
    }
}

} // verus!
