//! What it means for a sequence of points to be a correct k-nearest-neighbour
//! answer, and the lemmas that drive the candidate list of the tree search:
//! visiting one more point keeps the answer correct, and a whole subtree may
//! be skipped once every point in it is provably at least as far away as the
//! current worst candidate.

use vstd::prelude::*;
use vstd::multiset::Multiset;
use crate::vector::{PointV, d2};

verus! {

/// Squared distance from the query `q` to the stored point `p`.
pub open spec fn pd2(q: Seq<i32>, p: PointV) -> int {
    d2(q, p.coords)
}

/// `r` is ordered by non-decreasing squared distance to `q`.
pub open spec fn sorted_by_dist(q: Seq<i32>, r: Seq<PointV>) -> bool {
    forall|i: int, j: int|
        0 <= i <= j < r.len() ==> #[trigger] pd2(q, r[i]) <= #[trigger] pd2(q, r[j])
}

/// `p` is at least as far from `q` as every entry of `r`.
pub open spec fn far_from_all(q: Seq<i32>, p: PointV, r: Seq<PointV>) -> bool {
    forall|i: int| 0 <= i < r.len() ==> pd2(q, p) >= #[trigger] pd2(q, r[i])
}

/// Every point that the stored multiset `s` holds beyond the chosen
/// candidates `r` is at least as far from `q` as every candidate.
pub open spec fn dominates(q: Seq<i32>, s: Multiset<PointV>, r: Seq<PointV>) -> bool {
    forall|p: PointV|
        #[trigger] s.count(p) > r.to_multiset().count(p) ==> far_from_all(q, p, r)
}

/// `r` is a correct k-nearest-neighbour answer for query `q` over the stored
/// multiset `s`: it holds `min(k, |s|)` of the stored points, ordered by
/// non-decreasing distance, and no stored point outside it is closer than any
/// point inside it.
pub open spec fn is_knn(q: Seq<i32>, k: int, s: Multiset<PointV>, r: Seq<PointV>) -> bool {
    &&& r.len() == (if s.len() < k {
        s.len() as int
    } else {
        k
    })
    &&& r.to_multiset().subset_of(s)
    &&& sorted_by_dist(q, r)
    &&& dominates(q, s, r)
}

/// A sub-multiset of equal size is the whole multiset.
pub proof fn lemma_subset_equal_len<A>(a: Multiset<A>, b: Multiset<A>)
    requires
        a.subset_of(b),
        a.len() == b.len(),
    ensures
        a == b,
{
    broadcast use vstd::multiset::group_multiset_axioms;

    let d = b.sub(a);
    assert(d.len() == 0);
    vstd::multiset::lemma_multiset_empty_len(d);
    assert forall|x: A| a.count(x) == #[trigger] b.count(x) by {
        assert(d.count(x) == Multiset::<A>::empty().count(x));
        assert(d.count(x) == 0);
        assert(a.count(x) <= b.count(x));
    }
    assert(a =~= b);
}

/// Inserting into a sequence at any position inserts into its multiset.
pub proof fn lemma_insert_to_multiset<A>(s: Seq<A>, i: int, x: A)
    requires
        0 <= i <= s.len(),
    ensures
        s.insert(i, x).to_multiset() == s.to_multiset().insert(x),
{
    broadcast use vstd::multiset::group_multiset_axioms;
    broadcast use vstd::seq_lib::group_to_multiset_ensures;

    let t = s.insert(i, x);
    assert(t.remove(i) =~= s);
    assert(t.remove(i).to_multiset() =~= t.to_multiset().remove(t[i]));
    assert(t[i] == x);
    assert(t.to_multiset().count(x) > 0) by {
        assert(t.contains(x));
    }
    assert(t.to_multiset() =~= s.to_multiset().insert(x));
}

/// Dropping the last element of a sequence removes it from its multiset.
pub proof fn lemma_drop_last_to_multiset<A>(s: Seq<A>)
    requires
        s.len() > 0,
    ensures
        s.drop_last().to_multiset() == s.to_multiset().remove(s.last()),
{
    broadcast use vstd::multiset::group_multiset_axioms;
    broadcast use vstd::seq_lib::group_to_multiset_ensures;

    assert(s.remove(s.len() - 1) =~= s.drop_last());
    assert(s.remove(s.len() - 1).to_multiset() =~= s.to_multiset().remove(s.last()));
}

/// Visiting one more stored point `p` keeps the candidate list correct: `c2`
/// is `c` with `p` placed at its sorted position `idx`, truncated back to `k`
/// entries (`p` is dropped at once when it is no better than a full list).
pub proof fn lemma_knn_update(
    q: Seq<i32>,
    k: int,
    s: Multiset<PointV>,
    c: Seq<PointV>,
    p: PointV,
    idx: int,
    c2: Seq<PointV>,
)
    requires
        k >= 1,
        is_knn(q, k, s, c),
        0 <= idx <= c.len(),
        forall|j: int| 0 <= j < idx ==> #[trigger] pd2(q, c[j]) <= pd2(q, p),
        forall|j: int| idx <= j < c.len() ==> #[trigger] pd2(q, c[j]) >= pd2(q, p),
        c2 == (if c.len() < k {
            c.insert(idx, p)
        } else if idx < k {
            c.insert(idx, p).drop_last()
        } else {
            c
        }),
    ensures
        is_knn(q, k, s.insert(p), c2),
{
    broadcast use vstd::multiset::group_multiset_axioms;
    broadcast use vstd::seq_lib::group_to_multiset_ensures;

    let s2 = s.insert(p);
    assert(s2.len() == s.len() + 1);
    let c3 = c.insert(idx, p);
    lemma_insert_to_multiset(c, idx, p);
    // `c3` is sorted: everything before `idx` is <= p, everything after is >= p.
    assert forall|i: int, j: int| 0 <= i <= j < c3.len() implies #[trigger] pd2(q, c3[i])
        <= #[trigger] pd2(q, c3[j]) by {
        assert(forall|t: int| 0 <= t < idx ==> c3[t] == c[t]);
        assert(c3[idx] == p);
        assert(forall|t: int| idx < t < c3.len() ==> c3[t] == c[t - 1]);
    }
    if c.len() < k {
        // The list was not yet full, so it already held everything stored.
        assert(s.len() < k);
        lemma_subset_equal_len(c.to_multiset(), s);
        assert(c2.to_multiset() =~= s2);
        assert(c2.len() == s2.len());
        assert(dominates(q, s2, c2)) by {
            assert(forall|x: PointV| s2.count(x) <= c2.to_multiset().count(x));
        }
    } else {
        // The list is full: k entries, and the store holds at least k points.
        assert(c.len() == k);
        assert(s.len() >= k);
        // Every entry of `c`, and `p` when it is kept, is no farther than the
        // worst old candidate `m`.
        let m = c[k - 1];
        assert(forall|j: int| 0 <= j < c.len() ==> #[trigger] pd2(q, c[j]) <= pd2(q, m));
        if idx < k {
            assert(pd2(q, p) <= pd2(q, m));
            assert(c3.last() == m) by {
                assert(c3[k] == c[k - 1]);
            }
            lemma_drop_last_to_multiset(c3);
            assert(c2.to_multiset() =~= c.to_multiset().insert(p).remove(m));
            // Each remaining candidate is either `p` or an old candidate.
            assert forall|i: int| 0 <= i < c2.len() implies pd2(q, c2[i]) <= pd2(q, m) && (c2[i]
                == p || exists|j: int| 0 <= j < c.len() && c2[i] == #[trigger] c[j]) by {
                if i < idx {
                    assert(c2[i] == c[i]);
                } else if i == idx {
                    assert(c2[i] == p);
                } else {
                    assert(c2[i] == c[i - 1]);
                }
            }
            assert(c2.len() == k);
            assert(c2.to_multiset().subset_of(s2));
            assert(dominates(q, s2, c2)) by {
                assert forall|x: PointV| #[trigger] s2.count(x) > c2.to_multiset().count(x)
                    implies far_from_all(q, x, c2) by {
                    if x == m {
                        // The dropped worst candidate dominates all of `c2`.
                    } else if x == p {
                        assert(s.count(p) > c.to_multiset().count(p));
                        assert(far_from_all(q, p, c));
                        assert forall|i: int| 0 <= i < c2.len() implies pd2(q, x)
                            >= #[trigger] pd2(q, c2[i]) by {}
                    } else {
                        assert(s.count(x) > c.to_multiset().count(x));
                        assert(far_from_all(q, x, c));
                        assert(pd2(q, x) >= pd2(q, m));
                        assert(pd2(q, m) >= pd2(q, p));
                        assert forall|i: int| 0 <= i < c2.len() implies pd2(q, x)
                            >= #[trigger] pd2(q, c2[i]) by {}
                    }
                }
            }
        } else {
            // `p` is no better than the worst candidate; the list stands.
            assert(c2 == c);
            assert(forall|j: int| 0 <= j < c.len() ==> #[trigger] pd2(q, c[j]) <= pd2(q, p));
            assert(dominates(q, s2, c2)) by {
                assert forall|x: PointV| #[trigger] s2.count(x) > c2.to_multiset().count(x)
                    implies far_from_all(q, x, c2) by {
                    if x == p {
                        assert(far_from_all(q, p, c));
                    } else {
                        assert(s.count(x) > c.to_multiset().count(x));
                    }
                }
            }
        }
    }
}

/// Chopping off the first (nearest) answer point leaves a correct answer for
/// one fewer neighbour over the store without that point.
pub proof fn lemma_knn_tail(q: Seq<i32>, k: int, s: Multiset<PointV>, r: Seq<PointV>)
    requires
        is_knn(q, k, s, r),
        r.len() > 0,
    ensures
        is_knn(q, k - 1, s.remove(r[0]), r.drop_first()),
{
    broadcast use vstd::multiset::group_multiset_axioms;
    broadcast use vstd::seq_lib::group_to_multiset_ensures;

    let h = r[0];
    let r2 = r.drop_first();
    assert(r.remove(0) =~= r2);
    assert(r.to_multiset().count(h) > 0) by {
        assert(r.contains(h));
    }
    assert(s.count(h) > 0);
    assert(r2.to_multiset() =~= r.to_multiset().remove(h));
    assert(s.remove(h).len() == s.len() - 1);
    assert(dominates(q, s.remove(h), r2)) by {
        assert forall|x: PointV| #[trigger] s.remove(h).count(x) > r2.to_multiset().count(x)
            implies far_from_all(q, x, r2) by {
            assert(s.count(x) > r.to_multiset().count(x));
            assert(far_from_all(q, x, r));
            assert forall|i: int| 0 <= i < r2.len() implies pd2(q, x) >= #[trigger] pd2(
                q,
                r2[i],
            ) by {
                assert(r2[i] == r[i + 1]);
            }
        }
    }
}

/// Exchanging one point of the store for an equidistant one keeps a correct
/// answer correct, after at most replacing that point inside the answer; the
/// answer's distances are unchanged.
pub proof fn lemma_knn_exchange(
    q: Seq<i32>,
    k: int,
    s: Multiset<PointV>,
    y: PointV,
    z: PointV,
    c: Seq<PointV>,
) -> (c2: Seq<PointV>)
    requires
        s.count(y) > 0,
        s.count(z) > 0,
        pd2(q, y) == pd2(q, z),
        is_knn(q, k, s.remove(y), c),
    ensures
        is_knn(q, k, s.remove(z), c2),
        c2.len() == c.len(),
        forall|i: int| 0 <= i < c.len() ==> #[trigger] pd2(q, c2[i]) == pd2(q, c[i]),
{
    broadcast use vstd::multiset::group_multiset_axioms;
    broadcast use vstd::seq_lib::group_to_multiset_ensures;

    if y == z {
        return c;
    }
    assert(s.remove(y).len() == s.len() - 1 && s.remove(z).len() == s.len() - 1);
    if c.to_multiset().count(z) > 0 {
        assert(c.contains(z));
        let j = choose|j: int| 0 <= j < c.len() && c[j] == z;
        let c2 = c.update(j, y);
        assert(c2[j] == y);
        assert(forall|i: int| 0 <= i < c.len() && i != j ==> #[trigger] c2[i] == c[i]);
        assert(forall|i: int| 0 <= i < c.len() ==> #[trigger] pd2(q, c2[i]) == pd2(q, c[i]));
        assert(c2.remove(j) =~= c.remove(j));
        assert(c2.to_multiset().remove(y) =~= c.to_multiset().remove(z));
        assert(c2.to_multiset().count(y) > 0) by {
            assert(c2.contains(y));
        }
        assert forall|x: PointV| #[trigger] c2.to_multiset().count(x)
            <= s.remove(z).count(x) by {
            if x == y {
                assert(c2.to_multiset().count(y) == c.to_multiset().count(y) + 1);
                assert(c.to_multiset().count(y) <= s.remove(y).count(y));
            } else if x == z {
                assert(c2.to_multiset().count(z) == c.to_multiset().count(z) - 1);
            } else {
                assert(c2.to_multiset().count(x) == c.to_multiset().count(x));
            }
        }
        assert(sorted_by_dist(q, c2)) by {
            assert forall|a: int, b: int| 0 <= a <= b < c2.len() implies #[trigger] pd2(
                q,
                c2[a],
            ) <= #[trigger] pd2(q, c2[b]) by {
                assert(pd2(q, c2[a]) == pd2(q, c[a]) && pd2(q, c2[b]) == pd2(q, c[b]));
            }
        }
        assert(dominates(q, s.remove(z), c2)) by {
            assert forall|x: PointV| #[trigger] s.remove(z).count(x) > c2.to_multiset().count(x)
                implies far_from_all(q, x, c2) by {
                if x == y {
                    assert(s.remove(y).count(y) > c.to_multiset().count(y));
                } else if x == z {
                    assert(s.remove(y).count(z) > c.to_multiset().count(z));
                } else {
                    assert(s.remove(y).count(x) > c.to_multiset().count(x));
                }
                assert(far_from_all(q, x, c));
                assert forall|i: int| 0 <= i < c2.len() implies pd2(q, x) >= #[trigger] pd2(
                    q,
                    c2[i],
                ) by {
                    assert(pd2(q, c2[i]) == pd2(q, c[i]));
                }
            }
        }
        c2
    } else {
        // `z` is nowhere in the answer, so the answer already lives inside
        // the store without `z`; and since `z` stands outside the answer, the
        // answer's entries are all no farther than `z` (hence than `y`).
        assert(s.remove(y).count(z) > c.to_multiset().count(z));
        assert(far_from_all(q, z, c));
        assert forall|x: PointV| #[trigger] c.to_multiset().count(x)
            <= s.remove(z).count(x) by {
            if x == z {
            } else if x == y {
                assert(c.to_multiset().count(y) <= s.remove(y).count(y));
            } else {
                assert(c.to_multiset().count(x) <= s.remove(y).count(x));
            }
        }
        assert(dominates(q, s.remove(z), c)) by {
            assert forall|x: PointV| #[trigger] s.remove(z).count(x) > c.to_multiset().count(x)
                implies far_from_all(q, x, c) by {
                if x == z {
                } else if x == y {
                    if s.remove(y).count(y) > c.to_multiset().count(y) {
                        assert(far_from_all(q, x, c));
                    } else {
                        assert forall|i: int| 0 <= i < c.len() implies pd2(q, x)
                            >= #[trigger] pd2(q, c[i]) by {
                            assert(pd2(q, z) >= pd2(q, c[i]));
                        }
                    }
                } else {
                    assert(s.remove(y).count(x) > c.to_multiset().count(x));
                }
            }
        }
        c
    }
}

/// Any two correct k-nearest-neighbour answers over one stored multiset
/// report the same distances, in the same order: which equidistant point is
/// chosen may differ, but never how near the answer is. In particular the
/// pruned tree search, an exhaustive scan, and searches of stores built in
/// any insertion order all agree.
pub proof fn lemma_knn_distances_agree(
    q: Seq<i32>,
    k: int,
    s: Multiset<PointV>,
    r1: Seq<PointV>,
    r2: Seq<PointV>,
)
    requires
        is_knn(q, k, s, r1),
        is_knn(q, k, s, r2),
    ensures
        r1.len() == r2.len(),
        forall|i: int| 0 <= i < r1.len() ==> #[trigger] pd2(q, r1[i]) == pd2(q, r2[i]),
    decreases r1.len(),
{
    broadcast use vstd::multiset::group_multiset_axioms;
    broadcast use vstd::seq_lib::group_to_multiset_ensures;

    if r1.len() == 0 {
        return ;
    }
    let h1 = r1[0];
    let h2 = r2[0];
    assert(s.count(h1) > 0) by {
        assert(r1.contains(h1));
    }
    assert(s.count(h2) > 0) by {
        assert(r2.contains(h2));
    }
    // Both heads attain the minimum distance over the whole store.
    assert(pd2(q, h1) <= pd2(q, h2)) by {
        if s.count(h2) > r1.to_multiset().count(h2) {
            assert(far_from_all(q, h2, r1));
        } else {
            assert(r1.to_multiset().count(h2) > 0);
            assert(r1.contains(h2));
            let j = choose|j: int| 0 <= j < r1.len() && r1[j] == h2;
            assert(pd2(q, r1[0]) <= pd2(q, r1[j]));
        }
    }
    assert(pd2(q, h2) <= pd2(q, h1)) by {
        if s.count(h1) > r2.to_multiset().count(h1) {
            assert(far_from_all(q, h1, r2));
        } else {
            assert(r2.to_multiset().count(h1) > 0);
            assert(r2.contains(h1));
            let j = choose|j: int| 0 <= j < r2.len() && r2[j] == h1;
            assert(pd2(q, r2[0]) <= pd2(q, r2[j]));
        }
    }
    assert(pd2(q, h1) == pd2(q, h2));
    lemma_knn_tail(q, k, s, r1);
    lemma_knn_tail(q, k, s, r2);
    let c2 = lemma_knn_exchange(q, k - 1, s, h2, h1, r2.drop_first());
    lemma_knn_distances_agree(q, k - 1, s.remove(h1), r1.drop_first(), c2);
    assert forall|i: int| 0 <= i < r1.len() implies #[trigger] pd2(q, r1[i]) == pd2(
        q,
        r2[i],
    ) by {
        if i > 0 {
            assert(r1.drop_first()[i - 1] == r1[i]);
            assert(r2.drop_first()[i - 1] == r2[i]);
            assert(pd2(q, r1.drop_first()[i - 1]) == pd2(q, c2[i - 1]));
        }
    }
}

/// Once the candidate list is full, a whole group `t` of stored points may be
/// skipped when each of them is at least as far from the query as the worst
/// current candidate.
pub proof fn lemma_knn_prune(
    q: Seq<i32>,
    k: int,
    s: Multiset<PointV>,
    t: Multiset<PointV>,
    c: Seq<PointV>,
)
    requires
        k >= 1,
        is_knn(q, k, s, c),
        c.len() == k,
        forall|x: PointV| #[trigger] t.count(x) > 0 ==> pd2(q, x) >= pd2(q, c[k - 1]),
    ensures
        is_knn(q, k, s.add(t), c),
{
    broadcast use vstd::multiset::group_multiset_axioms;

    assert(s.len() >= k);
    assert(s.add(t).len() >= k);
    assert(c.to_multiset().subset_of(s.add(t)));
    assert(dominates(q, s.add(t), c)) by {
        assert forall|x: PointV| #[trigger] s.add(t).count(x) > c.to_multiset().count(x)
            implies far_from_all(q, x, c) by {
            if s.count(x) > c.to_multiset().count(x) {
                assert(far_from_all(q, x, c));
            } else {
                assert(t.count(x) > 0);
                assert(pd2(q, x) >= pd2(q, c[k - 1]));
                assert forall|i: int| 0 <= i < c.len() implies pd2(q, x) >= #[trigger] pd2(
                    q,
                    c[i],
                ) by {
                    assert(pd2(q, c[i]) <= pd2(q, c[k - 1]));
                }
            }
        }
    }
}

} // verus!
