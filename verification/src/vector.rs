//! The point type: a coordinate vector plus optional metadata, and the
//! squared-Euclidean-distance function used by every query.
//!
//! Coordinates are fixed-point integers (`i32`). Sorting candidates by the
//! squared distance orders them exactly as the Euclidean distance would,
//! since squaring is monotone on non-negative reals, so no square root is
//! ever taken and every distance computation is exact.

use vstd::prelude::*;

verus! {

/// A point stored in an index: an immutable coordinate vector plus optional
/// metadata.
#[derive(Debug)]
pub struct Vector {
    pub coordinates: Vec<i32>,
    pub meta: Option<String>,
}

/// The mathematical value of a [`Vector`]: its coordinate sequence and its
/// metadata as a character sequence.
#[verifier::ext_equal]
pub struct PointV {
    pub coords: Seq<i32>,
    pub meta: Option<Seq<char>>,
}

impl View for Vector {
    type V = PointV;

    open spec fn view(&self) -> PointV {
        PointV {
            coords: self.coordinates@,
            meta: match self.meta {
                Some(s) => Some(s@),
                None => None,
            },
        }
    }
}

/// The square of an integer.
pub open spec fn sq(x: int) -> int {
    x * x
}

/// Sum of squared coordinate differences from position `i` on.
pub open spec fn d2_from(a: Seq<i32>, b: Seq<i32>, i: int) -> int
    decreases a.len() - i,
{
    if i < 0 || i >= a.len() {
        0
    } else {
        sq(a[i] - b[i]) + d2_from(a, b, i + 1)
    }
}

/// Squared Euclidean distance between two coordinate sequences of equal
/// length.
pub open spec fn d2(a: Seq<i32>, b: Seq<i32>) -> int {
    d2_from(a, b, 0)
}

/// Every partial sum of squared differences is non-negative.
pub proof fn lemma_d2_from_nonneg(a: Seq<i32>, b: Seq<i32>, i: int)
    ensures
        d2_from(a, b, i) >= 0,
    decreases a.len() - i,
{
    if 0 <= i < a.len() {
        lemma_d2_from_nonneg(a, b, i + 1);
        assert(sq(a[i] - b[i]) >= 0) by (nonlinear_arith);
    }
}

/// The squared distance dominates the squared difference along any single
/// axis: dropping all other axes can only shrink the sum.
pub proof fn lemma_d2_from_axis(a: Seq<i32>, b: Seq<i32>, i: int, j: int)
    requires
        0 <= i <= j < a.len(),
    ensures
        d2_from(a, b, i) >= sq(a[j] - b[j]),
    decreases j - i,
{
    lemma_d2_from_nonneg(a, b, i + 1);
    assert(sq(a[i] - b[i]) >= 0) by (nonlinear_arith);
    if i < j {
        lemma_d2_from_axis(a, b, i + 1, j);
    }
}

/// The squared distance dominates the squared difference along any axis.
pub proof fn lemma_d2_axis(a: Seq<i32>, b: Seq<i32>, j: int)
    requires
        0 <= j < a.len(),
    ensures
        d2(a, b) >= sq(a[j] - b[j]),
        d2(a, b) >= 0,
{
    lemma_d2_from_axis(a, b, 0, j);
    lemma_d2_from_nonneg(a, b, 0);
}

/// Each summand is the square of a difference of two `i32` values, so it is
/// below 2^64; the whole tail is bounded by the number of summands.
proof fn lemma_d2_from_bound(a: Seq<i32>, b: Seq<i32>, i: int)
    requires
        0 <= i <= a.len(),
        a.len() == b.len(),
    ensures
        d2_from(a, b, i) <= (a.len() - i) * 0x1_0000_0000_0000_0000,
    decreases a.len() - i,
{
    if i < a.len() {
        lemma_d2_from_bound(a, b, i + 1);
        assert(sq(a[i] - b[i]) < 0x1_0000_0000_0000_0000) by (nonlinear_arith)
            requires
                -0x1_0000_0000 < a[i] - b[i] < 0x1_0000_0000;
        assert((a.len() - i) * 0x1_0000_0000_0000_0000 == (a.len() - (i + 1))
            * 0x1_0000_0000_0000_0000 + 0x1_0000_0000_0000_0000) by (nonlinear_arith);
    }
}

/// The mathematical values of a sequence of points.
pub open spec fn seq_views(s: Seq<Vector>) -> Seq<PointV> {
    Seq::new(s.len(), |i: int| s[i]@)
}

/// The square of the difference of two coordinates, computed exactly.
pub fn sq_diff(x: i32, y: i32) -> (r: u128)
    ensures
        r as int == sq(x - y),
{
    let d: i64 = (x as i64) - (y as i64);
    proof {
        let di = d as int;
        assert(0 <= di * di < 0x1_0000_0000_0000_0000) by (nonlinear_arith)
            requires
                -0x1_0000_0000 < di < 0x1_0000_0000;
    }
    ((d as i128) * (d as i128)) as u128
}

/// Whether every coordinate of `c` lies inside the box `[lo, hi]`.
pub open spec fn within_spec(c: Seq<i32>, lo: Seq<i32>, hi: Seq<i32>) -> bool {
    forall|i: int| 0 <= i < c.len() ==> lo[i] <= #[trigger] c[i] <= hi[i]
}

impl Vector {
    /// Builds a point from its coordinates and optional metadata.
    pub fn new(coordinates: Vec<i32>, meta: Option<String>) -> (v: Vector)
        ensures
            v@ == (PointV { coords: coordinates@, meta: match meta {
                Some(s) => Some(s@),
                None => None,
            } }),
    {
        Vector { coordinates, meta }
    }

    /// Squared Euclidean distance to another point of the same dimension.
    pub fn distance(&self, other: &Vector) -> (r: u128)
        requires
            self@.coords.len() == other@.coords.len(),
        ensures
            r as int == d2(self@.coords, other@.coords),
    {
        let a = &self.coordinates;
        let b = &other.coordinates;
        let n = a.len();
        let mut acc: u128 = 0;
        let mut i: usize = 0;
        proof {
            lemma_d2_from_bound(a@, b@, 0);
            lemma_d2_from_nonneg(a@, b@, 0);
        }
        while i < n
            invariant
                0 <= i <= n,
                n == a@.len() == b@.len(),
                acc as int + d2_from(a@, b@, i as int) == d2(a@, b@),
                d2(a@, b@) <= n * 0x1_0000_0000_0000_0000,
                acc as int <= d2(a@, b@),
            decreases n - i,
        {
            let d: i64 = (a[i] as i64) - (b[i] as i64);
            proof {
                let di = d as int;
                assert(0 <= di * di < 0x1_0000_0000_0000_0000) by (nonlinear_arith)
                    requires
                        -0x1_0000_0000 < di < 0x1_0000_0000;
                lemma_d2_from_nonneg(a@, b@, i + 1);
                assert(d2_from(a@, b@, i as int) == sq(a@[i as int] - b@[i as int]) + d2_from(
                    a@,
                    b@,
                    i + 1,
                ));
                assert(acc as int + di * di <= d2(a@, b@));
                assert(n * 0x1_0000_0000_0000_0000 <= 0xffff_ffff_ffff_ffff
                    * 0x1_0000_0000_0000_0000) by (nonlinear_arith)
                    requires
                        n <= 0xffff_ffff_ffff_ffff;
            }
            let t: u128 = ((d as i128) * (d as i128)) as u128;
            acc = acc + t;
            i = i + 1;
        }
        acc
    }

    /// Whether this point lies inside the bounding box given by two corner
    /// points of the same dimension.
    pub fn within(&self, lower: &Vector, upper: &Vector) -> (r: bool)
        requires
            self@.coords.len() == lower@.coords.len(),
            self@.coords.len() == upper@.coords.len(),
        ensures
            r == within_spec(self@.coords, lower@.coords, upper@.coords),
    {
        let n = self.coordinates.len();
        let mut i: usize = 0;
        while i < n
            invariant
                0 <= i <= n,
                n == self@.coords.len() == lower@.coords.len() == upper@.coords.len(),
                forall|j: int|
                    0 <= j < i ==> lower@.coords[j] <= #[trigger] self@.coords[j] <= upper@.coords[j],
            decreases n - i,
        {
            let c = self.coordinates[i];
            if c < lower.coordinates[i] || c > upper.coordinates[i] {
                return false;
            }
            i = i + 1;
        }
        true
    }

    /// The coordinate vector.
    pub fn coordinates(&self) -> (r: &Vec<i32>)
        ensures
            r@ == self@.coords,
    {
        &self.coordinates
    }

    /// The optional metadata.
    pub fn meta(&self) -> (r: &Option<String>)
        ensures
            match r {
                Some(s) => self@.meta == Some(s@),
                None => self@.meta is None,
            },
    {
        &self.meta
    }
}

impl Clone for Vector {
    /// A clone carries the same mathematical value.
    fn clone(&self) -> (r: Self)
        ensures
            r@ == self@,
    {
        let coordinates = self.coordinates.clone();
        proof {
            assert forall|i: int| 0 <= i < self.coordinates@.len() implies coordinates@[i]
                == self.coordinates@[i] by {
                assert(cloned::<i32>(self.coordinates[i], coordinates[i]));
            }
            assert(coordinates@ =~= self.coordinates@);
        }
        let meta = match &self.meta {
            Some(s) => Some(s.clone()),
            None => None,
        };
        Vector { coordinates, meta }
    }
}

} // verus!
