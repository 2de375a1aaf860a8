//! The distance model: a square, symmetric matrix of pairwise Euclidean
//! distances with a zero diagonal.
//!
//! Coordinates are fixed-point integers (see [`crate::fixed::SCALE`]); a
//! distance is the floor of the square root of the summed squared
//! coordinate differences, so it is again a fixed-point length.

use vstd::prelude::*;
use crate::fixed::is_sqrt_floor;
use crate::fixed::isqrt;
use crate::fixed::lemma_sqrt_floor_unique;
use crate::errors::RunError;

verus! {

/// Largest coordinate magnitude the model accepts (10^9 in real units).
pub const COORD_LIMIT: i64 = 1_000_000_000_000_000;

/// Largest point dimensionality the model accepts.
pub const DIM_LIMIT: usize = 64;

/// Every matrix entry produced by the model stays at or under this.
pub const ENTRY_LIMIT: u64 = 100_000_000_000_000_000;

/// The sum of squared coordinate differences over the first `k` dimensions.
pub open spec fn sq_dist_upto(p: Seq<i64>, q: Seq<i64>, k: int) -> int
    decreases k,
{
    if k <= 0 {
        0
    } else {
        let d = p[k - 1] - q[k - 1];
        sq_dist_upto(p, q, k - 1) + d * d
    }
}

/// The squared Euclidean distance between two points of equal dimensionality.
pub open spec fn sq_dist(p: Seq<i64>, q: Seq<i64>) -> int {
    sq_dist_upto(p, q, p.len() as int)
}

/// A well-shaped point set: every row shares the dimensionality of the
/// first, that dimensionality is between 1 and `DIM_LIMIT`, and every
/// coordinate's magnitude is at most `COORD_LIMIT`.
pub open spec fn points_consistent(ps: Seq<Seq<i64>>) -> bool {
    ps.len() == 0 || {
        &&& 1 <= ps[0].len() <= DIM_LIMIT
        &&& forall|i: int| 0 <= i < ps.len() ==> #[trigger] ps[i].len() == ps[0].len()
        &&& forall|i: int, k: int|
            0 <= i < ps.len() && 0 <= k < ps[i].len() ==> -COORD_LIMIT <= #[trigger] ps[i][k]
                <= COORD_LIMIT
    }
}

/// Squared distance is symmetric in its two points.
pub proof fn lemma_sq_dist_symmetric(p: Seq<i64>, q: Seq<i64>, k: int)
    ensures
        sq_dist_upto(p, q, k) == sq_dist_upto(q, p, k),
    decreases k,
{
    if k > 0 {
        lemma_sq_dist_symmetric(p, q, k - 1);
        let d = p[k - 1] - q[k - 1];
        let e = q[k - 1] - p[k - 1];
        assert(d * d == e * e) by (nonlinear_arith)
            requires
                d == -e,
        ;
    }
}

/// The squared distance from a point to itself is zero.
pub proof fn lemma_sq_dist_self_zero(p: Seq<i64>, k: int)
    ensures
        sq_dist_upto(p, p, k) == 0,
    decreases k,
{
    if k > 0 {
        lemma_sq_dist_self_zero(p, k - 1);
    }
}

/// The Euclidean distance between two points, rounded down to fixed point.
pub fn euclidean_distance(point1: &Vec<i64>, point2: &Vec<i64>) -> (r: u64)
    requires
        point1@.len() == point2@.len(),
        point1@.len() <= DIM_LIMIT,
        forall|i: int| 0 <= i < point1@.len() ==> -COORD_LIMIT <= #[trigger] point1@[i]
            <= COORD_LIMIT,
        forall|i: int| 0 <= i < point2@.len() ==> -COORD_LIMIT <= #[trigger] point2@[i]
            <= COORD_LIMIT,
    ensures
        is_sqrt_floor(sq_dist(point1@, point2@), r as int),
        r <= ENTRY_LIMIT,
{
    let dim = point1.len();
    let mut acc: u128 = 0;
    let mut i: usize = 0;
    while i < dim
        invariant
            i <= dim,
            dim == point1@.len(),
            dim == point2@.len(),
            dim <= DIM_LIMIT,
            forall|k: int| 0 <= k < point1@.len() ==> -COORD_LIMIT <= #[trigger] point1@[k]
                <= COORD_LIMIT,
            forall|k: int| 0 <= k < point2@.len() ==> -COORD_LIMIT <= #[trigger] point2@[k]
                <= COORD_LIMIT,
            acc == sq_dist_upto(point1@, point2@, i as int),
            acc <= (i as int) * (4_000_000_000_000_000_000_000_000_000_000int),
        decreases dim - i,
    {
        let d: i128 = (point1[i] as i128) - (point2[i] as i128);
        proof {
            assert(0 <= d * d <= 4_000_000_000_000_000_000_000_000_000_000int) by (nonlinear_arith)
                requires
                    -2_000_000_000_000_000 <= d <= 2_000_000_000_000_000,
            ;
            assert((i as int) * (4_000_000_000_000_000_000_000_000_000_000int)
                + 4_000_000_000_000_000_000_000_000_000_000int == ((i + 1) as int)
                * 4_000_000_000_000_000_000_000_000_000_000int) by (nonlinear_arith);
            assert(((i + 1) as int) * (4_000_000_000_000_000_000_000_000_000_000int) <= (
            DIM_LIMIT as int) * (4_000_000_000_000_000_000_000_000_000_000int))
                by (nonlinear_arith)
                requires
                    i + 1 <= DIM_LIMIT as int,
            ;
        }
        let sq: u128 = (d * d) as u128;
        acc = acc + sq;
        i = i + 1;
    }
    proof {
        assert((dim as int) * (4_000_000_000_000_000_000_000_000_000_000int) <= (DIM_LIMIT as int)
            * (4_000_000_000_000_000_000_000_000_000_000int)) by (nonlinear_arith)
            requires
                dim as int <= DIM_LIMIT as int,
        ;
    }
    let root = isqrt(acc);
    proof {
        if root > ENTRY_LIMIT {
            assert((root as int) * (root as int) > (ENTRY_LIMIT as int) * (ENTRY_LIMIT as int))
                by (nonlinear_arith)
                requires
                    root as int > ENTRY_LIMIT as int,
                    ENTRY_LIMIT as int > 0,
            ;
        }
    }
    root
}

/// The pairwise-distance matrix. Square and symmetric, zero on the
/// diagonal, derived once from a point set and read-only afterwards.
pub struct DistanceMatrix {
    d: Vec<Vec<u64>>,
}

impl DistanceMatrix {
    /// The matrix as a sequence of rows.
    pub closed spec fn entries(&self) -> Seq<Seq<u64>> {
        Seq::new(self.d@.len(), |i: int| self.d@[i]@)
    }

    /// The number of points the matrix covers.
    pub open spec fn n(&self) -> nat {
        self.entries().len()
    }

    /// Well-formedness: square, symmetric, zero diagonal, entries bounded.
    pub open spec fn wf(&self) -> bool {
        &&& forall|i: int| 0 <= i < self.n() ==> #[trigger] self.entries()[i].len() == self.n()
        &&& forall|i: int, j: int|
            0 <= i < self.n() && 0 <= j < self.n() ==> #[trigger] self.entries()[i][j]
                == self.entries()[j][i]
        &&& forall|i: int| 0 <= i < self.n() ==> #[trigger] self.entries()[i][i] == 0
        &&& forall|i: int, j: int|
            0 <= i < self.n() && 0 <= j < self.n() ==> #[trigger] self.entries()[i][j]
                <= ENTRY_LIMIT
    }

    /// The number of points, as a machine integer.
    pub fn size(&self) -> (r: usize)
        ensures
            r == self.n(),
    {
        self.d.len()
    }

    /// One entry of the matrix.
    pub fn entry(&self, i: usize, j: usize) -> (r: u64)
        requires
            self.wf(),
            i < self.n(),
            j < self.n(),
        ensures
            r == self.entries()[i as int][j as int],
    {
        proof {
            assert(self.entries()[i as int] == self.d@[i as int]@);
            assert(self.entries()[i as int].len() == self.n());
        }
        self.d[i][j]
    }
}

/// Builds the pairwise Euclidean distance matrix of a point set, or reports
/// an input-shape error exactly when the rows are inconsistent (or a value
/// is outside the supported range).
pub fn calc_points_distance(points: &Vec<Vec<i64>>) -> (r: Result<DistanceMatrix, RunError>)
    ensures
        match r {
            Ok(m) => {
                &&& points_consistent(points.deep_view())
                &&& m.wf()
                &&& m.n() == points@.len()
                &&& forall|i: int, j: int|
                    0 <= i < m.n() && 0 <= j < m.n() ==> is_sqrt_floor(
                        sq_dist(points.deep_view()[i], points.deep_view()[j]),
                        #[trigger] m.entries()[i][j] as int,
                    )
            },
            Err(e) => e == RunError::InputShape && !points_consistent(points.deep_view()),
        },
{
    let ghost ps = points.deep_view();
    let n = points.len();
    proof {
        assert(ps.len() == n);
        assert forall|x: int| 0 <= x < n implies #[trigger] ps[x] == points@[x]@ by {
            assert(points@[x].deep_view() =~= points@[x]@);
        }
    }
    if n == 0 {
        return Ok(DistanceMatrix { d: Vec::new() });
    }
    let dim = points[0].len();
    if dim < 1 || dim > DIM_LIMIT {
        return Err(RunError::InputShape);
    }
    let mut i: usize = 0;
    while i < n
        invariant
            i <= n,
            n == points@.len(),
            ps == points.deep_view(),
            forall|x: int| 0 <= x < n ==> #[trigger] ps[x] == points@[x]@,
            dim == ps[0].len(),
            forall|a: int| 0 <= a < i ==> #[trigger] ps[a].len() == dim,
            forall|a: int, k: int|
                0 <= a < i && 0 <= k < ps[a].len() ==> -COORD_LIMIT <= #[trigger] ps[a][k]
                    <= COORD_LIMIT,
        decreases n - i,
    {
        let row = &points[i];
        if row.len() != dim {
            proof {
                assert(ps[i as int].len() != ps[0].len());
            }
            return Err(RunError::InputShape);
        }
        let mut k: usize = 0;
        while k < dim
            invariant
                k <= dim,
                i < n,
                n == points@.len(),
                ps == points.deep_view(),
                forall|x: int| 0 <= x < n ==> #[trigger] ps[x] == points@[x]@,
                dim == ps[i as int].len(),
                forall|c: int| 0 <= c < k ==> -COORD_LIMIT <= #[trigger] ps[i as int][c]
                    <= COORD_LIMIT,
            decreases dim - k,
        {
            let c = points[i][k];
            if c < -COORD_LIMIT || c > COORD_LIMIT {
                proof {
                    assert(!(-COORD_LIMIT <= ps[i as int][k as int] <= COORD_LIMIT));
                }
                return Err(RunError::InputShape);
            }
            k = k + 1;
        }
        i = i + 1;
    }
    let mut rows: Vec<Vec<u64>> = Vec::new();
    let mut a: usize = 0;
    while a < n
        invariant
            a <= n,
            n == points@.len(),
            ps == points.deep_view(),
            forall|x: int| 0 <= x < n ==> #[trigger] ps[x] == points@[x]@,
            points_consistent(ps),
            rows@.len() == a,
            forall|x: int| 0 <= x < a ==> #[trigger] rows@[x]@.len() == n,
            forall|x: int, y: int|
                0 <= x < a && 0 <= y < n ==> is_sqrt_floor(
                    sq_dist(ps[x], ps[y]),
                    #[trigger] rows@[x]@[y] as int,
                ),
            forall|x: int, y: int|
                0 <= x < a && 0 <= y < n ==> #[trigger] rows@[x]@[y] <= ENTRY_LIMIT,
        decreases n - a,
    {
        let mut row: Vec<u64> = Vec::new();
        let mut b: usize = 0;
        while b < n
            invariant
                b <= n,
                a < n,
                n == points@.len(),
                ps == points.deep_view(),
                forall|x: int| 0 <= x < n ==> #[trigger] ps[x] == points@[x]@,
                points_consistent(ps),
                row@.len() == b,
                forall|y: int| 0 <= y < b ==> is_sqrt_floor(
                    sq_dist(ps[a as int], ps[y]),
                    #[trigger] row@[y] as int,
                ),
                forall|y: int| 0 <= y < b ==> #[trigger] row@[y] <= ENTRY_LIMIT,
            decreases n - b,
        {
            proof {
                assert(ps[a as int].len() == ps[0].len());
                assert(ps[b as int].len() == ps[0].len());
            }
            let dist = euclidean_distance(&points[a], &points[b]);
            row.push(dist);
            b = b + 1;
        }
        rows.push(row);
        a = a + 1;
    }
    let m = DistanceMatrix { d: rows };
    proof {
        assert(m.entries().len() == n);
        assert forall|i_: int, j_: int| 0 <= i_ < n && 0 <= j_ < n implies #[trigger] m.entries()[i_][j_]
            == m.entries()[j_][i_] by {
            lemma_sq_dist_symmetric(ps[i_], ps[j_], ps[i_].len() as int);
            assert(ps[i_].len() == ps[j_].len());
            lemma_sqrt_floor_unique(
                sq_dist(ps[i_], ps[j_]),
                m.entries()[i_][j_] as int,
                m.entries()[j_][i_] as int,
            );
        }
        assert forall|i_: int| 0 <= i_ < n implies #[trigger] m.entries()[i_][i_] == 0 by {
            lemma_sq_dist_self_zero(ps[i_], ps[i_].len() as int);
            assert(is_sqrt_floor(0, m.entries()[i_][i_] as int));
            lemma_sqrt_floor_unique(0, m.entries()[i_][i_] as int, 0);
        }
    }
    Ok(m)
}

/// The sum of the tour's first `k` edge lengths.
pub open spec fn tour_edges_upto(m: Seq<Seq<u64>>, t: Seq<usize>, k: int) -> int
    decreases k,
{
    if k <= 0 {
        0
    } else {
        tour_edges_upto(m, t, k - 1) + m[t[k - 1] as int][t[k] as int]
    }
}

/// The full cyclic tour cost: every consecutive edge, plus the closing edge
/// from the last visited point back to the first.
pub open spec fn path_length_spec(m: Seq<Seq<u64>>, t: Seq<usize>) -> int {
    tour_edges_upto(m, t, t.len() - 1) + m[t[t.len() - 1] as int][t[0] as int]
}

proof fn lemma_tour_edges_bound(m: Seq<Seq<u64>>, t: Seq<usize>, k: int, n: int)
    requires
        0 <= k < t.len(),
        forall|i: int| 0 <= i < t.len() ==> (#[trigger] t[i] as int) < n,
        forall|i: int| 0 <= i < n ==> #[trigger] m[i].len() == n,
        forall|i: int, j: int| 0 <= i < n && 0 <= j < n ==> #[trigger] m[i][j] <= ENTRY_LIMIT,
    ensures
        0 <= tour_edges_upto(m, t, k) <= k * (ENTRY_LIMIT as int),
    decreases k,
{
    if k > 0 {
        lemma_tour_edges_bound(m, t, k - 1, n);
        assert((k - 1) * (ENTRY_LIMIT as int) + ENTRY_LIMIT == k * (ENTRY_LIMIT as int))
            by (nonlinear_arith);
    }
}

/// The cost of a tour under a distance matrix. The closing edge is the one
/// from the tour's last position back to its first, so the value is the
/// cost of the full cycle the tour denotes.
pub fn calc_path_length(distance: &DistanceMatrix, solution: &Vec<usize>) -> (r: u128)
    requires
        distance.wf(),
        solution@.len() >= 1,
        forall|k: int| 0 <= k < solution@.len() ==> (#[trigger] solution@[k] as int)
            < distance.n(),
    ensures
        r == path_length_spec(distance.entries(), solution@),
        r <= solution@.len() * (ENTRY_LIMIT as int),
{
    let n = solution.len();
    let mut length: u128 = 0;
    let mut i: usize = 0;
    while i < n - 1
        invariant
            i <= n - 1,
            n == solution@.len(),
            n >= 1,
            distance.wf(),
            forall|k: int| 0 <= k < solution@.len() ==> (#[trigger] solution@[k] as int)
                < distance.n(),
            length == tour_edges_upto(distance.entries(), solution@, i as int),
            length <= (i as int) * (ENTRY_LIMIT as int),
        decreases n - 1 - i,
    {
        let from = solution[i];
        let to = solution[i + 1];
        let e = distance.entry(from, to);
        proof {
            assert((i as int) * (ENTRY_LIMIT as int) + ENTRY_LIMIT == ((i + 1) as int) * (
            ENTRY_LIMIT as int)) by (nonlinear_arith);
            assert(((i + 1) as int) * (ENTRY_LIMIT as int) <= (n as int) * (ENTRY_LIMIT as int))
                by (nonlinear_arith)
                requires
                    i + 1 <= n as int,
            ;
        }
        length = length + (e as u128);
        i = i + 1;
    }
    let closing = distance.entry(solution[n - 1], solution[0]);
    proof {
        assert(((n - 1) as int) * (ENTRY_LIMIT as int) + ENTRY_LIMIT == (n as int) * (
        ENTRY_LIMIT as int)) by (nonlinear_arith);
    }
    length + (closing as u128)
}

} // verus!
