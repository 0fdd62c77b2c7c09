//! A square matrix of 32-bit integers that stays symmetric across every
//! mutation, used both for distances and for penalties.

use vstd::prelude::*;
use crate::types::point::{euclid_dist, Point};

verus! {

pub struct SymmetricMatrix {
    size: usize,
    data: Vec<i32>,
}

/// The sum of the matrix entries picked by a sequence of index pairs.
pub open spec fn spec_sum(m: SymmetricMatrix, pairs: Seq<(usize, usize)>) -> int
    decreases pairs.len(),
{
    if pairs.len() == 0 {
        0
    } else {
        spec_sum(m, pairs.drop_last()) + m.at(pairs.last().0 as int, pairs.last().1 as int)
    }
}

proof fn lemma_row_major_bounds(x: int, y: int, n: int)
    by (nonlinear_arith)
    requires
        0 <= x < n,
        0 <= y < n,
    ensures
        0 <= x * n + y < n * n,
{
}

proof fn lemma_row_major_injective(x1: int, y1: int, x2: int, y2: int, n: int)
    by (nonlinear_arith)
    requires
        0 <= x1 < n,
        0 <= y1 < n,
        0 <= x2 < n,
        0 <= y2 < n,
        !(x1 == x2 && y1 == y2),
    ensures
        x1 * n + y1 != x2 * n + y2,
{
}

impl SymmetricMatrix {
    /// The logical size, as a mathematical integer.
    pub closed spec fn spec_size(&self) -> int {
        self.size as int
    }

    /// The entry at row `x`, column `y` of the row-major buffer.
    pub closed spec fn at(&self, x: int, y: int) -> i32 {
        self.data@[x * self.size + y]
    }

    /// The raw row-major buffer.
    pub closed spec fn spec_data(&self) -> Seq<i32> {
        self.data@
    }

    /// Well-formed: the buffer covers the full square, and the matrix is
    /// symmetric.
    pub open spec fn wf(&self) -> bool {
        &&& self.spec_data().len() == self.spec_size() * self.spec_size()
        &&& self.spec_data().len() <= usize::MAX
        &&& forall|i: int, j: int|
            0 <= i < self.spec_size() && 0 <= j < self.spec_size() ==> #[trigger] self.at(i, j)
                == self.at(j, i)
    }

    /// The matrix is symmetric: reading an entry either way round gives the
    /// same value.
    pub proof fn lemma_symmetric(&self, i: int, j: int)
        requires
            self.wf(),
            0 <= i < self.spec_size(),
            0 <= j < self.spec_size(),
        ensures
            self.at(i, j) == self.at(j, i),
    {
    }

    pub fn from_size(size: usize) -> (r: SymmetricMatrix)
        requires
            size * size <= usize::MAX,
        ensures
            r.wf(),
            r.spec_size() == size,
            forall|i: int, j: int| 0 <= i < size && 0 <= j < size ==> #[trigger] r.at(i, j) == 0,
    {
        let data = vec![0i32; size * size];
        let r = Self { size, data };
        proof {
            assert forall|i: int, j: int| 0 <= i < size && 0 <= j < size implies #[trigger] r.at(
                i,
                j,
            ) == 0 by {
                lemma_row_major_bounds(i, j, size as int);
            }
        }
        r
    }

    pub fn from_euclidean_coords(points: &Vec<Point>) -> (r: Self)
        requires
            points.len() > 0,
            points.len() * points.len() <= usize::MAX,
        ensures
            r.wf(),
            r.spec_size() == points@.len(),
            forall|i: int| 0 <= i < points@.len() ==> #[trigger] r.at(i, i) == 0,
            forall|i: int, j: int|
                0 <= i < j < points@.len() ==> #[trigger] r.at(i, j) == euclid_dist(
                    points@[i].x - points@[j].x,
                    points@[i].y - points@[j].y,
                ),
    {
        let size = points.len();
        let mut res = Self::from_size(size);
        let mut i: usize = 0;
        while i < size
            invariant
                size == points@.len(),
                res.wf(),
                res.spec_size() == size,
                forall|a: int, b: int|
                    0 <= a < size && 0 <= b < size && !(a < b && a < i) && !(b < a && b < i)
                        ==> #[trigger] res.at(a, b) == 0,
                forall|a: int, b: int|
                    0 <= a < b < size && a < i ==> #[trigger] res.at(a, b) == euclid_dist(
                        points@[a].x - points@[b].x,
                        points@[a].y - points@[b].y,
                    ),
            decreases size - i,
        {
            let point = points[i];
            let mut j: usize = i + 1;
            while j < size
                invariant
                    size == points@.len(),
                    i < size,
                    i < j,
                    point == points@[i as int],
                    res.wf(),
                    res.spec_size() == size,
                    forall|a: int, b: int|
                        0 <= a < size && 0 <= b < size && !(a < b && (a < i || (a == i && b < j)))
                            && !(b < a && (b < i || (b == i && a < j))) ==> #[trigger] res.at(a, b)
                            == 0,
                    forall|a: int, b: int|
                        0 <= a < b < size && (a < i || (a == i && b < j)) ==> #[trigger] res.at(
                            a,
                            b,
                        ) == euclid_dist(
                            points@[a].x - points@[b].x,
                            points@[a].y - points@[b].y,
                        ),
                decreases size - j,
            {
                let neighbor = points[j];
                let dist = point.dist(neighbor);
                res.set(i, j, dist);
                j += 1;
            }
            i += 1;
        }
        res
    }

    #[verifier::rlimit(50)]
    pub fn set(&mut self, x: usize, y: usize, value: i32)
        requires
            old(self).wf(),
            x < old(self).spec_size(),
            y < old(self).spec_size(),
        ensures
            final(self).wf(),
            final(self).spec_size() == old(self).spec_size(),
            final(self).at(x as int, y as int) == value,
            final(self).at(y as int, x as int) == value,
            forall|i: int, j: int|
                0 <= i < old(self).spec_size() && 0 <= j < old(self).spec_size() && !(i == x && j
                    == y) && !(i == y && j == x) ==> #[trigger] final(self).at(i, j) == old(
                    self,
                ).at(i, j),
    {
        proof {
            lemma_row_major_bounds(x as int, y as int, self.size as int);
            lemma_row_major_bounds(y as int, x as int, self.size as int);
        }
        let ia = x * self.size + y;
        self.data[ia] = value;
        let ib = y * self.size + x;
        self.data[ib] = value;
        proof {
            assert forall|i: int, j: int|
                0 <= i < self.spec_size() && 0 <= j < self.spec_size() && !(i == x && j == y) && !(
                i == y && j == x) implies #[trigger] self.at(i, j) == old(self).at(i, j) by {
                lemma_row_major_bounds(i, j, self.size as int);
                lemma_row_major_injective(i, j, x as int, y as int, self.size as int);
                lemma_row_major_injective(i, j, y as int, x as int, self.size as int);
            }
            assert forall|i: int, j: int|
                0 <= i < self.spec_size() && 0 <= j < self.spec_size() implies #[trigger] self.at(
                i,
                j,
            ) == self.at(j, i) by {
                lemma_row_major_bounds(i, j, self.size as int);
                lemma_row_major_bounds(j, i, self.size as int);
                if !(i == x && j == y) && !(i == y && j == x) {
                    lemma_row_major_injective(i, j, x as int, y as int, self.size as int);
                    lemma_row_major_injective(i, j, y as int, x as int, self.size as int);
                    lemma_row_major_injective(j, i, x as int, y as int, self.size as int);
                    lemma_row_major_injective(j, i, y as int, x as int, self.size as int);
                }
            }
        }
    }

    /// Adds `by` to the entry at `(x, y)` and to its mirror entry.
    pub fn inc(&mut self, x: usize, y: usize, by: i32)
        requires
            old(self).wf(),
            x < old(self).spec_size(),
            y < old(self).spec_size(),
            i32::MIN <= old(self).at(x as int, y as int) + by <= i32::MAX,
        ensures
            final(self).wf(),
            final(self).spec_size() == old(self).spec_size(),
            final(self).at(x as int, y as int) == old(self).at(x as int, y as int) + by,
            final(self).at(y as int, x as int) == old(self).at(x as int, y as int) + by,
            forall|i: int, j: int|
                0 <= i < old(self).spec_size() && 0 <= j < old(self).spec_size() && !(i == x && j
                    == y) && !(i == y && j == x) ==> #[trigger] final(self).at(i, j) == old(
                    self,
                ).at(i, j),
    {
        let v = self.get(x, y);
        self.set(x, y, v + by);
    }

    pub fn get(&self, x: usize, y: usize) -> (r: i32)
        requires
            self.wf(),
            x < self.spec_size(),
            y < self.spec_size(),
        ensures
            r == self.at(x as int, y as int),
    {
        proof {
            lemma_row_major_bounds(x as int, y as int, self.size as int);
        }
        self.data[x * self.size + y]
    }

    pub fn size(&self) -> (r: usize)
        ensures
            r == self.spec_size(),
    {
        self.size
    }

    /// The raw row-major buffer, with each entry at `x * size + y`.
    pub fn data(&self) -> (r: &Vec<i32>)
        ensures
            r@ == self.spec_data(),
            self.wf() ==> forall|i: int, j: int|
                0 <= i < self.spec_size() && 0 <= j < self.spec_size() ==> r@[i * self.spec_size()
                    + j] == #[trigger] self.at(i, j),
    {
        &self.data
    }

    /// The sum of the entries picked by `indexes`, in order.
    pub fn sum(&self, indexes: &Vec<(usize, usize)>) -> (r: i32)
        requires
            self.wf(),
            forall|k: int|
                0 <= k < indexes@.len() ==> (#[trigger] indexes@[k]).0 < self.spec_size()
                    && indexes@[k].1 < self.spec_size(),
            i32::MIN <= spec_sum(*self, indexes@) <= i32::MAX,
        ensures
            r == spec_sum(*self, indexes@),
    {
        let n = indexes.len();
        let mut acc: i128 = 0;
        let mut k: usize = 0;
        while k < n
            invariant
                n == indexes@.len(),
                k <= n,
                self.wf(),
                forall|t: int|
                    0 <= t < indexes@.len() ==> (#[trigger] indexes@[t]).0 < self.spec_size()
                        && indexes@[t].1 < self.spec_size(),
                acc == spec_sum(*self, indexes@.take(k as int)),
                -(k as int) * 0x8000_0000 <= acc <= (k as int) * 0x8000_0000,
            decreases n - k,
        {
            let (x, y) = indexes[k];
            let v = self.get(x, y);
            proof {
                assert(indexes@.take(k + 1).drop_last() =~= indexes@.take(k as int));
                assert(indexes@.take(k + 1).last() == indexes@[k as int]);
            }
            acc = acc + (v as i128);
            k += 1;
        }
        proof {
            assert(indexes@.take(n as int) =~= indexes@);
        }
        acc as i32
    }
}

} // verus!
