//! A distance graph over points, with a tour-cost sum over a vertex
//! sequence given directly as indices.

use vstd::prelude::*;
use crate::types::matrix::{spec_sum, SymmetricMatrix};
use crate::types::path::edges_of;
use crate::types::point::{euclid_dist, Point};

verus! {

#[derive(Debug)]
pub struct Route {
    pub path: Vec<usize>,
    pub cost: i32,
}

pub struct Graph {
    m: SymmetricMatrix,
}

impl Graph {
    /// The distance matrix under the graph.
    pub closed spec fn spec_matrix(&self) -> SymmetricMatrix {
        self.m
    }

    pub fn new(points: &Vec<Point>) -> (r: Self)
        requires
            points.len() > 0,
            points.len() * points.len() <= usize::MAX,
        ensures
            r.spec_matrix().wf(),
            r.spec_matrix().spec_size() == points@.len(),
            forall|i: int| 0 <= i < points@.len() ==> #[trigger] r.spec_matrix().at(i, i) == 0,
            forall|i: int, j: int|
                0 <= i < j < points@.len() ==> #[trigger] r.spec_matrix().at(i, j) == euclid_dist(
                    points@[i].x - points@[j].x,
                    points@[i].y - points@[j].y,
                ),
    {
        Self { m: SymmetricMatrix::from_euclidean_coords(points) }
    }

    pub fn size(&self) -> (r: usize)
        ensures
            r == self.spec_matrix().spec_size(),
    {
        self.m.size()
    }

    pub fn get(&self, x: usize, y: usize) -> (r: i32)
        requires
            self.spec_matrix().wf(),
            x < self.spec_matrix().spec_size(),
            y < self.spec_matrix().spec_size(),
        ensures
            r == self.spec_matrix().at(x as int, y as int),
    {
        self.m.get(x, y)
    }

    pub fn set(&mut self, x: usize, y: usize, value: i32)
        requires
            old(self).spec_matrix().wf(),
            x < old(self).spec_matrix().spec_size(),
            y < old(self).spec_matrix().spec_size(),
        ensures
            final(self).spec_matrix().wf(),
            final(self).spec_matrix().spec_size() == old(self).spec_matrix().spec_size(),
            final(self).spec_matrix().at(x as int, y as int) == value,
            final(self).spec_matrix().at(y as int, x as int) == value,
            forall|i: int, j: int|
                0 <= i < old(self).spec_matrix().spec_size() && 0 <= j < old(
                    self,
                ).spec_matrix().spec_size() && !(i == x && j == y) && !(i == y && j == x)
                    ==> #[trigger] final(self).spec_matrix().at(i, j) == old(
                    self,
                ).spec_matrix().at(i, j),
    {
        self.m.set(x, y, value)
    }

    /// The raw row-major buffer of the distance matrix.
    pub fn data(&self) -> (r: &Vec<i32>)
        ensures
            r@ == self.spec_matrix().spec_data(),
    {
        self.m.data()
    }

    /// The cost of the cycle that visits the given vertices in order.
    pub fn sum_edges(&self, edges: &Vec<usize>) -> (r: i32)
        requires
            self.spec_matrix().wf(),
            edges@.len() == self.spec_matrix().spec_size(),
            edges@.len() >= 1,
            forall|k: int| 0 <= k < edges@.len() ==> (#[trigger] edges@[k]) < edges@.len(),
            i32::MIN <= spec_sum(self.spec_matrix(), edges_of(edges@)) <= i32::MAX,
        ensures
            r == spec_sum(self.spec_matrix(), edges_of(edges@)),
    {
        let n = edges.len();
        let mut pairs: Vec<(usize, usize)> = Vec::new();
        let mut k: usize = 0;
        while k < n
            invariant
                n == edges@.len(),
                k <= n,
                pairs@ =~= edges_of(edges@).take(k as int),
            decreases n - k,
        {
            let next = if k + 1 == n {
                0
            } else {
                k + 1
            };
            pairs.push((edges[k], edges[next]));
            proof {
                assert(pairs@ =~= edges_of(edges@).take(k + 1));
            }
            k += 1;
        }
        proof {
            assert(edges_of(edges@).take(n as int) =~= edges_of(edges@));
        }
        self.m.sum(&pairs)
    }

    /// The trivial tour `0, 1, ..., size - 1` with its cost.
    pub fn gls(&self, _seed: u64) -> (r: Route)
        requires
            self.spec_matrix().wf(),
            self.spec_matrix().spec_size() >= 1,
            i32::MIN <= spec_sum(
                self.spec_matrix(),
                edges_of(Seq::new(self.spec_matrix().spec_size() as nat, |k: int| k as usize)),
            ) <= i32::MAX,
        ensures
            r.path@ == Seq::new(self.spec_matrix().spec_size() as nat, |k: int| k as usize),
            r.cost == spec_sum(self.spec_matrix(), edges_of(r.path@)),
    {
        let size = self.m.size();
        let mut path: Vec<usize> = Vec::new();
        let mut k: usize = 0;
        while k < size
            invariant
                k <= size,
                path@.len() == k,
                forall|l: int| 0 <= l < k ==> path@[l] == l,
            decreases size - k,
        {
            path.push(k);
            k += 1;
        }
        proof {
            assert(path@ =~= Seq::new(self.spec_matrix().spec_size() as nat, |k: int| k as usize));
        }
        let cost = self.sum_edges(&path);
        Route { path, cost }
    }
}

} // verus!
