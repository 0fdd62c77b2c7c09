//! A solver for the symmetric Euclidean travelling salesman problem, built
//! from guided local search layered on top of a 2-opt local search.

use vstd::prelude::*;

pub mod types;

use crate::types::gls::GuidedLocalSearch;
use crate::types::matrix::SymmetricMatrix;
use crate::types::point::{euclid_dist, lines_of, point_of_line, split_lines, Point};

verus! {

/// Builds the distance matrix for a problem given as text, one point per
/// line, two whitespace-separated numeric fields per point.
pub fn load_matrix(text: &str) -> (r: SymmetricMatrix)
    requires
        text@.len() >= 1,
        (text@.len() + 1) * (text@.len() + 1) <= usize::MAX,
    ensures
        r.wf(),
        r.spec_size() == lines_of(text@).len(),
        forall|i: int| 0 <= i < r.spec_size() ==> #[trigger] r.at(i, i) == 0,
        forall|i: int, j: int|
            0 <= i < j < r.spec_size() ==> #[trigger] r.at(i, j) == euclid_dist(
                point_of_line(lines_of(text@)[i]).x - point_of_line(lines_of(text@)[j]).x,
                point_of_line(lines_of(text@)[i]).y - point_of_line(lines_of(text@)[j]).y,
            ),
{
    let lines = split_lines(text);
    let mut points: Vec<Point> = Vec::new();
    let n = lines.len();
    proof {
        vstd::arithmetic::mul::lemma_mul_upper_bound(
            n as int,
            text@.len() + 1 as int,
            n as int,
            text@.len() + 1 as int,
        );
    }
    let mut k: usize = 0;
    while k < n
        invariant
            n == lines@.len(),
            points@.len() == k,
            k <= n,
            forall|l: int| 0 <= l < lines@.len() ==> (#[trigger] lines@[l])@ == lines_of(text@)[l],
            forall|l: int|
                0 <= l < k ==> #[trigger] points@[l] == point_of_line(lines_of(text@)[l]),
        decreases n - k,
    {
        points.push(Point::from(lines[k].as_str()));
        k += 1;
    }
    SymmetricMatrix::from_euclidean_coords(&points)
}

/// Builds a guided-local-search instance over the points of the given text.
pub fn load_problem(text: &str) -> (r: GuidedLocalSearch)
    requires
        text@.len() >= 1,
        (text@.len() + 1) * (text@.len() + 1) <= usize::MAX,
    ensures
        r.spec_distances().wf(),
        r.spec_distances().spec_size() == lines_of(text@).len(),
        forall|i: int|
            0 <= i < r.spec_distances().spec_size() ==> #[trigger] r.spec_distances().at(i, i)
                == 0,
        forall|i: int, j: int|
            0 <= i < j < r.spec_distances().spec_size() ==> #[trigger] r.spec_distances().at(i, j)
                == euclid_dist(
                point_of_line(lines_of(text@)[i]).x - point_of_line(lines_of(text@)[j]).x,
                point_of_line(lines_of(text@)[i]).y - point_of_line(lines_of(text@)[j]).y,
            ),
{
    let matrix = load_matrix(text);
    GuidedLocalSearch::new(matrix)
}

} // verus!
