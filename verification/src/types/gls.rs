//! Guided local search over a distance matrix: a nearest-neighbour start,
//! a first-improvement 2-opt local search under a penalised cost, and the
//! outer loop that penalises high-utility edges between passes.

use vstd::prelude::*;
use crate::types::matrix::{spec_sum, SymmetricMatrix};
use crate::types::path::{
    edges_of,
    hamiltonian,
    lemma_twist_preserves_hamiltonian,
    Path,
};
use crate::types::route::Route;

verus! {

/// The cost of the cycle `s` under the matrix `m`.
pub open spec fn tour_cost(m: SymmetricMatrix, s: Seq<usize>) -> int {
    spec_sum(m, edges_of(s))
}

/// Every entry of the matrix is non-negative.
pub open spec fn entries_nonneg(m: SymmetricMatrix) -> bool {
    forall|i: int, j: int|
        0 <= i < m.spec_size() && 0 <= j < m.spec_size() ==> 0 <= #[trigger] m.at(i, j)
}

/// The penalty values under a matrix, as a map over in-range index pairs.
pub open spec fn pen_map_of(m: SymmetricMatrix) -> Map<(int, int), i32> {
    Map::new(
        |p: (int, int)| 0 <= p.0 < m.spec_size() && 0 <= p.1 < m.spec_size(),
        |p: (int, int)| m.at(p.0, p.1),
    )
}

/// The penalty map is symmetric over the first `n` vertices.
pub open spec fn pen_symmetric(pen: Map<(int, int), i32>, n: int) -> bool {
    forall|a: int, b: int| 0 <= a < n && 0 <= b < n ==> #[trigger] pen[(a, b)] == pen[(b, a)]
}

/// The penalty map is non-negative over the first `n` vertices.
pub open spec fn pen_nonneg(pen: Map<(int, int), i32>, n: int) -> bool {
    forall|a: int, b: int| 0 <= a < n && 0 <= b < n ==> 0 <= #[trigger] pen[(a, b)]
}

/// Every entry of the matrix is a non-negative distance small enough that
/// no tour cost can leave the 32-bit range.
pub open spec fn cost_fits(m: SymmetricMatrix) -> bool {
    exists|c: int|
        0 <= c && #[trigger] (m.spec_size() * c) <= i32::MAX && (forall|i: int, j: int|
            0 <= i < m.spec_size() && 0 <= j < m.spec_size() ==> 0 <= #[trigger] m.at(i, j) <= c)
}

/// The penalised cost of the edge `(a, b)`: its distance plus the penalty
/// factor times its penalty.
pub open spec fn penalised(
    dist: SymmetricMatrix,
    pen: Map<(int, int), i32>,
    lambda: int,
    a: int,
    b: int,
) -> int {
    dist.at(a, b) + lambda * pen[(a, b)]
}

/// How the penalised tour cost changes when the edges leaving positions `i`
/// and `j` are replaced by the 2-opt reconnection: `{i, i+1}, {j, j+1}`
/// become `{i, j}, {i+1, j+1}`.
pub open spec fn twist_delta(
    dist: SymmetricMatrix,
    pen: Map<(int, int), i32>,
    lambda: int,
    s: Seq<usize>,
    i: int,
    j: int,
) -> int {
    let n = s.len() as int;
    let i2 = if i + 1 == n {
        0int
    } else {
        i + 1
    };
    let j2 = if j + 1 == n {
        0int
    } else {
        j + 1
    };
    let a = s[i] as int;
    let a2 = s[i2] as int;
    let b = s[j] as int;
    let b2 = s[j2] as int;
    (penalised(dist, pen, lambda, a, b) + penalised(dist, pen, lambda, a2, b2)) - (penalised(
        dist,
        pen,
        lambda,
        a,
        a2,
    ) + penalised(dist, pen, lambda, b, b2))
}

/// The index of the first minimum of row `row` over the candidate vertices
/// `rem`, in list order.
pub open spec fn row_min_idx(m: SymmetricMatrix, row: int, rem: Seq<usize>) -> int
    decreases rem.len(),
{
    if rem.len() <= 1 {
        0
    } else {
        let rest = 1 + row_min_idx(m, row, rem.drop_first());
        if m.at(row, rem[0] as int) <= m.at(row, rem[rest] as int) {
            0
        } else {
            rest
        }
    }
}

/// The rest of the nearest-neighbour tour: from each row in turn, the first
/// nearest of the remaining vertices. The row is the step counter, not the
/// vertex last chosen.
pub open spec fn nn_rest(m: SymmetricMatrix, row: int, rem: Seq<usize>) -> Seq<usize>
    decreases rem.len(),
    via nn_rest_decreases
{
    if rem.len() == 0 {
        Seq::empty()
    } else {
        let k = row_min_idx(m, row, rem);
        seq![rem[k]] + nn_rest(m, row + 1, rem.remove(k))
    }
}

#[via_fn]
proof fn nn_rest_decreases(m: SymmetricMatrix, row: int, rem: Seq<usize>) {
    if rem.len() > 0 {
        lemma_row_min_range(m, row, rem);
    }
}

proof fn lemma_row_min_range(m: SymmetricMatrix, row: int, rem: Seq<usize>)
    requires
        rem.len() >= 1,
    ensures
        0 <= row_min_idx(m, row, rem) < rem.len(),
    decreases rem.len(),
{
    if rem.len() > 1 {
        lemma_row_min_range(m, row, rem.drop_first());
    }
}

/// The whole nearest-neighbour tour: vertex 0 first, then the greedy rest.
pub open spec fn nn_tour(m: SymmetricMatrix) -> Seq<usize> {
    seq![0usize] + nn_rest(m, 0, Seq::new((m.spec_size() - 1) as nat, |t: int| (t + 1) as usize))
}

/// The pure-distance 2-opt reconnection delta at positions `i` and `j`.
pub open spec fn twist_delta0(dist: SymmetricMatrix, s: Seq<usize>, i: int, j: int) -> int {
    let n = s.len() as int;
    let i2 = if i + 1 == n {
        0int
    } else {
        i + 1
    };
    let j2 = if j + 1 == n {
        0int
    } else {
        j + 1
    };
    let a = s[i] as int;
    let a2 = s[i2] as int;
    let b = s[j] as int;
    let b2 = s[j2] as int;
    (dist.at(a, b) + dist.at(a2, b2)) - (dist.at(a, a2) + dist.at(b, b2))
}

/// With no penalty factor the penalised delta is the pure-distance delta.
proof fn lemma_delta0_is_delta(
    dist: SymmetricMatrix,
    pen: Map<(int, int), i32>,
    s: Seq<usize>,
    i: int,
    j: int,
)
    ensures
        twist_delta0(dist, s, i, j) == twist_delta(dist, pen, 0, s, i, j),
{
}

/// The first pair of positions, in scan order, whose pure-distance 2-opt
/// reconnection improves the tour: the outer index walks the neighbourhood
/// order, the inner starts two places later.
pub open spec fn scan0(
    dist: SymmetricMatrix,
    cand: Seq<usize>,
    neigh: Seq<usize>,
    a: int,
    b: int,
) -> Option<(usize, usize)>
    decreases neigh.len() - a, neigh.len() + 2 - b,
{
    if a < 0 || b < 0 {
        None
    } else if a >= neigh.len() {
        None
    } else if b >= neigh.len() {
        scan0(dist, cand, neigh, a + 1, a + 3)
    } else if twist_delta0(dist, cand, neigh[a] as int, neigh[b] as int) < 0 {
        Some((neigh[a], neigh[b]))
    } else {
        scan0(dist, cand, neigh, a, b + 1)
    }
}

/// Whether the distance-only local search is running over consistent data.
pub open spec fn ls0_ok(dist: SymmetricMatrix, cand: Seq<usize>, neigh: Seq<usize>) -> bool {
    &&& dist.wf()
    &&& entries_nonneg(dist)
    &&& cand.len() == dist.spec_size()
    &&& cand.len() >= 2
    &&& hamiltonian(cand)
    &&& neigh.len() == cand.len()
    &&& hamiltonian(neigh)
}

/// Where the distance-only first-improvement 2-opt search ends from a given
/// tour: twists are applied at the first improving pair until none is left.
pub open spec fn ls0_fix(dist: SymmetricMatrix, cand: Seq<usize>, neigh: Seq<usize>) -> Seq<usize>
    decreases tour_cost(dist, cand)
        when ls0_ok(dist, cand, neigh)
        via ls0_fix_decreases
{
    match scan0(dist, cand, neigh, 0, 2) {
        Option::None => cand,
        Option::Some((i, j)) => ls0_fix(
            dist,
            crate::types::path::spec_twist(
                cand,
                if i + 1 == cand.len() {
                    0int
                } else {
                    i as int + 1
                },
                j as int,
            ),
            neigh,
        ),
    }
}

/// A found pair names two distinct positions with a negative delta.
proof fn lemma_scan0_props(
    dist: SymmetricMatrix,
    cand: Seq<usize>,
    neigh: Seq<usize>,
    a: int,
    b: int,
)
    requires
        0 <= a,
        a + 2 <= b,
        hamiltonian(neigh),
        neigh.len() == cand.len(),
        scan0(dist, cand, neigh, a, b) is Some,
    ensures
        ({
            let (i, j) = scan0(dist, cand, neigh, a, b)->Some_0;
            &&& i < cand.len()
            &&& j < cand.len()
            &&& i != j
            &&& twist_delta0(dist, cand, i as int, j as int) < 0
        }),
    decreases neigh.len() - a, neigh.len() + 2 - b,
{
    if a >= neigh.len() {
    } else if b >= neigh.len() {
        lemma_scan0_props(dist, cand, neigh, a + 1, a + 3);
    } else if twist_delta0(dist, cand, neigh[a] as int, neigh[b] as int) < 0 {
        assert(neigh[a] < neigh.len());
        assert(neigh[b] < neigh.len());
        assert(neigh[a] != neigh[b]);
    } else {
        lemma_scan0_props(dist, cand, neigh, a, b + 1);
    }
}

/// A distance-only search pass never worsens the tour: its result costs at
/// most as much as its start, and stays Hamiltonian.
pub proof fn lemma_ls0_fix_no_worse(dist: SymmetricMatrix, cand: Seq<usize>, neigh: Seq<usize>)
    requires
        ls0_ok(dist, cand, neigh),
    ensures
        tour_cost(dist, ls0_fix(dist, cand, neigh)) <= tour_cost(dist, cand),
        hamiltonian(ls0_fix(dist, cand, neigh)),
        ls0_fix(dist, cand, neigh).len() == cand.len(),
    decreases tour_cost(dist, cand),
{
    lemma_psum_zero(dist, pen_map_of(dist), edges_of(cand));
    lemma_psum_nonneg(dist, pen_map_of(dist), 0, edges_of(cand));
    match scan0(dist, cand, neigh, 0, 2) {
        Option::None => {},
        Option::Some((i, j)) => {
            lemma_scan0_props(dist, cand, neigh, 0, 2);
            lemma_twist_cost_delta(dist, pen_map_of(dist), 0, cand, i as int, j as int);
            let i2 = if i + 1 == cand.len() {
                0int
            } else {
                i as int + 1
            };
            let tw = crate::types::path::spec_twist(cand, i2, j as int);
            lemma_psum_zero(dist, pen_map_of(dist), edges_of(tw));
            crate::types::path::lemma_twist_preserves_hamiltonian(cand, i2, j as int);
            lemma_psum_nonneg(dist, pen_map_of(dist), 0, edges_of(tw));
            assert(tour_cost(dist, tw) < tour_cost(dist, cand));
            lemma_ls0_fix_no_worse(dist, tw, neigh);
        },
    }
}

#[via_fn]
proof fn ls0_fix_decreases(dist: SymmetricMatrix, cand: Seq<usize>, neigh: Seq<usize>) {
    match scan0(dist, cand, neigh, 0, 2) {
        Option::None => {},
        Option::Some((i, j)) => {
            lemma_scan0_props(dist, cand, neigh, 0, 2);
            lemma_twist_cost_delta(dist, pen_map_of(dist), 0, cand, i as int, j as int);
            let i2 = if i + 1 == cand.len() {
                0int
            } else {
                i as int + 1
            };
            let tw = crate::types::path::spec_twist(cand, i2, j as int);
            lemma_psum_zero(dist, pen_map_of(dist), edges_of(tw));
            lemma_psum_zero(dist, pen_map_of(dist), edges_of(cand));
            assert(tour_cost(dist, tw) < tour_cost(dist, cand));
            crate::types::path::lemma_twist_preserves_hamiltonian(cand, i2, j as int);
            lemma_psum_nonneg(dist, pen_map_of(dist), 0, edges_of(tw));
            assert(tour_cost(dist, tw) >= 0);
        },
    }
}

/// The first pair of positions, in scan order, whose 2-opt reconnection
/// lowers the penalised cost.
pub open spec fn scan_penalised(
    dist: SymmetricMatrix,
    pen: Map<(int, int), i32>,
    lambda: int,
    cand: Seq<usize>,
    neigh: Seq<usize>,
    a: int,
    b: int,
) -> Option<(usize, usize)>
    decreases neigh.len() - a, neigh.len() + 2 - b,
{
    if a < 0 || b < 0 {
        None
    } else if a >= neigh.len() {
        None
    } else if b >= neigh.len() {
        scan_penalised(dist, pen, lambda, cand, neigh, a + 1, a + 3)
    } else if twist_delta(dist, pen, lambda, cand, neigh[a] as int, neigh[b] as int) < 0 {
        Some((neigh[a], neigh[b]))
    } else {
        scan_penalised(dist, pen, lambda, cand, neigh, a, b + 1)
    }
}

/// Whether the penalised local search is running over consistent data.
pub open spec fn lsp_ok(
    dist: SymmetricMatrix,
    pen: Map<(int, int), i32>,
    lambda: int,
    cand: Seq<usize>,
    neigh: Seq<usize>,
) -> bool {
    &&& dist.wf()
    &&& entries_nonneg(dist)
    &&& pen_symmetric(pen, dist.spec_size())
    &&& pen_nonneg(pen, dist.spec_size())
    &&& lambda >= 0
    &&& cand.len() == dist.spec_size()
    &&& cand.len() >= 2
    &&& hamiltonian(cand)
    &&& neigh.len() == cand.len()
    &&& hamiltonian(neigh)
}

/// Where the penalised first-improvement 2-opt search ends from a given
/// tour: twists are applied at the first improving pair until none is left.
pub open spec fn lsp_fix(
    dist: SymmetricMatrix,
    pen: Map<(int, int), i32>,
    lambda: int,
    cand: Seq<usize>,
    neigh: Seq<usize>,
) -> Seq<usize>
    decreases ptour(dist, pen, lambda, cand)
        when lsp_ok(dist, pen, lambda, cand, neigh)
        via lsp_fix_decreases
{
    match scan_penalised(dist, pen, lambda, cand, neigh, 0, 2) {
        Option::None => cand,
        Option::Some((i, j)) => lsp_fix(
            dist,
            pen,
            lambda,
            crate::types::path::spec_twist(
                cand,
                if i + 1 == cand.len() {
                    0int
                } else {
                    i as int + 1
                },
                j as int,
            ),
            neigh,
        ),
    }
}

/// A found pair names two distinct positions with a negative delta.
proof fn lemma_scan_penalised_props(
    dist: SymmetricMatrix,
    pen: Map<(int, int), i32>,
    lambda: int,
    cand: Seq<usize>,
    neigh: Seq<usize>,
    a: int,
    b: int,
)
    requires
        0 <= a,
        a + 2 <= b,
        hamiltonian(neigh),
        neigh.len() == cand.len(),
        scan_penalised(dist, pen, lambda, cand, neigh, a, b) is Some,
    ensures
        ({
            let (i, j) = scan_penalised(dist, pen, lambda, cand, neigh, a, b)->Some_0;
            &&& i < cand.len()
            &&& j < cand.len()
            &&& i != j
            &&& twist_delta(dist, pen, lambda, cand, i as int, j as int) < 0
        }),
    decreases neigh.len() - a, neigh.len() + 2 - b,
{
    if a >= neigh.len() {
    } else if b >= neigh.len() {
        lemma_scan_penalised_props(dist, pen, lambda, cand, neigh, a + 1, a + 3);
    } else if twist_delta(dist, pen, lambda, cand, neigh[a] as int, neigh[b] as int) < 0 {
        assert(neigh[a] < neigh.len());
        assert(neigh[b] < neigh.len());
        assert(neigh[a] != neigh[b]);
    } else {
        lemma_scan_penalised_props(dist, pen, lambda, cand, neigh, a, b + 1);
    }
}

#[via_fn]
proof fn lsp_fix_decreases(
    dist: SymmetricMatrix,
    pen: Map<(int, int), i32>,
    lambda: int,
    cand: Seq<usize>,
    neigh: Seq<usize>,
) {
    match scan_penalised(dist, pen, lambda, cand, neigh, 0, 2) {
        Option::None => {},
        Option::Some((i, j)) => {
            lemma_scan_penalised_props(dist, pen, lambda, cand, neigh, 0, 2);
            lemma_twist_cost_delta(dist, pen, lambda, cand, i as int, j as int);
            let i2 = if i + 1 == cand.len() {
                0int
            } else {
                i as int + 1
            };
            let tw = crate::types::path::spec_twist(cand, i2, j as int);
            crate::types::path::lemma_twist_preserves_hamiltonian(cand, i2, j as int);
            lemma_psum_nonneg(dist, pen, lambda, edges_of(tw));
        },
    }
}

/// The utility of a tour edge: its distance over one more than its
/// penalty.
pub open spec fn edge_utility(
    dist: SymmetricMatrix,
    pen: Map<(int, int), i32>,
    e: (usize, usize),
) -> int {
    spec_utility(dist.at(e.0 as int, e.1 as int) as int, pen[(e.0 as int, e.1 as int)] as int)
}

/// The highest utility among the given tour edges.
pub open spec fn max_utility(
    dist: SymmetricMatrix,
    pen: Map<(int, int), i32>,
    edges: Seq<(usize, usize)>,
) -> int
    decreases edges.len(),
{
    if edges.len() == 0 {
        0
    } else if edges.len() == 1 {
        edge_utility(dist, pen, edges[0])
    } else {
        let rest = max_utility(dist, pen, edges.drop_last());
        let u = edge_utility(dist, pen, edges.last());
        if u > rest {
            u
        } else {
            rest
        }
    }
}

/// Picks the tour edges whose utility is the highest one.
pub open spec fn util_pred(
    dist: SymmetricMatrix,
    pen: Map<(int, int), i32>,
    path: Seq<usize>,
) -> spec_fn((usize, usize)) -> bool {
    |e: (usize, usize)| edge_utility(dist, pen, e) == max_utility(dist, pen, edges_of(path))
}

/// The tour edges of highest utility, in tour order.
pub open spec fn utility_edges(
    dist: SymmetricMatrix,
    pen: Map<(int, int), i32>,
    path: Seq<usize>,
) -> Seq<(usize, usize)> {
    edges_of(path).filter(util_pred(dist, pen, path))
}

/// How often the listed edges cover the cell `(x, y)`, either way round.
pub open spec fn count_pair(list: Seq<(usize, usize)>, x: int, y: int) -> int
    decreases list.len(),
{
    if list.len() == 0 {
        0
    } else {
        count_pair(list.drop_last(), x, y) + if (list.last().0 == x && list.last().1 == y) || (
        list.last().0 == y && list.last().1 == x) {
            1int
        } else {
            0int
        }
    }
}

/// A penalty raised `c` times, stopping at the integer bound.
pub open spec fn clip_inc(v: i32, c: int) -> i32 {
    if v + c > i32::MAX {
        i32::MAX
    } else {
        (v + c) as i32
    }
}

/// The penalties after every listed edge is penalised once, both ways
/// round.
pub open spec fn pen_after(
    pen: Map<(int, int), i32>,
    list: Seq<(usize, usize)>,
    n: int,
) -> Map<(int, int), i32> {
    Map::new(
        |p: (int, int)| 0 <= p.0 < n && 0 <= p.1 < n,
        |p: (int, int)| clip_inc(pen[p], count_pair(list, p.0, p.1)),
    )
}

/// The zero penalties over `n` vertices.
pub open spec fn pen_zero(n: int) -> Map<(int, int), i32> {
    Map::new(|p: (int, int)| 0 <= p.0 < n && 0 <= p.1 < n, |p: (int, int)| 0i32)
}

/// One round of guided local search: raise the penalty of every tour edge
/// of highest utility, then search under the penalised cost.
pub open spec fn gls_round(
    dist: SymmetricMatrix,
    neigh: Seq<usize>,
    lambda: int,
    path: Seq<usize>,
    pen: Map<(int, int), i32>,
) -> (Seq<usize>, Map<(int, int), i32>) {
    let pen2 = pen_after(pen, utility_edges(dist, pen, path), dist.spec_size());
    (lsp_fix(dist, pen2, lambda, path, neigh), pen2)
}

/// The tour and the penalties after `k` rounds of guided local search.
pub open spec fn gls_rounds(
    dist: SymmetricMatrix,
    neigh: Seq<usize>,
    lambda: int,
    path: Seq<usize>,
    pen: Map<(int, int), i32>,
    k: nat,
) -> (Seq<usize>, Map<(int, int), i32>)
    decreases k,
{
    if k == 0 {
        (path, pen)
    } else {
        let prev = gls_rounds(dist, neigh, lambda, path, pen, (k - 1) as nat);
        gls_round(dist, neigh, lambda, prev.0, prev.1)
    }
}

/// The tour that the solver returns: a function of the distance matrix,
/// the seed and the step count alone.
pub open spec fn spec_solve_path(dist: SymmetricMatrix, seed: u64, steps: nat) -> Seq<usize> {
    let neigh = mt_shuffle(dist.spec_size(), seed);
    let start = ls0_fix(dist, nn_tour(dist), neigh);
    let lambda = spec_lambda(tour_cost(dist, start), dist.spec_size());
    let rounds = gls_rounds(dist, neigh, lambda, start, pen_zero(dist.spec_size()), steps);
    ls0_fix(dist, rounds.0, neigh)
}

proof fn lemma_count_pair_nonneg_all(list: Seq<(usize, usize)>)
    ensures
        forall|x: int, y: int| 0 <= #[trigger] count_pair(list, x, y),
    decreases list.len(),
{
    if list.len() > 0 {
        lemma_count_pair_nonneg_all(list.drop_last());
        assert forall|x: int, y: int| 0 <= #[trigger] count_pair(list, x, y) by {
            assert(count_pair(list.drop_last(), x, y) >= 0);
        }
    }
}

proof fn lemma_count_pair_sym(list: Seq<(usize, usize)>, x: int, y: int)
    ensures
        count_pair(list, x, y) == count_pair(list, y, x),
    decreases list.len(),
{
    if list.len() > 0 {
        lemma_count_pair_sym(list.drop_last(), x, y);
    }
}

/// Penalisation keeps the penalties symmetric and non-negative.
proof fn lemma_pen_after_sym_nonneg(pen: Map<(int, int), i32>, list: Seq<(usize, usize)>, n: int)
    requires
        pen_symmetric(pen, n),
        pen_nonneg(pen, n),
    ensures
        pen_symmetric(pen_after(pen, list, n), n),
        pen_nonneg(pen_after(pen, list, n), n),
{
    let p2 = pen_after(pen, list, n);
    assert forall|a: int, b: int| 0 <= a < n && 0 <= b < n implies #[trigger] p2[(a, b)] == p2[
        (b, a)
    ] by {
        lemma_count_pair_sym(list, a, b);
    }
    assert forall|a: int, b: int| 0 <= a < n && 0 <= b < n implies 0 <= #[trigger] p2[(a, b)] by {
        lemma_count_pair_nonneg_all(list);
    }
}

/// What shuffling `0 .. n` with the seeded 64-bit Mersenne Twister yields;
/// the result depends on `n` and the seed alone.
pub uninterp spec fn mt_shuffle(n: int, seed: u64) -> Seq<usize>;

/// Relies on `rand_mt::Mt64` seeded through rand's `SeedableRng::seed_from_u64`
/// and on rand's `SliceRandom::shuffle`: a Fisher-Yates shuffle of `0 .. n`
/// driven by the seeded generator alone, so the result is a permutation of
/// `0 .. n` determined by `n` and the seed.
#[verifier::external_body]
fn shuffled_order(n: usize, seed: u64) -> (r: Vec<usize>)
    ensures
        r@ == mt_shuffle(n as int, seed),
        r@.len() == n,
        hamiltonian(r@),
{
    let mut v: Vec<usize> = (0..n).collect();
    let mut rng: rand_mt::Mt64 = rand::SeedableRng::seed_from_u64(seed);
    rand::seq::SliceRandom::shuffle(v.as_mut_slice(), &mut rng);
    v
}

proof fn lemma_sum_in_range(m: SymmetricMatrix, pairs: Seq<(usize, usize)>, c: int)
    requires
        0 <= c,
        forall|k: int|
            0 <= k < pairs.len() ==> (#[trigger] pairs[k]).0 < m.spec_size() && pairs[k].1
                < m.spec_size(),
        forall|i: int, j: int|
            0 <= i < m.spec_size() && 0 <= j < m.spec_size() ==> 0 <= #[trigger] m.at(i, j) <= c,
    ensures
        0 <= spec_sum(m, pairs) <= pairs.len() * c,
    decreases pairs.len(),
{
    if pairs.len() == 0 {
    } else {
        assert(forall|k: int|
            0 <= k < pairs.drop_last().len() ==> (#[trigger] pairs.drop_last()[k]).0
                < m.spec_size() && pairs.drop_last()[k].1 < m.spec_size());
        lemma_sum_in_range(m, pairs.drop_last(), c);
        assert((pairs.len() - 1) * c + c == pairs.len() * c) by (nonlinear_arith);
    }
}

/// Any full tour cost under a matrix that fits stays within the 32-bit
/// range, and is non-negative.
pub proof fn lemma_tour_cost_fits(m: SymmetricMatrix, s: Seq<usize>)
    requires
        m.wf(),
        cost_fits(m),
        s.len() == m.spec_size(),
        forall|k: int| 0 <= k < s.len() ==> (#[trigger] s[k]) < s.len(),
    ensures
        0 <= tour_cost(m, s) <= i32::MAX,
{
    let c = choose|c: int|
        0 <= c && #[trigger] (m.spec_size() * c) <= i32::MAX && (forall|i: int, j: int|
            0 <= i < m.spec_size() && 0 <= j < m.spec_size() ==> 0 <= #[trigger] m.at(i, j) <= c);
    let pairs = edges_of(s);
    assert(forall|k: int|
        0 <= k < pairs.len() ==> (#[trigger] pairs[k]).0 < m.spec_size() && pairs[k].1
            < m.spec_size());
    lemma_sum_in_range(m, pairs, c);
}

/// A non-negative quotient stays below any `c` with `a <= b * c`.
proof fn lemma_div_bound(a: int, b: int, c: int)
    requires
        0 <= a,
        1 <= b,
        0 <= c,
        a <= b * c,
    ensures
        0 <= a / b <= c,
{
    vstd::arithmetic::div_mod::lemma_fundamental_div_mod(a, b);
    assert(0 <= a % b < b) by (nonlinear_arith)
        requires
            b >= 1,
    ;
    let q = a / b;
    if q < 0 {
        assert(b * q <= -b) by (nonlinear_arith)
            requires
                b >= 1 && q <= -1,
        ;
        assert(false);
    }
    if q > c {
        assert(b * q >= b * c + b) by (nonlinear_arith)
            requires
                b >= 1 && q >= c + 1,
        ;
        assert(false);
    }
}

proof fn lemma_mul_i128_bound(x: int, y: int)
    by (nonlinear_arith)
    requires
        -0x8000_0000 <= x <= 0x8000_0000,
        -0x8000_0000 <= y <= 0x8000_0000,
    ensures
        -0x4000_0000_0000_0000 <= x * y <= 0x4000_0000_0000_0000,
{
}

/// The first minimum is below every earlier entry and at most every later
/// one.
proof fn lemma_row_min_char(m: SymmetricMatrix, row: int, rem: Seq<usize>)
    requires
        rem.len() >= 1,
    ensures
        0 <= row_min_idx(m, row, rem) < rem.len(),
        forall|l: int|
            0 <= l < row_min_idx(m, row, rem) ==> m.at(row, #[trigger] rem[l] as int) > m.at(
                row,
                rem[row_min_idx(m, row, rem)] as int,
            ),
        forall|l: int|
            row_min_idx(m, row, rem) <= l < rem.len() ==> m.at(
                row,
                rem[row_min_idx(m, row, rem)] as int,
            ) <= m.at(row, #[trigger] rem[l] as int),
    decreases rem.len(),
{
    if rem.len() <= 1 {
    } else {
        let df = rem.drop_first();
        lemma_row_min_char(m, row, df);
        let idx = row_min_idx(m, row, rem);
        let rest = 1 + row_min_idx(m, row, df);
        assert(df[rest - 1] == rem[rest]);
        assert forall|l: int| 0 <= l < idx implies m.at(row, #[trigger] rem[l] as int) > m.at(
            row,
            rem[idx] as int,
        ) by {
            if l >= 1 {
                assert(df[l - 1] == rem[l]);
            }
        }
        assert forall|l: int| idx <= l < rem.len() implies m.at(row, rem[idx] as int) <= m.at(
            row,
            #[trigger] rem[l] as int,
        ) by {
            if l >= 1 {
                assert(df[l - 1] == rem[l]);
            }
        }
    }
}

pub struct GuidedLocalSearch {
    distances: SymmetricMatrix,
}

impl GuidedLocalSearch {
    /// The distance matrix the search runs over.
    pub closed spec fn spec_distances(&self) -> SymmetricMatrix {
        self.distances
    }

    pub fn new(distances: SymmetricMatrix) -> (r: Self)
        ensures
            r.spec_distances() == distances,
    {
        Self { distances }
    }

    /// The pure-distance cost of a tour.
    fn cost(&self, path: &Path) -> (r: i32)
        requires
            self.spec_distances().wf(),
            cost_fits(self.spec_distances()),
            path@.len() == self.spec_distances().spec_size(),
            path@.len() >= 1,
            forall|k: int| 0 <= k < path@.len() ==> (#[trigger] path@[k]) < path@.len(),
        ensures
            r == tour_cost(self.spec_distances(), path@),
            r >= 0,
    {
        let e = path.edges();
        proof {
            lemma_tour_cost_fits(self.spec_distances(), path@);
        }
        self.distances.sum(&e)
    }

    /// The trivial tour `0, 1, ..., size - 1` with its cost.
    pub fn sequential(&self) -> (r: Route)
        requires
            self.spec_distances().wf(),
            cost_fits(self.spec_distances()),
            self.spec_distances().spec_size() >= 2,
        ensures
            r.path@.len() == self.spec_distances().spec_size(),
            forall|k: int| 0 <= k < r.path@.len() ==> r.path@[k] == k,
            r.cost == tour_cost(self.spec_distances(), r.path@),
    {
        let path = Path::sequential(self.distances.size());
        let cost = self.cost(&path);
        Route::new(path, cost)
    }

    /// The index of the first nearest remaining vertex, measured from the
    /// given row of the distance matrix.
    fn min_remainder(&self, row: usize, remainders: &Vec<usize>) -> (r: usize)
        requires
            self.spec_distances().wf(),
            remainders@.len() >= 1,
            row < self.spec_distances().spec_size(),
            forall|k: int|
                0 <= k < remainders@.len() ==> (#[trigger] remainders@[k])
                    < self.spec_distances().spec_size(),
        ensures
            r < remainders@.len(),
            r as int == row_min_idx(self.spec_distances(), row as int, remainders@),
    {
        let n = remainders.len();
        let mut best: usize = 0;
        let mut l: usize = 1;
        while l < n
            invariant
                n == remainders@.len(),
                self.spec_distances().wf(),
                row < self.spec_distances().spec_size(),
                forall|k: int|
                    0 <= k < remainders@.len() ==> (#[trigger] remainders@[k])
                        < self.spec_distances().spec_size(),
                best < l <= n,
                forall|k: int|
                    0 <= k < best ==> self.spec_distances().at(
                        row as int,
                        #[trigger] remainders@[k] as int,
                    ) > self.spec_distances().at(row as int, remainders@[best as int] as int),
                forall|k: int|
                    0 <= k < l ==> self.spec_distances().at(
                        row as int,
                        remainders@[best as int] as int,
                    ) <= self.spec_distances().at(row as int, #[trigger] remainders@[k] as int),
            decreases n - l,
        {
            let dl = self.distances.get(row, remainders[l]);
            let db = self.distances.get(row, remainders[best]);
            if dl < db {
                best = l;
            }
            l += 1;
        }
        proof {
            let m = self.spec_distances();
            let idx = row_min_idx(m, row as int, remainders@);
            lemma_row_min_char(m, row as int, remainders@);
            if (best as int) < idx {
                assert(m.at(row as int, remainders@[best as int] as int) > m.at(
                    row as int,
                    remainders@[idx] as int,
                ));
            } else if (best as int) > idx {
                assert(m.at(row as int, remainders@[idx] as int) > m.at(
                    row as int,
                    remainders@[best as int] as int,
                ));
            }
        }
        best
    }

    /// The greedy starting tour: from vertex 0, repeatedly append the first
    /// nearest remaining vertex, measuring from the row given by the step
    /// counter rather than by the vertex last chosen.
    pub fn nearest_neighbor(&self) -> (r: Route)
        requires
            self.spec_distances().wf(),
            cost_fits(self.spec_distances()),
            self.spec_distances().spec_size() >= 2,
        ensures
            r.path@ == nn_tour(self.spec_distances()),
            r.path@.len() == self.spec_distances().spec_size(),
            hamiltonian(r.path@),
            r.cost == tour_cost(self.spec_distances(), r.path@),
    {
        let m = &self.distances;
        let size = m.size();
        let mut res = Path::from_size(size);
        let mut remainders: Vec<usize> = Vec::new();
        let mut v: usize = 1;
        while v < size
            invariant
                v <= size,
                remainders@.len() == v - 1,
                forall|k: int| 0 <= k < v - 1 ==> remainders@[k] == k + 1,
            decreases size - v,
        {
            remainders.push(v);
            v += 1;
        }
        proof {
            assert(remainders@ =~= Seq::new((size - 1) as nat, |t: int| (t + 1) as usize));
        }
        let mut i: usize = 0;
        while i < size - 1
            invariant
                self.spec_distances().wf(),
                size == self.spec_distances().spec_size(),
                size >= 2,
                i <= size - 1,
                res@.len() == size,
                res@[0] == 0,
                remainders@.len() == size - 1 - i,
                nn_tour(self.spec_distances()) == res@.take(i + 1) + nn_rest(
                    self.spec_distances(),
                    i as int,
                    remainders@,
                ),
                forall|k: int| 0 <= k <= i ==> (#[trigger] res@[k]) < size,
                forall|k: int|
                    0 <= k < remainders@.len() ==> 0 < (#[trigger] remainders@[k]) < size,
                forall|k1: int, k2: int| 0 <= k1 < k2 <= i ==> res@[k1] != res@[k2],
                forall|k1: int, k2: int|
                    0 <= k1 < k2 < remainders@.len() ==> remainders@[k1] != remainders@[k2],
                forall|k1: int, k2: int|
                    0 <= k1 <= i && 0 <= k2 < remainders@.len() ==> res@[k1] != remainders@[k2],
            decreases size - i,
        {
            let best = self.min_remainder(i, &remainders);
            let neighbor = remainders[best];
            let ghost rem0 = remainders@;
            remainders.remove(best);
            res.set(i + 1, neighbor);
            proof {
                assert(nn_rest(self.spec_distances(), i as int, rem0) == seq![rem0[best as int]]
                    + nn_rest(self.spec_distances(), i + 1, rem0.remove(best as int)));
                assert(res@.take(i + 2) =~= res@.take(i + 1).push(neighbor));
                assert(nn_tour(self.spec_distances()) == res@.take(i + 2) + nn_rest(
                    self.spec_distances(),
                    i + 1,
                    remainders@,
                ));
            }
            i += 1;
        }
        proof {
            assert(res@.take(size as int) =~= res@);
            assert(nn_tour(self.spec_distances()) == res@);
            assert(hamiltonian(res@));
        }
        let cost = self.cost(&res);
        Route::new(res, cost)
    }

    /// The penalised cost of one edge, exactly.
    fn pen_cost(
        &self,
        penalties: &SymmetricMatrix,
        penalty_factor: i32,
        x: usize,
        y: usize,
    ) -> (r: i128)
        requires
            self.spec_distances().wf(),
            penalties.wf(),
            penalties.spec_size() == self.spec_distances().spec_size(),
            x < self.spec_distances().spec_size(),
            y < self.spec_distances().spec_size(),
        ensures
            r == penalised(
                self.spec_distances(),
                pen_map_of(*penalties),
                penalty_factor as int,
                x as int,
                y as int,
            ),
    {
        let d = self.distances.get(x, y);
        let p = penalties.get(x, y);
        proof {
            lemma_mul_i128_bound(penalty_factor as int, p as int);
        }
        (d as i128) + (penalty_factor as i128) * (p as i128)
    }

    /// Scans the neighbourhood order for the first pair of positions whose
    /// 2-opt reconnection lowers the penalised cost.
    fn find_improvement(
        &self,
        candidate: &Path,
        neighborhood: &Path,
        penalty_factor: i32,
        penalties: &SymmetricMatrix,
    ) -> (r: Option<(usize, usize)>)
        requires
            self.spec_distances().wf(),
            penalties.wf(),
            penalties.spec_size() == self.spec_distances().spec_size(),
            candidate@.len() == self.spec_distances().spec_size(),
            candidate@.len() >= 2,
            hamiltonian(candidate@),
            neighborhood@.len() == candidate@.len(),
            hamiltonian(neighborhood@),
        ensures
            r == scan_penalised(
                self.spec_distances(),
                pen_map_of(*penalties),
                penalty_factor as int,
                candidate@,
                neighborhood@,
                0,
                2,
            ),
            penalty_factor == 0 ==> r == scan0(
                self.spec_distances(),
                candidate@,
                neighborhood@,
                0,
                2,
            ),
            match r {
                Option::None => forall|a: int, b: int|
                    0 <= a && a + 2 <= b < neighborhood@.len() ==> twist_delta(
                        self.spec_distances(),
                        pen_map_of(*penalties),
                        penalty_factor as int,
                        candidate@,
                        #[trigger] neighborhood@[a] as int,
                        #[trigger] neighborhood@[b] as int,
                    ) >= 0,
                Option::Some((i, j)) => exists|a: int, b: int|
                    0 <= a && a + 2 <= b < neighborhood@.len() && i == neighborhood@[a] && j
                        == neighborhood@[b] && i < candidate@.len() && j < candidate@.len()
                        && twist_delta(
                        self.spec_distances(),
                        pen_map_of(*penalties),
                        penalty_factor as int,
                        candidate@,
                        i as int,
                        j as int,
                    ) < 0,
            },
    {
        let n = candidate.len();
        let mut a: usize = 0;
        while a < n
            invariant
                n == candidate@.len(),
                n >= 2,
                self.spec_distances().wf(),
                penalties.wf(),
                penalties.spec_size() == self.spec_distances().spec_size(),
                candidate@.len() == self.spec_distances().spec_size(),
                hamiltonian(candidate@),
                neighborhood@.len() == n,
                hamiltonian(neighborhood@),
                a <= n,
                scan_penalised(
                    self.spec_distances(),
                    pen_map_of(*penalties),
                    penalty_factor as int,
                    candidate@,
                    neighborhood@,
                    0,
                    2,
                ) == scan_penalised(
                    self.spec_distances(),
                    pen_map_of(*penalties),
                    penalty_factor as int,
                    candidate@,
                    neighborhood@,
                    a as int,
                    a + 2,
                ),
                penalty_factor == 0 ==> scan0(self.spec_distances(), candidate@, neighborhood@, 0, 2)
                    == scan0(self.spec_distances(), candidate@, neighborhood@, a as int, a + 2),
                forall|a2: int, b2: int|
                    0 <= a2 < a && a2 + 2 <= b2 < n ==> twist_delta(
                        self.spec_distances(),
                        pen_map_of(*penalties),
                        penalty_factor as int,
                        candidate@,
                        #[trigger] neighborhood@[a2] as int,
                        #[trigger] neighborhood@[b2] as int,
                    ) >= 0,
            decreases n - a,
        {
            let i = neighborhood.get(a);
            let i_next = if i + 1 == n {
                0
            } else {
                i + 1
            };
            let i_vertex = candidate.get(i);
            let i_vertex_next = candidate.get(i_next);
            proof {
                assert(n + 2 <= usize::MAX) by (nonlinear_arith)
                    requires
                        n >= 2 && (n as int) * (n as int) <= usize::MAX,
                ;
            }
            if a + 2 < n {
            let mut b = a + 2;
            while b < n
                invariant
                    n == candidate@.len(),
                    n >= 2,
                    self.spec_distances().wf(),
                    penalties.wf(),
                    penalties.spec_size() == self.spec_distances().spec_size(),
                    candidate@.len() == self.spec_distances().spec_size(),
                    hamiltonian(candidate@),
                    neighborhood@.len() == n,
                    hamiltonian(neighborhood@),
                    a < n,
                    a + 2 <= b <= n,
                    i == neighborhood@[a as int],
                    i < n,
                    i_next == (if i + 1 == n {
                        0int
                    } else {
                        i + 1
                    }),
                    i_vertex == candidate@[i as int],
                    i_vertex_next == candidate@[i_next as int],
                    scan_penalised(
                        self.spec_distances(),
                        pen_map_of(*penalties),
                        penalty_factor as int,
                        candidate@,
                        neighborhood@,
                        0,
                        2,
                    ) == scan_penalised(
                        self.spec_distances(),
                        pen_map_of(*penalties),
                        penalty_factor as int,
                        candidate@,
                        neighborhood@,
                        a as int,
                        b as int,
                    ),
                    penalty_factor == 0 ==> scan0(
                        self.spec_distances(),
                        candidate@,
                        neighborhood@,
                        0,
                        2,
                    ) == scan0(self.spec_distances(), candidate@, neighborhood@, a as int, b as int),
                    forall|b2: int|
                        a + 2 <= b2 < b ==> twist_delta(
                            self.spec_distances(),
                            pen_map_of(*penalties),
                            penalty_factor as int,
                            candidate@,
                            i as int,
                            #[trigger] neighborhood@[b2] as int,
                        ) >= 0,
                decreases n - b,
            {
                let j = neighborhood.get(b);
                let j_next = if j + 1 == n {
                    0
                } else {
                    j + 1
                };
                let j_vertex = candidate.get(j);
                let j_vertex_next = candidate.get(j_next);
                let pc_i = self.pen_cost(penalties, penalty_factor, i_vertex, i_vertex_next);
                let pc_j = self.pen_cost(penalties, penalty_factor, j_vertex, j_vertex_next);
                let pc_ij = self.pen_cost(penalties, penalty_factor, i_vertex, j_vertex);
                let pc_nn = self.pen_cost(penalties, penalty_factor, i_vertex_next, j_vertex_next);
                proof {
                    lemma_mul_i128_bound(
                        penalty_factor as int,
                        penalties.at(i_vertex as int, i_vertex_next as int) as int,
                    );
                    lemma_mul_i128_bound(
                        penalty_factor as int,
                        penalties.at(j_vertex as int, j_vertex_next as int) as int,
                    );
                    lemma_mul_i128_bound(
                        penalty_factor as int,
                        penalties.at(i_vertex as int, j_vertex as int) as int,
                    );
                    lemma_mul_i128_bound(
                        penalty_factor as int,
                        penalties.at(i_vertex_next as int, j_vertex_next as int) as int,
                    );
                }
                let cost_decreased = pc_i + pc_j;
                let cost_increased = pc_ij + pc_nn;
                if cost_increased - cost_decreased < 0 {
                    proof {
                        assert(twist_delta(
                            self.spec_distances(),
                            pen_map_of(*penalties),
                            penalty_factor as int,
                            candidate@,
                            i as int,
                            j as int,
                        ) < 0);
                        assert(0 <= a as int && a + 2 <= b as int && (b as int)
                            < neighborhood@.len() && i == neighborhood@[a as int] && j
                            == neighborhood@[b as int]);
                        if penalty_factor == 0 {
                            lemma_delta0_is_delta(
                                self.spec_distances(),
                                pen_map_of(*penalties),
                                candidate@,
                                i as int,
                                j as int,
                            );
                            assert(twist_delta0(
                                self.spec_distances(),
                                candidate@,
                                i as int,
                                j as int,
                            ) < 0);
                            assert(scan0(
                                self.spec_distances(),
                                candidate@,
                                neighborhood@,
                                a as int,
                                b as int,
                            ) == Some((i, j)));
                        }
                    }
                    return Some((i, j));
                }
                proof {
                    if penalty_factor == 0 {
                        lemma_delta0_is_delta(
                            self.spec_distances(),
                            pen_map_of(*penalties),
                            candidate@,
                            i as int,
                            j as int,
                        );
                    }
                }
                b += 1;
            }
            }
            a += 1;
        }
        None
    }

    /// Runs first-improvement 2-opt under the penalised cost until no pair
    /// in the neighbourhood order improves: the tour stays Hamiltonian,
    /// its penalised cost never rises, and it ends in a 2-opt local minimum
    /// of the penalised cost.
    pub fn local_search(
        &self,
        candidate: &mut Path,
        neighborhood: &Path,
        penalty_factor: i32,
        penalties: &mut SymmetricMatrix,
    )
        requires
            self.spec_distances().wf(),
            entries_nonneg(self.spec_distances()),
            old(penalties).wf(),
            entries_nonneg(*old(penalties)),
            penalty_factor >= 0,
            old(penalties).spec_size() == self.spec_distances().spec_size(),
            old(candidate)@.len() == self.spec_distances().spec_size(),
            old(candidate)@.len() >= 2,
            hamiltonian(old(candidate)@),
            neighborhood@.len() == old(candidate)@.len(),
            hamiltonian(neighborhood@),
        ensures
            *final(penalties) == *old(penalties),
            final(candidate)@.len() == old(candidate)@.len(),
            hamiltonian(final(candidate)@),
            ptour(
                self.spec_distances(),
                pen_map_of(*old(penalties)),
                penalty_factor as int,
                final(candidate)@,
            ) <= ptour(
                self.spec_distances(),
                pen_map_of(*old(penalties)),
                penalty_factor as int,
                old(candidate)@,
            ),
            forall|a: int, b: int|
                0 <= a && a + 2 <= b < neighborhood@.len() ==> twist_delta(
                    self.spec_distances(),
                    pen_map_of(*old(penalties)),
                    penalty_factor as int,
                    final(candidate)@,
                    #[trigger] neighborhood@[a] as int,
                    #[trigger] neighborhood@[b] as int,
                ) >= 0,
            old(candidate)@.len() == 2 ==> final(candidate)@ == old(candidate)@,
            final(candidate)@ == lsp_fix(
                self.spec_distances(),
                pen_map_of(*old(penalties)),
                penalty_factor as int,
                old(candidate)@,
                neighborhood@,
            ),
            penalty_factor == 0 ==> final(candidate)@ == ls0_fix(
                self.spec_distances(),
                old(candidate)@,
                neighborhood@,
            ),
    {
        let n = candidate.len();
        proof {
            lemma_psum_nonneg(
                self.spec_distances(),
                pen_map_of(*penalties),
                penalty_factor as int,
                edges_of(candidate@),
            );
        }
        loop
            invariant
                n == candidate@.len(),
                n == old(candidate)@.len(),
                n >= 2,
                self.spec_distances().wf(),
                entries_nonneg(self.spec_distances()),
                penalties.wf(),
                entries_nonneg(*penalties),
                penalty_factor >= 0,
                *penalties == *old(penalties),
                penalties.spec_size() == self.spec_distances().spec_size(),
                candidate@.len() == self.spec_distances().spec_size(),
                hamiltonian(candidate@),
                neighborhood@.len() == n,
                hamiltonian(neighborhood@),
                n == 2 ==> candidate@ == old(candidate)@,
                lsp_fix(
                    self.spec_distances(),
                    pen_map_of(*penalties),
                    penalty_factor as int,
                    old(candidate)@,
                    neighborhood@,
                ) == lsp_fix(
                    self.spec_distances(),
                    pen_map_of(*penalties),
                    penalty_factor as int,
                    candidate@,
                    neighborhood@,
                ),
                penalty_factor == 0 ==> ls0_fix(
                    self.spec_distances(),
                    old(candidate)@,
                    neighborhood@,
                ) == ls0_fix(self.spec_distances(), candidate@, neighborhood@),
                ptour(self.spec_distances(), pen_map_of(*penalties), penalty_factor as int, candidate@) >= 0,
                ptour(self.spec_distances(), pen_map_of(*penalties), penalty_factor as int, candidate@)
                    <= ptour(
                    self.spec_distances(),
                    pen_map_of(*penalties),
                    penalty_factor as int,
                    old(candidate)@,
                ),
            decreases ptour(
                self.spec_distances(),
                pen_map_of(*penalties),
                penalty_factor as int,
                candidate@,
            ),
        {
            let found = self.find_improvement(candidate, neighborhood, penalty_factor, penalties);
            match found {
                Option::None => {
                    proof {
                        assert(lsp_ok(
                            self.spec_distances(),
                            pen_map_of(*penalties),
                            penalty_factor as int,
                            candidate@,
                            neighborhood@,
                        ));
                        assert(lsp_fix(
                            self.spec_distances(),
                            pen_map_of(*penalties),
                            penalty_factor as int,
                            candidate@,
                            neighborhood@,
                        ) == candidate@);
                        if penalty_factor == 0 {
                            assert(ls0_ok(self.spec_distances(), candidate@, neighborhood@));
                            assert(ls0_fix(self.spec_distances(), candidate@, neighborhood@)
                                == candidate@);
                        }
                    }
                    return ;
                },
                Option::Some((i, j)) => {
                    proof {
                        let (a, b) = choose|a: int, b: int|
                            0 <= a && a + 2 <= b < neighborhood@.len() && i == neighborhood@[a]
                                && j == neighborhood@[b] && i < candidate@.len() && j
                                < candidate@.len() && twist_delta(
                                self.spec_distances(),
                                pen_map_of(*penalties),
                                penalty_factor as int,
                                candidate@,
                                i as int,
                                j as int,
                            ) < 0;
                        if n == 2 {
                            assert(false);
                        }
                        assert(i != j);
                    }
                    let i_next = if i + 1 == n {
                        0
                    } else {
                        i + 1
                    };
                    proof {
                        lemma_twist_preserves_hamiltonian(candidate@, i_next as int, j as int);
                        lemma_twist_cost_delta(
                            self.spec_distances(),
                            pen_map_of(*penalties),
                            penalty_factor as int,
                            candidate@,
                            i as int,
                            j as int,
                        );
                        assert(lsp_ok(
                            self.spec_distances(),
                            pen_map_of(*penalties),
                            penalty_factor as int,
                            candidate@,
                            neighborhood@,
                        ));
                        assert(lsp_fix(
                            self.spec_distances(),
                            pen_map_of(*penalties),
                            penalty_factor as int,
                            candidate@,
                            neighborhood@,
                        ) == lsp_fix(
                            self.spec_distances(),
                            pen_map_of(*penalties),
                            penalty_factor as int,
                            crate::types::path::spec_twist(candidate@, i_next as int, j as int),
                            neighborhood@,
                        ));
                        if penalty_factor == 0 {
                            assert(ls0_ok(self.spec_distances(), candidate@, neighborhood@));
                            assert(ls0_fix(self.spec_distances(), candidate@, neighborhood@)
                                == ls0_fix(
                                self.spec_distances(),
                                crate::types::path::spec_twist(
                                    candidate@,
                                    i_next as int,
                                    j as int,
                                ),
                                neighborhood@,
                            ));
                        }
                    }
                    candidate.twist(i_next, j);
                    proof {
                        lemma_psum_nonneg(
                            self.spec_distances(),
                            pen_map_of(*penalties),
                            penalty_factor as int,
                            edges_of(candidate@),
                        );
                    }
                },
            }
        }
    }

    /// The penalty factor: three tenths of the mean tour edge cost, rounded
    /// down.
    fn penalty_factor_of(cost: i32, size: usize) -> (r: i32)
        requires
            cost >= 0,
            1 <= size <= 0xffff_ffff,
        ensures
            r == spec_lambda(cost as int, size as int),
            r >= 0,
    {
        let a: i64 = 3 * (cost as i64);
        let b: i64 = 10 * (size as i64);
        proof {
            assert(a <= b * (cost as int)) by (nonlinear_arith)
                requires
                    a == 3 * (cost as int) && b == 10 * (size as int) && cost >= 0 && size >= 1,
            ;
            lemma_div_bound(a as int, b as int, cost as int);
        }
        let v: i64 = a / b;
        v as i32
    }

    /// The utility of a tour edge: its distance over one more than its
    /// penalty, rounded down.
    fn utility_of(dist: i32, penalty: i32) -> (r: i32)
        requires
            dist >= 0,
            penalty >= 0,
        ensures
            r == spec_utility(dist as int, penalty as int),
            r >= 0,
    {
        let b: i64 = 1 + (penalty as i64);
        proof {
            assert((dist as int) <= b * (dist as int)) by (nonlinear_arith)
                requires
                    b >= 1 && dist >= 0,
            ;
            lemma_div_bound(dist as int, b as int, dist as int);
        }
        let v: i64 = (dist as i64) / b;
        v as i32
    }

    /// Solves the instance: a seeded shuffled neighbourhood order, the
    /// nearest-neighbour start, a distance-only local search, `steps`
    /// rounds of penalisation and penalised search, and a distance-only
    /// cleanup. The result is a Hamiltonian tour carrying its exact
    /// pure-distance cost, and the tour is pinned to a function of the
    /// matrix, the seed and the step count alone, so equal inputs yield
    /// equal routes.
    pub fn solve(&self, seed: u64, steps: usize) -> (r: Route)
        requires
            self.spec_distances().wf(),
            cost_fits(self.spec_distances()),
            self.spec_distances().spec_size() >= 2,
        ensures
            r.path@.len() == self.spec_distances().spec_size(),
            hamiltonian(r.path@),
            r.cost == tour_cost(self.spec_distances(), r.path@),
            self.spec_distances().spec_size() == 2 ==> r.path@ == seq![0usize, 1usize],
            steps == 0 ==> r.cost <= tour_cost(
                self.spec_distances(),
                nn_tour(self.spec_distances()),
            ),
            r.path@ == spec_solve_path(self.spec_distances(), seed, steps as nat),
    {
        let m = &self.distances;
        let size = m.size();
        proof {
            lemma_size_sq_bound(self.spec_distances());
            let c = choose|c: int|
                0 <= c && #[trigger] (self.spec_distances().spec_size() * c) <= i32::MAX && (
                forall|i: int, j: int|
                    0 <= i < self.spec_distances().spec_size() && 0 <= j
                        < self.spec_distances().spec_size() ==> 0
                        <= #[trigger] self.spec_distances().at(i, j) <= c);
            assert(entries_nonneg(self.spec_distances()));
        }
        // The frozen neighbourhood order for this run.
        let order = shuffled_order(size, seed);
        let neighborhood = Path::new(order);
        // Greedy start.
        let mut route = self.nearest_neighbor();
        proof {
            if size == 2 {
                lemma_nn_tour_two(self.spec_distances());
            }
        }
        // Distance-only local search.
        let ghost nn_cost = tour_cost(self.spec_distances(), nn_tour(self.spec_distances()));
        let mut penalties = SymmetricMatrix::from_size(size);
        self.local_search(&mut route.path, &neighborhood, 0, &mut penalties);
        proof {
            lemma_psum_zero(self.spec_distances(), pen_map_of(penalties), edges_of(route.path@));
            lemma_psum_zero(
                self.spec_distances(),
                pen_map_of(penalties),
                edges_of(nn_tour(self.spec_distances())),
            );
            assert(tour_cost(self.spec_distances(), route.path@) <= nn_cost);
        }
        route.cost = self.cost(&route.path);
        proof {
            assert(size <= 0xffff_ffff) by (nonlinear_arith)
                requires
                    (size as int) * (size as int) <= usize::MAX && usize::MAX
                        < 0x1_0000_0000_0000_0000,
            ;
        }
        let penalty_factor = Self::penalty_factor_of(route.cost, size);
        let ghost start_path = route.path@;
        proof {
            assert(pen_map_of(penalties) =~= pen_zero(size as int));
        }
        let mut step: usize = 0;
        while step < steps
            invariant
                self.spec_distances().wf(),
                cost_fits(self.spec_distances()),
                size == self.spec_distances().spec_size(),
                size >= 2,
                step <= steps,
                entries_nonneg(self.spec_distances()),
                penalty_factor >= 0,
                penalties.wf(),
                penalties.spec_size() == size,
                forall|x: int, y: int|
                    0 <= x < size && 0 <= y < size ==> #[trigger] penalties.at(x, y) >= 0,
                route.path@.len() == size,
                hamiltonian(route.path@),
                neighborhood@.len() == size,
                hamiltonian(neighborhood@),
                size == 2 ==> route.path@ == seq![0usize, 1usize],
                steps == 0 ==> tour_cost(self.spec_distances(), route.path@) <= tour_cost(
                    self.spec_distances(),
                    nn_tour(self.spec_distances()),
                ),
                neighborhood@ == mt_shuffle(size as int, seed),
                start_path == ls0_fix(
                    self.spec_distances(),
                    nn_tour(self.spec_distances()),
                    mt_shuffle(size as int, seed),
                ),
                penalty_factor as int == spec_lambda(
                    tour_cost(self.spec_distances(), start_path),
                    size as int,
                ),
                route.path@ == gls_rounds(
                    self.spec_distances(),
                    mt_shuffle(size as int, seed),
                    penalty_factor as int,
                    start_path,
                    pen_zero(size as int),
                    step as nat,
                ).0,
                pen_map_of(penalties) == gls_rounds(
                    self.spec_distances(),
                    mt_shuffle(size as int, seed),
                    penalty_factor as int,
                    start_path,
                    pen_zero(size as int),
                    step as nat,
                ).1,
            decreases steps - step,
        {
            let ghost d = self.spec_distances();
            let ghost pm0 = pen_map_of(penalties);
            let ghost path0 = route.path@;
            let edges = route.path.edges();
            proof {
                assert(edges@.len() == size);
                assert forall|k: int|
                    0 <= k < edges@.len() implies (#[trigger] edges@[k]).0 < size && edges@[k].1
                    < size by {}
            }
            // The highest utility over the tour edges.
            let first = edges[0];
            let mut max_u = Self::utility_of(self.distances.get(first.0, first.1), penalties.get(first.0, first.1));
            proof {
                assert(edges@.take(1).len() == 1);
                assert(edges@.take(1)[0] == edges@[0]);
                assert(pm0[(first.0 as int, first.1 as int)] == penalties.at(
                    first.0 as int,
                    first.1 as int,
                ));
                assert(max_u as int == max_utility(d, pm0, edges@.take(1)));
            }
            let mut k: usize = 1;
            while k < size
                invariant
                    self.spec_distances().wf(),
                    d == self.spec_distances(),
                    entries_nonneg(self.spec_distances()),
                    penalties.wf(),
                    penalties.spec_size() == size,
                    size == self.spec_distances().spec_size(),
                    pm0 == pen_map_of(penalties),
                    forall|x: int, y: int|
                        0 <= x < size && 0 <= y < size ==> #[trigger] penalties.at(x, y) >= 0,
                    edges@.len() == size,
                    forall|k2: int|
                        0 <= k2 < edges@.len() ==> (#[trigger] edges@[k2]).0 < size
                            && edges@[k2].1 < size,
                    1 <= k <= size,
                    max_u >= 0,
                    max_u as int == max_utility(d, pm0, edges@.take(k as int)),
                decreases size - k,
            {
                let e = edges[k];
                let u = Self::utility_of(self.distances.get(e.0, e.1), penalties.get(e.0, e.1));
                proof {
                    assert(pm0[(e.0 as int, e.1 as int)] == penalties.at(e.0 as int, e.1 as int));
                    assert(u as int == edge_utility(d, pm0, edges@[k as int]));
                    assert(edges@.take(k + 1).drop_last() =~= edges@.take(k as int));
                    assert(edges@.take(k + 1).last() == edges@[k as int]);
                }
                if u > max_u {
                    max_u = u;
                }
                k += 1;
            }
            proof {
                assert(edges@.take(size as int) =~= edges@);
                assert(edges@ == edges_of(route.path@));
                assert(max_u as int == max_utility(d, pm0, edges_of(path0)));
            }
            // The edges of highest utility, judged before any update.
            let mut to_penalise: Vec<(usize, usize)> = Vec::new();
            let mut k2: usize = 0;
            while k2 < size
                invariant
                    self.spec_distances().wf(),
                    d == self.spec_distances(),
                    entries_nonneg(self.spec_distances()),
                    penalties.wf(),
                    penalties.spec_size() == size,
                    size == self.spec_distances().spec_size(),
                    pm0 == pen_map_of(penalties),
                    path0 == route.path@,
                    forall|x: int, y: int|
                        0 <= x < size && 0 <= y < size ==> #[trigger] penalties.at(x, y) >= 0,
                    edges@.len() == size,
                    edges@ == edges_of(path0),
                    forall|k3: int|
                        0 <= k3 < edges@.len() ==> (#[trigger] edges@[k3]).0 < size
                            && edges@[k3].1 < size,
                    k2 <= size,
                    max_u as int == max_utility(d, pm0, edges_of(path0)),
                    to_penalise@ == edges@.take(k2 as int).filter(util_pred(d, pm0, path0)),
                    forall|k3: int|
                        0 <= k3 < to_penalise@.len() ==> (#[trigger] to_penalise@[k3]).0 < size
                            && to_penalise@[k3].1 < size,
                decreases size - k2,
            {
                let e = edges[k2];
                let u = Self::utility_of(self.distances.get(e.0, e.1), penalties.get(e.0, e.1));
                proof {
                    assert(pm0[(e.0 as int, e.1 as int)] == penalties.at(e.0 as int, e.1 as int));
                    assert(u as int == edge_utility(d, pm0, edges@[k2 as int]));
                    reveal(Seq::filter);
                    assert(edges@.take(k2 + 1).drop_last() =~= edges@.take(k2 as int));
                    assert(edges@.take(k2 + 1).last() == edges@[k2 as int]);
                    assert(util_pred(d, pm0, path0)(edges@[k2 as int]) == (edge_utility(
                        d,
                        pm0,
                        edges@[k2 as int],
                    ) == max_utility(d, pm0, edges_of(path0))));
                }
                if u == max_u {
                    to_penalise.push(e);
                }
                k2 += 1;
            }
            proof {
                assert(edges@.take(size as int) =~= edges@);
                assert(to_penalise@ == utility_edges(d, pm0, path0));
            }
            // Raise the penalty of every edge of highest utility; a penalty
            // saturates at the integer bound rather than wrap.
            let mut w: usize = 0;
            proof {
                assert forall|x: int, y: int|
                    0 <= x < size && 0 <= y < size implies #[trigger] penalties.at(x, y)
                    == clip_inc(pm0[(x, y)], count_pair(to_penalise@.take(0), x, y)) by {
                    assert(count_pair(to_penalise@.take(0), x, y) == 0);
                }
            }
            while w < to_penalise.len()
                invariant
                    penalties.wf(),
                    penalties.spec_size() == size,
                    w <= to_penalise@.len(),
                    forall|k3: int|
                        0 <= k3 < to_penalise@.len() ==> (#[trigger] to_penalise@[k3]).0 < size
                            && to_penalise@[k3].1 < size,
                    forall|x: int, y: int|
                        0 <= x < size && 0 <= y < size ==> 0 <= #[trigger] pm0[(x, y)],
                    forall|x: int, y: int|
                        0 <= x < size && 0 <= y < size ==> #[trigger] penalties.at(x, y)
                            == clip_inc(pm0[(x, y)], count_pair(to_penalise@.take(w as int), x, y)),
                decreases to_penalise@.len() - w,
            {
                let (e0, e1) = to_penalise[w];
                let cur = penalties.get(e0, e1);
                proof {
                    assert(to_penalise@.take(w + 1).drop_last() =~= to_penalise@.take(w as int));
                    assert(to_penalise@.take(w + 1).last() == to_penalise@[w as int]);
                    lemma_count_pair_nonneg_all(to_penalise@.take(w as int));
                }
                if cur < i32::MAX {
                    penalties.inc(e0, e1, 1);
                }
                proof {
                    assert forall|x: int, y: int|
                        0 <= x < size && 0 <= y < size implies #[trigger] penalties.at(x, y)
                        == clip_inc(pm0[(x, y)], count_pair(to_penalise@.take(w + 1), x, y)) by {
                        if (x == e0 && y == e1) || (x == e1 && y == e0) {
                            assert(count_pair(to_penalise@.take(w + 1), x, y) == count_pair(
                                to_penalise@.take(w as int),
                                x,
                                y,
                            ) + 1);
                        } else {
                            assert(count_pair(to_penalise@.take(w + 1), x, y) == count_pair(
                                to_penalise@.take(w as int),
                                x,
                                y,
                            ));
                        }
                    }
                }
                w += 1;
            }
            proof {
                assert(to_penalise@.take(to_penalise@.len() as int) =~= to_penalise@);
                assert(pen_map_of(penalties) =~= pen_after(pm0, to_penalise@, size as int));
                lemma_pen_after_sym_nonneg(pm0, to_penalise@, size as int);
                assert forall|x: int, y: int|
                    0 <= x < size && 0 <= y < size implies #[trigger] penalties.at(x, y) >= 0 by {
                    lemma_count_pair_nonneg_all(to_penalise@);
                }
            }
            self.local_search(&mut route.path, &neighborhood, penalty_factor, &mut penalties);
            proof {
                let sh = mt_shuffle(size as int, seed);
                let pz = pen_zero(size as int);
                let lam = penalty_factor as int;
                let prev = gls_rounds(d, sh, lam, start_path, pz, step as nat);
                assert(prev == (path0, pm0));
                assert(gls_rounds(d, sh, lam, start_path, pz, (step + 1) as nat) == gls_round(
                    d,
                    sh,
                    lam,
                    path0,
                    pm0,
                ));
                assert(route.path@ == lsp_fix(
                    d,
                    pen_after(pm0, utility_edges(d, pm0, path0), size as int),
                    lam,
                    path0,
                    mt_shuffle(size as int, seed),
                ));
            }
            step += 1;
        }
        // Distance-only cleanup.
        let ghost before_cleanup = route.path@;
        self.local_search(&mut route.path, &neighborhood, 0, &mut penalties);
        proof {
            lemma_psum_zero(self.spec_distances(), pen_map_of(penalties), edges_of(route.path@));
            lemma_psum_zero(self.spec_distances(), pen_map_of(penalties), edges_of(before_cleanup));
            assert(route.path@ == spec_solve_path(self.spec_distances(), seed, steps as nat));
        }
        route.cost = self.cost(&route.path);
        route
    }
}

/// The penalty factor `floor(0.3 * cost / size)`, as exact integer
/// arithmetic.
pub open spec fn spec_lambda(cost: int, size: int) -> int {
    (3 * cost) / (10 * size)
}

/// The utility `floor(dist / (1 + penalty))` of an edge.
pub open spec fn spec_utility(dist: int, penalty: int) -> int {
    dist / (1 + penalty)
}

proof fn lemma_size_sq_bound(m: SymmetricMatrix)
    requires
        m.wf(),
    ensures
        m.spec_size() * m.spec_size() <= usize::MAX,
{
}

/// With two vertices the greedy tour is `0, 1`.
proof fn lemma_nn_tour_two(m: SymmetricMatrix)
    requires
        m.spec_size() == 2,
    ensures
        nn_tour(m) == seq![0usize, 1usize],
{
    let rem = Seq::new(1nat, |t: int| (t + 1) as usize);
    assert(rem.len() == 1);
    assert(rem[0] == 1usize);
    assert(row_min_idx(m, 0, rem) == 0);
    assert(rem.remove(0) =~= Seq::<usize>::empty());
    assert(nn_rest(m, 1, Seq::<usize>::empty()) == Seq::<usize>::empty());
    assert(nn_rest(m, 0, rem) == seq![1usize] + Seq::<usize>::empty());
    assert(nn_tour(m) =~= seq![0usize, 1usize]);
}

/// The penalised sum of the matrix entries picked by a sequence of index
/// pairs.
pub open spec fn psum(
    dist: SymmetricMatrix,
    pen: Map<(int, int), i32>,
    lambda: int,
    pairs: Seq<(usize, usize)>,
) -> int
    decreases pairs.len(),
{
    if pairs.len() == 0 {
        0
    } else {
        psum(dist, pen, lambda, pairs.drop_last()) + penalised(
            dist,
            pen,
            lambda,
            pairs.last().0 as int,
            pairs.last().1 as int,
        )
    }
}

/// The penalised cost of the cycle `s`.
pub open spec fn ptour(
    dist: SymmetricMatrix,
    pen: Map<(int, int), i32>,
    lambda: int,
    s: Seq<usize>,
) -> int {
    psum(dist, pen, lambda, edges_of(s))
}

/// The edges of the open chain `s[0] -> s[1] -> ... -> s[len-1]`, without
/// the closing edge.
pub open spec fn chain_pairs(s: Seq<usize>) -> Seq<(usize, usize)> {
    Seq::new(
        if s.len() >= 1 {
            (s.len() - 1) as nat
        } else {
            0
        },
        |k: int| (s[k], s[k + 1]),
    )
}

/// The penalised cost of the open chain through `s`.
pub open spec fn chain_sum(
    dist: SymmetricMatrix,
    pen: Map<(int, int), i32>,
    lambda: int,
    s: Seq<usize>,
) -> int {
    psum(dist, pen, lambda, chain_pairs(s))
}

proof fn lemma_psum_concat(
    dist: SymmetricMatrix,
    pen: Map<(int, int), i32>,
    lambda: int,
    x: Seq<(usize, usize)>,
    y: Seq<(usize, usize)>,
)
    ensures
        psum(dist, pen, lambda, x + y) == psum(dist, pen, lambda, x) + psum(dist, pen, lambda, y),
    decreases y.len(),
{
    if y.len() == 0 {
        assert(x + y =~= x);
    } else {
        assert((x + y).drop_last() =~= x + y.drop_last());
        assert((x + y).last() == y.last());
        lemma_psum_concat(dist, pen, lambda, x, y.drop_last());
    }
}

/// With no penalty factor the penalised sum is the plain sum.
proof fn lemma_psum_zero(
    dist: SymmetricMatrix,
    pen: Map<(int, int), i32>,
    pairs: Seq<(usize, usize)>,
)
    ensures
        psum(dist, pen, 0, pairs) == spec_sum(dist, pairs),
    decreases pairs.len(),
{
    if pairs.len() > 0 {
        lemma_psum_zero(dist, pen, pairs.drop_last());
    }
}

/// A penalised sum of in-range, non-negative entries under a non-negative
/// factor is non-negative.
proof fn lemma_psum_nonneg(
    dist: SymmetricMatrix,
    pen: Map<(int, int), i32>,
    lambda: int,
    pairs: Seq<(usize, usize)>,
)
    requires
        lambda >= 0,
        forall|i: int, j: int|
            0 <= i < dist.spec_size() && 0 <= j < dist.spec_size() ==> 0 <= #[trigger] dist.at(
                i,
                j,
            ),
        pen_nonneg(pen, dist.spec_size()),
        forall|k: int|
            0 <= k < pairs.len() ==> (#[trigger] pairs[k]).0 < dist.spec_size() && pairs[k].1
                < dist.spec_size(),
    ensures
        psum(dist, pen, lambda, pairs) >= 0,
    decreases pairs.len(),
{
    if pairs.len() > 0 {
        lemma_psum_nonneg(dist, pen, lambda, pairs.drop_last());
        let e = pairs.last();
        assert(lambda * pen[(e.0 as int, e.1 as int)] >= 0) by (nonlinear_arith)
            requires
                lambda >= 0 && pen[(e.0 as int, e.1 as int)] >= 0,
        ;
    }
}

/// Rotating a cycle rotates its edge list.
proof fn lemma_edges_rotate(s: Seq<usize>, r: int)
    requires
        0 <= r <= s.len(),
    ensures
        edges_of(crate::types::path::rotated(s, r)) =~= edges_of(s).skip(r) + edges_of(s).take(r),
{
    let n = s.len() as int;
    let rot = crate::types::path::rotated(s, r);
    assert(rot.len() == n);
    assert forall|k: int|
        0 <= k < n implies edges_of(rot)[k] == (edges_of(s).skip(r) + edges_of(s).take(r))[k] by {
        if k < n - r {
            assert(rot[k] == s[k + r]);
            if k + 1 < n - r {
                assert(rot[k + 1] == s[k + r + 1]);
            } else if k + 1 == n - r {
                if r == 0 {
                } else if k + 1 == n {
                } else {
                    assert(rot[k + 1] == s[k + 1 - (n - r)]);
                }
            }
        } else {
            assert(rot[k] == s[k - (n - r)]);
            if k + 1 < n {
                assert(rot[k + 1] == s[k + 1 - (n - r)]);
            } else {
                assert(rot[0] == (if r < n {
                    s[r]
                } else {
                    s[0]
                }));
            }
        }
    }
}

/// The penalised cost of a cycle does not change when the cycle is rotated.
proof fn lemma_ptour_rotate(
    dist: SymmetricMatrix,
    pen: Map<(int, int), i32>,
    lambda: int,
    s: Seq<usize>,
    r: int,
)
    requires
        0 <= r <= s.len(),
    ensures
        ptour(dist, pen, lambda, crate::types::path::rotated(s, r)) == ptour(dist, pen, lambda, s),
{
    let e = edges_of(s);
    lemma_edges_rotate(s, r);
    lemma_psum_concat(dist, pen, lambda, e.skip(r), e.take(r));
    lemma_psum_concat(dist, pen, lambda, e.take(r), e.skip(r));
    assert(e.take(r) + e.skip(r) =~= e);
}

/// The cost of the tour's edges does not change when the tour is rotated:
/// the same edges are summed, starting elsewhere.
pub proof fn lemma_tour_cost_rotation(m: SymmetricMatrix, s: Seq<usize>, r: int)
    requires
        0 <= r <= s.len(),
    ensures
        tour_cost(m, crate::types::path::rotated(s, r)) == tour_cost(m, s),
{
    lemma_ptour_rotate(m, pen_map_of(m), 0, s, r);
    lemma_psum_zero(m, pen_map_of(m), edges_of(crate::types::path::rotated(s, r)));
    lemma_psum_zero(m, pen_map_of(m), edges_of(s));
}

proof fn lemma_chain_back(
    dist: SymmetricMatrix,
    pen: Map<(int, int), i32>,
    lambda: int,
    q: Seq<usize>,
)
    requires
        q.len() >= 2,
    ensures
        chain_sum(dist, pen, lambda, q) == chain_sum(dist, pen, lambda, q.drop_last()) + penalised(
            dist,
            pen,
            lambda,
            q[q.len() - 2] as int,
            q[q.len() - 1] as int,
        ),
{
    assert(chain_pairs(q).drop_last() =~= chain_pairs(q.drop_last()));
    assert(chain_pairs(q).last() == (q[q.len() - 2], q[q.len() - 1]));
}

proof fn lemma_chain_front(
    dist: SymmetricMatrix,
    pen: Map<(int, int), i32>,
    lambda: int,
    q: Seq<usize>,
)
    requires
        q.len() >= 2,
    ensures
        chain_sum(dist, pen, lambda, q) == penalised(dist, pen, lambda, q[0] as int, q[1] as int)
            + chain_sum(dist, pen, lambda, q.drop_first()),
    decreases q.len(),
{
    if q.len() == 2 {
        assert(chain_pairs(q).drop_last() =~= chain_pairs(q.drop_last()));
        assert(chain_pairs(q.drop_last()).len() == 0);
        assert(chain_pairs(q.drop_first()).len() == 0);
        assert(chain_pairs(q).last() == (q[0], q[1]));
        assert(chain_sum(dist, pen, lambda, q.drop_first()) == 0);
        assert(chain_sum(dist, pen, lambda, q) == psum(dist, pen, lambda, chain_pairs(q)));
        assert(psum(dist, pen, lambda, chain_pairs(q)) == psum(
            dist,
            pen,
            lambda,
            chain_pairs(q).drop_last(),
        ) + penalised(
            dist,
            pen,
            lambda,
            chain_pairs(q).last().0 as int,
            chain_pairs(q).last().1 as int,
        ));
        assert(psum(dist, pen, lambda, chain_pairs(q).drop_last()) == 0);
    } else {
        lemma_chain_back(dist, pen, lambda, q);
        lemma_chain_front(dist, pen, lambda, q.drop_last());
        assert(q.drop_last()[0] == q[0]);
        assert(q.drop_last()[1] == q[1]);
        assert(q.drop_last().drop_first() =~= q.drop_first().drop_last());
        lemma_chain_back(dist, pen, lambda, q.drop_first());
        assert(q.drop_first()[q.drop_first().len() - 2] == q[q.len() - 2]);
        assert(q.drop_first()[q.drop_first().len() - 1] == q[q.len() - 1]);
        assert(chain_sum(dist, pen, lambda, q.drop_last()) == penalised(
            dist,
            pen,
            lambda,
            q[0] as int,
            q[1] as int,
        ) + chain_sum(dist, pen, lambda, q.drop_last().drop_first()));
        assert(chain_sum(dist, pen, lambda, q) == chain_sum(dist, pen, lambda, q.drop_last())
            + penalised(dist, pen, lambda, q[q.len() - 2] as int, q[q.len() - 1] as int));
        assert(chain_sum(dist, pen, lambda, q.drop_first()) == chain_sum(
            dist,
            pen,
            lambda,
            q.drop_first().drop_last(),
        ) + penalised(dist, pen, lambda, q[q.len() - 2] as int, q[q.len() - 1] as int));
    }
}

/// Walking a chain backward costs the same, the matrices being symmetric.
proof fn lemma_chain_rev(
    dist: SymmetricMatrix,
    pen: Map<(int, int), i32>,
    lambda: int,
    q: Seq<usize>,
)
    requires
        dist.wf(),
        pen_symmetric(pen, dist.spec_size()),
        forall|k: int| 0 <= k < q.len() ==> (#[trigger] q[k]) < dist.spec_size(),
    ensures
        chain_sum(dist, pen, lambda, q.reverse()) == chain_sum(dist, pen, lambda, q),
    decreases q.len(),
{
    if q.len() <= 1 {
        assert(chain_pairs(q.reverse()).len() == 0);
        assert(chain_pairs(q).len() == 0);
    } else {
        let n = q.len() as int;
        assert(q.reverse().drop_first() =~= q.drop_last().reverse());
        lemma_chain_front(dist, pen, lambda, q.reverse());
        lemma_chain_rev(dist, pen, lambda, q.drop_last());
        lemma_chain_back(dist, pen, lambda, q);
        assert(q.reverse()[0] == q[n - 1] && q.reverse()[1] == q[n - 2]);
        dist.lemma_symmetric(q[n - 2] as int, q[n - 1] as int);
        assert(pen[(q[n - 2] as int, q[n - 1] as int)] == pen[(q[n - 1] as int, q[n - 2] as int)]);
    }
}

proof fn lemma_chain_concat(
    dist: SymmetricMatrix,
    pen: Map<(int, int), i32>,
    lambda: int,
    q1: Seq<usize>,
    q2: Seq<usize>,
)
    requires
        q1.len() >= 1,
        q2.len() >= 1,
    ensures
        chain_sum(dist, pen, lambda, q1 + q2) == chain_sum(dist, pen, lambda, q1) + penalised(
            dist,
            pen,
            lambda,
            q1.last() as int,
            q2.first() as int,
        ) + chain_sum(dist, pen, lambda, q2),
    decreases q2.len(),
{
    if q2.len() == 1 {
        lemma_chain_back(dist, pen, lambda, q1 + q2);
        assert((q1 + q2).drop_last() =~= q1);
        assert(chain_pairs(q2).len() == 0);
    } else {
        lemma_chain_back(dist, pen, lambda, q1 + q2);
        assert((q1 + q2).drop_last() =~= q1 + q2.drop_last());
        lemma_chain_concat(dist, pen, lambda, q1, q2.drop_last());
        lemma_chain_back(dist, pen, lambda, q2);
        assert((q1 + q2)[(q1 + q2).len() - 2] == q2[q2.len() - 2]);
        assert((q1 + q2)[(q1 + q2).len() - 1] == q2[q2.len() - 1]);
    }
}

/// A cycle's cost is its chain cost plus the closing edge.
proof fn lemma_ptour_chain(
    dist: SymmetricMatrix,
    pen: Map<(int, int), i32>,
    lambda: int,
    s: Seq<usize>,
)
    requires
        s.len() >= 1,
    ensures
        ptour(dist, pen, lambda, s) == chain_sum(dist, pen, lambda, s) + penalised(
            dist,
            pen,
            lambda,
            s.last() as int,
            s.first() as int,
        ),
{
    assert(edges_of(s).drop_last() =~= chain_pairs(s));
    assert(edges_of(s).last() == (s[s.len() - 1], s[0]));
}

/// Reversing a strict prefix of the cycle changes its cost by exactly the
/// 2-opt reconnection delta of the wrap edge and the edge after the prefix.
proof fn lemma_prefix_rev_delta(
    dist: SymmetricMatrix,
    pen: Map<(int, int), i32>,
    lambda: int,
    s: Seq<usize>,
    e: int,
)
    requires
        dist.wf(),
        pen_symmetric(pen, dist.spec_size()),
        forall|k: int| 0 <= k < s.len() ==> (#[trigger] s[k]) < dist.spec_size(),
        s.len() >= 2,
        0 <= e <= s.len() - 2,
    ensures
        ptour(dist, pen, lambda, crate::types::path::spec_twist(s, 0, e)) == ptour(
            dist,
            pen,
            lambda,
            s,
        ) + twist_delta(dist, pen, lambda, s, s.len() - 1, e),
{
    let n = s.len() as int;
    let t = crate::types::path::spec_twist(s, 0, e);
    let p = s.take(e + 1);
    let q = s.skip(e + 1);
    assert(s =~= p + q);
    assert forall|k: int| 0 <= k < n implies t[k] == (p.reverse() + q)[k] by {
        if k <= e {
            crate::types::path::lemma_wrap_is_mod(e - k, n);
            assert(t[k] == s[e - k]);
            assert(p.reverse()[k] == p[e - k]);
        }
    }
    assert(t =~= p.reverse() + q);
    lemma_ptour_chain(dist, pen, lambda, p + q);
    lemma_ptour_chain(dist, pen, lambda, p.reverse() + q);
    lemma_chain_concat(dist, pen, lambda, p, q);
    lemma_chain_concat(dist, pen, lambda, p.reverse(), q);
    lemma_chain_rev(dist, pen, lambda, p);
    assert(p.reverse().last() == p.first());
    assert(p.reverse().first() == p.last());
    assert(p.last() == s[e] && p.first() == s[0]);
    assert(q.first() == s[e + 1] && q.last() == s[n - 1]);
    assert((p + q).last() == s[n - 1] && (p + q).first() == s[0]);
    assert((p.reverse() + q).last() == s[n - 1] && (p.reverse() + q).first() == s[e]);
}

/// The 2-opt twist theorem: reversing the arc from `i + 1` round to `j`
/// changes the penalised tour cost by exactly the reconnection delta of the
/// edges leaving positions `i` and `j`.
pub proof fn lemma_twist_cost_delta(
    dist: SymmetricMatrix,
    pen: Map<(int, int), i32>,
    lambda: int,
    s: Seq<usize>,
    i: int,
    j: int,
)
    requires
        dist.wf(),
        pen_symmetric(pen, dist.spec_size()),
        s.len() == dist.spec_size(),
        forall|k: int| 0 <= k < s.len() ==> (#[trigger] s[k]) < s.len(),
        s.len() >= 2,
        0 <= i < s.len(),
        0 <= j < s.len(),
        i != j,
    ensures
        ptour(
            dist,
            pen,
            lambda,
            crate::types::path::spec_twist(
                s,
                if i + 1 == s.len() {
                    0int
                } else {
                    i + 1
                },
                j,
            ),
        ) == ptour(dist, pen, lambda, s) + twist_delta(dist, pen, lambda, s, i, j),
{
    let n = s.len() as int;
    let r = if i + 1 == n {
        0int
    } else {
        i + 1
    };
    let e = if j >= r {
        j - r
    } else {
        j + n - r
    };
    let sr = crate::types::path::rotated(s, r);
    let tw = crate::types::path::spec_twist(s, r, j);
    // The rotated frame: the reversed arc becomes the prefix `0 ..= e`.
    assert(0 <= e <= n - 2);
    assert forall|k: int| 0 <= k < n implies crate::types::path::rotated(tw, r)[k]
        == crate::types::path::spec_twist(sr, 0, e)[k] by {
        lemma_rot_twist_index(s, r, j, e, k);
    }
    assert(crate::types::path::rotated(tw, r) =~= crate::types::path::spec_twist(sr, 0, e));
    lemma_ptour_rotate(dist, pen, lambda, tw, r);
    lemma_ptour_rotate(dist, pen, lambda, s, r);
    assert forall|k: int| 0 <= k < n implies (#[trigger] sr[k]) < dist.spec_size() by {}
    lemma_prefix_rev_delta(dist, pen, lambda, sr, e);
    // The four vertices named by the delta are the same in both frames.
    assert(sr[n - 1] == s[i]);
    assert(sr[0] == s[r]);
    assert(sr[e] == s[j]);
    assert(sr[e + 1] == s[
        if j + 1 == n {
            0int
        } else {
            j + 1
        }
    ]);
    assert(twist_delta(dist, pen, lambda, sr, n - 1, e) == twist_delta(dist, pen, lambda, s, i, j));
}

/// Rotating after a twist is the same as twisting the prefix of the
/// rotation, position by position.
proof fn lemma_rot_twist_index(s: Seq<usize>, r: int, j: int, e: int, k: int)
    requires
        s.len() >= 2,
        0 <= r < s.len(),
        0 <= j < s.len(),
        e == (if j >= r {
            j - r
        } else {
            j + s.len() - r
        }),
        e <= s.len() - 2,
        0 <= k < s.len(),
    ensures
        crate::types::path::rotated(crate::types::path::spec_twist(s, r, j), r)[k]
            == crate::types::path::spec_twist(crate::types::path::rotated(s, r), 0, e)[k],
{
    let n = s.len() as int;
    let tw = crate::types::path::spec_twist(s, r, j);
    let sr = crate::types::path::rotated(s, r);
    let k2 = if k + r < n {
        k + r
    } else {
        k + r - n
    };
    assert(crate::types::path::rotated(tw, r)[k] == tw[k2]);
    assert(tw.len() == n);
    crate::types::path::lemma_wrap_is_mod(r + j - k2, n);
    if k <= e {
        assert(crate::types::path::in_twist_arc(n, r, j, k2));
        let m = crate::types::path::wrap_idx(r + j - k2, n);
        assert(tw[k2] == s[m]);
        // The mirror within the rotated prefix reads the same vertex.
        crate::types::path::lemma_wrap_is_mod(e - k, n);
        assert(crate::types::path::spec_twist(sr, 0, e)[k] == sr[e - k]);
        let m2 = if e - k + r < n {
            e - k + r
        } else {
            e - k + r - n
        };
        assert(sr[e - k] == s[m2]);
        assert(m == m2);
    } else {
        assert(!crate::types::path::in_twist_arc(n, r, j, k2));
        assert(tw[k2] == s[k2]);
        assert(crate::types::path::spec_twist(sr, 0, e)[k] == sr[k]);
        assert(sr[k] == s[k2]);
    }
}

} // verus!
