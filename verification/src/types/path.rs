//! An ordered cyclic sequence of vertex indices: indexing, edge iteration,
//! and the 2-opt segment reversal (`twist`), including reversal of a segment
//! that wraps around the cycle boundary.

use vstd::prelude::*;

verus! {

/// A Hamiltonian sequence: every entry is a vertex index below the length,
/// and no vertex appears twice. Together with the length this makes the
/// sequence a permutation of `0 .. len`.
pub open spec fn hamiltonian(s: Seq<usize>) -> bool {
    &&& forall|k: int| 0 <= k < s.len() ==> (#[trigger] s[k]) < s.len()
    &&& forall|k1: int, k2: int| 0 <= k1 < k2 < s.len() ==> s[k1] != s[k2]
}

/// The edges of the cycle `s[0] -> s[1] -> ... -> s[len-1] -> s[0]`.
pub open spec fn edges_of(s: Seq<usize>) -> Seq<(usize, usize)> {
    Seq::new(
        s.len(),
        |k: int|
            (
                s[k],
                s[
                    if k + 1 == s.len() {
                        0int
                    } else {
                        k + 1
                    }
                ],
            ),
    )
}

/// Whether position `k` lies on the cyclic arc that runs forward from
/// position `i` to position `j`.
pub open spec fn in_twist_arc(len: int, i: int, j: int, k: int) -> bool {
    if i <= j {
        i <= k <= j
    } else {
        k >= i || k <= j
    }
}

/// The length of the cyclic arc that runs forward from `i` to `j`.
pub open spec fn arc_len(len: int, i: int, j: int) -> int {
    if i <= j {
        j - i + 1
    } else {
        len - i + j + 1
    }
}

/// The path after the arc from position `i` forward to position `j` is
/// reversed in place: a position on the arc takes the value from its mirror
/// position `(i + j - k) mod len`, every other position keeps its value.
pub open spec fn spec_twist(s: Seq<usize>, i: int, j: int) -> Seq<usize> {
    Seq::new(
        s.len(),
        |k: int|
            if in_twist_arc(s.len() as int, i, j, k) {
                s[(i + j - k) % (s.len() as int)]
            } else {
                s[k]
            },
    )
}

/// How far along the arc starting at `i` a position `k` sits.
spec fn arc_off(len: int, i: int, k: int) -> int {
    if k >= i {
        k - i
    } else {
        k + len - i
    }
}

/// The cyclic rotation of a path that starts it at position `r`.
pub open spec fn rotated(s: Seq<usize>, r: int) -> Seq<usize> {
    s.skip(r) + s.take(r)
}

/// Wraps a value from `(-len, 2*len)` into `[0, len)`.
pub open spec fn wrap_idx(x: int, len: int) -> int {
    if x < 0 {
        x + len
    } else if x >= len {
        x - len
    } else {
        x
    }
}

pub proof fn lemma_wrap_is_mod(x: int, len: int)
    by (nonlinear_arith)
    requires
        len > 0,
        -len <= x < 2 * len,
    ensures
        x % len == wrap_idx(x, len),
{
}

/// The state of the path while the arc from `i` to `j` is being reversed:
/// the first `t` positions of the arc and the last `t` hold their final
/// values, the rest still hold their old ones.
spec fn twist_mid(s: Seq<usize>, i: int, j: int, t: int, k: int) -> usize {
    let n = s.len() as int;
    if in_twist_arc(n, i, j, k) && (arc_off(n, i, k) < t || arc_off(n, i, k) > arc_len(n, i, j) - 1
        - t) {
        s[wrap_idx(i + j - k, n)]
    } else {
        s[k]
    }
}

/// Some vertex before position `k` equals the vertex at `k`.
pub open spec fn dup_before(s: Seq<usize>, k: int) -> bool {
    exists|l: int| 0 <= l < k && s[l] == s[k]
}

#[derive(Debug, PartialEq, Eq, Structural)]
pub enum HamiltonianResult {
    Valid,
    VisitedTwice(usize),
}

#[derive(Debug)]
pub struct Path(Vec<usize>);

impl View for Path {
    type V = Seq<usize>;

    closed spec fn view(&self) -> Seq<usize> {
        self.0@
    }
}

impl PartialEq for Path {
    fn eq(&self, other: &Path) -> (r: bool) {
        if self.0.len() != other.0.len() {
            return false;
        }
        let n = self.0.len();
        let mut k: usize = 0;
        while k < n
            invariant
                n == self.0@.len() == other.0@.len(),
                k <= n,
                forall|l: int| 0 <= l < k ==> self.0@[l] == other.0@[l],
            decreases n - k,
        {
            if self.0[k] != other.0[k] {
                return false;
            }
            k += 1;
        }
        proof {
            assert(self.0@ =~= other.0@);
        }
        true
    }
}

impl Eq for Path {

}

impl vstd::std_specs::cmp::PartialEqSpecImpl for Path {
    open spec fn obeys_eq_spec() -> bool {
        true
    }

    open spec fn eq_spec(&self, other: &Path) -> bool {
        self@ == other@
    }
}

impl Path {
    pub fn new(path: Vec<usize>) -> (r: Self)
        requires
            path@.len() >= 2,
        ensures
            r@ == path@,
    {
        Self(path)
    }

    pub fn from_size(size: usize) -> (r: Self)
        requires
            size >= 2,
        ensures
            r@.len() == size,
            forall|k: int| 0 <= k < size ==> r@[k] == 0,
    {
        Self::new(vec![0usize; size])
    }

    pub fn is_empty(&self) -> (r: bool)
        ensures
            r == (self@.len() == 0),
    {
        self.0.is_empty()
    }

    pub fn len(&self) -> (r: usize)
        ensures
            r == self@.len(),
    {
        self.0.len()
    }

    /// The vertex at position `k`.
    pub fn get(&self, k: usize) -> (r: usize)
        requires
            k < self@.len(),
        ensures
            r == self@[k as int],
    {
        self.0[k]
    }

    pub(crate) fn set(&mut self, k: usize, v: usize)
        requires
            k < old(self)@.len(),
        ensures
            final(self)@ == old(self)@.update(k as int, v),
    {
        self.0[k] = v;
    }

    /// The identity tour `0, 1, ..., size - 1`.
    pub fn sequential(size: usize) -> (r: Self)
        requires
            size >= 2,
        ensures
            r@.len() == size,
            forall|k: int| 0 <= k < size ==> r@[k] == k,
            hamiltonian(r@),
    {
        let mut path: Vec<usize> = Vec::new();
        let mut k: usize = 0;
        while k < size
            invariant
                k <= size,
                path@.len() == k,
                forall|l: int| 0 <= l < k ==> path@[l] == l,
            decreases size - k,
        {
            path.push(k);
            k += 1;
        }
        Self::new(path)
    }

    /// Walks the path and reports the first vertex that is visited twice,
    /// or `Valid` where every vertex appears at most once.
    pub fn check_hamiltonian(&self) -> (r: HamiltonianResult)
        requires
            forall|k: int| 0 <= k < self@.len() ==> (#[trigger] self@[k]) < self@.len(),
        ensures
            match r {
                HamiltonianResult::Valid => forall|k: int|
                    0 <= k < self@.len() ==> !dup_before(self@, k),
                HamiltonianResult::VisitedTwice(v) => exists|k: int|
                    0 <= k < self@.len() && #[trigger] dup_before(self@, k) && self@[k] == v && (
                    forall|l: int| 0 <= l < k ==> !dup_before(self@, l)),
            },
    {
        let n = self.0.len();
        let mut visited: Vec<bool> = vec![false; n];
        let mut k: usize = 0;
        while k < n
            invariant
                n == self@.len(),
                k <= n,
                visited@.len() == n,
                forall|k2: int| 0 <= k2 < n ==> (#[trigger] self@[k2]) < n,
                forall|u: int|
                    0 <= u < n ==> (visited@[u] <==> (exists|l: int|
                        0 <= l < k && self@[l] == u)),
                forall|l: int| 0 <= l < k ==> !dup_before(self@, l),
            decreases n - k,
        {
            let vertex = self.0[k];
            if visited[vertex] {
                proof {
                    assert(exists|l: int| 0 <= l < k && self@[l] == self@[k as int]);
                    assert(dup_before(self@, k as int));
                }
                return HamiltonianResult::VisitedTwice(vertex);
            }
            visited[vertex] = true;
            proof {
                assert forall|u: int|
                    0 <= u < n implies (visited@[u] <==> (exists|l: int|
                    0 <= l < k + 1 && self@[l] == u)) by {
                    if u == vertex {
                        assert(self@[k as int] == u);
                    }
                }
            }
            k += 1;
        }
        HamiltonianResult::Valid
    }

    /// Whether the path is a Hamiltonian cycle over its own length.
    pub fn is_hamiltonian(&self) -> (r: bool)
        requires
            forall|k: int| 0 <= k < self@.len() ==> (#[trigger] self@[k]) < self@.len(),
        ensures
            r == hamiltonian(self@),
    {
        let r = self.check_hamiltonian();
        let ok = match r {
            HamiltonianResult::Valid => true,
            HamiltonianResult::VisitedTwice(_) => false,
        };
        proof {
            if ok {
                assert forall|k1: int, k2: int| 0 <= k1 < k2 < self@.len() implies self@[k1]
                    != self@[k2] by {
                    if self@[k1] == self@[k2] {
                        assert(dup_before(self@, k2));
                    }
                }
            } else {
                let k = choose|k: int|
                    0 <= k < self@.len() && #[trigger] dup_before(self@, k) && (forall|l: int|
                        0 <= l < k ==> !dup_before(self@, l));
                let l = choose|l: int| 0 <= l < k && self@[l] == self@[k];
                assert(!hamiltonian(self@));
            }
        }
        ok
    }

    /// The edges of the cycle, each vertex paired with the next and the
    /// last with the first.
    pub fn edges(&self) -> (r: Vec<(usize, usize)>)
        requires
            self@.len() >= 1,
        ensures
            r@ == edges_of(self@),
    {
        let n = self.0.len();
        let mut r: Vec<(usize, usize)> = Vec::new();
        let mut k: usize = 0;
        while k < n
            invariant
                n == self@.len(),
                k <= n,
                r@ =~= edges_of(self@).take(k as int),
            decreases n - k,
        {
            let next = if k + 1 == n {
                0
            } else {
                k + 1
            };
            r.push((self.0[k], self.0[next]));
            proof {
                assert(r@ =~= edges_of(self@).take(k + 1));
            }
            k += 1;
        }
        proof {
            assert(edges_of(self@).take(n as int) =~= edges_of(self@));
        }
        r
    }

    /// Reverses the positions from `i` to `j`, both inclusive. With `i <= j`
    /// the segment lies inside the sequence; with `i > j` it runs forward
    /// from `i` across the cycle boundary round to `j`.
    pub fn twist(&mut self, i: usize, j: usize)
        requires
            i < old(self)@.len(),
            j < old(self)@.len(),
        ensures
            final(self)@ == spec_twist(old(self)@, i as int, j as int),
            final(self)@.len() == old(self)@.len(),
    {
        let n = self.0.len();
        let ghost s0 = self.0@;
        if i <= j {
            let mut a = i;
            let mut b = j;
            while a < b
                invariant
                    n == self.0@.len(),
                    s0.len() == n,
                    i <= a,
                    b <= j,
                    j < n,
                    a + b == i + j,
                    a <= b + 1,
                    forall|k: int|
                        0 <= k < n ==> self.0@[k] == (if i <= k < a || b < k <= j {
                            s0[i + j - k]
                        } else {
                            s0[k]
                        }),
                decreases j - a,
            {
                let va = self.0[a];
                let vb = self.0[b];
                self.0[a] = vb;
                self.0[b] = va;
                a += 1;
                b -= 1;
            }
            proof {
                assert forall|k: int| 0 <= k < n implies self.0@[k] == spec_twist(
                    s0,
                    i as int,
                    j as int,
                )[k] by {
                    if i <= k <= j {
                        lemma_wrap_is_mod(i + j - k, n as int);
                    }
                }
                assert(self.0@ =~= spec_twist(s0, i as int, j as int));
            }
        } else {
            // The segment wraps around the cycle boundary; walk the two ends
            // toward the middle of the arc.
            let seg = n - (i - j + 1);
            let swaps = (seg + 2) / 2;
            let ghost arc = arc_len(n as int, i as int, j as int);
            let mut a = i;
            let mut b = j;
            let mut t: usize = 0;
            proof {
                assert(arc == seg + 2);
                assert(swaps == arc / 2);
            }
            while t < swaps
                invariant
                    n == self.0@.len(),
                    s0.len() == n,
                    j < i < n,
                    arc == arc_len(n as int, i as int, j as int),
                    arc == n - i + j + 1,
                    2 <= arc <= n,
                    swaps == arc / 2,
                    t <= swaps,
                    a == (if i + t < n {
                        i + t
                    } else {
                        i + t - n
                    }),
                    b == (if t <= j {
                        j - t
                    } else {
                        j + n - t
                    }),
                    forall|k: int|
                        0 <= k < n ==> self.0@[k] == twist_mid(s0, i as int, j as int, t as int, k),
                decreases swaps - t,
            {
                proof {
                    lemma_twist_wrap_step(s0, i as int, j as int, t as int, a as int, b as int);
                }
                let va = self.0[a];
                let vb = self.0[b];
                self.0[a] = vb;
                self.0[b] = va;
                proof {
                    assert forall|k: int|
                        0 <= k < n implies self.0@[k] == twist_mid(
                        s0,
                        i as int,
                        j as int,
                        t + 1,
                        k,
                    ) by {
                        lemma_twist_wrap_cover(s0, i as int, j as int, t as int, k);
                    }
                }
                a = if a + 1 < n {
                    a + 1
                } else {
                    0
                };
                b = if b > 0 {
                    b - 1
                } else {
                    n - 1
                };
                t += 1;
            }
            proof {
                assert forall|k: int| 0 <= k < n implies self.0@[k] == spec_twist(
                    s0,
                    i as int,
                    j as int,
                )[k] by {
                    lemma_twist_wrap_final(s0, i as int, j as int, t as int, k);
                }
                assert(self.0@ =~= spec_twist(s0, i as int, j as int));
            }
        }
    }
}

/// The pairs contributed by position `i`: `s[i]` against each later vertex,
/// the nearest `skip` of them left out.
pub open spec fn interp_row(s: Seq<usize>, skip: int, i: int) -> Seq<(usize, usize)> {
    Seq::new(
        if s.len() >= i + 1 + skip {
            (s.len() - i - 1 - skip) as nat
        } else {
            0
        },
        |t: int| (s[i], s[i + 1 + skip + t]),
    )
}

/// The pair rows of the positions before `i`, in order.
pub open spec fn interp_upto(s: Seq<usize>, skip: int, i: int) -> Seq<(usize, usize)>
    decreases i,
{
    if i <= 0 {
        Seq::empty()
    } else {
        interp_upto(s, skip, i - 1) + interp_row(s, skip, i - 1)
    }
}

/// All pairs `(s[i], s[j])` with `j >= i + 1 + skip`, in lexicographic
/// order of `(i, j)`.
pub open spec fn interp_edges_of(s: Seq<usize>, skip: int) -> Seq<(usize, usize)> {
    interp_upto(s, skip, s.len() as int)
}

impl Path {
    /// All pairs of a vertex with a later one, skipping the nearest `skip`
    /// vertices after each, in lexicographic order of positions.
    pub fn interpolate_edges(&self, skip: usize) -> (r: Vec<(usize, usize)>)
        ensures
            r@ == interp_edges_of(self@, skip as int),
    {
        let n = self.0.len();
        let mut r: Vec<(usize, usize)> = Vec::new();
        let mut i: usize = 0;
        while i < n
            invariant
                n == self@.len(),
                i <= n,
                r@ =~= interp_upto(self@, skip as int, i as int),
            decreases n - i,
        {
            let base = i + 1;
            if skip <= n - base {
                let mut j: usize = base + skip;
                while j < n
                    invariant
                        n == self@.len(),
                        i < n,
                        base == i + 1,
                        skip <= n - base,
                        base + skip <= j <= n,
                        r@ =~= interp_upto(self@, skip as int, i as int) + interp_row(
                            self@,
                            skip as int,
                            i as int,
                        ).take(j - (base + skip)),
                    decreases n - j,
                {
                    r.push((self.0[i], self.0[j]));
                    proof {
                        assert(r@ =~= interp_upto(self@, skip as int, i as int) + interp_row(
                            self@,
                            skip as int,
                            i as int,
                        ).take(j + 1 - (base + skip)));
                    }
                    j += 1;
                }
                proof {
                    assert(interp_row(self@, skip as int, i as int).take(n - (base + skip)) =~= interp_row(
                        self@,
                        skip as int,
                        i as int,
                    ));
                }
            } else {
                proof {
                    assert(interp_row(self@, skip as int, i as int) =~= Seq::<
                        (usize, usize),
                    >::empty());
                }
            }
            proof {
                assert(r@ =~= interp_upto(self@, skip as int, i + 1));
            }
            i += 1;
        }
    r
    }
}

/// Reversing the same arc twice restores the path.
pub proof fn lemma_twist_involution(s: Seq<usize>, i: int, j: int)
    requires
        0 <= i < s.len(),
        0 <= j < s.len(),
    ensures
        spec_twist(spec_twist(s, i, j), i, j) == s,
{
    let n = s.len() as int;
    let s1 = spec_twist(s, i, j);
    assert forall|k: int| 0 <= k < n implies spec_twist(s1, i, j)[k] == s[k] by {
        if in_twist_arc(n, i, j, k) {
            lemma_wrap_is_mod(i + j - k, n);
            let m = wrap_idx(i + j - k, n);
            assert(in_twist_arc(n, i, j, m));
            lemma_wrap_is_mod(i + j - m, n);
            assert(wrap_idx(i + j - m, n) == k);
        }
    }
    assert(spec_twist(s1, i, j) =~= s);
}

/// A twist permutes the positions, so a Hamiltonian path stays Hamiltonian.
pub proof fn lemma_twist_preserves_hamiltonian(s: Seq<usize>, i: int, j: int)
    requires
        0 <= i < s.len(),
        0 <= j < s.len(),
        hamiltonian(s),
    ensures
        hamiltonian(spec_twist(s, i, j)),
{
    let n = s.len() as int;
    let t = spec_twist(s, i, j);
    assert forall|k: int| 0 <= k < n implies (#[trigger] t[k]) < n by {
        if in_twist_arc(n, i, j, k) {
            lemma_wrap_is_mod(i + j - k, n);
        }
    }
    assert forall|k1: int, k2: int| 0 <= k1 < k2 < n implies t[k1] != t[k2] by {
        let m1 = if in_twist_arc(n, i, j, k1) {
            wrap_idx(i + j - k1, n)
        } else {
            k1
        };
        let m2 = if in_twist_arc(n, i, j, k2) {
            wrap_idx(i + j - k2, n)
        } else {
            k2
        };
        if in_twist_arc(n, i, j, k1) {
            lemma_wrap_is_mod(i + j - k1, n);
            assert(in_twist_arc(n, i, j, m1));
        }
        if in_twist_arc(n, i, j, k2) {
            lemma_wrap_is_mod(i + j - k2, n);
            assert(in_twist_arc(n, i, j, m2));
        }
        assert(t[k1] == s[m1] && t[k2] == s[m2]);
        assert(m1 != m2);
    }
}

/// A Hamiltonian path of length `n` carries every vertex of `0 .. n`: in-range
/// entries without repeats leave no room to miss one.
pub proof fn lemma_hamiltonian_complete(s: Seq<usize>)
    requires
        hamiltonian(s),
    ensures
        forall|v: usize| v < s.len() ==> #[trigger] s.contains(v),
{
    let n = s.len() as int;
    let si = s.map_values(|v: usize| v as int);
    assert(si.len() == n);
    assert forall|k1: int, k2: int| 0 <= k1 < k2 < n implies si[k1] != si[k2] by {
        assert(s[k1] != s[k2]);
    }
    assert(si.no_duplicates());
    si.unique_seq_to_set();
    let img = si.to_set();
    let range = vstd::set_lib::set_int_range(0, n);
    vstd::set_lib::lemma_int_range(0, n);
    assert forall|v: int| img.contains(v) implies range.contains(v) by {
        let k = choose|k: int| 0 <= k < si.len() && si[k] == v;
        assert(s[k] < n);
    }
    vstd::set_lib::lemma_subset_equality(img, range);
    assert forall|v: usize| v < s.len() implies #[trigger] s.contains(v) by {
        assert(range.contains(v as int));
        assert(img.contains(v as int));
        let k = choose|k: int| 0 <= k < si.len() && si[k] == v as int;
        assert(s[k] == v);
    }
}

/// At step `t` of the wrap-around reversal the two cursors sit at arc
/// offsets `t` and `arc - 1 - t`, still holding their old values, and each
/// is the other's mirror position.
proof fn lemma_twist_wrap_step(s: Seq<usize>, i: int, j: int, t: int, a: int, b: int)
    requires
        s.len() >= 2,
        0 <= j < i < s.len(),
        0 <= t < arc_len(s.len() as int, i, j) / 2,
        a == (if i + t < s.len() {
            i + t
        } else {
            i + t - s.len()
        }),
        b == (if t <= j {
            j - t
        } else {
            j + s.len() - t
        }),
    ensures
        0 <= a < s.len(),
        0 <= b < s.len(),
        a != b,
        in_twist_arc(s.len() as int, i, j, a),
        in_twist_arc(s.len() as int, i, j, b),
        arc_off(s.len() as int, i, a) == t,
        arc_off(s.len() as int, i, b) == arc_len(s.len() as int, i, j) - 1 - t,
        wrap_idx(i + j - a, s.len() as int) == b,
        wrap_idx(i + j - b, s.len() as int) == a,
        twist_mid(s, i, j, t, a) == s[a],
        twist_mid(s, i, j, t, b) == s[b],
{
    let n = s.len() as int;
    let arc = arc_len(n, i, j);
    assert(arc == n - i + j + 1);
    assert(2 * t < arc);
}

/// One swap of the mirror pair at offsets `t` and `arc - 1 - t` advances the
/// reversal by one step at every position.
proof fn lemma_twist_wrap_cover(s: Seq<usize>, i: int, j: int, t: int, k: int)
    requires
        s.len() >= 2,
        0 <= j < i < s.len(),
        0 <= t < arc_len(s.len() as int, i, j) / 2,
        0 <= k < s.len(),
    ensures
        ({
            let n = s.len() as int;
            let a = if i + t < n {
                i + t
            } else {
                i + t - n
            };
            let b = if t <= j {
                j - t
            } else {
                j + n - t
            };
            &&& (k != a && k != b ==> twist_mid(s, i, j, t + 1, k) == twist_mid(s, i, j, t, k))
            &&& (k == a ==> twist_mid(s, i, j, t + 1, k) == s[b])
            &&& (k == b ==> twist_mid(s, i, j, t + 1, k) == s[a])
        }),
{
    let n = s.len() as int;
    let arc = arc_len(n, i, j);
    let a = if i + t < n {
        i + t
    } else {
        i + t - n
    };
    let b = if t <= j {
        j - t
    } else {
        j + n - t
    };
    lemma_twist_wrap_step(s, i, j, t, a, b);
    if k != a && k != b {
        if in_twist_arc(n, i, j, k) {
            // Only the positions at offsets `t` and `arc - 1 - t` change.
            assert(arc_off(n, i, k) != t);
            assert(arc_off(n, i, k) != arc - 1 - t);
        }
    }
}

/// When the cursors meet in the middle, every arc position has been
/// reversed; an odd middle position is its own mirror.
proof fn lemma_twist_wrap_final(s: Seq<usize>, i: int, j: int, t: int, k: int)
    requires
        s.len() >= 2,
        0 <= j < i < s.len(),
        t == arc_len(s.len() as int, i, j) / 2,
        0 <= k < s.len(),
    ensures
        twist_mid(s, i, j, t, k) == spec_twist(s, i, j)[k],
{
    let n = s.len() as int;
    let arc = arc_len(n, i, j);
    if in_twist_arc(n, i, j, k) {
        lemma_wrap_is_mod(i + j - k, n);
        let off = arc_off(n, i, k);
        if off < t || off > arc - 1 - t {
        } else {
            // The middle of an odd arc: its mirror is itself.
            assert(arc == 2 * t + 1);
            assert(off == t);
            assert(wrap_idx(i + j - k, n) == k);
        }
    }
}

} // verus!
