use vstd::prelude::*;

use crate::distance::{
    city_in_range, dist_of, mat_at, mat_get, matrix_ok, City, DIST_LIMIT,
};

verus! {

/// `t` visits each of the `n` vertices exactly once.
pub open spec fn is_perm(t: Seq<usize>, n: nat) -> bool {
    &&& t.len() == n
    &&& forall|k: int| 0 <= k < t.len() ==> #[trigger] t[k] < n
    &&& forall|k1: int, k2: int| 0 <= k1 < k2 < t.len() ==> t[k1] != t[k2]
    &&& forall|v: usize| v < n ==> t.contains(v)
}

/// The subsequence of `w` that keeps only the first visit of each
/// vertex: the Hamiltonian shortcut of a walk.
pub open spec fn first_visits(w: Seq<usize>) -> Seq<usize>
    decreases w.len(),
{
    if w.len() == 0 {
        Seq::empty()
    } else {
        let p = first_visits(w.drop_last());
        if p.contains(w.last()) {
            p
        } else {
            p.push(w.last())
        }
    }
}

/// The cost of the first `k` edges of the closed tour `t`: edge `e`
/// joins `t[e]` to `t[e + 1]`, and the last edge returns to `t[0]`.
pub open spec fn tour_cost_prefix(cities: Seq<City>, t: Seq<usize>, k: int) -> int
    decreases k,
{
    if k <= 0 {
        0
    } else {
        tour_cost_prefix(cities, t, k - 1) + dist_of(
            cities[t[k - 1] as int],
            cities[t[if k == t.len() {
                0int
            } else {
                k
            }] as int],
        )
    }
}

/// The total length of the closed tour `t`: the sum of the distances
/// between consecutive cities, including the wrap-around edge.
pub open spec fn tour_cost(cities: Seq<City>, t: Seq<usize>) -> int {
    tour_cost_prefix(cities, t, t.len() as int)
}

pub proof fn lemma_tour_cost_prefix_bound(
    n: nat,
    cities: Seq<City>,
    graph: Seq<u64>,
    t: Seq<usize>,
    k: int,
)
    requires
        matrix_ok(n, cities, graph),
        t.len() == n,
        forall|i: int| 0 <= i < t.len() ==> #[trigger] t[i] < n,
        0 <= k <= t.len(),
    ensures
        0 <= tour_cost_prefix(cities, t, k) <= k * (DIST_LIMIT as int),
    decreases k,
{
    if k > 0 {
        lemma_tour_cost_prefix_bound(n, cities, graph, t, k - 1);
        let j: int = if k == t.len() {
            0int
        } else {
            k
        };
        assert(mat_at(n, graph, t[k - 1] as int, t[j] as int) == dist_of(
            cities[t[k - 1] as int],
            cities[t[j] as int],
        ));
    }
}

/// The exact length of the closed tour `t` over a prepared distance
/// matrix.
pub fn path_cost(n: usize, cities: &Vec<City>, graph: &Vec<u64>, t: &Vec<usize>) -> (c: u64)
    requires
        matrix_ok(n as nat, cities@, graph@),
        t@.len() == n,
        forall|k: int| 0 <= k < t@.len() ==> #[trigger] t@[k] < n,
    ensures
        c as int == tour_cost(cities@, t@),
{
    let mut c: u64 = 0;
    let mut i: usize = 0;
    let gl: usize = graph.len();
    proof {
        assert(gl as int == (n as int) * (n as int));
        assert((n as int) * (n as int) <= usize::MAX as int);
    }
    while i < n
        invariant
            i <= n,
            matrix_ok(n as nat, cities@, graph@),
            (n as int) * (n as int) <= usize::MAX as int,
            t@.len() == n,
            forall|k: int| 0 <= k < t@.len() ==> #[trigger] t@[k] < n,
            c as int == tour_cost_prefix(cities@, t@, i as int),
            c as int <= (i as int) * (DIST_LIMIT as int),
        decreases n - i,
    {
        let nxt: usize = if i + 1 == n {
            0
        } else {
            i + 1
        };
        let w: u64 = mat_get(n, graph, t[i], t[nxt]);
        proof {
            lemma_tour_cost_prefix_bound(n as nat, cities@, graph@, t@, i as int + 1);
        }
        c = c + w;
        i = i + 1;
    }
    c
}

/// The tour obtained from `t` by reversing the segment of positions
/// `i..=j` and keeping everything else in place: the 2-opt move.
pub open spec fn reversed_seg(t: Seq<usize>, i: int, j: int) -> Seq<usize> {
    Seq::new(t.len(), |k: int| if k < i || k > j {
        t[k]
    } else {
        t[i + j - k]
    })
}

/// A 2-opt move keeps the tour a permutation.
pub proof fn lemma_reversed_perm(t: Seq<usize>, n: nat, i: int, j: int)
    requires
        is_perm(t, n),
        0 <= i <= j < t.len(),
    ensures
        is_perm(reversed_seg(t, i, j), n),
{
    let r = reversed_seg(t, i, j);
    assert(r.len() == n);
    assert forall|k: int| 0 <= k < r.len() implies #[trigger] r[k] < n by {
        if k < i || k > j {
            assert(r[k] == t[k]);
        } else {
            assert(r[k] == t[i + j - k]);
        }
    }
    assert forall|k1: int, k2: int| 0 <= k1 < k2 < r.len() implies r[k1] != r[k2] by {
        let m1: int = if k1 < i || k1 > j {
            k1
        } else {
            i + j - k1
        };
        let m2: int = if k2 < i || k2 > j {
            k2
        } else {
            i + j - k2
        };
        assert(r[k1] == t[m1] && r[k2] == t[m2]);
        assert(m1 != m2);
        if m1 < m2 {
            assert(t[m1] != t[m2]);
        } else {
            assert(t[m2] != t[m1]);
        }
    }
    assert forall|v: usize| v < n implies r.contains(v) by {
        assert(t.contains(v));
        let k = choose|k: int| 0 <= k < t.len() && t[k] == v;
        let m: int = if k < i || k > j {
            k
        } else {
            i + j - k
        };
        assert(r[m] == t[k]);
        assert(r.contains(v));
    }
}

/// Reverses the segment of positions `i..=j` of `v` in place.
pub fn reverse_segment(v: &mut Vec<usize>, i: usize, j: usize)
    requires
        i <= j,
        (j as int) < old(v)@.len(),
    ensures
        final(v)@ == reversed_seg(old(v)@, i as int, j as int),
{
    let ghost t0 = v@;
    let mut a: usize = i;
    let mut b: usize = j;
    while a < b
        invariant
            i <= a,
            b <= j,
            (j as int) < v@.len(),
            v@.len() == t0.len(),
            a + b == i + j,
            forall|k: int|
                0 <= k < v@.len() && (k < i || k > j) ==> #[trigger] v@[k] == t0[k],
            forall|k: int| i <= k < a ==> #[trigger] v@[k] == t0[i + j - k],
            forall|k: int| b < k <= j ==> #[trigger] v@[k] == t0[i + j - k],
            forall|k: int| a <= k <= b ==> #[trigger] v@[k] == t0[k],
        decreases b + 1 - a,
    {
        let x: usize = v[a];
        let y: usize = v[b];
        v.set(a, y);
        v.set(b, x);
        a = a + 1;
        b = b - 1;
    }
    proof {
        assert(v@ =~= reversed_seg(t0, i as int, j as int));
    }
}

} // verus!
