use vstd::prelude::*;

use crate::distance::{
    build_matrix, city_distance, city_in_range, dist_of, mat_at, mat_get, matrix_ok, City,
    DIST_LIMIT,
};
use crate::errors::TspError;
use crate::graph::{
    copy_rows, deg_sum, lemma_deg_sum_all_empty, lemma_deg_sum_congruence, lemma_deg_sum_nonneg,
    lemma_deg_sum_pointwise_le, lemma_deg_sum_prefix_le, lemma_deg_sum_row_le, lemma_deg_sum_zero,
    lemma_num_odd_parity, lemma_num_true_except, lemma_num_true_full, lemma_num_true_none,
    lemma_num_true_nonneg, lemma_num_true_partial, lemma_num_true_set, lemma_row_count_remove,
    num_odd, num_true, row_count, lemma_row_count_push, row_pop, row_push, row_remove_first, step_count,
};
use crate::tour::{first_visits, is_perm, path_cost, tour_cost};

verus! {

/// The construction phase of the solver: a distance matrix, a minimum
/// spanning tree, a greedy pairing of odd-degree vertices, and an
/// Eulerian walk shortcut into a Hamiltonian tour.
pub struct Christofides {
    /// Number of cities.
    pub n: usize,
    /// The cities, indexed by vertex number.
    pub cities: Vec<City>,
    /// Flattened n-by-n matrix of pairwise distances.
    pub graph: Vec<u64>,
    /// Adjacency rows of the working multigraph; parallel edges appear
    /// as repeated entries, and every undirected edge appears once in
    /// each endpoint's row.
    pub adj_list: Vec<Vec<usize>>,
    /// The vertices of odd degree found in the spanning tree.
    pub odds: Vec<usize>,
}

impl Christofides {
    /// The city list is consistent with `n` and fits the fixed-point
    /// coordinate model.
    pub open spec fn cities_ok(self) -> bool {
        &&& self.n == self.cities@.len()
        &&& (self.n as int) * (self.n as int) <= usize::MAX as int
        &&& self.n <= 0x1_0000_0000
        &&& forall|k: int| 0 <= k < self.cities@.len() ==> city_in_range(#[trigger] self.cities@[k])
    }

    /// The distance matrix holds the pairwise distances of the cities.
    pub open spec fn matrix_built(self) -> bool {
        matrix_ok(self.n as nat, self.cities@, self.graph@)
    }

    /// The adjacency rows cover exactly the `n` vertices and mention
    /// only valid vertices.
    pub open spec fn adj_ok(self) -> bool {
        &&& self.adj_list@.len() == self.n
        &&& forall|v: int, k: int|
            0 <= v < self.adj_list@.len() && 0 <= k < self.adj_list@[v]@.len()
                ==> #[trigger] self.adj_list@[v]@[k] < self.n
    }

    /// Starts a construction over the given cities, with an empty
    /// multigraph.
    pub fn new(cities: Vec<City>) -> (s: Self)
        requires
            forall|k: int| 0 <= k < cities@.len() ==> city_in_range(#[trigger] cities@[k]),
            cities@.len() * cities@.len() <= usize::MAX as int,
            cities@.len() <= 0x1_0000_0000,
        ensures
            s.cities@ == cities@,
            s.n == cities@.len(),
            s.cities_ok(),
            s.adj_ok(),
            forall|v: int| 0 <= v < s.adj_list@.len() ==> s.adj_list@[v]@.len() == 0,
            deg_sum(s.adj_list@) == 0,
            s.odds@.len() == 0,
            s.graph@.len() == 0,
    {
        let n: usize = cities.len();
        let mut adj: Vec<Vec<usize>> = Vec::new();
        let mut v: usize = 0;
        while v < n
            invariant
                v <= n,
                adj@.len() == v,
                forall|u: int| 0 <= u < v ==> adj@[u]@.len() == 0,
            decreases n - v,
        {
            adj.push(Vec::new());
            v = v + 1;
        }
        proof {
            lemma_deg_sum_all_empty(adj@);
        }
        Christofides { n, cities, graph: Vec::new(), adj_list: adj, odds: Vec::new() }
    }

    /// The rounded Euclidean distance between two cities.
    pub fn get_distance(&self, c1: City, c2: City) -> (r: u64)
        requires
            city_in_range(c1),
            city_in_range(c2),
        ensures
            r as int == dist_of(c1, c2),
            r <= DIST_LIMIT,
    {
        city_distance(c1, c2)
    }

    /// Computes the full pairwise distance matrix.  The matrix is
    /// symmetric and has a zero diagonal.
    pub fn fill_matrix(&mut self)
        requires
            old(self).cities_ok(),
        ensures
            final(self).n == old(self).n,
            final(self).cities@ == old(self).cities@,
            final(self).adj_list@ == old(self).adj_list@,
            final(self).odds@ == old(self).odds@,
            final(self).cities_ok(),
            final(self).matrix_built(),
            forall|i: int|
                0 <= i < final(self).n ==> #[trigger] mat_at(
                    final(self).n as nat,
                    final(self).graph@,
                    i,
                    i,
                ) == 0,
            forall|i: int, j: int|
                0 <= i < final(self).n && 0 <= j < final(self).n ==> #[trigger] mat_at(
                    final(self).n as nat,
                    final(self).graph@,
                    i,
                    j,
                ) == mat_at(final(self).n as nat, final(self).graph@, j, i),
            forall|i: int, j: int, k: int|
                #![trigger mat_at(final(self).n as nat, final(self).graph@, i, j), mat_at(final(self).n as nat, final(self).graph@, j, k)]
                0 <= i < final(self).n && 0 <= j < final(self).n && 0 <= k < final(self).n
                    ==> mat_at(final(self).n as nat, final(self).graph@, i, k) <= mat_at(
                    final(self).n as nat,
                    final(self).graph@,
                    i,
                    j,
                ) + mat_at(final(self).n as nat, final(self).graph@, j, k),
    {
        let g: Vec<u64> = build_matrix(&self.cities);
        self.graph = g;
    }

    /// Collects, in increasing order, the vertices whose current degree
    /// is odd.
    pub fn find_odds(&mut self)
        requires
            old(self).adj_ok(),
            old(self).odds@.len() == 0,
        ensures
            final(self).n == old(self).n,
            final(self).cities@ == old(self).cities@,
            final(self).graph@ == old(self).graph@,
            final(self).adj_list@ == old(self).adj_list@,
            forall|p: int|
                0 <= p < final(self).odds@.len() ==> (#[trigger] final(self).odds@[p])
                    < final(self).n
                    && final(self).adj_list@[final(self).odds@[p] as int]@.len() % 2 == 1,
            forall|p1: int, p2: int|
                0 <= p1 < p2 < final(self).odds@.len() ==> final(self).odds@[p1]
                    < final(self).odds@[p2],
            forall|v: usize|
                v < final(self).n && final(self).adj_list@[v as int]@.len() % 2 == 1
                    ==> final(self).odds@.contains(v),
            final(self).odds@.len() == num_odd(final(self).adj_list@),
    {
        let n: usize = self.n;
        let mut v: usize = 0;
        while v < n
            invariant
                v <= n,
                self.odds@.len() == num_odd(self.adj_list@.subrange(0, v as int)),
                n == self.n,
                self.n == old(self).n,
                self.cities@ == old(self).cities@,
                self.graph@ == old(self).graph@,
                self.adj_list@ == old(self).adj_list@,
                self.adj_ok(),
                forall|p: int|
                    0 <= p < self.odds@.len() ==> #[trigger] self.odds@[p] < v
                        && self.adj_list@[self.odds@[p] as int]@.len() % 2 == 1,
                forall|p1: int, p2: int|
                    0 <= p1 < p2 < self.odds@.len() ==> self.odds@[p1] < self.odds@[p2],
                forall|u: usize|
                    u < v && self.adj_list@[u as int]@.len() % 2 == 1 ==> self.odds@.contains(u),
            decreases n - v,
        {
            proof {
                assert(self.adj_list@.subrange(0, v + 1).drop_last() =~= self.adj_list@.subrange(
                    0,
                    v as int,
                ));
                assert(self.adj_list@.subrange(0, v + 1).last() == self.adj_list@[v as int]);
            }
            if self.adj_list[v].len() % 2 == 1 {
                let ghost odds0 = self.odds@;
                self.odds.push(v);
                proof {
                    assert forall|u: usize|
                        u < v + 1 && self.adj_list@[u as int]@.len() % 2 == 1 implies self
                        .odds@.contains(u) by {
                        if u < v {
                            assert(odds0.contains(u));
                            let p = choose|p: int| 0 <= p < odds0.len() && odds0[p] == u;
                            assert(self.odds@[p] == u);
                        } else {
                            assert(self.odds@[self.odds@.len() - 1] == u);
                        }
                    }
                }
            }
            v = v + 1;
        }
        proof {
            assert(self.adj_list@.subrange(0, n as int) =~= self.adj_list@);
        }
    }

    /// The not-yet-included vertex with the smallest key; earlier
    /// vertices win ties.
    pub fn get_min_index(&self, key: &Vec<u64>, included: &Vec<bool>) -> (r: usize)
        requires
            key@.len() == self.n,
            included@.len() == self.n,
            exists|v: int| 0 <= v < self.n && !included@[v] && key@[v] < u64::MAX,
        ensures
            r < self.n,
            !included@[r as int],
            key@[r as int] < u64::MAX,
            forall|v: int| 0 <= v < self.n && !included@[v] ==> key@[r as int] <= #[trigger] key@[v],
            forall|v: int| 0 <= v < r && !included@[v] ==> #[trigger] key@[v] > key@[r as int],
    {
        let n: usize = self.n;
        let mut min: u64 = u64::MAX;
        let mut min_index: usize = 0;
        let mut v: usize = 0;
        while v < n
            invariant
                v <= n,
                n == self.n,
                key@.len() == n,
                included@.len() == n,
                min == u64::MAX ==> forall|u: int|
                    0 <= u < v ==> included@[u] || #[trigger] key@[u] == u64::MAX,
                min < u64::MAX ==> min_index < v && !included@[min_index as int]
                    && key@[min_index as int] == min,
                min < u64::MAX ==> forall|u: int|
                    0 <= u < v && !included@[u] ==> min <= #[trigger] key@[u],
                min < u64::MAX ==> forall|u: int|
                    0 <= u < min_index && !included@[u] ==> #[trigger] key@[u] > min,
            decreases n - v,
        {
            if !included[v] && key[v] < min {
                min = key[v];
                min_index = v;
            }
            v = v + 1;
        }
        min_index
    }

    /// Builds a minimum spanning tree over the distance matrix with
    /// Prim's algorithm and records its n - 1 edges in the adjacency
    /// rows.
    pub fn find_mst(&mut self)
        requires
            old(self).cities_ok(),
            old(self).matrix_built(),
            old(self).adj_ok(),
            forall|v: int| 0 <= v < old(self).adj_list@.len() ==> old(self).adj_list@[v]@.len() == 0,
            old(self).n >= 1,
        ensures
            final(self).n == old(self).n,
            final(self).cities@ == old(self).cities@,
            final(self).graph@ == old(self).graph@,
            final(self).odds@ == old(self).odds@,
            final(self).cities_ok(),
            final(self).matrix_built(),
            final(self).adj_ok(),
            deg_sum(final(self).adj_list@) == 2 * (final(self).n - 1),
            forall|u: usize, w: usize|
                u < final(self).n && w < final(self).n ==> #[trigger] row_count(
                    final(self).adj_list@[u as int]@,
                    w,
                ) == row_count(final(self).adj_list@[w as int]@, u),
            forall|u: usize|
                u < final(self).n ==> #[trigger] row_count(final(self).adj_list@[u as int]@, u)
                    == 0,
    {
        let n: usize = self.n;
        let mut key: Vec<u64> = Vec::new();
        let mut included: Vec<bool> = Vec::new();
        let mut parent: Vec<usize> = Vec::new();
        let mut v: usize = 0;
        while v < n
            invariant
                v <= n,
                key@.len() == v,
                included@.len() == v,
                parent@.len() == v,
                forall|u: int| 0 <= u < v ==> #[trigger] key@[u] == u64::MAX,
                forall|u: int| 0 <= u < v ==> !(#[trigger] included@[u]),
                forall|u: int| 0 <= u < v ==> #[trigger] parent@[u] == 0,
            decreases n - v,
        {
            key.push(u64::MAX);
            included.push(false);
            parent.push(0);
            v = v + 1;
        }
        key.set(0, 0);
        proof {
            lemma_num_true_none(included@);
        }
        let mut count: usize = 0;
        while count < n - 1
            invariant
                count <= n - 1,
                n == self.n,
                n >= 1,
                self.n == old(self).n,
                self.cities@ == old(self).cities@,
                self.graph@ == old(self).graph@,
                self.adj_list@ == old(self).adj_list@,
                self.odds@ == old(self).odds@,
                self.cities_ok(),
                self.matrix_built(),
                key@.len() == n,
                included@.len() == n,
                parent@.len() == n,
                num_true(included@) == count,
                forall|u: int| 0 <= u < n ==> #[trigger] parent@[u] < n,
                forall|u: int| 1 <= u < n ==> #[trigger] parent@[u] != u,
                count == 0 ==> !included@[0] && key@[0] == 0,
                count == 0 ==> forall|u: int| 1 <= u < n ==> #[trigger] key@[u] == u64::MAX,
                count >= 1 ==> forall|u: int|
                    0 <= u < n && !included@[u] ==> #[trigger] key@[u] <= DIST_LIMIT,
            decreases n - 1 - count,
        {
            proof {
                if count == 0 {
                    assert(0 <= 0 < n && !included@[0] && key@[0] < u64::MAX);
                } else {
                    lemma_num_true_nonneg(included@);
                    lemma_num_true_partial(included@);
                    let u0 = choose|u: int| 0 <= u < included@.len() && !included@[u];
                    assert(key@[u0] <= DIST_LIMIT);
                    assert(0 <= u0 < n && !included@[u0] && key@[u0] < u64::MAX);
                }
            }
            let u: usize = self.get_min_index(&key, &included);
            let ghost included0 = included@;
            included.set(u, true);
            proof {
                lemma_num_true_set(included0, u as int);
            }
            let mut w: usize = 0;
            while w < n
                invariant
                    w <= n,
                    u < n,
                    n == self.n,
                    self.cities_ok(),
                    self.matrix_built(),
                    key@.len() == n,
                    included@.len() == n,
                    parent@.len() == n,
                    included@[u as int],
                    num_true(included@) == count + 1,
                    forall|x: int| 0 <= x < n ==> #[trigger] parent@[x] < n,
                    forall|x: int| 1 <= x < n ==> #[trigger] parent@[x] != x,
                    forall|x: int|
                        0 <= x < w && !included@[x] ==> #[trigger] key@[x] <= DIST_LIMIT,
                decreases n - w,
            {
                if !included[w] {
                    let d: u64 = mat_get(n, &self.graph, u, w);
                    assert(d <= DIST_LIMIT);
                    if d < key[w] {
                        key.set(w, d);
                        parent.set(w, u);
                    } else {
                        assert(key@[w as int] <= DIST_LIMIT);
                    }
                }
                w = w + 1;
            }
            count = count + 1;
        }
        proof {
            lemma_deg_sum_all_empty(self.adj_list@);
        }
        let mut i: usize = 1;
        while i < n
            invariant
                1 <= i <= n,
                n == self.n,
                self.n == old(self).n,
                self.cities@ == old(self).cities@,
                self.graph@ == old(self).graph@,
                self.odds@ == old(self).odds@,
                self.cities_ok(),
                self.matrix_built(),
                parent@.len() == n,
                forall|u: int| 0 <= u < n ==> #[trigger] parent@[u] < n,
                forall|u: int| 1 <= u < n ==> #[trigger] parent@[u] != u,
                self.adj_ok(),
                deg_sum(self.adj_list@) == 2 * (i - 1),
                forall|u: usize, w: usize|
                    u < n && w < n ==> #[trigger] row_count(self.adj_list@[u as int]@, w)
                        == row_count(self.adj_list@[w as int]@, u),
                forall|u: usize|
                    u < n ==> #[trigger] row_count(self.adj_list@[u as int]@, u) == 0,
            decreases n - i,
        {
            let p: usize = parent[i];
            let ghost rows0 = self.adj_list@;
            row_push(&mut self.adj_list, i, p);
            let ghost rows1 = self.adj_list@;
            row_push(&mut self.adj_list, p, i);
            proof {
                assert forall|a: int, b: int|
                    0 <= a < self.adj_list@.len() && 0 <= b < self.adj_list@[a]@.len()
                        implies #[trigger] self.adj_list@[a]@[b] < self.n by {
                    if a == i as int && b < rows0[a]@.len() {
                        assert(rows0[a]@[b] < self.n);
                    }
                }
                assert forall|u: usize, w: usize| u < n && w < n implies #[trigger] row_count(
                    self.adj_list@[u as int]@,
                    w,
                ) == row_count(self.adj_list@[w as int]@, u) by {
                    lemma_row_count_push(rows0[i as int]@, p, w);
                    lemma_row_count_push(rows0[i as int]@, p, u);
                    lemma_row_count_push(rows1[p as int]@, i, w);
                    lemma_row_count_push(rows1[p as int]@, i, u);
                    assert(rows1[i as int]@ == rows0[i as int]@.push(p));
                    assert(self.adj_list@[p as int]@ == rows1[p as int]@.push(i));
                }
                assert forall|u: usize| u < n implies #[trigger] row_count(
                    self.adj_list@[u as int]@,
                    u,
                ) == 0 by {
                    lemma_row_count_push(rows0[i as int]@, p, u);
                    lemma_row_count_push(rows1[p as int]@, i, u);
                }
            }
            i = i + 1;
        }
    }

    /// Pairs the odd-degree vertices greedily: each odd vertex still
    /// unmatched is joined to the nearest other unmatched odd vertex,
    /// and both leave the candidate pool.  Every vertex is therefore
    /// matched at most once, and since the handshake property makes the
    /// number of odd vertices even, a partner always exists and every
    /// degree ends up even.
    pub fn perfect_matching(&mut self)
        requires
            old(self).cities_ok(),
            old(self).matrix_built(),
            old(self).adj_ok(),
            old(self).odds@.len() == 0,
            deg_sum(old(self).adj_list@) % 2 == 0,
        ensures
            final(self).n == old(self).n,
            final(self).cities@ == old(self).cities@,
            final(self).graph@ == old(self).graph@,
            final(self).cities_ok(),
            final(self).matrix_built(),
            final(self).adj_ok(),
            forall|v: int|
                0 <= v < final(self).n ==> #[trigger] final(self).adj_list@[v]@.len() == old(
                    self,
                ).adj_list@[v]@.len() + (if old(self).adj_list@[v]@.len() % 2 == 1 {
                    1int
                } else {
                    0int
                }),
            forall|v: int|
                0 <= v < final(self).n ==> #[trigger] final(self).adj_list@[v]@.len() % 2 == 0,
            forall|v: int|
                0 <= v < old(self).n && (#[trigger] old(self).adj_list@[v]@.len()) % 2 == 0
                    ==> final(self).adj_list@[v]@ == old(self).adj_list@[v]@,
    {
        let ghost adj0 = self.adj_list@;
        self.find_odds();
        let n: usize = self.n;
        let m: usize = self.odds.len();
        proof {
            lemma_num_odd_parity(adj0);
            assert(m % 2 == 0);
        }
        let mut closed: Vec<bool> = Vec::new();
        let mut t: usize = 0;
        while t < m
            invariant
                t <= m,
                closed@.len() == t,
                forall|p: int| 0 <= p < t ==> !(#[trigger] closed@[p]),
            decreases m - t,
        {
            closed.push(false);
            t = t + 1;
        }
        proof {
            lemma_num_true_none(closed@);
        }
        let ghost odds_v = self.odds@;
        let mut idx: usize = 0;
        while idx < m
            invariant
                idx <= m,
                m % 2 == 0,
                num_true(closed@) % 2 == 0,
                n == self.n,
                m == self.odds@.len(),
                self.odds@ == odds_v,
                self.n == old(self).n,
                self.cities@ == old(self).cities@,
                self.graph@ == old(self).graph@,
                self.adj_list@.len() == old(self).adj_list@.len(),
                old(self).adj_list@ == adj0,
                self.cities_ok(),
                self.matrix_built(),
                self.adj_ok(),
                closed@.len() == m,
                forall|p: int|
                    0 <= p < m ==> (#[trigger] self.odds@[p]) < n && adj0[self.odds@[p] as int]@.len()
                        % 2 == 1,
                forall|p1: int, p2: int|
                    0 <= p1 < p2 < m ==> self.odds@[p1] < self.odds@[p2],
                forall|v: usize| v < n && adj0[v as int]@.len() % 2 == 1 ==> self.odds@.contains(v),
                forall|p: int| 0 <= p < idx ==> #[trigger] closed@[p],
                forall|p: int|
                    0 <= p < m ==> #[trigger] self.adj_list@[self.odds@[p] as int]@.len() == adj0[
                        self.odds@[p] as int
                    ]@.len() + (if closed@[p] {
                        1int
                    } else {
                        0int
                    }),
                forall|v: int|
                    0 <= v < n && !odds_v.contains(v as usize)
                        ==> #[trigger] self.adj_list@[v]@ == adj0[v]@,
            decreases m - idx,
        {
            if !closed[idx] {
                let mut best: usize = m;
                let mut best_d: u64 = 0;
                let mut j: usize = 0;
                while j < m
                    invariant
                        j <= m,
                        idx < m,
                        n == self.n,
                        m == self.odds@.len(),
                        self.cities_ok(),
                        self.matrix_built(),
                        closed@.len() == m,
                        forall|p: int| 0 <= p < m ==> (#[trigger] self.odds@[p]) < n,
                        best <= m,
                        best == m ==> forall|p: int|
                            0 <= p < j && p != idx ==> #[trigger] closed@[p],
                        best < m ==> best < j && !closed@[best as int] && best != idx,
                    decreases m - j,
                {
                    if j != idx && !closed[j] {
                        let d: u64 = mat_get(n, &self.graph, self.odds[idx], self.odds[j]);
                        if best == m || d < best_d {
                            best = j;
                            best_d = d;
                        }
                    }
                    j = j + 1;
                }
                // a partner always exists: matched positions come in
                // pairs, so the unmatched ones cannot dwindle to one
                if best == m {
                    proof {
                        lemma_num_true_except(closed@, idx as int);
                        assert(false);
                    }
                }
                let u: usize = self.odds[idx];
                let w: usize = self.odds[best];
                proof {
                    if u == w {
                        if idx < best {
                            assert(self.odds@[idx as int] < self.odds@[best as int]);
                        } else {
                            assert(self.odds@[best as int] < self.odds@[idx as int]);
                        }
                    }
                }
                let ghost rows0 = self.adj_list@;
                row_push(&mut self.adj_list, u, w);
                let ghost rows1 = self.adj_list@;
                row_push(&mut self.adj_list, w, u);
                let ghost closed0 = closed@;
                closed.set(idx, true);
                closed.set(best, true);
                proof {
                    lemma_num_true_set(closed0, idx as int);
                    lemma_num_true_set(closed0.update(idx as int, true), best as int);
                    assert(closed@ =~= closed0.update(idx as int, true).update(best as int, true));
                    assert forall|a: int, b: int|
                        0 <= a < self.adj_list@.len() && 0 <= b < self.adj_list@[a]@.len()
                            implies #[trigger] self.adj_list@[a]@[b] < self.n by {
                        if a == u as int && b < rows0[a]@.len() {
                            assert(rows0[a]@[b] < self.n);
                        }
                    }
                    assert forall|p: int| 0 <= p < m implies #[trigger] self.adj_list@[self.odds@[p] as int]@.len()
                        == adj0[self.odds@[p] as int]@.len() + (if closed@[p] {
                        1int
                    } else {
                        0int
                    }) by {
                        let vv = self.odds@[p] as int;
                        if p == idx {
                            assert(vv == u as int);
                            assert(closed@[p]);
                        } else if p == best as int {
                            assert(vv == w as int);
                            assert(closed@[p]);
                        } else {
                            assert(closed@[p] == closed0[p]);
                            if vv == u as int {
                                if p < idx {
                                    assert(self.odds@[p] < self.odds@[idx as int]);
                                } else {
                                    assert(self.odds@[idx as int] < self.odds@[p]);
                                }
                            }
                            if vv == w as int {
                                if p < best as int {
                                    assert(self.odds@[p] < self.odds@[best as int]);
                                } else {
                                    assert(self.odds@[best as int] < self.odds@[p]);
                                }
                            }
                            assert(self.adj_list@[vv]@.len() == rows0[vv]@.len());
                        }
                    }
                    assert forall|v: int|
                        0 <= v < n && !odds_v.contains(v as usize)
                            implies #[trigger] self.adj_list@[v]@ == adj0[v]@ by {
                        assert(odds_v[idx as int] == u);
                        assert(odds_v[best as int] == w);
                        assert(odds_v.contains(u) && odds_v.contains(w));
                    }
                }
            }
            idx = idx + 1;
        }
        proof {
            assert forall|v: int|
                0 <= v < n && (#[trigger] adj0[v]@.len()) % 2 == 0 implies self.adj_list@[v]@
                == adj0[v]@ by {
                if odds_v.contains(v as usize) {
                    let p = choose|p: int| 0 <= p < odds_v.len() && odds_v[p] == v as usize;
                    assert(adj0[odds_v[p] as int]@.len() % 2 == 1);
                    assert(false);
                }
            }
            assert forall|v: int| 0 <= v < n implies #[trigger] self.adj_list@[v]@.len() == adj0[v]@.len()
                + (if adj0[v]@.len() % 2 == 1 {
                1int
            } else {
                0int
            }) by {
                if adj0[v]@.len() % 2 == 1 {
                    assert(odds_v.contains(v as usize));
                    let p = choose|p: int| 0 <= p < odds_v.len() && odds_v[p] == v as usize;
                    assert(closed@[p]);
                    assert(self.adj_list@[odds_v[p] as int]@.len() == adj0[odds_v[p] as int]@.len()
                        + 1);
                } else {
                    if odds_v.contains(v as usize) {
                        let p = choose|p: int| 0 <= p < odds_v.len() && odds_v[p] == v as usize;
                        assert(adj0[odds_v[p] as int]@.len() % 2 == 1);
                        assert(false);
                    }
                }
            }
        }
    }

    /// Produces a closed walk from `start` that uses every edge of the
    /// multigraph exactly once, by the stack-based circuit search.  A
    /// multigraph that cannot be covered this way (a vertex of odd
    /// degree, or a disconnected component holding edges) is reported
    /// as an internal inconsistency.
    pub fn euler_tour(&self, start: usize) -> (res: Result<Vec<usize>, TspError>)
        requires
            self.adj_ok(),
            start < self.n,
            deg_sum(self.adj_list@) <= usize::MAX as int,
        ensures
            res matches Ok(w) ==> w@.len() >= 1 && 2 * (w@.len() - 1) == deg_sum(self.adj_list@),
            res matches Ok(w) ==> w@[0] == start && w@[w@.len() - 1] == start,
            res matches Ok(w) ==> forall|k: int| 0 <= k < w@.len() ==> #[trigger] w@[k] < self.n,
            res matches Ok(w) ==> forall|k: int|
                0 <= k < w@.len() - 1 ==> self.adj_list@[#[trigger] w@[k] as int]@.contains(
                    w@[k + 1],
                ),
            res matches Ok(w) ==> forall|a: usize, b: usize|
                a < self.n && b < self.n ==> #[trigger] step_count(w@, a, b) + step_count(
                    w@,
                    b,
                    a,
                ) == row_count(self.adj_list@[a as int]@, b),
            deg_sum(self.adj_list@) == 0 ==> res matches Ok(w),
            res matches Err(e) ==> e == TspError::InvariantViolation,
    {
        let n: usize = self.n;
        let mut temp: Vec<Vec<usize>> = copy_rows(&self.adj_list);
        let mut remaining: usize = 0;
        let mut v: usize = 0;
        while v < n
            invariant
                v <= n,
                n == self.n,
                self.adj_ok(),
                deg_sum(self.adj_list@) <= usize::MAX as int,
                temp@.len() == n,
                forall|u: int| 0 <= u < n ==> #[trigger] temp@[u]@ == self.adj_list@[u]@,
                remaining == deg_sum(temp@.subrange(0, v as int)),
            decreases n - v,
        {
            proof {
                assert(temp@.subrange(0, v + 1).drop_last() =~= temp@.subrange(0, v as int));
                assert(temp@.subrange(0, v + 1).last() == temp@[v as int]);
                assert forall|u: int| 0 <= u < v + 1 implies temp@.subrange(0, v + 1)[u]@.len()
                    == self.adj_list@[u]@.len() by {
                    assert(temp@[u]@ == self.adj_list@[u]@);
                }
                lemma_deg_sum_prefix_le(temp@.subrange(0, v + 1), self.adj_list@);
            }
            remaining = remaining + temp[v].len();
            v = v + 1;
        }
        proof {
            assert(temp@.subrange(0, n as int) =~= temp@);
            lemma_deg_sum_congruence(temp@, self.adj_list@);
        }
        let ghost total: int = deg_sum(self.adj_list@);
        let mut walk: Vec<usize> = Vec::new();
        let mut stack: Vec<usize> = Vec::new();
        let mut pos: usize = start;
        let ghost mut consumed: int = 0;
        while stack.len() > 0 || temp[pos].len() > 0
            invariant
                n == self.n,
                temp@.len() == n,
                pos < n,
                start < n,
                forall|u: int, k: int|
                    0 <= u < temp@.len() && 0 <= k < temp@[u]@.len() ==> #[trigger] temp@[u]@[k]
                        < n,
                forall|k: int| 0 <= k < stack@.len() ==> #[trigger] stack@[k] < n,
                forall|k: int| 0 <= k < walk@.len() ==> #[trigger] walk@[k] < n,
                stack@.len() > 0 ==> stack@[0] == start,
                stack@.len() == 0 ==> pos == start,
                remaining == deg_sum(temp@),
                total == deg_sum(self.adj_list@),
                2 * consumed + remaining == total,
                consumed >= 0,
                stack@.len() + walk@.len() == consumed,
            decreases remaining + stack@.len(),
        {
            if temp[pos].len() == 0 {
                walk.push(pos);
                let p: usize = stack.pop().unwrap();
                pos = p;
            } else {
                stack.push(pos);
                let ghost temp0 = temp@;
                proof {
                    lemma_deg_sum_row_le(temp0, pos as int);
                }
                let nb: usize = row_pop(&mut temp, pos);
                let ghost temp1 = temp@;
                let found: bool = row_remove_first(&mut temp, nb, pos);
                if !found {
                    proof {
                        lemma_deg_sum_nonneg(temp@);
                    }
                    return Err(TspError::InvariantViolation);
                }
                proof {
                    lemma_deg_sum_nonneg(temp@);
                    assert forall|u: int, k: int|
                        0 <= u < temp@.len() && 0 <= k < temp@[u]@.len()
                            implies #[trigger] temp@[u]@[k] < n by {
                        if u == nb as int {
                            assert(temp1[u]@.contains(temp@[u]@[k]));
                            let k0 = choose|k0: int|
                                0 <= k0 < temp1[u]@.len() && temp1[u]@[k0] == temp@[u]@[k];
                            if u == pos as int {
                                assert(temp1[u]@[k0] == temp0[u]@[k0]);
                            } else {
                                assert(temp1[u]@ == temp0[u]@);
                            }
                        } else if u == pos as int {
                            assert(temp@[u]@[k] == temp1[u]@[k]);
                            assert(temp1[u]@[k] == temp0[u]@[k]);
                        } else {
                            assert(temp@[u]@ == temp0[u]@);
                        }
                    }
                    consumed = consumed + 1;
                }
                remaining = remaining - 2;
                pos = nb;
            }
        }
        if remaining > 0 {
            return Err(TspError::InvariantViolation);
        }
        let ghost walk0 = walk@;
        walk.push(pos);
        if walk[0] != start {
            proof {
                if deg_sum(self.adj_list@) == 0 {
                    assert(consumed == 0);
                    assert(walk0.len() == 0);
                    assert(walk@[0] == pos);
                    assert(false);
                }
            }
            return Err(TspError::InvariantViolation);
        }
        if !self.walk_steps_are_edges(&walk) {
            return Err(TspError::InvariantViolation);
        }
        if !self.walk_uses_all_edges(&walk) {
            return Err(TspError::InvariantViolation);
        }
        Ok(walk)
    }

    /// Checks that every consecutive pair of `walk` is recorded as an
    /// arc of the multigraph.
    fn walk_steps_are_edges(&self, walk: &Vec<usize>) -> (ok: bool)
        requires
            self.adj_ok(),
            walk@.len() >= 1,
            2 * (walk@.len() - 1) == deg_sum(self.adj_list@),
            forall|k: int| 0 <= k < walk@.len() ==> #[trigger] walk@[k] < self.n,
        ensures
            ok ==> forall|k: int|
                0 <= k < walk@.len() - 1 ==> self.adj_list@[#[trigger] walk@[k] as int]@.contains(
                    walk@[k + 1],
                ),
            deg_sum(self.adj_list@) == 0 ==> ok,
    {
        let n: usize = self.n;
        let mut k: usize = 0;
        while k < walk.len() - 1
            invariant
                k <= walk@.len(),
                walk@.len() >= 1,
                2 * (walk@.len() - 1) == deg_sum(self.adj_list@),
                n == self.n,
                self.adj_ok(),
                forall|k2: int| 0 <= k2 < walk@.len() ==> #[trigger] walk@[k2] < n,
                forall|k2: int|
                    0 <= k2 < k ==> self.adj_list@[#[trigger] walk@[k2] as int]@.contains(
                        walk@[k2 + 1],
                    ),
            decreases walk@.len() - k,
        {
            let a: usize = walk[k];
            let b: usize = walk[k + 1];
            let row_len: usize = self.adj_list[a].len();
            let mut i2: usize = 0;
            let mut found2: bool = false;
            while i2 < row_len
                invariant
                    i2 <= row_len,
                    a < n,
                    n == self.n,
                    self.adj_ok(),
                    row_len == self.adj_list@[a as int]@.len(),
                    found2 ==> self.adj_list@[a as int]@.contains(b),
                decreases row_len - i2,
            {
                if self.adj_list[a][i2] == b {
                    found2 = true;
                    proof {
                        assert(self.adj_list@[a as int]@[i2 as int] == b);
                    }
                }
                i2 = i2 + 1;
            }
            if !found2 {
                proof {
                    if deg_sum(self.adj_list@) == 0 {
                        assert(walk@.len() == 1);
                        assert(false);
                    }
                }
                return false;
            }
            k = k + 1;
        }
        true
    }

    /// Checks, by consuming a copy of the adjacency rows, that the
    /// steps of `walk` account for every arc of the multigraph exactly
    /// once.
    fn walk_uses_all_edges(&self, walk: &Vec<usize>) -> (ok: bool)
        requires
            self.adj_ok(),
            walk@.len() >= 1,
            2 * (walk@.len() - 1) == deg_sum(self.adj_list@),
            forall|k: int| 0 <= k < walk@.len() ==> #[trigger] walk@[k] < self.n,
        ensures
            ok ==> forall|a: usize, b: usize|
                a < self.n && b < self.n ==> #[trigger] step_count(walk@, a, b) + step_count(
                    walk@,
                    b,
                    a,
                ) == row_count(self.adj_list@[a as int]@, b),
            deg_sum(self.adj_list@) == 0 ==> ok,
    {
        let n: usize = self.n;
        let mut used: Vec<Vec<usize>> = copy_rows(&self.adj_list);
        let ghost adjv = self.adj_list@;
        proof {
            lemma_deg_sum_congruence(used@, adjv);
        }
        let mut k2: usize = 0;
        while k2 < walk.len() - 1
            invariant
                k2 <= walk@.len() - 1,
                deg_sum(used@) == deg_sum(adjv) - 2 * k2,
                walk@.len() >= 1,
                2 * (walk@.len() - 1) == deg_sum(adjv),
                adjv == self.adj_list@,
                n == self.n,
                self.adj_ok(),
                used@.len() == n,
                forall|k3: int| 0 <= k3 < walk@.len() ==> #[trigger] walk@[k3] < n,
                forall|a: usize, b: usize|
                    a < n && b < n ==> #[trigger] row_count(used@[a as int]@, b) + step_count(
                        walk@.subrange(0, k2 as int + 1),
                        a,
                        b,
                    ) + step_count(walk@.subrange(0, k2 as int + 1), b, a) == row_count(
                        adjv[a as int]@,
                        b,
                    ),
            decreases walk@.len() - 1 - k2,
        {
            let a: usize = walk[k2];
            let b: usize = walk[k2 + 1];
            let ghost used0 = used@;
            let f1: bool = row_remove_first(&mut used, a, b);
            if !f1 {
                proof {
                    if deg_sum(self.adj_list@) == 0 {
                        assert(false);
                    }
                }
                return false;
            }
            let ghost used1 = used@;
            let f2: bool = row_remove_first(&mut used, b, a);
            if !f2 {
                proof {
                    if deg_sum(self.adj_list@) == 0 {
                        assert(false);
                    }
                }
                return false;
            }
            proof {
                let i1 = choose|i: int|
                    0 <= i < used0[a as int]@.len() && used0[a as int]@[i] == b
                        && used1[a as int]@ == used0[a as int]@.remove(i);
                let i2 = choose|i: int|
                    0 <= i < used1[b as int]@.len() && used1[b as int]@[i] == a
                        && used@[b as int]@ == used1[b as int]@.remove(i);
                let s1 = walk@.subrange(0, k2 as int + 1);
                let s2 = walk@.subrange(0, k2 as int + 2);
                assert(s2.drop_last() =~= s1);
                assert(s2.last() == b);
                assert(s2[s2.len() - 2] == a);
                assert forall|x: usize, y: usize| x < n && y < n implies #[trigger] row_count(
                    used@[x as int]@,
                    y,
                ) + step_count(s2, x, y) + step_count(s2, y, x) == row_count(
                    adjv[x as int]@,
                    y,
                ) by {
                    assert(row_count(used0[x as int]@, y) + step_count(s1, x, y) + step_count(
                        s1,
                        y,
                        x,
                    ) == row_count(adjv[x as int]@, y));
                    if x == a {
                        lemma_row_count_remove(used0[a as int]@, i1, y);
                    }
                    if x == b {
                        lemma_row_count_remove(used1[b as int]@, i2, y);
                    }
                }
            }
            k2 = k2 + 1;
        }
        proof {
            assert(walk@.subrange(0, walk@.len() as int) =~= walk@);
            assert forall|a: usize, b: usize| a < n && b < n implies #[trigger] step_count(
                walk@,
                a,
                b,
            ) + step_count(walk@, b, a) == row_count(adjv[a as int]@, b) by {
                assert(row_count(used@[a as int]@, b) + step_count(walk@, a, b) + step_count(
                    walk@,
                    b,
                    a,
                ) == row_count(adjv[a as int]@, b));
                lemma_deg_sum_zero(used@);
                assert(used@[a as int]@.len() == 0);
            }
        }
        true
    }

    /// Shortcuts an Eulerian walk into a Hamiltonian tour by keeping
    /// only the first visit of each vertex, and prices the tour.  A
    /// walk that misses a vertex is reported as an internal
    /// inconsistency.
    pub fn make_hamiltonian(&self, walk: &Vec<usize>) -> (res: Result<(u64, Vec<usize>), TspError>)
        requires
            self.cities_ok(),
            self.matrix_built(),
            walk@.len() >= 1,
            forall|k: int| 0 <= k < walk@.len() ==> #[trigger] walk@[k] < self.n,
        ensures
            res matches Ok(p) ==> is_perm(p.1@, self.n as nat) && p.0 as int == tour_cost(
                self.cities@,
                p.1@,
            ) && p.1@[0] == walk@[0],
            res matches Ok(p) ==> p.1@ == first_visits(walk@),
            (forall|v: usize| v < self.n ==> walk@.contains(v)) ==> res matches Ok(p),
            res matches Err(e) ==> e == TspError::InvariantViolation,
    {
        let n: usize = self.n;
        let mut visited: Vec<bool> = Vec::new();
        let mut t: usize = 0;
        while t < n
            invariant
                t <= n,
                visited@.len() == t,
                forall|u: int| 0 <= u < t ==> !(#[trigger] visited@[u]),
            decreases n - t,
        {
            visited.push(false);
            t = t + 1;
        }
        proof {
            lemma_num_true_none(visited@);
        }
        let mut ham: Vec<usize> = Vec::new();
        let root: usize = walk[0];
        let ghost visited_init = visited@;
        visited.set(root, true);
        ham.push(root);
        proof {
            lemma_num_true_set(visited_init, root as int);
            assert forall|u: usize| u < n && visited@[u as int] implies ham@.contains(u) by {
                assert(u == root);
                assert(ham@[0] == u);
            }
            assert(walk@.subrange(0, 1).drop_last() =~= Seq::<usize>::empty());
            assert(walk@.subrange(0, 1).last() == root);
            assert(first_visits(Seq::<usize>::empty()) =~= Seq::<usize>::empty());
            assert(!Seq::<usize>::empty().contains(root));
            assert(ham@ =~= first_visits(walk@.subrange(0, 1)));
        }
        let mut i: usize = 1;
        while i < walk.len()
            invariant
                i <= walk@.len(),
                walk@.len() >= 1,
                n == self.n,
                visited@.len() == n,
                forall|k: int| 0 <= k < walk@.len() ==> #[trigger] walk@[k] < n,
                forall|k: int| 0 <= k < ham@.len() ==> #[trigger] ham@[k] < n,
                forall|k1: int, k2: int| 0 <= k1 < k2 < ham@.len() ==> ham@[k1] != ham@[k2],
                forall|u: usize| u < n && visited@[u as int] ==> ham@.contains(u),
                forall|k: int| 0 <= k < ham@.len() ==> visited@[ham@[k] as int],
                forall|k: int| 0 <= k < i ==> visited@[walk@[k] as int],
                num_true(visited@) == ham@.len(),
                1 <= i,
                ham@.len() >= 1 && ham@[0] == walk@[0],
                ham@ == first_visits(walk@.subrange(0, i as int)),
            decreases walk@.len() - i,
        {
            proof {
                assert(walk@.subrange(0, i + 1).drop_last() =~= walk@.subrange(0, i as int));
                assert(walk@.subrange(0, i + 1).last() == walk@[i as int]);
            }
            let node: usize = walk[i];
            if !visited[node] {
                let ghost visited0 = visited@;
                let ghost ham0 = ham@;
                visited.set(node, true);
                ham.push(node);
                proof {
                    lemma_num_true_set(visited0, node as int);
                    assert forall|u: usize| u < n && visited@[u as int] implies ham@.contains(
                        u,
                    ) by {
                        if u != node {
                            assert(visited0[u as int]);
                            assert(ham0.contains(u));
                            let k = choose|k: int| 0 <= k < ham0.len() && ham0[k] == u;
                            assert(ham@[k] == u);
                        } else {
                            assert(ham@[ham@.len() - 1] == u);
                        }
                    }
                    assert forall|k1: int, k2: int|
                        0 <= k1 < k2 < ham@.len() implies ham@[k1] != ham@[k2] by {
                        if k2 == ham@.len() - 1 {
                            assert(!visited0[node as int]);
                            if ham0[k1] == node {
                                assert(visited0[ham0[k1] as int]);
                            }
                        }
                    }
                }
            }
            i = i + 1;
        }
        let mut u: usize = 0;
        while u < n
            invariant
                u <= n,
                n == self.n,
                visited@.len() == n,
                forall|x: int| 0 <= x < u ==> #[trigger] visited@[x],
                self.cities_ok(),
                self.matrix_built(),
                forall|k: int| 0 <= k < ham@.len() ==> #[trigger] ham@[k] < n,
                forall|k1: int, k2: int| 0 <= k1 < k2 < ham@.len() ==> ham@[k1] != ham@[k2],
                forall|x: usize| x < n && visited@[x as int] ==> ham@.contains(x),
                num_true(visited@) == ham@.len(),
                walk@.len() >= 1 && ham@.len() >= 1 && ham@[0] == walk@[0],
                forall|k: int| 0 <= k < walk@.len() ==> visited@[walk@[k] as int],
            decreases n - u,
        {
            if !visited[u] {
                proof {
                    assert forall|vv: usize| vv < n && walk@.contains(vv) implies visited@[vv as int] by {
                        let k = choose|k: int| 0 <= k < walk@.len() && walk@[k] == vv;
                        assert(visited@[walk@[k] as int]);
                    }
                }
                return Err(TspError::InvariantViolation);
            }
            u = u + 1;
        }
        proof {
            lemma_num_true_full(visited@);
            assert(walk@.subrange(0, walk@.len() as int) =~= walk@);
        }
        let cost: u64 = path_cost(n, &self.cities, &self.graph, &ham);
        Ok((cost, ham))
    }

    /// Extracts the Eulerian walk and shortcuts it into the initial
    /// Hamiltonian tour with its length.
    pub fn find_best_path(&self) -> (res: Result<(u64, Vec<usize>), TspError>)
        requires
            self.cities_ok(),
            self.matrix_built(),
            self.adj_ok(),
            self.n >= 1,
            deg_sum(self.adj_list@) <= usize::MAX as int,
        ensures
            res matches Ok(p) ==> is_perm(p.1@, self.n as nat) && p.0 as int == tour_cost(
                self.cities@,
                p.1@,
            ) && p.1@[0] == 0,
            deg_sum(self.adj_list@) == 0 && self.n == 1 ==> res matches Ok(p),
            res matches Err(e) ==> e == TspError::InvariantViolation,
    {
        let walk: Vec<usize> = match self.euler_tour(0) {
            Ok(w) => w,
            Err(e) => {
                return Err(e);
            },
        };
        match self.make_hamiltonian(&walk) {
            Ok(p) => Ok(p),
            Err(e) => {
                proof {
                    if deg_sum(self.adj_list@) == 0 && self.n == 1 {
                        assert(walk@.len() == 1);
                        assert(walk@[0] == 0);
                        assert forall|v: usize| v < self.n implies walk@.contains(v) by {
                            assert(walk@[0] == v);
                        }
                        assert(false);
                    }
                }
                Err(e)
            },
        }
    }

    /// Runs the whole construction: distance matrix, spanning tree,
    /// odd-vertex matching, Eulerian walk and shortcut.  Returns the
    /// initial tour and its length.
    pub fn christofides(&mut self) -> (res: Result<(u64, Vec<usize>), TspError>)
        requires
            old(self).cities_ok(),
            old(self).adj_ok(),
            forall|v: int| 0 <= v < old(self).adj_list@.len() ==> old(self).adj_list@[v]@.len() == 0,
            old(self).odds@.len() == 0,
            old(self).n >= 1,
        ensures
            final(self).n == old(self).n,
            final(self).cities@ == old(self).cities@,
            res matches Ok(p) ==> is_perm(p.1@, old(self).n as nat) && p.0 as int == tour_cost(
                old(self).cities@,
                p.1@,
            ) && p.1@[0] == 0,
            old(self).n == 1 ==> res matches Ok(p),
            res matches Err(e) ==> e == TspError::InvariantViolation,
    {
        self.fill_matrix();
        self.find_mst();
        let ghost adj_mst = self.adj_list@;
        self.perfect_matching();
        proof {
            lemma_deg_sum_pointwise_le(adj_mst, self.adj_list@);
            assert(deg_sum(self.adj_list@) <= 2 * (self.n - 1) + self.n);
            assert(3 * (self.n as int) <= usize::MAX as int) by {
                if self.n >= 3 {
                    assert(3 * (self.n as int) <= (self.n as int) * (self.n as int))
                        by (nonlinear_arith)
                        requires
                            self.n >= 3,
                    ;
                } else {
                    assert(usize::MAX as int >= 0xffff_ffff);
                }
            }
            if old(self).n == 1 {
                lemma_deg_sum_zero(adj_mst);
                lemma_deg_sum_all_empty(self.adj_list@);
            }
        }
        self.find_best_path()
    }
}

} // verus!
