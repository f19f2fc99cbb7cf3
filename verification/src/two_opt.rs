use vstd::prelude::*;

use crate::distance::{build_matrix, city_distance, city_in_range, dist_of, matrix_ok, City,
    DIST_LIMIT};
use crate::tour::{is_perm, lemma_reversed_perm, path_cost, reverse_segment, reversed_seg,
    tour_cost};

verus! {

/// No single segment reversal shortens the tour: `t` is a local
/// optimum of the 2-opt neighbourhood.
pub open spec fn local_opt(cities: Seq<City>, t: Seq<usize>) -> bool {
    forall|i: int, j: int|
        0 <= i < j < t.len() ==> tour_cost(cities, #[trigger] reversed_seg(t, i, j)) >= tour_cost(
            cities,
            t,
        )
}

/// Copies a tour.
fn clone_path(v: &Vec<usize>) -> (r: Vec<usize>)
    ensures
        r@ == v@,
{
    let mut r: Vec<usize> = Vec::new();
    let mut i: usize = 0;
    while i < v.len()
        invariant
            i <= v@.len(),
            r@ == v@.subrange(0, i as int),
        decreases v@.len() - i,
    {
        r.push(v[i]);
        proof {
            assert(r@ =~= v@.subrange(0, i + 1));
        }
        i = i + 1;
    }
    proof {
        assert(r@ =~= v@);
    }
    r
}

/// The refinement phase of the solver: 2-opt local search over a
/// starting tour.
pub struct TwoOpt {
    /// Number of cities.
    pub n: usize,
    /// The working tour, a permutation of the city indices.
    pub path: Vec<usize>,
    /// The length of the working tour once refined.
    pub length: u64,
    /// The cities, indexed by vertex number.
    pub cities: Vec<City>,
    /// Flattened n-by-n matrix of pairwise distances.
    pub graph: Vec<u64>,
}

impl TwoOpt {
    /// The city list is consistent with `n` and fits the fixed-point
    /// coordinate model.
    pub open spec fn cities_ok(self) -> bool {
        &&& self.n == self.cities@.len()
        &&& (self.n as int) * (self.n as int) <= usize::MAX as int
        &&& self.n <= 0x1_0000_0000
        &&& forall|k: int| 0 <= k < self.cities@.len() ==> city_in_range(#[trigger] self.cities@[k])
    }

    /// The distance matrix holds the pairwise distances of the cities.
    pub open spec fn matrix_built(self) -> bool {
        matrix_ok(self.n as nat, self.cities@, self.graph@)
    }

    /// Starts a refinement over the given cities, with an empty tour.
    pub fn new(cities: Vec<City>) -> (s: Self)
        requires
            forall|k: int| 0 <= k < cities@.len() ==> city_in_range(#[trigger] cities@[k]),
            cities@.len() * cities@.len() <= usize::MAX as int,
            cities@.len() <= 0x1_0000_0000,
        ensures
            s.cities@ == cities@,
            s.n == cities@.len(),
            s.cities_ok(),
            s.path@.len() == 0,
            s.length == 0,
            s.graph@.len() == 0,
    {
        let n: usize = cities.len();
        TwoOpt { n, path: Vec::new(), length: 0, cities, graph: Vec::new() }
    }

    /// Installs the starting tour to refine.
    pub fn read_init_path(&mut self, path: Vec<usize>)
        ensures
            final(self).path@ == path@,
            final(self).n == old(self).n,
            final(self).cities@ == old(self).cities@,
            final(self).graph@ == old(self).graph@,
            final(self).length == old(self).length,
    {
        self.path = path;
    }

    /// The rounded Euclidean distance between two cities.
    pub fn get_distance(&self, c1: City, c2: City) -> (r: u64)
        requires
            city_in_range(c1),
            city_in_range(c2),
        ensures
            r as int == dist_of(c1, c2),
            r <= DIST_LIMIT,
    {
        city_distance(c1, c2)
    }

    /// Computes the full pairwise distance matrix.
    pub fn fill_matrix(&mut self)
        requires
            old(self).cities_ok(),
        ensures
            final(self).n == old(self).n,
            final(self).cities@ == old(self).cities@,
            final(self).path@ == old(self).path@,
            final(self).length == old(self).length,
            final(self).cities_ok(),
            final(self).matrix_built(),
    {
        let g: Vec<u64> = build_matrix(&self.cities);
        self.graph = g;
    }

    /// The exact length of the closed tour `path`.
    pub fn get_path_length(&self, path: &Vec<usize>) -> (c: u64)
        requires
            self.cities_ok(),
            self.matrix_built(),
            path@.len() == self.n,
            forall|k: int| 0 <= k < path@.len() ==> #[trigger] path@[k] < self.n,
        ensures
            c as int == tour_cost(self.cities@, path@),
    {
        path_cost(self.n, &self.cities, &self.graph, path)
    }

    /// Refines the working tour to a 2-opt local optimum.  Scanning
    /// position pairs in order, the first reversal that shortens the
    /// tour is applied at once and the scan goes on; passes repeat
    /// until one finds no improvement.  The result is a permutation of
    /// the same vertices, never longer than the starting tour, and a
    /// tour that is already locally optimal comes back unchanged.
    pub fn two_opt(&mut self)
        requires
            old(self).cities_ok(),
            is_perm(old(self).path@, old(self).n as nat),
        ensures
            final(self).n == old(self).n,
            final(self).cities@ == old(self).cities@,
            final(self).cities_ok(),
            final(self).matrix_built(),
            is_perm(final(self).path@, final(self).n as nat),
            final(self).length as int == tour_cost(final(self).cities@, final(self).path@),
            tour_cost(final(self).cities@, final(self).path@) <= tour_cost(
                old(self).cities@,
                old(self).path@,
            ),
            local_opt(final(self).cities@, final(self).path@),
            local_opt(old(self).cities@, old(self).path@) ==> final(self).path@ == old(
                self,
            ).path@,
    {
        self.fill_matrix();
        let n: usize = self.n;
        let ghost cities = self.cities@;
        let ghost orig = self.path@;
        let mut best_path: Vec<usize> = clone_path(&self.path);
        let mut best_length: u64 = self.get_path_length(&best_path);
        let mut improved: bool = true;
        while improved
            invariant
                n == self.n,
                self.cities@ == cities,
                self.path@ == orig,
                self.cities_ok(),
                self.matrix_built(),
                is_perm(best_path@, n as nat),
                best_length as int == tour_cost(cities, best_path@),
                tour_cost(cities, best_path@) <= tour_cost(cities, orig),
                local_opt(cities, orig) ==> best_path@ == orig,
                !improved ==> local_opt(cities, best_path@),
            decreases 2 * (best_length as int) + (if improved {
                1int
            } else {
                0int
            }),
        {
            let ghost head_len = best_length;
            let ghost pass0 = best_path@;
            improved = false;
            let mut i: usize = 0;
            while i < n
                invariant
                    i <= n,
                    n == self.n,
                    self.cities@ == cities,
                    self.cities_ok(),
                    self.matrix_built(),
                    is_perm(best_path@, n as nat),
                    best_length as int == tour_cost(cities, best_path@),
                    tour_cost(cities, best_path@) <= tour_cost(cities, orig),
                    local_opt(cities, orig) ==> best_path@ == orig,
                    improved ==> best_length < head_len,
                    !improved ==> best_length == head_len && best_path@ == pass0,
                    !improved ==> forall|a: int, b: int|
                        0 <= a < b < n && a < i ==> tour_cost(
                            cities,
                            #[trigger] reversed_seg(pass0, a, b),
                        ) >= tour_cost(cities, pass0),
                decreases n - i,
            {
                let mut j: usize = i + 1;
                while j < n
                    invariant
                        i < n,
                        i + 1 <= j <= n,
                        n == self.n,
                        self.cities@ == cities,
                        self.cities_ok(),
                        self.matrix_built(),
                        is_perm(best_path@, n as nat),
                        best_length as int == tour_cost(cities, best_path@),
                        tour_cost(cities, best_path@) <= tour_cost(cities, orig),
                        local_opt(cities, orig) ==> best_path@ == orig,
                        improved ==> best_length < head_len,
                        !improved ==> best_length == head_len && best_path@ == pass0,
                        !improved ==> forall|a: int, b: int|
                            0 <= a < b < n && (a < i || (a == i && b < j)) ==> tour_cost(
                                cities,
                                #[trigger] reversed_seg(pass0, a, b),
                            ) >= tour_cost(cities, pass0),
                    decreases n - j,
                {
                    let mut cand: Vec<usize> = clone_path(&best_path);
                    reverse_segment(&mut cand, i, j);
                    proof {
                        lemma_reversed_perm(best_path@, n as nat, i as int, j as int);
                    }
                    let cand_len: u64 = self.get_path_length(&cand);
                    if cand_len < best_length {
                        best_path = cand;
                        best_length = cand_len;
                        improved = true;
                    }
                    j = j + 1;
                }
                i = i + 1;
            }
        }
        self.path = best_path;
        self.length = best_length;
    }
}

} // verus!
