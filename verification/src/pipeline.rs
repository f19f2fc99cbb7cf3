use vstd::prelude::*;

use crate::christofides::Christofides;
use crate::distance::{city_in_range, dist_of, lemma_dist_self, City};
use crate::errors::TspError;
use crate::tour::{is_perm, tour_cost, tour_cost_prefix};
use crate::two_opt::{local_opt, TwoOpt};

verus! {

/// Copies a city list.
fn clone_cities(v: &Vec<City>) -> (r: Vec<City>)
    ensures
        r@ == v@,
{
    let mut r: Vec<City> = Vec::new();
    let mut i: usize = 0;
    while i < v.len()
        invariant
            i <= v@.len(),
            r@ == v@.subrange(0, i as int),
        decreases v@.len() - i,
    {
        r.push(v[i]);
        proof {
            assert(r@ =~= v@.subrange(0, i + 1));
        }
        i = i + 1;
    }
    proof {
        assert(r@ =~= v@);
    }
    r
}

/// Runs the whole solver: the Christofides-style construction followed
/// by 2-opt refinement.  An empty point set is rejected; a single
/// point yields the trivial tour of length zero; otherwise the result
/// is a locally optimal tour over all the points, with its exact
/// length.
pub fn solve(cities: Vec<City>) -> (res: Result<(u64, Vec<usize>), TspError>)
    requires
        forall|k: int| 0 <= k < cities@.len() ==> city_in_range(#[trigger] cities@[k]),
        cities@.len() * cities@.len() <= usize::MAX as int,
        cities@.len() <= 0x1_0000_0000,
    ensures
        cities@.len() == 0 ==> res == Err::<(u64, Vec<usize>), TspError>(
            TspError::DegenerateInput,
        ),
        res == Err::<(u64, Vec<usize>), TspError>(TspError::DegenerateInput) ==> cities@.len()
            == 0,
        res matches Ok(p) ==> is_perm(p.1@, cities@.len() as nat) && p.0 as int == tour_cost(
            cities@,
            p.1@,
        ) && local_opt(cities@, p.1@),
        cities@.len() == 1 ==> (res matches Ok(p) && p.0 == 0 && p.1@ == seq![0usize]),
{
    let ghost cv = cities@;
    let n: usize = cities.len();
    if n == 0 {
        return Err(TspError::DegenerateInput);
    }
    let cities2: Vec<City> = clone_cities(&cities);
    let mut cf = Christofides::new(cities);
    let r = cf.christofides();
    match r {
        Err(e) => {
            assert(n != 1);
            Err(e)
        },
        Ok(p) => {
            let t0: Vec<usize> = p.1;
            let mut refiner = TwoOpt::new(cities2);
            refiner.read_init_path(t0);
            refiner.two_opt();
            let length: u64 = refiner.length;
            let path: Vec<usize> = refiner.path;
            proof {
                if n == 1 {
                    assert(path@.len() == 1);
                    assert(path@[0] == 0);
                    assert(path@ =~= seq![0usize]);
                    lemma_dist_self(cv[0]);
                    assert(tour_cost_prefix(cv, path@, 0) == 0);
                    assert(tour_cost_prefix(cv, path@, 1) == dist_of(
                        cv[path@[0] as int],
                        cv[path@[0] as int],
                    ));
                    assert(tour_cost(cv, path@) == 0);
                }
            }
            Ok((length, path))
        },
    }
}

} // verus!
