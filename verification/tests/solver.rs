use tsp::christofides::Christofides;
use tsp::distance::City;
use tsp::errors::TspError;
use tsp::pipeline::solve;
use tsp::two_opt::TwoOpt;

fn city(x: i64, y: i64) -> City {
    City { x, y }
}

/// Four corners of a square with side 1000.
fn square() -> Vec<City> {
    vec![city(0, 0), city(0, 1000), city(1000, 0), city(1000, 1000)]
}

/// A small asymmetric instance.
fn five_points() -> Vec<City> {
    vec![city(0, 0), city(400, 30), city(900, 700), city(150, 800), city(500, 450)]
}

fn is_permutation(t: &[usize], n: usize) -> bool {
    if t.len() != n {
        return false;
    }
    let mut seen = vec![false; n];
    for &v in t {
        if v >= n || seen[v] {
            return false;
        }
        seen[v] = true;
    }
    true
}

fn tour_length(cf: &Christofides, t: &[usize]) -> u64 {
    let n = t.len();
    let mut total = 0u64;
    for k in 0..n {
        let a = cf.cities[t[k]];
        let b = cf.cities[t[(k + 1) % n]];
        total += cf.get_distance(a, b);
    }
    total
}

#[test]
fn distance_exact_values() {
    let cf = Christofides::new(square());
    assert_eq!(cf.get_distance(city(0, 0), city(3, 4)), 5);
    assert_eq!(cf.get_distance(city(0, 0), city(1, 1)), 2);
    assert_eq!(cf.get_distance(city(0, 0), city(0, 7)), 7);
    assert_eq!(cf.get_distance(city(-3, 0), city(3, 0)), 6);
    assert_eq!(cf.get_distance(city(0, 0), city(1000, 1000)), 1415);
}

#[test]
fn distance_symmetry_and_zero_diagonal() {
    let mut cf = Christofides::new(five_points());
    cf.fill_matrix();
    let n = cf.n;
    for i in 0..n {
        assert_eq!(cf.graph[i * n + i], 0);
        for j in 0..n {
            assert_eq!(cf.graph[i * n + j], cf.graph[j * n + i]);
        }
    }
}

#[test]
fn triangle_inequality_holds() {
    // the rounded-up metric keeps the triangle inequality
    let mut cf = Christofides::new(vec![city(0, 0), city(1, 2), city(3, 4)]);
    cf.fill_matrix();
    let n = cf.n;
    for i in 0..n {
        for j in 0..n {
            for k in 0..n {
                assert!(cf.graph[i * n + k] <= cf.graph[i * n + j] + cf.graph[j * n + k]);
            }
        }
    }
    assert_eq!(cf.get_distance(city(0, 0), city(1, 2)), 3);
    assert_eq!(cf.get_distance(city(1, 2), city(3, 4)), 3);
    assert_eq!(cf.get_distance(city(0, 0), city(3, 4)), 5);
}

#[test]
fn mst_edge_count_and_weight() {
    let mut cf = Christofides::new(square());
    cf.fill_matrix();
    cf.find_mst();
    let n = cf.n;
    let total_entries: usize = cf.adj_list.iter().map(|r| r.len()).sum();
    assert_eq!(total_entries, 2 * (n - 1));
    let mut weight = 0u64;
    for v in 0..n {
        for &w in &cf.adj_list[v] {
            weight += cf.get_distance(cf.cities[v], cf.cities[w]);
        }
    }
    // every edge is counted once from each endpoint
    assert_eq!(weight / 2, 3000);
}

#[test]
fn mst_edge_count_five_points() {
    let mut cf = Christofides::new(five_points());
    cf.fill_matrix();
    cf.find_mst();
    let total_entries: usize = cf.adj_list.iter().map(|r| r.len()).sum();
    assert_eq!(total_entries, 2 * (cf.n - 1));
}

/// The weight of the cheapest spanning tree, found by enumerating all
/// labelled trees through their Prufer sequences.
fn brute_force_mst_weight(cities: &[City]) -> u64 {
    let n = cities.len();
    let cf = Christofides::new(cities.to_vec());
    let dist = |a: usize, b: usize| cf.get_distance(cities[a], cities[b]);
    let seq_len = n - 2;
    let mut best = u64::MAX;
    let total: usize = n.pow(seq_len as u32);
    for code in 0..total {
        // decode the Prufer sequence into tree edges
        let mut prufer = Vec::with_capacity(seq_len);
        let mut c = code;
        for _ in 0..seq_len {
            prufer.push(c % n);
            c /= n;
        }
        let mut degs = vec![1usize; n];
        for &v in &prufer {
            degs[v] += 1;
        }
        let mut weight = 0u64;
        for &v in &prufer {
            let leaf = (0..n).find(|&u| degs[u] == 1).unwrap();
            weight += dist(leaf, v);
            degs[leaf] -= 1;
            degs[v] -= 1;
        }
        let rest: Vec<usize> = (0..n).filter(|&u| degs[u] == 1).collect();
        weight += dist(rest[0], rest[1]);
        if weight < best {
            best = weight;
        }
    }
    best
}

#[test]
fn mst_weight_matches_brute_force() {
    let cities = five_points();
    let mut cf = Christofides::new(cities.clone());
    cf.fill_matrix();
    cf.find_mst();
    let mut weight = 0u64;
    for v in 0..cf.n {
        for &w in &cf.adj_list[v] {
            weight += cf.get_distance(cf.cities[v], cf.cities[w]);
        }
    }
    assert_eq!(weight / 2, brute_force_mst_weight(&cities));
}

#[test]
fn matching_leaves_every_degree_even() {
    for cities in [square(), five_points()] {
        let mut cf = Christofides::new(cities);
        cf.fill_matrix();
        cf.find_mst();
        cf.perfect_matching();
        for v in 0..cf.n {
            assert_eq!(cf.adj_list[v].len() % 2, 0);
        }
    }
}

#[test]
fn euler_walk_uses_every_edge_once() {
    for cities in [square(), five_points()] {
        let mut cf = Christofides::new(cities);
        cf.fill_matrix();
        cf.find_mst();
        cf.perfect_matching();
        let edge_count: usize = cf.adj_list.iter().map(|r| r.len()).sum::<usize>() / 2;
        let walk = cf.euler_tour(0).unwrap();
        assert_eq!(walk.len(), edge_count + 1);
        assert_eq!(walk[0], 0);
        assert_eq!(*walk.last().unwrap(), 0);
        // consume every step from a copy of the adjacency rows
        let mut rows = cf.adj_list.clone();
        for k in 0..walk.len() - 1 {
            let (a, b) = (walk[k], walk[k + 1]);
            let pa = rows[a].iter().position(|&x| x == b).expect("edge missing");
            rows[a].remove(pa);
            let pb = rows[b].iter().position(|&x| x == a).expect("edge missing");
            rows[b].remove(pb);
        }
        assert!(rows.iter().all(|r| r.is_empty()));
    }
}

#[test]
fn hamiltonian_tour_is_permutation() {
    let mut cf = Christofides::new(five_points());
    let (len, tour) = cf.christofides().unwrap();
    assert!(is_permutation(&tour, 5));
    assert_eq!(len, tour_length(&cf, &tour));
}

#[test]
fn two_opt_output_is_permutation() {
    let (_, tour) = solve(five_points()).unwrap();
    assert!(is_permutation(&tour, 5));
}

#[test]
fn two_opt_never_lengthens_and_reaches_fixed_point() {
    let mut t = TwoOpt::new(square());
    t.read_init_path(vec![0, 1, 2, 3]);
    t.fill_matrix();
    let start_len = t.get_path_length(&t.path);
    t.two_opt();
    assert!(t.length <= start_len);
    let first_path = t.path.clone();
    let first_len = t.length;
    // running the refiner on its own output changes nothing
    t.two_opt();
    assert_eq!(t.path, first_path);
    assert_eq!(t.length, first_len);
}

#[test]
fn unit_square_converges_to_perimeter() {
    let (len, tour) = solve(square()).unwrap();
    assert!(is_permutation(&tour, 4));
    assert_eq!(len, 4000);
    // every starting tour converges to the perimeter
    let starts: [[usize; 4]; 6] = [
        [0, 1, 2, 3],
        [0, 1, 3, 2],
        [0, 2, 1, 3],
        [0, 2, 3, 1],
        [0, 3, 1, 2],
        [0, 3, 2, 1],
    ];
    for s in starts {
        let mut t = TwoOpt::new(square());
        t.read_init_path(s.to_vec());
        t.two_opt();
        assert_eq!(t.length, 4000);
    }
}

#[test]
fn single_city_yields_trivial_tour() {
    let res = solve(vec![city(42, -17)]);
    assert_eq!(res, Ok((0, vec![0])));
}

#[test]
fn empty_input_is_degenerate() {
    let res = solve(Vec::new());
    assert_eq!(res, Err(TspError::DegenerateInput));
}

#[test]
fn coincident_points_are_accepted() {
    let (len, tour) = solve(vec![city(5, 5), city(5, 5), city(5, 5)]).unwrap();
    assert!(is_permutation(&tour, 3));
    assert_eq!(len, 0);
}

#[test]
fn half_edge_is_an_invariant_violation() {
    // an arc recorded at only one endpoint cannot be walked
    let mut cf = Christofides::new(square());
    cf.fill_matrix();
    cf.adj_list[0].push(1);
    assert_eq!(cf.euler_tour(0), Err(TspError::InvariantViolation));
}

#[test]
fn incomplete_walk_is_an_invariant_violation() {
    // a walk that misses a vertex must not yield a short tour
    let mut cf = Christofides::new(square());
    cf.fill_matrix();
    let walk = vec![0, 1, 0];
    assert!(cf.make_hamiltonian(&walk) == Err(TspError::InvariantViolation));
}

#[test]
fn solve_reports_consistent_length() {
    let (len, tour) = solve(five_points()).unwrap();
    let cf = Christofides::new(five_points());
    assert_eq!(len, tour_length(&cf, &tour));
}
