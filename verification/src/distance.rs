use vstd::prelude::*;

verus! {

/// Coordinates are fixed-point integers; callers scale real coordinates
/// before building cities.  The bound keeps every squared distance well
/// inside `u64` range.
pub const COORD_LIMIT: i64 = 1_000_000;

/// Upper bound on any pairwise distance between in-range cities:
/// the diagonal of the coordinate square is below 3_000_000.
pub const DIST_LIMIT: u64 = 3_000_000;

/// Upper bound on any squared distance between in-range cities.
pub const SQ_LIMIT: u64 = 8_000_000_000_000;

/// A point of the plane, identified elsewhere by its index in the
/// input sequence.
#[derive(Clone, Copy, Debug, PartialEq, Eq, Structural)]
pub struct City {
    pub x: i64,
    pub y: i64,
}

pub open spec fn city_in_range(c: City) -> bool {
    &&& -COORD_LIMIT <= c.x <= COORD_LIMIT
    &&& -COORD_LIMIT <= c.y <= COORD_LIMIT
}

/// The squared Euclidean distance between two cities.
pub open spec fn sq_dist(c1: City, c2: City) -> int {
    (c1.x - c2.x) * (c1.x - c2.x) + (c1.y - c2.y) * (c1.y - c2.y)
}

/// `r` is the integer square root of `s`, rounded up.  Rounding up
/// rather than down keeps the triangle inequality of the Euclidean
/// metric: the rounded lengths can only grow, never shrink below a
/// detour.
pub open spec fn is_sqrt_ceil(s: int, r: int) -> bool {
    &&& 0 <= r
    &&& s <= r * r
    &&& r >= 1 ==> (r - 1) * (r - 1) < s
    &&& s <= 0 ==> r == 0
}

/// `r` is the distance between `c1` and `c2`, rounded up.
pub open spec fn is_dist(c1: City, c2: City, r: int) -> bool {
    is_sqrt_ceil(sq_dist(c1, c2), r)
}

/// The distance between two cities: the Euclidean length of the
/// segment joining them, rounded up to an integer.
pub open spec fn dist_of(c1: City, c2: City) -> int {
    choose|r: int| #[trigger] is_dist(c1, c2, r)
}

pub proof fn lemma_sq_mono(a: int, b: int)
    requires
        0 <= a <= b,
    ensures
        a * a <= b * b,
{
    assert(a * a <= b * b) by (nonlinear_arith)
        requires
            0 <= a <= b,
    ;
}

pub proof fn lemma_sqrt_ceil_exists(s: int)
    requires
        0 <= s,
    ensures
        exists|r: int| is_sqrt_ceil(s, r),
    decreases s,
{
    if s == 0 {
        assert(is_sqrt_ceil(0, 0));
    } else {
        lemma_sqrt_ceil_exists(s - 1);
        let r = choose|r: int| #[trigger] is_sqrt_ceil(s - 1, r);
        if s <= r * r {
            assert(is_sqrt_ceil(s, r));
        } else {
            assert((r + 1) * (r + 1) == r * r + 2 * r + 1) by (nonlinear_arith);
            assert(is_sqrt_ceil(s, r + 1));
        }
    }
}

pub proof fn lemma_sqrt_ceil_unique(s: int, r1: int, r2: int)
    requires
        is_sqrt_ceil(s, r1),
        is_sqrt_ceil(s, r2),
    ensures
        r1 == r2,
{
    if r1 < r2 {
        lemma_sq_mono(r1, r2 - 1);
        assert(false);
    }
    if r2 < r1 {
        lemma_sq_mono(r2, r1 - 1);
        assert(false);
    }
}

pub proof fn lemma_dist_of_is(c1: City, c2: City)
    ensures
        is_dist(c1, c2, dist_of(c1, c2)),
        0 <= dist_of(c1, c2),
{
    let s = sq_dist(c1, c2);
    assert(s >= 0) by (nonlinear_arith)
        requires
            s == (c1.x - c2.x) * (c1.x - c2.x) + (c1.y - c2.y) * (c1.y - c2.y),
    ;
    lemma_sqrt_ceil_exists(s);
    let w = choose|r: int| is_sqrt_ceil(s, r);
    assert(is_dist(c1, c2, w));
}

/// The distance function is symmetric.
pub proof fn lemma_dist_symm(c1: City, c2: City)
    ensures
        dist_of(c1, c2) == dist_of(c2, c1),
{
    lemma_dist_of_is(c1, c2);
    lemma_dist_of_is(c2, c1);
    assert(sq_dist(c1, c2) == sq_dist(c2, c1)) by (nonlinear_arith);
    lemma_sqrt_ceil_unique(sq_dist(c1, c2), dist_of(c1, c2), dist_of(c2, c1));
}

/// The distance from a city to itself is zero.
pub proof fn lemma_dist_self(c: City)
    ensures
        dist_of(c, c) == 0,
{
    lemma_dist_of_is(c, c);
    assert(sq_dist(c, c) == 0) by (nonlinear_arith);
    lemma_sqrt_ceil_unique(0, dist_of(c, c), 0);
}

pub proof fn lemma_sq_dist_bounded(c1: City, c2: City)
    requires
        city_in_range(c1),
        city_in_range(c2),
    ensures
        0 <= sq_dist(c1, c2) <= SQ_LIMIT as int,
{
    assert(0 <= sq_dist(c1, c2) <= SQ_LIMIT as int) by (nonlinear_arith)
        requires
            city_in_range(c1),
            city_in_range(c2),
    ;
}

pub proof fn lemma_dist_bound(c1: City, c2: City)
    requires
        city_in_range(c1),
        city_in_range(c2),
    ensures
        0 <= dist_of(c1, c2) <= DIST_LIMIT as int,
{
    lemma_dist_of_is(c1, c2);
    lemma_sq_dist_bounded(c1, c2);
    let r = dist_of(c1, c2);
    if r > DIST_LIMIT as int {
        lemma_sq_mono(DIST_LIMIT as int, r - 1);
        assert((DIST_LIMIT as int) * (DIST_LIMIT as int) > SQ_LIMIT as int);
        assert(false);
    }
}

/// The rounded metric keeps the triangle inequality of the plane: a
/// direct rounded distance never exceeds a rounded detour.
pub proof fn lemma_dist_triangle(c1: City, c2: City, c3: City)
    ensures
        dist_of(c1, c3) <= dist_of(c1, c2) + dist_of(c2, c3),
{
    lemma_dist_of_is(c1, c3);
    lemma_dist_of_is(c1, c2);
    lemma_dist_of_is(c2, c3);
    let a = dist_of(c1, c3);
    let b = dist_of(c1, c2);
    let c = dist_of(c2, c3);
    let sqa = sq_dist(c1, c3);
    let sqb = sq_dist(c1, c2);
    let sqc = sq_dist(c2, c3);
    let ux = c1.x - c2.x;
    let uy = c1.y - c2.y;
    let vx = c2.x - c3.x;
    let vy = c2.y - c3.y;
    let dot = ux * vx + uy * vy;
    assert(sqa == sqb + sqc + 2 * dot) by (nonlinear_arith)
        requires
            sqa == (c1.x - c3.x) * (c1.x - c3.x) + (c1.y - c3.y) * (c1.y - c3.y),
            sqb == (c1.x - c2.x) * (c1.x - c2.x) + (c1.y - c2.y) * (c1.y - c2.y),
            sqc == (c2.x - c3.x) * (c2.x - c3.x) + (c2.y - c3.y) * (c2.y - c3.y),
            ux == c1.x - c2.x,
            uy == c1.y - c2.y,
            vx == c2.x - c3.x,
            vy == c2.y - c3.y,
            dot == ux * vx + uy * vy,
    ;
    let p = ux * vx;
    let q = uy * vy;
    let r2 = ux * vy;
    let s2 = uy * vx;
    let cross = r2 - s2;
    assert(sqb == ux * ux + uy * uy);
    assert(sqc == vx * vx + vy * vy);
    assert(p * q == r2 * s2) by (nonlinear_arith)
        requires
            p == ux * vx && q == uy * vy && r2 == ux * vy && s2 == uy * vx,
    ;
    assert(sqb * sqc == (ux * ux) * sqc + (uy * uy) * sqc) by (nonlinear_arith)
        requires
            sqb == ux * ux + uy * uy,
    ;
    assert((ux * ux) * sqc == p * p + r2 * r2) by (nonlinear_arith)
        requires
            sqc == vx * vx + vy * vy,
            p == ux * vx,
            r2 == ux * vy,
    ;
    assert((uy * uy) * sqc == s2 * s2 + q * q) by (nonlinear_arith)
        requires
            sqc == vx * vx + vy * vy,
            q == uy * vy,
            s2 == uy * vx,
    ;
    assert(sqb * sqc == p * p + q * q + r2 * r2 + s2 * s2);
    assert(dot * dot == p * p + 2 * (p * q) + q * q) by (nonlinear_arith)
        requires
            dot == p + q,
    ;
    assert(cross * cross == r2 * r2 - 2 * (r2 * s2) + s2 * s2) by (nonlinear_arith)
        requires
            cross == r2 - s2,
    ;
    assert(cross * cross >= 0 && ux * ux >= 0 && uy * uy >= 0 && vx * vx >= 0 && vy * vy >= 0)
        by (nonlinear_arith);
    assert(dot * dot <= sqb * sqc);
    assert(dot <= b * c) by (nonlinear_arith)
        requires
            dot * dot <= sqb * sqc,
            sqb <= b * b,
            sqc <= c * c,
            0 <= sqb,
            0 <= sqc,
            0 <= b,
            0 <= c,
    ;
    assert(sqa <= (b + c) * (b + c)) by (nonlinear_arith)
        requires
            sqa == sqb + sqc + 2 * dot,
            sqb <= b * b,
            sqc <= c * c,
            dot <= b * c,
    ;
    if a > b + c {
        lemma_sq_mono(b + c, a - 1);
        assert(false);
    }
}

/// Integer square root, rounded up, by bisection.
fn isqrt(s: u64) -> (r: u64)
    requires
        s <= SQ_LIMIT,
    ensures
        is_sqrt_ceil(s as int, r as int),
{
    if s == 0 {
        return 0;
    }
    let mut lo: u64 = 0;
    let mut hi: u64 = 3_000_000;
    assert(3_000_000int * 3_000_000int >= SQ_LIMIT as int);
    while lo + 1 < hi
        invariant
            lo < hi <= 3_000_000,
            (lo as int) * (lo as int) < s as int,
            (s as int) <= (hi as int) * (hi as int),
        decreases hi - lo,
    {
        let mid: u64 = lo + (hi - lo) / 2;
        assert((mid as int) * (mid as int) <= 9_000_000_000_000) by (nonlinear_arith)
            requires
                0 <= mid <= 3_000_000,
        ;
        if mid * mid < s {
            lo = mid;
        } else {
            hi = mid;
        }
    }
    hi
}

/// The distance between two in-range cities, rounded up.
pub fn city_distance(c1: City, c2: City) -> (r: u64)
    requires
        city_in_range(c1),
        city_in_range(c2),
    ensures
        r as int == dist_of(c1, c2),
        r <= DIST_LIMIT,
{
    proof {
        lemma_sq_dist_bounded(c1, c2);
    }
    let dx: i64 = c1.x - c2.x;
    let dy: i64 = c1.y - c2.y;
    assert(dx * dx + dy * dy == sq_dist(c1, c2) && dx * dx >= 0 && dy * dy >= 0)
        by (nonlinear_arith)
        requires
            dx == c1.x - c2.x,
            dy == c1.y - c2.y,
            city_in_range(c1),
            city_in_range(c2),
    ;
    let sq: u64 = ((dx * dx) + (dy * dy)) as u64;
    let r = isqrt(sq);
    proof {
        lemma_dist_of_is(c1, c2);
        lemma_sqrt_ceil_unique(sq_dist(c1, c2), r as int, dist_of(c1, c2));
        lemma_dist_bound(c1, c2);
    }
    r
}

/// Entry (i, j) of a flattened n-by-n distance matrix.
pub open spec fn mat_at(n: nat, graph: Seq<u64>, i: int, j: int) -> int {
    graph[i * (n as int) + j] as int
}

/// A well-formed distance matrix for `cities`: a flattened n-by-n table
/// whose entry (i, j) is the rounded Euclidean distance between city i
/// and city j.
pub open spec fn matrix_ok(n: nat, cities: Seq<City>, graph: Seq<u64>) -> bool {
    &&& cities.len() == n
    &&& n <= 0x1_0000_0000
    &&& graph.len() == n * n
    &&& forall|i: int, j: int|
        0 <= i < n && 0 <= j < n ==> #[trigger] mat_at(n, graph, i, j) == dist_of(
            cities[i],
            cities[j],
        )
    &&& forall|i: int, j: int|
        0 <= i < n && 0 <= j < n ==> 0 <= #[trigger] mat_at(n, graph, i, j) <= DIST_LIMIT as int
}

pub proof fn lemma_flat_index(n: int, i: int, j: int, m: int)
    requires
        0 <= i < m <= n,
        0 <= j < n,
    ensures
        0 <= i * n + j,
        i * n + j < m * n,
        m * n <= n * n,
    decreases m,
{
    assert(0 <= i * n + j && i * n + j < m * n && m * n <= n * n) by (nonlinear_arith)
        requires
            0 <= i < m <= n,
            0 <= j < n,
    ;
}

/// Reads entry (i, j) of a flattened n-by-n matrix.
pub fn mat_get(n: usize, graph: &Vec<u64>, i: usize, j: usize) -> (d: u64)
    requires
        graph@.len() == (n as int) * (n as int),
        (n as int) * (n as int) <= usize::MAX as int,
        i < n,
        j < n,
    ensures
        d as int == mat_at(n as nat, graph@, i as int, j as int),
{
    proof {
        lemma_flat_index(n as int, i as int, j as int, n as int);
    }
    let idx: usize = i * n + j;
    graph[idx]
}

/// Builds the full pairwise distance matrix of `cities`.  The result is
/// symmetric and its diagonal is zero.
pub fn build_matrix(cities: &Vec<City>) -> (graph: Vec<u64>)
    requires
        forall|k: int| 0 <= k < cities@.len() ==> city_in_range(#[trigger] cities@[k]),
        cities@.len() * cities@.len() <= usize::MAX as int,
        cities@.len() <= 0x1_0000_0000,
    ensures
        matrix_ok(cities@.len() as nat, cities@, graph@),
        forall|i: int|
            0 <= i < cities@.len() ==> #[trigger] mat_at(
                cities@.len() as nat,
                graph@,
                i,
                i,
            ) == 0,
        forall|i: int, j: int|
            0 <= i < cities@.len() && 0 <= j < cities@.len() ==> #[trigger] mat_at(
                cities@.len() as nat,
                graph@,
                i,
                j,
            ) == mat_at(cities@.len() as nat, graph@, j, i),
        forall|i: int, j: int, k: int|
            #![trigger mat_at(cities@.len() as nat, graph@, i, j), mat_at(cities@.len() as nat, graph@, j, k)]
            0 <= i < cities@.len() && 0 <= j < cities@.len() && 0 <= k < cities@.len()
                ==> mat_at(cities@.len() as nat, graph@, i, k) <= mat_at(
                cities@.len() as nat,
                graph@,
                i,
                j,
            ) + mat_at(cities@.len() as nat, graph@, j, k),
{
    let n: usize = cities.len();
    let ghost nn: nat = n as nat;
    let mut graph: Vec<u64> = Vec::new();
    let mut i: usize = 0;
    while i < n
        invariant
            i <= n,
            n == cities@.len(),
            (n as int) * (n as int) <= usize::MAX as int,
            n <= 0x1_0000_0000,
            nn == n as nat,
            forall|k: int| 0 <= k < cities@.len() ==> city_in_range(#[trigger] cities@[k]),
            graph@.len() == (i as int) * (n as int),
            forall|a: int, b: int|
                0 <= a < i && 0 <= b < n ==> #[trigger] mat_at(nn, graph@, a, b) == dist_of(
                    cities@[a],
                    cities@[b],
                ),
            forall|a: int, b: int|
                0 <= a < i && 0 <= b < n ==> 0 <= #[trigger] mat_at(nn, graph@, a, b)
                    <= DIST_LIMIT as int,
        decreases n - i,
    {
        let mut j: usize = 0;
        while j < n
            invariant
                i < n,
                j <= n,
                n == cities@.len(),
                (n as int) * (n as int) <= usize::MAX as int,
                n <= 0x1_0000_0000,
                nn == n as nat,
                forall|k: int| 0 <= k < cities@.len() ==> city_in_range(#[trigger] cities@[k]),
                graph@.len() == (i as int) * (n as int) + j,
                forall|a: int, b: int|
                    0 <= a < i && 0 <= b < n ==> #[trigger] mat_at(nn, graph@, a, b) == dist_of(
                        cities@[a],
                        cities@[b],
                    ),
                forall|a: int, b: int|
                    0 <= a < i && 0 <= b < n ==> 0 <= #[trigger] mat_at(nn, graph@, a, b)
                        <= DIST_LIMIT as int,
                forall|b: int|
                    0 <= b < j ==> #[trigger] mat_at(nn, graph@, i as int, b) == dist_of(
                        cities@[i as int],
                        cities@[b],
                    ),
                forall|b: int|
                    0 <= b < j ==> 0 <= #[trigger] mat_at(nn, graph@, i as int, b)
                        <= DIST_LIMIT as int,
            decreases n - j,
        {
            let ghost graph0 = graph@;
            let ci: City = cities[i];
            let cj: City = cities[j];
            let d: u64 = city_distance(ci, cj);
            graph.push(d);
            j = j + 1;
            proof {
                assert forall|a: int, b: int| 0 <= a < i && 0 <= b < n implies #[trigger] mat_at(
                    nn,
                    graph@,
                    a,
                    b,
                ) == dist_of(cities@[a], cities@[b]) && 0 <= mat_at(nn, graph@, a, b)
                    <= DIST_LIMIT as int by {
                    lemma_flat_index(n as int, a, b, i as int);
                    assert(mat_at(nn, graph@, a, b) == mat_at(nn, graph0, a, b));
                }
                assert forall|b: int| 0 <= b < j implies #[trigger] mat_at(nn, graph@, i as int, b)
                    == dist_of(cities@[i as int], cities@[b]) && 0 <= mat_at(nn, graph@, i as int, b)
                    <= DIST_LIMIT as int by {
                    if b < j - 1 {
                        assert(mat_at(nn, graph@, i as int, b) == mat_at(nn, graph0, i as int, b));
                    } else {
                        assert(graph@[(i as int) * (n as int) + b] == d);
                    }
                }
            }
        }
        i = i + 1;
        proof {
            assert((i as int) * (n as int) == (i - 1) * (n as int) + (n as int))
                by (nonlinear_arith);
        }
    }
    proof {
        assert(graph@.len() == (n as int) * (n as int));
        assert forall|a: int| 0 <= a < n implies #[trigger] mat_at(nn, graph@, a, a) == 0 by {
            lemma_dist_self(cities@[a]);
        }
        assert forall|a: int, b: int| 0 <= a < n && 0 <= b < n implies #[trigger] mat_at(
            nn,
            graph@,
            a,
            b,
        ) == mat_at(nn, graph@, b, a) by {
            lemma_dist_symm(cities@[a], cities@[b]);
        }
        assert forall|a: int, b: int, e: int|
            #![trigger mat_at(nn, graph@, a, b), mat_at(nn, graph@, b, e)]
            0 <= a < n && 0 <= b < n && 0 <= e < n implies mat_at(nn, graph@, a, e) <= mat_at(
            nn,
            graph@,
            a,
            b,
        ) + mat_at(nn, graph@, b, e) by {
            lemma_dist_triangle(cities@[a], cities@[b], cities@[e]);
        }
    }
    graph
}

} // verus!
