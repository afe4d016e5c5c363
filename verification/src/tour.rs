//! Tours: permutations of city indices, and the length of the closed loop
//! they trace through a store.

use vstd::prelude::*;
use crate::geometry::MAX_EDGE;
use crate::store::{CityStore, CityV, city_dist, city_ok, distance, store_ok, MAX_CITIES};

verus! {

/// Upper bound on any closed-tour length over a well-formed store:
/// `MAX_CITIES` edges of at most `MAX_EDGE` each.
pub const MAX_TOUR: u64 = 3_000_000_000_000_000_000;

/// A closed visiting order over all cities of a store, together with its
/// total length under the distance model.
pub struct Tour {
    /// A permutation of `0 .. n`: each city index exactly once.
    pub route: Vec<usize>,
    /// The sum of the consecutive edge lengths plus the closing edge.
    pub distance: u64,
}

/// `r` lists each index of `0 .. n` exactly once.
pub open spec fn is_permutation(r: Seq<usize>, n: int) -> bool {
    &&& r.len() == n
    &&& forall|i: int| 0 <= i < r.len() ==> (#[trigger] r[i] as int) < n
    &&& forall|i: int, j: int| 0 <= i < j < r.len() ==> r[i] != r[j]
}

/// Every index of `r` is a valid position of `s` (no repetition demanded).
pub open spec fn valid_route(s: Seq<CityV>, r: Seq<usize>) -> bool {
    &&& r.len() >= 1
    &&& forall|i: int| 0 <= i < r.len() ==> (#[trigger] r[i] as int) < s.len()
}

/// The length of edge `i` of the closed tour: from city `r[i]` to the next
/// listed city, wrapping from the last back to the first.
pub open spec fn edge_to(s: Seq<CityV>, r: Seq<usize>, i: int) -> int {
    let a = r[i] as int;
    let b = if i + 1 == r.len() {
        r[0] as int
    } else {
        r[i + 1] as int
    };
    city_dist(s[a], s[b])
}

/// Sum of the first `k` edges of the closed tour.
pub open spec fn partial_dist(s: Seq<CityV>, r: Seq<usize>, k: int) -> int
    decreases k,
{
    if k <= 0 {
        0
    } else {
        partial_dist(s, r, k - 1) + edge_to(s, r, k - 1)
    }
}

/// Total length of the closed tour `r` through `s`: consecutive edges plus
/// the closing edge from the last city back to the first.
pub open spec fn tour_dist(s: Seq<CityV>, r: Seq<usize>) -> int {
    partial_dist(s, r, r.len() as int)
}

/// A tour that is correct for store contents `s`: a permutation whose
/// recorded distance is the recomputed tour length.
pub open spec fn tour_ok(s: Seq<CityV>, t: Tour) -> bool {
    &&& is_permutation(t.route@, s.len() as int)
    &&& t.distance as int == tour_dist(s, t.route@)
}

/// Each edge of a valid route through a well-formed store is non-negative
/// and at most `MAX_EDGE`.
pub proof fn lemma_edge_bounds(s: Seq<CityV>, r: Seq<usize>, i: int)
    requires
        store_ok(s),
        valid_route(s, r),
        0 <= i < r.len(),
    ensures
        0 <= edge_to(s, r, i) <= MAX_EDGE,
{
    let a = r[i] as int;
    let b = if i + 1 == r.len() {
        r[0] as int
    } else {
        r[i + 1] as int
    };
    assert(city_ok(s[a]));
    assert(city_ok(s[b]));
    crate::geometry::lemma_dist_bounds(s[a].x, s[a].y, s[b].x, s[b].y);
}

/// Partial sums of edges are bounded by the number of edges taken.
pub proof fn lemma_partial_bounds(s: Seq<CityV>, r: Seq<usize>, k: int)
    requires
        store_ok(s),
        valid_route(s, r),
        0 <= k <= r.len(),
    ensures
        0 <= partial_dist(s, r, k) <= k * MAX_EDGE,
    decreases k,
{
    if k > 0 {
        lemma_partial_bounds(s, r, k - 1);
        lemma_edge_bounds(s, r, k - 1);
        assert((k - 1) * MAX_EDGE + MAX_EDGE == k * MAX_EDGE) by (nonlinear_arith);
    }
}

/// A whole tour over a well-formed store fits far below `u64::MAX`.
pub proof fn lemma_tour_bounds(s: Seq<CityV>, r: Seq<usize>)
    requires
        store_ok(s),
        valid_route(s, r),
        r.len() <= MAX_CITIES as int,
    ensures
        0 <= tour_dist(s, r) <= MAX_TOUR,
{
    lemma_partial_bounds(s, r, r.len() as int);
    assert(r.len() as int * MAX_EDGE <= MAX_CITIES as int * MAX_EDGE) by (nonlinear_arith)
        requires
            0 <= r.len() as int <= MAX_CITIES as int,
    ;
}

/// The store-order route `0, 1, .., n-1`.
pub open spec fn identity_route(n: int) -> Seq<usize> {
    Seq::new(n as nat, |i: int| i as usize)
}

pub proof fn lemma_identity_is_permutation(n: int)
    requires
        0 <= n <= MAX_CITIES as int,
    ensures
        is_permutation(identity_route(n), n),
{
}

/// Swapping two positions of a permutation leaves a permutation.
pub proof fn lemma_swap_permutation(r: Seq<usize>, n: int, i: int, j: int)
    requires
        is_permutation(r, n),
        0 <= i < r.len(),
        0 <= j < r.len(),
    ensures
        is_permutation(r.update(i, r[j]).update(j, r[i]), n),
{
    let w = r.update(i, r[j]).update(j, r[i]);
    assert(forall|a: int, b: int| 0 <= a < b < w.len() ==> w[a] != w[b]);
}

/// Builds the store-order route over `n` cities.
pub fn make_identity(n: usize) -> (r: Vec<usize>)
    requires
        1 <= n <= MAX_CITIES,
    ensures
        r@ == identity_route(n as int),
        is_permutation(r@, n as int),
{
    let mut r: Vec<usize> = Vec::new();
    let mut i: usize = 0;
    while i < n
        invariant
            i <= n,
            r@.len() == i,
            forall|k: int| 0 <= k < i ==> r@[k] == k as usize,
        decreases n - i,
    {
        r.push(i);
        i += 1;
    }
    proof {
        assert(r@ =~= identity_route(n as int));
    }
    r
}

/// Swaps the entries of `route` at positions `i` and `j`.
pub(crate) fn swap_route(route: &mut Vec<usize>, i: usize, j: usize)
    requires
        i < old(route)@.len(),
        j < old(route)@.len(),
    ensures
        final(route)@ == old(route)@.update(i as int, old(route)@[j as int]).update(
            j as int,
            old(route)@[i as int],
        ),
{
    let a = route[i];
    let b = route[j];
    route.set(i, b);
    route.set(j, a);
}

/// Copies a route.
pub(crate) fn copy_route(v: &Vec<usize>) -> (r: Vec<usize>)
    ensures
        r@ == v@,
{
    let mut r: Vec<usize> = Vec::new();
    let mut i: usize = 0;
    while i < v.len()
        invariant
            i <= v@.len(),
            r@ == v@.take(i as int),
        decreases v@.len() - i,
    {
        r.push(v[i]);
        proof {
            assert(v@.take(i + 1 as int) =~= v@.take(i as int).push(v@[i as int]));
        }
        i += 1;
    }
    proof {
        assert(v@.take(v@.len() as int) =~= v@);
    }
    r
}

/// Recomputes, independently of any solver, the total length of the closed
/// tour that `route` traces through `store`.
pub fn tour_distance(store: &CityStore, route: &Vec<usize>) -> (d: u64)
    requires
        store.wf(),
        valid_route(store@, route@),
        route@.len() <= MAX_CITIES,
    ensures
        d as int == tour_dist(store@, route@),
        d <= MAX_TOUR,
{
    let ghost s = store@;
    let n = route.len();
    let mut d: u64 = 0;
    let mut i: usize = 0;
    while i < n
        invariant
            store.wf(),
            valid_route(s, route@),
            s == store@,
            n == route@.len(),
            1 <= n <= MAX_CITIES,
            i <= n,
            d as int == partial_dist(s, route@, i as int),
            d as int <= i as int * MAX_EDGE,
        decreases n - i,
    {
        let a = route[i];
        let b = if i + 1 == n {
            route[0]
        } else {
            route[i + 1]
        };
        let e = distance(store.city(a), store.city(b));
        proof {
            lemma_edge_bounds(s, route@, i as int);
            assert(e as int == edge_to(s, route@, i as int));
            assert(i as int * MAX_EDGE + MAX_EDGE == (i + 1) as int * MAX_EDGE) by (nonlinear_arith);
            assert((i + 1) as int * MAX_EDGE <= MAX_CITIES as int * MAX_EDGE) by (nonlinear_arith)
                requires
                    0 <= (i + 1) as int <= MAX_CITIES as int,
            ;
        }
        d = d + e;
        i += 1;
    }
    proof {
        lemma_tour_bounds(s, route@);
    }
    d
}

} // verus!
