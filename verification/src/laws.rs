//! The library's general guarantees, stated and proved once, over the same
//! spec functions the solvers' contracts use.

use vstd::prelude::*;
use vstd::set_lib::set_int_range;
use crate::geometry::{lemma_dist_self, lemma_dist_sym};
use crate::store::{city_dist, selection_of, CityV};
use crate::tour::{edge_to, is_permutation, partial_dist, tour_dist, tour_ok, Tour};

verus! {

/// Index value `c` occurs somewhere in `r`.
pub open spec fn appears(r: Seq<usize>, c: int) -> bool {
    exists|i: int| 0 <= i < r.len() && #[trigger] (r[i] as int) == c
}

/// A permutation route visits every city: each index of `0 .. n` appears in
/// it (and, being duplicate-free, appears exactly once).
pub proof fn lemma_permutation_covers_all(r: Seq<usize>, n: int)
    requires
        is_permutation(r, n),
    ensures
        forall|c: int| 0 <= c < n ==> #[trigger] appears(r, c),
{
    let ri = r.map_values(|u: usize| u as int);
    assert(ri.no_duplicates()) by {
        assert(forall|i: int, j: int|
            0 <= i < ri.len() && 0 <= j < ri.len() && i != j ==> ri[i] != ri[j]);
    }
    ri.unique_seq_to_set();
    let range = set_int_range(0, n);
    vstd::set_lib::lemma_int_range(0, n);
    assert(ri.to_set().subset_of(range)) by {
        assert forall|x: int| ri.to_set().contains(x) implies range.contains(x) by {
            let i = choose|i: int| 0 <= i < ri.len() && ri[i] == x;
            assert((r[i] as int) < n);
        }
    }
    assert forall|c: int| 0 <= c < n implies #[trigger] appears(r, c) by {
        if !ri.to_set().contains(c) {
            ri.to_set().lemma_subset_not_in_lt(range, c);
            assert(ri.to_set().len() < n);
            assert(false);
        }
        let i = choose|i: int| 0 <= i < ri.len() && ri[i] == c;
        assert((r[i] as int) == c);
    }
}

/// No strategy can beat the exact optimum: any correct tour over the same
/// store is at least as long as a tour that is minimal over all
/// permutations.
pub proof fn lemma_no_tour_beats_exact(s: Seq<CityV>, exact: Tour, other: Tour)
    requires
        tour_ok(s, exact),
        forall|r: Seq<usize>|
            is_permutation(r, s.len() as int) ==> #[trigger] tour_dist(s, r) >= exact.distance
                as int,
        tour_ok(s, other),
    ensures
        other.distance >= exact.distance,
{
    assert(tour_dist(s, other.route@) >= exact.distance as int);
}

/// Over a single city every correct tour has distance zero.
pub proof fn lemma_single_city_tour(s: Seq<CityV>, t: Tour)
    requires
        s.len() == 1,
        tour_ok(s, t),
    ensures
        t.distance == 0,
{
    let r = t.route@;
    assert((r[0] as int) == 0);
    assert(tour_dist(s, r) == partial_dist(s, r, 1));
    assert(partial_dist(s, r, 1) == partial_dist(s, r, 0) + edge_to(s, r, 0));
    assert(edge_to(s, r, 0) == city_dist(s[0], s[0]));
    lemma_dist_self(s[0].x, s[0].y);
}

/// Over two cities every correct tour goes there and back: twice the single
/// pairwise distance.
pub proof fn lemma_two_city_tour(s: Seq<CityV>, t: Tour)
    requires
        s.len() == 2,
        tour_ok(s, t),
    ensures
        t.distance as int == 2 * city_dist(s[0], s[1]),
{
    let r = t.route@;
    assert(r[0] != r[1]);
    assert((r[0] as int) < 2 && (r[1] as int) < 2);
    assert(tour_dist(s, r) == partial_dist(s, r, 2));
    assert(partial_dist(s, r, 2) == partial_dist(s, r, 1) + edge_to(s, r, 1));
    assert(partial_dist(s, r, 1) == partial_dist(s, r, 0) + edge_to(s, r, 0));
    lemma_dist_sym(s[0].x, s[0].y, s[1].x, s[1].y);
}

/// A selection as large as its source is a permutation of it: the index
/// list covers every position of the source exactly once.
pub proof fn lemma_full_selection_is_permutation(sub: Seq<CityV>, src: Seq<CityV>, p: Seq<usize>)
    requires
        selection_of(sub, src, p),
        sub.len() == src.len(),
    ensures
        is_permutation(p, src.len() as int),
        forall|c: int| 0 <= c < src.len() ==> #[trigger] appears(p, c),
{
    lemma_permutation_covers_all(p, src.len() as int);
}

} // verus!
