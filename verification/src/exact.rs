//! Exact strategy: exhaustive search over all visiting orders, guaranteed to
//! return a tour of globally minimal length.

use vstd::prelude::*;
use crate::store::{CityStore, CityV};
use crate::tour::{
    Tour, copy_route, is_permutation, tour_dist, tour_ok, tour_distance, make_identity,
};

verus! {

/// Every full permutation that begins with prefix `p` has tour length at
/// least `b`.
pub open spec fn covers(s: Seq<CityV>, p: Seq<usize>, b: int) -> bool {
    forall|r: Seq<usize>|
        is_permutation(r, s.len() as int) && r.take(p.len() as int) == p ==> #[trigger] tour_dist(
            s,
            r,
        ) >= b
}

/// The walking state of the search: a duplicate-free, in-range prefix, and a
/// membership table that mirrors it.
pub open spec fn search_inv(s: Seq<CityV>, p: Seq<usize>, u: Seq<bool>) -> bool {
    &&& u.len() == s.len()
    &&& p.len() <= s.len()
    &&& forall|i: int| 0 <= i < p.len() ==> (#[trigger] p[i] as int) < s.len()
    &&& forall|i: int, j: int| 0 <= i < j < p.len() ==> p[i] != p[j]
    &&& forall|c: int| 0 <= c < u.len() ==> (#[trigger] u[c] <==> p.contains(c as usize))
}

/// Visits every permutation that extends `prefix`, lowering `best` to the
/// cheapest tour among them (and keeping it a correct tour throughout).
fn search(store: &CityStore, prefix: &mut Vec<usize>, used: &mut Vec<bool>, best: &mut Tour)
    requires
        store.wf(),
        search_inv(store@, old(prefix)@, old(used)@),
        tour_ok(store@, *old(best)),
    ensures
        final(prefix)@ == old(prefix)@,
        final(used)@ == old(used)@,
        tour_ok(store@, *final(best)),
        final(best).distance <= old(best).distance,
        covers(store@, old(prefix)@, final(best).distance as int),
    decreases store@.len() - old(prefix)@.len(),
{
    let ghost s = store@;
    let ghost p0 = prefix@;
    let ghost u0 = used@;
    let n = store.len();
    if prefix.len() == n {
        assert(is_permutation(prefix@, s.len() as int));
        let d = tour_distance(store, prefix);
        if d < best.distance {
            let route = copy_route(prefix);
            best.route = route;
            best.distance = d;
        }
        proof {
            assert forall|r: Seq<usize>|
                is_permutation(r, s.len() as int) && r.take(p0.len() as int) == p0 implies #[trigger] tour_dist(
                s,
                r,
            ) >= best.distance as int by {
                assert(r =~= p0);
            }
        }
    } else {
        let k = prefix.len();
        let mut c: usize = 0;
        #[verifier::loop_isolation(false)]
        while c < n
            invariant
                best.distance <= old(best).distance,
                store.wf(),
                s == store@,
                n == s.len(),
                search_inv(s, p0, u0),
                prefix@ == p0,
                used@ == u0,
                k == p0.len(),
                k < n,
                tour_ok(s, *best),
                c <= n,
                forall|r: Seq<usize>|
                    is_permutation(r, s.len() as int) && r.take(k as int) == p0 && (r[k as int]
                        as int) < c ==> #[trigger] tour_dist(s, r) >= best.distance as int,
            decreases n - c,
        {
            if !used[c] {
                used.set(c, true);
                prefix.push(c);
                proof {
                    assert forall|t: int| 0 <= t < used@.len() implies (#[trigger] used@[t]
                        <==> prefix@.contains(t as usize)) by {
                        if t == c as int {
                            assert(prefix@[k as int] == c);
                        } else {
                            if u0[t] {
                                let i = choose|i: int| 0 <= i < p0.len() && p0[i] == t as usize;
                                assert(prefix@[i] == t as usize);
                            } else {
                                if prefix@.contains(t as usize) {
                                    let i = choose|i: int|
                                        0 <= i < prefix@.len() && prefix@[i] == t as usize;
                                    assert(i < k ==> p0[i] == t as usize);
                                }
                            }
                        }
                    }
                    assert(search_inv(s, prefix@, used@));
                }
                search(store, prefix, used, best);
                let ghost p1 = prefix@;
                prefix.pop();
                used.set(c, false);
                proof {
                    assert(prefix@ =~= p0);
                    assert(used@ =~= u0);
                    assert(covers(s, p1, best.distance as int));
                }
            }
            proof {
                assert forall|r: Seq<usize>|
                    is_permutation(r, s.len() as int) && r.take(k as int) == p0 && (r[k as int]
                        as int) < c + 1 implies #[trigger] tour_dist(s, r) >= best.distance
                    as int by {
                    assert(r.len() == s.len() > k);
                    if (r[k as int] as int) < c as int {
                        // settled by an earlier turn of the loop; best only went down since
                    } else {
                        assert(r[k as int] == c);
                        if u0[c as int] {
                            // `c` already sits in the prefix, so no permutation extends the
                            // prefix with `c` again
                            let i = choose|i: int| 0 <= i < p0.len() && p0[i] == c;
                            assert(r.take(k as int)[i] == r[i]);
                            assert(r[i] == c);
                            assert(false);
                        } else {
                            assert(r.take(k + 1 as int) =~= p0.push(c)) by {
                                assert(forall|j: int|
                                    0 <= j < k ==> r.take(k + 1 as int)[j] == #[trigger] r.take(
                                        k as int,
                                    )[j]);
                            }
                        }
                    }
                }
            }
            c += 1;
        }
        proof {
            assert forall|r: Seq<usize>|
                is_permutation(r, s.len() as int) && r.take(p0.len() as int) == p0 implies #[trigger] tour_dist(
                s,
                r,
            ) >= best.distance as int by {
                assert(r.len() == s.len() > k);
                assert((r[k as int] as int) < n);
            }
        }
    }
}

impl CityStore {
    /// Exact strategy (brute force): tries every visiting order and returns
    /// the tour of globally minimal length. Factorial cost; intended for
    /// small stores only. Runs to completion with no time budget.
    pub fn solve(&self) -> (t: Tour)
        requires
            self.wf(),
        ensures
            tour_ok(self@, t),
            forall|r: Seq<usize>|
                is_permutation(r, self@.len() as int) ==> #[trigger] tour_dist(self@, r)
                    >= t.distance as int,
    {
        let ghost s = self@;
        let n = self.len();
        let route = make_identity(n);
        let d = tour_distance(self, &route);
        let mut best = Tour { route, distance: d };
        let mut prefix: Vec<usize> = Vec::new();
        let mut used: Vec<bool> = Vec::new();
        let mut i: usize = 0;
        while i < n
            invariant
                i <= n,
                used@.len() == i,
                forall|j: int| 0 <= j < i ==> !(#[trigger] used@[j]),
            decreases n - i,
        {
            used.push(false);
            i += 1;
        }
        proof {
            assert(search_inv(s, prefix@, used@));
        }
        search(self, &mut prefix, &mut used, &mut best);
        proof {
            assert forall|r: Seq<usize>| is_permutation(r, s.len() as int) implies #[trigger] tour_dist(
                s,
                r,
            ) >= best.distance as int by {
                assert(r.take(0) =~= prefix@);
            }
        }
        best
    }
}

} // verus!
