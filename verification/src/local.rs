//! Time-boxed local search strategies: simulated annealing and hill
//! climbing. Both start from the store-order tour, perturb it by random
//! position swaps, and return the best correct tour observed before the
//! caller's wall-clock budget runs out.

use vstd::prelude::*;
use crate::clock::{clock_now, elapsed_millis};
use crate::rng::rng_below;
use crate::rng::fresh_rng;
use crate::store::CityStore;
use crate::tour::{
    Tour, copy_route, identity_route, is_permutation, lemma_swap_permutation, make_identity,
    swap_route, tour_dist, tour_distance, tour_ok, MAX_TOUR,
};

verus! {

/// A hard cap on search steps, so that both loops terminate even on a
/// clock that never advances.
pub const MAX_STEPS: u64 = 1_000_000_000_000;

/// Consecutive failed proposals after which hill climbing gives up.
pub const STALL_LIMIT: u64 = 10_000;

/// One fixed-point unit for the acceptance probability (sixteen fraction
/// bits).
pub const PROB_ONE: u64 = 65536;

/// Fixed-point approximation of `PROB_ONE * exp(-x / PROB_ONE)`, clamped to
/// `[0, PROB_ONE]`: a whole-unit product of `1/e` factors and a first-order
/// factor for the fractional part.
fn exp_neg16(x: u64) -> (p: u64)
    requires
        x <= 16 * PROB_ONE,
    ensures
        p <= PROB_ONE,
{
    let whole = x / PROB_ONE;
    let frac = x % PROB_ONE;
    let mut p: u64 = PROB_ONE;
    let mut i: u64 = 0;
    while i < whole
        invariant
            p <= PROB_ONE,
            i <= whole,
            whole <= 16,
        decreases whole - i,
    {
        proof {
            assert(p * 24109 <= 65536 * 24109) by (nonlinear_arith)
                requires
                    0 <= p <= 65536,
            ;
            assert((p * 24109) / 65536 <= 65536) by (nonlinear_arith)
                requires
                    0 <= p * 24109 <= 65536 * 24109,
            ;
        }
        p = (p * 24109) / PROB_ONE;
        i += 1;
    }
    proof {
        assert(p * (65536 - frac) <= 65536 * 65536) by (nonlinear_arith)
            requires
                0 <= p <= 65536,
                0 <= 65536 - frac <= 65536,
        ;
        assert((p * (65536 - frac)) / 65536 <= 65536) by (nonlinear_arith)
            requires
                0 <= p * (65536 - frac) <= 65536 * 65536,
        ;
    }
    p = (p * (PROB_ONE - frac)) / PROB_ONE;
    p
}

impl CityStore {
    /// Annealing strategy: starts from the store-order tour, proposes random
    /// swaps, always accepts improvements, and accepts worsening moves with
    /// probability near `exp(-delta / temperature)` under a linear cooling
    /// schedule over the remaining budget. Returns the best tour observed
    /// within `budget_millis` of wall-clock time; it is always a correct
    /// tour, never longer than the store-order tour it started from.
    pub fn anneal(&self, budget_millis: u64) -> (t: Tour)
        requires
            self.wf(),
        ensures
            tour_ok(self@, t),
            t.distance as int <= tour_dist(self@, identity_route(self@.len() as int)),
    {
        let ghost s = self@;
        let n = self.len();
        let route = make_identity(n);
        let d0 = tour_distance(self, &route);
        let mut cur = copy_route(&route);
        let mut cur_d = d0;
        let mut best = Tour { route, distance: d0 };
        let mut rng = fresh_rng();
        let start = clock_now();
        let mut steps: u64 = 0;
        #[verifier::loop_isolation(false)]
        while steps < MAX_STEPS
            invariant
                tour_ok(s, best),
                best.distance <= d0,
                is_permutation(cur@, s.len() as int),
                cur_d as int == tour_dist(s, cur@),
                cur_d <= MAX_TOUR,
            decreases MAX_STEPS - steps,
        {
            let e = elapsed_millis(&start);
            if e >= budget_millis {
                break;
            }
            // linear cooling: temperature falls with the remaining budget
            let remaining = budget_millis - e;
            proof {
                assert(d0 as int * remaining as int <= 3_000_000_000_000_000_000
                    * 18_446_744_073_709_551_615) by (nonlinear_arith)
                    requires
                        0 <= d0 as int <= 3_000_000_000_000_000_000,
                        0 <= remaining as int <= 18_446_744_073_709_551_615,
                ;
                assert((d0 as int * remaining as int) / budget_millis as int <= d0 as int)
                    by (nonlinear_arith)
                    requires
                        0 <= d0 as int,
                        0 <= remaining as int <= budget_millis as int,
                        1 <= budget_millis as int,
                ;
            }
            let temp = (((d0 as u128) * (remaining as u128)) / (budget_millis as u128)) as u64
                + 1;
            let i = rng_below(&mut rng, n);
            let j = rng_below(&mut rng, n);
            let ghost c_before = cur@;
            swap_route(&mut cur, i, j);
            proof {
                lemma_swap_permutation(c_before, s.len() as int, i as int, j as int);
            }
            let nd = tour_distance(self, &cur);
            let accept = if nd <= cur_d {
                true
            } else {
                let delta = nd - cur_d;
                let x128 = ((delta as u128) * (PROB_ONE as u128)) / (temp as u128);
                let x = if x128 >= 16 * (PROB_ONE as u128) {
                    16 * PROB_ONE
                } else {
                    x128 as u64
                };
                let p = exp_neg16(x);
                let u = rng_below(&mut rng, PROB_ONE as usize);
                (u as u64) < p
            };
            if accept {
                cur_d = nd;
                if nd < best.distance {
                    best.route = copy_route(&cur);
                    best.distance = nd;
                }
            } else {
                swap_route(&mut cur, i, j);
                proof {
                    assert(cur@ =~= c_before);
                }
            }
            steps += 1;
        }
        best
    }

    /// Hill-climb strategy: starts from the store-order tour, proposes
    /// random swaps, and accepts only strict improvements. Stops when
    /// `STALL_LIMIT` proposals in a row brought no improvement or when
    /// `budget_millis` of wall-clock time have elapsed. The result is always
    /// a correct tour, never longer than the store-order tour it started
    /// from.
    pub fn hillclimb(&self, budget_millis: u64) -> (t: Tour)
        requires
            self.wf(),
        ensures
            tour_ok(self@, t),
            t.distance as int <= tour_dist(self@, identity_route(self@.len() as int)),
    {
        let ghost s = self@;
        let n = self.len();
        let mut cur = make_identity(n);
        let d0 = tour_distance(self, &cur);
        let mut cur_d = d0;
        let mut rng = fresh_rng();
        let start = clock_now();
        let mut steps: u64 = 0;
        let mut stalled: u64 = 0;
        #[verifier::loop_isolation(false)]
        while steps < MAX_STEPS
            invariant
                is_permutation(cur@, s.len() as int),
                cur_d as int == tour_dist(s, cur@),
                cur_d <= d0,
            decreases MAX_STEPS - steps,
        {
            if stalled >= STALL_LIMIT {
                break;
            }
            if elapsed_millis(&start) >= budget_millis {
                break;
            }
            let i = rng_below(&mut rng, n);
            let j = rng_below(&mut rng, n);
            let ghost c_before = cur@;
            swap_route(&mut cur, i, j);
            proof {
                lemma_swap_permutation(c_before, s.len() as int, i as int, j as int);
            }
            let nd = tour_distance(self, &cur);
            if nd < cur_d {
                cur_d = nd;
                stalled = 0;
            } else {
                swap_route(&mut cur, i, j);
                proof {
                    assert(cur@ =~= c_before);
                }
                if stalled < STALL_LIMIT {
                    stalled += 1;
                }
            }
            steps += 1;
        }
        Tour { route: cur, distance: cur_d }
    }
}

} // verus!
