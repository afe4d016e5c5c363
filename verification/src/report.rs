//! Reporter: turns a tour back into the visited city names, in route order,
//! next to its distance.

use vstd::prelude::*;
use crate::store::{copy_bytes, CityStore};
use crate::tour::{valid_route, Tour};

verus! {

/// What the reporter hands out: the tour's distance for the primary output
/// channel, and the ordered name sequence for the diagnostic channel. Two
/// separable values, not one combined line.
pub struct Report {
    pub distance: u64,
    pub names: Vec<Vec<u8>>,
}

impl CityStore {
    /// Maps each route index back to its city's name, preserving route
    /// order; neither the store nor the tour is changed.
    pub fn report(&self, t: &Tour) -> (r: Report)
        requires
            self.wf(),
            valid_route(self@, t.route@),
        ensures
            r.distance == t.distance,
            r.names@.len() == t.route@.len(),
            forall|i: int|
                0 <= i < t.route@.len() ==> (#[trigger] r.names@[i])@ == self@[t.route@[i] as int].name,
    {
        let mut names: Vec<Vec<u8>> = Vec::new();
        let mut i: usize = 0;
        #[verifier::loop_isolation(false)]
        while i < t.route.len()
            invariant
                names@.len() == i,
                i <= t.route@.len(),
                forall|q: int|
                    0 <= q < i ==> (#[trigger] names@[q])@ == self@[t.route@[q] as int].name,
            decreases t.route@.len() - i,
        {
            names.push(copy_bytes(&self.city(t.route[i]).name));
            i += 1;
        }
        Report { distance: t.distance, names }
    }
}

} // verus!
