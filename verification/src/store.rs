//! Cities and the city store: an ordered, non-empty list of named fixed-point
//! points, validated on construction.

use vstd::prelude::*;
use crate::geometry::{COORD_LIMIT, dist_xy, distance_xy};

verus! {

/// Largest number of cities a store may hold; keeps every closed-tour length
/// inside `u64`.
pub const MAX_CITIES: usize = 1_000_000;

/// The error taxonomy of the library.
#[derive(Clone, Copy, PartialEq, Eq, Structural, Debug)]
pub enum Error {
    /// A malformed numeric or text field.
    Parse,
    /// Zero rows or zero cities where at least one is needed.
    EmptyDataset,
    /// A requested size exceeds what the source offers, or a store exceeds
    /// the capacity bound.
    InvalidSize,
    /// Unrecognized command or arguments.
    Usage,
}

/// The mathematical value of a city: two coordinates and a name.
pub ghost struct CityV {
    pub x: int,
    pub y: int,
    pub name: Seq<u8>,
}

/// A named point of the plane. Coordinates are fixed-point decimals with
/// four decimal places (see `geometry::SCALE`).
#[derive(Debug)]
pub struct City {
    pub x: i64,
    pub y: i64,
    pub name: Vec<u8>,
}

impl View for City {
    type V = CityV;

    open spec fn view(&self) -> CityV {
        CityV { x: self.x as int, y: self.y as int, name: self.name@ }
    }
}

/// A city the store accepts: coordinates within range, and a name free of
/// line breaks so that it can live in one tabular row.
pub open spec fn name_ok_spec(name: Seq<u8>) -> bool {
    forall|i: int| 0 <= i < name.len() ==> name[i] != 10
}

pub open spec fn city_ok(c: CityV) -> bool {
    &&& -(COORD_LIMIT as int) <= c.x <= COORD_LIMIT as int
    &&& -(COORD_LIMIT as int) <= c.y <= COORD_LIMIT as int
    &&& name_ok_spec(c.name)
}

/// A well-formed store contents: non-empty, within capacity, every city valid.
pub open spec fn store_ok(s: Seq<CityV>) -> bool {
    &&& 1 <= s.len() <= MAX_CITIES as int
    &&& forall|i: int| 0 <= i < s.len() ==> city_ok(#[trigger] s[i])
}

/// Length of the edge between two cities under the distance model.
pub open spec fn city_dist(a: CityV, b: CityV) -> int {
    dist_xy(a.x, a.y, b.x, b.y)
}

/// An ordered, index-stable collection of cities. Always well formed:
/// non-empty and within the coordinate and capacity bounds.
#[derive(Debug)]
pub struct CityStore {
    cities: Vec<City>,
}

impl View for CityStore {
    type V = Seq<CityV>;

    closed spec fn view(&self) -> Seq<CityV> {
        self.cities@.map_values(|c: City| c@)
    }
}

/// Whether every byte of `name` is free of line breaks.
fn name_ok(name: &Vec<u8>) -> (r: bool)
    ensures
        r == name_ok_spec(name@),
{
    let mut i: usize = 0;
    while i < name.len()
        invariant
            i <= name@.len(),
            forall|j: int| 0 <= j < i ==> name@[j] != 10,
        decreases name@.len() - i,
    {
        if name[i] == 10 {
            assert(!name_ok_spec(name@));
            return false;
        }
        i += 1;
    }
    true
}

/// Whether one city passes the store's validity checks.
fn city_check(c: &City) -> (r: bool)
    ensures
        r == city_ok(c@),
{
    if c.x < -COORD_LIMIT || c.x > COORD_LIMIT {
        return false;
    }
    if c.y < -COORD_LIMIT || c.y > COORD_LIMIT {
        return false;
    }
    name_ok(&c.name)
}

impl CityStore {
    /// The store is always well formed.
    pub open spec fn wf(&self) -> bool {
        store_ok(self@)
    }

    /// Builds a store from a list of cities, validating it whole: the list
    /// must be non-empty, within capacity, with every coordinate in range and
    /// no line break inside a name.
    pub fn new(cities: Vec<City>) -> (r: Result<CityStore, Error>)
        ensures
            match r {
                Ok(s) => s.wf() && s@ == cities@.map_values(|c: City| c@),
                Err(e) => {
                    &&& !store_ok(cities@.map_values(|c: City| c@))
                    &&& e == (if cities@.len() == 0 {
                        Error::EmptyDataset
                    } else if cities@.len() > MAX_CITIES as int {
                        Error::InvalidSize
                    } else {
                        Error::Parse
                    })
                },
            },
    {
        let ghost v = cities@.map_values(|c: City| c@);
        if cities.len() == 0 {
            return Err(Error::EmptyDataset);
        }
        if cities.len() > MAX_CITIES {
            return Err(Error::InvalidSize);
        }
        let mut i: usize = 0;
        while i < cities.len()
            invariant
                i <= v.len(),
                v == cities@.map_values(|c: City| c@),
                v.len() == cities@.len(),
                1 <= v.len() <= MAX_CITIES as int,
                forall|j: int| 0 <= j < i ==> city_ok(#[trigger] v[j]),
            decreases v.len() - i,
        {
            if !city_check(&cities[i]) {
                assert(!city_ok(v[i as int]));
                return Err(Error::Parse);
            }
            i += 1;
        }
        let s = CityStore { cities };
        assert(s@ == v);
        Ok(s)
    }

    /// Wraps a list already known to satisfy the store's validity checks.
    pub(crate) fn from_checked(cities: Vec<City>) -> (s: CityStore)
        requires
            store_ok(cities@.map_values(|c: City| c@)),
        ensures
            s.wf(),
            s@ == cities@.map_values(|c: City| c@),
    {
        CityStore { cities }
    }

    /// Number of cities.
    pub fn len(&self) -> (n: usize)
        ensures
            n == self@.len(),
    {
        self.cities.len()
    }

    /// The city at position `i`.
    pub fn city(&self, i: usize) -> (c: &City)
        requires
            i < self@.len(),
        ensures
            c@ == self@[i as int],
    {
        &self.cities[i]
    }
}

/// Copies a byte string.
pub(crate) fn copy_bytes(v: &Vec<u8>) -> (r: Vec<u8>)
    ensures
        r@ == v@,
{
    let mut r: Vec<u8> = Vec::new();
    let mut i: usize = 0;
    while i < v.len()
        invariant
            i <= v@.len(),
            r@ == v@.take(i as int),
        decreases v@.len() - i,
    {
        r.push(v[i]);
        proof {
            assert(v@.take(i + 1 as int) =~= v@.take(i as int).push(v@[i as int]));
        }
        i += 1;
    }
    proof {
        assert(v@.take(v@.len() as int) =~= v@);
    }
    r
}

/// Copies a city.
pub(crate) fn city_copy(c: &City) -> (r: City)
    ensures
        r@ == c@,
{
    City { x: c.x, y: c.y, name: copy_bytes(&c.name) }
}

/// `sub` lists, in the order given by the duplicate-free index list `p`,
/// exactly the cities of `src` at those positions.
pub open spec fn selection_of(sub: Seq<CityV>, src: Seq<CityV>, p: Seq<usize>) -> bool {
    &&& sub.len() == p.len()
    &&& forall|i: int| 0 <= i < p.len() ==> (#[trigger] p[i] as int) < src.len()
    &&& forall|i: int, j: int| 0 <= i < j < p.len() ==> p[i] != p[j]
    &&& forall|i: int| 0 <= i < p.len() ==> #[trigger] sub[i] == src[p[i] as int]
}

impl CityStore {
    /// Draws `k` cities from this store without replacement, by a partial
    /// Fisher-Yates shuffle of the index space, preserving each drawn city
    /// unchanged. Some duplicate-free set of `k` positions comes back, in
    /// some order; with `k` equal to the store's size that is every city
    /// exactly once.
    pub fn random_subset(&self, k: usize) -> (r: Result<CityStore, Error>)
        requires
            self.wf(),
        ensures
            match r {
                Ok(sub) => {
                    &&& 1 <= k as int <= self@.len()
                    &&& sub.wf()
                    &&& sub@.len() == k as int
                    &&& exists|p: Seq<usize>| #[trigger] selection_of(sub@, self@, p)
                },
                Err(e) => {
                    &&& (k == 0 || k as int > self@.len())
                    &&& e == (if k as int > self@.len() {
                        Error::InvalidSize
                    } else {
                        Error::EmptyDataset
                    })
                },
            },
    {
        let ghost s = self@;
        let n = self.len();
        if k > n {
            return Err(Error::InvalidSize);
        }
        if k == 0 {
            return Err(Error::EmptyDataset);
        }
        let mut perm = crate::tour::make_identity(n);
        let mut rng = crate::rng::fresh_rng();
        let mut i: usize = 0;
        #[verifier::loop_isolation(false)]
        while i < k
            invariant
                crate::tour::is_permutation(perm@, n as int),
            decreases k - i,
        {
            let j = i + crate::rng::rng_below(&mut rng, n - i);
            let ghost before = perm@;
            crate::tour::swap_route(&mut perm, i, j);
            proof {
                crate::tour::lemma_swap_permutation(before, n as int, i as int, j as int);
            }
            i += 1;
        }
        let mut cities: Vec<City> = Vec::new();
        let mut t: usize = 0;
        #[verifier::loop_isolation(false)]
        while t < k
            invariant
                cities@.len() == t,
                t <= k,
                forall|q: int|
                    0 <= q < t ==> (#[trigger] cities@[q])@ == s[perm@[q] as int],
                crate::tour::is_permutation(perm@, n as int),
            decreases k - t,
        {
            cities.push(city_copy(self.city(perm[t])));
            t += 1;
        }
        let sub = CityStore { cities };
        proof {
            let p = perm@.take(k as int);
            assert forall|q: int| 0 <= q < p.len() implies #[trigger] sub@[q] == s[p[q] as int] by {
                assert(sub@[q] == cities@[q]@);
            }
            assert(selection_of(sub@, s, p));
            assert forall|q: int| 0 <= q < sub@.len() implies city_ok(#[trigger] sub@[q]) by {
                assert(sub@[q] == s[p[q] as int]);
            }
        }
        Ok(sub)
    }
}

/// Edge length between two cities: the floor of the Euclidean norm of the
/// coordinate difference. Pure; used identically by all strategies.
pub fn distance(a: &City, b: &City) -> (d: u64)
    requires
        city_ok(a@),
        city_ok(b@),
    ensures
        d as int == city_dist(a@, b@),
{
    distance_xy(a.x, a.y, b.x, b.y)
}

} // verus!
