use tsp::store::{City, CityStore, Error};

fn city(x: i64, y: i64, name: &str) -> City {
    City { x, y, name: name.as_bytes().to_vec() }
}

fn unit_square() -> CityStore {
    // the four corners of a unit square, in fixed-point units
    CityStore::new(vec![
        city(0, 0, "a"),
        city(10000, 0, "b"),
        city(10000, 10000, "c"),
        city(0, 10000, "d"),
    ])
    .unwrap()
}

fn assert_is_permutation(route: &[usize], n: usize) {
    assert_eq!(route.len(), n);
    let mut seen = vec![false; n];
    for &i in route {
        assert!(i < n, "route index out of range");
        assert!(!seen[i], "route index repeated");
        seen[i] = true;
    }
    assert!(seen.iter().all(|&s| s), "route misses an index");
}

#[test]
fn exact_unit_square_optimum() {
    let store = unit_square();
    let t = store.solve();
    // walking the perimeter is optimal: four edges of one unit each
    assert_eq!(t.distance, 40000);
    assert_is_permutation(&t.route, 4);
}

#[test]
fn every_strategy_returns_a_permutation() {
    let cities = vec![
        city(0, 0, "a"),
        city(30000, 10000, "b"),
        city(-20000, 25000, "c"),
        city(5000, -40000, "d"),
        city(12345, 6789, "e"),
    ];
    let store = CityStore::new(cities).unwrap();
    let e = store.solve();
    assert_is_permutation(&e.route, 5);
    let a = store.anneal(50);
    assert_is_permutation(&a.route, 5);
    let h = store.hillclimb(50);
    assert_is_permutation(&h.route, 5);
}

#[test]
fn tour_distance_matches_recomputation() {
    let store = unit_square();
    let e = store.solve();
    assert_eq!(tsp::tour::tour_distance(&store, &e.route), e.distance);
    let a = store.anneal(20);
    assert_eq!(tsp::tour::tour_distance(&store, &a.route), a.distance);
    let h = store.hillclimb(20);
    assert_eq!(tsp::tour::tour_distance(&store, &h.route), h.distance);
}

#[test]
fn heuristics_never_beat_exact() {
    let cities = vec![
        city(0, 0, "a"),
        city(50000, 20000, "b"),
        city(-10000, 40000, "c"),
        city(25000, -30000, "d"),
        city(-42000, -7000, "e"),
        city(8000, 61000, "f"),
    ];
    let store = CityStore::new(cities).unwrap();
    let e = store.solve();
    let a = store.anneal(100);
    let h = store.hillclimb(100);
    assert!(a.distance >= e.distance);
    assert!(h.distance >= e.distance);
}

#[test]
fn heuristics_finish_within_budget() {
    let store = unit_square();
    let start = std::time::Instant::now();
    let _ = store.anneal(100);
    let _ = store.hillclimb(100);
    // both time-boxed runs, plus bounded overhead
    assert!(start.elapsed().as_millis() < 5000);
}

#[test]
fn single_city_distance_zero() {
    let store = CityStore::new(vec![city(7, -7, "only")]).unwrap();
    assert_eq!(store.solve().distance, 0);
    assert_eq!(store.anneal(10).distance, 0);
    assert_eq!(store.hillclimb(10).distance, 0);
}

#[test]
fn two_city_distance_is_there_and_back() {
    let a = city(0, 0, "a");
    let b = city(30000, 40000, "b");
    let d = tsp::store::distance(&a, &b);
    assert_eq!(d, 50000);
    let store = CityStore::new(vec![a, b]).unwrap();
    assert_eq!(store.solve().distance, 2 * d);
    assert_eq!(store.anneal(10).distance, 2 * d);
    assert_eq!(store.hillclimb(10).distance, 2 * d);
}

#[test]
fn duplicate_coordinates_give_zero_edges() {
    let store = CityStore::new(vec![city(5, 5, "x"), city(5, 5, "y")]).unwrap();
    assert_eq!(store.solve().distance, 0);
}

#[test]
fn report_maps_route_to_names() {
    let store = unit_square();
    let t = store.solve();
    let r = store.report(&t);
    assert_eq!(r.distance, t.distance);
    assert_eq!(r.names.len(), 4);
    let names = ["a", "b", "c", "d"];
    for (pos, &idx) in t.route.iter().enumerate() {
        assert_eq!(r.names[pos], names[idx].as_bytes().to_vec());
    }
}

#[test]
fn random_subset_full_size_is_every_city_once() {
    let cities = vec![
        city(1, 1, "a"),
        city(2, 2, "b"),
        city(3, 3, "c"),
        city(4, 4, "d"),
        city(5, 5, "e"),
    ];
    let store = CityStore::new(cities).unwrap();
    let sub = store.random_subset(5).unwrap();
    let mut got: Vec<(i64, i64, Vec<u8>)> = Vec::new();
    let t = sub.solve();
    assert_eq!(t.route.len(), 5);
    for i in 0..sub.len() {
        let c = sub.city(i);
        got.push((c.x, c.y, c.name.clone()));
    }
    got.sort();
    let want: Vec<(i64, i64, Vec<u8>)> = (1..=5i64)
        .zip(["a", "b", "c", "d", "e"])
        .map(|(v, n)| (v, v, n.as_bytes().to_vec()))
        .collect();
    assert_eq!(got, want);
}

#[test]
fn random_subset_size_errors() {
    let store = unit_square();
    assert_eq!(store.random_subset(5).unwrap_err(), Error::InvalidSize);
    assert_eq!(store.random_subset(0).unwrap_err(), Error::EmptyDataset);
    let sub = store.random_subset(2).unwrap();
    assert_eq!(sub.len(), 2);
}

#[test]
fn store_construction_errors() {
    assert_eq!(CityStore::new(vec![]).unwrap_err(), Error::EmptyDataset);
    let far = City { x: 1_000_000_000_000, y: 0, name: b"far".to_vec() };
    assert_eq!(CityStore::new(vec![far]).unwrap_err(), Error::Parse);
    let broken = City { x: 0, y: 0, name: b"two\nlines".to_vec() };
    assert_eq!(CityStore::new(vec![broken]).unwrap_err(), Error::Parse);
}
