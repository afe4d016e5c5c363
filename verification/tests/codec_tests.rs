use tsp::codec::{format_number, parse_number, parse_row};
use tsp::store::{City, CityStore, Error};

fn bytes(s: &str) -> Vec<u8> {
    s.as_bytes().to_vec()
}

#[test]
fn parse_number_exact_values() {
    assert_eq!(parse_number(&bytes("1.5")).unwrap(), 15000);
    assert_eq!(parse_number(&bytes("0")).unwrap(), 0);
    assert_eq!(parse_number(&bytes("-0.0001")).unwrap(), -1);
    assert_eq!(parse_number(&bytes("12345678.9999")).unwrap(), 123456789999);
    assert_eq!(parse_number(&bytes("-12345678.9999")).unwrap(), -123456789999);
    assert_eq!(parse_number(&bytes("3.14")).unwrap(), 31400);
    assert_eq!(parse_number(&bytes("007")).unwrap(), 70000);
}

#[test]
fn parse_number_rejects_malformed() {
    assert_eq!(parse_number(&bytes("")).unwrap_err(), Error::Parse);
    assert_eq!(parse_number(&bytes("-")).unwrap_err(), Error::Parse);
    assert_eq!(parse_number(&bytes(".5")).unwrap_err(), Error::Parse);
    assert_eq!(parse_number(&bytes("1.")).unwrap_err(), Error::Parse);
    assert_eq!(parse_number(&bytes("1.23456")).unwrap_err(), Error::Parse);
    assert_eq!(parse_number(&bytes("123456789")).unwrap_err(), Error::Parse);
    assert_eq!(parse_number(&bytes("1a")).unwrap_err(), Error::Parse);
    assert_eq!(parse_number(&bytes("1,5")).unwrap_err(), Error::Parse);
}

#[test]
fn format_number_round_trips() {
    assert_eq!(format_number(15000), bytes("1.5000"));
    assert_eq!(format_number(0), bytes("0.0000"));
    assert_eq!(format_number(-1), bytes("-0.0001"));
    for v in [0, 1, -1, 15000, -123456789999, 999999999999, 42] {
        assert_eq!(parse_number(&format_number(v)).unwrap(), v);
    }
}

#[test]
fn parse_row_fields() {
    let c = parse_row(&bytes("1.5,-2,home")).unwrap();
    assert_eq!(c.x, 15000);
    assert_eq!(c.y, -20000);
    assert_eq!(c.name, bytes("home"));
    let q = parse_row(&bytes("0,0,\"a,b\"")).unwrap();
    assert_eq!(q.name, bytes("a,b"));
    let qq = parse_row(&bytes("0,0,\"say \"\"hi\"\"\"")).unwrap();
    assert_eq!(qq.name, bytes("say \"hi\""));
    let empty = parse_row(&bytes("0,0,")).unwrap();
    assert_eq!(empty.name, bytes(""));
}

#[test]
fn parse_row_rejects_malformed() {
    assert_eq!(parse_row(&bytes("")).unwrap_err(), Error::Parse);
    assert_eq!(parse_row(&bytes("1.5")).unwrap_err(), Error::Parse);
    assert_eq!(parse_row(&bytes("1.5,2")).unwrap_err(), Error::Parse);
    assert_eq!(parse_row(&bytes("x,2,name")).unwrap_err(), Error::Parse);
    assert_eq!(parse_row(&bytes("1,2,\"open")).unwrap_err(), Error::Parse);
    assert_eq!(parse_row(&bytes("1,2,raw\"quote")).unwrap_err(), Error::Parse);
}

#[test]
fn load_parses_rows_in_order() {
    let input = bytes("1.5,2.25,alpha\n-3,4,beta\n");
    let store = CityStore::load(&input).unwrap();
    assert_eq!(store.len(), 2);
    assert_eq!(store.city(0).x, 15000);
    assert_eq!(store.city(0).y, 22500);
    assert_eq!(store.city(0).name, bytes("alpha"));
    assert_eq!(store.city(1).x, -30000);
    assert_eq!(store.city(1).name, bytes("beta"));
    // the final line break is optional
    let store2 = CityStore::load(&bytes("1,2,c")).unwrap();
    assert_eq!(store2.len(), 1);
}

#[test]
fn load_error_variants() {
    assert_eq!(CityStore::load(&bytes("")).unwrap_err(), Error::EmptyDataset);
    assert_eq!(CityStore::load(&bytes("\n")).unwrap_err(), Error::Parse);
    assert_eq!(CityStore::load(&bytes("nonsense\n")).unwrap_err(), Error::Parse);
    assert_eq!(CityStore::load(&bytes("1,2,ok\nbad row\n")).unwrap_err(), Error::Parse);
}

#[test]
fn save_then_load_round_trips() {
    let cities = vec![
        City { x: 15000, y: -22500, name: bytes("plain") },
        City { x: 0, y: 999999999999, name: bytes("with, comma") },
        City { x: -1, y: 1, name: bytes("say \"hi\"") },
        City { x: 42, y: -42, name: bytes("") },
    ];
    let store = CityStore::new(cities).unwrap();
    let written = store.save();
    let reloaded = CityStore::load(&written).unwrap();
    assert_eq!(reloaded.len(), store.len());
    for i in 0..store.len() {
        let a = store.city(i);
        let b = reloaded.city(i);
        assert_eq!(a.x, b.x);
        assert_eq!(a.y, b.y);
        assert_eq!(a.name, b.name);
    }
}

#[test]
fn save_writes_plain_rows() {
    let store = CityStore::new(vec![City { x: 15000, y: -20000, name: bytes("home") }]).unwrap();
    assert_eq!(store.save(), bytes("1.5000,-2.0000,home\n"));
}
