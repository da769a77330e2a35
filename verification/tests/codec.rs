//! Tests of the geohash codec: encoding, neighbors, and their failures.

use geostore::geohash::{ghash, neighbors, GeoError};

fn enc(lat_e7: i64, lon_e7: i64) -> String {
    ghash(lon_e7, lat_e7).expect("coordinates in range")
}

#[test]
fn encode_known_values() {
    assert_eq!(enc(400_000_000, -730_000_000), "drh5dcg0b");
    assert_eq!(enc(488_583_000, 22_944_000), "u09tunqsp");
    assert_eq!(enc(0, 0), "s00000000");
    assert_eq!(enc(-338_587_000, 1_512_140_000), "r3gx2unwv");
    assert_eq!(enc(576_491_100, 104_074_400), "u4pruydqq");
}

#[test]
fn encode_extremes() {
    assert_eq!(enc(900_000_000, 1_800_000_000), "zzzzzzzzz");
    assert_eq!(enc(-900_000_000, -1_800_000_000), "000000000");
}

#[test]
fn encode_rejects_out_of_range() {
    assert_eq!(ghash(1_800_000_001, 0), Err(GeoError::Encoding));
    assert_eq!(ghash(-1_800_000_001, 0), Err(GeoError::Encoding));
    assert_eq!(ghash(0, 900_000_001), Err(GeoError::Encoding));
    assert_eq!(ghash(0, -900_000_001), Err(GeoError::Encoding));
}

#[test]
fn neighbors_known_values() {
    let n = neighbors(&String::from("u4pruyd")).expect("well formed");
    let expected = vec![
        "u4pruyf", "u4pruyg", "u4pruye", "u4pruy7", "u4pruy6", "u4pruy3", "u4pruy9", "u4pruyc",
    ];
    assert_eq!(n.len(), 8);
    let mut i = 0;
    while i < 8 {
        assert_eq!(n[i], expected[i]);
        i += 1;
    }
}

#[test]
fn neighbors_rejects_malformed_keys() {
    assert!(neighbors(&String::new()).is_err());
    assert!(neighbors(&String::from("abc")).is_err());
    assert!(neighbors(&String::from("dr5regy3zdr5r")).is_err());
    assert!(neighbors(&String::from("dr5reg!")).is_err());
}

#[test]
fn neighbor_round_trip() {
    // stepping east and then west comes back to the same cell
    let g = enc(400_000_000, -730_000_000);
    let east = neighbors(&g).unwrap()[2].clone();
    let back = neighbors(&east).unwrap()[6].clone();
    assert_eq!(back, g);
    // and so does north then south
    let north = neighbors(&g).unwrap()[0].clone();
    let down = neighbors(&north).unwrap()[4].clone();
    assert_eq!(down, g);
}
