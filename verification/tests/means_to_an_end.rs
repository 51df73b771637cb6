use protohackers_rs::means_to_an_end::{handle_request, range_average, Message};
use std::collections::BTreeMap;

fn request(kind: u8, first: i32, second: i32) -> [u8; 9] {
    let mut bytes = [0u8; 9];
    bytes[0] = kind;
    bytes[1..5].copy_from_slice(&first.to_be_bytes());
    bytes[5..9].copy_from_slice(&second.to_be_bytes());
    bytes
}

#[test]
fn requests_are_nine_bytes() {
    assert_eq!(
        Message::try_from(request(b'I', 12345, 101)).unwrap(),
        Message::Insert { timestamp: 12345, price: 101 }
    );
    assert_eq!(
        Message::try_from(request(b'Q', -1, i32::MIN)).unwrap(),
        Message::Query { from: -1, to: i32::MIN }
    );
    assert_eq!(
        Message::try_from(request(b'I', i32::MAX, -2)).unwrap(),
        Message::Insert { timestamp: i32::MAX, price: -2 }
    );
    assert_eq!(Message::try_from(request(b'X', 1, 2)).unwrap(), Message::Unknown);
    assert_eq!(Message::try_from(request(b'i', 1, 2)).unwrap(), Message::Unknown);
    assert_eq!(
        Message::try_from([0x49, 0x00, 0x00, 0x30, 0x39, 0x00, 0x00, 0x00, 0x65]).unwrap(),
        Message::Insert { timestamp: 12345, price: 101 }
    );
}

#[test]
fn the_mean_is_taken_over_the_period() {
    let mut prices = BTreeMap::new();
    prices.insert(12345, 101);
    prices.insert(12346, 102);
    prices.insert(12347, 100);
    prices.insert(40960, 5);
    assert_eq!(range_average(&prices, 12288, 16384), 101);
    assert_eq!(range_average(&prices, 12345, 12345), 101);
    assert_eq!(range_average(&prices, 12346, 12347), 101);
    assert_eq!(range_average(&prices, i32::MIN, i32::MAX), 77);
    assert_eq!(range_average(&prices, 12348, 40959), 0);
    assert_eq!(range_average(&prices, 16384, 12288), 0);
    assert_eq!(range_average(&BTreeMap::new(), 0, 100), 0);
}

#[test]
fn the_mean_is_rounded_towards_zero() {
    let mut prices = BTreeMap::new();
    prices.insert(-3, -3);
    prices.insert(-2, -4);
    assert_eq!(range_average(&prices, -10, 10), -3);
    prices.insert(5, 8);
    prices.insert(6, 9);
    assert_eq!(range_average(&prices, 5, 6), 8);
    assert_eq!(range_average(&prices, -3, 6), 2);
    let mut extremes = BTreeMap::new();
    extremes.insert(1, i32::MIN);
    extremes.insert(2, i32::MIN);
    assert_eq!(range_average(&extremes, 1, 2), i32::MIN);
    extremes.insert(3, i32::MAX);
    extremes.insert(4, i32::MAX);
    assert_eq!(range_average(&extremes, 3, 4), i32::MAX);
    assert_eq!(range_average(&extremes, 1, 4), 0);
}

#[test]
fn an_insertion_is_stored_and_a_query_answered() {
    let mut db = BTreeMap::new();
    assert!(handle_request(&mut db, request(b'I', 12345, 101)).is_empty());
    assert!(handle_request(&mut db, request(b'I', 12346, 102)).is_empty());
    assert!(handle_request(&mut db, request(b'I', 12347, 100)).is_empty());
    assert!(handle_request(&mut db, request(b'I', 40960, 5)).is_empty());
    assert_eq!(db.len(), 4);
    assert_eq!(
        handle_request(&mut db, request(b'Q', 12288, 16384)),
        vec![0x00, 0x00, 0x00, 0x65]
    );
    assert!(handle_request(&mut db, request(b'I', 12345, -1000)).is_empty());
    assert_eq!(db.get(&12345), Some(&-1000));
    assert_eq!(
        handle_request(&mut db, request(b'Q', 12345, 12345)),
        (-1000i32).to_be_bytes().to_vec()
    );
    assert_eq!(handle_request(&mut db, request(b'Z', 0, 0)), b"Unknown\n".to_vec());
    assert_eq!(db.len(), 4);
}
