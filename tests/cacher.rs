use std::cell::Cell;

use cacher::CacheKey;
use cacher::Cacher;

#[test]
fn call_with_different_values() {
    let mut c = Cacher::new(|a| a);

    c.value(1);
    let result = c.value(2);
    assert_eq!(result, 2);
}

#[test]
fn call_with_different_types() {
    let mut c = Cacher::new(|a: char| a.is_ascii_alphanumeric());
    let result = c.value('a');
    assert_eq!(result, true);

    let mut c = Cacher::new(|a: &str| a.len());
    let result = c.value("hello");
    assert_eq!(result, 5);
}

#[test]
fn identity_keeps_entries_apart() {
    let mut c = Cacher::new(|a: i32| a);
    assert_eq!(c.value(1), 1);
    assert_eq!(c.value(2), 2);
    assert_eq!(c.value(1), 1);
    assert_eq!(c.value(2), 2);
}

#[test]
fn repeated_input_runs_computation_once() {
    let calls = Cell::new(0u32);
    let mut c = Cacher::new(|a: i32| {
        calls.set(calls.get() + 1);
        a * 3
    });
    let first = c.value(7);
    let second = c.value(7);
    assert_eq!(calls.get(), 1);
    assert_eq!(first, second);
    assert_eq!(first, 21);
}

#[test]
fn fresh_input_matches_direct_call() {
    let square = |a: u64| a * a + 1;
    let mut c = Cacher::new(square);
    for x in [0u64, 3, 10, 4_000_000] {
        assert_eq!(c.value(x), square(x));
    }
}

#[test]
fn distinct_inputs_computed_separately() {
    let calls = Cell::new(0u32);
    let mut c = Cacher::new(|a: u8| {
        calls.set(calls.get() + 1);
        a as u32 + 100
    });
    assert_eq!(c.value(1), 101);
    assert_eq!(c.value(2), 102);
    assert_eq!(calls.get(), 2);
    assert_eq!(c.value(1), 101);
    assert_eq!(c.value(2), 102);
    assert_eq!(calls.get(), 2);
}

#[test]
fn char_classifier_rejects_punctuation() {
    let mut c = Cacher::new(|a: char| a.is_ascii_alphanumeric());
    assert_eq!(c.value('a'), true);
    assert_eq!(c.value('!'), false);
    assert_eq!(c.value('7'), true);
    assert_eq!(c.value('!'), false);
}

#[test]
fn string_keys_compare_by_content() {
    let calls = Cell::new(0u32);
    let owned = String::from("ab");
    let mut c = Cacher::new(|a: &str| {
        calls.set(calls.get() + 1);
        a.len()
    });
    assert_eq!(c.value("ab"), 2);
    assert_eq!(c.value(owned.as_str()), 2);
    assert_eq!(calls.get(), 1);
    assert_eq!(c.value(""), 0);
    assert_eq!(c.value("héllo"), 6);
    assert_eq!(calls.get(), 3);
}

#[test]
fn cached_value_survives_later_inputs() {
    let mut c = Cacher::new(|a: i64| a - 1);
    assert_eq!(c.value(i64::MAX), i64::MAX - 1);
    for x in 0i64..50 {
        assert_eq!(c.value(x), x - 1);
    }
    assert_eq!(c.value(i64::MAX), i64::MAX - 1);
}

#[test]
fn same_key_on_strings() {
    assert!("hello".same_key(&"hello"));
    assert!(!"hello".same_key(&"hellp"));
    assert!(!"hell".same_key(&"hello"));
    assert!("".same_key(&""));
    assert!(!"é".same_key(&"e"));
}

#[test]
fn same_key_on_scalars() {
    assert!('x'.same_key(&'x'));
    assert!(!'x'.same_key(&'y'));
    assert!(5u32.same_key(&5u32));
    assert!(!(-1i32).same_key(&1i32));
    assert!(true.same_key(&true));
    assert!(!true.same_key(&false));
}
