use keyvaldb::json::to_json;
use keyvaldb::store::{BatchOp, Found, IncrementError, Store};
use keyvaldb::value::Value;
use keyvaldb::TTL_DEFAULT;

fn s(x: &str) -> String {
    x.to_string()
}

#[test]
fn set_then_get_round_trip() {
    let mut st = Store::new();
    st.set(s("k"), Value::Int(7), 30, 100);
    let got = st.get(&s("k"), 110).unwrap();
    assert_eq!(to_json(got), "7");
    assert!(st.get(&s("k"), 129).is_some());
    assert!(st.get(&s("k"), 130).is_none());
}

#[test]
fn set_replaces_wholesale() {
    let mut st = Store::new();
    st.set(s("k"), Value::Int(1), 10, 0);
    st.set(s("k"), Value::Str(s("fresh")), 50, 5);
    assert_eq!(to_json(st.get(&s("k"), 20).unwrap()), "\"fresh\"");
    assert!(st.get(&s("k"), 54).is_some());
    assert!(st.get(&s("k"), 55).is_none());
}

#[test]
fn delete_then_get_absent() {
    let mut st = Store::new();
    st.set(s("a"), Value::Bool(true), 30, 0);
    st.set(s("b"), Value::Null, 30, 0);
    assert!(st.delete(&s("a")));
    assert!(st.get(&s("a"), 0).is_none());
    assert_eq!(to_json(st.get(&s("b"), 0).unwrap()), "null");
    assert!(!st.delete(&s("a")));
}

#[test]
fn delete_works_on_expired_entries() {
    let mut st = Store::new();
    st.set(s("a"), Value::Int(1), 5, 0);
    assert!(st.get(&s("a"), 100).is_none());
    assert!(st.delete(&s("a")));
    assert!(!st.delete(&s("a")));
}

#[test]
fn increment_absent_starts_at_one() {
    let mut st = Store::new();
    assert_eq!(st.increment(&s("c"), 41, TTL_DEFAULT, 100), Ok(1));
    assert_eq!(to_json(st.get(&s("c"), 100).unwrap()), "1");
    assert!(st.get(&s("c"), 129).is_some());
    assert!(st.get(&s("c"), 130).is_none());
    let mut st2 = Store::new();
    assert_eq!(st2.increment(&s("c"), -99, TTL_DEFAULT, 0), Ok(1));
    assert_eq!(to_json(st2.get(&s("c"), 0).unwrap()), "1");
}

#[test]
fn increment_adds_delta_and_keeps_metadata() {
    let mut st = Store::new();
    st.set(s("n"), Value::Int(10), 30, 100);
    assert_eq!(st.increment(&s("n"), 5, TTL_DEFAULT, 200), Ok(15));
    assert_eq!(to_json(st.get(&s("n"), 110).unwrap()), "15");
    assert!(st.get(&s("n"), 129).is_some());
    assert!(st.get(&s("n"), 130).is_none());
    assert_eq!(st.increment(&s("n"), -20, TTL_DEFAULT, 110), Ok(-5));
    assert_eq!(to_json(st.get(&s("n"), 110).unwrap()), "-5");
}

#[test]
fn increment_non_integer_is_refused() {
    let mut st = Store::new();
    st.set(s("t"), Value::Str(s("hello")), 30, 0);
    assert_eq!(st.increment(&s("t"), 1, TTL_DEFAULT, 0), Err(IncrementError::NotAnInteger));
    assert_eq!(to_json(st.get(&s("t"), 0).unwrap()), "\"hello\"");
    let mut st2 = Store::new();
    st2.set(s("o"), Value::Obj(vec![(s("a"), Value::Int(1))]), 30, 0);
    assert_eq!(st2.increment(&s("o"), 1, TTL_DEFAULT, 0), Err(IncrementError::NotAnInteger));
    assert_eq!(to_json(st2.get(&s("o"), 0).unwrap()), "{\"a\":1}");
}

#[test]
fn increment_overflow_is_refused() {
    let mut st = Store::new();
    st.set(s("m"), Value::Int(i64::MAX), 30, 0);
    assert_eq!(st.increment(&s("m"), 1, TTL_DEFAULT, 0), Err(IncrementError::Overflow));
    assert_eq!(to_json(st.get(&s("m"), 0).unwrap()), "9223372036854775807");
}

#[test]
fn increment_ignores_expiration() {
    let mut st = Store::new();
    st.set(s("e"), Value::Int(1), 10, 0);
    assert_eq!(st.increment(&s("e"), 2, TTL_DEFAULT, 1000), Ok(3));
    assert!(st.get(&s("e"), 1000).is_none());
}

#[test]
fn batch_last_writer_wins() {
    let mut st = Store::new();
    let ops = vec![
        BatchOp::Put { key: s("a"), value: Value::Int(1), ttl: None },
        BatchOp::Del { key: s("a") },
        BatchOp::Put { key: s("a"), value: Value::Int(2), ttl: None },
    ];
    st.apply_batch(ops, TTL_DEFAULT, 0);
    assert_eq!(to_json(st.get(&s("a"), 0).unwrap()), "2");
}

#[test]
fn batch_applies_in_order_with_ttls() {
    let mut st = Store::new();
    st.set(s("gone"), Value::Int(9), 30, 0);
    let ops = vec![
        BatchOp::Put { key: s("x"), value: Value::Bool(false), ttl: Some(5) },
        BatchOp::Del { key: s("gone") },
        BatchOp::Put { key: s("y"), value: Value::Null, ttl: None },
    ];
    st.apply_batch(ops, 20, 100);
    assert!(st.get(&s("gone"), 100).is_none());
    assert_eq!(to_json(st.get(&s("x"), 100).unwrap()), "false");
    assert!(st.get(&s("x"), 104).is_some());
    assert!(st.get(&s("x"), 105).is_none());
    assert!(st.get(&s("y"), 119).is_some());
    assert!(st.get(&s("y"), 120).is_none());
}

#[test]
fn empty_batch_changes_nothing() {
    let mut st = Store::new();
    st.set(s("a"), Value::Int(1), 30, 0);
    st.apply_batch(vec![], TTL_DEFAULT, 5);
    assert_eq!(to_json(st.get(&s("a"), 0).unwrap()), "1");
}

#[test]
fn lookup_distinguishes_expired_from_missing() {
    let mut st = Store::new();
    st.set(s("k"), Value::Int(1), 10, 0);
    assert!(matches!(st.lookup(&s("k"), 5), Found::Live(_)));
    assert!(matches!(st.lookup(&s("k"), 10), Found::Expired));
    assert!(matches!(st.lookup(&s("missing"), 0), Found::Missing));
}

#[test]
fn writes_are_never_torn() {
    // Two writers hand in complete (value, lifetime, moment) triples; after
    // any interleaving of whole operations the entry matches one write in
    // full: the value read and the expiry moment come from the same write.
    let mut st = Store::new();
    for round in 0..100u64 {
        st.set(s("k"), Value::Int(1), 10, round);
        st.set(s("k"), Value::Int(2), 20, round);
        let winner = st.get(&s("k"), round).map(to_json);
        assert_eq!(winner.as_deref(), Some("2"));
        assert!(st.get(&s("k"), round + 19).is_some());
        assert!(st.get(&s("k"), round + 20).is_none());
    }
}
