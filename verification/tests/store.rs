use rikka::state::State;

fn fresh() -> State {
    State::new(String::from("state.json"))
}

#[test]
fn new_store_is_empty() {
    let st = fresh();
    assert_eq!(st.keys().len(), 0);
    assert_eq!(st.dirty_count(), 0);
    assert!(!st.is_save_pending());
    assert_eq!(st.path(), "state.json");
    assert_eq!(st.to_json(), "{}");
}

#[test]
fn put_and_get_round_trip() {
    let mut st = fresh();
    st.put("alpha", "1");
    st.put("beta", "two");
    assert_eq!(st.get("alpha").as_deref(), Some("1"));
    assert_eq!(st.get("beta").as_deref(), Some("two"));
    assert_eq!(st.get("gamma"), None);
    st.put("alpha", "3");
    assert_eq!(st.get("alpha").as_deref(), Some("3"));
    assert_eq!(st.keys(), vec![String::from("alpha"), String::from("beta")]);
}

#[test]
fn get_i64_parses_decimal_values() {
    let mut st = fresh();
    st.put("n", "42");
    st.put("neg", "-5");
    st.put("plus", "+7");
    st.put("max", "9223372036854775807");
    st.put("min", "-9223372036854775808");
    st.put("big", "9223372036854775808");
    st.put("junk", "abc");
    st.put("mixed", "12x");
    st.put("empty", "");
    assert_eq!(st.get_i64("n"), Some(42));
    assert_eq!(st.get_i64("neg"), Some(-5));
    assert_eq!(st.get_i64("plus"), Some(7));
    assert_eq!(st.get_i64("max"), Some(i64::MAX));
    assert_eq!(st.get_i64("min"), Some(i64::MIN));
    assert_eq!(st.get_i64("big"), None);
    assert_eq!(st.get_i64("junk"), None);
    assert_eq!(st.get_i64("mixed"), None);
    assert_eq!(st.get_i64("empty"), None);
    assert_eq!(st.get_i64("missing"), None);
}

#[test]
fn to_json_is_canonical() {
    let mut st = fresh();
    st.put("k", "v");
    assert_eq!(st.to_json(), "{\"k\":\"v\"}");
    st.put("a", "1");
    assert_eq!(st.to_json(), "{\"k\":\"v\",\"a\":\"1\"}");
}

#[test]
fn snapshot_escapes_quotes_and_backslashes() {
    let mut st = fresh();
    st.put("q\"uote", "back\\slash");
    assert_eq!(st.to_json(), "{\"q\\\"uote\":\"back\\\\slash\"}");
    let snap = st.save().expect("no save in flight yet");
    let mut st2 = fresh();
    assert!(st2.load(Some(&snap)));
    assert_eq!(st2.get("q\"uote").as_deref(), Some("back\\slash"));
}

#[test]
fn save_then_load_restores_state() {
    let mut st = fresh();
    st.put("alpha", "1");
    st.put("beta", "two");
    st.put("total", "3");
    let snap = st.save().expect("no save in flight yet");
    let mut st2 = fresh();
    assert!(st2.load(Some(&snap)));
    assert_eq!(st2.get("alpha").as_deref(), Some("1"));
    assert_eq!(st2.get("beta").as_deref(), Some("two"));
    assert_eq!(st2.get("total").as_deref(), Some("3"));
    assert_eq!(st2.keys().len(), 3);
    assert_eq!(st.to_json(), st2.to_json());
}

#[test]
fn save_twice_without_writes_is_byte_identical() {
    let mut st = fresh();
    st.put("alpha", "1");
    st.put("beta", "2");
    let snap1 = st.save().expect("first save issues");
    st.save_completed();
    let snap2 = st.save().expect("second save issues after completion");
    assert_eq!(snap1, snap2);
}

#[test]
fn load_missing_or_corrupt_starts_fresh() {
    let mut st = fresh();
    st.put("old", "1");
    assert!(!st.load(None));
    assert_eq!(st.keys().len(), 0);

    let mut st2 = fresh();
    assert!(!st2.load(Some("{broken")));
    assert_eq!(st2.keys().len(), 0);

    let mut st3 = fresh();
    assert!(!st3.load(Some("not json at all")));
    assert_eq!(st3.keys().len(), 0);

    let mut st4 = fresh();
    assert!(st4.load(Some("{}")));
    assert_eq!(st4.keys().len(), 0);

    let mut st5 = fresh();
    assert!(!st5.load(Some("{\"a\":\"1\",\"a\":\"2\"}")));
    assert_eq!(st5.keys().len(), 0);
}

#[test]
fn load_rejects_trailing_garbage() {
    let mut st = fresh();
    assert!(!st.load(Some("{\"a\":\"1\"}x")));
    assert_eq!(st.keys().len(), 0);
}

#[test]
fn threshold_batching() {
    let mut st = fresh();
    for i in 0..9 {
        st.put(&format!("k{}", i), "1");
    }
    assert_eq!(st.dirty_count(), 9);
    assert!(st.save_if_needed().is_none());
    assert_eq!(st.dirty_count(), 9);
    st.put("k9", "1");
    assert_eq!(st.dirty_count(), 10);
    let snap = st.save_if_needed();
    assert!(snap.is_some());
    assert_eq!(st.dirty_count(), 0);
}

#[test]
fn at_most_one_save_in_flight() {
    let mut st = fresh();
    for i in 0..10 {
        st.put(&format!("k{}", i), "1");
    }
    assert!(st.save_if_needed().is_some());
    assert!(st.is_save_pending());
    for _ in 0..50 {
        assert!(st.save_if_needed().is_none());
    }
    for i in 0..10 {
        st.put(&format!("m{}", i), "1");
    }
    assert_eq!(st.dirty_count(), 10);
    assert!(st.save_if_needed().is_none());
    assert!(st.save().is_none());
    st.save_completed();
    assert!(!st.is_save_pending());
    assert!(st.save_if_needed().is_some());
}

#[test]
fn dirty_counter_not_restored_after_failed_save() {
    let mut st = fresh();
    for i in 0..10 {
        st.put(&format!("k{}", i), "1");
    }
    let snap = st.save_if_needed();
    assert!(snap.is_some());
    assert_eq!(st.dirty_count(), 0);
    st.save_completed();
    assert_eq!(st.dirty_count(), 0);
}
