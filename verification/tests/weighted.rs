use rikka::sampler::random_sticker;
use rikka::sampler::random_sticker_with;
use rikka::state::State;

fn counters(pairs: &[(&str, &str)], total: &str) -> State {
    let mut st = State::new(String::from("state.json"));
    for (k, v) in pairs {
        st.put(&format!("sticker_{}", k), v);
    }
    if !total.is_empty() {
        st.put("sticker_total", total);
    }
    st
}

#[test]
fn weighted_selection_determinism() {
    let st = counters(&[("a", "1"), ("b", "3")], "4");
    assert_eq!(random_sticker_with(&st, 0).as_deref(), Some("a"));
    assert_eq!(random_sticker_with(&st, 1).as_deref(), Some("b"));
    assert_eq!(random_sticker_with(&st, 2).as_deref(), Some("b"));
    assert_eq!(random_sticker_with(&st, 3).as_deref(), Some("b"));
}

#[test]
fn selection_orders_counters_ascending() {
    // Entry order is b before a, but cumulative order is by count.
    let st = counters(&[("b", "3"), ("a", "1")], "4");
    assert_eq!(random_sticker_with(&st, 0).as_deref(), Some("a"));
    assert_eq!(random_sticker_with(&st, 3).as_deref(), Some("b"));
}

#[test]
fn equal_counts_keep_entry_order() {
    let st = counters(&[("x", "2"), ("y", "2")], "4");
    assert_eq!(random_sticker_with(&st, 0).as_deref(), Some("x"));
    assert_eq!(random_sticker_with(&st, 1).as_deref(), Some("x"));
    assert_eq!(random_sticker_with(&st, 2).as_deref(), Some("y"));
    assert_eq!(random_sticker_with(&st, 3).as_deref(), Some("y"));
}

#[test]
fn selection_is_absent_when_counters_fall_short() {
    // The recorded total exceeds the true sum: the walk never reaches
    // the target, and selection must be absent, not a failure.
    let st = counters(&[("a", "1")], "10");
    assert_eq!(random_sticker_with(&st, 5), None);
}

#[test]
fn zero_total_yields_absent() {
    let st = counters(&[("a", "1")], "");
    assert_eq!(random_sticker(&st), None);
    let zero = counters(&[("a", "1")], "0");
    assert_eq!(random_sticker(&zero), None);
    let negative = counters(&[("a", "1")], "-3");
    assert_eq!(random_sticker(&negative), None);
}

#[test]
fn random_draw_selects_some_recorded_sticker() {
    let st = counters(&[("a", "1"), ("b", "3")], "4");
    for _ in 0..20 {
        let picked = random_sticker(&st).expect("total is positive");
        assert!(picked == "a" || picked == "b");
    }
}

#[test]
fn unparseable_counters_weigh_nothing() {
    let st = counters(&[("a", "junk"), ("b", "2")], "2");
    assert_eq!(random_sticker_with(&st, 0).as_deref(), Some("b"));
    assert_eq!(random_sticker_with(&st, 1).as_deref(), Some("b"));
}
