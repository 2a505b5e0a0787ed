use rikka::registry::Registry;

fn contains(snapshot: &[(i64, u8)], id: i64) -> bool {
    snapshot.iter().any(|p| p.0 == id)
}

#[test]
fn subscribe_and_unsubscribe() {
    let mut reg: Registry<u8> = Registry::new();
    assert_eq!(reg.count(), 0);
    let a = reg.subscribe(1);
    let b = reg.subscribe(2);
    assert_eq!(reg.count(), 2);
    reg.unsubscribe(a);
    assert_eq!(reg.count(), 1);
    assert!(contains(&reg.snapshot(), b));
    assert!(!contains(&reg.snapshot(), a));
}

#[test]
fn unsubscribing_unknown_id_is_a_no_op() {
    let mut reg: Registry<u8> = Registry::new();
    let a = reg.subscribe(1);
    reg.unsubscribe(a.wrapping_add(1));
    assert_eq!(reg.count(), 1);
}

#[test]
fn snapshot_is_isolated_from_later_mutation() {
    let mut reg: Registry<u8> = Registry::new();
    let a = reg.subscribe(1);
    let snap = reg.snapshot();
    reg.unsubscribe(a);
    let c = reg.subscribe(3);
    assert!(contains(&snap, a));
    assert!(!contains(&snap, c));
}

#[test]
fn reentrant_subscription() {
    // Handler A, when fired, registers handler B; B, when fired,
    // unregisters itself.  Over consecutive cycles B fires exactly once.
    let mut reg: Registry<u8> = Registry::new();
    let a = reg.subscribe(1);

    // Cycle 1: snapshot, then A fires and registers B.
    let snap1 = reg.snapshot();
    assert!(contains(&snap1, a));
    let b = reg.subscribe(2);
    assert!(!contains(&snap1, b));

    // Cycle 2: B appears exactly once; when it fires, it unregisters
    // itself.
    let snap2 = reg.snapshot();
    assert_eq!(snap2.iter().filter(|p| p.0 == b).count(), 1);
    reg.unsubscribe(b);

    // Cycle 3 and after: B is gone, A remains.
    let snap3 = reg.snapshot();
    assert!(!contains(&snap3, b));
    assert!(contains(&snap3, a));
}
