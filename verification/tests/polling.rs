use rikka::api::ApiResult;
use rikka::api::Update;
use rikka::poll::backoff_delay_ms;
use rikka::poll::dispatch_plan;
use rikka::poll::FetchOutcome;
use rikka::poll::Poller;

fn event(id: i64) -> Update {
    Update { update_id: id, message: None }
}

fn ids(batch: &[Update]) -> Vec<i64> {
    batch.iter().map(|u| u.update_id).collect()
}

#[test]
fn batch_is_sorted_ascending() {
    let mut p = Poller::new();
    let batch = vec![event(5), event(3), event(9), event(4)];
    let out = p.apply_fetch(FetchOutcome::Success(ApiResult::Updates(batch)));
    assert_eq!(ids(&out), vec![3, 4, 5, 9]);
}

#[test]
fn offset_monotonicity() {
    let mut p = Poller::new();
    assert_eq!(p.current_offset(), 0);
    let out = p.apply_fetch(FetchOutcome::Success(ApiResult::Updates(vec![
        event(7),
        event(12),
        event(9),
    ])));
    assert_eq!(ids(&out), vec![7, 9, 12]);
    assert_eq!(p.current_offset(), 13);
    let out2 = p.apply_fetch(FetchOutcome::Success(ApiResult::Updates(Vec::new())));
    assert!(out2.is_empty());
    assert_eq!(p.current_offset(), 13);
}

#[test]
fn transient_failure_acts_as_empty_batch() {
    let mut p = Poller::new();
    p.apply_fetch(FetchOutcome::Success(ApiResult::Updates(vec![event(1)])));
    assert_eq!(p.current_offset(), 2);
    let out = p.apply_fetch(FetchOutcome::Failure);
    assert!(out.is_empty());
    assert_eq!(p.current_offset(), 2);
}

#[test]
fn mismatched_payload_acts_as_empty_batch() {
    let mut p = Poller::new();
    let out = p.apply_fetch(FetchOutcome::Success(ApiResult::Nothing));
    assert!(out.is_empty());
    assert_eq!(p.current_offset(), 0);
}

#[test]
fn plan_covers_each_event_for_each_subscriber() {
    let plan = dispatch_plan(3, 2);
    assert_eq!(
        plan,
        vec![(0, 0), (0, 1), (1, 0), (1, 1), (2, 0), (2, 1)]
    );
    let empty = dispatch_plan(0, 4);
    assert!(empty.is_empty());
    let none = dispatch_plan(4, 0);
    assert!(none.is_empty());
}

#[test]
fn subscribers_observe_ascending_ids() {
    let mut p = Poller::new();
    let batch = p.apply_fetch(FetchOutcome::Success(ApiResult::Updates(vec![
        event(20),
        event(5),
        event(11),
        event(3),
    ])));
    let n_subs = 3;
    let plan = dispatch_plan(batch.len(), n_subs);
    let mut seen: Vec<Vec<i64>> = (0..n_subs).map(|_| Vec::new()).collect();
    for (e, s) in plan {
        seen[s].push(batch[e].update_id);
    }
    for observed in seen {
        assert_eq!(observed, vec![3, 5, 11, 20]);
    }
}

#[test]
fn backoff_doubles_and_caps() {
    assert_eq!(backoff_delay_ms(0), 0);
    assert_eq!(backoff_delay_ms(1), 500);
    assert_eq!(backoff_delay_ms(2), 1000);
    assert_eq!(backoff_delay_ms(3), 2000);
    assert_eq!(backoff_delay_ms(7), 32000);
    assert_eq!(backoff_delay_ms(8), 60000);
    assert_eq!(backoff_delay_ms(100), 60000);
}

#[test]
fn consecutive_failures_reset_on_success() {
    let mut p = Poller::new();
    assert_eq!(p.consecutive_failures(), 0);
    p.apply_fetch(FetchOutcome::Failure);
    p.apply_fetch(FetchOutcome::Failure);
    p.apply_fetch(FetchOutcome::Failure);
    assert_eq!(p.consecutive_failures(), 3);
    p.apply_fetch(FetchOutcome::Success(ApiResult::Updates(vec![event(1)])));
    assert_eq!(p.consecutive_failures(), 0);
}
