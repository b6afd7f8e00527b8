use tokio::sync::broadcast::error::TryRecvError;
use webhook_capture::repository::{
    RequestRepository, MAX_REQUESTS_PER_ENDPOINT, MAX_REQUEST_AGE_MILLIS,
};
use webhook_capture::request::Request;

fn sample_request(n: u64, received_time: i64) -> Request {
    Request {
        id: n as u128,
        received_time,
        method: "POST".to_string(),
        uri: format!("/webhook/{n}"),
        headers: vec![
            ("content-type".to_string(), "application/json".to_string()),
            ("x-seq".to_string(), n.to_string()),
        ],
        body: format!("payload {n}"),
    }
}

#[test]
fn fresh_repository_has_no_stores() {
    let repo = RequestRepository::new();
    assert!(!repo.contains(0));
    assert!(!repo.contains(42));
}

#[test]
fn insert_creates_store_on_first_use() {
    let mut repo = RequestRepository::new();
    assert!(!repo.contains(5));
    repo.insert(5, sample_request(1, 100));
    assert!(repo.contains(5));
    assert!(!repo.contains(6));
}

#[test]
fn capacity_keeps_exactly_the_newest_in_order() {
    let mut repo = RequestRepository::new();
    let total = MAX_REQUESTS_PER_ENDPOINT as u64 + 5;
    for n in 0..total {
        repo.insert(7, sample_request(n, n as i64));
    }
    let (backlog, _rx) = repo.get_requests_and_receiver(7);
    assert_eq!(backlog.len(), MAX_REQUESTS_PER_ENDPOINT);
    for (k, req) in backlog.iter().enumerate() {
        let expected = 5 + k as u64;
        assert_eq!(req.id, expected as u128);
        assert_eq!(req.body, format!("payload {expected}"));
    }
}

#[test]
fn below_capacity_nothing_is_evicted() {
    let mut repo = RequestRepository::new();
    for n in 0..10u64 {
        repo.insert(3, sample_request(n, n as i64));
    }
    let (backlog, _rx) = repo.get_requests_and_receiver(3);
    assert_eq!(backlog.len(), 10);
    for (k, req) in backlog.iter().enumerate() {
        assert_eq!(req.id, k as u128);
    }
}

#[test]
fn inserts_between_subscribes_reach_second_backlog_and_first_feed() {
    let mut repo = RequestRepository::new();
    let (first_backlog, mut first_rx) = repo.get_requests_and_receiver(11);
    assert!(first_backlog.is_empty());
    for n in 0..3u64 {
        repo.insert(11, sample_request(n, n as i64));
    }
    let (second_backlog, mut second_rx) = repo.get_requests_and_receiver(11);
    // The three inserts are all in the second snapshot, in insertion order.
    assert_eq!(second_backlog.len(), 3);
    for (k, req) in second_backlog.iter().enumerate() {
        assert_eq!(req.id, k as u128);
    }
    // The second subscriber sees none of them again on its live feed.
    assert!(matches!(second_rx.try_recv(), Err(TryRecvError::Empty)));
    // The first subscriber sees each exactly once on its live feed.
    for n in 0..3u64 {
        let live = first_rx.try_recv().expect("live entry expected");
        assert_eq!(live.id, n as u128);
    }
    assert!(matches!(first_rx.try_recv(), Err(TryRecvError::Empty)));
}

#[test]
fn cleanup_drops_only_entries_older_than_the_ttl() {
    let mut repo = RequestRepository::new();
    let now: i64 = 10_000_000_000;
    // Stale by one millisecond.
    repo.insert(21, sample_request(0, now - MAX_REQUEST_AGE_MILLIS - 1));
    // Age exactly at the bound: retained.
    repo.insert(21, sample_request(1, now - MAX_REQUEST_AGE_MILLIS));
    // Strictly younger: retained.
    repo.insert(21, sample_request(2, now - 1));
    repo.insert(21, sample_request(3, now));
    repo.cleanup_at(now);
    let (backlog, _rx) = repo.get_requests_and_receiver(21);
    assert_eq!(backlog.len(), 3);
    assert_eq!(backlog[0].id, 1);
    assert_eq!(backlog[1].id, 2);
    assert_eq!(backlog[2].id, 3);
}

#[test]
fn cleanup_removes_a_store_left_empty_without_subscribers() {
    let mut repo = RequestRepository::new();
    let now: i64 = 5_000_000_000;
    repo.insert(31, sample_request(0, now - MAX_REQUEST_AGE_MILLIS - 500));
    assert!(repo.contains(31));
    repo.cleanup_at(now);
    assert!(!repo.contains(31));
}

#[test]
fn cleanup_keeps_a_store_with_a_fresh_entry() {
    let mut repo = RequestRepository::new();
    let now: i64 = 5_000_000_000;
    repo.insert(32, sample_request(0, now));
    repo.cleanup_at(now);
    assert!(repo.contains(32));
}

#[test]
fn cleanup_keeps_an_empty_store_with_a_subscriber() {
    let mut repo = RequestRepository::new();
    let now: i64 = 5_000_000_000;
    repo.insert(33, sample_request(0, now - MAX_REQUEST_AGE_MILLIS - 500));
    let (_backlog, _rx) = repo.get_requests_and_receiver(33);
    repo.cleanup_at(now);
    // All entries were stale, but a subscriber is attached: the store stays.
    assert!(repo.contains(33));
    // Once the subscriber is released, the next sweep removes the store.
    repo.release_subscriber(33);
    repo.cleanup_at(now);
    assert!(!repo.contains(33));
}

#[test]
fn subscribing_creates_the_store() {
    let mut repo = RequestRepository::new();
    assert!(!repo.contains(41));
    let (backlog, _rx) = repo.get_requests_and_receiver(41);
    assert!(backlog.is_empty());
    assert!(repo.contains(41));
}

#[test]
fn subscriber_that_does_not_consume_sees_lag() {
    let mut repo = RequestRepository::new();
    let (_backlog, mut rx) = repo.get_requests_and_receiver(51);
    // More inserts than the per-subscriber buffer (its configured size,
    // rounded up to a power of two) can hold.
    for n in 0..2000u64 {
        repo.insert(51, sample_request(n, n as i64));
    }
    // The loss is surfaced explicitly, never skipped silently.
    assert!(matches!(rx.try_recv(), Err(TryRecvError::Lagged(_))));
}

#[test]
fn live_message_carries_the_inserted_fields_exactly() {
    let mut repo = RequestRepository::new();
    let (backlog, mut rx) = repo.get_requests_and_receiver(61);
    assert!(backlog.is_empty());
    let request = Request {
        id: 0xfeed_beef,
        received_time: 1_700_000_000_123,
        method: "PUT".to_string(),
        uri: "/webhook/61?q=1".to_string(),
        headers: vec![
            ("x-a".to_string(), "1".to_string()),
            ("x-a".to_string(), "2".to_string()),
            ("host".to_string(), "example.test".to_string()),
        ],
        body: "{\"k\":\"v\"}".to_string(),
    };
    repo.insert(61, request);
    let live = rx.try_recv().expect("exactly one live message expected");
    assert_eq!(live.id, 0xfeed_beef);
    assert_eq!(live.received_time, 1_700_000_000_123);
    assert_eq!(live.method, "PUT");
    assert_eq!(live.uri, "/webhook/61?q=1");
    assert_eq!(
        live.headers,
        vec![
            ("x-a".to_string(), "1".to_string()),
            ("x-a".to_string(), "2".to_string()),
            ("host".to_string(), "example.test".to_string()),
        ]
    );
    assert_eq!(live.body, "{\"k\":\"v\"}");
    assert!(matches!(rx.try_recv(), Err(TryRecvError::Empty)));
}

#[test]
fn endpoints_are_independent() {
    let mut repo = RequestRepository::new();
    repo.insert(71, sample_request(0, 10));
    repo.insert(72, sample_request(1, 20));
    let (backlog_a, _rx_a) = repo.get_requests_and_receiver(71);
    let (backlog_b, _rx_b) = repo.get_requests_and_receiver(72);
    assert_eq!(backlog_a.len(), 1);
    assert_eq!(backlog_a[0].id, 0);
    assert_eq!(backlog_b.len(), 1);
    assert_eq!(backlog_b[0].id, 1);
}
