//! Scenario tests for the broker core: FIFO order, the capacity cap, queue
//! creation on a waiting acquire, wakeup delivery, isolation of selectors,
//! and the sweep.

use workhub::hub::{Hub, NUM_SHARDS};
use workhub::queue::{Job, MAX_ITEMS};
use workhub::shard::Shard;

fn sel(s: &str) -> String {
    s.to_string()
}

#[test]
fn fifo_two_items() {
    let mut hub: Hub<u64> = Hub::new(11);
    hub.submit(sel("x"), 1);
    hub.submit(sel("x"), 2);
    assert_eq!(hub.try_acquire(sel("x")).ok(), Some(1));
    assert_eq!(hub.try_acquire(sel("x")).ok(), Some(2));
    assert!(hub.try_acquire(sel("x")).is_err());
}

#[test]
fn fifo_many_items_in_order() {
    let mut hub: Hub<u64> = Hub::new(0);
    for v in 0..100u64 {
        hub.submit(sel("orders"), v);
    }
    assert_eq!(hub.pending(&sel("orders")), 100);
    for v in 0..100u64 {
        assert_eq!(hub.try_acquire(sel("orders")).ok(), Some(v));
    }
    assert!(hub.try_acquire(sel("orders")).is_err());
}

#[test]
fn capacity_cap_drops_late_items() {
    let mut hub: Hub<u64> = Hub::new(5);
    for v in 0..(MAX_ITEMS as u64 + 1) {
        hub.submit(sel("x"), v);
    }
    assert_eq!(hub.pending(&sel("x")), MAX_ITEMS);
    for v in 0..(MAX_ITEMS as u64) {
        assert_eq!(hub.try_acquire(sel("x")).ok(), Some(v));
    }
    // item 1024 was dropped at submission and is unrecoverable
    assert!(hub.try_acquire(sel("x")).is_err());
}

#[test]
fn below_capacity_never_drops() {
    let mut hub: Hub<u64> = Hub::new(5);
    for v in 0..(MAX_ITEMS as u64) {
        hub.submit(sel("y"), v);
    }
    assert_eq!(hub.pending(&sel("y")), MAX_ITEMS);
}

#[test]
fn acquire_on_empty_creates_queue_and_hands_handle() {
    let mut hub: Hub<u64> = Hub::new(2);
    assert!(!hub.contains_selector(&sel("k")));
    let r = hub.try_acquire(sel("k"));
    assert!(r.is_err());
    // the attempt created an empty queue so the handle is live
    assert!(hub.contains_selector(&sel("k")));
    assert_eq!(hub.pending(&sel("k")), 0);
}

#[test]
fn selectors_are_isolated() {
    let mut hub: Hub<u64> = Hub::new(9);
    hub.submit(sel("a"), 10);
    hub.submit(sel("b"), 20);
    hub.submit(sel("a"), 11);
    assert_eq!(hub.pending(&sel("a")), 2);
    assert_eq!(hub.pending(&sel("b")), 1);
    assert_eq!(hub.try_acquire(sel("b")).ok(), Some(20));
    // draining "b" leaves "a" untouched
    assert_eq!(hub.pending(&sel("a")), 2);
    assert_eq!(hub.try_acquire(sel("a")).ok(), Some(10));
    assert_eq!(hub.try_acquire(sel("a")).ok(), Some(11));
}

#[test]
fn waiting_consumer_receives_later_submission() {
    // a consumer that starts waiting before any submission is woken by the
    // first submit and resolves to its payload
    let rt = tokio::runtime::Builder::new_current_thread().build().unwrap();
    rt.block_on(async {
        let hub = std::sync::Arc::new(std::sync::Mutex::new(Hub::<u64>::new(3)));
        let hub2 = std::sync::Arc::clone(&hub);
        let consumer = tokio::task::spawn(async move {
            loop {
                let attempt = hub2.lock().unwrap().try_acquire("x".to_string());
                match attempt {
                    Ok(v) => return v,
                    Err(handle) => handle.notified().await,
                }
            }
        });
        // give the consumer a chance to commit to waiting first
        tokio::task::yield_now().await;
        hub.lock().unwrap().submit("x".to_string(), 7);
        let got = consumer.await.unwrap();
        assert_eq!(got, 7);
    });
}

#[test]
fn stored_permit_is_not_lost() {
    // signal posted before the wait formally starts must still wake it
    let rt = tokio::runtime::Builder::new_current_thread().build().unwrap();
    rt.block_on(async {
        let mut hub: Hub<u64> = Hub::new(3);
        let handle = match hub.try_acquire("x".to_string()) {
            Err(h) => h,
            Ok(_) => panic!("queue was empty"),
        };
        hub.submit("x".to_string(), 9);
        // the permit was stored by the submit above; the wait returns at once
        handle.notified().await;
        assert_eq!(hub.try_acquire("x".to_string()).ok(), Some(9));
    });
}

#[test]
fn sweep_removes_invalid_item_and_queue() {
    let mut hub: Hub<Job> = Hub::new(4);
    hub.submit(sel("x"), Job { value: 1, alive: false });
    assert!(hub.contains_selector(&sel("x")));
    for i in 0..NUM_SHARDS {
        hub.sweep_shard(i);
    }
    // the item is gone and the fully drained queue was reclaimed
    assert!(!hub.contains_selector(&sel("x")));
    assert!(hub.try_acquire(sel("x")).is_err());
}

#[test]
fn sweep_keeps_valid_items_in_order() {
    let mut hub: Hub<Job> = Hub::new(4);
    hub.submit(sel("x"), Job { value: 1, alive: true });
    hub.submit(sel("x"), Job { value: 2, alive: false });
    hub.submit(sel("x"), Job { value: 3, alive: true });
    for i in 0..NUM_SHARDS {
        hub.sweep_shard(i);
    }
    assert!(hub.contains_selector(&sel("x")));
    assert_eq!(hub.pending(&sel("x")), 2);
    assert_eq!(hub.try_acquire(sel("x")).unwrap().value, 1);
    assert_eq!(hub.try_acquire(sel("x")).unwrap().value, 3);
}

#[test]
fn sweep_leaves_other_selectors_alone() {
    let mut hub: Hub<Job> = Hub::new(8);
    hub.submit(sel("dead"), Job { value: 1, alive: false });
    hub.submit(sel("live"), Job { value: 2, alive: true });
    for i in 0..NUM_SHARDS {
        hub.sweep_shard(i);
    }
    assert!(!hub.contains_selector(&sel("dead")));
    assert_eq!(hub.try_acquire(sel("live")).unwrap().value, 2);
}

#[test]
fn routing_is_stable_for_a_selector() {
    // one selector always reaches the same queue, however often it is used
    let mut hub: Hub<u64> = Hub::new(123);
    for v in 0..10u64 {
        hub.submit(sel("stable"), v);
    }
    assert_eq!(hub.pending(&sel("stable")), 10);
}

#[test]
fn shard_submit_and_acquire_directly() {
    let mut shard: Shard<u64> = Shard::new();
    assert!(!shard.contains(&sel("s")));
    shard.submit(sel("s"), 41);
    shard.submit(sel("s"), 42);
    assert!(shard.contains(&sel("s")));
    assert_eq!(shard.backlog_len(&sel("s")), 2);
    assert_eq!(shard.try_acquire(sel("s")).ok(), Some(41));
    assert_eq!(shard.try_acquire(sel("s")).ok(), Some(42));
    assert!(shard.try_acquire(sel("s")).is_err());
}

#[test]
fn shard_sweep_reclaims_empty_queue() {
    let mut shard: Shard<Job> = Shard::new();
    shard.submit(sel("gone"), Job { value: 0, alive: false });
    shard.submit(sel("kept"), Job { value: 1, alive: true });
    shard.sweep();
    assert!(!shard.contains(&sel("gone")));
    assert!(shard.contains(&sel("kept")));
    assert_eq!(shard.backlog_len(&sel("kept")), 1);
}
