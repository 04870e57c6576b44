use sql_permutation::algo::{CoordinatorClosed, Idx};
use sql_permutation::coordinator::{Received, StateMut, Submitted};
use sql_permutation::statistics::Statistics;

fn with_workers(n: usize) -> StateMut {
    let mut s = StateMut::new(n);
    for _ in 0..n {
        s.add_worker();
    }
    s
}

fn batch(k: usize) -> Vec<Idx> {
    vec![(0, k)]
}

#[test]
fn new_state_runs_with_no_slot() {
    let s = StateMut::new(4);
    assert!(s.is_running());
    assert!(!s.is_aborted());
    assert_eq!(s.capacity(), 0);
    assert_eq!(s.queue_len(), 0);
}

#[test]
fn each_worker_brings_one_slot() {
    let s = with_workers(3);
    assert_eq!(s.capacity(), 3);
}

#[test]
fn full_queue_hands_the_batch_back() {
    let mut s = with_workers(2);
    assert!(matches!(s.submit(batch(0)), Ok(Submitted::Queued(None))));
    assert!(matches!(s.submit(batch(1)), Ok(Submitted::Queued(None))));
    match s.submit(batch(2)) {
        Ok(Submitted::Full(b)) => assert_eq!(b, batch(2)),
        _ => panic!("expected a full queue"),
    }
    assert_eq!(s.queue_len(), 2);
}

#[test]
fn batches_come_out_first_in_first_out() {
    let mut s = with_workers(3);
    for k in 0..3 {
        assert!(s.submit(batch(k)).is_ok());
    }
    for k in 0..3 {
        match s.recv(0) {
            Received::Batch(b) => assert_eq!(b, batch(k)),
            _ => panic!("expected a batch"),
        }
    }
}

#[test]
fn parked_workers_are_woken_in_order() {
    let mut s = with_workers(2);
    assert!(matches!(s.recv(7), Received::Park));
    assert!(matches!(s.recv(8), Received::Park));
    assert!(matches!(s.submit(batch(0)), Ok(Submitted::Queued(Some(7)))));
    assert!(matches!(s.submit(batch(1)), Ok(Submitted::Queued(Some(8)))));
    assert!(matches!(s.recv(7), Received::Batch(_)));
}

#[test]
fn shutdown_wakes_all_and_keeps_queued_batches() {
    let mut s = with_workers(2);
    assert!(matches!(s.recv(1), Received::Park));
    let woken = s.shutdown();
    assert_eq!(woken, vec![1]);
    let mut s2 = with_workers(2);
    assert!(s2.submit(batch(0)).is_ok());
    assert!(s2.shutdown().is_empty());
    assert!(!s2.is_running());
    assert_eq!(s2.submit(batch(1)).err(), Some(CoordinatorClosed));
    match s2.recv(0) {
        Received::Batch(b) => assert_eq!(b, batch(0)),
        _ => panic!("queued batch must still be delivered"),
    }
    assert!(matches!(s2.recv(0), Received::NoMore));
}

#[test]
fn abort_ends_every_worker_and_refuses_the_producer() {
    let mut s = with_workers(2);
    assert!(matches!(s.recv(3), Received::Park));
    assert!(matches!(s.submit(batch(0)), Ok(Submitted::Queued(Some(3)))));
    assert!(s.submit(batch(1)).is_ok());
    assert!(matches!(s.recv(4), Received::Batch(_)));
    assert_eq!(s.queue_len(), 1);
    let woken = s.abort();
    assert_eq!(woken, Vec::<usize>::new());
    assert!(matches!(s.recv(4), Received::NoMore));
    let mut s = with_workers(2);
    assert!(matches!(s.recv(4), Received::Park));
    let woken = s.abort();
    assert_eq!(woken, vec![4]);
    assert!(s.is_aborted());
    assert_eq!(s.queue_len(), 0);
    assert!(matches!(s.recv(3), Received::NoMore));
    assert!(matches!(s.recv(4), Received::NoMore));
    assert_eq!(s.submit(batch(2)).err(), Some(CoordinatorClosed));
}

#[test]
fn failed_worker_aborts_the_run() {
    let mut s = with_workers(2);
    assert!(matches!(s.recv(5), Received::Park));
    let mut st = Statistics::new();
    st.fail(String::from("connection refused"));
    let woken = s.finish_worker(String::from("127.0.0.1:3306/"), st);
    assert_eq!(woken, vec![5]);
    assert!(s.is_aborted());
    assert_eq!(s.report_count(), 1);
    let (target, stats) = s.report(0);
    assert_eq!(target, "127.0.0.1:3306/");
    assert!(stats.has_error());
}

#[test]
fn clean_worker_leaves_the_run_going() {
    let mut s = with_workers(1);
    let woken = s.finish_worker(String::from("a:1/"), Statistics::new());
    assert!(woken.is_empty());
    assert!(s.is_running());
    assert!(!s.is_aborted());
}

#[test]
fn fast_producer_never_overfills_and_delivers_each_batch_once() {
    let mut s = with_workers(2);
    let mut next = 0usize;
    let mut pending: Option<Vec<Idx>> = None;
    let mut delivered: Vec<Vec<Idx>> = vec![];
    let mut round = 0usize;
    while delivered.len() < 100 {
        // the producer offers batches until the queue is full
        loop {
            let b = match pending.take() {
                Some(b) => b,
                None if next < 100 => {
                    next += 1;
                    batch(next - 1)
                }
                None => break,
            };
            match s.submit(b) {
                Ok(Submitted::Queued(_)) => {}
                Ok(Submitted::Full(b)) => {
                    pending = Some(b);
                    break;
                }
                Err(_) => panic!("the coordinator is running"),
            }
            assert!(s.queue_len() <= 2);
        }
        if next == 100 && pending.is_none() && s.is_running() {
            s.shutdown();
        }
        // one of the two workers takes one batch
        match s.recv(round % 2) {
            Received::Batch(b) => delivered.push(b),
            Received::Park => {}
            Received::NoMore => break,
        }
        assert!(s.queue_len() <= 2);
        round += 1;
    }
    assert_eq!(delivered.len(), 100);
    for (k, b) in delivered.iter().enumerate() {
        assert_eq!(*b, batch(k));
    }
}
