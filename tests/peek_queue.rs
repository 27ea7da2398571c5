use crossbeam::sync::MsQueue;
use dupfinder::{fmt_queue, MsQueueWithPeak};

#[test]
fn has_more_than_one_element_empty() {
    let q: MsQueue<u64> = MsQueue::new();
    let mut p = MsQueueWithPeak::from(q);
    assert_eq!(p.has_more_than_one_element(), false);
    assert_eq!(p.has_more_than_one_element(), false);
}

#[test]
fn has_more_than_one_element_single() {
    let q: MsQueue<u64> = MsQueue::new();
    q.push(0);
    let mut p = MsQueueWithPeak::from(q);
    assert_eq!(p.has_more_than_one_element(), false);
    assert_eq!(p.has_more_than_one_element(), false);
}

#[test]
fn has_more_than_one_element_multiple() {
    let q: MsQueue<u64> = MsQueue::new();
    q.push(0);
    q.push(1);
    let mut p = MsQueueWithPeak::from(q);
    assert_eq!(p.has_more_than_one_element(), true);
    assert_eq!(p.has_more_than_one_element(), true);
}

#[test]
fn has_more_than_one_element_multiple_and_itered() {
    let q: MsQueue<u64> = MsQueue::new();
    q.push(0);
    q.push(1);
    q.push(2);
    let mut p = MsQueueWithPeak::from(q);
    assert_eq!(p.has_more_than_one_element(), true);
    p.next().unwrap();
    assert_eq!(p.has_more_than_one_element(), true);
    p.next().unwrap();
    assert_eq!(p.has_more_than_one_element(), false);
}

#[test]
fn fmt_queue_empty() {
    let q: MsQueue<u64> = MsQueue::new();
    let mut p = MsQueueWithPeak::from(q);
    assert_eq!(fmt_queue(&mut p), "[]");
}

#[test]
fn fmt_queue_empty_single() {
    let q: MsQueue<u64> = MsQueue::new();
    q.push(0);
    let mut p = MsQueueWithPeak::from(q);
    assert_eq!(fmt_queue(&mut p), "[0]");
}

#[test]
fn fmt_queue_empty_multiple() {
    let q: MsQueue<u64> = MsQueue::new();
    q.push(0);
    q.push(1);
    let mut p = MsQueueWithPeak::from(q);
    assert_eq!(fmt_queue(&mut p), "[0, 1]");
}

#[test]
fn empty_check_then_push_sees_the_item() {
    let mut p = MsQueueWithPeak::new();
    assert!(!p.has_more_than_one_element());
    p.push(7);
    assert!(!p.has_more_than_one_element());
    assert_eq!(p.next(), Some(7));
    assert_eq!(p.next(), None);
}

#[test]
fn single_item_survives_checks() {
    let mut p = MsQueueWithPeak::new();
    p.push(42);
    assert!(!p.has_more_than_one_element());
    assert!(!p.has_more_than_one_element());
    assert_eq!(p.drain(), vec![42]);
}

#[test]
fn interleaved_checks_and_next_keep_every_item_in_order() {
    let mut p = MsQueueWithPeak::new();
    for i in 0..5u64 {
        p.push(i * 10);
    }
    let mut out = Vec::new();
    assert!(p.has_more_than_one_element());
    out.push(p.next().unwrap());
    assert!(p.has_more_than_one_element());
    assert!(p.has_more_than_one_element());
    out.push(p.next().unwrap());
    p.push(99);
    assert!(p.has_more_than_one_element());
    out.extend(p.drain());
    assert_eq!(out, vec![0, 10, 20, 30, 40, 99]);
    assert!(!p.has_more_than_one_element());
}

#[test]
fn fmt_queue_large_values() {
    let mut p = MsQueueWithPeak::new();
    p.push(1234567890);
    p.push(u64::MAX);
    p.push(10);
    assert_eq!(fmt_queue(&mut p), "[1234567890, 18446744073709551615, 10]");
    assert!(p.next().is_none());
}
