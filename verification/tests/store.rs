use qataar::queue::{QueueError, QueueItem, QueueOperation, QueueServer, MAX_BATCH_BYTE_SIZE};

fn add(server: &mut QueueServer, topic: &str, key: &str, value: Vec<u8>) {
    server
        .add_item(topic.to_string(), key.to_string(), value)
        .expect("topic exists");
}

#[test]
fn read_batch_returns_all_items_in_order() {
    let mut s = QueueServer::new();
    s.add_topic("t".to_string());
    add(&mut s, "t", "k1", vec![1]);
    add(&mut s, "t", "k2", vec![2, 2]);
    add(&mut s, "t", "k3", vec![3, 3, 3]);
    let batch = s
        .read_batch("c".to_string(), "t".to_string(), 0)
        .expect("topic exists");
    assert_eq!(batch.len(), 3);
    assert_eq!(batch[0].key, "k1");
    assert_eq!(batch[0].value, vec![1]);
    assert_eq!(batch[1].key, "k2");
    assert_eq!(batch[1].value, vec![2, 2]);
    assert_eq!(batch[2].key, "k3");
    assert_eq!(batch[2].value, vec![3, 3, 3]);
}

#[test]
fn read_batch_stops_at_byte_cap() {
    let mut s = QueueServer::new();
    s.add_topic("t".to_string());
    let six_mb = 6_000_000;
    add(&mut s, "t", "a", vec![0u8; six_mb]);
    add(&mut s, "t", "b", vec![0u8; six_mb]);
    add(&mut s, "t", "c", vec![0u8; six_mb]);
    // After taking "a" the running sum is 6 MB, still under the cap, so
    // "b" is taken too (overshooting to 12 MB); "c" is not.
    let batch = s
        .read_batch("c".to_string(), "t".to_string(), 0)
        .expect("topic exists");
    assert_eq!(batch.len(), 2);
    assert_eq!(batch[0].key, "a");
    assert_eq!(batch[1].key, "b");
}

#[test]
fn first_item_larger_than_cap_is_included_alone() {
    let mut s = QueueServer::new();
    s.add_topic("t".to_string());
    add(&mut s, "t", "big", vec![0u8; MAX_BATCH_BYTE_SIZE + 1]);
    add(&mut s, "t", "after", vec![1]);
    let batch = s
        .read_batch("c".to_string(), "t".to_string(), 0)
        .expect("topic exists");
    assert_eq!(batch.len(), 1);
    assert_eq!(batch[0].key, "big");
}

#[test]
fn read_batch_past_end_is_empty_not_error() {
    let mut s = QueueServer::new();
    s.add_topic("t".to_string());
    add(&mut s, "t", "k", vec![1]);
    let batch = s
        .read_batch("c".to_string(), "t".to_string(), 1)
        .expect("topic exists");
    assert!(batch.is_empty());
    let far = s
        .read_batch("c".to_string(), "t".to_string(), 1000)
        .expect("topic exists");
    assert!(far.is_empty());
}

#[test]
fn read_batch_honors_request_offset_not_consumer_offset() {
    let mut s = QueueServer::new();
    s.add_topic("t".to_string());
    s.add_consumer("c".to_string(), "t".to_string(), Some(1));
    add(&mut s, "t", "k1", vec![1]);
    add(&mut s, "t", "k2", vec![2]);
    // The consumer's stored offset (1) is ignored; the request's offset
    // (0) is used verbatim.
    let batch = s
        .read_batch("c".to_string(), "t".to_string(), 0)
        .expect("topic exists");
    assert_eq!(batch.len(), 2);
}

#[test]
fn set_read_offset_rejects_topic_mismatch() {
    let mut s = QueueServer::new();
    s.add_topic("t1".to_string());
    s.add_consumer("c".to_string(), "t1".to_string(), None);
    let r = s.set_read_offset("c".to_string(), "t2".to_string(), 5);
    assert_eq!(r, Err(QueueError::TopicMismatch));
}

#[test]
fn set_read_offset_overwrites_even_past_topic_length() {
    let mut s = QueueServer::new();
    s.add_topic("t".to_string());
    s.add_consumer("c".to_string(), "t".to_string(), Some(3));
    s.set_read_offset("c".to_string(), "t".to_string(), 99)
        .expect("consumer bound to t");
    // The overwritten offset is visible through an empty read at 99.
    let batch = s
        .read_batch("c".to_string(), "t".to_string(), 99)
        .expect("topic exists");
    assert!(batch.is_empty());
}

#[test]
fn unknown_names_fail_with_unknown_conditions() {
    let mut s = QueueServer::new();
    let r = s.add_item("nope".to_string(), "k".to_string(), vec![1]);
    assert_eq!(r, Err(QueueError::UnknownTopic));
    let r = s.read_batch("c".to_string(), "nope".to_string(), 0);
    assert_eq!(r.err(), Some(QueueError::UnknownTopic));
    let r = s.set_read_offset("ghost".to_string(), "nope".to_string(), 0);
    assert_eq!(r, Err(QueueError::UnknownConsumer));
    // The failures left no state behind.
    let r = s.read_batch("c".to_string(), "nope".to_string(), 0);
    assert_eq!(r.err(), Some(QueueError::UnknownTopic));
}

#[test]
fn add_topic_overwrites_existing_topic() {
    let mut s = QueueServer::new();
    s.add_topic("t".to_string());
    add(&mut s, "t", "k", vec![1]);
    s.add_topic("t".to_string());
    let batch = s
        .read_batch("c".to_string(), "t".to_string(), 0)
        .expect("topic exists");
    assert!(batch.is_empty());
}

#[test]
fn interleaved_adds_on_distinct_topics_lose_nothing() {
    let mut s = QueueServer::new();
    s.add_topic("t1".to_string());
    s.add_topic("t2".to_string());
    for i in 0..50u8 {
        let (topic, other) = if i % 2 == 0 { ("t1", "t2") } else { ("t2", "t1") };
        add(&mut s, topic, &format!("k{}", i), vec![i]);
        add(&mut s, other, &format!("m{}", i), vec![i, i]);
    }
    let b1 = s
        .read_batch("c".to_string(), "t1".to_string(), 0)
        .expect("topic exists");
    let b2 = s
        .read_batch("c".to_string(), "t2".to_string(), 0)
        .expect("topic exists");
    assert_eq!(b1.len(), 50);
    assert_eq!(b2.len(), 50);
    for w in b1.windows(2) {
        assert!(w[0].created <= w[1].created);
    }
}

#[test]
fn apply_dispatches_and_replies() {
    let mut s = QueueServer::new();
    let r = s.apply(QueueOperation::AddTopic("orders".to_string()));
    assert_eq!(r, Ok(None));
    let r = s.apply(QueueOperation::AddConsumer(
        "c1".to_string(),
        "orders".to_string(),
        None,
    ));
    assert_eq!(r, Ok(None));
    let r = s.apply(QueueOperation::AddItem(
        "orders".to_string(),
        "a".to_string(),
        vec![1, 2, 3],
    ));
    assert_eq!(r, Ok(None));
    let r = s.apply(QueueOperation::ReadBatch(
        "c1".to_string(),
        "orders".to_string(),
        0,
    ));
    let batch = r.expect("topic exists").expect("a read replies with a batch");
    assert_eq!(batch.len(), 1);
    assert_eq!(batch[0].key, "a");
    let r = s.apply(QueueOperation::AddItem(
        "missing".to_string(),
        "k".to_string(),
        vec![],
    ));
    assert_eq!(r, Err(QueueError::UnknownTopic));
}

#[test]
fn end_to_end_orders_scenario() {
    let mut s = QueueServer::new();
    s.add_topic("orders".to_string());
    s.add_consumer("c1".to_string(), "orders".to_string(), None);
    add(&mut s, "orders", "a", vec![1, 2, 3]);
    add(&mut s, "orders", "b", vec![4, 5]);
    let batch = s
        .read_batch("c1".to_string(), "orders".to_string(), 0)
        .expect("topic exists");
    assert_eq!(batch.len(), 2);
    assert_eq!(batch[0].key, "a");
    assert_eq!(batch[0].value, vec![1, 2, 3]);
    assert_eq!(batch[1].key, "b");
    assert_eq!(batch[1].value, vec![4, 5]);
    s.set_read_offset("c1".to_string(), "orders".to_string(), 1)
        .expect("consumer bound to orders");
    let batch = s
        .read_batch("c1".to_string(), "orders".to_string(), 1)
        .expect("topic exists");
    assert_eq!(batch.len(), 1);
    assert_eq!(batch[0].key, "b");
    assert_eq!(batch[0].value, vec![4, 5]);
}

#[test]
fn items_compare_by_contents() {
    let a = QueueItem {
        key: "k".to_string(),
        value: vec![1, 2],
        created: 7,
    };
    let b = QueueItem {
        key: "k".to_string(),
        value: vec![1, 2],
        created: 7,
    };
    let c = QueueItem {
        key: "k".to_string(),
        value: vec![1, 3],
        created: 7,
    };
    assert_eq!(a, b);
    assert!(a != c);
}
