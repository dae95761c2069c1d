use pubsub::Broker;

// Publishing returns the handles owed a delivery, in order, one entry per
// matching stored subscription.

#[test]
fn empty_broker_delivers_to_nobody() {
    let mut broker = Broker::new(false);
    assert_eq!(broker.publish("any/topic/at/all"), Vec::<u64>::new());
    assert_eq!(broker.publish(""), Vec::<u64>::new());
}

#[test]
fn exact_match_delivers_once() {
    let mut broker = Broker::new(false);
    broker.subscribe(7, "a/b");
    assert_eq!(broker.publish("a/b"), vec![7]);
    assert_eq!(broker.publish("a/c"), Vec::<u64>::new());
}

#[test]
fn double_subscribe_doubles_delivery() {
    let mut broker = Broker::new(false);
    broker.subscribe(5, "a/b");
    broker.subscribe(5, "a/b");
    assert_eq!(broker.publish("a/b"), vec![5, 5]);
}

#[test]
fn unsubscribe_keeps_other_topics() {
    let mut broker = Broker::new(false);
    broker.subscribe(1, "a/b");
    broker.subscribe(1, "a/c");
    broker.unsubscribe(1, &["a/b"]);
    assert_eq!(broker.publish("a/b"), Vec::<u64>::new());
    assert_eq!(broker.publish("a/c"), vec![1]);
}

#[test]
fn hash_alone_matches_everything() {
    let mut broker = Broker::new(false);
    broker.subscribe(2, "#");
    assert_eq!(broker.publish("a"), vec![2]);
    assert_eq!(broker.publish("a/b/c/d"), vec![2]);
    assert_eq!(broker.publish(""), vec![2]);
}

#[test]
fn hash_matches_bare_prefix() {
    let mut broker = Broker::new(false);
    broker.subscribe(3, "topic/#");
    assert_eq!(broker.publish("topic"), vec![3]);
    assert_eq!(broker.publish("topic/x"), vec![3]);
    assert_eq!(broker.publish("other"), Vec::<u64>::new());
}

#[test]
fn plus_matches_exactly_one_segment() {
    let mut broker = Broker::new(false);
    broker.subscribe(4, "foo/+");
    assert_eq!(broker.publish("foo/bar"), vec![4]);
    assert_eq!(broker.publish("foo"), Vec::<u64>::new());
    assert_eq!(broker.publish("foo/bar/baz"), Vec::<u64>::new());
}

#[test]
fn wildcard_chars_inside_segments_are_literal() {
    let mut broker = Broker::new(false);
    broker.subscribe(6, "finance#");
    broker.subscribe(8, "a+b");
    assert_eq!(broker.publish("finance"), Vec::<u64>::new());
    assert_eq!(broker.publish("finance#"), vec![6]);
    assert_eq!(broker.publish("a+b"), vec![8]);
    assert_eq!(broker.publish("axb"), Vec::<u64>::new());
}

#[test]
fn empty_segments_are_literal() {
    let mut broker = Broker::new(false);
    broker.subscribe(9, "/a");
    assert_eq!(broker.publish("/a"), vec![9]);
    assert_eq!(broker.publish("a"), Vec::<u64>::new());
    broker.subscribe(10, "b//c");
    assert_eq!(broker.publish("b//c"), vec![10]);
    assert_eq!(broker.publish("b/c"), Vec::<u64>::new());
}

// The cache is pure memoization: with it on, every publish returns the
// same handles in the same order as with it off, across any sequence of
// subscribes, unsubscribes and repeated publishes.
#[test]
fn cache_is_transparent() {
    let mut plain = Broker::new(false);
    let mut cached = Broker::new(true);
    let topics = ["topics/foo/bar", "topics/bar", "topics/foo/baz", "other"];
    for b in [&mut plain, &mut cached] {
        b.subscribe(1, "topics/foo/+");
        b.subscribe(2, "topics/#");
        b.subscribe(1, "topics/bar");
    }
    for round in 0..3 {
        for t in topics {
            assert_eq!(plain.publish(t), cached.publish(t));
        }
        if round == 1 {
            plain.unsubscribe_all(2);
            cached.unsubscribe_all(2);
            plain.unsubscribe(1, &["topics/bar"]);
            cached.unsubscribe(1, &["topics/bar"]);
        }
    }
}

#[test]
fn end_to_end_wildcard_rounds() {
    let mut broker = Broker::new(false);
    broker.subscribe(1, "topics/foo/+");
    assert_eq!(broker.publish("topics/foo/bar"), vec![1]);
    assert_eq!(broker.publish("topics/bar/baz/boo"), Vec::<u64>::new());
    broker.subscribe(2, "topics/foo/#");
    // the walk visits the `#` edge before the `+` edge
    assert_eq!(broker.publish("topics/foo/bar"), vec![2, 1]);
}
