use pubsub::{Broker, Subscriber};

struct TestSubscriber {
    msgs: Vec<Vec<u8>>,
}

impl TestSubscriber {
    fn new() -> Self {
        TestSubscriber { msgs: vec![] }
    }
}

impl Subscriber for TestSubscriber {
    fn new_message(&mut self, bytes: &[u8]) {
        self.msgs.push(bytes.to_vec());
    }
}

fn publish(broker: &mut Broker, subs: &mut Vec<TestSubscriber>, topic: &str, payload: &[u8]) {
    for id in broker.publish(topic) {
        subs[id as usize].new_message(payload);
    }
}

#[test]
fn test_subscribe() {
    let mut broker = Broker::new(false);
    let mut subs = vec![TestSubscriber::new()];
    publish(&mut broker, &mut subs, "topics/foo", &[0, 1, 2]);
    assert_eq!(subs[0].msgs.len(), 0);

    broker.subscribe(0, "topics/foo");
    publish(&mut broker, &mut subs, "topics/foo", &[0, 1, 9]); //should get this
    publish(&mut broker, &mut subs, "topics/bar", &[2, 4, 6]); //shouldn't get this
    assert_eq!(subs[0].msgs.len(), 1);
    assert_eq!(subs[0].msgs[0], &[0, 1, 9]);

    broker.subscribe(0, "topics/bar");
    publish(&mut broker, &mut subs, "topics/foo", &[1, 3, 5, 7]);
    publish(&mut broker, &mut subs, "topics/bar", &[2, 4]);
    assert_eq!(subs[0].msgs.len(), 3);
    assert_eq!(subs[0].msgs[0], &[0, 1, 9]);
    assert_eq!(subs[0].msgs[1], &[1, 3, 5, 7]);
    assert_eq!(subs[0].msgs[2], &[2, 4]);
}

#[test]
fn test_unsubscribe_all() {
    let mut broker = Broker::new(false);
    let mut subs = vec![TestSubscriber::new()];

    broker.subscribe(0, "topics/foo");
    publish(&mut broker, &mut subs, "topics/foo", &[0, 1, 9]); //should get this
    publish(&mut broker, &mut subs, "topics/bar", &[2, 4, 6]); //shouldn't get this
    assert_eq!(subs[0].msgs.len(), 1);
    assert_eq!(subs[0].msgs[0], &[0, 1, 9]);

    broker.unsubscribe_all(0);
    publish(&mut broker, &mut subs, "topics/foo", &[0, 1, 9]);
    publish(&mut broker, &mut subs, "topics/bar", &[2, 4]);
    publish(&mut broker, &mut subs, "topics/baz", &[2, 4, 7, 11]);

    //shouldn't have changed
    assert_eq!(subs[0].msgs.len(), 1);
    assert_eq!(subs[0].msgs[0], &[0, 1, 9]);
}

#[test]
fn test_unsubscribe_one() {
    let mut broker = Broker::new(false);
    let mut subs = vec![TestSubscriber::new()];

    broker.subscribe(0, "topics/foo");
    broker.subscribe(0, "topics/bar");
    publish(&mut broker, &mut subs, "topics/foo", &[0, 1, 9]); //should get this
    publish(&mut broker, &mut subs, "topics/bar", &[2, 4]); //should get this
    publish(&mut broker, &mut subs, "topics/baz", &[2, 4, 7, 11]); //shouldn't get this
    assert_eq!(subs[0].msgs.len(), 2);
    assert_eq!(subs[0].msgs[0], &[0, 1, 9]);
    assert_eq!(subs[0].msgs[1], &[2, 4]);

    broker.unsubscribe(0, &["topics/foo"]);
    publish(&mut broker, &mut subs, "topics/foo", &[0, 1, 9]); //shouldn't get this
    publish(&mut broker, &mut subs, "topics/bar", &[2, 4]); //should get this
    publish(&mut broker, &mut subs, "topics/baz", &[2, 4, 7, 11]); //shouldn't get this

    assert_eq!(subs[0].msgs.len(), 3);
    assert_eq!(subs[0].msgs[0], &[0, 1, 9]);
    assert_eq!(subs[0].msgs[1], &[2, 4]);
    assert_eq!(subs[0].msgs[2], &[2, 4]);
}

fn test_matches(pub_topic: &str, sub_topic: &str) -> bool {
    let mut broker = Broker::new(false);
    let mut subs = vec![TestSubscriber::new()];

    broker.subscribe(0, sub_topic);
    publish(&mut broker, &mut subs, pub_topic, &[0, 1, 2]);
    subs[0].msgs.len() == 1
}

#[test]
fn test_wildcards() {
    assert_eq!(test_matches("foo/bar/baz", "foo/bar/baz"), true);
    assert_eq!(test_matches("foo/bar", "foo/+"), true);
    assert_eq!(test_matches("foo/baz", "foo/+"), true);
    assert_eq!(test_matches("foo/bar/baz", "foo/+"), false);
    assert_eq!(test_matches("foo/bar", "foo/#"), true);
    assert_eq!(test_matches("foo/bar/baz", "foo/#"), true);
    assert_eq!(test_matches("foo/bar/baz/boo", "foo/#"), true);
    assert_eq!(test_matches("foo/bla/bar/baz/boo/bogadog", "foo/+/bar/baz/#"), true);
    assert_eq!(test_matches("finance", "finance/#"), true);
    assert_eq!(test_matches("finance", "finance#"), false);
    assert_eq!(test_matches("finance", "#"), true);
    assert_eq!(test_matches("finance/stock", "#"), true);
    assert_eq!(test_matches("finance/stock", "finance/stock/ibm"), false);
    assert_eq!(test_matches("topics/foo/bar", "topics/foo/#"), true);
    assert_eq!(test_matches("topics/bar/baz/boo", "topics/foo/#"), false);
}

#[test]
fn test_subscribe_wildcards() {
    let mut broker = Broker::new(false);
    let mut subs = vec![
        TestSubscriber::new(),
        TestSubscriber::new(),
        TestSubscriber::new(),
        TestSubscriber::new(),
    ];

    broker.subscribe(0, "topics/foo/+");
    publish(&mut broker, &mut subs, "topics/foo/bar", &[3]);
    publish(&mut broker, &mut subs, "topics/bar/baz/boo", &[4]); //shouldn't get this one
    assert_eq!(subs[0].msgs, vec![&[3]]);

    broker.subscribe(1, "topics/foo/#");
    publish(&mut broker, &mut subs, "topics/foo/bar", &[3]);
    publish(&mut broker, &mut subs, "topics/bar/baz/boo", &[4]); //shouldn't get this one
    assert_eq!(subs[0].msgs, vec![&[3], &[3]]);
    assert_eq!(subs[1].msgs, vec![&[3]]);

    broker.subscribe(2, "topics/+/bar");
    broker.subscribe(3, "topics/#");

    publish(&mut broker, &mut subs, "topics/foo/bar", &[3]);
    publish(&mut broker, &mut subs, "topics/bar/baz/boo", &[4]);
    publish(&mut broker, &mut subs, "topics/boo/bar/zoo", &[5]);
    publish(&mut broker, &mut subs, "topics/foo/bar/zoo", &[6]);
    publish(&mut broker, &mut subs, "topics/bbobobobo/bar", &[7]);

    assert_eq!(subs[0].msgs, vec![&[3], &[3], &[3]]);
    assert_eq!(subs[1].msgs, vec![&[3], &[3], &[6]]);
    assert_eq!(subs[2].msgs, vec![&[3], &[7]]);
    assert_eq!(subs[3].msgs, vec![&[3], &[4], &[5], &[6], &[7]]);
}
