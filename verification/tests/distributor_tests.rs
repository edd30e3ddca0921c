//! Fan-out and drop-oldest backpressure.

use orderbook::merge::AggregatedSummary;
use orderbook::distributor::Distributor;

fn summary(tag: i128) -> AggregatedSummary {
    AggregatedSummary { spread: Some(tag), bids: Vec::new(), asks: Vec::new() }
}

#[test]
fn slow_subscriber_sees_only_the_most_recent() {
    // Queue capacity 2; five aggregates published before the
    // subscriber reads any: it observes only the last two, and the
    // producer never blocked.
    let mut d = Distributor::new(2);
    let h = d.register();
    for tag in 1..=5i128 {
        d.publish(&summary(tag));
    }
    assert_eq!(d.take_next(h).unwrap().spread, Some(4));
    assert_eq!(d.take_next(h).unwrap().spread, Some(5));
    assert!(d.take_next(h).is_none());
}

#[test]
fn every_subscriber_receives_each_publish() {
    let mut d = Distributor::new(4);
    let h1 = d.register();
    let h2 = d.register();
    d.publish(&summary(7));
    assert_eq!(d.take_next(h1).unwrap().spread, Some(7));
    assert_eq!(d.take_next(h2).unwrap().spread, Some(7));
    assert!(d.take_next(h1).is_none());
}

#[test]
fn queues_are_independent() {
    let mut d = Distributor::new(2);
    let h1 = d.register();
    let h2 = d.register();
    d.publish(&summary(1));
    assert_eq!(d.take_next(h1).unwrap().spread, Some(1));
    d.publish(&summary(2));
    // h1 drained before the second publish; h2 held both.
    assert_eq!(d.take_next(h1).unwrap().spread, Some(2));
    assert_eq!(d.take_next(h2).unwrap().spread, Some(1));
    assert_eq!(d.take_next(h2).unwrap().spread, Some(2));
}

#[test]
fn handles_are_fresh() {
    let mut d = Distributor::new(1);
    let h1 = d.register();
    let h2 = d.register();
    let h3 = d.register();
    assert_ne!(h1, h2);
    assert_ne!(h1, h3);
    assert_ne!(h2, h3);
}

#[test]
fn unregister_removes_exactly_that_subscriber() {
    let mut d = Distributor::new(2);
    let h1 = d.register();
    let h2 = d.register();
    assert!(d.unregister(h1));
    assert!(!d.unregister(h1));
    d.publish(&summary(9));
    assert!(d.take_next(h1).is_none());
    assert_eq!(d.take_next(h2).unwrap().spread, Some(9));
}

#[test]
fn unknown_handle_yields_nothing() {
    let mut d = Distributor::new(2);
    let h = d.register();
    d.publish(&summary(3));
    assert!(d.take_next(h.wrapping_add(100)).is_none());
    assert_eq!(d.take_next(h).unwrap().spread, Some(3));
}
