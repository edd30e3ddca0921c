//! Snapshot normalization: depth truncation and ladder validation.

use orderbook::book::{Exchange, Side, Tick, DEPTH};

#[test]
fn accepts_a_valid_snapshot() {
    let t = Tick::try_new(
        Exchange::Binance,
        &vec![(10050, 2), (10040, 3)],
        &vec![(10060, 1), (10070, 5)],
    )
    .unwrap();
    assert_eq!(t.exchange, Exchange::Binance);
    assert_eq!(t.bids.len(), 2);
    assert_eq!(t.asks.len(), 2);
    assert_eq!(t.bids[0].price, 10050);
    assert_eq!(t.bids[0].side, Side::Bid);
    assert_eq!(t.asks[1].amount, 5);
    assert_eq!(t.asks[1].side, Side::Ask);
}

#[test]
fn rejects_zero_price() {
    assert!(Tick::try_new(Exchange::Binance, &vec![(0, 2)], &vec![(10060, 1)]).is_none());
}

#[test]
fn rejects_zero_amount() {
    assert!(Tick::try_new(Exchange::Binance, &vec![(10050, 2)], &vec![(10060, 0)]).is_none());
}

#[test]
fn rejects_unsorted_bids() {
    assert!(
        Tick::try_new(Exchange::Binance, &vec![(10040, 1), (10050, 1)], &vec![(10060, 1)])
            .is_none()
    );
}

#[test]
fn rejects_equal_bid_prices() {
    assert!(
        Tick::try_new(Exchange::Binance, &vec![(10040, 1), (10040, 2)], &vec![(10060, 1)])
            .is_none()
    );
}

#[test]
fn rejects_unsorted_asks() {
    assert!(
        Tick::try_new(Exchange::Binance, &vec![(10050, 1)], &vec![(10070, 1), (10060, 1)])
            .is_none()
    );
}

#[test]
fn truncates_each_side_to_depth() {
    let mut bids: Vec<(u64, u64)> = Vec::new();
    let mut asks: Vec<(u64, u64)> = Vec::new();
    for k in 0..15u64 {
        bids.push((20000 - k, 1));
        asks.push((30000 + k, 1));
    }
    let t = Tick::try_new(Exchange::Bitstamp, &bids, &asks).unwrap();
    assert_eq!(t.bids.len(), DEPTH);
    assert_eq!(t.asks.len(), DEPTH);
    assert_eq!(t.bids[9].price, 19991);
    assert_eq!(t.asks[9].price, 30009);
}

#[test]
fn validation_ignores_entries_beyond_depth() {
    // The eleventh entry breaks the ordering, but only the top ten
    // are kept, so the snapshot is still valid.
    let mut bids: Vec<(u64, u64)> = Vec::new();
    for k in 0..10u64 {
        bids.push((20000 - k, 1));
    }
    bids.push((25000, 1));
    let t = Tick::try_new(Exchange::Binance, &bids, &vec![(30000, 1)]).unwrap();
    assert_eq!(t.bids.len(), DEPTH);
    assert_eq!(t.bids[0].price, 20000);
}

#[test]
fn accepts_empty_sides() {
    let t = Tick::try_new(Exchange::Bitstamp, &vec![], &vec![]).unwrap();
    assert!(t.bids.is_empty());
    assert!(t.asks.is_empty());
}
