//! Merge-engine behaviour on concrete snapshots. Prices and amounts
//! are fixed-point integers; these tests use a scale of 100, so a
//! price of 10050 reads as 100.50.

use orderbook::book::{Exchange, Level, Side, Tick};
use orderbook::merge::MergeState;

fn lvl(exchange: Exchange, side: Side, price: u64, amount: u64) -> Level {
    Level { exchange, side, price, amount }
}

fn binance_tick() -> Tick {
    Tick::try_new(
        Exchange::Binance,
        &vec![(10050, 2), (10040, 3)],
        &vec![(10060, 1), (10070, 5)],
    )
    .unwrap()
}

fn bitstamp_tick() -> Tick {
    Tick::try_new(Exchange::Bitstamp, &vec![(10055, 1)], &vec![(10065, 2)]).unwrap()
}

#[test]
fn scenario_two_venues_merge() {
    let mut state = MergeState::new();
    state.apply(binance_tick());
    let summary = state.apply(bitstamp_tick());

    assert_eq!(
        summary.bids,
        vec![
            lvl(Exchange::Bitstamp, Side::Bid, 10055, 1),
            lvl(Exchange::Binance, Side::Bid, 10050, 2),
            lvl(Exchange::Binance, Side::Bid, 10040, 3),
        ]
    );
    assert_eq!(
        summary.asks,
        vec![
            lvl(Exchange::Binance, Side::Ask, 10060, 1),
            lvl(Exchange::Bitstamp, Side::Ask, 10065, 2),
            lvl(Exchange::Binance, Side::Ask, 10070, 5),
        ]
    );
    assert_eq!(summary.spread, Some(5));
}

#[test]
fn scenario_binance_disconnects() {
    let mut state = MergeState::new();
    state.apply(binance_tick());
    state.apply(bitstamp_tick());
    let summary = state.remove(Exchange::Binance);

    assert_eq!(summary.bids, vec![lvl(Exchange::Bitstamp, Side::Bid, 10055, 1)]);
    assert_eq!(summary.asks, vec![lvl(Exchange::Bitstamp, Side::Ask, 10065, 2)]);
    assert_eq!(summary.spread, Some(10));
}

#[test]
fn scenario_no_exchanges_connected() {
    let state = MergeState::new();
    let summary = state.recompute();
    assert!(summary.bids.is_empty());
    assert!(summary.asks.is_empty());
    assert_eq!(summary.spread, None);
}

#[test]
fn merge_is_order_independent() {
    let mut one = MergeState::new();
    one.apply(binance_tick());
    let s1 = one.apply(bitstamp_tick());

    let mut two = MergeState::new();
    two.apply(bitstamp_tick());
    let s2 = two.apply(binance_tick());

    assert_eq!(s1, s2);
}

#[test]
fn recompute_is_idempotent() {
    let mut state = MergeState::new();
    state.apply(binance_tick());
    state.apply(bitstamp_tick());
    let first = state.recompute();
    let second = state.recompute();
    assert_eq!(first, second);
}

#[test]
fn removal_excludes_every_level_of_the_venue() {
    let mut state = MergeState::new();
    state.apply(binance_tick());
    state.apply(bitstamp_tick());
    let summary = state.remove(Exchange::Binance);
    for level in summary.bids.iter().chain(summary.asks.iter()) {
        assert_ne!(level.exchange, Exchange::Binance);
    }
}

#[test]
fn replacement_is_total_not_incremental() {
    let mut state = MergeState::new();
    state.apply(binance_tick());
    // The next snapshot fully replaces the old one; the 10050/10040
    // bids must be gone.
    let fresh = Tick::try_new(Exchange::Binance, &vec![(9990, 7)], &vec![(10010, 4)]).unwrap();
    let summary = state.apply(fresh);
    assert_eq!(summary.bids, vec![lvl(Exchange::Binance, Side::Bid, 9990, 7)]);
    assert_eq!(summary.asks, vec![lvl(Exchange::Binance, Side::Ask, 10010, 4)]);
    assert_eq!(summary.spread, Some(20));
}

#[test]
fn crossed_book_reports_negative_spread() {
    let mut state = MergeState::new();
    let bid_heavy = Tick::try_new(Exchange::Binance, &vec![(10100, 1)], &vec![(10110, 1)]).unwrap();
    let ask_light = Tick::try_new(Exchange::Bitstamp, &vec![(10040, 1)], &vec![(10050, 1)]).unwrap();
    state.apply(bid_heavy);
    let summary = state.apply(ask_light);
    // Best bid 101.00 above best ask 100.50: reported as computed.
    assert_eq!(summary.spread, Some(-50));
}

#[test]
fn one_sided_book_has_no_spread() {
    let mut state = MergeState::new();
    let bids_only = Tick::try_new(Exchange::Binance, &vec![(10000, 1)], &vec![]).unwrap();
    let summary = state.apply(bids_only);
    assert_eq!(summary.bids.len(), 1);
    assert!(summary.asks.is_empty());
    assert_eq!(summary.spread, None);
}

#[test]
fn equal_price_ties_break_by_amount_then_venue() {
    let mut state = MergeState::new();
    let a = Tick::try_new(Exchange::Binance, &vec![(10000, 2)], &vec![(10010, 3)]).unwrap();
    let b = Tick::try_new(Exchange::Bitstamp, &vec![(10000, 5)], &vec![(10010, 3)]).unwrap();
    state.apply(a);
    let summary = state.apply(b);
    // Larger amount first at the same bid price.
    assert_eq!(
        summary.bids,
        vec![
            lvl(Exchange::Bitstamp, Side::Bid, 10000, 5),
            lvl(Exchange::Binance, Side::Bid, 10000, 2),
        ]
    );
    // Same price and amount: the earlier-registered venue first.
    assert_eq!(
        summary.asks,
        vec![
            lvl(Exchange::Binance, Side::Ask, 10010, 3),
            lvl(Exchange::Bitstamp, Side::Ask, 10010, 3),
        ]
    );
}

#[test]
fn merged_ladders_are_depth_limited() {
    let mut state = MergeState::new();
    let mut bids_a: Vec<(u64, u64)> = Vec::new();
    let mut bids_b: Vec<(u64, u64)> = Vec::new();
    let mut asks_a: Vec<(u64, u64)> = Vec::new();
    let mut asks_b: Vec<(u64, u64)> = Vec::new();
    for k in 0..10u64 {
        bids_a.push((20000 - 2 * k, 1));
        bids_b.push((19999 - 2 * k, 1));
        asks_a.push((30000 + 2 * k, 1));
        asks_b.push((30001 + 2 * k, 1));
    }
    state.apply(Tick::try_new(Exchange::Binance, &bids_a, &asks_a).unwrap());
    let summary = state.apply(Tick::try_new(Exchange::Bitstamp, &bids_b, &asks_b).unwrap());
    assert_eq!(summary.bids.len(), 10);
    assert_eq!(summary.asks.len(), 10);
    // The ten best interleave the two venues strictly by price.
    for w in summary.bids.windows(2) {
        assert!(w[0].price > w[1].price);
    }
    for w in summary.asks.windows(2) {
        assert!(w[0].price < w[1].price);
    }
    assert_eq!(summary.bids[0].price, 20000);
    assert_eq!(summary.bids[9].price, 19991);
    assert_eq!(summary.asks[0].price, 30000);
    assert_eq!(summary.asks[9].price, 30009);
}
