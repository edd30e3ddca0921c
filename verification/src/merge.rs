//! The merge engine: holds the latest snapshot per exchange and folds
//! them into one depth-limited best-of-market ladder with an explicit
//! tie-break policy.
//!
//! The whole aggregate is specified by one function of the abstract
//! state, [`summary_spec`]: the candidate levels are the union of the
//! retained snapshots' sides, sorted by the side's total ordering
//! ([`side_le`]) and cut to [`DEPTH`]. Because the specification is a
//! function of the state map alone, determinism over arrival order and
//! idempotence of recomputation are corollaries, proved in
//! [`crate::merge::lemma_order_independent`] and its neighbours.

use crate::book::{
    lemma_side_le_total, lemma_side_wf_sorted, side_le, BookView, Exchange, Level, Side, Tick,
    DEPTH,
};
use vstd::map::*;
use vstd::prelude::*;
use vstd::relations::*;
use vstd::seq_lib::*;

verus! {

broadcast use
    vstd::seq_lib::group_to_multiset_ensures,
    vstd::seq_lib::lemma_multiset_commutative,
    vstd::multiset::group_multiset_axioms,
;

/// The levels one venue contributes to one side of the merge.
pub open spec fn venue_side(m: Map<Exchange, BookView>, e: Exchange, side: Side) -> Seq<Level> {
    if m.dom().contains(e) {
        if side == Side::Bid {
            m[e].bids
        } else {
            m[e].asks
        }
    } else {
        Seq::empty()
    }
}

/// All candidate levels for one side: the union of every retained
/// snapshot's ladder for that side, listed in registration order.
pub open spec fn candidates(m: Map<Exchange, BookView>, side: Side) -> Seq<Level> {
    venue_side(m, Exchange::Binance, side) + venue_side(m, Exchange::Bitstamp, side)
}

/// The merged ladder for one side: the candidates sorted by the side's
/// total tie-break ordering, cut to the first [`DEPTH`] entries.
pub open spec fn merged_ladder(cands: Seq<Level>, side: Side) -> Seq<Level> {
    let sorted = cands.sort_by(side_le(side));
    if sorted.len() <= DEPTH {
        sorted
    } else {
        sorted.take(DEPTH as int)
    }
}

/// The mathematical content of an [`AggregatedSummary`].
#[verifier::ext_equal]
pub struct SummaryView {
    pub spread: Option<int>,
    pub bids: Seq<Level>,
    pub asks: Seq<Level>,
}

/// The aggregate that a state must produce: both merged ladders, and
/// the spread (best ask price minus best bid price) exactly when both
/// sides are non-empty. A crossed book yields a non-positive spread,
/// reported as computed; that is policy, not an error.
pub open spec fn summary_spec(m: Map<Exchange, BookView>) -> SummaryView {
    let bids = merged_ladder(candidates(m, Side::Bid), Side::Bid);
    let asks = merged_ladder(candidates(m, Side::Ask), Side::Ask);
    let spread = if bids.len() > 0 && asks.len() > 0 {
        Some(asks[0].price - bids[0].price)
    } else {
        None
    };
    SummaryView { spread, bids, asks }
}

/// The best-of-market view that is fanned out to subscribers:
/// depth-limited merged ladders with provenance, and the spread when
/// both sides are non-empty.
#[derive(PartialEq, Debug)]
pub struct AggregatedSummary {
    pub spread: Option<i128>,
    pub bids: Vec<Level>,
    pub asks: Vec<Level>,
}

impl View for AggregatedSummary {
    type V = SummaryView;

    open spec fn view(&self) -> SummaryView {
        SummaryView {
            spread: match self.spread {
                Some(d) => Some(d as int),
                None => None,
            },
            bids: self.bids@,
            asks: self.asks@,
        }
    }
}

impl AggregatedSummary {
    /// An exact copy; summaries are immutable once constructed and may
    /// be handed to any number of subscribers.
    pub fn duplicate(&self) -> (r: AggregatedSummary)
        ensures
            r@ == self@,
    {
        let r = AggregatedSummary {
            spread: self.spread,
            bids: copy_levels(&self.bids),
            asks: copy_levels(&self.asks),
        };
        proof {
            assert(r@ =~= self@);
        }
        r
    }
}

fn copy_levels(v: &Vec<Level>) -> (r: Vec<Level>)
    ensures
        r@ == v@,
{
    let mut r: Vec<Level> = Vec::new();
    let mut i: usize = 0;
    while i < v.len()
        invariant
            i <= v@.len(),
            r@ == v@.take(i as int),
        decreases v@.len() - i,
    {
        r.push(v[i]);
        proof {
            assert(r@ =~= v@.take(i as int + 1));
        }
        i += 1;
    }
    proof {
        assert(v@.take(v@.len() as int) =~= v@);
    }
    r
}

/// The side's ordering applied to two levels.
pub open spec fn ladder_le(side: Side, a: Level, b: Level) -> bool {
    side_le(side)(a, b)
}

fn ladder_le_exec(side: Side, x: &Level, y: &Level) -> (r: bool)
    ensures
        r == ladder_le(side, *x, *y),
{
    if x.price != y.price {
        match side {
            Side::Bid => x.price > y.price,
            Side::Ask => x.price < y.price,
        }
    } else if x.amount != y.amount {
        x.amount > y.amount
    } else if x.exchange.rank() != y.exchange.rank() {
        x.exchange.rank() < y.exchange.rank()
    } else {
        x.side.rank() <= y.side.rank()
    }
}

/// Merge two ladders that are each sorted by the side's ordering into
/// one sorted ladder holding exactly the levels of both.
fn merge_ladders(a: &Vec<Level>, b: &Vec<Level>, side: Side) -> (out: Vec<Level>)
    requires
        sorted_by(a@, side_le(side)),
        sorted_by(b@, side_le(side)),
    ensures
        sorted_by(out@, side_le(side)),
        out@.to_multiset() == (a@ + b@).to_multiset(),
        out@.len() == a@.len() + b@.len(),
{
    let mut out: Vec<Level> = Vec::new();
    let mut i: usize = 0;
    let mut j: usize = 0;
    while i < a.len() || j < b.len()
        invariant
            i <= a@.len(),
            j <= b@.len(),
            sorted_by(a@, side_le(side)),
            sorted_by(b@, side_le(side)),
            sorted_by(out@, side_le(side)),
            out@.len() == i + j,
            out@.to_multiset() == (a@.take(i as int) + b@.take(j as int)).to_multiset(),
            forall|p: int, k: int|
                #![trigger out@[p], a@[k]]
                0 <= p < out@.len() && i as int <= k < a@.len() ==> ladder_le(side, out@[p], a@[k]),
            forall|p: int, k: int|
                #![trigger out@[p], b@[k]]
                0 <= p < out@.len() && j as int <= k < b@.len() ==> ladder_le(side, out@[p], b@[k]),
        decreases a@.len() + b@.len() - i - j,
    {
        proof {
            lemma_side_le_total(side);
        }
        let use_a: bool = if i >= a.len() {
            false
        } else if j >= b.len() {
            true
        } else {
            ladder_le_exec(side, &a[i], &b[j])
        };
        if use_a {
            let x = a[i];
            let ghost pre = out@;
            let ghost ga = a@.take(i as int);
            let ghost gb = b@.take(j as int);
            proof {
                assert forall|k: int| j as int <= k < b@.len() implies ladder_le(
                    side,
                    x,
                    b@[k],
                ) by {
                    if k > j as int {
                        assert(side_le(side)(b@[j as int], b@[k]));
                    }
                }
            }
            out.push(x);
            i += 1;
            proof {
                assert(out@ == pre.push(x));
                assert forall|p: int, q: int| 0 <= p < q < out@.len() implies side_le(side)(
                    out@[p],
                    out@[q],
                ) by {
                    if q == out@.len() - 1 {
                        assert(ladder_le(side, pre[p], x));
                    } else {
                        assert(side_le(side)(pre[p], pre[q]));
                    }
                }
                assert(a@.take(i as int) =~= ga.push(x));
                assert((ga.push(x) + gb).to_multiset() =~= (ga + gb).to_multiset().insert(x));
                assert forall|p: int, k: int|
                    0 <= p < out@.len() && i as int <= k < a@.len() implies ladder_le(
                    side,
                    out@[p],
                    a@[k],
                ) by {
                    if p < out@.len() - 1 {
                        assert(ladder_le(side, pre[p], a@[k]));
                    } else {
                        assert(side_le(side)(a@[i - 1], a@[k]));
                    }
                }
                assert forall|p: int, k: int|
                    0 <= p < out@.len() && j as int <= k < b@.len() implies ladder_le(
                    side,
                    out@[p],
                    b@[k],
                ) by {
                    if p < out@.len() - 1 {
                        assert(ladder_le(side, pre[p], b@[k]));
                    } else {
                        assert(ladder_le(side, x, b@[k]));
                    }
                }
            }
        } else {
            let x = b[j];
            let ghost pre = out@;
            let ghost ga = a@.take(i as int);
            let ghost gb = b@.take(j as int);
            proof {
                if i < a.len() {
                    assert(side_le(side)(x, a@[i as int]));
                    assert forall|k: int| i as int <= k < a@.len() implies ladder_le(
                        side,
                        x,
                        a@[k],
                    ) by {
                        if k > i as int {
                            assert(side_le(side)(a@[i as int], a@[k]));
                        }
                    }
                }
            }
            out.push(x);
            j += 1;
            proof {
                assert(out@ == pre.push(x));
                assert forall|p: int, q: int| 0 <= p < q < out@.len() implies side_le(side)(
                    out@[p],
                    out@[q],
                ) by {
                    if q == out@.len() - 1 {
                        assert(ladder_le(side, pre[p], x));
                    } else {
                        assert(side_le(side)(pre[p], pre[q]));
                    }
                }
                assert(b@.take(j as int) =~= gb.push(x));
                assert((ga + gb.push(x)).to_multiset() =~= (ga + gb).to_multiset().insert(x));
                assert forall|p: int, k: int|
                    0 <= p < out@.len() && i as int <= k < a@.len() implies ladder_le(
                    side,
                    out@[p],
                    a@[k],
                ) by {
                    if p < out@.len() - 1 {
                        assert(ladder_le(side, pre[p], a@[k]));
                    } else {
                        assert(ladder_le(side, x, a@[k]));
                    }
                }
                assert forall|p: int, k: int|
                    0 <= p < out@.len() && j as int <= k < b@.len() implies ladder_le(
                    side,
                    out@[p],
                    b@[k],
                ) by {
                    if p < out@.len() - 1 {
                        assert(ladder_le(side, pre[p], b@[k]));
                    } else {
                        assert(side_le(side)(b@[j - 1], b@[k]));
                    }
                }
            }
        }
    }
    proof {
        assert(a@.take(a@.len() as int) =~= a@);
        assert(b@.take(b@.len() as int) =~= b@);
    }
    out
}

/// The latest retained snapshot per exchange. Exactly one owner
/// mutates it: a snapshot atomically replaces the prior entry for its
/// venue, and the entry disappears when the venue's feed dies.
pub struct MergeState {
    binance: Option<Tick>,
    bitstamp: Option<Tick>,
}

/// Every retained snapshot is well formed and keyed by its own venue.
pub open spec fn map_wf(m: Map<Exchange, BookView>) -> bool {
    forall|e: Exchange| #[trigger] m.dom().contains(e) ==> m[e].wf() && m[e].exchange == e
}

impl View for MergeState {
    type V = Map<Exchange, BookView>;

    closed spec fn view(&self) -> Map<Exchange, BookView> {
        Map::new(|e: Exchange| self.entry(e) is Some, |e: Exchange| (self.entry(e)->Some_0)@)
    }
}

impl MergeState {
    pub closed spec fn entry(self, e: Exchange) -> Option<Tick> {
        match e {
            Exchange::Binance => self.binance,
            Exchange::Bitstamp => self.bitstamp,
        }
    }

    pub open spec fn wf(self) -> bool {
        map_wf(self@)
    }

    /// The empty state: no venue connected. Its aggregate has empty
    /// ladders and an absent spread, a valid state, not an error.
    pub fn new() -> (r: MergeState)
        ensures
            r.wf(),
            r@ == Map::<Exchange, BookView>::empty(),
    {
        let r = MergeState { binance: None, bitstamp: None };
        proof {
            assert(r@ =~= Map::<Exchange, BookView>::empty());
        }
        r
    }

    /// Atomically replace this venue's snapshot with a fresh one, then
    /// recompute and emit the aggregate of the new state.
    pub fn apply(&mut self, t: Tick) -> (s: AggregatedSummary)
        requires
            old(self).wf(),
            t.wf(),
        ensures
            final(self).wf(),
            final(self)@ == old(self)@.insert(t.exchange, t@),
            s@ == summary_spec(final(self)@),
    {
        let ghost prior = self@;
        let ghost tv = t@;
        match t.exchange {
            Exchange::Binance => {
                self.binance = Some(t);
            },
            Exchange::Bitstamp => {
                self.bitstamp = Some(t);
            },
        }
        proof {
            assert(self@ =~= prior.insert(tv.exchange, tv));
            assert forall|e2: Exchange| #[trigger] self@.dom().contains(e2) implies self@[e2].wf()
                && self@[e2].exchange == e2 by {
                if e2 != tv.exchange {
                    assert(prior.dom().contains(e2));
                }
            }
        }
        self.recompute()
    }

    /// Drop this venue's contribution entirely (its feed is deemed
    /// unusable), then recompute and emit the aggregate of the new
    /// state.
    pub fn remove(&mut self, e: Exchange) -> (s: AggregatedSummary)
        requires
            old(self).wf(),
        ensures
            final(self).wf(),
            final(self)@ == old(self)@.remove(e),
            s@ == summary_spec(final(self)@),
    {
        let ghost prior = self@;
        match e {
            Exchange::Binance => {
                self.binance = None;
            },
            Exchange::Bitstamp => {
                self.bitstamp = None;
            },
        }
        proof {
            assert(self@ =~= prior.remove(e));
            assert forall|e2: Exchange| #[trigger] self@.dom().contains(e2) implies self@[e2].wf()
                && self@[e2].exchange == e2 by {
                assert(prior.dom().contains(e2));
            }
        }
        self.recompute()
    }

    /// Recompute the full aggregate from the current state. The result
    /// is a pure function of the state alone, so identical states give
    /// identical summaries whatever the arrival order that built them.
    pub fn recompute(&self) -> (s: AggregatedSummary)
        requires
            self.wf(),
        ensures
            s@ == summary_spec(self@),
    {
        let empty: Vec<Level> = Vec::new();
        let bin_bids: &Vec<Level> = match &self.binance {
            Some(t) => &t.bids,
            None => &empty,
        };
        let bin_asks: &Vec<Level> = match &self.binance {
            Some(t) => &t.asks,
            None => &empty,
        };
        let bit_bids: &Vec<Level> = match &self.bitstamp {
            Some(t) => &t.bids,
            None => &empty,
        };
        let bit_asks: &Vec<Level> = match &self.bitstamp {
            Some(t) => &t.asks,
            None => &empty,
        };
        proof {
            lemma_side_le_total(Side::Bid);
            lemma_side_le_total(Side::Ask);
            if self.binance is Some {
                let tv = self.binance->Some_0@;
                assert(self@.dom().contains(Exchange::Binance));
                assert(self@[Exchange::Binance] == tv);
                lemma_side_wf_sorted(tv.bids, Exchange::Binance, Side::Bid);
                lemma_side_wf_sorted(tv.asks, Exchange::Binance, Side::Ask);
            } else {
                assert(!self@.dom().contains(Exchange::Binance));
            }
            if self.bitstamp is Some {
                let tv = self.bitstamp->Some_0@;
                assert(self@.dom().contains(Exchange::Bitstamp));
                assert(self@[Exchange::Bitstamp] == tv);
                lemma_side_wf_sorted(tv.bids, Exchange::Bitstamp, Side::Bid);
                lemma_side_wf_sorted(tv.asks, Exchange::Bitstamp, Side::Ask);
            } else {
                assert(!self@.dom().contains(Exchange::Bitstamp));
            }
            assert(bin_bids@ + bit_bids@ =~= candidates(self@, Side::Bid));
            assert(bin_asks@ + bit_asks@ =~= candidates(self@, Side::Ask));
        }
        let mut bids = merge_ladders(bin_bids, bit_bids, Side::Bid);
        let mut asks = merge_ladders(bin_asks, bit_asks, Side::Ask);
        proof {
            let bc = candidates(self@, Side::Bid);
            let ac = candidates(self@, Side::Ask);
            bc.lemma_sort_by_ensures(side_le(Side::Bid));
            ac.lemma_sort_by_ensures(side_le(Side::Ask));
            lemma_sorted_unique(bids@, bc.sort_by(side_le(Side::Bid)), side_le(Side::Bid));
            lemma_sorted_unique(asks@, ac.sort_by(side_le(Side::Ask)), side_le(Side::Ask));
        }
        if bids.len() > DEPTH {
            bids.truncate(DEPTH);
        }
        if asks.len() > DEPTH {
            asks.truncate(DEPTH);
        }
        proof {
            assert(bids@ =~= merged_ladder(candidates(self@, Side::Bid), Side::Bid));
            assert(asks@ =~= merged_ladder(candidates(self@, Side::Ask), Side::Ask));
        }
        let spread: Option<i128> = if bids.len() > 0 && asks.len() > 0 {
            Some(asks[0].price as i128 - bids[0].price as i128)
        } else {
            None
        };
        let s = AggregatedSummary { spread, bids, asks };
        proof {
            assert(s@ =~= summary_spec(self@));
        }
        s
    }
}

/// No two levels of the sequence share a price.
pub open spec fn distinct_prices(s: Seq<Level>) -> bool {
    forall|p: int, q: int|
        #![trigger s[p], s[q]]
        0 <= p < q < s.len() ==> s[p].price != s[q].price
}

/// Every emitted aggregate is depth-limited and ordered: at most
/// [`DEPTH`] levels per side, bids sorted descending and asks sorted
/// ascending by price (ties broken by amount, then venue order).
pub proof fn lemma_summary_shape(m: Map<Exchange, BookView>)
    ensures
        summary_spec(m).bids.len() <= DEPTH,
        summary_spec(m).asks.len() <= DEPTH,
        sorted_by(summary_spec(m).bids, side_le(Side::Bid)),
        sorted_by(summary_spec(m).asks, side_le(Side::Ask)),
        forall|p: int, q: int|
            #![trigger summary_spec(m).bids[p], summary_spec(m).bids[q]]
            0 <= p < q < summary_spec(m).bids.len() ==> summary_spec(m).bids[p].price
                >= summary_spec(m).bids[q].price,
        forall|p: int, q: int|
            #![trigger summary_spec(m).asks[p], summary_spec(m).asks[q]]
            0 <= p < q < summary_spec(m).asks.len() ==> summary_spec(m).asks[p].price
                <= summary_spec(m).asks[q].price,
{
    lemma_ladder_shape(m, Side::Bid);
    lemma_ladder_shape(m, Side::Ask);
}

proof fn lemma_ladder_shape(m: Map<Exchange, BookView>, side: Side)
    ensures
        merged_ladder(candidates(m, side), side).len() <= DEPTH,
        sorted_by(merged_ladder(candidates(m, side), side), side_le(side)),
        forall|p: int, q: int|
            #![trigger merged_ladder(candidates(m, side), side)[p], merged_ladder(candidates(m, side), side)[q]]
            0 <= p < q < merged_ladder(candidates(m, side), side).len() ==> if side == Side::Bid {
                merged_ladder(candidates(m, side), side)[p].price >= merged_ladder(
                    candidates(m, side),
                    side,
                )[q].price
            } else {
                merged_ladder(candidates(m, side), side)[p].price <= merged_ladder(
                    candidates(m, side),
                    side,
                )[q].price
            },
{
    let cands = candidates(m, side);
    let le = side_le(side);
    let ladder = merged_ladder(cands, side);
    lemma_side_le_total(side);
    cands.lemma_sort_by_ensures(le);
    let sorted = cands.sort_by(le);
    assert forall|p: int, q: int| 0 <= p < q < ladder.len() implies le(ladder[p], ladder[q]) by {
        assert(ladder[p] == sorted[p]);
        assert(ladder[q] == sorted[q]);
        assert(le(sorted[p], sorted[q]));
    }
}

/// When no two candidate levels share a price, the ladder prices are
/// strict: bids strictly descending, asks strictly ascending. (Two
/// venues quoting the very same price both appear, adjacent, with the
/// tie broken by amount and venue order; only then is a price repeated.)
pub proof fn lemma_ladder_strict(m: Map<Exchange, BookView>, side: Side)
    requires
        distinct_prices(candidates(m, side)),
    ensures
        forall|p: int, q: int|
            #![trigger merged_ladder(candidates(m, side), side)[p], merged_ladder(candidates(m, side), side)[q]]
            0 <= p < q < merged_ladder(candidates(m, side), side).len() ==> if side == Side::Bid {
                merged_ladder(candidates(m, side), side)[p].price > merged_ladder(
                    candidates(m, side),
                    side,
                )[q].price
            } else {
                merged_ladder(candidates(m, side), side)[p].price < merged_ladder(
                    candidates(m, side),
                    side,
                )[q].price
            },
{
    let cands = candidates(m, side);
    let le = side_le(side);
    let ladder = merged_ladder(cands, side);
    lemma_side_le_total(side);
    cands.lemma_sort_by_ensures(le);
    let sorted = cands.sort_by(le);
    assert(cands.no_duplicates()) by {
        assert forall|p: int, q: int|
            0 <= p < cands.len() && 0 <= q < cands.len() && p != q implies cands[p]
            != cands[q] by {
            if p < q {
                assert(cands[p].price != cands[q].price);
            } else {
                assert(cands[q].price != cands[p].price);
            }
        }
    }
    cands.lemma_multiset_has_no_duplicates();
    sorted.lemma_multiset_has_no_duplicates_conv();
    assert forall|p: int, q: int| 0 <= p < q < ladder.len() implies ladder[p].price
        != ladder[q].price by {
        assert(ladder[p] == sorted[p]);
        assert(ladder[q] == sorted[q]);
        assert(sorted[p] != sorted[q]);
        assert(sorted.contains(sorted[p]));
        assert(sorted.contains(sorted[q]));
        assert(cands.contains(sorted[p]));
        assert(cands.contains(sorted[q]));
        let ip = choose|ii: int| 0 <= ii < cands.len() && cands[ii] == sorted[p];
        let iq = choose|ii: int| 0 <= ii < cands.len() && cands[ii] == sorted[q];
        assert(ip != iq);
        if ip < iq {
            assert(cands[ip].price != cands[iq].price);
        } else {
            assert(cands[iq].price != cands[ip].price);
        }
    }
    assert forall|p: int, q: int| 0 <= p < q < ladder.len() implies if side == Side::Bid {
        ladder[p].price > ladder[q].price
    } else {
        ladder[p].price < ladder[q].price
    } by {
        assert(le(sorted[p], sorted[q]));
        assert(ladder[p].price != ladder[q].price);
    }
}

/// The spread is the best ask price minus the best bid price exactly
/// when both merged sides are non-empty, and absent otherwise.
pub proof fn lemma_spread_rule(m: Map<Exchange, BookView>)
    ensures
        summary_spec(m).bids.len() > 0 && summary_spec(m).asks.len() > 0 ==> summary_spec(m).spread
            == Some(summary_spec(m).asks[0].price - summary_spec(m).bids[0].price),
        summary_spec(m).bids.len() == 0 || summary_spec(m).asks.len() == 0 ==> summary_spec(
            m,
        ).spread is None,
{
}

/// Folding the same snapshots in any interleaving order yields the
/// same state, hence the same aggregate: applying two snapshots for
/// different venues commutes, and the aggregate is a pure function of
/// the resulting state.
pub proof fn lemma_order_independent(m: Map<Exchange, BookView>, t1: BookView, t2: BookView)
    requires
        t1.exchange != t2.exchange,
    ensures
        m.insert(t1.exchange, t1).insert(t2.exchange, t2) == m.insert(t2.exchange, t2).insert(
            t1.exchange,
            t1,
        ),
        summary_spec(m.insert(t1.exchange, t1).insert(t2.exchange, t2)) == summary_spec(
            m.insert(t2.exchange, t2).insert(t1.exchange, t1),
        ),
{
    assert(m.insert(t1.exchange, t1).insert(t2.exchange, t2) =~= m.insert(t2.exchange, t2).insert(
        t1.exchange,
        t1,
    ));
}

/// Recomputing an unchanged state is idempotent: any two aggregates of
/// the same state are identical, since the aggregate is a function of
/// the state alone.
pub proof fn lemma_recompute_idempotent(
    m: Map<Exchange, BookView>,
    s1: SummaryView,
    s2: SummaryView,
)
    requires
        s1 == summary_spec(m),
        s2 == summary_spec(m),
    ensures
        s1 == s2,
{
}

/// Removing a venue excludes every one of its levels from the next
/// aggregate.
pub proof fn lemma_remove_excludes(m: Map<Exchange, BookView>, e: Exchange)
    requires
        map_wf(m),
    ensures
        forall|p: int|
            0 <= p < summary_spec(m.remove(e)).bids.len() ==> (#[trigger] summary_spec(
                m.remove(e),
            ).bids[p]).exchange != e,
        forall|p: int|
            0 <= p < summary_spec(m.remove(e)).asks.len() ==> (#[trigger] summary_spec(
                m.remove(e),
            ).asks[p]).exchange != e,
{
    lemma_remove_excludes_side(m, e, Side::Bid);
    lemma_remove_excludes_side(m, e, Side::Ask);
}

proof fn lemma_remove_excludes_side(m: Map<Exchange, BookView>, e: Exchange, side: Side)
    requires
        map_wf(m),
    ensures
        forall|p: int|
            0 <= p < merged_ladder(candidates(m.remove(e), side), side).len() ==> (
            #[trigger] merged_ladder(candidates(m.remove(e), side), side)[p]).exchange != e,
{
    let m2 = m.remove(e);
    let cands = candidates(m2, side);
    let le = side_le(side);
    let ladder = merged_ladder(cands, side);
    lemma_side_le_total(side);
    cands.lemma_sort_by_ensures(le);
    let sorted = cands.sort_by(le);
    assert forall|k: int| 0 <= k < cands.len() implies (#[trigger] cands[k]).exchange != e by {
        let bn = venue_side(m2, Exchange::Binance, side);
        if k < bn.len() {
            assert(m2.dom().contains(Exchange::Binance));
            assert(m.dom().contains(Exchange::Binance));
            assert(cands[k] == bn[k]);
        } else {
            assert(m2.dom().contains(Exchange::Bitstamp));
            assert(m.dom().contains(Exchange::Bitstamp));
            assert(cands[k] == venue_side(m2, Exchange::Bitstamp, side)[k - bn.len()]);
        }
    }
    assert forall|p: int| 0 <= p < ladder.len() implies (#[trigger] ladder[p]).exchange != e by {
        assert(ladder[p] == sorted[p]);
        assert(sorted.contains(sorted[p]));
        assert(cands.contains(sorted[p]));
        let ik = choose|ii: int| 0 <= ii < cands.len() && cands[ii] == sorted[p];
        assert(cands[ik].exchange != e);
    }
}

} // verus!
