//! The order-book data model: sides, venues, price levels and
//! per-exchange snapshots, together with the tie-break ordering that
//! the merge engine sorts by.
//!
//! Prices and amounts are exact fixed-point integers: the caller fixes
//! one scale for the whole process and converts at the boundary, so
//! every comparison and every spread subtraction in here is exact.

use vstd::prelude::*;
use vstd::relations::*;

verus! {

/// The maximum number of levels a snapshot or a merged ladder may hold.
pub const DEPTH: usize = 10;

/// Which side of the book a level belongs to.
#[derive(Clone, Copy, PartialEq, Eq, Structural, Debug)]
pub enum Side {
    Bid,
    Ask,
}

impl Side {
    /// A fixed injective rank, used only as the last tie-break so that
    /// the ladder orderings are total on all levels.
    pub open spec fn rank_spec(self) -> int {
        match self {
            Side::Bid => 0,
            Side::Ask => 1,
        }
    }

    pub fn rank(self) -> (r: u8)
        ensures
            r as int == self.rank_spec(),
    {
        match self {
            Side::Bid => 0,
            Side::Ask => 1,
        }
    }
}

/// The known venues. Their registration order is the fixed
/// deterministic priority that breaks ties between levels of equal
/// price and equal amount.
#[derive(Clone, Copy, PartialEq, Eq, Structural, Debug)]
pub enum Exchange {
    Binance,
    Bitstamp,
}

impl Exchange {
    /// Position of the venue in the fixed registration order.
    pub open spec fn rank_spec(self) -> int {
        match self {
            Exchange::Binance => 0,
            Exchange::Bitstamp => 1,
        }
    }

    pub fn rank(self) -> (r: u8)
        ensures
            r as int == self.rank_spec(),
    {
        match self {
            Exchange::Binance => 0,
            Exchange::Bitstamp => 1,
        }
    }
}

/// One price level: an exact fixed-point price and amount, with the
/// side and the venue it came from.
#[derive(Clone, Copy, PartialEq, Eq, Structural, Debug)]
pub struct Level {
    pub exchange: Exchange,
    pub side: Side,
    pub price: u64,
    pub amount: u64,
}

impl Level {
    /// Prices and amounts are strictly positive.
    pub open spec fn wf(self) -> bool {
        self.price > 0 && self.amount > 0
    }

    pub fn new(side: Side, price: u64, amount: u64, exchange: Exchange) -> (l: Level)
        requires
            price > 0,
            amount > 0,
        ensures
            l == (Level { exchange, side, price, amount }),
            l.wf(),
    {
        Level { exchange, side, price, amount }
    }
}

/// `a` belongs at or before `b` on the merged bid ladder: higher price
/// first, then larger amount, then the venue that registered first.
/// The side rank is compared last only so that the relation is a total
/// order on all of `Level`; candidates of one merge share a side.
pub open spec fn bid_le(a: Level, b: Level) -> bool {
    if a.price != b.price {
        a.price > b.price
    } else if a.amount != b.amount {
        a.amount > b.amount
    } else if a.exchange != b.exchange {
        a.exchange.rank_spec() < b.exchange.rank_spec()
    } else {
        a.side.rank_spec() <= b.side.rank_spec()
    }
}

/// `a` belongs at or before `b` on the merged ask ladder: lower price
/// first, then larger amount, then the venue that registered first.
pub open spec fn ask_le(a: Level, b: Level) -> bool {
    if a.price != b.price {
        a.price < b.price
    } else if a.amount != b.amount {
        a.amount > b.amount
    } else if a.exchange != b.exchange {
        a.exchange.rank_spec() < b.exchange.rank_spec()
    } else {
        a.side.rank_spec() <= b.side.rank_spec()
    }
}

/// The ladder ordering for a side, as a first-class relation.
pub open spec fn side_le(side: Side) -> spec_fn(Level, Level) -> bool {
    if side == Side::Bid {
        |a: Level, b: Level| bid_le(a, b)
    } else {
        |a: Level, b: Level| ask_le(a, b)
    }
}

/// Both ladder orderings are total orders, so a sorted ladder over a
/// fixed bag of candidate levels is unique.
pub proof fn lemma_side_le_total(side: Side)
    ensures
        total_ordering(side_le(side)),
{
    let le = side_le(side);
    assert forall|x: Level, y: Level| #[trigger] le(x, y) && #[trigger] le(y, x) implies x == y by {
        if x.price == y.price && x.amount == y.amount && x.exchange == y.exchange {
            assert(x.side == y.side);
        }
    }
    assert(reflexive(le));
    assert(transitive(le));
    assert(strongly_connected(le));
}

/// A well-formed ladder for one venue and side: depth-limited, all
/// levels positive and tagged with that venue and side, and the prices
/// strictly ordered in the direction the side demands.
pub open spec fn side_wf(s: Seq<Level>, exchange: Exchange, side: Side) -> bool {
    &&& s.len() <= DEPTH
    &&& forall|i: int|
        0 <= i < s.len() ==> (#[trigger] s[i]).wf() && s[i].exchange == exchange && s[i].side
            == side
    &&& forall|i: int, j: int|
        #![trigger s[i], s[j]]
        0 <= i < j < s.len() ==> if side == Side::Bid {
            s[i].price > s[j].price
        } else {
            s[i].price < s[j].price
        }
}

/// A well-formed ladder is sorted by its side's merge ordering: the
/// strict price ordering decides every pair before any tie-break.
pub proof fn lemma_side_wf_sorted(s: Seq<Level>, exchange: Exchange, side: Side)
    requires
        side_wf(s, exchange, side),
    ensures
        sorted_by(s, side_le(side)),
{
    let le = side_le(side);
    assert forall|i: int, j: int| 0 <= i < j < s.len() implies #[trigger] le(s[i], s[j]) by {
        assert(s[i].price != s[j].price);
    }
}

/// The mathematical content of a [`Tick`].
#[verifier::ext_equal]
pub struct BookView {
    pub exchange: Exchange,
    pub bids: Seq<Level>,
    pub asks: Seq<Level>,
}

impl BookView {
    pub open spec fn wf(self) -> bool {
        &&& side_wf(self.bids, self.exchange, Side::Bid)
        &&& side_wf(self.asks, self.exchange, Side::Ask)
    }
}

/// A complete snapshot of one exchange's visible book: a full
/// replacement of anything seen before from that venue, never a delta.
#[derive(PartialEq, Debug)]
pub struct Tick {
    pub exchange: Exchange,
    pub bids: Vec<Level>,
    pub asks: Vec<Level>,
}

impl View for Tick {
    type V = BookView;

    open spec fn view(&self) -> BookView {
        BookView { exchange: self.exchange, bids: self.bids@, asks: self.asks@ }
    }
}

/// The raw (price, amount) pairs that survive depth truncation.
pub open spec fn truncated(raw: Seq<(u64, u64)>) -> Seq<(u64, u64)> {
    if raw.len() <= DEPTH {
        raw
    } else {
        raw.take(DEPTH as int)
    }
}

/// Do the truncated pairs form a valid ladder for this side: strictly
/// positive prices and amounts, prices strictly ordered the way the
/// side demands?
pub open spec fn raw_side_ok(raw: Seq<(u64, u64)>, side: Side) -> bool {
    &&& forall|i: int|
        0 <= i < truncated(raw).len() ==> (#[trigger] truncated(raw)[i]).0 > 0 && truncated(
            raw,
        )[i].1 > 0
    &&& forall|i: int, j: int|
        #![trigger truncated(raw)[i], truncated(raw)[j]]
        0 <= i < j < truncated(raw).len() ==> if side == Side::Bid {
            truncated(raw)[i].0 > truncated(raw)[j].0
        } else {
            truncated(raw)[i].0 < truncated(raw)[j].0
        }
}

/// The levels the truncated pairs become, tagged with their venue and
/// side.
pub open spec fn side_levels(raw: Seq<(u64, u64)>, exchange: Exchange, side: Side) -> Seq<Level> {
    truncated(raw).map_values(
        |p: (u64, u64)| Level { exchange, side, price: p.0, amount: p.1 },
    )
}

impl Tick {
    pub open spec fn wf(self) -> bool {
        self.view().wf()
    }

    /// Normalize one inbound snapshot: keep the top [`DEPTH`] entries
    /// of each side, tag them with their venue, and accept the result
    /// exactly when what is kept is a valid ladder. `None` marks a
    /// malformed data frame, which callers treat as connection-fatal.
    pub fn try_new(exchange: Exchange, bids: &Vec<(u64, u64)>, asks: &Vec<(u64, u64)>) -> (r:
        Option<Tick>)
        ensures
            r is Some <==> raw_side_ok(bids@, Side::Bid) && raw_side_ok(asks@, Side::Ask),
            r is Some ==> (r->Some_0).wf() && (r->Some_0)@.exchange == exchange && (r->Some_0)@.bids
                == side_levels(bids@, exchange, Side::Bid) && (r->Some_0)@.asks == side_levels(
                asks@,
                exchange,
                Side::Ask,
            ),
    {
        let built_bids = build_side(bids, exchange, Side::Bid);
        let built_asks = build_side(asks, exchange, Side::Ask);
        match (built_bids, built_asks) {
            (Some(b), Some(a)) => Some(Tick { exchange, bids: b, asks: a }),
            _ => None,
        }
    }
}

/// Build one side's levels from raw pairs, truncating to [`DEPTH`] and
/// rejecting anything that is not a valid ladder.
fn build_side(raw: &Vec<(u64, u64)>, exchange: Exchange, side: Side) -> (r: Option<Vec<Level>>)
    ensures
        r is Some <==> raw_side_ok(raw@, side),
        r is Some ==> (r->Some_0)@ == side_levels(raw@, exchange, side) && side_wf(
            (r->Some_0)@,
            exchange,
            side,
        ),
{
    let ghost tr = truncated(raw@);
    let n: usize = if raw.len() > DEPTH {
        DEPTH
    } else {
        raw.len()
    };
    proof {
        assert(tr.len() == n);
    }
    let mut out: Vec<Level> = Vec::new();
    let mut i: usize = 0;
    while i < n
        invariant
            i <= n,
            n == tr.len(),
            tr == truncated(raw@),
            tr.len() <= raw@.len(),
            forall|k: int| 0 <= k < tr.len() ==> tr[k] == raw@[k],
            out@.len() == i,
            forall|k: int|
                0 <= k < i ==> out@[k] == (Level {
                    exchange,
                    side,
                    price: tr[k].0,
                    amount: tr[k].1,
                }),
            forall|k: int| 0 <= k < i ==> (#[trigger] tr[k]).0 > 0 && tr[k].1 > 0,
            forall|k: int|
                0 < k < i ==> if side == Side::Bid {
                    (#[trigger] tr[k]).0 < tr[k - 1].0
                } else {
                    tr[k].0 > tr[k - 1].0
                },
        decreases n - i,
    {
        let (price, amount) = raw[i];
        proof {
            assert(price == tr[i as int].0 && amount == tr[i as int].1);
        }
        if price == 0 || amount == 0 {
            proof {
                if raw_side_ok(raw@, side) {
                    assert(truncated(raw@)[i as int].0 > 0 && truncated(raw@)[i as int].1 > 0);
                }
            }
            return None;
        }
        if i > 0 {
            let prev = out[i - 1].price;
            let ordered = match side {
                Side::Bid => prev > price,
                Side::Ask => prev < price,
            };
            if !ordered {
                proof {
                    assert(prev == tr[i as int - 1].0);
                    if raw_side_ok(raw@, side) {
                        if side == Side::Bid {
                            assert(truncated(raw@)[i as int - 1].0 > truncated(raw@)[i as int].0);
                        } else {
                            assert(truncated(raw@)[i as int - 1].0 < truncated(raw@)[i as int].0);
                        }
                    }
                }
                return None;
            }
        }
        out.push(Level { exchange, side, price, amount });
        i += 1;
    }
    proof {
        lemma_adjacent_strict(tr, side);
        assert(raw_side_ok(raw@, side));
        assert(out@ =~= side_levels(raw@, exchange, side));
    }
    Some(out)
}

/// Strictly ordered adjacent prices give strictly ordered prices for
/// every pair of positions.
proof fn lemma_adjacent_strict(t: Seq<(u64, u64)>, side: Side)
    requires
        forall|k: int|
            0 < k < t.len() ==> if side == Side::Bid {
                (#[trigger] t[k]).0 < t[k - 1].0
            } else {
                t[k].0 > t[k - 1].0
            },
    ensures
        forall|i: int, j: int|
            #![trigger t[i], t[j]]
            0 <= i < j < t.len() ==> if side == Side::Bid {
                t[i].0 > t[j].0
            } else {
                t[i].0 < t[j].0
            },
{
    assert forall|i: int, j: int| 0 <= i < j < t.len() implies if side == Side::Bid {
        t[i].0 > t[j].0
    } else {
        t[i].0 < t[j].0
    } by {
        lemma_chain(t, side, i, j);
    }
}

proof fn lemma_chain(t: Seq<(u64, u64)>, side: Side, i: int, j: int)
    requires
        forall|k: int|
            0 < k < t.len() ==> if side == Side::Bid {
                (#[trigger] t[k]).0 < t[k - 1].0
            } else {
                t[k].0 > t[k - 1].0
            },
        0 <= i < j < t.len(),
    ensures
        if side == Side::Bid {
            t[i].0 > t[j].0
        } else {
            t[i].0 < t[j].0
        },
    decreases j - i,
{
    if j > i + 1 {
        lemma_chain(t, side, i, j - 1);
    }
}

} // verus!
