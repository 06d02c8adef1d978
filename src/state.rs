use vstd::prelude::*;

use crate::error::OrderBookError;
use crate::identity::Identity;

verus! {

/// The most orders that one side of a book holds.
pub const MAX_ORDERS: usize = 50;

/// The largest fee rate, in basis points: all of the quote amount.
pub const MAX_FEE_BPS: u16 = 10000;

/// Which side of the book an order rests on.
#[derive(Clone, Copy, Debug, PartialEq, Eq, Structural)]
pub enum Side {
    Bid,
    Ask,
}

/// One resting order: `amount` base units at `price` quote units per base unit.
#[derive(Clone, Copy, Debug)]
pub struct LimitOrder {
    pub owner: Identity,
    pub price: u64,
    pub amount: u64,
    pub order_id: u64,
}

/// The resting orders of one market, and the id that the next order gets.
#[derive(Clone, Debug)]
pub struct OrderBook {
    pub market: Identity,
    pub next_order_id: u64,
    pub bids: Vec<LimitOrder>,
    pub asks: Vec<LimitOrder>,
}

/// A trading pair: its two mints, the custody accounts that hold the
/// deposits, and the fee taken on the quote leg of every trade.
#[derive(Clone, Copy, Debug)]
pub struct Market {
    pub base_mint: Identity,
    pub quote_mint: Identity,
    pub base_vault: Identity,
    pub quote_vault: Identity,
    pub fee_bps: u16,
    pub creator: Identity,
}

/// One side of a book is well formed: within capacity, every order live
/// (positive price and amount), every id already handed out and no id twice.
pub open spec fn side_wf(s: Seq<LimitOrder>, next_order_id: u64) -> bool {
    &&& s.len() <= MAX_ORDERS
    &&& forall|i: int|
        0 <= i < s.len() ==> {
            &&& (#[trigger] s[i]).price > 0
            &&& s[i].amount > 0
            &&& s[i].order_id < next_order_id
        }
    &&& ids_distinct(s)
}

/// No two orders of `s` share an id.
pub open spec fn ids_distinct(s: Seq<LimitOrder>) -> bool {
    forall|i: int, j: int|
        0 <= i < s.len() && 0 <= j < s.len() && i != j ==> #[trigger] s[i].order_id
            != #[trigger] s[j].order_id
}

/// Every order of `t` is an order of `s`.
pub open spec fn drawn_from(t: Seq<LimitOrder>, s: Seq<LimitOrder>) -> bool {
    forall|j: int| 0 <= j < t.len() ==> s.contains(#[trigger] t[j])
}

/// A side made of orders of a well-formed side, no more of them and no id
/// twice, is well formed.
pub proof fn lemma_side_wf_drawn(t: Seq<LimitOrder>, s: Seq<LimitOrder>, next_order_id: u64)
    requires
        side_wf(s, next_order_id),
        drawn_from(t, s),
        ids_distinct(t),
        t.len() <= s.len(),
    ensures
        side_wf(t, next_order_id),
{
    assert forall|j: int| 0 <= j < t.len() implies {
        &&& (#[trigger] t[j]).price > 0
        &&& t[j].amount > 0
        &&& t[j].order_id < next_order_id
    } by {
        let k = choose|k: int| 0 <= k < s.len() && t[j] == s[k];
        assert(s[k].price > 0);
    }
}

/// Executable form of `side_wf`.
fn side_is_wf(s: &Vec<LimitOrder>, next_order_id: u64) -> (r: bool)
    ensures
        r == side_wf(s@, next_order_id),
{
    if s.len() > MAX_ORDERS {
        return false;
    }
    let mut i: usize = 0;
    while i < s.len()
        invariant
            0 <= i <= s@.len(),
            forall|a: int|
                0 <= a < i ==> {
                    &&& (#[trigger] s@[a]).price > 0
                    &&& s@[a].amount > 0
                    &&& s@[a].order_id < next_order_id
                },
            forall|a: int, b: int|
                0 <= a < b < i ==> #[trigger] s@[a].order_id != #[trigger] s@[b].order_id,
        decreases s@.len() - i,
    {
        let o = s[i];
        if o.price == 0 || o.amount == 0 || o.order_id >= next_order_id {
            return false;
        }
        let mut j: usize = 0;
        while j < i
            invariant
                0 <= j <= i < s@.len(),
                o == s@[i as int],
                forall|a: int| 0 <= a < j ==> (#[trigger] s@[a]).order_id != o.order_id,
            decreases i - j,
        {
            if s[j].order_id == o.order_id {
                return false;
            }
            j = j + 1;
        }
        i = i + 1;
    }
    proof {
        assert forall|a: int, b: int|
            0 <= a < s@.len() && 0 <= b < s@.len() && a != b implies #[trigger] s@[a].order_id
            != #[trigger] s@[b].order_id by {
            if b < a {
                assert(s@[b].order_id != s@[a].order_id);
            }
        }
    }
    true
}

/// The base amount that the orders of a side still offer.
pub open spec fn total_amount(s: Seq<LimitOrder>) -> int
    decreases s.len(),
{
    if s.len() == 0 {
        0
    } else {
        s[0].amount + total_amount(s.drop_first())
    }
}

/// The amount of two sides put end to end is the sum of their amounts.
pub proof fn lemma_total_amount_concat(a: Seq<LimitOrder>, b: Seq<LimitOrder>)
    ensures
        total_amount(a + b) == total_amount(a) + total_amount(b),
    decreases a.len(),
{
    if a.len() > 0 {
        assert((a + b).drop_first() =~= a.drop_first() + b);
        lemma_total_amount_concat(a.drop_first(), b);
    } else {
        assert(a + b =~= b);
    }
}

impl OrderBook {
    /// The orders of one side, in book order.
    pub open spec fn side(&self, side: Side) -> Seq<LimitOrder> {
        match side {
            Side::Bid => self.bids@,
            Side::Ask => self.asks@,
        }
    }

    pub open spec fn wf(&self) -> bool {
        &&& side_wf(self.bids@, self.next_order_id)
        &&& side_wf(self.asks@, self.next_order_id)
    }

    /// Executable form of `wf`: whether a stored book can be worked on.
    pub fn is_wf(&self) -> (r: bool)
        ensures
            r == self.wf(),
    {
        side_is_wf(&self.bids, self.next_order_id) && side_is_wf(&self.asks, self.next_order_id)
    }

    /// An empty book for `market`; its first order gets id 0.
    pub fn new(market: Identity) -> (r: OrderBook)
        ensures
            r.wf(),
            r.market == market,
            r.next_order_id == 0,
            r.bids@.len() == 0,
            r.asks@.len() == 0,
    {
        OrderBook { market, next_order_id: 0, bids: Vec::new(), asks: Vec::new() }
    }
}

/// Whether `fee_bps` is a fee rate that a market can take.
pub open spec fn fee_rate_ok(fee_bps: u16) -> bool {
    fee_bps <= MAX_FEE_BPS
}

/// Sets up a market and its empty order book together. A fee rate above
/// all of the quote amount is refused.
pub fn create_market(
    market_key: Identity,
    base_mint: Identity,
    quote_mint: Identity,
    base_vault: Identity,
    quote_vault: Identity,
    fee_bps: u16,
    creator: Identity,
) -> (r: Result<(Market, OrderBook), OrderBookError>)
    ensures
        !fee_rate_ok(fee_bps) <==> r == Err::<(Market, OrderBook), _>(
            OrderBookError::ErrorValueInvalid,
        ),
        fee_rate_ok(fee_bps) <==> r is Ok,
        r matches Ok((m, b)) ==> {
            &&& m == (Market { base_mint, quote_mint, base_vault, quote_vault, fee_bps, creator })
            &&& b.wf()
            &&& b.market == market_key
            &&& b.next_order_id == 0
            &&& b.bids@.len() == 0
            &&& b.asks@.len() == 0
        },
{
    if fee_bps > MAX_FEE_BPS {
        return Err(OrderBookError::ErrorValueInvalid);
    }
    let market = Market { base_mint, quote_mint, base_vault, quote_vault, fee_bps, creator };
    Ok((market, OrderBook::new(market_key)))
}

} // verus!
