use vstd::prelude::*;

use crate::error::OrderBookError;
use crate::identity::Identity;
use crate::sort::{
    is_priority_sort_of, ids_rise_within_price, lemma_priority_sort_ranks, lemma_priority_sort_wf,
    ranks_before, sort_by_priority,
};
use crate::state::{total_amount, ids_distinct, lemma_side_wf_drawn, side_wf, LimitOrder, Market, OrderBook, Side};

verus! {

/// The basis points in a whole.
pub const BPS_DENOMINATOR: u64 = 10000;

/// The share of the fee that goes to the party that ran the match: one part in this many.
pub const CRANKER_SHARE_DIVISOR: u64 = 10;

/// One trade between the best bid and the best ask, with what it moves.
/// The bidder receives `fill_amount` base units. Of `quote_amount`, the
/// asker receives `asker_credit`, the party that ran the match
/// `cranker_reward`, and the market's fee account `protocol_fee`.
#[derive(Clone, Copy, Debug)]
pub struct Fill {
    pub bid_owner: Identity,
    pub ask_owner: Identity,
    pub bid_order_id: u64,
    pub ask_order_id: u64,
    pub bid_price: u64,
    pub fill_amount: u64,
    pub execution_price: u64,
    pub quote_amount: u64,
    pub total_fee: u64,
    pub asker_credit: u64,
    pub cranker_reward: u64,
    pub protocol_fee: u64,
}

pub open spec fn min_u64(a: u64, b: u64) -> u64 {
    if a <= b {
        a
    } else {
        b
    }
}

/// The trade of `fill_amount` between `bid` and `ask` at the ask's price, or
/// `None` where its quote amount or fee does not fit in 64 bits (or the fee
/// would exceed the quote amount).
pub open spec fn fill_of(bid: LimitOrder, ask: LimitOrder, fill_amount: u64, fee_bps: u16) -> Option<
    Fill,
> {
    let quote = fill_amount as int * ask.price as int;
    let fee_product = quote * fee_bps as int;
    let total_fee = fee_product / BPS_DENOMINATOR as int;
    let reward = total_fee / CRANKER_SHARE_DIVISOR as int;
    if quote > u64::MAX || fee_product > u64::MAX || total_fee > quote {
        None
    } else {
        Some(
            Fill {
                bid_owner: bid.owner,
                ask_owner: ask.owner,
                bid_order_id: bid.order_id,
                ask_order_id: ask.order_id,
                bid_price: bid.price,
                fill_amount,
                execution_price: ask.price,
                quote_amount: quote as u64,
                total_fee: total_fee as u64,
                asker_credit: (quote - total_fee) as u64,
                cranker_reward: reward as u64,
                protocol_fee: (total_fee - reward) as u64,
            },
        )
    }
}

/// The side after its first order gave up `fill_amount`: the order leaves
/// once nothing of it is left, and otherwise stays first.
pub open spec fn after_fill(s: Seq<LimitOrder>, fill_amount: u64) -> Seq<LimitOrder> {
    if s[0].amount <= fill_amount {
        s.drop_first()
    } else {
        s.update(0, LimitOrder { amount: (s[0].amount - fill_amount) as u64, ..s[0] })
    }
}

/// Whether the best bid and the best ask of two sides cross.
pub open spec fn crosses(bids: Seq<LimitOrder>, asks: Seq<LimitOrder>) -> bool {
    bids.len() > 0 && asks.len() > 0 && bids[0].price >= asks[0].price
}

/// A matching pass over two sides already in priority order: the trades
/// made, and the sides left. `None` where a trade's arithmetic overflows.
pub open spec fn match_pass(bids: Seq<LimitOrder>, asks: Seq<LimitOrder>, fee_bps: u16) -> Option<
    (Seq<Fill>, Seq<LimitOrder>, Seq<LimitOrder>),
>
    decreases bids.len() + asks.len(),
{
    if !crosses(bids, asks) {
        Some((Seq::empty(), bids, asks))
    } else {
        let fill_amount = min_u64(bids[0].amount, asks[0].amount);
        match fill_of(bids[0], asks[0], fill_amount, fee_bps) {
            None => None,
            Some(f) => match match_pass(
                after_fill(bids, fill_amount),
                after_fill(asks, fill_amount),
                fee_bps,
            ) {
                None => None,
                Some((fs, b, a)) => Some((seq![f] + fs, b, a)),
            },
        }
    }
}

/// `rest` with `done` put before its trades.
pub open spec fn after_trades(
    done: Seq<Fill>,
    rest: Option<(Seq<Fill>, Seq<LimitOrder>, Seq<LimitOrder>)>,
) -> Option<(Seq<Fill>, Seq<LimitOrder>, Seq<LimitOrder>)> {
    match rest {
        None => None,
        Some((fs, b, a)) => Some((done + fs, b, a)),
    }
}

/// Executable form of `fill_of`.
pub fn compute_fill(bid: &LimitOrder, ask: &LimitOrder, fill_amount: u64, fee_bps: u16) -> (r:
    Option<Fill>)
    ensures
        r == fill_of(*bid, *ask, fill_amount, fee_bps),
{
    let quote = match fill_amount.checked_mul(ask.price) {
        Some(q) => q,
        None => return None,
    };
    let fee_product = match quote.checked_mul(fee_bps as u64) {
        Some(x) => x,
        None => return None,
    };
    let total_fee = fee_product / BPS_DENOMINATOR;
    if total_fee > quote {
        return None;
    }
    let reward = total_fee / CRANKER_SHARE_DIVISOR;
    Some(
        Fill {
            bid_owner: bid.owner,
            ask_owner: ask.owner,
            bid_order_id: bid.order_id,
            ask_order_id: ask.order_id,
            bid_price: bid.price,
            fill_amount,
            execution_price: ask.price,
            quote_amount: quote,
            total_fee,
            asker_credit: quote - total_fee,
            cranker_reward: reward,
            protocol_fee: total_fee - reward,
        },
    )
}

/// Takes `fill_amount` off the first order of a side, removing it once
/// nothing of it is left.
fn take_from_front(s: &mut Vec<LimitOrder>, fill_amount: u64)
    requires
        old(s)@.len() > 0,
        fill_amount <= old(s)@[0].amount,
    ensures
        final(s)@ == after_fill(old(s)@, fill_amount),
{
    let mut first = s[0];
    if first.amount <= fill_amount {
        s.remove(0);
        proof {
            assert(final(s)@ =~= after_fill(old(s)@, fill_amount));
        }
    } else {
        first.amount = first.amount - fill_amount;
        s.set(0, first);
    }
}

/// Runs the matching pass over two sides already in priority order,
/// trading the best bid against the best ask while they cross.
pub fn match_sorted(bids: &mut Vec<LimitOrder>, asks: &mut Vec<LimitOrder>, fee_bps: u16) -> (r:
    Result<Vec<Fill>, OrderBookError>)
    ensures
        match r {
            Ok(fills) => match_pass(old(bids)@, old(asks)@, fee_bps) == Some(
                (fills@, final(bids)@, final(asks)@),
            ),
            Err(e) => match_pass(old(bids)@, old(asks)@, fee_bps) is None && e
                == OrderBookError::ErrorInMultiply,
        },
{
    let ghost b0 = bids@;
    let ghost a0 = asks@;
    let mut fills: Vec<Fill> = Vec::new();
    loop
        invariant
            b0 == old(bids)@,
            a0 == old(asks)@,
            match_pass(b0, a0, fee_bps) == after_trades(
                fills@,
                match_pass(bids@, asks@, fee_bps),
            ),
        decreases bids@.len() + asks@.len(),
    {
        if bids.len() == 0 || asks.len() == 0 || bids[0].price < asks[0].price {
            proof {
                assert(!crosses(bids@, asks@));
                assert(match_pass(bids@, asks@, fee_bps) == Some(
                    (Seq::<Fill>::empty(), bids@, asks@),
                ));
                assert(fills@ + Seq::<Fill>::empty() =~= fills@);
            }
            return Ok(fills);
        }
        let bid = bids[0];
        let ask = asks[0];
        let fill_amount = if bid.amount <= ask.amount {
            bid.amount
        } else {
            ask.amount
        };
        let f = match compute_fill(&bid, &ask, fill_amount, fee_bps) {
            Some(f) => f,
            None => {
                proof {
                    assert(crosses(bids@, asks@));
                    assert(match_pass(bids@, asks@, fee_bps) is None);
                }
                return Err(OrderBookError::ErrorInMultiply);
            },
        };
        let ghost before = fills@;
        take_from_front(bids, fill_amount);
        take_from_front(asks, fill_amount);
        fills.push(f);
        proof {
            let rest = match_pass(bids@, asks@, fee_bps);
            match rest {
                None => {},
                Some((fs, b, a)) => {
                    assert(before + (seq![f] + fs) =~= fills@ + fs);
                },
            }
        }
    }
}

/// The base amount that a sequence of trades moved.
pub open spec fn total_filled(fs: Seq<Fill>) -> int
    decreases fs.len(),
{
    if fs.len() == 0 {
        0
    } else {
        fs[0].fill_amount + total_filled(fs.drop_first())
    }
}

proof fn lemma_after_fill_wf(s: Seq<LimitOrder>, fill_amount: u64, next_order_id: u64)
    requires
        side_wf(s, next_order_id),
        s.len() > 0,
        fill_amount <= s[0].amount,
    ensures
        side_wf(after_fill(s, fill_amount), next_order_id),
        total_amount(after_fill(s, fill_amount)) == total_amount(s) - fill_amount,
{
    let t = after_fill(s, fill_amount);
    if s[0].amount <= fill_amount {
        assert(t == s.drop_first());
    } else {
        assert(t.drop_first() =~= s.drop_first());
        assert forall|i: int, j: int|
            0 <= i < t.len() && 0 <= j < t.len() && i != j implies #[trigger] t[i].order_id
            != #[trigger] t[j].order_id by {
            assert(t[i].order_id == s[i].order_id);
            assert(t[j].order_id == s[j].order_id);
        }
    }
    assert(ids_distinct(t)) by {
        if s[0].amount <= fill_amount {
            assert forall|i: int, j: int|
                0 <= i < t.len() && 0 <= j < t.len() && i != j implies #[trigger] t[i].order_id
                != #[trigger] t[j].order_id by {
                assert(t[i] == s[i + 1]);
                assert(t[j] == s[j + 1]);
            }
        }
    }
    assert forall|i: int| 0 <= i < t.len() implies {
        &&& (#[trigger] t[i]).price > 0
        &&& t[i].amount > 0
        &&& t[i].order_id < next_order_id
    } by {
        if s[0].amount <= fill_amount {
            assert(t[i] == s[i + 1]);
        } else if i > 0 {
            assert(t[i] == s[i]);
        }
    }
}

/// A matching pass keeps both sides well formed.
pub proof fn lemma_match_pass_keeps_wf(
    bids: Seq<LimitOrder>,
    asks: Seq<LimitOrder>,
    fee_bps: u16,
    next_order_id: u64,
)
    requires
        side_wf(bids, next_order_id),
        side_wf(asks, next_order_id),
    ensures
        match_pass(bids, asks, fee_bps) matches Some((fs, b, a)) ==> side_wf(b, next_order_id)
            && side_wf(a, next_order_id),
    decreases bids.len() + asks.len(),
{
    if crosses(bids, asks) {
        let fill_amount = min_u64(bids[0].amount, asks[0].amount);
        lemma_after_fill_wf(bids, fill_amount, next_order_id);
        lemma_after_fill_wf(asks, fill_amount, next_order_id);
        lemma_match_pass_keeps_wf(
            after_fill(bids, fill_amount),
            after_fill(asks, fill_amount),
            fee_bps,
            next_order_id,
        );
    }
}

/// A matching pass trades only a bid against an ask at or below its price,
/// and stops only once the best bid and the best ask no longer cross: one
/// side is empty, or the best bid's price is below the best ask's.
pub proof fn lemma_match_pass_ends_uncrossed(
    bids: Seq<LimitOrder>,
    asks: Seq<LimitOrder>,
    fee_bps: u16,
)
    ensures
        match_pass(bids, asks, fee_bps) matches Some((fs, b, a)) ==> {
            &&& !crosses(b, a)
            &&& forall|k: int|
                0 <= k < fs.len() ==> (#[trigger] fs[k]).execution_price <= fs[k].bid_price
        },
    decreases bids.len() + asks.len(),
{
    if crosses(bids, asks) {
        let fill_amount = min_u64(bids[0].amount, asks[0].amount);
        let nb = after_fill(bids, fill_amount);
        let na = after_fill(asks, fill_amount);
        lemma_match_pass_ends_uncrossed(nb, na, fee_bps);
        if let Some(f) = fill_of(bids[0], asks[0], fill_amount, fee_bps) {
            if let Some((fs, b, a)) = match_pass(nb, na, fee_bps) {
                let all = seq![f] + fs;
                assert forall|k: int| 0 <= k < all.len() implies (#[trigger] all[k]).execution_price
                    <= all[k].bid_price by {
                    if k > 0 {
                        assert(all[k] == fs[k - 1]);
                    }
                }
            }
        }
    }
}

/// A matching pass creates and destroys no value. What the bids give up in
/// base units is what the trades deliver to the bidders, and the same holds
/// for the asks. Each trade's quote amount is its base amount at its price,
/// and it is split whole between the asker, the fee account and the party
/// that ran the match.
pub proof fn lemma_match_pass_conserves(
    bids: Seq<LimitOrder>,
    asks: Seq<LimitOrder>,
    fee_bps: u16,
    next_order_id: u64,
)
    requires
        side_wf(bids, next_order_id),
        side_wf(asks, next_order_id),
    ensures
        match_pass(bids, asks, fee_bps) matches Some((fs, b, a)) ==> {
            &&& total_amount(bids) == total_amount(b) + total_filled(fs)
            &&& total_amount(asks) == total_amount(a) + total_filled(fs)
            &&& forall|k: int|
                0 <= k < fs.len() ==> {
                    &&& (#[trigger] fs[k]).quote_amount == fs[k].fill_amount * fs[k].execution_price
                    &&& fs[k].asker_credit + fs[k].protocol_fee + fs[k].cranker_reward
                        == fs[k].quote_amount
                }
        },
    decreases bids.len() + asks.len(),
{
    if crosses(bids, asks) {
        let fill_amount = min_u64(bids[0].amount, asks[0].amount);
        let nb = after_fill(bids, fill_amount);
        let na = after_fill(asks, fill_amount);
        lemma_after_fill_wf(bids, fill_amount, next_order_id);
        lemma_after_fill_wf(asks, fill_amount, next_order_id);
        lemma_match_pass_conserves(nb, na, fee_bps, next_order_id);
        if let Some(f) = fill_of(bids[0], asks[0], fill_amount, fee_bps) {
            if let Some((fs, b, a)) = match_pass(nb, na, fee_bps) {
                let all = seq![f] + fs;
                assert(all.drop_first() =~= fs);
                assert(all[0] == f);
                assert forall|k: int| 0 <= k < all.len() implies {
                    &&& (#[trigger] all[k]).quote_amount == all[k].fill_amount
                        * all[k].execution_price
                    &&& all[k].asker_credit + all[k].protocol_fee + all[k].cranker_reward
                        == all[k].quote_amount
                } by {
                    if k > 0 {
                        assert(all[k] == fs[k - 1]);
                    }
                }
            }
        }
    }
}

/// A copy of one side.
fn copy_side(v: &Vec<LimitOrder>) -> (r: Vec<LimitOrder>)
    ensures
        r@ == v@,
{
    let mut r: Vec<LimitOrder> = Vec::new();
    let mut i: usize = 0;
    while i < v.len()
        invariant
            0 <= i <= v@.len(),
            r@ == v@.subrange(0, i as int),
        decreases v@.len() - i,
    {
        r.push(v[i]);
        i = i + 1;
        proof {
            assert(r@ =~= v@.subrange(0, i as int));
        }
    }
    proof {
        assert(v@.subrange(0, v@.len() as int) =~= v@);
    }
    r
}

impl OrderBook {
    /// Matches the book: puts the bids in priority order (highest price
    /// first) and the asks too (lowest price first), keeping at each price
    /// the order of placement, then trades the best bid against the best ask
    /// at the ask's price while they cross. The fee is `market.fee_bps` basis
    /// points of each trade's quote amount. On an arithmetic overflow nothing
    /// changes and the whole pass is refused. The sorted sides `b` and `a`
    /// are unique (`lemma_stable_order_unique`), so the outcome is determined.
    /// No value is created or destroyed: each side gives up in base units
    /// what the trades deliver, and each trade's quote amount is split whole.
    pub fn match_orders(&mut self, market: &Market) -> (r: Result<Vec<Fill>, OrderBookError>)
        requires
            old(self).wf(),
        ensures
            final(self).wf(),
            final(self).market == old(self).market,
            final(self).next_order_id == old(self).next_order_id,
            exists|b: Seq<LimitOrder>, a: Seq<LimitOrder>|
                {
                    &&& is_priority_sort_of(Side::Bid, old(self).bids@, b)
                    &&& is_priority_sort_of(Side::Ask, old(self).asks@, a)
                    &&& match r {
                        Ok(fills) => #[trigger] match_pass(b, a, market.fee_bps) == Some(
                            (fills@, final(self).bids@, final(self).asks@),
                        ),
                        Err(e) => match_pass(b, a, market.fee_bps) is None && e
                            == OrderBookError::ErrorInMultiply,
                    }
                },
            r is Ok ==> !crosses(final(self).bids@, final(self).asks@),
            r is Err ==> *final(self) == *old(self),
            r matches Ok(fills) ==> {
                &&& total_amount(old(self).bids@) == total_amount(final(self).bids@)
                    + total_filled(fills@)
                &&& total_amount(old(self).asks@) == total_amount(final(self).asks@)
                    + total_filled(fills@)
                &&& forall|k: int|
                    0 <= k < fills@.len() ==> {
                        &&& (#[trigger] fills@[k]).quote_amount == fills@[k].fill_amount
                            * fills@[k].execution_price
                        &&& fills@[k].asker_credit + fills@[k].protocol_fee
                            + fills@[k].cranker_reward == fills@[k].quote_amount
                        &&& fills@[k].execution_price <= fills@[k].bid_price
                    }
            },
    {
        let mut bids = copy_side(&self.bids);
        let mut asks = copy_side(&self.asks);
        sort_by_priority(&mut bids, Side::Bid);
        sort_by_priority(&mut asks, Side::Ask);
        let ghost b = bids@;
        let ghost a = asks@;
        proof {
            lemma_side_wf_drawn(b, self.bids@, self.next_order_id);
            lemma_side_wf_drawn(a, self.asks@, self.next_order_id);
            lemma_match_pass_keeps_wf(b, a, market.fee_bps, self.next_order_id);
            lemma_match_pass_ends_uncrossed(b, a, market.fee_bps);
            lemma_match_pass_conserves(b, a, market.fee_bps, self.next_order_id);
        }
        let r = match_sorted(&mut bids, &mut asks, market.fee_bps);
        if r.is_ok() {
            self.bids = bids;
            self.asks = asks;
        }
        r
    }
}

/// Whether some trade of `fs` took the bid `order_id`.
pub open spec fn bid_traded(fs: Seq<Fill>, order_id: u64) -> bool {
    exists|k: int| 0 <= k < fs.len() && (#[trigger] fs[k]).bid_order_id == order_id
}

/// Whether some trade of `fs` took the ask `order_id`.
pub open spec fn ask_traded(fs: Seq<Fill>, order_id: u64) -> bool {
    exists|k: int| 0 <= k < fs.len() && (#[trigger] fs[k]).ask_order_id == order_id
}

/// Whether a side holds an order with id `order_id`.
pub open spec fn has_id(s: Seq<LimitOrder>, order_id: u64) -> bool {
    exists|k: int| 0 <= k < s.len() && (#[trigger] s[k]).order_id == order_id
}

proof fn lemma_after_fill_ids(s: Seq<LimitOrder>, fill_amount: u64, order_id: u64)
    requires
        s.len() > 0,
    ensures
        has_id(after_fill(s, fill_amount), order_id) ==> has_id(s, order_id),
{
    let t = after_fill(s, fill_amount);
    if has_id(t, order_id) {
        let k = choose|k: int| 0 <= k < t.len() && (#[trigger] t[k]).order_id == order_id;
        if s[0].amount <= fill_amount {
            assert(t[k] == s[k + 1]);
        } else {
            assert(t[k].order_id == s[k].order_id);
        }
    }
}

/// A matching pass leaves no order that was not there before.
proof fn lemma_match_pass_ids(bids: Seq<LimitOrder>, asks: Seq<LimitOrder>, fee_bps: u16, order_id: u64)
    ensures
        match_pass(bids, asks, fee_bps) matches Some((fs, b, a)) ==> {
            &&& has_id(b, order_id) ==> has_id(bids, order_id)
            &&& has_id(a, order_id) ==> has_id(asks, order_id)
        },
    decreases bids.len() + asks.len(),
{
    if crosses(bids, asks) {
        let fill_amount = min_u64(bids[0].amount, asks[0].amount);
        lemma_after_fill_ids(bids, fill_amount, order_id);
        lemma_after_fill_ids(asks, fill_amount, order_id);
        lemma_match_pass_ids(after_fill(bids, fill_amount), after_fill(asks, fill_amount), fee_bps, order_id);
    }
}

/// A matching pass serves each side from the front: where a trade takes
/// the order at place `j` of a side, every order before it has been filled
/// whole and is gone from what is left. With the sides in priority order,
/// that is price/time priority.
pub proof fn lemma_match_pass_front_first(
    bids: Seq<LimitOrder>,
    asks: Seq<LimitOrder>,
    fee_bps: u16,
    next_order_id: u64,
    i: int,
    j: int,
)
    requires
        side_wf(bids, next_order_id),
        side_wf(asks, next_order_id),
        0 <= i < j,
    ensures
        match_pass(bids, asks, fee_bps) matches Some((fs, b, a)) ==> {
            &&& j < bids.len() && bid_traded(fs, bids[j].order_id) ==> !has_id(b, bids[i].order_id)
            &&& j < asks.len() && ask_traded(fs, asks[j].order_id) ==> !has_id(a, asks[i].order_id)
        },
    decreases bids.len() + asks.len(),
{
    if crosses(bids, asks) {
        let fill_amount = min_u64(bids[0].amount, asks[0].amount);
        let nb = after_fill(bids, fill_amount);
        let na = after_fill(asks, fill_amount);
        lemma_after_fill_wf(bids, fill_amount, next_order_id);
        lemma_after_fill_wf(asks, fill_amount, next_order_id);
        if let Some(f) = fill_of(bids[0], asks[0], fill_amount, fee_bps) {
            if let Some((rest, b, a)) = match_pass(nb, na, fee_bps) {
                let fs = seq![f] + rest;
                assert(match_pass(bids, asks, fee_bps) == Some((fs, b, a)));
                // the bid side
                if j < bids.len() && bid_traded(fs, bids[j].order_id) {
                    let k = choose|k: int| 0 <= k < fs.len() && (#[trigger] fs[k]).bid_order_id == bids[j].order_id;
                    assert(bids[0].order_id != bids[j].order_id);
                    assert(k > 0);
                    assert(rest[k - 1] == fs[k]);
                    assert(bid_traded(rest, bids[j].order_id));
                    if bids[0].amount <= fill_amount {
                        assert(nb[j - 1] == bids[j]);
                        if i > 0 {
                            assert(nb[i - 1] == bids[i]);
                            lemma_match_pass_front_first(nb, na, fee_bps, next_order_id, i - 1, j - 1);
                        } else {
                            lemma_match_pass_ids(nb, na, fee_bps, bids[0].order_id);
                            if has_id(nb, bids[0].order_id) {
                                let m = choose|m: int| 0 <= m < nb.len() && (#[trigger] nb[m]).order_id == bids[0].order_id;
                                assert(nb[m] == bids[m + 1]);
                            }
                        }
                    } else {
                        assert(nb[j].order_id == bids[j].order_id);
                        assert(nb[i].order_id == bids[i].order_id);
                        lemma_match_pass_front_first(nb, na, fee_bps, next_order_id, i, j);
                    }
                }
                // the ask side
                if j < asks.len() && ask_traded(fs, asks[j].order_id) {
                    let k = choose|k: int| 0 <= k < fs.len() && (#[trigger] fs[k]).ask_order_id == asks[j].order_id;
                    assert(asks[0].order_id != asks[j].order_id);
                    assert(k > 0);
                    assert(rest[k - 1] == fs[k]);
                    assert(ask_traded(rest, asks[j].order_id));
                    if asks[0].amount <= fill_amount {
                        assert(na[j - 1] == asks[j]);
                        if i > 0 {
                            assert(na[i - 1] == asks[i]);
                            lemma_match_pass_front_first(nb, na, fee_bps, next_order_id, i - 1, j - 1);
                        } else {
                            lemma_match_pass_ids(nb, na, fee_bps, asks[0].order_id);
                            if has_id(na, asks[0].order_id) {
                                let m = choose|m: int| 0 <= m < na.len() && (#[trigger] na[m]).order_id == asks[0].order_id;
                                assert(na[m] == asks[m + 1]);
                            }
                        }
                    } else {
                        assert(na[j].order_id == asks[j].order_id);
                        assert(na[i].order_id == asks[i].order_id);
                        lemma_match_pass_front_first(nb, na, fee_bps, next_order_id, i, j);
                    }
                }
            }
        }
    }
}

/// Price/time priority of `match_orders`. Take a side whose ids rise at
/// each price, as placement leaves them, and the sorted sides `b` and `a`
/// of the contract of `match_orders`. Where a trade of the pass takes an
/// order `y`, every order `x` that ranks before it (a better price, or the
/// same price and placed earlier) has been filled whole and is gone from
/// what is left.
pub proof fn lemma_price_time_priority(
    book: OrderBook,
    fee_bps: u16,
    b: Seq<LimitOrder>,
    a: Seq<LimitOrder>,
    side: Side,
    xi: int,
    yi: int,
)
    requires
        book.wf(),
        is_priority_sort_of(Side::Bid, book.bids@, b),
        is_priority_sort_of(Side::Ask, book.asks@, a),
        ids_rise_within_price(book.side(side)),
        0 <= xi < book.side(side).len(),
        0 <= yi < book.side(side).len(),
        ranks_before(side, book.side(side)[xi], book.side(side)[yi]),
    ensures
        match_pass(b, a, fee_bps) matches Some((fs, b2, a2)) ==> {
            &&& side == Side::Bid && bid_traded(fs, book.bids@[yi].order_id) ==> !has_id(
                b2,
                book.bids@[xi].order_id,
            )
            &&& side == Side::Ask && ask_traded(fs, book.asks@[yi].order_id) ==> !has_id(
                a2,
                book.asks@[xi].order_id,
            )
        },
{
    lemma_priority_sort_wf(Side::Bid, book.bids@, b, book.next_order_id);
    lemma_priority_sort_wf(Side::Ask, book.asks@, a, book.next_order_id);
    let sorted = if side == Side::Bid {
        b
    } else {
        a
    };
    let (i, j) = lemma_priority_sort_ranks(side, book.side(side), sorted, xi, yi);
    lemma_match_pass_front_first(b, a, fee_bps, book.next_order_id, i, j);
}

} // verus!
