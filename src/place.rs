use vstd::prelude::*;

use crate::error::OrderBookError;
use crate::identity::Identity;
use crate::state::{LimitOrder, OrderBook, Side, MAX_ORDERS};

verus! {

/// Ten to the power `d`.
pub open spec fn pow10(d: nat) -> nat
    decreases d,
{
    if d == 0 {
        1
    } else {
        10 * pow10((d - 1) as nat)
    }
}

proof fn lemma_pow10_positive(d: nat)
    ensures
        pow10(d) >= 1,
    decreases d,
{
    if d > 0 {
        lemma_pow10_positive((d - 1) as nat);
    }
}

/// The quote amount that a bid of `amount` base units at `price` locks:
/// `floor(amount * price / 10^base_decimals)`, or `None` where the product or
/// the scale does not fit in 64 bits.
pub open spec fn quote_lock(amount: u64, price: u64, base_decimals: u8) -> Option<u64> {
    let product = amount as int * price as int;
    let scale = pow10(base_decimals as nat);
    if product > u64::MAX || scale > u64::MAX {
        None
    } else {
        Some((product / scale as int) as u64)
    }
}

/// What an order of `amount` at `price` holds in custody while it rests:
/// quote units for a bid, base units for an ask.
pub open spec fn deposit_of(side: Side, price: u64, amount: u64, base_decimals: u8) -> Option<u64> {
    match side {
        Side::Bid => quote_lock(amount, price, base_decimals),
        Side::Ask => Some(amount),
    }
}

/// Why a placement is refused, in the order in which the conditions are
/// checked; `None` where it goes through.
pub open spec fn placement_error(
    book: OrderBook,
    price: u64,
    amount: u64,
    side: Side,
    base_decimals: u8,
) -> Option<OrderBookError> {
    if price == 0 || amount == 0 {
        Some(OrderBookError::ErrorValueInvalid)
    } else if book.side(side).len() >= MAX_ORDERS {
        Some(OrderBookError::OrderBookFull)
    } else if deposit_of(side, price, amount, base_decimals) is None {
        Some(OrderBookError::ErrorInMultiply)
    } else if book.next_order_id == u64::MAX {
        Some(OrderBookError::OrderIdExhausted)
    } else {
        None
    }
}

/// A side that already holds its maximum of orders takes no more: every
/// placement on it is refused (a valid one as full), and `place_order` then
/// leaves the book as it was. A well-formed side never holds more than the maximum.
pub proof fn lemma_full_side_refuses(
    book: OrderBook,
    price: u64,
    amount: u64,
    side: Side,
    base_decimals: u8,
)
    requires
        book.wf(),
        book.side(side).len() == MAX_ORDERS,
    ensures
        placement_error(book, price, amount, side, base_decimals) is Some,
        price > 0 && amount > 0 ==> placement_error(book, price, amount, side, base_decimals)
            == Some(OrderBookError::OrderBookFull),
        book.bids@.len() <= MAX_ORDERS && book.asks@.len() <= MAX_ORDERS,
{
}

/// The other side of the book.
pub open spec fn opposite(side: Side) -> Side {
    match side {
        Side::Bid => Side::Ask,
        Side::Ask => Side::Bid,
    }
}

/// `10^d`, or `None` where it does not fit in 64 bits.
fn decimal_scale(d: u8) -> (r: Option<u64>)
    ensures
        r is Some <==> pow10(d as nat) <= u64::MAX,
        r matches Some(x) ==> x == pow10(d as nat),
{
    let mut acc: u64 = 1;
    let mut i: u8 = 0;
    while i < d
        invariant
            0 <= i <= d,
            acc == pow10(i as nat),
        decreases d - i,
    {
        match acc.checked_mul(10) {
            Some(x) => {
                acc = x;
            },
            None => {
                proof {
                    lemma_pow10_grows(i as nat, d as nat);
                }
                return None;
            },
        }
        i = i + 1;
    }
    Some(acc)
}

proof fn lemma_pow10_grows(a: nat, b: nat)
    requires
        a < b,
    ensures
        pow10(b) >= 10 * pow10(a),
    decreases b - a,
{
    lemma_pow10_positive(a);
    if b > a + 1 {
        lemma_pow10_grows(a, (b - 1) as nat);
    }
}

/// The quote amount that a bid locks; see `quote_lock`.
pub fn lock_amount(amount: u64, price: u64, base_decimals: u8) -> (r: Result<u64, OrderBookError>)
    ensures
        match quote_lock(amount, price, base_decimals) {
            Some(x) => r == Ok::<u64, OrderBookError>(x),
            None => r == Err::<u64, OrderBookError>(OrderBookError::ErrorInMultiply),
        },
{
    let product = match amount.checked_mul(price) {
        Some(p) => p,
        None => return Err(OrderBookError::ErrorInMultiply),
    };
    let scale = match decimal_scale(base_decimals) {
        Some(s) => s,
        None => return Err(OrderBookError::ErrorInMultiply),
    };
    proof {
        lemma_pow10_positive(base_decimals as nat);
    }
    Ok(product / scale)
}

/// What an order holds in custody while it rests; see `deposit_of`.
pub fn deposit_for(side: Side, price: u64, amount: u64, base_decimals: u8) -> (r: Result<
    u64,
    OrderBookError,
>)
    ensures
        match deposit_of(side, price, amount, base_decimals) {
            Some(x) => r == Ok::<u64, OrderBookError>(x),
            None => r == Err::<u64, OrderBookError>(OrderBookError::ErrorInMultiply),
        },
{
    match side {
        Side::Bid => lock_amount(amount, price, base_decimals),
        Side::Ask => Ok(amount),
    }
}

impl OrderBook {
    /// Admits a new order of `owner` at the back of its side, with the next
    /// order id, and returns what the owner must deposit for it (see
    /// `deposit_of`). No matching happens here. A refused placement leaves
    /// the book as it was.
    pub fn place_order(
        &mut self,
        owner: Identity,
        price: u64,
        amount: u64,
        side: Side,
        base_decimals: u8,
    ) -> (r: Result<u64, OrderBookError>)
        requires
            old(self).wf(),
        ensures
            final(self).wf(),
            match placement_error(*old(self), price, amount, side, base_decimals) {
                Some(e) => r == Err::<u64, OrderBookError>(e) && *final(self) == *old(self),
                None => {
                    &&& deposit_of(side, price, amount, base_decimals) matches Some(d) && r == Ok::<
                        u64,
                        OrderBookError,
                    >(d)
                    &&& final(self).side(side) == old(self).side(side).push(
                        LimitOrder { owner, price, amount, order_id: old(self).next_order_id },
                    )
                    &&& final(self).side(opposite(side)) == old(self).side(opposite(side))
                    &&& final(self).next_order_id == old(self).next_order_id + 1
                    &&& final(self).market == old(self).market
                },
            },
    {
        if price == 0 || amount == 0 {
            return Err(OrderBookError::ErrorValueInvalid);
        }
        let full = match side {
            Side::Bid => self.bids.len() >= MAX_ORDERS,
            Side::Ask => self.asks.len() >= MAX_ORDERS,
        };
        if full {
            return Err(OrderBookError::OrderBookFull);
        }
        let deposit = match deposit_for(side, price, amount, base_decimals) {
            Ok(d) => d,
            Err(e) => return Err(e),
        };
        if self.next_order_id == u64::MAX {
            return Err(OrderBookError::OrderIdExhausted);
        }
        let order = LimitOrder { owner, price, amount, order_id: self.next_order_id };
        self.next_order_id = self.next_order_id + 1;
        match side {
            Side::Bid => self.bids.push(order),
            Side::Ask => self.asks.push(order),
        }
        proof {
            let s = old(self).side(side);
            let t = self.side(side);
            assert(t[s.len() as int] == order);
            assert forall|i: int| 0 <= i < s.len() implies #[trigger] t[i] == s[i] by {}
        }
        Ok(deposit)
    }
}

} // verus!
