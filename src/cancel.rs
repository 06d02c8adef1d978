use vstd::prelude::*;

use crate::error::OrderBookError;
use crate::identity::Identity;
use crate::place::{deposit_for, deposit_of, opposite};
use crate::state::{side_wf, LimitOrder, OrderBook, Side};

verus! {

/// Whether `o` is the order `order_id` of `owner`.
pub open spec fn is_target(o: LimitOrder, order_id: u64, owner: Identity) -> bool {
    o.order_id == order_id && o.owner@ == owner@
}

/// Whether one side holds the order `order_id` of `owner`.
pub open spec fn holds_target(s: Seq<LimitOrder>, order_id: u64, owner: Identity) -> bool {
    exists|i: int| 0 <= i < s.len() && is_target(#[trigger] s[i], order_id, owner)
}

/// After the order `order_id` of `owner` leaves a well-formed side, the side
/// stays well formed and holds no such order any more: a second cancellation
/// of it finds nothing.
pub proof fn lemma_cancel_removes_target(
    s: Seq<LimitOrder>,
    next_order_id: u64,
    i: int,
    order_id: u64,
    owner: Identity,
)
    requires
        side_wf(s, next_order_id),
        0 <= i < s.len(),
        is_target(s[i], order_id, owner),
    ensures
        side_wf(s.remove(i), next_order_id),
        !holds_target(s.remove(i), order_id, owner),
{
    let t = s.remove(i);
    assert forall|j: int| 0 <= j < t.len() implies #[trigger] t[j] == (if j < i {
        s[j]
    } else {
        s[j + 1]
    }) by {}
    assert forall|a: int, b: int|
        0 <= a < t.len() && 0 <= b < t.len() && a != b implies #[trigger] t[a].order_id
        != #[trigger] t[b].order_id by {
        let a0 = if a < i { a } else { a + 1 };
        let b0 = if b < i { b } else { b + 1 };
        assert(t[a] == s[a0]);
        assert(t[b] == s[b0]);
    }
    assert forall|j: int| 0 <= j < t.len() implies !is_target(#[trigger] t[j], order_id, owner) by {
        let j0 = if j < i { j } else { j + 1 };
        assert(t[j] == s[j0]);
        assert(s[j0].order_id != s[i].order_id);
    }
}

impl OrderBook {
    /// Cancels the order `order_id` of `owner` on `side` and returns what is
    /// refunded for it: for a bid the quote amount that its remaining amount
    /// locks, for an ask its remaining base amount. Where the side holds no
    /// such order (another owner's order with that id included), nothing
    /// changes and `Ok(None)` comes back.
    ///
    /// A bid's refund uses the same formula as its lock at placement,
    /// `floor(amount * price / 10^base_decimals)` (see `deposit_of`), not the
    /// unscaled `amount * price`: with the unscaled product a bid on a mint
    /// with decimals would take back more than it locked. Callers that relied
    /// on the unscaled refund should note this choice.
    pub fn cancel_order(&mut self, side: Side, order_id: u64, owner: Identity, base_decimals: u8) -> (r:
        Result<Option<u64>, OrderBookError>)
        requires
            old(self).wf(),
        ensures
            final(self).wf(),
            final(self).market == old(self).market,
            final(self).next_order_id == old(self).next_order_id,
            final(self).side(opposite(side)) == old(self).side(opposite(side)),
            !holds_target(old(self).side(side), order_id, owner) ==> r == Ok::<
                Option<u64>,
                OrderBookError,
            >(None) && *final(self) == *old(self),
            forall|i: int|
                0 <= i < old(self).side(side).len() && is_target(
                    #[trigger] old(self).side(side)[i],
                    order_id,
                    owner,
                ) ==> match deposit_of(
                    side,
                    old(self).side(side)[i].price,
                    old(self).side(side)[i].amount,
                    base_decimals,
                ) {
                    Some(x) => r == Ok::<Option<u64>, OrderBookError>(Some(x)) && final(self).side(
                        side,
                    ) == old(self).side(side).remove(i),
                    None => r == Err::<Option<u64>, OrderBookError>(
                        OrderBookError::ErrorInMultiply,
                    ) && *final(self) == *old(self),
                },
    {
        let ghost s = self.side(side);
        let n = match side {
            Side::Bid => self.bids.len(),
            Side::Ask => self.asks.len(),
        };
        let mut k: usize = 0;
        while k < n
            invariant
                s == self.side(side),
                n == s.len(),
                0 <= k <= n,
                forall|j: int| 0 <= j < k ==> !is_target(#[trigger] s[j], order_id, owner),
            ensures
                0 <= k <= n,
                forall|j: int| 0 <= j < k ==> !is_target(#[trigger] s[j], order_id, owner),
                k < n ==> is_target(s[k as int], order_id, owner),
            decreases n - k,
        {
            let o = match side {
                Side::Bid => self.bids[k],
                Side::Ask => self.asks[k],
            };
            if o.order_id == order_id && o.owner == owner {
                break;
            }
            k = k + 1;
        }
        if k == n {
            return Ok(None);
        }
        let o = match side {
            Side::Bid => self.bids[k],
            Side::Ask => self.asks[k],
        };
        proof {
            assert(is_target(s[k as int], order_id, owner));
            assert forall|i: int| 0 <= i < s.len() && is_target(#[trigger] s[i], order_id, owner) implies i
                == k by {
                if i != k {
                    assert(s[i].order_id != s[k as int].order_id);
                }
            }
            lemma_cancel_removes_target(s, self.next_order_id, k as int, order_id, owner);
        }
        let refund = match deposit_for(side, o.price, o.amount, base_decimals) {
            Ok(x) => x,
            Err(e) => return Err(e),
        };
        match side {
            Side::Bid => {
                self.bids.remove(k);
            },
            Side::Ask => {
                self.asks.remove(k);
            },
        }
        Ok(Some(refund))
    }
}

} // verus!
