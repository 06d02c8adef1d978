use orderbook_dex::{
    create_market, deposit_for, find_ata, lock_amount, match_sorted, position_of,
    sort_by_priority, Fill, Identity, LimitOrder, Market, OrderBook, OrderBookError, Side,
    MAX_ORDERS,
};

fn id(b: u8) -> Identity {
    Identity { bytes: [b; 32] }
}

fn market(fee_bps: u16) -> Market {
    let (m, _) = create_market(id(90), id(91), id(92), id(93), id(94), fee_bps, id(95)).unwrap();
    m
}

fn book() -> OrderBook {
    OrderBook::new(id(90))
}

fn order(owner: u8, price: u64, amount: u64, order_id: u64) -> LimitOrder {
    LimitOrder { owner: id(owner), price, amount, order_id }
}

fn ids(s: &[LimitOrder]) -> Vec<u64> {
    s.iter().map(|o| o.order_id).collect()
}

#[test]
fn concrete_scenario() {
    let m = market(30);
    let mut b = book();
    assert_eq!(b.place_order(id(1), 100, 5, Side::Bid, 0), Ok(500));
    assert_eq!(b.place_order(id(2), 90, 5, Side::Ask, 0), Ok(5));
    let fills = b.match_orders(&m).unwrap();
    assert_eq!(fills.len(), 1);
    let f = fills[0];
    assert_eq!(f.execution_price, 90);
    assert_eq!(f.bid_price, 100);
    assert_eq!(f.fill_amount, 5);
    assert_eq!(f.quote_amount, 450);
    assert_eq!(f.total_fee, 1);
    assert_eq!(f.asker_credit, 449);
    assert_eq!(f.cranker_reward, 0);
    assert_eq!(f.protocol_fee, 1);
    assert!(f.bid_owner == id(1));
    assert!(f.ask_owner == id(2));
    assert!(b.bids.is_empty());
    assert!(b.asks.is_empty());
}

#[test]
fn price_time_priority() {
    let m = market(0);
    let mut b = book();
    b.place_order(id(1), 10, 5, Side::Bid, 0).unwrap();
    b.place_order(id(2), 10, 5, Side::Bid, 0).unwrap();
    b.place_order(id(3), 9, 5, Side::Bid, 0).unwrap();
    b.place_order(id(4), 9, 5, Side::Ask, 0).unwrap();
    let fills = b.match_orders(&m).unwrap();
    assert_eq!(fills.len(), 1);
    assert_eq!(fills[0].bid_order_id, 0);
    assert!(fills[0].bid_owner == id(1));
    assert_eq!(ids(&b.bids), vec![1, 2]);
    assert!(b.asks.is_empty());
}

#[test]
fn better_price_wins_over_earlier_order() {
    let m = market(0);
    let mut b = book();
    b.place_order(id(1), 9, 5, Side::Bid, 0).unwrap();
    b.place_order(id(2), 11, 5, Side::Bid, 0).unwrap();
    b.place_order(id(3), 8, 5, Side::Ask, 0).unwrap();
    b.place_order(id(4), 7, 5, Side::Ask, 0).unwrap();
    let fills = b.match_orders(&m).unwrap();
    assert_eq!(fills.len(), 2);
    assert_eq!((fills[0].bid_order_id, fills[0].ask_order_id), (1, 3));
    assert_eq!(fills[0].execution_price, 7);
    assert_eq!((fills[1].bid_order_id, fills[1].ask_order_id), (0, 2));
    assert_eq!(fills[1].execution_price, 8);
}

#[test]
fn crossing_termination() {
    let m = market(0);
    let mut b = book();
    b.place_order(id(1), 9, 5, Side::Bid, 0).unwrap();
    b.place_order(id(2), 10, 5, Side::Ask, 0).unwrap();
    let fills = b.match_orders(&m).unwrap();
    assert!(fills.is_empty());
    assert_eq!(b.bids.len(), 1);
    assert_eq!(b.asks.len(), 1);
    assert!(b.bids[0].price < b.asks[0].price);
}

#[test]
fn crossing_stops_at_first_uncrossed_pair() {
    let m = market(0);
    let mut b = book();
    b.place_order(id(1), 12, 3, Side::Bid, 0).unwrap();
    b.place_order(id(1), 8, 3, Side::Bid, 0).unwrap();
    b.place_order(id(2), 10, 5, Side::Ask, 0).unwrap();
    let fills = b.match_orders(&m).unwrap();
    assert_eq!(fills.len(), 1);
    assert_eq!(fills[0].fill_amount, 3);
    assert_eq!(ids(&b.bids), vec![1]);
    assert_eq!(b.asks[0].amount, 2);
    assert!(b.bids[0].price < b.asks[0].price);
}

#[test]
fn conservation_of_each_fill() {
    let m = market(250);
    let mut b = book();
    b.place_order(id(1), 1000, 70, Side::Bid, 0).unwrap();
    b.place_order(id(2), 990, 30, Side::Ask, 0).unwrap();
    b.place_order(id(3), 995, 50, Side::Ask, 0).unwrap();
    let bid_before: u64 = b.bids.iter().map(|o| o.amount).sum();
    let fills = b.match_orders(&m).unwrap();
    let bid_after: u64 = b.bids.iter().map(|o| o.amount).sum();
    let filled: u64 = fills.iter().map(|f| f.fill_amount).sum();
    assert_eq!(bid_before - bid_after, filled);
    assert_eq!(fills.len(), 2);
    for f in &fills {
        assert_eq!(f.quote_amount, f.fill_amount * f.execution_price);
        assert_eq!(f.asker_credit + f.protocol_fee + f.cranker_reward, f.quote_amount);
    }
    // 30 * 990 = 29700; fee 2.5% = 742; reward 74.
    assert_eq!(fills[0].quote_amount, 29700);
    assert_eq!(fills[0].total_fee, 742);
    assert_eq!(fills[0].cranker_reward, 74);
    assert_eq!(fills[0].protocol_fee, 668);
    assert_eq!(fills[0].asker_credit, 28958);
    assert_eq!(fills[1].fill_amount, 40);
    assert_eq!(b.asks[0].amount, 10);
}

#[test]
fn idempotent_cancel() {
    let mut b = book();
    b.place_order(id(1), 10, 7, Side::Bid, 0).unwrap();
    b.place_order(id(1), 11, 3, Side::Bid, 0).unwrap();
    assert_eq!(b.cancel_order(Side::Bid, 0, id(1), 0), Ok(Some(70)));
    assert_eq!(ids(&b.bids), vec![1]);
    assert_eq!(b.cancel_order(Side::Bid, 0, id(1), 0), Ok(None));
    assert_eq!(ids(&b.bids), vec![1]);
}

#[test]
fn cancel_of_another_owner_is_a_no_op() {
    let mut b = book();
    b.place_order(id(1), 10, 7, Side::Ask, 0).unwrap();
    assert_eq!(b.cancel_order(Side::Ask, 0, id(2), 0), Ok(None));
    assert_eq!(b.asks.len(), 1);
    assert_eq!(b.cancel_order(Side::Bid, 0, id(1), 0), Ok(None));
    assert_eq!(b.cancel_order(Side::Ask, 0, id(1), 0), Ok(Some(7)));
    assert!(b.asks.is_empty());
}

#[test]
fn cancel_keeps_same_price_siblings() {
    let mut b = book();
    b.place_order(id(1), 10, 1, Side::Ask, 0).unwrap();
    b.place_order(id(2), 10, 2, Side::Ask, 0).unwrap();
    b.place_order(id(3), 10, 3, Side::Ask, 0).unwrap();
    assert_eq!(b.cancel_order(Side::Ask, 1, id(2), 0), Ok(Some(2)));
    assert_eq!(ids(&b.asks), vec![0, 2]);
}

#[test]
fn cancel_refunds_what_was_locked() {
    let mut b = book();
    let locked = b.place_order(id(1), 1_500, 2_000_000, Side::Bid, 6).unwrap();
    assert_eq!(locked, 3_000);
    assert_eq!(b.cancel_order(Side::Bid, 0, id(1), 6), Ok(Some(locked)));
}

#[test]
fn partial_fill_accounting() {
    let m = market(0);
    let mut b = book();
    b.place_order(id(1), 10, 100, Side::Bid, 0).unwrap();
    b.place_order(id(2), 10, 40, Side::Ask, 0).unwrap();
    b.place_order(id(3), 10, 60, Side::Ask, 0).unwrap();
    let fills = b.match_orders(&m).unwrap();
    assert_eq!(fills.len(), 2);
    assert_eq!(fills[0].fill_amount, 40);
    assert_eq!(fills[1].fill_amount, 60);
    assert_eq!(fills[0].quote_amount, 400);
    assert_eq!(fills[1].quote_amount, 600);
    assert!(b.bids.is_empty());
    assert!(b.asks.is_empty());
}

#[test]
fn overflow_safety() {
    let mut b = book();
    assert_eq!(
        b.place_order(id(1), u64::MAX, u64::MAX, Side::Bid, 0),
        Err(OrderBookError::ErrorInMultiply)
    );
    assert!(b.bids.is_empty());
    assert_eq!(b.next_order_id, 0);
    assert_eq!(lock_amount(u64::MAX, u64::MAX, 9), Err(OrderBookError::ErrorInMultiply));
}

#[test]
fn match_overflow_changes_nothing() {
    let m = market(30);
    let mut b = book();
    b.place_order(id(1), 9, 1, Side::Bid, 0).unwrap();
    b.place_order(id(2), 5, 1, Side::Bid, 0).unwrap();
    b.place_order(id(3), u64::MAX, 1, Side::Bid, 0).unwrap();
    b.place_order(id(4), u64::MAX / 2, 1, Side::Ask, 0).unwrap();
    assert_eq!(b.match_orders(&m).map(|f| f.len()), Err(OrderBookError::ErrorInMultiply));
    assert_eq!(ids(&b.bids), vec![0, 1, 2]);
    assert_eq!(b.asks[0].amount, 1);
}

#[test]
fn capacity_invariant() {
    let mut b = book();
    for i in 0..MAX_ORDERS as u64 {
        assert_eq!(b.place_order(id(1), 10 + i, 1, Side::Ask, 0), Ok(1));
    }
    assert_eq!(b.asks.len(), 50);
    assert_eq!(
        b.place_order(id(1), 10, 1, Side::Ask, 0),
        Err(OrderBookError::OrderBookFull)
    );
    assert_eq!(b.asks.len(), 50);
    assert_eq!(b.next_order_id, 50);
    assert_eq!(b.place_order(id(1), 10, 1, Side::Bid, 0), Ok(10));
    assert_eq!(b.bids[0].order_id, 50);
}

#[test]
fn zero_price_or_amount_is_refused() {
    let mut b = book();
    assert_eq!(b.place_order(id(1), 0, 1, Side::Bid, 0), Err(OrderBookError::ErrorValueInvalid));
    assert_eq!(b.place_order(id(1), 1, 0, Side::Ask, 0), Err(OrderBookError::ErrorValueInvalid));
    assert_eq!(b.next_order_id, 0);
}

#[test]
fn order_ids_run_out() {
    let mut b = OrderBook { market: id(90), next_order_id: u64::MAX, bids: vec![], asks: vec![] };
    assert_eq!(b.place_order(id(1), 1, 1, Side::Ask, 0), Err(OrderBookError::OrderIdExhausted));
    assert!(b.asks.is_empty());
}

#[test]
fn bid_lock_is_scaled_by_base_decimals() {
    assert_eq!(lock_amount(5_000_000, 100, 6), Ok(500));
    assert_eq!(lock_amount(7, 3, 1), Ok(2));
    assert_eq!(lock_amount(1, 1, 19), Ok(0));
    assert_eq!(lock_amount(1, 1, 20), Err(OrderBookError::ErrorInMultiply));
    assert_eq!(deposit_for(Side::Ask, 100, 7, 6), Ok(7));
    assert_eq!(deposit_for(Side::Bid, 100, 7, 0), Ok(700));
}

#[test]
fn fee_rate_above_whole_is_refused() {
    assert!(create_market(id(1), id(2), id(3), id(4), id(5), 10_000, id(6)).is_ok());
    assert_eq!(
        create_market(id(1), id(2), id(3), id(4), id(5), 10_001, id(6)).map(|_| ()),
        Err(OrderBookError::ErrorValueInvalid)
    );
    let (m, b) = create_market(id(1), id(2), id(3), id(4), id(5), 25, id(6)).unwrap();
    assert_eq!(m.fee_bps, 25);
    assert!(m.base_mint == id(2) && m.quote_mint == id(3) && m.creator == id(6));
    assert!(b.market == id(1));
    assert_eq!(b.next_order_id, 0);
}

#[test]
fn stable_sort_keeps_placement_order() {
    let mut v = vec![order(1, 5, 1, 0), order(2, 7, 1, 1), order(3, 5, 1, 2), order(4, 7, 1, 3)];
    sort_by_priority(&mut v, Side::Bid);
    assert_eq!(ids(&v), vec![1, 3, 0, 2]);
    sort_by_priority(&mut v, Side::Ask);
    assert_eq!(ids(&v), vec![0, 2, 1, 3]);
}

#[test]
fn match_sorted_on_given_sides() {
    let mut bids = vec![order(1, 10, 4, 0)];
    let mut asks = vec![order(2, 10, 4, 1), order(3, 11, 4, 2)];
    let fills: Vec<Fill> = match_sorted(&mut bids, &mut asks, 0).unwrap();
    assert_eq!(fills.len(), 1);
    assert!(bids.is_empty());
    assert_eq!(ids(&asks), vec![2]);
}

#[test]
fn position_of_finds_first() {
    let keys = vec![id(1), id(2), id(2)];
    assert_eq!(position_of(&keys, &id(2)), Some(1));
    assert_eq!(position_of(&keys, &id(3)), None);
}

#[test]
fn find_ata_uses_derived_address() {
    let owner = id(7);
    let mint = id(8);
    let ata = anchor_spl::associated_token::get_associated_token_address(
        &anchor_lang::prelude::Pubkey::new_from_array(owner.bytes),
        &anchor_lang::prelude::Pubkey::new_from_array(mint.bytes),
    );
    let ata = Identity { bytes: ata.to_bytes() };
    let keys = vec![owner, mint, id(9), ata];
    assert_eq!(find_ata(&keys, &owner, &mint), Ok(3));
    let keys = vec![owner, mint];
    assert_eq!(find_ata(&keys, &owner, &mint), Err(OrderBookError::AtaNotFound));
}

#[test]
fn error_messages() {
    assert_eq!(OrderBookError::OrderBookFull.message(), "OrderBook is full");
    assert_eq!(OrderBookError::AtaNotFound.message(), "The Ata not found");
    assert_eq!(OrderBookError::OrderIdExhausted.message(), "No order id is left");
}
