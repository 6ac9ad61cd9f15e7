use rust_ob::{errors, Decimal, OrderBook, OrderMatch, Side};

fn dec(mantissa: i128, scale: u32) -> Decimal {
    Decimal::try_from_i128_with_scale(mantissa, scale).unwrap()
}

fn next(state: &mut u64) -> u64 {
    let mut x = *state;
    x ^= x << 13;
    x ^= x >> 7;
    x ^= x << 17;
    *state = x;
    x
}

fn any_side(state: &mut u64) -> Side {
    if next(state) % 2 == 0 {
        Side::Buy
    } else {
        Side::Sell
    }
}

// Prices from -5.00 to 14.75 in steps of a quarter, written at one of two scales.
fn any_price(state: &mut u64) -> Decimal {
    let quarters = (next(state) % 80) as i128 - 20;
    if next(state) % 2 == 0 {
        dec(quarters * 25, 2)
    } else {
        dec(quarters * 250, 3)
    }
}

// Quantities from 0.1 to 20.0 in steps of a tenth.
fn any_quantity(state: &mut u64) -> Decimal {
    dec((next(state) % 200) as i128 + 1, 1)
}

fn sum(values: impl Iterator<Item = Decimal>) -> Decimal {
    let mut total = Decimal::zero();
    for v in values {
        total = total.checked_add(v).unwrap();
    }
    total
}

fn check_fills(fills: &[OrderMatch], id: u128, quantity: Decimal) {
    if fills.is_empty() {
        return;
    }
    let (taker, makers) = fills.split_last().unwrap();
    assert_eq!(taker.order, id);
    assert!(makers.len() > 0);
    // cash is conserved
    assert_eq!(sum(fills.iter().map(|f| f.cost)), Decimal::zero());
    // quantity is conserved
    assert_eq!(sum(makers.iter().map(|f| f.quantity)), taker.quantity);
    assert!(taker.quantity.le(&quantity));
    for f in fills {
        assert!(f.quantity.is_positive());
    }
}

fn check_book(ob: &OrderBook) {
    let bids = ob.orders(Side::Buy);
    let asks = ob.orders(Side::Sell);
    // the book is not crossed
    if let (Some(bid), Some(ask)) = (bids.first(), asks.first()) {
        assert!(bid.price.lt(&ask.price));
    }
    // each side is in price-time order, and holds what is left to trade
    for pair in bids.windows(2) {
        let o = pair[1].price.compare(&pair[0].price);
        assert!(o < 0 || (o == 0 && pair[0].priority < pair[1].priority));
    }
    for pair in asks.windows(2) {
        let o = pair[0].price.compare(&pair[1].price);
        assert!(o < 0 || (o == 0 && pair[0].priority < pair[1].priority));
    }
    let mut ids = Vec::new();
    let mut priorities = Vec::new();
    for o in &bids {
        assert_eq!(o.side, Side::Buy);
    }
    for o in &asks {
        assert_eq!(o.side, Side::Sell);
    }
    for o in bids.iter().chain(asks.iter()) {
        assert!(o.quantity.is_positive());
        ids.push(o.id);
        priorities.push(o.priority);
    }
    // no identifier and no priority is on the book twice
    ids.sort();
    priorities.sort();
    assert!(ids.windows(2).all(|w| w[0] != w[1]));
    assert!(priorities.windows(2).all(|w| w[0] != w[1]));
    assert_eq!(ob.get_highest_priority_order(Side::Buy), bids.first().map(|o| o.id));
    assert_eq!(ob.get_highest_priority_order(Side::Sell), asks.first().map(|o| o.id));
    assert_eq!(ob.get_highest_priority_price(Side::Buy), bids.first().map(|o| o.price));
    assert_eq!(ob.get_highest_priority_price(Side::Sell), asks.first().map(|o| o.price));
}

fn is_resting(ob: &OrderBook, id: u128) -> bool {
    ob.orders(Side::Buy).iter().chain(ob.orders(Side::Sell).iter()).any(|o| o.id == id)
}

fn highest_priority(ob: &OrderBook) -> Option<u64> {
    ob.orders(Side::Buy).iter().chain(ob.orders(Side::Sell).iter()).map(|o| o.priority).max()
}

// A book of some hundred orders, the same for the same seed.
fn some_book(seed: u64) -> OrderBook {
    let mut state = seed;
    let mut ob = OrderBook::new();
    for id in 0..300u128 {
        let side = any_side(&mut state);
        let price = any_price(&mut state);
        let quantity = any_quantity(&mut state);
        assert!(ob.limit_order_fits(side, price, quantity));
        let _ = ob.process_limit_order(id, side, price, quantity);
    }
    ob
}

#[test]
fn every_call_conserves_cash_and_quantity_and_leaves_the_book_at_rest() {
    let mut state = 0x0123_4567_89AB_CDEFu64;
    let mut ob = OrderBook::new();
    let mut traded = 0;
    for id in 0..2_000u128 {
        let side = any_side(&mut state);
        let quantity = any_quantity(&mut state);
        match next(&mut state) % 8 {
            0 => {
                let id = next(&mut state) as u128 % (id + 1);
                let was_resting = is_resting(&ob, id);
                let res = ob.cancel_order(id);
                assert_eq!(res.is_ok(), was_resting);
                assert!(!is_resting(&ob, id));
            }
            1 => {
                assert!(ob.market_order_fits(side, quantity));
                let fills = ob.process_market_order(id, side, quantity).unwrap();
                check_fills(&fills, id, quantity);
                assert!(!is_resting(&ob, id));
                traded += fills.len();
            }
            _ => {
                let price = any_price(&mut state);
                assert!(ob.limit_order_fits(side, price, quantity));
                let fills = ob.process_limit_order(id, side, price, quantity).unwrap();
                check_fills(&fills, id, quantity);
                let filled = fills.last().map(|f| f.quantity).unwrap_or(Decimal::zero());
                assert_eq!(is_resting(&ob, id), filled != quantity);
                traded += fills.len();
            }
        }
        check_book(&ob);
    }
    assert!(traded > 500);
}

#[test]
fn every_resting_order_is_found_once_by_its_identifier() {
    let mut ob = some_book(0xFEED_FACE_CAFE_BEEFu64);
    let resting: Vec<u128> =
        ob.orders(Side::Buy).iter().chain(ob.orders(Side::Sell).iter()).map(|o| o.id).collect();
    assert!(resting.len() > 20);
    for id in 0..300u128 {
        let known = resting.contains(&id);
        assert_eq!(
            ob.process_limit_order(id, Side::Buy, dec(1, 0), dec(0, 0)),
            Err(if known {
                errors::ProcessLimitOrder::OrderAlreadyExists
            } else {
                errors::ProcessLimitOrder::NonPositiveQuantity
            })
        );
    }
    for id in &resting {
        assert_eq!(ob.cancel_order(*id), Ok(()));
        assert_eq!(ob.cancel_order(*id), Err(errors::CancelOrder::OrderNotFound));
        check_book(&ob);
    }
    assert!(ob.orders(Side::Buy).is_empty());
    assert!(ob.orders(Side::Sell).is_empty());
}

#[test]
fn priorities_grow_with_each_order_that_rests() {
    let mut state = 0x0F0F_F0F0_1234_4321u64;
    let mut ob = OrderBook::new();
    let mut last: Option<u64> = None;
    let mut rested = 0;
    for id in 0..500u128 {
        let side = any_side(&mut state);
        let price = any_price(&mut state);
        let quantity = any_quantity(&mut state);
        if id % 5 == 4 {
            let _ = ob.process_market_order(id, side, quantity);
            let _ = ob.cancel_order(next(&mut state) as u128 % id);
            continue;
        }
        let _ = ob.process_limit_order(id, side, price, quantity);
        if let Some(order) =
            ob.orders(side).iter().find(|o| o.id == id)
        {
            if let Some(before) = last {
                assert!(order.priority > before);
            }
            assert_eq!(highest_priority(&ob), Some(order.priority));
            last = Some(order.priority);
            rested += 1;
        }
    }
    assert!(rested > 100);
}

#[test]
fn a_quote_is_what_the_market_order_gets() {
    for seed in 1..40u64 {
        let mut state = seed.wrapping_mul(0x9E37_79B9_7F4A_7C15);
        let side = any_side(&mut state);
        let quantity = dec((next(&mut state) % 3_000) as i128 + 1, 1);
        let quoted = some_book(seed);
        let mut placed = some_book(seed);
        assert!(quoted.market_cost_fits(side, quantity));
        let quote = quoted.calculate_market_cost(side, quantity).unwrap();
        let fills = placed.process_market_order(1_000, side, quantity).unwrap();
        match fills.last() {
            Some(taker) => {
                assert_eq!(taker.order, 1_000);
                assert_eq!((taker.quantity, taker.cost), quote);
                assert_eq!(taker.quantity.mantissa(), quote.0.mantissa());
                assert_eq!(taker.cost.scale(), quote.1.scale());
            }
            None => {
                assert!(quoted.orders(side.opposite()).is_empty());
                assert_eq!(quote, (Decimal::zero(), Decimal::zero()));
            }
        }
        assert!(!is_resting(&placed, 1_000));
        assert_eq!(placed.cancel_order(1_000), Err(errors::CancelOrder::OrderNotFound));
        assert_eq!(placed.orders(side).len(), quoted.orders(side).len());
    }
}

#[test]
fn a_quote_on_an_empty_side_is_zero() {
    let mut ob = OrderBook::new();
    let _ = ob.process_limit_order(1, Side::Buy, dec(5, 0), dec(5, 0));
    assert_eq!(
        ob.calculate_market_cost(Side::Sell, dec(3, 0)),
        Ok((dec(3, 0), dec(-15, 0)))
    );
    assert_eq!(
        ob.calculate_market_cost(Side::Buy, dec(3, 0)),
        Ok((Decimal::zero(), Decimal::zero()))
    );
    assert_eq!(ob.process_market_order(2, Side::Buy, dec(3, 0)), Ok(vec![]));
}
