use clob::error::CLOBError;
use clob::global_state::{initialize_global_state, GlobalState};
use clob::market_maker::Identity;
use clob::order_book::{
    add_market_maker, cancel_limit_order, get_best_orders, get_market_maker_balances, get_order_index,
    get_twap, initialize_order_book, max_returnable_orders, submit_limit_order, submit_take_order,
    sweep_fees, top_up_balance, withdraw_balance, AmountAndPrice, MarketMakerBalances, OrderBook,
};
use clob::side::Side;
use clob::{BOOK_DEPTH, PRICE_PRECISION};

const E9: u64 = PRICE_PRECISION as u64;

fn id(n: u8) -> Identity {
    Identity::new([n; 32])
}

fn book_with_depth(depth: usize) -> OrderBook {
    OrderBook::new(id(200), id(201), id(202), id(203), 255, depth, 250, 100)
}

/// Registers makers `0..count` (authority `id(m + 1)`) with the given balances.
fn with_makers(book: &mut OrderBook, count: u8, base: u64, quote: u64) {
    for m in 0..count {
        add_market_maker(book, id(m + 1), m as u32).unwrap();
        top_up_balance(book, m as u32, base, quote).unwrap();
    }
}

fn fee_state(bps: u16) -> GlobalState {
    GlobalState { fee_collector: id(99), taker_fee_in_bps: bps, market_maker_burn_in_lamports: 0 }
}

fn best_prices(book: &OrderBook, side: Side) -> Vec<u64> {
    get_best_orders(book, side, 1024).iter().map(|o| o.price).collect()
}

fn balances(book: &OrderBook, m: u8) -> (u64, u64) {
    let b = book.market_makers[m as usize];
    (b.base_balance, b.quote_balance)
}

#[test]
fn global_state_defaults() {
    let g = initialize_global_state(id(9));
    assert_eq!(g.taker_fee_in_bps, 10);
    assert_eq!(g.market_maker_burn_in_lamports, 1_000_000_000);
    assert!(g.fee_collector.same_as(&id(9)));
}

#[test]
fn order_book_defaults() {
    let book = initialize_order_book(id(1), id(2), id(3), id(4), 7);
    assert_eq!(book.buys.orders.len(), BOOK_DEPTH);
    assert_eq!(book.sells.orders.len(), BOOK_DEPTH);
    assert_eq!(book.twap_oracle.max_observation_change_per_update_bps, 250);
    assert_eq!(book.twap_oracle.max_observation_change_per_slot_bps, 100);
    assert_eq!(book.base_fees_sweepable, 0);
    assert_eq!(book.quote_fees_sweepable, 0);
    assert_eq!(book.pda_bump, 7);
    assert_eq!(book.market_makers.len(), 64);
    assert!(book.market_makers[0].authority.is_zero());
}

#[test]
fn evict_on_full() {
    let mut book = book_with_depth(4);
    with_makers(&mut book, 5, 0, 100);
    for (m, p) in [(0u8, 10u64), (1, 20), (2, 30), (3, 40)] {
        submit_limit_order(&mut book, &id(m + 1), 0, Side::Buy, 1, p, m as u32, m).unwrap();
    }
    assert_eq!(balances(&book, 0), (0, 99));
    submit_limit_order(&mut book, &id(5), 0, Side::Buy, 1, 50, 4, 4).unwrap();
    assert_eq!(best_prices(&book, Side::Buy), vec![50, 40, 30, 20]);
    assert_eq!(balances(&book, 0), (0, 100));
    assert_eq!(balances(&book, 4), (0, 99));
}

#[test]
fn reject_inferior_on_full() {
    let mut book = book_with_depth(4);
    with_makers(&mut book, 5, 0, 100);
    for (m, p) in [(0u8, 10u64), (1, 20), (2, 30), (3, 40)] {
        submit_limit_order(&mut book, &id(m + 1), 0, Side::Buy, 1, p, m as u32, m).unwrap();
    }
    let r = submit_limit_order(&mut book, &id(5), 0, Side::Buy, 1, 5, 4, 4);
    assert_eq!(r, Err(CLOBError::InferiorPrice));
    assert_eq!(balances(&book, 4), (0, 100));
    assert_eq!(best_prices(&book, Side::Buy), vec![40, 30, 20, 10]);
}

fn two_sells() -> OrderBook {
    let mut book = book_with_depth(BOOK_DEPTH);
    with_makers(&mut book, 2, 100, 0);
    submit_limit_order(&mut book, &id(1), 0, Side::Sell, 10, 2 * E9, 1, 0).unwrap();
    submit_limit_order(&mut book, &id(2), 0, Side::Sell, 10, 3 * E9, 2, 1).unwrap();
    book
}

#[test]
fn full_fill_clean() {
    let mut book = two_sells();
    let out = submit_take_order(&mut book, &fee_state(0), 0, Side::Buy, 4, 0).unwrap();
    assert_eq!(out, 2);
    // The first sell absorbs up to 5 quote and keeps 10 - 2 base.
    let rest = get_best_orders(&book, Side::Sell, 1024);
    assert_eq!(rest, vec![AmountAndPrice { amount: 8, price: 2 * E9 }, AmountAndPrice { amount: 10, price: 3 * E9 }]);
    assert_eq!(balances(&book, 0), (90, 4));
}

#[test]
fn full_fill_consumes_first_order() {
    let mut book = two_sells();
    // The first sell absorbs 5 quote and hands over its whole 10 base; the
    // last quote buys 1/3 base at the second price, rounded down to 0.
    let out = submit_take_order(&mut book, &fee_state(0), 0, Side::Buy, 6, 0).unwrap();
    assert_eq!(out, 10);
    assert_eq!(best_prices(&book, Side::Sell), vec![3 * E9]);
    assert_eq!(balances(&book, 0), (90, 5));
    assert_eq!(balances(&book, 1), (90, 1));
    assert_eq!(get_best_orders(&book, Side::Sell, 1024)[0].amount, 10);
}

fn one_sell() -> OrderBook {
    let mut book = book_with_depth(BOOK_DEPTH);
    with_makers(&mut book, 1, 1000, 0);
    submit_limit_order(&mut book, &id(1), 0, Side::Sell, 1000, E9, 1, 0).unwrap();
    book
}

#[test]
fn partial_fill_with_fee() {
    let mut book = one_sell();
    let out = submit_take_order(&mut book, &fee_state(10), 0, Side::Buy, 1000, 990).unwrap();
    assert_eq!(out, 999);
    assert_eq!(book.quote_fees_sweepable, 1);
    assert_eq!(book.base_fees_sweepable, 0);
    assert_eq!(get_best_orders(&book, Side::Sell, 1024), vec![AmountAndPrice { amount: 1, price: E9 }]);
    assert_eq!(balances(&book, 0), (0, 999));
}

#[test]
fn take_with_unmet_min_out() {
    let mut book = one_sell();
    let r = submit_take_order(&mut book, &fee_state(10), 0, Side::Buy, 1000, 1000);
    assert_eq!(r, Err(CLOBError::TakeNotFilled));
    assert_eq!(book.quote_fees_sweepable, 0);
    assert_eq!(get_best_orders(&book, Side::Sell, 1024), vec![AmountAndPrice { amount: 1000, price: E9 }]);
    assert_eq!(balances(&book, 0), (0, 0));
}

#[test]
fn exact_fill_frees_the_slot() {
    let mut book = one_sell();
    let out = submit_take_order(&mut book, &fee_state(0), 0, Side::Buy, 1000, 1000).unwrap();
    assert_eq!(out, 1000);
    assert!(get_best_orders(&book, Side::Sell, 1024).is_empty());
    assert_eq!(book.sells.free_bitmap.get_first_free_chunk(), Some(0));
}

#[test]
fn sell_taker_rounds_down_against_itself() {
    let mut book = book_with_depth(BOOK_DEPTH);
    with_makers(&mut book, 1, 0, 1000);
    // A buy at 1.5 quote per base holding 100 quote.
    submit_limit_order(&mut book, &id(1), 0, Side::Buy, 100, 1_500_000_000, 1, 0).unwrap();
    let out = submit_take_order(&mut book, &fee_state(0), 0, Side::Sell, 3, 0).unwrap();
    assert_eq!(out, 4);
    assert_eq!(book.base_fees_sweepable, 0);
    assert_eq!(balances(&book, 0), (3, 900));
    assert_eq!(get_best_orders(&book, Side::Buy, 1024)[0].amount, 96);
}

#[test]
fn take_against_empty_book_pays_nothing() {
    let mut book = book_with_depth(BOOK_DEPTH);
    let out = submit_take_order(&mut book, &fee_state(10), 0, Side::Sell, 500, 0).unwrap();
    assert_eq!(out, 0);
    assert_eq!(book.base_fees_sweepable, 1);
}

#[test]
fn twap_update_from_book() {
    let mut book = OrderBook::new(id(1), id(2), id(3), id(4), 0, BOOK_DEPTH, 100, 0);
    with_makers(&mut book, 1, 1000, 1000);
    submit_limit_order(&mut book, &id(1), 0, Side::Buy, 10, 900_000, 1, 0).unwrap();
    submit_limit_order(&mut book, &id(1), 0, Side::Sell, 10, 1_100_001, 2, 0).unwrap();
    assert_eq!(get_twap(&book).last_updated_slot, 0);
    book.update_twap_oracle(5).unwrap();
    let t = get_twap(&book);
    assert_eq!(t.last_observation, 1_000_000);
    assert_eq!(t.last_updated_slot, 5);
    assert_eq!(t.observation_aggregator, 5_000_000);
    book.update_twap_oracle(5).unwrap();
    assert_eq!(get_twap(&book).observation_aggregator, 5_000_000);
    // A limit order at a later slot updates the oracle before it rests.
    submit_limit_order(&mut book, &id(1), 7, Side::Buy, 10, 1_100_001, 3, 0).unwrap();
    let t = get_twap(&book);
    assert_eq!(t.last_updated_slot, 7);
    assert_eq!(t.observation_aggregator, 7_000_000);
}

#[test]
fn twap_waits_for_both_sides() {
    let mut book = book_with_depth(BOOK_DEPTH);
    with_makers(&mut book, 1, 0, 1000);
    submit_limit_order(&mut book, &id(1), 3, Side::Buy, 10, 900, 1, 0).unwrap();
    assert_eq!(get_twap(&book).last_updated_slot, 0);
}

#[test]
fn top_up_then_withdraw_restores_balances() {
    let mut book = book_with_depth(BOOK_DEPTH);
    with_makers(&mut book, 1, 7, 9);
    top_up_balance(&mut book, 0, 100, 200).unwrap();
    assert_eq!(balances(&book, 0), (107, 209));
    withdraw_balance(&mut book, &id(1), 0, 100, 200).unwrap();
    assert_eq!(balances(&book, 0), (7, 9));
}

#[test]
fn withdraw_checks_authority_and_balance() {
    let mut book = book_with_depth(BOOK_DEPTH);
    with_makers(&mut book, 1, 10, 10);
    assert_eq!(withdraw_balance(&mut book, &id(2), 0, 1, 1), Err(CLOBError::UnauthorizedMarketMaker));
    assert_eq!(withdraw_balance(&mut book, &id(1), 0, 5, 11), Err(CLOBError::InsufficientBalance));
    assert_eq!(balances(&book, 0), (10, 10));
}

#[test]
fn top_up_overflow_changes_nothing() {
    let mut book = book_with_depth(BOOK_DEPTH);
    with_makers(&mut book, 1, 10, 10);
    assert_eq!(top_up_balance(&mut book, 0, 1, u64::MAX), Err(CLOBError::ArithmeticOverflow));
    assert_eq!(balances(&book, 0), (10, 10));
}

#[test]
fn limit_then_cancel_restores_balance() {
    let mut book = book_with_depth(BOOK_DEPTH);
    with_makers(&mut book, 1, 50, 50);
    submit_limit_order(&mut book, &id(1), 0, Side::Sell, 5, 30, 1, 0).unwrap();
    let s = submit_limit_order(&mut book, &id(1), 0, Side::Sell, 20, 10, 2, 0).unwrap();
    assert_eq!(balances(&book, 0), (25, 50));
    assert_eq!(best_prices(&book, Side::Sell), vec![10, 30]);
    cancel_limit_order(&mut book, &id(1), 0, Side::Sell, s, 0).unwrap();
    assert_eq!(balances(&book, 0), (45, 50));
    assert_eq!(best_prices(&book, Side::Sell), vec![30]);
}

#[test]
fn cancel_refuses_foreign_or_empty_slots() {
    let mut book = book_with_depth(BOOK_DEPTH);
    with_makers(&mut book, 2, 50, 50);
    let s = submit_limit_order(&mut book, &id(1), 0, Side::Buy, 5, 30, 1, 0).unwrap();
    assert_eq!(cancel_limit_order(&mut book, &id(2), 0, Side::Buy, s, 0), Err(CLOBError::UnauthorizedMarketMaker));
    assert_eq!(cancel_limit_order(&mut book, &id(2), 0, Side::Buy, s, 1), Err(CLOBError::UnauthorizedMarketMaker));
    assert_eq!(cancel_limit_order(&mut book, &id(1), 0, Side::Buy, 9, 0), Err(CLOBError::UnauthorizedMarketMaker));
    assert_eq!(cancel_limit_order(&mut book, &id(1), 0, Side::Buy, 200, 0), Err(CLOBError::UnauthorizedMarketMaker));
    assert_eq!(best_prices(&book, Side::Buy), vec![30]);
}

#[test]
fn limit_order_errors() {
    let mut book = book_with_depth(BOOK_DEPTH);
    with_makers(&mut book, 1, 10, 10);
    assert_eq!(
        submit_limit_order(&mut book, &id(2), 0, Side::Buy, 1, 1, 1, 0),
        Err(CLOBError::UnauthorizedMarketMaker)
    );
    assert_eq!(submit_limit_order(&mut book, &id(1), 0, Side::Buy, 0, 1, 1, 0), Err(CLOBError::InvalidOrder));
    assert_eq!(submit_limit_order(&mut book, &id(1), 0, Side::Buy, 1, 0, 1, 0), Err(CLOBError::InvalidOrder));
    assert_eq!(
        submit_limit_order(&mut book, &id(1), 0, Side::Sell, 11, 1, 1, 0),
        Err(CLOBError::InsufficientBalance)
    );
    assert_eq!(balances(&book, 0), (10, 10));
}

#[test]
fn add_market_maker_refuses_taken_index() {
    let mut book = book_with_depth(BOOK_DEPTH);
    add_market_maker(&mut book, id(1), 3).unwrap();
    assert_eq!(add_market_maker(&mut book, id(2), 3), Err(CLOBError::IndexAlreadyTaken));
    assert!(book.market_makers[3].authority.same_as(&id(1)));
}

#[test]
fn maker_balances_lookup() {
    let mut book = book_with_depth(BOOK_DEPTH);
    with_makers(&mut book, 3, 4, 5);
    top_up_balance(&mut book, 2, 1, 1).unwrap();
    assert_eq!(
        get_market_maker_balances(&book, &id(3)),
        Ok(MarketMakerBalances { base_balance: 5, quote_balance: 6 })
    );
    assert_eq!(get_market_maker_balances(&book, &id(77)), Err(CLOBError::MakerNotFound));
}

#[test]
fn order_index_lookup() {
    let mut book = book_with_depth(BOOK_DEPTH);
    with_makers(&mut book, 2, 100, 100);
    submit_limit_order(&mut book, &id(1), 0, Side::Buy, 1, 10, 42, 0).unwrap();
    let s = submit_limit_order(&mut book, &id(2), 0, Side::Buy, 1, 20, 42, 1).unwrap();
    assert_eq!(get_order_index(&book, Side::Buy, 42, 1), Some(s));
    assert_eq!(get_order_index(&book, Side::Buy, 42, 0), Some(0));
    assert_eq!(get_order_index(&book, Side::Sell, 42, 0), None);
    assert_eq!(get_order_index(&book, Side::Buy, 43, 0), None);
}

#[test]
fn best_orders_are_capped_by_reply_size() {
    assert_eq!(max_returnable_orders(1024), 63);
    let mut book = book_with_depth(BOOK_DEPTH);
    with_makers(&mut book, 1, 0, 1000);
    for p in 1..=5u64 {
        submit_limit_order(&mut book, &id(1), 0, Side::Buy, p, p, p as u32, 0).unwrap();
    }
    let two = get_best_orders(&book, Side::Buy, 4 + 2 * 16);
    assert_eq!(two, vec![AmountAndPrice { amount: 5, price: 5 }, AmountAndPrice { amount: 4, price: 4 }]);
    assert_eq!(get_best_orders(&book, Side::Buy, 1024).len(), 5);
    assert!(get_best_orders(&book, Side::Buy, 4).is_empty());
}

#[test]
fn sweep_fees_empties_accumulators() {
    let mut book = one_sell();
    submit_take_order(&mut book, &fee_state(10), 0, Side::Buy, 1000, 0).unwrap();
    assert_eq!(sweep_fees(&mut book), (0, 1));
    assert_eq!(book.quote_fees_sweepable, 0);
    assert_eq!(sweep_fees(&mut book), (0, 0));
}

#[test]
fn opposite_side_accessors() {
    let mut book = one_sell();
    let (list, makers) = book.get_opposite_side(Side::Buy);
    assert_eq!(list.orders[0].amount_in, 1000);
    assert_eq!(makers.len(), 64);
    let buys = book.order_list(Side::Buy);
    assert!(buys.iter().next().is_none());
}

/// Base and quote the book owes: maker balances, resting orders, fees.
fn owed(book: &OrderBook) -> (u128, u128) {
    let mut base: u128 = book.base_fees_sweepable as u128;
    let mut quote: u128 = book.quote_fees_sweepable as u128;
    for m in book.market_makers.iter() {
        base += m.base_balance as u128;
        quote += m.quote_balance as u128;
    }
    for o in get_best_orders(book, Side::Sell, 1 << 20) {
        base += o.amount as u128;
    }
    for o in get_best_orders(book, Side::Buy, 1 << 20) {
        quote += o.amount as u128;
    }
    (base, quote)
}

#[test]
fn custody_totals_follow_vault_flows() {
    let mut book = book_with_depth(2);
    with_makers(&mut book, 3, 1000, 1000);
    assert_eq!(owed(&book), (3000, 3000));
    submit_limit_order(&mut book, &id(1), 0, Side::Sell, 100, 2 * E9, 1, 0).unwrap();
    submit_limit_order(&mut book, &id(2), 0, Side::Buy, 300, E9 / 2, 2, 1).unwrap();
    submit_limit_order(&mut book, &id(3), 0, Side::Buy, 50, E9 / 4, 3, 2).unwrap();
    // Evicts the worst buy and refunds it.
    submit_limit_order(&mut book, &id(1), 0, Side::Buy, 20, E9 / 3, 4, 0).unwrap();
    assert_eq!(owed(&book), (3000, 3000));
    // A buy taker brings 40 quote and leaves with what it bought.
    let out = submit_take_order(&mut book, &fee_state(10), 0, Side::Buy, 40, 0).unwrap();
    assert_eq!(out, 19);
    assert_eq!(owed(&book), (3000 - 19, 3000 + 40));
    cancel_limit_order(&mut book, &id(2), 0, Side::Buy, 0, 1).unwrap();
    assert_eq!(owed(&book), (3000 - 19, 3000 + 40));
    withdraw_balance(&mut book, &id(3), 2, 10, 20).unwrap();
    assert_eq!(owed(&book), (3000 - 29, 3000 + 20));
    let (base_fees, quote_fees) = sweep_fees(&mut book);
    assert_eq!((base_fees, quote_fees), (0, 1));
    assert_eq!(owed(&book), (3000 - 29, 3000 + 19));
}
