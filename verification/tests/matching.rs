use orderbook::book::{quickstart_order_book, LevelState, OrderBook};
use orderbook::order::{Fill, OrderRequest, OrderType, TickerSymbol};

fn buy(amount: i32, price: usize, trader_id: u8) -> OrderRequest {
    OrderRequest { amount, price, order_type: OrderType::Buy, trader_id, symbol: TickerSymbol::AAPL }
}

fn sell(amount: i32, price: usize, trader_id: u8) -> OrderRequest {
    OrderRequest { amount, price, order_type: OrderType::Sell, trader_id, symbol: TickerSymbol::AAPL }
}

fn submit(book: &mut OrderBook, request: OrderRequest) -> (Option<u128>, Vec<Fill>) {
    assert!(book.accepts(&request));
    book.handle_incoming_order_request(request)
}

fn amounts_and_prices(fills: &[Fill]) -> Vec<(i32, usize)> {
    fills.iter().map(|fill| (fill.amount, fill.price)).collect()
}

#[test]
fn higher_bid_is_hit_before_older_lower_bid() {
    let mut book = quickstart_order_book(TickerSymbol::AAPL, 0, 11);
    submit(&mut book, buy(4, 5, 1));
    submit(&mut book, buy(3, 7, 2));
    let (id, fills) = submit(&mut book, sell(6, 5, 9));
    assert_eq!(id, None);
    assert_eq!(amounts_and_prices(&fills), vec![(3, 7), (3, 5)]);
    assert_eq!(fills[0].buy_trader_id, 2);
    assert_eq!(fills[1].buy_trader_id, 1);
    assert!(book.orders_at(7, OrderType::Buy).is_empty());
    assert_eq!(book.orders_at(5, OrderType::Buy)[0].amount, 1);
    assert_eq!(book.best_bid(), Some(5));
}

#[test]
fn lower_ask_is_hit_before_older_higher_ask() {
    let mut book = quickstart_order_book(TickerSymbol::AAPL, 0, 11);
    submit(&mut book, sell(4, 6, 1));
    submit(&mut book, sell(3, 4, 2));
    let (id, fills) = submit(&mut book, buy(5, 6, 9));
    assert_eq!(id, None);
    assert_eq!(amounts_and_prices(&fills), vec![(3, 4), (2, 6)]);
    assert_eq!(fills[0].sell_trader_id, 2);
    assert_eq!(fills[1].sell_trader_id, 1);
    assert_eq!(fills[0].buy_trader_id, 9);
    assert!(book.orders_at(4, OrderType::Sell).is_empty());
    assert_eq!(book.orders_at(6, OrderType::Sell)[0].amount, 2);
    assert_eq!(book.best_ask(), Some(6));
}

#[test]
fn worse_level_is_untouched_while_better_level_lasts() {
    let mut book = quickstart_order_book(TickerSymbol::AAPL, 0, 11);
    submit(&mut book, buy(4, 5, 1));
    submit(&mut book, buy(3, 7, 2));
    let (_, fills) = submit(&mut book, sell(2, 5, 9));
    assert_eq!(amounts_and_prices(&fills), vec![(2, 7)]);
    assert_eq!(book.orders_at(7, OrderType::Buy)[0].amount, 1);
    assert_eq!(book.orders_at(5, OrderType::Buy)[0].amount, 4);
    assert_eq!(book.best_bid(), Some(7));
}

#[test]
fn bids_below_the_limit_are_not_hit() {
    let mut book = quickstart_order_book(TickerSymbol::AAPL, 0, 11);
    submit(&mut book, buy(4, 5, 1));
    submit(&mut book, buy(3, 7, 2));
    let (id, fills) = submit(&mut book, sell(10, 6, 9));
    assert_eq!(amounts_and_prices(&fills), vec![(3, 7)]);
    let resting = book.orders_at(6, OrderType::Sell);
    assert_eq!(resting.len(), 1);
    assert_eq!(resting[0].amount, 7);
    assert_eq!(Some(resting[0].order_id), id);
    assert_eq!(book.best_bid(), Some(5));
    assert_eq!(book.best_ask(), Some(6));
}

#[test]
fn asks_above_the_limit_are_not_hit() {
    let mut book = quickstart_order_book(TickerSymbol::AAPL, 0, 11);
    submit(&mut book, sell(4, 8, 1));
    submit(&mut book, sell(3, 6, 2));
    let (id, fills) = submit(&mut book, buy(10, 7, 9));
    assert_eq!(amounts_and_prices(&fills), vec![(3, 6)]);
    let resting = book.orders_at(7, OrderType::Buy);
    assert_eq!(resting.len(), 1);
    assert_eq!(resting[0].amount, 7);
    assert_eq!(Some(resting[0].order_id), id);
    assert_eq!(book.best_bid(), Some(7));
    assert_eq!(book.best_ask(), Some(8));
}

#[test]
fn asks_at_one_price_fill_in_arrival_order() {
    let mut book = quickstart_order_book(TickerSymbol::AAPL, 0, 11);
    let (a, _) = submit(&mut book, sell(2, 6, 1));
    let (b, _) = submit(&mut book, sell(2, 6, 2));
    let (c, _) = submit(&mut book, sell(2, 6, 3));
    let (_, fills) = submit(&mut book, buy(3, 6, 9));
    assert_eq!(fills.len(), 2);
    assert_eq!((fills[0].sell_trader_id, fills[0].amount), (1, 2));
    assert_eq!((fills[1].sell_trader_id, fills[1].amount), (2, 1));
    let resting = book.orders_at(6, OrderType::Sell);
    assert_eq!(resting.len(), 2);
    assert_eq!((resting[0].order_id, resting[0].amount), (b.unwrap(), 1));
    assert_eq!((resting[1].order_id, resting[1].amount), (c.unwrap(), 2));
    assert_eq!(book.remove_order_by_uuid(a.unwrap(), 6, OrderType::Sell), None);
}

#[test]
fn request_at_the_opposing_best_price_trades_before_it_rests() {
    let mut book = quickstart_order_book(TickerSymbol::AAPL, 0, 11);
    submit(&mut book, sell(3, 6, 1));
    let (id, fills) = submit(&mut book, buy(5, 6, 2));
    assert_eq!(amounts_and_prices(&fills), vec![(3, 6)]);
    assert!(id.is_some());
    assert!(book.orders_at(6, OrderType::Sell).is_empty());
    assert_eq!(book.orders_at(6, OrderType::Buy)[0].amount, 2);
    assert_eq!(book.best_bid(), Some(6));
    assert_eq!(book.best_ask(), None);
}

#[test]
fn request_that_crosses_nothing_rests_in_full() {
    let mut book = quickstart_order_book(TickerSymbol::AAPL, 0, 11);
    submit(&mut book, buy(3, 4, 1));
    let (id, fills) = submit(&mut book, sell(5, 5, 2));
    assert!(fills.is_empty());
    assert_eq!(book.orders_at(5, OrderType::Sell)[0].amount, 5);
    assert_eq!(book.orders_at(5, OrderType::Sell)[0].order_id, id.unwrap());
    assert_eq!(book.orders_at(4, OrderType::Buy)[0].amount, 3);
    assert_eq!(book.best_bid(), Some(4));
    assert_eq!(book.best_ask(), Some(5));
}

#[test]
fn amount_that_exactly_exhausts_a_level_moves_the_best_price() {
    let mut book = quickstart_order_book(TickerSymbol::AAPL, 0, 11);
    submit(&mut book, sell(2, 3, 1));
    submit(&mut book, sell(1, 3, 2));
    submit(&mut book, sell(4, 9, 3));
    let (id, fills) = submit(&mut book, buy(3, 5, 9));
    assert_eq!(id, None);
    assert_eq!(amounts_and_prices(&fills), vec![(2, 3), (1, 3)]);
    assert!(book.orders_at(3, OrderType::Sell).is_empty());
    assert!(book.orders_at(5, OrderType::Buy).is_empty());
    assert_eq!(book.best_ask(), Some(9));
    assert_eq!(book.best_bid(), None);
}

#[test]
fn sweep_over_several_levels_then_rest() {
    let mut book = quickstart_order_book(TickerSymbol::AAPL, 0, 11);
    submit(&mut book, buy(1, 10, 1));
    submit(&mut book, buy(2, 8, 2));
    submit(&mut book, buy(3, 8, 3));
    submit(&mut book, buy(4, 0, 4));
    let (id, fills) = submit(&mut book, sell(9, 1, 9));
    assert_eq!(amounts_and_prices(&fills), vec![(1, 10), (2, 8), (3, 8)]);
    assert_eq!(fills.iter().map(|fill| fill.buy_trader_id).collect::<Vec<u8>>(), vec![1, 2, 3]);
    assert_eq!(book.orders_at(1, OrderType::Sell)[0].amount, 3);
    assert_eq!(book.orders_at(1, OrderType::Sell)[0].order_id, id.unwrap());
    assert_eq!(book.best_bid(), Some(0));
    assert_eq!(book.best_ask(), Some(1));
}

#[test]
fn sell_at_the_lowest_price_sweeps_every_bid() {
    let mut book = quickstart_order_book(TickerSymbol::AAPL, 0, 4);
    submit(&mut book, buy(1, 0, 1));
    submit(&mut book, buy(1, 3, 2));
    let (id, fills) = submit(&mut book, sell(2, 0, 9));
    assert_eq!(id, None);
    assert_eq!(amounts_and_prices(&fills), vec![(1, 3), (1, 0)]);
    assert_eq!(book.best_bid(), None);
    assert_eq!(book.best_ask(), None);
}

#[test]
fn buy_at_the_highest_price_sweeps_every_ask() {
    let mut book = quickstart_order_book(TickerSymbol::AAPL, 0, 4);
    submit(&mut book, sell(1, 3, 1));
    submit(&mut book, sell(1, 0, 2));
    let (id, fills) = submit(&mut book, buy(3, 3, 9));
    assert_eq!(amounts_and_prices(&fills), vec![(1, 0), (1, 3)]);
    assert_eq!(book.orders_at(3, OrderType::Buy)[0].amount, 1);
    assert_eq!(book.orders_at(3, OrderType::Buy)[0].order_id, id.unwrap());
    assert_eq!(book.best_bid(), Some(3));
    assert_eq!(book.best_ask(), None);
}

#[test]
fn resting_order_is_paid_out_over_several_submissions() {
    let mut book = quickstart_order_book(TickerSymbol::AAPL, 0, 11);
    let (id, _) = submit(&mut book, buy(10, 5, 1));
    let mut traded = 0;
    let (_, fills) = submit(&mut book, sell(3, 5, 2));
    assert_eq!(amounts_and_prices(&fills), vec![(3, 5)]);
    traded += fills[0].amount;
    assert_eq!(book.orders_at(5, OrderType::Buy)[0].amount, 10 - traded);
    let (_, fills) = submit(&mut book, sell(4, 2, 3));
    assert_eq!(amounts_and_prices(&fills), vec![(4, 5)]);
    traded += fills[0].amount;
    assert_eq!(book.orders_at(5, OrderType::Buy)[0].amount, 10 - traded);
    assert_eq!(book.orders_at(5, OrderType::Buy)[0].order_id, id.unwrap());
    let (rest, fills) = submit(&mut book, sell(5, 5, 4));
    assert_eq!(amounts_and_prices(&fills), vec![(3, 5)]);
    traded += fills[0].amount;
    assert_eq!(traded, 10);
    assert!(book.orders_at(5, OrderType::Buy).is_empty());
    assert_eq!(book.orders_at(5, OrderType::Sell)[0].amount, 2);
    assert_eq!(book.orders_at(5, OrderType::Sell)[0].order_id, rest.unwrap());
}

#[test]
fn fill_carries_the_symbol_of_the_book_and_the_order_that_of_the_request() {
    let mut book = quickstart_order_book(TickerSymbol::JNJ, 0, 11);
    assert_eq!(book.symbol(), TickerSymbol::JNJ);
    submit(&mut book, buy(2, 5, 1));
    assert_eq!(book.orders_at(5, OrderType::Buy)[0].symbol, TickerSymbol::AAPL);
    let (_, fills) = submit(&mut book, sell(2, 5, 2));
    assert_eq!(
        fills,
        vec![Fill {
            sell_trader_id: 2,
            buy_trader_id: 1,
            amount: 2,
            price: 5,
            symbol: TickerSymbol::JNJ,
            trade_time: 1,
        }]
    );
}

#[test]
fn dispatch_agrees_with_the_routine_of_each_side() {
    let mut by_dispatch = quickstart_order_book(TickerSymbol::AAPL, 0, 11);
    let mut by_side = quickstart_order_book(TickerSymbol::AAPL, 0, 11);
    by_dispatch.handle_incoming_order_request(buy(5, 6, 1));
    by_side.handle_incoming_buy(buy(5, 6, 1));
    let (a, fills_a) = by_dispatch.handle_incoming_order_request(sell(7, 4, 2));
    let (b, fills_b) = by_side.handle_incoming_sell(sell(7, 4, 2));
    assert_eq!(fills_a, fills_b);
    assert_eq!(a.is_some(), b.is_some());
    assert_eq!(by_dispatch.book_state(), by_side.book_state());
    assert_eq!(by_dispatch.best_bid(), by_side.best_bid());
    assert_eq!(by_dispatch.best_ask(), by_side.best_ask());
    assert_eq!(by_dispatch.best_ask(), Some(4));
}

#[test]
fn book_state_gives_the_total_on_each_side_of_each_price() {
    let mut book = quickstart_order_book(TickerSymbol::AAPL, 2, 6);
    submit(&mut book, buy(4, 3, 1));
    submit(&mut book, buy(6, 3, 2));
    submit(&mut book, buy(1, 2, 3));
    submit(&mut book, sell(7, 5, 4));
    submit(&mut book, sell(2, 5, 5));
    let level = |price, sells, buys| LevelState {
        price,
        outstanding_sell_orders: sells,
        outstanding_buy_orders: buys,
    };
    assert_eq!(
        book.book_state(),
        vec![level(2, 0, 1), level(3, 0, 10), level(4, 0, 0), level(5, 9, 0)]
    );
}

fn next_random(state: &mut u64) -> u64 {
    *state = state.wrapping_mul(6364136223846793005).wrapping_add(1442695040888963407);
    *state >> 33
}

#[test]
fn invariants_hold_over_a_long_run_of_submissions_and_cancellations() {
    let mut book = quickstart_order_book(TickerSymbol::AAPL, 10, 30);
    let mut state: u64 = 7;
    let mut submitted: i64 = 0;
    let mut traded: i64 = 0;
    let mut cancelled: i64 = 0;
    let mut resting: Vec<(u128, usize, OrderType)> = Vec::new();
    for round in 0..2000 {
        if round % 7 == 6 && !resting.is_empty() {
            let pick = (next_random(&mut state) as usize) % resting.len();
            let (id, price, side) = resting.swap_remove(pick);
            if let Some(order) = book.remove_order_by_uuid(id, price, side) {
                assert_eq!(order.order_id, id);
                assert!(order.amount > 0);
                cancelled += order.amount as i64;
            }
        } else {
            let side = if next_random(&mut state) % 2 == 0 { OrderType::Buy } else { OrderType::Sell };
            let price = 10 + (next_random(&mut state) as usize) % 20;
            let amount = 1 + (next_random(&mut state) % 9) as i32;
            let request = OrderRequest { amount, price, order_type: side, trader_id: 1, symbol: TickerSymbol::AAPL };
            let (id, fills) = submit(&mut book, request);
            submitted += amount as i64;
            let filled: i64 = fills.iter().map(|fill| fill.amount as i64).sum();
            assert!(filled <= amount as i64);
            assert_eq!(id.is_some(), filled < amount as i64);
            for pair in fills.windows(2) {
                match side {
                    OrderType::Sell => assert!(pair[0].price >= pair[1].price),
                    OrderType::Buy => assert!(pair[0].price <= pair[1].price),
                }
            }
            for fill in &fills {
                assert!(fill.amount > 0);
                match side {
                    OrderType::Sell => assert!(fill.price >= price),
                    OrderType::Buy => assert!(fill.price <= price),
                }
            }
            traded += filled;
            if let Some(id) = id {
                resting.push((id, price, side));
            }
        }
        let snapshot = book.book_state();
        let highest_bid = snapshot.iter().filter(|level| level.outstanding_buy_orders > 0).map(|level| level.price).max();
        let lowest_ask = snapshot.iter().filter(|level| level.outstanding_sell_orders > 0).map(|level| level.price).min();
        assert_eq!(book.best_bid(), highest_bid);
        assert_eq!(book.best_ask(), lowest_ask);
        if let (Some(bid), Some(ask)) = (book.best_bid(), book.best_ask()) {
            assert!(bid < ask);
        }
        let outstanding: u128 = snapshot
            .iter()
            .map(|level| level.outstanding_buy_orders + level.outstanding_sell_orders)
            .sum();
        assert_eq!(outstanding as i64, submitted - 2 * traded - cancelled);
    }
    assert!(traded > 0);
    assert!(cancelled > 0);
}
