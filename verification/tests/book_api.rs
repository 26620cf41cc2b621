use orderbook::accounts::{AssetBalances, TraderAccount};
use orderbook::book::{quickstart_order_book, OrderBook};
use orderbook::level::LimitLevel;
use orderbook::order::{make_fill, Fill, Order, OrderRequest, OrderType, Taker, TickerSymbol};

fn request(order_type: OrderType, amount: i32, price: usize) -> OrderRequest {
    OrderRequest { amount, price, order_type, trader_id: 3, symbol: TickerSymbol::AAPL }
}

fn order(order_id: u128, amount: i32, price: usize, order_type: OrderType) -> Order {
    Order { order_id, trader_id: 4, symbol: TickerSymbol::AAPL, amount, price, order_type }
}

fn book_with(requests: &[OrderRequest]) -> (OrderBook, Vec<Option<u128>>) {
    let mut book = quickstart_order_book(TickerSymbol::AAPL, 5, 10);
    let mut ids = Vec::new();
    for request in requests {
        assert!(book.accepts(request));
        ids.push(book.handle_incoming_order_request(*request).0);
    }
    (book, ids)
}

#[test]
fn new_book_is_empty_over_its_range() {
    let book = quickstart_order_book(TickerSymbol::AAPL, 5, 10);
    assert_eq!(book.symbol(), TickerSymbol::AAPL);
    assert_eq!(book.min_price(), 5);
    assert_eq!(book.max_price(), 10);
    assert_eq!(book.best_bid(), None);
    assert_eq!(book.best_ask(), None);
    let state = book.book_state();
    assert_eq!(state.len(), 5);
    for (i, level) in state.iter().enumerate() {
        assert_eq!(level.price, 5 + i);
        assert_eq!(level.outstanding_buy_orders, 0);
        assert_eq!(level.outstanding_sell_orders, 0);
    }
}

#[test]
fn book_over_an_empty_range_has_no_level() {
    for (min_price, max_price) in [(7, 7), (9, 3)] {
        let mut book = quickstart_order_book(TickerSymbol::JNJ, min_price, max_price);
        assert_eq!(book.min_price(), min_price);
        assert_eq!(book.max_price(), min_price);
        assert!(book.book_state().is_empty());
        assert!(!book.accepts(&request(OrderType::Buy, 1, min_price)));
        assert!(book.orders_at(min_price, OrderType::Buy).is_empty());
        assert_eq!(book.remove_order_by_uuid(1, min_price, OrderType::Sell), None);
    }
}

#[test]
fn accepts_only_positive_amounts_at_prices_in_range() {
    let book = quickstart_order_book(TickerSymbol::AAPL, 5, 10);
    assert!(book.accepts(&request(OrderType::Buy, 1, 5)));
    assert!(book.accepts(&request(OrderType::Sell, i32::MAX, 9)));
    assert!(!book.accepts(&request(OrderType::Buy, 0, 7)));
    assert!(!book.accepts(&request(OrderType::Sell, -3, 7)));
    assert!(!book.accepts(&request(OrderType::Buy, 1, 4)));
    assert!(!book.accepts(&request(OrderType::Buy, 1, 10)));
    assert!(!book.accepts(&request(OrderType::Sell, 1, usize::MAX)));
}

#[test]
fn prices_are_levels_counted_from_the_lowest_price() {
    let (mut book, ids) = book_with(&[request(OrderType::Buy, 2, 7), request(OrderType::Sell, 3, 9)]);
    assert_eq!(book.orders_at(7, OrderType::Buy).len(), 1);
    assert_eq!(book.orders_at(7, OrderType::Buy)[0].price, 7);
    assert!(book.orders_at(7, OrderType::Sell).is_empty());
    assert_eq!(book.orders_at(9, OrderType::Sell)[0].amount, 3);
    assert!(book.orders_at(2, OrderType::Buy).is_empty());
    assert!(book.orders_at(4, OrderType::Buy).is_empty());
    assert!(book.orders_at(10, OrderType::Sell).is_empty());
    assert_eq!(book.best_bid(), Some(7));
    assert_eq!(book.best_ask(), Some(9));
    let state = book.book_state();
    assert_eq!((state[2].price, state[2].outstanding_buy_orders), (7, 2));
    assert_eq!((state[4].price, state[4].outstanding_sell_orders), (9, 3));
    let (id, fills) = book.handle_incoming_order_request(request(OrderType::Sell, 2, 5));
    assert_eq!(id, None);
    assert_eq!(fills.len(), 1);
    assert_eq!(fills[0].price, 7);
    assert_eq!(book.best_bid(), None);
    assert!(ids[0].is_some());
}

#[test]
fn cancel_of_an_unknown_order_changes_nothing() {
    let (mut book, ids) = book_with(&[request(OrderType::Buy, 2, 7)]);
    let id = ids[0].unwrap();
    let before = book.book_state();
    assert_eq!(book.remove_order_by_uuid(id ^ 1, 7, OrderType::Buy), None);
    assert_eq!(book.remove_order_by_uuid(id, 6, OrderType::Buy), None);
    assert_eq!(book.remove_order_by_uuid(id, 7, OrderType::Sell), None);
    assert_eq!(book.remove_order_by_uuid(id, 4, OrderType::Buy), None);
    assert_eq!(book.remove_order_by_uuid(id, 10, OrderType::Buy), None);
    assert_eq!(book.remove_order_by_uuid(id, usize::MAX, OrderType::Buy), None);
    assert_eq!(book.book_state(), before);
    assert_eq!(book.best_bid(), Some(7));
    assert_eq!(book.orders_at(7, OrderType::Buy)[0].order_id, id);
}

#[test]
fn cancel_from_the_middle_keeps_the_others_in_order() {
    let (mut book, ids) = book_with(&[
        request(OrderType::Sell, 1, 8),
        request(OrderType::Sell, 2, 8),
        request(OrderType::Sell, 3, 8),
    ]);
    let cancelled = book.remove_order_by_uuid(ids[1].unwrap(), 8, OrderType::Sell).unwrap();
    assert_eq!(cancelled.amount, 2);
    assert_eq!(cancelled.price, 8);
    assert_eq!(cancelled.order_type, OrderType::Sell);
    assert_eq!(cancelled.trader_id, 3);
    let resting = book.orders_at(8, OrderType::Sell);
    assert_eq!(resting.len(), 2);
    assert_eq!((resting[0].order_id, resting[0].amount), (ids[0].unwrap(), 1));
    assert_eq!((resting[1].order_id, resting[1].amount), (ids[2].unwrap(), 3));
    assert_eq!(book.best_ask(), Some(8));
}

#[test]
fn cancel_of_the_best_bid_moves_the_best_bid_down() {
    let (mut book, ids) = book_with(&[
        request(OrderType::Buy, 1, 5),
        request(OrderType::Buy, 1, 8),
        request(OrderType::Buy, 1, 6),
    ]);
    assert_eq!(book.best_bid(), Some(8));
    assert!(book.remove_order_by_uuid(ids[2].unwrap(), 6, OrderType::Buy).is_some());
    assert_eq!(book.best_bid(), Some(8));
    assert!(book.remove_order_by_uuid(ids[1].unwrap(), 8, OrderType::Buy).is_some());
    assert_eq!(book.best_bid(), Some(5));
    assert!(book.remove_order_by_uuid(ids[0].unwrap(), 5, OrderType::Buy).is_some());
    assert_eq!(book.best_bid(), None);
}

#[test]
fn cancel_of_the_best_ask_moves_the_best_ask_up() {
    let (mut book, ids) = book_with(&[
        request(OrderType::Sell, 1, 9),
        request(OrderType::Sell, 1, 6),
        request(OrderType::Sell, 2, 6),
        request(OrderType::Sell, 1, 7),
    ]);
    assert_eq!(book.best_ask(), Some(6));
    assert!(book.remove_order_by_uuid(ids[1].unwrap(), 6, OrderType::Sell).is_some());
    assert_eq!(book.best_ask(), Some(6));
    assert!(book.remove_order_by_uuid(ids[2].unwrap(), 6, OrderType::Sell).is_some());
    assert_eq!(book.best_ask(), Some(7));
    assert!(book.remove_order_by_uuid(ids[3].unwrap(), 7, OrderType::Sell).is_some());
    assert_eq!(book.best_ask(), Some(9));
    assert!(book.remove_order_by_uuid(ids[0].unwrap(), 9, OrderType::Sell).is_some());
    assert_eq!(book.best_ask(), None);
}

#[test]
fn fresh_identities_are_random_uuids_and_differ() {
    let (_, ids) = book_with(&[
        request(OrderType::Buy, 1, 5),
        request(OrderType::Buy, 1, 5),
        request(OrderType::Sell, 1, 9),
    ]);
    let ids: Vec<u128> = ids.into_iter().map(|id| id.unwrap()).collect();
    for id in &ids {
        assert_eq!(
            id & 0x0000_0000_0000_f000_c000_0000_0000_0000,
            0x0000_0000_0000_4000_8000_0000_0000_0000
        );
        let uuid = uuid::Uuid::from_u128(*id);
        assert_eq!(uuid.get_version_num(), 4);
        assert_eq!(uuid.as_u128(), *id);
    }
    assert_ne!(ids[0], ids[1]);
    assert_ne!(ids[0], ids[2]);
    assert_ne!(ids[1], ids[2]);
}

#[test]
fn fill_names_the_seller_and_the_buyer_by_the_side_of_the_taker() {
    let resting = order(1, 9, 6, OrderType::Buy);
    let seller = Taker { side: OrderType::Sell, trader_id: 8, symbol: TickerSymbol::JNJ };
    assert_eq!(
        make_fill(seller, &resting, 5),
        Fill { sell_trader_id: 8, buy_trader_id: 4, amount: 5, price: 6, symbol: TickerSymbol::JNJ, trade_time: 1 }
    );
    let resting = order(1, 9, 6, OrderType::Sell);
    let buyer = Taker { side: OrderType::Buy, trader_id: 8, symbol: TickerSymbol::AAPL };
    assert_eq!(
        make_fill(buyer, &resting, 9),
        Fill { sell_trader_id: 4, buy_trader_id: 8, amount: 9, price: 6, symbol: TickerSymbol::AAPL, trade_time: 1 }
    );
}

#[test]
fn level_queue_is_first_in_first_out() {
    let mut level = LimitLevel { price: 6, orders: Vec::new() };
    assert!(level.is_empty());
    assert_eq!(level.front(), None);
    assert_eq!(level.outstanding(), 0);
    level.insert(order(1, 4, 6, OrderType::Buy));
    level.insert(order(2, 6, 6, OrderType::Buy));
    level.insert(order(3, 5, 6, OrderType::Buy));
    assert!(!level.is_empty());
    assert_eq!(level.front(), Some(&order(1, 4, 6, OrderType::Buy)));
    assert_eq!(level.outstanding(), 15);
    assert_eq!(level.remove_at(1), order(2, 6, 6, OrderType::Buy));
    assert_eq!(level.orders, vec![order(1, 4, 6, OrderType::Buy), order(3, 5, 6, OrderType::Buy)]);
    assert_eq!(level.price, 6);
}

#[test]
fn level_match_serves_the_front_first_and_leaves_the_rest() {
    let taker = Taker { side: OrderType::Sell, trader_id: 8, symbol: TickerSymbol::AAPL };
    let mut level = LimitLevel {
        price: 6,
        orders: vec![order(1, 4, 6, OrderType::Buy), order(2, 6, 6, OrderType::Buy), order(3, 5, 6, OrderType::Buy)],
    };
    let mut fills = vec![make_fill(taker, &order(9, 1, 7, OrderType::Buy), 1)];
    let rest = level.match_level(taker, 7, &mut fills);
    assert_eq!(rest, 0);
    assert_eq!(fills.len(), 3);
    assert_eq!((fills[0].amount, fills[0].price), (1, 7));
    assert_eq!((fills[1].amount, fills[1].price), (4, 6));
    assert_eq!((fills[2].amount, fills[2].price), (3, 6));
    assert_eq!(level.orders, vec![order(2, 3, 6, OrderType::Buy), order(3, 5, 6, OrderType::Buy)]);
    let rest = level.match_level(taker, 0, &mut fills);
    assert_eq!(rest, 0);
    assert_eq!(fills.len(), 3);
    assert_eq!(level.outstanding(), 8);
    let rest = level.match_level(taker, 20, &mut fills);
    assert_eq!(rest, 12);
    assert_eq!(fills.len(), 5);
    assert_eq!((fills[3].amount, fills[4].amount), (3, 5));
    assert!(level.is_empty());
    let rest = level.match_level(taker, 2, &mut fills);
    assert_eq!(rest, 2);
    assert_eq!(fills.len(), 5);
}

#[test]
fn level_total_can_exceed_what_one_order_holds() {
    let mut level = LimitLevel { price: 1, orders: Vec::new() };
    for id in 0..3 {
        level.insert(order(id, i32::MAX, 1, OrderType::Sell));
    }
    assert_eq!(level.outstanding(), 3 * (i32::MAX as u128));
}

#[test]
fn asset_balances_start_at_zero_and_are_kept_per_symbol() {
    let balances = AssetBalances::new();
    assert_eq!(*balances.index_ref(&TickerSymbol::AAPL), 0);
    assert_eq!(*balances.index_ref(&TickerSymbol::JNJ), 0);
    let account = TraderAccount {
        trader_id: 2,
        cents_balance: 1_000,
        asset_balances: AssetBalances { aapl: 3, jnj: 4 },
        outstanding_order_balances: AssetBalances::new(),
    };
    assert_eq!(*account.asset_balances.index_ref(&TickerSymbol::AAPL), 3);
    assert_eq!(*account.asset_balances.index_ref(&TickerSymbol::JNJ), 4);
    assert_eq!(*account.outstanding_order_balances.index_ref(&TickerSymbol::JNJ), 0);
    assert_eq!(account.trader_id, 2);
    assert_eq!(account.cents_balance, 1_000);
}
