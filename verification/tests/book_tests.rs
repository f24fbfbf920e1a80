use orderbook::book::{EngineError, OrderBook, Side};
use orderbook::price::Price;

fn price(m: i64) -> Price {
    Price::new(m, 0).unwrap()
}

#[test]
fn add_new_order() {
    let mut order_book = OrderBook::default();
    order_book.on_new_order(Side::Ask, price(12), 5, 1).unwrap();
    assert_eq!(order_book.get_size_for_price_level(Side::Ask, price(12)).unwrap(), 5);
    assert_eq!(order_book.get_book_depth(Side::Ask), 1);
    assert_eq!(order_book.get_top_of_book(Side::Ask).unwrap(), price(12));

    order_book.on_new_order(Side::Bid, price(11), 3, 2).unwrap();
    assert_eq!(order_book.get_size_for_price_level(Side::Bid, price(11)).unwrap(), 3);
    assert_eq!(order_book.get_book_depth(Side::Bid), 1);
    assert_eq!(order_book.get_top_of_book(Side::Bid).unwrap(), price(11));
}

#[test]
fn trade() {
    let mut order_book = OrderBook::default();
    order_book.on_new_order(Side::Ask, price(12), 5, 1).unwrap();
    order_book.on_trade(4, 1).unwrap();
    assert_eq!(order_book.get_size_for_price_level(Side::Ask, price(12)).unwrap(), 1);
}

#[test]
#[should_panic]
fn trade_more_than_available() {
    let mut order_book = OrderBook::default();
    order_book.on_new_order(Side::Ask, price(12), 5, 1).unwrap();
    order_book.on_trade(6, 1).unwrap();
}

#[test]
fn replace_order() {
    let mut order_book = OrderBook::default();
    order_book.on_new_order(Side::Ask, price(12), 5, 1).unwrap();
    assert_eq!(order_book.get_size_for_price_level(Side::Ask, price(12)).unwrap(), 5);
    order_book.on_replace_order(price(12), 1, 1).unwrap();
    assert_eq!(order_book.get_size_for_price_level(Side::Ask, price(12)).unwrap(), 1);
}

#[test]
fn cancel_order() {
    let mut order_book = OrderBook::default();
    order_book.on_new_order(Side::Ask, price(12), 1, 1).unwrap();
    order_book.on_new_order(Side::Ask, price(12), 2, 2).unwrap();
    assert_eq!(order_book.get_size_for_price_level(Side::Ask, price(12)).unwrap(), 3);
    order_book.on_cancel_order(1).unwrap();
    assert_eq!(order_book.get_size_for_price_level(Side::Ask, price(12)).unwrap(), 2);
}

#[test]
#[should_panic]
fn test_invalid_cancel_twice() {
    let mut order_book = OrderBook::default();
    order_book.on_new_order(Side::Ask, price(12), 5, 1).unwrap();
    order_book.on_cancel_order(1).unwrap();
    order_book.on_cancel_order(1).unwrap();
}

#[test]
fn overtrade_is_reported_and_changes_nothing() {
    let mut book = OrderBook::default();
    book.on_new_order(Side::Ask, price(12), 5, 1).unwrap();
    book.on_trade(4, 1).unwrap();
    assert_eq!(book.get_size_for_price_level(Side::Ask, price(12)).unwrap(), 1);
    assert_eq!(book.on_trade(6, 1), Err(EngineError::OvertradeError));
    assert_eq!(book.get_size_for_price_level(Side::Ask, price(12)).unwrap(), 1);
}

#[test]
fn full_trade_removes_order_and_level() {
    let mut book = OrderBook::default();
    book.on_new_order(Side::Ask, price(12), 5, 1).unwrap();
    book.on_trade(5, 1).unwrap();
    assert_eq!(
        book.get_size_for_price_level(Side::Ask, price(12)),
        Err(EngineError::NoSuchPriceLevel)
    );
    assert_eq!(book.get_book_depth(Side::Ask), 0);
    assert_eq!(book.on_cancel_order(1), Err(EngineError::UnknownOrderId));
}

#[test]
fn cancel_after_cancel_is_reported() {
    let mut book = OrderBook::default();
    book.on_new_order(Side::Ask, price(12), 1, 1).unwrap();
    book.on_new_order(Side::Ask, price(12), 2, 2).unwrap();
    assert_eq!(book.get_size_for_price_level(Side::Ask, price(12)).unwrap(), 3);
    book.on_cancel_order(1).unwrap();
    assert_eq!(book.get_size_for_price_level(Side::Ask, price(12)).unwrap(), 2);
    assert_eq!(book.on_cancel_order(1), Err(EngineError::UnknownOrderId));
}

#[test]
fn duplicate_order_id_is_reported() {
    let mut book = OrderBook::default();
    book.on_new_order(Side::Ask, price(12), 5, 1).unwrap();
    assert_eq!(
        book.on_new_order(Side::Bid, price(11), 2, 1),
        Err(EngineError::DuplicateOrderId)
    );
    assert_eq!(book.get_size_for_price_level(Side::Ask, price(12)).unwrap(), 5);
}

#[test]
fn top_of_book_on_empty_side_is_reported() {
    let book = OrderBook::default();
    assert_eq!(book.get_top_of_book(Side::Ask), Err(EngineError::EmptyBook));
    assert_eq!(book.get_top_of_book(Side::Bid), Err(EngineError::EmptyBook));
}

#[test]
fn unknown_order_trade_and_replace_are_reported() {
    let mut book = OrderBook::default();
    assert_eq!(book.on_trade(1, 7), Err(EngineError::UnknownOrderId));
    assert_eq!(book.on_replace_order(price(10), 1, 7), Err(EngineError::UnknownOrderId));
}

#[test]
fn replace_moves_the_level() {
    let mut book = OrderBook::default();
    book.on_new_order(Side::Ask, price(12), 5, 1).unwrap();
    book.on_new_order(Side::Ask, price(13), 2, 2).unwrap();
    book.on_replace_order(price(14), 4, 1).unwrap();
    assert_eq!(
        book.get_size_for_price_level(Side::Ask, price(12)),
        Err(EngineError::NoSuchPriceLevel)
    );
    assert_eq!(book.get_size_for_price_level(Side::Ask, price(14)).unwrap(), 4);
    assert_eq!(book.get_book_depth(Side::Ask), 2);
    assert_eq!(book.get_top_of_book(Side::Ask).unwrap(), price(13));
}

#[test]
fn place_then_cancel_restores_the_book() {
    let mut book = OrderBook::default();
    book.on_new_order(Side::Bid, price(10), 5, 1).unwrap();
    book.on_new_order(Side::Bid, price(9), 2, 2).unwrap();
    book.on_new_order(Side::Bid, price(10), 3, 3).unwrap();
    book.on_cancel_order(3).unwrap();
    assert_eq!(book.get_size_for_price_level(Side::Bid, price(10)).unwrap(), 5);
    assert_eq!(book.get_size_for_price_level(Side::Bid, price(9)).unwrap(), 2);
    assert_eq!(book.get_book_depth(Side::Bid), 2);
    assert_eq!(book.get_top_of_book(Side::Bid).unwrap(), price(10));
}

#[test]
fn best_prices_converge() {
    let mut book = OrderBook::default();
    book.on_new_order(Side::Bid, price(9), 1, 1).unwrap();
    book.on_new_order(Side::Bid, price(11), 1, 2).unwrap();
    book.on_new_order(Side::Bid, price(10), 1, 3).unwrap();
    book.on_new_order(Side::Ask, price(14), 1, 4).unwrap();
    book.on_new_order(Side::Ask, price(12), 1, 5).unwrap();
    book.on_new_order(Side::Ask, price(13), 1, 6).unwrap();
    assert_eq!(book.get_top_of_book(Side::Bid).unwrap(), price(11));
    assert_eq!(book.get_top_of_book(Side::Ask).unwrap(), price(12));
}

#[test]
fn equal_prices_in_different_spellings_share_a_level() {
    let mut book = OrderBook::default();
    // 10 and 10.0 are one value, so one price level.
    book.on_new_order(Side::Ask, Price::new(10, 0).unwrap(), 4, 1).unwrap();
    book.on_new_order(Side::Ask, Price::new(100, 1).unwrap(), 6, 2).unwrap();
    assert_eq!(book.get_book_depth(Side::Ask), 1);
    assert_eq!(
        book.get_size_for_price_level(Side::Ask, Price::new(1000, 2).unwrap()).unwrap(),
        10
    );
}
