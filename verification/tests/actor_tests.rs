use orderbook::book::{EngineError, Side};
use orderbook::manager::OrderManager;
use orderbook::messages::{ToClient, ToOrderManager, ToServer};
use orderbook::price::Price;
use orderbook::session::ClientSession;

fn price(m: i64) -> Price {
    Price::new(m, 0).unwrap()
}

#[test]
fn broadcast_reaches_every_client_and_disconnect_cleans_up() {
    let mut m = OrderManager::new();

    let out = m.handle(ToOrderManager::ClientConnected);
    assert_eq!(out, vec![(0, ToClient::Connected(0))]);
    let out = m.handle(ToOrderManager::ClientConnected);
    assert_eq!(out, vec![(1, ToClient::Connected(1))]);

    // Client 0 places a bid; both clients hear the new aggregate.
    let out = m.handle(ToOrderManager::PlaceOrder(0, Side::Bid, price(10), 7));
    assert_eq!(
        out,
        vec![
            (0, ToClient::LatestDepth(Side::Bid, 7, price(10))),
            (1, ToClient::LatestDepth(Side::Bid, 7, price(10))),
        ]
    );

    let out = m.handle(ToOrderManager::GetOrderDepth(1, Side::Bid));
    assert_eq!(out, vec![(1, ToClient::BookDepth(Side::Bid, 1))]);

    // Client 0 goes away: its orders are cancelled, client 1 sees that.
    let out = m.handle(ToOrderManager::ClientDisconnected(0));
    assert!(out.is_empty());
    let out = m.handle(ToOrderManager::GetOrderDepth(1, Side::Bid));
    assert_eq!(out, vec![(1, ToClient::BookDepth(Side::Bid, 0))]);

    // The departed client is not answered any more.
    let out = m.handle(ToOrderManager::GetOrderDepth(0, Side::Bid));
    assert!(out.is_empty());
}

#[test]
fn queries_answer_privately_with_typed_errors() {
    let mut m = OrderManager::new();
    m.handle(ToOrderManager::ClientConnected);

    let out = m.handle(ToOrderManager::GetTopOfBook(0, Side::Ask));
    assert_eq!(out, vec![(0, ToClient::QueryError(EngineError::EmptyBook))]);

    let out = m.handle(ToOrderManager::GetSizeForPriceLevel(0, Side::Ask, price(5)));
    assert_eq!(out, vec![(0, ToClient::QueryError(EngineError::NoSuchPriceLevel))]);

    m.handle(ToOrderManager::PlaceOrder(0, Side::Ask, price(12), 5));
    let out = m.handle(ToOrderManager::GetTopOfBook(0, Side::Ask));
    assert_eq!(out, vec![(0, ToClient::TopOfBook(Side::Ask, price(12)))]);
    let out = m.handle(ToOrderManager::GetSizeForPriceLevel(0, Side::Ask, price(12)));
    assert_eq!(out, vec![(0, ToClient::SizeForPriceLevel(Side::Ask, 5))]);
}

#[test]
fn order_ids_are_never_reused() {
    let mut m = OrderManager::new();
    m.handle(ToOrderManager::ClientConnected);
    m.handle(ToOrderManager::PlaceOrder(0, Side::Bid, price(10), 1));
    m.handle(ToOrderManager::ClientDisconnected(0));
    // A fresh client's placement gets a fresh id, so both ledger entries
    // stay distinguishable across the whole run.
    m.handle(ToOrderManager::ClientConnected);
    let out = m.handle(ToOrderManager::PlaceOrder(1, Side::Bid, price(10), 2));
    assert_eq!(out, vec![(1, ToClient::LatestDepth(Side::Bid, 2, price(10)))]);
    assert_eq!(m.order_counter(), 2);
    assert_eq!(m.client_counter(), 2);
}

#[test]
fn session_forwards_only_once_connected() {
    let mut s = ClientSession::new();
    assert_eq!(s.on_inbound(ToServer::GetBookDepth(Side::Ask)), None);

    s.on_outbound(&ToClient::Connected(3));
    assert_eq!(
        s.on_inbound(ToServer::GetBookDepth(Side::Ask)),
        Some(ToOrderManager::GetOrderDepth(3, Side::Ask))
    );
    assert_eq!(
        s.on_inbound(ToServer::PlaceOrder(Side::Bid, price(9), 4)),
        Some(ToOrderManager::PlaceOrder(3, Side::Bid, price(9), 4))
    );
    assert_eq!(
        s.on_inbound(ToServer::GetTopOfBook(Side::Bid)),
        Some(ToOrderManager::GetTopOfBook(3, Side::Bid))
    );
    assert_eq!(
        s.on_inbound(ToServer::GetSizeForPriceLevel(Side::Ask, price(9))),
        Some(ToOrderManager::GetSizeForPriceLevel(3, Side::Ask, price(9)))
    );

    // Other outbound traffic does not disturb the identity.
    s.on_outbound(&ToClient::BookDepth(Side::Ask, 0));
    assert_eq!(
        s.on_inbound(ToServer::GetBookDepth(Side::Bid)),
        Some(ToOrderManager::GetOrderDepth(3, Side::Bid))
    );
}
