use orderbook::book::Side;
use orderbook::messages::ToServer;
use orderbook::parse::try_parse_into_command;
use orderbook::price::Price;

fn price(m: i64, s: u32) -> Price {
    Price::new(m, s).unwrap()
}

#[test]
fn parses_the_documented_commands() {
    assert_eq!(
        try_parse_into_command(b"Ask -p 10 -q 2"),
        Some(ToServer::PlaceOrder(Side::Ask, price(10, 0), 2))
    );
    assert_eq!(
        try_parse_into_command(b"Bid -p 9.9 -q 3"),
        Some(ToServer::PlaceOrder(Side::Bid, price(99, 1), 3))
    );
    assert_eq!(
        try_parse_into_command(b"Depth -s Ask"),
        Some(ToServer::GetBookDepth(Side::Ask))
    );
    assert_eq!(
        try_parse_into_command(b"Top -s Ask"),
        Some(ToServer::GetTopOfBook(Side::Ask))
    );
    assert_eq!(
        try_parse_into_command(b"Size -s Ask -p 12.2"),
        Some(ToServer::GetSizeForPriceLevel(Side::Ask, price(122, 1)))
    );
}

#[test]
fn verbs_and_sides_ignore_letter_case_and_accept_short_forms() {
    assert_eq!(
        try_parse_into_command(b"b -p 1 -q 1"),
        Some(ToServer::PlaceOrder(Side::Bid, price(1, 0), 1))
    );
    assert_eq!(
        try_parse_into_command(b"A -p 2 -q 1"),
        Some(ToServer::PlaceOrder(Side::Ask, price(2, 0), 1))
    );
    assert_eq!(try_parse_into_command(b"depth -s b"), Some(ToServer::GetBookDepth(Side::Bid)));
    assert_eq!(try_parse_into_command(b"TOP -s BID"), Some(ToServer::GetTopOfBook(Side::Bid)));
}

#[test]
fn negative_and_spaced_inputs() {
    assert_eq!(
        try_parse_into_command(b"Bid  -p  -2.5  -q  3"),
        Some(ToServer::PlaceOrder(Side::Bid, Price::new(-25, 1).unwrap(), 3))
    );
}

#[test]
fn rejects_what_is_not_in_the_grammar() {
    assert_eq!(try_parse_into_command(b""), None);
    assert_eq!(try_parse_into_command(b"loco"), None);
    assert_eq!(try_parse_into_command(b"Ask -p ten -q 2"), None);
    assert_eq!(try_parse_into_command(b"Ask -p 10"), None);
    assert_eq!(try_parse_into_command(b"Ask -q 2 -p 10"), None);
    assert_eq!(try_parse_into_command(b"Depth -s sideways"), None);
    assert_eq!(try_parse_into_command(b"Size -s Ask"), None);
    assert_eq!(try_parse_into_command(b"Bid -p 1.2.3 -q 1"), None);
    assert_eq!(try_parse_into_command(b"Bid -p . -q 1"), None);
    assert_eq!(try_parse_into_command(b"Bid -p 5. -q 1"), None);
    // Nineteen fractional digits is finer than the price grid.
    assert_eq!(try_parse_into_command(b"Bid -p 1.1234567890123456789 -q 1"), None);
    // A quantity beyond 64 bits is refused.
    assert_eq!(try_parse_into_command(b"Bid -p 1 -q 99999999999999999999999"), None);
}

#[test]
fn price_construction_and_ordering() {
    assert!(Price::new(12, 19).is_none());
    assert_eq!(Price::new(10, 0), Price::new(100, 1));
    assert_eq!(Price::new(1, 0).unwrap().units(), 1_000_000_000_000_000_000);
    assert!(Price::new(95, 1).unwrap().lt(&Price::new(10, 0).unwrap()));
    assert!(Price::new(-1, 0).unwrap().lt(&Price::new(0, 18).unwrap()));
    assert_eq!(Price::from_units(42).units(), 42);
}
