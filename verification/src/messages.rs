//! The message protocol: what a client sends to the server, what the
//! server sends back, and the events the order manager consumes.
//!
//! Prices travel as the library's exact [`Price`]; the byte-level encoding
//! of these messages onto a transport lives outside the library.

use vstd::prelude::*;
use crate::book::{EngineError, Quantity, Side};
use crate::price::Price;

verus! {

/// An identifier of one connected session, unique while the process runs.
pub type ClientId = u64;

/// What a client may ask of the server.
#[derive(Clone, Copy, Debug, PartialEq, Eq, Structural)]
pub enum ToServer {
    GetBookDepth(Side),
    PlaceOrder(Side, Price, Quantity),
    GetTopOfBook(Side),
    GetSizeForPriceLevel(Side, Price),
}

/// What the server may deliver to a client.
#[derive(Clone, Copy, Debug, PartialEq, Eq, Structural)]
pub enum ToClient {
    /// First message to a newly accepted client: its assigned id.
    Connected(ClientId),
    /// Broadcast to every client after a successful placement: the new
    /// aggregate at the touched level.
    LatestDepth(Side, u128, Price),
    /// Answer to a depth query: the number of levels on the side.
    BookDepth(Side, usize),
    /// Answer to a top-of-book query.
    TopOfBook(Side, Price),
    /// Answer to a size query: the aggregate at the level.
    SizeForPriceLevel(Side, u128),
    /// A query that failed, surfaced to the one asking client instead of
    /// tearing the process down.
    QueryError(EngineError),
}

/// An event in the order manager's inbound queue, tagged with the client
/// it came from. A new connection carries no payload here: the manager
/// answers with the id under which it registered the client, and the
/// surrounding process binds the connection's sink to that id.
#[derive(Clone, Copy, Debug, PartialEq, Eq, Structural)]
pub enum ToOrderManager {
    ClientConnected,
    ClientDisconnected(ClientId),
    PlaceOrder(ClientId, Side, Price, Quantity),
    GetOrderDepth(ClientId, Side),
    GetTopOfBook(ClientId, Side),
    GetSizeForPriceLevel(ClientId, Side, Price),
}

} // verus!
