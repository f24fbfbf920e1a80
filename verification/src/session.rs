//! The decision logic of one client session: it holds the identity the
//! server assigned to this connection, tags every inbound request with it,
//! and refuses to forward anything until that identity has arrived.
//!
//! Reading and writing the connection itself happens outside the library;
//! this state machine is handed each decoded message and says what to do
//! with it.

use vstd::prelude::*;
use crate::messages::{ClientId, ToClient, ToOrderManager, ToServer};

verus! {

/// One session's state: the identity assigned by the server, once known.
pub struct ClientSession {
    client_id: Option<ClientId>,
}

/// How a request from the wire becomes a manager event, once the session
/// knows who it is.
pub open spec fn request_spec(msg: ToServer, c: ClientId) -> ToOrderManager {
    match msg {
        ToServer::GetBookDepth(side) => ToOrderManager::GetOrderDepth(c, side),
        ToServer::PlaceOrder(side, price, quantity) => ToOrderManager::PlaceOrder(
            c,
            side,
            price,
            quantity,
        ),
        ToServer::GetTopOfBook(side) => ToOrderManager::GetTopOfBook(c, side),
        ToServer::GetSizeForPriceLevel(side, price) => ToOrderManager::GetSizeForPriceLevel(
            c,
            side,
            price,
        ),
    }
}

impl ClientSession {
    /// The identity this session has been assigned, if any yet.
    pub closed spec fn id(&self) -> Option<ClientId> {
        self.client_id
    }

    /// A session that has not heard back from the server yet.
    pub fn new() -> (r: ClientSession)
        ensures
            r.id() is None,
    {
        ClientSession { client_id: None }
    }

    /// Turns one decoded inbound request into the event to enqueue: tagged
    /// with this session's identity, or nothing while the identity is
    /// still unknown.
    pub fn on_inbound(&self, msg: ToServer) -> (r: Option<ToOrderManager>)
        ensures
            r == match self.id() {
                None => None::<ToOrderManager>,
                Some(c) => Some(request_spec(msg, c)),
            },
    {
        match self.client_id {
            None => None,
            Some(c) => Some(
                match msg {
                    ToServer::GetBookDepth(side) => ToOrderManager::GetOrderDepth(c, side),
                    ToServer::PlaceOrder(side, price, quantity) => ToOrderManager::PlaceOrder(
                        c,
                        side,
                        price,
                        quantity,
                    ),
                    ToServer::GetTopOfBook(side) => ToOrderManager::GetTopOfBook(c, side),
                    ToServer::GetSizeForPriceLevel(side, price) => ToOrderManager::GetSizeForPriceLevel(
                        c,
                        side,
                        price,
                    ),
                },
            ),
        }
    }

    /// Observes one message on the way back to the wire: the server's
    /// `Connected` supplies (or replaces) this session's identity, all
    /// other traffic passes through untouched.
    pub fn on_outbound(&mut self, msg: &ToClient)
        ensures
            final(self).id() == match *msg {
                ToClient::Connected(c) => Some(c),
                _ => old(self).id(),
            },
    {
        if let ToClient::Connected(c) = msg {
            self.client_id = Some(*c);
        }
    }
}

} // verus!
