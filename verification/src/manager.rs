//! The order manager: the single writer of the engine. It owns the book
//! and the client registry, consumes one event at a time, and answers with
//! the messages to deliver — a broadcast after every placement, a private
//! answer to every query, and the cancellation of everything a client
//! owned when it goes.
//!
//! The surrounding process runs the queue and the sinks; this state
//! machine only decides.

use vstd::prelude::*;
use crate::book::{
    BookView, EngineError, OrderBook, OrderId, Quantity, Side, cancel_spec, empty_book,
    place_spec, side_depth,
};
use crate::messages::{ClientId, ToClient, ToOrderManager};
use crate::price::Price;

verus! {

/// The orders one client has placed. Ids may go stale when an order is
/// cancelled or fully traded; stale ids are skipped on cleanup.
struct ClientOrders {
    client: ClientId,
    orders: Vec<OrderId>,
}

/// The single-writer coordination actor's whole state.
pub struct OrderManager {
    book: OrderBook,
    next_order_id: OrderId,
    next_client_id: ClientId,
    clients: Vec<ClientId>,
    client_orders: Vec<ClientOrders>,
}

/// Cancels each of `ids` in turn, skipping those no longer active.
pub open spec fn cancel_ids(v: BookView, ids: Seq<OrderId>) -> BookView
    decreases ids.len(),
{
    if ids.len() == 0 {
        v
    } else {
        let v1 = if v.orders.dom().contains(ids[0] as int) {
            cancel_spec(v, ids[0] as int)
        } else {
            v
        };
        cancel_ids(v1, ids.drop_first())
    }
}

spec fn distinct_owners(s: Seq<ClientOrders>) -> bool {
    forall|i: int, j: int| 0 <= i < j < s.len() ==> s[i].client != s[j].client
}

spec fn owned_of(s: Seq<ClientOrders>, c: ClientId) -> Seq<OrderId> {
    if exists|k: int| 0 <= k < s.len() && s[k].client == c {
        s[choose|k: int| 0 <= k < s.len() && s[k].client == c].orders@
    } else {
        Seq::empty()
    }
}

proof fn lemma_owned_is(s: Seq<ClientOrders>, c: ClientId, k: int)
    requires
        distinct_owners(s),
        0 <= k < s.len(),
        s[k].client == c,
    ensures
        owned_of(s, c) == s[k].orders@,
{
    assert(exists|k2: int| 0 <= k2 < s.len() && s[k2].client == c);
    let k2 = choose|k2: int| 0 <= k2 < s.len() && s[k2].client == c;
    assert(k2 == k);
}

proof fn lemma_owned_absent(s: Seq<ClientOrders>, c: ClientId)
    requires
        forall|k: int| 0 <= k < s.len() ==> (#[trigger] s[k].client) != c,
    ensures
        owned_of(s, c) == Seq::<OrderId>::empty(),
{
    if exists|k: int| 0 <= k < s.len() && s[k].client == c {
        let k = choose|k: int| 0 <= k < s.len() && s[k].client == c;
        assert(s[k].client == c);
    }
}

/// The position of `c` in a run of distinct client ids.
pub open spec fn client_index(s: Seq<ClientId>, c: ClientId) -> int {
    choose|k: int| 0 <= k < s.len() && s[k] == c
}

impl OrderManager {
    /// The engine's abstract state.
    pub closed spec fn book(&self) -> BookView {
        self.book@
    }

    /// The connected clients, in connection order.
    pub closed spec fn client_list(&self) -> Seq<ClientId> {
        self.clients@
    }

    /// The id the next placement will be assigned.
    pub closed spec fn next_order(&self) -> OrderId {
        self.next_order_id
    }

    /// The id the next connection will be assigned.
    pub closed spec fn next_client(&self) -> ClientId {
        self.next_client_id
    }

    /// The order ids recorded against one client, oldest first.
    pub closed spec fn owned(&self, c: ClientId) -> Seq<OrderId> {
        owned_of(self.client_orders@, c)
    }

    /// The manager's internal consistency: the book is well-formed, every
    /// active order's id was assigned before the counter's present value,
    /// and clients are registered at most once.
    pub closed spec fn wf(&self) -> bool {
        &&& self.book.wf()
        &&& forall|id: int|
            #[trigger] self.book@.orders.dom().contains(id) ==> 0 <= id < self.next_order_id
        &&& forall|i: int, j: int| 0 <= i < j < self.clients@.len() ==> self.clients@[i]
            != self.clients@[j]
        &&& forall|i: int|
            0 <= i < self.clients@.len() ==> (#[trigger] self.clients@[i]) < self.next_client_id
        &&& distinct_owners(self.client_orders@)
    }

    /// A manager with an empty book, no clients, and both counters at
    /// zero.
    pub fn new() -> (r: OrderManager)
        ensures
            r.wf(),
            r.book() == empty_book(),
            r.client_list() == Seq::<ClientId>::empty(),
            r.next_order() == 0,
            r.next_client() == 0,
            forall|c: ClientId| #[trigger] r.owned(c) == Seq::<OrderId>::empty(),
    {
        let r = OrderManager {
            book: OrderBook::new(),
            next_order_id: 0,
            next_client_id: 0,
            clients: Vec::new(),
            client_orders: Vec::new(),
        };
        proof {
            assert forall|c: ClientId| #[trigger] r.owned(c) == Seq::<OrderId>::empty() by {
                lemma_owned_absent(r.client_orders@, c);
            };
        }
        r
    }

    /// The value of the placement counter, for callers that must respect
    /// its headroom.
    pub fn order_counter(&self) -> (r: OrderId)
        ensures
            r == self.next_order(),
    {
        self.next_order_id
    }

    /// The value of the connection counter, for callers that must respect
    /// its headroom.
    pub fn client_counter(&self) -> (r: ClientId)
        ensures
            r == self.next_client(),
    {
        self.next_client_id
    }

    /// Processes one inbound event and returns the messages to deliver,
    /// each tagged with its destination client, in order.
    ///
    /// A new connection is registered and greeted with its id. A
    /// disconnection cancels every order the client still owns and forgets
    /// it. A placement books the order under a fresh id and broadcasts the
    /// touched level's new aggregate to every client. A query is answered
    /// privately — with a typed error rather than a crash when the book
    /// cannot answer — and only for a registered client.
    pub fn handle(&mut self, event: ToOrderManager) -> (out: Vec<(ClientId, ToClient)>)
        requires
            old(self).wf(),
            match event {
                ToOrderManager::ClientConnected => old(self).next_client() < u64::MAX,
                ToOrderManager::PlaceOrder(_, _, _, quantity) => quantity >= 1 && old(
                    self,
                ).next_order() < u64::MAX,
                _ => true,
            },
        ensures
            final(self).wf(),
            match event {
                ToOrderManager::ClientConnected => {
                    &&& final(self).book() == old(self).book()
                    &&& final(self).next_order() == old(self).next_order()
                    &&& final(self).next_client() == old(self).next_client() + 1
                    &&& final(self).client_list() == old(self).client_list().push(
                        old(self).next_client(),
                    )
                    &&& out@ =~= seq![
                        (old(self).next_client(), ToClient::Connected(old(self).next_client())),
                    ]
                },
                ToOrderManager::ClientDisconnected(c) => {
                    &&& final(self).book() == cancel_ids(old(self).book(), old(self).owned(c))
                    &&& final(self).next_order() == old(self).next_order()
                    &&& final(self).next_client() == old(self).next_client()
                    &&& final(self).client_list() == (if old(self).client_list().contains(c) {
                        old(self).client_list().remove(client_index(old(self).client_list(), c))
                    } else {
                        old(self).client_list()
                    })
                    &&& final(self).owned(c) == Seq::<OrderId>::empty()
                    &&& out@ =~= Seq::<(ClientId, ToClient)>::empty()
                },
                ToOrderManager::PlaceOrder(c, side, price, quantity) => {
                    &&& !old(self).book().orders.dom().contains(old(self).next_order() as int)
                    &&& final(self).book() == place_spec(
                        old(self).book(),
                        side,
                        price@,
                        quantity as int,
                        old(self).next_order() as int,
                    )
                    &&& final(self).next_order() == old(self).next_order() + 1
                    &&& final(self).next_client() == old(self).next_client()
                    &&& final(self).client_list() == old(self).client_list()
                    &&& final(self).owned(c) == old(self).owned(c).push(old(self).next_order())
                    &&& out@.len() == old(self).client_list().len()
                    &&& forall|k: int|
                        0 <= k < out@.len() ==> (#[trigger] out@[k]).0 == old(
                            self,
                        ).client_list()[k] && out@[k].1 == ToClient::LatestDepth(
                            side,
                            side_depth(final(self).book(), side)[price@] as u128,
                            price,
                        )
                },
                ToOrderManager::GetOrderDepth(c, side) => {
                    &&& *final(self) == *old(self)
                    &&& out@ =~= (if old(self).client_list().contains(c) {
                        seq![
                            (
                                c,
                                ToClient::BookDepth(
                                    side,
                                    side_depth(old(self).book(), side).dom().len() as usize,
                                ),
                            ),
                        ]
                    } else {
                        Seq::<(ClientId, ToClient)>::empty()
                    })
                },
                ToOrderManager::GetTopOfBook(c, side) => {
                    &&& *final(self) == *old(self)
                    &&& !old(self).client_list().contains(c) ==> out@ =~= Seq::<
                        (ClientId, ToClient),
                    >::empty()
                    &&& old(self).client_list().contains(c) ==> out@.len() == 1 && out@[0].0 == c
                        && (match out@[0].1 {
                        ToClient::TopOfBook(s2, p) => s2 == side && side_depth(
                            old(self).book(),
                            side,
                        ).dom().contains(p@) && (forall|q: int|
                            #[trigger] side_depth(old(self).book(), side).dom().contains(q)
                                ==> (match side {
                                Side::Bid => q <= p@,
                                Side::Ask => q >= p@,
                            })),
                        ToClient::QueryError(e) => e == EngineError::EmptyBook && (forall|q: int|
                            !(#[trigger] side_depth(old(self).book(), side).dom().contains(q))),
                        _ => false,
                    })
                },
                ToOrderManager::GetSizeForPriceLevel(c, side, price) => {
                    &&& *final(self) == *old(self)
                    &&& !old(self).client_list().contains(c) ==> out@ =~= Seq::<
                        (ClientId, ToClient),
                    >::empty()
                    &&& old(self).client_list().contains(c) ==> out@.len() == 1 && out@[0].0 == c
                        && out@[0].1 == (if side_depth(old(self).book(), side).dom().contains(
                        price@,
                    ) {
                        ToClient::SizeForPriceLevel(
                            side,
                            side_depth(old(self).book(), side)[price@] as u128,
                        )
                    } else {
                        ToClient::QueryError(EngineError::NoSuchPriceLevel)
                    })
                },
            },
    {
        match event {
            ToOrderManager::ClientConnected => self.client_connected(),
            ToOrderManager::ClientDisconnected(c) => self.client_disconnected(c),
            ToOrderManager::PlaceOrder(c, side, price, quantity) => self.place_order(
                c,
                side,
                price,
                quantity,
            ),
            ToOrderManager::GetOrderDepth(c, side) => self.get_order_depth(c, side),
            ToOrderManager::GetTopOfBook(c, side) => self.get_top_of_book(c, side),
            ToOrderManager::GetSizeForPriceLevel(c, side, price) => self.get_size_for_price_level(
                c,
                side,
                price,
            ),
        }
    }
}

// ---------------------------------------------------------------------------
// Registry lookups.
// ---------------------------------------------------------------------------

fn find_owner(entries: &Vec<ClientOrders>, c: ClientId) -> (r: Option<usize>)
    ensures
        match r {
            Some(k) => k < entries@.len() && entries@[k as int].client == c,
            None => forall|i: int| 0 <= i < entries@.len() ==> (#[trigger] entries@[i].client) != c,
        },
{
    let mut k: usize = 0;
    while k < entries.len()
        invariant
            k <= entries@.len(),
            forall|i: int| 0 <= i < k ==> (#[trigger] entries@[i].client) != c,
        decreases entries@.len() - k,
    {
        if entries[k].client == c {
            return Some(k);
        }
        k = k + 1;
    }
    None
}

fn find_client(clients: &Vec<ClientId>, c: ClientId) -> (r: Option<usize>)
    ensures
        match r {
            Some(k) => k < clients@.len() && clients@[k as int] == c && clients@.contains(c),
            None => !clients@.contains(c),
        },
{
    let mut k: usize = 0;
    while k < clients.len()
        invariant
            k <= clients@.len(),
            forall|i: int| 0 <= i < k ==> (#[trigger] clients@[i]) != c,
        decreases clients@.len() - k,
    {
        if clients[k] == c {
            proof {
                assert(clients@[k as int] == c);
            }
            return Some(k);
        }
        k = k + 1;
    }
    proof {
        if clients@.contains(c) {
            let i = choose|i: int| 0 <= i < clients@.len() && clients@[i] == c;
            assert(clients@[i] == c);
        }
    }
    None
}

proof fn lemma_owners_remove(s: Seq<ClientOrders>, k: int)
    requires
        distinct_owners(s),
        0 <= k < s.len(),
    ensures
        distinct_owners(s.remove(k)),
        forall|i: int|
            0 <= i < s.remove(k).len() ==> (#[trigger] s.remove(k)[i].client) != s[k].client,
{
    s.remove_ensures(k);
    assert forall|a: int, b: int| 0 <= a < b < s.remove(k).len() implies s.remove(k)[a].client != s.remove(
        k,
    )[b].client by {
        let a2: int = if a < k {
            a
        } else {
            a + 1
        };
        let b2: int = if b < k {
            b
        } else {
            b + 1
        };
        assert(s.remove(k)[a] == s[a2] && s.remove(k)[b] == s[b2]);
    };
    assert forall|i: int| 0 <= i < s.remove(k).len() implies (#[trigger] s.remove(k)[i].client)
        != s[k].client by {
        let i2: int = if i < k {
            i
        } else {
            i + 1
        };
        assert(s.remove(k)[i] == s[i2]);
    };
}

proof fn lemma_owners_push(s: Seq<ClientOrders>, e: ClientOrders)
    requires
        distinct_owners(s),
        forall|i: int| 0 <= i < s.len() ==> (#[trigger] s[i].client) != e.client,
    ensures
        distinct_owners(s.push(e)),
{
    assert forall|a: int, b: int| 0 <= a < b < s.push(e).len() implies s.push(e)[a].client != s.push(
        e,
    )[b].client by {
        if b == s.len() {
            assert(s.push(e)[a] == s[a]);
        } else {
            assert(s.push(e)[a] == s[a] && s.push(e)[b] == s[b]);
        }
    };
}

impl OrderManager {
    fn client_connected(&mut self) -> (out: Vec<(ClientId, ToClient)>)
        requires
            old(self).wf(),
            old(self).next_client() < u64::MAX,
        ensures
            final(self).wf(),
            final(self).book() == old(self).book(),
            final(self).next_order() == old(self).next_order(),
            final(self).next_client() == old(self).next_client() + 1,
            final(self).client_list() == old(self).client_list().push(old(self).next_client()),
            out@ =~= seq![
                (old(self).next_client(), ToClient::Connected(old(self).next_client())),
            ],
    {
        let c = self.next_client_id;
        self.clients.push(c);
        self.next_client_id = c + 1;
        let mut out: Vec<(ClientId, ToClient)> = Vec::new();
        out.push((c, ToClient::Connected(c)));
        proof {
            assert forall|i: int, j: int|
                0 <= i < j < self.clients@.len() implies self.clients@[i] != self.clients@[j] by {
                if j == self.clients@.len() - 1 {
                    assert(self.clients@[i] == old(self).clients@[i]);
                }
            };
        }
        out
    }

    fn client_disconnected(&mut self, c: ClientId) -> (out: Vec<(ClientId, ToClient)>)
        requires
            old(self).wf(),
        ensures
            final(self).wf(),
            final(self).book() == cancel_ids(old(self).book(), old(self).owned(c)),
            final(self).next_order() == old(self).next_order(),
            final(self).next_client() == old(self).next_client(),
            final(self).client_list() == (if old(self).client_list().contains(c) {
                old(self).client_list().remove(client_index(old(self).client_list(), c))
            } else {
                old(self).client_list()
            }),
            final(self).owned(c) == Seq::<OrderId>::empty(),
            out@ =~= Seq::<(ClientId, ToClient)>::empty(),
    {
        let ghost v0 = self.book@;
        let ghost cs0 = self.clients@;
        let ghost no0 = self.next_order_id;
        let ghost nc0 = self.next_client_id;
        match find_owner(&self.client_orders, c) {
            Some(k) => {
                proof {
                    lemma_owned_is(self.client_orders@, c, k as int);
                    lemma_owners_remove(self.client_orders@, k as int);
                }
                let entry = self.client_orders.remove(k);
                let ghost ids = entry.orders@;
                let ghost co1 = self.client_orders@;
                proof {
                    assert(ids.skip(0) =~= ids);
                }
                let mut i: usize = 0;
                while i < entry.orders.len()
                    invariant
                        i <= ids.len(),
                        entry.orders@ == ids,
                        self.book.wf(),
                        forall|id2: int|
                            #[trigger] self.book@.orders.dom().contains(id2) ==> 0 <= id2 < no0,
                        cancel_ids(v0, ids) == cancel_ids(self.book@, ids.skip(i as int)),
                        self.clients@ == cs0,
                        self.client_orders@ == co1,
                        self.next_order_id == no0,
                        self.next_client_id == nc0,
                    decreases ids.len() - i,
                {
                    let id = entry.orders[i];
                    let ghost vpre = self.book@;
                    let r = self.book.on_cancel_order(id);
                    proof {
                        let s = ids.skip(i as int);
                        assert(s[0] == id);
                        assert(s.drop_first() =~= ids.skip(i as int + 1));
                        match r {
                            Ok(_) => {
                                assert(self.book@ == cancel_spec(vpre, id as int));
                            },
                            Err(_) => {
                                assert(self.book@ == vpre);
                            },
                        }
                        assert(cancel_ids(vpre, s) == cancel_ids(self.book@, s.drop_first()));
                    }
                    i = i + 1;
                }
                proof {
                    assert(ids.skip(ids.len() as int) =~= Seq::<OrderId>::empty());
                    lemma_owned_absent(self.client_orders@, c);
                }
            },
            None => {
                proof {
                    lemma_owned_absent(self.client_orders@, c);
                }
            },
        }
        match find_client(&self.clients, c) {
            Some(k) => {
                proof {
                    let k2 = client_index(self.clients@, c);
                    assert(self.clients@[k as int] == c);
                    assert(0 <= k2 < self.clients@.len() && self.clients@[k2] == c);
                    assert(k2 == k as int);
                    self.clients@.remove_ensures(k as int);
                }
                self.clients.remove(k);
                proof {
                    assert forall|a: int, b: int|
                        0 <= a < b < self.clients@.len() implies self.clients@[a]
                        != self.clients@[b] by {
                        let s0 = old(self).clients@;
                        let kk = client_index(s0, c);
                        let a2: int = if a < kk {
                            a
                        } else {
                            a + 1
                        };
                        let b2: int = if b < kk {
                            b
                        } else {
                            b + 1
                        };
                        assert(self.clients@[a] == s0[a2] && self.clients@[b] == s0[b2]);
                    };
                    assert forall|i2: int| 0 <= i2 < self.clients@.len() implies (
                    #[trigger] self.clients@[i2]) < self.next_client_id by {
                        let s0 = old(self).clients@;
                        let kk = client_index(s0, c);
                        let i3: int = if i2 < kk {
                            i2
                        } else {
                            i2 + 1
                        };
                        assert(self.clients@[i2] == s0[i3]);
                    };
                }
            },
            None => {
            },
        }
        Vec::new()
    }

    fn place_order(&mut self, c: ClientId, side: Side, price: Price, quantity: Quantity) -> (out:
        Vec<(ClientId, ToClient)>)
        requires
            old(self).wf(),
            quantity >= 1,
            old(self).next_order() < u64::MAX,
        ensures
            final(self).wf(),
            !old(self).book().orders.dom().contains(old(self).next_order() as int),
            final(self).book() == place_spec(
                old(self).book(),
                side,
                price@,
                quantity as int,
                old(self).next_order() as int,
            ),
            final(self).next_order() == old(self).next_order() + 1,
            final(self).next_client() == old(self).next_client(),
            final(self).client_list() == old(self).client_list(),
            final(self).owned(c) == old(self).owned(c).push(old(self).next_order()),
            out@.len() == old(self).client_list().len(),
            forall|k: int|
                0 <= k < out@.len() ==> (#[trigger] out@[k]).0 == old(self).client_list()[k]
                    && out@[k].1 == ToClient::LatestDepth(
                    side,
                    side_depth(final(self).book(), side)[price@] as u128,
                    price,
                ),
    {
        let id = self.next_order_id;
        proof {
            if self.book@.orders.dom().contains(id as int) {
                assert(false);
            }
        }
        let r = self.book.on_new_order(side, price, quantity, id);
        match r {
            Err(_) => {
                proof {
                    assert(false);
                }
            },
            Ok(_) => {
            },
        }
        self.next_order_id = id + 1;
        let ghost co0 = self.client_orders@;
        match find_owner(&self.client_orders, c) {
            Some(k) => {
                proof {
                    lemma_owned_is(co0, c, k as int);
                    lemma_owners_remove(co0, k as int);
                }
                let mut entry = self.client_orders.remove(k);
                entry.orders.push(id);
                proof {
                    lemma_owners_push(self.client_orders@, entry);
                }
                self.client_orders.push(entry);
                proof {
                    lemma_owned_is(self.client_orders@, c, self.client_orders@.len() - 1);
                }
            },
            None => {
                proof {
                    lemma_owned_absent(co0, c);
                }
                let mut orders: Vec<OrderId> = Vec::new();
                orders.push(id);
                let entry = ClientOrders { client: c, orders };
                proof {
                    lemma_owners_push(self.client_orders@, entry);
                }
                self.client_orders.push(entry);
                proof {
                    lemma_owned_is(self.client_orders@, c, self.client_orders@.len() - 1);
                    assert(self.owned(c) =~= old(self).owned(c).push(id));
                }
            },
        }
        let d = match self.book.get_size_for_price_level(side, price) {
            Ok(d) => d,
            Err(_) => {
                proof {
                    assert(false);
                }
                0
            },
        };
        let mut out: Vec<(ClientId, ToClient)> = Vec::new();
        let mut k: usize = 0;
        while k < self.clients.len()
            invariant
                k <= self.clients@.len(),
                out@.len() == k,
                forall|t: int|
                    0 <= t < k ==> (#[trigger] out@[t]).0 == self.clients@[t] && out@[t].1
                        == ToClient::LatestDepth(side, d, price),
            decreases self.clients@.len() - k,
        {
            let cl = self.clients[k];
            out.push((cl, ToClient::LatestDepth(side, d, price)));
            k = k + 1;
        }
        out
    }

    fn get_order_depth(&self, c: ClientId, side: Side) -> (out: Vec<(ClientId, ToClient)>)
        requires
            self.wf(),
        ensures
            out@ =~= (if self.client_list().contains(c) {
                seq![
                    (c, ToClient::BookDepth(side, side_depth(self.book(), side).dom().len() as usize)),
                ]
            } else {
                Seq::<(ClientId, ToClient)>::empty()
            }),
    {
        match find_client(&self.clients, c) {
            Some(_) => {
                let d = self.book.get_book_depth(side);
                let mut out: Vec<(ClientId, ToClient)> = Vec::new();
                out.push((c, ToClient::BookDepth(side, d)));
                out
            },
            None => Vec::new(),
        }
    }

    fn get_top_of_book(&self, c: ClientId, side: Side) -> (out: Vec<(ClientId, ToClient)>)
        requires
            self.wf(),
        ensures
            !self.client_list().contains(c) ==> out@ =~= Seq::<(ClientId, ToClient)>::empty(),
            self.client_list().contains(c) ==> out@.len() == 1 && out@[0].0 == c && (match out@[0].1 {
                ToClient::TopOfBook(s2, p) => s2 == side && side_depth(
                    self.book(),
                    side,
                ).dom().contains(p@) && (forall|q: int|
                    #[trigger] side_depth(self.book(), side).dom().contains(q) ==> (match side {
                        Side::Bid => q <= p@,
                        Side::Ask => q >= p@,
                    })),
                ToClient::QueryError(e) => e == EngineError::EmptyBook && (forall|q: int|
                    !(#[trigger] side_depth(self.book(), side).dom().contains(q))),
                _ => false,
            }),
    {
        match find_client(&self.clients, c) {
            Some(_) => {
                let msg = match self.book.get_top_of_book(side) {
                    Ok(p) => ToClient::TopOfBook(side, p),
                    Err(e) => ToClient::QueryError(e),
                };
                let mut out: Vec<(ClientId, ToClient)> = Vec::new();
                out.push((c, msg));
                out
            },
            None => Vec::new(),
        }
    }

    fn get_size_for_price_level(&self, c: ClientId, side: Side, price: Price) -> (out: Vec<
        (ClientId, ToClient),
    >)
        requires
            self.wf(),
        ensures
            !self.client_list().contains(c) ==> out@ =~= Seq::<(ClientId, ToClient)>::empty(),
            self.client_list().contains(c) ==> out@.len() == 1 && out@[0].0 == c && out@[0].1 == (
            if side_depth(self.book(), side).dom().contains(price@) {
                ToClient::SizeForPriceLevel(side, side_depth(self.book(), side)[price@] as u128)
            } else {
                ToClient::QueryError(EngineError::NoSuchPriceLevel)
            }),
    {
        match find_client(&self.clients, c) {
            Some(_) => {
                let msg = match self.book.get_size_for_price_level(side, price) {
                    Ok(q) => ToClient::SizeForPriceLevel(side, q),
                    Err(e) => ToClient::QueryError(e),
                };
                let mut out: Vec<(ClientId, ToClient)> = Vec::new();
                out.push((c, msg));
                out
            },
            None => Vec::new(),
        }
    }
}

} // verus!
