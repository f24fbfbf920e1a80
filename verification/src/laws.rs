//! Book-wide laws, stated and proved over the view transitions of
//! [`crate::book`].

use vstd::prelude::*;
use crate::book::{
    BookView, OrderView, Side, cancel_spec, depth_at, empty_book, place_spec, side_depth,
};

verus! {

/// One placement, as an abstract event.
pub ghost struct PlaceCall {
    pub side: Side,
    pub price: int,
    pub qty: int,
    pub id: int,
}

/// The book that a sequence of placements builds from nothing.
pub open spec fn apply_places(calls: Seq<PlaceCall>) -> BookView
    decreases calls.len(),
{
    if calls.len() == 0 {
        empty_book()
    } else {
        let c = calls.last();
        place_spec(apply_places(calls.drop_last()), c.side, c.price, c.qty, c.id)
    }
}

/// The quantity that the placements put at one price on one side.
pub open spec fn placed_sum(calls: Seq<PlaceCall>, side: Side, price: int) -> int
    decreases calls.len(),
{
    if calls.len() == 0 {
        0
    } else {
        placed_sum(calls.drop_last(), side, price) + if calls.last().side == side
            && calls.last().price == price {
            calls.last().qty
        } else {
            0
        }
    }
}

/// Law: after any sequence of placements with distinct order ids, the
/// aggregate depth at every price on every side equals the sum of the
/// quantities of the still-active orders resting there — and indeed every
/// placed order is still active, with the attributes it was placed with.
/// Every prefix of the sequence is itself such a sequence, so the equality
/// holds after each step.
pub proof fn lemma_places_depth_is_sum(calls: Seq<PlaceCall>, side: Side, price: int)
    requires
        forall|i: int, j: int| 0 <= i < j < calls.len() ==> calls[i].id != calls[j].id,
    ensures
        depth_at(apply_places(calls), side, price) == placed_sum(calls, side, price),
        forall|i: int|
            0 <= i < calls.len() ==> apply_places(calls).orders.dom().contains(
                (#[trigger] calls[i]).id,
            ) && apply_places(calls).orders[calls[i].id] == (OrderView {
                side: calls[i].side,
                price: calls[i].price,
                qty: calls[i].qty,
            }),
    decreases calls.len(),
{
    if calls.len() > 0 {
        let pre = calls.drop_last();
        let c = calls.last();
        lemma_places_depth_is_sum(pre, side, price);
        let v = apply_places(pre);
        let v1 = apply_places(calls);
        assert(depth_at(v1, side, price) == depth_at(v, side, price) + if c.side == side
            && c.price == price {
            c.qty
        } else {
            0
        });
        assert forall|i: int| 0 <= i < calls.len() implies v1.orders.dom().contains(
            (#[trigger] calls[i]).id,
        ) && v1.orders[calls[i].id] == (OrderView {
            side: calls[i].side,
            price: calls[i].price,
            qty: calls[i].qty,
        }) by {
            if i < calls.len() - 1 {
                assert(pre[i] == calls[i]);
                assert(calls[i].id != c.id);
            }
        };
    }
}

/// Law: placing an order and at once cancelling it returns the book to
/// exactly its previous state; a price level the placement created
/// vanishes again. It holds of any view whose present levels carry
/// positive aggregates — which [`crate::book::OrderBook::lemma_depths_positive`]
/// grants for every well-formed book — for any fresh id and positive
/// quantity.
pub proof fn lemma_place_then_cancel(v: BookView, side: Side, price: int, qty: int, id: int)
    requires
        qty >= 1,
        !v.orders.dom().contains(id),
        forall|p: int|
            #[trigger] side_depth(v, side).dom().contains(p) ==> side_depth(v, side)[p] >= 1,
    ensures
        cancel_spec(place_spec(v, side, price, qty, id), id) == v,
{
    let v1 = place_spec(v, side, price, qty, id);
    let v2 = cancel_spec(v1, id);
    let d0 = depth_at(v, side, price);
    assert(v1.orders[id] == (OrderView { side, price, qty }));
    assert(v.orders.insert(id, OrderView { side, price, qty }).remove(id) =~= v.orders);
    if side_depth(v, side).dom().contains(price) {
        assert(d0 >= 1);
        assert(side_depth(v, side).insert(price, d0 + qty).insert(price, d0) =~= side_depth(
            v,
            side,
        ));
    } else {
        assert(d0 == 0);
        assert(side_depth(v, side).insert(price, d0 + qty).remove(price) =~= side_depth(v, side));
    }
    assert(side_depth(v2, side) == side_depth(v, side));
    assert(v2 == v);
}

} // verus!
