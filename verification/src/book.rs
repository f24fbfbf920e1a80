//! The order book engine: per-side aggregated depth by price plus an index
//! of active orders.
//!
//! The abstract state of a book is a [`BookView`]: one map per side from
//! price (in fixed-point units, see [`crate::price`]) to aggregate resting
//! quantity, and one map from order id to the attributes of the active
//! order. Every operation states its effect as a pure transition on that
//! view ([`place_spec`], [`cancel_spec`], [`trade_spec`], [`replace_spec`]),
//! and the engine maintains the invariant that each present price level
//! carries exactly the sum of the quantities of the active orders resting
//! there, and that this sum is positive.

use vstd::prelude::*;
use crate::price::Price;

verus! {

/// Side of the trade.
#[derive(Clone, Copy, Debug, PartialEq, Eq, Structural)]
pub enum Side {
    Bid,
    Ask,
}

/// An identifier of one resting order, unique while the process runs.
pub type OrderId = u64;

/// A non-negative amount of one order.
pub type Quantity = u64;

/// Everything an engine operation can fail with. A failed operation never
/// changes the book.
#[derive(Clone, Copy, Debug, PartialEq, Eq, Structural)]
pub enum EngineError {
    /// A new order reused an id that is still active.
    DuplicateOrderId,
    /// The named order is not active: it never existed, was cancelled, or
    /// was fully traded.
    UnknownOrderId,
    /// A trade asked for more than the order's remaining quantity.
    OvertradeError,
    /// A size query named a price at which nothing rests. An empty level is
    /// an error by design, never a zero: absent and zero-size levels are
    /// indistinguishable in a well-formed book.
    NoSuchPriceLevel,
    /// A top-of-book query on a side with no levels at all.
    EmptyBook,
}

/// The attributes of one active order.
#[verifier::ext_equal]
pub ghost struct OrderView {
    pub side: Side,
    /// Price in fixed-point units.
    pub price: int,
    pub qty: int,
}

/// The abstract state of an order book.
#[verifier::ext_equal]
pub ghost struct BookView {
    /// Aggregate quantity per price level on the bid side.
    pub bids: Map<int, int>,
    /// Aggregate quantity per price level on the ask side.
    pub asks: Map<int, int>,
    /// The currently active orders, by id.
    pub orders: Map<int, OrderView>,
}

/// One price level: the aggregate of all active orders at `price` on one
/// side. The aggregate is wider than a single order's quantity because it
/// is a sum of arbitrarily many of them.
#[derive(Clone, Copy)]
struct Level {
    price: Price,
    qty: u128,
}

/// One active order as the engine stores it.
#[derive(Clone, Copy)]
struct OrderRec {
    id: OrderId,
    side: Side,
    price: Price,
    qty: Quantity,
}

/// A level-2 view of an order book: two aggregated sides and an index of
/// the active orders.
pub struct OrderBook {
    bids: Vec<Level>,
    asks: Vec<Level>,
    orders: Vec<OrderRec>,
}

// ---------------------------------------------------------------------------
// The abstraction from the stored vectors to the maps of the view.
// ---------------------------------------------------------------------------

spec fn levels_map(s: Seq<Level>) -> Map<int, int>
    decreases s.len(),
{
    if s.len() == 0 {
        Map::empty()
    } else {
        levels_map(s.drop_last()).insert(s.last().price@, s.last().qty as int)
    }
}

spec fn orders_map(s: Seq<OrderRec>) -> Map<int, OrderView>
    decreases s.len(),
{
    if s.len() == 0 {
        Map::empty()
    } else {
        orders_map(s.drop_last()).insert(
            s.last().id as int,
            OrderView { side: s.last().side, price: s.last().price@, qty: s.last().qty as int },
        )
    }
}

spec fn has_price(s: Seq<Level>, price: int) -> bool {
    exists|i: int| 0 <= i < s.len() && s[i].price@ == price
}

spec fn has_id(s: Seq<OrderRec>, id: int) -> bool {
    exists|i: int| 0 <= i < s.len() && s[i].id == id
}

spec fn distinct_prices(s: Seq<Level>) -> bool {
    forall|i: int, j: int| 0 <= i < j < s.len() ==> s[i].price@ != s[j].price@
}

spec fn distinct_ids(s: Seq<OrderRec>) -> bool {
    forall|i: int, j: int| 0 <= i < j < s.len() ==> s[i].id != s[j].id
}

/// The sum of the quantities of the orders in `s` resting at `price` on
/// `side`.
spec fn qty_sum(s: Seq<OrderRec>, side: Side, price: int) -> int
    decreases s.len(),
{
    if s.len() == 0 {
        0
    } else {
        qty_sum(s.drop_last(), side, price) + if s.last().side == side && s.last().price@
            == price {
            s.last().qty as int
        } else {
            0
        }
    }
}

// ---------------------------------------------------------------------------
// Characterizations of the abstraction: domain, values, and cardinality.
// ---------------------------------------------------------------------------

proof fn lemma_levels_map_char(s: Seq<Level>)
    requires
        distinct_prices(s),
    ensures
        levels_map(s).dom().finite(),
        levels_map(s).dom().len() == s.len(),
        forall|p: int| #[trigger] levels_map(s).dom().contains(p) <==> has_price(s, p),
        forall|i: int|
            0 <= i < s.len() ==> #[trigger] levels_map(s)[s[i].price@] == s[i].qty as int,
    decreases s.len(),
{
    if s.len() > 0 {
        let pre = s.drop_last();
        lemma_levels_map_char(pre);
        assert forall|p: int| #[trigger] levels_map(s).dom().contains(p) implies has_price(s, p) by {
            if p == s.last().price@ {
                assert(s[s.len() - 1].price@ == p);
            } else {
                let i = choose|i: int| 0 <= i < pre.len() && pre[i].price@ == p;
                assert(s[i].price@ == p);
            }
        };
        assert forall|p: int| has_price(s, p) implies levels_map(s).dom().contains(p) by {
            let i = choose|i: int| 0 <= i < s.len() && s[i].price@ == p;
            if i < s.len() - 1 {
                assert(pre[i].price@ == p);
            }
        };
        assert(!levels_map(pre).dom().contains(s.last().price@)) by {
            if levels_map(pre).dom().contains(s.last().price@) {
                let i = choose|i: int| 0 <= i < pre.len() && pre[i].price@ == s.last().price@;
                assert(s[i].price@ == s[s.len() - 1].price@);
            }
        };
        assert forall|i: int| 0 <= i < s.len() implies #[trigger] levels_map(s)[s[i].price@]
            == s[i].qty as int by {
            if i < s.len() - 1 {
                assert(pre[i] == s[i]);
                assert(s[i].price@ != s.last().price@);
            }
        };
    }
}

proof fn lemma_orders_map_char(s: Seq<OrderRec>)
    requires
        distinct_ids(s),
    ensures
        orders_map(s).dom().finite(),
        forall|id: int| #[trigger] orders_map(s).dom().contains(id) <==> has_id(s, id),
        forall|i: int|
            0 <= i < s.len() ==> #[trigger] orders_map(s)[s[i].id as int] == (OrderView {
                side: s[i].side,
                price: s[i].price@,
                qty: s[i].qty as int,
            }),
    decreases s.len(),
{
    if s.len() > 0 {
        let pre = s.drop_last();
        lemma_orders_map_char(pre);
        assert forall|id: int| #[trigger] orders_map(s).dom().contains(id) implies has_id(s, id) by {
            if id == s.last().id as int {
                assert(s[s.len() - 1].id == id);
            } else {
                let i = choose|i: int| 0 <= i < pre.len() && pre[i].id == id;
                assert(s[i].id == id);
            }
        };
        assert forall|id: int| has_id(s, id) implies orders_map(s).dom().contains(id) by {
            let i = choose|i: int| 0 <= i < s.len() && s[i].id == id;
            if i < s.len() - 1 {
                assert(pre[i].id == id);
            }
        };
        assert forall|i: int| 0 <= i < s.len() implies #[trigger] orders_map(s)[s[i].id as int]
            == (OrderView { side: s[i].side, price: s[i].price@, qty: s[i].qty as int }) by {
            if i < s.len() - 1 {
                assert(pre[i] == s[i]);
                assert(s[i].id != s.last().id);
            }
        };
    }
}

// ---------------------------------------------------------------------------
// Facts about the per-level quantity sum.
// ---------------------------------------------------------------------------

/// Removing one order takes exactly its contribution out of the sum.
proof fn lemma_qty_sum_remove(s: Seq<OrderRec>, j: int, side: Side, price: int)
    requires
        0 <= j < s.len(),
    ensures
        qty_sum(s.remove(j), side, price) == qty_sum(s, side, price) - if s[j].side == side
            && s[j].price@ == price {
            s[j].qty as int
        } else {
            0
        },
    decreases s.len(),
{
    if j == s.len() - 1 {
        assert(s.remove(j) =~= s.drop_last());
    } else {
        lemma_qty_sum_remove(s.drop_last(), j, side, price);
        assert(s.remove(j).drop_last() =~= s.drop_last().remove(j));
        assert(s.remove(j).last() == s.last());
    }
}

/// Appending one order adds exactly its contribution to the sum.
proof fn lemma_qty_sum_push(s: Seq<OrderRec>, o: OrderRec, side: Side, price: int)
    ensures
        qty_sum(s.push(o), side, price) == qty_sum(s, side, price) + if o.side == side
            && o.price@ == price {
            o.qty as int
        } else {
            0
        },
{
    assert(s.push(o).drop_last() =~= s);
    assert(s.push(o).last() == o);
}

/// An order's own quantity never exceeds the sum at its level.
proof fn lemma_qty_sum_lower_bound(s: Seq<OrderRec>, j: int)
    requires
        0 <= j < s.len(),
        forall|i: int| 0 <= i < s.len() ==> s[i].qty >= 0,
    ensures
        qty_sum(s, s[j].side, s[j].price@) >= s[j].qty,
    decreases s.len(),
{
    lemma_qty_sum_nonneg(s.remove(j), s[j].side, s[j].price@);
    lemma_qty_sum_remove(s, j, s[j].side, s[j].price@);
}

/// A sum of non-negative quantities is non-negative.
proof fn lemma_qty_sum_nonneg(s: Seq<OrderRec>, side: Side, price: int)
    ensures
        qty_sum(s, side, price) >= 0,
    decreases s.len(),
{
    if s.len() > 0 {
        lemma_qty_sum_nonneg(s.drop_last(), side, price);
    }
}

/// A sum of `u64` quantities is bounded by the count of its summands.
proof fn lemma_qty_sum_upper_bound(s: Seq<OrderRec>, side: Side, price: int)
    ensures
        qty_sum(s, side, price) <= s.len() * 0xffff_ffff_ffff_ffff,
    decreases s.len(),
{
    if s.len() > 0 {
        lemma_qty_sum_upper_bound(s.drop_last(), side, price);
        assert((s.len() - 1) * 0xffff_ffff_ffff_ffff + 0xffff_ffff_ffff_ffff
            == s.len() * 0xffff_ffff_ffff_ffff) by (nonlinear_arith);
    }
}

/// If no order in `s` rests at `price` on `side`, the sum there is zero.
proof fn lemma_qty_sum_zero(s: Seq<OrderRec>, side: Side, price: int)
    requires
        forall|i: int|
            0 <= i < s.len() ==> !(#[trigger] s[i].side == side && s[i].price@ == price),
    ensures
        qty_sum(s, side, price) == 0,
    decreases s.len(),
{
    if s.len() > 0 {
        lemma_qty_sum_zero(s.drop_last(), side, price);
    }
}

/// Replacing one order changes the sum by the difference of the
/// contributions.
proof fn lemma_qty_sum_update(s: Seq<OrderRec>, j: int, o: OrderRec, side: Side, price: int)
    requires
        0 <= j < s.len(),
    ensures
        qty_sum(s.update(j, o), side, price) == qty_sum(s, side, price) - (if s[j].side == side
            && s[j].price@ == price {
            s[j].qty as int
        } else {
            0
        }) + (if o.side == side && o.price@ == price {
            o.qty as int
        } else {
            0
        }),
    decreases s.len(),
{
    if j == s.len() - 1 {
        assert(s.update(j, o).drop_last() =~= s.drop_last());
    } else {
        lemma_qty_sum_update(s.drop_last(), j, o, side, price);
        assert(s.update(j, o).drop_last() =~= s.drop_last().update(j, o));
        assert(s.update(j, o).last() == s.last());
    }
}

// ---------------------------------------------------------------------------
// Seq-to-map lemmas for the three ways a level or order table changes.
// ---------------------------------------------------------------------------

/// Appending a level with a fresh price inserts it into the map.
proof fn lemma_levels_push(s: Seq<Level>, l: Level)
    requires
        distinct_prices(s),
        !has_price(s, l.price@),
    ensures
        distinct_prices(s.push(l)),
        levels_map(s.push(l)) == levels_map(s).insert(l.price@, l.qty as int),
{
    assert(s.push(l).drop_last() =~= s);
    assert(s.push(l).last() == l);
    assert forall|i: int, j: int| 0 <= i < j < s.push(l).len() implies s.push(l)[i].price@
        != s.push(l)[j].price@ by {
        if j == s.len() {
            assert(s.push(l)[i] == s[i]);
        }
    };
}

/// Updating a level in place, keeping its price, updates the map value.
proof fn lemma_levels_update(s: Seq<Level>, i: int, l: Level)
    requires
        distinct_prices(s),
        0 <= i < s.len(),
        l.price@ == s[i].price@,
    ensures
        distinct_prices(s.update(i, l)),
        levels_map(s.update(i, l)) == levels_map(s).insert(l.price@, l.qty as int),
{
    let s2 = s.update(i, l);
    lemma_levels_map_char(s);
    assert(forall|k: int| 0 <= k < s2.len() ==> #[trigger] s2[k].price@ == s[k].price@);
    lemma_levels_map_char(s2);
    let target = levels_map(s).insert(l.price@, l.qty as int);
    assert forall|p: int| #[trigger] levels_map(s2).dom().contains(p) implies target.dom().contains(
        p,
    ) by {
        let k = choose|k: int| 0 <= k < s2.len() && s2[k].price@ == p;
        assert(s[k].price@ == p);
    };
    assert forall|p: int| #[trigger] target.dom().contains(p) implies levels_map(s2).dom().contains(
        p,
    ) by {
        if p != l.price@ {
            let k = choose|k: int| 0 <= k < s.len() && s[k].price@ == p;
            assert(s2[k].price@ == p);
        } else {
            assert(s2[i].price@ == p);
        }
    };
    assert forall|p: int| #[trigger] levels_map(s2).dom().contains(p) implies levels_map(s2)[p]
        == target[p] by {
        let k = choose|k: int| 0 <= k < s2.len() && s2[k].price@ == p;
        assert(levels_map(s2)[s2[k].price@] == s2[k].qty as int);
        if k == i {
            assert(levels_map(s2)[p] == l.qty as int);
        } else {
            assert(s2[k] == s[k]);
            assert(p != l.price@);
            assert(levels_map(s)[s[k].price@] == s[k].qty as int);
        }
    };
    assert(levels_map(s2) =~= target);
}

/// Removing a level removes its price from the map.
proof fn lemma_levels_remove(s: Seq<Level>, i: int)
    requires
        distinct_prices(s),
        0 <= i < s.len(),
    ensures
        distinct_prices(s.remove(i)),
        levels_map(s.remove(i)) == levels_map(s).remove(s[i].price@),
{
    let s2 = s.remove(i);
    s.remove_ensures(i);
    lemma_levels_map_char(s);
    assert forall|a: int, b: int| 0 <= a < b < s2.len() implies s2[a].price@ != s2[b].price@ by {
        let a2: int = if a < i {
            a
        } else {
            a + 1
        };
        let b2: int = if b < i {
            b
        } else {
            b + 1
        };
        assert(s2[a] == s[a2] && s2[b] == s[b2]);
    };
    lemma_levels_map_char(s2);
    let target = levels_map(s).remove(s[i].price@);
    assert forall|p: int| #[trigger] levels_map(s2).dom().contains(p) implies target.dom().contains(
        p,
    ) && levels_map(s2)[p] == target[p] by {
        let k = choose|k: int| 0 <= k < s2.len() && s2[k].price@ == p;
        let k2: int = if k < i {
            k
        } else {
            k + 1
        };
        assert(s2[k] == s[k2]);
        assert(s[k2].price@ == p);
        assert(p != s[i].price@);
        assert(levels_map(s)[s[k2].price@] == s[k2].qty as int);
        assert(levels_map(s2)[s2[k].price@] == s2[k].qty as int);
    };
    assert forall|p: int| #[trigger] target.dom().contains(p) implies levels_map(s2).dom().contains(
        p,
    ) by {
        let k = choose|k: int| 0 <= k < s.len() && s[k].price@ == p;
        assert(k != i);
        let k2: int = if k < i {
            k
        } else {
            k - 1
        };
        assert(s2[k2] == s[k]);
    };
    assert(levels_map(s2) =~= target);
}

/// Appending an order with a fresh id inserts it into the map.
proof fn lemma_orders_push(s: Seq<OrderRec>, o: OrderRec)
    requires
        distinct_ids(s),
        !has_id(s, o.id as int),
    ensures
        distinct_ids(s.push(o)),
        orders_map(s.push(o)) == orders_map(s).insert(
            o.id as int,
            OrderView { side: o.side, price: o.price@, qty: o.qty as int },
        ),
{
    assert(s.push(o).drop_last() =~= s);
    assert(s.push(o).last() == o);
    assert forall|i: int, j: int| 0 <= i < j < s.push(o).len() implies s.push(o)[i].id != s.push(
        o,
    )[j].id by {
        if j == s.len() {
            assert(s.push(o)[i] == s[i]);
        }
    };
}

/// Updating an order in place, keeping its id, updates the map value.
proof fn lemma_orders_update(s: Seq<OrderRec>, i: int, o: OrderRec)
    requires
        distinct_ids(s),
        0 <= i < s.len(),
        o.id == s[i].id,
    ensures
        distinct_ids(s.update(i, o)),
        orders_map(s.update(i, o)) == orders_map(s).insert(
            o.id as int,
            OrderView { side: o.side, price: o.price@, qty: o.qty as int },
        ),
{
    let s2 = s.update(i, o);
    lemma_orders_map_char(s);
    assert(forall|k: int| 0 <= k < s2.len() ==> #[trigger] s2[k].id == s[k].id);
    lemma_orders_map_char(s2);
    let target = orders_map(s).insert(
        o.id as int,
        OrderView { side: o.side, price: o.price@, qty: o.qty as int },
    );
    assert forall|d: int| #[trigger] orders_map(s2).dom().contains(d) implies target.dom().contains(
        d,
    ) by {
        let k = choose|k: int| 0 <= k < s2.len() && s2[k].id == d;
        assert(s[k].id == d);
    };
    assert forall|d: int| #[trigger] target.dom().contains(d) implies orders_map(s2).dom().contains(
        d,
    ) by {
        if d != o.id as int {
            let k = choose|k: int| 0 <= k < s.len() && s[k].id == d;
            assert(s2[k].id == d);
        } else {
            assert(s2[i].id == d);
        }
    };
    assert forall|d: int| #[trigger] orders_map(s2).dom().contains(d) implies orders_map(s2)[d]
        == target[d] by {
        let k = choose|k: int| 0 <= k < s2.len() && s2[k].id == d;
        assert(orders_map(s2)[s2[k].id as int] == (OrderView {
            side: s2[k].side,
            price: s2[k].price@,
            qty: s2[k].qty as int,
        }));
        if k != i {
            assert(s2[k] == s[k]);
            assert(d != o.id as int);
            assert(orders_map(s)[s[k].id as int] == (OrderView {
                side: s[k].side,
                price: s[k].price@,
                qty: s[k].qty as int,
            }));
        }
    };
    assert(orders_map(s2) =~= target);
}

/// Removing an order removes its id from the map.
proof fn lemma_orders_remove(s: Seq<OrderRec>, i: int)
    requires
        distinct_ids(s),
        0 <= i < s.len(),
    ensures
        distinct_ids(s.remove(i)),
        orders_map(s.remove(i)) == orders_map(s).remove(s[i].id as int),
{
    let s2 = s.remove(i);
    s.remove_ensures(i);
    lemma_orders_map_char(s);
    assert forall|a: int, b: int| 0 <= a < b < s2.len() implies s2[a].id != s2[b].id by {
        let a2: int = if a < i {
            a
        } else {
            a + 1
        };
        let b2: int = if b < i {
            b
        } else {
            b + 1
        };
        assert(s2[a] == s[a2] && s2[b] == s[b2]);
    };
    lemma_orders_map_char(s2);
    let target = orders_map(s).remove(s[i].id as int);
    assert forall|d: int| #[trigger] orders_map(s2).dom().contains(d) implies target.dom().contains(
        d,
    ) && orders_map(s2)[d] == target[d] by {
        let k = choose|k: int| 0 <= k < s2.len() && s2[k].id == d;
        let k2: int = if k < i {
            k
        } else {
            k + 1
        };
        assert(s2[k] == s[k2]);
        assert(s[k2].id == d);
        assert(d != s[i].id as int);
        assert(orders_map(s)[s[k2].id as int] == (OrderView {
            side: s[k2].side,
            price: s[k2].price@,
            qty: s[k2].qty as int,
        }));
        assert(orders_map(s2)[s2[k].id as int] == (OrderView {
            side: s2[k].side,
            price: s2[k].price@,
            qty: s2[k].qty as int,
        }));
    };
    assert forall|d: int| #[trigger] target.dom().contains(d) implies orders_map(s2).dom().contains(
        d,
    ) by {
        let k = choose|k: int| 0 <= k < s.len() && s[k].id == d;
        assert(k != i);
        let k2: int = if k < i {
            k
        } else {
            k - 1
        };
        assert(s2[k2] == s[k]);
    };
    assert(orders_map(s2) =~= target);
}

// ---------------------------------------------------------------------------
// The view, the public transition functions, and the invariant.
// ---------------------------------------------------------------------------

impl View for OrderBook {
    type V = BookView;

    closed spec fn view(&self) -> BookView {
        BookView {
            bids: levels_map(self.bids@),
            asks: levels_map(self.asks@),
            orders: orders_map(self.orders@),
        }
    }
}

/// The depth map of one side.
pub open spec fn side_depth(v: BookView, side: Side) -> Map<int, int> {
    match side {
        Side::Bid => v.bids,
        Side::Ask => v.asks,
    }
}

/// `v` with one side's depth map replaced.
pub open spec fn with_side_depth(v: BookView, side: Side, m: Map<int, int>) -> BookView {
    match side {
        Side::Bid => BookView { bids: m, asks: v.asks, orders: v.orders },
        Side::Ask => BookView { bids: v.bids, asks: m, orders: v.orders },
    }
}

/// The value of a depth map at `price`, zero where the level is absent.
pub open spec fn map_at(m: Map<int, int>, price: int) -> int {
    if m.dom().contains(price) {
        m[price]
    } else {
        0
    }
}

/// Aggregate resting quantity at one price level, zero where absent.
pub open spec fn depth_at(v: BookView, side: Side, price: int) -> int {
    map_at(side_depth(v, side), price)
}

/// Placing a new order: its quantity joins the aggregate at its price, and
/// the order becomes active under its id.
pub open spec fn place_spec(v: BookView, side: Side, price: int, qty: int, id: int) -> BookView {
    let v2 = with_side_depth(v, side, side_depth(v, side).insert(price, depth_at(v, side, price) + qty));
    BookView { orders: v.orders.insert(id, OrderView { side, price, qty }), ..v2 }
}

/// Cancelling an active order: its quantity leaves the aggregate at its
/// price — the level vanishes when nothing else rests there — and the id
/// stops being active.
pub open spec fn cancel_spec(v: BookView, id: int) -> BookView {
    let o = v.orders[id];
    let d = depth_at(v, o.side, o.price);
    let m = if d == o.qty {
        side_depth(v, o.side).remove(o.price)
    } else {
        side_depth(v, o.side).insert(o.price, d - o.qty)
    };
    let v2 = with_side_depth(v, o.side, m);
    BookView { orders: v.orders.remove(id), ..v2 }
}

/// Trading against a resting order: the traded quantity leaves the order
/// and its level; a fully filled order stops being active, and a level
/// whose aggregate reaches zero vanishes.
pub open spec fn trade_spec(v: BookView, id: int, qty: int) -> BookView {
    let o = v.orders[id];
    let d = depth_at(v, o.side, o.price);
    let m = if d == qty {
        side_depth(v, o.side).remove(o.price)
    } else {
        side_depth(v, o.side).insert(o.price, d - qty)
    };
    let v2 = with_side_depth(v, o.side, m);
    let orders = if o.qty == qty {
        v.orders.remove(id)
    } else {
        v.orders.insert(id, OrderView { side: o.side, price: o.price, qty: o.qty - qty })
    };
    BookView { orders, ..v2 }
}

/// Replacing an active order is exactly a cancel followed by a place under
/// the same id and side, at the new price and quantity.
pub open spec fn replace_spec(v: BookView, id: int, new_price: int, new_qty: int) -> BookView {
    place_spec(cancel_spec(v, id), v.orders[id].side, new_price, new_qty, id)
}

/// The empty book.
pub open spec fn empty_book() -> BookView {
    BookView { bids: Map::empty(), asks: Map::empty(), orders: Map::empty() }
}

impl OrderBook {
    /// The engine's internal consistency: each side's levels carry distinct
    /// prices; each present level's aggregate is exactly the sum of the
    /// quantities of the active orders resting there, and is positive; the
    /// order index carries distinct ids, every active order has quantity at
    /// least one, and rests at a price level that is present on its side.
    pub closed spec fn wf(&self) -> bool {
        &&& distinct_prices(self.bids@)
        &&& distinct_prices(self.asks@)
        &&& distinct_ids(self.orders@)
        &&& forall|j: int| 0 <= j < self.orders@.len() ==> (#[trigger] self.orders@[j].qty) >= 1
        &&& forall|p: int|
            #[trigger] self@.bids.dom().contains(p) ==> self@.bids[p] == qty_sum(
                self.orders@,
                Side::Bid,
                p,
            ) && self@.bids[p] >= 1
        &&& forall|p: int|
            #[trigger] self@.asks.dom().contains(p) ==> self@.asks[p] == qty_sum(
                self.orders@,
                Side::Ask,
                p,
            ) && self@.asks[p] >= 1
        &&& forall|j: int|
            0 <= j < self.orders@.len() ==> side_depth(
                self@,
                (#[trigger] self.orders@[j]).side,
            ).dom().contains(self.orders@[j].price@)
    }

    /// A fresh, empty book.
    pub fn new() -> (r: OrderBook)
        ensures
            r.wf(),
            r@ == empty_book(),
    {
        let r = OrderBook { bids: Vec::new(), asks: Vec::new(), orders: Vec::new() };
        proof {
            assert(r@.bids =~= empty_book().bids);
            assert(r@.asks =~= empty_book().asks);
            assert(r@.orders =~= empty_book().orders);
            assert(r@ =~= empty_book());
        }
        r
    }
}

/// An empty book is well-formed and views as [`empty_book`]; restated as a
/// `Default`.
impl Default for OrderBook {
    fn default() -> (r: OrderBook)
        ensures
            r.wf(),
            r@ == empty_book(),
    {
        OrderBook::new()
    }
}

// ---------------------------------------------------------------------------
// Lookup helpers over the stored vectors.
// ---------------------------------------------------------------------------

/// Finds the index of the level at `price`, with the matching map facts.
fn find_level(levels: &Vec<Level>, price: Price) -> (r: Option<usize>)
    requires
        distinct_prices(levels@),
    ensures
        match r {
            Some(i) => i < levels@.len() && levels@[i as int].price@ == price@ && levels_map(
                levels@,
            ).dom().contains(price@) && levels_map(levels@)[price@] == levels@[i as int].qty as int,
            None => !levels_map(levels@).dom().contains(price@),
        },
{
    proof {
        lemma_levels_map_char(levels@);
    }
    let mut i: usize = 0;
    while i < levels.len()
        invariant
            i <= levels@.len(),
            distinct_prices(levels@),
            forall|k: int| 0 <= k < i ==> (#[trigger] levels@[k].price@) != price@,
        decreases levels@.len() - i,
    {
        if levels[i].price.units() == price.units() {
            proof {
                lemma_levels_map_char(levels@);
                assert(has_price(levels@, price@)) by {
                    assert(levels@[i as int].price@ == price@);
                }
                assert(levels_map(levels@)[levels@[i as int].price@] == levels@[i as int].qty as int);
            }
            return Some(i);
        }
        i = i + 1;
    }
    proof {
        lemma_levels_map_char(levels@);
    }
    None
}

/// Finds the index of the active order `id`, with the matching map facts.
fn find_order(orders: &Vec<OrderRec>, id: OrderId) -> (r: Option<usize>)
    requires
        distinct_ids(orders@),
    ensures
        match r {
            Some(j) => j < orders@.len() && orders@[j as int].id == id && orders_map(
                orders@,
            ).dom().contains(id as int) && orders_map(orders@)[id as int] == (OrderView {
                side: orders@[j as int].side,
                price: orders@[j as int].price@,
                qty: orders@[j as int].qty as int,
            }),
            None => !orders_map(orders@).dom().contains(id as int),
        },
{
    proof {
        lemma_orders_map_char(orders@);
    }
    let mut j: usize = 0;
    while j < orders.len()
        invariant
            j <= orders@.len(),
            distinct_ids(orders@),
            forall|k: int| 0 <= k < j ==> (#[trigger] orders@[k].id) != id,
        decreases orders@.len() - j,
    {
        if orders[j].id == id {
            proof {
                lemma_orders_map_char(orders@);
                assert(has_id(orders@, id as int)) by {
                    assert(orders@[j as int].id == id);
                }
                assert(orders_map(orders@)[orders@[j as int].id as int] == (OrderView {
                    side: orders@[j as int].side,
                    price: orders@[j as int].price@,
                    qty: orders@[j as int].qty as int,
                }));
            }
            return Some(j);
        }
        j = j + 1;
    }
    proof {
        lemma_orders_map_char(orders@);
    }
    None
}

/// Adds `quantity` to the level at `price`, creating the level if absent.
fn level_add(levels: &mut Vec<Level>, price: Price, quantity: u64)
    requires
        distinct_prices(old(levels)@),
        map_at(levels_map(old(levels)@), price@) + quantity <= u128::MAX,
    ensures
        distinct_prices(final(levels)@),
        levels_map(final(levels)@) == levels_map(old(levels)@).insert(
            price@,
            map_at(levels_map(old(levels)@), price@) + quantity,
        ),
{
    match find_level(levels, price) {
        Some(i) => {
            let q = levels[i].qty;
            proof {
                lemma_levels_update(
                    levels@,
                    i as int,
                    Level { price, qty: (q + quantity) as u128 },
                );
            }
            levels.set(i, Level { price, qty: q + quantity as u128 });
        },
        None => {
            proof {
                lemma_levels_map_char(levels@);
                lemma_levels_push(levels@, Level { price, qty: quantity as u128 });
            }
            levels.push(Level { price, qty: quantity as u128 });
        },
    }
}

/// Takes `quantity` out of the level at `price`, removing the level when
/// its aggregate reaches zero.
fn level_sub(levels: &mut Vec<Level>, price: Price, quantity: u128)
    requires
        distinct_prices(old(levels)@),
        levels_map(old(levels)@).dom().contains(price@),
        quantity <= levels_map(old(levels)@)[price@],
    ensures
        distinct_prices(final(levels)@),
        levels_map(final(levels)@) == (if levels_map(old(levels)@)[price@] == quantity {
            levels_map(old(levels)@).remove(price@)
        } else {
            levels_map(old(levels)@).insert(
                price@,
                levels_map(old(levels)@)[price@] - quantity,
            )
        }),
{
    match find_level(levels, price) {
        Some(i) => {
            let q = levels[i].qty;
            if q == quantity {
                proof {
                    lemma_levels_remove(levels@, i as int);
                }
                levels.remove(i);
            } else {
                proof {
                    lemma_levels_update(
                        levels@,
                        i as int,
                        Level { price, qty: (q - quantity) as u128 },
                    );
                }
                levels.set(i, Level { price, qty: q - quantity });
            }
        },
        None => {
            proof {
                assert(false);
            }
        },
    }
}

// ---------------------------------------------------------------------------
// The operations.
// ---------------------------------------------------------------------------

/// The aggregate at a level plus one more order's quantity stays well
/// inside `u128`: there are at most `usize::MAX` active orders of at most
/// `u64::MAX` each.
proof fn lemma_depth_headroom(b: &OrderBook, side: Side, price: int, quantity: u64)
    requires
        b.wf(),
    ensures
        map_at(side_depth(b@, side), price) + quantity <= u128::MAX,
{
    if side_depth(b@, side).dom().contains(price) {
        lemma_qty_sum_upper_bound(b.orders@, side, price);
        let l = b.orders@.len() as int;
        assert(b.orders.len() == b.orders@.len());
        assert(l <= 0xffff_ffff_ffff_ffff);
        assert(l * 0xffff_ffff_ffff_ffff + 0xffff_ffff_ffff_ffff <= 0x1_0000_0000_0000_0000
            * 0xffff_ffff_ffff_ffff) by (nonlinear_arith)
            requires
                l <= 0xffff_ffff_ffff_ffff,
        ;
        assert(0x1_0000_0000_0000_0000 * 0xffff_ffff_ffff_ffff
            == 0xffff_ffff_ffff_ffff_0000_0000_0000_0000) by (nonlinear_arith);
    }
}

impl OrderBook {
    /// Inserts a new active order: the side's aggregate at `price` grows by
    /// `quantity` (the level is created if absent) and `order_id` becomes
    /// active. Fails, leaving the book untouched, exactly when `order_id`
    /// is already active.
    pub fn on_new_order(
        &mut self,
        side: Side,
        price: Price,
        quantity: Quantity,
        order_id: OrderId,
    ) -> (r: Result<(), EngineError>)
        requires
            old(self).wf(),
            quantity >= 1,
        ensures
            final(self).wf(),
            match r {
                Ok(_) => !old(self)@.orders.dom().contains(order_id as int) && final(self)@
                    == place_spec(old(self)@, side, price@, quantity as int, order_id as int),
                Err(e) => e == EngineError::DuplicateOrderId && old(self)@.orders.dom().contains(
                    order_id as int,
                ) && *final(self) == *old(self),
            },
    {
        if let Some(_) = find_order(&self.orders, order_id) {
            return Err(EngineError::DuplicateOrderId);
        }
        let ghost v0 = self@;
        let ghost orders0 = self.orders@;
        proof {
            lemma_depth_headroom(self, side, price@, quantity);
        }
        match side {
            Side::Bid => level_add(&mut self.bids, price, quantity),
            Side::Ask => level_add(&mut self.asks, price, quantity),
        }
        let rec = OrderRec { id: order_id, side, price, qty: quantity };
        proof {
            lemma_orders_map_char(orders0);
            lemma_orders_push(self.orders@, rec);
        }
        self.orders.push(rec);
        proof {
            let v1 = place_spec(v0, side, price@, quantity as int, order_id as int);
            assert(self@ == v1);
            lemma_place_wf(*old(self), *self, rec);
        }
        Ok(())
    }
}

/// Placing a fresh order on a well-formed book leaves it well-formed.
proof fn lemma_place_wf(b0: OrderBook, b1: OrderBook, rec: OrderRec)
    requires
        b0.wf(),
        rec.qty >= 1,
        !b0@.orders.dom().contains(rec.id as int),
        b1.orders@ == b0.orders@.push(rec),
        distinct_ids(b1.orders@),
        distinct_prices(b1.bids@),
        distinct_prices(b1.asks@),
        side_depth(b1@, rec.side) == side_depth(b0@, rec.side).insert(
            rec.price@,
            map_at(side_depth(b0@, rec.side), rec.price@) + rec.qty,
        ),
        side_depth(b1@, flip(rec.side)) == side_depth(b0@, flip(rec.side)),
    ensures
        b1.wf(),
{
    let side = rec.side;
    let p = rec.price@;
    // No active order rests at an absent level, so the old sum there is
    // exactly the old aggregate, present or not.
    if !side_depth(b0@, side).dom().contains(p) {
        assert forall|i: int| 0 <= i < b0.orders@.len() implies !(#[trigger] b0.orders@[i].side
            == side && b0.orders@[i].price@ == p) by {
            if b0.orders@[i].side == side && b0.orders@[i].price@ == p {
                assert(side_depth(b0@, b0.orders@[i].side).dom().contains(b0.orders@[i].price@));
            }
        };
        lemma_qty_sum_zero(b0.orders@, side, p);
    }
    assert(qty_sum(b0.orders@, side, p) == map_at(side_depth(b0@, side), p));
    assert forall|q: int|
        #[trigger] side_depth(b1@, side).dom().contains(q) implies side_depth(b1@, side)[q]
        == qty_sum(b1.orders@, side, q) && side_depth(b1@, side)[q] >= 1 by {
        lemma_qty_sum_push(b0.orders@, rec, side, q);
        if q != p {
            assert(side_depth(b0@, side).dom().contains(q));
        }
    };
    assert forall|q: int|
        #[trigger] side_depth(b1@, flip(side)).dom().contains(q) implies side_depth(
        b1@,
        flip(side),
    )[q] == qty_sum(b1.orders@, flip(side), q) && side_depth(b1@, flip(side))[q] >= 1 by {
        lemma_qty_sum_push(b0.orders@, rec, flip(side), q);
    };
    assert forall|j: int| 0 <= j < b1.orders@.len() implies side_depth(
        b1@,
        (#[trigger] b1.orders@[j]).side,
    ).dom().contains(b1.orders@[j].price@) by {
        if j < b0.orders@.len() {
            assert(b1.orders@[j] == b0.orders@[j]);
            assert(side_depth(b0@, b0.orders@[j].side).dom().contains(b0.orders@[j].price@));
            if b0.orders@[j].side == side {
                assert(side_depth(b1@, side).dom().contains(b0.orders@[j].price@));
            }
        } else {
            assert(b1.orders@[j] == rec);
        }
    };
    assert(forall|j: int| 0 <= j < b1.orders@.len() ==> (#[trigger] b1.orders@[j].qty) >= 1);
    assert(b1.wf()) by {
        assert(forall|q: int|
            #[trigger] b1@.bids.dom().contains(q) ==> b1@.bids[q] == qty_sum(
                b1.orders@,
                Side::Bid,
                q,
            ) && b1@.bids[q] >= 1) by {
            match side {
                Side::Bid => {
                    assert(side_depth(b1@, Side::Bid) == b1@.bids);
                },
                Side::Ask => {
                    assert(side_depth(b1@, Side::Bid) == b1@.bids);
                },
            }
        };
        assert(forall|q: int|
            #[trigger] b1@.asks.dom().contains(q) ==> b1@.asks[q] == qty_sum(
                b1.orders@,
                Side::Ask,
                q,
            ) && b1@.asks[q] >= 1) by {
            match side {
                Side::Bid => {
                    assert(side_depth(b1@, Side::Ask) == b1@.asks);
                },
                Side::Ask => {
                    assert(side_depth(b1@, Side::Ask) == b1@.asks);
                },
            }
        };
    };
}

impl OrderBook {
    /// What well-formedness reveals of the view: every present price level
    /// on either side carries a positive aggregate.
    pub proof fn lemma_depths_positive(&self)
        requires
            self.wf(),
        ensures
            forall|p: int| #[trigger] self@.bids.dom().contains(p) ==> self@.bids[p] >= 1,
            forall|p: int| #[trigger] self@.asks.dom().contains(p) ==> self@.asks[p] >= 1,
    {
    }
}

/// The opposite side.
pub open spec fn flip(side: Side) -> Side {
    match side {
        Side::Bid => Side::Ask,
        Side::Ask => Side::Bid,
    }
}

impl OrderBook {
    /// Applies a reported fill: the traded `quantity` leaves the resting
    /// order and its price level. A fully filled order stops being active;
    /// a level whose aggregate reaches zero vanishes. Fails, leaving the
    /// book untouched, exactly when the order is not active or the trade
    /// exceeds its remaining quantity.
    pub fn on_trade(&mut self, quantity: Quantity, resting_order_id: OrderId) -> (r: Result<
        (),
        EngineError,
    >)
        requires
            old(self).wf(),
        ensures
            final(self).wf(),
            match r {
                Ok(_) => old(self)@.orders.dom().contains(resting_order_id as int) && quantity
                    <= old(self)@.orders[resting_order_id as int].qty && final(self)@ == trade_spec(
                    old(self)@,
                    resting_order_id as int,
                    quantity as int,
                ),
                Err(e) => *final(self) == *old(self) && ((e == EngineError::UnknownOrderId && !old(
                    self,
                )@.orders.dom().contains(resting_order_id as int)) || (e
                    == EngineError::OvertradeError && old(self)@.orders.dom().contains(
                    resting_order_id as int,
                ) && quantity > old(self)@.orders[resting_order_id as int].qty)),
            },
    {
        let j = match find_order(&self.orders, resting_order_id) {
            None => {
                return Err(EngineError::UnknownOrderId);
            },
            Some(j) => j,
        };
        let rec = self.orders[j];
        if quantity > rec.qty {
            return Err(EngineError::OvertradeError);
        }
        let ghost b0 = *self;
        proof {
            lemma_qty_sum_lower_bound(self.orders@, j as int);
            lemma_orders_map_char(self.orders@);
        }
        let rec2 = OrderRec { id: rec.id, side: rec.side, price: rec.price, qty: rec.qty
            - quantity };
        if quantity == rec.qty {
            proof {
                lemma_orders_remove(self.orders@, j as int);
            }
            self.orders.remove(j);
        } else {
            proof {
                lemma_orders_update(self.orders@, j as int, rec2);
            }
            self.orders.set(j, rec2);
        }
        match rec.side {
            Side::Bid => level_sub(&mut self.bids, rec.price, quantity as u128),
            Side::Ask => level_sub(&mut self.asks, rec.price, quantity as u128),
        }
        proof {
            lemma_trade_wf(b0, *self, j as int, rec, rec2, quantity);
        }
        Ok(())
    }

    /// Cancels an active order outright: a trade of its full remaining
    /// quantity. Fails, leaving the book untouched, exactly when the order
    /// is not active.
    pub fn on_cancel_order(&mut self, order_id: OrderId) -> (r: Result<(), EngineError>)
        requires
            old(self).wf(),
        ensures
            final(self).wf(),
            match r {
                Ok(_) => old(self)@.orders.dom().contains(order_id as int) && final(self)@
                    == cancel_spec(old(self)@, order_id as int),
                Err(e) => e == EngineError::UnknownOrderId && !old(self)@.orders.dom().contains(
                    order_id as int,
                ) && *final(self) == *old(self),
            },
    {
        let j = match find_order(&self.orders, order_id) {
            None => {
                return Err(EngineError::UnknownOrderId);
            },
            Some(j) => j,
        };
        let q = self.orders[j].qty;
        let r = self.on_trade(q, order_id);
        match r {
            Ok(_) => Ok(()),
            Err(_) => {
                proof {
                    assert(false);
                }
                Err(EngineError::UnknownOrderId)
            },
        }
    }

    /// Replaces an active order: a cancel followed by a place under the
    /// same id and side, at the new price and quantity. Fails, leaving the
    /// book untouched, exactly when the order is not active.
    pub fn on_replace_order(&mut self, price: Price, quantity: Quantity, order_id: OrderId) -> (r:
        Result<(), EngineError>)
        requires
            old(self).wf(),
            quantity >= 1,
        ensures
            final(self).wf(),
            match r {
                Ok(_) => old(self)@.orders.dom().contains(order_id as int) && final(self)@
                    == replace_spec(old(self)@, order_id as int, price@, quantity as int),
                Err(e) => e == EngineError::UnknownOrderId && !old(self)@.orders.dom().contains(
                    order_id as int,
                ) && *final(self) == *old(self),
            },
    {
        let j = match find_order(&self.orders, order_id) {
            None => {
                return Err(EngineError::UnknownOrderId);
            },
            Some(j) => j,
        };
        let side = self.orders[j].side;
        let r1 = self.on_cancel_order(order_id);
        match r1 {
            Err(_) => {
                proof {
                    assert(false);
                }
                Err(EngineError::UnknownOrderId)
            },
            Ok(_) => {
                let r2 = self.on_new_order(side, price, quantity, order_id);
                match r2 {
                    Err(_) => {
                        proof {
                            assert(false);
                        }
                        Err(EngineError::UnknownOrderId)
                    },
                    Ok(_) => Ok(()),
                }
            },
        }
    }

    /// Aggregate resting quantity at one price level. An absent level is an
    /// error by design, never zero.
    pub fn get_size_for_price_level(&self, side: Side, price: Price) -> (r: Result<
        u128,
        EngineError,
    >)
        requires
            self.wf(),
        ensures
            match r {
                Ok(q) => side_depth(self@, side).dom().contains(price@) && q == side_depth(
                    self@,
                    side,
                )[price@],
                Err(e) => e == EngineError::NoSuchPriceLevel && !side_depth(
                    self@,
                    side,
                ).dom().contains(price@),
            },
    {
        let found = match side {
            Side::Bid => find_level(&self.bids, price),
            Side::Ask => find_level(&self.asks, price),
        };
        match (found, side) {
            (Some(i), Side::Bid) => Ok(self.bids[i].qty),
            (Some(i), Side::Ask) => Ok(self.asks[i].qty),
            (None, _) => Err(EngineError::NoSuchPriceLevel),
        }
    }

    /// The number of distinct price levels on one side.
    pub fn get_book_depth(&self, side: Side) -> (r: usize)
        requires
            self.wf(),
        ensures
            r == side_depth(self@, side).dom().len(),
    {
        proof {
            lemma_levels_map_char(self.bids@);
            lemma_levels_map_char(self.asks@);
        }
        match side {
            Side::Bid => self.bids.len(),
            Side::Ask => self.asks.len(),
        }
    }

    /// The best price on one side: the highest bid, the lowest ask. Fails
    /// exactly when the side has no levels.
    pub fn get_top_of_book(&self, side: Side) -> (r: Result<Price, EngineError>)
        requires
            self.wf(),
        ensures
            match r {
                Ok(p) => side_depth(self@, side).dom().contains(p@) && (forall|q: int|
                    #[trigger] side_depth(self@, side).dom().contains(q) ==> (match side {
                        Side::Bid => q <= p@,
                        Side::Ask => q >= p@,
                    })),
                Err(e) => e == EngineError::EmptyBook && (forall|q: int|
                    !(#[trigger] side_depth(self@, side).dom().contains(q))),
            },
    {
        let best = match side {
            Side::Bid => best_price(&self.bids, side),
            Side::Ask => best_price(&self.asks, side),
        };
        match best {
            Some(p) => Ok(p),
            None => Err(EngineError::EmptyBook),
        }
    }
}

/// The extremal price among `levels`: the maximum for bids, the minimum
/// for asks; nothing when there is no level at all.
fn best_price(levels: &Vec<Level>, side: Side) -> (r: Option<Price>)
    requires
        distinct_prices(levels@),
    ensures
        match r {
            Some(p) => levels_map(levels@).dom().contains(p@) && (forall|q: int|
                #[trigger] levels_map(levels@).dom().contains(q) ==> (match side {
                    Side::Bid => q <= p@,
                    Side::Ask => q >= p@,
                })),
            None => forall|q: int| !(#[trigger] levels_map(levels@).dom().contains(q)),
        },
{
    if levels.len() == 0 {
        proof {
            lemma_levels_map_char(levels@);
        }
        return None;
    }
    let mut best = levels[0].price;
    proof {
        assert(levels@[0].price@ == best@);
    }
    let mut i: usize = 1;
    while i < levels.len()
        invariant
            1 <= i <= levels@.len(),
            distinct_prices(levels@),
            exists|k: int| 0 <= k < i && (#[trigger] levels@[k].price@) == best@,
            forall|k: int|
                0 <= k < i ==> (match side {
                    Side::Bid => (#[trigger] levels@[k].price@) <= best@,
                    Side::Ask => (#[trigger] levels@[k].price@) >= best@,
                }),
        decreases levels@.len() - i,
    {
        let better = match side {
            Side::Bid => best.lt(&levels[i].price),
            Side::Ask => levels[i].price.lt(&best),
        };
        if better {
            best = levels[i].price;
            proof {
                assert(levels@[i as int].price@ == best@);
            }
        }
        i = i + 1;
    }
    proof {
        lemma_levels_map_char(levels@);
        let k = choose|k: int| 0 <= k < levels@.len() && (#[trigger] levels@[k].price@) == best@;
        assert(has_price(levels@, best@));
        assert forall|q: int| #[trigger] levels_map(levels@).dom().contains(q) implies (match side {
            Side::Bid => q <= best@,
            Side::Ask => q >= best@,
        }) by {
            let k2 = choose|k2: int| 0 <= k2 < levels@.len() && levels@[k2].price@ == q;
            assert(levels@[k2].price@ == q);
        };
    }
    Some(best)
}

/// Trading against a well-formed book leaves it well-formed and effects
/// exactly [`trade_spec`].
proof fn lemma_trade_wf(
    b0: OrderBook,
    b1: OrderBook,
    j: int,
    rec: OrderRec,
    rec2: OrderRec,
    quantity: u64,
)
    requires
        b0.wf(),
        0 <= j < b0.orders@.len(),
        rec == b0.orders@[j],
        quantity <= rec.qty,
        rec2.id == rec.id && rec2.side == rec.side && rec2.price@ == rec.price@ && rec2.qty
            == rec.qty - quantity,
        b1.orders@ == (if rec.qty == quantity {
            b0.orders@.remove(j)
        } else {
            b0.orders@.update(j, rec2)
        }),
        side_depth(b1@, rec.side) == (if map_at(side_depth(b0@, rec.side), rec.price@)
            == quantity {
            side_depth(b0@, rec.side).remove(rec.price@)
        } else {
            side_depth(b0@, rec.side).insert(
                rec.price@,
                map_at(side_depth(b0@, rec.side), rec.price@) - quantity,
            )
        }),
        side_depth(b1@, flip(rec.side)) == side_depth(b0@, flip(rec.side)),
        distinct_prices(b1.bids@),
        distinct_prices(b1.asks@),
    ensures
        b1.wf(),
        b1@ == trade_spec(b0@, rec.id as int, quantity as int),
{
    let side = rec.side;
    let p = rec.price@;
    let id = rec.id as int;
    lemma_orders_map_char(b0.orders@);
    assert(side_depth(b0@, side).dom().contains(p));
    let d = map_at(side_depth(b0@, side), p);
    assert(d == qty_sum(b0.orders@, side, p));
    lemma_qty_sum_lower_bound(b0.orders@, j);
    // The order table after the trade, as a map.
    if rec.qty == quantity {
        lemma_orders_remove(b0.orders@, j);
        b0.orders@.remove_ensures(j);
    } else {
        lemma_orders_update(b0.orders@, j, rec2);
    }
    assert(b0@.orders[id] == (OrderView { side, price: p, qty: rec.qty as int }));
    assert(b1@ == trade_spec(b0@, id, quantity as int));
    // Sums after the trade, pointwise over sides and prices.
    assert forall|s2: Side, q: int|
        qty_sum(b1.orders@, s2, q) == qty_sum(b0.orders@, s2, q) - (if s2 == side && q == p {
            quantity as int
        } else {
            0
        }) by {
        if rec.qty == quantity {
            lemma_qty_sum_remove(b0.orders@, j, s2, q);
        } else {
            lemma_qty_sum_update(b0.orders@, j, rec2, s2, q);
        }
    };
    // Each surviving order still has a live level.
    assert forall|k: int| 0 <= k < b1.orders@.len() implies side_depth(
        b1@,
        (#[trigger] b1.orders@[k]).side,
    ).dom().contains(b1.orders@[k].price@) by {
        let k0: int = if rec.qty == quantity {
            if k < j {
                k
            } else {
                k + 1
            }
        } else {
            k
        };
        if rec.qty != quantity && k == j {
            assert(b1.orders@[k] == rec2);
        } else {
            assert(b1.orders@[k] == b0.orders@[k0]);
        }
        let o = b1.orders@[k];
        assert(side_depth(b0@, o.side).dom().contains(o.price@));
        if o.side == side && o.price@ == p && d == quantity {
            // The level vanished, yet `o` still rests there: its quantity
            // would make the new sum positive while it is zero.
            assert(qty_sum(b1.orders@, side, p) == 0);
            lemma_qty_sum_lower_bound(b1.orders@, k);
            assert(o.qty >= 1);
            assert(false);
        }
    };
    // Each live level carries the new sum, still positive.
    assert forall|q: int|
        #[trigger] side_depth(b1@, side).dom().contains(q) implies side_depth(b1@, side)[q]
        == qty_sum(b1.orders@, side, q) && side_depth(b1@, side)[q] >= 1 by {
        assert(side_depth(b0@, side).dom().contains(q));
        if q == p {
            assert(d != quantity);
        }
    };
    assert forall|q: int|
        #[trigger] side_depth(b1@, flip(side)).dom().contains(q) implies side_depth(
        b1@,
        flip(side),
    )[q] == qty_sum(b1.orders@, flip(side), q) && side_depth(b1@, flip(side))[q] >= 1 by {
        assert(flip(side) != side);
    };
    assert(b1.wf()) by {
        assert(forall|q: int|
            #[trigger] b1@.bids.dom().contains(q) ==> b1@.bids[q] == qty_sum(
                b1.orders@,
                Side::Bid,
                q,
            ) && b1@.bids[q] >= 1) by {
            match side {
                Side::Bid => {
                    assert(side_depth(b1@, Side::Bid) == b1@.bids);
                },
                Side::Ask => {
                    assert(side_depth(b1@, Side::Bid) == b1@.bids);
                },
            }
        };
        assert(forall|q: int|
            #[trigger] b1@.asks.dom().contains(q) ==> b1@.asks[q] == qty_sum(
                b1.orders@,
                Side::Ask,
                q,
            ) && b1@.asks[q] >= 1) by {
            match side {
                Side::Bid => {
                    assert(side_depth(b1@, Side::Ask) == b1@.asks);
                },
                Side::Ask => {
                    assert(side_depth(b1@, Side::Ask) == b1@.asks);
                },
            }
        };
    };
}

} // verus!
