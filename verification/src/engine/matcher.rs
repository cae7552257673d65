use vstd::prelude::*;
use crate::engine::book::OrderBook;
use crate::engine::model::{contains_id, unique_ids, view_active, RestingOrder};
use crate::storage::layout::{OrderId, Price, Quantity, Side};

verus! {

/// What one matching pass did: the maker chain left behind, the trades
/// in execution order, the taker quantity still unfilled, and the
/// identifiers of makers that were fully consumed, head first.
pub struct MatchOutcome {
    pub makers: Seq<RestingOrder>,
    pub trades: Seq<Trade>,
    pub remaining: u64,
    pub filled: Seq<u64>,
}

/// One execution event: the taker crossed the maker's resting order
/// for `quantity` at the maker's price. Trades are returned to the
/// caller and own no further lifecycle.
#[derive(Debug, Clone)]
pub struct Trade {
    pub maker_id: OrderId,
    pub taker_id: OrderId,
    pub price: Price,
    pub quantity: Quantity,
    pub maker_side: Side,
}

/// Whether a taker at `taker_price` crosses a resting maker at
/// `maker_price`: a buyer pays at least the ask, a seller accepts at
/// most the bid.
pub open spec fn spec_crosses(taker_side: Side, taker_price: u64, maker_price: u64) -> bool {
    match taker_side {
        Side::Buy => taker_price >= maker_price,
        Side::Sell => taker_price <= maker_price,
    }
}

/// What matching an incoming order against the maker chain yields:
/// consume the chain head first while quantity remains and the spread
/// is crossed; each fill executes at the maker's resting price; a
/// fully consumed maker leaves the chain, a partially consumed one
/// stays at the head with reduced quantity.
pub open spec fn spec_match(
    makers: Seq<RestingOrder>,
    taker_id: u64,
    taker_side: Side,
    taker_price: u64,
    taker_qty: u64,
) -> MatchOutcome
    decreases makers.len(),
{
    if taker_qty == 0 || makers.len() == 0 || !spec_crosses(taker_side, taker_price, makers[0].price) {
        MatchOutcome { makers, trades: Seq::empty(), remaining: taker_qty, filled: Seq::empty() }
    } else {
        let m = makers[0];
        let trade = Trade {
            maker_id: OrderId(m.id),
            taker_id: OrderId(taker_id),
            price: Price(m.price),
            quantity: Quantity(if taker_qty < m.qty { taker_qty } else { m.qty }),
            maker_side: taker_side.spec_opposite(),
        };
        if m.qty <= taker_qty {
            let rest = spec_match(
                makers.drop_first(),
                taker_id,
                taker_side,
                taker_price,
                (taker_qty - m.qty) as u64,
            );
            MatchOutcome {
                makers: rest.makers,
                trades: seq![trade] + rest.trades,
                remaining: rest.remaining,
                filled: seq![m.id] + rest.filled,
            }
        } else {
            MatchOutcome {
                makers: makers.update(0, RestingOrder { qty: (m.qty - taker_qty) as u64, ..m }),
                trades: seq![trade],
                remaining: 0,
                filled: Seq::empty(),
            }
        }
    }
}

/// The total quantity executed by a run of trades.
pub open spec fn sum_trade_qty(trades: Seq<Trade>) -> int
    decreases trades.len(),
{
    if trades.len() == 0 {
        0
    } else {
        trades[0].quantity.0 + sum_trade_qty(trades.drop_first())
    }
}

/// Structure of a matching pass: the makers left behind are a
/// sub-population of those offered (no identifier appears from
/// nowhere, uniqueness is kept), the fully consumed identifiers all
/// came from the offered chain, and matching only ever stops with
/// quantity in hand when the chain is exhausted or the spread is no
/// longer crossed.
pub proof fn lemma_match_makers_shape(
    makers: Seq<RestingOrder>,
    taker_id: u64,
    taker_side: Side,
    taker_price: u64,
    taker_qty: u64,
)
    ensures
        ({
            let m = spec_match(makers, taker_id, taker_side, taker_price, taker_qty);
            &&& (forall|x: u64| #[trigger] contains_id(m.makers, x) ==> contains_id(makers, x))
            &&& (forall|x: u64| m.filled.contains(x) ==> contains_id(makers, x))
            &&& (unique_ids(makers) ==> unique_ids(m.makers))
            &&& m.remaining <= taker_qty
            &&& (m.remaining > 0 ==> m.makers.len() == 0 || !spec_crosses(
                taker_side,
                taker_price,
                m.makers[0].price,
            ))
        }),
    decreases makers.len(),
{
    let m = spec_match(makers, taker_id, taker_side, taker_price, taker_qty);
    if taker_qty == 0 || makers.len() == 0 || !spec_crosses(taker_side, taker_price, makers[0].price) {
    } else {
        let m0 = makers[0];
        if m0.qty <= taker_qty {
            let tail = makers.drop_first();
            lemma_match_makers_shape(
                tail,
                taker_id,
                taker_side,
                taker_price,
                (taker_qty - m0.qty) as u64,
            );
            let rest = spec_match(
                tail,
                taker_id,
                taker_side,
                taker_price,
                (taker_qty - m0.qty) as u64,
            );
            assert forall|x: u64| #[trigger] contains_id(m.makers, x) implies contains_id(
                makers,
                x,
            ) by {
                assert(contains_id(tail, x));
                let k = choose|k: int| 0 <= k < tail.len() && (#[trigger] tail[k]).id == x;
                assert(makers[k + 1].id == x);
            }
            assert forall|x: u64| m.filled.contains(x) implies contains_id(makers, x) by {
                if x == m0.id {
                    assert(makers[0].id == x);
                } else {
                    assert(rest.filled.contains(x));
                    assert(contains_id(tail, x));
                    let k = choose|k: int| 0 <= k < tail.len() && (#[trigger] tail[k]).id == x;
                    assert(makers[k + 1].id == x);
                }
            }
            if unique_ids(makers) {
                assert forall|i: int, j: int|
                    0 <= i < j < tail.len() implies (#[trigger] tail[i]).id != (
                #[trigger] tail[j]).id by {
                    assert(tail[i] == makers[i + 1] && tail[j] == makers[j + 1]);
                }
            }
        } else {
            let upd = makers.update(0, RestingOrder { qty: (m0.qty - taker_qty) as u64, ..m0 });
            assert forall|x: u64| #[trigger] contains_id(upd, x) implies contains_id(makers, x) by {
                let k = choose|k: int| 0 <= k < upd.len() && (#[trigger] upd[k]).id == x;
                assert(makers[k].id == x);
            }
            if unique_ids(makers) {
                assert forall|i: int, j: int|
                    0 <= i < j < upd.len() implies (#[trigger] upd[i]).id != (#[trigger] upd[j]).id by {
                    assert(upd[i].id == makers[i].id && upd[j].id == makers[j].id);
                }
            }
        }
    }
}

/// Conservation of quantity: the trades of one matching pass add up
/// exactly to the quantity consumed from the taker; each trade
/// executes against the makers head first, at the maker's resting
/// price, for no more than that maker had resting and no more than
/// the taker still had open before it.
pub proof fn lemma_match_conserves_quantity(
    makers: Seq<RestingOrder>,
    taker_id: u64,
    taker_side: Side,
    taker_price: u64,
    taker_qty: u64,
)
    ensures
        ({
            let m = spec_match(makers, taker_id, taker_side, taker_price, taker_qty);
            &&& m.remaining <= taker_qty
            &&& taker_qty - m.remaining == sum_trade_qty(m.trades)
            &&& m.trades.len() <= makers.len()
            &&& (forall|k: int|
                0 <= k < m.trades.len() ==> (#[trigger] m.trades[k]).quantity.0 <= makers[k].qty
                    && m.trades[k].maker_id.0 == makers[k].id && m.trades[k].price.0
                    == makers[k].price)
            &&& (forall|k: int|
                0 <= k < m.trades.len() ==> sum_trade_qty(m.trades.take(k)) + (
                #[trigger] m.trades[k]).quantity.0 <= taker_qty)
        }),
    decreases makers.len(),
{
    let m = spec_match(makers, taker_id, taker_side, taker_price, taker_qty);
    if taker_qty == 0 || makers.len() == 0 || !spec_crosses(taker_side, taker_price, makers[0].price) {
    } else {
        let m0 = makers[0];
        let fill: u64 = if taker_qty < m0.qty {
            taker_qty
        } else {
            m0.qty
        };
        let t = Trade {
            maker_id: OrderId(m0.id),
            taker_id: OrderId(taker_id),
            price: Price(m0.price),
            quantity: Quantity(fill),
            maker_side: taker_side.spec_opposite(),
        };
        if m0.qty <= taker_qty {
            let tail = makers.drop_first();
            lemma_match_conserves_quantity(
                tail,
                taker_id,
                taker_side,
                taker_price,
                (taker_qty - m0.qty) as u64,
            );
            let rest = spec_match(
                tail,
                taker_id,
                taker_side,
                taker_price,
                (taker_qty - m0.qty) as u64,
            );
            assert(m.trades == seq![t] + rest.trades);
            assert((seq![t] + rest.trades).drop_first() =~= rest.trades);
            assert(sum_trade_qty(m.trades) == fill + sum_trade_qty(rest.trades));
            assert forall|k: int|
                0 <= k < m.trades.len() implies (#[trigger] m.trades[k]).quantity.0
                <= makers[k].qty && m.trades[k].maker_id.0 == makers[k].id && m.trades[k].price.0
                == makers[k].price by {
                if k > 0 {
                    assert(m.trades[k] == rest.trades[k - 1]);
                    assert(tail[k - 1] == makers[k]);
                }
            }
            assert forall|k: int|
                0 <= k < m.trades.len() implies sum_trade_qty(m.trades.take(k)) + (
            #[trigger] m.trades[k]).quantity.0 <= taker_qty by {
                if k == 0 {
                    assert(m.trades.take(0) =~= Seq::<Trade>::empty());
                } else {
                    assert(m.trades[k] == rest.trades[k - 1]);
                    assert(m.trades.take(k).drop_first() =~= rest.trades.take(k - 1));
                    assert(m.trades.take(k)[0] == t);
                    assert(sum_trade_qty(m.trades.take(k)) == fill + sum_trade_qty(
                        rest.trades.take(k - 1),
                    ));
                }
            }
        } else {
            assert(m.trades == seq![t]);
            assert(m.trades.drop_first() =~= Seq::<Trade>::empty());
            assert(sum_trade_qty(Seq::<Trade>::empty()) == 0);
            assert(m.trades[0] == t);
            assert(sum_trade_qty(m.trades) == fill);
            assert forall|k: int|
                0 <= k < m.trades.len() implies sum_trade_qty(m.trades.take(k)) + (
            #[trigger] m.trades[k]).quantity.0 <= taker_qty by {
                assert(m.trades.take(0) =~= Seq::<Trade>::empty());
            }
        }
    }
}

/// Full-fill removal: a maker whose quantity reached zero during the
/// pass is gone from the chain the pass leaves behind.
pub proof fn lemma_match_full_fill_removed(
    makers: Seq<RestingOrder>,
    taker_id: u64,
    taker_side: Side,
    taker_price: u64,
    taker_qty: u64,
)
    requires
        unique_ids(makers),
    ensures
        ({
            let m = spec_match(makers, taker_id, taker_side, taker_price, taker_qty);
            forall|x: u64| m.filled.contains(x) ==> !contains_id(m.makers, x)
        }),
    decreases makers.len(),
{
    let m = spec_match(makers, taker_id, taker_side, taker_price, taker_qty);
    if taker_qty == 0 || makers.len() == 0 || !spec_crosses(taker_side, taker_price, makers[0].price) {
        assert(forall|x: u64| m.filled.contains(x) ==> !contains_id(m.makers, x));
    } else {
        let m0 = makers[0];
        if m0.qty <= taker_qty {
            let tail = makers.drop_first();
            assert forall|i: int, j: int|
                0 <= i < j < tail.len() implies (#[trigger] tail[i]).id != (#[trigger] tail[j]).id by {
                assert(tail[i] == makers[i + 1] && tail[j] == makers[j + 1]);
            }
            lemma_match_full_fill_removed(
                tail,
                taker_id,
                taker_side,
                taker_price,
                (taker_qty - m0.qty) as u64,
            );
            lemma_match_makers_shape(
                tail,
                taker_id,
                taker_side,
                taker_price,
                (taker_qty - m0.qty) as u64,
            );
            let rest = spec_match(
                tail,
                taker_id,
                taker_side,
                taker_price,
                (taker_qty - m0.qty) as u64,
            );
            assert forall|x: u64| m.filled.contains(x) implies !contains_id(m.makers, x) by {
                if x == m0.id {
                    if contains_id(rest.makers, x) {
                        assert(contains_id(tail, x));
                        let k = choose|k: int| 0 <= k < tail.len() && (#[trigger] tail[k]).id == x;
                        assert(makers[k + 1].id == makers[0].id);
                    }
                } else {
                    assert(rest.filled.contains(x));
                }
            }
        } else {
            assert(m.filled =~= Seq::<u64>::empty());
        }
    }
}

/// What a matching pass promises: the opposite chain is left exactly
/// as `spec_match` computes, the taker's own side is untouched, every
/// fully consumed maker's slot has moved to the recycler, no arena
/// byte is taken, and no inactive identifier becomes active.
pub open spec fn match_post(
    pre: OrderBook,
    post: OrderBook,
    taker_id: OrderId,
    taker_side: Side,
    taker_price: Price,
    taker_qty: Quantity,
    remaining: Quantity,
    trades: Seq<Trade>,
) -> bool {
    let opp = taker_side.spec_opposite();
    let m = spec_match(pre.side_view(opp), taker_id.0, taker_side, taker_price.0, taker_qty.0);
    &&& post.wf()
    &&& post.side_view(opp) == m.makers
    &&& post.side_view(taker_side) == pre.side_view(taker_side)
    &&& remaining.0 == m.remaining
    &&& trades == m.trades
    &&& post@.free_slots == pre@.free_slots + m.filled.len()
    &&& post@.used_slots == pre@.used_slots
    &&& post@.capacity == pre@.capacity
    &&& post.spec_symbol() == pre.spec_symbol()
    &&& (forall|x: u64| #[trigger] view_active(post@, x) ==> view_active(pre@, x))
}

/// Matches an incoming order against the book's opposite side, head
/// first, while quantity remains and the spread is crossed. Returns
/// the taker quantity left unfilled and the trades in execution
/// order; every fully consumed maker is unlinked, unindexed and its
/// slot recycled.
pub fn execute_match(
    book: &mut OrderBook,
    taker_id: OrderId,
    taker_side: Side,
    taker_price: Price,
    taker_qty: Quantity,
) -> (r: (Quantity, Vec<Trade>))
    requires
        old(book).wf(),
    ensures
        match_post(
            *old(book),
            *final(book),
            taker_id,
            taker_side,
            taker_price,
            taker_qty,
            r.0,
            r.1@,
        ),
{
    book.match_incoming(taker_id, taker_side, taker_price, taker_qty)
}

} // verus!
