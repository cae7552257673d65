use vstd::prelude::*;
use crate::storage::layout::Side;

verus! {

/// The abstract content of one resting order: what matching and the
/// book's observable behaviour depend on, free of storage concerns.
pub struct RestingOrder {
    pub id: u64,
    pub price: u64,
    pub qty: u64,
}

/// The abstract state of the whole book: each side's chain head to
/// tail, and the slot accounting of the fixed arena.
///
/// `used_slots` counts the slots ever taken from the arena; it never
/// decreases. `free_slots` counts recycled slots waiting for reuse.
#[verifier::ext_equal]
pub struct BookView {
    pub bids: Seq<RestingOrder>,
    pub asks: Seq<RestingOrder>,
    pub free_slots: nat,
    pub used_slots: nat,
    pub capacity: nat,
}

/// The chain of the given side.
pub open spec fn side_seq(b: BookView, side: Side) -> Seq<RestingOrder> {
    match side {
        Side::Buy => b.bids,
        Side::Sell => b.asks,
    }
}

/// `b` with the given side's chain replaced.
pub open spec fn with_side(b: BookView, side: Side, s: Seq<RestingOrder>) -> BookView {
    match side {
        Side::Buy => BookView { bids: s, ..b },
        Side::Sell => BookView { asks: s, ..b },
    }
}

/// Whether a resting price `a` has priority not worse than `b` on the
/// given side: bids prefer high prices, asks low ones.
pub open spec fn better_or_equal(side: Side, a: u64, b: u64) -> bool {
    match side {
        Side::Buy => a >= b,
        Side::Sell => a <= b,
    }
}

/// Whether price `a` strictly beats price `b` on the given side.
pub open spec fn strictly_better(side: Side, a: u64, b: u64) -> bool {
    match side {
        Side::Buy => a > b,
        Side::Sell => a < b,
    }
}

/// A chain is sorted by price priority head to tail: non-increasing
/// for bids, non-decreasing for asks.
pub open spec fn sorted_by_priority(side: Side, s: Seq<RestingOrder>) -> bool {
    forall|i: int, j: int|
        0 <= i <= j < s.len() ==> better_or_equal(side, (#[trigger] s[i]).price, (#[trigger] s[j]).price)
}

/// Whether some order in the chain carries the given identifier.
pub open spec fn contains_id(s: Seq<RestingOrder>, id: u64) -> bool {
    exists|k: int| 0 <= k < s.len() && (#[trigger] s[k]).id == id
}

/// The position of the order with the given identifier; meaningful
/// only when `contains_id(s, id)` holds and identifiers are unique.
pub open spec fn position_of_id(s: Seq<RestingOrder>, id: u64) -> int {
    choose|k: int| 0 <= k < s.len() && (#[trigger] s[k]).id == id
}

/// Whether the identifier is active anywhere in the book.
pub open spec fn view_active(b: BookView, id: u64) -> bool {
    contains_id(b.bids, id) || contains_id(b.asks, id)
}

/// No two orders of the chain share an identifier.
pub open spec fn unique_ids(s: Seq<RestingOrder>) -> bool {
    forall|i: int, j: int|
        0 <= i < j < s.len() ==> (#[trigger] s[i]).id != (#[trigger] s[j]).id
}

/// Where a new order of the given price enters the chain: directly
/// before the first resting order it strictly beats, hence after every
/// order at an equal or better price — first in, first out within a
/// price level.
pub open spec fn insert_position(s: Seq<RestingOrder>, side: Side, price: u64) -> int
    decreases s.len(),
{
    if s.len() == 0 {
        0
    } else if strictly_better(side, price, s[0].price) {
        0
    } else {
        1 + insert_position(s.drop_first(), side, price)
    }
}

/// The chain after a sorted insert of `o`, preserving time priority at
/// equal prices.
pub open spec fn spec_insert(s: Seq<RestingOrder>, side: Side, o: RestingOrder) -> Seq<RestingOrder> {
    s.insert(insert_position(s, side, o.price), o)
}

/// The book after cancelling the order with the given identifier: its
/// record leaves its chain and its slot joins the recycler; an
/// unknown identifier changes nothing.
pub open spec fn spec_cancel(b: BookView, id: u64) -> BookView {
    if contains_id(b.bids, id) {
        BookView {
            bids: b.bids.remove(position_of_id(b.bids, id)),
            free_slots: b.free_slots + 1,
            ..b
        }
    } else if contains_id(b.asks, id) {
        BookView {
            asks: b.asks.remove(position_of_id(b.asks, id)),
            free_slots: b.free_slots + 1,
            ..b
        }
    } else {
        b
    }
}

/// Cancelling an identifier deactivates it: with unique identifiers,
/// the cancelled order was its only occurrence.
pub proof fn lemma_cancel_deactivates(b: BookView, id: u64)
    requires
        unique_ids(b.bids),
        unique_ids(b.asks),
        !(contains_id(b.bids, id) && contains_id(b.asks, id)),
    ensures
        !view_active(spec_cancel(b, id), id),
{
    if contains_id(b.bids, id) {
        let pos = position_of_id(b.bids, id);
        assert(0 <= pos < b.bids.len() && b.bids[pos].id == id);
        let nb = b.bids.remove(pos);
        assert forall|k: int| 0 <= k < nb.len() implies (#[trigger] nb[k]).id != id by {
            if k < pos {
                assert(nb[k] == b.bids[k]);
            } else {
                assert(nb[k] == b.bids[k + 1]);
            }
        }
        assert(!contains_id(nb, id));
    } else if contains_id(b.asks, id) {
        let pos = position_of_id(b.asks, id);
        assert(0 <= pos < b.asks.len() && b.asks[pos].id == id);
        let na = b.asks.remove(pos);
        assert forall|k: int| 0 <= k < na.len() implies (#[trigger] na[k]).id != id by {
            if k < pos {
                assert(na[k] == b.asks[k]);
            } else {
                assert(na[k] == b.asks[k + 1]);
            }
        }
        assert(!contains_id(na, id));
    }
}

/// Removing an order keeps the chain sorted.
pub proof fn lemma_sorted_remove(side: Side, s: Seq<RestingOrder>, i: int)
    requires
        sorted_by_priority(side, s),
        0 <= i < s.len(),
    ensures
        sorted_by_priority(side, s.remove(i)),
{
    let r = s.remove(i);
    assert forall|a: int, b: int|
        0 <= a <= b < r.len() implies better_or_equal(
        side,
        (#[trigger] r[a]).price,
        (#[trigger] r[b]).price,
    ) by {
        if a < i {
            assert(r[a] == s[a]);
        } else {
            assert(r[a] == s[a + 1]);
        }
        if b < i {
            assert(r[b] == s[b]);
        } else {
            assert(r[b] == s[b + 1]);
        }
    }
}

/// Time priority, stated of the insertion point: the incoming order
/// lands after every resting order whose price it does not strictly
/// beat, and directly before the first one it does.
pub proof fn lemma_insert_position_properties(s: Seq<RestingOrder>, side: Side, price: u64)
    ensures
        0 <= insert_position(s, side, price) <= s.len(),
        forall|j: int|
            0 <= j < insert_position(s, side, price) ==> !strictly_better(
                side,
                price,
                (#[trigger] s[j]).price,
            ),
        insert_position(s, side, price) < s.len() ==> strictly_better(
            side,
            price,
            s[insert_position(s, side, price)].price,
        ),
    decreases s.len(),
{
    if s.len() == 0 {
    } else if strictly_better(side, price, s[0].price) {
    } else {
        lemma_insert_position_properties(s.drop_first(), side, price);
        assert forall|j: int| 0 <= j < insert_position(s, side, price) implies !strictly_better(
            side,
            price,
            (#[trigger] s[j]).price,
        ) by {
            if j > 0 {
                assert(s.drop_first()[j - 1] == s[j]);
            }
        }
        if insert_position(s, side, price) < s.len() {
            assert(s.drop_first()[insert_position(s.drop_first(), side, price)] == s[
                insert_position(s, side, price)
            ]);
        }
    }
}

/// The identifiers after a sorted insert: exactly the old ones plus
/// the new order's, and uniqueness is kept when the new identifier
/// was not already resting.
pub proof fn lemma_spec_insert_ids(s: Seq<RestingOrder>, side: Side, o: RestingOrder)
    ensures
        contains_id(spec_insert(s, side, o), o.id),
        forall|x: u64| #[trigger]
            contains_id(spec_insert(s, side, o), x) ==> x == o.id || contains_id(s, x),
        forall|x: u64| contains_id(s, x) ==> #[trigger] contains_id(spec_insert(s, side, o), x),
        unique_ids(s) && !contains_id(s, o.id) ==> unique_ids(spec_insert(s, side, o)),
{
    lemma_insert_position_properties(s, side, o.price);
    let pos = insert_position(s, side, o.price);
    let r = s.insert(pos, o);
    assert(r[pos] == o);
    assert(forall|x: int|
        0 <= x < r.len() ==> (if x < pos {
            (#[trigger] r[x]) == s[x]
        } else if x == pos {
            r[x] == o
        } else {
            r[x] == s[x - 1]
        }));
    assert forall|x: u64| #[trigger] contains_id(r, x) implies x == o.id || contains_id(s, x) by {
        let k = choose|k: int| 0 <= k < r.len() && (#[trigger] r[k]).id == x;
        if k < pos {
            assert(s[k].id == x);
        } else if k > pos {
            assert(s[k - 1].id == x);
        }
    }
    assert forall|x: u64| contains_id(s, x) implies #[trigger] contains_id(r, x) by {
        let k = choose|k: int| 0 <= k < s.len() && (#[trigger] s[k]).id == x;
        if k < pos {
            assert(r[k].id == x);
        } else {
            assert(r[k + 1].id == x);
        }
    }
    if unique_ids(s) && !contains_id(s, o.id) {
        assert forall|i: int, j: int|
            0 <= i < j < r.len() implies (#[trigger] r[i]).id != (#[trigger] r[j]).id by {
            if r[i].id == r[j].id {
                if i == pos {
                    assert(s[j - 1].id == o.id);
                } else if j == pos {
                    assert(s[i].id == o.id);
                }
            }
        }
    }
}

/// A sorted insert keeps the chain sorted.
pub proof fn lemma_spec_insert_sorted(s: Seq<RestingOrder>, side: Side, o: RestingOrder)
    requires
        sorted_by_priority(side, s),
    ensures
        sorted_by_priority(side, spec_insert(s, side, o)),
{
    lemma_insert_position_properties(s, side, o.price);
    let pos = insert_position(s, side, o.price);
    let r = s.insert(pos, o);
    assert forall|i: int, j: int|
        0 <= i <= j < r.len() implies better_or_equal(
        side,
        (#[trigger] r[i]).price,
        (#[trigger] r[j]).price,
    ) by {
        if i < pos {
            assert(r[i] == s[i]);
        } else if i == pos {
            assert(r[i] == o);
        } else {
            assert(r[i] == s[i - 1]);
        }
        if j < pos {
            assert(r[j] == s[j]);
        } else if j == pos {
            assert(r[j] == o);
        } else {
            assert(r[j] == s[j - 1]);
        }
    }
}

} // verus!
