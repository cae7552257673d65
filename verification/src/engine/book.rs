use vstd::prelude::*;
use std::collections::HashMap;
use crate::engine::matcher::{match_post, spec_crosses, spec_match, Trade};
use crate::engine::model::{
    better_or_equal, contains_id, insert_position, lemma_cancel_deactivates,
    lemma_insert_position_properties, lemma_sorted_remove, lemma_spec_insert_ids,
    lemma_spec_insert_sorted, position_of_id, side_seq, sorted_by_priority, spec_cancel,
    spec_insert, unique_ids, view_active, with_side, BookView, RestingOrder,
};
use crate::storage::layout::{Order, OrderId, OrderRef, Price, Quantity, Side};

verus! {

broadcast use vstd::std_specs::hash::group_hash_axioms;

/// The fixed footprint of one order record slot, in bytes: the unit
/// the arena's byte accounting is expressed in.
pub const ORDER_RECORD_BYTES: usize = 48;

/// Why a facade operation was rejected. No mutation has happened when
/// `DuplicateId` or `NotFound` comes back; `ExhaustedCapacity` leaves
/// the partial fills that already happened in place, and their trades
/// are still returned.
#[derive(Debug, Clone, Copy, PartialEq, Eq, Structural)]
pub enum BookError {
    DuplicateId,
    NotFound,
    ExhaustedCapacity,
}

/// How a placement ended: rejected outright, fully filled while
/// matching, left resting in the book, or refused for want of a
/// record slot.
pub enum PlaceOutcome {
    Duplicate,
    Filled,
    Rested,
    Exhausted,
}

/// The abstract effect of one placement: the book afterwards, the
/// trades in execution order, and how the placement ended.
#[verifier::ext_equal]
pub struct PlaceEffect {
    pub book: BookView,
    pub trades: Seq<Trade>,
    pub outcome: PlaceOutcome,
}

/// What placing a limit order does to the abstract book. An active
/// identifier is rejected before any side effect. Otherwise the order
/// first matches as taker against the opposite side; a remainder
/// rests in its own side's chain at its price-time position, taking a
/// recycled slot first and a fresh arena slot only when the recycler
/// is empty; with neither available the placement fails, but the
/// matching that already happened stands.
pub open spec fn spec_place(b: BookView, id: u64, side: Side, price: u64, qty: u64) -> PlaceEffect {
    if view_active(b, id) {
        PlaceEffect { book: b, trades: Seq::empty(), outcome: PlaceOutcome::Duplicate }
    } else {
        let m = spec_match(side_seq(b, side.spec_opposite()), id, side, price, qty);
        let b1 = BookView {
            free_slots: b.free_slots + m.filled.len(),
            ..with_side(b, side.spec_opposite(), m.makers)
        };
        if m.remaining == 0 {
            PlaceEffect { book: b1, trades: m.trades, outcome: PlaceOutcome::Filled }
        } else {
            let rested = RestingOrder { id, price, qty: m.remaining };
            if b1.free_slots > 0 {
                let b2 = BookView { free_slots: (b1.free_slots - 1) as nat, ..b1 };
                PlaceEffect {
                    book: with_side(b2, side, spec_insert(side_seq(b2, side), side, rested)),
                    trades: m.trades,
                    outcome: PlaceOutcome::Rested,
                }
            } else if b1.used_slots < b1.capacity {
                let b2 = BookView { used_slots: b1.used_slots + 1, ..b1 };
                PlaceEffect {
                    book: with_side(b2, side, spec_insert(side_seq(b2, side), side, rested)),
                    trades: m.trades,
                    outcome: PlaceOutcome::Rested,
                }
            } else {
                PlaceEffect { book: b1, trades: m.trades, outcome: PlaceOutcome::Exhausted }
            }
        }
    }
}

/// How a modification ended: the identifier was unknown, the order
/// was cancelled (shrunk to nothing), shrunk in place, or relisted
/// through a fresh placement.
pub enum ModifyOutcome {
    NotFound,
    Canceled,
    Reduced,
    Replaced(PlaceOutcome),
}

/// The abstract effect of one modification.
#[verifier::ext_equal]
pub struct ModifyEffect {
    pub book: BookView,
    pub trades: Seq<Trade>,
    pub outcome: ModifyOutcome,
}

/// The side whose chain holds the given active identifier.
pub open spec fn active_side(b: BookView, id: u64) -> Side {
    if contains_id(b.bids, id) {
        Side::Buy
    } else {
        Side::Sell
    }
}

/// What modifying an order does to the abstract book. The fast path —
/// same price and no quantity increase — shrinks the record in place,
/// keeping its chain position; shrinking to zero is a cancel. Any
/// price change or quantity increase loses priority: the order is
/// cancelled and then placed anew, which may match immediately.
pub open spec fn spec_modify(b: BookView, id: u64, new_price: u64, new_qty: u64) -> ModifyEffect {
    if !view_active(b, id) {
        ModifyEffect { book: b, trades: Seq::empty(), outcome: ModifyOutcome::NotFound }
    } else {
        let side = active_side(b, id);
        let s = side_seq(b, side);
        let pos = position_of_id(s, id);
        let cur = s[pos];
        if cur.price == new_price && new_qty <= cur.qty {
            if new_qty == 0 {
                ModifyEffect {
                    book: spec_cancel(b, id),
                    trades: Seq::empty(),
                    outcome: ModifyOutcome::Canceled,
                }
            } else {
                ModifyEffect {
                    book: with_side(b, side, s.update(pos, (RestingOrder { qty: new_qty, ..cur }))),
                    trades: Seq::empty(),
                    outcome: ModifyOutcome::Reduced,
                }
            }
        } else {
            let e = spec_place(spec_cancel(b, id), id, side, new_price, new_qty);
            ModifyEffect { book: e.book, trades: e.trades, outcome: ModifyOutcome::Replaced(e.outcome) }
        }
    }
}

/// A single-instrument limit order book with a pre-committed memory
/// budget: records live in a fixed-capacity slab, reclaimed slots are
/// recycled through a free list before any fresh slot is taken, and
/// each side's resting orders form an intrusive doubly-linked chain
/// kept sorted by price-time priority.
pub struct OrderBook {
    symbol: &'static str,
    capacity: usize,
    slab: Vec<Order>,
    free_list: Vec<OrderRef>,
    order_index: HashMap<u64, OrderRef>,
    best_bid: Option<OrderRef>,
    best_ask: Option<OrderRef>,
    bid_chain: Ghost<Seq<OrderRef>>,
    ask_chain: Ghost<Seq<OrderRef>>,
}

impl View for OrderBook {
    type V = BookView;

    closed spec fn view(&self) -> BookView {
        BookView {
            bids: self.side_view(Side::Buy),
            asks: self.side_view(Side::Sell),
            free_slots: self.free_list@.len(),
            used_slots: self.slab@.len(),
            capacity: self.capacity as nat,
        }
    }
}

impl OrderBook {
    /// The slot indices of the given side's chain, head to tail.
    pub closed spec fn chain(self, side: Side) -> Seq<OrderRef> {
        match side {
            Side::Buy => self.bid_chain@,
            Side::Sell => self.ask_chain@,
        }
    }

    /// The head handle of the given side's chain.
    pub closed spec fn head_of(self, side: Side) -> Option<OrderRef> {
        match side {
            Side::Buy => self.best_bid,
            Side::Sell => self.best_ask,
        }
    }

    /// The record held in slot `s`.
    pub closed spec fn rec(self, s: OrderRef) -> Order {
        self.slab@[s as int]
    }

    /// How many slots the arena has handed out so far.
    pub closed spec fn num_slots(self) -> nat {
        self.slab@.len()
    }

    /// The abstract content of the record in slot `s`.
    pub closed spec fn order_view(self, s: OrderRef) -> RestingOrder {
        RestingOrder { id: self.rec(s).id.0, price: self.rec(s).price.0, qty: self.rec(s).qty.0 }
    }

    /// The abstract chain of the given side, head to tail.
    pub closed spec fn side_view(self, side: Side) -> Seq<RestingOrder> {
        Seq::new(self.chain(side).len(), |k: int| self.order_view(self.chain(side)[k]))
    }

    /// The instrument this book instance serves.
    pub closed spec fn spec_symbol(self) -> &'static str {
        self.symbol
    }

    /// Every slot ever taken from the slab, each exactly once: first
    /// the bid chain, then the ask chain, then the recycler.
    pub closed spec fn occupancy(self) -> Seq<OrderRef> {
        self.bid_chain@ + self.ask_chain@ + self.free_list@
    }

    /// The chain of `side` is well linked: the head handle points at
    /// its first slot, and each record's intrusive links point at its
    /// chain neighbours.
    pub closed spec fn chain_ok(self, side: Side) -> bool {
        let c = self.chain(side);
        &&& self.head_of(side) == (if c.len() == 0 {
            None::<OrderRef>
        } else {
            Some(c[0])
        })
        &&& (forall|k: int| 0 <= k < c.len() ==> (#[trigger] c[k]) < self.slab@.len())
        &&& (forall|k: int| 0 <= k < c.len() ==> self.rec(#[trigger] c[k]).side == side)
        &&& (forall|k: int| 0 <= k < c.len() ==> self.rec(#[trigger] c[k]).qty.0 > 0)
        &&& (forall|k: int|
            0 <= k < c.len() ==> self.rec(#[trigger] c[k]).next == (if k + 1 < c.len() {
                Some(c[k + 1])
            } else {
                None::<OrderRef>
            }))
        &&& (forall|k: int|
            0 <= k < c.len() ==> self.rec(#[trigger] c[k]).prev == (if k > 0 {
                Some(c[k - 1])
            } else {
                None::<OrderRef>
            }))
    }

    /// Slot accounting: every slot ever taken is either resting in
    /// exactly one chain or waiting in the recycler, never both.
    /// No slot appears twice across the two chains and the recycler,
    /// and every listed slot exists in the slab.
    pub closed spec fn occ_distinct(self) -> bool {
        let occ = self.occupancy();
        &&& (forall|k: int| 0 <= k < occ.len() ==> (#[trigger] occ[k]) < self.slab@.len())
        &&& occ.no_duplicates()
    }

    pub closed spec fn slots_ok(self) -> bool {
        &&& self.occ_distinct()
        &&& self.occupancy().len() == self.slab@.len()
    }

    /// The transient accounting while slot `new_ptr` has been taken
    /// (recycled or freshly allocated) but not yet linked: exactly one
    /// slab slot — `new_ptr` itself — is unaccounted for.
    pub closed spec fn slots_pending(self, new_ptr: OrderRef) -> bool {
        &&& self.occ_distinct()
        &&& self.occupancy().len() + 1 == self.slab@.len()
        &&& !self.occupancy().contains(new_ptr)
        &&& new_ptr < self.slab@.len()
    }

    /// Every record of the chain is indexed under its identifier.
    pub closed spec fn chain_indexed(self, side: Side) -> bool {
        let c = self.chain(side);
        forall|k: int|
            0 <= k < c.len() ==> self.order_index@.contains_key(self.rec(#[trigger] c[k]).id.0)
                && self.order_index@[self.rec(c[k]).id.0] == c[k]
    }

    /// The identifier index is exactly the set of resting orders: each
    /// chain record is indexed under its identifier, and every index
    /// entry leads back to a live chain record carrying it.
    pub closed spec fn index_ok(self) -> bool {
        &&& self.chain_indexed(Side::Buy)
        &&& self.chain_indexed(Side::Sell)
        &&& (forall|id: u64| #[trigger]
            self.order_index@.contains_key(id) ==> {
                let s = self.order_index@[id];
                &&& s < self.slab@.len()
                &&& self.rec(s).id.0 == id
                &&& (self.bid_chain@.contains(s) || self.ask_chain@.contains(s))
            })
        &&& self.order_index@.dom().len() == self.bid_chain@.len() + self.ask_chain@.len()
    }

    /// The book's internal invariant: well-linked, sorted, fully
    /// indexed chains over a consistently accounted slab.
    pub closed spec fn wf(self) -> bool {
        &&& self.chain_ok(Side::Buy)
        &&& self.chain_ok(Side::Sell)
        &&& self.slots_ok()
        &&& self.index_ok()
        &&& sorted_by_priority(Side::Buy, self.side_view(Side::Buy))
        &&& sorted_by_priority(Side::Sell, self.side_view(Side::Sell))
        &&& self.slab@.len() <= self.capacity
        &&& self.capacity <= usize::MAX / ORDER_RECORD_BYTES
    }

    /// Creates an empty book for `symbol` with room for `capacity`
    /// resting orders, pre-committing its whole memory budget.
    pub fn new(symbol: &'static str, capacity: usize) -> (r: OrderBook)
        requires
            capacity <= usize::MAX / ORDER_RECORD_BYTES,
        ensures
            r.wf(),
            r@ == (BookView {
                bids: Seq::<RestingOrder>::empty(),
                asks: Seq::<RestingOrder>::empty(),
                free_slots: 0,
                used_slots: 0,
                capacity: capacity as nat,
            }),
            r.spec_symbol() == symbol,
    {
        let r = OrderBook {
            symbol,
            capacity,
            slab: Vec::with_capacity(capacity),
            free_list: Vec::with_capacity(capacity),
            order_index: HashMap::with_capacity(capacity),
            best_bid: None,
            best_ask: None,
            bid_chain: Ghost(Seq::empty()),
            ask_chain: Ghost(Seq::empty()),
        };
        proof {
            assert(r.side_view(Side::Buy) =~= Seq::<RestingOrder>::empty());
            assert(r.side_view(Side::Sell) =~= Seq::<RestingOrder>::empty());
            assert(r.occupancy() =~= Seq::<OrderRef>::empty());
            assert(r@ =~= BookView {
                bids: Seq::<RestingOrder>::empty(),
                asks: Seq::<RestingOrder>::empty(),
                free_slots: 0,
                used_slots: 0,
                capacity: capacity as nat,
            });
        }
        r
    }

    pub fn symbol(&self) -> (r: &'static str)
        ensures
            r == self.spec_symbol(),
    {
        self.symbol
    }

    /// The price of the best (highest) resting bid, if any.
    pub fn best_bid_price(&self) -> (r: Option<Price>)
        requires
            self.wf(),
        ensures
            r == (if self@.bids.len() == 0 {
                None::<Price>
            } else {
                Some(Price(self@.bids[0].price))
            }),
    {
        match self.best_bid {
            None => None,
            Some(s) => Some(self.slab[s].price),
        }
    }

    /// The price of the best (lowest) resting ask, if any.
    pub fn best_ask_price(&self) -> (r: Option<Price>)
        requires
            self.wf(),
        ensures
            r == (if self@.asks.len() == 0 {
                None::<Price>
            } else {
                Some(Price(self@.asks[0].price))
            }),
    {
        match self.best_ask {
            None => None,
            Some(s) => Some(self.slab[s].price),
        }
    }

    /// The book's whole memory budget, in bytes.
    pub fn capacity_bytes(&self) -> (r: usize)
        requires
            self.wf(),
        ensures
            r == self@.capacity * ORDER_RECORD_BYTES,
    {
        self.capacity * ORDER_RECORD_BYTES
    }

    /// The bytes ever taken from the arena; recycling never lowers or
    /// raises this.
    pub fn used_bytes(&self) -> (r: usize)
        requires
            self.wf(),
        ensures
            r == self@.used_slots * ORDER_RECORD_BYTES,
    {
        self.slab.len() * ORDER_RECORD_BYTES
    }

    /// How many orders are currently resting in the book.
    pub fn active_orders(&self) -> (r: usize)
        requires
            self.wf(),
        ensures
            r == self@.bids.len() + self@.asks.len(),
    {
        self.order_index.len()
    }

    /// Record payloads (identifier, price, quantity, side) agree slot
    /// for slot; only intrusive links may differ.
    pub closed spec fn same_records(self, other: Self) -> bool {
        &&& self.slab@.len() == other.slab@.len()
        &&& (forall|s: int|
            0 <= s < other.slab@.len() ==> {
                &&& (#[trigger] self.slab@[s]).id == other.slab@[s].id
                &&& self.slab@[s].price == other.slab@[s].price
                &&& self.slab@[s].qty == other.slab@[s].qty
                &&& self.slab@[s].side == other.slab@[s].side
            })
    }

    /// Slot accounting spelled out: within a chain or the recycler no
    /// slot repeats, and the three never share a slot.
    proof fn lemma_occ_distinct(self)
        requires
            self.occ_distinct(),
        ensures
            self.bid_chain@.no_duplicates(),
            self.ask_chain@.no_duplicates(),
            self.free_list@.no_duplicates(),
            forall|i: int, j: int|
                0 <= i < self.bid_chain@.len() && 0 <= j < self.ask_chain@.len() ==> (
                #[trigger] self.bid_chain@[i]) != (#[trigger] self.ask_chain@[j]),
            forall|i: int, j: int|
                0 <= i < self.bid_chain@.len() && 0 <= j < self.free_list@.len() ==> (
                #[trigger] self.bid_chain@[i]) != (#[trigger] self.free_list@[j]),
            forall|i: int, j: int|
                0 <= i < self.ask_chain@.len() && 0 <= j < self.free_list@.len() ==> (
                #[trigger] self.ask_chain@[i]) != (#[trigger] self.free_list@[j]),
            forall|k: int|
                0 <= k < self.free_list@.len() ==> (#[trigger] self.free_list@[k])
                    < self.slab@.len(),
    {
        let occ = self.occupancy();
        let b = self.bid_chain@;
        let a = self.ask_chain@;
        let f = self.free_list@;
        assert forall|i: int, j: int|
            0 <= i < b.len() && 0 <= j < b.len() && i != j implies b[i] != b[j] by {
            assert(occ[i] == b[i]);
            assert(occ[j] == b[j]);
        }
        assert forall|i: int, j: int|
            0 <= i < a.len() && 0 <= j < a.len() && i != j implies a[i] != a[j] by {
            assert(occ[b.len() + i] == a[i]);
            assert(occ[b.len() + j] == a[j]);
        }
        assert forall|i: int, j: int|
            0 <= i < f.len() && 0 <= j < f.len() && i != j implies f[i] != f[j] by {
            assert(occ[b.len() + a.len() + i] == f[i]);
            assert(occ[b.len() + a.len() + j] == f[j]);
        }
        assert forall|i: int, j: int| 0 <= i < b.len() && 0 <= j < a.len() implies b[i] != a[j] by {
            assert(occ[i] == b[i]);
            assert(occ[b.len() + j] == a[j]);
        }
        assert forall|i: int, j: int| 0 <= i < b.len() && 0 <= j < f.len() implies b[i] != f[j] by {
            assert(occ[i] == b[i]);
            assert(occ[b.len() + a.len() + j] == f[j]);
        }
        assert forall|i: int, j: int| 0 <= i < a.len() && 0 <= j < f.len() implies a[i] != f[j] by {
            assert(occ[b.len() + i] == a[i]);
            assert(occ[b.len() + a.len() + j] == f[j]);
        }
        assert forall|k: int| 0 <= k < f.len() implies f[k] < self.slab@.len() by {
            assert(occ[b.len() + a.len() + k] == f[k]);
        }
    }

    /// The facts of `lemma_occ_distinct`, oriented around one side's
    /// chain and its opposite.
    proof fn lemma_chain_facts(self, side: Side)
        requires
            self.chain_ok(Side::Buy),
            self.chain_ok(Side::Sell),
            self.occ_distinct(),
        ensures
            self.chain(side).no_duplicates(),
            self.chain(side.spec_opposite()).no_duplicates(),
            self.free_list@.no_duplicates(),
            forall|i: int, j: int|
                0 <= i < self.chain(side).len() && 0 <= j < self.chain(side.spec_opposite()).len()
                    ==> (#[trigger] self.chain(side)[i]) != (#[trigger] self.chain(
                    side.spec_opposite(),
                )[j]),
            forall|i: int, j: int|
                0 <= i < self.chain(side).len() && 0 <= j < self.free_list@.len() ==> (
                #[trigger] self.chain(side)[i]) != (#[trigger] self.free_list@[j]),
            forall|i: int, j: int|
                0 <= i < self.chain(side.spec_opposite()).len() && 0 <= j
                    < self.free_list@.len() ==> (#[trigger] self.chain(side.spec_opposite())[i])
                    != (#[trigger] self.free_list@[j]),
            forall|k: int|
                0 <= k < self.chain(side).len() ==> (#[trigger] self.chain(side)[k])
                    < self.slab@.len(),
            forall|k: int|
                0 <= k < self.chain(side.spec_opposite()).len() ==> (#[trigger] self.chain(
                    side.spec_opposite(),
                )[k]) < self.slab@.len(),
            forall|k: int|
                0 <= k < self.free_list@.len() ==> (#[trigger] self.free_list@[k])
                    < self.slab@.len(),
    {
        self.lemma_occ_distinct();
        match side {
            Side::Buy => {
            },
            Side::Sell => {
            },
        }
    }

    /// Identifiers are unique across the whole book, and an identifier
    /// is active exactly when the index holds it.
    proof fn lemma_wf_ids(self)
        requires
            self.wf(),
        ensures
            unique_ids(self.side_view(Side::Buy)),
            unique_ids(self.side_view(Side::Sell)),
            forall|id: u64|
                !(contains_id(self.side_view(Side::Buy), id) && #[trigger] contains_id(
                    self.side_view(Side::Sell),
                    id,
                )),
            forall|id: u64| #[trigger]
                view_active(self@, id) <==> self.order_index@.contains_key(id),
    {
        self.lemma_occ_distinct();
        let bv = self.side_view(Side::Buy);
        let av = self.side_view(Side::Sell);
        let b = self.bid_chain@;
        let a = self.ask_chain@;
        assert forall|i: int, j: int|
            0 <= i < j < bv.len() implies (#[trigger] bv[i]).id != (#[trigger] bv[j]).id by {
            assert(self.order_index@[self.rec(b[i]).id.0] == b[i]);
            assert(self.order_index@[self.rec(b[j]).id.0] == b[j]);
        }
        assert forall|i: int, j: int|
            0 <= i < j < av.len() implies (#[trigger] av[i]).id != (#[trigger] av[j]).id by {
            assert(self.order_index@[self.rec(a[i]).id.0] == a[i]);
            assert(self.order_index@[self.rec(a[j]).id.0] == a[j]);
        }
        assert forall|id: u64|
            !(contains_id(bv, id) && #[trigger] contains_id(av, id)) by {
            if contains_id(bv, id) && contains_id(av, id) {
                let i = choose|i: int| 0 <= i < bv.len() && (#[trigger] bv[i]).id == id;
                let j = choose|j: int| 0 <= j < av.len() && (#[trigger] av[j]).id == id;
                assert(self.order_index@[self.rec(b[i]).id.0] == b[i]);
                assert(self.order_index@[self.rec(a[j]).id.0] == a[j]);
                assert(b[i] == a[j]);
            }
        }
        assert forall|id: u64| #[trigger]
            view_active(self@, id) <==> self.order_index@.contains_key(id) by {
            if view_active(self@, id) {
                if contains_id(bv, id) {
                    let i = choose|i: int| 0 <= i < bv.len() && (#[trigger] bv[i]).id == id;
                    assert(self.order_index@.contains_key(self.rec(b[i]).id.0));
                } else {
                    let j = choose|j: int| 0 <= j < av.len() && (#[trigger] av[j]).id == id;
                    assert(self.order_index@.contains_key(self.rec(a[j]).id.0));
                }
            }
            if self.order_index@.contains_key(id) {
                let s = self.order_index@[id];
                if b.contains(s) {
                    let k = choose|k: int| 0 <= k < b.len() && b[k] == s;
                    assert(bv[k].id == id);
                } else {
                    let k = choose|k: int| 0 <= k < a.len() && a[k] == s;
                    assert(av[k].id == id);
                }
            }
        }
    }

    /// Splices the record in slot `ptr` out of its chain in O(1)
    /// using its own links, updating the side's head when the head
    /// leaves. Does not touch the recycler or the identifier index;
    /// that is the caller's responsibility.
    #[verifier::rlimit(100)]
    fn remove_order(&mut self, ptr: OrderRef)
        requires
            old(self).chain_ok(Side::Buy),
            old(self).chain_ok(Side::Sell),
            old(self).slots_ok(),
            old(self).chain(old(self).rec(ptr).side).contains(ptr),
        ensures
            ({
                let side = old(self).rec(ptr).side;
                let opp = side.spec_opposite();
                let pos = old(self).chain(side).index_of(ptr);
                &&& final(self).chain(side) == old(self).chain(side).remove(pos)
                &&& final(self).chain(opp) == old(self).chain(opp)
                &&& final(self).side_view(side) == old(self).side_view(side).remove(pos)
                &&& final(self).side_view(opp) == old(self).side_view(opp)
                &&& final(self).chain_ok(Side::Buy)
                &&& final(self).chain_ok(Side::Sell)
                &&& final(self).same_records(*old(self))
                &&& final(self).free_list@ == old(self).free_list@
                &&& final(self).order_index@ == old(self).order_index@
                &&& final(self).capacity == old(self).capacity
                &&& final(self).symbol == old(self).symbol
            }),
    {
        let ghost side = old(self).rec(ptr).side;
        let ghost c = old(self).chain(side);
        let ghost d = old(self).chain(side.spec_opposite());
        let ghost pos = c.index_of(ptr);
        proof {
            self.lemma_chain_facts(side);
            assert(exists|k: int| 0 <= k < c.len() && c[k] == ptr);
            assert(0 <= pos < c.len() && c[pos] == ptr);
        }
        let rcd = self.slab[ptr];
        let next_ptr = rcd.next;
        let prev_ptr = rcd.prev;
        if let Some(nx) = next_ptr {
            proof {
                assert(nx == c[pos + 1]);
            }
            let mut n = self.slab[nx];
            n.prev = prev_ptr;
            self.slab[nx] = n;
        }
        if let Some(pv) = prev_ptr {
            proof {
                assert(pv == c[pos - 1]);
            }
            let mut p = self.slab[pv];
            p.next = next_ptr;
            self.slab[pv] = p;
        }
        match rcd.side {
            Side::Buy => {
                if let Some(h) = self.best_bid {
                    if h == ptr {
                        self.best_bid = next_ptr;
                    }
                }
            },
            Side::Sell => {
                if let Some(h) = self.best_ask {
                    if h == ptr {
                        self.best_ask = next_ptr;
                    }
                }
            },
        }
        let mut cleared = self.slab[ptr];
        cleared.next = None;
        cleared.prev = None;
        self.slab[ptr] = cleared;
        proof {
            match side {
                Side::Buy => {
                    self.bid_chain@ = self.bid_chain@.remove(pos);
                },
                Side::Sell => {
                    self.ask_chain@ = self.ask_chain@.remove(pos);
                },
            }
            Self::lemma_unlink_ok(*old(self), *self, ptr);
        }
    }

    /// The unlink's pointer surgery, checked once over the final
    /// state: with only the removed record and its two neighbours
    /// rewritten, both chains are well linked again and every record
    /// payload is untouched.
    #[verifier::rlimit(100)]
    proof fn lemma_unlink_ok(o: OrderBook, n: OrderBook, ptr: OrderRef)
        requires
            o.chain_ok(Side::Buy),
            o.chain_ok(Side::Sell),
            o.slots_ok(),
            o.chain(o.rec(ptr).side).contains(ptr),
            ({
                let side = o.rec(ptr).side;
                let c = o.chain(side);
                let pos = c.index_of(ptr);
                let nxt = if pos + 1 < c.len() {
                    Some(c[pos + 1])
                } else {
                    None::<OrderRef>
                };
                let prv = if pos > 0 {
                    Some(c[pos - 1])
                } else {
                    None::<OrderRef>
                };
                &&& n.slab@.len() == o.slab@.len()
                &&& (forall|s: int|
                    0 <= s < o.slab@.len() && s != ptr && (nxt matches Some(nx) ==> s != nx) && (
                    prv matches Some(pv) ==> s != pv) ==> (#[trigger] n.slab@[s]) == o.slab@[s])
                &&& (nxt matches Some(nx) ==> n.rec(nx) == (Order { prev: prv, ..o.rec(nx) }))
                &&& (prv matches Some(pv) ==> n.rec(pv) == (Order { next: nxt, ..o.rec(pv) }))
                &&& n.rec(ptr) == (Order { next: None, prev: None, ..o.rec(ptr) })
                &&& n.chain(side) == c.remove(pos)
                &&& n.chain(side.spec_opposite()) == o.chain(side.spec_opposite())
                &&& n.head_of(side) == (if pos == 0 {
                    nxt
                } else {
                    o.head_of(side)
                })
                &&& n.head_of(side.spec_opposite()) == o.head_of(side.spec_opposite())
            }),
        ensures
            n.chain_ok(Side::Buy),
            n.chain_ok(Side::Sell),
            n.same_records(o),
            n.side_view(o.rec(ptr).side) == o.side_view(o.rec(ptr).side).remove(
                o.chain(o.rec(ptr).side).index_of(ptr),
            ),
            n.side_view(o.rec(ptr).side.spec_opposite()) == o.side_view(
                o.rec(ptr).side.spec_opposite(),
            ),
    {
        let side = o.rec(ptr).side;
        o.lemma_chain_facts(side);
        let c = o.chain(side);
        let d = o.chain(side.spec_opposite());
        let pos = c.index_of(ptr);
        assert(0 <= pos < c.len() && c[pos] == ptr);
        let cn = n.chain(side);
        let dn = n.chain(side.spec_opposite());
        assert forall|k: int| 0 <= k < cn.len() implies {
            &&& (#[trigger] cn[k]) < n.slab@.len()
            &&& n.rec(cn[k]).side == side
            &&& n.rec(cn[k]).qty.0 > 0
            &&& n.rec(cn[k]).id == o.rec(cn[k]).id
            &&& n.rec(cn[k]).price == o.rec(cn[k]).price
            &&& n.rec(cn[k]).qty == o.rec(cn[k]).qty
            &&& n.rec(cn[k]).next == (if k + 1 < cn.len() {
                Some(cn[k + 1])
            } else {
                None::<OrderRef>
            })
            &&& n.rec(cn[k]).prev == (if k > 0 {
                Some(cn[k - 1])
            } else {
                None::<OrderRef>
            })
        } by {
            if k < pos {
                assert(cn[k] == c[k]);
            } else {
                assert(cn[k] == c[k + 1]);
            }
            if k + 1 < cn.len() {
                if k + 1 < pos {
                    assert(cn[k + 1] == c[k + 1]);
                } else {
                    assert(cn[k + 1] == c[k + 2]);
                }
            }
            if k > 0 {
                if k - 1 < pos {
                    assert(cn[k - 1] == c[k - 1]);
                } else {
                    assert(cn[k - 1] == c[k]);
                }
            }
        }
        assert forall|k: int| 0 <= k < dn.len() implies {
            &&& (#[trigger] dn[k]) < n.slab@.len()
            &&& n.rec(dn[k]) == o.rec(dn[k])
        } by {
            assert(dn[k] == d[k]);
            assert(d[k] != c[pos]);
            if pos + 1 < c.len() {
                assert(d[k] != c[pos + 1]);
            }
            if pos > 0 {
                assert(d[k] != c[pos - 1]);
            }
        }
        assert forall|s: int| 0 <= s < o.slab@.len() implies {
            &&& (#[trigger] n.slab@[s]).id == o.slab@[s].id
            &&& n.slab@[s].price == o.slab@[s].price
            &&& n.slab@[s].qty == o.slab@[s].qty
            &&& n.slab@[s].side == o.slab@[s].side
        } by {
            if s == ptr {
            } else if pos + 1 < c.len() && s == c[pos + 1] {
            } else if pos > 0 && s == c[pos - 1] {
            } else {
                assert(n.slab@[s] == o.slab@[s]);
            }
        }
        assert(n.chain_ok(side));
        assert(n.chain_ok(side.spec_opposite()));
        assert(n.chain_ok(Side::Buy) && n.chain_ok(Side::Sell));
        assert(n.side_view(side) =~= o.side_view(side).remove(pos));
        assert(n.side_view(side.spec_opposite()) =~= o.side_view(side.spec_opposite()));
    }

    /// Walks the side's chain from its head and links the record in
    /// slot `new_ptr` in directly before the first resting order its
    /// price strictly beats — after every order at an equal or better
    /// price, preserving time priority within a price level. O(N) in
    /// the side's resting orders; the relink itself is O(1).
    #[verifier::rlimit(100)]
    fn insert_sorted(&mut self, new_ptr: OrderRef, side: Side, price: Price)
        requires
            old(self).chain_ok(Side::Buy),
            old(self).chain_ok(Side::Sell),
            old(self).slots_pending(new_ptr),
            old(self).rec(new_ptr).side == side,
            old(self).rec(new_ptr).price == price,
            old(self).rec(new_ptr).qty.0 > 0,
            sorted_by_priority(side, old(self).side_view(side)),
        ensures
            ({
                let sv = old(self).side_view(side);
                let pos = insert_position(sv, side, price.0);
                let opp = side.spec_opposite();
                &&& final(self).chain(side) == old(self).chain(side).insert(pos, new_ptr)
                &&& final(self).chain(opp) == old(self).chain(opp)
                &&& final(self).side_view(side) == spec_insert(
                    sv,
                    side,
                    old(self).order_view(new_ptr),
                )
                &&& final(self).side_view(opp) == old(self).side_view(opp)
                &&& final(self).chain_ok(Side::Buy)
                &&& final(self).chain_ok(Side::Sell)
                &&& final(self).slots_ok()
                &&& final(self).same_records(*old(self))
                &&& final(self).free_list@ == old(self).free_list@
                &&& final(self).order_index@ == old(self).order_index@
                &&& final(self).capacity == old(self).capacity
                &&& final(self).symbol == old(self).symbol
                &&& final(self).slab@.len() == old(self).slab@.len()
            }),
    {
        let ghost c = old(self).chain(side);
        let ghost sv = old(self).side_view(side);
        let ghost pos = insert_position(sv, side, price.0);
        proof {
            self.lemma_chain_facts(side);
            lemma_insert_position_properties(sv, side, price.0);
        }
        let mut current: Option<OrderRef> = match side {
            Side::Buy => self.best_bid,
            Side::Sell => self.best_ask,
        };
        let mut prev: Option<OrderRef> = None;
        let ghost mut i: int = 0;
        loop
            invariant_except_break
                0 <= i <= pos,
                pos <= c.len(),
                *self == *old(self),
                current == (if i < c.len() {
                    Some(c[i])
                } else {
                    None::<OrderRef>
                }),
                prev == (if i > 0 {
                    Some(c[i - 1])
                } else {
                    None::<OrderRef>
                }),
                c == old(self).chain(side),
                sv == old(self).side_view(side),
                pos == insert_position(sv, side, price.0),
                old(self).chain_ok(Side::Buy),
                old(self).chain_ok(Side::Sell),
                sorted_by_priority(side, sv),
            ensures
                i == pos,
                *self == *old(self),
                current == (if i < c.len() {
                    Some(c[i])
                } else {
                    None::<OrderRef>
                }),
                prev == (if i > 0 {
                    Some(c[i - 1])
                } else {
                    None::<OrderRef>
                }),
            decreases c.len() - i,
        {
            proof {
                lemma_insert_position_properties(sv, side, price.0);
            }
            match current {
                None => {
                    break ;
                },
                Some(cur) => {
                    let cur_rec = self.slab[cur];
                    proof {
                        assert(sv[i].price == cur_rec.price.0);
                    }
                    let ins_before = match side {
                        Side::Buy => price.0 > cur_rec.price.0,
                        Side::Sell => price.0 < cur_rec.price.0,
                    };
                    if ins_before {
                        break ;
                    }
                    prev = current;
                    current = cur_rec.next;
                    proof {
                        assert(i != pos);
                        i = i + 1;
                    }
                },
            }
        }
        proof {
            assert(pos < c.len() ==> c[pos] != new_ptr) by {
                if pos < c.len() {
                    match side {
                        Side::Buy => {
                            assert(old(self).occupancy()[pos] == c[pos]);
                        },
                        Side::Sell => {
                            assert(old(self).occupancy()[old(self).bid_chain@.len() + pos] == c[
                                pos
                            ]);
                        },
                    }
                }
            }
            assert(pos > 0 ==> c[pos - 1] != new_ptr) by {
                if pos > 0 {
                    match side {
                        Side::Buy => {
                            assert(old(self).occupancy()[pos - 1] == c[pos - 1]);
                        },
                        Side::Sell => {
                            assert(old(self).occupancy()[old(self).bid_chain@.len() + pos - 1]
                                == c[pos - 1]);
                        },
                    }
                }
            }
            assert(0 < pos && pos < c.len() ==> c[pos] != c[pos - 1]);
        }
        let mut rec_new = self.slab[new_ptr];
        rec_new.next = current;
        rec_new.prev = prev;
        self.slab[new_ptr] = rec_new;
        if let Some(cur) = current {
            let mut cr = self.slab[cur];
            cr.prev = Some(new_ptr);
            self.slab[cur] = cr;
        }
        if let Some(pv) = prev {
            let mut pr = self.slab[pv];
            pr.next = Some(new_ptr);
            self.slab[pv] = pr;
        } else {
            match side {
                Side::Buy => self.best_bid = Some(new_ptr),
                Side::Sell => self.best_ask = Some(new_ptr),
            }
        }
        proof {
            match side {
                Side::Buy => {
                    self.bid_chain@ = self.bid_chain@.insert(pos, new_ptr);
                },
                Side::Sell => {
                    self.ask_chain@ = self.ask_chain@.insert(pos, new_ptr);
                },
            }
            Self::lemma_splice_ok(*old(self), *self, new_ptr, side, pos);
        }
    }

    /// The splice's pointer surgery, checked once over the final
    /// state: with only the new record and its two neighbours
    /// rewritten, both chains are well linked, the slab is fully
    /// accounted again, and every other record payload is untouched.
    #[verifier::rlimit(100)]
    proof fn lemma_splice_ok(o: OrderBook, n: OrderBook, new_ptr: OrderRef, side: Side, pos: int)
        requires
            o.chain_ok(Side::Buy),
            o.chain_ok(Side::Sell),
            o.slots_pending(new_ptr),
            o.rec(new_ptr).side == side,
            o.rec(new_ptr).qty.0 > 0,
            0 <= pos <= o.chain(side).len(),
            ({
                let c = o.chain(side);
                let nxt = if pos < c.len() {
                    Some(c[pos])
                } else {
                    None::<OrderRef>
                };
                let prv = if pos > 0 {
                    Some(c[pos - 1])
                } else {
                    None::<OrderRef>
                };
                &&& n.slab@.len() == o.slab@.len()
                &&& (forall|s: int|
                    0 <= s < o.slab@.len() && s != new_ptr && (nxt matches Some(nx) ==> s != nx)
                        && (prv matches Some(pv) ==> s != pv) ==> (#[trigger] n.slab@[s])
                        == o.slab@[s])
                &&& n.rec(new_ptr) == (Order { next: nxt, prev: prv, ..o.rec(new_ptr) })
                &&& (nxt matches Some(nx) ==> n.rec(nx) == (Order {
                    prev: Some(new_ptr),
                    ..o.rec(nx)
                }))
                &&& (prv matches Some(pv) ==> n.rec(pv) == (Order {
                    next: Some(new_ptr),
                    ..o.rec(pv)
                }))
                &&& n.chain(side) == c.insert(pos, new_ptr)
                &&& n.chain(side.spec_opposite()) == o.chain(side.spec_opposite())
                &&& n.head_of(side) == (if pos == 0 {
                    Some(new_ptr)
                } else {
                    o.head_of(side)
                })
                &&& n.head_of(side.spec_opposite()) == o.head_of(side.spec_opposite())
                &&& n.free_list@ == o.free_list@
            }),
        ensures
            n.chain_ok(Side::Buy),
            n.chain_ok(Side::Sell),
            n.slots_ok(),
            n.same_records(o),
            n.side_view(side) == o.side_view(side).insert(pos, o.order_view(new_ptr)),
            n.side_view(side.spec_opposite()) == o.side_view(side.spec_opposite()),
    {
        Self::lemma_splice_chain(o, n, new_ptr, side, pos);
        Self::lemma_splice_slots(o, n, new_ptr, side, pos);
        Self::lemma_splice_views(o, n, new_ptr, side, pos);
    }

    /// The abstract chains after the splice: the new order's content
    /// enters its side at the insertion point, the other side reads
    /// the same.
    proof fn lemma_splice_views(o: OrderBook, n: OrderBook, new_ptr: OrderRef, side: Side, pos: int)
        requires
            0 <= pos <= o.chain(side).len(),
            n.chain(side) == o.chain(side).insert(pos, new_ptr),
            n.chain(side.spec_opposite()) == o.chain(side.spec_opposite()),
            n.same_records(o),
            new_ptr < o.slab@.len(),
            forall|k: int|
                0 <= k < o.chain(side).len() ==> (#[trigger] o.chain(side)[k]) < o.slab@.len(),
            forall|k: int|
                0 <= k < o.chain(side.spec_opposite()).len() ==> (#[trigger] o.chain(
                    side.spec_opposite(),
                )[k]) < o.slab@.len(),
        ensures
            n.side_view(side) == o.side_view(side).insert(pos, o.order_view(new_ptr)),
            n.side_view(side.spec_opposite()) == o.side_view(side.spec_opposite()),
    {
        let c = o.chain(side);
        let cn = n.chain(side);
        let dn = n.chain(side.spec_opposite());
        assert forall|k: int| 0 <= k < dn.len() implies n.order_view(#[trigger] dn[k])
            == o.order_view(dn[k]) by {
            assert(dn[k] < o.slab@.len());
        }
        assert(n.side_view(side.spec_opposite()) =~= o.side_view(side.spec_opposite()));
        assert forall|k: int| 0 <= k < cn.len() implies n.side_view(side)[k] == o.side_view(
            side,
        ).insert(pos, o.order_view(new_ptr))[k] by {
            if k < pos {
                assert(cn[k] == c[k]);
                assert(c[k] < o.slab@.len());
            } else if k == pos {
                assert(cn[k] == new_ptr);
            } else {
                assert(cn[k] == c[k - 1]);
                assert(c[k - 1] < o.slab@.len());
            }
        }
        assert(n.side_view(side) =~= o.side_view(side).insert(pos, o.order_view(new_ptr)));
    }

    /// The splice rewrites only links: both chains are well linked
    /// afterwards and no record payload changes.
    #[verifier::rlimit(100)]
    proof fn lemma_splice_chain(o: OrderBook, n: OrderBook, new_ptr: OrderRef, side: Side, pos: int)
        requires
            o.chain_ok(Side::Buy),
            o.chain_ok(Side::Sell),
            o.slots_pending(new_ptr),
            o.rec(new_ptr).side == side,
            o.rec(new_ptr).qty.0 > 0,
            0 <= pos <= o.chain(side).len(),
            ({
                let c = o.chain(side);
                let nxt = if pos < c.len() {
                    Some(c[pos])
                } else {
                    None::<OrderRef>
                };
                let prv = if pos > 0 {
                    Some(c[pos - 1])
                } else {
                    None::<OrderRef>
                };
                &&& n.slab@.len() == o.slab@.len()
                &&& (forall|s: int|
                    0 <= s < o.slab@.len() && s != new_ptr && (nxt matches Some(nx) ==> s != nx)
                        && (prv matches Some(pv) ==> s != pv) ==> (#[trigger] n.slab@[s])
                        == o.slab@[s])
                &&& n.rec(new_ptr) == (Order { next: nxt, prev: prv, ..o.rec(new_ptr) })
                &&& (nxt matches Some(nx) ==> n.rec(nx) == (Order {
                    prev: Some(new_ptr),
                    ..o.rec(nx)
                }))
                &&& (prv matches Some(pv) ==> n.rec(pv) == (Order {
                    next: Some(new_ptr),
                    ..o.rec(pv)
                }))
                &&& n.chain(side) == c.insert(pos, new_ptr)
                &&& n.chain(side.spec_opposite()) == o.chain(side.spec_opposite())
                &&& n.head_of(side) == (if pos == 0 {
                    Some(new_ptr)
                } else {
                    o.head_of(side)
                })
                &&& n.head_of(side.spec_opposite()) == o.head_of(side.spec_opposite())
            }),
        ensures
            n.chain_ok(Side::Buy),
            n.chain_ok(Side::Sell),
            n.same_records(o),
    {
        o.lemma_chain_facts(side);
        let c = o.chain(side);
        let d = o.chain(side.spec_opposite());
        let f = o.free_list@;
        let cn = n.chain(side);
        let dn = n.chain(side.spec_opposite());
        assert(forall|k: int| 0 <= k < c.len() ==> (#[trigger] c[k]) != new_ptr) by {
            assert forall|k: int| 0 <= k < c.len() implies (#[trigger] c[k]) != new_ptr by {
                match side {
                    Side::Buy => {
                        assert(o.occupancy()[k] == c[k]);
                    },
                    Side::Sell => {
                        assert(o.occupancy()[o.bid_chain@.len() + k] == c[k]);
                    },
                }
            }
        }
        assert(forall|k: int| 0 <= k < d.len() ==> (#[trigger] d[k]) != new_ptr) by {
            assert forall|k: int| 0 <= k < d.len() implies (#[trigger] d[k]) != new_ptr by {
                match side {
                    Side::Buy => {
                        assert(o.occupancy()[o.bid_chain@.len() + k] == d[k]);
                    },
                    Side::Sell => {
                        assert(o.occupancy()[k] == d[k]);
                    },
                }
            }
        }
        assert forall|k: int| 0 <= k < cn.len() implies {
            &&& (#[trigger] cn[k]) < n.slab@.len()
            &&& n.rec(cn[k]).side == side
            &&& n.rec(cn[k]).qty.0 > 0
            &&& n.rec(cn[k]).id == o.rec(cn[k]).id
            &&& n.rec(cn[k]).price == o.rec(cn[k]).price
            &&& n.rec(cn[k]).qty == o.rec(cn[k]).qty
            &&& n.rec(cn[k]).next == (if k + 1 < cn.len() {
                Some(cn[k + 1])
            } else {
                None::<OrderRef>
            })
            &&& n.rec(cn[k]).prev == (if k > 0 {
                Some(cn[k - 1])
            } else {
                None::<OrderRef>
            })
        } by {
            if k < pos {
                assert(cn[k] == c[k]);
            } else if k == pos {
                assert(cn[k] == new_ptr);
            } else {
                assert(cn[k] == c[k - 1]);
            }
            if k + 1 < cn.len() {
                if k + 1 < pos {
                    assert(cn[k + 1] == c[k + 1]);
                } else if k + 1 == pos {
                    assert(cn[k + 1] == new_ptr);
                } else {
                    assert(cn[k + 1] == c[k]);
                }
            }
            if k > 0 {
                if k - 1 < pos {
                    assert(cn[k - 1] == c[k - 1]);
                } else if k - 1 == pos {
                    assert(cn[k - 1] == new_ptr);
                } else {
                    assert(cn[k - 1] == c[k - 2]);
                }
            }
        }
        assert forall|k: int| 0 <= k < dn.len() implies {
            &&& (#[trigger] dn[k]) < n.slab@.len()
            &&& n.rec(dn[k]) == o.rec(dn[k])
        } by {
            assert(dn[k] == d[k]);
            assert(d[k] != new_ptr);
            if pos < c.len() {
                assert(d[k] != c[pos]);
            }
            if pos > 0 {
                assert(d[k] != c[pos - 1]);
            }
        }
        assert(n.chain_ok(side));
        assert(n.chain_ok(side.spec_opposite()));
        assert(n.chain_ok(Side::Buy) && n.chain_ok(Side::Sell));
        assert forall|s: int| 0 <= s < o.slab@.len() implies {
            &&& (#[trigger] n.slab@[s]).id == o.slab@[s].id
            &&& n.slab@[s].price == o.slab@[s].price
            &&& n.slab@[s].qty == o.slab@[s].qty
            &&& n.slab@[s].side == o.slab@[s].side
        } by {
            if s == new_ptr {
            } else if pos < c.len() && s == c[pos] {
            } else if pos > 0 && s == c[pos - 1] {
            } else {
                assert(n.slab@[s] == o.slab@[s]);
            }
        }
    }

    /// Linking the pending slot into a chain closes the slot
    /// accounting again: every slab slot is accounted for exactly
    /// once.
    #[verifier::rlimit(100)]
    proof fn lemma_splice_slots(o: OrderBook, n: OrderBook, new_ptr: OrderRef, side: Side, pos: int)
        requires
            o.chain_ok(Side::Buy),
            o.chain_ok(Side::Sell),
            o.slots_pending(new_ptr),
            0 <= pos <= o.chain(side).len(),
            n.chain(side) == o.chain(side).insert(pos, new_ptr),
            n.chain(side.spec_opposite()) == o.chain(side.spec_opposite()),
            n.free_list@ == o.free_list@,
            n.slab@.len() == o.slab@.len(),
        ensures
            n.slots_ok(),
    {
        o.lemma_chain_facts(side);
        let c = o.chain(side);
        let d = o.chain(side.spec_opposite());
        let f = o.free_list@;
        let cn = n.chain(side);
        let dn = n.chain(side.spec_opposite());
        assert forall|k: int| 0 <= k < c.len() implies (#[trigger] c[k]) != new_ptr by {
            match side {
                Side::Buy => {
                    assert(o.occupancy()[k] == c[k]);
                },
                Side::Sell => {
                    assert(o.occupancy()[o.bid_chain@.len() + k] == c[k]);
                },
            }
        }
        assert forall|k: int| 0 <= k < d.len() implies (#[trigger] d[k]) != new_ptr by {
            match side {
                Side::Buy => {
                    assert(o.occupancy()[o.bid_chain@.len() + k] == d[k]);
                },
                Side::Sell => {
                    assert(o.occupancy()[k] == d[k]);
                },
            }
        }
        assert forall|k: int| 0 <= k < f.len() implies (#[trigger] f[k]) != new_ptr by {
            assert(o.occupancy()[o.bid_chain@.len() + o.ask_chain@.len() + k] == f[k]);
        }
        assert(cn.no_duplicates()) by {
            assert forall|x: int, y: int|
                0 <= x < cn.len() && 0 <= y < cn.len() && x != y implies cn[x] != cn[y] by {
                if x < pos {
                    assert(cn[x] == c[x]);
                } else if x == pos {
                    assert(cn[x] == new_ptr);
                } else {
                    assert(cn[x] == c[x - 1]);
                }
                if y < pos {
                    assert(cn[y] == c[y]);
                } else if y == pos {
                    assert(cn[y] == new_ptr);
                } else {
                    assert(cn[y] == c[y - 1]);
                }
            }
        }
        assert(forall|x: int|
            0 <= x < cn.len() ==> (if x < pos {
                (#[trigger] cn[x]) == c[x]
            } else if x == pos {
                cn[x] == new_ptr
            } else {
                cn[x] == c[x - 1]
            }));
        match side {
            Side::Buy => {
                vstd::seq_lib::lemma_no_dup_in_concat(cn, d);
                assert forall|x: int, y: int|
                    0 <= x < (cn + d).len() && 0 <= y < f.len() implies ((cn + d)[x]) != (
                f[y]) by {
                    if x < cn.len() {
                        assert((cn + d)[x] == cn[x]);
                    } else {
                        assert((cn + d)[x] == d[x - cn.len()]);
                    }
                }
                vstd::seq_lib::lemma_no_dup_in_concat(cn + d, f);
                assert(n.occupancy() == (cn + d) + f);
            },
            Side::Sell => {
                vstd::seq_lib::lemma_no_dup_in_concat(d, cn);
                assert forall|x: int, y: int|
                    0 <= x < (d + cn).len() && 0 <= y < f.len() implies ((d + cn)[x]) != (
                f[y]) by {
                    if x < d.len() {
                        assert((d + cn)[x] == d[x]);
                    } else {
                        assert((d + cn)[x] == cn[x - d.len()]);
                    }
                }
                vstd::seq_lib::lemma_no_dup_in_concat(d + cn, f);
                assert(n.occupancy() == (d + cn) + f);
            },
        }
        assert forall|k: int|
            0 <= k < n.occupancy().len() implies (#[trigger] n.occupancy()[k])
                < n.slab@.len() by {
            let occ = n.occupancy();
            let bn = n.bid_chain@;
            let an = n.ask_chain@;
            if k < bn.len() {
                assert(occ[k] == bn[k]);
            } else if k < bn.len() + an.len() {
                assert(occ[k] == an[k - bn.len()]);
            } else {
                assert(occ[k] == n.free_list@[k - bn.len() - an.len()]);
            }
        }
        assert(n.occupancy().len() == n.slab@.len());
    }

    /// Unlinking a chain record and pushing its slot to the recycler
    /// keeps every slot accounted for exactly once.
    #[verifier::rlimit(100)]
    proof fn lemma_recycle_slots(self, o: OrderBook, ptr: OrderRef)
        requires
            o.chain_ok(Side::Buy),
            o.chain_ok(Side::Sell),
            o.slots_ok(),
            o.chain(o.rec(ptr).side).contains(ptr),
            ({
                let side = o.rec(ptr).side;
                let pos = o.chain(side).index_of(ptr);
                &&& self.chain(side) == o.chain(side).remove(pos)
                &&& self.chain(side.spec_opposite()) == o.chain(side.spec_opposite())
                &&& self.free_list@ == o.free_list@.push(ptr)
                &&& self.slab@.len() == o.slab@.len()
            }),
        ensures
            self.slots_ok(),
    {
        let side = o.rec(ptr).side;
        o.lemma_chain_facts(side);
        let c = o.chain(side);
        let d = o.chain(side.spec_opposite());
        let f = o.free_list@;
        let pos = c.index_of(ptr);
        assert(0 <= pos < c.len() && c[pos] == ptr);
        let cn = c.remove(pos);
        let fn2 = f.push(ptr);
        assert(cn.no_duplicates()) by {
            assert forall|i: int, j: int|
                0 <= i < cn.len() && 0 <= j < cn.len() && i != j implies cn[i] != cn[j] by {
                if i < pos {
                    assert(cn[i] == c[i]);
                } else {
                    assert(cn[i] == c[i + 1]);
                }
                if j < pos {
                    assert(cn[j] == c[j]);
                } else {
                    assert(cn[j] == c[j + 1]);
                }
            }
        }
        assert(forall|i: int|
            0 <= i < cn.len() ==> (if i < pos {
                (#[trigger] cn[i]) == c[i]
            } else {
                cn[i] == c[i + 1]
            }));
        assert(fn2.no_duplicates()) by {
            assert forall|i: int, j: int|
                0 <= i < fn2.len() && 0 <= j < fn2.len() && i != j implies fn2[i] != fn2[j] by {
                assert(fn2[f.len() as int] == ptr);
                if i < f.len() {
                    assert(fn2[i] == f[i]);
                }
                if j < f.len() {
                    assert(fn2[j] == f[j]);
                }
            }
        }
        match side {
            Side::Buy => {
                vstd::seq_lib::lemma_no_dup_in_concat(cn, d);
                assert forall|i: int, j: int|
                    0 <= i < (cn + d).len() && 0 <= j < fn2.len() implies ((cn + d)[i]) != (
                fn2[j]) by {
                    if i < cn.len() {
                        assert((cn + d)[i] == cn[i]);
                    } else {
                        assert((cn + d)[i] == d[i - cn.len()]);
                    }
                    if j < f.len() {
                        assert(fn2[j] == f[j]);
                    } else {
                        assert(fn2[j] == ptr);
                    }
                }
                vstd::seq_lib::lemma_no_dup_in_concat(cn + d, fn2);
                assert(self.occupancy() == (cn + d) + fn2);
            },
            Side::Sell => {
                vstd::seq_lib::lemma_no_dup_in_concat(d, cn);
                assert forall|i: int, j: int|
                    0 <= i < (d + cn).len() && 0 <= j < fn2.len() implies ((d + cn)[i]) != (
                fn2[j]) by {
                    if i < d.len() {
                        assert((d + cn)[i] == d[i]);
                    } else {
                        assert((d + cn)[i] == cn[i - d.len()]);
                    }
                    if j < f.len() {
                        assert(fn2[j] == f[j]);
                    } else {
                        assert(fn2[j] == ptr);
                    }
                }
                vstd::seq_lib::lemma_no_dup_in_concat(d + cn, fn2);
                assert(self.occupancy() == (d + cn) + fn2);
            },
        }
        assert forall|k: int|
            0 <= k < self.occupancy().len() implies (#[trigger] self.occupancy()[k])
                < self.slab@.len() by {
            let occ = self.occupancy();
            let bn = self.bid_chain@;
            let an = self.ask_chain@;
            if k < bn.len() {
                assert(occ[k] == bn[k]);
            } else if k < bn.len() + an.len() {
                assert(occ[k] == an[k - bn.len()]);
            } else {
                assert(occ[k] == self.free_list@[k - bn.len() - an.len()]);
            }
        }
        assert(self.occupancy().len() == self.slab@.len());
    }

    /// After an unlink of `ptr` (the record carrying `id`), a removal
    /// of `id` from the index and a recycler push of `ptr`, the book
    /// is well formed again and its abstract state is exactly the
    /// cancel transition.
    #[verifier::rlimit(100)]
    proof fn lemma_restore_after_cancel(self, o: OrderBook, ptr: OrderRef, id: u64)
        requires
            o.wf(),
            o.order_index@.contains_key(id),
            o.order_index@[id] == ptr,
            o.chain(o.rec(ptr).side).contains(ptr),
            ({
                let side = o.rec(ptr).side;
                let opp = side.spec_opposite();
                let pos = o.chain(side).index_of(ptr);
                &&& self.chain(side) == o.chain(side).remove(pos)
                &&& self.chain(opp) == o.chain(opp)
                &&& self.side_view(side) == o.side_view(side).remove(pos)
                &&& self.side_view(opp) == o.side_view(opp)
                &&& self.chain_ok(Side::Buy)
                &&& self.chain_ok(Side::Sell)
                &&& self.same_records(o)
                &&& self.free_list@ == o.free_list@.push(ptr)
                &&& self.order_index@ == o.order_index@.remove(id)
                &&& self.capacity == o.capacity
            }),
        ensures
            self.wf(),
            self@ == spec_cancel(o@, id),
    {
        let side = o.rec(ptr).side;
        o.lemma_chain_facts(side);
        o.lemma_wf_ids();
        let opp = side.spec_opposite();
        let c = o.chain(side);
        let d = o.chain(opp);
        let pos = c.index_of(ptr);
        let f = o.free_list@;
        assert(0 <= pos < c.len() && c[pos] == ptr);
        assert(o.rec(ptr).id.0 == id);
        let cn = c.remove(pos);
        self.lemma_recycle_slots(o, ptr);
        assert(forall|i: int|
            0 <= i < cn.len() ==> (if i < pos {
                (#[trigger] cn[i]) == c[i]
            } else {
                cn[i] == c[i + 1]
            }));
        // Index correspondence.
        assert forall|k: int|
            0 <= k < cn.len() implies self.order_index@.contains_key(
            self.rec(#[trigger] cn[k]).id.0,
        ) && self.order_index@[self.rec(cn[k]).id.0] == cn[k] by {
            let m: int = if k < pos {
                k
            } else {
                k + 1
            };
            assert(cn[k] == c[m]);
            assert(o.order_index@.contains_key(o.rec(c[m]).id.0) && o.order_index@[o.rec(
                c[m],
            ).id.0] == c[m]);
            assert(self.rec(cn[k]).id == o.rec(cn[k]).id);
            if o.rec(c[m]).id.0 == id {
                assert(c[m] == ptr);
                assert(m == pos);
            }
        }
        assert forall|k: int|
            0 <= k < d.len() implies self.order_index@.contains_key(
            self.rec(#[trigger] d[k]).id.0,
        ) && self.order_index@[self.rec(d[k]).id.0] == d[k] by {
            assert(o.order_index@.contains_key(o.rec(d[k]).id.0) && o.order_index@[o.rec(
                d[k],
            ).id.0] == d[k]);
            assert(self.rec(d[k]).id == o.rec(d[k]).id);
            if o.rec(d[k]).id.0 == id {
                assert(d[k] == ptr);
                assert(c[pos] != d[k]);
            }
        }
        assert(self.chain_indexed(Side::Buy) && self.chain_indexed(Side::Sell));
        assert forall|id2: u64| #[trigger]
            self.order_index@.contains_key(id2) implies {
            let s = self.order_index@[id2];
            &&& s < self.slab@.len()
            &&& self.rec(s).id.0 == id2
            &&& (self.bid_chain@.contains(s) || self.ask_chain@.contains(s))
        } by {
            assert(o.order_index@.contains_key(id2) && id2 != id);
            let s = o.order_index@[id2];
            assert(s < o.slab@.len() && o.rec(s).id.0 == id2);
            assert(self.rec(s).id == o.rec(s).id);
            if c.contains(s) {
                let m = choose|m: int| 0 <= m < c.len() && c[m] == s;
                assert(m != pos);
                if m < pos {
                    assert(cn[m] == c[m]);
                    assert(cn.contains(s));
                } else {
                    assert(cn[m - 1] == c[m]);
                    assert(cn.contains(s));
                }
            } else {
                assert(o.bid_chain@.contains(s) || o.ask_chain@.contains(s));
                match side {
                    Side::Buy => {
                        assert(o.ask_chain@.contains(s));
                    },
                    Side::Sell => {
                        assert(o.bid_chain@.contains(s));
                    },
                }
                assert(d.contains(s));
            }
            match side {
                Side::Buy => {
                    assert(self.bid_chain@ == cn && self.ask_chain@ == d);
                },
                Side::Sell => {
                    assert(self.ask_chain@ == cn && self.bid_chain@ == d);
                },
            }
        }
        // Count: one active order fewer.
        assert(self.order_index@.dom() =~= o.order_index@.dom().remove(id));
        assert(self.order_index@.dom().len() == o.order_index@.dom().len() - 1);
        // Order is kept.
        crate::engine::model::lemma_sorted_remove(side, o.side_view(side), pos);
        assert(sorted_by_priority(Side::Buy, self.side_view(Side::Buy)) && sorted_by_priority(
            Side::Sell,
            self.side_view(Side::Sell),
        ));
        assert(self.wf());
        // The abstract transition is exactly a cancel.
        let sv = o.side_view(side);
        assert(sv[pos].id == id);
        assert(contains_id(sv, id));
        let q = position_of_id(sv, id);
        assert(0 <= q < sv.len() && sv[q].id == id);
        assert(q == pos) by {
            if q != pos {
                assert(unique_ids(sv));
                assert(sv[q].id != sv[pos].id || q == pos);
            }
        }
        match side {
            Side::Buy => {
                assert(contains_id(o@.bids, id));
                assert(self@ =~= spec_cancel(o@, id));
            },
            Side::Sell => {
                assert(contains_id(o@.asks, id));
                assert(!contains_id(o@.bids, id)) by {
                    assert(!(contains_id(o.side_view(Side::Buy), id) && contains_id(
                        o.side_view(Side::Sell),
                        id,
                    )));
                }
                assert(self@ =~= spec_cancel(o@, id));
            },
        }
    }

    /// Reducing the head maker's quantity in place — to a value still
    /// above zero — leaves the book well formed, with only that one
    /// entry of the side's abstract chain changed.
    #[verifier::rlimit(100)]
    proof fn lemma_qty_update(self, o: OrderBook, ptr: OrderRef, side: Side, pos: int)
        requires
            o.wf(),
            0 <= pos < o.chain(side).len(),
            o.chain(side)[pos] == ptr,
            self.slab@.len() == o.slab@.len(),
            forall|s: int|
                0 <= s < o.slab@.len() && s != ptr ==> (#[trigger] self.slab@[s]) == o.slab@[s],
            self.rec(ptr) == (Order { qty: self.rec(ptr).qty, ..o.rec(ptr) }),
            self.rec(ptr).qty.0 > 0,
            self.bid_chain@ == o.bid_chain@,
            self.ask_chain@ == o.ask_chain@,
            self.free_list@ == o.free_list@,
            self.order_index@ == o.order_index@,
            self.best_bid == o.best_bid,
            self.best_ask == o.best_ask,
            self.capacity == o.capacity,
        ensures
            self.wf(),
            self.side_view(side) == o.side_view(side).update(
                pos,
                (RestingOrder { qty: self.rec(ptr).qty.0, ..o.side_view(side)[pos] }),
            ),
            self.side_view(side.spec_opposite()) == o.side_view(side.spec_opposite()),
    {
        o.lemma_chain_facts(side);
        let c = o.chain(side);
        let d = o.chain(side.spec_opposite());
        assert forall|k: int| 0 <= k < c.len() implies {
            &&& self.rec(#[trigger] c[k]).side == o.rec(c[k]).side
            &&& self.rec(c[k]).qty.0 > 0
            &&& self.rec(c[k]).next == o.rec(c[k]).next
            &&& self.rec(c[k]).prev == o.rec(c[k]).prev
            &&& self.rec(c[k]).id == o.rec(c[k]).id
            &&& self.rec(c[k]).price == o.rec(c[k]).price
        } by {
            if c[k] != ptr {
                assert(self.slab@[c[k] as int] == o.slab@[c[k] as int]);
            }
        }
        assert forall|k: int| 0 <= k < d.len() implies self.rec(#[trigger] d[k]) == o.rec(
            d[k],
        ) by {
            assert(d[k] != c[pos]);
        }
        assert(self.chain_ok(side));
        assert(self.chain_ok(side.spec_opposite()));
        assert(self.chain_ok(Side::Buy) && self.chain_ok(Side::Sell));
        assert(self.side_view(side.spec_opposite()) =~= o.side_view(side.spec_opposite()));
        assert forall|k: int| 0 <= k < c.len() implies self.side_view(side)[k] == o.side_view(
            side,
        ).update(pos, (RestingOrder { qty: self.rec(ptr).qty.0, ..o.side_view(side)[pos] }))[k] by {
            if k != pos {
                assert(c[k] != c[pos]);
                assert(self.slab@[c[k] as int] == o.slab@[c[k] as int]);
            }
        }
        assert(self.side_view(side) =~= o.side_view(side).update(
            pos,
            (RestingOrder { qty: self.rec(ptr).qty.0, ..o.side_view(side)[pos] }),
        ));
        assert forall|i: int, j: int|
            0 <= i <= j < self.side_view(side).len() implies better_or_equal(
            side,
            (#[trigger] self.side_view(side)[i]).price,
            (#[trigger] self.side_view(side)[j]).price,
        ) by {
            assert(self.side_view(side)[i].price == o.side_view(side)[i].price);
            assert(self.side_view(side)[j].price == o.side_view(side)[j].price);
        }
        assert(sorted_by_priority(Side::Buy, self.side_view(Side::Buy)) && sorted_by_priority(
            Side::Sell,
            self.side_view(Side::Sell),
        ));
        assert(self.wf());
    }

    /// Consumes the opposite side's chain head first while the
    /// incoming order has remaining quantity and its limit crosses
    /// the resting price; each fill executes at the maker's price,
    /// and a fully consumed maker is unlinked, unindexed and its slot
    /// recycled on the spot.
    #[verifier::rlimit(100)]
    pub(crate) fn match_incoming(
        &mut self,
        taker_id: OrderId,
        taker_side: Side,
        taker_price: Price,
        taker_qty: Quantity,
    ) -> (r: (Quantity, Vec<Trade>))
        requires
            old(self).wf(),
        ensures
            match_post(
                *old(self),
                *final(self),
                taker_id,
                taker_side,
                taker_price,
                taker_qty,
                r.0,
                r.1@,
            ),
    {
        let ghost opp = taker_side.spec_opposite();
        let ghost sv0 = old(self).side_view(opp);
        let ghost m0 = spec_match(sv0, taker_id.0, taker_side, taker_price.0, taker_qty.0);
        let mut trades: Vec<Trade> = Vec::with_capacity(16);
        let mut q = taker_qty;
        proof {
            assert(Seq::<Trade>::empty() + m0.trades =~= m0.trades);
        }
        loop
            invariant
                self.wf(),
                self.side_view(taker_side) == old(self).side_view(taker_side),
                self.slab@.len() == old(self).slab@.len(),
                self.capacity == old(self).capacity,
                self.symbol == old(self).symbol,
                self.free_list@.len() >= old(self).free_list@.len(),
                ({
                    let mi = spec_match(
                        self.side_view(opp),
                        taker_id.0,
                        taker_side,
                        taker_price.0,
                        q.0,
                    );
                    &&& m0.makers == mi.makers
                    &&& m0.trades == trades@ + mi.trades
                    &&& m0.remaining == mi.remaining
                    &&& m0.filled.len() == (self.free_list@.len() - old(
                        self,
                    ).free_list@.len()) + mi.filled.len()
                }),
                forall|x: u64| #[trigger]
                    self.order_index@.contains_key(x) ==> old(self).order_index@.contains_key(x),
                opp == taker_side.spec_opposite(),
                sv0 == old(self).side_view(opp),
                m0 == spec_match(sv0, taker_id.0, taker_side, taker_price.0, taker_qty.0),
            ensures
                self.wf(),
                self.side_view(taker_side) == old(self).side_view(taker_side),
                self.slab@.len() == old(self).slab@.len(),
                self.capacity == old(self).capacity,
                self.symbol == old(self).symbol,
                self.side_view(opp) == m0.makers,
                trades@ == m0.trades,
                q.0 == m0.remaining,
                self.free_list@.len() == old(self).free_list@.len() + m0.filled.len(),
                forall|x: u64| #[trigger]
                    self.order_index@.contains_key(x) ==> old(self).order_index@.contains_key(x),
            decreases self.chain(opp).len(), q.0,
        {
            let ghost mi = spec_match(
                self.side_view(opp),
                taker_id.0,
                taker_side,
                taker_price.0,
                q.0,
            );
            if q.0 == 0 {
                proof {
                    assert(trades@ + mi.trades =~= trades@);
                }
                break ;
            }
            let head = match taker_side {
                Side::Buy => self.best_ask,
                Side::Sell => self.best_bid,
            };
            let ptr = match head {
                None => {
                    proof {
                        assert(trades@ + mi.trades =~= trades@);
                    }
                    break ;
                },
                Some(p) => p,
            };
            proof {
                assert(self.chain(opp).len() > 0 && self.chain(opp)[0] == ptr);
                assert(ptr < self.slab@.len());
            }
            let mrec = self.slab[ptr];
            let crosses = match taker_side {
                Side::Buy => taker_price.0 >= mrec.price.0,
                Side::Sell => taker_price.0 <= mrec.price.0,
            };
            if !crosses {
                proof {
                    assert(self.side_view(opp)[0].price == mrec.price.0);
                    assert(!spec_crosses(taker_side, taker_price.0, self.side_view(opp)[0].price));
                    assert(trades@ + mi.trades =~= trades@);
                }
                break ;
            }
            let fill = if q.0 < mrec.qty.0 {
                q.0
            } else {
                mrec.qty.0
            };
            let ghost pre = *self;
            let ghost trades_pre = trades@;
            let ghost q_pre = q;
            trades.push(
                Trade {
                    maker_id: mrec.id,
                    taker_id,
                    price: mrec.price,
                    quantity: Quantity(fill),
                    maker_side: mrec.side,
                },
            );
            q = Quantity(q.0 - fill);
            proof {
                assert(pre.side_view(opp)[0] == (RestingOrder {
                    id: mrec.id.0,
                    price: mrec.price.0,
                    qty: mrec.qty.0,
                }));
                assert(mrec.side == opp);
            }
            if fill == mrec.qty.0 {
                // The maker is fully consumed: full removal, not a
                // ghost zero-quantity node.
                let maker_key = mrec.id.0;
                proof {
                    pre.lemma_wf_ids();
                    assert(pre.order_index@.contains_key(maker_key) && pre.order_index@[maker_key]
                        == ptr);
                }
                self.order_index.remove(&maker_key);
                proof {
                    assert(self.order_index@ == pre.order_index@.remove(maker_key));
                    assert(pre.chain(pre.rec(ptr).side).contains(ptr));
                    assert(self.side_view(Side::Buy) =~= pre.side_view(Side::Buy));
                    assert(self.side_view(Side::Sell) =~= pre.side_view(Side::Sell));
                }
                self.remove_order(ptr);
                let ghost mid1 = *self;
                self.free_list.push(ptr);
                proof {
                    let pos = pre.chain(opp).index_of(ptr);
                    assert(pre.chain(opp).no_duplicates()) by {
                        pre.lemma_chain_facts(opp);
                    }
                    assert(pos == 0) by {
                        assert(0 <= pos < pre.chain(opp).len() && pre.chain(opp)[pos] == ptr);
                        if pos != 0 {
                            assert(pre.chain(opp)[0] != pre.chain(opp)[pos]);
                        }
                    }
                    assert(self.side_view(opp) =~= mid1.side_view(opp));
                    assert(self.side_view(taker_side) =~= mid1.side_view(taker_side));
                    assert(self.side_view(opp) == pre.side_view(opp).remove(0));
                    assert(self.side_view(taker_side) == pre.side_view(taker_side));
                    assert(self.chain_ok(Side::Buy) && self.chain_ok(Side::Sell));
                    assert(self.same_records(pre));
                    self.lemma_restore_after_cancel(pre, ptr, maker_key);
                    assert(pre.side_view(opp).remove(0) =~= pre.side_view(opp).drop_first());
                    // One recursion step of the matching function.
                    let rest = spec_match(
                        pre.side_view(opp).drop_first(),
                        taker_id.0,
                        taker_side,
                        taker_price.0,
                        (q_pre.0 - fill) as u64,
                    );
                    assert(mi.makers == rest.makers);
                    assert(mi.trades == seq![trades@[trades@.len() - 1]] + rest.trades);
                    assert(trades@ + rest.trades =~= trades_pre + mi.trades);
                    assert(m0.trades == trades@ + rest.trades);
                }
            } else {
                let mut m2 = self.slab[ptr];
                m2.qty = Quantity(mrec.qty.0 - fill);
                self.slab[ptr] = m2;
                proof {
                    self.lemma_qty_update(pre, ptr, opp, 0);
                    assert(self.side_view(opp) == pre.side_view(opp).update(
                        0,
                        (RestingOrder { qty: (mrec.qty.0 - fill) as u64, ..pre.side_view(opp)[0] }),
                    ));
                    assert(self.side_view(taker_side) =~= pre.side_view(taker_side));
                    assert(q.0 == 0);
                    let mi2 = spec_match(
                        self.side_view(opp),
                        taker_id.0,
                        taker_side,
                        taker_price.0,
                        q.0,
                    );
                    assert(mi2.trades =~= Seq::<Trade>::empty());
                    assert(mi.makers == self.side_view(opp));
                    assert(mi.trades =~= seq![trades@[trades@.len() - 1]]);
                    assert(trades@ =~= trades_pre + mi.trades);
                    assert(m0.trades == trades@ + mi2.trades);
                }
            }
        }
        proof {
            assert(self@.free_slots == old(self)@.free_slots + m0.filled.len());
            assert(self@.used_slots == old(self)@.used_slots);
            assert forall|x: u64| #[trigger] view_active(self@, x) implies view_active(
                old(self)@,
                x,
            ) by {
                self.lemma_wf_ids();
                old(self).lemma_wf_ids();
            }
        }
        (q, trades)
    }

    /// After the new record was linked into its side and indexed, the
    /// book is well formed again.
    #[verifier::rlimit(100)]
    proof fn lemma_restore_after_place(
        self,
        m: OrderBook,
        new_ptr: OrderRef,
        id: u64,
        side: Side,
        pos: int,
    )
        requires
            m.wf(),
            !m.order_index@.contains_key(id),
            !m.bid_chain@.contains(new_ptr),
            !m.ask_chain@.contains(new_ptr),
            0 <= pos <= m.chain(side).len(),
            self.chain(side) == m.chain(side).insert(pos, new_ptr),
            self.chain(side.spec_opposite()) == m.chain(side.spec_opposite()),
            self.chain_ok(Side::Buy),
            self.chain_ok(Side::Sell),
            self.slots_ok(),
            self.slab@.len() <= self.capacity,
            self.capacity == m.capacity,
            self.order_index@ == m.order_index@.insert(id, new_ptr),
            new_ptr < self.slab@.len(),
            self.rec(new_ptr).id.0 == id,
            m.slab@.len() <= self.slab@.len(),
            forall|s: int|
                0 <= s < m.slab@.len() && s != new_ptr ==> (#[trigger] self.slab@[s]).id
                    == m.slab@[s].id,
            sorted_by_priority(Side::Buy, self.side_view(Side::Buy)),
            sorted_by_priority(Side::Sell, self.side_view(Side::Sell)),
        ensures
            self.wf(),
    {
        let c = m.chain(side);
        let d = m.chain(side.spec_opposite());
        let cn = self.chain(side);
        assert(forall|x: int|
            0 <= x < cn.len() ==> (if x < pos {
                (#[trigger] cn[x]) == c[x]
            } else if x == pos {
                cn[x] == new_ptr
            } else {
                cn[x] == c[x - 1]
            }));
        assert forall|k: int|
            0 <= k < cn.len() implies self.order_index@.contains_key(
            self.rec(#[trigger] cn[k]).id.0,
        ) && self.order_index@[self.rec(cn[k]).id.0] == cn[k] by {
            if k == pos {
                assert(cn[k] == new_ptr);
            } else {
                let j: int = if k < pos {
                    k
                } else {
                    k - 1
                };
                assert(cn[k] == c[j]);
                assert(m.order_index@.contains_key(m.rec(c[j]).id.0) && m.order_index@[m.rec(
                    c[j],
                ).id.0] == c[j]);
                assert(c[j] != new_ptr);
                assert(self.rec(c[j]).id == m.rec(c[j]).id);
            }
        }
        assert forall|k: int|
            0 <= k < d.len() implies self.order_index@.contains_key(
            self.rec(#[trigger] d[k]).id.0,
        ) && self.order_index@[self.rec(d[k]).id.0] == d[k] by {
            assert(m.order_index@.contains_key(m.rec(d[k]).id.0) && m.order_index@[m.rec(
                d[k],
            ).id.0] == d[k]);
            assert(d[k] != new_ptr);
            assert(self.rec(d[k]).id == m.rec(d[k]).id);
        }
        assert(self.chain_indexed(Side::Buy) && self.chain_indexed(Side::Sell));
        assert forall|id2: u64| #[trigger]
            self.order_index@.contains_key(id2) implies {
            let s = self.order_index@[id2];
            &&& s < self.slab@.len()
            &&& self.rec(s).id.0 == id2
            &&& (self.bid_chain@.contains(s) || self.ask_chain@.contains(s))
        } by {
            if id2 == id {
                assert(self.order_index@[id2] == new_ptr);
                assert(cn[pos] == new_ptr);
                assert(cn.contains(new_ptr));
                match side {
                    Side::Buy => {
                        assert(self.bid_chain@.contains(new_ptr));
                    },
                    Side::Sell => {
                        assert(self.ask_chain@.contains(new_ptr));
                    },
                }
            } else {
                assert(m.order_index@.contains_key(id2));
                let s = m.order_index@[id2];
                assert(s < m.slab@.len() && m.rec(s).id.0 == id2);
                assert(s != new_ptr);
                assert(self.rec(s).id == m.rec(s).id);
                if c.contains(s) {
                    let j = choose|j: int| 0 <= j < c.len() && c[j] == s;
                    if j < pos {
                        assert(cn[j] == c[j]);
                    } else {
                        assert(cn[j + 1] == c[j]);
                    }
                    assert(cn.contains(s));
                } else {
                    assert(m.bid_chain@.contains(s) || m.ask_chain@.contains(s));
                    match side {
                        Side::Buy => {
                            assert(m.ask_chain@.contains(s));
                        },
                        Side::Sell => {
                            assert(m.bid_chain@.contains(s));
                        },
                    }
                    assert(d.contains(s));
                }
                match side {
                    Side::Buy => {
                        assert(self.bid_chain@ == cn && self.ask_chain@ == d);
                    },
                    Side::Sell => {
                        assert(self.ask_chain@ == cn && self.bid_chain@ == d);
                    },
                }
            }
        }
        assert(self.order_index@.dom() =~= m.order_index@.dom().insert(id));
        assert(self.order_index@.dom().len() == m.order_index@.dom().len() + 1);
        assert(self.wf());
    }

    /// An indexed identifier leads to a live chain record: the slot
    /// the index names carries the identifier, rests in the chain of
    /// its own side, and sits exactly where the abstract view says.
    proof fn lemma_locate_active(self, id: u64, ptr: OrderRef)
        requires
            self.wf(),
            self.order_index@.contains_key(id),
            self.order_index@[id] == ptr,
        ensures
            ptr < self.slab@.len(),
            self.rec(ptr).id.0 == id,
            view_active(self@, id),
            active_side(self@, id) == self.rec(ptr).side,
            ({
                let side = self.rec(ptr).side;
                let s = side_seq(self@, side);
                let pos = position_of_id(s, id);
                &&& 0 <= pos < s.len()
                &&& s[pos] == self.order_view(ptr)
                &&& self.chain(side)[pos] == ptr
                &&& self.chain(side).contains(ptr)
            }),
    {
        self.lemma_wf_ids();
        self.lemma_occ_distinct();
        if self.bid_chain@.contains(ptr) {
            let k = choose|k: int| 0 <= k < self.bid_chain@.len() && self.bid_chain@[k] == ptr;
            assert(self.rec(self.bid_chain@[k]).side == Side::Buy);
            assert(self.side_view(Side::Buy)[k].id == id);
            assert(contains_id(self@.bids, id));
            let pos = position_of_id(self@.bids, id);
            assert(0 <= pos < self@.bids.len() && self@.bids[pos].id == id);
            assert(pos == k) by {
                if pos != k {
                    assert(unique_ids(self.side_view(Side::Buy)));
                    assert(self.side_view(Side::Buy)[pos].id != self.side_view(Side::Buy)[k].id
                        || pos == k);
                }
            }
        } else {
            assert(self.ask_chain@.contains(ptr));
            let k = choose|k: int| 0 <= k < self.ask_chain@.len() && self.ask_chain@[k] == ptr;
            assert(self.rec(self.ask_chain@[k]).side == Side::Sell);
            assert(self.side_view(Side::Sell)[k].id == id);
            assert(contains_id(self@.asks, id));
            assert(!contains_id(self@.bids, id)) by {
                assert(!(contains_id(self.side_view(Side::Buy), id) && contains_id(
                    self.side_view(Side::Sell),
                    id,
                )));
            }
            let pos = position_of_id(self@.asks, id);
            assert(0 <= pos < self@.asks.len() && self@.asks[pos].id == id);
            assert(pos == k) by {
                if pos != k {
                    assert(unique_ids(self.side_view(Side::Sell)));
                    assert(self.side_view(Side::Sell)[pos].id != self.side_view(Side::Sell)[k].id
                        || pos == k);
                }
            }
        }
    }

    /// Modifies a resting order. Same price and no quantity increase
    /// is the fast path: the record shrinks in place and keeps its
    /// chain position — shrinking to zero degenerates to a cancel. A
    /// price change or a quantity increase loses priority by exchange
    /// convention: the order is cancelled, then placed anew with the
    /// new parameters, which may match against the book at once.
    #[verifier::rlimit(100)]
    pub fn modify_order(&mut self, id: u64, new_price: u64, new_qty: u64) -> (r: (
        Result<Option<OrderRef>, BookError>,
        Vec<Trade>,
    ))
        requires
            old(self).wf(),
        ensures
            final(self).wf(),
            final(self).spec_symbol() == old(self).spec_symbol(),
            ({
                let e = spec_modify(old(self)@, id, new_price, new_qty);
                &&& final(self)@ == e.book
                &&& r.1@ == e.trades
                &&& match e.outcome {
                    ModifyOutcome::NotFound => r.0 == Err::<Option<OrderRef>, BookError>(
                        BookError::NotFound,
                    ) && *final(self) == *old(self),
                    ModifyOutcome::Canceled => r.0 == Ok::<Option<OrderRef>, BookError>(None),
                    ModifyOutcome::Reduced => r.0 matches Ok(Some(h)) && h < final(self).num_slots()
                        && final(self).rec(h).id.0 == id,
                    ModifyOutcome::Replaced(po) => match po {
                        PlaceOutcome::Filled => r.0 == Ok::<Option<OrderRef>, BookError>(None),
                        PlaceOutcome::Rested => r.0 matches Ok(Some(h)) && h < final(self).num_slots()
                            && final(self).rec(h).id.0 == id,
                        PlaceOutcome::Duplicate => false,
                        PlaceOutcome::Exhausted => false,
                    },
                }
            }),
    {
        proof {
            self.lemma_wf_ids();
        }
        let found: Option<OrderRef> = match self.order_index.get(&id) {
            Some(p) => Some(*p),
            None => None,
        };
        let cur_ptr = match found {
            None => {
                return (Err(BookError::NotFound), Vec::new());
            },
            Some(p) => p,
        };
        proof {
            self.lemma_locate_active(id, cur_ptr);
        }
        let cur = self.slab[cur_ptr];
        let side = cur.side;
        if cur.price.0 == new_price && new_qty <= cur.qty.0 {
            if new_qty == 0 {
                let cancel_result = self.cancel_order(id);
                proof {
                    assert(cancel_result == Ok::<OrderId, BookError>(OrderId(id)));
                }
                return (Ok(None), Vec::new());
            }
            let ghost o = *self;
            let ghost pos = position_of_id(side_seq(o@, side), id);
            let mut c2 = self.slab[cur_ptr];
            c2.qty = Quantity(new_qty);
            self.slab[cur_ptr] = c2;
            proof {
                self.lemma_qty_update(o, cur_ptr, side, pos);
                assert(self@ =~= with_side(
                    o@,
                    side,
                    side_seq(o@, side).update(
                        pos,
                        (RestingOrder { qty: new_qty, ..side_seq(o@, side)[pos] }),
                    ),
                ));
            }
            return (Ok(Some(cur_ptr)), Vec::new());
        }
        let cancel_result = self.cancel_order(id);
        let ghost ac = *self;
        proof {
            assert(cancel_result == Ok::<OrderId, BookError>(OrderId(id)));
        }
        proof {
            old(self).lemma_wf_ids();
            lemma_cancel_deactivates(old(self)@, id);
            assert(!view_active(ac@, id));
            assert(ac@.free_slots > 0);
        }
        let (res, trades) = self.place_limit_order(id, side, new_price, new_qty);
        proof {
            let pe = spec_place(spec_cancel(old(self)@, id), id, side, new_price, new_qty);
            assert(pe == spec_place(ac@, id, side, new_price, new_qty));
            assert(!(pe.outcome matches PlaceOutcome::Duplicate));
            assert(!(pe.outcome matches PlaceOutcome::Exhausted));
        }
        (res, trades)
    }

    /// Places a limit order. An already-active identifier is rejected
    /// before any side effect. Otherwise the order matches as taker
    /// against the opposite side first; whatever remains rests at its
    /// price-time position in its own chain — in a recycled slot when
    /// one exists, else in a fresh arena slot — and is indexed under
    /// its identifier. With no slot left the placement fails, but the
    /// trades already executed are still returned.
    #[verifier::rlimit(100)]
    pub fn place_limit_order(&mut self, id: u64, side: Side, price: u64, qty: u64) -> (r: (
        Result<Option<OrderRef>, BookError>,
        Vec<Trade>,
    ))
        requires
            old(self).wf(),
        ensures
            final(self).wf(),
            final(self).spec_symbol() == old(self).spec_symbol(),
            ({
                let e = spec_place(old(self)@, id, side, price, qty);
                &&& final(self)@ == e.book
                &&& r.1@ == e.trades
                &&& match e.outcome {
                    PlaceOutcome::Duplicate => r.0 == Err::<Option<OrderRef>, BookError>(
                        BookError::DuplicateId,
                    ) && *final(self) == *old(self),
                    PlaceOutcome::Filled => r.0 == Ok::<Option<OrderRef>, BookError>(None),
                    PlaceOutcome::Rested => r.0 matches Ok(Some(h)) && h < final(self).num_slots()
                        && final(self).rec(h).id.0 == id,
                    PlaceOutcome::Exhausted => r.0 == Err::<Option<OrderRef>, BookError>(
                        BookError::ExhaustedCapacity,
                    ),
                }
            }),
    {
        let ghost e = spec_place(old(self)@, id, side, price, qty);
        proof {
            self.lemma_wf_ids();
        }
        if self.order_index.contains_key(&id) {
            proof {
                assert(view_active(old(self)@, id));
            }
            return (Err(BookError::DuplicateId), Vec::new());
        }
        proof {
            assert(!view_active(old(self)@, id));
        }
        let ghost opp = side.spec_opposite();
        let ghost msp = spec_match(old(self).side_view(opp), id, side, price, qty);
        let (rem, trades) = self.match_incoming(OrderId(id), side, Price(price), Quantity(qty));
        let ghost mstate = *self;
        proof {
            assert(side_seq(old(self)@, opp) == old(self).side_view(opp));
            assert(mstate@ =~= (BookView {
                free_slots: old(self)@.free_slots + msp.filled.len(),
                ..with_side(old(self)@, opp, msp.makers)
            }));
        }
        if rem.0 == 0 {
            return (Ok(None), trades);
        }
        let order_rec = Order::new(OrderId(id), side, Price(price), rem);
        let new_ptr: usize;
        if let Some(p) = self.free_list.pop() {
            proof {
                mstate.lemma_occ_distinct();
                let f = mstate.free_list@;
                assert(mstate.occupancy()[mstate.bid_chain@.len() + mstate.ask_chain@.len() + (
                f.len() - 1)] == f[f.len() - 1]);
                assert(p < self.slab@.len());
            }
            new_ptr = p;
            self.slab[p] = order_rec;
            proof {
                Self::lemma_prepare_recycled(mstate, *self, p, order_rec);
            }
        } else {
            if self.slab.len() == self.capacity {
                proof {
                    assert(mstate.free_list@.len() == 0);
                    assert(mstate@.used_slots == mstate@.capacity);
                    assert(self@ =~= e.book);
                }
                return (Err(BookError::ExhaustedCapacity), trades);
            }
            new_ptr = self.slab.len();
            self.slab.push(order_rec);
            proof {
                Self::lemma_prepare_fresh(mstate, *self, new_ptr, order_rec);
            }
        }
        let ghost p1 = *self;
        self.insert_sorted(new_ptr, side, Price(price));
        let ghost p2 = *self;
        self.order_index.insert(id, new_ptr);
        proof {
            assert(!mstate.order_index@.contains_key(id)) by {
                mstate.lemma_wf_ids();
                if mstate.order_index@.contains_key(id) {
                    assert(view_active(mstate@, id));
                    assert(view_active(old(self)@, id));
                }
            }
            self.lemma_place_finish(mstate, p1, p2, new_ptr, id, side, price, rem.0);
            assert(self@ =~= e.book);
        }
        (Ok(Some(new_ptr)), trades)
    }

    /// After the remainder's record was prepared in its slot, linked
    /// into its side and indexed, the book is well formed and its
    /// abstract state is the sorted insert of the remainder.
    #[verifier::rlimit(100)]
    proof fn lemma_place_finish(
        self,
        mstate: OrderBook,
        p1: OrderBook,
        p2: OrderBook,
        new_ptr: OrderRef,
        id: u64,
        side: Side,
        price: u64,
        rem: u64,
    )
        requires
            mstate.wf(),
            !mstate.order_index@.contains_key(id),
            p1.chain_ok(Side::Buy),
            p1.chain_ok(Side::Sell),
            p1.slots_pending(new_ptr),
            p1.bid_chain@ == mstate.bid_chain@,
            p1.ask_chain@ == mstate.ask_chain@,
            p1.side_view(Side::Buy) == mstate.side_view(Side::Buy),
            p1.side_view(Side::Sell) == mstate.side_view(Side::Sell),
            p1.rec(new_ptr) == (Order {
                id: OrderId(id),
                side,
                price: Price(price),
                qty: Quantity(rem),
                next: None,
                prev: None,
            }),
            rem > 0,
            p1.order_index@ == mstate.order_index@,
            p1.capacity == mstate.capacity,
            mstate.slab@.len() <= p1.slab@.len(),
            forall|s: int|
                0 <= s < mstate.slab@.len() && s != new_ptr ==> (#[trigger] p1.slab@[s])
                    == mstate.slab@[s],
            ({
                let sv = p1.side_view(side);
                let pos = insert_position(sv, side, price);
                let opp = side.spec_opposite();
                &&& p2.chain(side) == p1.chain(side).insert(pos, new_ptr)
                &&& p2.chain(opp) == p1.chain(opp)
                &&& p2.side_view(side) == spec_insert(sv, side, p1.order_view(new_ptr))
                &&& p2.side_view(opp) == p1.side_view(opp)
                &&& p2.chain_ok(Side::Buy)
                &&& p2.chain_ok(Side::Sell)
                &&& p2.slots_ok()
                &&& p2.same_records(p1)
                &&& p2.free_list@ == p1.free_list@
                &&& p2.order_index@ == p1.order_index@
                &&& p2.capacity == p1.capacity
                &&& p2.slab@.len() == p1.slab@.len()
            }),
            self.slab@ == p2.slab@,
            self.bid_chain@ == p2.bid_chain@,
            self.ask_chain@ == p2.ask_chain@,
            self.free_list@ == p2.free_list@,
            self.best_bid == p2.best_bid,
            self.best_ask == p2.best_ask,
            self.capacity == p2.capacity,
            self.order_index@ == p2.order_index@.insert(id, new_ptr),
            self.slab@.len() <= self.capacity,
        ensures
            self.wf(),
            self.side_view(side) == spec_insert(
                mstate.side_view(side),
                side,
                (RestingOrder { id, price, qty: rem }),
            ),
            self.side_view(side.spec_opposite()) == mstate.side_view(side.spec_opposite()),
            new_ptr < self.slab@.len(),
            self.rec(new_ptr).id.0 == id,
            self.free_list@.len() == p1.free_list@.len(),
            self.slab@.len() == p1.slab@.len(),
    {
        let pos = insert_position(mstate.side_view(side), side, price);
        lemma_insert_position_properties(mstate.side_view(side), side, price);
        assert(self.side_view(Side::Buy) =~= p2.side_view(Side::Buy));
        assert(self.side_view(Side::Sell) =~= p2.side_view(Side::Sell));
        assert(self.chain_ok(Side::Buy) && self.chain_ok(Side::Sell));
        assert(self.slots_ok());
        lemma_spec_insert_sorted(
            mstate.side_view(side),
            side,
            (RestingOrder { id, price, qty: rem }),
        );
        assert(p1.order_view(new_ptr) == (RestingOrder { id, price, qty: rem }));
        assert(self.side_view(side) == spec_insert(
            mstate.side_view(side),
            side,
            (RestingOrder { id, price, qty: rem }),
        ));
        assert(self.side_view(side.spec_opposite()) == mstate.side_view(side.spec_opposite()));
        assert(sorted_by_priority(Side::Buy, self.side_view(Side::Buy)) && sorted_by_priority(
            Side::Sell,
            self.side_view(Side::Sell),
        ));
        assert(!mstate.bid_chain@.contains(new_ptr) && !mstate.ask_chain@.contains(new_ptr)) by {
            if mstate.bid_chain@.contains(new_ptr) {
                let k = choose|k: int|
                    0 <= k < mstate.bid_chain@.len() && mstate.bid_chain@[k] == new_ptr;
                assert(p1.occupancy()[k] == mstate.occupancy()[k]);
                assert(mstate.occupancy()[k] == new_ptr);
                assert(p1.occupancy().contains(new_ptr));
            }
            if mstate.ask_chain@.contains(new_ptr) {
                let k = choose|k: int|
                    0 <= k < mstate.ask_chain@.len() && mstate.ask_chain@[k] == new_ptr;
                assert(p1.occupancy()[mstate.bid_chain@.len() + k] == mstate.occupancy()[
                    mstate.bid_chain@.len() + k
                ]);
                assert(mstate.occupancy()[mstate.bid_chain@.len() + k] == new_ptr);
                assert(p1.occupancy().contains(new_ptr));
            }
        }
        self.lemma_restore_after_place(mstate, new_ptr, id, side, pos);
    }

    /// Overwriting the recycler's top slot with a fresh record leaves
    /// both chains intact and exactly that slot pending.
    #[verifier::rlimit(100)]
    proof fn lemma_prepare_recycled(m: OrderBook, n: OrderBook, p: OrderRef, rec_val: Order)
        requires
            m.wf(),
            m.free_list@.len() > 0,
            p == m.free_list@.last(),
            p < m.slab@.len(),
            n.slab@ == m.slab@.update(p as int, rec_val),
            n.free_list@ == m.free_list@.drop_last(),
            n.bid_chain@ == m.bid_chain@,
            n.ask_chain@ == m.ask_chain@,
            n.best_bid == m.best_bid,
            n.best_ask == m.best_ask,
            n.order_index@ == m.order_index@,
            n.capacity == m.capacity,
        ensures
            n.slots_pending(p),
            n.chain_ok(Side::Buy),
            n.chain_ok(Side::Sell),
            n.side_view(Side::Buy) == m.side_view(Side::Buy),
            n.side_view(Side::Sell) == m.side_view(Side::Sell),
            n.rec(p) == rec_val,
            n.slab@.len() == m.slab@.len(),
    {
        m.lemma_occ_distinct();
        assert(n.occupancy() =~= m.occupancy().drop_last());
        assert(m.occupancy().last() == p);
        assert forall|x: int, y: int|
            0 <= x < n.occupancy().len() && 0 <= y < n.occupancy().len() && x
                != y implies n.occupancy()[x] != n.occupancy()[y] by {
            assert(n.occupancy()[x] == m.occupancy()[x]);
            assert(n.occupancy()[y] == m.occupancy()[y]);
        }
        assert forall|k: int|
            0 <= k < n.occupancy().len() implies (#[trigger] n.occupancy()[k]) != p && n.occupancy()[
            k] < n.slab@.len() by {
            assert(n.occupancy()[k] == m.occupancy()[k]);
            assert(m.occupancy()[k] != m.occupancy()[m.occupancy().len() - 1]);
        }
        assert(n.slots_pending(p));
        m.lemma_chain_facts(Side::Buy);
        assert forall|k: int|
            0 <= k < m.bid_chain@.len() implies n.rec(#[trigger] m.bid_chain@[k]) == m.rec(
            m.bid_chain@[k],
        ) by {
            assert(m.bid_chain@[k] != m.free_list@[m.free_list@.len() - 1]);
        }
        assert forall|k: int|
            0 <= k < m.ask_chain@.len() implies n.rec(#[trigger] m.ask_chain@[k]) == m.rec(
            m.ask_chain@[k],
        ) by {
            assert(m.ask_chain@[k] != m.free_list@[m.free_list@.len() - 1]);
        }
        assert(n.chain_ok(Side::Buy));
        assert(n.chain_ok(Side::Sell));
        assert(n.side_view(Side::Buy) =~= m.side_view(Side::Buy));
        assert(n.side_view(Side::Sell) =~= m.side_view(Side::Sell));
    }

    /// Appending a fresh record to the slab leaves both chains intact
    /// and exactly the new slot pending.
    #[verifier::rlimit(100)]
    proof fn lemma_prepare_fresh(m: OrderBook, n: OrderBook, p: OrderRef, rec_val: Order)
        requires
            m.wf(),
            p == m.slab@.len(),
            n.slab@ == m.slab@.push(rec_val),
            n.free_list@ == m.free_list@,
            n.bid_chain@ == m.bid_chain@,
            n.ask_chain@ == m.ask_chain@,
            n.best_bid == m.best_bid,
            n.best_ask == m.best_ask,
            n.order_index@ == m.order_index@,
            n.capacity == m.capacity,
        ensures
            n.slots_pending(p),
            n.chain_ok(Side::Buy),
            n.chain_ok(Side::Sell),
            n.side_view(Side::Buy) == m.side_view(Side::Buy),
            n.side_view(Side::Sell) == m.side_view(Side::Sell),
            n.rec(p) == rec_val,
            n.slab@.len() == m.slab@.len() + 1,
    {
        m.lemma_occ_distinct();
        assert(n.occupancy() =~= m.occupancy());
        assert forall|k: int|
            0 <= k < n.occupancy().len() implies (#[trigger] n.occupancy()[k]) != p && n.occupancy()[
            k] < n.slab@.len() by {
            assert(n.occupancy()[k] == m.occupancy()[k]);
            assert(m.occupancy()[k] < m.slab@.len());
        }
        assert(n.slots_pending(p));
        assert forall|k: int|
            0 <= k < m.bid_chain@.len() implies n.rec(#[trigger] m.bid_chain@[k]) == m.rec(
            m.bid_chain@[k],
        ) by {
            assert(m.bid_chain@[k] < m.slab@.len());
        }
        assert forall|k: int|
            0 <= k < m.ask_chain@.len() implies n.rec(#[trigger] m.ask_chain@[k]) == m.rec(
            m.ask_chain@[k],
        ) by {
            assert(m.ask_chain@[k] < m.slab@.len());
        }
        assert(n.chain_ok(Side::Buy));
        assert(n.chain_ok(Side::Sell));
        assert(n.side_view(Side::Buy) =~= m.side_view(Side::Buy));
        assert(n.side_view(Side::Sell) =~= m.side_view(Side::Sell));
    }

    /// Cancels the order with the given identifier: O(1) unlink from
    /// its chain, removal from the identifier index, and its slot is
    /// pushed onto the recycler. The slot's bytes stay with the arena,
    /// ready for the next placement.
    pub fn cancel_order(&mut self, id: u64) -> (r: Result<OrderId, BookError>)
        requires
            old(self).wf(),
        ensures
            final(self).wf(),
            final(self).spec_symbol() == old(self).spec_symbol(),
            final(self)@ == spec_cancel(old(self)@, id),
            r == (if view_active(old(self)@, id) {
                Ok::<OrderId, BookError>(OrderId(id))
            } else {
                Err::<OrderId, BookError>(BookError::NotFound)
            }),
    {
        proof {
            self.lemma_wf_ids();
            self.lemma_occ_distinct();
        }
        let found = self.order_index.remove(&id);
        match found {
            None => {
                proof {
                    assert(old(self).order_index@.remove(id) =~= old(self).order_index@);
                    assert(self.side_view(Side::Buy) =~= old(self).side_view(Side::Buy));
                    assert(self.side_view(Side::Sell) =~= old(self).side_view(Side::Sell));
                    assert(self@ =~= old(self)@);
                }
                Err(BookError::NotFound)
            },
            Some(ptr) => {
                proof {
                    assert(old(self).order_index@.contains_key(id));
                    assert(old(self).rec(ptr).id.0 == id);
                    let side = old(self).rec(ptr).side;
                    if old(self).bid_chain@.contains(ptr) {
                        let k = choose|k: int|
                            0 <= k < old(self).bid_chain@.len() && old(self).bid_chain@[k] == ptr;
                        assert(old(self).rec(old(self).bid_chain@[k]).side == Side::Buy);
                    } else {
                        let k = choose|k: int|
                            0 <= k < old(self).ask_chain@.len() && old(self).ask_chain@[k] == ptr;
                        assert(old(self).rec(old(self).ask_chain@[k]).side == Side::Sell);
                    }
                    assert(old(self).chain(side).contains(ptr));
                }
                let ghost mid0 = *self;
                proof {
                    assert(mid0.side_view(Side::Buy) =~= old(self).side_view(Side::Buy));
                    assert(mid0.side_view(Side::Sell) =~= old(self).side_view(Side::Sell));
                }
                self.remove_order(ptr);
                let ghost mid1 = *self;
                self.free_list.push(ptr);
                proof {
                    let o = *old(self);
                    let side = o.rec(ptr).side;
                    let opp = side.spec_opposite();
                    let pos = o.chain(side).index_of(ptr);
                    assert(mid0.chain(side).index_of(ptr) == pos);
                    assert(self.side_view(side) =~= mid1.side_view(side));
                    assert(self.side_view(opp) =~= mid1.side_view(opp));
                    assert(self.side_view(side) == o.side_view(side).remove(pos));
                    assert(self.side_view(opp) == o.side_view(opp));
                    assert(self.chain_ok(Side::Buy) && self.chain_ok(Side::Sell));
                    assert(self.same_records(o));
                    self.lemma_restore_after_cancel(o, ptr, id);
                }
                Ok(OrderId(id))
            },
        }
    }

    /// Sorted invariant: in any well-formed book the bid chain is
    /// non-increasing in price head to tail and the ask chain is
    /// non-decreasing; every operation of this book returns it well
    /// formed, so this holds after any sequence of operations.
    pub proof fn lemma_sorted_invariant(self)
        requires
            self.wf(),
        ensures
            sorted_by_priority(Side::Buy, self@.bids),
            sorted_by_priority(Side::Sell, self@.asks),
            unique_ids(self@.bids),
            unique_ids(self@.asks),
            forall|x: u64| !(contains_id(self@.bids, x) && #[trigger] contains_id(self@.asks, x)),
    {
        self.lemma_wf_ids();
    }

    /// How many reclaimed slots are waiting to be reused.
    pub fn free_slots(&self) -> (r: usize)
        requires
            self.wf(),
        ensures
            r == self@.free_slots,
    {
        self.free_list.len()
    }
}

/// Full-fill removal: any maker whose resting quantity reaches zero
/// while a placement matches is absent from the book — neither side's
/// chain holds its identifier once the placement returns, and with it
/// the identifier index, which in a well-formed book lists exactly
/// the resting orders.
pub proof fn lemma_place_removes_filled(b: BookView, id: u64, side: Side, price: u64, qty: u64)
    requires
        unique_ids(b.bids),
        unique_ids(b.asks),
        forall|x: u64| !(contains_id(b.bids, x) && #[trigger] contains_id(b.asks, x)),
        !view_active(b, id),
    ensures
        ({
            let e = spec_place(b, id, side, price, qty);
            let m = spec_match(side_seq(b, side.spec_opposite()), id, side, price, qty);
            forall|x: u64| m.filled.contains(x) ==> !view_active(e.book, x)
        }),
{
    let opp = side.spec_opposite();
    let mks = side_seq(b, opp);
    let own0 = side_seq(b, side);
    let m = spec_match(mks, id, side, price, qty);
    let e = spec_place(b, id, side, price, qty);
    let r = RestingOrder { id, price, qty: m.remaining };
    crate::engine::matcher::lemma_match_makers_shape(mks, id, side, price, qty);
    assert(unique_ids(mks)) by {
        match side {
            Side::Buy => {
            },
            Side::Sell => {
            },
        }
    }
    crate::engine::matcher::lemma_match_full_fill_removed(mks, id, side, price, qty);
    lemma_spec_insert_ids(own0, side, r);
    assert(side_seq(e.book, side) == own0 || side_seq(e.book, side) == spec_insert(own0, side, r));
    assert(side_seq(e.book, opp) == m.makers);
    assert forall|x: u64| m.filled.contains(x) implies !view_active(e.book, x) by {
        assert(contains_id(mks, x));
        assert(!contains_id(m.makers, x));
        assert(!contains_id(own0, x));
        assert(x != id);
        assert(!contains_id(side_seq(e.book, side), x));
        match side {
            Side::Buy => {
                assert(e.book.bids == side_seq(e.book, Side::Buy) && e.book.asks == side_seq(
                    e.book,
                    Side::Sell,
                ));
            },
            Side::Sell => {
                assert(e.book.asks == side_seq(e.book, Side::Sell) && e.book.bids == side_seq(
                    e.book,
                    Side::Buy,
                ));
            },
        }
    }
}

/// Recycling conserves memory: place an order so that it rests,
/// cancel it, and place it again with the same parameters — the
/// arena's used bytes after the second placement equal those after
/// the first, and the recycler is back to what it held after the
/// first placement. The cancelled slot, not fresh arena space,
/// carries the second order.
pub proof fn lemma_recycling_conserves_memory(
    b: BookView,
    id: u64,
    side: Side,
    price: u64,
    qty: u64,
)
    requires
        unique_ids(b.bids),
        unique_ids(b.asks),
        forall|x: u64| !(contains_id(b.bids, x) && #[trigger] contains_id(b.asks, x)),
        spec_place(b, id, side, price, qty).outcome == PlaceOutcome::Rested,
    ensures
        ({
            let e1 = spec_place(b, id, side, price, qty);
            let b2 = spec_cancel(e1.book, id);
            let e2 = spec_place(b2, id, side, price, qty);
            &&& e2.book.used_slots == e1.book.used_slots
            &&& e2.book.free_slots == e1.book.free_slots
            &&& e2.outcome == PlaceOutcome::Rested
        }),
{
    let e1 = spec_place(b, id, side, price, qty);
    let opp = side.spec_opposite();
    let mks = side_seq(b, opp);
    let own0 = side_seq(b, side);
    let m1 = spec_match(mks, id, side, price, qty);
    assert(!view_active(b, id));
    crate::engine::matcher::lemma_match_makers_shape(mks, id, side, price, qty);
    assert(m1.remaining > 0);
    let r = RestingOrder { id, price, qty: m1.remaining };
    lemma_spec_insert_ids(own0, side, r);
    assert(!contains_id(own0, id) && !contains_id(mks, id)) by {
        match side {
            Side::Buy => {
            },
            Side::Sell => {
            },
        }
    }
    assert(unique_ids(mks) && unique_ids(own0)) by {
        match side {
            Side::Buy => {
            },
            Side::Sell => {
            },
        }
    }
    let own1 = spec_insert(own0, side, r);
    assert(side_seq(e1.book, side) == own1 && side_seq(e1.book, opp) == m1.makers);
    // Cancelling the rested order frees exactly its slot.
    let b2 = spec_cancel(e1.book, id);
    assert(contains_id(own1, id));
    assert(!contains_id(m1.makers, id)) by {
        if contains_id(m1.makers, id) {
            assert(contains_id(mks, id));
        }
    }
    assert(unique_ids(own1) && unique_ids(m1.makers));
    match side {
        Side::Buy => {
            assert(e1.book.bids == own1 && e1.book.asks == m1.makers);
            assert(contains_id(e1.book.bids, id));
            assert(b2.free_slots == e1.book.free_slots + 1);
            assert(b2.used_slots == e1.book.used_slots);
            assert(side_seq(b2, opp) == m1.makers);
        },
        Side::Sell => {
            assert(e1.book.asks == own1 && e1.book.bids == m1.makers);
            assert(!contains_id(e1.book.bids, id));
            assert(contains_id(e1.book.asks, id));
            assert(b2.free_slots == e1.book.free_slots + 1);
            assert(b2.used_slots == e1.book.used_slots);
            assert(side_seq(b2, opp) == m1.makers);
        },
    }
    assert(!(contains_id(e1.book.bids, id) && contains_id(e1.book.asks, id)));
    lemma_cancel_deactivates(e1.book, id);
    assert(!view_active(b2, id));
    // The second placement cannot match: the first stopped against
    // this very chain head, at the same limit price.
    let m2 = spec_match(side_seq(b2, opp), id, side, price, qty);
    assert(qty > 0);
    assert(m2.makers == m1.makers && m2.trades =~= Seq::<Trade>::empty() && m2.remaining == qty
        && m2.filled =~= Seq::<u64>::empty());
    // So it takes the recycled slot, never fresh arena space.
    let e2 = spec_place(b2, id, side, price, qty);
    assert(b2.free_slots + m2.filled.len() > 0);
    assert(e2.outcome == PlaceOutcome::Rested);
    assert(e2.book.used_slots == e1.book.used_slots);
    assert(e2.book.free_slots == e1.book.free_slots);
}

} // verus!
