//! The single-instrument, single-publisher order book: an order-id index
//! and two price-sorted sides. Every operation's contract pins the new
//! state to the `spec_apply` transition of `book_model`.

use vstd::prelude::*;
use std::collections::BTreeMap;
use crate::msg::{MboMsg, PriceLevel, BidAskPair, ACTION_NONE, SIDE_ASK};
use crate::level::{LevelOrders, LevelV, level_of};
use crate::book_model::{
    BookV, side_wf, book_wf, has_level, level_index, insert_pos, remove_id, dec_order, side_add,
    side_remove_order, side_dec_order, side_of, with_side, spec_add, spec_cancel, spec_modify,
    spec_apply, spec_bid_level, spec_ask_level, spec_snapshot_row, lemma_level_index_unique,
    lemma_insert_pos_unique, lemma_insert_pos_props, lemma_side_remove_wf, lemma_apply_wf,
};

verus! {

/// The sequence of level values a side vector stands for.
pub open spec fn side_view(v: Seq<LevelOrders>) -> Seq<LevelV> {
    v.map_values(|l: LevelOrders| l@)
}

/// A limit order book. `bids` and `offers` are kept sorted ascending by
/// price with no empty level; the best bid is the last bid level, the
/// best ask the first ask level.
#[derive(Debug, PartialEq)]
pub struct Book {
    pub orders_by_id: BTreeMap<u64, MboMsg>,
    pub offers: Vec<LevelOrders>,
    pub bids: Vec<LevelOrders>,
}

impl View for Book {
    type V = BookV;

    open spec fn view(&self) -> BookV {
        BookV {
            orders: self.orders_by_id@,
            bids: side_view(self.bids@),
            offers: side_view(self.offers@),
        }
    }
}

/// First position whose level is not strictly cheaper than `price`.
fn find_pos(levels: &Vec<LevelOrders>, price: i64) -> (r: usize)
    requires
        side_wf(side_view(levels@)),
    ensures
        0 <= r <= levels@.len(),
        forall|j: int| 0 <= j < r ==> side_view(levels@)[j].price < price,
        forall|j: int| r <= j < levels@.len() ==> price <= #[trigger] side_view(levels@)[j].price,
{
    let ghost s = side_view(levels@);
    let mut i: usize = 0;
    while i < levels.len() && levels[i].price < price
        invariant
            0 <= i <= levels@.len(),
            s == side_view(levels@),
            forall|j: int| 0 <= j < i ==> s[j].price < price,
        decreases levels@.len() - i,
    {
        i = i + 1;
    }
    proof {
        if i < levels@.len() {
            assert(s[i as int].price == levels@[i as int]@.price);
            assert(forall|j: int| i <= j < s.len() ==> s[i as int].price <= #[trigger] s[j].price);
        }
    }
    i
}

/// Append `ev` to the level at its price, creating the level if absent;
/// the executable form of `side_add`.
fn level_append(levels: &mut Vec<LevelOrders>, ev: MboMsg)
    requires
        side_wf(side_view(old(levels)@)),
    ensures
        side_view(final(levels)@) == side_add(side_view(old(levels)@), ev),
{
    let ghost s = side_view(levels@);
    let pos = find_pos(levels, ev.price);
    if pos < levels.len() && levels[pos].price == ev.price {
        let mut lv = levels.remove(pos);
        lv.orders.push(ev);
        levels.insert(pos, lv);
        proof {
            lemma_level_index_unique(s, ev.price, pos as int);
            assert(side_view(levels@) =~~= side_add(s, ev));
        }
    } else {
        let mut lv = LevelOrders::new(ev.price);
        lv.orders.push(ev);
        levels.insert(pos, lv);
        proof {
            assert forall|j: int| pos <= j < s.len() implies ev.price < #[trigger] s[j].price by {
                if j == pos {
                    assert(s[j].price != ev.price);
                } else {
                    assert(s[pos as int].price < s[j].price);
                    assert(ev.price <= s[pos as int].price);
                }
            }
            lemma_insert_pos_unique(s, ev.price, pos as int);
            assert(lv@.orders =~= seq![ev]);
            assert(side_view(levels@) =~~= side_add(s, ev));
        }
    }
}

/// Drop every entry carrying `oid` from the level at `price`, removing
/// the level if that empties it; the executable form of
/// `side_remove_order`.
fn level_remove_order(levels: &mut Vec<LevelOrders>, price: i64, oid: u64)
    requires
        side_wf(side_view(old(levels)@)),
    ensures
        side_view(final(levels)@) == side_remove_order(side_view(old(levels)@), price, oid),
{
    let ghost s = side_view(levels@);
    let pos = find_pos(levels, price);
    if pos < levels.len() && levels[pos].price == price {
        proof {
            lemma_level_index_unique(s, price, pos as int);
        }
        let mut lv = levels.remove(pos);
        let mut out: Vec<MboMsg> = Vec::new();
        let mut j: usize = 0;
        while j < lv.orders.len()
            invariant
                0 <= j <= lv.orders@.len(),
                out@ == remove_id(lv.orders@.take(j as int), oid),
            decreases lv.orders@.len() - j,
        {
            proof {
                assert(lv.orders@.take(j + 1).drop_last() =~= lv.orders@.take(j as int));
                assert(lv.orders@.take(j + 1).last() == lv.orders@[j as int]);
            }
            if lv.orders[j].order_id != oid {
                out.push(lv.orders[j]);
            }
            j = j + 1;
        }
        proof {
            assert(lv.orders@.take(lv.orders@.len() as int) =~= lv.orders@);
        }
        if out.len() == 0 {
            proof {
                assert(side_view(levels@) =~~= side_remove_order(s, price, oid));
            }
        } else {
            lv.orders = out;
            levels.insert(pos, lv);
            proof {
                assert(side_view(levels@) =~~= side_remove_order(s, price, oid));
            }
        }
    } else {
        proof {
            assert forall|i: int| 0 <= i < s.len() implies s[i].price != price by {
                if i < pos {
                    assert(s[i].price < price);
                } else if i == pos {
                    assert(s[i].price != price);
                } else {
                    assert(price <= s[pos as int].price);
                    assert(s[pos as int].price < s[i].price);
                }
            }
            assert(!has_level(s, price));
        }
    }
}

/// Decrement by `by` the entries carrying `oid` in the level at `price`;
/// the executable form of `side_dec_order`.
fn level_dec_order(levels: &mut Vec<LevelOrders>, price: i64, oid: u64, by: u32)
    requires
        side_wf(side_view(old(levels)@)),
    ensures
        side_view(final(levels)@) == side_dec_order(side_view(old(levels)@), price, oid, by),
{
    let ghost s = side_view(levels@);
    let pos = find_pos(levels, price);
    if pos < levels.len() && levels[pos].price == price {
        proof {
            lemma_level_index_unique(s, price, pos as int);
        }
        let mut lv = levels.remove(pos);
        let mut out: Vec<MboMsg> = Vec::new();
        let mut j: usize = 0;
        while j < lv.orders.len()
            invariant
                0 <= j <= lv.orders@.len(),
                out@ =~= lv.orders@.take(j as int).map_values(
                    |o: MboMsg| dec_order(o, oid, by),
                ),
            decreases lv.orders@.len() - j,
        {
            let mut o = lv.orders[j];
            if o.order_id == oid && o.size >= by {
                o.size = o.size - by;
            }
            out.push(o);
            j = j + 1;
        }
        proof {
            assert(lv.orders@.take(lv.orders@.len() as int) =~= lv.orders@);
        }
        lv.orders = out;
        levels.insert(pos, lv);
        proof {
            assert(side_view(levels@) =~~= side_dec_order(s, price, oid, by));
        }
    } else {
        proof {
            assert forall|i: int| 0 <= i < s.len() implies s[i].price != price by {
                if i < pos {
                    assert(s[i].price < price);
                } else if i == pos {
                    assert(s[i].price != price);
                } else {
                    assert(price <= s[pos as int].price);
                    assert(s[pos as int].price < s[i].price);
                }
            }
            assert(!has_level(s, price));
        }
    }
}

impl Book {
    pub open spec fn wf(&self) -> bool {
        book_wf(self@)
    }

    /// An empty book.
    pub fn new() -> (r: Self)
        ensures
            r@ == BookV::empty(),
            r.wf(),
    {
        let r = Book { orders_by_id: BTreeMap::new(), offers: Vec::new(), bids: Vec::new() };
        proof {
            assert(r@ =~~= BookV::empty());
        }
        r
    }

    fn clear(&mut self)
        ensures
            final(self)@ == BookV::empty(),
    {
        self.orders_by_id.clear();
        self.offers = Vec::new();
        self.bids = Vec::new();
        proof {
            assert(self@ =~~= BookV::empty());
        }
    }

    fn add(&mut self, mbo: &MboMsg)
        requires
            old(self).wf(),
        ensures
            final(self)@ == spec_add(old(self)@, *mbo),
    {
        if mbo.is_tob() {
            let mut lv = LevelOrders::new(mbo.price);
            lv.orders.push(*mbo);
            let mut side: Vec<LevelOrders> = Vec::new();
            side.push(lv);
            proof {
                assert(side_view(side@) =~~= seq![LevelV { price: mbo.price, orders: seq![*mbo] }]);
            }
            if mbo.is_ask() {
                self.offers = side;
            } else {
                self.bids = side;
            }
            proof {
                assert(self@ =~~= spec_add(old(self)@, *mbo));
            }
        } else {
            self.orders_by_id.insert(mbo.order_id, *mbo);
            if mbo.is_ask() {
                level_append(&mut self.offers, *mbo);
            } else {
                level_append(&mut self.bids, *mbo);
            }
            proof {
                assert(self@ =~~= spec_add(old(self)@, *mbo));
            }
        }
    }

    fn cancel(&mut self, mbo: &MboMsg)
        requires
            old(self).wf(),
        ensures
            final(self)@ == spec_cancel(old(self)@, *mbo),
    {
        let stored_opt: Option<MboMsg> = match self.orders_by_id.get(&mbo.order_id) {
            Some(o) => Some(*o),
            None => None,
        };
        match stored_opt {
            None => {},
            Some(stored) => {
                let newsize: u32 = if stored.size >= mbo.size {
                    stored.size - mbo.size
                } else {
                    stored.size
                };
                if newsize == 0 {
                    self.orders_by_id.remove(&mbo.order_id);
                    if stored.side == SIDE_ASK {
                        level_remove_order(&mut self.offers, stored.price, mbo.order_id);
                    } else {
                        level_remove_order(&mut self.bids, stored.price, mbo.order_id);
                    }
                } else {
                    let upd = MboMsg { size: newsize, ..stored };
                    self.orders_by_id.insert(mbo.order_id, upd);
                    if stored.side == SIDE_ASK {
                        level_dec_order(&mut self.offers, stored.price, mbo.order_id, mbo.size);
                    } else {
                        level_dec_order(&mut self.bids, stored.price, mbo.order_id, mbo.size);
                    }
                }
                proof {
                    assert(self@ =~~= spec_cancel(old(self)@, *mbo));
                }
            },
        }
    }

    fn modify(&mut self, mbo: &MboMsg)
        requires
            old(self).wf(),
        ensures
            final(self)@ == spec_modify(old(self)@, *mbo),
    {
        let stored_opt: Option<MboMsg> = match self.orders_by_id.get(&mbo.order_id) {
            Some(o) => Some(*o),
            None => None,
        };
        match stored_opt {
            Some(order) => {
                if order.side == SIDE_ASK {
                    level_remove_order(&mut self.offers, order.price, mbo.order_id);
                } else {
                    level_remove_order(&mut self.bids, order.price, mbo.order_id);
                }
                proof {
                    lemma_side_remove_wf(side_of(old(self)@, order.side), order.price, mbo.order_id);
                }
                if mbo.is_ask() {
                    level_append(&mut self.offers, *mbo);
                } else {
                    level_append(&mut self.bids, *mbo);
                }
                self.orders_by_id.insert(mbo.order_id, *mbo);
                proof {
                    assert(self@ =~~= spec_modify(old(self)@, *mbo));
                }
            },
            None => {
                self.add(mbo);
            },
        }
    }

    /// Drive one event through the book; the state moves exactly as
    /// `spec_apply` says, and both sides stay well formed.
    pub fn apply(&mut self, mbo: &MboMsg)
        requires
            old(self).wf(),
        ensures
            final(self)@ == spec_apply(old(self)@, *mbo),
            final(self).wf(),
    {
        proof {
            lemma_apply_wf(old(self)@, *mbo);
        }
        // Trade, Fill, None: no change.
        if mbo.is_trade() || mbo.is_fill() || mbo.action == ACTION_NONE {
            return;
        }
        // Clear book.
        if mbo.is_clear() {
            self.clear();
            return;
        }
        // Side must be A or B.
        if !mbo.is_ask() && !mbo.is_bid() {
            return;
        }
        // Undefined price with the top-of-book flag: clear that side.
        if mbo.is_undef_price() && mbo.is_tob() {
            if mbo.is_ask() {
                self.offers = Vec::new();
            } else {
                self.bids = Vec::new();
            }
            proof {
                assert(side_view(Seq::<LevelOrders>::empty()) =~~= Seq::<LevelV>::empty());
                assert(self@ =~~= with_side(old(self)@, mbo.side, Seq::empty()));
            }
            return;
        }
        if mbo.is_add() {
            self.add(mbo);
        } else if mbo.is_cancel() {
            self.cancel(mbo);
        } else if mbo.is_modify() {
            self.modify(mbo);
        }
    }

    /// Best bid and best ask, as level summaries.
    pub fn bbo(&self) -> (r: (Option<PriceLevel>, Option<PriceLevel>))
        ensures
            r.0 == spec_bid_level(self@, 0),
            r.1 == spec_ask_level(self@, 0),
    {
        (self.get_bid_level(0), self.get_ask_level(0))
    }

    /// The idx-th bid level from the top of book (0 = best bid).
    pub fn get_bid_level(&self, idx: usize) -> (r: Option<PriceLevel>)
        ensures
            r == spec_bid_level(self@, idx as int),
    {
        if idx < self.bids.len() {
            let k = self.bids.len() - 1 - idx;
            let l = self.bids[k].level();
            proof {
                assert(self@.bids[k as int] == self.bids@[k as int]@);
            }
            Some(l)
        } else {
            None
        }
    }

    /// The idx-th ask level from the top of book (0 = best ask).
    pub fn get_ask_level(&self, idx: usize) -> (r: Option<PriceLevel>)
        ensures
            r == spec_ask_level(self@, idx as int),
    {
        if idx < self.offers.len() {
            let l = self.offers[idx].level();
            proof {
                assert(self@.offers[idx as int] == self.offers@[idx as int]@);
            }
            Some(l)
        } else {
            None
        }
    }

    /// Look an order up by id.
    pub fn get_order(&self, id: u64) -> (r: Option<&MboMsg>)
        ensures
            match r {
                Some(o) => self@.orders.contains_key(id) && *o == self@.orders[id],
                None => !self@.orders.contains_key(id),
            },
    {
        self.orders_by_id.get(&id)
    }

    /// `level_count` rows of the two sides laid side by side, a zeroed
    /// half wherever a side is shallower.
    pub fn get_snapshot(&self, level_count: usize) -> (r: Vec<BidAskPair>)
        ensures
            r@.len() == level_count,
            forall|i: int| 0 <= i < level_count ==> r@[i] == spec_snapshot_row(self@, i),
    {
        let mut rows: Vec<BidAskPair> = Vec::new();
        let mut i: usize = 0;
        while i < level_count
            invariant
                0 <= i <= level_count,
                rows@.len() == i,
                forall|k: int| 0 <= k < i ==> rows@[k] == spec_snapshot_row(self@, k),
            decreases level_count - i,
        {
            let mut pair = BidAskPair::new();
            if let Some(bid) = self.get_bid_level(i) {
                pair.bid_px = bid.price;
                pair.bid_sz = bid.size;
                pair.bid_ct = bid.count;
            }
            if let Some(ask) = self.get_ask_level(i) {
                pair.ask_px = ask.price;
                pair.ask_sz = ask.size;
                pair.ask_ct = ask.count;
            }
            rows.push(pair);
            i = i + 1;
        }
        rows
    }

    /// The top `levels` levels of each side, best first.
    pub fn get_depth(&self, levels: usize) -> (r: (Vec<PriceLevel>, Vec<PriceLevel>))
        ensures
            r.0@.len() == if levels <= self@.bids.len() { levels as int } else { self@.bids.len() as int },
            r.1@.len() == if levels <= self@.offers.len() { levels as int } else { self@.offers.len() as int },
            forall|i: int| 0 <= i < r.0@.len() ==> Some(r.0@[i]) == spec_bid_level(self@, i),
            forall|i: int| 0 <= i < r.1@.len() ==> Some(r.1@[i]) == spec_ask_level(self@, i),
    {
        let mut bids_out: Vec<PriceLevel> = Vec::new();
        let mut i: usize = 0;
        while i < levels && i < self.bids.len()
            invariant
                0 <= i <= levels,
                i <= self@.bids.len(),
                i < levels ==> i == bids_out@.len(),
                bids_out@.len() == i,
                forall|k: int| 0 <= k < i ==> Some(bids_out@[k]) == spec_bid_level(self@, k),
            decreases levels - i,
        {
            if let Some(l) = self.get_bid_level(i) {
                bids_out.push(l);
            }
            i = i + 1;
        }
        let mut asks_out: Vec<PriceLevel> = Vec::new();
        let mut j: usize = 0;
        while j < levels && j < self.offers.len()
            invariant
                0 <= j <= levels,
                j <= self@.offers.len(),
                asks_out@.len() == j,
                forall|k: int| 0 <= k < j ==> Some(asks_out@[k]) == spec_ask_level(self@, k),
            decreases levels - j,
        {
            if let Some(l) = self.get_ask_level(j) {
                asks_out.push(l);
            }
            j = j + 1;
        }
        (bids_out, asks_out)
    }
}

} // verus!
