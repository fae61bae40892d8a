//! Mathematical model of a single-publisher order book and of the
//! transition each feed event performs on it. The executable `Book`
//! promises in its contracts to change state exactly as `spec_apply`
//! says; the invariant lemmas live in `book_laws`.

use vstd::prelude::*;
use crate::msg::{MboMsg, PriceLevel, BidAskPair, ACTION_NONE, SIDE_ASK};
use crate::level::{LevelV, level_of};

verus! {

/// Mathematical value of a book: the order-id index and the two sides,
/// each a price-ascending sequence of levels.
#[verifier::ext_equal]
pub ghost struct BookV {
    pub orders: Map<u64, MboMsg>,
    pub bids: Seq<LevelV>,
    pub offers: Seq<LevelV>,
}

impl BookV {
    pub open spec fn empty() -> BookV {
        BookV { orders: Map::empty(), bids: Seq::empty(), offers: Seq::empty() }
    }
}

/// Events carrying these actions never mutate the book.
pub open spec fn informational(ev: MboMsg) -> bool {
    ev.spec_is_trade() || ev.spec_is_fill() || ev.action == ACTION_NONE
}

/// The side a code selects: offers for the ask code, bids otherwise.
pub open spec fn side_of(b: BookV, side: u8) -> Seq<LevelV> {
    if side == SIDE_ASK {
        b.offers
    } else {
        b.bids
    }
}

/// Replace the side a code selects.
pub open spec fn with_side(b: BookV, side: u8, s: Seq<LevelV>) -> BookV {
    if side == SIDE_ASK {
        BookV { offers: s, ..b }
    } else {
        BookV { bids: s, ..b }
    }
}

/// Levels sorted strictly ascending by price, none of them empty.
pub open spec fn side_wf(s: Seq<LevelV>) -> bool {
    &&& forall|i: int, j: int| 0 <= i < j < s.len() ==> s[i].price < s[j].price
    &&& forall|i: int| 0 <= i < s.len() ==> s[i].orders.len() > 0
}

pub open spec fn book_wf(b: BookV) -> bool {
    side_wf(b.bids) && side_wf(b.offers)
}

pub open spec fn has_level(s: Seq<LevelV>, price: i64) -> bool {
    exists|i: int| 0 <= i < s.len() && s[i].price == price
}

/// The index of the level at `price`; meaningful when the side is sorted
/// and the level exists, and then unique.
pub open spec fn level_index(s: Seq<LevelV>, price: i64) -> int {
    choose|i: int| 0 <= i < s.len() && s[i].price == price
}

/// The position a new level at `price` takes in a sorted side: the
/// number of leading levels that are strictly cheaper.
pub open spec fn insert_pos(s: Seq<LevelV>, price: i64) -> int
    decreases s.len(),
{
    if s.len() == 0 {
        0
    } else if s[0].price < price {
        1 + insert_pos(s.drop_first(), price)
    } else {
        0
    }
}

/// All entries of a sequence of orders except those carrying `oid`.
pub open spec fn remove_id(s: Seq<MboMsg>, oid: u64) -> Seq<MboMsg>
    decreases s.len(),
{
    if s.len() == 0 {
        Seq::empty()
    } else {
        let rest = remove_id(s.drop_last(), oid);
        if s.last().order_id == oid {
            rest
        } else {
            rest.push(s.last())
        }
    }
}

/// One order after an underflow-safe decrement aimed at `oid`: entries
/// with another id, and entries whose size the decrement would overrun,
/// are unchanged.
pub open spec fn dec_order(o: MboMsg, oid: u64, by: u32) -> MboMsg {
    if o.order_id == oid && o.size >= by {
        MboMsg { size: (o.size - by) as u32, ..o }
    } else {
        o
    }
}

/// Append `ev` to the level at its price, creating the level at its
/// sorted position if absent.
pub open spec fn side_add(s: Seq<LevelV>, ev: MboMsg) -> Seq<LevelV> {
    if has_level(s, ev.price) {
        let i = level_index(s, ev.price);
        s.update(i, LevelV { price: ev.price, orders: s[i].orders.push(ev) })
    } else {
        s.insert(insert_pos(s, ev.price), LevelV { price: ev.price, orders: seq![ev] })
    }
}

/// Drop every entry carrying `oid` from the level at `price`, removing
/// the level itself if that empties it. A side without the level is
/// unchanged.
pub open spec fn side_remove_order(s: Seq<LevelV>, price: i64, oid: u64) -> Seq<LevelV> {
    if has_level(s, price) {
        let i = level_index(s, price);
        let rest = remove_id(s[i].orders, oid);
        if rest.len() == 0 {
            s.remove(i)
        } else {
            s.update(i, LevelV { price, orders: rest })
        }
    } else {
        s
    }
}

/// Decrement by `by` the entries carrying `oid` in the level at `price`.
pub open spec fn side_dec_order(s: Seq<LevelV>, price: i64, oid: u64, by: u32) -> Seq<LevelV> {
    if has_level(s, price) {
        let i = level_index(s, price);
        s.update(
            i,
            LevelV { price, orders: s[i].orders.map_values(|o: MboMsg| dec_order(o, oid, by)) },
        )
    } else {
        s
    }
}

/// ADD: a top-of-book overlay replaces the whole side with a single
/// level holding just the event and leaves the id index alone; an
/// ordinary add is indexed by id and appended to its level.
pub open spec fn spec_add(b: BookV, ev: MboMsg) -> BookV {
    if ev.spec_is_tob() {
        with_side(b, ev.side, seq![LevelV { price: ev.price, orders: seq![ev] }])
    } else {
        let b1 = with_side(b, ev.side, side_add(side_of(b, ev.side), ev));
        BookV { orders: b.orders.insert(ev.order_id, ev), ..b1 }
    }
}

/// CANCEL: an unknown id is dropped. Otherwise the stored size is
/// reduced by the cancelled size when it covers it (underflow-safe
/// no-op when not), in the id index and at the level alike; a size
/// reaching zero removes the order everywhere.
pub open spec fn spec_cancel(b: BookV, ev: MboMsg) -> BookV {
    if !b.orders.contains_key(ev.order_id) {
        b
    } else {
        let stored = b.orders[ev.order_id];
        let newsize: u32 = if stored.size >= ev.size {
            (stored.size - ev.size) as u32
        } else {
            stored.size
        };
        if newsize == 0 {
            let b1 = BookV { orders: b.orders.remove(ev.order_id), ..b };
            with_side(
                b1,
                stored.side,
                side_remove_order(side_of(b1, stored.side), stored.price, ev.order_id),
            )
        } else {
            let b1 = BookV {
                orders: b.orders.insert(ev.order_id, MboMsg { size: newsize, ..stored }),
                ..b
            };
            with_side(
                b1,
                stored.side,
                side_dec_order(side_of(b1, stored.side), stored.price, ev.order_id, ev.size),
            )
        }
    }
}

/// MODIFY: a known order leaves its old level, the incoming event is
/// appended at its (possibly new) price and overwrites the id index; an
/// unknown id is treated as ADD.
pub open spec fn spec_modify(b: BookV, ev: MboMsg) -> BookV {
    if b.orders.contains_key(ev.order_id) {
        let stored = b.orders[ev.order_id];
        let b1 = with_side(
            b,
            stored.side,
            side_remove_order(side_of(b, stored.side), stored.price, ev.order_id),
        );
        let b2 = with_side(b1, ev.side, side_add(side_of(b1, ev.side), ev));
        BookV { orders: b2.orders.insert(ev.order_id, ev), ..b2 }
    } else {
        spec_add(b, ev)
    }
}

/// The transition one event performs, with the guards in their order of
/// evaluation: informational actions and unknown sides do nothing, CLEAR
/// empties the book, an undefined-price top-of-book overlay empties its
/// side, and the rest dispatch on the action.
pub open spec fn spec_apply(b: BookV, ev: MboMsg) -> BookV {
    if informational(ev) {
        b
    } else if ev.spec_is_clear() {
        BookV::empty()
    } else if !ev.spec_is_ask() && !ev.spec_is_bid() {
        b
    } else if ev.spec_is_undef_price() && ev.spec_is_tob() {
        with_side(b, ev.side, Seq::empty())
    } else if ev.spec_is_add() {
        spec_add(b, ev)
    } else if ev.spec_is_cancel() {
        spec_cancel(b, ev)
    } else if ev.spec_is_modify() {
        spec_modify(b, ev)
    } else {
        b
    }
}

/// The i-th bid level from the top of book: bids are price-ascending, so
/// the best bid is the last.
pub open spec fn spec_bid_level(b: BookV, i: int) -> Option<PriceLevel> {
    if 0 <= i < b.bids.len() {
        Some(level_of(b.bids[b.bids.len() - 1 - i]))
    } else {
        None
    }
}

/// The i-th ask level from the top of book: offers are price-ascending,
/// so the best ask is the first.
pub open spec fn spec_ask_level(b: BookV, i: int) -> Option<PriceLevel> {
    if 0 <= i < b.offers.len() {
        Some(level_of(b.offers[i]))
    } else {
        None
    }
}

/// Row i of a snapshot: the i-th level of each side, a zeroed half where
/// the side is shallower.
pub open spec fn spec_snapshot_row(b: BookV, i: int) -> BidAskPair {
    let bp = spec_bid_level(b, i);
    let ap = spec_ask_level(b, i);
    BidAskPair {
        bid_px: match bp { Some(l) => l.price, None => 0i64 },
        bid_sz: match bp { Some(l) => l.size, None => 0u32 },
        bid_ct: match bp { Some(l) => l.count, None => 0u32 },
        ask_px: match ap { Some(l) => l.price, None => 0i64 },
        ask_sz: match ap { Some(l) => l.size, None => 0u32 },
        ask_ct: match ap { Some(l) => l.count, None => 0u32 },
    }
}

// ---------------------------------------------------------------------
// Uniqueness of the positions the transitions choose, and preservation
// of side well-formedness.
// ---------------------------------------------------------------------

/// On a sorted side an index holding `price` is the one `level_index`
/// denotes.
pub proof fn lemma_level_index_unique(s: Seq<LevelV>, price: i64, i: int)
    requires
        side_wf(s),
        0 <= i < s.len(),
        s[i].price == price,
    ensures
        has_level(s, price),
        level_index(s, price) == i,
{
    assert(has_level(s, price));
    let k = level_index(s, price);
    if k < i {
        assert(s[k].price < s[i].price);
    } else if k > i {
        assert(s[i].price < s[k].price);
    }
}

/// On a sorted side `insert_pos` splits the levels into a strictly
/// cheaper prefix and a suffix at or above `price`.
pub proof fn lemma_insert_pos_props(s: Seq<LevelV>, price: i64)
    requires
        side_wf(s),
    ensures
        0 <= insert_pos(s, price) <= s.len(),
        forall|j: int| 0 <= j < insert_pos(s, price) ==> s[j].price < price,
        forall|j: int| insert_pos(s, price) <= j < s.len() ==> price <= s[j].price,
    decreases s.len(),
{
    if s.len() == 0 {
    } else if s[0].price < price {
        let s0 = s.drop_first();
        assert(forall|a: int| 0 <= a < s0.len() ==> s0[a] == s[a + 1]);
        assert(side_wf(s0));
        lemma_insert_pos_props(s0, price);
        let k = insert_pos(s, price);
        assert(k == 1 + insert_pos(s0, price));
        assert(forall|j: int| 1 <= j < k ==> s[j] == s0[j - 1]);
        assert(forall|j: int| k <= j < s.len() ==> s[j] == s0[j - 1]);
    } else {
        assert(forall|j: int| 0 < j < s.len() ==> s[0].price < #[trigger] s[j].price);
    }
}

/// On a sorted side, a position with everything below strictly cheaper
/// and everything at or above strictly dearer is the one `insert_pos`
/// denotes, and no level holds `price`.
pub proof fn lemma_insert_pos_unique(s: Seq<LevelV>, price: i64, k: int)
    requires
        side_wf(s),
        0 <= k <= s.len(),
        forall|j: int| 0 <= j < k ==> s[j].price < price,
        forall|j: int| k <= j < s.len() ==> price < s[j].price,
    ensures
        !has_level(s, price),
        insert_pos(s, price) == k,
{
    lemma_insert_pos_props(s, price);
    let p = insert_pos(s, price);
    if p < k {
        assert(0 <= p < k && p < s.len());
        assert(s[p].price < price);
        assert(price <= s[p].price);
    } else if p > k {
        assert(k < s.len());
        assert(s[k].price < price);
        assert(price < s[k].price);
    }
    assert forall|i: int| 0 <= i < s.len() implies s[i].price != price by {
        if i < k {
            assert(s[i].price < price);
        } else {
            assert(price < s[i].price);
        }
    }
}

pub proof fn lemma_side_add_wf(s: Seq<LevelV>, ev: MboMsg)
    requires
        side_wf(s),
    ensures
        side_wf(side_add(s, ev)),
        has_level(side_add(s, ev), ev.price),
{
    if has_level(s, ev.price) {
        let i = level_index(s, ev.price);
        assert(0 <= i < s.len() && s[i].price == ev.price);
        let t = side_add(s, ev);
        assert(t[i].price == ev.price);
        assert(forall|a: int, b: int| 0 <= a < b < t.len() ==> t[a].price < t[b].price);
    } else {
        lemma_insert_pos_props(s, ev.price);
        let k = insert_pos(s, ev.price);
        assert forall|j: int| k <= j < s.len() implies ev.price < s[j].price by {
            assert(s[j].price != ev.price);
        }
        let t = side_add(s, ev);
        assert(t[k].price == ev.price);
        assert(forall|a: int| 0 <= a < k ==> t[a] == s[a]);
        assert(forall|a: int| k < a < t.len() ==> t[a] == s[a - 1]);
        assert(forall|a: int, b: int| 0 <= a < b < t.len() ==> t[a].price < t[b].price);
    }
}

pub proof fn lemma_side_remove_wf(s: Seq<LevelV>, price: i64, oid: u64)
    requires
        side_wf(s),
    ensures
        side_wf(side_remove_order(s, price, oid)),
{
    if has_level(s, price) {
        let i = level_index(s, price);
        let rest = remove_id(s[i].orders, oid);
        if rest.len() == 0 {
            let t = s.remove(i);
            assert(forall|a: int| 0 <= a < i ==> t[a] == s[a]);
            assert(forall|a: int| i <= a < t.len() ==> t[a] == s[a + 1]);
            assert(forall|a: int, b: int| 0 <= a < b < t.len() ==> t[a].price < t[b].price);
        }
    }
}

pub proof fn lemma_side_dec_wf(s: Seq<LevelV>, price: i64, oid: u64, by: u32)
    requires
        side_wf(s),
    ensures
        side_wf(side_dec_order(s, price, oid, by)),
{
    if has_level(s, price) {
        let i = level_index(s, price);
        assert(s[i].orders.map_values(|o: MboMsg| dec_order(o, oid, by)).len()
            == s[i].orders.len());
    }
}

/// `spec_apply` keeps both sides well formed, whatever the event.
pub proof fn lemma_apply_wf(b: BookV, ev: MboMsg)
    requires
        book_wf(b),
    ensures
        book_wf(spec_apply(b, ev)),
{
    if informational(ev) || ev.spec_is_clear() {
    } else if !ev.spec_is_ask() && !ev.spec_is_bid() {
    } else if ev.spec_is_undef_price() && ev.spec_is_tob() {
    } else if ev.spec_is_add() {
        lemma_add_wf(b, ev);
    } else if ev.spec_is_cancel() {
        if b.orders.contains_key(ev.order_id) {
            let stored = b.orders[ev.order_id];
            lemma_side_remove_wf(side_of(b, stored.side), stored.price, ev.order_id);
            lemma_side_dec_wf(side_of(b, stored.side), stored.price, ev.order_id, ev.size);
        }
    } else if ev.spec_is_modify() {
        if b.orders.contains_key(ev.order_id) {
            let stored = b.orders[ev.order_id];
            lemma_side_remove_wf(side_of(b, stored.side), stored.price, ev.order_id);
            let b1 = with_side(
                b,
                stored.side,
                side_remove_order(side_of(b, stored.side), stored.price, ev.order_id),
            );
            lemma_side_add_wf(side_of(b1, ev.side), ev);
        } else {
            lemma_add_wf(b, ev);
        }
    }
}

proof fn lemma_add_wf(b: BookV, ev: MboMsg)
    requires
        book_wf(b),
    ensures
        book_wf(spec_add(b, ev)),
{
    if ev.spec_is_tob() {
        let t = seq![LevelV { price: ev.price, orders: seq![ev] }];
        assert(side_wf(t));
    } else {
        lemma_side_add_wf(side_of(b, ev.side), ev);
    }
}

} // verus!
