//! The book's invariants and the laws of its transition function: what
//! holds of every reachable state, and how ADD, CANCEL and CLEAR compose.

use vstd::prelude::*;
use crate::msg::{MboMsg, SIDE_ASK, SIDE_BID};
use crate::level::LevelV;
use crate::book_model::{
    BookV, side_wf, book_wf, has_level, level_index, insert_pos, remove_id, dec_order, side_add,
    side_remove_order, side_dec_order, side_of, with_side, spec_add, spec_cancel, spec_modify,
    spec_apply, informational, lemma_level_index_unique, lemma_insert_pos_props,
    lemma_side_add_wf, lemma_side_remove_wf, lemma_side_dec_wf, lemma_apply_wf,
};

verus! {

/// How many entries of `s` carry the order id `oid`.
pub open spec fn count_id(s: Seq<MboMsg>, oid: u64) -> int
    decreases s.len(),
{
    if s.len() == 0 {
        0
    } else {
        count_id(s.drop_last(), oid) + if s.last().order_id == oid {
            1int
        } else {
            0int
        }
    }
}

pub proof fn lemma_count_id_zero(s: Seq<MboMsg>, oid: u64)
    ensures
        (count_id(s, oid) == 0) <==> (forall|j: int|
            0 <= j < s.len() ==> (#[trigger] s[j]).order_id != oid),
        count_id(s, oid) >= 0,
    decreases s.len(),
{
    if s.len() > 0 {
        lemma_count_id_zero(s.drop_last(), oid);
        assert(forall|j: int| 0 <= j < s.len() - 1 ==> s.drop_last()[j] == s[j]);
        assert(s.last() == s[s.len() - 1]);
    }
}

pub proof fn lemma_count_id_push(s: Seq<MboMsg>, o: MboMsg, oid: u64)
    ensures
        count_id(s.push(o), oid) == count_id(s, oid) + if o.order_id == oid {
            1int
        } else {
            0int
        },
{
    assert(s.push(o).drop_last() =~= s);
    assert(s.push(o).last() == o);
}

/// What stripping an id from an order sequence does: those entries are
/// gone, every other entry survives in place and order, and a sequence
/// without the id is untouched.
pub proof fn lemma_remove_id_props(s: Seq<MboMsg>, oid: u64)
    ensures
        count_id(remove_id(s, oid), oid) == 0,
        forall|o2: u64|
            o2 != oid ==> #[trigger] count_id(remove_id(s, oid), o2) == count_id(s, o2),
        remove_id(s, oid).len() == s.len() - count_id(s, oid),
        forall|j: int|
            0 <= j < remove_id(s, oid).len() ==> exists|k: int|
                0 <= k < s.len() && s[k] == #[trigger] remove_id(s, oid)[j],
        count_id(s, oid) == 0 ==> remove_id(s, oid) == s,
    decreases s.len(),
{
    lemma_count_id_zero(s, oid);
    if s.len() == 0 {
        assert(remove_id(s, oid) =~= s);
    } else {
        let s0 = s.drop_last();
        lemma_remove_id_props(s0, oid);
        lemma_count_id_zero(s0, oid);
        let r = remove_id(s, oid);
        let r0 = remove_id(s0, oid);
        if s.last().order_id == oid {
            assert(r == r0);
            assert forall|o2: u64| o2 != oid implies #[trigger] count_id(r, o2) == count_id(
                s,
                o2,
            ) by {
                assert(count_id(r0, o2) == count_id(s0, o2));
            }
            assert forall|j: int|
                0 <= j < r.len() implies exists|k: int|
                    0 <= k < s.len() && s[k] == #[trigger] r[j] by {
                let k = choose|k: int| 0 <= k < s0.len() && s0[k] == r[j];
                assert(s[k] == r[j]);
            }
        } else {
            assert(r == r0.push(s.last()));
            lemma_count_id_push(r0, s.last(), oid);
            assert forall|o2: u64| o2 != oid implies #[trigger] count_id(r, o2) == count_id(
                s,
                o2,
            ) by {
                lemma_count_id_push(r0, s.last(), o2);
            }
            assert forall|j: int|
                0 <= j < r.len() implies exists|k: int|
                    0 <= k < s.len() && s[k] == #[trigger] r[j] by {
                if j < r0.len() {
                    let k = choose|k: int| 0 <= k < s0.len() && s0[k] == r0[j];
                    assert(s[k] == r[j]);
                } else {
                    assert(r[j] == s[s.len() - 1]);
                }
            }
            if count_id(s, oid) == 0 {
                assert(r =~= s);
            }
        }
    }
}

/// Mapping an id-preserving decrement over a sequence keeps every count.
pub proof fn lemma_count_id_map_dec(s: Seq<MboMsg>, oid: u64, by: u32, o2: u64)
    ensures
        count_id(s.map_values(|o: MboMsg| dec_order(o, oid, by)), o2) == count_id(s, o2),
    decreases s.len(),
{
    let f = |o: MboMsg| dec_order(o, oid, by);
    if s.len() == 0 {
        assert(s.map_values(f) =~= Seq::<MboMsg>::empty());
    } else {
        lemma_count_id_map_dec(s.drop_last(), oid, by, o2);
        assert(s.map_values(f).drop_last() =~= s.drop_last().map_values(f));
        assert(s.map_values(f).last() == f(s.last()));
    }
}

// ---------------------------------------------------------------------
// Frame lemmas: what each side operation does at its target price, and
// that every other level is untouched.
// ---------------------------------------------------------------------

/// `side_add` grows exactly the level at the event's price (creating it
/// if absent) and leaves every other level in place.
pub proof fn lemma_side_add_frame(s: Seq<LevelV>, ev: MboMsg)
    requires
        side_wf(s),
    ensures
        side_wf(side_add(s, ev)),
        has_level(side_add(s, ev), ev.price),
        side_add(s, ev)[level_index(side_add(s, ev), ev.price)].price == ev.price,
        side_add(s, ev)[level_index(side_add(s, ev), ev.price)].orders == (if has_level(
            s,
            ev.price,
        ) {
            s[level_index(s, ev.price)].orders.push(ev)
        } else {
            seq![ev]
        }),
        forall|p: i64|
            p != ev.price ==> (#[trigger] has_level(side_add(s, ev), p)) == has_level(s, p),
        forall|p: i64|
            p != ev.price && has_level(s, p) ==> #[trigger] side_add(s, ev)[level_index(
                side_add(s, ev),
                p,
            )] == s[level_index(s, p)],
{
    lemma_side_add_wf(s, ev);
    let t = side_add(s, ev);
    if has_level(s, ev.price) {
        let i = level_index(s, ev.price);
        assert(0 <= i < s.len() && s[i].price == ev.price);
        assert(t == s.update(i, LevelV { price: ev.price, orders: s[i].orders.push(ev) }));
        lemma_level_index_unique(t, ev.price, i);
        assert forall|p: i64|
            p != ev.price implies (#[trigger] has_level(t, p)) == has_level(s, p) by {
            if has_level(s, p) {
                let k = choose|k: int| 0 <= k < s.len() && s[k].price == p;
                assert(t[k].price == p);
            }
            if has_level(t, p) {
                let k = choose|k: int| 0 <= k < t.len() && t[k].price == p;
                assert(s[k].price == p);
            }
        }
        assert forall|p: i64|
            p != ev.price && has_level(s, p) implies #[trigger] t[level_index(t, p)] == s[level_index(
            s,
            p,
        )] by {
            let k = level_index(s, p);
            assert(0 <= k < s.len() && s[k].price == p);
            assert(t[k] == s[k]);
            lemma_level_index_unique(t, p, k);
        }
    } else {
        lemma_insert_pos_props(s, ev.price);
        let pos = insert_pos(s, ev.price);
        assert forall|j: int| 0 <= j < s.len() implies s[j].price != ev.price by {
            if s[j].price == ev.price {
                assert(has_level(s, ev.price));
            }
        }
        assert(t == s.insert(pos, LevelV { price: ev.price, orders: seq![ev] }));
        assert(t[pos].price == ev.price);
        lemma_level_index_unique(t, ev.price, pos);
        assert(forall|k: int| 0 <= k < pos ==> t[k] == s[k]);
        assert(forall|k: int| pos < k < t.len() ==> t[k] == s[k - 1]);
        assert forall|p: i64|
            p != ev.price implies (#[trigger] has_level(t, p)) == has_level(s, p) by {
            if has_level(s, p) {
                let k = choose|k: int| 0 <= k < s.len() && s[k].price == p;
                if k < pos {
                    assert(t[k].price == p);
                } else {
                    assert(t[k + 1].price == p);
                }
            }
            if has_level(t, p) {
                let k = choose|k: int| 0 <= k < t.len() && t[k].price == p;
                if k < pos {
                    assert(s[k].price == p);
                } else {
                    assert(s[k - 1].price == p);
                }
            }
        }
        assert forall|p: i64|
            p != ev.price && has_level(s, p) implies #[trigger] t[level_index(t, p)] == s[level_index(
            s,
            p,
        )] by {
            let k = level_index(s, p);
            assert(0 <= k < s.len() && s[k].price == p);
            if k < pos {
                assert(t[k] == s[k]);
                lemma_level_index_unique(t, p, k);
            } else {
                assert(t[k + 1] == s[k]);
                lemma_level_index_unique(t, p, k + 1);
            }
        }
    }
}

/// `side_remove_order` strips `oid` from the level at `price` (dropping
/// the level when emptied) and leaves every other level in place.
pub proof fn lemma_side_remove_frame(s: Seq<LevelV>, price: i64, oid: u64)
    requires
        side_wf(s),
    ensures
        side_wf(side_remove_order(s, price, oid)),
        !has_level(s, price) ==> side_remove_order(s, price, oid) == s,
        has_level(s, price) ==> {
            let rest = remove_id(s[level_index(s, price)].orders, oid);
            if rest.len() == 0 {
                !has_level(side_remove_order(s, price, oid), price)
            } else {
                has_level(side_remove_order(s, price, oid), price) && side_remove_order(
                    s,
                    price,
                    oid,
                )[level_index(side_remove_order(s, price, oid), price)] == (LevelV {
                    price,
                    orders: rest,
                })
            }
        },
        forall|p: i64|
            p != price ==> (#[trigger] has_level(side_remove_order(s, price, oid), p))
                == has_level(s, p),
        forall|p: i64|
            p != price && has_level(s, p) ==> #[trigger] side_remove_order(s, price, oid)[level_index(
                side_remove_order(s, price, oid),
                p,
            )] == s[level_index(s, p)],
{
    lemma_side_remove_wf(s, price, oid);
    let t = side_remove_order(s, price, oid);
    if has_level(s, price) {
        let i = level_index(s, price);
        assert(0 <= i < s.len() && s[i].price == price);
        assert forall|k: int| 0 <= k < s.len() && k != i implies s[k].price != price by {
            if k < i {
                assert(s[k].price < s[i].price);
            } else {
                assert(s[i].price < s[k].price);
            }
        }
        let rest = remove_id(s[i].orders, oid);
        if rest.len() == 0 {
            assert(t == s.remove(i));
            assert(forall|k: int| 0 <= k < i ==> t[k] == s[k]);
            assert(forall|k: int| i <= k < t.len() ==> t[k] == s[k + 1]);
            assert forall|k: int| 0 <= k < t.len() implies t[k].price != price by {
                if k < i {
                    assert(t[k] == s[k]);
                } else {
                    assert(t[k] == s[k + 1]);
                }
            }
            assert(!has_level(t, price));
            assert forall|p: i64|
                p != price implies (#[trigger] has_level(t, p)) == has_level(s, p) by {
                if has_level(s, p) {
                    let k = choose|k: int| 0 <= k < s.len() && s[k].price == p;
                    if k < i {
                        assert(t[k].price == p);
                    } else {
                        assert(t[k - 1].price == p);
                    }
                }
                if has_level(t, p) {
                    let k = choose|k: int| 0 <= k < t.len() && t[k].price == p;
                    if k < i {
                        assert(s[k].price == p);
                    } else {
                        assert(s[k + 1].price == p);
                    }
                }
            }
            assert forall|p: i64|
                p != price && has_level(s, p) implies #[trigger] t[level_index(t, p)]
                == s[level_index(s, p)] by {
                let k = level_index(s, p);
                assert(0 <= k < s.len() && s[k].price == p);
                if k < i {
                    assert(t[k] == s[k]);
                    lemma_level_index_unique(t, p, k);
                } else {
                    assert(k != i);
                    assert(t[k - 1] == s[k]);
                    lemma_level_index_unique(t, p, k - 1);
                }
            }
        } else {
            assert(t == s.update(i, LevelV { price, orders: rest }));
            assert(t[i].price == price);
            lemma_level_index_unique(t, price, i);
            assert forall|p: i64|
                p != price implies (#[trigger] has_level(t, p)) == has_level(s, p) by {
                if has_level(s, p) {
                    let k = choose|k: int| 0 <= k < s.len() && s[k].price == p;
                    assert(t[k].price == p);
                }
                if has_level(t, p) {
                    let k = choose|k: int| 0 <= k < t.len() && t[k].price == p;
                    assert(s[k].price == p);
                }
            }
            assert forall|p: i64|
                p != price && has_level(s, p) implies #[trigger] t[level_index(t, p)]
                == s[level_index(s, p)] by {
                let k = level_index(s, p);
                assert(0 <= k < s.len() && s[k].price == p);
                assert(t[k] == s[k]);
                lemma_level_index_unique(t, p, k);
            }
        }
    }
}

/// `side_dec_order` rewrites only the orders of the level at `price` and
/// leaves every other level in place.
pub proof fn lemma_side_dec_frame(s: Seq<LevelV>, price: i64, oid: u64, by: u32)
    requires
        side_wf(s),
    ensures
        side_wf(side_dec_order(s, price, oid, by)),
        !has_level(s, price) ==> side_dec_order(s, price, oid, by) == s,
        has_level(s, price) ==> has_level(side_dec_order(s, price, oid, by), price)
            && side_dec_order(s, price, oid, by)[level_index(
            side_dec_order(s, price, oid, by),
            price,
        )] == (LevelV {
            price,
            orders: s[level_index(s, price)].orders.map_values(
                |o: MboMsg| dec_order(o, oid, by),
            ),
        }),
        forall|p: i64|
            p != price ==> (#[trigger] has_level(side_dec_order(s, price, oid, by), p))
                == has_level(s, p),
        forall|p: i64|
            p != price && has_level(s, p) ==> #[trigger] side_dec_order(s, price, oid, by)[level_index(
                side_dec_order(s, price, oid, by),
                p,
            )] == s[level_index(s, p)],
{
    lemma_side_dec_wf(s, price, oid, by);
    let t = side_dec_order(s, price, oid, by);
    if has_level(s, price) {
        let i = level_index(s, price);
        assert(0 <= i < s.len() && s[i].price == price);
        assert(t[i].price == price);
        lemma_level_index_unique(t, price, i);
        assert forall|p: i64|
            p != price implies (#[trigger] has_level(t, p)) == has_level(s, p) by {
            if has_level(s, p) {
                let k = choose|k: int| 0 <= k < s.len() && s[k].price == p;
                assert(t[k].price == p);
            }
            if has_level(t, p) {
                let k = choose|k: int| 0 <= k < t.len() && t[k].price == p;
                assert(s[k].price == p);
            }
        }
        assert forall|p: i64|
            p != price && has_level(s, p) implies #[trigger] t[level_index(t, p)] == s[level_index(
            s,
            p,
        )] by {
            let k = level_index(s, p);
            assert(0 <= k < s.len() && s[k].price == p);
            assert(t[k] == s[k]);
            lemma_level_index_unique(t, p, k);
        }
    }
}

// ---------------------------------------------------------------------
// The laws of single events.
// ---------------------------------------------------------------------

/// An informational event (trade, fill, none) leaves the book identical.
pub proof fn lemma_informational_identity(b: BookV, ev: MboMsg)
    requires
        informational(ev),
    ensures
        spec_apply(b, ev) == b,
{
}

/// A CLEAR empties the id index and both sides, whatever the state.
pub proof fn lemma_clear_empties(b: BookV, ev: MboMsg)
    requires
        ev.spec_is_clear(),
    ensures
        spec_apply(b, ev).orders == Map::<u64, MboMsg>::empty(),
        spec_apply(b, ev).bids == Seq::<LevelV>::empty(),
        spec_apply(b, ev).offers == Seq::<LevelV>::empty(),
{
}

/// CLEAR is idempotent: applying it twice is applying it once.
pub proof fn lemma_clear_idempotent(b: BookV, ev: MboMsg)
    requires
        ev.spec_is_clear(),
    ensures
        spec_apply(spec_apply(b, ev), ev) == spec_apply(b, ev),
{
}

// ---------------------------------------------------------------------
// The reachable-state invariants.
// ---------------------------------------------------------------------

/// Every entry rests at the price of its level, carrying the side code
/// of the side that holds it.
pub open spec fn entries_match(s: Seq<LevelV>, side: u8) -> bool {
    forall|i: int, j: int|
        0 <= i < s.len() && 0 <= j < s[i].orders.len() ==> (#[trigger] s[i].orders[j]).price
            == s[i].price && s[i].orders[j].side == side
}

/// What holding the id index to the levels means for one indexed order:
/// it has a book side, its level exists there, and the level holds
/// exactly one entry with its id — the indexed event itself.
pub open spec fn indexed_ok(b: BookV, oid: u64) -> bool {
    let ev = b.orders[oid];
    let s = side_of(b, ev.side);
    &&& (ev.side == SIDE_ASK || ev.side == SIDE_BID)
    &&& has_level(s, ev.price)
    &&& count_id(s[level_index(s, ev.price)].orders, oid) == 1
    &&& forall|j: int|
        0 <= j < s[level_index(s, ev.price)].orders.len() && (#[trigger] s[level_index(
            s,
            ev.price,
        )].orders[j]).order_id == oid ==> s[level_index(s, ev.price)].orders[j] == ev
}

pub open spec fn indexed_at_level(b: BookV) -> bool {
    forall|oid: u64| #[trigger] b.orders.contains_key(oid) ==> indexed_ok(b, oid)
}

/// Every identifiable (non-overlay) resting entry is indexed under its
/// id, with the very fields it carries.
pub open spec fn side_indexed(orders: Map<u64, MboMsg>, s: Seq<LevelV>) -> bool {
    forall|i: int, j: int|
        0 <= i < s.len() && 0 <= j < s[i].orders.len() && !(#[trigger] s[i].orders[j]).spec_is_tob()
            ==> orders.contains_key(s[i].orders[j].order_id) && orders[s[i].orders[j].order_id]
            == s[i].orders[j]
}

/// The invariants of a reachable book state: sides sorted with no empty
/// level, entries on the right level and side, and the id index and the
/// levels holding the same orders with the same fields.
pub open spec fn book_inv(b: BookV) -> bool {
    &&& book_wf(b)
    &&& entries_match(b.bids, SIDE_BID)
    &&& entries_match(b.offers, SIDE_ASK)
    &&& indexed_at_level(b)
    &&& side_indexed(b.orders, b.bids)
    &&& side_indexed(b.orders, b.offers)
}

/// No indexed order rests on the given side.
pub open spec fn side_unindexed(b: BookV, side: u8) -> bool {
    forall|oid: u64| #[trigger] b.orders.contains_key(oid) ==> b.orders[oid].side != side
}

/// When an ADD keeps the invariants: an overlay may only replace a side
/// no indexed order rests on, and an ordinary add must carry a fresh id
/// that no entry of its target level holds.
pub open spec fn add_ok(b: BookV, ev: MboMsg) -> bool {
    if ev.spec_is_tob() {
        side_unindexed(b, ev.side)
    } else {
        !b.orders.contains_key(ev.order_id) && no_entry_with_id(
            side_of(b, ev.side),
            ev.price,
            ev.order_id,
        )
    }
}

/// The events under which one step preserves the invariants. CANCEL and
/// the no-ops always do; the clauses exclude overlays that orphan the id
/// index and ids that would come to rest twice.
pub open spec fn event_ok(b: BookV, ev: MboMsg) -> bool {
    if informational(ev) || ev.spec_is_clear() {
        true
    } else if !ev.spec_is_ask() && !ev.spec_is_bid() {
        true
    } else if ev.spec_is_undef_price() && ev.spec_is_tob() {
        side_unindexed(b, ev.side)
    } else if ev.spec_is_add() {
        add_ok(b, ev)
    } else if ev.spec_is_cancel() {
        true
    } else if ev.spec_is_modify() {
        if b.orders.contains_key(ev.order_id) {
            no_entry_with_id(
                side_of(
                    with_side(
                        b,
                        b.orders[ev.order_id].side,
                        side_remove_order(
                            side_of(b, b.orders[ev.order_id].side),
                            b.orders[ev.order_id].price,
                            ev.order_id,
                        ),
                    ),
                    ev.side,
                ),
                ev.price,
                ev.order_id,
            )
        } else {
            add_ok(b, ev)
        }
    } else {
        true
    }
}

/// The level at `price` (when present) holds no entry carrying `oid`.
pub open spec fn no_entry_with_id(s: Seq<LevelV>, price: i64, oid: u64) -> bool {
    has_level(s, price) ==> count_id(s[level_index(s, price)].orders, oid) == 0
}

/// Round trip: adding a fresh order and then cancelling its full size
/// leaves the book exactly as it was before the add.
pub proof fn lemma_add_cancel_round_trip(b: BookV, e: MboMsg, c: MboMsg)
    requires
        book_wf(b),
        e.spec_is_add(),
        !e.spec_is_tob(),
        e.spec_is_ask() || e.spec_is_bid(),
        !b.orders.contains_key(e.order_id),
        no_entry_with_id(side_of(b, e.side), e.price, e.order_id),
        c.spec_is_cancel(),
        c.spec_is_ask() || c.spec_is_bid(),
        !(c.spec_is_undef_price() && c.spec_is_tob()),
        c.order_id == e.order_id,
        c.size == e.size,
    ensures
        spec_apply(spec_apply(b, e), c) == b,
{
    let b1 = spec_apply(b, e);
    let s = side_of(b, e.side);
    lemma_side_add_frame(s, e);
    let t = side_add(s, e);
    assert(b1.orders == b.orders.insert(e.order_id, e));
    assert(side_of(b1, e.side) == t);
    assert(b1.orders.contains_key(c.order_id) && b1.orders[c.order_id] == e);
    let b2 = spec_apply(b1, c);
    assert(b2.orders == b1.orders.remove(e.order_id));
    assert(b.orders.insert(e.order_id, e).remove(e.order_id) =~= b.orders);
    let u = side_remove_order(t, e.price, e.order_id);
    assert(side_of(b2, e.side) == u);
    let i = level_index(t, e.price);
    assert(0 <= i < t.len() && t[i].price == e.price);
    if has_level(s, e.price) {
        let i0 = level_index(s, e.price);
        assert(0 <= i0 < s.len() && s[i0].price == e.price);
        assert(t == s.update(i0, LevelV { price: e.price, orders: s[i0].orders.push(e) }));
        lemma_level_index_unique(t, e.price, i0);
        lemma_remove_id_props(s[i0].orders, e.order_id);
        assert(s[i0].orders.push(e).drop_last() =~= s[i0].orders);
        assert(s[i0].orders.push(e).last() == e);
        let rest = remove_id(t[i].orders, e.order_id);
        assert(rest == remove_id(s[i0].orders, e.order_id));
        assert(count_id(s[i0].orders, e.order_id) == 0);
        assert(rest == s[i0].orders);
        assert(rest.len() > 0);
        assert(u == t.update(i, LevelV { price: e.price, orders: rest }));
        assert(LevelV { price: e.price, orders: rest } =~= s[i0]);
        assert(u =~= s);
    } else {
        assert(t[i].orders == seq![e]);
        let rest = remove_id(t[i].orders, e.order_id);
        assert(seq![e].drop_last() =~= Seq::<MboMsg>::empty());
        assert(seq![e].last() == e);
        assert(remove_id(Seq::<MboMsg>::empty(), e.order_id) =~= Seq::<MboMsg>::empty());
        assert(rest == remove_id(seq![e], e.order_id));
        assert(rest =~= Seq::<MboMsg>::empty());
        assert(u == t.remove(i));
        lemma_insert_pos_props(s, e.price);
        let pos = insert_pos(s, e.price);
        assert(t == s.insert(pos, LevelV { price: e.price, orders: seq![e] }));
        assert(t[pos].price == e.price);
        lemma_level_index_unique(t, e.price, pos);
        assert(i == pos);
        assert(u =~= s);
    }
    assert(b2 =~~= b);
}

/// The empty book satisfies the invariants.
pub proof fn lemma_empty_inv()
    ensures
        book_inv(BookV::empty()),
{
}

/// Entries stay on the right level and side when an event is appended.
proof fn lemma_entries_match_add(s: Seq<LevelV>, ev: MboMsg, code: u8)
    requires
        side_wf(s),
        entries_match(s, code),
        ev.side == code,
    ensures
        entries_match(side_add(s, ev), code),
{
    let t = side_add(s, ev);
    if has_level(s, ev.price) {
        let i0 = level_index(s, ev.price);
        assert(0 <= i0 < s.len() && s[i0].price == ev.price);
        assert(t == s.update(i0, LevelV { price: ev.price, orders: s[i0].orders.push(ev) }));
        assert forall|i: int, j: int|
            0 <= i < t.len() && 0 <= j < t[i].orders.len() implies (#[trigger] t[i].orders[j]).price
            == t[i].price && t[i].orders[j].side == code by {
            if i == i0 {
                if j < s[i0].orders.len() {
                    assert(t[i].orders[j] == s[i0].orders[j]);
                } else {
                    assert(t[i].orders[j] == ev);
                }
            } else {
                assert(t[i] == s[i]);
                assert(s[i].orders[j].price == s[i].price && s[i].orders[j].side == code);
            }
        }
    } else {
        lemma_insert_pos_props(s, ev.price);
        let pos = insert_pos(s, ev.price);
        assert(t == s.insert(pos, LevelV { price: ev.price, orders: seq![ev] }));
        assert forall|i: int, j: int|
            0 <= i < t.len() && 0 <= j < t[i].orders.len() implies (#[trigger] t[i].orders[j]).price
            == t[i].price && t[i].orders[j].side == code by {
            if i == pos {
                assert(t[i].orders[j] == ev);
            } else if i < pos {
                assert(t[i] == s[i]);
                assert(s[i].orders[j].price == s[i].price && s[i].orders[j].side == code);
            } else {
                assert(t[i] == s[i - 1]);
                assert(s[i - 1].orders[j].price == s[i - 1].price && s[i - 1].orders[j].side
                    == code);
            }
        }
    }
}

/// Entries stay on the right level and side when an id is stripped from
/// a level or its entries are decremented.
proof fn lemma_entries_match_remove(s: Seq<LevelV>, price: i64, oid: u64, code: u8)
    requires
        side_wf(s),
        entries_match(s, code),
    ensures
        entries_match(side_remove_order(s, price, oid), code),
{
    let t = side_remove_order(s, price, oid);
    if has_level(s, price) {
        let i0 = level_index(s, price);
        assert(0 <= i0 < s.len() && s[i0].price == price);
        lemma_remove_id_props(s[i0].orders, oid);
        let rest = remove_id(s[i0].orders, oid);
        if rest.len() == 0 {
            assert(t == s.remove(i0));
            assert forall|i: int, j: int|
                0 <= i < t.len() && 0 <= j < t[i].orders.len() implies (#[trigger] t[i].orders[j]).price
                == t[i].price && t[i].orders[j].side == code by {
                if i < i0 {
                    assert(t[i] == s[i]);
                    assert(s[i].orders[j].price == s[i].price && s[i].orders[j].side == code);
                } else {
                    assert(t[i] == s[i + 1]);
                    assert(s[i + 1].orders[j].price == s[i + 1].price && s[i + 1].orders[j].side
                        == code);
                }
            }
        } else {
            assert(t == s.update(i0, LevelV { price, orders: rest }));
            assert forall|i: int, j: int|
                0 <= i < t.len() && 0 <= j < t[i].orders.len() implies (#[trigger] t[i].orders[j]).price
                == t[i].price && t[i].orders[j].side == code by {
                if i == i0 {
                    let k = choose|k: int|
                        0 <= k < s[i0].orders.len() && s[i0].orders[k] == rest[j];
                    assert(s[i0].orders[k].price == s[i0].price && s[i0].orders[k].side == code);
                } else {
                    assert(t[i] == s[i]);
                    assert(s[i].orders[j].price == s[i].price && s[i].orders[j].side == code);
                }
            }
        }
    }
}

proof fn lemma_entries_match_dec(s: Seq<LevelV>, price: i64, oid: u64, by: u32, code: u8)
    requires
        side_wf(s),
        entries_match(s, code),
    ensures
        entries_match(side_dec_order(s, price, oid, by), code),
{
    let t = side_dec_order(s, price, oid, by);
    if has_level(s, price) {
        let i0 = level_index(s, price);
        assert(0 <= i0 < s.len() && s[i0].price == price);
        let f = |o: MboMsg| dec_order(o, oid, by);
        assert(t == s.update(i0, LevelV { price, orders: s[i0].orders.map_values(f) }));
        assert forall|i: int, j: int|
            0 <= i < t.len() && 0 <= j < t[i].orders.len() implies (#[trigger] t[i].orders[j]).price
            == t[i].price && t[i].orders[j].side == code by {
            if i == i0 {
                assert(t[i].orders[j] == f(s[i0].orders[j]));
                assert(s[i0].orders[j].price == s[i0].price && s[i0].orders[j].side == code);
            } else {
                assert(t[i] == s[i]);
                assert(s[i].orders[j].price == s[i].price && s[i].orders[j].side == code);
            }
        }
    }
}

/// A plain (non-overlay) ADD on a book side indexes exactly the incoming
/// event under its order id.
pub proof fn lemma_add_indexes(b: BookV, ev: MboMsg)
    requires
        ev.spec_is_add(),
        !ev.spec_is_tob(),
        ev.spec_is_ask() || ev.spec_is_bid(),
    ensures
        spec_apply(b, ev).orders == b.orders.insert(ev.order_id, ev),
        spec_apply(b, ev).orders[ev.order_id] == ev,
        spec_apply(b, ev).orders.contains_key(ev.order_id),
{
    assert(!informational(ev) && !ev.spec_is_clear());
}

/// Indexing a fresh id leaves every identifiable entry of an untouched
/// side correctly indexed.
proof fn lemma_side_indexed_insert_fresh(orders: Map<u64, MboMsg>, s: Seq<LevelV>, oid: u64, v: MboMsg)
    requires
        side_indexed(orders, s),
        !orders.contains_key(oid),
    ensures
        side_indexed(orders.insert(oid, v), s),
{
    let orders2 = orders.insert(oid, v);
    assert forall|i: int, j: int|
        0 <= i < s.len() && 0 <= j < s[i].orders.len() && !(#[trigger] s[i].orders[j]).spec_is_tob()
            implies orders2.contains_key(s[i].orders[j].order_id) && orders2[s[i].orders[j].order_id]
        == s[i].orders[j] by {
        assert(orders.contains_key(s[i].orders[j].order_id));
        assert(s[i].orders[j].order_id != oid);
    }
}

/// Re-indexing or dropping an id that rests on the *other* side leaves a
/// side correctly indexed: no identifiable entry here carries that id.
proof fn lemma_side_indexed_foreign(
    orders: Map<u64, MboMsg>,
    orders2: Map<u64, MboMsg>,
    s: Seq<LevelV>,
    oid: u64,
    code: u8,
)
    requires
        side_indexed(orders, s),
        entries_match(s, code),
        orders.contains_key(oid),
        orders[oid].side != code,
        forall|k: u64| k != oid ==> orders2.contains_key(k) == orders.contains_key(k),
        forall|k: u64|
            k != oid && orders.contains_key(k) ==> #[trigger] orders2[k] == orders[k],
    ensures
        side_indexed(orders2, s),
{
    assert forall|i: int, j: int|
        0 <= i < s.len() && 0 <= j < s[i].orders.len() && !(#[trigger] s[i].orders[j]).spec_is_tob()
            implies orders2.contains_key(s[i].orders[j].order_id) && orders2[s[i].orders[j].order_id]
        == s[i].orders[j] by {
        let e0 = s[i].orders[j];
        assert(orders.contains_key(e0.order_id) && orders[e0.order_id] == e0);
        assert(e0.side == code);
        assert(e0.order_id != oid);
    }
}

/// Replacing a side with a single overlay level, or emptying it, keeps
/// the invariants when no indexed order rests on that side.
proof fn lemma_side_replace_inv(b: BookV, side: u8, t: Seq<LevelV>)
    requires
        book_inv(b),
        side == SIDE_ASK || side == SIDE_BID,
        side_unindexed(b, side),
        side_wf(t),
        entries_match(t, side),
        forall|i: int, j: int|
            0 <= i < t.len() && 0 <= j < t[i].orders.len() ==> (#[trigger] t[i].orders[j]).spec_is_tob(),
    ensures
        book_inv(with_side(b, side, t)),
{
    let b2 = with_side(b, side, t);
    assert forall|oid: u64| #[trigger] b2.orders.contains_key(oid) implies indexed_ok(b2, oid) by {
        assert(b.orders.contains_key(oid));
        assert(indexed_ok(b, oid));
        let ev2 = b.orders[oid];
        assert(ev2.side != side);
        assert(side_of(b2, ev2.side) == side_of(b, ev2.side));
    }
    assert(side_indexed(b2.orders, t));
    if side == SIDE_ASK {
        assert(b2.bids == b.bids);
    } else {
        assert(b2.offers == b.offers);
    }
}

/// One ADD under its admissibility clause keeps the invariants.
#[verifier::rlimit(50)]
proof fn lemma_add_inv(b: BookV, ev: MboMsg)
    requires
        book_inv(b),
        add_ok(b, ev),
        ev.spec_is_ask() || ev.spec_is_bid(),
    ensures
        book_inv(spec_add(b, ev)),
{
    let b2 = spec_add(b, ev);
    if ev.spec_is_tob() {
        let lv = LevelV { price: ev.price, orders: seq![ev] };
        let t = seq![lv];
        assert(side_wf(t));
        assert forall|i: int, j: int|
            0 <= i < t.len() && 0 <= j < t[i].orders.len() implies (#[trigger] t[i].orders[j]).price
            == t[i].price && t[i].orders[j].side == ev.side by {
            assert(t[i].orders[j] == ev);
        }
        assert forall|i: int, j: int|
            0 <= i < t.len() && 0 <= j < t[i].orders.len() implies (#[trigger] t[i].orders[j]).spec_is_tob() by {
            assert(t[i].orders[j] == ev);
        }
        lemma_side_replace_inv(b, ev.side, t);
    } else {
        let s = side_of(b, ev.side);
        let t = side_add(s, ev);
        lemma_side_add_frame(s, ev);
        assert(b2.orders == b.orders.insert(ev.order_id, ev));
        assert(side_of(b2, ev.side) == t);
        lemma_entries_match_add(s, ev, ev.side);
        // the new id rests exactly once, as the event itself
        let lt = level_index(t, ev.price);
        assert(has_level(t, ev.price));
        assert(0 <= lt < t.len() && t[lt].price == ev.price);
        lemma_count_id_zero(Seq::<MboMsg>::empty(), ev.order_id);
        if has_level(s, ev.price) {
            let i0 = level_index(s, ev.price);
            assert(count_id(s[i0].orders, ev.order_id) == 0);
            lemma_count_id_push(s[i0].orders, ev, ev.order_id);
            assert(count_id(t[lt].orders, ev.order_id) == 1);
            lemma_count_id_zero(s[i0].orders, ev.order_id);
        } else {
            assert(Seq::<MboMsg>::empty().push(ev) =~= seq![ev]);
            lemma_count_id_push(Seq::<MboMsg>::empty(), ev, ev.order_id);
            assert(count_id(t[lt].orders, ev.order_id) == 1);
        }
        assert forall|oid: u64| #[trigger] b2.orders.contains_key(oid) implies indexed_ok(
            b2,
            oid,
        ) by {
            if oid == ev.order_id {
                assert(b2.orders[oid] == ev);
                assert forall|j: int|
                    0 <= j < t[lt].orders.len() && (#[trigger] t[lt].orders[j]).order_id == oid
                        implies t[lt].orders[j] == ev by {
                    if has_level(s, ev.price) {
                        let i0 = level_index(s, ev.price);
                        if j < s[i0].orders.len() {
                            assert(t[lt].orders[j] == s[i0].orders[j]);
                            lemma_count_id_zero(s[i0].orders, oid);
                        } else {
                            assert(t[lt].orders[j] == ev);
                        }
                    } else {
                        assert(t[lt].orders == seq![ev]);
                    }
                }
            } else {
                assert(b.orders.contains_key(oid));
                assert(indexed_ok(b, oid));
                let ev2 = b.orders[oid];
                assert(b2.orders[oid] == ev2);
                if ev2.side != ev.side {
                    assert(side_of(b2, ev2.side) == side_of(b, ev2.side));
                } else {
                    assert(side_of(b2, ev2.side) == t);
                    let ls = level_index(s, ev2.price);
                    if ev2.price != ev.price {
                        assert(has_level(t, ev2.price));
                        assert(t[level_index(t, ev2.price)] == s[ls]);
                    } else {
                        assert(has_level(s, ev.price));
                        let i0 = level_index(s, ev.price);
                        assert(ls == i0);
                        assert(lt == level_index(t, ev2.price));
                        assert(t[lt].orders == s[i0].orders.push(ev));
                        lemma_count_id_push(s[i0].orders, ev, oid);
                        assert(count_id(t[lt].orders, oid) == 1);
                        assert forall|j: int|
                            0 <= j < t[lt].orders.len() && (#[trigger] t[lt].orders[j]).order_id
                                == oid implies t[lt].orders[j] == ev2 by {
                            if j < s[i0].orders.len() {
                                assert(t[lt].orders[j] == s[i0].orders[j]);
                            } else {
                                assert(t[lt].orders[j] == ev);
                            }
                        }
                    }
                }
            }
        }
        // every identifiable entry stays correctly indexed
        assert forall|i: int, j: int|
            0 <= i < t.len() && 0 <= j < t[i].orders.len() && !(#[trigger] t[i].orders[j]).spec_is_tob()
                implies b2.orders.contains_key(t[i].orders[j].order_id)
                && b2.orders[t[i].orders[j].order_id] == t[i].orders[j] by {
            let e0 = t[i].orders[j];
            if has_level(s, ev.price) {
                let i0 = level_index(s, ev.price);
                if i == i0 && j == s[i0].orders.len() {
                    assert(e0 == ev);
                    assert(b2.orders[ev.order_id] == ev);
                } else {
                    assert(e0 == s[i].orders[j]);
                    assert(b.orders.contains_key(e0.order_id) && b.orders[e0.order_id] == e0);
                    assert(e0.order_id != ev.order_id);
                }
            } else {
                lemma_insert_pos_props(s, ev.price);
                let pos = insert_pos(s, ev.price);
                if i == pos {
                    assert(e0 == ev);
                    assert(b2.orders[ev.order_id] == ev);
                } else if i < pos {
                    assert(e0 == s[i].orders[j]);
                    assert(b.orders.contains_key(e0.order_id) && b.orders[e0.order_id] == e0);
                    assert(e0.order_id != ev.order_id);
                } else {
                    assert(e0 == s[i - 1].orders[j]);
                    assert(b.orders.contains_key(e0.order_id) && b.orders[e0.order_id] == e0);
                    assert(e0.order_id != ev.order_id);
                }
            }
        }
        // the untouched side
        if ev.side == SIDE_ASK {
            assert(b2.bids == b.bids);
            lemma_side_indexed_insert_fresh(b.orders, b.bids, ev.order_id, ev);
        } else {
            assert(b2.offers == b.offers);
            lemma_side_indexed_insert_fresh(b.orders, b.offers, ev.order_id, ev);
        }
    }
}

/// One CANCEL keeps the invariants, whatever the event.
#[verifier::rlimit(50)]
proof fn lemma_cancel_inv(b: BookV, ev: MboMsg)
    requires
        book_inv(b),
    ensures
        book_inv(spec_cancel(b, ev)),
{
    if !b.orders.contains_key(ev.order_id) {
        return;
    }
    let oid = ev.order_id;
    let stored = b.orders[oid];
    assert(indexed_ok(b, oid));
    let s = side_of(b, stored.side);
    let i0 = level_index(s, stored.price);
    assert(has_level(s, stored.price));
    assert(0 <= i0 < s.len() && s[i0].price == stored.price);
    let code = stored.side;
    let other_code: u8 = if code == SIDE_ASK { SIDE_BID } else { SIDE_ASK };
    let b2 = spec_cancel(b, ev);
    let newsize: u32 = if stored.size >= ev.size {
        (stored.size - ev.size) as u32
    } else {
        stored.size
    };
    if newsize == 0 {
        let t = side_remove_order(s, stored.price, oid);
        lemma_side_remove_frame(s, stored.price, oid);
        assert(b2.orders == b.orders.remove(oid));
        assert(side_of(b2, stored.side) == t);
        if code == SIDE_ASK {
            lemma_entries_match_remove(s, stored.price, oid, SIDE_ASK);
        } else {
            lemma_entries_match_remove(s, stored.price, oid, SIDE_BID);
        }
        lemma_remove_id_props(s[i0].orders, oid);
        let rest = remove_id(s[i0].orders, oid);
        assert forall|oid2: u64| #[trigger] b2.orders.contains_key(oid2) implies indexed_ok(
            b2,
            oid2,
        ) by {
            assert(oid2 != oid);
            assert(b.orders.contains_key(oid2));
            assert(indexed_ok(b, oid2));
            let ev2 = b.orders[oid2];
            assert(b2.orders[oid2] == ev2);
            if ev2.side != stored.side {
                assert(side_of(b2, ev2.side) == side_of(b, ev2.side));
            } else {
                let ls = level_index(s, ev2.price);
                if ev2.price != stored.price {
                    assert(has_level(t, ev2.price));
                    assert(t[level_index(t, ev2.price)] == s[ls]);
                } else {
                    assert(ls == i0);
                    assert(count_id(s[i0].orders, oid2) == 1);
                    assert(count_id(rest, oid2) == 1);
                    assert(rest.len() > 0) by {
                        if rest.len() == 0 {
                            lemma_count_id_zero(rest, oid2);
                        }
                    }
                    assert(has_level(t, stored.price));
                    let lt = level_index(t, stored.price);
                    assert(t[lt] == (LevelV { price: stored.price, orders: rest }));
                    assert forall|j: int|
                        0 <= j < rest.len() && (#[trigger] rest[j]).order_id == oid2 implies rest[j]
                        == ev2 by {
                        let k = choose|k: int|
                            0 <= k < s[i0].orders.len() && s[i0].orders[k] == rest[j];
                        assert(s[i0].orders[k] == rest[j]);
                    }
                }
            }
        }
        // identifiable entries on the touched side
        assert forall|i: int, j: int|
            0 <= i < t.len() && 0 <= j < t[i].orders.len() && !(#[trigger] t[i].orders[j]).spec_is_tob()
                implies b2.orders.contains_key(t[i].orders[j].order_id)
                && b2.orders[t[i].orders[j].order_id] == t[i].orders[j] by {
            let e0 = t[i].orders[j];
            if rest.len() == 0 {
                assert(t == s.remove(i0));
                if i < i0 {
                    assert(e0 == s[i].orders[j]);
                } else {
                    assert(e0 == s[i + 1].orders[j]);
                }
                assert(b.orders.contains_key(e0.order_id) && b.orders[e0.order_id] == e0);
                assert(e0.order_id != oid) by {
                    if e0.order_id == oid {
                        assert(e0 == stored);
                        if i < i0 {
                            assert(e0.price == s[i].price);
                            assert(s[i].price < s[i0].price);
                        } else {
                            assert(e0.price == s[i + 1].price);
                            assert(s[i0].price < s[i + 1].price);
                        }
                    }
                }
            } else {
                assert(t == s.update(i0, LevelV { price: stored.price, orders: rest }));
                if i == i0 {
                    let k = choose|k: int|
                        0 <= k < s[i0].orders.len() && s[i0].orders[k] == rest[j];
                    assert(e0 == s[i0].orders[k]);
                    assert(b.orders.contains_key(e0.order_id) && b.orders[e0.order_id] == e0);
                    assert(e0.order_id != oid) by {
                        lemma_count_id_zero(rest, oid);
                    }
                } else {
                    assert(e0 == s[i].orders[j]);
                    assert(b.orders.contains_key(e0.order_id) && b.orders[e0.order_id] == e0);
                    assert(e0.order_id != oid) by {
                        if e0.order_id == oid {
                            assert(e0 == stored);
                            assert(e0.price == s[i].price);
                            assert(s[i].price != s[i0].price);
                        }
                    }
                }
            }
        }
        // the untouched side: the cancelled id rests on the other side code
        if code == SIDE_ASK {
            assert(b2.bids == b.bids);
            lemma_side_indexed_foreign(b.orders, b2.orders, b.bids, oid, SIDE_BID);
        } else {
            assert(b2.offers == b.offers);
            lemma_side_indexed_foreign(b.orders, b2.orders, b.offers, oid, SIDE_ASK);
        }
    } else {
        let upd = MboMsg { size: newsize, ..stored };
        let t = side_dec_order(s, stored.price, oid, ev.size);
        lemma_side_dec_frame(s, stored.price, oid, ev.size);
        assert(b2.orders == b.orders.insert(oid, upd));
        assert(side_of(b2, stored.side) == t);
        if code == SIDE_ASK {
            lemma_entries_match_dec(s, stored.price, oid, ev.size, SIDE_ASK);
        } else {
            lemma_entries_match_dec(s, stored.price, oid, ev.size, SIDE_BID);
        }
        let f = |o: MboMsg| dec_order(o, oid, ev.size);
        let lt = level_index(t, stored.price);
        assert(t[lt] == (LevelV { price: stored.price, orders: s[i0].orders.map_values(f) }));
        assert forall|oid2: u64| #[trigger] b2.orders.contains_key(oid2) implies indexed_ok(
            b2,
            oid2,
        ) by {
            if oid2 == oid {
                assert(b2.orders[oid] == upd);
                assert(upd.side == stored.side && upd.price == stored.price);
                lemma_count_id_map_dec(s[i0].orders, oid, ev.size, oid);
                assert(count_id(t[lt].orders, oid) == 1);
                assert forall|j: int|
                    0 <= j < t[lt].orders.len() && (#[trigger] t[lt].orders[j]).order_id == oid
                        implies t[lt].orders[j] == upd by {
                    assert(t[lt].orders[j] == f(s[i0].orders[j]));
                    assert(s[i0].orders[j].order_id == oid);
                    assert(s[i0].orders[j] == stored);
                    assert(f(stored) == upd);
                }
            } else {
                assert(b.orders.contains_key(oid2));
                assert(indexed_ok(b, oid2));
                let ev2 = b.orders[oid2];
                assert(b2.orders[oid2] == ev2);
                if ev2.side != stored.side {
                    assert(side_of(b2, ev2.side) == side_of(b, ev2.side));
                } else {
                    let ls = level_index(s, ev2.price);
                    if ev2.price != stored.price {
                        assert(has_level(t, ev2.price));
                        assert(t[level_index(t, ev2.price)] == s[ls]);
                    } else {
                        assert(ls == i0);
                        lemma_count_id_map_dec(s[i0].orders, oid, ev.size, oid2);
                        assert(count_id(t[lt].orders, oid2) == 1);
                        assert forall|j: int|
                            0 <= j < t[lt].orders.len() && (#[trigger] t[lt].orders[j]).order_id
                                == oid2 implies t[lt].orders[j] == ev2 by {
                            assert(t[lt].orders[j] == f(s[i0].orders[j]));
                            assert(s[i0].orders[j].order_id == oid2);
                            assert(s[i0].orders[j] == ev2);
                            assert(f(ev2) == ev2);
                        }
                    }
                }
            }
        }
        // identifiable entries on the touched side
        assert forall|i: int, j: int|
            0 <= i < t.len() && 0 <= j < t[i].orders.len() && !(#[trigger] t[i].orders[j]).spec_is_tob()
                implies b2.orders.contains_key(t[i].orders[j].order_id)
                && b2.orders[t[i].orders[j].order_id] == t[i].orders[j] by {
            let e0 = t[i].orders[j];
            if i == i0 {
                assert(e0 == f(s[i0].orders[j]));
                let o0 = s[i0].orders[j];
                assert(e0.spec_is_tob() == o0.spec_is_tob());
                assert(b.orders.contains_key(o0.order_id) && b.orders[o0.order_id] == o0);
                if o0.order_id == oid {
                    assert(o0 == stored);
                    assert(e0 == upd);
                    assert(b2.orders[oid] == upd);
                } else {
                    assert(e0 == o0);
                }
            } else {
                assert(t[i] == s[i]);
                assert(e0 == s[i].orders[j]);
                assert(b.orders.contains_key(e0.order_id) && b.orders[e0.order_id] == e0);
                if e0.order_id == oid {
                    assert(e0 == stored);
                    assert(e0.price == s[i].price);
                    assert(s[i].price != s[i0].price);
                    assert(false);
                }
            }
        }
        // the untouched side
        if code == SIDE_ASK {
            assert(b2.bids == b.bids);
            lemma_side_indexed_foreign(b.orders, b2.orders, b.bids, oid, SIDE_BID);
        } else {
            assert(b2.offers == b.offers);
            lemma_side_indexed_foreign(b.orders, b2.orders, b.offers, oid, SIDE_ASK);
        }
    }
}

/// One MODIFY under its admissibility clause keeps the invariants.
#[verifier::rlimit(100)]
proof fn lemma_modify_inv(b: BookV, ev: MboMsg)
    requires
        book_inv(b),
        ev.spec_is_ask() || ev.spec_is_bid(),
        b.orders.contains_key(ev.order_id) ==> no_entry_with_id(
            side_of(
                with_side(
                    b,
                    b.orders[ev.order_id].side,
                    side_remove_order(
                        side_of(b, b.orders[ev.order_id].side),
                        b.orders[ev.order_id].price,
                        ev.order_id,
                    ),
                ),
                ev.side,
            ),
            ev.price,
            ev.order_id,
        ),
        !b.orders.contains_key(ev.order_id) ==> add_ok(b, ev),
    ensures
        book_inv(spec_modify(b, ev)),
{
    if !b.orders.contains_key(ev.order_id) {
        lemma_add_inv(b, ev);
        return;
    }
    let oid = ev.order_id;
    let stored = b.orders[oid];
    assert(indexed_ok(b, oid));
    let s = side_of(b, stored.side);
    let i0 = level_index(s, stored.price);
    assert(0 <= i0 < s.len() && s[i0].price == stored.price);
    let t1 = side_remove_order(s, stored.price, oid);
    lemma_side_remove_frame(s, stored.price, oid);
    lemma_remove_id_props(s[i0].orders, oid);
    let rest = remove_id(s[i0].orders, oid);
    let b1 = with_side(b, stored.side, t1);
    if stored.side == SIDE_ASK {
        lemma_entries_match_remove(s, stored.price, oid, SIDE_ASK);
        assert(b1.bids == b.bids);
    } else {
        lemma_entries_match_remove(s, stored.price, oid, SIDE_BID);
        assert(b1.offers == b.offers);
    }
    // no identifiable entry anywhere in b1 carries the modified id, and
    // every one of them is still indexed in b.orders
    assert forall|i: int, j: int|
        0 <= i < t1.len() && 0 <= j < t1[i].orders.len() && !(#[trigger] t1[i].orders[j]).spec_is_tob()
            implies b.orders.contains_key(t1[i].orders[j].order_id)
            && b.orders[t1[i].orders[j].order_id] == t1[i].orders[j] && t1[i].orders[j].order_id
            != oid by {
        let e0 = t1[i].orders[j];
        if rest.len() == 0 {
            assert(t1 == s.remove(i0));
            if i < i0 {
                assert(e0 == s[i].orders[j]);
            } else {
                assert(e0 == s[i + 1].orders[j]);
            }
            assert(b.orders.contains_key(e0.order_id) && b.orders[e0.order_id] == e0);
            if e0.order_id == oid {
                assert(e0 == stored);
                if i < i0 {
                    assert(e0.price == s[i].price && s[i].price < s[i0].price);
                } else {
                    assert(e0.price == s[i + 1].price && s[i0].price < s[i + 1].price);
                }
            }
        } else {
            assert(t1 == s.update(i0, LevelV { price: stored.price, orders: rest }));
            if i == i0 {
                let k = choose|k: int| 0 <= k < s[i0].orders.len() && s[i0].orders[k] == rest[j];
                assert(e0 == s[i0].orders[k]);
                assert(b.orders.contains_key(e0.order_id) && b.orders[e0.order_id] == e0);
                lemma_count_id_zero(rest, oid);
            } else {
                assert(e0 == s[i].orders[j]);
                assert(b.orders.contains_key(e0.order_id) && b.orders[e0.order_id] == e0);
                if e0.order_id == oid {
                    assert(e0 == stored);
                    assert(e0.price == s[i].price && s[i].price != s[i0].price);
                }
            }
        }
    }
    let s1 = side_of(b1, ev.side);
    let t2 = side_add(s1, ev);
    lemma_side_add_frame(s1, ev);
    let b2 = spec_modify(b, ev);
    assert(b2.orders == b.orders.insert(oid, ev));
    assert(side_of(b2, ev.side) == t2);
    if ev.side == SIDE_ASK {
        assert(b2.bids == b1.bids);
        assert(side_wf(s1) && entries_match(s1, SIDE_ASK));
        lemma_entries_match_add(s1, ev, SIDE_ASK);
    } else {
        assert(b2.offers == b1.offers);
        assert(side_wf(s1) && entries_match(s1, SIDE_BID));
        lemma_entries_match_add(s1, ev, SIDE_BID);
    }
    // identifiable entries of s1 are indexed in b.orders at ids other
    // than the modified one, whichever side s1 is
    assert(forall|i: int, j: int|
        0 <= i < s1.len() && 0 <= j < s1[i].orders.len() && !(#[trigger] s1[i].orders[j]).spec_is_tob()
            ==> b.orders.contains_key(s1[i].orders[j].order_id)
            && b.orders[s1[i].orders[j].order_id] == s1[i].orders[j] && s1[i].orders[j].order_id
            != oid) by {
        if ev.side != stored.side {
            assert(s1 == side_of(b, ev.side));
            assert forall|i: int, j: int|
                0 <= i < s1.len() && 0 <= j < s1[i].orders.len() && !(#[trigger] s1[i].orders[j]).spec_is_tob()
                    implies b.orders.contains_key(s1[i].orders[j].order_id)
                    && b.orders[s1[i].orders[j].order_id] == s1[i].orders[j]
                    && s1[i].orders[j].order_id != oid by {
                let e0 = s1[i].orders[j];
                assert(b.orders.contains_key(e0.order_id) && b.orders[e0.order_id] == e0);
                if e0.order_id == oid {
                    assert(e0 == stored);
                    if ev.side == SIDE_ASK {
                        assert(e0.side == SIDE_ASK && stored.side == SIDE_BID);
                    } else {
                        assert(e0.side == SIDE_BID && stored.side == SIDE_ASK);
                    }
                }
            }
        } else {
            assert(s1 == t1);
        }
    }
    // the modified order rests exactly once at its new level, as the
    // incoming event
    let lt = level_index(t2, ev.price);
    assert(0 <= lt < t2.len() && t2[lt].price == ev.price);
    lemma_count_id_zero(Seq::<MboMsg>::empty(), oid);
    if has_level(s1, ev.price) {
        let l1 = level_index(s1, ev.price);
        assert(count_id(s1[l1].orders, oid) == 0);
        lemma_count_id_push(s1[l1].orders, ev, oid);
        assert(count_id(t2[lt].orders, oid) == 1);
    } else {
        assert(Seq::<MboMsg>::empty().push(ev) =~= seq![ev]);
        lemma_count_id_push(Seq::<MboMsg>::empty(), ev, oid);
        assert(count_id(t2[lt].orders, oid) == 1);
    }
    assert forall|oid2: u64| #[trigger] b2.orders.contains_key(oid2) implies indexed_ok(
        b2,
        oid2,
    ) by {
        if oid2 == oid {
            assert(b2.orders[oid] == ev);
            assert forall|j: int|
                0 <= j < t2[lt].orders.len() && (#[trigger] t2[lt].orders[j]).order_id == oid
                    implies t2[lt].orders[j] == ev by {
                if has_level(s1, ev.price) {
                    let l1 = level_index(s1, ev.price);
                    if j < s1[l1].orders.len() {
                        assert(t2[lt].orders[j] == s1[l1].orders[j]);
                        lemma_count_id_zero(s1[l1].orders, oid);
                    } else {
                        assert(t2[lt].orders[j] == ev);
                    }
                } else {
                    assert(t2[lt].orders == seq![ev]);
                }
            }
        } else {
            assert(b.orders.contains_key(oid2));
            assert(indexed_ok(b, oid2));
            let ev2 = b.orders[oid2];
            assert(b2.orders[oid2] == ev2);
            // its level after the removal step
            let sm = side_of(b, ev2.side);
            let lm = level_index(sm, ev2.price);
            assert(has_level(sm, ev2.price) && 0 <= lm < sm.len() && sm[lm].price == ev2.price);
            let after1 = side_of(b1, ev2.side);
            if ev2.side != stored.side {
                assert(after1 == sm);
            } else {
                assert(after1 == t1);
                if ev2.price != stored.price {
                    assert(has_level(t1, ev2.price));
                    assert(t1[level_index(t1, ev2.price)] == sm[lm]);
                } else {
                    assert(lm == i0);
                    assert(count_id(rest, oid2) == 1);
                    assert(rest.len() > 0) by {
                        if rest.len() == 0 {
                            lemma_count_id_zero(rest, oid2);
                        }
                    }
                    assert(has_level(t1, stored.price));
                    assert(t1[level_index(t1, stored.price)] == (LevelV {
                        price: stored.price,
                        orders: rest,
                    }));
                }
            }
            // in either case its level exists in b1 with count one and
            // entries equal to ev2
            assert(has_level(after1, ev2.price));
            let la = level_index(after1, ev2.price);
            assert(count_id(after1[la].orders, oid2) == 1);
            assert(forall|j: int|
                0 <= j < after1[la].orders.len() && (#[trigger] after1[la].orders[j]).order_id
                    == oid2 ==> after1[la].orders[j] == ev2) by {
                if ev2.side == stored.side && ev2.price == stored.price {
                    assert forall|j: int|
                        0 <= j < rest.len() && (#[trigger] rest[j]).order_id == oid2 implies rest[j]
                        == ev2 by {
                        let k = choose|k: int|
                            0 <= k < s[i0].orders.len() && s[i0].orders[k] == rest[j];
                        assert(s[i0].orders[k] == rest[j]);
                    }
                }
            }
            // then the add step
            if ev2.side != ev.side {
                assert(side_of(b2, ev2.side) == after1);
            } else {
                assert(side_of(b2, ev2.side) == t2);
                assert(after1 == s1);
                if ev2.price != ev.price {
                    assert(has_level(t2, ev2.price));
                    assert(t2[level_index(t2, ev2.price)] == s1[la]);
                } else {
                    assert(la == level_index(s1, ev.price));
                    assert(lt == level_index(t2, ev2.price));
                    assert(t2[lt].orders == s1[la].orders.push(ev));
                    lemma_count_id_push(s1[la].orders, ev, oid2);
                    assert(count_id(t2[lt].orders, oid2) == 1);
                    assert forall|j: int|
                        0 <= j < t2[lt].orders.len() && (#[trigger] t2[lt].orders[j]).order_id
                            == oid2 implies t2[lt].orders[j] == ev2 by {
                        if j < s1[la].orders.len() {
                            assert(t2[lt].orders[j] == s1[la].orders[j]);
                        } else {
                            assert(t2[lt].orders[j] == ev);
                        }
                    }
                }
            }
        }
    }
    // identifiable entries of the re-built side
    assert forall|i: int, j: int|
        0 <= i < t2.len() && 0 <= j < t2[i].orders.len() && !(#[trigger] t2[i].orders[j]).spec_is_tob()
            implies b2.orders.contains_key(t2[i].orders[j].order_id)
            && b2.orders[t2[i].orders[j].order_id] == t2[i].orders[j] by {
        let e0 = t2[i].orders[j];
        if has_level(s1, ev.price) {
            let l1 = level_index(s1, ev.price);
            if i == l1 && j == s1[l1].orders.len() {
                assert(e0 == ev);
                assert(b2.orders[oid] == ev);
            } else {
                assert(e0 == s1[i].orders[j]);
                assert(e0.order_id != oid);
            }
        } else {
            lemma_insert_pos_props(s1, ev.price);
            let pos = insert_pos(s1, ev.price);
            if i == pos {
                assert(e0 == ev);
                assert(b2.orders[oid] == ev);
            } else if i < pos {
                assert(e0 == s1[i].orders[j]);
                assert(e0.order_id != oid);
            } else {
                assert(e0 == s1[i - 1].orders[j]);
                assert(e0.order_id != oid);
            }
        }
    }
    // identifiable entries of the side the add step did not touch
    let u = side_of(b2, if ev.side == SIDE_ASK { SIDE_BID } else { SIDE_ASK });
    assert forall|i: int, j: int|
        0 <= i < u.len() && 0 <= j < u[i].orders.len() && !(#[trigger] u[i].orders[j]).spec_is_tob()
            implies b2.orders.contains_key(u[i].orders[j].order_id)
            && b2.orders[u[i].orders[j].order_id] == u[i].orders[j] by {
        let e0 = u[i].orders[j];
        if stored.side == ev.side {
            // that side was never touched at all
            assert(u == side_of(b, if ev.side == SIDE_ASK { SIDE_BID } else { SIDE_ASK }));
            assert(b.orders.contains_key(e0.order_id) && b.orders[e0.order_id] == e0);
            if e0.order_id == oid {
                assert(e0 == stored);
                if ev.side == SIDE_ASK {
                    assert(e0.side == SIDE_BID && stored.side == SIDE_ASK);
                } else {
                    assert(e0.side == SIDE_ASK && stored.side == SIDE_BID);
                }
            }
        } else {
            // that side is the one the removal step re-built
            assert(u == t1);
            assert(e0.order_id != oid);
        }
    }
    assert(book_inv(b2));
}

/// One step preserves the invariants on every admissible event.
pub proof fn lemma_apply_preserves_inv(b: BookV, ev: MboMsg)
    requires
        book_inv(b),
        event_ok(b, ev),
    ensures
        book_inv(spec_apply(b, ev)),
{
    if informational(ev) {
    } else if ev.spec_is_clear() {
        lemma_empty_inv();
    } else if !ev.spec_is_ask() && !ev.spec_is_bid() {
    } else if ev.spec_is_undef_price() && ev.spec_is_tob() {
        lemma_side_replace_inv(b, ev.side, Seq::empty());
    } else if ev.spec_is_add() {
        lemma_add_inv(b, ev);
    } else if ev.spec_is_cancel() {
        lemma_cancel_inv(b, ev);
    } else if ev.spec_is_modify() {
        lemma_modify_inv(b, ev);
    }
}

/// The book a sequence of events builds from a starting state.
pub open spec fn apply_all(b: BookV, evs: Seq<MboMsg>) -> BookV
    decreases evs.len(),
{
    if evs.len() == 0 {
        b
    } else {
        spec_apply(apply_all(b, evs.drop_last()), evs.last())
    }
}

/// Every event of the sequence is admissible in the state it meets.
pub open spec fn all_ok(b: BookV, evs: Seq<MboMsg>) -> bool
    decreases evs.len(),
{
    if evs.len() == 0 {
        true
    } else {
        all_ok(b, evs.drop_last()) && event_ok(apply_all(b, evs.drop_last()), evs.last())
    }
}

/// Every state reachable from the empty book by admissible events
/// satisfies the invariants.
pub proof fn lemma_reachable_inv(evs: Seq<MboMsg>)
    requires
        all_ok(BookV::empty(), evs),
    ensures
        book_inv(apply_all(BookV::empty(), evs)),
    decreases evs.len(),
{
    lemma_empty_inv();
    if evs.len() > 0 {
        lemma_reachable_inv(evs.drop_last());
        lemma_apply_preserves_inv(apply_all(BookV::empty(), evs.drop_last()), evs.last());
    }
}

} // verus!
