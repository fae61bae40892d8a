use mbo_book::msg::{MboMsg, RecordHeader, PriceLevel, BidAskPair, FLAG_TOB, UNDEF_PRICE};
use mbo_book::book::Book;
use mbo_book::level::LevelOrders;

fn ev(action: u8, side: u8, oid: u64, price: i64, size: u32) -> MboMsg {
    MboMsg {
        hd: RecordHeader { rtype: 160, publisher_id: 1, instrument_id: 7, ts_event: 0 },
        order_id: oid,
        price,
        size,
        flags: 0,
        channel_id: 0,
        action,
        side,
        ts_recv: 0,
        ts_in_delta: 0,
        sequence: 0,
    }
}

const A: u8 = b'A';
const C: u8 = b'C';
const M: u8 = b'M';
const R: u8 = b'R';
const T: u8 = b'T';
const F: u8 = b'F';
const N: u8 = b'N';
const BID: u8 = b'B';
const ASK: u8 = b'A';

#[test]
fn single_add_then_cancel() {
    let mut b = Book::new();
    b.apply(&ev(A, BID, 1, 100, 5));
    b.apply(&ev(C, BID, 1, 100, 5));
    assert!(b.get_order(1).is_none());
    assert_eq!(b.bbo(), (None, None));
    assert!(b.orders_by_id.is_empty());
    assert!(b.bids.is_empty());
    assert!(b.offers.is_empty());
}

#[test]
fn price_time_fifo_within_level() {
    let mut b = Book::new();
    b.apply(&ev(A, BID, 1, 100, 3));
    b.apply(&ev(A, BID, 2, 100, 7));
    let best = b.get_bid_level(0).unwrap();
    assert_eq!(best, PriceLevel { price: 100, size: 10, count: 2 });
    assert_eq!(b.bids.len(), 1);
    let ids: Vec<u64> = b.bids[0].orders.iter().map(|o| o.order_id).collect();
    assert_eq!(ids, vec![1, 2]);
}

#[test]
fn modify_across_price() {
    let mut b = Book::new();
    b.apply(&ev(A, BID, 1, 100, 3));
    b.apply(&ev(A, BID, 2, 100, 7));
    b.apply(&ev(M, BID, 1, 101, 3));
    assert_eq!(b.get_bid_level(0).unwrap(), PriceLevel { price: 101, size: 3, count: 1 });
    assert_eq!(b.get_bid_level(1).unwrap(), PriceLevel { price: 100, size: 7, count: 1 });
    assert_eq!(b.get_order(1).unwrap().price, 101);
}

#[test]
fn partial_cancel() {
    let mut b = Book::new();
    b.apply(&ev(A, ASK, 5, 200, 10));
    b.apply(&ev(C, ASK, 5, 200, 4));
    assert_eq!(b.get_order(5).unwrap().size, 6);
    assert_eq!(b.get_ask_level(0).unwrap(), PriceLevel { price: 200, size: 6, count: 1 });
}

#[test]
fn side_clear_via_tob_undef() {
    let mut b = Book::new();
    b.apply(&ev(A, ASK, 1, 200, 1));
    b.apply(&ev(A, BID, 2, 150, 4));
    let mut clear_side = ev(A, ASK, 0, UNDEF_PRICE, 0);
    clear_side.flags = FLAG_TOB;
    b.apply(&clear_side);
    assert!(b.offers.is_empty());
    assert_eq!(b.get_bid_level(0).unwrap(), PriceLevel { price: 150, size: 4, count: 1 });
}

#[test]
fn informational_events_leave_book_identical() {
    let mut b = Book::new();
    b.apply(&ev(A, BID, 1, 100, 3));
    b.apply(&ev(A, ASK, 2, 105, 4));
    let mut b2 = Book::new();
    b2.apply(&ev(A, BID, 1, 100, 3));
    b2.apply(&ev(A, ASK, 2, 105, 4));
    b2.apply(&ev(T, BID, 9, 100, 1));
    b2.apply(&ev(F, ASK, 9, 105, 1));
    b2.apply(&ev(N, BID, 9, 100, 1));
    assert_eq!(b, b2);
}

#[test]
fn clear_empties_everything() {
    let mut b = Book::new();
    b.apply(&ev(A, BID, 1, 100, 3));
    b.apply(&ev(A, ASK, 2, 105, 4));
    b.apply(&ev(R, BID, 0, 0, 0));
    assert!(b.orders_by_id.is_empty());
    assert!(b.bids.is_empty());
    assert!(b.offers.is_empty());
}

#[test]
fn clear_is_idempotent() {
    let mut b = Book::new();
    b.apply(&ev(A, BID, 1, 100, 3));
    b.apply(&ev(R, BID, 0, 0, 0));
    let mut b2 = Book::new();
    b2.apply(&ev(A, BID, 1, 100, 3));
    b2.apply(&ev(R, BID, 0, 0, 0));
    b2.apply(&ev(R, BID, 0, 0, 0));
    assert_eq!(b, b2);
}

#[test]
fn add_indexes_the_event() {
    let mut b = Book::new();
    let e = ev(A, BID, 42, 99, 8);
    b.apply(&e);
    assert_eq!(*b.get_order(42).unwrap(), e);
}

#[test]
fn add_then_full_cancel_restores_prior_book() {
    let mut b = Book::new();
    b.apply(&ev(A, BID, 1, 100, 3));
    b.apply(&ev(A, ASK, 2, 105, 4));
    let mut b2 = Book::new();
    b2.apply(&ev(A, BID, 1, 100, 3));
    b2.apply(&ev(A, ASK, 2, 105, 4));
    b2.apply(&ev(A, BID, 3, 100, 6));
    b2.apply(&ev(C, BID, 3, 100, 6));
    assert_eq!(b, b2);
}

#[test]
fn cancel_unknown_id_is_dropped() {
    let mut b = Book::new();
    b.apply(&ev(A, BID, 1, 100, 3));
    let mut b2 = Book::new();
    b2.apply(&ev(A, BID, 1, 100, 3));
    b2.apply(&ev(C, BID, 99, 100, 3));
    assert_eq!(b, b2);
}

#[test]
fn cancel_larger_than_stored_leaves_size() {
    let mut b = Book::new();
    b.apply(&ev(A, ASK, 5, 200, 3));
    b.apply(&ev(C, ASK, 5, 200, 10));
    assert_eq!(b.get_order(5).unwrap().size, 3);
    assert_eq!(b.get_ask_level(0).unwrap(), PriceLevel { price: 200, size: 3, count: 1 });
}

#[test]
fn modify_unknown_id_is_an_add() {
    let mut b = Book::new();
    b.apply(&ev(M, BID, 7, 103, 2));
    assert_eq!(b.get_order(7).unwrap().price, 103);
    assert_eq!(b.get_bid_level(0).unwrap(), PriceLevel { price: 103, size: 2, count: 1 });
}

#[test]
fn tob_overlay_replaces_side_and_skips_index() {
    let mut b = Book::new();
    b.apply(&ev(A, BID, 1, 100, 3));
    let mut tob = ev(A, BID, 8, 101, 9);
    tob.flags = FLAG_TOB;
    b.apply(&tob);
    // overlay replaces the whole side with one level and stays out of the
    // id index; its count excludes the overlay entry
    assert!(b.get_order(8).is_none());
    assert_eq!(b.get_bid_level(0).unwrap(), PriceLevel { price: 101, size: 9, count: 0 });
    assert!(b.get_bid_level(1).is_none());
}

#[test]
fn unknown_side_is_dropped() {
    let mut b = Book::new();
    b.apply(&ev(A, BID, 1, 100, 3));
    let mut b2 = Book::new();
    b2.apply(&ev(A, BID, 1, 100, 3));
    b2.apply(&ev(A, N, 2, 105, 4));
    assert_eq!(b, b2);
}

#[test]
fn snapshot_rows_zero_filled() {
    let mut b = Book::new();
    b.apply(&ev(A, BID, 1, 100, 3));
    b.apply(&ev(A, BID, 2, 99, 5));
    b.apply(&ev(A, ASK, 3, 105, 7));
    let rows = b.get_snapshot(3);
    assert_eq!(rows.len(), 3);
    assert_eq!(
        rows[0],
        BidAskPair { bid_px: 100, bid_sz: 3, bid_ct: 1, ask_px: 105, ask_sz: 7, ask_ct: 1 }
    );
    assert_eq!(
        rows[1],
        BidAskPair { bid_px: 99, bid_sz: 5, bid_ct: 1, ask_px: 0, ask_sz: 0, ask_ct: 0 }
    );
    assert_eq!(rows[2], BidAskPair::new());
}

#[test]
fn depth_is_best_first() {
    let mut b = Book::new();
    b.apply(&ev(A, BID, 1, 100, 3));
    b.apply(&ev(A, BID, 2, 99, 5));
    b.apply(&ev(A, ASK, 3, 105, 7));
    b.apply(&ev(A, ASK, 4, 106, 2));
    let (bids, asks) = b.get_depth(5);
    assert_eq!(
        bids,
        vec![
            PriceLevel { price: 100, size: 3, count: 1 },
            PriceLevel { price: 99, size: 5, count: 1 }
        ]
    );
    assert_eq!(
        asks,
        vec![
            PriceLevel { price: 105, size: 7, count: 1 },
            PriceLevel { price: 106, size: 2, count: 1 }
        ]
    );
}

/// The book invariants, checked concretely on a state built by a mix of
/// events: every indexed order rests exactly once at its level, levels
/// are sorted with no empty one, and each level's summary matches its
/// entries.
#[test]
fn invariants_hold_on_concrete_run() {
    let mut b = Book::new();
    b.apply(&ev(A, BID, 1, 100, 3));
    b.apply(&ev(A, BID, 2, 100, 7));
    b.apply(&ev(A, BID, 3, 98, 1));
    b.apply(&ev(A, ASK, 4, 105, 2));
    b.apply(&ev(M, BID, 1, 99, 3));
    b.apply(&ev(C, BID, 2, 100, 2));
    b.apply(&ev(T, BID, 9, 100, 1));
    for (oid, o) in b.orders_by_id.iter() {
        let side = if o.side == ASK { &b.offers } else { &b.bids };
        let lvl = side.iter().find(|l| l.price == o.price).expect("level exists");
        let with_id: Vec<_> = lvl.orders.iter().filter(|e| e.order_id == *oid).collect();
        assert_eq!(with_id.len(), 1);
        assert_eq!(with_id[0], o);
    }
    for side in [&b.bids, &b.offers] {
        for w in side.windows(2) {
            assert!(w[0].price < w[1].price);
        }
        for l in side.iter() {
            assert!(!l.orders.is_empty());
            let lv = l.level();
            assert_eq!(lv.size as u64, l.orders.iter().map(|o| o.size as u64).sum::<u64>());
            assert_eq!(lv.count as usize, l.orders.iter().filter(|o| !o.is_tob()).count());
        }
    }
}

#[test]
fn level_summary_excludes_overlay_from_count() {
    let mut l = LevelOrders::new(100);
    l.orders.push(ev(A, BID, 1, 100, 3));
    let mut tob = ev(A, BID, 2, 100, 9);
    tob.flags = FLAG_TOB;
    l.orders.push(tob);
    assert!(!l.is_empty());
    let s = l.level();
    assert_eq!(s, PriceLevel { price: 100, size: 12, count: 1 });
}

#[test]
fn level_summary_saturates_instead_of_overflowing() {
    let mut l = LevelOrders::new(100);
    l.orders.push(ev(A, BID, 1, 100, u32::MAX));
    l.orders.push(ev(A, BID, 2, 100, 10));
    let s = l.level();
    assert_eq!(s, PriceLevel { price: 100, size: u32::MAX, count: 2 });
}

#[test]
fn record_predicates() {
    let mut e = ev(A, BID, 1, 100, 3);
    e.flags = FLAG_TOB | 128;
    assert!(e.is_add() && !e.is_cancel() && !e.is_modify());
    assert!(!e.is_clear() && !e.is_trade() && !e.is_fill());
    assert!(e.is_bid() && !e.is_ask());
    assert!(e.is_last() && e.is_tob());
    assert!(!e.is_undef_price());
    assert_eq!(e.action_char(), 'A');
    assert_eq!(e.side_char(), 'B');
    assert_eq!(e.instrument_id(), 7);
    assert_eq!(e.publisher_id(), 1);
    assert_eq!(e.ts_event(), 0);
    assert_eq!(PriceLevel::new(55), PriceLevel { price: 55, size: 0, count: 0 });
    assert_eq!(BidAskPair::new(), BidAskPair::default());
}
