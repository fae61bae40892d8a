use mbo_book::msg::{MboMsg, RecordHeader, PriceLevel};
use mbo_book::market::Market;
use mbo_book::tail::{TailCache, TAIL_CAPACITY};

fn ev_at(instrument: u32, publisher: u16, action: u8, side: u8, oid: u64, price: i64, size: u32) -> MboMsg {
    MboMsg {
        hd: RecordHeader { rtype: 160, publisher_id: publisher, instrument_id: instrument, ts_event: 0 },
        order_id: oid,
        price,
        size,
        flags: 0,
        channel_id: 0,
        action,
        side,
        ts_recv: 0,
        ts_in_delta: 0,
        sequence: 0,
    }
}

fn seq_ev(sequence: u32) -> MboMsg {
    let mut e = ev_at(7, 1, b'A', b'B', sequence as u64, 100, 1);
    e.sequence = sequence;
    e
}

#[test]
fn aggregated_bbo_sums_at_winning_price() {
    let mut m = Market::new();
    // publisher 1: best bid {p=100, s=3, c=1}
    m.apply(&ev_at(7, 1, b'A', b'B', 1, 100, 3));
    // publisher 2: best bid {p=100, s=4, c=2}
    m.apply(&ev_at(7, 2, b'A', b'B', 2, 100, 1));
    m.apply(&ev_at(7, 2, b'A', b'B', 3, 100, 3));
    let (bid, ask) = m.aggregated_bbo(7);
    assert_eq!(bid, Some(PriceLevel { price: 100, size: 7, count: 3 }));
    assert_eq!(ask, None);
}

#[test]
fn aggregated_bbo_ignores_lower_publishers() {
    let mut m = Market::new();
    m.apply(&ev_at(7, 1, b'A', b'B', 1, 100, 3));
    m.apply(&ev_at(7, 2, b'A', b'B', 2, 99, 8));
    m.apply(&ev_at(7, 1, b'A', b'A', 3, 105, 2));
    m.apply(&ev_at(7, 2, b'A', b'A', 4, 104, 6));
    let (bid, ask) = m.aggregated_bbo(7);
    // publisher 2's lower bid is not stacked below; the min ask wins
    assert_eq!(bid, Some(PriceLevel { price: 100, size: 3, count: 1 }));
    assert_eq!(ask, Some(PriceLevel { price: 104, size: 6, count: 1 }));
}

#[test]
fn aggregated_bbo_unknown_instrument_is_empty() {
    let m = Market::new();
    assert_eq!(m.aggregated_bbo(123), (None, None));
}

#[test]
fn market_routes_by_instrument_and_publisher() {
    let mut m = Market::new();
    m.apply(&ev_at(7, 1, b'A', b'B', 1, 100, 3));
    m.apply(&ev_at(8, 1, b'A', b'B', 2, 50, 4));
    let (bid7, _) = m.bbo(7, 1);
    let (bid8, _) = m.bbo(8, 1);
    let (bid_other, ask_other) = m.bbo(7, 2);
    assert_eq!(bid7, Some(PriceLevel { price: 100, size: 3, count: 1 }));
    assert_eq!(bid8, Some(PriceLevel { price: 50, size: 4, count: 1 }));
    assert_eq!((bid_other, ask_other), (None, None));
    let book = m.get_book(7, 1);
    assert_eq!(book.get_order(1).unwrap().size, 3);
    book.apply(&ev_at(7, 1, b'C', b'B', 1, 100, 1));
    assert_eq!(m.get_book(7, 1).get_order(1).unwrap().size, 2);
}

#[test]
fn tail_cache_fills_then_wraps() {
    let mut c = TailCache::new();
    for i in 0..5usize {
        c.put(i, seq_ev(i as u32));
    }
    assert_eq!(c.snapshot().len(), 5);

    let mut c2 = TailCache::new();
    for i in 0..(TAIL_CAPACITY + 5) {
        c2.put(i, seq_ev(i as u32));
    }
    let snap = c2.snapshot();
    assert_eq!(snap.len(), TAIL_CAPACITY);
    // the five oldest were overwritten in place
    assert!(snap.iter().all(|m| m.sequence >= 5));
}

#[test]
fn tail_snapshot_sorted_by_sequence() {
    let mut c = TailCache::new();
    let seqs = [9u32, 3, 27, 14, 1, 22];
    for (i, s) in seqs.iter().enumerate() {
        c.put(i, seq_ev(*s));
    }
    let snap = c.snapshot();
    assert_eq!(snap.len(), seqs.len());
    let got: Vec<u32> = snap.iter().map(|m| m.sequence).collect();
    assert_eq!(got, vec![1, 3, 9, 14, 22, 27]);
}

#[test]
fn tail_put_overwrites_its_slot() {
    let mut c = TailCache::new();
    c.put(3, seq_ev(10));
    c.put(3 + TAIL_CAPACITY, seq_ev(11));
    let snap = c.snapshot();
    assert_eq!(snap.len(), 1);
    assert_eq!(snap[0].sequence, 11);
}
