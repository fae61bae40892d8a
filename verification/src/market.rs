//! The market: books keyed by instrument and publisher, created lazily
//! on first use, with a cross-publisher aggregated best bid and offer.

use vstd::prelude::*;
use crate::msg::{MboMsg, PriceLevel};
use crate::level::clip_u32;
use crate::book::Book;
use crate::book_model::{BookV, book_wf, spec_apply, spec_bid_level, spec_ask_level, lemma_apply_wf};

verus! {

/// Mathematical value of one publisher's slot.
#[verifier::ext_equal]
pub ghost struct PubV {
    pub id: u16,
    pub book: BookV,
}

/// Mathematical value of one instrument's slot.
#[verifier::ext_equal]
pub ghost struct InstV {
    pub id: u32,
    pub pubs: Seq<PubV>,
}

/// Mathematical value of the whole market.
#[verifier::ext_equal]
pub ghost struct MarketV {
    pub insts: Seq<InstV>,
}

/// One publisher's book.
pub struct PubBook {
    pub publisher_id: u16,
    pub book: Book,
}

/// All publishers' books for one instrument, in order of first use.
pub struct InstrumentBooks {
    pub instrument_id: u32,
    pub books: Vec<PubBook>,
}

/// Books keyed by (instrument, publisher), in order of first use.
pub struct Market {
    pub books: Vec<InstrumentBooks>,
}

impl View for PubBook {
    type V = PubV;

    open spec fn view(&self) -> PubV {
        PubV { id: self.publisher_id, book: self.book@ }
    }
}

impl View for InstrumentBooks {
    type V = InstV;

    open spec fn view(&self) -> InstV {
        InstV { id: self.instrument_id, pubs: self.books@.map_values(|p: PubBook| p@) }
    }
}

impl View for Market {
    type V = MarketV;

    open spec fn view(&self) -> MarketV {
        MarketV { insts: self.books@.map_values(|i: InstrumentBooks| i@) }
    }
}

pub open spec fn has_inst(m: MarketV, iid: u32) -> bool {
    exists|i: int| 0 <= i < m.insts.len() && m.insts[i].id == iid
}

/// The slot of an instrument; unique under well-formedness.
pub open spec fn inst_index(m: MarketV, iid: u32) -> int {
    choose|i: int| 0 <= i < m.insts.len() && m.insts[i].id == iid
}

pub open spec fn has_pub(inst: InstV, pid: u16) -> bool {
    exists|j: int| 0 <= j < inst.pubs.len() && inst.pubs[j].id == pid
}

/// The slot of a publisher within an instrument; unique under
/// well-formedness.
pub open spec fn pub_index(inst: InstV, pid: u16) -> int {
    choose|j: int| 0 <= j < inst.pubs.len() && inst.pubs[j].id == pid
}

/// The book a (instrument, publisher) pair holds, if it was ever used.
pub open spec fn spec_book_at(m: MarketV, iid: u32, pid: u16) -> Option<BookV> {
    if has_inst(m, iid) {
        let inst = m.insts[inst_index(m, iid)];
        if has_pub(inst, pid) {
            Some(inst.pubs[pub_index(inst, pid)].book)
        } else {
            None
        }
    } else {
        None
    }
}

pub open spec fn spec_book_or_empty(m: MarketV, iid: u32, pid: u16) -> BookV {
    match spec_book_at(m, iid, pid) {
        Some(bv) => bv,
        None => BookV::empty(),
    }
}

/// The market after the (instrument, publisher) slot is made to hold
/// `bk`: existing slots are updated in place, missing ones appended.
pub open spec fn spec_set_book(m: MarketV, iid: u32, pid: u16, bk: BookV) -> MarketV {
    if has_inst(m, iid) {
        let i = inst_index(m, iid);
        let inst = m.insts[i];
        if has_pub(inst, pid) {
            let j = pub_index(inst, pid);
            MarketV {
                insts: m.insts.update(
                    i,
                    InstV { id: iid, pubs: inst.pubs.update(j, PubV { id: pid, book: bk }) },
                ),
            }
        } else {
            MarketV {
                insts: m.insts.update(
                    i,
                    InstV { id: iid, pubs: inst.pubs.push(PubV { id: pid, book: bk }) },
                ),
            }
        }
    } else {
        MarketV { insts: m.insts.push(InstV { id: iid, pubs: seq![PubV { id: pid, book: bk }] }) }
    }
}

/// Instrument ids unique, publisher ids unique within each instrument,
/// and every book well formed.
pub open spec fn market_wf(m: MarketV) -> bool {
    &&& forall|a: int, b: int|
        0 <= a < b < m.insts.len() ==> m.insts[a].id != m.insts[b].id
    &&& forall|i: int, a: int, b: int|
        0 <= i < m.insts.len() && 0 <= a < b < m.insts[i].pubs.len() ==> m.insts[i].pubs[a].id
            != m.insts[i].pubs[b].id
    &&& forall|i: int, j: int|
        0 <= i < m.insts.len() && 0 <= j < m.insts[i].pubs.len() ==> book_wf(
            #[trigger] m.insts[i].pubs[j].book,
        )
}

// ---------------------------------------------------------------------
// Cross-publisher aggregation.
// ---------------------------------------------------------------------

/// Fold one publisher's best level into the running aggregate: a better
/// price replaces it, the same price adds its size and count, a worse
/// price adds nothing. Sizes and counts are carried as unbounded
/// integers until the end.
pub open spec fn agg_combine(
    acc: Option<(i64, int, int)>,
    cur: Option<PriceLevel>,
    want_max: bool,
) -> Option<(i64, int, int)> {
    match cur {
        Option::None => acc,
        Option::Some(l) => match acc {
            Option::None => Option::Some((l.price, l.size as int, l.count as int)),
            Option::Some(a) => {
                if l.price == a.0 {
                    Option::Some((a.0, a.1 + l.size, a.2 + l.count))
                } else if (want_max && l.price > a.0) || (!want_max && l.price < a.0) {
                    Option::Some((l.price, l.size as int, l.count as int))
                } else {
                    acc
                }
            },
        },
    }
}

pub open spec fn agg_bids(pubs: Seq<PubV>) -> Option<(i64, int, int)>
    decreases pubs.len(),
{
    if pubs.len() == 0 {
        Option::None
    } else {
        agg_combine(agg_bids(pubs.drop_last()), spec_bid_level(pubs.last().book, 0), true)
    }
}

pub open spec fn agg_asks(pubs: Seq<PubV>) -> Option<(i64, int, int)>
    decreases pubs.len(),
{
    if pubs.len() == 0 {
        Option::None
    } else {
        agg_combine(agg_asks(pubs.drop_last()), spec_ask_level(pubs.last().book, 0), false)
    }
}

/// The summary an aggregate yields, its sums clamped into `u32`.
pub open spec fn agg_level(a: Option<(i64, int, int)>) -> Option<PriceLevel> {
    match a {
        Option::None => Option::None,
        Option::Some(t) => Option::Some(
            PriceLevel { price: t.0, size: clip_u32(t.1), count: clip_u32(t.2) },
        ),
    }
}

/// The aggregated best bid and offer of one instrument.
pub open spec fn spec_aggregated_bbo(m: MarketV, iid: u32) -> (
    Option<PriceLevel>,
    Option<PriceLevel>,
) {
    if has_inst(m, iid) {
        let pubs = m.insts[inst_index(m, iid)].pubs;
        (agg_level(agg_bids(pubs)), agg_level(agg_asks(pubs)))
    } else {
        (Option::None, Option::None)
    }
}

// ---------------------------------------------------------------------
// The aggregated-sum law: the winning side aggregates exactly the
// publishers standing at the winning price.
// ---------------------------------------------------------------------

/// Sum of the best-bid sizes of the publishers whose best bid stands at
/// price `p`.
pub open spec fn sum_bid_sizes_at(pubs: Seq<PubV>, p: i64) -> int
    decreases pubs.len(),
{
    if pubs.len() == 0 {
        0
    } else {
        sum_bid_sizes_at(pubs.drop_last(), p) + match spec_bid_level(pubs.last().book, 0) {
            Option::Some(l) => if l.price == p {
                l.size as int
            } else {
                0
            },
            Option::None => 0,
        }
    }
}

/// Count of contributing orders across the publishers whose best bid
/// stands at price `p`.
pub open spec fn sum_bid_counts_at(pubs: Seq<PubV>, p: i64) -> int
    decreases pubs.len(),
{
    if pubs.len() == 0 {
        0
    } else {
        sum_bid_counts_at(pubs.drop_last(), p) + match spec_bid_level(pubs.last().book, 0) {
            Option::Some(l) => if l.price == p {
                l.count as int
            } else {
                0
            },
            Option::None => 0,
        }
    }
}

/// The aggregated best bid carries the maximum best-bid price across
/// publishers, and sums size and count over exactly the publishers whose
/// best bid stands at that maximum; publishers below contribute nothing.
pub proof fn lemma_aggregated_bid_sums(pubs: Seq<PubV>)
    ensures
        agg_bids(pubs) is None ==> forall|k: int|
            0 <= k < pubs.len() ==> spec_bid_level(#[trigger] pubs[k].book, 0) is None,
        agg_bids(pubs) matches Some(a) ==> {
            &&& a.1 == sum_bid_sizes_at(pubs, a.0)
            &&& a.2 == sum_bid_counts_at(pubs, a.0)
            &&& forall|k: int|
                0 <= k < pubs.len() ==> match spec_bid_level(#[trigger] pubs[k].book, 0) {
                    Option::Some(l) => l.price <= a.0,
                    Option::None => true,
                }
            &&& exists|k: int|
                0 <= k < pubs.len() && match spec_bid_level(#[trigger] pubs[k].book, 0) {
                    Option::Some(l) => l.price == a.0,
                    Option::None => false,
                }
        },
    decreases pubs.len(),
{
    if pubs.len() > 0 {
        let p0 = pubs.drop_last();
        lemma_aggregated_bid_sums(p0);
        assert(forall|k: int| 0 <= k < p0.len() ==> p0[k] == pubs[k]);
        assert(pubs.last() == pubs[pubs.len() - 1]);
        let cur = spec_bid_level(pubs.last().book, 0);
        if agg_bids(pubs) is Some {
            let a = agg_bids(pubs)->Some_0;
            match agg_bids(p0) {
                Option::None => {
                    // the last publisher alone carries the aggregate
                    lemma_bid_sums_none(p0, a.0);
                    assert(cur is Some && cur->Some_0.price == a.0);
                    assert(spec_bid_level(pubs[pubs.len() - 1].book, 0) is Some);
                },
                Option::Some(b) => {
                    let w0 = choose|k: int|
                        0 <= k < p0.len() && match spec_bid_level(#[trigger] p0[k].book, 0) {
                            Option::Some(l) => l.price == b.0,
                            Option::None => false,
                        };
                    match cur {
                        Option::None => {
                            assert(a == b);
                            lemma_bid_sums_last_none(pubs, a.0);
                            assert(spec_bid_level(pubs[w0].book, 0) is Some);
                        },
                        Option::Some(l) => {
                            if l.price == b.0 {
                                assert(a.0 == b.0 && a.1 == b.1 + l.size && a.2 == b.2 + l.count);
                                assert(spec_bid_level(pubs[w0].book, 0) is Some);
                            } else if l.price > b.0 {
                                assert(a.0 == l.price);
                                lemma_bid_sums_above_max(p0, b.0, l.price);
                                assert(spec_bid_level(pubs[pubs.len() - 1].book, 0) is Some);
                            } else {
                                assert(a == b);
                                lemma_bid_sums_last_none(pubs, a.0);
                                assert(spec_bid_level(pubs[w0].book, 0) is Some);
                            }
                        },
                    }
                },
            }
        }
    }
}

/// With no aggregate, every per-publisher sum is zero.
proof fn lemma_bid_sums_none(pubs: Seq<PubV>, p: i64)
    requires
        agg_bids(pubs) is None,
    ensures
        sum_bid_sizes_at(pubs, p) == 0,
        sum_bid_counts_at(pubs, p) == 0,
    decreases pubs.len(),
{
    if pubs.len() > 0 {
        lemma_bid_sums_none(pubs.drop_last(), p);
    }
}

/// A publisher whose best bid misses `p` adds nothing to the sums at `p`.
proof fn lemma_bid_sums_last_none(pubs: Seq<PubV>, p: i64)
    requires
        pubs.len() > 0,
        match spec_bid_level(pubs.last().book, 0) {
            Option::Some(l) => l.price != p,
            Option::None => true,
        },
    ensures
        sum_bid_sizes_at(pubs, p) == sum_bid_sizes_at(pubs.drop_last(), p),
        sum_bid_counts_at(pubs, p) == sum_bid_counts_at(pubs.drop_last(), p),
{
}

/// No publisher stands at a price above the running maximum, so the sums
/// at any higher price are zero.
proof fn lemma_bid_sums_above_max(pubs: Seq<PubV>, maxp: i64, p: i64)
    requires
        p > maxp,
        forall|k: int|
            0 <= k < pubs.len() ==> match spec_bid_level(#[trigger] pubs[k].book, 0) {
                Option::Some(l) => l.price <= maxp,
                Option::None => true,
            },
    ensures
        sum_bid_sizes_at(pubs, p) == 0,
        sum_bid_counts_at(pubs, p) == 0,
    decreases pubs.len(),
{
    if pubs.len() > 0 {
        let p0 = pubs.drop_last();
        assert(forall|k: int| 0 <= k < p0.len() ==> p0[k] == pubs[k]);
        lemma_bid_sums_above_max(p0, maxp, p);
        assert(pubs.last() == pubs[pubs.len() - 1]);
    }
}

// ---------------------------------------------------------------------
// The executable market.
// ---------------------------------------------------------------------

/// The market after one event is routed to its (instrument, publisher)
/// book, creating the slots on demand.
pub open spec fn spec_market_apply(m: MarketV, ev: MboMsg) -> MarketV {
    spec_set_book(
        m,
        ev.hd.instrument_id,
        ev.hd.publisher_id,
        spec_apply(spec_book_or_empty(m, ev.hd.instrument_id, ev.hd.publisher_id), ev),
    )
}

/// Saturating `u32` addition: exact as long as the true sum fits.
fn sat_add_u32(a: u32, b: u32) -> (r: u32)
    ensures
        r == clip_u32(a as int + b as int),
{
    if a as u64 + b as u64 > u32::MAX as u64 {
        u32::MAX
    } else {
        a + b
    }
}

/// First slot holding the instrument, or the length when absent.
fn find_inst_pos(v: &Vec<InstrumentBooks>, iid: u32) -> (r: usize)
    ensures
        0 <= r <= v@.len(),
        forall|k: int| 0 <= k < r ==> (#[trigger] v@[k]).instrument_id != iid,
        r < v@.len() ==> v@[r as int].instrument_id == iid,
{
    let mut i: usize = 0;
    while i < v.len() && v[i].instrument_id != iid
        invariant
            0 <= i <= v@.len(),
            forall|k: int| 0 <= k < i ==> (#[trigger] v@[k]).instrument_id != iid,
        decreases v@.len() - i,
    {
        i = i + 1;
    }
    i
}

/// First slot holding the publisher, or the length when absent.
fn find_pub_pos(v: &Vec<PubBook>, pid: u16) -> (r: usize)
    ensures
        0 <= r <= v@.len(),
        forall|k: int| 0 <= k < r ==> (#[trigger] v@[k]).publisher_id != pid,
        r < v@.len() ==> v@[r as int].publisher_id == pid,
{
    let mut j: usize = 0;
    while j < v.len() && v[j].publisher_id != pid
        invariant
            0 <= j <= v@.len(),
            forall|k: int| 0 <= k < j ==> (#[trigger] v@[k]).publisher_id != pid,
        decreases v@.len() - j,
    {
        j = j + 1;
    }
    j
}

/// The running sums of an aggregate never go negative.
proof fn lemma_agg_nonneg(pubs: Seq<PubV>, want_max: bool)
    ensures
        (if want_max {
            agg_bids(pubs)
        } else {
            agg_asks(pubs)
        }) matches Some(a) ==> a.1 >= 0 && a.2 >= 0,
    decreases pubs.len(),
{
    if pubs.len() > 0 {
        lemma_agg_nonneg(pubs.drop_last(), want_max);
    }
}

/// One side of the cross-publisher aggregate.
fn agg_side_exec(pubs: &Vec<PubBook>, want_max: bool) -> (r: Option<PriceLevel>)
    ensures
        r == agg_level(
            if want_max {
                agg_bids(pubs@.map_values(|p: PubBook| p@))
            } else {
                agg_asks(pubs@.map_values(|p: PubBook| p@))
            },
        ),
{
    let ghost pv = pubs@.map_values(|p: PubBook| p@);
    let mut acc: Option<PriceLevel> = None;
    let mut k: usize = 0;
    while k < pubs.len()
        invariant
            0 <= k <= pubs@.len(),
            pv == pubs@.map_values(|p: PubBook| p@),
            acc == agg_level(
                if want_max {
                    agg_bids(pv.take(k as int))
                } else {
                    agg_asks(pv.take(k as int))
                },
            ),
        decreases pubs@.len() - k,
    {
        proof {
            assert(pv.take(k + 1).drop_last() =~= pv.take(k as int));
            assert(pv.take(k + 1).last() == pv[k as int]);
            assert(pv[k as int] == pubs@[k as int]@);
            lemma_agg_nonneg(pv.take(k as int), want_max);
        }
        let cur: Option<PriceLevel> = if want_max {
            pubs[k].book.get_bid_level(0)
        } else {
            pubs[k].book.get_ask_level(0)
        };
        match cur {
            None => {},
            Some(l) => {
                match acc {
                    None => {
                        acc = Some(l);
                    },
                    Some(best) => {
                        if l.price == best.price {
                            acc = Some(
                                PriceLevel {
                                    price: best.price,
                                    size: sat_add_u32(best.size, l.size),
                                    count: sat_add_u32(best.count, l.count),
                                },
                            );
                        } else if (want_max && l.price > best.price) || (!want_max && l.price
                            < best.price) {
                            acc = Some(l);
                        }
                    },
                }
            },
        }
        k = k + 1;
    }
    proof {
        assert(pv.take(pv.len() as int) =~= pv);
    }
    acc
}

/// Setting one slot's book to a well-formed one keeps the market well
/// formed.
pub proof fn lemma_set_book_wf(m: MarketV, iid: u32, pid: u16, bv: BookV)
    requires
        market_wf(m),
        book_wf(bv),
    ensures
        market_wf(spec_set_book(m, iid, pid, bv)),
{
    let m2 = spec_set_book(m, iid, pid, bv);
    if has_inst(m, iid) {
        let i = inst_index(m, iid);
        assert(0 <= i < m.insts.len() && m.insts[i].id == iid);
        let inst = m.insts[i];
        if has_pub(inst, pid) {
            let j = pub_index(inst, pid);
            assert(0 <= j < inst.pubs.len() && inst.pubs[j].id == pid);
            assert forall|i2: int, a: int, b: int|
                0 <= i2 < m2.insts.len() && 0 <= a < b < m2.insts[i2].pubs.len() implies m2.insts[
                i2
            ].pubs[a].id != m2.insts[i2].pubs[b].id by {
                if i2 == i {
                    assert(m2.insts[i2].pubs[a].id == inst.pubs[a].id);
                    assert(m2.insts[i2].pubs[b].id == inst.pubs[b].id);
                } else {
                    assert(m2.insts[i2] == m.insts[i2]);
                }
            }
            assert forall|i2: int, j2: int|
                0 <= i2 < m2.insts.len() && 0 <= j2 < m2.insts[i2].pubs.len() implies book_wf(
                #[trigger] m2.insts[i2].pubs[j2].book,
            ) by {
                if i2 == i {
                    if j2 != j {
                        assert(m2.insts[i2].pubs[j2] == inst.pubs[j2]);
                    }
                } else {
                    assert(m2.insts[i2] == m.insts[i2]);
                }
            }
        } else {
            assert forall|k: int| 0 <= k < inst.pubs.len() implies (#[trigger] inst.pubs[k]).id
                != pid by {
                if inst.pubs[k].id == pid {
                    assert(has_pub(inst, pid));
                }
            }
            assert forall|i2: int, a: int, b: int|
                0 <= i2 < m2.insts.len() && 0 <= a < b < m2.insts[i2].pubs.len() implies m2.insts[
                i2
            ].pubs[a].id != m2.insts[i2].pubs[b].id by {
                if i2 == i {
                    if b < inst.pubs.len() {
                        assert(m2.insts[i2].pubs[a].id == inst.pubs[a].id);
                        assert(m2.insts[i2].pubs[b].id == inst.pubs[b].id);
                    } else {
                        assert(m2.insts[i2].pubs[a].id == inst.pubs[a].id);
                        assert(m2.insts[i2].pubs[b].id == pid);
                    }
                } else {
                    assert(m2.insts[i2] == m.insts[i2]);
                }
            }
            assert forall|i2: int, j2: int|
                0 <= i2 < m2.insts.len() && 0 <= j2 < m2.insts[i2].pubs.len() implies book_wf(
                #[trigger] m2.insts[i2].pubs[j2].book,
            ) by {
                if i2 == i {
                    if j2 < inst.pubs.len() {
                        assert(m2.insts[i2].pubs[j2] == inst.pubs[j2]);
                    } else {
                        assert(m2.insts[i2].pubs[j2].book == bv);
                    }
                } else {
                    assert(m2.insts[i2] == m.insts[i2]);
                }
            }
        }
    } else {
        assert forall|k: int| 0 <= k < m.insts.len() implies (#[trigger] m.insts[k]).id != iid by {
            if m.insts[k].id == iid {
                assert(has_inst(m, iid));
            }
        }
        assert forall|i2: int, j2: int|
            0 <= i2 < m2.insts.len() && 0 <= j2 < m2.insts[i2].pubs.len() implies book_wf(
            #[trigger] m2.insts[i2].pubs[j2].book,
        ) by {
            if i2 < m.insts.len() {
                assert(m2.insts[i2] == m.insts[i2]);
            } else {
                assert(m2.insts[i2].pubs[j2].book == bv);
            }
        }
        assert forall|i2: int, a: int, b: int|
            0 <= i2 < m2.insts.len() && 0 <= a < b < m2.insts[i2].pubs.len() implies m2.insts[
            i2
        ].pubs[a].id != m2.insts[i2].pubs[b].id by {
            if i2 < m.insts.len() {
                assert(m2.insts[i2] == m.insts[i2]);
            } else {
                assert(m2.insts[i2].pubs.len() == 1);
            }
        }
    }
}

impl Market {
    pub open spec fn wf(&self) -> bool {
        market_wf(self@)
    }

    /// An empty market.
    pub fn new() -> (r: Self)
        ensures
            r@ == (MarketV { insts: Seq::<InstV>::empty() }),
            r.wf(),
    {
        let r = Market { books: Vec::new() };
        proof {
            assert(r@ =~~= (MarketV { insts: Seq::<InstV>::empty() }));
        }
        r
    }

    /// The book of one (instrument, publisher) pair, created empty on
    /// first use. The final market holds, at that pair, whatever the
    /// caller leaves in the returned book.
    pub fn get_book(&mut self, instrument_id: u32, publisher_id: u16) -> (r: &mut Book)
        requires
            old(self).wf(),
        ensures
            r@ == spec_book_or_empty(old(self)@, instrument_id, publisher_id),
            book_wf(r@),
            final(self)@ == spec_set_book(old(self)@, instrument_id, publisher_id, final(r)@),
            book_wf(final(r)@) ==> final(self).wf(),
    {
        let ghost m0 = self@;
        let i = find_inst_pos(&self.books, instrument_id);
        let created_inst = i == self.books.len();
        if created_inst {
            self.books.push(InstrumentBooks { instrument_id, books: Vec::new() });
        }
        proof {
            if created_inst {
                assert forall|k: int| 0 <= k < m0.insts.len() implies (#[trigger] m0.insts[k]).id
                    != instrument_id by {
                    assert(m0.insts[k] == old(self).books@[k]@);
                }
                assert(!has_inst(m0, instrument_id));
            } else {
                assert(m0.insts[i as int] == self.books@[i as int]@);
                assert(has_inst(m0, instrument_id));
                assert forall|k: int|
                    0 <= k < m0.insts.len() && m0.insts[k].id == instrument_id implies k
                    == i as int by {
                    if k < i {
                        assert(m0.insts[k] == self.books@[k]@);
                    } else if k > i {
                        assert(m0.insts[k] == self.books@[k]@);
                        assert(m0.insts[i as int].id == instrument_id);
                    }
                }
                assert(inst_index(m0, instrument_id) == i as int);
            }
        }
        let ghost inst0: InstV = if created_inst {
            InstV { id: instrument_id, pubs: Seq::empty() }
        } else {
            m0.insts[i as int]
        };
        proof {
            assert(self.books@[i as int]@.pubs == inst0.pubs);
        }
        let j = find_pub_pos(&self.books[i].books, publisher_id);
        let created_pub = j == self.books[i].books.len();
        if created_pub {
            let ib = &mut self.books[i];
            ib.books.push(PubBook { publisher_id, book: Book::new() });
        }
        proof {
            if created_pub {
                assert forall|k: int| 0 <= k < inst0.pubs.len() implies (#[trigger] inst0.pubs[k]).id
                    != publisher_id by {
                    assert(inst0.pubs[k] == old(self).books@[i as int].books@[k]@ || inst0.pubs[k]
                        == self.books@[i as int].books@[k]@);
                }
                assert(!has_pub(inst0, publisher_id));
            } else {
                assert(inst0.pubs[j as int].id == publisher_id);
                assert(has_pub(inst0, publisher_id));
                assert forall|k: int|
                    0 <= k < inst0.pubs.len() && inst0.pubs[k].id == publisher_id implies k
                    == j as int by {
                    if k != j {
                        assert(inst0.pubs[k] == self.books@[i as int].books@[k]@);
                        assert(inst0.pubs[j as int] == self.books@[i as int].books@[j as int]@);
                    }
                }
                assert(pub_index(inst0, publisher_id) == j as int);
            }
        }
        // the fully grown state, before the returned borrow is taken
        let ghost m1 = self@;
        proof {
            assert(self.books@[i as int].books@[j as int]@.book == spec_book_or_empty(
                m0,
                instrument_id,
                publisher_id,
            ));
            assert(book_wf(self.books@[i as int].books@[j as int].book@)) by {
                if !(created_inst || created_pub) {
                    assert(market_wf(m0));
                    assert(book_wf(m0.insts[i as int].pubs[j as int].book));
                }
            }
            // how the grown state relates to the starting one
            if created_inst {
                assert(created_pub && j == 0);
                assert(m1.insts =~~= m0.insts.push(
                    InstV {
                        id: instrument_id,
                        pubs: seq![PubV { id: publisher_id, book: BookV::empty() }],
                    },
                ));
            } else if created_pub {
                assert(m1.insts =~~= m0.insts.update(
                    i as int,
                    InstV {
                        id: instrument_id,
                        pubs: inst0.pubs.push(PubV { id: publisher_id, book: BookV::empty() }),
                    },
                ));
            } else {
                assert(m1.insts =~~= m0.insts);
            }
        }
        let r = &mut self.books[i].books[j].book;
        proof {
            // whatever book the caller leaves behind the reference, the
            // market ends as the slot-wise update of the grown state,
            // which is exactly `spec_set_book` of the starting one
            let bv = final(r)@;
            assert(after_borrow(*self)@.insts =~~= m1.insts.update(
                i as int,
                InstV {
                    id: instrument_id,
                    pubs: m1.insts[i as int].pubs.update(
                        j as int,
                        PubV { id: publisher_id, book: bv },
                    ),
                },
            ));
            if created_inst {
                assert(m1.insts[i as int].pubs.update(0, PubV { id: publisher_id, book: bv })
                    =~~= seq![PubV { id: publisher_id, book: bv }]);
                assert(after_borrow(*self)@.insts =~~= m0.insts.push(
                    InstV { id: instrument_id, pubs: seq![PubV { id: publisher_id, book: bv }] },
                ));
            } else if created_pub {
                assert(m1.insts[i as int].pubs.update(
                    j as int,
                    PubV { id: publisher_id, book: bv },
                ) =~~= inst0.pubs.push(PubV { id: publisher_id, book: bv }));
                assert(after_borrow(*self)@.insts =~~= m0.insts.update(
                    i as int,
                    InstV {
                        id: instrument_id,
                        pubs: inst0.pubs.push(PubV { id: publisher_id, book: bv }),
                    },
                ));
            } else {
                assert(after_borrow(*self)@.insts =~~= m0.insts.update(
                    i as int,
                    InstV {
                        id: instrument_id,
                        pubs: inst0.pubs.update(j as int, PubV { id: publisher_id, book: bv }),
                    },
                ));
            }
            assert(after_borrow(*self)@ =~~= spec_set_book(m0, instrument_id, publisher_id, bv));
            assert(book_wf(bv) ==> market_wf(after_borrow(*self)@)) by {
                if book_wf(bv) {
                    lemma_set_book_wf(m0, instrument_id, publisher_id, bv);
                }
            }
        }
        r
    }

    /// Best bid and offer of one (instrument, publisher) book, creating
    /// the book on demand as the lookup does.
    pub fn bbo(&mut self, instrument_id: u32, publisher_id: u16) -> (r: (
        Option<PriceLevel>,
        Option<PriceLevel>,
    ))
        requires
            old(self).wf(),
        ensures
            r.0 == spec_bid_level(spec_book_or_empty(old(self)@, instrument_id, publisher_id), 0),
            r.1 == spec_ask_level(spec_book_or_empty(old(self)@, instrument_id, publisher_id), 0),
            final(self)@ == spec_set_book(
                old(self)@,
                instrument_id,
                publisher_id,
                spec_book_or_empty(old(self)@, instrument_id, publisher_id),
            ),
            final(self).wf(),
    {
        let b = self.get_book(instrument_id, publisher_id);
        b.bbo()
    }

    /// Route one event to its book, creating the book on demand.
    pub fn apply(&mut self, mbo: &MboMsg)
        requires
            old(self).wf(),
        ensures
            final(self)@ == spec_market_apply(old(self)@, *mbo),
            final(self).wf(),
    {
        let instrument_id = mbo.instrument_id();
        let publisher_id = mbo.publisher_id();
        let b = self.get_book(instrument_id, publisher_id);
        proof {
            lemma_apply_wf(b@, *mbo);
        }
        b.apply(mbo);
    }

    /// The cross-publisher aggregated best bid and offer of one
    /// instrument.
    pub fn aggregated_bbo(&self, instrument_id: u32) -> (r: (
        Option<PriceLevel>,
        Option<PriceLevel>,
    ))
        requires
            self.wf(),
        ensures
            r == spec_aggregated_bbo(self@, instrument_id),
    {
        let i = find_inst_pos(&self.books, instrument_id);
        if i == self.books.len() {
            proof {
                assert forall|k: int| 0 <= k < self@.insts.len() implies (#[trigger] self@.insts[k]).id
                    != instrument_id by {
                    assert(self@.insts[k] == self.books@[k]@);
                }
                assert(!has_inst(self@, instrument_id));
            }
            (None, None)
        } else {
            proof {
                assert(self@.insts[i as int] == self.books@[i as int]@);
                assert(has_inst(self@, instrument_id));
                assert forall|k: int|
                    0 <= k < self@.insts.len() && self@.insts[k].id == instrument_id implies k
                    == i as int by {
                    if k < i {
                        assert(self@.insts[k] == self.books@[k]@);
                    } else if k > i {
                        assert(self@.insts[k].id != self@.insts[i as int].id);
                    }
                }
                assert(inst_index(self@, instrument_id) == i as int);
            }
            let bid = agg_side_exec(&self.books[i].books, true);
            let ask = agg_side_exec(&self.books[i].books, false);
            proof {
                assert(self.books@[i as int].books@.map_values(|p: PubBook| p@) == self@.insts[
                    i as int
                ].pubs);
            }
            (bid, ask)
        }
    }
}

} // verus!
