//! A price level as a bucket of contributing orders, in arrival order,
//! and its summary aggregate (total size, count of non-overlay orders).

use vstd::prelude::*;
use crate::msg::{MboMsg, PriceLevel};

verus! {

/// Mathematical value of a `LevelOrders`: the price and the sequence of
/// resting events, in arrival order.
#[verifier::ext_equal]
pub ghost struct LevelV {
    pub price: i64,
    pub orders: Seq<MboMsg>,
}

/// Orders resting at one price, in arrival order (price-time priority).
#[derive(Debug, Clone, PartialEq)]
pub struct LevelOrders {
    pub price: i64,
    pub orders: Vec<MboMsg>,
}

impl View for LevelOrders {
    type V = LevelV;

    open spec fn view(&self) -> LevelV {
        LevelV { price: self.price, orders: self.orders@ }
    }
}

/// Sum of the sizes of a sequence of orders, as an unbounded integer.
pub open spec fn sum_sizes(s: Seq<MboMsg>) -> int
    decreases s.len(),
{
    if s.len() == 0 {
        0
    } else {
        sum_sizes(s.drop_last()) + s.last().size
    }
}

/// Number of identifiable (non-overlay) orders in a sequence.
pub open spec fn count_non_tob(s: Seq<MboMsg>) -> int
    decreases s.len(),
{
    if s.len() == 0 {
        0
    } else {
        count_non_tob(s.drop_last()) + if s.last().spec_is_tob() { 0int } else { 1int }
    }
}

/// Clamp a non-negative integer into `u32`, the width the summary record
/// carries. Exact whenever the value fits.
pub open spec fn clip_u32(x: int) -> u32 {
    if x > u32::MAX { u32::MAX } else if x < 0 { 0u32 } else { x as u32 }
}

/// The summary a level contributes to the book's top-of-book views.
pub open spec fn level_of(lv: LevelV) -> PriceLevel {
    PriceLevel {
        price: lv.price,
        size: clip_u32(sum_sizes(lv.orders)),
        count: clip_u32(count_non_tob(lv.orders)),
    }
}

pub proof fn lemma_sum_sizes_nonneg(s: Seq<MboMsg>)
    ensures
        sum_sizes(s) >= 0,
        count_non_tob(s) >= 0,
    decreases s.len(),
{
    if s.len() > 0 {
        lemma_sum_sizes_nonneg(s.drop_last());
    }
}

impl LevelOrders {
    /// A fresh, empty level at the given price.
    pub fn new(price: i64) -> (r: Self)
        ensures
            r@ == (LevelV { price, orders: Seq::<MboMsg>::empty() }),
    {
        let r = LevelOrders { price, orders: Vec::new() };
        proof {
            assert(r@ =~= LevelV { price, orders: Seq::<MboMsg>::empty() });
        }
        r
    }

    pub fn is_empty(&self) -> (r: bool)
        ensures
            r == (self@.orders.len() == 0),
    {
        self.orders.len() == 0
    }

    /// The level's aggregate: total resting size and the number of
    /// non-overlay orders, each clamped into `u32`.
    pub fn level(&self) -> (r: PriceLevel)
        ensures
            r == level_of(self@),
    {
        let mut size: u32 = 0;
        let mut count: u32 = 0;
        let mut i: usize = 0;
        while i < self.orders.len()
            invariant
                0 <= i <= self.orders.len(),
                size == clip_u32(sum_sizes(self.orders@.take(i as int))),
                count == clip_u32(count_non_tob(self.orders@.take(i as int))),
            decreases self.orders.len() - i,
        {
            let o = self.orders[i];
            proof {
                assert(self.orders@.take(i + 1).drop_last() =~= self.orders@.take(i as int));
                assert(self.orders@.take(i + 1).last() == self.orders@[i as int]);
                lemma_sum_sizes_nonneg(self.orders@.take(i as int));
            }
            size = if size as u64 + o.size as u64 > u32::MAX as u64 {
                u32::MAX
            } else {
                size + o.size
            };
            if !o.is_tob() {
                count = if count == u32::MAX { u32::MAX } else { count + 1 };
            }
            i = i + 1;
        }
        proof {
            assert(self.orders@.take(self.orders@.len() as int) =~= self.orders@);
        }
        PriceLevel { price: self.price, size, count }
    }
}

} // verus!
