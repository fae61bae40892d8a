//! Record model: the event header, the market-by-order event, and the two
//! flat summary records (a price level and a bid/ask snapshot row), with
//! the predicates over the action, side and flag encodings.

use vstd::prelude::*;

verus! {

// Action codes (ASCII byte values).
pub const ACTION_ADD: u8 = 65;
pub const ACTION_CANCEL: u8 = 67;
pub const ACTION_MODIFY: u8 = 77;
pub const ACTION_CLEAR: u8 = 82;
pub const ACTION_TRADE: u8 = 84;
pub const ACTION_FILL: u8 = 70;
pub const ACTION_NONE: u8 = 78;

// Side codes (ASCII byte values).
pub const SIDE_ASK: u8 = 65;
pub const SIDE_BID: u8 = 66;
pub const SIDE_NONE: u8 = 78;

// Flag bits.
pub const FLAG_LAST: u8 = 128;
pub const FLAG_TOB: u8 = 64;

// Sentinel for an undefined fixed-point price.
pub const UNDEF_PRICE: i64 = i64::MAX;

/// Common header of every record in the feed.
#[derive(Clone, Copy, Debug, PartialEq, Eq, Structural)]
pub struct RecordHeader {
    pub rtype: u8,
    pub publisher_id: u16,
    pub instrument_id: u32,
    pub ts_event: u64,
}

/// One market-by-order event. `price` is a fixed-point integer with scale
/// 10^9; `UNDEF_PRICE` means the price is undefined. `action` and `side`
/// are ASCII byte codes; `flags` is a bitmask.
#[derive(Clone, Copy, Debug, PartialEq, Eq, Structural)]
pub struct MboMsg {
    pub hd: RecordHeader,
    pub order_id: u64,
    pub price: i64,
    pub size: u32,
    pub flags: u8,
    pub channel_id: u8,
    pub action: u8,
    pub side: u8,
    pub ts_recv: u64,
    pub ts_in_delta: i32,
    pub sequence: u32,
}

impl MboMsg {
    pub open spec fn spec_is_add(&self) -> bool {
        self.action == ACTION_ADD
    }

    pub open spec fn spec_is_cancel(&self) -> bool {
        self.action == ACTION_CANCEL
    }

    pub open spec fn spec_is_modify(&self) -> bool {
        self.action == ACTION_MODIFY
    }

    pub open spec fn spec_is_clear(&self) -> bool {
        self.action == ACTION_CLEAR
    }

    pub open spec fn spec_is_trade(&self) -> bool {
        self.action == ACTION_TRADE
    }

    pub open spec fn spec_is_fill(&self) -> bool {
        self.action == ACTION_FILL
    }

    pub open spec fn spec_is_bid(&self) -> bool {
        self.side == SIDE_BID
    }

    pub open spec fn spec_is_ask(&self) -> bool {
        self.side == SIDE_ASK
    }

    pub open spec fn spec_is_last(&self) -> bool {
        self.flags & FLAG_LAST != 0
    }

    pub open spec fn spec_is_tob(&self) -> bool {
        self.flags & FLAG_TOB != 0
    }

    pub open spec fn spec_is_undef_price(&self) -> bool {
        self.price == UNDEF_PRICE
    }

    pub fn action_char(&self) -> (r: char)
        ensures
            r == self.action as char,
    {
        self.action as char
    }

    pub fn side_char(&self) -> (r: char)
        ensures
            r == self.side as char,
    {
        self.side as char
    }

    #[verifier::when_used_as_spec(spec_is_add)]
    pub fn is_add(&self) -> (r: bool)
        ensures
            r == self.spec_is_add(),
    {
        self.action == ACTION_ADD
    }

    #[verifier::when_used_as_spec(spec_is_cancel)]
    pub fn is_cancel(&self) -> (r: bool)
        ensures
            r == self.spec_is_cancel(),
    {
        self.action == ACTION_CANCEL
    }

    #[verifier::when_used_as_spec(spec_is_modify)]
    pub fn is_modify(&self) -> (r: bool)
        ensures
            r == self.spec_is_modify(),
    {
        self.action == ACTION_MODIFY
    }

    #[verifier::when_used_as_spec(spec_is_clear)]
    pub fn is_clear(&self) -> (r: bool)
        ensures
            r == self.spec_is_clear(),
    {
        self.action == ACTION_CLEAR
    }

    #[verifier::when_used_as_spec(spec_is_trade)]
    pub fn is_trade(&self) -> (r: bool)
        ensures
            r == self.spec_is_trade(),
    {
        self.action == ACTION_TRADE
    }

    #[verifier::when_used_as_spec(spec_is_fill)]
    pub fn is_fill(&self) -> (r: bool)
        ensures
            r == self.spec_is_fill(),
    {
        self.action == ACTION_FILL
    }

    #[verifier::when_used_as_spec(spec_is_bid)]
    pub fn is_bid(&self) -> (r: bool)
        ensures
            r == self.spec_is_bid(),
    {
        self.side == SIDE_BID
    }

    #[verifier::when_used_as_spec(spec_is_ask)]
    pub fn is_ask(&self) -> (r: bool)
        ensures
            r == self.spec_is_ask(),
    {
        self.side == SIDE_ASK
    }

    #[verifier::when_used_as_spec(spec_is_last)]
    pub fn is_last(&self) -> (r: bool)
        ensures
            r == self.spec_is_last(),
    {
        self.flags & FLAG_LAST != 0
    }

    #[verifier::when_used_as_spec(spec_is_tob)]
    pub fn is_tob(&self) -> (r: bool)
        ensures
            r == self.spec_is_tob(),
    {
        self.flags & FLAG_TOB != 0
    }

    #[verifier::when_used_as_spec(spec_is_undef_price)]
    pub fn is_undef_price(&self) -> (r: bool)
        ensures
            r == self.spec_is_undef_price(),
    {
        self.price == UNDEF_PRICE
    }

    pub fn instrument_id(&self) -> (r: u32)
        ensures
            r == self.hd.instrument_id,
    {
        self.hd.instrument_id
    }

    pub fn publisher_id(&self) -> (r: u16)
        ensures
            r == self.hd.publisher_id,
    {
        self.hd.publisher_id
    }

    pub fn ts_event(&self) -> (r: u64)
        ensures
            r == self.hd.ts_event,
    {
        self.hd.ts_event
    }
}

/// Per-price summary of one side of a book: total resting size and the
/// number of contributing identifiable (non-overlay) orders.
#[derive(Clone, Copy, Debug, PartialEq, Eq, Structural)]
pub struct PriceLevel {
    pub price: i64,
    pub size: u32,
    pub count: u32,
}

impl PriceLevel {
    pub fn new(price: i64) -> (r: Self)
        ensures
            r == (PriceLevel { price, size: 0u32, count: 0u32 }),
    {
        PriceLevel { price, size: 0, count: 0 }
    }
}

/// One snapshot row: the i-th bid and ask levels side by side. A side
/// shallower than the row's depth is left zero-initialized.
#[derive(Clone, Copy, Debug, PartialEq, Eq, Structural)]
pub struct BidAskPair {
    pub bid_px: i64,
    pub bid_sz: u32,
    pub bid_ct: u32,
    pub ask_px: i64,
    pub ask_sz: u32,
    pub ask_ct: u32,
}

impl BidAskPair {
    /// The zero-initialized row, meaning "both sides empty".
    pub fn new() -> (r: Self)
        ensures
            r == BidAskPair::spec_empty(),
    {
        BidAskPair { bid_px: 0, bid_sz: 0, bid_ct: 0, ask_px: 0, ask_sz: 0, ask_ct: 0 }
    }

    pub open spec fn spec_empty() -> Self {
        BidAskPair { bid_px: 0i64, bid_sz: 0u32, bid_ct: 0u32, ask_px: 0i64, ask_sz: 0u32, ask_ct: 0u32 }
    }
}

impl Default for BidAskPair {
    fn default() -> (r: Self)
        ensures
            r == BidAskPair::spec_empty(),
    {
        BidAskPair::new()
    }
}

} // verus!
