//! Event-driven statistics dispatch: interprets `Key` events to select the
//! field being read and accumulates the integer trade counter. Floating-point
//! accumulators (prices, volumes) are the caller's concern; this module owns
//! the field-selection rule and the exact counter arithmetic.

use vstd::prelude::*;

verus! {

/// Which accumulator the next scalar value belongs to. Unknown keys park the
/// cursor in `Unknown`, where values are ignored.
#[derive(Clone, Copy, Debug, PartialEq, Eq, Structural)]
pub enum CurrentField {
    Unknown,
    LastPrice,
    LastQty,
    TotalVolume,
    TotalAmount,
    MaxBidPrice,
    MinAskPrice,
    TotalTradeCount,
}

/// The field a record key selects.
pub open spec fn spec_field_for_key(k: Seq<char>) -> CurrentField {
    if k == "lastPrice"@ {
        CurrentField::LastPrice
    } else if k == "lastQty"@ {
        CurrentField::LastQty
    } else if k == "volume"@ {
        CurrentField::TotalVolume
    } else if k == "amount"@ {
        CurrentField::TotalAmount
    } else if k == "bidPrice"@ {
        CurrentField::MaxBidPrice
    } else if k == "askPrice"@ {
        CurrentField::MinAskPrice
    } else if k == "total_trade_count"@ {
        CurrentField::TotalTradeCount
    } else {
        CurrentField::Unknown
    }
}

/// Maps a record key to the field it selects.
pub fn field_for_key(key: &String) -> (f: CurrentField)
    ensures
        f == spec_field_for_key(key@),
{
    if *key == String::from_str("lastPrice") {
        CurrentField::LastPrice
    } else if *key == String::from_str("lastQty") {
        CurrentField::LastQty
    } else if *key == String::from_str("volume") {
        CurrentField::TotalVolume
    } else if *key == String::from_str("amount") {
        CurrentField::TotalAmount
    } else if *key == String::from_str("bidPrice") {
        CurrentField::MaxBidPrice
    } else if *key == String::from_str("askPrice") {
        CurrentField::MinAskPrice
    } else if *key == String::from_str("total_trade_count") {
        CurrentField::TotalTradeCount
    } else {
        CurrentField::Unknown
    }
}

/// The integer side of the statistics accumulator: the field cursor and the
/// total trade count.
pub struct StatsCounter {
    current_field: CurrentField,
    total_trade_count: u64,
}

impl StatsCounter {
    /// The field the cursor points at.
    pub closed spec fn field(&self) -> CurrentField {
        self.current_field
    }

    /// The accumulated trade count.
    pub closed spec fn count(&self) -> u64 {
        self.total_trade_count
    }

    /// A fresh accumulator: no field selected, zero trades counted.
    pub fn new() -> (s: Self)
        ensures
            s.field() == CurrentField::Unknown,
            s.count() == 0,
    {
        Self { current_field: CurrentField::Unknown, total_trade_count: 0 }
    }

    /// Reads the field cursor.
    pub fn current_field(&self) -> (f: CurrentField)
        ensures
            f == self.field(),
    {
        self.current_field
    }

    /// Reads the accumulated trade count.
    pub fn total_trade_count(&self) -> (n: u64)
        ensures
            n == self.count(),
    {
        self.total_trade_count
    }

    /// A `Key` event: points the cursor at the field the key selects.
    pub fn note_key(&mut self, key: &String)
        ensures
            final(self).field() == spec_field_for_key(key@),
            final(self).count() == old(self).count(),
    {
        self.current_field = field_for_key(key);
    }

    /// A numeric value: adds it to the trade count exactly when the cursor
    /// points at the trade-count field, saturating at the type's maximum;
    /// values under any other field are ignored.
    pub fn note_count(&mut self, n: u64)
        ensures
            final(self).field() == old(self).field(),
            old(self).field() != CurrentField::TotalTradeCount ==> final(self).count() == old(
                self,
            ).count(),
            old(self).field() == CurrentField::TotalTradeCount ==> final(self).count() as int == (
            if old(self).count() + n <= u64::MAX {
                old(self).count() + n
            } else {
                u64::MAX as int
            }),
    {
        match self.current_field {
            CurrentField::TotalTradeCount => {
                if n <= u64::MAX - self.total_trade_count {
                    self.total_trade_count = self.total_trade_count + n;
                } else {
                    self.total_trade_count = u64::MAX;
                }
            },
            _ => {},
        }
    }
}

} // verus!
