use vstd::prelude::*;

verus! {

/// Market snapshot of one item: instant-buy (`high`) and instant-sell (`low`)
/// prices in coins, with the times at which they were last seen.
#[derive(Debug, Clone, Copy, PartialEq, Eq, Structural)]
pub struct PriceDatum {
    pub high: Option<u64>,
    pub high_time: Option<u64>,
    pub low: Option<u64>,
    pub low_time: Option<u64>,
}

/// A price that is absent or zero cannot be traded on.
pub open spec fn usable_price(p: Option<u64>) -> bool {
    p is Some && p->0 > 0
}

impl PriceDatum {
    pub open spec fn spec_invalid(&self) -> bool {
        !usable_price(self.high) || !usable_price(self.low)
    }

    /// Instant-buy price; meaningful only for a datum that is not invalid.
    pub open spec fn buy(&self) -> u64 {
        match self.high {
            Some(p) => p,
            None => 0,
        }
    }

    /// Instant-sell price; meaningful only for a datum that is not invalid.
    pub open spec fn sell(&self) -> u64 {
        match self.low {
            Some(p) => p,
            None => 0,
        }
    }

    pub fn new(high: Option<u64>, high_time: Option<u64>, low: Option<u64>, low_time: Option<u64>) -> (r: PriceDatum)
        ensures
            r == (PriceDatum { high, high_time, low, low_time }),
    {
        PriceDatum { high, high_time, low, low_time }
    }

    /// True when either price is missing or not positive.
    pub fn invalid_data(&self) -> (r: bool)
        ensures
            r == self.spec_invalid(),
    {
        let high_ok = match self.high {
            Some(p) => p > 0,
            None => false,
        };
        let low_ok = match self.low {
            Some(p) => p > 0,
            None => false,
        };
        !high_ok || !low_ok
    }

    pub fn buy_price(&self) -> (r: u64)
        ensures
            r == self.buy(),
    {
        match self.high {
            Some(p) => p,
            None => 0,
        }
    }

    pub fn sell_price(&self) -> (r: u64)
        ensures
            r == self.sell(),
    {
        match self.low {
            Some(p) => p,
            None => 0,
        }
    }
}

} // verus!
