//! The recording format that the recorder writes and the analysis tools read.

use vstd::prelude::*;

use crate::double::Double;
use crate::text::same_text;

verus! {

/// The two venues.
#[derive(Clone, Copy, Debug, PartialEq, Eq, Structural)]
pub enum Venue {
    Lighter,
    Hyperliquid,
}

impl Venue {
    /// The name of the venue in recordings.
    pub open spec fn text(self) -> Seq<char> {
        match self {
            Venue::Lighter => "lighter"@,
            Venue::Hyperliquid => "hyperliquid"@,
        }
    }

    /// The other venue.
    pub open spec fn opposite(self) -> Venue {
        match self {
            Venue::Lighter => Venue::Hyperliquid,
            Venue::Hyperliquid => Venue::Lighter,
        }
    }

    /// The name of the venue in recordings.
    pub fn name(self) -> (r: &'static str)
        ensures
            r@ == self.text(),
    {
        match self {
            Venue::Lighter => "lighter",
            Venue::Hyperliquid => "hyperliquid",
        }
    }

    /// The other venue.
    pub fn other(self) -> (r: Venue)
        ensures
            r == self.opposite(),
    {
        match self {
            Venue::Lighter => Venue::Hyperliquid,
            Venue::Hyperliquid => Venue::Lighter,
        }
    }

    /// The venue that has a name.
    pub open spec fn of(name: Seq<char>) -> Option<Venue> {
        if name == "lighter"@ {
            Some(Venue::Lighter)
        } else if name == "hyperliquid"@ {
            Some(Venue::Hyperliquid)
        } else {
            None
        }
    }

    /// The venue that has a name.
    pub fn from_name(name: &str) -> (r: Option<Venue>)
        ensures
            r == Venue::of(name@),
    {
        if same_text(name, "lighter") {
            Some(Venue::Lighter)
        } else if same_text(name, "hyperliquid") {
            Some(Venue::Hyperliquid)
        } else {
            None
        }
    }
}

/// The names of the two venues differ, and each leads back to its venue.
pub proof fn venue_names_lead_back(v: Venue)
    ensures
        Venue::of(v.text()) == Some(v),
        v.opposite().text() != v.text(),
        v.opposite().opposite() == v,
{
    reveal_strlit("lighter");
    reveal_strlit("hyperliquid");
    assert("lighter"@.len() == 7);
    assert("hyperliquid"@.len() == 11);
}

/// One level of an order book: a price and the quantity on offer at that price.
#[derive(Clone, Copy, Debug, PartialEq, Eq, Structural)]
pub struct Level {
    /// The price of the level.
    pub price: Double,
    /// The quantity on offer at that price.
    pub size: Double,
}

/// A recorded tick: the top of a venue's book at one moment.
#[derive(Clone, Debug)]
pub struct Tick {
    /// Monotonic nanoseconds since the recorder started, from which intervals are measured.
    pub recv_ns: u64,
    /// When the tick was received, in milliseconds since the epoch.
    pub recv_ms: u64,
    /// The venue's own timestamp, in milliseconds since the epoch; 0 where there is none.
    pub server_ms: u64,
    /// The venue: `"lighter"` or `"hyperliquid"`.
    pub exchange: String,
    /// The symbol: `"BTC"`, `"ETH"`, ...
    pub symbol: String,
    /// The venue's sequence number; 0 where it gives none.
    pub seq: u64,
    /// The sequence number of the message before; 0 where there is none. It equals the `seq` of
    /// the tick before, or messages were lost.
    pub prev_seq: u64,
    /// Whether the tick comes from a full snapshot rather than from a delta.
    pub is_snapshot: bool,
    /// The best bids, by falling price.
    pub bids: Vec<Level>,
    /// The best asks, by rising price.
    pub asks: Vec<Level>,
}

/// Whether prices never rise from one level to the next.
pub open spec fn falling(levels: Seq<Level>) -> bool {
    forall|i: int, j: int|
        0 <= i <= j < levels.len() ==> (#[trigger] levels[i]).price.rank() >= (
        #[trigger] levels[j]).price.rank()
}

/// Whether prices never fall from one level to the next.
pub open spec fn rising(levels: Seq<Level>) -> bool {
    forall|i: int, j: int|
        0 <= i <= j < levels.len() ==> (#[trigger] levels[i]).price.rank() <= (
        #[trigger] levels[j]).price.rank()
}

/// Whether prices fall from each level to the next.
pub open spec fn strictly_falling(levels: Seq<Level>) -> bool {
    forall|i: int, j: int|
        0 <= i < j < levels.len() ==> (#[trigger] levels[i]).price.gt((#[trigger] levels[j]).price)
}

/// Whether prices rise from each level to the next.
pub open spec fn strictly_rising(levels: Seq<Level>) -> bool {
    forall|i: int, j: int|
        0 <= i < j < levels.len() ==> (#[trigger] levels[j]).price.gt((#[trigger] levels[i]).price)
}

/// Whether every size of some levels is above zero.
pub open spec fn nowhere_empty(levels: Seq<Level>) -> bool {
    forall|i: int| 0 <= i < levels.len() ==> (#[trigger] levels[i]).size.gt(Double { bits: 0 })
}

} // verus!
