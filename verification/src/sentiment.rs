//! Fleet sentiment snapshots.
//!
//! The four sentiment values run from 0.0 to 1.0. They are held as the bit
//! patterns of IEEE-754 singles: the library stores and hands them back but
//! never computes with them. Whether a snapshot is healthy is decided from
//! the values by the caller and recorded beside the snapshot.

use vstd::prelude::*;

verus! {

/// Bit pattern of the IEEE-754 single 0.5, the neutral sentiment value.
pub const NEUTRAL: u32 = 0x3f00_0000;

/// A snapshot of the fleet's mood; each field is the bit pattern of a value
/// from 0.0 to 1.0.
#[derive(Debug, Clone, Copy, PartialEq, Eq, Structural)]
pub struct Sentiment {
    pub energy: u32,
    pub frustration: u32,
    pub tension: u32,
    pub confidence: u32,
}

impl Sentiment {
    /// The neutral snapshot: every value one half.
    pub open spec fn neutral() -> Sentiment {
        Sentiment { energy: NEUTRAL, frustration: NEUTRAL, tension: NEUTRAL, confidence: NEUTRAL }
    }
}

impl Default for Sentiment {
    /// The neutral snapshot: every value one half.
    fn default() -> (s: Self)
        ensures
            s == Sentiment::neutral(),
    {
        Sentiment { energy: NEUTRAL, frustration: NEUTRAL, tension: NEUTRAL, confidence: NEUTRAL }
    }
}

/// A snapshot together with whether it counts as healthy (low frustration
/// and tension, enough confidence).
#[derive(Debug, Clone, Copy, PartialEq, Eq, Structural)]
pub struct SentimentReading {
    pub sentiment: Sentiment,
    pub healthy: bool,
}

impl SentimentReading {
    /// The reading taken where no snapshot was recorded: the neutral
    /// snapshot, whose values (one half each) pass the health thresholds.
    /// It stands for the mood when a problem strikes and for the snapshots a
    /// pattern records; the search for a recovery counts recorded
    /// snapshots only.
    pub open spec fn spec_neutral() -> SentimentReading {
        SentimentReading { sentiment: Sentiment::neutral(), healthy: true }
    }

    /// The reading taken where no snapshot was recorded.
    pub fn neutral() -> (r: Self)
        ensures
            r == SentimentReading::spec_neutral(),
    {
        SentimentReading { sentiment: Sentiment::default(), healthy: true }
    }
}

} // verus!
