//! The alert decision: the latest single-step percent change of a ticker,
//! and whether it crosses the buy or the sell threshold. Fetching the
//! quotes and delivering the message are the caller's business; the
//! decision itself is exact.

use vstd::prelude::*;
use crate::rat::Rat;
use crate::sim::Error;

verus! {

/// A signed percent change: `rise` gives the sign, `mag` the magnitude.
/// A change of zero is recorded as a rise of magnitude zero.
#[derive(Clone, Copy, Debug, PartialEq, Eq, Structural)]
pub struct PctChange {
    pub rise: bool,
    pub mag: Rat,
}

impl PctChange {
    pub open spec fn wf(self) -> bool {
        self.mag.wf()
    }
}

/// What `latest_change` returns: `(cur - prev) / prev * 100` as a sign and
/// an exact magnitude, or `InvalidSignal` for a zero previous close.
pub open spec fn spec_latest_change(prev: u64, cur: u64) -> Result<PctChange, Error> {
    if prev == 0 {
        Err(Error::InvalidSignal)
    } else if cur >= prev {
        Ok(
            PctChange {
                rise: true,
                mag: Rat { num: ((cur - prev) * 100) as u128, den: prev as u128 },
            },
        )
    } else {
        Ok(
            PctChange {
                rise: false,
                mag: Rat { num: ((prev - cur) * 100) as u128, den: prev as u128 },
            },
        )
    }
}

/// The percent change from the previous to the current close.
pub fn latest_change(prev: u64, cur: u64) -> (r: Result<PctChange, Error>)
    ensures
        r == spec_latest_change(prev, cur),
        r matches Ok(c) ==> c.wf(),
{
    if prev == 0 {
        Err(Error::InvalidSignal)
    } else if cur >= prev {
        let d: u128 = ((cur - prev) as u128) * 100;
        Ok(PctChange { rise: true, mag: Rat { num: d, den: prev as u128 } })
    } else {
        let d: u128 = ((prev - cur) as u128) * 100;
        Ok(PctChange { rise: false, mag: Rat { num: d, den: prev as u128 } })
    }
}

/// The alert condition: the signed change `c` is at or below `-bw` percent,
/// or at or above `sw` percent, for nonnegative thresholds.
pub open spec fn spec_alert_holds(c: PctChange, bw: Rat, sw: Rat) -> bool {
    ||| (if c.rise {
        c.mag.is_zero() && bw.is_zero()
    } else {
        bw.le_val(c.mag)
    })
    ||| (if c.rise {
        sw.le_val(c.mag)
    } else {
        c.mag.is_zero() && sw.is_zero()
    })
}

/// What `should_alert` returns: the alert condition, or `Overflow` where a
/// threshold comparison's cross products leave `u128`.
pub open spec fn spec_should_alert(c: PctChange, bw: Rat, sw: Rat) -> Result<bool, Error> {
    let buy = if c.rise {
        Some(c.mag.is_zero() && bw.is_zero())
    } else {
        bw.spec_le(c.mag)
    };
    let sell = if c.rise {
        sw.spec_le(c.mag)
    } else {
        Some(c.mag.is_zero() && sw.is_zero())
    };
    match (buy, sell) {
        (Some(x), Some(y)) => Ok(x || y),
        _ => Err(Error::Overflow),
    }
}

/// Decide whether to alert on the change `c` under thresholds `bw` (buy,
/// on a drop) and `sw` (sell, on a rise).
pub fn should_alert(c: PctChange, bw: Rat, sw: Rat) -> (r: Result<bool, Error>)
    requires
        c.wf(),
        bw.wf(),
        sw.wf(),
    ensures
        r == spec_should_alert(c, bw, sw),
        r matches Ok(b) ==> b == spec_alert_holds(c, bw, sw),
{
    let buy: Option<bool> = if c.rise {
        Some(c.mag.num == 0 && bw.num == 0)
    } else {
        bw.le(c.mag)
    };
    let sell: Option<bool> = if c.rise {
        sw.le(c.mag)
    } else {
        Some(c.mag.num == 0 && sw.num == 0)
    };
    match (buy, sell) {
        (Some(x), Some(y)) => Ok(x || y),
        _ => Err(Error::Overflow),
    }
}

} // verus!
