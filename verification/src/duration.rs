//! Unstaking durations and their expiration thresholds. A duration is either
//! a block-height delta or a wall-clock-time delta; a zero duration is
//! rejected wherever one is configured.

use vstd::prelude::*;
use crate::types::BlockInfo;

verus! {

/// A time delta, counted in blocks or in seconds.
#[derive(Clone, Copy, PartialEq, Eq, Debug)]
pub enum Duration {
    Height(u64),
    Time(u64),
}

/// A point at which a pending claim matures: a height or time threshold.
#[derive(Clone, Copy, PartialEq, Eq, Debug)]
pub enum Expiration {
    AtHeight(u64),
    AtTime(u64),
}

#[derive(Clone, Copy, PartialEq, Eq, Debug)]
pub enum UnboundingDurationError {
    InvalidUnboundingDuration {},
}

/// An optional unstaking duration is acceptable when it is absent or
/// strictly positive.
pub open spec fn valid_duration(duration: Option<Duration>) -> bool {
    match duration {
        None => true,
        Some(Duration::Height(h)) => h > 0,
        Some(Duration::Time(t)) => t > 0,
    }
}

/// Rejects a configured duration of zero in either variant.
pub fn validate_duration(duration: Option<Duration>) -> (r: Result<
    (),
    UnboundingDurationError,
>)
    ensures
        r is Ok <==> valid_duration(duration),
        !valid_duration(duration) ==> r == Err::<(), UnboundingDurationError>(
            UnboundingDurationError::InvalidUnboundingDuration {},
        ),
{
    match duration {
        None => Ok(()),
        Some(Duration::Height(h)) => {
            if h == 0 {
                Err(UnboundingDurationError::InvalidUnboundingDuration {})
            } else {
                Ok(())
            }
        },
        Some(Duration::Time(t)) => {
            if t == 0 {
                Err(UnboundingDurationError::InvalidUnboundingDuration {})
            } else {
                Ok(())
            }
        },
    }
}

/// The expiration a duration yields when started at `block`.
pub open spec fn expiry_after(duration: Duration, block: BlockInfo) -> Expiration {
    match duration {
        Duration::Height(h) => Expiration::AtHeight((block.height + h) as u64),
        Duration::Time(t) => Expiration::AtTime((block.time + t) as u64),
    }
}

/// The threshold fits in a 64-bit height or time.
pub open spec fn expiry_fits(duration: Duration, block: BlockInfo) -> bool {
    match duration {
        Duration::Height(h) => block.height + h <= u64::MAX,
        Duration::Time(t) => block.time + t <= u64::MAX,
    }
}

impl Duration {
    /// The moment at which a claim created at `block` matures.
    pub fn after(&self, block: &BlockInfo) -> (r: Expiration)
        requires
            expiry_fits(*self, *block),
        ensures
            r == expiry_after(*self, *block),
    {
        match self {
            Duration::Height(h) => Expiration::AtHeight(block.height + *h),
            Duration::Time(t) => Expiration::AtTime(block.time + *t),
        }
    }
}

/// Whether an expiration threshold has been reached as of `block`.
pub open spec fn is_released(e: Expiration, block: BlockInfo) -> bool {
    match e {
        Expiration::AtHeight(h) => block.height >= h,
        Expiration::AtTime(t) => block.time >= t,
    }
}

impl Expiration {
    pub fn is_expired(&self, block: &BlockInfo) -> (r: bool)
        ensures
            r == is_released(*self, *block),
    {
        match self {
            Expiration::AtHeight(h) => block.height >= *h,
            Expiration::AtTime(t) => block.time >= *t,
        }
    }
}

} // verus!
