//! Error types of the non-blocking `try_*` operations.
//!
//! Every topology exposes backpressure by returning one of these instead of blocking.

use vstd::prelude::*;

use crate::ringbuffer::{exact_log2, RingBufferMeta};

verus! {

/// Why a sequencer did not grant a claim.
#[derive(Debug, Clone, Copy, PartialEq, Eq, Structural)]
pub enum TryClaimError {
    /// Nothing can be claimed at the moment.
    Empty,
    /// The opposite side is gone.
    Shutdown,
    /// An exact claim was `missing` sequences short.
    Insufficient { missing: i64 },
}

/// Why a value was not sent; it is handed back.
#[derive(Debug)]
pub enum TrySendError<T> {
    Full(T),
    Disconnected(T),
}

/// Why no slot was reserved.
#[derive(Debug, Clone, Copy, PartialEq, Eq, Structural)]
pub enum TryReserveError {
    Full,
    Disconnected,
}

/// Why no batch of slots was reserved.
#[derive(Debug, Clone, Copy, PartialEq, Eq, Structural)]
pub enum TrySendAtMostError {
    Full,
    Disconnected,
}

/// Why nothing was received.
#[derive(Debug, Clone, Copy, PartialEq, Eq, Structural)]
pub enum TryRecvError {
    Empty,
    /// The channel was disconnected (e.g. all senders were dropped).
    Disconnected,
}

/// Why no batch was received.
#[derive(Debug, Clone, Copy, PartialEq, Eq, Structural)]
pub enum TryRecvAtMostError {
    Empty,
    /// The channel was disconnected (e.g. all senders were dropped).
    Disconnected,
}

/// A requested capacity that no ring can have.
#[derive(Debug, Clone, Copy, PartialEq, Eq, Structural)]
pub struct InvalidChannelSize {
    pub capacity: usize,
}

impl InvalidChannelSize {
    /// Accepts `capacity` where it is a power of two that a sequence number can hold.
    pub fn validate(capacity: usize) -> (checked: Result<(), InvalidChannelSize>)
        ensures
            match checked {
                Ok(_) => RingBufferMeta::valid_size(capacity as int),
                Err(error) => !RingBufferMeta::valid_size(capacity as int) && error.capacity
                    == capacity,
            },
    {
        if capacity as u128 <= i64::MAX as u128 && exact_log2(capacity).is_some() {
            Ok(())
        } else {
            Err(InvalidChannelSize { capacity })
        }
    }
}

impl TryReserveError {
    /// The message for people.
    pub fn message(&self) -> (text: &'static str)
        ensures
            match *self {
                TryReserveError::Full => text@ == "The channel is full"@,
                TryReserveError::Disconnected => text@ == "The consumers are disconnected"@,
            },
    {
        match self {
            TryReserveError::Full => "The channel is full",
            TryReserveError::Disconnected => "The consumers are disconnected",
        }
    }
}

impl TrySendAtMostError {
    /// The message for people.
    pub fn message(&self) -> (text: &'static str)
        ensures
            match *self {
                TrySendAtMostError::Full => text@ == "The channel is full"@,
                TrySendAtMostError::Disconnected => text@ == "The consumers are disconnected"@,
            },
    {
        match self {
            TrySendAtMostError::Full => "The channel is full",
            TrySendAtMostError::Disconnected => "The consumers are disconnected",
        }
    }
}

impl TryRecvError {
    /// The message for people.
    pub fn message(&self) -> (text: &'static str)
        ensures
            match *self {
                TryRecvError::Empty => text@ == "The channel is empty"@,
                TryRecvError::Disconnected => text@ == "The channel is disconnected"@,
            },
    {
        match self {
            TryRecvError::Empty => "The channel is empty",
            TryRecvError::Disconnected => "The channel is disconnected",
        }
    }
}

impl TryRecvAtMostError {
    /// The message for people.
    pub fn message(&self) -> (text: &'static str)
        ensures
            match *self {
                TryRecvAtMostError::Empty => text@ == "The channel is empty"@,
                TryRecvAtMostError::Disconnected => text@ == "The channel is disconnected"@,
            },
    {
        match self {
            TryRecvAtMostError::Empty => "The channel is empty",
            TryRecvAtMostError::Disconnected => "The channel is disconnected",
        }
    }
}

impl From<TryClaimError> for TryRecvError {
    fn from(err: TryClaimError) -> (converted: Self) {
        match err {
            TryClaimError::Empty => TryRecvError::Empty,
            TryClaimError::Insufficient { .. } => TryRecvError::Empty,
            TryClaimError::Shutdown => TryRecvError::Disconnected,
        }
    }
}

impl vstd::std_specs::convert::FromSpecImpl<TryClaimError> for TryRecvError {
    open spec fn obeys_from_spec() -> bool {
        true
    }

    open spec fn from_spec(err: TryClaimError) -> Self {
        if err is Shutdown {
            TryRecvError::Disconnected
        } else {
            TryRecvError::Empty
        }
    }
}

impl From<TryClaimError> for TryRecvAtMostError {
    fn from(err: TryClaimError) -> (converted: Self) {
        match err {
            TryClaimError::Empty => TryRecvAtMostError::Empty,
            TryClaimError::Insufficient { .. } => TryRecvAtMostError::Empty,
            TryClaimError::Shutdown => TryRecvAtMostError::Disconnected,
        }
    }
}

impl vstd::std_specs::convert::FromSpecImpl<TryClaimError> for TryRecvAtMostError {
    open spec fn obeys_from_spec() -> bool {
        true
    }

    open spec fn from_spec(err: TryClaimError) -> Self {
        if err is Shutdown {
            TryRecvAtMostError::Disconnected
        } else {
            TryRecvAtMostError::Empty
        }
    }
}

impl From<TryClaimError> for TrySendAtMostError {
    fn from(err: TryClaimError) -> (converted: Self) {
        match err {
            TryClaimError::Empty => TrySendAtMostError::Full,
            TryClaimError::Insufficient { .. } => TrySendAtMostError::Full,
            TryClaimError::Shutdown => TrySendAtMostError::Disconnected,
        }
    }
}

impl vstd::std_specs::convert::FromSpecImpl<TryClaimError> for TrySendAtMostError {
    open spec fn obeys_from_spec() -> bool {
        true
    }

    open spec fn from_spec(err: TryClaimError) -> Self {
        if err is Shutdown {
            TrySendAtMostError::Disconnected
        } else {
            TrySendAtMostError::Full
        }
    }
}

impl From<TryClaimError> for TryReserveError {
    fn from(err: TryClaimError) -> (converted: Self) {
        match err {
            TryClaimError::Empty => TryReserveError::Full,
            TryClaimError::Insufficient { .. } => TryReserveError::Full,
            TryClaimError::Shutdown => TryReserveError::Disconnected,
        }
    }
}

impl vstd::std_specs::convert::FromSpecImpl<TryClaimError> for TryReserveError {
    open spec fn obeys_from_spec() -> bool {
        true
    }

    open spec fn from_spec(err: TryClaimError) -> Self {
        if err is Shutdown {
            TryReserveError::Disconnected
        } else {
            TryReserveError::Full
        }
    }
}

impl From<TryClaimError> for TrySendError<()> {
    fn from(err: TryClaimError) -> (converted: Self) {
        match err {
            TryClaimError::Empty => TrySendError::Full(()),
            TryClaimError::Insufficient { .. } => TrySendError::Full(()),
            TryClaimError::Shutdown => TrySendError::Disconnected(()),
        }
    }
}

impl vstd::std_specs::convert::FromSpecImpl<TryClaimError> for TrySendError<()> {
    open spec fn obeys_from_spec() -> bool {
        true
    }

    open spec fn from_spec(err: TryClaimError) -> Self {
        if err is Shutdown {
            TrySendError::Disconnected(())
        } else {
            TrySendError::Full(())
        }
    }
}

} // verus!
