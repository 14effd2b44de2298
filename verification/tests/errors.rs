use enso_channel::errors::{
    InvalidChannelSize, TryClaimError, TryRecvAtMostError, TryRecvError, TryReserveError,
    TrySendAtMostError, TrySendError,
};
use enso_channel::sequence::Sequence;

#[test]
fn messages_tell_the_cause() {
    assert_eq!(TryReserveError::Full.message(), "The channel is full");
    assert_eq!(TryReserveError::Disconnected.message(), "The consumers are disconnected");
    assert_eq!(TrySendAtMostError::Full.message(), "The channel is full");
    assert_eq!(TrySendAtMostError::Disconnected.message(), "The consumers are disconnected");
    assert_eq!(TryRecvError::Empty.message(), "The channel is empty");
    assert_eq!(TryRecvError::Disconnected.message(), "The channel is disconnected");
    assert_eq!(TryRecvAtMostError::Empty.message(), "The channel is empty");
    assert_eq!(TryRecvAtMostError::Disconnected.message(), "The channel is disconnected");
}

#[test]
fn a_claim_that_fails_is_reported_from_either_side() {
    assert_eq!(TryRecvError::from(TryClaimError::Empty), TryRecvError::Empty);
    assert_eq!(TryRecvError::from(TryClaimError::Shutdown), TryRecvError::Disconnected);
    assert_eq!(
        TryRecvError::from(TryClaimError::Insufficient { missing: 2 }),
        TryRecvError::Empty
    );
    assert_eq!(TryRecvAtMostError::from(TryClaimError::Empty), TryRecvAtMostError::Empty);
    assert_eq!(
        TryRecvAtMostError::from(TryClaimError::Shutdown),
        TryRecvAtMostError::Disconnected
    );
    assert_eq!(TrySendAtMostError::from(TryClaimError::Empty), TrySendAtMostError::Full);
    assert_eq!(
        TrySendAtMostError::from(TryClaimError::Shutdown),
        TrySendAtMostError::Disconnected
    );
    assert_eq!(TryReserveError::from(TryClaimError::Empty), TryReserveError::Full);
    assert_eq!(
        TryReserveError::from(TryClaimError::Shutdown),
        TryReserveError::Disconnected
    );
    assert!(matches!(
        TrySendError::from(TryClaimError::Insufficient { missing: 1 }),
        TrySendError::Full(())
    ));
    assert!(matches!(
        TrySendError::from(TryClaimError::Shutdown),
        TrySendError::Disconnected(())
    ));
}

#[test]
fn sizes_are_checked() {
    assert_eq!(InvalidChannelSize::validate(8), Ok(()));
    assert_eq!(InvalidChannelSize::validate(1), Ok(()));
    assert_eq!(InvalidChannelSize::validate(0), Err(InvalidChannelSize { capacity: 0 }));
    assert_eq!(InvalidChannelSize::validate(24), Err(InvalidChannelSize { capacity: 24 }));
    assert_eq!(
        InvalidChannelSize::validate(1 << 63),
        Err(InvalidChannelSize { capacity: 1 << 63 })
    );
}

#[test]
fn a_sequence_is_written_in_decimal() {
    assert_eq!(Sequence::new(-120).to_text(), "-120");
    assert_eq!(Sequence::new(7).to_text(), "7");
}
