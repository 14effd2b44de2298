//! The traits that the channels are used through.

pub use crate::guards::{ChanReadRef, ChanReadRefs, ChanWritePermit, ChanWritePermits};
pub use crate::receiver::ChanReceiver;
pub use crate::sender::ChannelSender;
pub use crate::slot_recycler::SlotRecycler;
