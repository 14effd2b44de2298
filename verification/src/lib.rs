//! Bounded, batch-native ring-buffer channels.
//!
//! A sender or a receiver claims a contiguous range of the ring, writes or reads it, and
//! commits it. Nothing blocks: operations are `try_*` and tell of back pressure and of the end
//! of a stream by their errors (`Full`, `Empty`, `Disconnected`).
//!
//! What the endpoints of a channel share is a [`channel::Channel`], which every operation is
//! handed. An operation is one step of the protocol, so any schedule of the endpoints is a
//! sequence of calls. Permits and read references borrow their endpoint and not the channel:
//! the other endpoints go on while they are open.
//!
//! - [`mpsc`]: any number of senders, one receiver
//! - [`fanout`] and [`broadcast`]: any number of senders, a fixed number of receivers that see
//!   every item
//! - [`exclusive::spsc`]: one sender, one receiver
//! - [`queue::mpmc`] and [`mpmc`]: any number of senders, any number of receivers that compete
//!   for the items
//!
//! [`laws`] states what holds across operations.

pub mod broadcast;
pub mod channel;
pub mod channel_api;
pub mod consumers;
pub mod cursor;
pub mod errors;
pub mod exclusive;
pub mod fanout;
pub mod guards;
pub mod laws;
pub mod mpmc;
pub mod mpsc;
pub mod permit;
pub mod prelude;
pub mod publisher;
pub mod queue;
pub mod receiver;
pub mod ringbuffer;
pub mod sender;
pub mod sequence;
pub mod sequencers;
pub mod slot_recycler;
pub mod slot_states;
pub mod waker;

pub use crate::guards::{ChanReadRef, ChanReadRefs, ChanWritePermit, ChanWritePermits};
pub use crate::receiver::ChanReceiver;
pub use crate::sender::ChannelSender;
pub use crate::slot_recycler::SlotRecycler;
