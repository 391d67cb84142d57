//! Node discovery: peers ask each other for the addresses of other nodes, answer
//! such questions, and pass on what they learn.

pub mod addr;
pub mod codec;
pub mod discovery;
pub mod frame;
pub mod laws;
pub mod message;
pub mod operation_laws;
pub mod peer_laws;
pub mod random;
pub mod round;
pub mod round_laws;
pub mod run_laws;
pub mod substream;
pub mod table;

pub use crate::addr::{AddrKnown, AddrRaw, AddressManager, SocketAddr};
pub use crate::codec::{CodecError, DiscoveryCodec};
pub use crate::discovery::Discovery;
pub use crate::message::{DiscoveryMessage, Node, Nodes};
pub use crate::round::{PollAction, PollEvent, ReceiverPoll};
pub use crate::substream::{
    Direction, SendEvent, StreamEnd, Substream, SubstreamKey, SubstreamValue, TimerPoll,
};
