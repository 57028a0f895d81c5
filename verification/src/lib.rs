//! Bounded same-host runtime state for a fleet of sibling processes.
pub mod arena;
pub mod cache;
pub mod cell;
pub mod cli;
pub mod codec;
pub mod compile;
pub mod counter;
pub mod decimal;
pub mod epoch;
pub mod error;
pub mod events;
pub mod fleet;
pub mod fnv;
pub mod id;
pub mod invoke;
pub mod kinds;
pub mod lock;
pub mod metrics;
pub mod node;
pub mod numbers;
pub mod octets;
pub mod probe;
pub mod readiness;
pub mod ring;
pub mod selection;
pub mod shm;
pub mod table;
pub mod text;
pub mod typed;

pub use crate::epoch::OrbitEpoch;
pub use crate::error::Error;
pub use crate::fleet::{Fleet, NodeId};
pub use crate::id::NetId64;
pub use crate::ring::cursor::{
    poll_ring, RingCursor, RingFrameSource, RingLoss, RingPoll, RingRead,
};
pub use crate::ring::{Frame, Ring, RingSpec, RingTopology};
pub use crate::typed::OrbitTyped;
