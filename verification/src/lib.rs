//! Cluster membership by gossip: every member announces itself with a heartbeat and a frozen
//! set of key-values, and learns those of all others.
pub mod cluster;
pub mod configuration;
pub mod delta;
pub mod digest;
pub mod failure_detector;
pub mod handshake;
pub mod message;
pub mod order;
pub mod ordered_map;
pub mod ordered_set;
pub mod prefix;
mod random;
pub mod reconcile;
pub mod serialize;
pub mod server;
pub mod staleness;
pub mod state;
pub mod tchatche;
pub mod text;
pub mod types;

pub use crate::configuration::Config;
pub use crate::message::Message as TchatcheMessage;
pub use crate::serialize::{Deserializable, Serializable};
pub use crate::state::MemberState;
pub use crate::tchatche::Tchatche;
pub use crate::types::{Heartbeat, MemberId, Version, VersionedValue};
