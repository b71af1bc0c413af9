//! Epidemic dissemination of binary updates over a peer-sampled overlay.

pub mod config;
pub mod digest;
pub mod gossip;
pub mod history;
pub mod local_view;
pub mod message;
pub mod monitor;
pub mod network;
pub mod peer;
pub mod random;
pub mod sampling;
pub mod selection;
pub mod update;
pub mod wire;
mod text;

pub use crate::config::{GossipConfig, PeerSamplingConfig, UpdateExpirationMode};
pub use crate::gossip::GossipService;
pub use crate::peer::Peer;
pub use crate::update::{Update, UpdateHandler};
