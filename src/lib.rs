//! Peer-to-peer networking core of a LAN chat application: peer discovery
//! over datagrams, a live peer registry, stream sessions guarded by a
//! handshake, and transport selection for direct messages; with the local
//! ledger of delivered messages and the group registry.
use vstd::prelude::*;

pub mod json;
pub mod wire;
pub mod node;
pub mod ledger;
pub mod groups;
pub mod payload;

pub use wire::{DecodeError, NetworkMessage};
pub use node::{
    ConnectionStats, Effect, FrameOutcome, NetError, NetworkNode, Outgoing, PeerAddr, PeerInfo,
    Route, SendEvent, SendStep, StreamReader, UpgradePlan,
};
pub use ledger::{current_timestamp_ms, Block, BlockSummary, Blockchain, ChainSummary, DirectTextPayload};
pub use groups::{GroupInfo, GroupManager};

verus! {

} // verus!
