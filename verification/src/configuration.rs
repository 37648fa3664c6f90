//! What a member is told when it starts.
use crate::failure_detector::Nanos;
use crate::types::{MemberId, SocketAddr};
use vstd::prelude::*;

verus! {

/// Configuration for a [`crate::Tchatche`] instance.
#[derive(Debug)]
pub struct Config {
    /// This member's identity.
    pub member_id: MemberId,
    /// The cluster this member belongs to. Datagrams with a different `cluster_id` are
    /// dropped.
    pub cluster_id: String,
    /// How often this member initiates a gossip round.
    pub gossip_interval: Nanos,
    /// The address to bind the gossip socket to.
    pub listen_addr: SocketAddr,
    /// Seed peers, as `ip:port` or `host:port` (the latter is DNS-refreshed).
    pub seed_members: Vec<String>,
    /// Number of most recent heartbeat inter-arrival intervals retained per member.
    pub max_sample_size: usize,
    /// How long a dead member is retained (un-shared) before being forgotten. Must exceed
    /// the cluster-wide spread in death-detection times. Doubles as the resurrection guard.
    pub quarantine_period: Nanos,
}

impl Config {
    /// The configuration of a member on the local host, for testing.
    pub fn for_test(port: u16) -> (config: Self)
        ensures
            config.member_id@ == MemberId::local(port),
            config.cluster_id@ == "default-cluster"@,
            config.gossip_interval == 50_000_000,
            config.listen_addr == config.member_id.gossip_addr,
            config.seed_members@.len() == 0,
            config.max_sample_size == 1_000,
            config.quarantine_period == 10_000_000_000_000,
    {
        let member_id = MemberId::for_local_test(port);
        let listen_addr = member_id.gossip_addr;
        Config {
            member_id,
            cluster_id: "default-cluster".to_owned(),
            gossip_interval: 50_000_000,
            listen_addr,
            seed_members: Vec::new(),
            max_sample_size: 1_000,
            quarantine_period: 10_000_000_000_000,
        }
    }
}

} // verus!
