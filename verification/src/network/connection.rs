//! What is known of one connection.

use crate::common::types::PeerId;
use crate::peer::peer::PeerAddress;
use vstd::prelude::*;

verus! {

/// Where a connection stands.
#[derive(Debug, Clone, Copy, PartialEq, Eq, Structural)]
pub enum ConnectionState {
    Connecting,
    Handshaking,
    Connected,
    Disconnected,
    Failed,
}

/// One connection: whom it is to, which torrent it is about, where it
/// stands and when it was last active, in milliseconds.
#[derive(Debug)]
pub struct ConnectionInfo {
    pub addr: PeerAddress,
    pub peer_id: PeerId,
    pub info_hash: crate::common::types::Hash,
    pub state: ConnectionState,
    pub connected_at: u64,
    pub last_activity: u64,
}

impl ConnectionInfo {
    /// A connection that is being made at `now`.
    pub fn new(addr: PeerAddress, peer_id: PeerId, info_hash: crate::common::types::Hash, now: u64) -> (info:
        ConnectionInfo)
        ensures
            info.addr == addr,
            info.peer_id == peer_id,
            info.info_hash == info_hash,
            info.state == ConnectionState::Connecting,
            info.connected_at == now,
            info.last_activity == now,
    {
        ConnectionInfo {
            addr,
            peer_id,
            info_hash,
            state: ConnectionState::Connecting,
            connected_at: now,
            last_activity: now,
        }
    }

    /// Takes note that the connection was active at `now`.
    pub fn update_activity(&mut self, now: u64)
        ensures
            final(self).last_activity == now,
            final(self).addr == old(self).addr,
            final(self).peer_id == old(self).peer_id,
            final(self).info_hash == old(self).info_hash,
            final(self).state == old(self).state,
            final(self).connected_at == old(self).connected_at,
    {
        self.last_activity = now;
    }

    /// Whether the connection was last active more than `timeout`
    /// milliseconds before `now`.
    pub fn is_stale(&self, now: u64, timeout: u64) -> (stale: bool)
        ensures
            stale == (now > self.last_activity && now - self.last_activity > timeout),
    {
        now > self.last_activity && now - self.last_activity > timeout
    }

    /// Whether the connection is up and was active within `timeout`
    /// milliseconds before `now`.
    pub fn is_active(&self, now: u64, timeout: u64) -> (active: bool)
        ensures
            active == (self.state == ConnectionState::Connected && !(now > self.last_activity
                && now - self.last_activity > timeout)),
    {
        self.state == ConnectionState::Connected && !self.is_stale(now, timeout)
    }
}

} // verus!
