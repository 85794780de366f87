//! One session with a peer: the states it goes through, the handshake that
//! opens it, and the timers that keep or end it.

use crate::common::error::PeerError;
use crate::common::error::TorrentError;
use crate::common::types::same_bytes;
use crate::common::types::PeerId;
use crate::protocol::handshake::Handshake;
use vstd::prelude::*;

verus! {

/// After this long without a message sent, a keep-alive is sent, in
/// milliseconds.
pub const KEEP_ALIVE_INTERVAL: u64 = 120_000;

/// After this long without a message received, the session has failed, in
/// milliseconds.
pub const STALL_TIMEOUT: u64 = 600_000;

/// Where a session stands.
#[derive(Debug, Clone, Copy, PartialEq, Eq, Structural)]
pub enum SessionState {
    Dialing,
    Handshaking,
    Ready,
    Closing,
    Closed,
    Failed,
}

/// Who opened the connection.
#[derive(Debug, Clone, Copy, PartialEq, Eq, Structural)]
pub enum Direction {
    Outbound,
    Inbound,
}

/// What can happen to a session.
#[derive(Debug, Clone, Copy, PartialEq, Eq, Structural)]
pub enum SessionEvent {
    /// The connection was made.
    Connected,
    /// The connection could not be made.
    ConnectFailed,
    /// The handshake of the remote side was accepted.
    HandshakeAccepted,
    /// The handshake of the remote side was refused or did not come.
    HandshakeRejected,
    /// Reading or writing failed, or the remote side fell silent.
    Failure,
    /// The session is to be closed.
    CloseRequested,
    /// What was still to be written has been written.
    Drained,
}

/// What the timers ask for.
#[derive(Debug, Clone, Copy, PartialEq, Eq, Structural)]
pub enum IdleAction {
    Nothing,
    SendKeepAlive,
    Fail,
}

/// The state that an event leads to, if the event can happen in the state.
pub open spec fn transition(state: SessionState, event: SessionEvent) -> Option<SessionState> {
    match (state, event) {
        (SessionState::Dialing, SessionEvent::Connected) => Some(SessionState::Handshaking),
        (SessionState::Dialing, SessionEvent::ConnectFailed) => Some(SessionState::Failed),
        (SessionState::Dialing, SessionEvent::Failure) => Some(SessionState::Failed),
        (SessionState::Handshaking, SessionEvent::HandshakeAccepted) => Some(SessionState::Ready),
        (SessionState::Handshaking, SessionEvent::HandshakeRejected) => Some(SessionState::Failed),
        (SessionState::Handshaking, SessionEvent::Failure) => Some(SessionState::Failed),
        (SessionState::Ready, SessionEvent::CloseRequested) => Some(SessionState::Closing),
        (SessionState::Ready, SessionEvent::Failure) => Some(SessionState::Failed),
        (SessionState::Closing, SessionEvent::Drained) => Some(SessionState::Closed),
        (SessionState::Closing, SessionEvent::Failure) => Some(SessionState::Closed),
        _ => None,
    }
}

/// Whether a session in this state is over.
pub open spec fn terminal(state: SessionState) -> bool {
    state == SessionState::Closed || state == SessionState::Failed
}

/// Nothing happens to a session that is over, and messages flow in no state
/// but `Ready`, which is reached through the handshake alone.
pub proof fn lemma_session_states(state: SessionState, event: SessionEvent)
    ensures
        terminal(state) ==> transition(state, event) is None,
        transition(state, event) == Some(SessionState::Ready) ==> state
            == SessionState::Handshaking && event == SessionEvent::HandshakeAccepted,
        transition(state, event) matches Some(next) ==> next != SessionState::Dialing,
{
}

/// Whether one of the hashes is `hash`.
pub open spec fn knows(known: Seq<crate::common::types::Hash>, hash: Seq<u8>) -> bool {
    exists|i: int| 0 <= i < known.len() && (#[trigger] known[i])@ == hash
}

/// Whether the handshake of the remote side is accepted: it has the
/// standard identifier and is not our own, and it speaks of the torrent that
/// we asked for, or, where the remote side opened the connection, of one
/// that we serve.
pub open spec fn handshake_accepted(
    direction: Direction,
    info_hash: Seq<u8>,
    our_id: Seq<u8>,
    known: Seq<crate::common::types::Hash>,
    theirs: Handshake,
) -> bool {
    &&& theirs.protocol_identifier@ == crate::protocol::PROTOCOL_IDENTIFIER@
    &&& theirs.peer_id@ != our_id
    &&& match direction {
        Direction::Outbound => theirs.info_hash@ == info_hash,
        Direction::Inbound => knows(known, theirs.info_hash@),
    }
}

/// One session.
#[derive(Debug, Clone, Copy)]
pub struct PeerSession {
    pub state: SessionState,
    pub direction: Direction,
    /// The torrent that the session is about; for a connection that the
    /// remote side opened, the one that its handshake named.
    pub info_hash: crate::common::types::Hash,
    pub our_id: PeerId,
    pub remote_id: Option<PeerId>,
    /// When a message was last received, in milliseconds.
    pub last_received: u64,
    /// When a message was last sent, in milliseconds.
    pub last_sent: u64,
    /// How many messages have been received since the handshake.
    pub messages_received: u64,
}

impl PeerSession {
    /// A session that we open at `now`, about a torrent.
    pub fn outbound(info_hash: crate::common::types::Hash, our_id: PeerId, now: u64) -> (s: PeerSession)
        ensures
            s == (PeerSession {
                state: SessionState::Dialing,
                direction: Direction::Outbound,
                info_hash,
                our_id,
                remote_id: None,
                last_received: now,
                last_sent: now,
                messages_received: 0,
            }),
    {
        PeerSession {
            state: SessionState::Dialing,
            direction: Direction::Outbound,
            info_hash,
            our_id,
            remote_id: None,
            last_received: now,
            last_sent: now,
            messages_received: 0,
        }
    }

    /// A session on a connection that the remote side opened at `now`; the
    /// torrent is not known until its handshake has come.
    pub fn inbound(our_id: PeerId, now: u64) -> (s: PeerSession)
        ensures
            s.state == SessionState::Handshaking,
            s.direction == Direction::Inbound,
            s.info_hash@ == Seq::new(20, |i: int| 0u8),
            s.our_id == our_id,
            s.remote_id is None,
            s.last_received == now,
            s.last_sent == now,
            s.messages_received == 0,
    {
        let info_hash = [0u8; 20];
        assert(info_hash@ =~= Seq::new(20, |i: int| 0u8));
        PeerSession {
            state: SessionState::Handshaking,
            direction: Direction::Inbound,
            info_hash,
            our_id,
            remote_id: None,
            last_received: now,
            last_sent: now,
            messages_received: 0,
        }
    }

    /// Whether the session is over.
    pub fn is_terminal(&self) -> (over: bool)
        ensures
            over == terminal(self.state),
    {
        self.state == SessionState::Closed || self.state == SessionState::Failed
    }

    /// Takes an event. An event that cannot happen in the state of the
    /// session is an invalid transition and changes nothing.
    pub fn apply(&mut self, event: SessionEvent) -> (r: Result<SessionState, TorrentError>)
        ensures
            match transition(old(self).state, event) {
                Some(next) => r == Ok::<SessionState, TorrentError>(next) && *final(self)
                    == (PeerSession { state: next, ..*old(self) }),
                None => r == Err::<SessionState, TorrentError>(
                    TorrentError::Peer(PeerError::InvalidStateTransition),
                ) && *final(self) == *old(self),
            },
    {
        let next = match (self.state, event) {
            (SessionState::Dialing, SessionEvent::Connected) => SessionState::Handshaking,
            (SessionState::Dialing, SessionEvent::ConnectFailed) => SessionState::Failed,
            (SessionState::Dialing, SessionEvent::Failure) => SessionState::Failed,
            (SessionState::Handshaking, SessionEvent::HandshakeAccepted) => SessionState::Ready,
            (SessionState::Handshaking, SessionEvent::HandshakeRejected) => SessionState::Failed,
            (SessionState::Handshaking, SessionEvent::Failure) => SessionState::Failed,
            (SessionState::Ready, SessionEvent::CloseRequested) => SessionState::Closing,
            (SessionState::Ready, SessionEvent::Failure) => SessionState::Failed,
            (SessionState::Closing, SessionEvent::Drained) => SessionState::Closed,
            (SessionState::Closing, SessionEvent::Failure) => SessionState::Closed,
            _ => {
                return Err(TorrentError::Peer(PeerError::InvalidStateTransition));
            },
        };
        self.state = next;
        Ok(next)
    }

    /// The handshake that we send: for the torrent of the session, under
    /// our id.
    pub fn our_handshake(&self) -> (h: Handshake)
        ensures
            h.protocol_identifier@ == crate::protocol::PROTOCOL_IDENTIFIER@,
            h.info_hash == self.info_hash,
            h.peer_id == self.our_id,
    {
        Handshake::new(self.info_hash, self.our_id)
    }

    /// Takes the handshake of the remote side at `now`, where `known` are
    /// the torrents that we serve. A session that is not handshaking makes
    /// this an invalid transition and stays as it is. A handshake that is
    /// not accepted makes the session fail. One that is accepted makes it
    /// ready, about the torrent and with the peer that the handshake names.
    pub fn remote_handshake(
        &mut self,
        theirs: &Handshake,
        known: &Vec<crate::common::types::Hash>,
        now: u64,
    ) -> (r: Result<(), TorrentError>)
        ensures
            old(self).state != SessionState::Handshaking ==> r == Err::<(), TorrentError>(
                TorrentError::Peer(PeerError::InvalidStateTransition),
            ) && *final(self) == *old(self),
            old(self).state == SessionState::Handshaking && !handshake_accepted(
                old(self).direction,
                old(self).info_hash@,
                old(self).our_id@,
                known@,
                *theirs,
            ) ==> r == Err::<(), TorrentError>(TorrentError::Peer(PeerError::HandshakeFailed))
                && *final(self) == (PeerSession { state: SessionState::Failed, ..*old(self) }),
            old(self).state == SessionState::Handshaking && handshake_accepted(
                old(self).direction,
                old(self).info_hash@,
                old(self).our_id@,
                known@,
                *theirs,
            ) ==> r is Ok && *final(self) == (PeerSession {
                state: SessionState::Ready,
                info_hash: theirs.info_hash,
                remote_id: Some(theirs.peer_id),
                last_received: now,
                ..*old(self)
            }),
    {
        if self.state != SessionState::Handshaking {
            return Err(TorrentError::Peer(PeerError::InvalidStateTransition));
        }
        let standard = same_bytes(
            theirs.protocol_identifier.as_slice(),
            crate::protocol::PROTOCOL_IDENTIFIER.as_slice(),
        );
        let own = same_bytes(theirs.peer_id.as_slice(), self.our_id.as_slice());
        let wanted = match self.direction {
            Direction::Outbound => same_bytes(theirs.info_hash.as_slice(), self.info_hash.as_slice()),
            Direction::Inbound => {
                let mut found = false;
                let mut i: usize = 0;
                while i < known.len() && !found
                    invariant
                        i <= known@.len(),
                        !found ==> forall|j: int|
                            0 <= j < i ==> (#[trigger] known@[j])@ != theirs.info_hash@,
                        found ==> knows(known@, theirs.info_hash@),
                    decreases known@.len() - i,
                {
                    if same_bytes(known[i].as_slice(), theirs.info_hash.as_slice()) {
                        found = true;
                    }
                    i += 1;
                }
                found
            },
        };
        if !standard || own || !wanted {
            self.state = SessionState::Failed;
            return Err(TorrentError::Peer(PeerError::HandshakeFailed));
        }
        self.state = SessionState::Ready;
        self.info_hash = theirs.info_hash;
        self.remote_id = Some(theirs.peer_id);
        self.last_received = now;
        Ok(())
    }

    /// Takes note that a message was received at `now`. Says whether it
    /// was the first since the handshake, the only place for a bitfield.
    pub fn note_received(&mut self, now: u64) -> (first: bool)
        ensures
            first == (old(self).messages_received == 0),
            *final(self) == (PeerSession {
                last_received: now,
                messages_received: if old(self).messages_received < u64::MAX {
                    (old(self).messages_received + 1) as u64
                } else {
                    u64::MAX
                },
                ..*old(self)
            }),
    {
        let first = self.messages_received == 0;
        self.last_received = now;
        self.messages_received = self.messages_received.saturating_add(1);
        first
    }

    /// Takes note that a message was sent at `now`.
    pub fn note_sent(&mut self, now: u64)
        ensures
            *final(self) == (PeerSession { last_sent: now, ..*old(self) }),
    {
        self.last_sent = now;
    }

    /// What the timers ask for at `now`. A session that is not ready is
    /// left alone. A session that has received nothing for longer than the
    /// stall timeout fails. Else, if nothing was sent for the keep-alive
    /// interval, a keep-alive is to be sent, and counts as sent at `now`.
    pub fn idle_check(&mut self, now: u64) -> (action: IdleAction)
        ensures
            action == idle_action(*old(self), now),
            *final(self) == (match idle_action(*old(self), now) {
                IdleAction::Nothing => *old(self),
                IdleAction::SendKeepAlive => PeerSession { last_sent: now, ..*old(self) },
                IdleAction::Fail => PeerSession { state: SessionState::Failed, ..*old(self) },
            }),
    {
        if self.state != SessionState::Ready {
            return IdleAction::Nothing;
        }
        if now > self.last_received && now - self.last_received > STALL_TIMEOUT {
            self.state = SessionState::Failed;
            return IdleAction::Fail;
        }
        if now > self.last_sent && now - self.last_sent >= KEEP_ALIVE_INTERVAL {
            self.last_sent = now;
            return IdleAction::SendKeepAlive;
        }
        IdleAction::Nothing
    }
}

/// What the timers ask of a session at `now`.
pub open spec fn idle_action(s: PeerSession, now: u64) -> IdleAction {
    if s.state != SessionState::Ready {
        IdleAction::Nothing
    } else if now > s.last_received && now - s.last_received > STALL_TIMEOUT {
        IdleAction::Fail
    } else if now > s.last_sent && now - s.last_sent >= KEEP_ALIVE_INTERVAL {
        IdleAction::SendKeepAlive
    } else {
        IdleAction::Nothing
    }
}

} // verus!
