//! The session-authentication handshake.
//!
//! A client asks for a session with a `ConnectRequest` naming the protocol
//! it speaks and a chosen client identifier; the server validates the
//! protocol id and, in unsecured mode, accepts every syntactically valid
//! request, assigning the requested identifier. The client's side is a
//! small state machine that reaches `Connected` only on a `ConnectAccept`
//! and falls to `Rejected` on any other response or on a timeout.

use crate::codec::ControlMessage;
use vstd::prelude::*;

verus! {

/// The authentication policy.
#[derive(Clone, Copy, Debug, PartialEq, Eq, Structural)]
pub enum AuthMode {
    /// Accept every syntactically valid request.
    Unsecure,
    /// The hook for a pre-shared or signed token. Validation for it is not
    /// implemented here: requests under this mode are refused, keeping the
    /// pluggable step between `Authenticating` and `Connected` explicit.
    Secure,
}

/// The client's handshake states.
#[derive(Clone, Copy, Debug, PartialEq, Eq, Structural)]
pub enum ClientAuthState {
    /// Nothing sent yet.
    AwaitingConnect,
    /// A connect request is on the wire; awaiting the server's answer.
    Authenticating,
    /// The server accepted; the session is live.
    Connected,
    /// The server refused, answered unexpectedly, or timed out.
    Rejected,
    /// The session was torn down; terminal.
    Disconnected,
}

/// Reason code: the request named a protocol the server does not speak.
pub const REASON_PROTOCOL_MISMATCH: u8 = 1;

/// Reason code: the server's authentication mode admits no such request.
pub const REASON_MODE_UNSUPPORTED: u8 = 2;

/// The client's side of the handshake.
pub struct ClientAuthenticator {
    pub protocol_id: u32,
    pub requested_id: u64,
    pub state: ClientAuthState,
    pub assigned_id: Option<u64>,
}

/// The client's transition on a handshake response: an accept while
/// authenticating connects and records the assigned id; any other
/// response while authenticating rejects; responses in other states
/// change nothing.
pub open spec fn spec_client_on_response(
    s: ClientAuthenticator,
    m: ControlMessage,
) -> ClientAuthenticator {
    if s.state is Authenticating {
        match m {
            ControlMessage::ConnectAccept { client_id } => ClientAuthenticator {
                state: ClientAuthState::Connected,
                assigned_id: Some(client_id),
                ..s
            },
            _ => ClientAuthenticator { state: ClientAuthState::Rejected, ..s },
        }
    } else {
        s
    }
}

impl ClientAuthenticator {
    /// A fresh client handshake for the given protocol, requesting the
    /// given identifier.
    pub fn new(protocol_id: u32, requested_id: u64) -> (c: ClientAuthenticator)
        ensures
            c.protocol_id == protocol_id,
            c.requested_id == requested_id,
            c.state is AwaitingConnect,
            c.assigned_id is None,
    {
        ClientAuthenticator {
            protocol_id,
            requested_id,
            state: ClientAuthState::AwaitingConnect,
            assigned_id: None,
        }
    }

    /// Produces the connect request and moves to `Authenticating`.
    pub fn connect_request(&mut self) -> (m: ControlMessage)
        requires
            old(self).state is AwaitingConnect,
        ensures
            final(self).state is Authenticating,
            final(self).protocol_id == old(self).protocol_id,
            final(self).requested_id == old(self).requested_id,
            final(self).assigned_id == old(self).assigned_id,
            m == (ControlMessage::ConnectRequest {
                protocol_id: old(self).protocol_id,
                client_id: old(self).requested_id,
            }),
    {
        self.state = ClientAuthState::Authenticating;
        ControlMessage::ConnectRequest {
            protocol_id: self.protocol_id,
            client_id: self.requested_id,
        }
    }

    /// Feeds one handshake response to the state machine.
    pub fn on_response(&mut self, m: ControlMessage)
        ensures
            *final(self) == spec_client_on_response(*old(self), m),
    {
        if self.state == ClientAuthState::Authenticating {
            match m {
                ControlMessage::ConnectAccept { client_id } => {
                    self.state = ClientAuthState::Connected;
                    self.assigned_id = Some(client_id);
                },
                _ => {
                    self.state = ClientAuthState::Rejected;
                },
            }
        }
    }

    /// A handshake timeout: an unanswered request is a rejection.
    pub fn on_timeout(&mut self)
        ensures
            *final(self) == if old(self).state is Authenticating {
                ClientAuthenticator { state: ClientAuthState::Rejected, ..*old(self) }
            } else {
                *old(self)
            },
    {
        if self.state == ClientAuthState::Authenticating {
            self.state = ClientAuthState::Rejected;
        }
    }

    /// Tears the session down; `Disconnected` is terminal.
    pub fn disconnect(&mut self)
        ensures
            *final(self) == (ClientAuthenticator {
                state: ClientAuthState::Disconnected,
                ..*old(self)
            }),
    {
        self.state = ClientAuthState::Disconnected;
    }
}

/// A client reaches `Connected` only by a `ConnectAccept` answered while
/// it was authenticating; no other response, in no other state, connects
/// it.
pub proof fn theorem_connected_only_by_accept(s: ClientAuthenticator, m: ControlMessage)
    requires
        !(s.state is Connected),
    ensures
        spec_client_on_response(s, m).state is Connected ==> s.state is Authenticating
            && m is ConnectAccept,
{
}

/// The server's side of the handshake.
pub struct ServerAuthenticator {
    pub protocol_id: u32,
    pub mode: AuthMode,
}

/// The server's verdict on a connect request: a protocol mismatch is
/// refused with its reason code; under the unsecured policy every other
/// request is accepted with the identifier it asked for; under the secure
/// policy, for which no validator is wired in, requests are refused.
pub open spec fn spec_handle_connect(a: ServerAuthenticator, protocol_id: u32, client_id: u64) -> Result<
    u64,
    u8,
> {
    if protocol_id != a.protocol_id {
        Err(REASON_PROTOCOL_MISMATCH)
    } else if a.mode is Secure {
        Err(REASON_MODE_UNSUPPORTED)
    } else {
        Ok(client_id)
    }
}

impl ServerAuthenticator {
    /// A fresh server authenticator for the given protocol and policy.
    pub fn new(protocol_id: u32, mode: AuthMode) -> (a: ServerAuthenticator)
        ensures
            a.protocol_id == protocol_id,
            a.mode == mode,
    {
        ServerAuthenticator { protocol_id, mode }
    }

    /// Validates one connect request, returning the assigned client
    /// identifier or the reason code of the refusal.
    pub fn handle_connect_request(&self, protocol_id: u32, client_id: u64) -> (r: Result<u64, u8>)
        ensures
            r == spec_handle_connect(*self, protocol_id, client_id),
    {
        if protocol_id != self.protocol_id {
            Err(REASON_PROTOCOL_MISMATCH)
        } else {
            match self.mode {
                AuthMode::Unsecure => Ok(client_id),
                AuthMode::Secure => Err(REASON_MODE_UNSUPPORTED),
            }
        }
    }
}

} // verus!
