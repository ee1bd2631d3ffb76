//! The life cycle of a server and of the connection requests it answers.
use std::collections::HashMap;

use vstd::prelude::*;

verus! {

broadcast use vstd::std_specs::hash::group_hash_axioms;

/// The answer to a client's connection request.
#[derive(Clone, Copy, Debug, PartialEq, Eq, Structural, Hash)]
pub enum ConnectionResponse {
    /// The client may connect.
    Accept,
    /// The client is turned away.
    Forbidden,
    /// The requested path does not exist.
    NotFound,
}

/// Why a server operation was refused.
#[derive(Clone, Copy, Debug, PartialEq, Eq, Structural)]
pub enum ServerError {
    /// The server is already open.
    AlreadyOpen,
    /// The server is already closed.
    AlreadyClosed,
    /// The server is not open.
    NotOpen,
    /// No client has this key.
    NoClient,
    /// The client is not asking to connect.
    ClientNotRequesting,
    /// The client's request was already answered.
    AlreadyResponded,
}

/// Where one client of an open server stands.
#[derive(Clone, Copy, Debug, PartialEq, Eq, Structural)]
pub enum ClientSlot {
    /// Asking to connect, not answered yet.
    Requesting,
    /// Asking to connect, answered.
    Responded(ConnectionResponse),
    /// Connected.
    Connected,
}

/// The clients of an open server, by key.
pub struct OpenServer {
    pub clients: HashMap<u64, ClientSlot>,
}

impl OpenServer {
    /// Answers the request of client `client_key`, which must be asking and
    /// not answered yet.
    pub fn respond(&mut self, client_key: u64, response: ConnectionResponse) -> (r: Result<
        (),
        ServerError,
    >)
        ensures
            !old(self).clients@.contains_key(client_key) ==> r == Err::<(), ServerError>(
                ServerError::NoClient,
            ),
            old(self).clients@.contains_key(client_key) ==> r == (match old(self).clients@[client_key] {
                ClientSlot::Requesting => Ok(()),
                ClientSlot::Responded(_) => Err(ServerError::AlreadyResponded),
                ClientSlot::Connected => Err(ServerError::ClientNotRequesting),
            }),
            r is Ok ==> final(self).clients@ == old(self).clients@.insert(
                client_key,
                ClientSlot::Responded(response),
            ),
            r is Err ==> final(self).clients@ == old(self).clients@,
    {
        let slot = match self.clients.get(&client_key) {
            None => {
                return Err(ServerError::NoClient);
            },
            Some(s) => *s,
        };
        match slot {
            ClientSlot::Requesting => {
                self.clients.insert(client_key, ClientSlot::Responded(response));
                Ok(())
            },
            ClientSlot::Responded(_) => Err(ServerError::AlreadyResponded),
            ClientSlot::Connected => Err(ServerError::ClientNotRequesting),
        }
    }
}

/// The outcome of answering client `key` with `response` on an open server
/// `s`, leaving `t` and returning `r`: refused if the client is unknown,
/// connected or already answered; otherwise its answer is recorded.
pub open spec fn answered(
    s: WebTransportServer,
    t: WebTransportServer,
    key: u64,
    response: ConnectionResponse,
    r: Result<(), ServerError>,
) -> bool {
    match (s, t) {
        (WebTransportServer::Open(s), WebTransportServer::Open(t)) => {
            &&& if !s.clients@.contains_key(key) {
                r == Err::<(), ServerError>(ServerError::NoClient)
            } else {
                r == match s.clients@[key] {
                    ClientSlot::Requesting => Ok(()),
                    ClientSlot::Responded(_) => Err(ServerError::AlreadyResponded),
                    ClientSlot::Connected => Err(ServerError::ClientNotRequesting),
                }
            }
            &&& r is Ok ==> t.clients@ == s.clients@.insert(key, ClientSlot::Responded(response))
            &&& r is Err ==> t.clients@ == s.clients@
        },
        _ => false,
    }
}

/// A server: closed, opening, or open with its clients.
pub enum WebTransportServer {
    Closed,
    Opening,
    Open(OpenServer),
}

impl WebTransportServer {
    /// A closed server.
    pub fn new() -> (r: WebTransportServer)
        ensures
            r is Closed,
    {
        WebTransportServer::Closed
    }

    /// Starts opening a closed server.
    pub fn open(&mut self) -> (r: Result<(), ServerError>)
        ensures
            *old(self) is Closed ==> r is Ok && *final(self) is Opening,
            !(*old(self) is Closed) ==> r == Err::<(), ServerError>(ServerError::AlreadyOpen)
                && *final(self) == *old(self),
    {
        match self {
            WebTransportServer::Closed => {
                *self = WebTransportServer::Opening;
                Ok(())
            },
            _ => Err(ServerError::AlreadyOpen),
        }
    }

    /// Records that an opening server is now open, with no clients yet.
    pub fn opened(&mut self)
        ensures
            *old(self) is Opening ==> (*final(self) matches WebTransportServer::Open(s)
                && s.clients@.is_empty()),
            !(*old(self) is Opening) ==> *final(self) == *old(self),
    {
        if let WebTransportServer::Opening = self {
            *self = WebTransportServer::Open(OpenServer { clients: HashMap::new() });
        }
    }

    /// Closes the server, dropping every client at once.
    pub fn close(&mut self) -> (r: Result<(), ServerError>)
        ensures
            *old(self) is Closed ==> r == Err::<(), ServerError>(ServerError::AlreadyClosed),
            !(*old(self) is Closed) ==> r is Ok,
            *final(self) is Closed,
    {
        match self {
            WebTransportServer::Closed => Err(ServerError::AlreadyClosed),
            _ => {
                *self = WebTransportServer::Closed;
                Ok(())
            },
        }
    }

    /// Accepts the connection request of client `client_key`.
    pub fn accept_request(&mut self, client_key: u64) -> (r: Result<(), ServerError>)
        ensures
            !(*old(self) is Open) ==> r == Err::<(), ServerError>(ServerError::NotOpen)
                && *final(self) == *old(self),
            *old(self) is Open ==> answered(*old(self), *final(self), client_key, ConnectionResponse::Accept, r),
    {
        match self {
            WebTransportServer::Open(server) => server.respond(client_key, ConnectionResponse::Accept),
            _ => Err(ServerError::NotOpen),
        }
    }

    /// Turns away the connection request of client `client_key`.
    pub fn reject_request(&mut self, client_key: u64) -> (r: Result<(), ServerError>)
        ensures
            !(*old(self) is Open) ==> r == Err::<(), ServerError>(ServerError::NotOpen)
                && *final(self) == *old(self),
            *old(self) is Open ==> answered(*old(self), *final(self), client_key, ConnectionResponse::Forbidden, r),
    {
        match self {
            WebTransportServer::Open(server) => server.respond(client_key, ConnectionResponse::Forbidden),
            _ => Err(ServerError::NotOpen),
        }
    }
}

} // verus!
