use std::collections::HashMap;
use vstd::prelude::*;
use crate::handshake::{HandshakeRequest, CURRENT_VERSION};
use crate::ids::{allocate_id, id_space, is_next_free, remove_connection_id};
use crate::messages::{
    ChannelId, ClientMessage, ConnectionId, ConnectionType, RegistrationFailureCause, RequestId,
    ServerMessage,
};

verus! {

broadcast use vstd::std_specs::hash::group_hash_axioms;

/// A request that the client has sent and the server has not answered yet.
#[derive(Debug, Clone, Copy, PartialEq, Eq, Structural)]
pub enum OutstandingRequest {
    Registration { connection_type: ConnectionType, port: u16 },
}

/// The client's record of an open channel.
#[derive(Debug)]
pub struct ActiveChannel {
    pub connection_type: ConnectionType,
    pub connections: Vec<ConnectionId>,
}

/// The client's record of an open TCP connection: the channel it belongs to.
#[derive(Debug, Clone, Copy, PartialEq, Eq, Structural)]
pub struct ActiveConnection {
    pub owner: ChannelId,
}

/// What the client handler instructs the client to do.
#[derive(Debug)]
#[allow(inconsistent_fields)]
pub enum ClientOperation {
    /// A registration succeeded and the channel was assigned to it.
    NotifyChannelOpened { registered_by_request: RequestId, opened_channel: ChannelId },
    /// Send the message to the server.
    SendMessageToServer { message: ClientMessage },
    /// The server accepted a remote TCP connection on the channel: open the matching
    /// connection to the application server.
    CreateTcpConnectionForChannel { channel: ChannelId, new_connection: ConnectionId },
    /// The server refused a registration.
    NotifyRegistrationFailed { request: RequestId, cause: RegistrationFailureCause },
    /// The remote end closed the TCP connection: close the matching one.
    CloseTcpConnection { channel: ChannelId, connection: ConnectionId },
    /// Send the bytes to the application server over the channel (and connection).
    RelayRemotePacket { channel: ChannelId, connection: Option<ConnectionId>, data: Vec<u8> },
}

#[derive(Debug, Clone, Copy, PartialEq, Eq, Structural)]
pub enum ServerMessageHandlingErrorKind {
    UnknownRequest(RequestId),
}

#[derive(Debug, Clone, Copy, PartialEq, Eq, Structural)]
pub struct ServerMessageHandlingError {
    pub kind: ServerMessageHandlingErrorKind,
}

/// The relay client's state: unanswered registrations, open channels and open TCP
/// connections, each map keyed by the id's number.
pub struct ClientHandler {
    outstanding_requests: HashMap<u32, OutstandingRequest>,
    next_request_id: u32,
    active_channels: HashMap<u32, ActiveChannel>,
    active_connections: HashMap<u32, ActiveConnection>,
}

/// The connection type that a registration asked for.
pub open spec fn requested_type(o: OutstandingRequest) -> ConnectionType {
    match o {
        OutstandingRequest::Registration { connection_type, .. } => connection_type,
    }
}

/// What a `RegistrationSuccessful` does: an unanswered request is resolved into an open
/// channel of the type it asked for, with no connections, and reported; an unknown request
/// is an error. A channel record that already had that id is replaced, and the
/// connections it held are forgotten.
pub open spec fn channel_opened_outcome(
    before: ClientHandler,
    after: ClientHandler,
    request: RequestId,
    channel: ChannelId,
    r: Result<Vec<ClientOperation>, ServerMessageHandlingError>,
) -> bool {
    if !before.outstanding().contains_key(request.0) {
        &&& after == before
        &&& r == Err::<Vec<ClientOperation>, _>(
            ServerMessageHandlingError { kind: ServerMessageHandlingErrorKind::UnknownRequest(request) },
        )
    } else {
        &&& r matches Ok(ops) && ops@ == seq![
            ClientOperation::NotifyChannelOpened { registered_by_request: request, opened_channel: channel },
        ]
        &&& after.outstanding() == before.outstanding().remove(request.0)
        &&& after.channels() == before.channels().insert(channel.0, after.channels()[channel.0])
        &&& after.channels()[channel.0].connection_type == requested_type(before.outstanding()[request.0])
        &&& after.channels()[channel.0].connections@.len() == 0
        &&& forall|c: u32| #[trigger]
            after.connections().contains_key(c) <==> (before.connections().contains_key(c)
                && before.connections()[c].owner != channel)
        &&& forall|c: u32|
            after.connections().contains_key(c) ==> #[trigger] after.connections()[c]
                == before.connections()[c]
        &&& after.request_counter() == before.request_counter()
    }
}

/// What a `RegistrationFailed` does: an unanswered request is dropped and the failure
/// reported; an unknown request is an error.
pub open spec fn registration_failed_outcome(
    before: ClientHandler,
    after: ClientHandler,
    request: RequestId,
    cause: RegistrationFailureCause,
    r: Result<Vec<ClientOperation>, ServerMessageHandlingError>,
) -> bool {
    if !before.outstanding().contains_key(request.0) {
        &&& after == before
        &&& r == Err::<Vec<ClientOperation>, _>(
            ServerMessageHandlingError { kind: ServerMessageHandlingErrorKind::UnknownRequest(request) },
        )
    } else {
        &&& r matches Ok(ops) && ops@ == seq![ClientOperation::NotifyRegistrationFailed { request, cause }]
        &&& after.outstanding() == before.outstanding().remove(request.0)
        &&& after.channels() == before.channels()
        &&& after.connections() == before.connections()
        &&& after.request_counter() == before.request_counter()
    }
}

/// A connection accepted on `channel` is recorded there: it maps to the channel, which
/// lists it last, and nothing else changed.
pub open spec fn connection_attached(
    before: ClientHandler,
    after: ClientHandler,
    channel: ChannelId,
    connection: ConnectionId,
) -> bool {
    &&& after.connections() == before.connections().insert(connection.0, ActiveConnection { owner: channel })
    &&& after.channels() == before.channels().insert(channel.0, after.channels()[channel.0])
    &&& after.channels()[channel.0].connection_type == before.channels()[channel.0].connection_type
    &&& after.channels()[channel.0].connections@ == before.channels()[channel.0].connections@.push(connection)
    &&& after.outstanding() == before.outstanding()
    &&& after.request_counter() == before.request_counter()
}

/// What a `NewIncomingTcpConnection` does: on an open TCP channel the connection is
/// recorded under the channel and its creation requested. A connection id that is open
/// on another channel moves: it leaves that channel's list first. One that is already
/// open on this channel stays as it is. On an unknown or UDP channel it is ignored.
pub open spec fn new_connection_outcome(
    before: ClientHandler,
    after: ClientHandler,
    channel: ChannelId,
    connection: ConnectionId,
    ops: Seq<ClientOperation>,
) -> bool {
    if before.channels().contains_key(channel.0) && before.channels()[channel.0].connection_type
        == ConnectionType::Tcp {
        let moved = before.connections().contains_key(connection.0);
        let previous = before.connections()[connection.0].owner.0;
        let list = before.channels()[previous].connections@;
        &&& ops == seq![ClientOperation::CreateTcpConnectionForChannel { channel, new_connection: connection }]
        &&& if moved && previous == channel.0 {
            after == before
        } else {
            &&& after.connections() == before.connections().insert(connection.0, ActiveConnection { owner: channel })
            &&& after.channels()[channel.0].connection_type == ConnectionType::Tcp
            &&& after.channels()[channel.0].connections@ == before.channels()[channel.0].connections@.push(connection)
            &&& after.outstanding() == before.outstanding()
            &&& after.request_counter() == before.request_counter()
            &&& if moved {
                &&& after.channels() == before.channels().insert(previous, after.channels()[previous]).insert(
                    channel.0,
                    after.channels()[channel.0],
                )
                &&& after.channels()[previous].connection_type == before.channels()[previous].connection_type
                &&& exists|i: int|
                    0 <= i < list.len() && list[i] == connection && after.channels()[previous].connections@
                        == list.remove(i)
            } else {
                after.channels() == before.channels().insert(channel.0, after.channels()[channel.0])
            }
        }
    } else {
        ops.len() == 0 && after == before
    }
}

/// What a `TcpConnectionClosed` does: an open connection of the named channel is
/// forgotten and its closing requested; anything else is ignored.
pub open spec fn connection_closed_outcome(
    before: ClientHandler,
    after: ClientHandler,
    channel: ChannelId,
    connection: ConnectionId,
    ops: Seq<ClientOperation>,
) -> bool {
    let list = before.channels()[channel.0].connections@;
    if before.connections().contains_key(connection.0) && before.connections()[connection.0].owner == channel {
        &&& ops == seq![ClientOperation::CloseTcpConnection { channel, connection }]
        &&& after.connections() == before.connections().remove(connection.0)
        &&& after.channels() == before.channels().insert(channel.0, after.channels()[channel.0])
        &&& after.channels()[channel.0].connection_type == before.channels()[channel.0].connection_type
        &&& exists|i: int|
            0 <= i < list.len() && list[i] == connection && after.channels()[channel.0].connections@
                == list.remove(i)
        &&& after.outstanding() == before.outstanding()
        &&& after.request_counter() == before.request_counter()
    } else {
        ops.len() == 0 && after == before
    }
}

/// What a `DataReceived` does: bytes on an open channel are relayed as they are when the
/// connection fits it (one of its own for TCP, none for UDP); otherwise they are dropped.
pub open spec fn data_received_outcome(
    s: ClientHandler,
    channel: ChannelId,
    connection: Option<ConnectionId>,
    data: Vec<u8>,
    ops: Seq<ClientOperation>,
) -> bool {
    if s.channels().contains_key(channel.0) && match s.channels()[channel.0].connection_type {
        ConnectionType::Tcp => connection matches Some(c) && s.channels()[channel.0].connections@.contains(c),
        ConnectionType::Udp => connection is None,
    } {
        ops == seq![ClientOperation::RelayRemotePacket { channel, connection, data }]
    } else {
        ops.len() == 0
    }
}

/// Opening a channel keeps the handler well formed when the connections that pointed at
/// a replaced record of it are gone and the new record lists none.
proof fn lemma_open_channel_wf(before: ClientHandler, after: ClientHandler, channel: ChannelId)
    requires
        before.wf(),
        after.channels() == before.channels().insert(channel.0, after.channels()[channel.0]),
        after.channels()[channel.0].connections@.len() == 0,
        forall|c: u32| #[trigger]
            after.connections().contains_key(c) <==> (before.connections().contains_key(c)
                && (!before.channels().contains_key(channel.0)
                || !before.channels()[channel.0].connections@.contains(ConnectionId(c)))),
        forall|c: u32|
            after.connections().contains_key(c) ==> #[trigger] after.connections()[c]
                == before.connections()[c],
    ensures
        after.wf(),
        forall|c: u32| #[trigger]
            after.connections().contains_key(c) <==> (before.connections().contains_key(c)
                && before.connections()[c].owner != channel),
{
    assert forall|c: u32| #[trigger]
        after.connections().contains_key(c) <==> (before.connections().contains_key(c)
            && before.connections()[c].owner != channel) by {
        if before.connections().contains_key(c) {
            assert(before.connection_is_owned(c));
            if before.channels().contains_key(channel.0) && before.channels()[channel.0].connections@.contains(ConnectionId(c)) {
                assert(before.channel_lists_own(channel.0));
                let list = before.channels()[channel.0].connections@;
                let m = choose|m: int| 0 <= m < list.len() && #[trigger] list[m] == ConnectionId(c);
                assert(before.connections().contains_key(list[m].0));
            }
        }
    }
    assert forall|k: u32| #[trigger] after.connections().contains_key(k) implies after.connection_is_owned(k) by {
        assert(before.connection_is_owned(k));
    }
    assert forall|k: u32| #[trigger] after.channels().contains_key(k) implies after.channel_lists_own(k) by {
        if k != channel.0 {
            assert(before.channel_lists_own(k));
            let list = before.channels()[k].connections@;
            assert forall|n: int| 0 <= n < list.len() implies {
                &&& #[trigger] after.connections().contains_key(list[n].0)
                &&& after.connections()[list[n].0].owner == ChannelId(k)
            } by {
                assert(before.connections().contains_key(list[n].0));
            }
        }
    }
}

/// The well-formedness of a handler depends on its channels and connections alone.
proof fn lemma_same_graph_wf(before: ClientHandler, after: ClientHandler)
    requires
        before.wf(),
        after.channels() == before.channels(),
        after.connections() == before.connections(),
    ensures
        after.wf(),
{
    assert forall|k: u32| #[trigger] after.connections().contains_key(k) implies after.connection_is_owned(k) by {
        assert(before.connection_is_owned(k));
    }
    assert forall|k: u32| #[trigger] after.channels().contains_key(k) implies after.channel_lists_own(k) by {
        assert(before.channel_lists_own(k));
    }
}

impl ClientHandler {
    pub closed spec fn outstanding(&self) -> Map<u32, OutstandingRequest> {
        self.outstanding_requests@
    }

    pub closed spec fn channels(&self) -> Map<u32, ActiveChannel> {
        self.active_channels@
    }

    pub closed spec fn connections(&self) -> Map<u32, ActiveConnection> {
        self.active_connections@
    }

    /// The last request id handed out (where the next scan starts).
    pub closed spec fn request_counter(&self) -> u32 {
        self.next_request_id
    }

    /// A connection belongs to an open TCP channel that lists it.
    pub open spec fn connection_is_owned(&self, k: u32) -> bool {
        let owner = self.connections()[k].owner.0;
        &&& self.channels().contains_key(owner)
        &&& self.channels()[owner].connection_type == ConnectionType::Tcp
        &&& self.channels()[owner].connections@.contains(ConnectionId(k))
    }

    /// A channel lists open connections of its own, each once; a UDP channel lists none.
    pub open spec fn channel_lists_own(&self, k: u32) -> bool {
        let list = self.channels()[k].connections@;
        &&& list.no_duplicates()
        &&& forall|i: int|
            0 <= i < list.len() ==> {
                &&& #[trigger] self.connections().contains_key(list[i].0)
                &&& self.connections()[list[i].0].owner == ChannelId(k)
            }
        &&& self.channels()[k].connection_type == ConnectionType::Udp ==> list.len() == 0
    }

    /// Channels and connections agree on who owns what.
    pub open spec fn wf(&self) -> bool {
        &&& forall|k: u32| #[trigger]
            self.connections().contains_key(k) ==> self.connection_is_owned(k)
        &&& forall|k: u32| #[trigger] self.channels().contains_key(k) ==> self.channel_lists_own(k)
    }

    /// A handler with nothing open, and the handshake that the client must send first.
    pub fn new() -> (r: (Self, HandshakeRequest))
        ensures
            r.0.wf(),
            r.0.outstanding().dom().is_empty(),
            r.0.channels().dom().is_empty(),
            r.0.connections().dom().is_empty(),
            r.0.request_counter() == 0,
            r.1.client_protocol_version@ == CURRENT_VERSION@,
    {
        let handshake = HandshakeRequest::new();
        let client = ClientHandler {
            outstanding_requests: HashMap::new(),
            next_request_id: 0,
            active_channels: HashMap::new(),
            active_connections: HashMap::new(),
        };
        assert(client.outstanding().dom() =~= Set::empty());
        assert(client.channels().dom() =~= Set::empty());
        assert(client.connections().dom() =~= Set::empty());
        (client, handshake)
    }

    /// Records a registration of `port` under a fresh request id, and returns the
    /// `Register` message to send for it.
    pub fn request_registration(&mut self, connection_type: ConnectionType, port: u16) -> (r: (
        RequestId,
        ClientMessage,
    ))
        requires
            old(self).wf(),
            old(self).outstanding().dom().len() < id_space(),
        ensures
            final(self).wf(),
            is_next_free(old(self).request_counter(), old(self).outstanding().dom(), r.0.0),
            final(self).request_counter() == r.0.0,
            final(self).outstanding() == old(self).outstanding().insert(
                r.0.0,
                OutstandingRequest::Registration { connection_type, port },
            ),
            r.1 == (ClientMessage::Register { request: r.0, connection_type, port }),
            final(self).channels() == old(self).channels(),
            final(self).connections() == old(self).connections(),
    {
        let ghost before = *self;
        let id = allocate_id(self.next_request_id, &self.outstanding_requests);
        self.next_request_id = id;
        let request_id = RequestId(id);
        self.outstanding_requests.insert(id, OutstandingRequest::Registration { connection_type, port });
        let message = ClientMessage::Register { request: request_id, connection_type, port };
        proof {
            lemma_same_graph_wf(before, *self);
        }
        (request_id, message)
    }

    /// Handles a message of the server; what each message does is stated by its outcome.
    pub fn handle_server_message(&mut self, message: ServerMessage) -> (r: Result<
        Vec<ClientOperation>,
        ServerMessageHandlingError,
    >)
        requires
            old(self).wf(),
        ensures
            final(self).wf(),
            r is Err ==> *final(self) == *old(self),
            match message {
                ServerMessage::RegistrationSuccessful { request, created_channel } => channel_opened_outcome(
                    *old(self),
                    *final(self),
                    request,
                    created_channel,
                    r,
                ),
                ServerMessage::RegistrationFailed { request, cause } => registration_failed_outcome(
                    *old(self),
                    *final(self),
                    request,
                    cause,
                    r,
                ),
                ServerMessage::NewIncomingTcpConnection { channel, new_connection } => r matches Ok(ops)
                    && new_connection_outcome(*old(self), *final(self), channel, new_connection, ops@),
                ServerMessage::TcpConnectionClosed { channel, connection } => r matches Ok(ops)
                    && connection_closed_outcome(*old(self), *final(self), channel, connection, ops@),
                ServerMessage::DataReceived { channel, connection, data } => r matches Ok(ops)
                    && *final(self) == *old(self) && data_received_outcome(
                    *old(self),
                    channel,
                    connection,
                    data,
                    ops@,
                ),
            },
    {
        match message {
            ServerMessage::RegistrationSuccessful { request, created_channel } => {
                self.open_channel(request, created_channel)
            },
            ServerMessage::RegistrationFailed { request, cause } => self.fail_registration(request, cause),
            ServerMessage::NewIncomingTcpConnection { channel, new_connection } => {
                Ok(self.add_connection(channel, new_connection))
            },
            ServerMessage::TcpConnectionClosed { channel, connection } => {
                Ok(self.close_connection(channel, connection))
            },
            ServerMessage::DataReceived { channel, connection, data } => {
                Ok(self.relay_data(channel, connection, data))
            },
        }
    }

    fn open_channel(&mut self, request: RequestId, channel: ChannelId) -> (r: Result<
        Vec<ClientOperation>,
        ServerMessageHandlingError,
    >)
        requires
            old(self).wf(),
        ensures
            final(self).wf(),
            channel_opened_outcome(*old(self), *final(self), request, channel, r),
    {
        let ghost before = *self;
        if !self.outstanding_requests.contains_key(&request.0) {
            return Err(ServerMessageHandlingError { kind: ServerMessageHandlingErrorKind::UnknownRequest(request) });
        }
        let outstanding = match self.outstanding_requests.remove(&request.0) {
            Some(x) => x,
            None => return Ok(Vec::new()),
        };
        let connection_type = match outstanding {
            OutstandingRequest::Registration { connection_type, .. } => connection_type,
        };
        let ghost mid = *self;
        assert(mid.channels() == before.channels() && mid.connections() == before.connections());
        if let Some(replaced) = self.active_channels.remove(&channel.0) {
            assert(before.channel_lists_own(channel.0));
            let mut i: usize = 0;
            while i < replaced.connections.len()
                invariant
                    replaced == mid.channels()[channel.0],
                    mid.channels().contains_key(channel.0),
                    i <= replaced.connections@.len(),
                    self.outstanding() == mid.outstanding(),
                    self.request_counter() == mid.request_counter(),
                    self.channels() == mid.channels().remove(channel.0),
                    forall|c: u32| #[trigger]
                        self.connections().contains_key(c) <==> (mid.connections().contains_key(c)
                            && !replaced.connections@.subrange(0, i as int).contains(ConnectionId(c))),
                    forall|c: u32|
                        self.connections().contains_key(c) ==> #[trigger] self.connections()[c]
                            == mid.connections()[c],
                decreases replaced.connections@.len() - i,
            {
                let connection = replaced.connections[i];
                let ghost conns_before = self.connections();
                self.active_connections.remove(&connection.0);
                assert(self.connections() == conns_before.remove(connection.0));
                proof {
                    let s = replaced.connections@;
                    assert(s.subrange(0, i + 1) =~= s.subrange(0, i as int).push(connection));
                    assert forall|c: u32| #[trigger]
                        self.connections().contains_key(c) <==> (mid.connections().contains_key(c)
                            && !s.subrange(0, i + 1).contains(ConnectionId(c))) by {
                        if c == connection.0 {
                            assert(s.subrange(0, i + 1)[i as int] == connection);
                        } else {
                            if s.subrange(0, i + 1).contains(ConnectionId(c)) {
                                let j = choose|j: int| 0 <= j < i + 1 && #[trigger] s.subrange(0, i + 1)[j] == ConnectionId(c);
                                assert(s.subrange(0, i as int)[j] == ConnectionId(c));
                            }
                            if s.subrange(0, i as int).contains(ConnectionId(c)) {
                                let j = choose|j: int| 0 <= j < i && #[trigger] s.subrange(0, i as int)[j] == ConnectionId(c);
                                assert(s.subrange(0, i + 1)[j] == ConnectionId(c));
                            }
                        }
                    }
                }
                i = i + 1;
            }
            assert(replaced.connections@.subrange(0, i as int) =~= replaced.connections@);
            assert(forall|c: u32| #[trigger]
                self.connections().contains_key(c) <==> (before.connections().contains_key(c)
                    && (!before.channels().contains_key(channel.0)
                    || !before.channels()[channel.0].connections@.contains(ConnectionId(c)))));
            assert(forall|c: u32|
                self.connections().contains_key(c) ==> #[trigger] self.connections()[c]
                    == before.connections()[c]);
        } else {
            assert(!before.channels().contains_key(channel.0));
            assert(self.connections() == before.connections());
        }
        let ghost cleared = self.connections();
        assert(forall|c: u32| #[trigger]
            cleared.contains_key(c) <==> (before.connections().contains_key(c)
                && (!before.channels().contains_key(channel.0)
                || !before.channels()[channel.0].connections@.contains(ConnectionId(c)))));
        self.active_channels.insert(channel.0, ActiveChannel { connection_type, connections: Vec::new() });
        assert(self.connections() == cleared);
        proof {
            assert(self.channels() =~= before.channels().insert(channel.0, self.channels()[channel.0]));
            lemma_open_channel_wf(before, *self, channel);
        }
        let mut ops: Vec<ClientOperation> = Vec::new();
        ops.push(ClientOperation::NotifyChannelOpened { registered_by_request: request, opened_channel: channel });
        Ok(ops)
    }

    fn fail_registration(&mut self, request: RequestId, cause: RegistrationFailureCause) -> (r: Result<
        Vec<ClientOperation>,
        ServerMessageHandlingError,
    >)
        requires
            old(self).wf(),
        ensures
            final(self).wf(),
            registration_failed_outcome(*old(self), *final(self), request, cause, r),
    {
        let ghost before = *self;
        if !self.outstanding_requests.contains_key(&request.0) {
            return Err(ServerMessageHandlingError { kind: ServerMessageHandlingErrorKind::UnknownRequest(request) });
        }
        self.outstanding_requests.remove(&request.0);
        proof {
            lemma_same_graph_wf(before, *self);
        }
        let mut ops: Vec<ClientOperation> = Vec::new();
        ops.push(ClientOperation::NotifyRegistrationFailed { request, cause });
        Ok(ops)
    }

    fn add_connection(&mut self, channel_id: ChannelId, new_connection: ConnectionId) -> (ops: Vec<ClientOperation>)
        requires
            old(self).wf(),
        ensures
            final(self).wf(),
            new_connection_outcome(*old(self), *final(self), channel_id, new_connection, ops@),
    {
        let ghost before = *self;
        let connection_type = match self.active_channels.get(&channel_id.0) {
            Some(x) => x.connection_type,
            None => return Vec::new(),
        };
        if connection_type != ConnectionType::Tcp {
            return Vec::new();
        }
        let previous = match self.active_connections.get(&new_connection.0) {
            Some(x) => Some(x.owner),
            None => None,
        };
        let mut ops: Vec<ClientOperation> = Vec::new();
        ops.push(ClientOperation::CreateTcpConnectionForChannel { channel: channel_id, new_connection });
        match previous {
            Some(owner) => {
                if owner == channel_id {
                    return ops;
                }
                let _ = self.close_connection(owner, new_connection);
                let ghost mid = *self;
                proof {
                    assert(before.connection_is_owned(new_connection.0));
                }
                self.attach_connection(channel_id, new_connection);
                proof {
                    let after = *self;
                    assert(after.connections() =~= before.connections().insert(
                        new_connection.0,
                        ActiveConnection { owner: channel_id },
                    ));
                    assert(after.channels() =~= before.channels().insert(owner.0, after.channels()[owner.0]).insert(
                        channel_id.0,
                        after.channels()[channel_id.0],
                    ));
                }
            },
            None => {
                self.attach_connection(channel_id, new_connection);
            },
        }
        ops
    }

    /// Records a connection that is not open yet under an open TCP channel.
    fn attach_connection(&mut self, channel_id: ChannelId, new_connection: ConnectionId)
        requires
            old(self).wf(),
            old(self).channels().contains_key(channel_id.0),
            old(self).channels()[channel_id.0].connection_type == ConnectionType::Tcp,
            !old(self).connections().contains_key(new_connection.0),
        ensures
            final(self).wf(),
            connection_attached(*old(self), *final(self), channel_id, new_connection),
    {
        let ghost before = *self;
        let mut channel = match self.active_channels.remove(&channel_id.0) {
            Some(x) => x,
            None => return,
        };
        channel.connections.push(new_connection);
        self.active_channels.insert(channel_id.0, channel);
        self.active_connections.insert(new_connection.0, ActiveConnection { owner: channel_id });
        proof {
            let after = *self;
            let ch = channel_id.0;
            let k = new_connection.0;
            assert(after.channels() =~= before.channels().insert(ch, after.channels()[ch]));
            assert(before.channel_lists_own(ch));
            let old_list = before.channels()[ch].connections@;
            let list = after.channels()[ch].connections@;
            assert(list[list.len() - 1] == new_connection);
            assert forall|c: u32| #[trigger] after.connections().contains_key(c) implies after.connection_is_owned(c) by {
                if c != k {
                    assert(before.connection_is_owned(c));
                    if before.connections()[c].owner.0 == ch {
                        let m = choose|m: int| 0 <= m < old_list.len() && #[trigger] old_list[m] == ConnectionId(c);
                        assert(list[m] == ConnectionId(c));
                    }
                }
            }
            assert forall|j: u32| #[trigger] after.channels().contains_key(j) implies after.channel_lists_own(j) by {
                assert(before.channel_lists_own(j));
                if j == ch {
                    assert forall|a: int, b: int| 0 <= a < b < list.len() implies list[a] != list[b] by {
                        if b == list.len() - 1 {
                            assert(before.connections().contains_key(old_list[a].0));
                        }
                    }
                    assert forall|n: int| 0 <= n < list.len() implies {
                        &&& #[trigger] after.connections().contains_key(list[n].0)
                        &&& after.connections()[list[n].0].owner == ChannelId(j)
                    } by {
                        if n < list.len() - 1 {
                            assert(before.connections().contains_key(old_list[n].0));
                        }
                    }
                } else {
                    let lj = before.channels()[j].connections@;
                    assert forall|n: int| 0 <= n < lj.len() implies {
                        &&& #[trigger] after.connections().contains_key(lj[n].0)
                        &&& after.connections()[lj[n].0].owner == ChannelId(j)
                    } by {
                        assert(before.connections().contains_key(lj[n].0));
                    }
                }
            }
        }
    }

    fn close_connection(&mut self, channel_id: ChannelId, connection_id: ConnectionId) -> (ops: Vec<ClientOperation>)
        requires
            old(self).wf(),
        ensures
            final(self).wf(),
            connection_closed_outcome(*old(self), *final(self), channel_id, connection_id, ops@),
    {
        let ghost before = *self;
        let owner = match self.active_connections.get(&connection_id.0) {
            Some(x) => x.owner,
            None => return Vec::new(),
        };
        if owner != channel_id {
            return Vec::new();
        }
        assert(before.connection_is_owned(connection_id.0));
        assert(before.channel_lists_own(channel_id.0));
        let mut channel = match self.active_channels.remove(&channel_id.0) {
            Some(x) => x,
            None => return Vec::new(),
        };
        remove_connection_id(&mut channel.connections, connection_id);
        self.active_channels.insert(channel_id.0, channel);
        self.active_connections.remove(&connection_id.0);
        proof {
            let after = *self;
            let ch = channel_id.0;
            let k = connection_id.0;
            assert(after.channels() =~= before.channels().insert(ch, after.channels()[ch]));
            let old_list = before.channels()[ch].connections@;
            let list = after.channels()[ch].connections@;
            assert forall|c: u32| #[trigger] after.connections().contains_key(c) implies after.connection_is_owned(c) by {
                assert(before.connection_is_owned(c));
            }
            assert forall|j: u32| #[trigger] after.channels().contains_key(j) implies after.channel_lists_own(j) by {
                assert(before.channel_lists_own(j));
                if j == ch {
                    assert forall|n: int| 0 <= n < list.len() implies {
                        &&& #[trigger] after.connections().contains_key(list[n].0)
                        &&& after.connections()[list[n].0].owner == ChannelId(j)
                    } by {
                        assert(list.contains(list[n]));
                        let m = choose|m: int| 0 <= m < old_list.len() && #[trigger] old_list[m] == list[n];
                        assert(before.connections().contains_key(old_list[m].0));
                    }
                    assert(list.len() <= old_list.len());
                } else {
                    let lj = before.channels()[j].connections@;
                    assert forall|n: int| 0 <= n < lj.len() implies {
                        &&& #[trigger] after.connections().contains_key(lj[n].0)
                        &&& after.connections()[lj[n].0].owner == ChannelId(j)
                    } by {
                        assert(before.connections().contains_key(lj[n].0));
                    }
                }
            }
        }
        let mut ops: Vec<ClientOperation> = Vec::new();
        ops.push(ClientOperation::CloseTcpConnection { channel: channel_id, connection: connection_id });
        ops
    }

    fn relay_data(&self, channel_id: ChannelId, connection_id: Option<ConnectionId>, data: Vec<u8>) -> (ops: Vec<
        ClientOperation,
    >)
        requires
            self.wf(),
        ensures
            data_received_outcome(*self, channel_id, connection_id, data, ops@),
    {
        let connection_type = match self.active_channels.get(&channel_id.0) {
            Some(x) => x.connection_type,
            None => return Vec::new(),
        };
        match connection_type {
            ConnectionType::Tcp => {
                match connection_id {
                    Some(c) => {
                        let owner = match self.active_connections.get(&c.0) {
                            Some(x) => x.owner,
                            None => {
                                proof {
                                    assert(self.channel_lists_own(channel_id.0));
                                    if self.channels()[channel_id.0].connections@.contains(c) {
                                        let m = choose|m: int| 0 <= m < self.channels()[channel_id.0].connections@.len()
                                            && #[trigger] self.channels()[channel_id.0].connections@[m] == c;
                                        assert(self.connections().contains_key(self.channels()[channel_id.0].connections@[m].0));
                                    }
                                }
                                return Vec::new();
                            },
                        };
                        proof {
                            assert(self.connection_is_owned(c.0));
                            assert(self.channel_lists_own(channel_id.0));
                            if self.channels()[channel_id.0].connections@.contains(c) {
                                let m = choose|m: int| 0 <= m < self.channels()[channel_id.0].connections@.len()
                                    && #[trigger] self.channels()[channel_id.0].connections@[m] == c;
                                assert(self.connections().contains_key(self.channels()[channel_id.0].connections@[m].0));
                            }
                        }
                        if owner != channel_id {
                            return Vec::new();
                        }
                    },
                    None => return Vec::new(),
                }
            },
            ConnectionType::Udp => {
                if connection_id.is_some() {
                    return Vec::new();
                }
            },
        }
        let mut ops: Vec<ClientOperation> = Vec::new();
        ops.push(ClientOperation::RelayRemotePacket { channel: channel_id, connection: connection_id, data });
        ops
    }
}

/// A registration is answered at most once: an answer that the handler accepts
/// resolves the request, and any later answer to it, success or failure, is an error.
pub proof fn lemma_request_resolved_once(
    before: ClientHandler,
    after: ClientHandler,
    request: RequestId,
    channel: ChannelId,
    cause: RegistrationFailureCause,
    r: Result<Vec<ClientOperation>, ServerMessageHandlingError>,
)
    requires
        channel_opened_outcome(before, after, request, channel, r) || registration_failed_outcome(
            before,
            after,
            request,
            cause,
            r,
        ),
        r is Ok,
    ensures
        !after.outstanding().contains_key(request.0),
        forall|next: ClientHandler, other: ChannelId, r2: Result<Vec<ClientOperation>, ServerMessageHandlingError>|
            #[trigger] channel_opened_outcome(after, next, request, other, r2) ==> r2 is Err,
        forall|next: ClientHandler, c: RegistrationFailureCause, r2: Result<Vec<ClientOperation>, ServerMessageHandlingError>|
            #[trigger] registration_failed_outcome(after, next, request, c, r2) ==> r2 is Err,
{
}

} // verus!
