use std::collections::HashMap;
use vstd::prelude::*;
use vstd::string::StringExecFns;
use crate::handshake::{append_bytes, HandshakeRequest, HandshakeResponse, CURRENT_VERSION};
use crate::ids::{allocate_id, id_space, is_next_free, lemma_next_free_is_not_live, remove_channel_id, remove_connection_id};
use crate::messages::{
    ChannelId, ClientMessage, ConnectionId, ConnectionType, RegistrationFailureCause, RequestId,
    ServerMessage,
};

verus! {

broadcast use vstd::std_specs::hash::group_hash_axioms;

/// Identifies a relay client connected to the server.
#[derive(Copy, Clone, PartialEq, Eq, Debug, Hash, Structural)]
pub struct ClientId(pub u32);

/// A client admitted by the handshake, and the response to send it.
#[derive(Debug)]
pub struct NewClient {
    pub id: ClientId,
    pub response: HandshakeResponse,
}

/// The server's record of a client: the channels it owns.
pub struct ActiveClient {
    pub channels: Vec<ChannelId>,
}

/// The server's record of a channel.
pub struct ActiveChannel {
    pub port: u16,
    pub connection_type: ConnectionType,
    pub owner: ClientId,
    pub tcp_connections: Vec<ConnectionId>,
    pub socket_has_been_bound: bool,
    pub registration_request: RequestId,
}

/// The server's record of an accepted TCP connection.
#[derive(Copy, Clone, PartialEq, Eq, Debug, Structural)]
pub struct ActiveTcpConnection {
    pub owning_channel: ChannelId,
    pub owning_client: ClientId,
}

/// What the server handler instructs the server to do.
#[derive(Debug)]
#[allow(inconsistent_fields)]
pub enum ServerOperation {
    /// Listen for TCP connections on `port`, and raise their events under `channel`.
    StartTcpOperations { port: u16, channel: ChannelId },
    /// Disconnect every TCP connection of `port` and drop its listener.
    StopTcpOperations { port: u16 },
    /// Listen for UDP packets on `port`, and raise them under `channel`.
    StartUdpOperations { port: u16, channel: ChannelId },
    /// Stop listening for UDP packets on `port`.
    StopUdpOperations { port: u16 },
    /// Disconnect the TCP connection.
    DisconnectConnection { connection: ConnectionId },
    /// Send `message` to the relay client.
    SendMessageToDsrpClient { client: ClientId, message: ServerMessage },
    /// Send `data` out over the channel (and the connection, for a TCP channel).
    SendByteData { channel: ChannelId, connection: Option<ConnectionId>, data: Vec<u8> },
}

#[derive(Debug, Clone, Copy, PartialEq, Eq, Structural)]
pub enum ClientMessageHandlingErrorKind {
    UnknownClientId(ClientId),
    ChannelNotFound(ChannelId),
    ChannelNotOwnedByRequester {
        channel: ChannelId,
        requesting_client: ClientId,
        owning_client: ClientId,
    },
}

#[derive(Debug, Clone, Copy, PartialEq, Eq, Structural)]
pub struct ClientMessageHandlingError {
    pub kind: ClientMessageHandlingErrorKind,
}

#[derive(Debug, Clone, Copy, PartialEq, Eq, Structural)]
pub enum NewConnectionErrorKind {
    UnknownChannelId(ChannelId),
    ConnectionAddedToNonTcpChannel(ChannelId),
    ConnectionAddedToUnboundChannel(ChannelId),
}

#[derive(Debug, Clone, Copy, PartialEq, Eq, Structural)]
pub struct NewConnectionError {
    pub kind: NewConnectionErrorKind,
}

/// The relay server's state: clients, the channels they own, the port index, and
/// the accepted TCP connections, each map keyed by the id's number.
pub struct ServerHandler {
    active_clients: HashMap<u32, ActiveClient>,
    active_ports: HashMap<u16, ChannelId>,
    active_channels: HashMap<u32, ActiveChannel>,
    active_tcp_connections: HashMap<u32, ActiveTcpConnection>,
    next_client_id: u32,
    next_channel_id: u32,
    next_connection_id: u32,
}

/// The operation that stops the relaying of a channel's port.
pub open spec fn stop_op(ch: ActiveChannel) -> ServerOperation {
    match ch.connection_type {
        ConnectionType::Tcp => ServerOperation::StopTcpOperations { port: ch.port },
        ConnectionType::Udp => ServerOperation::StopUdpOperations { port: ch.port },
    }
}

/// The operation that starts the relaying of a new channel's port.
pub open spec fn start_op(connection_type: ConnectionType, port: u16, channel: ChannelId) -> ServerOperation {
    match connection_type {
        ConnectionType::Tcp => ServerOperation::StartTcpOperations { port, channel },
        ConnectionType::Udp => ServerOperation::StartUdpOperations { port, channel },
    }
}

/// One `DisconnectConnection` for each connection, in order.
pub open spec fn disconnect_ops(connections: Seq<ConnectionId>) -> Seq<ServerOperation> {
    connections.map_values(|c: ConnectionId| ServerOperation::DisconnectConnection { connection: c })
}

/// Closing a channel: its connections are disconnected first, then its port is stopped.
pub open spec fn teardown_ops(ch: ActiveChannel) -> Seq<ServerOperation> {
    disconnect_ops(ch.tcp_connections@) + seq![stop_op(ch)]
}

/// Closing the listed channels, the last one first.
pub open spec fn teardown_all_ops(chs: Seq<ChannelId>, channels: Map<u32, ActiveChannel>) -> Seq<ServerOperation>
    decreases chs.len(),
{
    if chs.len() == 0 {
        Seq::empty()
    } else {
        teardown_ops(channels[chs.last().0]) + teardown_all_ops(chs.drop_last(), channels)
    }
}


/// `after` is `before` without channel `k`: the channel, its port reservation, its
/// connections and its entry in the owner's list are gone, and nothing else changed.
pub open spec fn channel_destroyed(before: ServerHandler, after: ServerHandler, k: u32) -> bool {
    let ch = before.channels()[k];
    let owned = before.clients()[ch.owner.0].channels@;
    &&& after.channels() == before.channels().remove(k)
    &&& after.ports() == before.ports().remove(ch.port)
    &&& forall|c: u32| #[trigger]
        after.connections().contains_key(c) <==> (before.connections().contains_key(c)
            && before.connections()[c].owning_channel != ChannelId(k))
    &&& forall|c: u32|
        after.connections().contains_key(c) ==> #[trigger] after.connections()[c]
            == before.connections()[c]
    &&& after.clients() == before.clients().insert(ch.owner.0, after.clients()[ch.owner.0])
    &&& exists|i: int|
        0 <= i < owned.len() && owned[i] == ChannelId(k) && after.clients()[ch.owner.0].channels@
            == owned.remove(i)
    &&& after.client_counter() == before.client_counter()
    &&& after.channel_counter() == before.channel_counter()
    &&& after.connection_counter() == before.connection_counter()
}

/// `after` is `before` without client `id`: the client, every channel it owned, every
/// connection of those channels and their port reservations are gone, and nothing
/// else changed.
pub open spec fn client_removed(before: ServerHandler, after: ServerHandler, id: ClientId) -> bool {
    &&& after.clients() == before.clients().remove(id.0)
    &&& forall|k: u32| #[trigger]
        after.channels().contains_key(k) <==> (before.channels().contains_key(k)
            && before.channels()[k].owner != id)
    &&& forall|k: u32|
        after.channels().contains_key(k) ==> #[trigger] after.channels()[k] == before.channels()[k]
    &&& forall|c: u32| #[trigger]
        after.connections().contains_key(c) <==> (before.connections().contains_key(c)
            && before.connections()[c].owning_client != id)
    &&& forall|c: u32|
        after.connections().contains_key(c) ==> #[trigger] after.connections()[c]
            == before.connections()[c]
    &&& forall|p: u16| #[trigger]
        after.ports().contains_key(p) <==> (before.ports().contains_key(p)
            && before.channels()[before.ports()[p].0].owner != id)
    &&& forall|p: u16| after.ports().contains_key(p) ==> #[trigger] after.ports()[p] == before.ports()[p]
    &&& after.client_counter() == before.client_counter()
    &&& after.channel_counter() == before.channel_counter()
    &&& after.connection_counter() == before.connection_counter()
}

/// While a client is being removed: its list is cut down to its first `n` channels,
/// and exactly the channels (with their connections and ports) that it no longer lists
/// are gone.
#[verifier::opaque]
pub open spec fn removal_progress(before: ServerHandler, now: ServerHandler, id: ClientId, n: int) -> bool {
    let all = before.clients()[id.0].channels@;
    let kept = all.subrange(0, n);
    &&& now.clients() == before.clients().insert(id.0, now.clients()[id.0])
    &&& now.clients()[id.0].channels@ == kept
    &&& forall|k: u32| #[trigger]
        now.channels().contains_key(k) <==> (before.channels().contains_key(k) && (
        before.channels()[k].owner != id || kept.contains(ChannelId(k))))
    &&& forall|k: u32|
        now.channels().contains_key(k) ==> #[trigger] now.channels()[k] == before.channels()[k]
    &&& forall|c: u32| #[trigger]
        now.connections().contains_key(c) <==> (before.connections().contains_key(c) && (
        before.connections()[c].owning_client != id || kept.contains(
            before.connections()[c].owning_channel,
        )))
    &&& forall|c: u32|
        now.connections().contains_key(c) ==> #[trigger] now.connections()[c]
            == before.connections()[c]
    &&& forall|p: u16| #[trigger]
        now.ports().contains_key(p) <==> (before.ports().contains_key(p) && (
        before.channels()[before.ports()[p].0].owner != id || kept.contains(before.ports()[p])))
    &&& forall|p: u16| now.ports().contains_key(p) ==> #[trigger] now.ports()[p] == before.ports()[p]
    &&& now.client_counter() == before.client_counter()
    &&& now.channel_counter() == before.channel_counter()
    &&& now.connection_counter() == before.connection_counter()
}

proof fn lemma_removal_starts(before: ServerHandler, id: ClientId)
    requires
        before.wf(),
        before.clients().contains_key(id.0),
    ensures
        removal_progress(before, before, id, before.clients()[id.0].channels@.len() as int),
{
    reveal(removal_progress);
    let all = before.clients()[id.0].channels@;
    assert(all.subrange(0, all.len() as int) =~= all);
    assert(before.clients() =~= before.clients().insert(id.0, before.clients()[id.0]));
    assert(before.client_is_indexed(id.0));
    assert forall|k: u32| #[trigger] before.channels().contains_key(k) && before.channels()[k].owner == id implies all.contains(ChannelId(k)) by {
        assert(before.channel_is_indexed(k));
    }
    assert forall|c: u32| #[trigger] before.connections().contains_key(c) && before.connections()[c].owning_client == id implies all.contains(before.connections()[c].owning_channel) by {
        assert(before.connection_is_routed(c));
        assert(before.channel_is_indexed(before.connections()[c].owning_channel.0));
    }
    assert forall|p: u16| #[trigger] before.ports().contains_key(p) && before.channels()[before.ports()[p].0].owner == id implies all.contains(before.ports()[p]) by {
        assert(before.port_is_indexed(p));
        assert(before.channel_is_indexed(before.ports()[p].0));
    }
}

proof fn lemma_removal_next(before: ServerHandler, now: ServerHandler, id: ClientId, n: int)
    requires
        before.wf(),
        now.wf(),
        before.clients().contains_key(id.0),
        0 < n <= before.clients()[id.0].channels@.len(),
        removal_progress(before, now, id, n),
    ensures
        now.clients().contains_key(id.0),
        now.clients()[id.0].channels@.len() == n,
        now.channels().contains_key(before.clients()[id.0].channels@[n - 1].0),
        now.clients()[id.0].channels@[n - 1] == before.clients()[id.0].channels@[n - 1],
{
    reveal(removal_progress);
    assert(now.client_is_indexed(id.0));
    assert(now.clients()[id.0].channels@[n - 1] == before.clients()[id.0].channels@[n - 1]);
}

proof fn lemma_removal_step(before: ServerHandler, mid: ServerHandler, after: ServerHandler, id: ClientId, n: int)
    requires
        before.wf(),
        mid.wf(),
        before.clients().contains_key(id.0),
        0 < n <= before.clients()[id.0].channels@.len(),
        removal_progress(before, mid, id, n),
        mid.channels().contains_key(before.clients()[id.0].channels@[n - 1].0),
        channel_destroyed(mid, after, before.clients()[id.0].channels@[n - 1].0),
    ensures
        removal_progress(before, after, id, n - 1),
        mid.channels()[before.clients()[id.0].channels@[n - 1].0]
            == before.channels()[before.clients()[id.0].channels@[n - 1].0],
{
    reveal(removal_progress);
    let all = before.clients()[id.0].channels@;
    let prefix = all.subrange(0, n);
    let shorter = all.subrange(0, n - 1);
    let channel = all[n - 1];
    let k = channel.0;
    assert(prefix[n - 1] == channel);
    assert(before.client_is_indexed(id.0));
    assert(mid.client_is_indexed(id.0));
    assert(mid.channels()[k].owner == id);
    let i = choose|i: int|
        0 <= i < prefix.len() && prefix[i] == ChannelId(k) && after.clients()[id.0].channels@
            == prefix.remove(i);
    assert(i == n - 1);
    assert(prefix.remove(i) =~= shorter);
    assert(after.clients() =~= before.clients().insert(id.0, after.clients()[id.0]));
    assert forall|x: ChannelId| prefix.contains(x) <==> (shorter.contains(x) || x == channel) by {
        if prefix.contains(x) {
            let j = choose|j: int| 0 <= j < prefix.len() && #[trigger] prefix[j] == x;
            if j < n - 1 {
                assert(shorter[j] == x);
            }
        }
        if shorter.contains(x) {
            let j = choose|j: int| 0 <= j < shorter.len() && #[trigger] shorter[j] == x;
            assert(prefix[j] == x);
        }
    }
    assert(!shorter.contains(channel)) by {
        if shorter.contains(channel) {
            let j = choose|j: int| 0 <= j < shorter.len() && #[trigger] shorter[j] == channel;
            assert(prefix[j] == prefix[n - 1]);
        }
    }
    assert forall|c: u32| #[trigger]
        after.connections().contains_key(c) <==> (before.connections().contains_key(c) && (
        before.connections()[c].owning_client != id || shorter.contains(
            before.connections()[c].owning_channel,
        ))) by {
        if before.connections().contains_key(c) {
            assert(before.connection_is_routed(c));
        }
    }
    assert forall|p: u16| #[trigger]
        after.ports().contains_key(p) <==> (before.ports().contains_key(p) && (
        before.channels()[before.ports()[p].0].owner != id || shorter.contains(before.ports()[p])))
        by {
        if before.ports().contains_key(p) {
            assert(before.port_is_indexed(p));
            if mid.ports().contains_key(p) {
                assert(mid.port_is_indexed(p));
            }
        }
    }
}

proof fn lemma_removal_finish(before: ServerHandler, last: ServerHandler, after: ServerHandler, id: ClientId)
    requires
        before.wf(),
        last.wf(),
        before.clients().contains_key(id.0),
        removal_progress(before, last, id, 0),
        after.clients() == last.clients().remove(id.0),
        after.channels() == last.channels(),
        after.ports() == last.ports(),
        after.connections() == last.connections(),
        after.client_counter() == last.client_counter(),
        after.channel_counter() == last.channel_counter(),
        after.connection_counter() == last.connection_counter(),
    ensures
        after.wf(),
        client_removed(before, after, id),
{
    reveal(removal_progress);
    let all = before.clients()[id.0].channels@;
    assert(all.subrange(0, 0) =~= Seq::<ChannelId>::empty());
    assert(after.clients() =~= before.clients().remove(id.0));
    assert forall|k: u32| #[trigger] after.channels().contains_key(k) implies after.channel_is_indexed(k) by {
        assert(last.channel_is_indexed(k));
        assert(last.channels()[k].owner != id) by {
            if last.channels()[k].owner == id {
                assert(last.clients()[id.0].channels@.contains(ChannelId(k)));
            }
        }
    }
    assert forall|c: u32| #[trigger] after.connections().contains_key(c) implies after.connection_is_routed(c) by {
        assert(last.connection_is_routed(c));
    }
    assert forall|p: u16| #[trigger] after.ports().contains_key(p) implies after.port_is_indexed(p) by {
        assert(last.port_is_indexed(p));
    }
    assert forall|c: u32| #[trigger] after.clients().contains_key(c) implies after.client_is_indexed(c) by {
        assert(last.client_is_indexed(c));
    }
}

/// The two records describe the same channel, but for its list of connections.
pub open spec fn same_channel_but_connections(a: ActiveChannel, b: ActiveChannel) -> bool {
    &&& a.port == b.port
    &&& a.connection_type == b.connection_type
    &&& a.owner == b.owner
    &&& a.socket_has_been_bound == b.socket_has_been_bound
    &&& a.registration_request == b.registration_request
}

/// `after` is `before` without connection `k`, which is gone from the connection map
/// and from its channel's list; nothing else changed.
pub open spec fn connection_dropped(before: ServerHandler, after: ServerHandler, k: u32) -> bool {
    let ch = before.connections()[k].owning_channel.0;
    let list = before.channels()[ch].tcp_connections@;
    &&& after.connections() == before.connections().remove(k)
    &&& after.channels() == before.channels().insert(ch, after.channels()[ch])
    &&& same_channel_but_connections(after.channels()[ch], before.channels()[ch])
    &&& exists|i: int|
        0 <= i < list.len() && list[i] == ConnectionId(k) && after.channels()[ch].tcp_connections@
            == list.remove(i)
    &&& after.ports() == before.ports()
    &&& after.clients() == before.clients()
    &&& after.client_counter() == before.client_counter()
    &&& after.channel_counter() == before.channel_counter()
    &&& after.connection_counter() == before.connection_counter()
}

/// `after` is `before` with connection `k` accepted on channel `ch`: it is in the
/// connection map, routed to the channel's owner, and at the end of the channel's list.
pub open spec fn connection_added(before: ServerHandler, after: ServerHandler, ch: u32, k: u32) -> bool {
    &&& after.connections() == before.connections().insert(
        k,
        ActiveTcpConnection { owning_channel: ChannelId(ch), owning_client: before.channels()[ch].owner },
    )
    &&& after.channels() == before.channels().insert(ch, after.channels()[ch])
    &&& same_channel_but_connections(after.channels()[ch], before.channels()[ch])
    &&& after.channels()[ch].tcp_connections@ == before.channels()[ch].tcp_connections@.push(ConnectionId(k))
    &&& after.ports() == before.ports()
    &&& after.clients() == before.clients()
    &&& after.client_counter() == before.client_counter()
    &&& after.channel_counter() == before.channel_counter()
}

/// `after` is `before` with channel `k` marked as bound.
pub open spec fn binding_confirmed(before: ServerHandler, after: ServerHandler, k: u32) -> bool {
    let a = after.channels()[k];
    let b = before.channels()[k];
    &&& after.channels() == before.channels().insert(k, a)
    &&& a.port == b.port
    &&& a.connection_type == b.connection_type
    &&& a.owner == b.owner
    &&& a.socket_has_been_bound
    &&& a.registration_request == b.registration_request
    &&& a.tcp_connections@ == b.tcp_connections@
    &&& after.connections() == before.connections()
    &&& after.ports() == before.ports()
    &&& after.clients() == before.clients()
    &&& after.client_counter() == before.client_counter()
    &&& after.channel_counter() == before.channel_counter()
    &&& after.connection_counter() == before.connection_counter()
}

/// Whether a connection named by a client may carry data on a channel of the given kind:
/// a TCP channel needs one of its own live connections, a UDP channel none.
pub open spec fn connection_fits_channel(
    s: ServerHandler,
    channel: ChannelId,
    connection_type: ConnectionType,
    connection: Option<ConnectionId>,
) -> bool {
    match connection_type {
        ConnectionType::Tcp => connection matches Some(c) && s.connections().contains_key(c.0)
            && s.connections()[c.0].owning_channel == channel,
        ConnectionType::Udp => connection is None,
    }
}

/// A client's entry stays consistent when its list and the owners of all channels
/// are unchanged.
proof fn lemma_client_indexed_kept(before: ServerHandler, after: ServerHandler, c: u32)
    requires
        before.clients().contains_key(c),
        before.client_is_indexed(c),
        after.clients()[c] == before.clients()[c],
        forall|j: u32| #[trigger]
            before.channels().contains_key(j) ==> after.channels().contains_key(j)
                && after.channels()[j].owner == before.channels()[j].owner,
    ensures
        after.client_is_indexed(c),
{
    let list = after.clients()[c].channels@;
    assert forall|n: int| 0 <= n < list.len() implies {
        &&& #[trigger] after.channels().contains_key(list[n].0)
        &&& after.channels()[list[n].0].owner == ClientId(c)
    } by {
        assert(before.channels().contains_key(list[n].0));
    }
}

proof fn lemma_drop_connection_wf(before: ServerHandler, after: ServerHandler, k: u32)
    requires
        before.wf(),
        before.connections().contains_key(k),
        connection_dropped(before, after, k),
        after.channels()[before.connections()[k].owning_channel.0].tcp_connections@.no_duplicates(),
        forall|x: ConnectionId| #[trigger]
            after.channels()[before.connections()[k].owning_channel.0].tcp_connections@.contains(x)
                <==> (before.channels()[before.connections()[k].owning_channel.0].tcp_connections@.contains(x)
                && x != ConnectionId(k)),
    ensures
        after.wf(),
{
    let ch = before.connections()[k].owning_channel.0;
    assert(before.connection_is_routed(k));
    assert forall|c: u32| #[trigger] after.connections().contains_key(c) implies after.connection_is_routed(c) by {
        assert(before.connection_is_routed(c));
    }
    assert forall|j: u32| #[trigger] after.channels().contains_key(j) implies after.channel_is_indexed(j) by {
        assert(before.channel_is_indexed(j));
        if j == ch {
            let list = after.channels()[ch].tcp_connections@;
            assert forall|n: int| 0 <= n < list.len() implies {
                &&& #[trigger] after.connections().contains_key(list[n].0)
                &&& after.connections()[list[n].0].owning_channel == ChannelId(j)
            } by {
                assert(list.contains(list[n]));
                let old_list = before.channels()[ch].tcp_connections@;
                let m = choose|m: int| 0 <= m < old_list.len() && old_list[m] == list[n];
                assert(before.connections().contains_key(old_list[m].0));
            }
            assert(list.len() <= before.channels()[ch].tcp_connections@.len());
        } else {
            let list = after.channels()[j].tcp_connections@;
            assert forall|n: int| 0 <= n < list.len() implies {
                &&& #[trigger] after.connections().contains_key(list[n].0)
                &&& after.connections()[list[n].0].owning_channel == ChannelId(j)
            } by {
                assert(before.connections().contains_key(list[n].0));
            }
        }
    }
    assert forall|p: u16| #[trigger] after.ports().contains_key(p) implies after.port_is_indexed(p) by {
        assert(before.port_is_indexed(p));
    }
    assert forall|j: u32| #[trigger] before.channels().contains_key(j) implies after.channels().contains_key(j)
        && after.channels()[j].owner == before.channels()[j].owner by {}
    assert forall|c: u32| #[trigger] after.clients().contains_key(c) implies after.client_is_indexed(c) by {
        lemma_client_indexed_kept(before, after, c);
    }
}

proof fn lemma_add_connection_wf(before: ServerHandler, after: ServerHandler, ch: u32, k: u32)
    requires
        before.wf(),
        before.channels().contains_key(ch),
        before.channels()[ch].connection_type == ConnectionType::Tcp,
        before.channels()[ch].socket_has_been_bound,
        !before.connections().contains_key(k),
        connection_added(before, after, ch, k),
    ensures
        after.wf(),
{
    assert(before.channel_is_indexed(ch));
    assert(!before.channels()[ch].tcp_connections@.contains(ConnectionId(k))) by {
        if before.channels()[ch].tcp_connections@.contains(ConnectionId(k)) {
            let m = choose|m: int| 0 <= m < before.channels()[ch].tcp_connections@.len() && before.channels()[ch].tcp_connections@[m] == ConnectionId(k);
            assert(before.connections().contains_key(before.channels()[ch].tcp_connections@[m].0));
        }
    }
    let list = after.channels()[ch].tcp_connections@;
    assert(list[list.len() - 1] == ConnectionId(k));
    assert forall|c: u32| #[trigger] after.connections().contains_key(c) implies after.connection_is_routed(c) by {
        if c != k {
            assert(before.connection_is_routed(c));
            let cc = before.connections()[c];
            if cc.owning_channel.0 == ch {
                let old_list = before.channels()[ch].tcp_connections@;
                let m = choose|m: int| 0 <= m < old_list.len() && old_list[m] == ConnectionId(c);
                assert(list[m] == ConnectionId(c));
            }
        }
    }
    assert forall|j: u32| #[trigger] after.channels().contains_key(j) implies after.channel_is_indexed(j) by {
        assert(before.channel_is_indexed(j));
        let lj = after.channels()[j].tcp_connections@;
        assert forall|n: int| 0 <= n < lj.len() implies {
            &&& #[trigger] after.connections().contains_key(lj[n].0)
            &&& after.connections()[lj[n].0].owning_channel == ChannelId(j)
        } by {
            if j == ch && n == lj.len() - 1 {
            } else {
                assert(before.connections().contains_key(before.channels()[j].tcp_connections@[n].0));
            }
        }
        if j == ch {
            assert(before.clients()[before.channels()[ch].owner.0].channels@.contains(ChannelId(ch)));
        }
    }
    assert forall|p: u16| #[trigger] after.ports().contains_key(p) implies after.port_is_indexed(p) by {
        assert(before.port_is_indexed(p));
    }
    assert forall|j: u32| #[trigger] before.channels().contains_key(j) implies after.channels().contains_key(j)
        && after.channels()[j].owner == before.channels()[j].owner by {}
    assert forall|c: u32| #[trigger] after.clients().contains_key(c) implies after.client_is_indexed(c) by {
        lemma_client_indexed_kept(before, after, c);
    }
}

proof fn lemma_bind_wf(before: ServerHandler, after: ServerHandler, k: u32)
    requires
        before.wf(),
        before.channels().contains_key(k),
        binding_confirmed(before, after, k),
    ensures
        after.wf(),
{
    assert forall|c: u32| #[trigger] after.connections().contains_key(c) implies after.connection_is_routed(c) by {
        assert(before.connection_is_routed(c));
    }
    assert forall|j: u32| #[trigger] after.channels().contains_key(j) implies after.channel_is_indexed(j) by {
        assert(before.channel_is_indexed(j));
        let lj = after.channels()[j].tcp_connections@;
        assert forall|n: int| 0 <= n < lj.len() implies {
            &&& #[trigger] after.connections().contains_key(lj[n].0)
            &&& after.connections()[lj[n].0].owning_channel == ChannelId(j)
        } by {
            assert(before.connections().contains_key(before.channels()[j].tcp_connections@[n].0));
        }
    }
    assert forall|p: u16| #[trigger] after.ports().contains_key(p) implies after.port_is_indexed(p) by {
        assert(before.port_is_indexed(p));
    }
    assert forall|j: u32| #[trigger] before.channels().contains_key(j) implies after.channels().contains_key(j)
        && after.channels()[j].owner == before.channels()[j].owner by {}
    assert forall|c: u32| #[trigger] after.clients().contains_key(c) implies after.client_is_indexed(c) by {
        lemma_client_indexed_kept(before, after, c);
    }
}

/// What a client's report of a dropped connection does: when the connection is live,
/// belongs to the named channel, and that channel to the client, the connection is
/// forgotten and disconnected; otherwise nothing happens.
pub open spec fn disconnection_outcome(
    before: ServerHandler,
    after: ServerHandler,
    client: ClientId,
    channel: ChannelId,
    connection: ConnectionId,
    ops: Seq<ServerOperation>,
) -> bool {
    if before.connections().contains_key(connection.0) && before.channels().contains_key(channel.0)
        && before.connections()[connection.0].owning_channel == channel
        && before.channels()[channel.0].owner == client {
        &&& ops == seq![ServerOperation::DisconnectConnection { connection }]
        &&& connection_dropped(before, after, connection.0)
    } else {
        ops.len() == 0 && after == before
    }
}

/// What a client's outbound data does: relayed as it is when the channel is the
/// client's own and the connection fits it, dropped otherwise.
pub open spec fn data_sent_outcome(
    s: ServerHandler,
    client: ClientId,
    channel: ChannelId,
    connection: Option<ConnectionId>,
    data: Vec<u8>,
    ops: Seq<ServerOperation>,
) -> bool {
    if s.channels().contains_key(channel.0) && s.channels()[channel.0].owner == client
        && connection_fits_channel(s, channel, s.channels()[channel.0].connection_type, connection) {
        ops == seq![ServerOperation::SendByteData { channel, connection, data }]
    } else {
        ops.len() == 0
    }
}

proof fn lemma_destroy_wf(before: ServerHandler, after: ServerHandler, k: u32)
    requires
        before.wf(),
        before.channels().contains_key(k),
        channel_destroyed(before, after, k),
    ensures
        after.wf(),
{
    let ch = before.channels()[k];
    let o = ch.owner.0;
    assert(before.channel_is_indexed(k));
    assert(before.client_is_indexed(o));
    let owned = before.clients()[o].channels@;
    let i = choose|i: int| 0 <= i < owned.len() && owned[i] == ChannelId(k) && after.clients()[o].channels@ == owned.remove(i);
    crate::ids::lemma_remove_unique(owned, i);
    assert forall|c: u32| #[trigger] after.connections().contains_key(c) implies after.connection_is_routed(c) by {
        assert(before.connection_is_routed(c));
    }
    assert forall|j: u32| #[trigger] after.channels().contains_key(j) implies after.channel_is_indexed(j) by {
        assert(before.channel_is_indexed(j));
        let cj = before.channels()[j];
        assert(before.ports()[cj.port] == ChannelId(j));
        assert(cj.port != ch.port);
        if cj.owner.0 == o {
            assert(after.clients()[o].channels@.contains(ChannelId(j)));
        }
        assert forall|n: int| 0 <= n < cj.tcp_connections@.len() implies {
            &&& #[trigger] after.connections().contains_key(cj.tcp_connections@[n].0)
            &&& after.connections()[cj.tcp_connections@[n].0].owning_channel == ChannelId(j)
        } by {
            assert(before.connections().contains_key(cj.tcp_connections@[n].0));
        }
    }
    assert forall|p: u16| #[trigger] after.ports().contains_key(p) implies after.port_is_indexed(p) by {
        assert(before.port_is_indexed(p));
        if before.ports()[p].0 == k {
            assert(p == ch.port);
        }
    }
    assert forall|c: u32| #[trigger] after.clients().contains_key(c) implies after.client_is_indexed(c) by {
        assert(before.client_is_indexed(c));
        let list = after.clients()[c].channels@;
        if c != o {
            assert(after.clients()[c] == before.clients()[c]);
        }
        assert(list.no_duplicates());
        if c == o {
            assert forall|n: int| 0 <= n < list.len() implies {
                &&& #[trigger] after.channels().contains_key(list[n].0)
                &&& after.channels()[list[n].0].owner == ClientId(c)
            } by {
                assert(list.contains(list[n]));
                assert(owned.contains(list[n]));
                let m = choose|m: int| 0 <= m < owned.len() && #[trigger] owned[m] == list[n];
                assert(before.channels().contains_key(owned[m].0));
            }
        } else {
            assert forall|n: int| 0 <= n < list.len() implies {
                &&& #[trigger] after.channels().contains_key(list[n].0)
                &&& after.channels()[list[n].0].owner == ClientId(c)
            } by {
                assert(before.channels().contains_key(list[n].0));
                if list[n].0 == k {
                    assert(before.channels()[k].owner == ClientId(c));
                }
            }
        }
    }
}

/// What a `Register` does: a reserved port is refused with a message to the client and
/// no change; a free port gets a fresh, unbound channel of the client, reserved in the
/// port index, and an operation that starts relaying it.
pub open spec fn register_outcome(
    before: ServerHandler,
    after: ServerHandler,
    client: ClientId,
    request: RequestId,
    connection_type: ConnectionType,
    port: u16,
    ops: Seq<ServerOperation>,
) -> bool {
    if before.ports().contains_key(port) {
        &&& after == before
        &&& ops == seq![
            ServerOperation::SendMessageToDsrpClient {
                client,
                message: ServerMessage::RegistrationFailed {
                    request,
                    cause: RegistrationFailureCause::PortAlreadyRegistered,
                },
            },
        ]
    } else {
        let k = after.channel_counter();
        let ch = after.channels()[k];
        &&& is_next_free(before.channel_counter(), before.channels().dom(), k)
        &&& ops == seq![start_op(connection_type, port, ChannelId(k))]
        &&& after.channels() == before.channels().insert(k, ch)
        &&& ch.port == port
        &&& ch.connection_type == connection_type
        &&& ch.owner == client
        &&& ch.tcp_connections@.len() == 0
        &&& !ch.socket_has_been_bound
        &&& ch.registration_request == request
        &&& after.ports() == before.ports().insert(port, ChannelId(k))
        &&& after.clients() == before.clients().insert(client.0, after.clients()[client.0])
        &&& after.clients()[client.0].channels@ == before.clients()[client.0].channels@.push(
            ChannelId(k),
        )
        &&& after.connections() == before.connections()
        &&& after.client_counter() == before.client_counter()
        &&& after.connection_counter() == before.connection_counter()
    }
}

/// What an `Unregister` does: an unknown channel, or one of another client, is an error
/// and changes nothing; otherwise the channel is closed and removed.
pub open spec fn unregister_outcome(
    before: ServerHandler,
    after: ServerHandler,
    client: ClientId,
    channel: ChannelId,
    r: Result<Vec<ServerOperation>, ClientMessageHandlingError>,
) -> bool {
    if !before.channels().contains_key(channel.0) {
        &&& after == before
        &&& r == Err::<Vec<ServerOperation>, _>(
            ClientMessageHandlingError { kind: ClientMessageHandlingErrorKind::ChannelNotFound(channel) },
        )
    } else if before.channels()[channel.0].owner != client {
        &&& after == before
        &&& r == Err::<Vec<ServerOperation>, _>(
            ClientMessageHandlingError {
                kind: ClientMessageHandlingErrorKind::ChannelNotOwnedByRequester {
                    channel,
                    requesting_client: client,
                    owning_client: before.channels()[channel.0].owner,
                },
            },
        )
    } else {
        &&& r matches Ok(ops) && ops@ == teardown_ops(before.channels()[channel.0])
        &&& channel_destroyed(before, after, channel.0)
    }
}

/// The failure text of a handshake that asks for another protocol version.
pub open spec fn version_mismatch_reason(requested: Seq<char>) -> Seq<char> {
    "Protocol version "@ + requested + " requested but only protocol version "@ + CURRENT_VERSION@
        + " is supported"@
}

proof fn lemma_register_wf(before: ServerHandler, after: ServerHandler, client: ClientId, port: u16)
    requires
        before.wf(),
        before.clients().contains_key(client.0),
        !before.ports().contains_key(port),
        !before.channels().contains_key(after.channel_counter()),
        ({
            let k = after.channel_counter();
            let ch = after.channels()[k];
            &&& after.channels() == before.channels().insert(k, ch)
            &&& ch.port == port
            &&& ch.owner == client
            &&& ch.tcp_connections@.len() == 0
            &&& after.ports() == before.ports().insert(port, ChannelId(k))
            &&& after.clients() == before.clients().insert(client.0, after.clients()[client.0])
            &&& after.clients()[client.0].channels@ == before.clients()[client.0].channels@.push(
                ChannelId(k),
            )
            &&& after.connections() == before.connections()
        }),
    ensures
        after.wf(),
{
    let k = after.channel_counter();
    let list = after.clients()[client.0].channels@;
    let old_list = before.clients()[client.0].channels@;
    assert(before.client_is_indexed(client.0));
    assert(list[list.len() - 1] == ChannelId(k));
    assert forall|c: u32| #[trigger] after.connections().contains_key(c) implies after.connection_is_routed(c) by {
        assert(before.connection_is_routed(c));
        assert(before.channel_is_indexed(before.connections()[c].owning_channel.0));
    }
    assert forall|j: u32| #[trigger] after.channels().contains_key(j) implies after.channel_is_indexed(j) by {
        if j != k {
            assert(before.channel_is_indexed(j));
            let cj = before.channels()[j];
            assert(cj.port != port);
            if cj.owner == client {
                let m = choose|m: int| 0 <= m < old_list.len() && #[trigger] old_list[m] == ChannelId(j);
                assert(list[m] == ChannelId(j));
            }
            let lj = cj.tcp_connections@;
            assert forall|n: int| 0 <= n < lj.len() implies {
                &&& #[trigger] after.connections().contains_key(lj[n].0)
                &&& after.connections()[lj[n].0].owning_channel == ChannelId(j)
            } by {
                assert(before.connections().contains_key(lj[n].0));
            }
        } else {
            assert(list.contains(ChannelId(k)));
        }
    }
    assert forall|p: u16| #[trigger] after.ports().contains_key(p) implies after.port_is_indexed(p) by {
        if p != port {
            assert(before.port_is_indexed(p));
        }
    }
    assert forall|c: u32| #[trigger] after.clients().contains_key(c) implies after.client_is_indexed(c) by {
        if c == client.0 {
            assert forall|a: int, b: int| 0 <= a < b < list.len() implies list[a] != list[b] by {
                if b == list.len() - 1 {
                    assert(before.channels().contains_key(old_list[a].0));
                }
            }
            assert forall|n: int| 0 <= n < list.len() implies {
                &&& #[trigger] after.channels().contains_key(list[n].0)
                &&& after.channels()[list[n].0].owner == ClientId(c)
            } by {
                if n < list.len() - 1 {
                    assert(before.channels().contains_key(old_list[n].0));
                }
            }
        } else {
            assert(before.client_is_indexed(c));
            assert forall|j: u32| #[trigger] before.channels().contains_key(j) implies after.channels().contains_key(j)
                && after.channels()[j].owner == before.channels()[j].owner by {}
            lemma_client_indexed_kept(before, after, c);
        }
    }
}

/// The operation that starts the relaying of a new channel's port.
fn start_operation(connection_type: ConnectionType, port: u16, channel: ChannelId) -> (r: ServerOperation)
    ensures
        r == start_op(connection_type, port, channel),
{
    match connection_type {
        ConnectionType::Tcp => ServerOperation::StartTcpOperations { port, channel },
        ConnectionType::Udp => ServerOperation::StartUdpOperations { port, channel },
    }
}

/// The operation that stops the relaying of `ch`'s port.
fn stop_operation(ch: &ActiveChannel) -> (r: ServerOperation)
    ensures
        r == stop_op(*ch),
{
    match ch.connection_type {
        ConnectionType::Tcp => ServerOperation::StopTcpOperations { port: ch.port },
        ConnectionType::Udp => ServerOperation::StopUdpOperations { port: ch.port },
    }
}

impl ServerHandler {
    pub closed spec fn clients(&self) -> Map<u32, ActiveClient> {
        self.active_clients@
    }

    pub closed spec fn ports(&self) -> Map<u16, ChannelId> {
        self.active_ports@
    }

    pub closed spec fn channels(&self) -> Map<u32, ActiveChannel> {
        self.active_channels@
    }

    pub closed spec fn connections(&self) -> Map<u32, ActiveTcpConnection> {
        self.active_tcp_connections@
    }

    /// The last client id handed out (where the next scan starts).
    pub closed spec fn client_counter(&self) -> u32 {
        self.next_client_id
    }

    pub closed spec fn channel_counter(&self) -> u32 {
        self.next_channel_id
    }

    pub closed spec fn connection_counter(&self) -> u32 {
        self.next_connection_id
    }

    /// A connection belongs to a live, bound TCP channel that lists it, and its
    /// client is that channel's owner.
    pub open spec fn connection_is_routed(&self, k: u32) -> bool {
        let c = self.connections()[k];
        let ch = self.channels()[c.owning_channel.0];
        &&& self.channels().contains_key(c.owning_channel.0)
        &&& ch.owner == c.owning_client
        &&& ch.connection_type == ConnectionType::Tcp
        &&& ch.socket_has_been_bound
        &&& ch.tcp_connections@.contains(ConnectionId(k))
    }

    /// A channel holds its port in the port index, is listed by its live owner, and
    /// lists only live connections of its own, each once; UDP and unbound channels list none.
    pub open spec fn channel_is_indexed(&self, k: u32) -> bool {
        let ch = self.channels()[k];
        &&& self.ports().contains_key(ch.port)
        &&& self.ports()[ch.port] == ChannelId(k)
        &&& self.clients().contains_key(ch.owner.0)
        &&& self.clients()[ch.owner.0].channels@.contains(ChannelId(k))
        &&& ch.tcp_connections@.no_duplicates()
        &&& forall|i: int|
            0 <= i < ch.tcp_connections@.len() ==> {
                &&& #[trigger] self.connections().contains_key(ch.tcp_connections@[i].0)
                &&& self.connections()[ch.tcp_connections@[i].0].owning_channel == ChannelId(k)
            }
        &&& (ch.connection_type == ConnectionType::Udp || !ch.socket_has_been_bound)
            ==> ch.tcp_connections@.len() == 0
    }

    /// A reserved port points at a live channel bound to that port.
    pub open spec fn port_is_indexed(&self, p: u16) -> bool {
        &&& self.channels().contains_key(self.ports()[p].0)
        &&& self.channels()[self.ports()[p].0].port == p
    }

    /// A client lists live channels that it owns, each once.
    pub open spec fn client_is_indexed(&self, k: u32) -> bool {
        let cl = self.clients()[k];
        &&& cl.channels@.no_duplicates()
        &&& forall|i: int|
            0 <= i < cl.channels@.len() ==> {
                &&& #[trigger] self.channels().contains_key(cl.channels@[i].0)
                &&& self.channels()[cl.channels@[i].0].owner == ClientId(k)
            }
    }

    /// The ownership graph is consistent: every entry of every map satisfies its rule.
    pub open spec fn wf(&self) -> bool {
        &&& forall|k: u32| #[trigger]
            self.connections().contains_key(k) ==> self.connection_is_routed(k)
        &&& forall|k: u32| #[trigger] self.channels().contains_key(k) ==> self.channel_is_indexed(k)
        &&& forall|p: u16| #[trigger] self.ports().contains_key(p) ==> self.port_is_indexed(p)
        &&& forall|k: u32| #[trigger] self.clients().contains_key(k) ==> self.client_is_indexed(k)
    }

    /// The channel has been registered and waits for the outcome of its binding.
    pub open spec fn awaiting_binding(&self, k: u32) -> bool {
        self.channels().contains_key(k) && !self.channels()[k].socket_has_been_bound
    }

    /// A server with no clients, channels or connections.
    pub fn new() -> (r: Self)
        ensures
            r.wf(),
            r.clients().dom().is_empty(),
            r.channels().dom().is_empty(),
            r.ports().dom().is_empty(),
            r.connections().dom().is_empty(),
            r.client_counter() == 0,
            r.channel_counter() == 0,
            r.connection_counter() == 0,
    {
        let r = ServerHandler {
            active_clients: HashMap::new(),
            active_ports: HashMap::new(),
            active_channels: HashMap::new(),
            active_tcp_connections: HashMap::new(),
            next_client_id: 0,
            next_channel_id: 0,
            next_connection_id: 0,
        };
        assert(r.clients().dom() =~= Set::empty());
        assert(r.channels().dom() =~= Set::empty());
        assert(r.ports().dom() =~= Set::empty());
        assert(r.connections().dom() =~= Set::empty());
        r
    }

    /// Removes a channel with everything that hangs off it, and returns the operations
    /// that close it.
    fn destroy_channel(&mut self, channel_id: ChannelId) -> (ops: Vec<ServerOperation>)
        requires
            old(self).wf(),
            old(self).channels().contains_key(channel_id.0),
        ensures
            final(self).wf(),
            ops@ == teardown_ops(old(self).channels()[channel_id.0]),
            channel_destroyed(*old(self), *final(self), channel_id.0),
    {
        let ghost k = channel_id.0;
        let ghost before = *self;
        let ch = match self.active_channels.remove(&channel_id.0) {
            Some(x) => x,
            None => return Vec::new(),
        };
        assert(before.channel_is_indexed(k));
        let mut ops: Vec<ServerOperation> = Vec::new();
        let mut i: usize = 0;
        while i < ch.tcp_connections.len()
            invariant
                before.wf(),
                ch == before.channels()[k],
                before.channels().contains_key(k),
                i <= ch.tcp_connections@.len(),
                ops@ == disconnect_ops(ch.tcp_connections@.subrange(0, i as int)),
                self.channels() == before.channels().remove(k),
                self.ports() == before.ports(),
                self.clients() == before.clients(),
                self.client_counter() == before.client_counter(),
                self.channel_counter() == before.channel_counter(),
                self.connection_counter() == before.connection_counter(),
                forall|c: u32| #[trigger]
                    self.connections().contains_key(c) <==> (before.connections().contains_key(c)
                        && !ch.tcp_connections@.subrange(0, i as int).contains(ConnectionId(c))),
                forall|c: u32|
                    self.connections().contains_key(c) ==> #[trigger] self.connections()[c]
                        == before.connections()[c],
            decreases ch.tcp_connections@.len() - i,
        {
            let connection = ch.tcp_connections[i];
            let ghost conns_before = self.connections();
            self.active_tcp_connections.remove(&connection.0);
            assert(self.connections() == conns_before.remove(connection.0));
            ops.push(ServerOperation::DisconnectConnection { connection });
            proof {
                let s = ch.tcp_connections@;
                assert(s.subrange(0, i + 1) =~= s.subrange(0, i as int).push(connection));
                assert forall|c: u32| #[trigger]
                    self.connections().contains_key(c) <==> (before.connections().contains_key(c)
                        && !s.subrange(0, i + 1).contains(ConnectionId(c))) by {
                    if c == connection.0 {
                        assert(s.subrange(0, i + 1)[i as int] == connection);
                    } else {
                        if s.subrange(0, i + 1).contains(ConnectionId(c)) {
                            let j = choose|j: int| 0 <= j < i + 1 && #[trigger] s.subrange(0, i + 1)[j] == ConnectionId(c);
                            assert(j < i);
                            assert(s.subrange(0, i as int)[j] == ConnectionId(c));
                        }
                        if s.subrange(0, i as int).contains(ConnectionId(c)) {
                            let j = choose|j: int| 0 <= j < i && #[trigger] s.subrange(0, i as int)[j] == ConnectionId(c);
                            assert(s.subrange(0, i + 1)[j] == ConnectionId(c));
                        }
                    }
                }
                assert(disconnect_ops(s.subrange(0, i + 1)) =~= disconnect_ops(
                    s.subrange(0, i as int),
                ).push(ServerOperation::DisconnectConnection { connection }));
            }
            i = i + 1;
        }
        assert(ch.tcp_connections@.subrange(0, i as int) =~= ch.tcp_connections@);
        let ghost conns_mid = self.connections();
        assert(forall|c: u32| #[trigger]
            conns_mid.contains_key(c) <==> (before.connections().contains_key(c)
                && !ch.tcp_connections@.contains(ConnectionId(c))));
        self.active_ports.remove(&ch.port);
        let mut client = match self.active_clients.remove(&ch.owner.0) {
            Some(x) => x,
            None => return ops,
        };
        remove_channel_id(&mut client.channels, channel_id);
        self.active_clients.insert(ch.owner.0, client);
        ops.push(stop_operation(&ch));
        proof {
            let after = *self;
            let o = ch.owner.0;
            assert(after.connections() == conns_mid);
            assert(after.clients() == before.clients().insert(o, after.clients()[o]));
            // connections that remain belong to other channels
            assert forall|c: u32| #[trigger]
                after.connections().contains_key(c) <==> (before.connections().contains_key(c)
                    && before.connections()[c].owning_channel != ChannelId(k)) by {
                if before.connections().contains_key(c) {
                    assert(before.connection_is_routed(c));
                    if before.connections()[c].owning_channel == ChannelId(k) {
                        assert(ch.tcp_connections@.contains(ConnectionId(c)));
                    }
                    if ch.tcp_connections@.contains(ConnectionId(c)) {
                        let j = choose|j: int|
                            0 <= j < ch.tcp_connections@.len() && ch.tcp_connections@[j]
                                == ConnectionId(c);
                        assert(before.connections()[ch.tcp_connections@[j].0].owning_channel
                            == ChannelId(k));
                    }
                }
            }
            lemma_destroy_wf(before, after, k);
        }
        ops
    }

    /// Drops a client with all that it owns, and returns the operations that close its
    /// channels; an unknown client changes nothing.
    pub fn remove_dsrp_client(&mut self, client_id: ClientId) -> (ops: Vec<ServerOperation>)
        requires
            old(self).wf(),
        ensures
            final(self).wf(),
            !old(self).clients().contains_key(client_id.0) ==> ops@.len() == 0 && *final(self)
                == *old(self),
            old(self).clients().contains_key(client_id.0) ==> {
                &&& ops@ == teardown_all_ops(
                    old(self).clients()[client_id.0].channels@,
                    old(self).channels(),
                )
                &&& client_removed(*old(self), *final(self), client_id)
            },
    {
        let ghost before = *self;
        let mut ops: Vec<ServerOperation> = Vec::new();
        if !self.active_clients.contains_key(&client_id.0) {
            return ops;
        }
        let ghost all = before.clients()[client_id.0].channels@;
        let mut n = self.channel_count_of(client_id);
        proof {
            lemma_removal_starts(before, client_id);
            assert(all.subrange(0, n as int) =~= all);
        }
        while n > 0
            invariant
                before.wf(),
                self.wf(),
                before.clients().contains_key(client_id.0),
                all == before.clients()[client_id.0].channels@,
                n <= all.len(),
                removal_progress(before, *self, client_id, n as int),
                teardown_all_ops(all, before.channels()) == ops@ + teardown_all_ops(
                    all.subrange(0, n as int),
                    before.channels(),
                ),
            decreases n,
        {
            let ghost mid = *self;
            proof {
                lemma_removal_next(before, mid, client_id, n as int);
            }
            let channel = self.channel_of(client_id, n - 1);
            let mut closed = self.destroy_channel(channel);
            ops.append(&mut closed);
            proof {
                lemma_removal_step(before, mid, *self, client_id, n as int);
                let prefix = all.subrange(0, n as int);
                assert(prefix.drop_last() =~= all.subrange(0, n - 1));
            }
            n = n - 1;
        }
        let ghost last = *self;
        self.active_clients.remove(&client_id.0);
        proof {
            lemma_removal_finish(before, last, *self, client_id);
        }
        ops
    }

    /// How many channels a live client lists.
    fn channel_count_of(&self, client_id: ClientId) -> (n: usize)
        requires
            self.clients().contains_key(client_id.0),
        ensures
            n == self.clients()[client_id.0].channels@.len(),
    {
        match self.client_entry(client_id) {
            Some(client) => client.channels.len(),
            None => 0,
        }
    }

    /// Entry `i` of a live client's channel list.
    fn channel_of(&self, client_id: ClientId, i: usize) -> (ch: ChannelId)
        requires
            self.clients().contains_key(client_id.0),
            i < self.clients()[client_id.0].channels@.len(),
        ensures
            ch == self.clients()[client_id.0].channels@[i as int],
    {
        match self.client_entry(client_id) {
            Some(client) => client.channels[i],
            None => ChannelId(0),
        }
    }

    fn client_entry(&self, client_id: ClientId) -> (r: Option<&ActiveClient>)
        ensures
            r is Some <==> self.clients().contains_key(client_id.0),
            r matches Some(c) ==> *c == self.clients()[client_id.0],
    {
        self.active_clients.get(&client_id.0)
    }

    /// Forgets a live connection: it leaves the connection map and its channel's list.
    fn drop_connection(&mut self, connection_id: ConnectionId)
        requires
            old(self).wf(),
            old(self).connections().contains_key(connection_id.0),
        ensures
            final(self).wf(),
            connection_dropped(*old(self), *final(self), connection_id.0),
    {
        let ghost before = *self;
        let connection = match self.active_tcp_connections.remove(&connection_id.0) {
            Some(x) => x,
            None => return,
        };
        let ghost ch = connection.owning_channel.0;
        assert(before.connection_is_routed(connection_id.0));
        assert(before.channel_is_indexed(ch));
        let mut channel = match self.active_channels.remove(&connection.owning_channel.0) {
            Some(x) => x,
            None => return,
        };
        remove_connection_id(&mut channel.tcp_connections, connection_id);
        self.active_channels.insert(connection.owning_channel.0, channel);
        proof {
            let after = *self;
            assert(after.channels() =~= before.channels().insert(ch, after.channels()[ch]));
            lemma_drop_connection_wf(before, after, connection_id.0);
        }
    }

    /// The remote end closed a TCP connection: forget it and tell its client. A
    /// connection that is not live (already closed, or never known) is ignored.
    pub fn tcp_connection_disconnected(&mut self, connection_id: ConnectionId) -> (r: Option<ServerOperation>)
        requires
            old(self).wf(),
        ensures
            final(self).wf(),
            r is Some <==> old(self).connections().contains_key(connection_id.0),
            r is Some ==> {
                let c = old(self).connections()[connection_id.0];
                &&& r == Some(ServerOperation::SendMessageToDsrpClient {
                    client: c.owning_client,
                    message: ServerMessage::TcpConnectionClosed {
                        channel: c.owning_channel,
                        connection: connection_id,
                    },
                })
                &&& connection_dropped(*old(self), *final(self), connection_id.0)
            },
            r is None ==> *final(self) == *old(self),
    {
        let connection = match self.active_tcp_connections.get(&connection_id.0) {
            Some(x) => *x,
            None => return None,
        };
        self.drop_connection(connection_id);
        Some(ServerOperation::SendMessageToDsrpClient {
            client: connection.owning_client,
            message: ServerMessage::TcpConnectionClosed {
                channel: connection.owning_channel,
                connection: connection_id,
            },
        })
    }

    /// The server accepted a TCP connection on a bound TCP channel: record it under a
    /// fresh id and tell the channel's owner.
    pub fn new_channel_tcp_connection(&mut self, channel_id: ChannelId) -> (r: Result<
        (ConnectionId, ServerOperation),
        NewConnectionError,
    >)
        requires
            old(self).wf(),
            old(self).connections().dom().len() < id_space(),
        ensures
            final(self).wf(),
            r is Err ==> *final(self) == *old(self),
            !old(self).channels().contains_key(channel_id.0) ==> r == Err::<(ConnectionId, ServerOperation), _>(
                NewConnectionError { kind: NewConnectionErrorKind::UnknownChannelId(channel_id) },
            ),
            old(self).channels().contains_key(channel_id.0) ==> {
                let ch = old(self).channels()[channel_id.0];
                if ch.connection_type != ConnectionType::Tcp {
                    r == Err::<(ConnectionId, ServerOperation), _>(
                        NewConnectionError { kind: NewConnectionErrorKind::ConnectionAddedToNonTcpChannel(channel_id) },
                    )
                } else if !ch.socket_has_been_bound {
                    r == Err::<(ConnectionId, ServerOperation), _>(
                        NewConnectionError { kind: NewConnectionErrorKind::ConnectionAddedToUnboundChannel(channel_id) },
                    )
                } else {
                    r matches Ok((id, op)) && {
                        &&& is_next_free(old(self).connection_counter(), old(self).connections().dom(), id.0)
                        &&& final(self).connection_counter() == id.0
                        &&& op == ServerOperation::SendMessageToDsrpClient {
                            client: ch.owner,
                            message: ServerMessage::NewIncomingTcpConnection {
                                channel: channel_id,
                                new_connection: id,
                            },
                        }
                        &&& connection_added(*old(self), *final(self), channel_id.0, id.0)
                    }
                }
            },
    {
        let ghost before = *self;
        let (connection_type, bound, owner) = match self.active_channels.get(&channel_id.0) {
            Some(x) => (x.connection_type, x.socket_has_been_bound, x.owner),
            None => {
                return Err(NewConnectionError { kind: NewConnectionErrorKind::UnknownChannelId(channel_id) });
            },
        };
        match connection_type {
            ConnectionType::Tcp => {},
            ConnectionType::Udp => {
                return Err(NewConnectionError { kind: NewConnectionErrorKind::ConnectionAddedToNonTcpChannel(channel_id) });
            },
        }
        if !bound {
            return Err(NewConnectionError { kind: NewConnectionErrorKind::ConnectionAddedToUnboundChannel(channel_id) });
        }
        let id = allocate_id(self.next_connection_id, &self.active_tcp_connections);
        self.next_connection_id = id;
        let new_connection = ConnectionId(id);
        self.active_tcp_connections.insert(id, ActiveTcpConnection { owning_channel: channel_id, owning_client: owner });
        let mut channel = match self.active_channels.remove(&channel_id.0) {
            Some(x) => x,
            None => return Err(NewConnectionError { kind: NewConnectionErrorKind::UnknownChannelId(channel_id) }),
        };
        channel.tcp_connections.push(new_connection);
        self.active_channels.insert(channel_id.0, channel);
        proof {
            let after = *self;
            assert(after.channels() =~= before.channels().insert(channel_id.0, after.channels()[channel_id.0]));
            lemma_next_free_is_not_live(before.connection_counter(), before.connections().dom(), id);
            lemma_add_connection_wf(before, after, channel_id.0, id);
        }
        let operation = ServerOperation::SendMessageToDsrpClient {
            client: owner,
            message: ServerMessage::NewIncomingTcpConnection { channel: channel_id, new_connection },
        };
        Ok((new_connection, operation))
    }

    /// The server bound the port of a channel that waits for it: mark the channel as
    /// bound and tell its owner that the registration succeeded. Anything else is ignored.
    pub fn socket_binding_successful(&mut self, channel_id: ChannelId) -> (r: Option<ServerOperation>)
        requires
            old(self).wf(),
        ensures
            final(self).wf(),
            r is Some <==> old(self).awaiting_binding(channel_id.0),
            !final(self).awaiting_binding(channel_id.0),
            r is Some ==> {
                let ch = old(self).channels()[channel_id.0];
                &&& r == Some(ServerOperation::SendMessageToDsrpClient {
                    client: ch.owner,
                    message: ServerMessage::RegistrationSuccessful {
                        request: ch.registration_request,
                        created_channel: channel_id,
                    },
                })
                &&& binding_confirmed(*old(self), *final(self), channel_id.0)
            },
            r is None ==> *final(self) == *old(self),
    {
        let ghost before = *self;
        let bound = match self.active_channels.get(&channel_id.0) {
            Some(x) => x.socket_has_been_bound,
            None => return None,
        };
        if bound {
            return None;
        }
        let mut channel = match self.active_channels.remove(&channel_id.0) {
            Some(x) => x,
            None => return None,
        };
        channel.socket_has_been_bound = true;
        let owner = channel.owner;
        let request = channel.registration_request;
        self.active_channels.insert(channel_id.0, channel);
        proof {
            let after = *self;
            assert(after.channels() =~= before.channels().insert(channel_id.0, after.channels()[channel_id.0]));
            lemma_bind_wf(before, after, channel_id.0);
        }
        Some(ServerOperation::SendMessageToDsrpClient {
            client: owner,
            message: ServerMessage::RegistrationSuccessful { request, created_channel: channel_id },
        })
    }

    /// The server could not bind the port of a channel that waits for it: drop the
    /// channel, which frees the port, and tell its owner that the registration failed.
    /// Anything else is ignored.
    pub fn socket_binding_failed(&mut self, channel_id: ChannelId) -> (r: Option<ServerOperation>)
        requires
            old(self).wf(),
        ensures
            final(self).wf(),
            r is Some <==> old(self).awaiting_binding(channel_id.0),
            !final(self).awaiting_binding(channel_id.0),
            r is Some ==> {
                let ch = old(self).channels()[channel_id.0];
                &&& r == Some(ServerOperation::SendMessageToDsrpClient {
                    client: ch.owner,
                    message: ServerMessage::RegistrationFailed {
                        request: ch.registration_request,
                        cause: RegistrationFailureCause::SocketBindingFailed,
                    },
                })
                &&& channel_destroyed(*old(self), *final(self), channel_id.0)
            },
            r is None ==> *final(self) == *old(self),
    {
        let (bound, owner, request) = match self.active_channels.get(&channel_id.0) {
            Some(x) => (x.socket_has_been_bound, x.owner, x.registration_request),
            None => return None,
        };
        if bound {
            return None;
        }
        let _ = self.destroy_channel(channel_id);
        Some(ServerOperation::SendMessageToDsrpClient {
            client: owner,
            message: ServerMessage::RegistrationFailed {
                request,
                cause: RegistrationFailureCause::SocketBindingFailed,
            },
        })
    }

    /// A client reports that it dropped a TCP connection. When the connection is live,
    /// belongs to the channel, and the channel to the client, forget it and have the
    /// server disconnect it; otherwise nothing happens.
    fn handle_dsrp_client_disconnection_notification(
        &mut self,
        client_id: ClientId,
        channel_id: ChannelId,
        connection_id: ConnectionId,
    ) -> (ops: Vec<ServerOperation>)
        requires
            old(self).wf(),
        ensures
            final(self).wf(),
            disconnection_outcome(*old(self), *final(self), client_id, channel_id, connection_id, ops@),
    {
        let owning_channel = match self.active_tcp_connections.get(&connection_id.0) {
            Some(x) => x.owning_channel,
            None => return Vec::new(),
        };
        let owner = match self.active_channels.get(&channel_id.0) {
            Some(x) => x.owner,
            None => return Vec::new(),
        };
        if owning_channel != channel_id || owner != client_id {
            return Vec::new();
        }
        self.drop_connection(connection_id);
        let mut ops: Vec<ServerOperation> = Vec::new();
        ops.push(ServerOperation::DisconnectConnection { connection: connection_id });
        ops
    }

    /// A client sends bytes out. They are relayed when the channel is the client's own
    /// and the connection fits it; otherwise nothing happens.
    fn handle_dsrp_client_data_sent_message(
        &self,
        client_id: ClientId,
        channel_id: ChannelId,
        connection_id: Option<ConnectionId>,
        data: Vec<u8>,
    ) -> (ops: Vec<ServerOperation>)
        ensures
            data_sent_outcome(*self, client_id, channel_id, connection_id, data, ops@),
    {
        let (owner, connection_type) = match self.active_channels.get(&channel_id.0) {
            Some(x) => (x.owner, x.connection_type),
            None => return Vec::new(),
        };
        if owner != client_id {
            return Vec::new();
        }
        match connection_type {
            ConnectionType::Tcp => {
                match connection_id {
                    Some(id) => {
                        match self.active_tcp_connections.get(&id.0) {
                            Some(c) => {
                                if c.owning_channel != channel_id {
                                    return Vec::new();
                                }
                            },
                            None => return Vec::new(),
                        }
                    },
                    None => return Vec::new(),
                }
            },
            ConnectionType::Udp => {
                if connection_id.is_some() {
                    return Vec::new();
                }
            },
        }
        let mut ops: Vec<ServerOperation> = Vec::new();
        ops.push(ServerOperation::SendByteData { channel: channel_id, connection: connection_id, data });
        ops
    }


    /// A client asks for a port: see `register_outcome`.
    fn register(
        &mut self,
        client_id: ClientId,
        request: RequestId,
        connection_type: ConnectionType,
        port: u16,
    ) -> (ops: Vec<ServerOperation>)
        requires
            old(self).wf(),
            old(self).clients().contains_key(client_id.0),
            old(self).channels().dom().len() < id_space(),
        ensures
            final(self).wf(),
            register_outcome(*old(self), *final(self), client_id, request, connection_type, port, ops@),
    {
        let ghost before = *self;
        let mut ops: Vec<ServerOperation> = Vec::new();
        if self.active_ports.contains_key(&port) {
            ops.push(ServerOperation::SendMessageToDsrpClient {
                client: client_id,
                message: ServerMessage::RegistrationFailed {
                    request,
                    cause: RegistrationFailureCause::PortAlreadyRegistered,
                },
            });
            return ops;
        }
        let id = allocate_id(self.next_channel_id, &self.active_channels);
        self.next_channel_id = id;
        let channel_id = ChannelId(id);
        let channel = ActiveChannel {
            port,
            connection_type,
            owner: client_id,
            tcp_connections: Vec::new(),
            socket_has_been_bound: false,
            registration_request: request,
        };
        self.active_channels.insert(id, channel);
        self.active_ports.insert(port, channel_id);
        let mut client = match self.active_clients.remove(&client_id.0) {
            Some(x) => x,
            None => return ops,
        };
        client.channels.push(channel_id);
        self.active_clients.insert(client_id.0, client);
        ops.push(start_operation(connection_type, port, channel_id));
        proof {
            let after = *self;
            assert(after.clients() =~= before.clients().insert(client_id.0, after.clients()[client_id.0]));
            lemma_next_free_is_not_live(before.channel_counter(), before.channels().dom(), id);
            lemma_register_wf(before, after, client_id, port);
        }
        ops
    }

    /// A client gives up a channel: see `unregister_outcome`.
    fn unregister(&mut self, client_id: ClientId, channel_id: ChannelId) -> (r: Result<
        Vec<ServerOperation>,
        ClientMessageHandlingError,
    >)
        requires
            old(self).wf(),
        ensures
            final(self).wf(),
            unregister_outcome(*old(self), *final(self), client_id, channel_id, r),
    {
        let owner = match self.active_channels.get(&channel_id.0) {
            Some(x) => x.owner,
            None => {
                return Err(ClientMessageHandlingError { kind: ClientMessageHandlingErrorKind::ChannelNotFound(channel_id) });
            },
        };
        if owner != client_id {
            return Err(ClientMessageHandlingError {
                kind: ClientMessageHandlingErrorKind::ChannelNotOwnedByRequester {
                    channel: channel_id,
                    requesting_client: client_id,
                    owning_client: owner,
                },
            });
        }
        Ok(self.destroy_channel(channel_id))
    }

    /// Handles a message of a connected client. A client that is not connected is an
    /// error; what each message does is stated by its outcome.
    pub fn handle_client_message(&mut self, client_id: ClientId, message: ClientMessage) -> (r: Result<
        Vec<ServerOperation>,
        ClientMessageHandlingError,
    >)
        requires
            old(self).wf(),
            old(self).channels().dom().len() < id_space(),
        ensures
            final(self).wf(),
            r is Err ==> *final(self) == *old(self),
            !old(self).clients().contains_key(client_id.0) ==> r == Err::<Vec<ServerOperation>, _>(
                ClientMessageHandlingError { kind: ClientMessageHandlingErrorKind::UnknownClientId(client_id) },
            ),
            old(self).clients().contains_key(client_id.0) ==> match message {
                ClientMessage::Register { request, connection_type, port } => r matches Ok(ops)
                    && register_outcome(*old(self), *final(self), client_id, request, connection_type, port, ops@),
                ClientMessage::Unregister { channel } => unregister_outcome(
                    *old(self),
                    *final(self),
                    client_id,
                    channel,
                    r,
                ),
                ClientMessage::TcpConnectionDisconnected { channel, connection } => r matches Ok(ops)
                    && disconnection_outcome(*old(self), *final(self), client_id, channel, connection, ops@),
                ClientMessage::DataBeingSent { channel, connection, data } => r matches Ok(ops)
                    && *final(self) == *old(self) && data_sent_outcome(
                    *old(self),
                    client_id,
                    channel,
                    connection,
                    data,
                    ops@,
                ),
            },
    {
        if !self.active_clients.contains_key(&client_id.0) {
            return Err(ClientMessageHandlingError { kind: ClientMessageHandlingErrorKind::UnknownClientId(client_id) });
        }
        match message {
            ClientMessage::Register { request, connection_type, port } => {
                Ok(self.register(client_id, request, connection_type, port))
            },
            ClientMessage::Unregister { channel } => self.unregister(client_id, channel),
            ClientMessage::TcpConnectionDisconnected { channel, connection } => {
                Ok(self.handle_dsrp_client_disconnection_notification(client_id, channel, connection))
            },
            ClientMessage::DataBeingSent { channel, connection, data } => {
                Ok(self.handle_dsrp_client_data_sent_message(client_id, channel, connection, data))
            },
        }
    }

    /// Admits a client that speaks this library's protocol version, under a fresh id.
    /// Any other version is refused with a failure response, and nothing changes.
    pub fn add_dsrp_client(&mut self, request: HandshakeRequest) -> (r: Result<NewClient, HandshakeResponse>)
        requires
            old(self).wf(),
            old(self).clients().dom().len() < id_space(),
        ensures
            final(self).wf(),
            r is Ok <==> request.client_protocol_version@ == CURRENT_VERSION@,
            r matches Err(resp) ==> *final(self) == *old(self),
            r matches Err(resp) ==> (resp matches HandshakeResponse::Failure { reason }
                && reason@ == version_mismatch_reason(request.client_protocol_version@)),
            r matches Ok(nc) ==> {
                &&& nc.response == HandshakeResponse::Success
                &&& is_next_free(old(self).client_counter(), old(self).clients().dom(), nc.id.0)
                &&& final(self).client_counter() == nc.id.0
                &&& final(self).clients() == old(self).clients().insert(nc.id.0, final(self).clients()[nc.id.0])
                &&& final(self).clients()[nc.id.0].channels@.len() == 0
                &&& final(self).channels() == old(self).channels()
                &&& final(self).ports() == old(self).ports()
                &&& final(self).connections() == old(self).connections()
                &&& final(self).channel_counter() == old(self).channel_counter()
                &&& final(self).connection_counter() == old(self).connection_counter()
            },
    {
        let ghost before = *self;
        let current = CURRENT_VERSION.to_owned();
        if !(request.client_protocol_version == current) {
            let reason = String::from_str("Protocol version ").concat(request.client_protocol_version.as_str())
                .concat(" requested but only protocol version ").concat(CURRENT_VERSION).concat(" is supported");
            return Err(HandshakeResponse::Failure { reason });
        }
        let id = allocate_id(self.next_client_id, &self.active_clients);
        self.next_client_id = id;
        self.active_clients.insert(id, ActiveClient { channels: Vec::new() });
        proof {
            let after = *self;
            lemma_next_free_is_not_live(before.client_counter(), before.clients().dom(), id);
            assert forall|c: u32| #[trigger] after.connections().contains_key(c) implies after.connection_is_routed(c) by {
                assert(before.connection_is_routed(c));
            }
            assert forall|j: u32| #[trigger] after.channels().contains_key(j) implies after.channel_is_indexed(j) by {
                assert(before.channel_is_indexed(j));
                let o = before.channels()[j].owner.0;
                assert(o != id);
                assert(after.clients()[o] == before.clients()[o]);
                let lj = before.channels()[j].tcp_connections@;
                assert forall|n: int| 0 <= n < lj.len() implies {
                    &&& #[trigger] after.connections().contains_key(lj[n].0)
                    &&& after.connections()[lj[n].0].owning_channel == ChannelId(j)
                } by {
                    assert(before.connections().contains_key(lj[n].0));
                }
            }
            assert forall|p: u16| #[trigger] after.ports().contains_key(p) implies after.port_is_indexed(p) by {
                assert(before.port_is_indexed(p));
            }
            assert forall|c: u32| #[trigger] after.clients().contains_key(c) implies after.client_is_indexed(c) by {
                if c != id {
                    assert(before.client_is_indexed(c));
                    lemma_client_indexed_kept(before, after, c);
                }
            }
        }
        Ok(NewClient { id: ClientId(id), response: HandshakeResponse::Success })
    }


    /// Bytes received on a live TCP connection go to the connection's client.
    pub fn tcp_data_received(&self, connection_id: ConnectionId, data: &[u8]) -> (r: Option<ServerOperation>)
        ensures
            r is Some <==> self.connections().contains_key(connection_id.0),
            r is Some ==> {
                let c = self.connections()[connection_id.0];
                (r matches Some(ServerOperation::SendMessageToDsrpClient {
                    client,
                    message: ServerMessage::DataReceived { channel, connection, data: d },
                }) && client == c.owning_client && channel == c.owning_channel && connection
                    == Some(connection_id) && d@ == data@)
            },
    {
        let connection = match self.active_tcp_connections.get(&connection_id.0) {
            Some(x) => *x,
            None => return None,
        };
        let mut data_copy: Vec<u8> = Vec::new();
        append_bytes(&mut data_copy, data);
        let message = ServerMessage::DataReceived {
            channel: connection.owning_channel,
            connection: Some(connection_id),
            data: data_copy,
        };
        Some(ServerOperation::SendMessageToDsrpClient { client: connection.owning_client, message })
    }

    /// Bytes received on a live, bound channel's port go to the channel's owner.
    pub fn udp_data_received(&self, channel_id: ChannelId, data: &[u8]) -> (r: Option<ServerOperation>)
        ensures
            r is Some <==> self.channels().contains_key(channel_id.0)
                && self.channels()[channel_id.0].socket_has_been_bound,
            r is Some ==> (r matches Some(ServerOperation::SendMessageToDsrpClient {
                client,
                message: ServerMessage::DataReceived { channel, connection, data: d },
            }) && client == self.channels()[channel_id.0].owner && channel == channel_id
                && connection is None && d@ == data@),
    {
        let (owner, bound) = match self.active_channels.get(&channel_id.0) {
            Some(x) => (x.owner, x.socket_has_been_bound),
            None => return None,
        };
        if !bound {
            return None;
        }
        let mut data_copy: Vec<u8> = Vec::new();
        append_bytes(&mut data_copy, data);
        let message = ServerMessage::DataReceived { channel: channel_id, connection: None, data: data_copy };
        Some(ServerOperation::SendMessageToDsrpClient { client: owner, message })
    }
}

/// Every live connection is routed consistently: its channel is live, is a TCP channel,
/// lists it, and is owned by the connection's client.
pub proof fn lemma_connection_routing(h: ServerHandler, k: u32)
    requires
        h.wf(),
        h.connections().contains_key(k),
    ensures
        ({
            let c = h.connections()[k];
            let ch = h.channels()[c.owning_channel.0];
            &&& h.channels().contains_key(c.owning_channel.0)
            &&& c.owning_client == ch.owner
            &&& ch.connection_type == ConnectionType::Tcp
            &&& ch.tcp_connections@.contains(ConnectionId(k))
        }),
{
    assert(h.connection_is_routed(k));
}

/// Every live channel holds its port in the port index.
pub proof fn lemma_channel_holds_port(h: ServerHandler, k: u32)
    requires
        h.wf(),
        h.channels().contains_key(k),
    ensures
        h.ports().contains_key(h.channels()[k].port),
        h.ports()[h.channels()[k].port] == ChannelId(k),
{
    assert(h.channel_is_indexed(k));
}

/// Once a client is removed, nothing refers to it or to what it owned: no channel,
/// no connection and no port reservation.
pub proof fn lemma_removed_client_leaves_no_trace(before: ServerHandler, after: ServerHandler, id: ClientId)
    requires
        before.wf(),
        before.clients().contains_key(id.0),
        client_removed(before, after, id),
    ensures
        !after.clients().contains_key(id.0),
        forall|k: u32| #[trigger]
            after.channels().contains_key(k) ==> after.channels()[k].owner != id && !(
            before.channels().contains_key(k) && before.channels()[k].owner == id),
        forall|c: u32| #[trigger]
            after.connections().contains_key(c) ==> after.connections()[c].owning_client != id
                && before.channels()[after.connections()[c].owning_channel.0].owner != id,
        forall|p: u16| #[trigger]
            after.ports().contains_key(p) ==> before.channels()[after.ports()[p].0].owner != id,
{
    assert forall|c: u32| #[trigger] after.connections().contains_key(c) implies after.connections()[c].owning_client != id
        && before.channels()[after.connections()[c].owning_channel.0].owner != id by {
        assert(before.connection_is_routed(c));
    }
}

/// Answering a registration (bound or failed) ends the channel's wait, so the server
/// answers it at most once: both answering calls produce a message only for a
/// waiting channel.
pub proof fn lemma_binding_answered_once(before: ServerHandler, after: ServerHandler, k: u32)
    requires
        before.wf(),
        before.awaiting_binding(k),
        binding_confirmed(before, after, k) || channel_destroyed(before, after, k),
    ensures
        !after.awaiting_binding(k),
{
}

/// A failed binding frees the port: a later `Register` of it, by any client, is
/// accepted and starts relaying it.
pub proof fn lemma_failed_binding_frees_port(before: ServerHandler, after: ServerHandler, k: u32)
    requires
        before.wf(),
        before.channels().contains_key(k),
        channel_destroyed(before, after, k),
    ensures
        !after.ports().contains_key(before.channels()[k].port),
        forall|next: ServerHandler, client: ClientId, request: RequestId, connection_type: ConnectionType, ops: Seq<ServerOperation>|
            #[trigger] register_outcome(after, next, client, request, connection_type, before.channels()[k].port, ops)
            ==> ops == seq![start_op(connection_type, before.channels()[k].port, ChannelId(next.channel_counter()))],
{
}

/// Closing a channel with N live connections yields exactly N disconnections, one for
/// each of them, followed by one stop operation.
pub proof fn lemma_teardown_disconnects_all(h: ServerHandler, k: u32)
    requires
        h.wf(),
        h.channels().contains_key(k),
    ensures
        ({
            let ch = h.channels()[k];
            let n = ch.tcp_connections@.len();
            let ops = teardown_ops(ch);
            &&& ops.len() == n + 1
            &&& forall|i: int| 0 <= i < n ==> (#[trigger] ops[i]) is DisconnectConnection
            &&& ops[n as int] == stop_op(ch)
            &&& forall|c: u32|
                (h.connections().contains_key(c) && h.connections()[c].owning_channel == ChannelId(k))
                    <==> exists|i: int| 0 <= i < n && #[trigger] ops[i] == (ServerOperation::DisconnectConnection {
                        connection: ConnectionId(c),
                    })
            &&& ch.tcp_connections@.no_duplicates()
        }),
{
    let ch = h.channels()[k];
    let n = ch.tcp_connections@.len();
    let ops = teardown_ops(ch);
    assert(h.channel_is_indexed(k));
    assert forall|i: int| 0 <= i < n implies (#[trigger] ops[i]) == (ServerOperation::DisconnectConnection {
        connection: ch.tcp_connections@[i],
    }) by {}
    assert forall|c: u32|
        (h.connections().contains_key(c) && h.connections()[c].owning_channel == ChannelId(k))
            <==> exists|i: int| 0 <= i < n && #[trigger] ops[i] == (ServerOperation::DisconnectConnection {
                connection: ConnectionId(c),
            }) by {
        if h.connections().contains_key(c) && h.connections()[c].owning_channel == ChannelId(k) {
            assert(h.connection_is_routed(c));
            let i = choose|i: int| 0 <= i < n && #[trigger] ch.tcp_connections@[i] == ConnectionId(c);
            assert(ops[i] == (ServerOperation::DisconnectConnection { connection: ConnectionId(c) }));
        }
        if exists|i: int| 0 <= i < n && #[trigger] ops[i] == (ServerOperation::DisconnectConnection {
            connection: ConnectionId(c),
        }) {
            let i = choose|i: int| 0 <= i < n && #[trigger] ops[i] == (ServerOperation::DisconnectConnection {
                connection: ConnectionId(c),
            });
            assert(ops[i] == (ServerOperation::DisconnectConnection { connection: ch.tcp_connections@[i] }));
            assert(ch.tcp_connections@[i] == ConnectionId(c));
            assert(h.connections().contains_key(ch.tcp_connections@[i].0));
        }
    }
}

/// After a connection is dropped it is no longer live, so a second report of its
/// closing finds nothing to do.
pub proof fn lemma_second_disconnect_ignored(before: ServerHandler, after: ServerHandler, k: u32)
    requires
        connection_dropped(before, after, k),
    ensures
        !after.connections().contains_key(k),
{
}

/// A `Register` never reports success: the success waits for the binding. The server
/// answers it at once only by a refusal, which changes nothing; otherwise the new channel
/// is fresh and waits for its binding.
pub proof fn lemma_register_defers_success(
    before: ServerHandler,
    after: ServerHandler,
    client: ClientId,
    request: RequestId,
    connection_type: ConnectionType,
    port: u16,
    ops: Seq<ServerOperation>,
)
    requires
        register_outcome(before, after, client, request, connection_type, port, ops),
    ensures
        ops.len() == 1,
        !(ops[0] matches ServerOperation::SendMessageToDsrpClient {
            message: ServerMessage::RegistrationSuccessful { .. },
            ..
        }),
        before.ports().contains_key(port) ==> after == before,
        !before.ports().contains_key(port) ==> {
            &&& !before.channels().contains_key(after.channel_counter())
            &&& after.awaiting_binding(after.channel_counter())
            &&& after.ports()[port] == ChannelId(after.channel_counter())
        },
{
    if !before.ports().contains_key(port) {
        lemma_next_free_is_not_live(before.channel_counter(), before.channels().dom(), after.channel_counter());
    }
}

/// An accepted `Unregister` of a channel with N live connections yields exactly N
/// disconnections, one for each of them, followed by one stop operation for its port.
pub proof fn lemma_unregister_disconnects_then_stops(
    before: ServerHandler,
    after: ServerHandler,
    client: ClientId,
    channel: ChannelId,
    r: Result<Vec<ServerOperation>, ClientMessageHandlingError>,
)
    requires
        before.wf(),
        unregister_outcome(before, after, client, channel, r),
        r is Ok,
    ensures
        ({
            let ch = before.channels()[channel.0];
            let n = ch.tcp_connections@.len();
            let ops = r->Ok_0@;
            &&& ops.len() == n + 1
            &&& forall|i: int| 0 <= i < n ==> (#[trigger] ops[i]) is DisconnectConnection
            &&& ops[n as int] == stop_op(ch)
            &&& forall|c: u32|
                (before.connections().contains_key(c) && before.connections()[c].owning_channel == channel)
                    <==> exists|i: int| 0 <= i < n && #[trigger] ops[i] == (ServerOperation::DisconnectConnection {
                        connection: ConnectionId(c),
                    })
        }),
{
    lemma_teardown_disconnects_all(before, channel.0);
}

} // verus!
