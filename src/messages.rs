use vstd::prelude::*;

verus! {

/// Identifies a port registration that a relay client has asked for.
#[derive(Copy, Clone, PartialEq, Eq, Debug, Hash, Structural)]
pub struct RequestId(pub u32);

/// Identifies a channel: one relayed port of one client.
#[derive(Copy, Clone, PartialEq, Eq, Debug, Hash, Structural)]
pub struct ChannelId(pub u32);

/// Identifies one accepted TCP connection on a channel.
#[derive(Copy, Clone, PartialEq, Eq, Debug, Hash, Structural)]
pub struct ConnectionId(pub u32);

#[derive(Copy, Clone, PartialEq, Eq, Debug, Structural)]
pub enum ConnectionType {
    Tcp,
    Udp,
}

#[derive(Copy, Clone, PartialEq, Eq, Debug, Structural)]
pub enum RegistrationFailureCause {
    /// Another channel holds the port.
    PortAlreadyRegistered,
    /// The relay server could not bind the port.
    SocketBindingFailed,
}

/// What a relay client sends to the relay server.
#[derive(Debug)]
#[allow(inconsistent_fields)]
pub enum ClientMessage {
    /// Asks the server to relay all tcp or udp traffic of `port` to the sender.
    Register { request: RequestId, connection_type: ConnectionType, port: u16 },
    /// Asks the server to stop relaying the channel.
    Unregister { channel: ChannelId },
    /// Tells the server that the client side dropped a TCP connection.
    TcpConnectionDisconnected { channel: ChannelId, connection: ConnectionId },
    /// Outbound bytes, for the server to send to the originator of the traffic.
    DataBeingSent { channel: ChannelId, connection: Option<ConnectionId>, data: Vec<u8> },
}

/// What the relay server sends to a relay client.
#[derive(Debug)]
#[allow(inconsistent_fields)]
pub enum ServerMessage {
    /// The registration succeeded and the port is bound; traffic of it comes on
    /// `created_channel`.
    RegistrationSuccessful { request: RequestId, created_channel: ChannelId },
    /// The registration did not succeed, and why.
    RegistrationFailed { request: RequestId, cause: RegistrationFailureCause },
    /// A remote endpoint opened a TCP connection on the channel's port.
    NewIncomingTcpConnection { channel: ChannelId, new_connection: ConnectionId },
    /// The remote endpoint closed the TCP connection.
    TcpConnectionClosed { channel: ChannelId, connection: ConnectionId },
    /// Bytes that the server received on the channel (and, for TCP, the connection).
    DataReceived { channel: ChannelId, connection: Option<ConnectionId>, data: Vec<u8> },
}

} // verus!
