use dsrp_core::client_handler::{ClientHandler, ClientOperation, ServerMessageHandlingErrorKind};
use dsrp_core::handshake::{HandshakeRequest, HandshakeResponse, CURRENT_VERSION};
use dsrp_core::messages::{
    ChannelId, ClientMessage, ConnectionId, ConnectionType, RegistrationFailureCause, RequestId,
    ServerMessage,
};
use dsrp_core::server_handler::{ClientId, ServerHandler, ServerOperation};

fn register(server: &mut ServerHandler, client: ClientId, request: u32, connection_type: ConnectionType, port: u16) -> Vec<ServerOperation> {
    let message = ClientMessage::Register { request: RequestId(request), connection_type, port };
    server.handle_client_message(client, message).unwrap()
}

fn single_start_tcp(ops: &[ServerOperation], expected_port: u16) -> ChannelId {
    assert_eq!(ops.len(), 1, "Expected exactly one operation");
    match &ops[0] {
        ServerOperation::StartTcpOperations { port, channel } => {
            assert_eq!(*port, expected_port);
            *channel
        },
        x => panic!("Expected a start tcp operation, got {:?}", x),
    }
}

#[test]
fn scenario_register_bind_accept_data_close() {
    let mut server = ServerHandler::new();
    let client = server.add_dsrp_client(HandshakeRequest::new()).unwrap();
    assert_eq!(client.id, ClientId(1));

    let ops = register(&mut server, client.id, 1, ConnectionType::Tcp, 23);
    let channel = single_start_tcp(&ops, 23);

    match server.socket_binding_successful(channel) {
        Some(ServerOperation::SendMessageToDsrpClient {
            client: c,
            message: ServerMessage::RegistrationSuccessful { request, created_channel },
        }) => {
            assert_eq!(c, ClientId(1));
            assert_eq!(request, RequestId(1));
            assert_eq!(created_channel, channel);
        },
        x => panic!("Unexpected binding answer {:?}", x),
    }

    let (connection, op) = server.new_channel_tcp_connection(channel).unwrap();
    match op {
        ServerOperation::SendMessageToDsrpClient {
            client: c,
            message: ServerMessage::NewIncomingTcpConnection { channel: ch, new_connection },
        } => {
            assert_eq!(c, client.id);
            assert_eq!(ch, channel);
            assert_eq!(new_connection, connection);
        },
        x => panic!("Unexpected accept operation {:?}", x),
    }

    match server.tcp_data_received(connection, &[1, 2, 3]) {
        Some(ServerOperation::SendMessageToDsrpClient {
            client: c,
            message: ServerMessage::DataReceived { channel: ch, connection: k, data },
        }) => {
            assert_eq!(c, client.id);
            assert_eq!(ch, channel);
            assert_eq!(k, Some(connection));
            assert_eq!(data, vec![1, 2, 3]);
        },
        x => panic!("Unexpected data operation {:?}", x),
    }

    match server.tcp_connection_disconnected(connection) {
        Some(ServerOperation::SendMessageToDsrpClient {
            client: c,
            message: ServerMessage::TcpConnectionClosed { channel: ch, connection: k },
        }) => {
            assert_eq!(c, client.id);
            assert_eq!(ch, channel);
            assert_eq!(k, connection);
        },
        x => panic!("Unexpected close operation {:?}", x),
    }
    assert!(server.tcp_connection_disconnected(connection).is_none());
}

#[test]
fn scenario_port_conflict_between_clients() {
    let mut server = ServerHandler::new();
    let first = server.add_dsrp_client(HandshakeRequest::new()).unwrap();
    let second = server.add_dsrp_client(HandshakeRequest::new()).unwrap();
    let _ = single_start_tcp(&register(&mut server, first.id, 1, ConnectionType::Tcp, 23), 23);

    let ops = register(&mut server, second.id, 7, ConnectionType::Tcp, 23);
    assert_eq!(ops.len(), 1, "Only the failure message is expected");
    match &ops[0] {
        ServerOperation::SendMessageToDsrpClient {
            client,
            message: ServerMessage::RegistrationFailed { request, cause },
        } => {
            assert_eq!(*client, second.id);
            assert_eq!(*request, RequestId(7));
            assert_eq!(*cause, RegistrationFailureCause::PortAlreadyRegistered);
        },
        x => panic!("Unexpected operation {:?}", x),
    }
}

#[test]
fn scenario_unregister_with_live_connections() {
    let mut server = ServerHandler::new();
    let client = server.add_dsrp_client(HandshakeRequest::new()).unwrap();
    let channel = single_start_tcp(&register(&mut server, client.id, 1, ConnectionType::Tcp, 23), 23);
    server.socket_binding_successful(channel).unwrap();
    let (k1, _) = server.new_channel_tcp_connection(channel).unwrap();
    let (k2, _) = server.new_channel_tcp_connection(channel).unwrap();

    let ops = server.handle_client_message(client.id, ClientMessage::Unregister { channel }).unwrap();
    assert_eq!(ops.len(), 3);
    let mut disconnected: Vec<ConnectionId> = ops[..2]
        .iter()
        .map(|op| match op {
            ServerOperation::DisconnectConnection { connection } => *connection,
            x => panic!("Expected a disconnection, got {:?}", x),
        })
        .collect();
    disconnected.sort_by_key(|c| c.0);
    let mut expected = vec![k1, k2];
    expected.sort_by_key(|c| c.0);
    assert_eq!(disconnected, expected);
    assert!(matches!(ops[2], ServerOperation::StopTcpOperations { port: 23 }));
    assert!(server.tcp_data_received(k1, &[1]).is_none());
    assert!(server.tcp_data_received(k2, &[1]).is_none());
}

#[test]
fn scenario_binding_failure_reopens_port() {
    let mut server = ServerHandler::new();
    let client = server.add_dsrp_client(HandshakeRequest::new()).unwrap();
    let channel = single_start_tcp(&register(&mut server, client.id, 1, ConnectionType::Tcp, 23), 23);

    match server.socket_binding_failed(channel) {
        Some(ServerOperation::SendMessageToDsrpClient {
            client: c,
            message: ServerMessage::RegistrationFailed { request, cause },
        }) => {
            assert_eq!(c, client.id);
            assert_eq!(request, RequestId(1));
            assert_eq!(cause, RegistrationFailureCause::SocketBindingFailed);
        },
        x => panic!("Unexpected binding answer {:?}", x),
    }
    assert!(server.socket_binding_failed(channel).is_none());
    assert!(server.socket_binding_successful(channel).is_none());

    let again = single_start_tcp(&register(&mut server, client.id, 2, ConnectionType::Tcp, 23), 23);
    assert!(server.socket_binding_successful(again).is_some());

    let other = server.add_dsrp_client(HandshakeRequest::new()).unwrap();
    let ops = register(&mut server, other.id, 3, ConnectionType::Udp, 24);
    let udp = match &ops[..] {
        [ServerOperation::StartUdpOperations { port: 24, channel }] => *channel,
        x => panic!("Unexpected operations {:?}", x),
    };
    assert!(server.socket_binding_failed(udp).is_some());
    let ops = register(&mut server, client.id, 4, ConnectionType::Udp, 24);
    assert!(matches!(&ops[..], [ServerOperation::StartUdpOperations { port: 24, .. }]));
}

fn client_with_channel(connection_type: ConnectionType, channel: ChannelId) -> ClientHandler {
    let (mut client, _) = ClientHandler::new();
    let (request, _) = client.request_registration(connection_type, 23);
    let ops = client
        .handle_server_message(ServerMessage::RegistrationSuccessful { request, created_channel: channel })
        .unwrap();
    assert_eq!(ops.len(), 1);
    client
}

#[test]
fn scenario_client_ignores_orphan_tcp_notifications() {
    let mut client = client_with_channel(ConnectionType::Tcp, ChannelId(1));
    let ops = client
        .handle_server_message(ServerMessage::NewIncomingTcpConnection { channel: ChannelId(2), new_connection: ConnectionId(9) })
        .unwrap();
    assert!(ops.is_empty());

    let mut udp_client = client_with_channel(ConnectionType::Udp, ChannelId(3));
    let ops = udp_client
        .handle_server_message(ServerMessage::NewIncomingTcpConnection { channel: ChannelId(3), new_connection: ConnectionId(9) })
        .unwrap();
    assert!(ops.is_empty());
}

#[test]
fn scenario_udp_data_with_connection_is_discarded() {
    let mut client = client_with_channel(ConnectionType::Udp, ChannelId(4));
    let ops = client
        .handle_server_message(ServerMessage::DataReceived {
            channel: ChannelId(4),
            connection: Some(ConnectionId(1)),
            data: vec![5, 6],
        })
        .unwrap();
    assert!(ops.is_empty());
}

#[test]
fn ids_continue_forward_after_removal() {
    let mut server = ServerHandler::new();
    let a = server.add_dsrp_client(HandshakeRequest::new()).unwrap();
    let b = server.add_dsrp_client(HandshakeRequest::new()).unwrap();
    assert_eq!((a.id, b.id), (ClientId(1), ClientId(2)));
    let _ = server.remove_dsrp_client(a.id);
    let c = server.add_dsrp_client(HandshakeRequest::new()).unwrap();
    assert_eq!(c.id, ClientId(3));

    let ch1 = single_start_tcp(&register(&mut server, b.id, 1, ConnectionType::Tcp, 80), 80);
    let ch2 = single_start_tcp(&register(&mut server, b.id, 2, ConnectionType::Tcp, 81), 81);
    assert_eq!((ch1, ch2), (ChannelId(1), ChannelId(2)));
    server.socket_binding_successful(ch1).unwrap();
    let (k1, _) = server.new_channel_tcp_connection(ch1).unwrap();
    let (k2, _) = server.new_channel_tcp_connection(ch1).unwrap();
    assert_eq!((k1, k2), (ConnectionId(1), ConnectionId(2)));

    let (mut client, _) = ClientHandler::new();
    let (r1, _) = client.request_registration(ConnectionType::Tcp, 1);
    let (r2, _) = client.request_registration(ConnectionType::Udp, 2);
    assert_eq!((r1, r2), (RequestId(1), RequestId(2)));
}

#[test]
fn version_mismatch_reason_names_both_versions() {
    let mut server = ServerHandler::new();
    let error = server.add_dsrp_client(HandshakeRequest { client_protocol_version: "9.9".to_owned() }).unwrap_err();
    let expected = format!("Protocol version 9.9 requested but only protocol version {} is supported", CURRENT_VERSION);
    assert_eq!(error, HandshakeResponse::Failure { reason: expected });
    let client = server.add_dsrp_client(HandshakeRequest::new()).unwrap();
    assert_eq!(client.id, ClientId(1), "A refused handshake allocates no id");
}

#[test]
fn failed_calls_leave_server_state_alone() {
    let mut server = ServerHandler::new();
    let a = server.add_dsrp_client(HandshakeRequest::new()).unwrap();
    let b = server.add_dsrp_client(HandshakeRequest::new()).unwrap();
    let channel = single_start_tcp(&register(&mut server, a.id, 1, ConnectionType::Tcp, 23), 23);
    assert!(server.handle_client_message(b.id, ClientMessage::Unregister { channel }).is_err());
    assert!(server.handle_client_message(ClientId(99), ClientMessage::Unregister { channel }).is_err());
    assert!(server.new_channel_tcp_connection(channel).is_err());
    server.socket_binding_successful(channel).unwrap();
    let (k, _) = server.new_channel_tcp_connection(channel).unwrap();
    assert_eq!(k, ConnectionId(1), "Failed calls did not consume connection ids");
    assert!(server.tcp_data_received(k, &[1]).is_some());
}

#[test]
fn removing_client_emits_disconnects_before_each_stop() {
    let mut server = ServerHandler::new();
    let client = server.add_dsrp_client(HandshakeRequest::new()).unwrap();
    let channel = single_start_tcp(&register(&mut server, client.id, 1, ConnectionType::Tcp, 23), 23);
    server.socket_binding_successful(channel).unwrap();
    let (k, _) = server.new_channel_tcp_connection(channel).unwrap();
    let ops = server.remove_dsrp_client(client.id);
    assert_eq!(ops.len(), 2);
    assert!(matches!(ops[0], ServerOperation::DisconnectConnection { connection } if connection == k));
    assert!(matches!(ops[1], ServerOperation::StopTcpOperations { port: 23 }));
    assert!(server.remove_dsrp_client(client.id).is_empty());
    assert!(server.tcp_data_received(k, &[1]).is_none());
    assert!(server.udp_data_received(channel, &[1]).is_none());
}

#[test]
fn client_closes_connection_once() {
    let mut client = client_with_channel(ConnectionType::Tcp, ChannelId(8));
    client
        .handle_server_message(ServerMessage::NewIncomingTcpConnection { channel: ChannelId(8), new_connection: ConnectionId(3) })
        .unwrap();
    let ops = client
        .handle_server_message(ServerMessage::TcpConnectionClosed { channel: ChannelId(8), connection: ConnectionId(3) })
        .unwrap();
    assert!(matches!(&ops[..], [ClientOperation::CloseTcpConnection { channel: ChannelId(8), connection: ConnectionId(3) }]));
    let ops = client
        .handle_server_message(ServerMessage::TcpConnectionClosed { channel: ChannelId(8), connection: ConnectionId(3) })
        .unwrap();
    assert!(ops.is_empty());
    let ops = client
        .handle_server_message(ServerMessage::DataReceived { channel: ChannelId(8), connection: Some(ConnectionId(3)), data: vec![1] })
        .unwrap();
    assert!(ops.is_empty());
}

#[test]
fn client_answers_each_request_once() {
    let (mut client, _) = ClientHandler::new();
    let (request, _) = client.request_registration(ConnectionType::Tcp, 23);
    let ops = client
        .handle_server_message(ServerMessage::RegistrationFailed { request, cause: RegistrationFailureCause::SocketBindingFailed })
        .unwrap();
    assert!(matches!(&ops[..], [ClientOperation::NotifyRegistrationFailed { cause: RegistrationFailureCause::SocketBindingFailed, .. }]));
    let error = client
        .handle_server_message(ServerMessage::RegistrationSuccessful { request, created_channel: ChannelId(1) })
        .unwrap_err();
    assert_eq!(error.kind, ServerMessageHandlingErrorKind::UnknownRequest(request));
}

#[test]
fn client_moves_a_reused_connection_id() {
    let mut client = client_with_channel(ConnectionType::Tcp, ChannelId(1));
    let (request, _) = client.request_registration(ConnectionType::Tcp, 24);
    client
        .handle_server_message(ServerMessage::RegistrationSuccessful { request, created_channel: ChannelId(2) })
        .unwrap();
    let first = client
        .handle_server_message(ServerMessage::NewIncomingTcpConnection { channel: ChannelId(1), new_connection: ConnectionId(5) })
        .unwrap();
    assert_eq!(first.len(), 1);
    let again = client
        .handle_server_message(ServerMessage::NewIncomingTcpConnection { channel: ChannelId(2), new_connection: ConnectionId(5) })
        .unwrap();
    assert!(matches!(&again[..], [ClientOperation::CreateTcpConnectionForChannel { channel: ChannelId(2), new_connection: ConnectionId(5) }]));
    let on_old = client
        .handle_server_message(ServerMessage::DataReceived { channel: ChannelId(1), connection: Some(ConnectionId(5)), data: vec![7] })
        .unwrap();
    assert!(on_old.is_empty(), "The connection left its former channel");
    let on_new = client
        .handle_server_message(ServerMessage::DataReceived { channel: ChannelId(2), connection: Some(ConnectionId(5)), data: vec![7] })
        .unwrap();
    assert!(matches!(&on_new[..], [ClientOperation::RelayRemotePacket { channel: ChannelId(2), .. }]));
    let same = client
        .handle_server_message(ServerMessage::NewIncomingTcpConnection { channel: ChannelId(2), new_connection: ConnectionId(5) })
        .unwrap();
    assert_eq!(same.len(), 1);
    let closed = client
        .handle_server_message(ServerMessage::TcpConnectionClosed { channel: ChannelId(2), connection: ConnectionId(5) })
        .unwrap();
    assert_eq!(closed.len(), 1);
    let closed_again = client
        .handle_server_message(ServerMessage::TcpConnectionClosed { channel: ChannelId(2), connection: ConnectionId(5) })
        .unwrap();
    assert!(closed_again.is_empty(), "The connection was listed once");
}

#[test]
fn client_success_for_an_open_channel_replaces_it() {
    let mut client = client_with_channel(ConnectionType::Tcp, ChannelId(1));
    client
        .handle_server_message(ServerMessage::NewIncomingTcpConnection { channel: ChannelId(1), new_connection: ConnectionId(4) })
        .unwrap();
    let (request, _) = client.request_registration(ConnectionType::Udp, 24);
    let ops = client
        .handle_server_message(ServerMessage::RegistrationSuccessful { request, created_channel: ChannelId(1) })
        .unwrap();
    assert!(matches!(&ops[..], [ClientOperation::NotifyChannelOpened { registered_by_request, opened_channel: ChannelId(1) }] if *registered_by_request == request));
    let error = client
        .handle_server_message(ServerMessage::RegistrationSuccessful { request, created_channel: ChannelId(2) })
        .unwrap_err();
    assert_eq!(error.kind, ServerMessageHandlingErrorKind::UnknownRequest(request));
    let udp = client
        .handle_server_message(ServerMessage::DataReceived { channel: ChannelId(1), connection: None, data: vec![3] })
        .unwrap();
    assert_eq!(udp.len(), 1, "The channel is now the UDP one that was asked for");
    let old_connection = client
        .handle_server_message(ServerMessage::TcpConnectionClosed { channel: ChannelId(1), connection: ConnectionId(4) })
        .unwrap();
    assert!(old_connection.is_empty(), "The replaced channel's connections are forgotten");
}
