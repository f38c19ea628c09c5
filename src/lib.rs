pub mod ids;
pub mod messages;
pub mod handshake;
pub mod server_handler;
pub mod client_handler;
