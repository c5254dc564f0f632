pub mod enums;
pub mod handshake;
pub mod msg;
pub mod state;


