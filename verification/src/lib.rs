//! Binding a machine to Multiplex: the formats, the handshake and the rules.

pub mod announce;
pub mod authkeys;
pub mod bind;
pub mod bytes;
pub mod cbor;
pub mod clip;
pub mod crypto;
pub mod frame;
pub mod hostinfo;
pub mod payload;
pub mod protocol;
pub mod qr;
pub mod server;
pub mod sshkey;
pub mod text;
pub mod util;
