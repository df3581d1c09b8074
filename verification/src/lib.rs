//! Codec for the MQTT v3.1.1 control packets CONNECT, CONNACK, PINGREQ,
//! PINGRESP and DISCONNECT: typed packet records, their exact wire layout,
//! and proofs that decoding inverts encoding.

pub mod error;
pub mod packet;
pub mod util;

pub use error::MqttError;
pub use packet::PType as PacketType;
pub use packet::{deserialize, serialize};
