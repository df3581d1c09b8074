use vstd::prelude::*;

verus! {

/// The ways a packet or a field can fail to encode or decode.
#[derive(Clone, Copy, Debug, PartialEq, Eq, Structural)]
pub enum MqttError {
    /// Fewer bytes are available than a field declares.
    TruncatedInput,
    /// The remaining-length varint needs more bytes than are supported.
    MalformedLength,
    /// A string's UTF-8 form is longer than 65535 bytes.
    StringTooLong,
    /// The protocol name field of a CONNECT packet is not "MQTT".
    ProtocolNameMismatch,
    /// The protocol level field of a CONNECT packet is not 4 (MQTT 3.1.1).
    UnsupportedProtocolVersion,
    /// A CONNACK return code above 5.
    InvalidReturnCode,
    /// The type nibble of the first byte names no supported packet.
    UnknownPacketType,
    /// A zero-payload packet does not match its fixed two-byte form.
    MalformedPacket,
}

} // verus!
