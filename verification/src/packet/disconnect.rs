//! The DISCONNECT packet defined in MQTT spec 3.14: a fixed two-byte header
//! with type nibble 14 and no payload.

use vstd::prelude::*;

use crate::error::MqttError;

verus! {

/// The two wire bytes of a DISCONNECT packet.
pub open spec fn spec_packet_bytes() -> Seq<u8> {
    seq![0xE0u8, 0u8]
}

/// What validating a DISCONNECT packet against `s` yields: the two-byte
/// form must be present and match exactly.
pub open spec fn spec_parse(s: Seq<u8>) -> Result<(), MqttError> {
    if s.len() < 2 {
        Err(MqttError::TruncatedInput)
    } else if s[0] != 0xE0 || s[1] != 0 {
        Err(MqttError::MalformedPacket)
    } else {
        Ok(())
    }
}

/// Serialize a Disconnect packet: its fixed header alone.
pub fn serialize() -> (r: Vec<u8>)
    ensures
        r@ == spec_packet_bytes(),
{
    let mut packet = Vec::<u8>::with_capacity(2);
    packet.push(0xE0);
    packet.push(0);
    proof {
        assert(packet@ =~= spec_packet_bytes());
    }
    packet
}

/// Deserialize a Disconnect packet: the fixed header must match exactly.
pub fn deserialize(pdata: &[u8]) -> (r: Result<(), MqttError>)
    ensures
        r == spec_parse(pdata@),
{
    if pdata.len() < 2 {
        return Err(MqttError::TruncatedInput);
    }
    if pdata[0] != 0xE0 || pdata[1] != 0 {
        return Err(MqttError::MalformedPacket);
    }
    Ok(())
}

} // verus!
