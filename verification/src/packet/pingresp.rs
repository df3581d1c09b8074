//! The PINGRESP packet defined in MQTT spec 3.13: a fixed two-byte header
//! with type nibble 13 and no payload.

use vstd::prelude::*;

use crate::error::MqttError;

verus! {

/// The two wire bytes of a PINGRESP packet.
pub open spec fn spec_packet_bytes() -> Seq<u8> {
    seq![0xD0u8, 0u8]
}

/// What validating a PINGRESP packet against `s` yields: the two-byte form
/// must be present and match exactly.
pub open spec fn spec_parse(s: Seq<u8>) -> Result<(), MqttError> {
    if s.len() < 2 {
        Err(MqttError::TruncatedInput)
    } else if s[0] != 0xD0 || s[1] != 0 {
        Err(MqttError::MalformedPacket)
    } else {
        Ok(())
    }
}

/// Serialize a PingResp packet: its fixed header alone.
pub fn serialize() -> (r: Vec<u8>)
    ensures
        r@ == spec_packet_bytes(),
{
    let mut packet = Vec::<u8>::with_capacity(2);
    packet.push(0xD0);
    packet.push(0);
    proof {
        assert(packet@ =~= spec_packet_bytes());
    }
    packet
}

/// Deserialize a PingResp packet: the fixed header must match exactly.
pub fn deserialize(pdata: &[u8]) -> (r: Result<(), MqttError>)
    ensures
        r == spec_parse(pdata@),
{
    if pdata.len() < 2 {
        return Err(MqttError::TruncatedInput);
    }
    if pdata[0] != 0xD0 || pdata[1] != 0 {
        return Err(MqttError::MalformedPacket);
    }
    Ok(())
}

} // verus!
