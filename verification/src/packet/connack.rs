//! The CONNACK packet defined in MQTT spec 3.2.

use vstd::prelude::*;
use vstd::slice::slice_subrange;

use crate::error::MqttError;
use crate::util::{decode_remaining_length, encode_remaining_length, rl_parse};

verus! {

/// Connection return code (MQTT 3.2.2.3).
#[derive(Clone, Copy, Debug, PartialEq, Eq, Structural)]
pub enum ConnRetCode {
    Accepted,
    WrongProtocolVersion,
    IdentifierRejected,
    ServerUnavailable,
    BadUsernameOrPassword,
    NotAuthorized,
}

/// The fields of a CONNACK packet.
#[derive(Clone, Copy, Debug, PartialEq, Eq, Structural)]
pub struct ConnAckData {
    pub session_present: bool,
    pub ret_code: ConnRetCode,
}

/// The byte that carries `code` on the wire.
pub open spec fn spec_ret_code_byte(code: ConnRetCode) -> u8 {
    match code {
        ConnRetCode::Accepted => 0,
        ConnRetCode::WrongProtocolVersion => 1,
        ConnRetCode::IdentifierRejected => 2,
        ConnRetCode::ServerUnavailable => 3,
        ConnRetCode::BadUsernameOrPassword => 4,
        ConnRetCode::NotAuthorized => 5,
    }
}

/// The return code a byte names, if any.
pub open spec fn spec_parse_ret_code(b: u8) -> Option<ConnRetCode> {
    if b == 0 {
        Some(ConnRetCode::Accepted)
    } else if b == 1 {
        Some(ConnRetCode::WrongProtocolVersion)
    } else if b == 2 {
        Some(ConnRetCode::IdentifierRejected)
    } else if b == 3 {
        Some(ConnRetCode::ServerUnavailable)
    } else if b == 4 {
        Some(ConnRetCode::BadUsernameOrPassword)
    } else if b == 5 {
        Some(ConnRetCode::NotAuthorized)
    } else {
        None
    }
}

/// The four wire bytes of CONNACK packet `cd`: type byte 0x20, remaining
/// length 2, acknowledge flags (bit 0 is session-present), return code.
pub open spec fn spec_serialize_connack(cd: ConnAckData) -> Seq<u8> {
    seq![
        32u8,
        2u8,
        if cd.session_present {
            1u8
        } else {
            0u8
        },
        spec_ret_code_byte(cd.ret_code),
    ]
}

/// What decoding a CONNACK packet from `s` yields: the remaining-length
/// varint after the type byte is skipped, then the acknowledge flags and
/// the return code are read.
pub open spec fn spec_parse_connack(s: Seq<u8>) -> Result<ConnAckData, MqttError> {
    if s.len() < 1 {
        Err(MqttError::TruncatedInput)
    } else {
        match rl_parse(s.skip(1)) {
            Err(e) => Err(e),
            Ok((_len, c)) => {
                if s.len() < 3 + c {
                    Err(MqttError::TruncatedInput)
                } else {
                    match spec_parse_ret_code(s[2 + c]) {
                        None => Err(MqttError::InvalidReturnCode),
                        Some(code) => Ok(
                            ConnAckData {
                                session_present: s[1 + c] & 0x01 != 0,
                                ret_code: code,
                            },
                        ),
                    }
                }
            },
        }
    }
}

/// Serialize a ConnAck packet with its data.
pub fn serialize(cd: &ConnAckData) -> (r: Vec<u8>)
    ensures
        r@ == spec_serialize_connack(*cd),
{
    let mut packet = Vec::<u8>::with_capacity(4);
    // 2 is for ConnAck
    packet.push(2u8 << 4);
    let mut variable_header = Vec::<u8>::new();
    let ackflags: u8 = if cd.session_present {
        1
    } else {
        0
    };
    variable_header.push(ackflags);
    variable_header.push(
        match cd.ret_code {
            ConnRetCode::Accepted => 0,
            ConnRetCode::WrongProtocolVersion => 1,
            ConnRetCode::IdentifierRejected => 2,
            ConnRetCode::ServerUnavailable => 3,
            ConnRetCode::BadUsernameOrPassword => 4,
            ConnRetCode::NotAuthorized => 5,
        },
    );
    let mut remaining = encode_remaining_length(2);
    packet.append(&mut remaining);
    packet.append(&mut variable_header);
    proof {
        assert(2u8 << 4 == 32) by (bit_vector);
        assert(packet@ =~= spec_serialize_connack(*cd));
    }
    packet
}

/// Deserialize a ConnAck packet.
pub fn deserialize(pdata: &[u8]) -> (r: Result<ConnAckData, MqttError>)
    ensures
        match r {
            Ok(d) => spec_parse_connack(pdata@) == Ok::<ConnAckData, MqttError>(d),
            Err(e) => spec_parse_connack(pdata@) == Err::<ConnAckData, MqttError>(e),
        },
{
    if pdata.len() < 1 {
        return Err(MqttError::TruncatedInput);
    }
    let tail = slice_subrange(pdata, 1, pdata.len());
    let rl_length = match decode_remaining_length(tail) {
        Ok((_value, consumed)) => consumed,
        Err(e) => return Err(e),
    };
    if pdata.len() < 3 + rl_length {
        return Err(MqttError::TruncatedInput);
    }
    let connack_flags = pdata[1 + rl_length];
    let ret_code = match pdata[2 + rl_length] {
        0 => ConnRetCode::Accepted,
        1 => ConnRetCode::WrongProtocolVersion,
        2 => ConnRetCode::IdentifierRejected,
        3 => ConnRetCode::ServerUnavailable,
        4 => ConnRetCode::BadUsernameOrPassword,
        5 => ConnRetCode::NotAuthorized,
        _ => {
            return Err(MqttError::InvalidReturnCode);
        },
    };
    Ok(ConnAckData { session_present: ((connack_flags & 0x01) != 0), ret_code })
}

/// Decoding a CONNACK packet finds exactly the fields that serializing
/// wrote, for every return code and either session-present state.
pub proof fn lemma_connack_round_trip(cd: ConnAckData)
    ensures
        spec_parse_connack(spec_serialize_connack(cd)) == Ok::<ConnAckData, MqttError>(cd),
{
    let w = spec_serialize_connack(cd);
    assert(w.skip(1) =~= seq![
        2u8,
        if cd.session_present {
            1u8
        } else {
            0u8
        },
        spec_ret_code_byte(cd.ret_code),
    ]);
    reveal_with_fuel(crate::util::rl_value, 3);
    assert(rl_parse(w.skip(1)) == Ok::<(u32, int), MqttError>((2u32, 1int)));
    assert(1u8 & 0x01 != 0 && 0u8 & 0x01 == 0) by (bit_vector);
    assert(spec_parse_ret_code(spec_ret_code_byte(cd.ret_code)) == Some(cd.ret_code));
}

} // verus!
