//! The supported MQTT control packets and the dispatcher that routes a raw
//! buffer to the codec its first byte names, and a typed packet back to its
//! codec.

use vstd::prelude::*;

use crate::error::MqttError;

pub mod connack;
pub mod connect;
pub mod disconnect;
pub mod pingreq;
pub mod pingresp;

verus! {

/// Packet Type
///
/// Holds packet data when there is some.
#[derive(Debug)]
pub enum PType {
    Connect(connect::ConnectData),
    ConnAck(connack::ConnAckData),
    PingReq,
    PingResp,
    Disconnect,
}

/// A packet with its texts as character sequences.
pub enum PacketView {
    Connect(connect::ConnectView),
    ConnAck(connack::ConnAckData),
    PingReq,
    PingResp,
    Disconnect,
}

impl View for PType {
    type V = PacketView;

    open spec fn view(&self) -> PacketView {
        match self {
            PType::Connect(data) => PacketView::Connect(data@),
            PType::ConnAck(data) => PacketView::ConnAck(*data),
            PType::PingReq => PacketView::PingReq,
            PType::PingResp => PacketView::PingResp,
            PType::Disconnect => PacketView::Disconnect,
        }
    }
}

/// Every text of `p` fits the two-byte length prefix of its wire form.
pub open spec fn packet_texts_fit(p: PacketView) -> bool {
    match p {
        PacketView::Connect(v) => connect::connect_texts_fit(v),
        _ => true,
    }
}

/// A packet that the wire layout can carry faithfully.
pub open spec fn packet_wf(p: PacketView) -> bool {
    match p {
        PacketView::Connect(v) => connect::connect_wf(v),
        _ => true,
    }
}

/// The wire form of `p`: the bytes of the codec its variant names.
pub open spec fn spec_serialize_packet(p: PacketView) -> Seq<u8> {
    match p {
        PacketView::Connect(v) => connect::spec_serialize_connect(v),
        PacketView::ConnAck(d) => connack::spec_serialize_connack(d),
        PacketView::PingReq => pingreq::spec_packet_bytes(),
        PacketView::PingResp => pingresp::spec_packet_bytes(),
        PacketView::Disconnect => disconnect::spec_packet_bytes(),
    }
}

/// What decoding a packet from `s` yields: the type nibble of the first
/// byte picks the codec, and any other nibble is unknown.
pub open spec fn spec_parse_packet(s: Seq<u8>) -> Result<PacketView, MqttError> {
    if s.len() < 1 {
        Err(MqttError::TruncatedInput)
    } else {
        let nibble = s[0] >> 4;
        if nibble == 1 {
            match connect::spec_parse_connect(s) {
                Ok(v) => Ok(PacketView::Connect(v)),
                Err(e) => Err(e),
            }
        } else if nibble == 2 {
            match connack::spec_parse_connack(s) {
                Ok(d) => Ok(PacketView::ConnAck(d)),
                Err(e) => Err(e),
            }
        } else if nibble == 12 {
            match pingreq::spec_parse(s) {
                Ok(_) => Ok(PacketView::PingReq),
                Err(e) => Err(e),
            }
        } else if nibble == 13 {
            match pingresp::spec_parse(s) {
                Ok(_) => Ok(PacketView::PingResp),
                Err(e) => Err(e),
            }
        } else if nibble == 14 {
            match disconnect::spec_parse(s) {
                Ok(_) => Ok(PacketView::Disconnect),
                Err(e) => Err(e),
            }
        } else {
            Err(MqttError::UnknownPacketType)
        }
    }
}

/// Serialize a packet which is represented by the packet type.
pub fn serialize(packet: PType) -> (r: Vec<u8>)
    requires
        packet_texts_fit(packet@),
    ensures
        r@ == spec_serialize_packet(packet@),
{
    match packet {
        PType::Connect(data) => connect::serialize(&data),
        PType::ConnAck(data) => connack::serialize(&data),
        PType::PingReq => pingreq::serialize(),
        PType::PingResp => pingresp::serialize(),
        PType::Disconnect => disconnect::serialize(),
    }
}

/// Deserialize a slice of bytes to a packet which is represented by a
/// packet type.
pub fn deserialize(pbytes: &[u8]) -> (r: Result<PType, MqttError>)
    ensures
        match r {
            Ok(p) => spec_parse_packet(pbytes@) == Ok::<PacketView, MqttError>(p@),
            Err(e) => spec_parse_packet(pbytes@) == Err::<PacketView, MqttError>(e),
        },
{
    if pbytes.len() < 1 {
        return Err(MqttError::TruncatedInput);
    }
    let packettype = pbytes[0] >> 4;
    match packettype {
        1 => {
            match connect::deserialize(pbytes) {
                Ok(data) => Ok(PType::Connect(data)),
                Err(e) => Err(e),
            }
        },
        2 => {
            match connack::deserialize(pbytes) {
                Ok(data) => Ok(PType::ConnAck(data)),
                Err(e) => Err(e),
            }
        },
        12 => {
            match pingreq::deserialize(pbytes) {
                Ok(_) => Ok(PType::PingReq),
                Err(e) => Err(e),
            }
        },
        13 => {
            match pingresp::deserialize(pbytes) {
                Ok(_) => Ok(PType::PingResp),
                Err(e) => Err(e),
            }
        },
        14 => {
            match disconnect::deserialize(pbytes) {
                Ok(_) => Ok(PType::Disconnect),
                Err(e) => Err(e),
            }
        },
        _ => Err(MqttError::UnknownPacketType),
    }
}

/// Round trip: decoding the serialized form of any well-formed packet —
/// CONNECT and CONNACK with all their field combinations, and the
/// zero-payload packets — yields the packet back.
pub proof fn lemma_packet_round_trip(p: PacketView)
    requires
        packet_wf(p),
    ensures
        spec_parse_packet(spec_serialize_packet(p)) == Ok::<PacketView, MqttError>(p),
{
    match p {
        PacketView::Connect(v) => {
            connect::lemma_connect_round_trip(v);
            assert(spec_serialize_packet(p)[0] == 16);
            assert(16u8 >> 4 == 1) by (bit_vector);
        },
        PacketView::ConnAck(d) => {
            connack::lemma_connack_round_trip(d);
            assert(spec_serialize_packet(p)[0] == 32);
            assert(32u8 >> 4 == 2) by (bit_vector);
        },
        PacketView::PingReq => {
            assert(0xC0u8 >> 4 == 12) by (bit_vector);
        },
        PacketView::PingResp => {
            assert(0xD0u8 >> 4 == 13) by (bit_vector);
        },
        PacketView::Disconnect => {
            assert(0xE0u8 >> 4 == 14) by (bit_vector);
        },
    }
}

} // verus!
