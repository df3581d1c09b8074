use mqtt_codec::packet::connack::{self, ConnAckData, ConnRetCode};
use mqtt_codec::packet::connect::{self, ConnectData, ConnectWill};
use mqtt_codec::packet::{deserialize, disconnect, pingreq, pingresp, serialize, PType};
use mqtt_codec::MqttError;

#[test]
fn serialize_success() {
    let d = ConnAckData { session_present: true, ret_code: ConnRetCode::Accepted };

    let output = connack::serialize(&d);
    let packet_type = output[0] >> 4;
    assert_eq!(2, packet_type);
    assert_eq!(2, output[1]);
    assert_eq!(0, 0b1111_1110 & output[2]);
    assert_eq!(1, 0b0000_0001 & output[2]); // session present
    assert_eq!(0, output[3]);
}

#[test]
fn deserialize_success() {}

#[test]
fn in_and_out() {
    let din = ConnAckData { session_present: true, ret_code: ConnRetCode::Accepted };
    let dout = connack::deserialize(connack::serialize(&din).as_slice()).unwrap();
    assert_eq!(din.session_present, dout.session_present);
    assert_eq!(din.ret_code, dout.ret_code);
}

#[test]
fn connack_all_codes_round_trip() {
    let codes = [
        ConnRetCode::Accepted,
        ConnRetCode::WrongProtocolVersion,
        ConnRetCode::IdentifierRejected,
        ConnRetCode::ServerUnavailable,
        ConnRetCode::BadUsernameOrPassword,
        ConnRetCode::NotAuthorized,
    ];
    for code in codes {
        for session_present in [false, true] {
            let din = ConnAckData { session_present, ret_code: code };
            let dout = connack::deserialize(connack::serialize(&din).as_slice()).unwrap();
            assert_eq!(din.session_present, dout.session_present);
            assert_eq!(din.ret_code, dout.ret_code);
        }
    }
}

#[test]
fn connack_exact_bytes() {
    let d = ConnAckData { session_present: false, ret_code: ConnRetCode::ServerUnavailable };
    assert_eq!(connack::serialize(&d), vec![0x20, 0x02, 0x00, 0x03]);
}

#[test]
fn connack_invalid_return_code() {
    let r = connack::deserialize(&[0x20, 0x02, 0x00, 0x06]);
    assert_eq!(r.unwrap_err(), MqttError::InvalidReturnCode);
}

#[test]
fn in_and_out_simple_success() {
    let data_in = ConnectData {
        keep_alive: 60,
        client_ident: "ident".to_string(),
        clean_session: false,
        username: None,
        password: None,
        will: None,
    };
    let data_out = connect::deserialize(connect::serialize(&data_in).as_mut_slice()).unwrap();
    assert_eq!(data_in.keep_alive, data_out.keep_alive);
    assert_eq!(data_in.client_ident, data_out.client_ident);
    assert_eq!(data_in.clean_session, data_out.clean_session);
    assert_eq!(data_in.username, data_out.username);
    assert_eq!(data_in.password, data_out.password);
    assert_eq!(data_in.will.is_none(), data_out.will.is_none());
}

#[test]
fn in_and_out_everything_success() {
    let data_in = ConnectData {
        keep_alive: 60,
        client_ident: String::from("abc"),
        clean_session: false,
        username: Some("theuname".to_string()),
        password: Some("thepword".to_string()),
        will: Some(ConnectWill {
            topic: "hilfe/abc".to_string(),
            message: "12345678".to_string(),
            qos: 2,
            retain: true,
        }),
    };
    let data_out = connect::deserialize(connect::serialize(&data_in).as_mut_slice()).unwrap();
    assert_eq!(data_in.keep_alive, data_out.keep_alive);
    assert_eq!(data_in.client_ident, data_out.client_ident);
    assert_eq!(data_in.clean_session, data_out.clean_session);
    assert_eq!(data_in.username, data_out.username);
    assert_eq!(data_in.password, data_out.password);
    assert_eq!(data_in.will.is_none(), data_out.will.is_none());
}

#[test]
fn connect_will_fields_round_trip() {
    let data_in = ConnectData {
        keep_alive: 10,
        client_ident: "lamp".to_string(),
        clean_session: true,
        username: None,
        password: None,
        will: Some(ConnectWill {
            topic: "status/lamp".to_string(),
            message: "offline".to_string(),
            qos: 1,
            retain: false,
        }),
    };
    let data_out = connect::deserialize(connect::serialize(&data_in).as_slice()).unwrap();
    let will_in = data_in.will.unwrap();
    let will_out = data_out.will.unwrap();
    assert_eq!(will_in.topic, will_out.topic);
    assert_eq!(will_in.message, will_out.message);
    assert_eq!(will_in.qos, will_out.qos);
    assert_eq!(will_in.retain, will_out.retain);
    assert_eq!(data_out.clean_session, true);
}

#[test]
fn connect_exact_bytes() {
    let packet = PType::Connect(ConnectData {
        keep_alive: 60,
        client_ident: String::from("abc"),
        clean_session: false,
        username: None,
        password: None,
        will: None,
    });
    let bytes = serialize(packet);
    assert_eq!(
        bytes,
        vec![
            0x10, 0x10, 0x00, 0x04, b'M', b'Q', b'T', b'T', 0x04, 0x00, 0x00, 0x3C, 0x00, 0x03,
            b'a', b'b', b'c',
        ],
    );
}

#[test]
fn connect_wrong_protocol_name() {
    let packet = PType::Connect(ConnectData {
        keep_alive: 60,
        client_ident: String::from("abc"),
        clean_session: false,
        username: None,
        password: None,
        will: None,
    });
    let mut bytes = serialize(packet);
    bytes[7] = b'X'; // protocol name now reads "MQTX"
    assert_eq!(deserialize(bytes.as_slice()).unwrap_err(), MqttError::ProtocolNameMismatch);
}

#[test]
fn connect_wrong_protocol_level() {
    let packet = PType::Connect(ConnectData {
        keep_alive: 60,
        client_ident: String::from("abc"),
        clean_session: false,
        username: None,
        password: None,
        will: None,
    });
    let mut bytes = serialize(packet);
    bytes[8] = 5;
    assert_eq!(
        deserialize(bytes.as_slice()).unwrap_err(),
        MqttError::UnsupportedProtocolVersion,
    );
}

#[test]
fn connect_truncated() {
    assert_eq!(connect::deserialize(&[]).unwrap_err(), MqttError::TruncatedInput);
    assert_eq!(connect::deserialize(&[0x10]).unwrap_err(), MqttError::TruncatedInput);
    let packet = PType::Connect(ConnectData {
        keep_alive: 60,
        client_ident: String::from("abc"),
        clean_session: false,
        username: None,
        password: None,
        will: None,
    });
    let bytes = serialize(packet);
    let cut = &bytes[..bytes.len() - 1];
    assert_eq!(deserialize(cut).unwrap_err(), MqttError::TruncatedInput);
}

#[test]
fn unknown_packet_type() {
    assert_eq!(deserialize(&[0xF0]).unwrap_err(), MqttError::UnknownPacketType);
}

#[test]
fn empty_buffer_is_truncated() {
    assert_eq!(deserialize(&[]).unwrap_err(), MqttError::TruncatedInput);
}

#[test]
fn zero_payload_round_trips() {
    assert_eq!(serialize(PType::PingReq), vec![0xC0, 0x00]);
    assert_eq!(serialize(PType::PingResp), vec![0xD0, 0x00]);
    assert_eq!(serialize(PType::Disconnect), vec![0xE0, 0x00]);
    assert!(matches!(deserialize(&[0xC0, 0x00]).unwrap(), PType::PingReq));
    assert!(matches!(deserialize(&[0xD0, 0x00]).unwrap(), PType::PingResp));
    assert!(matches!(deserialize(&[0xE0, 0x00]).unwrap(), PType::Disconnect));
}

#[test]
fn zero_payload_malformed() {
    assert_eq!(pingreq::deserialize(&[0xC0, 0x01]).unwrap_err(), MqttError::MalformedPacket);
    assert_eq!(pingresp::deserialize(&[0xD0, 0x01]).unwrap_err(), MqttError::MalformedPacket);
    assert_eq!(disconnect::deserialize(&[0xE1, 0x00]).unwrap_err(), MqttError::MalformedPacket);
    assert_eq!(pingreq::deserialize(&[0xC0]).unwrap_err(), MqttError::TruncatedInput);
}

#[test]
fn dispatcher_connack_round_trip() {
    let packet = PType::ConnAck(ConnAckData {
        session_present: false,
        ret_code: ConnRetCode::NotAuthorized,
    });
    match deserialize(serialize(packet).as_slice()).unwrap() {
        PType::ConnAck(d) => {
            assert_eq!(d.session_present, false);
            assert_eq!(d.ret_code, ConnRetCode::NotAuthorized);
        },
        _ => panic!("wrong packet type"),
    }
}

#[test]
fn dispatcher_connect_round_trip() {
    let packet = PType::Connect(ConnectData {
        keep_alive: 300,
        client_ident: "sensor-7".to_string(),
        clean_session: true,
        username: Some("user".to_string()),
        password: Some("opensesame".to_string()),
        will: Some(ConnectWill {
            topic: "alerts".to_string(),
            message: "gone".to_string(),
            qos: 0,
            retain: true,
        }),
    });
    match deserialize(serialize(packet).as_slice()).unwrap() {
        PType::Connect(d) => {
            assert_eq!(d.keep_alive, 300);
            assert_eq!(d.client_ident, "sensor-7");
            assert_eq!(d.clean_session, true);
            assert_eq!(d.username.as_deref(), Some("user"));
            assert_eq!(d.password.as_deref(), Some("opensesame"));
            let will = d.will.unwrap();
            assert_eq!(will.topic, "alerts");
            assert_eq!(will.message, "gone");
            assert_eq!(will.qos, 0);
            assert_eq!(will.retain, true);
        },
        _ => panic!("wrong packet type"),
    }
}
