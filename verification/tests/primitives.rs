use mqtt_codec::util::{
    decode_remaining_length, decode_string, encode_remaining_length, encode_string,
};
use mqtt_codec::MqttError;

#[test]
fn encode_string_success() {
    let s = String::from("Hello World!");
    let v = encode_string(&s).unwrap();
    assert_eq!(14, v.len());
    assert_eq!(0, v[0]);
    assert_eq!(12, v[1]);
}

#[test]
fn encode_remaining_length_success() {
    {
        let rl = encode_remaining_length(5);
        assert_eq!(1, rl.len());
        assert_eq!(5, rl[0]);
    }
    {
        let rl = encode_remaining_length(128);
        assert_eq!(2, rl.len());
        assert_eq!(0x80, rl[0]);
        assert_eq!(0x01, rl[1]);
    }
    {
        let rl = encode_remaining_length(16384);
        assert_eq!(3, rl.len());
        assert_eq!(0x80, rl[0]);
        assert_eq!(0x80, rl[1]);
        assert_eq!(0x01, rl[2]);
    }
}

#[test]
fn decode_remaining_length_success() {
    {
        let input_length = 25;
        let input = vec![25u8];
        let (length, _consumed) = decode_remaining_length(input.as_slice()).unwrap();
        assert_eq!(input_length, length);
    }
    {
        let input_length = 128;
        let input = vec![0x80, 0x01];
        let (length, _consumed) = decode_remaining_length(input.as_slice()).unwrap();
        assert_eq!(input_length, length);
    }
    {
        let input_length = 16384;
        let input = vec![0x80, 0x80, 0x01];
        let (length, _consumed) = decode_remaining_length(input.as_slice()).unwrap();
        assert_eq!(input_length, length);
    }
    {
        let input_length = 2097152;
        let input = vec![0x80, 0x80, 0x80, 0x01];
        let (length, _consumed) = decode_remaining_length(input.as_slice()).unwrap();
        assert_eq!(input_length, length);
    }
    {
        let input_length = 2097151;
        let input = vec![0xFF, 0xFF, 0x7F];
        let (length, _consumed) = decode_remaining_length(input.as_slice()).unwrap();
        assert_eq!(input_length, length);
    }
}

#[test]
fn varint_boundary_table() {
    let cases: Vec<(u32, Vec<u8>)> = vec![
        (0, vec![0x00]),
        (127, vec![0x7F]),
        (128, vec![0x80, 0x01]),
        (16383, vec![0xFF, 0x7F]),
        (16384, vec![0x80, 0x80, 0x01]),
        (2097151, vec![0xFF, 0xFF, 0x7F]),
    ];
    for (value, bytes) in cases {
        assert_eq!(encode_remaining_length(value), bytes);
        let (decoded, consumed) = decode_remaining_length(bytes.as_slice()).unwrap();
        assert_eq!(decoded, value);
        assert_eq!(consumed, bytes.len());
    }
}

#[test]
fn varint_overflow_is_malformed() {
    let r = decode_remaining_length(&[0x80, 0x80, 0x80, 0x80]);
    assert_eq!(r.unwrap_err(), MqttError::MalformedLength);
}

#[test]
fn varint_truncated() {
    assert_eq!(decode_remaining_length(&[]).unwrap_err(), MqttError::TruncatedInput);
    assert_eq!(decode_remaining_length(&[0x80]).unwrap_err(), MqttError::TruncatedInput);
    assert_eq!(decode_remaining_length(&[0x80, 0x80, 0x80]).unwrap_err(), MqttError::TruncatedInput);
}

#[test]
fn string_length_limit() {
    let too_long = "a".repeat(65536);
    assert_eq!(encode_string(&too_long).unwrap_err(), MqttError::StringTooLong);

    let longest = "a".repeat(65535);
    let encoded = encode_string(&longest).unwrap();
    assert_eq!(encoded.len(), 65537);
    assert_eq!(encoded[0], 0xFF);
    assert_eq!(encoded[1], 0xFF);
    let (consumed, text) = decode_string(encoded.as_slice()).unwrap();
    assert_eq!(consumed, 65537);
    assert_eq!(text, longest);
}

#[test]
fn string_truncated() {
    assert_eq!(decode_string(&[0x00]).unwrap_err(), MqttError::TruncatedInput);
    assert_eq!(decode_string(&[0x00, 0x05, b'a']).unwrap_err(), MqttError::TruncatedInput);
}

#[test]
fn string_invalid_utf8_is_repaired() {
    let (consumed, text) = decode_string(&[0x00, 0x02, 0xFF, 0xFE]).unwrap();
    assert_eq!(consumed, 4);
    assert_eq!(text, "\u{FFFD}\u{FFFD}");
}

#[test]
fn string_non_ascii_round_trip() {
    let s = "gr\u{FC}\u{DF}e \u{4E16}\u{754C}";
    let encoded = encode_string(s).unwrap();
    let (consumed, text) = decode_string(encoded.as_slice()).unwrap();
    assert_eq!(consumed, encoded.len());
    assert_eq!(text, s);
}
