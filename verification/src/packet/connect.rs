//! The CONNECT packet defined in MQTT spec 3.1.

use vstd::prelude::*;
use vstd::slice::slice_subrange;
use vstd::utf8::encode_utf8;

use crate::error::MqttError;
use crate::util::{
    bytes_eq, decode_remaining_length, decode_string, encode_remaining_length, encode_string,
    lemma_string_round_trip, rl_encoding, rl_parse, spec_decode_string, spec_encode_string,
};

verus! {

/// Optional last-will record carried by a CONNECT packet.
#[derive(Debug)]
pub struct ConnectWill {
    pub topic: String,
    pub message: String,
    pub qos: u8,
    pub retain: bool,
}

/// The fields of a CONNECT packet.
#[derive(Debug)]
pub struct ConnectData {
    pub keep_alive: u16,
    pub client_ident: String,
    pub username: Option<String>,
    pub password: Option<String>,
    pub clean_session: bool,
    pub will: Option<ConnectWill>,
}

/// A will record with its texts as character sequences.
#[verifier::ext_equal]
pub struct WillView {
    pub topic: Seq<char>,
    pub message: Seq<char>,
    pub qos: u8,
    pub retain: bool,
}

/// A CONNECT packet with its texts as character sequences.
#[verifier::ext_equal]
pub struct ConnectView {
    pub keep_alive: u16,
    pub client_ident: Seq<char>,
    pub username: Option<Seq<char>>,
    pub password: Option<Seq<char>>,
    pub clean_session: bool,
    pub will: Option<WillView>,
}

impl View for ConnectWill {
    type V = WillView;

    open spec fn view(&self) -> WillView {
        WillView {
            topic: self.topic@,
            message: self.message@,
            qos: self.qos,
            retain: self.retain,
        }
    }
}

impl View for ConnectData {
    type V = ConnectView;

    open spec fn view(&self) -> ConnectView {
        ConnectView {
            keep_alive: self.keep_alive,
            client_ident: self.client_ident@,
            username: match self.username {
                Some(u) => Some(u@),
                None => None,
            },
            password: match self.password {
                Some(p) => Some(p@),
                None => None,
            },
            clean_session: self.clean_session,
            will: match self.will {
                Some(w) => Some(w@),
                None => None,
            },
        }
    }
}

/// Every text of `v` fits the two-byte length prefix of its wire form.
pub open spec fn connect_texts_fit(v: ConnectView) -> bool {
    &&& encode_utf8(v.client_ident).len() <= 65535
    &&& match v.will {
        Some(w) => encode_utf8(w.topic).len() <= 65535 && encode_utf8(w.message).len() <= 65535,
        None => true,
    }
    &&& match v.username {
        Some(u) => encode_utf8(u).len() <= 65535,
        None => true,
    }
    &&& match v.password {
        Some(p) => encode_utf8(p).len() <= 65535,
        None => true,
    }
}

/// A CONNECT packet that the wire layout can carry faithfully: its texts
/// fit their length prefixes, the will QoS is a valid delivery level, and
/// a password comes only together with a username.
pub open spec fn connect_wf(v: ConnectView) -> bool {
    &&& connect_texts_fit(v)
    &&& match v.will {
        Some(w) => w.qos <= 2,
        None => true,
    }
    &&& (v.password is Some ==> v.username is Some)
}

/// The connect-flags byte of `v` (MQTT 3.1.2.3): bit 1 clean session,
/// bit 2 will present, bits 3-4 will QoS, bit 5 will retain, bit 6
/// password present, bit 7 username present. The password bit is set only
/// when a username is present as well.
pub open spec fn spec_connect_flags(v: ConnectView) -> u8 {
    let clean_bit: u8 = if v.clean_session {
        2
    } else {
        0
    };
    let will_bit: u8 = if v.will is Some {
        4
    } else {
        0
    };
    let qos_bits: u8 = match v.will {
        Some(w) => w.qos & 3,
        None => 0,
    };
    let retain_bit: u8 = match v.will {
        Some(w) => if w.retain {
            32
        } else {
            0
        },
        None => 0,
    };
    let username_bit: u8 = if v.username is Some {
        128
    } else {
        0
    };
    let password_bit: u8 = if v.username is Some && v.password is Some {
        64
    } else {
        0
    };
    clean_bit | will_bit | (qos_bits << 3) | retain_bit | password_bit | username_bit
}

/// The will section of the payload: topic then message when a will is
/// present, nothing otherwise.
pub open spec fn spec_will_bytes(v: ConnectView) -> Seq<u8> {
    match v.will {
        Some(w) => spec_encode_string(w.topic) + spec_encode_string(w.message),
        None => Seq::empty(),
    }
}

/// The credentials section of the payload: the username when present,
/// followed by the password only when a username carries it.
pub open spec fn spec_user_bytes(v: ConnectView) -> Seq<u8> {
    match v.username {
        Some(u) => spec_encode_string(u) + (match v.password {
            Some(p) => spec_encode_string(p),
            None => Seq::empty(),
        }),
        None => Seq::empty(),
    }
}

/// The variable header and payload of `v`: protocol name, protocol level 4,
/// connect flags, keep-alive, client identifier, then will topic and
/// message, username and password, each present exactly when its flag bit
/// is set.
pub open spec fn spec_connect_body(v: ConnectView) -> Seq<u8> {
    spec_encode_string("MQTT"@) + seq![
        4u8,
        spec_connect_flags(v),
        (v.keep_alive / 256) as u8,
        (v.keep_alive % 256) as u8,
    ] + spec_encode_string(v.client_ident) + spec_will_bytes(v) + spec_user_bytes(v)
}

/// The remaining-length value written for a body of `n` bytes. The field
/// counts everything that follows the packet-type byte, its own varint
/// bytes included, so it exceeds the body by the size of its encoding.
pub open spec fn spec_framed_len(n: int) -> u32
    recommends
        0 <= n <= 2097148,
{
    if n <= 126 {
        (n + 1) as u32
    } else if n <= 16381 {
        (n + 2) as u32
    } else {
        (n + 3) as u32
    }
}

/// The full wire form of CONNECT packet `v`: type byte 0x10, the
/// remaining-length varint, then the variable header and payload.
pub open spec fn spec_serialize_connect(v: ConnectView) -> Seq<u8> {
    seq![16u8] + rl_encoding(spec_framed_len(spec_connect_body(v).len() as int))
        + spec_connect_body(v)
}

/// Decode a string field when `present` says its flag bit was set,
/// consuming nothing otherwise.
pub open spec fn spec_parse_opt_string(s: Seq<u8>, present: bool) -> Result<
    (Option<Seq<char>>, Seq<u8>),
    MqttError,
> {
    if present {
        match spec_decode_string(s) {
            Ok((c, t)) => Ok((Some(t), s.skip(c))),
            Err(e) => Err(e),
        }
    } else {
        Ok((None, s))
    }
}

/// Decode the will record when the will flag of `flags` is set: its topic
/// and message in order, its QoS and retain read from the flag bits.
pub open spec fn spec_parse_will(s: Seq<u8>, flags: u8) -> Result<
    (Option<WillView>, Seq<u8>),
    MqttError,
> {
    if flags & 4 != 0 {
        match spec_decode_string(s) {
            Err(e) => Err(e),
            Ok((tc, topic)) => match spec_decode_string(s.skip(tc)) {
                Err(e) => Err(e),
                Ok((mc, message)) => Ok(
                    (
                        Some(
                            WillView {
                                topic,
                                message,
                                qos: (flags >> 3) & 3,
                                retain: flags & 32 != 0,
                            },
                        ),
                        s.skip(tc).skip(mc),
                    ),
                ),
            },
        }
    } else {
        Ok((None, s))
    }
}

/// Decode the payload fields that follow the client identifier, gated by
/// the flag bits read from the wire: the will record, then the username,
/// then the password, which is read only when the username flag is set too.
pub open spec fn spec_parse_connect_tail(
    s: Seq<u8>,
    flags: u8,
    keep_alive: u16,
    ident: Seq<char>,
) -> Result<ConnectView, MqttError> {
    match spec_parse_will(s, flags) {
        Err(e) => Err(e),
        Ok((will, r1)) => match spec_parse_opt_string(r1, flags & 128 != 0) {
            Err(e) => Err(e),
            Ok((username, r2)) => match spec_parse_opt_string(
                r2,
                flags & 128 != 0 && flags & 64 != 0,
            ) {
                Err(e) => Err(e),
                Ok((password, _rest)) => Ok(
                    ConnectView {
                        keep_alive,
                        client_ident: ident,
                        username,
                        password,
                        clean_session: flags & 2 != 0,
                        will,
                    },
                ),
            },
        },
    }
}

/// Decode the variable header and payload of a CONNECT packet: the
/// protocol name must be exactly "MQTT" and the protocol level exactly 4;
/// then the connect flags, keep-alive and client identifier are read, and
/// the tail fields as the flag bits demand.
pub open spec fn spec_parse_connect_body(s: Seq<u8>) -> Result<ConnectView, MqttError> {
    match spec_decode_string(s) {
        Err(e) => Err(e),
        Ok((nc, name)) => {
            if name != "MQTT"@ {
                Err(MqttError::ProtocolNameMismatch)
            } else {
                let r = s.skip(nc);
                if r.len() < 1 {
                    Err(MqttError::TruncatedInput)
                } else if r[0] != 4 {
                    Err(MqttError::UnsupportedProtocolVersion)
                } else if r.len() < 2 {
                    Err(MqttError::TruncatedInput)
                } else {
                    let flags = r[1];
                    let r2 = r.skip(2);
                    if r2.len() < 2 {
                        Err(MqttError::TruncatedInput)
                    } else {
                        let keep_alive = (r2[0] * 256 + r2[1]) as u16;
                        match spec_decode_string(r2.skip(2)) {
                            Err(e) => Err(e),
                            Ok((cc, ident)) => spec_parse_connect_tail(
                                r2.skip(2).skip(cc),
                                flags,
                                keep_alive,
                                ident,
                            ),
                        }
                    }
                }
            }
        },
    }
}

/// What decoding a CONNECT packet from `s` yields: the remaining-length
/// varint after the type byte is skipped, then the variable header and
/// payload.
pub open spec fn spec_parse_connect(s: Seq<u8>) -> Result<ConnectView, MqttError> {
    if s.len() < 1 {
        Err(MqttError::TruncatedInput)
    } else {
        match rl_parse(s.skip(1)) {
            Err(e) => Err(e),
            Ok((_len, c)) => spec_parse_connect_body(s.skip(1 + c)),
        }
    }
}

/// The protocol name "MQTT" is four ASCII characters, so its UTF-8 form is
/// exactly four bytes.
proof fn lemma_protocol_name()
    ensures
        "MQTT"@.len() == 4,
        encode_utf8("MQTT"@).len() == 4,
{
    reveal_strlit("MQTT");
    assert(vstd::utf8::is_ascii_chars("MQTT"@));
    vstd::utf8::is_ascii_chars_encode_utf8("MQTT"@);
}

/// With every text within its length prefix, the variable header and
/// payload stay well under the three-byte reach of the remaining-length
/// varint.
proof fn lemma_connect_body_len(v: ConnectView)
    requires
        connect_texts_fit(v),
    ensures
        10 <= spec_connect_body(v).len() <= 327695,
{
    lemma_protocol_name();
}

/// How each flag bit reads back from the connect-flags byte of `v`.
proof fn lemma_connect_flags_bits(v: ConnectView)
    ensures
        ({
            let f = spec_connect_flags(v);
            &&& (f & 2 != 0) == v.clean_session
            &&& (f & 4 != 0) == (v.will is Some)
            &&& (f & 128 != 0) == (v.username is Some)
            &&& (f & 64 != 0) == (v.username is Some && v.password is Some)
            &&& match v.will {
                Some(wl) => (f >> 3) & 3 == (wl.qos & 3) && ((f & 32 != 0) == wl.retain),
                None => true,
            }
        }),
{
    let f = spec_connect_flags(v);
    let cb: u8 = if v.clean_session {
        2
    } else {
        0
    };
    let wb: u8 = if v.will is Some {
        4
    } else {
        0
    };
    let qb: u8 = match v.will {
        Some(w) => w.qos & 3,
        None => 0,
    };
    let rb: u8 = match v.will {
        Some(w) => if w.retain {
            32
        } else {
            0
        },
        None => 0,
    };
    let ub: u8 = if v.username is Some {
        128
    } else {
        0
    };
    let pb: u8 = if v.username is Some && v.password is Some {
        64
    } else {
        0
    };
    assert(f == cb | wb | (qb << 3) | rb | pb | ub);
    match v.will {
        Some(w) => {
            let q = w.qos;
            assert(q & 3 <= 3) by (bit_vector);
        },
        None => {},
    }
    assert((f & 2 != 0) == (cb == 2) && (f & 4 != 0) == (wb == 4) && (f >> 3) & 3 == qb && (f
        & 32 != 0) == (rb == 32) && (f & 64 != 0) == (pb == 64) && (f & 128 != 0) == (ub
        == 128)) by (bit_vector)
        requires
            f == cb | wb | (qb << 3) | rb | pb | ub,
            cb == 0 || cb == 2,
            wb == 0 || wb == 4,
            qb <= 3,
            rb == 0 || rb == 32,
            pb == 0 || pb == 64,
            ub == 0 || ub == 128,
    ;
}

/// The payload fields behind the client identifier read back exactly, and
/// leave nothing misattributed, for every well-formed packet.
proof fn lemma_connect_tail_round_trip(v: ConnectView)
    requires
        connect_wf(v),
    ensures
        spec_parse_connect_tail(
            spec_will_bytes(v) + spec_user_bytes(v),
            spec_connect_flags(v),
            v.keep_alive,
            v.client_ident,
        ) == Ok::<ConnectView, MqttError>(v),
{
    let f = spec_connect_flags(v);
    let s = spec_will_bytes(v) + spec_user_bytes(v);
    let ub = spec_user_bytes(v);
    lemma_connect_flags_bits(v);

    // the will section
    match v.will {
        None => {
            assert(s =~= ub);
            assert(spec_parse_will(s, f) == Ok::<(Option<WillView>, Seq<u8>), MqttError>(
                (None, s),
            ));
        },
        Some(wl) => {
            let topic_enc = spec_encode_string(wl.topic);
            let message_enc = spec_encode_string(wl.message);
            assert(s =~= topic_enc + (message_enc + ub));
            lemma_string_round_trip(wl.topic, message_enc + ub);
            let tc = encode_utf8(wl.topic).len() + 2int;
            assert(s.skip(tc) =~= message_enc + ub);
            lemma_string_round_trip(wl.message, ub);
            let mc = encode_utf8(wl.message).len() + 2int;
            assert(s.skip(tc).skip(mc) =~= ub);
            let q = wl.qos;
            assert(q & 3 == q) by (bit_vector)
                requires
                    q <= 2,
            ;
            assert(spec_parse_will(s, f) == Ok::<(Option<WillView>, Seq<u8>), MqttError>(
                (Some(wl), s.skip(tc).skip(mc)),
            ));
        },
    }

    // the credentials section
    match v.username {
        None => {
            assert(v.password is None);
        },
        Some(u) => {
            let u_enc = spec_encode_string(u);
            match v.password {
                None => {
                    assert(ub =~= u_enc + Seq::<u8>::empty());
                    lemma_string_round_trip(u, Seq::empty());
                },
                Some(p) => {
                    let p_enc = spec_encode_string(p);
                    assert(ub =~= u_enc + p_enc);
                    lemma_string_round_trip(u, p_enc);
                    let uc = encode_utf8(u).len() + 2int;
                    assert(ub.skip(uc) =~= p_enc + Seq::<u8>::empty());
                    lemma_string_round_trip(p, Seq::empty());
                    assert(spec_decode_string(p_enc + Seq::<u8>::empty())
                        == spec_decode_string(ub.skip(uc)));
                },
            }
        },
    }
}

/// The variable header and payload read back exactly, for every
/// well-formed packet.
#[verifier::rlimit(100)]
#[verifier::spinoff_prover]
proof fn lemma_connect_body_round_trip(v: ConnectView)
    requires
        connect_wf(v),
    ensures
        spec_parse_connect_body(spec_connect_body(v)) == Ok::<ConnectView, MqttError>(v),
{
    lemma_protocol_name();
    let body = spec_connect_body(v);
    let f = spec_connect_flags(v);
    let hi = (v.keep_alive / 256) as u8;
    let lo = (v.keep_alive % 256) as u8;
    let ident_enc = spec_encode_string(v.client_ident);
    let tail = spec_will_bytes(v) + spec_user_bytes(v);
    let rest1 = seq![4u8, f, hi, lo] + ident_enc + spec_will_bytes(v) + spec_user_bytes(v);

    assert(body =~= spec_encode_string("MQTT"@) + rest1);
    lemma_string_round_trip("MQTT"@, rest1);
    assert(spec_decode_string(body) == Ok::<(int, Seq<char>), MqttError>((6, "MQTT"@)));

    let r = body.skip(6);
    assert(r =~= rest1);
    assert(r[0] == 4 && r[1] == f);

    let r2 = r.skip(2);
    assert(r2 =~= seq![hi, lo] + (ident_enc + tail));
    assert(r2[0] == hi && r2[1] == lo);
    vstd::arithmetic::div_mod::lemma_fundamental_div_mod(v.keep_alive as int, 256);
    assert((r2[0] * 256 + r2[1]) as u16 == v.keep_alive);

    let r3 = r2.skip(2);
    assert(r3 =~= ident_enc + tail);
    lemma_string_round_trip(v.client_ident, tail);
    let cc = encode_utf8(v.client_ident).len() + 2int;
    assert(spec_decode_string(r3) == Ok::<(int, Seq<char>), MqttError>((cc, v.client_ident)));
    assert(r3.skip(cc) =~= tail);

    lemma_connect_tail_round_trip(v);
    assert(spec_parse_connect_tail(r3.skip(cc), f, v.keep_alive, v.client_ident) == Ok::<
        ConnectView,
        MqttError,
    >(v));
}

/// Round trip: decoding the serialized form of any well-formed CONNECT
/// packet — with or without a username, a password or a will, whatever its
/// keep-alive, clean-session and will fields — yields the packet back.
pub proof fn lemma_connect_round_trip(v: ConnectView)
    requires
        connect_wf(v),
    ensures
        spec_parse_connect(spec_serialize_connect(v)) == Ok::<ConnectView, MqttError>(v),
{
    lemma_connect_body_len(v);
    let body = spec_connect_body(v);
    let rl = spec_framed_len(body.len() as int);
    let w = spec_serialize_connect(v);
    crate::util::lemma_rl_round_trip(rl, body);
    assert(w.skip(1) =~= rl_encoding(rl) + body);
    let c = rl_encoding(rl).len() as int;
    assert(rl_parse(w.skip(1)) == Ok::<(u32, int), MqttError>((rl, c)));
    assert(w.skip(1 + c) =~= body);
    lemma_connect_body_round_trip(v);
}

/// Serialize a Connect packet with its data.
#[verifier::rlimit(50)]
pub fn serialize(cd: &ConnectData) -> (r: Vec<u8>)
    requires
        connect_texts_fit(cd@),
    ensures
        r@ == spec_serialize_connect(cd@),
{
    proof {
        lemma_protocol_name();
    }
    // connect flags (MQTT 3.1.2.3); QoS and retain are independent bits
    let clean_bit: u8 = if cd.clean_session {
        2
    } else {
        0
    };
    let (will_bit, qos_bits, retain_bit): (u8, u8, u8) = match &cd.will {
        Some(will) => (
            4,
            will.qos & 3,
            if will.retain {
                32
            } else {
                0
            },
        ),
        None => (0, 0, 0),
    };
    let (username_bit, password_bit): (u8, u8) = match &cd.username {
        Some(_) => (
            128,
            match &cd.password {
                Some(_) => 64,
                None => 0,
            },
        ),
        None => (0, 0),
    };
    let connect_flags: u8 = clean_bit | will_bit | (qos_bits << 3) | retain_bit | password_bit
        | username_bit;
    assert(connect_flags == spec_connect_flags(cd@));

    // variable header, then payload, in wire order
    let mut body = encode_string("MQTT").unwrap();
    // protocol version 4 = 3.1.1
    body.push(4);
    body.push(connect_flags);
    body.push((cd.keep_alive / 256) as u8);
    body.push((cd.keep_alive % 256) as u8);

    let mut ident = encode_string(cd.client_ident.as_str()).unwrap();
    body.append(&mut ident);

    match &cd.will {
        Some(will) => {
            let mut topic = encode_string(will.topic.as_str()).unwrap();
            body.append(&mut topic);
            let mut message = encode_string(will.message.as_str()).unwrap();
            body.append(&mut message);
        },
        None => {},
    }
    match &cd.username {
        Some(username) => {
            let mut uname = encode_string(username.as_str()).unwrap();
            body.append(&mut uname);
            match &cd.password {
                Some(password) => {
                    let mut pword = encode_string(password.as_str()).unwrap();
                    body.append(&mut pword);
                },
                None => {},
            }
        },
        None => {},
    }
    proof {
        assert(body@ =~= spec_connect_body(cd@));
        lemma_connect_body_len(cd@);
    }

    let n = body.len();
    let remaining: u32 = if n <= 126 {
        (n + 1) as u32
    } else if n <= 16381 {
        (n + 2) as u32
    } else {
        (n + 3) as u32
    };

    let mut packet = Vec::<u8>::with_capacity(n + 4);
    packet.push(16);
    let mut encoded_len = encode_remaining_length(remaining);
    packet.append(&mut encoded_len);
    packet.append(&mut body);
    proof {
        assert(packet@ =~= spec_serialize_connect(cd@));
    }
    packet
}

/// Deserialize a Connect packet.
pub fn deserialize(pdata: &[u8]) -> (r: Result<ConnectData, MqttError>)
    ensures
        match r {
            Ok(d) => spec_parse_connect(pdata@) == Ok::<ConnectView, MqttError>(d@),
            Err(e) => spec_parse_connect(pdata@) == Err::<ConnectView, MqttError>(e),
        },
{
    broadcast use vstd::utf8::group_utf8_lib;

    let ghost s0 = pdata@;
    if pdata.len() < 1 {
        return Err(MqttError::TruncatedInput);
    }
    let tail = slice_subrange(pdata, 1, pdata.len());
    proof {
        assert(tail@ =~= s0.skip(1));
    }
    let remaining_length_len = match decode_remaining_length(tail) {
        Ok((_value, consumed)) => consumed,
        Err(e) => return Err(e),
    };
    let pdata = slice_subrange(pdata, 1 + remaining_length_len, pdata.len());
    let ghost sb = s0.skip(1 + remaining_length_len as int);
    proof {
        assert(pdata@ =~= sb);
    }

    // protocol name
    let (name_len, pname) = match decode_string(pdata) {
        Ok(p) => p,
        Err(e) => return Err(e),
    };
    if !bytes_eq(pname.as_str().as_bytes(), "MQTT".as_bytes()) {
        proof {
            assert(pname@ != "MQTT"@);
        }
        return Err(MqttError::ProtocolNameMismatch);
    }
    proof {
        assert(encode_utf8(pname@) == encode_utf8("MQTT"@));
        vstd::utf8::encode_utf8_decode_utf8(pname@);
        vstd::utf8::encode_utf8_decode_utf8("MQTT"@);
        assert(pname@ == "MQTT"@);
    }
    let pdata = slice_subrange(pdata, name_len, pdata.len());
    let ghost r1 = sb.skip(name_len as int);
    proof {
        assert(pdata@ =~= r1);
    }

    // protocol level
    if pdata.len() < 1 {
        return Err(MqttError::TruncatedInput);
    }
    let protocol_version = pdata[0];
    if protocol_version != 4 {
        return Err(MqttError::UnsupportedProtocolVersion);
    }
    if pdata.len() < 2 {
        return Err(MqttError::TruncatedInput);
    }
    let connect_flags = pdata[1];
    let pdata = slice_subrange(pdata, 2, pdata.len());
    let ghost r2 = r1.skip(2);
    proof {
        assert(pdata@ =~= r2);
    }

    // keep alive
    if pdata.len() < 2 {
        return Err(MqttError::TruncatedInput);
    }
    let keep_alive = (pdata[0] as u16) * 256 + (pdata[1] as u16);
    let pdata = slice_subrange(pdata, 2, pdata.len());
    let ghost r3 = r2.skip(2);
    proof {
        assert(pdata@ =~= r3);
    }

    // client identifier
    let (ident_len, client_ident) = match decode_string(pdata) {
        Ok(p) => p,
        Err(e) => return Err(e),
    };
    let pdata = slice_subrange(pdata, ident_len, pdata.len());
    proof {
        assert(pdata@ =~= r3.skip(ident_len as int));
    }

    // will, gated by its flag bit
    let (will, pdata): (Option<ConnectWill>, &[u8]) = if connect_flags & 4 != 0 {
        let (topic_len, topic) = match decode_string(pdata) {
            Ok(p) => p,
            Err(e) => return Err(e),
        };
        let inner = slice_subrange(pdata, topic_len, pdata.len());
        proof {
            assert(inner@ =~= pdata@.skip(topic_len as int));
        }
        let (message_len, message) = match decode_string(inner) {
            Ok(p) => p,
            Err(e) => return Err(e),
        };
        let rest = slice_subrange(inner, message_len, inner.len());
        proof {
            assert(rest@ =~= inner@.skip(message_len as int));
        }
        (
            Some(
                ConnectWill {
                    topic,
                    message,
                    qos: (connect_flags >> 3) & 3,
                    retain: connect_flags & 32 != 0,
                },
            ),
            rest,
        )
    } else {
        (None, pdata)
    };

    // username, gated by its flag bit
    let (username, pdata): (Option<String>, &[u8]) = if connect_flags & 128 != 0 {
        let (uname_len, uname) = match decode_string(pdata) {
            Ok(p) => p,
            Err(e) => return Err(e),
        };
        let rest = slice_subrange(pdata, uname_len, pdata.len());
        proof {
            assert(rest@ =~= pdata@.skip(uname_len as int));
        }
        (Some(uname), rest)
    } else {
        (None, pdata)
    };

    // password, read only when the username flag is set as well
    let password: Option<String> = if connect_flags & 128 != 0 && connect_flags & 64 != 0 {
        match decode_string(pdata) {
            Ok((_pword_len, pword)) => Some(pword),
            Err(e) => return Err(e),
        }
    } else {
        None
    };

    Ok(
        ConnectData {
            keep_alive,
            clean_session: connect_flags & 2 != 0,
            client_ident,
            username,
            password,
            will,
        },
    )
}

} // verus!
